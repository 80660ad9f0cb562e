//! Key functions that answer `None` when the fact they read is missing or
//! of another type.
use vstd::prelude::*;
use crate::facts::{FactTuple, GreynetFact};
use crate::stream_def::extract_fact;
use crate::stream_def::key_extractors::{keyed_at, total_on};

verus! {

/// The key function that reads the first fact as a `T` (see `at`).
pub fn first<T, K, F, A>(key_fn: F) -> (r: impl Fn(&FactTuple<A>) -> Option<K>)
    where
        A: GreynetFact<T>,
        F: Fn(&T) -> K,
    requires
        total_on::<T, K, F>(key_fn),
    ensures
        forall|tuple: &FactTuple<A>| #[trigger] r.requires((tuple,)),
        forall|tuple: &FactTuple<A>, k: Option<K>|
            #[trigger] r.ensures((tuple,), k) ==> keyed_at::<T, K, F, A>(key_fn, tuple@, 0, k),
{
    at::<T, K, F, A>(0, key_fn)
}

/// A key function that applies `key_fn` to the fact at `index` read as a
/// `T`; `None` when there is no `T` there.
pub fn at<T, K, F, A>(index: usize, key_fn: F) -> (r: impl Fn(&FactTuple<A>) -> Option<K>)
    where
        A: GreynetFact<T>,
        F: Fn(&T) -> K,
    requires
        total_on::<T, K, F>(key_fn),
    ensures
        forall|tuple: &FactTuple<A>| #[trigger] r.requires((tuple,)),
        forall|tuple: &FactTuple<A>, k: Option<K>|
            #[trigger] r.ensures((tuple,), k) ==> keyed_at::<T, K, F, A>(key_fn, tuple@, index as int, k),
{
    move |tuple: &FactTuple<A>| -> (k: Option<K>)
        ensures
            keyed_at::<T, K, F, A>(key_fn, tuple@, index as int, k),
        {
            match extract_fact::<T, A>(tuple, index) {
                Some(fact) => Some(key_fn(fact)),
                None => None,
            }
        }
}

} // verus!
