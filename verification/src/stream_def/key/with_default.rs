//! Key functions that answer a given default when the fact they read is
//! missing or of another type.
use vstd::prelude::*;
use crate::facts::{FactTuple, GreynetFact};
use crate::stream_def::extract_fact;
use crate::stream_def::key::{has_fact_at, key_of_fact_at};
use crate::stream_def::key_extractors::total_on;

verus! {

/// What a key function with a default may answer at `index`: what `key_fn`
/// answers on the `T` there, or a clone of `default` when there is none.
pub open spec fn keyed_or_default<T, K: Clone, F: Fn(&T) -> K, A: GreynetFact<T>>(
    key_fn: F,
    facts: Seq<A>,
    index: int,
    default: K,
    k: K,
) -> bool {
    if has_fact_at::<T, A>(facts, index) {
        key_of_fact_at::<T, K, F, A>(key_fn, facts, index, k)
    } else {
        cloned::<K>(default, k)
    }
}

/// The key function that reads the first fact (see `at`).
pub fn first<T, K, F, A>(key_fn: F, default: K) -> (r: impl Fn(&FactTuple<A>) -> K)
    where
        A: GreynetFact<T>,
        K: Clone,
        F: Fn(&T) -> K,
    requires
        total_on::<T, K, F>(key_fn),
    ensures
        forall|tuple: &FactTuple<A>| #[trigger] r.requires((tuple,)),
        forall|tuple: &FactTuple<A>, k: K|
            #[trigger] r.ensures((tuple,), k) ==> keyed_or_default::<T, K, F, A>(key_fn, tuple@, 0, default, k),
{
    at::<T, K, F, A>(0, key_fn, default)
}

/// A key function that applies `key_fn` to the `T` at `index`, or answers a
/// clone of `default` when there is no `T` there.
pub fn at<T, K, F, A>(index: usize, key_fn: F, default: K) -> (r: impl Fn(&FactTuple<A>) -> K)
    where
        A: GreynetFact<T>,
        K: Clone,
        F: Fn(&T) -> K,
    requires
        total_on::<T, K, F>(key_fn),
    ensures
        forall|tuple: &FactTuple<A>| #[trigger] r.requires((tuple,)),
        forall|tuple: &FactTuple<A>, k: K|
            #[trigger] r.ensures((tuple,), k) ==> keyed_or_default::<T, K, F, A>(key_fn, tuple@, index as int, default, k),
{
    move |tuple: &FactTuple<A>| -> (k: K)
        ensures
            keyed_or_default::<T, K, F, A>(key_fn, tuple@, index as int, default, k),
        {
            match extract_fact::<T, A>(tuple, index) {
                Some(fact) => key_fn(fact),
                None => default.clone(),
            }
        }
}

} // verus!
