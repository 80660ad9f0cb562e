//! Key functions over fact tuples that need the fact they read: calling one
//! on a tuple without that fact is ruled out by its `requires`.
use vstd::prelude::*;
use crate::facts::{FactTuple, GreynetFact, spec_extract};
use crate::stream_def::extract_fact;
use crate::stream_def::key_extractors::total_on;

pub mod optional;
pub mod with_default;
pub mod auto_default;

verus! {

/// The tuple holds a `T` at `index`.
pub open spec fn has_fact_at<T, A: GreynetFact<T>>(facts: Seq<A>, index: int) -> bool {
    spec_extract::<T, A>(facts, index) is Some
}

/// `k` is what `key_fn` may answer on the `T` at `index`.
pub open spec fn key_of_fact_at<T, K, F: Fn(&T) -> K, A: GreynetFact<T>>(
    key_fn: F,
    facts: Seq<A>,
    index: int,
    k: K,
) -> bool {
    key_fn.ensures((&spec_extract::<T, A>(facts, index).unwrap(),), k)
}

/// A key function that applies `key_fn` to the `T` at `index`; it may be
/// called only on tuples that hold a `T` there.
pub fn at<T, K, F, A>(index: usize, key_fn: F) -> (r: impl Fn(&FactTuple<A>) -> K)
    where
        A: GreynetFact<T>,
        F: Fn(&T) -> K,
    requires
        total_on::<T, K, F>(key_fn),
    ensures
        forall|tuple: &FactTuple<A>|
            has_fact_at::<T, A>(tuple@, index as int) ==> #[trigger] r.requires((tuple,)),
        forall|tuple: &FactTuple<A>, k: K|
            #[trigger] r.ensures((tuple,), k) ==> key_of_fact_at::<T, K, F, A>(key_fn, tuple@, index as int, k),
{
    move |tuple: &FactTuple<A>| -> (k: K)
        requires
            has_fact_at::<T, A>(tuple@, index as int),
        ensures
            key_of_fact_at::<T, K, F, A>(key_fn, tuple@, index as int, k),
        {
            let fact = extract_fact::<T, A>(tuple, index).unwrap();
            key_fn(fact)
        }
}

/// The key function that needs a `T` as the first fact (see `at`).
pub fn first<T, K, F, A>(key_fn: F) -> (r: impl Fn(&FactTuple<A>) -> K)
    where
        A: GreynetFact<T>,
        F: Fn(&T) -> K,
    requires
        total_on::<T, K, F>(key_fn),
    ensures
        forall|tuple: &FactTuple<A>| has_fact_at::<T, A>(tuple@, 0) ==> #[trigger] r.requires((tuple,)),
        forall|tuple: &FactTuple<A>, k: K|
            #[trigger] r.ensures((tuple,), k) ==> key_of_fact_at::<T, K, F, A>(key_fn, tuple@, 0, k),
{
    at::<T, K, F, A>(0, key_fn)
}

/// The key function that needs a `T` as the second fact (see `at`).
pub fn second<T, K, F, A>(key_fn: F) -> (r: impl Fn(&FactTuple<A>) -> K)
    where
        A: GreynetFact<T>,
        F: Fn(&T) -> K,
    requires
        total_on::<T, K, F>(key_fn),
    ensures
        forall|tuple: &FactTuple<A>| has_fact_at::<T, A>(tuple@, 1) ==> #[trigger] r.requires((tuple,)),
        forall|tuple: &FactTuple<A>, k: K|
            #[trigger] r.ensures((tuple,), k) ==> key_of_fact_at::<T, K, F, A>(key_fn, tuple@, 1, k),
{
    at::<T, K, F, A>(1, key_fn)
}

/// The key function whose key is a clone of the first fact, which must be a `T`.
pub fn value<T, A>() -> (r: impl Fn(&FactTuple<A>) -> T)
    where
        A: GreynetFact<T>,
        T: Clone,
    ensures
        forall|tuple: &FactTuple<A>| has_fact_at::<T, A>(tuple@, 0) ==> #[trigger] r.requires((tuple,)),
        forall|tuple: &FactTuple<A>, k: T|
            #[trigger] r.ensures((tuple,), k) ==> cloned::<T>(spec_extract::<T, A>(tuple@, 0).unwrap(), k),
{
    |tuple: &FactTuple<A>| -> (k: T)
        requires
            has_fact_at::<T, A>(tuple@, 0),
        ensures
            cloned::<T>(spec_extract::<T, A>(tuple@, 0).unwrap(), k),
        {
            extract_fact::<T, A>(tuple, 0).unwrap().clone()
        }
}

/// A key function built over several facts of the tuple: it is `key_fn`
/// itself.
pub fn composite<F, K, A>(key_fn: F) -> (r: F)
    where
        F: Fn(&FactTuple<A>) -> K,
    ensures
        r == key_fn,
{
    key_fn
}

} // verus!
