//! Key functions that answer `K::default()` when the fact they read is
//! missing or of another type.
use vstd::prelude::*;
use crate::facts::{FactTuple, GreynetFact};
use crate::stream_def::extract_fact;
use crate::stream_def::key::{has_fact_at, key_of_fact_at};
use crate::stream_def::key_extractors::total_on;

verus! {

/// What such a key function may answer at `index`: what `key_fn` answers on
/// the `T` there, or `K::default()` when there is none.
pub open spec fn keyed_or_auto_default<T, K: Default, F: Fn(&T) -> K, A: GreynetFact<T>>(
    key_fn: F,
    facts: Seq<A>,
    index: int,
    k: K,
) -> bool {
    if has_fact_at::<T, A>(facts, index) {
        key_of_fact_at::<T, K, F, A>(key_fn, facts, index, k)
    } else {
        K::default.ensures((), k)
    }
}

/// The key function that reads the first fact (see `at`).
pub fn first<T, K, F, A>(key_fn: F) -> (r: impl Fn(&FactTuple<A>) -> K)
    where
        A: GreynetFact<T>,
        K: Default,
        F: Fn(&T) -> K,
    requires
        total_on::<T, K, F>(key_fn),
    ensures
        forall|tuple: &FactTuple<A>| #[trigger] r.requires((tuple,)),
        forall|tuple: &FactTuple<A>, k: K|
            #[trigger] r.ensures((tuple,), k) ==> keyed_or_auto_default::<T, K, F, A>(key_fn, tuple@, 0, k),
{
    at::<T, K, F, A>(0, key_fn)
}

/// A key function that applies `key_fn` to the `T` at `index`, or answers
/// `K::default()` when there is no `T` there.
pub fn at<T, K, F, A>(index: usize, key_fn: F) -> (r: impl Fn(&FactTuple<A>) -> K)
    where
        A: GreynetFact<T>,
        K: Default,
        F: Fn(&T) -> K,
    requires
        total_on::<T, K, F>(key_fn),
    ensures
        forall|tuple: &FactTuple<A>| #[trigger] r.requires((tuple,)),
        forall|tuple: &FactTuple<A>, k: K|
            #[trigger] r.ensures((tuple,), k) ==> keyed_or_auto_default::<T, K, F, A>(key_fn, tuple@, index as int, k),
{
    move |tuple: &FactTuple<A>| -> (k: K)
        ensures
            keyed_or_auto_default::<T, K, F, A>(key_fn, tuple@, index as int, k),
        {
            match extract_fact::<T, A>(tuple, index) {
                Some(fact) => key_fn(fact),
                None => K::default(),
            }
        }
}

} // verus!

verus! {

/// Law: a key function that defaults (`auto_default::at`) answers what
/// `key_extractors::with_default` answers over the optional key function of
/// the same position (`optional::at`): the key of the `T` there, or
/// `K::default()` when there is none.
pub proof fn lemma_auto_default_is_with_default<T, K: Default, F: Fn(&T) -> K, A: GreynetFact<T>>(
    key_fn: F,
    facts: Seq<A>,
    index: int,
    k: K,
)
    ensures
        keyed_or_auto_default::<T, K, F, A>(key_fn, facts, index, k) <==> exists|o: Option<K>| {
            &&& #[trigger] crate::stream_def::key_extractors::keyed_at::<T, K, F, A>(key_fn, facts, index, o)
            &&& match o {
                Some(x) => k == x,
                None => K::default.ensures((), k),
            }
        },
{
    if has_fact_at::<T, A>(facts, index) {
        let fact = crate::facts::spec_extract::<T, A>(facts, index).unwrap();
        if key_of_fact_at::<T, K, F, A>(key_fn, facts, index, k) {
            assert(crate::stream_def::key_extractors::keyed_at::<T, K, F, A>(key_fn, facts, index, Some(k)));
        }
    } else {
        assert(crate::stream_def::key_extractors::keyed_at::<T, K, F, A>(key_fn, facts, index, None));
    }
}

} // verus!
