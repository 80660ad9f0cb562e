//! Key functions over fact tuples that answer `None` when the fact they read
//! is missing or of another type.
use vstd::prelude::*;
use crate::facts::{FactTuple, GreynetFact, spec_extract};
use crate::stream_def::extract_fact;

verus! {

/// What a key function built from `key_fn` may answer on `facts` when it
/// reads the fact at `index`: `None` when there is no `T` there, else what
/// `key_fn` answers on that fact.
pub open spec fn keyed_at<T, K, F: Fn(&T) -> K, A: GreynetFact<T>>(
    key_fn: F,
    facts: Seq<A>,
    index: int,
    k: Option<K>,
) -> bool {
    match spec_extract::<T, A>(facts, index) {
        Some(fact) => exists|key: K| k == Some(key) && key_fn.ensures((&fact,), key),
        None => k is None,
    }
}

/// `key_fn` may be called on every `T`.
pub open spec fn total_on<T, K, F: Fn(&T) -> K>(key_fn: F) -> bool {
    forall|fact: &T| #[trigger] key_fn.requires((fact,))
}

/// A key function that reads the fact at `index` as a `T` and applies
/// `key_fn` to it; `None` when there is no `T` there.
pub fn at_index<T, K, F, A>(index: usize, key_fn: F) -> (r: impl Fn(&FactTuple<A>) -> Option<K>)
    where
        A: GreynetFact<T>,
        F: Fn(&T) -> K,
    requires
        total_on::<T, K, F>(key_fn),
    ensures
        forall|tuple: &FactTuple<A>| #[trigger] r.requires((tuple,)),
        forall|tuple: &FactTuple<A>, k: Option<K>|
            #[trigger] r.ensures((tuple,), k) ==> keyed_at::<T, K, F, A>(key_fn, tuple@, index as int, k),
{
    move |tuple: &FactTuple<A>| -> (k: Option<K>)
        ensures
            keyed_at::<T, K, F, A>(key_fn, tuple@, index as int, k),
        {
            match extract_fact::<T, A>(tuple, index) {
                Some(fact) => Some(key_fn(fact)),
                None => None,
            }
        }
}

/// The key function that reads the first fact (see `at_index`).
pub fn first<T, K, F, A>(key_fn: F) -> (r: impl Fn(&FactTuple<A>) -> Option<K>)
    where
        A: GreynetFact<T>,
        F: Fn(&T) -> K,
    requires
        total_on::<T, K, F>(key_fn),
    ensures
        forall|tuple: &FactTuple<A>| #[trigger] r.requires((tuple,)),
        forall|tuple: &FactTuple<A>, k: Option<K>|
            #[trigger] r.ensures((tuple,), k) ==> keyed_at::<T, K, F, A>(key_fn, tuple@, 0, k),
{
    at_index::<T, K, F, A>(0, key_fn)
}

/// The key function that reads the second fact (see `at_index`).
pub fn second<T, K, F, A>(key_fn: F) -> (r: impl Fn(&FactTuple<A>) -> Option<K>)
    where
        A: GreynetFact<T>,
        F: Fn(&T) -> K,
    requires
        total_on::<T, K, F>(key_fn),
    ensures
        forall|tuple: &FactTuple<A>| #[trigger] r.requires((tuple,)),
        forall|tuple: &FactTuple<A>, k: Option<K>|
            #[trigger] r.ensures((tuple,), k) ==> keyed_at::<T, K, F, A>(key_fn, tuple@, 1, k),
{
    at_index::<T, K, F, A>(1, key_fn)
}

/// A key function built over several facts of the tuple: it is `key_fn`
/// itself.
pub fn composite<F, K, A>(key_fn: F) -> (r: F)
    where
        F: Fn(&FactTuple<A>) -> Option<K>,
    ensures
        r == key_fn,
{
    key_fn
}

/// The position of the first fact of the sequence that is a `T`.
pub open spec fn first_of_type<T, A: GreynetFact<T>>(facts: Seq<A>, i: int) -> bool {
    &&& 0 <= i < facts.len()
    &&& facts[i].spec_as() is Some
    &&& forall|j: int| 0 <= j < i ==> (#[trigger] facts[j].spec_as()) is None
}

/// What a key function that searches the tuple for a `T` may answer: what
/// `key_fn` answers on the first `T`, or `None` when no fact is a `T`.
pub open spec fn keyed_by_type<T, K, F: Fn(&T) -> K, A: GreynetFact<T>>(
    key_fn: F,
    facts: Seq<A>,
    k: Option<K>,
) -> bool {
    if exists|i: int| #[trigger] first_of_type::<T, A>(facts, i) {
        let i = choose|i: int| #[trigger] first_of_type::<T, A>(facts, i);
        exists|key: K| k == Some(key) && key_fn.ensures((&facts[i].spec_as().unwrap(),), key)
    } else {
        &&& k is None
        &&& forall|j: int| 0 <= j < facts.len() ==> (#[trigger] facts[j].spec_as()) is None
    }
}

/// A key function that looks for the first fact of the tuple that is a `T`
/// and applies `key_fn` to it; `None` when no fact is a `T`.
pub fn by_type<T, K, F, A>(key_fn: F) -> (r: impl Fn(&FactTuple<A>) -> Option<K>)
    where
        A: GreynetFact<T>,
        F: Fn(&T) -> K,
    requires
        total_on::<T, K, F>(key_fn),
    ensures
        forall|tuple: &FactTuple<A>| #[trigger] r.requires((tuple,)),
        forall|tuple: &FactTuple<A>, k: Option<K>|
            #[trigger] r.ensures((tuple,), k) ==> keyed_by_type::<T, K, F, A>(key_fn, tuple@, k),
{
    move |tuple: &FactTuple<A>| -> (k: Option<K>)
        ensures
            keyed_by_type::<T, K, F, A>(key_fn, tuple@, k),
        {
            let n = tuple.arity();
            let mut i: usize = 0;
            while i < n
                invariant
                    n == tuple@.len(),
                    i <= n,
                    total_on::<T, K, F>(key_fn),
                    forall|j: int| 0 <= j < i ==> (#[trigger] tuple@[j].spec_as()) is None,
                decreases n - i,
            {
                if let Some(fact) = extract_fact::<T, A>(tuple, i) {
                    let key = key_fn(fact);
                    proof {
                        assert(first_of_type::<T, A>(tuple@, i as int));
                        let c = choose|c: int| #[trigger] first_of_type::<T, A>(tuple@, c);
                        if c < i {
                            assert(tuple@[c].spec_as() is None);
                        } else if c > i {
                            assert(tuple@[i as int].spec_as() is None);
                        }
                    }
                    return Some(key);
                }
                i = i + 1;
            }
            proof {
                if exists|c: int| #[trigger] first_of_type::<T, A>(tuple@, c) {
                    let c = choose|c: int| #[trigger] first_of_type::<T, A>(tuple@, c);
                    assert(tuple@[c].spec_as() is None);
                }
            }
            None
        }
}

/// Turns a key function that may answer `None` into one that answers
/// `K::default()` in its place.
pub fn with_default<K, G, A>(key_fn: G) -> (r: impl Fn(&FactTuple<A>) -> K)
    where
        K: Default,
        G: Fn(&FactTuple<A>) -> Option<K>,
    requires
        forall|tuple: &FactTuple<A>| #[trigger] key_fn.requires((tuple,)),
    ensures
        forall|tuple: &FactTuple<A>| #[trigger] r.requires((tuple,)),
        forall|tuple: &FactTuple<A>, k: K|
            #[trigger] r.ensures((tuple,), k) ==> exists|o: Option<K>| #[trigger] key_fn.ensures((tuple,), o) && match o {
                Some(x) => k == x,
                None => K::default.ensures((), k),
            },
{
    move |tuple: &FactTuple<A>| -> (k: K)
        ensures
            exists|o: Option<K>| #[trigger] key_fn.ensures((tuple,), o) && match o {
                Some(x) => k == x,
                None => K::default.ensures((), k),
            },
        {
            let o = key_fn(tuple);
            match o {
                Some(x) => x,
                None => K::default(),
            }
        }
}

} // verus!
