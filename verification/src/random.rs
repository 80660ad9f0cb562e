//! Random draws and hashed collections from outside crates, each behind a
//! small wrapper whose contract states what the crate's source shows.
use vstd::prelude::*;
use rand::rngs::SmallRng;
use rand::seq::SliceRandom;
use rand::{Rng, SeedableRng};
use rustc_hash::{FxHashMap, FxHashSet};
use rand_distr::{Distribution, Uniform};
use std::hash::Hash;
use vstd::std_specs::hash::obeys_key_model;

verus! {

/// `rand::rngs::SmallRng`, a fast non-cryptographic generator.
#[verifier::external_type_specification]
#[verifier::external_body]
pub struct ExSmallRng(SmallRng);

/// `rustc_hash::FxBuildHasher`, the hasher builder of `FxHashSet` and `FxHashMap`.
#[verifier::external_type_specification]
#[verifier::external_body]
pub struct ExFxBuildHasher(rustc_hash::FxBuildHasher);

/// A generator seeded by the operating system (`SmallRng::from_entropy`).
/// Nothing is claimed about its state.
#[verifier::external_body]
pub fn create_rng() -> SmallRng {
    SmallRng::from_entropy()
}

/// Calls `Rng::gen_range` on the half-open range `low..high`; rand documents
/// that the result lies in that range (and panics on an empty range, which
/// `requires` rules out).
#[verifier::external_body]
pub(crate) fn rng_gen_range(rng: &mut SmallRng, low: usize, high: usize) -> (r: usize)
    requires
        low < high,
    ensures
        low <= r < high,
{
    rng.gen_range(low..high)
}

/// Calls `Rng::gen_range` on the closed range `low..=high`; the result lies in
/// that range (rand panics only when `low > high`, which `requires` rules out).
#[verifier::external_body]
pub(crate) fn rng_gen_range_inclusive(rng: &mut SmallRng, low: usize, high: usize) -> (r: usize)
    requires
        low <= high,
    ensures
        low <= r <= high,
{
    rng.gen_range(low..=high)
}

/// Calls `SliceRandom::shuffle`, which permutes the vector in place by swaps
/// (Fisher-Yates); the result holds the same elements. Which permutation is
/// chosen depends on the generator and is not stated.
#[verifier::external_body]
pub(crate) fn shuffle_vec<T>(values: &mut Vec<T>, rng: &mut SmallRng)
    ensures
        final(values)@.len() == old(values)@.len(),
        final(values)@.to_multiset() == old(values)@.to_multiset(),
{
    values.shuffle(rng)
}

/// Calls `Uniform::new(low, high).sample(rng)` from rand_distr: a value drawn
/// from `low..high` (`Uniform::new` panics on an empty range, which
/// `requires` rules out).
#[verifier::external_body]
pub(crate) fn uniform_sample(rng: &mut SmallRng, low: usize, high: usize) -> (r: usize)
    requires
        low < high,
    ensures
        low <= r < high,
{
    Uniform::new(low, high).sample(rng)
}

/// Calls `FxHashSet::default`: an empty set.
#[verifier::external_body]
pub(crate) fn fx_set_new() -> (s: FxHashSet<usize>)
    ensures
        s@ == Set::<usize>::empty(),
{
    FxHashSet::default()
}

/// Calls `HashSet::insert` on an `FxHashSet`: adds `k`; the result tells
/// whether `k` was absent.
#[verifier::external_body]
pub(crate) fn fx_set_insert(s: &mut FxHashSet<usize>, k: usize) -> (r: bool)
    ensures
        final(s)@ == old(s)@.insert(k),
        r == !old(s)@.contains(k),
{
    s.insert(k)
}

/// Calls `HashSet::contains` on an `FxHashSet`.
#[verifier::external_body]
pub(crate) fn fx_set_contains(s: &FxHashSet<usize>, k: usize) -> (r: bool)
    ensures
        r == s@.contains(k),
{
    s.contains(&k)
}

/// Calls `HashSet::remove` on an `FxHashSet`: removes `k`; the result tells
/// whether `k` was present.
#[verifier::external_body]
pub(crate) fn fx_set_remove(s: &mut FxHashSet<usize>, k: usize) -> (r: bool)
    ensures
        final(s)@ == old(s)@.remove(k),
        r == old(s)@.contains(k),
{
    s.remove(&k)
}

/// Collects an `FxHashSet` into a vector through `IntoIterator`: each
/// element once, in the set's iteration order (which the contract leaves
/// open).
#[verifier::external_body]
pub(crate) fn fx_set_into_vec(s: FxHashSet<usize>) -> (v: Vec<usize>)
    ensures
        v@.to_set() == s@,
        v@.no_duplicates(),
{
    s.into_iter().collect()
}

/// Calls `FxHashMap::default`: an empty map.
#[verifier::external_body]
pub(crate) fn fx_map_new<K, V>() -> (m: FxHashMap<K, V>)
    ensures
        m@.dom() == Set::<K>::empty(),
{
    FxHashMap::default()
}

/// Calls `HashMap::insert` on an `FxHashMap`: `k` now maps to `v`. For keys
/// whose `==` and `Hash` agree with equality of values (std's integers),
/// the map behaves as a mathematical map.
#[verifier::external_body]
pub(crate) fn fx_map_insert<K: Eq + Hash, V>(m: &mut FxHashMap<K, V>, k: K, v: V)
    requires
        obeys_key_model::<K>(),
    ensures
        final(m)@ == old(m)@.insert(k, v),
{
    m.insert(k, v);
}

/// Calls `HashMap::get` on an `FxHashMap`: a reference to the value of `k`.
#[verifier::external_body]
pub(crate) fn fx_map_get_ref<'a, K: Eq + Hash, V>(m: &'a FxHashMap<K, V>, k: K) -> (r: Option<&'a V>)
    requires
        obeys_key_model::<K>(),
    ensures
        m@.contains_key(k) ==> r == Some(&m@[k]),
        !m@.contains_key(k) ==> r is None,
{
    m.get(&k)
}

/// Calls `HashMap::remove` on an `FxHashMap`: `k` leaves the map, and its
/// value, if it had one, is handed back.
#[verifier::external_body]
pub(crate) fn fx_map_remove<K: Eq + Hash, V>(m: &mut FxHashMap<K, V>, k: K) -> (r: Option<V>)
    requires
        obeys_key_model::<K>(),
    ensures
        final(m)@ == old(m)@.remove(k),
        old(m)@.contains_key(k) ==> r == Some(old(m)@[k]),
        !old(m)@.contains_key(k) ==> r is None,
{
    m.remove(&k)
}

/// Collects the keys of an `FxHashMap` through `HashMap::keys`: each key
/// once, in the map's iteration order (which the contract leaves open).
#[verifier::external_body]
pub(crate) fn fx_map_keys<K: Copy, V>(m: &FxHashMap<K, V>) -> (v: Vec<K>)
    requires
        obeys_key_model::<K>(),
    ensures
        v@.to_set() == m@.dom(),
        v@.no_duplicates(),
{
    m.keys().copied().collect()
}

} // verus!
