//! Moves over candidate vectors, with tabu bookkeeping per semantic group.
use vstd::prelude::*;
use std::collections::VecDeque;
use rand::rngs::SmallRng;
use rustc_hash::FxHashSet;
use crate::candidate::{spec_write_at, spec_gather, spec_all_below, spec_rotate_left, spec_zip, apply_deltas, spec_apply_deltas,
    spec_chain_prefix, spec_chain_shift, lemma_chain_shift_is_rotation, lemma_apply_deltas_is_write_at, lemma_write_at_pointwise, lemma_write_at_rearrangement, lemma_rotate_left_multiset};
use crate::variables::SemanticGroups;
use crate::random::{create_rng, rng_gen_range, rng_gen_range_inclusive, shuffle_vec, fx_set_new, fx_set_insert, fx_set_remove, fx_set_contains, fx_set_into_vec, fx_map_new, fx_map_insert, fx_map_get_ref};

verus! {

broadcast use vstd::seq_lib::group_seq_properties;

/// The ids in `0..size` that are not in `tabu`, in increasing order.
pub open spec fn spec_valid_ids(tabu: Set<usize>, size: int) -> Seq<usize>
    decreases size,
{
    if size <= 0 {
        Seq::empty()
    } else {
        let prev = spec_valid_ids(tabu, size - 1);
        if tabu.contains((size - 1) as usize) {
            prev
        } else {
            prev.push((size - 1) as usize)
        }
    }
}

/// The ids of `spec_valid_ids` lie below `size`, avoid `tabu` and increase
/// strictly; every id below `size` outside `tabu` is among them.
pub proof fn lemma_valid_ids(tabu: Set<usize>, size: int)
    requires
        0 <= size <= usize::MAX + 1,
    ensures
        forall|i: int| 0 <= i < spec_valid_ids(tabu, size).len() ==> (#[trigger] spec_valid_ids(tabu, size)[i]) < size
            && !tabu.contains(spec_valid_ids(tabu, size)[i]),
        forall|i: int, j: int| 0 <= i < j < spec_valid_ids(tabu, size).len()
            ==> (#[trigger] spec_valid_ids(tabu, size)[i]) < (#[trigger] spec_valid_ids(tabu, size)[j]),
        forall|x: usize| x < size && !tabu.contains(x) ==> #[trigger] spec_valid_ids(tabu, size).contains(x),
        spec_valid_ids(tabu, size).no_duplicates(),
        spec_valid_ids(tabu, size).len() <= size,
    decreases size,
{
    if size > 0 {
        lemma_valid_ids(tabu, size - 1);
        let prev = spec_valid_ids(tabu, size - 1);
        let cur = spec_valid_ids(tabu, size);
        assert forall|x: usize| x < size && !tabu.contains(x) implies #[trigger] cur.contains(x) by {
            if x < size - 1 {
                assert(prev.contains(x));
                let k = choose|k: int| 0 <= k < prev.len() && prev[k] == x;
                assert(cur[k] == x);
            } else {
                assert(cur[cur.len() - 1] == x);
            }
        }
    }
}

pub(crate) proof fn lemma_swap_multiset<T>(s: Seq<T>, i: int, j: int)
    requires
        0 <= i < s.len(),
        0 <= j < s.len(),
    ensures
        s.update(i, s[j]).update(j, s[i]).to_multiset() == s.to_multiset(),
{
    broadcast use vstd::seq_lib::to_multiset_update, vstd::multiset::group_multiset_axioms,
        vstd::seq_lib::to_multiset_contains;

    let s1 = s.update(i, s[j]);
    assert(s1[i] == s[j]);
    assert(s[i] == s[i]);
    assert(s1[j] == s[j]);
    assert(s1.to_multiset() == s.to_multiset().insert(s[j]).remove(s[i]));
    assert(s1.update(j, s[i]).to_multiset() == s1.to_multiset().insert(s[i]).remove(s[j]));
    assert(s.to_multiset().count(s[i]) > 0);
    assert(s1.to_multiset().count(s[j]) > 0);
    assert(s1.update(j, s[i]).to_multiset() =~= s.to_multiset());
}

proof fn lemma_prefix_sub_multiset<T>(s: Seq<T>, n: int)
    requires
        0 <= n <= s.len(),
    ensures
        s.subrange(0, n).to_multiset().subset_of(s.to_multiset()),
{
    broadcast use vstd::multiset::group_multiset_axioms;

    vstd::seq_lib::lemma_multiset_commutative(s.subrange(0, n), s.subrange(n, s.len() as int));
    assert(s.subrange(0, n) + s.subrange(n, s.len() as int) =~= s);
}

/// Copies the elements of a vector into a new one.
pub(crate) fn copy_vec<T: Copy>(v: &Vec<T>) -> (r: Vec<T>)
    ensures
        r@ == v@,
{
    let mut r: Vec<T> = Vec::new();
    let mut i: usize = 0;
    while i < v.len()
        invariant
            i <= v.len(),
            r@ == v@.subrange(0, i as int),
        decreases v.len() - i,
    {
        r.push(v[i]);
        i = i + 1;
    }
    assert(v@.subrange(0, v@.len() as int) =~= v@);
    r
}

/// The ids `0..n`.
pub(crate) fn index_range(n: usize) -> (r: Vec<usize>)
    ensures
        r@.len() == n,
        forall|i: int| 0 <= i < n ==> #[trigger] r@[i] == i,
{
    let mut r: Vec<usize> = Vec::new();
    let mut i: usize = 0;
    while i < n
        invariant
            i <= n,
            r@.len() == i,
            forall|k: int| 0 <= k < i ==> #[trigger] r@[k] == k,
        decreases n - i,
    {
        r.push(i);
        i = i + 1;
    }
    r
}

/// Tabu bookkeeping and random state for the moves of a local search.
///
/// Each vector is indexed by the position of a semantic group among the
/// groups of the problem: for group `g`, `tabu_ids_vecdeque_map[g]` holds the
/// most recently chosen ids (newest first), `tabu_ids_sets_map[g]` the same
/// ids as a set, and `tabu_entity_size_map[g]` how many of them are kept.
pub struct Mover {
    /// Whether moves avoid tabu ids (the solver's tabu entity rate is not zero).
    pub use_tabu: bool,
    pub tabu_entity_size_map: Vec<usize>,
    pub tabu_ids_sets_map: Vec<FxHashSet<usize>>,
    pub tabu_ids_vecdeque_map: Vec<VecDeque<usize>>,
    pub moves_count: u64,
    pub rng: SmallRng,
    pub caches: ValidIdsCaches,
}

/// Per group, the non-tabu ids last computed and whether they must be
/// computed again.
pub struct ValidIdsCaches {
    valid_ids_cache: Vec<Vec<usize>>,
    cache_dirty: Vec<bool>,
}

impl ValidIdsCaches {
    /// The caches cover `n` groups and all are marked for recomputation.
    pub closed spec fn ready(&self, n: int) -> bool {
        &&& self.valid_ids_cache.len() == n
        &&& self.cache_dirty.len() == n
        &&& forall|g: int| 0 <= g < n ==> #[trigger] self.cache_dirty@[g]
    }

    /// Recomputes the non-tabu ids of group `g` below `group_size` when the
    /// group is marked, then clears the mark.
    fn update_valid_ids_cache(&mut self, g: usize, tabu_set: &FxHashSet<usize>, group_size: usize)
        requires
            old(self).ready(old(self).valid_ids_cache.len() as int),
            g < old(self).valid_ids_cache.len(),
        ensures
            final(self).valid_ids_cache.len() == old(self).valid_ids_cache.len(),
            final(self).cache_dirty@ == old(self).cache_dirty@.update(g as int, false),
            final(self).valid_ids_cache@[g as int]@ == spec_valid_ids(tabu_set@, group_size as int),
    {
        if !self.cache_dirty[g] {
            return;
        }
        let mut valid_ids: Vec<usize> = Vec::new();
        let mut i: usize = 0;
        while i < group_size
            invariant
                i <= group_size,
                valid_ids@ == spec_valid_ids(tabu_set@, i as int),
            decreases group_size - i,
        {
            if !fx_set_contains(tabu_set, i) {
                valid_ids.push(i);
            }
            i = i + 1;
        }
        self.valid_ids_cache[g] = valid_ids;
        self.cache_dirty[g] = false;
    }

    /// Marks group `g` for recomputation.
    fn mark_dirty(&mut self, g: usize)
        requires
            g < old(self).cache_dirty.len(),
        ensures
            final(self).valid_ids_cache == old(self).valid_ids_cache,
            final(self).cache_dirty@ == old(self).cache_dirty@.update(g as int, true),
    {
        self.cache_dirty[g] = true;
    }
}

/// The tabu queue after pushing `ids` to its front one by one, dropping the
/// oldest id whenever it grows past `max_size`.
pub open spec fn spec_tabu_push(queue: Seq<usize>, ids: Seq<usize>, max_size: int) -> Seq<usize> {
    let all = ids.reverse() + queue;
    all.subrange(0, if all.len() <= max_size { all.len() as int } else { max_size })
}

/// Pushes `ids` to the front of the tabu queue, keeping the set equal to the
/// queue's ids and the queue no longer than `max_size`.
fn push_tabu_ids(set: &mut FxHashSet<usize>, queue: &mut VecDeque<usize>, max_size: usize, ids: &Vec<usize>)
    requires
        old(set)@ == old(queue)@.to_set(),
        old(queue)@.no_duplicates(),
        old(queue)@.len() <= max_size,
        ids@.no_duplicates(),
        forall|i: int| 0 <= i < ids.len() ==> !old(set)@.contains(#[trigger] ids@[i]),
    ensures
        final(queue)@ == spec_tabu_push(old(queue)@, ids@, max_size as int),
        final(set)@ == final(queue)@.to_set(),
        final(queue)@.no_duplicates(),
        final(queue)@.len() <= max_size,
{
    let ghost q0 = queue@;
    let mut k: usize = 0;
    while k < ids.len()
        invariant
            k <= ids.len(),
            ids@.no_duplicates(),
            forall|i: int| 0 <= i < ids.len() ==> !q0.to_set().contains(#[trigger] ids@[i]),
            q0.len() <= max_size,
            q0.no_duplicates(),
            queue@ == spec_tabu_push(q0, ids@.subrange(0, k as int), max_size as int),
            set@ == queue@.to_set(),
            queue@.no_duplicates(),
            queue@.len() <= max_size,
        decreases ids.len() - k,
    {
        let id = ids[k];
        let ghost prev = ids@.subrange(0, k as int);
        let ghost next = ids@.subrange(0, k + 1);
        proof {
            assert(next.reverse() =~= seq![id] + prev.reverse());
            assert(seq![id] + (prev.reverse() + q0) =~= next.reverse() + q0);
            assert forall|x: usize| queue@.contains(x) implies x != id by {
                let j = choose|j: int| 0 <= j < queue@.len() && queue@[j] == x;
                let all = prev.reverse() + q0;
                assert(queue@[j] == all[j]);
                if j < prev.len() {
                    assert(all[j] == prev[prev.len() - 1 - j]);
                    assert(prev[prev.len() - 1 - j] == ids@[prev.len() - 1 - j]);
                } else {
                    assert(q0.contains(x));
                    assert(q0.to_set().contains(x));
                }
            }
        }
        fx_set_insert(set, id);
        queue.push_front(id);
        proof {
            assert(queue@.no_duplicates());
            assert(set@ =~= queue@.to_set());
        }
        if queue.len() > max_size {
            let popped = queue.pop_back();
            if let Some(p) = popped {
                fx_set_remove(set, p);
                proof {
                    let before = seq![id] + spec_tabu_push(q0, prev, max_size as int);
                    assert(!queue@.contains(p)) by {
                        if queue@.contains(p) {
                            let j = choose|j: int| 0 <= j < queue@.len() && queue@[j] == p;
                            assert(before[j] == before[before.len() - 1]);
                        }
                    }
                    assert(set@ =~= queue@.to_set());
                }
            }
        }
        k = k + 1;
        proof {
            assert(queue@ =~= spec_tabu_push(q0, ids@.subrange(0, k as int), max_size as int));
        }
    }
    assert(ids@.subrange(0, ids@.len() as int) =~= ids@);
}

impl Mover {
    /// Number of semantic groups that the tabu state covers.
    pub open spec fn n_groups(&self) -> int {
        self.tabu_entity_size_map.len() as int
    }

    /// The tabu ids of group `g`, newest first.
    pub open spec fn tabu_queue(&self, g: int) -> Seq<usize> {
        self.tabu_ids_vecdeque_map@[g]@
    }

    /// The tabu ids of group `g` as a set.
    pub open spec fn tabu_set(&self, g: int) -> Set<usize> {
        self.tabu_ids_sets_map@[g]@
    }

    /// How many tabu ids group `g` keeps.
    pub open spec fn tabu_size(&self, g: int) -> int {
        self.tabu_entity_size_map@[g] as int
    }

    /// The tabu state of every group, as plain values.
    pub open spec fn tabu_state(&self) -> (Seq<usize>, Seq<Seq<usize>>) {
        (self.tabu_entity_size_map@, Seq::new(self.tabu_ids_vecdeque_map@.len(), |g: int| self.tabu_queue(g)))
    }

    /// Well-formedness: per-group vectors agree in length, each tabu set
    /// holds exactly the ids of its queue, no queue holds an id twice, and no
    /// queue is longer than its group's tabu size.
    pub open spec fn wf(&self) -> bool {
        &&& self.tabu_ids_sets_map.len() == self.n_groups()
        &&& self.tabu_ids_vecdeque_map.len() == self.n_groups()
        &&& self.caches.ready(self.n_groups())
        &&& forall|g: int| 0 <= g < self.n_groups() ==> #[trigger] self.tabu_set(g) == self.tabu_queue(g).to_set()
        &&& forall|g: int| 0 <= g < self.n_groups() ==> (#[trigger] self.tabu_queue(g)).no_duplicates()
        &&& forall|g: int| 0 <= g < self.n_groups() ==> (#[trigger] self.tabu_queue(g)).len() <= self.tabu_size(g)
    }

    /// Creates the tabu state for groups whose tabu sizes are given, with an
    /// empty tabu list per group and a generator seeded by the system.
    pub fn new(use_tabu: bool, tabu_entity_size_map: Vec<usize>) -> (m: Self)
        ensures
            m.wf(),
            m.use_tabu == use_tabu,
            m.tabu_entity_size_map@ == tabu_entity_size_map@,
            m.moves_count == 6,
            forall|g: int| 0 <= g < m.n_groups() ==> (#[trigger] m.tabu_queue(g)).len() == 0,
    {
        Self::with_rng(use_tabu, tabu_entity_size_map, create_rng())
    }

    /// Same as `new`, with the given generator.
    pub fn with_rng(use_tabu: bool, tabu_entity_size_map: Vec<usize>, rng: SmallRng) -> (m: Self)
        ensures
            m.wf(),
            m.use_tabu == use_tabu,
            m.tabu_entity_size_map@ == tabu_entity_size_map@,
            m.moves_count == 6,
            forall|g: int| 0 <= g < m.n_groups() ==> (#[trigger] m.tabu_queue(g)).len() == 0,
    {
        let n = tabu_entity_size_map.len();
        let mut sets: Vec<FxHashSet<usize>> = Vec::new();
        let mut queues: Vec<VecDeque<usize>> = Vec::new();
        let mut caches: Vec<Vec<usize>> = Vec::new();
        let mut dirty: Vec<bool> = Vec::new();
        let mut i: usize = 0;
        while i < n
            invariant
                i <= n,
                sets.len() == i,
                queues.len() == i,
                caches.len() == i,
                dirty.len() == i,
                forall|g: int| 0 <= g < i ==> (#[trigger] queues@[g])@.len() == 0,
                forall|g: int| 0 <= g < i ==> (#[trigger] sets@[g])@ == Set::<usize>::empty(),
                forall|g: int| 0 <= g < i ==> #[trigger] dirty@[g],
            decreases n - i,
        {
            sets.push(fx_set_new());
            queues.push(VecDeque::new());
            caches.push(Vec::new());
            dirty.push(true);
            i = i + 1;
        }
        let m = Mover {
            use_tabu,
            tabu_entity_size_map,
            tabu_ids_sets_map: sets,
            tabu_ids_vecdeque_map: queues,
            moves_count: 6,
            rng,
            caches: ValidIdsCaches { valid_ids_cache: caches, cache_dirty: dirty },
        };
        assert forall|g: int| 0 <= g < m.n_groups() implies #[trigger] m.tabu_set(g) == m.tabu_queue(g).to_set() by {
            assert(m.tabu_queue(g).to_set() =~= Set::<usize>::empty());
        }
        m
    }


    /// How many ids below `group_size` are not tabu in group `g`.
    pub fn non_tabu_count(&self, g: usize, group_size: usize) -> (r: usize)
        requires
            self.wf(),
            g < self.n_groups(),
        ensures
            r == spec_valid_ids(self.tabu_set(g as int), group_size as int).len(),
    {
        let mut count: usize = 0;
        let mut i: usize = 0;
        while i < group_size
            invariant
                i <= group_size,
                g < self.tabu_ids_sets_map.len(),
                count == spec_valid_ids(self.tabu_set(g as int), i as int).len(),
                count <= i,
            decreases group_size - i,
        {
            if !fx_set_contains(&self.tabu_ids_sets_map[g], i) {
                count = count + 1;
            }
            i = i + 1;
        }
        count
    }

    /// Draws `selection_size` distinct ids below `group_size` that are not
    /// tabu in group `g`, and makes them tabu (newest first), dropping the
    /// oldest tabu ids beyond the group's tabu size.
    pub fn select_non_tabu_ids(&mut self, g: usize, selection_size: usize, group_size: usize) -> (r: Vec<usize>)
        requires
            old(self).wf(),
            g < old(self).n_groups(),
            selection_size <= spec_valid_ids(old(self).tabu_set(g as int), group_size as int).len(),
        ensures
            final(self).wf(),
            r@.len() == selection_size,
            r@.no_duplicates(),
            forall|i: int| 0 <= i < r@.len() ==> (#[trigger] r@[i]) < group_size && !old(self).tabu_set(g as int).contains(r@[i]),
            final(self).tabu_queue(g as int) == spec_tabu_push(old(self).tabu_queue(g as int), r@, old(self).tabu_size(g as int)),
            forall|h: int| 0 <= h < old(self).n_groups() && h != g ==> #[trigger] final(self).tabu_queue(h) == old(self).tabu_queue(h),
            final(self).tabu_entity_size_map@ == old(self).tabu_entity_size_map@,
            final(self).use_tabu == old(self).use_tabu,
    {
        broadcast use vstd::multiset::group_multiset_axioms, vstd::seq_lib::to_multiset_contains;

        self.caches.update_valid_ids_cache(g, &self.tabu_ids_sets_map[g], group_size);
        let valid_ids = copy_vec(&self.caches.valid_ids_cache[g]);
        proof {
            lemma_valid_ids(self.tabu_set(g as int), group_size as int);
        }
        let chosen = self.choice_without_replacement(&valid_ids, selection_size);
        proof {
            valid_ids@.lemma_multiset_has_no_duplicates();
            assert forall|x: usize| chosen@.to_multiset().contains(x) implies chosen@.to_multiset().count(x) == 1 by {
                assert(chosen@.to_multiset().count(x) <= valid_ids@.to_multiset().count(x));
            }
            chosen@.lemma_multiset_has_no_duplicates_conv();
            assert forall|i: int| 0 <= i < chosen@.len() implies (#[trigger] chosen@[i]) < group_size && !old(self).tabu_set(g as int).contains(chosen@[i]) by {
                assert(chosen@.to_multiset().count(chosen@[i]) > 0);
                assert(valid_ids@.to_multiset().count(chosen@[i]) > 0);
                assert(valid_ids@.contains(chosen@[i]));
            }
        }
        let max_size = self.tabu_entity_size_map[g];
        let ghost sets_before = self.tabu_ids_sets_map@;
        let ghost queues_before = self.tabu_ids_vecdeque_map@;
        let mut set = fx_set_new();
        std::mem::swap(&mut set, &mut self.tabu_ids_sets_map[g]);
        let mut queue: VecDeque<usize> = VecDeque::new();
        std::mem::swap(&mut queue, &mut self.tabu_ids_vecdeque_map[g]);
        proof {
            assert(set@ == old(self).tabu_set(g as int));
            assert(queue@ == old(self).tabu_queue(g as int));
        }
        push_tabu_ids(&mut set, &mut queue, max_size, &chosen);
        self.tabu_ids_sets_map[g] = set;
        self.tabu_ids_vecdeque_map[g] = queue;
        self.caches.mark_dirty(g);
        proof {
            assert forall|h: int| 0 <= h < self.n_groups() && h != g implies
                self.tabu_ids_vecdeque_map@[h] == old(self).tabu_ids_vecdeque_map@[h]
                && self.tabu_ids_sets_map@[h] == old(self).tabu_ids_sets_map@[h] by {
            }
            assert forall|h: int| 0 <= h < self.n_groups() implies #[trigger] self.tabu_set(h) == self.tabu_queue(h).to_set() by {
                if h != g {
                    assert(self.tabu_set(h) == old(self).tabu_set(h));
                    assert(self.tabu_queue(h) == old(self).tabu_queue(h));
                }
            }
            assert forall|h: int| 0 <= h < self.n_groups() implies (#[trigger] self.tabu_queue(h)).no_duplicates() && self.tabu_queue(h).len() <= self.tabu_size(h) by {
                if h != g {
                    assert(self.tabu_queue(h) == old(self).tabu_queue(h));
                }
            }
            assert(self.caches.cache_dirty@ =~= old(self).caches.cache_dirty@);
            assert(self.caches.ready(self.n_groups()));
            assert forall|h: int| 0 <= h < old(self).n_groups() && h != g implies #[trigger] self.tabu_queue(h) == old(self).tabu_queue(h) by {
                assert(self.tabu_ids_vecdeque_map@[h] == old(self).tabu_ids_vecdeque_map@[h]);
            }
        }
        chosen
    }

    /// Draws `n` of the `objects` without replacement (see
    /// `choice_without_replacement_with`); only the generator changes.
    fn choice_without_replacement(&mut self, objects: &Vec<usize>, n: usize) -> (r: Vec<usize>)
        requires
            n <= objects.len(),
        ensures
            r@.len() == n,
            r@.to_multiset().subset_of(objects@.to_multiset()),
            final(self).use_tabu == old(self).use_tabu,
            final(self).caches == old(self).caches,
            final(self).tabu_ids_sets_map@ == old(self).tabu_ids_sets_map@,
            final(self).tabu_entity_size_map@ == old(self).tabu_entity_size_map@,
            final(self).tabu_ids_vecdeque_map@ == old(self).tabu_ids_vecdeque_map@,
    {
        choice_without_replacement_with(&mut self.rng, objects, n)
    }
}

/// Draws `n` of the `objects` without replacement: a partial
/// Fisher-Yates shuffle when `n` is at most half of them, a full shuffle
/// otherwise. The result is a sub-multiset of `objects`.
pub(crate) fn choice_without_replacement_with(rng: &mut SmallRng, objects: &Vec<usize>, n: usize) -> (r: Vec<usize>)
    requires
        n <= objects.len(),
    ensures
        r@.len() == n,
        r@.to_multiset().subset_of(objects@.to_multiset()),
{
    broadcast use vstd::multiset::group_multiset_axioms;

    if n == 0 {
        let r: Vec<usize> = Vec::new();
        assert(r@.to_multiset() =~= vstd::multiset::Multiset::empty());
        return r;
    }
    let mut temp = copy_vec(objects);
    if n <= objects.len() / 2 {
        let mut chosen: Vec<usize> = Vec::new();
        let mut i: usize = 0;
        while i < n
            invariant
                i <= n <= temp.len(),
                temp@.len() == objects@.len(),
                temp@.to_multiset() == objects@.to_multiset(),
                chosen@ == temp@.subrange(0, i as int),
            decreases n - i,
        {
            let j = rng_gen_range(rng, i, temp.len());
            let a = temp[i];
            let b = temp[j];
            proof {
                lemma_swap_multiset(temp@, i as int, j as int);
            }
            temp[i] = b;
            temp[j] = a;
            assert(temp@.subrange(0, i as int) =~= chosen@);
            chosen.push(temp[i]);
            i = i + 1;
        }
        proof {
            lemma_prefix_sub_multiset(temp@, n as int);
        }
        chosen
    } else {
        shuffle_vec(&mut temp, rng);
        let mut chosen: Vec<usize> = Vec::new();
        let mut i: usize = 0;
        while i < n
            invariant
                i <= n <= temp.len(),
                chosen@ == temp@.subrange(0, i as int),
            decreases n - i,
        {
            chosen.push(temp[i]);
            i = i + 1;
        }
        proof {
            lemma_prefix_sub_multiset(temp@, n as int);
        }
        chosen
    }
}

} // verus!

verus! {

/// The values of `candidate` at `cols`, in the order of `cols`.
pub fn gather_values<T: Copy>(candidate: &Vec<T>, cols: &Vec<usize>) -> (r: Vec<T>)
    requires
        spec_all_below(cols@, candidate@.len() as int),
    ensures
        r@ == spec_gather(candidate@, cols@),
{
    let mut r: Vec<T> = Vec::new();
    let mut i: usize = 0;
    while i < cols.len()
        invariant
            i <= cols.len(),
            spec_all_below(cols@, candidate@.len() as int),
            r@ =~= spec_gather(candidate@, cols@.subrange(0, i as int)),
        decreases cols.len() - i,
    {
        r.push(candidate[cols[i]]);
        i = i + 1;
    }
    assert(cols@.subrange(0, cols@.len() as int) =~= cols@);
    r
}

/// `values` rotated to the left by `by` places.
pub fn rotate_left_values<T: Copy>(values: &Vec<T>, by: usize) -> (r: Vec<T>)
    requires
        by <= values.len(),
    ensures
        r@ == spec_rotate_left(values@, by as int),
{
    let mut r: Vec<T> = Vec::new();
    let mut i: usize = by;
    while i < values.len()
        invariant
            by <= i <= values.len(),
            r@ =~= values@.subrange(by as int, i as int),
        decreases values.len() - i,
    {
        r.push(values[i]);
        i = i + 1;
    }
    let mut j: usize = 0;
    while j < by
        invariant
            j <= by <= values.len(),
            r@ =~= values@.subrange(by as int, values.len() as int) + values@.subrange(0, j as int),
        decreases by - j,
    {
        r.push(values[j]);
        j = j + 1;
    }
    r
}

/// `values` in reverse order.
pub fn reverse_values<T: Copy>(values: &Vec<T>) -> (r: Vec<T>)
    ensures
        r@ == values@.reverse(),
{
    let mut r: Vec<T> = Vec::new();
    let mut i: usize = values.len();
    while i > 0
        invariant
            i <= values.len(),
            r@.len() == values.len() - i,
            forall|k: int| 0 <= k < r@.len() ==> #[trigger] r@[k] == values@[values.len() - 1 - k],
        decreases i,
    {
        i = i - 1;
        r.push(values[i]);
    }
    assert(r@ =~= values@.reverse());
    r
}

/// A copy of `candidate` where `vals[i]` is written at position `cols[i]`,
/// one after the other (a later write to a position wins).
pub fn write_columns<T: Copy>(candidate: &Vec<T>, cols: &Vec<usize>, vals: &Vec<T>) -> (r: Vec<T>)
    requires
        cols.len() == vals.len(),
        spec_all_below(cols@, candidate@.len() as int),
    ensures
        r@ == spec_apply_deltas(candidate@, spec_zip(cols@, vals@)),
        cols@.no_duplicates() ==> r@ == spec_write_at(candidate@, cols@, vals@),
{
    let mut pairs: Vec<(usize, T)> = Vec::new();
    let mut i: usize = 0;
    while i < cols.len()
        invariant
            i <= cols.len() == vals.len(),
            pairs@ =~= spec_zip(cols@, vals@).subrange(0, i as int),
        decreases cols.len() - i,
    {
        pairs.push((cols[i], vals[i]));
        i = i + 1;
    }
    assert(pairs@ =~= spec_zip(cols@, vals@));
    let mut r = copy_vec(candidate);
    proof {
        assert forall|i: int| 0 <= i < pairs@.len() implies (#[trigger] pairs@[i]).0 < r@.len() by {
            assert(pairs@[i].0 == cols@[i]);
        }
    }
    apply_deltas(&mut r, &pairs);
    proof {
        if cols@.no_duplicates() {
            lemma_apply_deltas_is_write_at(candidate@, cols@, vals@);
        }
    }
    r
}

/// A copy of `candidate` with the values shifted along `cols` in place:
/// each column takes the value its successor holds at that moment, the last
/// column the first column's original value.
pub fn shift_columns<T: Copy>(candidate: &Vec<T>, cols: &Vec<usize>) -> (r: Vec<T>)
    requires
        spec_all_below(cols@, candidate@.len() as int),
    ensures
        r@ == spec_chain_shift(candidate@, cols@),
{
    let mut c = copy_vec(candidate);
    if cols.len() > 0 {
        let first = c[cols[0]];
        let n = cols.len();
        let mut i: usize = 0;
        while i < n - 1
            invariant
                n == cols@.len() > 0,
                i <= n - 1,
                spec_all_below(cols@, candidate@.len() as int),
                c@.len() == candidate@.len(),
                c@ == spec_chain_prefix(candidate@, cols@, i as int),
            decreases n - 1 - i,
        {
            let v = c[cols[i + 1]];
            c.set(cols[i], v);
            i = i + 1;
        }
        c.set(cols[n - 1], first);
    }
    c
}

/// The group ids at the chosen slots.
pub(crate) fn gather_ids(group_ids: &Vec<usize>, slots: &Vec<usize>) -> (r: Vec<usize>)
    requires
        spec_all_below(slots@, group_ids@.len() as int),
    ensures
        r@ == spec_gather(group_ids@, slots@),
        group_ids@.no_duplicates() && slots@.no_duplicates() ==> r@.no_duplicates(),
{
    let r = gather_values(group_ids, slots);
    proof {
        if group_ids@.no_duplicates() && slots@.no_duplicates() {
            assert forall|i: int, j: int| 0 <= i < r@.len() && 0 <= j < r@.len() && i != j implies r@[i] != r@[j] by {
                assert(slots@[i] != slots@[j]);
            }
        }
    }
    r
}

/// The ids `group_ids[from..=to]`.
pub(crate) fn slice_ids(group_ids: &Vec<usize>, from: usize, to: usize) -> (r: Vec<usize>)
    requires
        from <= to < group_ids.len(),
    ensures
        r@ == group_ids@.subrange(from as int, to + 1),
{
    let mut r: Vec<usize> = Vec::new();
    let mut i: usize = from;
    while i <= to
        invariant
            from <= i <= to + 1,
            to < group_ids.len(),
            r@ =~= group_ids@.subrange(from as int, i as int),
        decreases to + 1 - i,
    {
        r.push(group_ids[i]);
        i = i + 1;
    }
    r
}

} // verus!

verus! {

/// The tabu lists of `new` are those of `old`, both well-formed.
pub open spec fn spec_tabu_kept(old: Mover, new: Mover) -> bool {
    &&& new.wf()
    &&& new.use_tabu == old.use_tabu
    &&& new.tabu_entity_size_map@ == old.tabu_entity_size_map@
    &&& forall|h: int| 0 <= h < old.n_groups() ==> #[trigger] new.tabu_queue(h) == old.tabu_queue(h)
}

/// `slots` are distinct slots below `group_len` of group `g`. When moves avoid
/// tabu ids, they were not tabu and are now pushed onto the group's tabu
/// list; otherwise the tabu lists are kept.
pub open spec fn spec_slots_chosen(old: Mover, new: Mover, g: int, slots: Seq<usize>, group_len: int) -> bool {
    &&& slots.no_duplicates()
    &&& spec_all_below(slots, group_len)
    &&& new.wf()
    &&& new.use_tabu == old.use_tabu
    &&& new.tabu_entity_size_map@ == old.tabu_entity_size_map@
    &&& forall|h: int| 0 <= h < old.n_groups() && h != g ==> #[trigger] new.tabu_queue(h) == old.tabu_queue(h)
    &&& old.use_tabu ==> {
        &&& forall|k: int| 0 <= k < slots.len() ==> !old.tabu_set(g).contains(#[trigger] slots[k])
        &&& new.tabu_queue(g) == spec_tabu_push(old.tabu_queue(g), slots, old.tabu_size(g))
    }
    &&& !old.use_tabu ==> new.tabu_queue(g) == old.tabu_queue(g)
}

/// The columns were drawn as distinct slots of group `g` (see `spec_slots_chosen`).
pub open spec fn spec_columns_chosen(old: Mover, new: Mover, g: int, group_ids: Seq<usize>, cols: Seq<usize>) -> bool {
    exists|slots: Seq<usize>|
        #![trigger spec_gather(group_ids, slots)]
        spec_slots_chosen(old, new, g, slots, group_ids.len() as int) && cols == spec_gather(group_ids, slots)
}

/// Ids below `group_len` that moves may choose in group `g` number at least
/// `count` (always true when moves ignore tabu ids).
pub open spec fn spec_enough_ids(m: Mover, g: int, count: int, group_len: int) -> bool {
    m.use_tabu ==> count <= spec_valid_ids(m.tabu_set(g), group_len).len()
}

/// What a move returns: a changed candidate (plain mode), the changed
/// columns, and the new values of those columns (incremental mode).
pub type MoveResult<T> = (Option<Vec<T>>, Option<Vec<usize>>, Option<Vec<T>>);

/// The plain or incremental outcome of a move that writes `vals` at `cols`.
pub open spec fn spec_move_outcome<T>(candidate: Seq<T>, r: MoveResult<T>, cols: Seq<usize>, vals: Seq<T>, incremental: bool) -> bool {
    &&& r.1 is Some && r.1->0@ == cols
    &&& incremental ==> (r.0 is None && r.2 is Some && r.2->0@ == vals)
    &&& !incremental ==> (r.2 is None && r.0 is Some && r.0->0@ == spec_apply_deltas(candidate, spec_zip(cols, vals)))
}

/// The plain or incremental outcome of a move that shifts values along
/// `cols`: plain, the candidate shifted in place (see `spec_chain_shift`);
/// incremental, the values at `cols` rotated left by one.
pub open spec fn spec_shift_outcome<T>(candidate: Seq<T>, r: MoveResult<T>, cols: Seq<usize>, incremental: bool) -> bool {
    &&& r.1 is Some && r.1->0@ == cols
    &&& incremental ==> (r.0 is None && r.2 is Some && r.2->0@ == spec_rotate_left(spec_gather(candidate, cols), 1))
    &&& !incremental ==> (r.2 is None && r.0 is Some && r.0->0@ == spec_chain_shift(candidate, cols))
}

impl Mover {
    /// Draws `count` distinct slots of group `g` (of `group_len` ids): any
    /// slots, or non-tabu ones that then become tabu.
    fn choose_slots(&mut self, g: usize, count: usize, group_len: usize) -> (slots: Vec<usize>)
        requires
            old(self).wf(),
            g < old(self).n_groups(),
            count <= group_len,
            spec_enough_ids(*old(self), g as int, count as int, group_len as int),
        ensures
            slots@.len() == count,
            spec_slots_chosen(*old(self), *final(self), g as int, slots@, group_len as int),
    {
        broadcast use vstd::multiset::group_multiset_axioms, vstd::seq_lib::to_multiset_contains;

        if !self.use_tabu {
            let indices = index_range(group_len);
            let slots = self.choice_without_replacement(&indices, count);
            proof {
                assert(indices@.no_duplicates());
                indices@.lemma_multiset_has_no_duplicates();
                assert forall|x: usize| slots@.to_multiset().contains(x) implies slots@.to_multiset().count(x) == 1 by {
                    assert(slots@.to_multiset().count(x) <= indices@.to_multiset().count(x));
                }
                slots@.lemma_multiset_has_no_duplicates_conv();
                assert forall|k: int| 0 <= k < slots@.len() implies (#[trigger] slots@[k]) < group_len by {
                    assert(slots@.to_multiset().count(slots@[k]) > 0);
                    assert(indices@.to_multiset().count(slots@[k]) > 0);
                    assert(indices@.contains(slots@[k]));
                }
                assert forall|h: int| 0 <= h < self.n_groups() implies
                    self.tabu_ids_sets_map@[h] == old(self).tabu_ids_sets_map@[h]
                    && self.tabu_ids_vecdeque_map@[h] == old(self).tabu_ids_vecdeque_map@[h] by {
                }
                assert forall|h: int| 0 <= h < self.n_groups() implies #[trigger] self.tabu_set(h) == self.tabu_queue(h).to_set() by {
                    assert(self.tabu_set(h) == old(self).tabu_set(h));
                    assert(self.tabu_queue(h) == old(self).tabu_queue(h));
                }
                assert forall|h: int| 0 <= h < self.n_groups() implies (#[trigger] self.tabu_queue(h)).no_duplicates() && self.tabu_queue(h).len() <= self.tabu_size(h) by {
                    assert(self.tabu_queue(h) == old(self).tabu_queue(h));
                }
            }
            slots
        } else {
            self.select_non_tabu_ids(g, count, group_len)
        }
    }

    /// Gives `max(change_count, 1)` distinct columns of the group new values
    /// drawn by `value_of`. Returns three `None` when the group is smaller.
    pub fn change_move<T: Copy, G: Fn(usize) -> T>(
        &mut self,
        candidate: &Vec<T>,
        group_ids: &Vec<usize>,
        g: usize,
        change_count: usize,
        value_of: &G,
        incremental: bool,
    ) -> (r: MoveResult<T>)
        requires
            old(self).wf(),
            g < old(self).n_groups(),
            spec_all_below(group_ids@, candidate@.len() as int),
            forall|i: usize| value_of.requires((i,)),
            spec_enough_ids(*old(self), g as int, if change_count < 1 { 1 } else { change_count as int }, group_ids@.len() as int),
        ensures
            ({
                let count = if change_count < 1 { 1 } else { change_count as int };
                if group_ids@.len() < count {
                    r == (None::<Vec<T>>, None::<Vec<usize>>, None::<Vec<T>>) && spec_tabu_kept(*old(self), *final(self))
                } else {
                    exists|cols: Seq<usize>, vals: Seq<T>| {
                        &&& cols.len() == count
                        &&& group_ids@.no_duplicates() ==> cols.no_duplicates()
                        &&& spec_columns_chosen(*old(self), *final(self), g as int, group_ids@, cols)
                        &&& vals.len() == count
                        &&& forall|k: int| 0 <= k < count ==> value_of.ensures((#[trigger] cols[k],), vals[k])
                        &&& spec_move_outcome(candidate@, r, cols, vals, incremental)
                    }
                }
            }),
    {
        let count = if change_count < 1 { 1 } else { change_count };
        if group_ids.len() < count {
            return (None, None, None);
        }
        let slots = self.choose_slots(g, count, group_ids.len());
        let changed_columns = gather_ids(group_ids, &slots);
        let mut values: Vec<T> = Vec::new();
        let mut k: usize = 0;
        while k < changed_columns.len()
            invariant
                k <= changed_columns.len(),
                values@.len() == k,
                forall|i: usize| value_of.requires((i,)),
                forall|j: int| 0 <= j < k ==> value_of.ensures((#[trigger] changed_columns@[j],), values@[j]),
            decreases changed_columns.len() - k,
        {
            let v = value_of(changed_columns[k]);
            values.push(v);
            k = k + 1;
        }
        let ghost cols = changed_columns@;
        let ghost vals = values@;
        proof {
            assert(spec_gather(group_ids@, slots@) == cols);
            assert(spec_columns_chosen(*old(self), *self, g as int, group_ids@, cols));
        }
        let r: MoveResult<T> = if incremental {
            (None, Some(changed_columns), Some(values))
        } else {
            let changed_candidate = write_columns(candidate, &changed_columns, &values);
            (Some(changed_candidate), Some(changed_columns), None)
        };
        proof {
            assert(spec_move_outcome(candidate@, r, cols, vals, incremental));
        }
        r
    }
}

} // verus!

verus! {

/// Two movers that differ at most in their generators have the same tabu
/// state.
proof fn lemma_same_tabu_state(old: Mover, new: Mover)
    requires
        old.wf(),
        new.use_tabu == old.use_tabu,
        new.tabu_ids_sets_map == old.tabu_ids_sets_map,
        new.tabu_ids_vecdeque_map == old.tabu_ids_vecdeque_map,
        new.tabu_entity_size_map == old.tabu_entity_size_map,
        new.caches == old.caches,
    ensures
        new.wf(),
        spec_tabu_kept(old, new),
        forall|g: int| #[trigger] new.tabu_set(g) == old.tabu_set(g),
        forall|m: Mover, g: int, c: int, l: int| m == new ==> (spec_enough_ids(m, g, c, l) == spec_enough_ids(old, g, c, l)),
{
    assert forall|g: int| 0 <= g < new.n_groups() implies #[trigger] new.tabu_set(g) == new.tabu_queue(g).to_set() by {
        assert(old.tabu_set(g) == old.tabu_queue(g).to_set());
    }
    assert forall|g: int| 0 <= g < new.n_groups() implies (#[trigger] new.tabu_queue(g)).no_duplicates() && new.tabu_queue(g).len() <= new.tabu_size(g) by {
        assert(old.tabu_queue(g).no_duplicates());
    }
}

/// Choosing slots is not undone when only the generator changes afterwards.
proof fn lemma_chosen_transfer(old: Mover, a: Mover, b: Mover, g: int, slots: Seq<usize>, len: int)
    requires
        spec_slots_chosen(old, a, g, slots, len),
        b.use_tabu == a.use_tabu,
        b.tabu_ids_sets_map == a.tabu_ids_sets_map,
        b.tabu_ids_vecdeque_map == a.tabu_ids_vecdeque_map,
        b.tabu_entity_size_map == a.tabu_entity_size_map,
        b.caches == a.caches,
    ensures
        spec_slots_chosen(old, b, g, slots, len),
{
    lemma_same_tabu_state(a, b);
    assert forall|h: int| #[trigger] b.tabu_queue(h) == a.tabu_queue(h) by {
    }
}

/// Group `g`'s chosen ids cover one contiguous run of the group: the two
/// distinct slots `slots` are its ends.
pub open spec fn spec_run_from_slots(slots: Seq<usize>, lo: int, hi: int) -> bool {
    &&& slots.len() == 2
    &&& lo < hi
    &&& (lo == slots[0] && hi == slots[1]) || (lo == slots[1] && hi == slots[0])
}

/// Groups and tabu lists fit together: one tabu list per group, and every
/// group names variables of the candidate.
pub open spec fn spec_groups_fit(m: Mover, groups: &SemanticGroups, candidate_len: int) -> bool {
    &&& groups.n_groups() == m.n_groups()
    &&& groups.n_groups() > 0
    &&& groups.ids_below(candidate_len)
}

impl Mover {
    /// Rotates the values of the columns at `max(change_count, 2)` distinct
    /// slots of the group: in place, column `cols[i]` takes the value that
    /// `cols[i + 1]` holds, the last the first one's original value (over
    /// distinct columns, a rotation left by one). Returns three `None` when
    /// the group is smaller.
    pub fn swap_move<T: Copy>(
        &mut self,
        candidate: &Vec<T>,
        group_ids: &Vec<usize>,
        g: usize,
        change_count: usize,
        incremental: bool,
    ) -> (r: MoveResult<T>)
        requires
            old(self).wf(),
            g < old(self).n_groups(),
            spec_all_below(group_ids@, candidate@.len() as int),
            spec_enough_ids(*old(self), g as int, if change_count < 2 { 2 } else { change_count as int }, group_ids@.len() as int),
        ensures
            ({
                let count = if change_count < 2 { 2 } else { change_count as int };
                if group_ids@.len() < count {
                    r == (None::<Vec<T>>, None::<Vec<usize>>, None::<Vec<T>>) && spec_tabu_kept(*old(self), *final(self))
                } else {
                    exists|cols: Seq<usize>| {
                        &&& cols.len() == count
                        &&& group_ids@.no_duplicates() ==> cols.no_duplicates()
                        &&& spec_columns_chosen(*old(self), *final(self), g as int, group_ids@, cols)
                        &&& spec_shift_outcome(candidate@, r, cols, incremental)
                    }
                }
            }),
            group_ids@.no_duplicates() && !incremental && r.0 is Some ==> r.0->0@.to_multiset() == candidate@.to_multiset(),
    {
        let count = if change_count < 2 { 2 } else { change_count };
        if group_ids.len() < count {
            return (None, None, None);
        }
        let slots = self.choose_slots(g, count, group_ids.len());
        let changed_columns = gather_ids(group_ids, &slots);
        let ghost cols = changed_columns@;
        proof {
            assert(spec_gather(group_ids@, slots@) == cols);
            assert(spec_columns_chosen(*old(self), *self, g as int, group_ids@, cols));
            assert(spec_all_below(cols, candidate@.len() as int)) by {
                assert forall|k: int| 0 <= k < cols.len() implies (#[trigger] cols[k]) < candidate@.len() by {
                    assert(cols[k] == group_ids@[slots@[k] as int]);
                }
            }
        }
        let r: MoveResult<T> = if incremental {
            let current = gather_values(candidate, &changed_columns);
            let values = rotate_left_values(&current, 1);
            (None, Some(changed_columns), Some(values))
        } else {
            let changed_candidate = shift_columns(candidate, &changed_columns);
            proof {
                if group_ids@.no_duplicates() {
                    lemma_chain_shift_is_rotation(candidate@, cols);
                    lemma_rotate_left_multiset(spec_gather(candidate@, cols), 1);
                    lemma_write_at_rearrangement(candidate@, cols, spec_rotate_left(spec_gather(candidate@, cols), 1));
                }
            }
            (Some(changed_candidate), Some(changed_columns), None)
        };
        proof {
            assert(spec_shift_outcome(candidate@, r, cols, incremental));
        }
        r
    }

    /// Draws two distinct slots of a random group and moves the value at the
    /// lower slot's column to the upper slot's column, shifting the columns in
    /// between down by one, in place. Returns three `None` when the group has
    /// at most one id.
    pub fn insertion_move<T: Copy>(&mut self, candidate: &Vec<T>, groups: &SemanticGroups, incremental: bool) -> (r: MoveResult<T>)
        requires
            old(self).wf(),
            spec_groups_fit(*old(self), groups, candidate@.len() as int),
            forall|g: int| 0 <= g < groups.n_groups() && groups.group(g).len() > 1
                ==> spec_enough_ids(*old(self), g, 2, #[trigger] groups.group(g).len() as int),
        ensures
            exists|g: int| #![trigger groups.group(g)] 0 <= g < groups.n_groups() && {
                let ids = groups.group(g);
                if ids.len() <= 1 {
                    r == (None::<Vec<T>>, None::<Vec<usize>>, None::<Vec<T>>) && spec_tabu_kept(*old(self), *final(self))
                } else {
                    exists|slots: Seq<usize>, lo: int, hi: int| #![trigger spec_run_from_slots(slots, lo, hi)] {
                        &&& spec_run_from_slots(slots, lo, hi)
                        &&& spec_slots_chosen(*old(self), *final(self), g, slots, ids.len() as int)
                        &&& spec_shift_outcome(candidate@, r, ids.subrange(lo, hi + 1), incremental)
                        &&& ids.no_duplicates() && !incremental ==> r.0->0@.to_multiset() == candidate@.to_multiset()
                    }
                }
            },
    {
        let g = groups.get_random_semantic_group_ids(&mut self.rng);
        let group_ids = &groups.semantic_groups_ids[g];
        proof {
            assert(group_ids@ == groups.group(g as int));
            assert(self.tabu_ids_sets_map == old(self).tabu_ids_sets_map);
            assert(self.tabu_ids_vecdeque_map == old(self).tabu_ids_vecdeque_map);
            assert(self.tabu_entity_size_map == old(self).tabu_entity_size_map);
            assert(self.caches == old(self).caches);
            lemma_same_tabu_state(*old(self), *self);
        }
        if group_ids.len() <= 1 {
            return (None, None, None);
        }
        let slots = self.choose_slots(g, 2, group_ids.len());
        let mut get_out_id = slots[0];
        let mut put_in_id = slots[1];
        if get_out_id > put_in_id {
            let t = get_out_id;
            get_out_id = put_in_id;
            put_in_id = t;
        }
        let old_ids = slice_ids(group_ids, get_out_id, put_in_id);
        let ghost cols = old_ids@;
        proof {
            assert(slots@[0] != slots@[1]);
            assert(spec_run_from_slots(slots@, get_out_id as int, put_in_id as int));
            assert(groups.group(g as int).no_duplicates() ==> cols.no_duplicates()) by {
                if groups.group(g as int).no_duplicates() {
                    assert forall|i: int, j: int| 0 <= i < cols.len() && 0 <= j < cols.len() && i != j implies cols[i] != cols[j] by {
                        assert(cols[i] == groups.group(g as int)[get_out_id + i]);
                        assert(cols[j] == groups.group(g as int)[get_out_id + j]);
                    }
                }
            }
            assert(spec_all_below(cols, candidate@.len() as int)) by {
                assert forall|k: int| 0 <= k < cols.len() implies (#[trigger] cols[k]) < candidate@.len() by {
                    assert(cols[k] == groups.group(g as int)[get_out_id + k]);
                }
            }
        }
        let r: MoveResult<T> = if incremental {
            let current = gather_values(candidate, &old_ids);
            let values = rotate_left_values(&current, 1);
            (None, Some(old_ids), Some(values))
        } else {
            let changed_candidate = shift_columns(candidate, &old_ids);
            proof {
                if groups.group(g as int).no_duplicates() {
                    lemma_chain_shift_is_rotation(candidate@, cols);
                    lemma_rotate_left_multiset(spec_gather(candidate@, cols), 1);
                    lemma_write_at_rearrangement(candidate@, cols, spec_rotate_left(spec_gather(candidate@, cols), 1));
                }
            }
            (Some(changed_candidate), Some(old_ids), None)
        };
        proof {
            assert(spec_shift_outcome(candidate@, r, cols, incremental));
        }
        r
    }

    /// Draws two distinct slots of a random group and reverses the values of
    /// the columns from the lower slot to the upper one. Returns three `None`
    /// when the group has at most one id.
    pub fn inverse_move<T: Copy>(&mut self, candidate: &Vec<T>, groups: &SemanticGroups, incremental: bool) -> (r: MoveResult<T>)
        requires
            old(self).wf(),
            spec_groups_fit(*old(self), groups, candidate@.len() as int),
            forall|g: int| 0 <= g < groups.n_groups() && groups.group(g).len() > 1
                ==> spec_enough_ids(*old(self), g, 2, #[trigger] groups.group(g).len() as int),
        ensures
            exists|g: int| #![trigger groups.group(g)] 0 <= g < groups.n_groups() && {
                let ids = groups.group(g);
                if ids.len() <= 1 {
                    r == (None::<Vec<T>>, None::<Vec<usize>>, None::<Vec<T>>) && spec_tabu_kept(*old(self), *final(self))
                } else {
                    exists|slots: Seq<usize>, lo: int, hi: int| #![trigger spec_run_from_slots(slots, lo, hi)] {
                        &&& spec_run_from_slots(slots, lo, hi)
                        &&& spec_slots_chosen(*old(self), *final(self), g, slots, ids.len() as int)
                        &&& {
                            let cols = ids.subrange(lo, hi + 1);
                            spec_move_outcome(candidate@, r, cols, spec_gather(candidate@, cols).reverse(), incremental)
                        }
                        &&& ids.no_duplicates() && !incremental ==> r.0->0@.to_multiset() == candidate@.to_multiset()
                    }
                }
            },
    {
        let g = groups.get_random_semantic_group_ids(&mut self.rng);
        let group_ids = &groups.semantic_groups_ids[g];
        proof {
            assert(group_ids@ == groups.group(g as int));
            assert(self.tabu_ids_sets_map == old(self).tabu_ids_sets_map);
            assert(self.tabu_ids_vecdeque_map == old(self).tabu_ids_vecdeque_map);
            assert(self.tabu_entity_size_map == old(self).tabu_entity_size_map);
            assert(self.caches == old(self).caches);
            lemma_same_tabu_state(*old(self), *self);
        }
        if group_ids.len() <= 1 {
            return (None, None, None);
        }
        let slots = self.choose_slots(g, 2, group_ids.len());
        let mut start_id = slots[0];
        let mut end_id = slots[1];
        if start_id > end_id {
            let t = start_id;
            start_id = end_id;
            end_id = t;
        }
        let old_ids = slice_ids(group_ids, start_id, end_id);
        let ghost cols = old_ids@;
        proof {
            assert(slots@[0] != slots@[1]);
            assert(spec_run_from_slots(slots@, start_id as int, end_id as int));
            assert(groups.group(g as int).no_duplicates() ==> cols.no_duplicates()) by {
                if groups.group(g as int).no_duplicates() {
                    assert forall|i: int, j: int| 0 <= i < cols.len() && 0 <= j < cols.len() && i != j implies cols[i] != cols[j] by {
                        assert(cols[i] == groups.group(g as int)[start_id + i]);
                        assert(cols[j] == groups.group(g as int)[start_id + j]);
                    }
                }
            }
            assert(spec_all_below(cols, candidate@.len() as int)) by {
                assert forall|k: int| 0 <= k < cols.len() implies (#[trigger] cols[k]) < candidate@.len() by {
                    assert(cols[k] == groups.group(g as int)[start_id + k]);
                }
            }
        }
        let current = gather_values(candidate, &old_ids);
        let values = reverse_values(&current);
        let r: MoveResult<T> = if incremental {
            (None, Some(old_ids), Some(values))
        } else {
            let changed_candidate = write_columns(candidate, &old_ids, &values);
            proof {
                if groups.group(g as int).no_duplicates() {
                    current@.lemma_reverse_to_multiset();
                    lemma_write_at_rearrangement(candidate@, cols, values@);
                    lemma_apply_deltas_is_write_at(candidate@, cols, values@);
                }
            }
            (Some(changed_candidate), Some(old_ids), None)
        };
        proof {
            assert(spec_move_outcome(candidate@, r, cols, spec_gather(candidate@, cols).reverse(), incremental));
        }
        r
    }
}

} // verus!

verus! {

impl Mover {
    /// Draws a length from 3 to 6 and a random group, then shuffles the
    /// values of a run of that many consecutive columns of the group, starting
    /// at a random (non-tabu, when tabu ids are avoided) slot. Returns three
    /// `None` when the group is shorter than the drawn length.
    pub fn scramble_move<T: Copy>(&mut self, candidate: &Vec<T>, groups: &SemanticGroups, incremental: bool) -> (r: MoveResult<T>)
        requires
            old(self).wf(),
            spec_groups_fit(*old(self), groups, candidate@.len() as int),
            forall|g: int, cnt: int| #![trigger groups.group(g), spec_scramble_len(cnt)]
                0 <= g < groups.n_groups() && spec_scramble_len(cnt) && groups.group(g).len() >= cnt
                ==> spec_enough_ids(*old(self), g, 1, groups.group(g).len() - cnt + 1),
        ensures
            exists|g: int, cnt: int| #![trigger groups.group(g), spec_scramble_len(cnt)] 0 <= g < groups.n_groups() && spec_scramble_len(cnt) && {
                let ids = groups.group(g);
                if ids.len() < cnt {
                    r == (None::<Vec<T>>, None::<Vec<usize>>, None::<Vec<T>>) && spec_tabu_kept(*old(self), *final(self))
                } else {
                    exists|start: usize| #![trigger seq![start]] {
                        let cols = ids.subrange(start as int, start + cnt);
                        &&& start + cnt <= ids.len()
                        &&& spec_slots_chosen(*old(self), *final(self), g, seq![start], ids.len() - cnt + 1)
                        &&& r.1 is Some && r.1->0@ == cols
                        &&& incremental ==> (r.0 is None && r.2 is Some && exists|p: Seq<usize>|
                            p.to_multiset() == cols.to_multiset() && r.2->0@ == spec_gather(candidate@, p))
                        &&& !incremental ==> (r.2 is None && r.0 is Some && exists|vals: Seq<T>|
                            vals.len() == cols.len()
                            && vals.to_multiset() == spec_gather(candidate@, cols).to_multiset()
                            && r.0->0@ == spec_apply_deltas(candidate@, spec_zip(cols, vals)))
                        &&& ids.no_duplicates() && !incremental ==> r.0->0@.to_multiset() == candidate@.to_multiset()
                    }
                }
            },
    {
        broadcast use vstd::seq_lib::to_multiset_contains;

        let current_change_count = rng_gen_range_inclusive(&mut self.rng, 3, 6);
        let g = groups.get_random_semantic_group_ids(&mut self.rng);
        let group_ids = &groups.semantic_groups_ids[g];
        proof {
            assert(group_ids@ == groups.group(g as int));
            assert(spec_scramble_len(current_change_count as int));
            lemma_same_tabu_state(*old(self), *self);
        }
        if group_ids.len() < current_change_count {
            return (None, None, None);
        }
        let ghost before = *self;
        let current_start_id: usize;
        if !self.use_tabu {
            current_start_id = rng_gen_range_inclusive(&mut self.rng, 0, group_ids.len() - current_change_count);
            proof {
                lemma_same_tabu_state(before, *self);
            }
        } else {
            let selected = self.select_non_tabu_ids(g, 1, group_ids.len() - current_change_count + 1);
            current_start_id = selected[0];
            proof {
                assert(selected@ =~= seq![current_start_id]);
            }
        }
        let native_columns = slice_ids(group_ids, current_start_id, current_start_id + current_change_count - 1);
        let ghost cols = native_columns@;
        proof {
            assert(spec_slots_chosen(*old(self), *self, g as int, seq![current_start_id], group_ids.len() - current_change_count + 1));
        }
        let ghost after_choice = *self;
        proof {
            assert(groups.group(g as int).no_duplicates() ==> cols.no_duplicates()) by {
                if groups.group(g as int).no_duplicates() {
                    assert forall|i: int, j: int| 0 <= i < cols.len() && 0 <= j < cols.len() && i != j implies cols[i] != cols[j] by {
                        assert(cols[i] == groups.group(g as int)[current_start_id + i]);
                        assert(cols[j] == groups.group(g as int)[current_start_id + j]);
                    }
                }
            }
            assert(spec_all_below(cols, candidate@.len() as int)) by {
                assert forall|k: int| 0 <= k < cols.len() implies (#[trigger] cols[k]) < candidate@.len() by {
                    assert(cols[k] == groups.group(g as int)[current_start_id + k]);
                }
            }
        }
        if incremental {
            let mut shuffled = copy_vec(&native_columns);
            shuffle_vec(&mut shuffled, &mut self.rng);
            proof {
                assert forall|k: int| 0 <= k < shuffled@.len() implies (#[trigger] shuffled@[k]) < candidate@.len() by {
                    assert(shuffled@.to_multiset().count(shuffled@[k]) > 0);
                    assert(cols.to_multiset().count(shuffled@[k]) > 0);
                    assert(cols.contains(shuffled@[k]));
                }
            }
            let deltas = gather_values(candidate, &shuffled);
            proof {
                lemma_chosen_transfer(*old(self), after_choice, *self, g as int, seq![current_start_id], group_ids.len() - current_change_count + 1);
            }
            (None, Some(native_columns), Some(deltas))
        } else {
            let mut values = gather_values(candidate, &native_columns);
            let ghost current = values@;
            shuffle_vec(&mut values, &mut self.rng);
            let changed_candidate = write_columns(candidate, &native_columns, &values);
            proof {
                if groups.group(g as int).no_duplicates() {
                    lemma_write_at_rearrangement(candidate@, cols, values@);
                }
                lemma_chosen_transfer(*old(self), after_choice, *self, g as int, seq![current_start_id], group_ids.len() - current_change_count + 1);
            }
            (Some(changed_candidate), Some(native_columns), None)
        }
    }
}

/// The lengths a scramble move draws.
pub open spec fn spec_scramble_len(cnt: int) -> bool {
    3 <= cnt <= 6
}

} // verus!

verus! {

/// The edges `(ids[s], ids[s + 1])` for the slots `s` of `slots`.
pub open spec fn spec_edges(ids: Seq<usize>, slots: Seq<usize>) -> Seq<(usize, usize)> {
    Seq::new(slots.len(), |i: int| (ids[slots[i] as int], ids[slots[i] + 1]))
}

/// The endpoints of `edges`.
pub open spec fn spec_endpoints(edges: Seq<(usize, usize)>) -> Set<usize> {
    Set::new(|x: usize| exists|i: int| 0 <= i < edges.len() && (#[trigger] edges[i].0 == x || edges[i].1 == x))
}

/// The first `t` steps of shifting edge values: edge `i` takes the values at
/// the ends of edge `i + 1`, reading the vector as already changed.
pub open spec fn spec_shift_prefix<T>(s: Seq<T>, edges: Seq<(usize, usize)>, t: int) -> Seq<T>
    decreases t,
{
    if t <= 0 {
        s
    } else {
        let p = spec_shift_prefix(s, edges, t - 1);
        let e = edges[t - 1];
        let n = edges[t];
        let p1 = p.update(e.0 as int, p[n.0 as int]);
        p1.update(e.1 as int, p1[n.1 as int])
    }
}

/// Shifting edge values one edge down, the last edge taking the first
/// edge's original values.
pub open spec fn spec_shift_edges<T>(s: Seq<T>, edges: Seq<(usize, usize)>) -> Seq<T> {
    if edges.len() == 0 {
        s
    } else {
        let k = edges.len() - 1;
        let p = spec_shift_prefix(s, edges, k);
        p.update(edges[k].0 as int, s[edges[0].0 as int]).update(edges[k].1 as int, s[edges[0].1 as int])
    }
}

/// The new value of each endpoint in incremental mode: each edge's ends take
/// the values at the ends of the next edge (the last edge those of the first),
/// a later edge overriding an earlier one at a shared endpoint.
pub open spec fn spec_edge_map<T>(s: Seq<T>, edges: Seq<(usize, usize)>, t: int) -> Map<usize, T>
    decreases t,
{
    if t <= 0 {
        Map::empty()
    } else {
        let rot = spec_rotate_left(edges, 1);
        spec_edge_map(s, edges, t - 1).insert(edges[t - 1].0, s[rot[t - 1].0 as int]).insert(edges[t - 1].1, s[rot[t - 1].1 as int])
    }
}

/// Every endpoint of `edges` lies below `len`.
pub open spec fn spec_edges_below(edges: Seq<(usize, usize)>, len: int) -> bool {
    forall|i: int| 0 <= i < edges.len() ==> (#[trigger] edges[i]).0 < len && edges[i].1 < len
}

proof fn lemma_shift_prefix_len<T>(s: Seq<T>, edges: Seq<(usize, usize)>, t: int)
    requires
        0 <= t < edges.len() || t == 0,
        spec_edges_below(edges, s.len() as int),
    ensures
        spec_shift_prefix(s, edges, t).len() == s.len(),
    decreases t,
{
    if t > 0 {
        lemma_shift_prefix_len(s, edges, t - 1);
    }
}

proof fn lemma_endpoints_push(e: Seq<(usize, usize)>, t: int)
    requires
        0 < t <= e.len(),
    ensures
        spec_endpoints(e.subrange(0, t)) == spec_endpoints(e.subrange(0, t - 1)).insert(e[t - 1].0).insert(e[t - 1].1),
{
    let a = spec_endpoints(e.subrange(0, t - 1));
    let b = spec_endpoints(e.subrange(0, t));
    let pre = e.subrange(0, t - 1);
    let cur = e.subrange(0, t);
    assert forall|j: int| 0 <= j < t - 1 implies #[trigger] pre[j] == cur[j] by {
    }
    assert forall|x: usize| b.contains(x) <==> a.insert(e[t - 1].0).insert(e[t - 1].1).contains(x) by {
        if b.contains(x) {
            let j = choose|j: int| 0 <= j < t && (#[trigger] cur[j].0 == x || cur[j].1 == x);
            if j < t - 1 {
                assert(pre[j] == cur[j]);
            }
        }
        if a.contains(x) {
            let j = choose|j: int| 0 <= j < t - 1 && (#[trigger] pre[j].0 == x || pre[j].1 == x);
            assert(cur[j] == pre[j]);
        }
        if x == e[t - 1].0 || x == e[t - 1].1 {
            assert(cur[t - 1] == e[t - 1]);
        }
    }
    assert(b =~= a.insert(e[t - 1].0).insert(e[t - 1].1));
}

proof fn lemma_edge_map_dom<T>(s: Seq<T>, edges: Seq<(usize, usize)>, t: int)
    requires
        0 <= t <= edges.len(),
    ensures
        spec_edge_map(s, edges, t).dom() == spec_endpoints(edges.subrange(0, t)),
    decreases t,
{
    if t > 0 {
        lemma_edge_map_dom(s, edges, t - 1);
        lemma_endpoints_push(edges, t);
    } else {
        assert(spec_endpoints(edges.subrange(0, 0)) =~= Set::<usize>::empty());
    }
}

} // verus!

verus! {

/// How many edges a swap-edges move takes in a group of `len` ids.
pub open spec fn spec_edges_count(change_count: int, len: int) -> int {
    let c = if change_count < 2 { 2 } else { change_count };
    if c > len - 1 { len - 1 } else { c }
}

impl Mover {
    /// Draws edges between neighbouring ids of the group (as distinct slots
    /// below the group's last one, `max(change_count, 2)` of them at most) and
    /// shifts the values at their ends one edge down, the last edge taking the
    /// values of the first. The changed columns are the edges' ends, each once,
    /// in the order of a hash set. Returns three `None` for an empty group.
    pub fn swap_edges_move<T: Copy>(
        &mut self,
        candidate: &Vec<T>,
        group_ids: &Vec<usize>,
        g: usize,
        change_count: usize,
        incremental: bool,
    ) -> (r: MoveResult<T>)
        requires
            old(self).wf(),
            g < old(self).n_groups(),
            spec_all_below(group_ids@, candidate@.len() as int),
            group_ids@.len() > 0 ==> spec_enough_ids(*old(self), g as int,
                spec_edges_count(change_count as int, group_ids@.len() as int), group_ids@.len() - 1),
            incremental ==> group_ids@.len() != 1,
        ensures
            group_ids@.len() == 0 ==> r == (None::<Vec<T>>, None::<Vec<usize>>, None::<Vec<T>>) && spec_tabu_kept(*old(self), *final(self)),
            group_ids@.len() > 0 ==> exists|slots: Seq<usize>| #![trigger spec_edges(group_ids@, slots)] {
                let edges = spec_edges(group_ids@, slots);
                &&& slots.len() == spec_edges_count(change_count as int, group_ids@.len() as int)
                &&& spec_slots_chosen(*old(self), *final(self), g as int, slots, group_ids@.len() - 1)
                &&& r.1 is Some && r.1->0@.to_set() == spec_endpoints(edges) && r.1->0@.no_duplicates()
                &&& incremental ==> (r.0 is None && r.2 is Some && r.2->0@.len() == r.1->0@.len()
                    && forall|j: int| 0 <= j < r.2->0@.len() ==> #[trigger] r.2->0@[j] == spec_edge_map(candidate@, edges, edges.len() as int)[r.1->0@[j]])
                &&& !incremental ==> (r.2 is None && r.0 is Some && r.0->0@ == spec_shift_edges(candidate@, edges))
                &&& !incremental && crate::move_laws::spec_edges_disjoint(edges) ==> r.0->0@.to_multiset() == candidate@.to_multiset()
            },
    {
        if group_ids.len() == 0 {
            return (None, None, None);
        }
        let mut count = if change_count < 2 { 2 } else { change_count };
        if count > group_ids.len() - 1 {
            count = group_ids.len() - 1;
        }
        let slots = self.choose_slots(g, count, group_ids.len() - 1);
        let ghost ids = group_ids@;
        let mut edges: Vec<(usize, usize)> = Vec::new();
        let mut changed_columns = fx_set_new();
        let mut i: usize = 0;
        while i < slots.len()
            invariant
                i <= slots.len(),
                spec_all_below(slots@, ids.len() - 1),
                ids == group_ids@,
                edges@ =~= spec_edges(ids, slots@).subrange(0, i as int),
                changed_columns@ == spec_endpoints(spec_edges(ids, slots@).subrange(0, i as int)),
            decreases slots.len() - i,
        {
            let s = slots[i];
            proof {
                assert(slots@[i as int] < ids.len() - 1);
                assert(s < group_ids.len() - 1);
            }
            let edge = (group_ids[s], group_ids[s + 1]);
            let ghost before = changed_columns@;
            edges.push(edge);
            fx_set_insert(&mut changed_columns, edge.0);
            fx_set_insert(&mut changed_columns, edge.1);
            i = i + 1;
            proof {
                let e = spec_edges(ids, slots@);
                assert(e[i - 1] == edge);
                lemma_endpoints_push(e, i as int);
            }
        }
        let ghost all_edges = spec_edges(ids, slots@);
        proof {
            assert(all_edges.subrange(0, slots@.len() as int) =~= all_edges);
            assert(spec_edges_below(edges@, candidate@.len() as int)) by {
                assert forall|k: int| 0 <= k < edges@.len() implies (#[trigger] edges@[k]).0 < candidate@.len() && edges@[k].1 < candidate@.len() by {
                    assert(edges@[k].0 == ids[slots@[k] as int]);
                    assert(edges@[k].1 == ids[slots@[k] + 1]);
                }
            }
        }
        let changed_columns_vec = fx_set_into_vec(changed_columns);
        if incremental {
            let rotated_edges = rotate_left_values(&edges, 1);
            proof {
                assert forall|q: int| 0 <= q < rotated_edges@.len() implies (#[trigger] rotated_edges@[q]).0 < candidate@.len() && rotated_edges@[q].1 < candidate@.len() by {
                    if q < edges@.len() - 1 {
                        assert(rotated_edges@[q] == edges@[q + 1]);
                    } else {
                        assert(rotated_edges@[q] == edges@[0]);
                    }
                }
            }
            let mut deltas_map = fx_map_new::<usize, T>();
            let mut k: usize = 0;
            while k < edges.len()
                invariant
                    k <= edges.len() == rotated_edges.len(),
                    rotated_edges@ == spec_rotate_left(edges@, 1),
                    spec_edges_below(edges@, candidate@.len() as int),
                    spec_edges_below(rotated_edges@, candidate@.len() as int),
                    deltas_map@ == spec_edge_map(candidate@, edges@, k as int),
                decreases edges.len() - k,
            {
                let original_edge = edges[k];
                let rotated_edge = rotated_edges[k];
                fx_map_insert(&mut deltas_map, original_edge.0, candidate[rotated_edge.0]);
                fx_map_insert(&mut deltas_map, original_edge.1, candidate[rotated_edge.1]);
                k = k + 1;
            }
            proof {
                lemma_edge_map_dom(candidate@, edges@, edges@.len() as int);
                assert(edges@.subrange(0, edges@.len() as int) =~= edges@);
            }
            let mut deltas: Vec<T> = Vec::new();
            let mut j: usize = 0;
            while j < changed_columns_vec.len()
                invariant
                    j <= changed_columns_vec.len(),
                    deltas@.len() == j,
                    changed_columns_vec@.to_set() == spec_endpoints(edges@),
                    deltas_map@.dom() == spec_endpoints(edges@),
                    forall|q: int| 0 <= q < j ==> #[trigger] deltas@[q] == deltas_map@[changed_columns_vec@[q]],
                decreases changed_columns_vec.len() - j,
            {
                let col = changed_columns_vec[j];
                proof {
                    assert(changed_columns_vec@.to_set().contains(col));
                }
                let value = fx_map_get_ref(&deltas_map, col);
                match value {
                    Some(v) => deltas.push(*v),
                    None => {
                        proof {
                            assert(false);
                        }
                    },
                }
                j = j + 1;
            }
            let r: MoveResult<T> = (None, Some(changed_columns_vec), Some(deltas));
            proof {
                assert(edges@ == all_edges);
            }
            r
        } else {
            let mut changed_candidate = copy_vec(candidate);
            if edges.len() > 0 {
                let first0 = changed_candidate[edges[0].0];
                let first1 = changed_candidate[edges[0].1];
                let last = edges.len() - 1;
                let mut t: usize = 0;
                while t < last
                    invariant
                        t <= last == edges.len() - 1,
                        spec_edges_below(edges@, candidate@.len() as int),
                        changed_candidate@ == spec_shift_prefix(candidate@, edges@, t as int),
                        changed_candidate@.len() == candidate@.len(),
                    decreases last - t,
                {
                    let e = edges[t];
                    let n = edges[t + 1];
                    let v0 = changed_candidate[n.0];
                    changed_candidate[e.0] = v0;
                    let v1 = changed_candidate[n.1];
                    changed_candidate[e.1] = v1;
                    t = t + 1;
                }
                let le = edges[last];
                changed_candidate[le.0] = first0;
                changed_candidate[le.1] = first1;
            }
            let r: MoveResult<T> = (Some(changed_candidate), Some(changed_columns_vec), None);
            proof {
                assert(edges@ == all_edges);
                if crate::move_laws::spec_edges_disjoint(edges@) {
                    crate::move_laws::lemma_shift_edges_permutes(candidate@, edges@);
                }
            }
            r
        }
    }
}

} // verus!
