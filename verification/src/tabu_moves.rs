//! Moves that draw their positions one at a time by rejection against a tabu
//! list, and apply plain moves as sequences of swaps.
use vstd::prelude::*;
use std::collections::{HashSet, VecDeque};
use rand::rngs::SmallRng;
use crate::candidate::{spec_apply_deltas, spec_zip, spec_gather, spec_rotate_left, spec_all_below};
use crate::mover::{spec_tabu_push, spec_edges, spec_edges_count, MoveResult, choice_without_replacement_with, gather_values, rotate_left_values,
    copy_vec, index_range, slice_ids, lemma_swap_multiset};
use crate::random::{create_rng, rng_gen_range, shuffle_vec};
use crate::candidate::apply_deltas;

verus! {

broadcast use vstd::std_specs::hash::group_hash_axioms, vstd::seq_lib::group_seq_properties;

/// Tabu lists per semantic group and random state for tabu-aware moves.
///
/// Each vector is indexed by the position of a semantic group: for group `g`,
/// `tabu_ids_vecdeque_map[g]` holds the recently drawn ids (newest first),
/// `tabu_ids_sets_map[g]` the same ids as a set, and `tabu_entity_size_map[g]`
/// how many of them are kept.
pub struct TabuMoves {
    /// Whether positions are drawn against the tabu lists (the solver's tabu
    /// entity rate is not zero).
    pub use_tabu: bool,
    pub tabu_entity_size_map: Vec<usize>,
    pub tabu_ids_sets_map: Vec<HashSet<usize>>,
    pub tabu_ids_vecdeque_map: Vec<VecDeque<usize>>,
    pub rng: SmallRng,
}

impl TabuMoves {
    /// Number of groups that the tabu state covers.
    pub open spec fn n_groups(&self) -> int {
        self.tabu_entity_size_map.len() as int
    }

    /// The tabu ids of group `g`, newest first.
    pub open spec fn tabu_queue(&self, g: int) -> Seq<usize> {
        self.tabu_ids_vecdeque_map@[g]@
    }

    /// The tabu ids of group `g` as a set.
    pub open spec fn tabu_set(&self, g: int) -> Set<usize> {
        self.tabu_ids_sets_map@[g]@
    }

    /// How many tabu ids group `g` keeps.
    pub open spec fn tabu_size(&self, g: int) -> int {
        self.tabu_entity_size_map@[g] as int
    }

    /// Well-formedness: one set and one queue per group, each set holding
    /// exactly its queue's ids, no queue holding an id twice or growing past
    /// its group's tabu size.
    pub open spec fn wf(&self) -> bool {
        &&& self.tabu_ids_sets_map.len() == self.n_groups()
        &&& self.tabu_ids_vecdeque_map.len() == self.n_groups()
        &&& forall|g: int| 0 <= g < self.n_groups() ==> #[trigger] self.tabu_set(g) == self.tabu_queue(g).to_set()
        &&& forall|g: int| 0 <= g < self.n_groups() ==> (#[trigger] self.tabu_queue(g)).no_duplicates()
        &&& forall|g: int| 0 <= g < self.n_groups() ==> (#[trigger] self.tabu_queue(g)).len() <= self.tabu_size(g)
    }

    /// The tabu state for groups with the given tabu sizes, every list empty,
    /// with a generator seeded by the system.
    pub fn new(use_tabu: bool, tabu_entity_size_map: Vec<usize>) -> (m: Self)
        ensures
            m.wf(),
            m.use_tabu == use_tabu,
            m.tabu_entity_size_map@ == tabu_entity_size_map@,
            forall|g: int| 0 <= g < m.n_groups() ==> (#[trigger] m.tabu_queue(g)).len() == 0,
    {
        let n = tabu_entity_size_map.len();
        let mut sets: Vec<HashSet<usize>> = Vec::new();
        let mut queues: Vec<VecDeque<usize>> = Vec::new();
        let mut i: usize = 0;
        while i < n
            invariant
                i <= n,
                sets.len() == i,
                queues.len() == i,
                forall|g: int| 0 <= g < i ==> (#[trigger] queues@[g])@.len() == 0,
                forall|g: int| 0 <= g < i ==> (#[trigger] sets@[g])@ == Set::<usize>::empty(),
            decreases n - i,
        {
            sets.push(HashSet::new());
            queues.push(VecDeque::new());
            i = i + 1;
        }
        let m = TabuMoves {
            use_tabu,
            tabu_entity_size_map,
            tabu_ids_sets_map: sets,
            tabu_ids_vecdeque_map: queues,
            rng: create_rng(),
        };
        assert forall|g: int| 0 <= g < m.n_groups() implies #[trigger] m.tabu_set(g) == m.tabu_queue(g).to_set() by {
            assert(m.tabu_queue(g).to_set() =~= Set::<usize>::empty());
        }
        m
    }
}

/// Some id below `n` is not in the queue, when the queue (without repeats)
/// is shorter than `n`.
proof fn lemma_free_id_exists(q: Seq<usize>, n: usize)
    requires
        q.no_duplicates(),
        q.len() < n,
    ensures
        exists|x: usize| x < n && !q.contains(x),
{
    let r = Seq::new(n as nat, |i: int| i as usize);
    assert(r.no_duplicates());
    r.unique_seq_to_set();
    q.unique_seq_to_set();
    if forall|x: usize| x < n ==> q.contains(x) {
        assert(r.to_set().subset_of(q.to_set())) by {
            assert forall|x: usize| r.to_set().contains(x) implies q.to_set().contains(x) by {
                let i = choose|i: int| 0 <= i < r.len() && r[i] == x;
                assert(q.contains(x));
            }
        }
        vstd::set_lib::lemma_len_subset(r.to_set(), q.to_set());
    }
}

/// The ids below `n` that are not in the queue, in increasing order.
fn free_ids(set: &HashSet<usize>, n: usize) -> (r: Vec<usize>)
    ensures
        forall|k: int| 0 <= k < r@.len() ==> (#[trigger] r@[k]) < n && !set@.contains(r@[k]),
        forall|x: usize| x < n && !set@.contains(x) ==> #[trigger] r@.contains(x),
{
    broadcast use vstd::std_specs::hash::axiom_usize_obeys_hash_table_key_model,
        vstd::std_specs::hash::axiom_random_state_builds_valid_hashers;

    let mut r: Vec<usize> = Vec::new();
    let mut i: usize = 0;
    while i < n
        invariant
            i <= n,
            forall|k: int| 0 <= k < r@.len() ==> (#[trigger] r@[k]) < i && !set@.contains(r@[k]),
            forall|x: usize| x < i && !set@.contains(x) ==> #[trigger] r@.contains(x),
        decreases n - i,
    {
        let ghost old_r = r@;
        let present = set.contains(&i);
        if !present {
            r.push(i);
            proof {
                assert(r@[r@.len() - 1] == i);
            }
        }
        i = i + 1;
        proof {
            assert forall|x: usize| x < i && !set@.contains(x) implies #[trigger] r@.contains(x) by {
                if x == i - 1 {
                    assert(!present);
                    assert(r@[r@.len() - 1] == x);
                } else {
                    assert(old_r.contains(x));
                    let j = choose|j: int| 0 <= j < old_r.len() && old_r[j] == x;
                    assert(r@[j] == x);
                }
            }
        }
    }
    r
}

/// Each id of `ids` was below `right_end` and not tabu when it was drawn: the
/// queue before drawing `ids[k]` is `queue` with `ids[..k]` pushed.
pub open spec fn spec_drawn_against_tabu(queue: Seq<usize>, ids: Seq<usize>, max_size: int, right_end: int) -> bool {
    forall|k: int| 0 <= k < ids.len() ==> {
        &&& (#[trigger] ids[k]) < right_end
        &&& !spec_tabu_push(queue, ids.subrange(0, k), max_size).contains(ids[k])
    }
}

impl TabuMoves {
    /// Draws `selection_size` ids below `right_end` one at a time: each is
    /// drawn uniformly among the ids that are not tabu in group `g` at that
    /// moment, then pushed onto the group's tabu list (the oldest id leaves
    /// when the list grows past the group's tabu size). An id that left the
    /// list may be drawn again. A free id is left at every draw when the
    /// tabu size is below `right_end`, or when the tabu list and the ids to
    /// draw together number at most `right_end`.
    pub fn select_non_tabu_ids(&mut self, g: usize, selection_size: usize, right_end: usize) -> (r: Vec<usize>)
        requires
            old(self).wf(),
            g < old(self).n_groups(),
            selection_size == 0 || old(self).tabu_size(g as int) < right_end
                || old(self).tabu_queue(g as int).len() + selection_size <= right_end,
        ensures
            final(self).wf(),
            r@.len() == selection_size,
            spec_drawn_against_tabu(old(self).tabu_queue(g as int), r@, old(self).tabu_size(g as int), right_end as int),
            final(self).tabu_queue(g as int) == spec_tabu_push(old(self).tabu_queue(g as int), r@, old(self).tabu_size(g as int)),
            forall|h: int| 0 <= h < old(self).n_groups() && h != g ==> #[trigger] final(self).tabu_queue(h) == old(self).tabu_queue(h),
            final(self).tabu_entity_size_map@ == old(self).tabu_entity_size_map@,
            final(self).use_tabu == old(self).use_tabu,
    {
        broadcast use vstd::std_specs::hash::axiom_usize_obeys_hash_table_key_model,
            vstd::std_specs::hash::axiom_random_state_builds_valid_hashers;

        let max_size = self.tabu_entity_size_map[g];
        let ghost q0 = self.tabu_queue(g as int);
        let ghost sets_before = self.tabu_ids_sets_map@;
        let ghost queues_before = self.tabu_ids_vecdeque_map@;
        proof {
            assert(old(self).tabu_set(g as int) == old(self).tabu_queue(g as int).to_set());
            assert(old(self).tabu_queue(g as int).no_duplicates());
        }
        let mut set: HashSet<usize> = HashSet::new();
        std::mem::swap(&mut set, &mut self.tabu_ids_sets_map[g]);
        let mut queue: VecDeque<usize> = VecDeque::new();
        std::mem::swap(&mut queue, &mut self.tabu_ids_vecdeque_map[g]);
        proof {
            assert(set@ == old(self).tabu_set(g as int));
            assert(queue@ == q0);
            assert(spec_tabu_push(q0, Seq::<usize>::empty(), max_size as int) =~= q0);
        }
        let ghost mid = *self;
        let mut random_ids: Vec<usize> = Vec::new();
        while random_ids.len() < selection_size
            invariant
                self.tabu_ids_sets_map == mid.tabu_ids_sets_map,
                self.tabu_ids_vecdeque_map == mid.tabu_ids_vecdeque_map,
                self.tabu_entity_size_map == mid.tabu_entity_size_map,
                self.use_tabu == mid.use_tabu,
                random_ids@.len() <= selection_size,
                selection_size == 0 || max_size < right_end || q0.len() + selection_size <= right_end,
                queue@.len() <= q0.len() + random_ids@.len(),
                q0.no_duplicates(),
                q0.len() <= max_size,
                queue@ == spec_tabu_push(q0, random_ids@, max_size as int),
                set@ == queue@.to_set(),
                queue@.no_duplicates(),
                queue@.len() <= max_size,
                spec_drawn_against_tabu(q0, random_ids@, max_size as int, right_end as int),
            decreases selection_size - random_ids@.len(),
        {
            let free = free_ids(&set, right_end);
            proof {
                lemma_free_id_exists(queue@, right_end);
                let x = choose|x: usize| x < right_end && !queue@.contains(x);
                assert(!set@.contains(x));
                assert(free@.contains(x));
            }
            let pick = rng_gen_range(&mut self.rng, 0, free.len());
            let id = free[pick];
            let ghost prev = random_ids@;
            proof {
                assert(!queue@.contains(id)) by {
                    if queue@.contains(id) {
                        assert(queue@.to_set().contains(id));
                    }
                }
            }
            let ghost set_before = set@;
            set.insert(id);
            assert(set@ == set_before.insert(id));
            queue.push_front(id);
            random_ids.push(id);
            proof {
                assert(queue@.no_duplicates());
                assert(set@ =~= queue@.to_set());
                assert(random_ids@.reverse() + q0 =~= seq![id] + (prev.reverse() + q0));
            }
            if queue.len() > max_size {
                let popped = queue.pop_back();
                if let Some(p) = popped {
                    let ghost before = queue@.push(p);
                    set.remove(&p);
                    proof {
                        assert(!queue@.contains(p)) by {
                            if queue@.contains(p) {
                                let j = choose|j: int| 0 <= j < queue@.len() && queue@[j] == p;
                                assert(before[j] == before[before.len() - 1]);
                            }
                        }
                        assert(set@ =~= queue@.to_set());
                    }
                }
            }
            proof {
                assert(queue@ =~= spec_tabu_push(q0, random_ids@, max_size as int));
                assert forall|k: int| 0 <= k < random_ids@.len() implies {
                    &&& (#[trigger] random_ids@[k]) < right_end
                    &&& !spec_tabu_push(q0, random_ids@.subrange(0, k), max_size as int).contains(random_ids@[k])
                } by {
                    if k < prev.len() {
                        assert(random_ids@.subrange(0, k) =~= prev.subrange(0, k));
                    } else {
                        assert(random_ids@.subrange(0, k) =~= prev);
                    }
                }
            }
        }
        self.tabu_ids_sets_map[g] = set;
        self.tabu_ids_vecdeque_map[g] = queue;
        proof {
            assert forall|h: int| 0 <= h < self.n_groups() && h != g implies
                self.tabu_ids_vecdeque_map@[h] == queues_before[h]
                && self.tabu_ids_sets_map@[h] == sets_before[h] by {
            }
            assert forall|h: int| 0 <= h < self.n_groups() implies #[trigger] self.tabu_set(h) == self.tabu_queue(h).to_set() by {
                if h != g {
                    assert(self.tabu_set(h) == old(self).tabu_set(h));
                    assert(self.tabu_queue(h) == old(self).tabu_queue(h));
                }
            }
            assert forall|h: int| 0 <= h < self.n_groups() implies (#[trigger] self.tabu_queue(h)).no_duplicates()
                && self.tabu_queue(h).len() <= self.tabu_size(h) by {
                if h != g {
                    assert(self.tabu_queue(h) == old(self).tabu_queue(h));
                }
            }
            assert forall|h: int| 0 <= h < old(self).n_groups() && h != g implies #[trigger] self.tabu_queue(h) == old(self).tabu_queue(h) by {
                assert(self.tabu_ids_vecdeque_map@[h] == queues_before[h]);
            }
        }
        random_ids
    }
}

} // verus!

verus! {

/// The result of swapping the values at each pair of positions, one pair
/// after the other.
pub open spec fn spec_swap_pairs<T>(s: Seq<T>, pairs: Seq<(usize, usize)>) -> Seq<T>
    decreases pairs.len(),
{
    if pairs.len() == 0 {
        s
    } else {
        let p = spec_swap_pairs(s, pairs.drop_last());
        let a = pairs.last().0 as int;
        let b = pairs.last().1 as int;
        p.update(a, p[b]).update(b, p[a])
    }
}

/// Every position of the pairs lies below `len`.
pub open spec fn spec_pairs_below(pairs: Seq<(usize, usize)>, len: int) -> bool {
    forall|i: int| 0 <= i < pairs.len() ==> (#[trigger] pairs[i]).0 < len && pairs[i].1 < len
}

/// Swaps keep the length and the multiset of values.
pub proof fn lemma_swap_pairs_permutes<T>(s: Seq<T>, pairs: Seq<(usize, usize)>)
    requires
        spec_pairs_below(pairs, s.len() as int),
    ensures
        spec_swap_pairs(s, pairs).len() == s.len(),
        spec_swap_pairs(s, pairs).to_multiset() == s.to_multiset(),
    decreases pairs.len(),
{
    if pairs.len() > 0 {
        assert(spec_pairs_below(pairs.drop_last(), s.len() as int)) by {
            assert forall|i: int| 0 <= i < pairs.drop_last().len() implies (#[trigger] pairs.drop_last()[i]).0 < s.len()
                && pairs.drop_last()[i].1 < s.len() by {
                assert(pairs.drop_last()[i] == pairs[i]);
            }
        }
        lemma_swap_pairs_permutes(s, pairs.drop_last());
        let p = spec_swap_pairs(s, pairs.drop_last());
        let a = pairs.last().0 as int;
        let b = pairs.last().1 as int;
        assert(pairs[pairs.len() - 1] == pairs.last());
        lemma_swap_multiset(p, a, b);
    }
}

/// Swaps the values at each pair of positions, one pair after the other.
pub fn swap_pairs<T: Copy>(v: &mut Vec<T>, pairs: &Vec<(usize, usize)>)
    requires
        spec_pairs_below(pairs@, old(v)@.len() as int),
    ensures
        final(v)@ == spec_swap_pairs(old(v)@, pairs@),
{
    let mut k: usize = 0;
    while k < pairs.len()
        invariant
            k <= pairs.len(),
            spec_pairs_below(pairs@, old(v)@.len() as int),
            v@ == spec_swap_pairs(old(v)@, pairs@.subrange(0, k as int)),
            v@.len() == old(v)@.len(),
        decreases pairs.len() - k,
    {
        proof {
            assert(pairs@.subrange(0, k + 1).drop_last() =~= pairs@.subrange(0, k as int));
            assert(pairs@[k as int] == pairs@.subrange(0, k + 1).last());
        }
        let (a, b) = pairs[k];
        let va = v[a];
        let vb = v[b];
        v.set(a, vb);
        v.set(b, va);
        k = k + 1;
    }
    assert(pairs@.subrange(0, pairs@.len() as int) =~= pairs@);
}

/// The pairs `(cols[i], cols[i + 1])` of neighbouring positions in `cols`.
pub open spec fn spec_chain_pairs(cols: Seq<usize>) -> Seq<(usize, usize)> {
    Seq::new((if cols.len() == 0 { 0 } else { cols.len() - 1 }) as nat, |i: int| (cols[i], cols[i + 1]))
}

/// The pairs `(a[i], b[i])`.
pub open spec fn spec_pair_up(a: Seq<usize>, b: Seq<usize>) -> Seq<(usize, usize)> {
    Seq::new(a.len(), |i: int| (a[i], b[i]))
}

/// How `cols` were drawn for group `g`: without tabu lists, as distinct
/// members of `pool` with the tabu state kept; with them, one at a time
/// against the group's tabu list, as `select_non_tabu_ids` states.
pub open spec fn spec_positions_drawn(old: TabuMoves, new: TabuMoves, g: int, cols: Seq<usize>, pool: Seq<usize>, right_end: int) -> bool {
    &&& new.wf()
    &&& new.use_tabu == old.use_tabu
    &&& new.tabu_entity_size_map@ == old.tabu_entity_size_map@
    &&& forall|h: int| 0 <= h < old.n_groups() && h != g ==> #[trigger] new.tabu_queue(h) == old.tabu_queue(h)
    &&& !old.use_tabu ==> cols.to_multiset().subset_of(pool.to_multiset()) && new.tabu_queue(g) == old.tabu_queue(g)
    &&& old.use_tabu ==> spec_drawn_against_tabu(old.tabu_queue(g), cols, old.tabu_size(g), right_end)
        && new.tabu_queue(g) == spec_tabu_push(old.tabu_queue(g), cols, old.tabu_size(g))
}

/// The tabu state of `new` is that of `old`.
pub open spec fn spec_tabu_unchanged(old: TabuMoves, new: TabuMoves) -> bool {
    &&& new.wf()
    &&& new.use_tabu == old.use_tabu
    &&& new.tabu_entity_size_map@ == old.tabu_entity_size_map@
    &&& forall|h: int| 0 <= h < old.n_groups() ==> #[trigger] new.tabu_queue(h) == old.tabu_queue(h)
}

/// Draws that may be made for group `g` with pool size `pool_len` and bound
/// `right_end` always find ids: without tabu lists `count` members of the
/// pool exist; with them the group's tabu size is below `right_end`.
pub open spec fn spec_can_draw(m: TabuMoves, g: int, count: int, pool_len: int, right_end: int) -> bool {
    &&& !m.use_tabu ==> count <= pool_len
    &&& m.use_tabu ==> (count == 0 || m.tabu_size(g) < right_end)
}

impl TabuMoves {
    /// Draws `count` positions for group `g`: distinct members of `pool`
    /// without tabu lists, or ids below `right_end` against the tabu list.
    fn draw_positions(&mut self, g: usize, count: usize, pool: &Vec<usize>, right_end: usize) -> (cols: Vec<usize>)
        requires
            old(self).wf(),
            g < old(self).n_groups(),
            spec_can_draw(*old(self), g as int, count as int, pool@.len() as int, right_end as int),
        ensures
            cols@.len() == count,
            spec_positions_drawn(*old(self), *final(self), g as int, cols@, pool@, right_end as int),
    {
        if !self.use_tabu {
            let cols = choice_without_replacement_with(&mut self.rng, pool, count);
            proof {
                assert forall|h: int| 0 <= h < self.n_groups() implies #[trigger] self.tabu_set(h) == self.tabu_queue(h).to_set() by {
                    assert(self.tabu_set(h) == old(self).tabu_set(h));
                }
                assert forall|h: int| 0 <= h < self.n_groups() implies (#[trigger] self.tabu_queue(h)).no_duplicates()
                    && self.tabu_queue(h).len() <= self.tabu_size(h) by {
                    assert(self.tabu_queue(h) == old(self).tabu_queue(h));
                }
            }
            cols
        } else {
            self.select_non_tabu_ids(g, count, right_end)
        }
    }

    /// Gives `max(current_change_count, 1)` drawn columns new values from
    /// `value_of`: members of the group without tabu lists, positions below
    /// the group's length with them. In plain mode the values are written
    /// one after the other. Returns three `None` when the group is smaller.
    pub fn change_move_base<T: Copy, G: Fn(usize) -> T>(
        &mut self,
        candidate: &Vec<T>,
        value_of: &G,
        current_change_count: usize,
        group_ids: &Vec<usize>,
        g: usize,
        incremental: bool,
    ) -> (r: MoveResult<T>)
        requires
            old(self).wf(),
            g < old(self).n_groups(),
            spec_all_below(group_ids@, candidate@.len() as int),
            old(self).use_tabu ==> group_ids@.len() <= candidate@.len(),
            forall|i: usize| value_of.requires((i,)),
            ({
                let count = if current_change_count < 1 { 1 } else { current_change_count as int };
                group_ids@.len() >= count ==> spec_can_draw(*old(self), g as int, count, group_ids@.len() as int, group_ids@.len() as int)
            }),
        ensures
            ({
                let count = if current_change_count < 1 { 1 } else { current_change_count as int };
                if group_ids@.len() < count {
                    r == (None::<Vec<T>>, None::<Vec<usize>>, None::<Vec<T>>) && spec_tabu_unchanged(*old(self), *final(self))
                } else {
                    exists|cols: Seq<usize>, vals: Seq<T>| {
                        &&& cols.len() == count
                        &&& spec_positions_drawn(*old(self), *final(self), g as int, cols, group_ids@, group_ids@.len() as int)
                        &&& vals.len() == count
                        &&& forall|k: int| 0 <= k < count ==> value_of.ensures((#[trigger] cols[k],), vals[k])
                        &&& r.1 is Some && r.1->0@ == cols
                        &&& incremental ==> r.0 is None && r.2 is Some && r.2->0@ == vals
                        &&& !incremental ==> r.2 is None && r.0 is Some && r.0->0@ == spec_apply_deltas(candidate@, spec_zip(cols, vals))
                    }
                }
            }),
    {
        broadcast use vstd::multiset::group_multiset_axioms, vstd::seq_lib::to_multiset_contains;

        let count = if current_change_count < 1 { 1 } else { current_change_count };
        if group_ids.len() < count {
            return (None, None, None);
        }
        let changed_columns = self.draw_positions(g, count, group_ids, group_ids.len());
        let ghost cols = changed_columns@;
        proof {
            assert(spec_all_below(cols, candidate@.len() as int)) by {
                assert forall|k: int| 0 <= k < cols.len() implies (#[trigger] cols[k]) < candidate@.len() by {
                    if old(self).use_tabu {
                        assert(cols[k] < group_ids@.len());
                    } else {
                        assert(cols.to_multiset().count(cols[k]) > 0);
                        assert(group_ids@.to_multiset().count(cols[k]) > 0);
                        assert(group_ids@.contains(cols[k]));
                    }
                }
            }
        }
        let mut values: Vec<T> = Vec::new();
        let mut deltas: Vec<(usize, T)> = Vec::new();
        let mut k: usize = 0;
        while k < changed_columns.len()
            invariant
                k <= changed_columns.len(),
                values@.len() == k,
                deltas@ == spec_zip(changed_columns@.subrange(0, k as int), values@),
                forall|i: usize| value_of.requires((i,)),
                forall|j: int| 0 <= j < k ==> value_of.ensures((#[trigger] changed_columns@[j],), values@[j]),
            decreases changed_columns.len() - k,
        {
            let v = value_of(changed_columns[k]);
            values.push(v);
            deltas.push((changed_columns[k], v));
            k = k + 1;
            proof {
                assert(deltas@ =~= spec_zip(changed_columns@.subrange(0, k as int), values@));
            }
        }
        let ghost vals = values@;
        proof {
            assert(changed_columns@.subrange(0, k as int) =~= cols);
        }
        if incremental {
            (None, Some(changed_columns), Some(values))
        } else {
            let mut changed_candidate = copy_vec(candidate);
            proof {
                assert forall|i: int| 0 <= i < deltas@.len() implies (#[trigger] deltas@[i]).0 < changed_candidate@.len() by {
                    assert(deltas@[i].0 == cols[i]);
                }
            }
            apply_deltas(&mut changed_candidate, &deltas);
            (Some(changed_candidate), Some(changed_columns), None)
        }
    }
}

/// The incremental values of a swap move over `cols`: for each neighbouring
/// pair, the value at the later column and then the value at the earlier one.
pub open spec fn spec_swap_deltas<T>(s: Seq<T>, cols: Seq<usize>) -> Seq<T> {
    Seq::new(
        (if cols.len() == 0 { 0 } else { 2 * (cols.len() - 1) }) as nat,
        |j: int| if j % 2 == 0 { s[cols[j / 2 + 1] as int] } else { s[cols[j / 2] as int] },
    )
}

/// The pairs of neighbouring columns of `cols`.
fn chain_pairs(cols: &Vec<usize>) -> (r: Vec<(usize, usize)>)
    ensures
        r@ == spec_chain_pairs(cols@),
{
    let mut r: Vec<(usize, usize)> = Vec::new();
    if cols.len() == 0 {
        assert(r@ =~= spec_chain_pairs(cols@));
        return r;
    }
    let mut i: usize = 1;
    while i < cols.len()
        invariant
            1 <= i <= cols.len(),
            r@ =~= spec_chain_pairs(cols@).subrange(0, i - 1),
        decreases cols.len() - i,
    {
        r.push((cols[i - 1], cols[i]));
        i = i + 1;
    }
    assert(spec_chain_pairs(cols@).subrange(0, cols@.len() - 1) =~= spec_chain_pairs(cols@));
    r
}

impl TabuMoves {
    /// Draws `max(current_change_count, 2)` columns (as in `change_move_base`)
    /// and swaps the values of each neighbouring pair of them, one pair after
    /// the other; incrementally it gives, per pair, the value of the later
    /// column and then that of the earlier one. Returns three `None` when the
    /// group is smaller.
    pub fn swap_move_base<T: Copy>(
        &mut self,
        candidate: &Vec<T>,
        current_change_count: usize,
        group_ids: &Vec<usize>,
        g: usize,
        incremental: bool,
    ) -> (r: MoveResult<T>)
        requires
            old(self).wf(),
            g < old(self).n_groups(),
            spec_all_below(group_ids@, candidate@.len() as int),
            old(self).use_tabu ==> group_ids@.len() <= candidate@.len(),
            ({
                let count = if current_change_count < 2 { 2 } else { current_change_count as int };
                group_ids@.len() >= count ==> spec_can_draw(*old(self), g as int, count, group_ids@.len() as int, group_ids@.len() as int)
            }),
        ensures
            ({
                let count = if current_change_count < 2 { 2 } else { current_change_count as int };
                if group_ids@.len() < count {
                    r == (None::<Vec<T>>, None::<Vec<usize>>, None::<Vec<T>>) && spec_tabu_unchanged(*old(self), *final(self))
                } else {
                    exists|cols: Seq<usize>| #![trigger spec_chain_pairs(cols)] {
                        &&& cols.len() == count
                        &&& spec_positions_drawn(*old(self), *final(self), g as int, cols, group_ids@, group_ids@.len() as int)
                        &&& r.1 is Some && r.1->0@ == cols
                        &&& incremental ==> r.0 is None && r.2 is Some && r.2->0@ == spec_swap_deltas(candidate@, cols)
                        &&& !incremental ==> r.2 is None && r.0 is Some && r.0->0@ == spec_swap_pairs(candidate@, spec_chain_pairs(cols))
                    }
                }
            }),
            !incremental && r.0 is Some ==> r.0->0@.to_multiset() == candidate@.to_multiset(),
    {
        broadcast use vstd::multiset::group_multiset_axioms, vstd::seq_lib::to_multiset_contains;

        let count = if current_change_count < 2 { 2 } else { current_change_count };
        if group_ids.len() < count {
            return (None, None, None);
        }
        let changed_columns = self.draw_positions(g, count, group_ids, group_ids.len());
        let ghost cols = changed_columns@;
        proof {
            assert(spec_all_below(cols, candidate@.len() as int)) by {
                assert forall|k: int| 0 <= k < cols.len() implies (#[trigger] cols[k]) < candidate@.len() by {
                    if old(self).use_tabu {
                        assert(cols[k] < group_ids@.len());
                    } else {
                        assert(cols.to_multiset().count(cols[k]) > 0);
                        assert(group_ids@.to_multiset().count(cols[k]) > 0);
                        assert(group_ids@.contains(cols[k]));
                    }
                }
            }
        }
        if incremental {
            let mut deltas: Vec<T> = Vec::new();
            let mut i: usize = 1;
            while i < count
                invariant
                    1 <= i <= count == changed_columns@.len(),
                    spec_all_below(changed_columns@, candidate@.len() as int),
                    deltas@ =~= spec_swap_deltas(candidate@, changed_columns@).subrange(0, 2 * (i - 1)),
                decreases count - i,
            {
                deltas.push(candidate[changed_columns[i]]);
                deltas.push(candidate[changed_columns[i - 1]]);
                i = i + 1;
            }
            proof {
                assert(spec_swap_deltas(candidate@, cols).subrange(0, 2 * (count - 1)) =~= spec_swap_deltas(candidate@, cols));
            }
            let r: MoveResult<T> = (None, Some(changed_columns), Some(deltas));
            proof {
                assert(r.1->0@ == cols);
                assert(r.2->0@ == spec_swap_deltas(candidate@, cols));
                assert(spec_chain_pairs(cols) == spec_chain_pairs(cols));
                assert(spec_positions_drawn(*old(self), *self, g as int, cols, group_ids@, group_ids@.len() as int));
            }
            r
        } else {
            let pairs = chain_pairs(&changed_columns);
            let mut changed_candidate = copy_vec(candidate);
            proof {
                assert forall|i: int| 0 <= i < pairs@.len() implies (#[trigger] pairs@[i]).0 < changed_candidate@.len()
                    && pairs@[i].1 < changed_candidate@.len() by {
                    assert(pairs@[i] == (cols[i], cols[i + 1]));
                }
                lemma_swap_pairs_permutes(candidate@, pairs@);
            }
            swap_pairs(&mut changed_candidate, &pairs);
            let r: MoveResult<T> = (Some(changed_candidate), Some(changed_columns), None);
            proof {
                assert(r.1->0@ == cols);
                assert(r.0->0@ == spec_swap_pairs(candidate@, spec_chain_pairs(cols)));
            }
            r
        }
    }
}

/// The ends of the edges, in order: first and second end of each edge.
pub open spec fn spec_flat_endpoints(edges: Seq<(usize, usize)>) -> Seq<usize> {
    Seq::new(2 * edges.len(), |j: int| if j % 2 == 0 { edges[j / 2].0 } else { edges[j / 2].1 })
}

/// The swaps of a swap-edges move over the edges `rot`: for each neighbouring
/// pair of edges, their first ends, then their second ends.
pub open spec fn spec_edge_swap_pairs(rot: Seq<(usize, usize)>) -> Seq<(usize, usize)> {
    Seq::new(
        (if rot.len() == 0 { 0 } else { 2 * (rot.len() - 1) }) as nat,
        |j: int| if j % 2 == 0 { (rot[j / 2].0, rot[j / 2 + 1].0) } else { (rot[j / 2].1, rot[j / 2 + 1].1) },
    )
}

/// The incremental values of a swap-edges move over the edges `rot`: for each
/// neighbouring pair of edges (left, right), the values at right's first end,
/// left's first end, right's second end and left's second end.
pub open spec fn spec_edge_swap_deltas<T>(s: Seq<T>, rot: Seq<(usize, usize)>) -> Seq<T> {
    Seq::new(
        (if rot.len() == 0 { 0 } else { 4 * (rot.len() - 1) }) as nat,
        |j: int| {
            let i = j / 4 + 1;
            if j % 4 == 0 {
                s[rot[i].0 as int]
            } else if j % 4 == 1 {
                s[rot[i - 1].0 as int]
            } else if j % 4 == 2 {
                s[rot[i].1 as int]
            } else {
                s[rot[i - 1].1 as int]
            }
        },
    )
}

impl TabuMoves {
    /// Draws edges between neighbouring ids of the group (their first slots
    /// below the group's last one, `max(current_change_count, 2)` of them at
    /// most), rotates the list of edges by one, and swaps the ends of each
    /// neighbouring pair of edges, one pair after the other. The changed
    /// columns are the edges' ends in order. Returns three `None` for an
    /// empty group.
    pub fn swap_edges_move_base<T: Copy>(
        &mut self,
        candidate: &Vec<T>,
        current_change_count: usize,
        group_ids: &Vec<usize>,
        g: usize,
        incremental: bool,
    ) -> (r: MoveResult<T>)
        requires
            old(self).wf(),
            g < old(self).n_groups(),
            spec_all_below(group_ids@, candidate@.len() as int),
            group_ids@.len() != 1,
            group_ids@.len() > 1 ==> spec_can_draw(*old(self), g as int,
                spec_edges_count(current_change_count as int, group_ids@.len() as int),
                group_ids@.len() - 1, group_ids@.len() - 1),
        ensures
            group_ids@.len() == 0 ==> r == (None::<Vec<T>>, None::<Vec<usize>>, None::<Vec<T>>)
                && spec_tabu_unchanged(*old(self), *final(self)),
            group_ids@.len() > 0 ==> exists|slots: Seq<usize>| #![trigger spec_edges(group_ids@, slots)] {
                let rot = spec_rotate_left(spec_edges(group_ids@, slots), 1);
                &&& slots.len() == spec_edges_count(current_change_count as int, group_ids@.len() as int)
                &&& spec_positions_drawn(*old(self), *final(self), g as int, slots,
                    Seq::new((group_ids@.len() - 1) as nat, |i: int| i as usize), group_ids@.len() - 1)
                &&& r.1 is Some && r.1->0@ == spec_flat_endpoints(spec_edges(group_ids@, slots))
                &&& incremental ==> r.0 is None && r.2 is Some && r.2->0@ == spec_edge_swap_deltas(candidate@, rot)
                &&& !incremental ==> r.2 is None && r.0 is Some && r.0->0@ == spec_swap_pairs(candidate@, spec_edge_swap_pairs(rot))
            },
            !incremental && r.0 is Some ==> r.0->0@.to_multiset() == candidate@.to_multiset(),
    {
        broadcast use vstd::multiset::group_multiset_axioms, vstd::seq_lib::to_multiset_contains;

        if group_ids.len() == 0 {
            return (None, None, None);
        }
        let mut count = if current_change_count < 2 { 2 } else { current_change_count };
        if count > group_ids.len() - 1 {
            count = group_ids.len() - 1;
        }
        let pool = index_range(group_ids.len() - 1);
        proof {
            assert(pool@ =~= Seq::new((group_ids@.len() - 1) as nat, |i: int| i as usize));
        }
        let slots = self.draw_positions(g, count, &pool, group_ids.len() - 1);
        let ghost ids = group_ids@;
        proof {
            assert(spec_all_below(slots@, ids.len() - 1)) by {
                assert forall|k: int| 0 <= k < slots@.len() implies (#[trigger] slots@[k]) < ids.len() - 1 by {
                    if !old(self).use_tabu {
                        assert(slots@.to_multiset().count(slots@[k]) > 0);
                        assert(pool@.to_multiset().count(slots@[k]) > 0);
                        assert(pool@.contains(slots@[k]));
                    }
                }
            }
        }
        let mut edges: Vec<(usize, usize)> = Vec::new();
        let mut changed_columns: Vec<usize> = Vec::new();
        let mut i: usize = 0;
        while i < count
            invariant
                i <= count == slots@.len(),
                spec_all_below(slots@, ids.len() - 1),
                ids == group_ids@,
                edges@ =~= spec_edges(ids, slots@).subrange(0, i as int),
                changed_columns@ =~= spec_flat_endpoints(spec_edges(ids, slots@).subrange(0, i as int)),
            decreases count - i,
        {
            let s = slots[i];
            proof {
                assert(slots@[i as int] < ids.len() - 1);
                assert(s < group_ids.len() - 1);
            }
            let edge = (group_ids[s], group_ids[s + 1]);
            edges.push(edge);
            changed_columns.push(edge.0);
            changed_columns.push(edge.1);
            i = i + 1;
        }
        let ghost all_edges = spec_edges(ids, slots@);
        proof {
            assert(all_edges.subrange(0, count as int) =~= all_edges);
            assert(count >= 1);
        }
        let rotated = rotate_left_values(&edges, 1);
        let ghost rot = rotated@;
        proof {
            assert(spec_pairs_below(rot, candidate@.len() as int)) by {
                assert forall|q: int| 0 <= q < rot.len() implies (#[trigger] rot[q]).0 < candidate@.len() && rot[q].1 < candidate@.len() by {
                    let e = if q < count - 1 { q + 1 } else { 0 };
                    assert(rot[q] == all_edges[e]);
                    assert(all_edges[e] == (ids[slots@[e] as int], ids[slots@[e] + 1]));
                }
            }
        }
        if incremental {
            let mut deltas: Vec<T> = Vec::new();
            let mut k: usize = 1;
            while k < count
                invariant
                    1 <= k <= count == rotated@.len(),
                    rot == rotated@,
                    spec_pairs_below(rot, candidate@.len() as int),
                    deltas@ =~= spec_edge_swap_deltas(candidate@, rot).subrange(0, 4 * (k - 1)),
                decreases count - k,
            {
                let left = rotated[k - 1];
                let right = rotated[k];
                deltas.push(candidate[right.0]);
                deltas.push(candidate[left.0]);
                deltas.push(candidate[right.1]);
                deltas.push(candidate[left.1]);
                k = k + 1;
            }
            proof {
                assert(spec_edge_swap_deltas(candidate@, rot).subrange(0, 4 * (count - 1)) =~= spec_edge_swap_deltas(candidate@, rot));
            }
            let r: MoveResult<T> = (None, Some(changed_columns), Some(deltas));
            proof {
                assert(r.1->0@ == spec_flat_endpoints(spec_edges(group_ids@, slots@)));
            }
            r
        } else {
            let mut pairs: Vec<(usize, usize)> = Vec::new();
            let mut k: usize = 1;
            while k < count
                invariant
                    1 <= k <= count == rotated@.len(),
                    rot == rotated@,
                    pairs@ =~= spec_edge_swap_pairs(rot).subrange(0, 2 * (k - 1)),
                decreases count - k,
            {
                let left = rotated[k - 1];
                let right = rotated[k];
                pairs.push((left.0, right.0));
                pairs.push((left.1, right.1));
                k = k + 1;
            }
            proof {
                assert(spec_edge_swap_pairs(rot).subrange(0, 2 * (count - 1)) =~= spec_edge_swap_pairs(rot));
                assert(spec_pairs_below(pairs@, candidate@.len() as int)) by {
                    assert forall|j: int| 0 <= j < pairs@.len() implies (#[trigger] pairs@[j]).0 < candidate@.len()
                        && pairs@[j].1 < candidate@.len() by {
                        let q = j / 2;
                        assert(rot[q].0 < candidate@.len() && rot[q + 1].0 < candidate@.len());
                    }
                }
                lemma_swap_pairs_permutes(candidate@, pairs@);
            }
            let mut changed_candidate = copy_vec(candidate);
            swap_pairs(&mut changed_candidate, &pairs);
            let r: MoveResult<T> = (Some(changed_candidate), Some(changed_columns), None);
            proof {
                assert(r.1->0@ == spec_flat_endpoints(spec_edges(group_ids@, slots@)));
            }
            r
        }
    }
}

/// The pairs `(a[i], b[i])`.
fn pair_up(a: &Vec<usize>, b: &Vec<usize>) -> (r: Vec<(usize, usize)>)
    requires
        a@.len() == b@.len(),
    ensures
        r@ == spec_pair_up(a@, b@),
{
    let mut r: Vec<(usize, usize)> = Vec::new();
    let mut i: usize = 0;
    while i < a.len()
        invariant
            i <= a@.len() == b@.len(),
            r@ =~= spec_pair_up(a@, b@).subrange(0, i as int),
        decreases a.len() - i,
    {
        r.push((a[i], b[i]));
        i = i + 1;
    }
    assert(spec_pair_up(a@, b@).subrange(0, a@.len() as int) =~= spec_pair_up(a@, b@));
    r
}

/// The ids `0..n` as a sequence.
pub open spec fn spec_index_range(n: int) -> Seq<usize> {
    Seq::new(n as nat, |i: int| i as usize)
}

impl TabuMoves {
    /// Draws `current_change_count` positions (as in `change_move_base`) and
    /// reads the first two, `a` and `b`, as slots of the group: the run of
    /// group ids between them is rotated, to the left when `a < b` and to the
    /// right when `a > b`, by swapping each id's column with that of its
    /// rotated place, one pair after the other. Returns three `None` when the
    /// group has at most one id or when `a == b`.
    pub fn insertion_move_base<T: Copy>(
        &mut self,
        candidate: &Vec<T>,
        current_change_count: usize,
        group_ids: &Vec<usize>,
        g: usize,
        incremental: bool,
    ) -> (r: MoveResult<T>)
        requires
            old(self).wf(),
            g < old(self).n_groups(),
            spec_all_below(group_ids@, candidate@.len() as int),
            group_ids@.len() > 1 ==> {
                &&& current_change_count >= 2
                &&& spec_can_draw(*old(self), g as int, current_change_count as int, group_ids@.len() as int, group_ids@.len() as int)
                &&& !old(self).use_tabu ==> spec_all_below(group_ids@, group_ids@.len() as int)
            },
        ensures
            group_ids@.len() <= 1 ==> r == (None::<Vec<T>>, None::<Vec<usize>>, None::<Vec<T>>)
                && spec_tabu_unchanged(*old(self), *final(self)),
            group_ids@.len() > 1 ==> exists|cols: Seq<usize>| #![trigger cols[0], cols[1]] {
                let a = cols[0] as int;
                let b = cols[1] as int;
                let lo = if a < b { a } else { b };
                let hi = if a < b { b } else { a };
                let run = group_ids@.subrange(lo, hi + 1);
                let by = if a < b { 1 } else { run.len() - 1 };
                &&& cols.len() == current_change_count
                &&& spec_positions_drawn(*old(self), *final(self), g as int, cols, group_ids@, group_ids@.len() as int)
                &&& a == b ==> r == (None::<Vec<T>>, None::<Vec<usize>>, None::<Vec<T>>)
                &&& a != b ==> {
                    &&& r.1 is Some && r.1->0@ == run
                    &&& incremental ==> r.0 is None && r.2 is Some && r.2->0@ == spec_rotate_left(spec_gather(candidate@, run), by)
                    &&& !incremental ==> r.2 is None && r.0 is Some
                        && r.0->0@ == spec_swap_pairs(candidate@, spec_pair_up(run, spec_rotate_left(run, by)))
                }
            },
            !incremental && r.0 is Some ==> r.0->0@.to_multiset() == candidate@.to_multiset(),
    {
        broadcast use vstd::multiset::group_multiset_axioms, vstd::seq_lib::to_multiset_contains;

        if group_ids.len() <= 1 {
            return (None, None, None);
        }
        let columns_to_change = self.draw_positions(g, current_change_count, group_ids, group_ids.len());
        let ghost cols = columns_to_change@;
        let get_out_id = columns_to_change[0];
        let put_in_id = columns_to_change[1];
        proof {
            assert forall|k: int| 0 <= k < cols.len() implies (#[trigger] cols[k]) < group_ids@.len() by {
                if !old(self).use_tabu {
                    assert(cols.to_multiset().count(cols[k]) > 0);
                    assert(group_ids@.to_multiset().count(cols[k]) > 0);
                    assert(group_ids@.contains(cols[k]));
                }
            }
            assert(get_out_id < group_ids@.len() && put_in_id < group_ids@.len());
        }
        if get_out_id == put_in_id {
            return (None, None, None);
        }
        let left_rotate = get_out_id < put_in_id;
        let old_ids = if left_rotate {
            slice_ids(group_ids, get_out_id, put_in_id)
        } else {
            slice_ids(group_ids, put_in_id, get_out_id)
        };
        let by: usize = if left_rotate { 1 } else { old_ids.len() - 1 };
        let ghost run = old_ids@;
        proof {
            assert(spec_all_below(run, candidate@.len() as int)) by {
                let lo = if left_rotate { get_out_id } else { put_in_id };
                assert forall|k: int| 0 <= k < run.len() implies (#[trigger] run[k]) < candidate@.len() by {
                    assert(run[k] == group_ids@[lo + k]);
                }
            }
        }
        if incremental {
            let current = gather_values(candidate, &old_ids);
            let deltas = rotate_left_values(&current, by);
            (None, Some(old_ids), Some(deltas))
        } else {
            let shifted = rotate_left_values(&old_ids, by);
            let pairs = pair_up(&old_ids, &shifted);
            proof {
                assert(spec_pairs_below(pairs@, candidate@.len() as int)) by {
                    assert forall|j: int| 0 <= j < pairs@.len() implies (#[trigger] pairs@[j]).0 < candidate@.len()
                        && pairs@[j].1 < candidate@.len() by {
                        assert(pairs@[j] == (run[j], shifted@[j]));
                        let src = if j + by < run.len() { j + by } else { j + by - run.len() };
                        assert(shifted@[j] == run[src]);
                    }
                }
                lemma_swap_pairs_permutes(candidate@, pairs@);
            }
            let mut changed_candidate = copy_vec(candidate);
            swap_pairs(&mut changed_candidate, &pairs);
            (Some(changed_candidate), Some(old_ids), None)
        }
    }

    /// Draws a start slot below `group_ids.len() - current_change_count`
    /// (uniformly, or against the tabu list) and shuffles the run of
    /// `current_change_count` group ids from there: incrementally the changed
    /// columns are the run and the values those at the shuffled run; plainly
    /// each run column is swapped with its shuffled counterpart, one pair
    /// after the other. Returns three `None` when the group is shorter than
    /// `current_change_count - 1`.
    pub fn scramble_move_base<T: Copy>(
        &mut self,
        candidate: &Vec<T>,
        current_change_count: usize,
        group_ids: &Vec<usize>,
        g: usize,
        incremental: bool,
    ) -> (r: MoveResult<T>)
        requires
            old(self).wf(),
            g < old(self).n_groups(),
            spec_all_below(group_ids@, candidate@.len() as int),
            current_change_count >= 1,
            group_ids@.len() + 1 < current_change_count || group_ids@.len() > current_change_count,
            group_ids@.len() > current_change_count ==> spec_can_draw(*old(self), g as int, 1,
                group_ids@.len() - current_change_count, group_ids@.len() - current_change_count),
        ensures
            group_ids@.len() + 1 < current_change_count ==> r == (None::<Vec<T>>, None::<Vec<usize>>, None::<Vec<T>>)
                && spec_tabu_unchanged(*old(self), *final(self)),
            group_ids@.len() > current_change_count ==> exists|start: usize, shuffled: Seq<usize>| #![trigger seq![start], shuffled.to_multiset()] {
                let run = group_ids@.subrange(start as int, start + current_change_count);
                &&& spec_positions_drawn(*old(self), *final(self), g as int, seq![start],
                    spec_index_range(group_ids@.len() - current_change_count), group_ids@.len() - current_change_count)
                &&& start < group_ids@.len() - current_change_count
                &&& shuffled.to_multiset() == run.to_multiset()
                &&& shuffled.len() == run.len()
                &&& r.1 is Some && r.1->0@ == run
                &&& incremental ==> r.0 is None && r.2 is Some && r.2->0@ == spec_gather(candidate@, shuffled)
                &&& !incremental ==> r.2 is None && r.0 is Some && r.0->0@ == spec_swap_pairs(candidate@, spec_pair_up(run, shuffled))
            },
            !incremental && r.0 is Some ==> r.0->0@.to_multiset() == candidate@.to_multiset(),
    {
        broadcast use vstd::multiset::group_multiset_axioms, vstd::seq_lib::to_multiset_contains;

        if group_ids.len() < current_change_count - 1 {
            return (None, None, None);
        }
        let bound = group_ids.len() - current_change_count;
        let current_start_id: usize;
        let ghost before = *self;
        if !self.use_tabu {
            current_start_id = rng_gen_range(&mut self.rng, 0, bound);
            proof {
                let range = spec_index_range(bound as int);
                assert(range[current_start_id as int] == current_start_id);
                assert(range.to_multiset().count(current_start_id) > 0);
                assert(seq![current_start_id].to_multiset() =~= vstd::multiset::Multiset::singleton(current_start_id));
                assert forall|h: int| 0 <= h < self.n_groups() implies #[trigger] self.tabu_set(h) == self.tabu_queue(h).to_set() by {
                    assert(self.tabu_set(h) == before.tabu_set(h));
                }
                assert forall|h: int| 0 <= h < self.n_groups() implies (#[trigger] self.tabu_queue(h)).no_duplicates()
                    && self.tabu_queue(h).len() <= self.tabu_size(h) by {
                    assert(self.tabu_queue(h) == before.tabu_queue(h));
                }
            }
        } else {
            let selected = self.select_non_tabu_ids(g, 1, bound);
            current_start_id = selected[0];
            proof {
                assert(selected@ =~= seq![current_start_id]);
                assert(current_start_id < bound);
            }
        }
        let ghost after_draw = *self;
        let native_columns = slice_ids(group_ids, current_start_id, current_start_id + current_change_count - 1);
        let ghost run = native_columns@;
        proof {
            assert(run =~= group_ids@.subrange(current_start_id as int, current_start_id + current_change_count));
            assert(spec_all_below(run, candidate@.len() as int)) by {
                assert forall|k: int| 0 <= k < run.len() implies (#[trigger] run[k]) < candidate@.len() by {
                    assert(run[k] == group_ids@[current_start_id + k]);
                }
            }
        }
        let mut scrambled_columns = copy_vec(&native_columns);
        shuffle_vec(&mut scrambled_columns, &mut self.rng);
        let ghost shuffled = scrambled_columns@;
        proof {
            assert forall|k: int| 0 <= k < shuffled.len() implies (#[trigger] shuffled[k]) < candidate@.len() by {
                assert(shuffled.to_multiset().count(shuffled[k]) > 0);
                assert(run.to_multiset().count(shuffled[k]) > 0);
                assert(run.contains(shuffled[k]));
            }
            assert forall|h: int| 0 <= h < self.n_groups() implies #[trigger] self.tabu_set(h) == self.tabu_queue(h).to_set() by {
                assert(self.tabu_set(h) == after_draw.tabu_set(h));
            }
            assert forall|h: int| 0 <= h < self.n_groups() implies (#[trigger] self.tabu_queue(h)).no_duplicates()
                && self.tabu_queue(h).len() <= self.tabu_size(h) by {
                assert(self.tabu_queue(h) == after_draw.tabu_queue(h));
            }
            assert forall|h: int| 0 <= h < self.n_groups() implies #[trigger] self.tabu_queue(h) == after_draw.tabu_queue(h) by {
            }
        }
        if incremental {
            let deltas = gather_values(candidate, &scrambled_columns);
            let r: MoveResult<T> = (None, Some(native_columns), Some(deltas));
            proof {
                assert(seq![current_start_id] == seq![current_start_id]);
            }
            r
        } else {
            let pairs = pair_up(&native_columns, &scrambled_columns);
            proof {
                assert(spec_pairs_below(pairs@, candidate@.len() as int)) by {
                    assert forall|j: int| 0 <= j < pairs@.len() implies (#[trigger] pairs@[j]).0 < candidate@.len()
                        && pairs@[j].1 < candidate@.len() by {
                        assert(pairs@[j] == (run[j], shuffled[j]));
                    }
                }
                lemma_swap_pairs_permutes(candidate@, pairs@);
            }
            let mut changed_candidate = copy_vec(candidate);
            swap_pairs(&mut changed_candidate, &pairs);
            let r: MoveResult<T> = (Some(changed_candidate), Some(native_columns), None);
            proof {
                assert(seq![current_start_id] == seq![current_start_id]);
            }
            r
        }
    }
}

} // verus!
