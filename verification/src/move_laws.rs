//! Laws that relate the plain and incremental answers of moves and the tabu
//! state that every move keeps.
use vstd::prelude::*;
use crate::candidate::{spec_write_at, spec_apply_deltas, spec_zip, spec_all_below, spec_writes, spec_rotate_left,
    lemma_apply_deltas_is_write_at, lemma_write_at_pointwise, lemma_chain_shift_is_rotation,
    lemma_write_at_rearrangement, lemma_rotate_left_multiset};
use crate::tabu_moves::{spec_swap_pairs, spec_chain_pairs};
use crate::candidate::spec_gather;
use crate::mover::{spec_tabu_push, spec_slots_chosen, Mover, MoveResult, spec_move_outcome, spec_shift_outcome, spec_edge_map, spec_endpoints, spec_shift_edges,
    spec_shift_prefix, spec_edges_below};

verus! {

/// Law: the incremental answer of a move, applied to the candidate as
/// `(column, value)` deltas one after the other, gives the plain answer of
/// the same move (the same columns and values).
pub proof fn lemma_incremental_applies_to_plain<T>(
    candidate: Seq<T>,
    inc: MoveResult<T>,
    plain: MoveResult<T>,
    cols: Seq<usize>,
    vals: Seq<T>,
)
    requires
        spec_move_outcome(candidate, inc, cols, vals, true),
        spec_move_outcome(candidate, plain, cols, vals, false),
    ensures
        plain.1->0@ == inc.1->0@,
        plain.0->0@ == spec_apply_deltas(candidate, spec_zip(inc.1->0@, inc.2->0@)),
{
}

/// Law: for the moves that shift values along columns (swap, insertion),
/// when the columns are distinct, the incremental answer applied to the
/// candidate as deltas gives the plain answer.
pub proof fn lemma_shift_incremental_matches_plain<T>(
    candidate: Seq<T>,
    inc: MoveResult<T>,
    plain: MoveResult<T>,
    cols: Seq<usize>,
)
    requires
        cols.no_duplicates(),
        spec_all_below(cols, candidate.len() as int),
        spec_shift_outcome(candidate, inc, cols, true),
        spec_shift_outcome(candidate, plain, cols, false),
    ensures
        plain.1->0@ == inc.1->0@,
        plain.0->0@ == spec_apply_deltas(candidate, spec_zip(inc.1->0@, inc.2->0@)),
{
    lemma_chain_shift_is_rotation(candidate, cols);
}

/// Law: in a well-formed mover, the tabu set of each group holds exactly the
/// ids of its queue, and never more ids than the group's tabu size.
pub proof fn lemma_tabu_bounded(m: Mover, g: int)
    requires
        m.wf(),
        0 <= g < m.n_groups(),
    ensures
        m.tabu_set(g) == m.tabu_queue(g).to_set(),
        m.tabu_set(g).len() == m.tabu_queue(g).len(),
        m.tabu_set(g).len() <= m.tabu_size(g),
{
    m.tabu_queue(g).unique_seq_to_set();
}

/// No two edges share an endpoint, and no edge is a loop.
pub open spec fn spec_edges_disjoint(edges: Seq<(usize, usize)>) -> bool {
    &&& forall|i: int| 0 <= i < edges.len() ==> (#[trigger] edges[i]).0 != edges[i].1
    &&& forall|i: int, j: int| 0 <= i < edges.len() && 0 <= j < edges.len() && i != j ==> {
        &&& (#[trigger] edges[i]).0 != (#[trigger] edges[j]).0
        &&& edges[i].0 != edges[j].1
        &&& edges[i].1 != edges[j].0
        &&& edges[i].1 != edges[j].1
    }
}

/// `x` is an end of one of the first `t` edges.
pub open spec fn spec_touched(edges: Seq<(usize, usize)>, t: int, x: int) -> bool {
    exists|i: int| 0 <= i < t && (#[trigger] edges[i].0 as int == x || edges[i].1 as int == x)
}

proof fn lemma_shift_prefix_disjoint<T>(s: Seq<T>, edges: Seq<(usize, usize)>, t: int)
    requires
        0 <= t < edges.len(),
        spec_edges_below(edges, s.len() as int),
        spec_edges_disjoint(edges),
    ensures
        spec_shift_prefix(s, edges, t).len() == s.len(),
        forall|i: int| 0 <= i < t ==> spec_shift_prefix(s, edges, t)[(#[trigger] edges[i]).0 as int] == s[edges[i + 1].0 as int]
            && spec_shift_prefix(s, edges, t)[edges[i].1 as int] == s[edges[i + 1].1 as int],
        forall|x: int| 0 <= x < s.len() && !spec_touched(edges, t, x) ==> #[trigger] spec_shift_prefix(s, edges, t)[x] == s[x],
    decreases t,
{
    if t > 0 {
        lemma_shift_prefix_disjoint(s, edges, t - 1);
        let p = spec_shift_prefix(s, edges, t - 1);
        let e = edges[t - 1];
        let n = edges[t];
        assert(!spec_touched(edges, t - 1, n.0 as int)) by {
            if spec_touched(edges, t - 1, n.0 as int) {
                let i = choose|i: int| 0 <= i < t - 1 && (#[trigger] edges[i].0 as int == n.0 || edges[i].1 as int == n.0);
                assert(edges[i].0 != edges[t].0 && edges[i].1 != edges[t].0);
            }
        }
        assert(!spec_touched(edges, t - 1, n.1 as int)) by {
            if spec_touched(edges, t - 1, n.1 as int) {
                let i = choose|i: int| 0 <= i < t - 1 && (#[trigger] edges[i].0 as int == n.1 || edges[i].1 as int == n.1);
                assert(edges[i].0 != edges[t].1 && edges[i].1 != edges[t].1);
            }
        }
        assert(p[n.0 as int] == s[n.0 as int]);
        assert(p[n.1 as int] == s[n.1 as int]);
        assert(e.0 != n.1 && e.1 != n.0 && e.1 != n.1 && e.0 != n.0);
        let q = spec_shift_prefix(s, edges, t);
        assert forall|i: int| 0 <= i < t implies q[(#[trigger] edges[i]).0 as int] == s[edges[i + 1].0 as int]
            && q[edges[i].1 as int] == s[edges[i + 1].1 as int] by {
            if i < t - 1 {
                assert(edges[i].0 != e.0 && edges[i].0 != e.1);
                assert(edges[i].1 != e.0 && edges[i].1 != e.1);
            }
        }
        assert forall|x: int| 0 <= x < s.len() && !spec_touched(edges, t, x) implies #[trigger] q[x] == s[x] by {
            assert(x != e.0 as int && x != e.1 as int) by {
                if x == e.0 as int || x == e.1 as int {
                    assert(spec_touched(edges, t, x));
                }
            }
            assert(!spec_touched(edges, t - 1, x)) by {
                if spec_touched(edges, t - 1, x) {
                    let i = choose|i: int| 0 <= i < t - 1 && (#[trigger] edges[i].0 as int == x || edges[i].1 as int == x);
                    assert(spec_touched(edges, t, x));
                }
            }
        }
    }
}

proof fn lemma_edge_map_disjoint<T>(s: Seq<T>, edges: Seq<(usize, usize)>, t: int)
    requires
        0 <= t <= edges.len(),
        spec_edges_disjoint(edges),
    ensures
        forall|i: int| 0 <= i < t ==> spec_edge_map(s, edges, t)[(#[trigger] edges[i]).0]
            == s[spec_rotate_left(edges, 1)[i].0 as int]
            && spec_edge_map(s, edges, t)[edges[i].1] == s[spec_rotate_left(edges, 1)[i].1 as int],
    decreases t,
{
    if t > 0 {
        lemma_edge_map_disjoint(s, edges, t - 1);
        let e = edges[t - 1];
        assert forall|i: int| 0 <= i < t implies spec_edge_map(s, edges, t)[(#[trigger] edges[i]).0]
            == s[spec_rotate_left(edges, 1)[i].0 as int]
            && spec_edge_map(s, edges, t)[edges[i].1] == s[spec_rotate_left(edges, 1)[i].1 as int] by {
            if i < t - 1 {
                assert(edges[i].0 != e.0 && edges[i].0 != e.1);
                assert(edges[i].1 != e.0 && edges[i].1 != e.1);
            }
        }
    }
}

/// Law: when no two edges share an endpoint, the incremental answer of the
/// swap-edges move (each endpoint with its new value), applied to the
/// candidate as deltas, gives the plain answer: every edge takes the values
/// at the ends of the next edge, the last edge those of the first.
pub proof fn lemma_swap_edges_incremental_matches_plain<T>(
    s: Seq<T>,
    edges: Seq<(usize, usize)>,
    cols: Seq<usize>,
    vals: Seq<T>,
)
    requires
        edges.len() > 0,
        spec_edges_below(edges, s.len() as int),
        spec_edges_disjoint(edges),
        cols.no_duplicates(),
        cols.to_set() == spec_endpoints(edges),
        vals.len() == cols.len(),
        forall|j: int| 0 <= j < vals.len() ==> #[trigger] vals[j] == spec_edge_map(s, edges, edges.len() as int)[cols[j]],
    ensures
        spec_apply_deltas(s, spec_zip(cols, vals)) == spec_shift_edges(s, edges),
{
    let k = edges.len() as int;
    let rot = spec_rotate_left(edges, 1);
    let m = spec_edge_map(s, edges, k);
    assert(spec_all_below(cols, s.len() as int)) by {
        assert forall|j: int| 0 <= j < cols.len() implies (#[trigger] cols[j]) < s.len() by {
            assert(cols.to_set().contains(cols[j]));
            let i = choose|i: int| 0 <= i < edges.len() && (#[trigger] edges[i].0 == cols[j] || edges[i].1 == cols[j]);
        }
    }
    lemma_apply_deltas_is_write_at(s, cols, vals);
    lemma_write_at_pointwise(s, cols, vals);
    lemma_shift_prefix_disjoint(s, edges, k - 1);
    lemma_edge_map_disjoint(s, edges, k);
    let p = spec_shift_prefix(s, edges, k - 1);
    let sh = spec_shift_edges(s, edges);
    let w = spec_write_at(s, cols, vals);
    let last = edges[k - 1];
    assert(sh == p.update(last.0 as int, s[edges[0].0 as int]).update(last.1 as int, s[edges[0].1 as int]));
    assert forall|x: int| 0 <= x < s.len() implies w[x] == sh[x] by {
        if spec_touched(edges, k, x) {
            let i = choose|i: int| 0 <= i < k && (#[trigger] edges[i].0 as int == x || edges[i].1 as int == x);
            let xu = x as usize;
            assert(spec_endpoints(edges).contains(xu));
            assert(cols.to_set().contains(xu));
            let j = choose|j: int| 0 <= j < cols.len() && cols[j] == xu;
            assert(w[cols[j] as int] == vals[j]);
            assert(vals[j] == m[xu]);
            if i < k - 1 {
                assert(rot[i] == edges[i + 1]);
                assert(edges[i].0 != last.0 && edges[i].0 != last.1);
                assert(edges[i].1 != last.0 && edges[i].1 != last.1);
            } else {
                assert(rot[i] == edges[0]);
            }
        } else {
            assert(!spec_writes(cols, x)) by {
                if spec_writes(cols, x) {
                    let j = choose|j: int| 0 <= j < cols.len() && #[trigger] cols[j] as int == x;
                    assert(cols.to_set().contains(cols[j]));
                    assert(spec_endpoints(edges).contains(cols[j]));
                    let i = choose|i: int| 0 <= i < edges.len() && (#[trigger] edges[i].0 == cols[j] || edges[i].1 == cols[j]);
                    assert(spec_touched(edges, k, x));
                }
            }
            assert(!spec_touched(edges, k - 1, x)) by {
                if spec_touched(edges, k - 1, x) {
                    let i = choose|i: int| 0 <= i < k - 1 && (#[trigger] edges[i].0 as int == x || edges[i].1 as int == x);
                    assert(spec_touched(edges, k, x));
                }
            }
            assert(x != last.0 as int && x != last.1 as int) by {
                if x == last.0 as int || x == last.1 as int {
                    assert(spec_touched(edges, k, x));
                }
            }
        }
    }
    assert(w =~= sh);
}

} // verus!

verus! {

/// `x` is one of `cols[0..=k]`.
pub open spec fn spec_among(cols: Seq<usize>, k: int, x: int) -> bool {
    exists|i: int| 0 <= i <= k && #[trigger] cols[i] as int == x
}

proof fn lemma_chain_prefix<T>(s: Seq<T>, cols: Seq<usize>, k: int)
    requires
        0 <= k < cols.len(),
        cols.no_duplicates(),
        spec_all_below(cols, s.len() as int),
    ensures
        spec_swap_pairs(s, spec_chain_pairs(cols).take(k)).len() == s.len(),
        forall|i: int| 0 <= i < k ==> spec_swap_pairs(s, spec_chain_pairs(cols).take(k))[#[trigger] cols[i] as int] == s[cols[i + 1] as int],
        spec_swap_pairs(s, spec_chain_pairs(cols).take(k))[cols[k] as int] == s[cols[0] as int],
        forall|x: int| 0 <= x < s.len() && !spec_among(cols, k, x) ==> #[trigger] spec_swap_pairs(s, spec_chain_pairs(cols).take(k))[x] == s[x],
    decreases k,
{
    let pairs = spec_chain_pairs(cols);
    if k == 0 {
        assert(pairs.take(0) =~= Seq::<(usize, usize)>::empty());
    } else {
        lemma_chain_prefix(s, cols, k - 1);
        let prev = spec_swap_pairs(s, pairs.take(k - 1));
        assert(pairs.take(k).drop_last() =~= pairs.take(k - 1));
        assert(pairs.take(k).last() == (cols[k - 1], cols[k]));
        let a = cols[k - 1] as int;
        let b = cols[k] as int;
        assert(!spec_among(cols, k - 1, b)) by {
            if spec_among(cols, k - 1, b) {
                let i = choose|i: int| 0 <= i <= k - 1 && #[trigger] cols[i] as int == b;
                assert(cols[i] == cols[k]);
            }
        }
        assert(prev[b] == s[b]);
        assert(prev[a] == s[cols[0] as int]);
        let cur = spec_swap_pairs(s, pairs.take(k));
        assert(cur == prev.update(a, prev[b]).update(b, prev[a]));
        assert forall|i: int| 0 <= i < k implies cur[#[trigger] cols[i] as int] == s[cols[i + 1] as int] by {
            if i < k - 1 {
                assert(cols[i] != cols[k - 1]);
                assert(cols[i] != cols[k]);
            }
        }
        assert forall|x: int| 0 <= x < s.len() && !spec_among(cols, k, x) implies #[trigger] cur[x] == s[x] by {
            assert(x != a) by {
                if x == a {
                    assert(spec_among(cols, k, x));
                }
            }
            assert(x != b) by {
                if x == b {
                    assert(spec_among(cols, k, x));
                }
            }
            assert(!spec_among(cols, k - 1, x)) by {
                if spec_among(cols, k - 1, x) {
                    let i = choose|i: int| 0 <= i <= k - 1 && #[trigger] cols[i] as int == x;
                    assert(spec_among(cols, k, x));
                }
            }
        }
    }
}

/// Law: swapping neighbouring columns one pair after the other, over
/// distinct columns (as `TabuMoves::swap_move_base` does in plain mode),
/// rotates their values as `Mover::swap_move` writes them: column `cols[i]`
/// takes the value of `cols[i + 1]`, the last column that of the first.
pub proof fn lemma_chain_swaps_rotate<T>(s: Seq<T>, cols: Seq<usize>)
    requires
        cols.len() >= 1,
        cols.no_duplicates(),
        spec_all_below(cols, s.len() as int),
    ensures
        spec_swap_pairs(s, spec_chain_pairs(cols)) == spec_write_at(s, cols, spec_rotate_left(spec_gather(s, cols), 1)),
{
    let n = cols.len() as int;
    let pairs = spec_chain_pairs(cols);
    lemma_chain_prefix(s, cols, n - 1);
    assert(pairs.take(n - 1) =~= pairs);
    let vals = spec_rotate_left(spec_gather(s, cols), 1);
    lemma_write_at_pointwise(s, cols, vals);
    let w = spec_write_at(s, cols, vals);
    let p = spec_swap_pairs(s, pairs);
    assert forall|x: int| 0 <= x < s.len() implies p[x] == w[x] by {
        if spec_among(cols, n - 1, x) {
            let i = choose|i: int| 0 <= i <= n - 1 && #[trigger] cols[i] as int == x;
            assert(w[cols[i] as int] == vals[i]);
            if i < n - 1 {
                assert(vals[i] == s[cols[i + 1] as int]);
            } else {
                assert(vals[i] == s[cols[0] as int]);
            }
        } else {
            assert(!spec_writes(cols, x)) by {
                if spec_writes(cols, x) {
                    let i = choose|i: int| 0 <= i < cols.len() && #[trigger] cols[i] as int == x;
                    assert(spec_among(cols, n - 1, x));
                }
            }
        }
    }
    assert(p =~= w);
}

} // verus!

verus! {

/// The ids just pushed onto a tabu list are all on it, when the list can
/// hold that many.
pub proof fn lemma_pushed_ids_are_tabu(queue: Seq<usize>, ids: Seq<usize>, max_size: int)
    requires
        ids.len() <= max_size,
    ensures
        forall|k: int| 0 <= k < ids.len() ==> spec_tabu_push(queue, ids, max_size).contains(#[trigger] ids[k]),
{
    let all = ids.reverse() + queue;
    let pushed = spec_tabu_push(queue, ids, max_size);
    assert forall|k: int| 0 <= k < ids.len() implies pushed.contains(#[trigger] ids[k]) by {
        let p = ids.len() - 1 - k;
        assert(all[p] == ids[k]);
        assert(pushed[p] == all[p]);
    }
}

/// Law: with tabu lists, two moves of the same group in a row draw disjoint
/// slots, as long as the group's tabu list can hold all the slots the first
/// move drew.
pub proof fn lemma_consecutive_moves_disjoint(
    m0: Mover,
    m1: Mover,
    m2: Mover,
    g: int,
    slots1: Seq<usize>,
    len1: int,
    slots2: Seq<usize>,
    len2: int,
)
    requires
        0 <= g < m0.n_groups(),
        m0.use_tabu,
        spec_slots_chosen(m0, m1, g, slots1, len1),
        spec_slots_chosen(m1, m2, g, slots2, len2),
        slots1.len() <= m0.tabu_size(g),
    ensures
        forall|i: int, j: int| 0 <= i < slots1.len() && 0 <= j < slots2.len() ==> #[trigger] slots1[i] != #[trigger] slots2[j],
{
    lemma_pushed_ids_are_tabu(m0.tabu_queue(g), slots1, m0.tabu_size(g));
    assert(m1.tabu_set(g) == m1.tabu_queue(g).to_set());
    assert forall|i: int, j: int| 0 <= i < slots1.len() && 0 <= j < slots2.len() implies #[trigger] slots1[i] != #[trigger] slots2[j] by {
        assert(m1.tabu_queue(g).contains(slots1[i]));
        assert(m1.tabu_set(g).contains(slots1[i]));
        assert(!m1.tabu_set(g).contains(slots2[j]));
    }
}

/// Law: for tabu-aware moves that draw one id at a time, an id is not drawn
/// again within the same draw while the tabu list still holds it: the first
/// `tabu size` ids of a draw are distinct.
pub proof fn lemma_drawn_prefix_distinct(queue: Seq<usize>, ids: Seq<usize>, max_size: int, right_end: int)
    requires
        crate::tabu_moves::spec_drawn_against_tabu(queue, ids, max_size, right_end),
    ensures
        forall|a: int, b: int| 0 <= a < b < ids.len() && b <= max_size ==> #[trigger] ids[a] != #[trigger] ids[b],
{
    assert forall|a: int, b: int| 0 <= a < b < ids.len() && b <= max_size implies #[trigger] ids[a] != #[trigger] ids[b] by {
        let pre = ids.subrange(0, b);
        lemma_pushed_ids_are_tabu(queue, pre, max_size);
        assert(pre[a] == ids[a]);
        assert(spec_tabu_push(queue, pre, max_size).contains(pre[a]));
        assert(!spec_tabu_push(queue, ids.subrange(0, b), max_size).contains(ids[b]));
    }
}

} // verus!

verus! {

/// The first ends of `edges`.
pub open spec fn spec_first_ends(edges: Seq<(usize, usize)>) -> Seq<usize> {
    Seq::new(edges.len(), |i: int| edges[i].0)
}

/// The second ends of `edges`.
pub open spec fn spec_second_ends(edges: Seq<(usize, usize)>) -> Seq<usize> {
    Seq::new(edges.len(), |i: int| edges[i].1)
}

/// Law: when no two edges share an endpoint, shifting values along the
/// edges (as `Mover::swap_edges_move` does in plain mode) rearranges the
/// values of the candidate: it keeps their multiset.
pub proof fn lemma_shift_edges_permutes<T>(s: Seq<T>, edges: Seq<(usize, usize)>)
    requires
        spec_edges_below(edges, s.len() as int),
        spec_edges_disjoint(edges),
    ensures
        spec_shift_edges(s, edges).to_multiset() == s.to_multiset(),
{
    let k = edges.len() as int;
    if k > 0 {
        let c0 = spec_first_ends(edges);
        let c1 = spec_second_ends(edges);
        assert(c0.no_duplicates()) by {
            assert forall|i: int, j: int| 0 <= i < j < k implies c0[i] != c0[j] by {
                assert(edges[i].0 != edges[j].0);
            }
        }
        assert(c1.no_duplicates()) by {
            assert forall|i: int, j: int| 0 <= i < j < k implies c1[i] != c1[j] by {
                assert(edges[i].1 != edges[j].1);
            }
        }
        assert(spec_all_below(c0, s.len() as int));
        assert(spec_all_below(c1, s.len() as int));
        let v0 = spec_rotate_left(spec_gather(s, c0), 1);
        let s1 = spec_write_at(s, c0, v0);
        lemma_rotate_left_multiset(spec_gather(s, c0), 1);
        lemma_write_at_rearrangement(s, c0, v0);
        lemma_write_at_pointwise(s, c0, v0);
        let v1 = spec_rotate_left(spec_gather(s1, c1), 1);
        let s2 = spec_write_at(s1, c1, v1);
        lemma_rotate_left_multiset(spec_gather(s1, c1), 1);
        lemma_write_at_rearrangement(s1, c1, v1);
        lemma_write_at_pointwise(s1, c1, v1);
        assert forall|j: int| 0 <= j < k implies s1[(#[trigger] c1[j]) as int] == s[c1[j] as int] by {
            assert(!spec_writes(c0, c1[j] as int)) by {
                if spec_writes(c0, c1[j] as int) {
                    let i = choose|i: int| 0 <= i < c0.len() && #[trigger] c0[i] as int == c1[j] as int;
                    if i == j {
                        assert(edges[i].0 != edges[i].1);
                    } else {
                        assert(edges[i].0 != edges[j].1);
                    }
                }
            }
        }
        lemma_shift_prefix_disjoint(s, edges, k - 1);
        let p = spec_shift_prefix(s, edges, k - 1);
        let sh = spec_shift_edges(s, edges);
        let last = edges[k - 1];
        assert(sh == p.update(last.0 as int, s[edges[0].0 as int]).update(last.1 as int, s[edges[0].1 as int]));
        assert forall|x: int| 0 <= x < s.len() implies sh[x] == s2[x] by {
            if spec_touched(edges, k, x) {
                let i = choose|i: int| 0 <= i < k && (#[trigger] edges[i].0 as int == x || edges[i].1 as int == x);
                if edges[i].0 as int == x {
                    assert(c0[i] as int == x);
                    assert(!spec_writes(c1, x)) by {
                        if spec_writes(c1, x) {
                            let j = choose|j: int| 0 <= j < c1.len() && #[trigger] c1[j] as int == x;
                            if i == j {
                                assert(edges[i].0 != edges[i].1);
                            } else {
                                assert(edges[i].0 != edges[j].1);
                            }
                        }
                    }
                    assert(s1[c0[i] as int] == v0[i]);
                    if i < k - 1 {
                        assert(edges[i].0 != last.0 && edges[i].0 != last.1);
                    }
                } else {
                    assert(c1[i] as int == x);
                    assert(s2[c1[i] as int] == v1[i]);
                    if i < k - 1 {
                        assert(edges[i].1 != last.0 && edges[i].1 != last.1);
                        assert(v1[i] == s1[c1[i + 1] as int]);
                    } else {
                        assert(v1[i] == s1[c1[0] as int]);
                    }
                }
            } else {
                assert(!spec_writes(c0, x)) by {
                    if spec_writes(c0, x) {
                        let i = choose|i: int| 0 <= i < c0.len() && #[trigger] c0[i] as int == x;
                        assert(spec_touched(edges, k, x));
                    }
                }
                assert(!spec_writes(c1, x)) by {
                    if spec_writes(c1, x) {
                        let i = choose|i: int| 0 <= i < c1.len() && #[trigger] c1[i] as int == x;
                        assert(spec_touched(edges, k, x));
                    }
                }
                assert(!spec_touched(edges, k - 1, x)) by {
                    if spec_touched(edges, k - 1, x) {
                        let i = choose|i: int| 0 <= i < k - 1 && (#[trigger] edges[i].0 as int == x || edges[i].1 as int == x);
                        assert(spec_touched(edges, k, x));
                    }
                }
                assert(x != last.0 as int && x != last.1 as int) by {
                    if x == last.0 as int || x == last.1 as int {
                        assert(spec_touched(edges, k, x));
                    }
                }
            }
        }
        assert(sh =~= s2);
    }
}

} // verus!

verus! {

/// Law: a swap-edges move on a group of `len` ids takes at least two edges
/// whenever the group has room for two (at least three ids), never more
/// than the `len - 1` edges the group has, and exactly the asked number
/// when that is between two and `len - 1`; a group of two ids gives its one
/// edge.
pub proof fn lemma_edges_count_bounds(change_count: int, len: int)
    ensures
        len >= 3 ==> 2 <= crate::mover::spec_edges_count(change_count, len) <= len - 1,
        2 <= change_count <= len - 1 ==> crate::mover::spec_edges_count(change_count, len) == change_count,
        len >= 1 && change_count >= len - 1 && len - 1 >= 2 ==> crate::mover::spec_edges_count(change_count, len) == len - 1,
        len == 2 ==> crate::mover::spec_edges_count(change_count, len) == 1,
{
}

} // verus!
