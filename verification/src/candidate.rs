//! Candidate vectors and the updates that moves apply to them.
use vstd::prelude::*;

verus! {

broadcast use vstd::seq_lib::group_seq_properties;

/// The value that `cols` writes at position `j`: the value paired with the
/// first occurrence of `j` in `cols`, or the old value when `j` is not written.
pub open spec fn spec_write_at<T>(s: Seq<T>, cols: Seq<usize>, vals: Seq<T>) -> Seq<T> {
    Seq::new(
        s.len(),
        |j: int|
            if spec_writes(cols, j) {
                vals[choose|i: int| 0 <= i < cols.len() && cols[i] as int == j]
            } else {
                s[j]
            },
    )
}

/// Position `j` is one of `cols`.
pub open spec fn spec_writes(cols: Seq<usize>, j: int) -> bool {
    exists|i: int| 0 <= i < cols.len() && #[trigger] cols[i] as int == j
}

/// The values of `s` at the positions `cols`, in the order of `cols`.
pub open spec fn spec_gather<T>(s: Seq<T>, cols: Seq<usize>) -> Seq<T> {
    Seq::new(cols.len(), |i: int| s[cols[i] as int])
}

/// Every position in `cols` lies inside a sequence of length `len`.
pub open spec fn spec_all_below(cols: Seq<usize>, len: int) -> bool {
    forall|i: int| 0 <= i < cols.len() ==> (#[trigger] cols[i]) < len
}

/// The result of applying `(index, value)` updates one after the other.
pub open spec fn spec_apply_deltas<T>(s: Seq<T>, deltas: Seq<(usize, T)>) -> Seq<T>
    decreases deltas.len(),
{
    if deltas.len() == 0 {
        s
    } else {
        let last = deltas.last();
        spec_apply_deltas(s, deltas.drop_last()).update(last.0 as int, last.1)
    }
}

/// Pairs each position of `cols` with the value at the same place in `vals`.
pub open spec fn spec_zip<T>(cols: Seq<usize>, vals: Seq<T>) -> Seq<(usize, T)> {
    Seq::new(cols.len(), |i: int| (cols[i], vals[i]))
}

/// Rotates `s` to the left by `by` places (the first `by` values go to the end).
pub open spec fn spec_rotate_left<T>(s: Seq<T>, by: int) -> Seq<T> {
    s.subrange(by, s.len() as int) + s.subrange(0, by)
}

/// Writing distinct positions sets each written position to its paired value
/// and leaves all other positions alone.
pub proof fn lemma_write_at_pointwise<T>(s: Seq<T>, cols: Seq<usize>, vals: Seq<T>)
    requires
        cols.no_duplicates(),
        cols.len() == vals.len(),
        spec_all_below(cols, s.len() as int),
    ensures
        spec_write_at(s, cols, vals).len() == s.len(),
        forall|i: int| 0 <= i < cols.len() ==> spec_write_at(s, cols, vals)[#[trigger] cols[i] as int] == vals[i],
        forall|j: int| 0 <= j < s.len() && !spec_writes(cols, j) ==> spec_write_at(s, cols, vals)[j] == s[j],
{
    assert forall|i: int| 0 <= i < cols.len() implies spec_write_at(s, cols, vals)[#[trigger] cols[i] as int] == vals[i] by {
        let j = cols[i] as int;
        assert(spec_writes(cols, j));
        let k = choose|k: int| 0 <= k < cols.len() && cols[k] as int == j;
        assert(cols[k] == cols[i]);
    }
}

proof fn lemma_apply_prefix_outside<T>(s: Seq<T>, cols: Seq<usize>, vals: Seq<T>, k: int, j: int)
    requires
        0 <= k <= cols.len(),
        cols.len() == vals.len(),
        spec_all_below(cols, s.len() as int),
        0 <= j < s.len(),
        forall|i: int| 0 <= i < k ==> cols[i] != j,
    ensures
        spec_apply_deltas(s, spec_zip(cols, vals).subrange(0, k)).len() == s.len(),
        spec_apply_deltas(s, spec_zip(cols, vals).subrange(0, k))[j] == s[j],
    decreases k,
{
    let z = spec_zip(cols, vals).subrange(0, k);
    if k > 0 {
        assert(z.drop_last() =~= spec_zip(cols, vals).subrange(0, k - 1));
        lemma_apply_prefix_outside(s, cols, vals, k - 1, j);
    }
}

proof fn lemma_apply_prefix_inside<T>(s: Seq<T>, cols: Seq<usize>, vals: Seq<T>, k: int, i: int)
    requires
        0 <= i < k <= cols.len(),
        cols.len() == vals.len(),
        cols.no_duplicates(),
        spec_all_below(cols, s.len() as int),
    ensures
        spec_apply_deltas(s, spec_zip(cols, vals).subrange(0, k))[cols[i] as int] == vals[i],
    decreases k,
{
    let z = spec_zip(cols, vals).subrange(0, k);
    assert(z.drop_last() =~= spec_zip(cols, vals).subrange(0, k - 1));
    lemma_apply_prefix_outside(s, cols, vals, k - 1, cols[k - 1] as int);
    if i < k - 1 {
        lemma_apply_prefix_inside(s, cols, vals, k - 1, i);
        assert(cols[i] != cols[k - 1]);
    }
}

/// Applying the pairs `(cols[i], vals[i])` one after the other, at distinct
/// positions, gives the same vector as writing them all at once.
pub proof fn lemma_apply_deltas_is_write_at<T>(s: Seq<T>, cols: Seq<usize>, vals: Seq<T>)
    requires
        cols.no_duplicates(),
        cols.len() == vals.len(),
        spec_all_below(cols, s.len() as int),
    ensures
        spec_apply_deltas(s, spec_zip(cols, vals)) == spec_write_at(s, cols, vals),
{
    let k = cols.len() as int;
    assert(spec_zip(cols, vals).subrange(0, k) =~= spec_zip(cols, vals));
    lemma_write_at_pointwise(s, cols, vals);
    let a = spec_apply_deltas(s, spec_zip(cols, vals));
    let w = spec_write_at(s, cols, vals);
    lemma_apply_prefix_outside_len(s, spec_zip(cols, vals));
    assert forall|j: int| 0 <= j < s.len() implies a[j] == w[j] by {
        if spec_writes(cols, j) {
            let i = choose|i: int| 0 <= i < cols.len() && cols[i] as int == j;
            lemma_apply_prefix_inside(s, cols, vals, k, i);
            assert(w[cols[i] as int] == vals[i]);
        } else {
            lemma_apply_prefix_outside(s, cols, vals, k, j);
        }
    }

    assert(a =~= w);
}

proof fn lemma_apply_prefix_outside_len<T>(s: Seq<T>, d: Seq<(usize, T)>)
    requires
        forall|i: int| 0 <= i < d.len() ==> (#[trigger] d[i]).0 < s.len(),
    ensures
        spec_apply_deltas(s, d).len() == s.len(),
    decreases d.len(),
{
    if d.len() > 0 {
        lemma_apply_prefix_outside_len(s, d.drop_last());
    }
}

/// Applies `(index, value)` updates to `sample`, one after the other.
pub fn apply_deltas<T: Copy>(sample: &mut Vec<T>, deltas: &Vec<(usize, T)>)
    requires
        forall|i: int| 0 <= i < deltas.len() ==> (#[trigger] deltas@[i]).0 < old(sample)@.len(),
    ensures
        final(sample)@ == spec_apply_deltas(old(sample)@, deltas@),
{
    let mut k: usize = 0;
    while k < deltas.len()
        invariant
            k <= deltas.len(),
            forall|i: int| 0 <= i < deltas.len() ==> (#[trigger] deltas@[i]).0 < old(sample)@.len(),
            sample@ == spec_apply_deltas(old(sample)@, deltas@.subrange(0, k as int)),
        decreases deltas.len() - k,
    {
        proof {
            lemma_apply_prefix_outside_len(old(sample)@, deltas@.subrange(0, k as int));
            assert(deltas@.subrange(0, k + 1).drop_last() =~= deltas@.subrange(0, k as int));
        }
        let (index, value) = deltas[k];
        sample[index] = value;
        k = k + 1;
    }
    assert(deltas@.subrange(0, deltas@.len() as int) =~= deltas@);
}

} // verus!

verus! {

proof fn lemma_apply_prefix_counts<T>(s: Seq<T>, cols: Seq<usize>, vals: Seq<T>, k: int)
    requires
        0 <= k <= cols.len(),
        cols.len() == vals.len(),
        cols.no_duplicates(),
        spec_all_below(cols, s.len() as int),
    ensures
        forall|x: T|
            spec_apply_deltas(s, spec_zip(cols, vals).subrange(0, k)).to_multiset().count(x)
                + spec_gather(s, cols).subrange(0, k).to_multiset().count(x)
                == s.to_multiset().count(x) + vals.subrange(0, k).to_multiset().count(x),
    decreases k,
{
    broadcast use vstd::seq_lib::to_multiset_build, vstd::seq_lib::to_multiset_update,
        vstd::multiset::group_multiset_axioms, vstd::seq_lib::to_multiset_contains;

    if k == 0 {
        assert(spec_zip(cols, vals).subrange(0, 0) =~= Seq::<(usize, T)>::empty());
        assert(spec_gather(s, cols).subrange(0, 0) =~= Seq::<T>::empty());
        assert(vals.subrange(0, 0) =~= Seq::<T>::empty());
    } else {
        lemma_apply_prefix_counts(s, cols, vals, k - 1);
        let z = spec_zip(cols, vals).subrange(0, k);
        assert(z.drop_last() =~= spec_zip(cols, vals).subrange(0, k - 1));
        let prev = spec_apply_deltas(s, spec_zip(cols, vals).subrange(0, k - 1));
        let p = cols[k - 1] as int;
        let v = vals[k - 1];
        assert forall|i: int| 0 <= i < k - 1 implies cols[i] != p by {
            assert(cols[i] != cols[k - 1]);
        }
        lemma_apply_prefix_outside(s, cols, vals, k - 1, p);
        assert(prev[p] == s[p]);
        assert(prev.contains(s[p]));
        assert(spec_gather(s, cols).subrange(0, k) =~= spec_gather(s, cols).subrange(0, k - 1).push(s[p]));
        assert(vals.subrange(0, k) =~= vals.subrange(0, k - 1).push(v));
        assert(spec_apply_deltas(s, z) == prev.update(p, v));
        assert forall|x: T|
            spec_apply_deltas(s, z).to_multiset().count(x)
                + spec_gather(s, cols).subrange(0, k).to_multiset().count(x)
                == s.to_multiset().count(x) + vals.subrange(0, k).to_multiset().count(x) by {
            assert(prev.to_multiset().count(s[p]) > 0);
        }
    }
}

/// Writing, at distinct positions, a rearrangement of the values already held
/// there keeps the multiset of the whole vector.
pub proof fn lemma_write_at_rearrangement<T>(s: Seq<T>, cols: Seq<usize>, vals: Seq<T>)
    requires
        cols.no_duplicates(),
        cols.len() == vals.len(),
        spec_all_below(cols, s.len() as int),
        vals.to_multiset() == spec_gather(s, cols).to_multiset(),
    ensures
        spec_write_at(s, cols, vals).to_multiset() == s.to_multiset(),
{
    let k = cols.len() as int;
    lemma_apply_prefix_counts(s, cols, vals, k);
    assert(spec_zip(cols, vals).subrange(0, k) =~= spec_zip(cols, vals));
    assert(spec_gather(s, cols).subrange(0, k) =~= spec_gather(s, cols));
    assert(vals.subrange(0, k) =~= vals);
    lemma_apply_deltas_is_write_at(s, cols, vals);
    assert(spec_write_at(s, cols, vals).to_multiset() =~= s.to_multiset());
}

/// A rotation holds the same values as the sequence it rotates.
pub proof fn lemma_rotate_left_multiset<T>(s: Seq<T>, by: int)
    requires
        0 <= by <= s.len(),
    ensures
        spec_rotate_left(s, by).to_multiset() == s.to_multiset(),
{
    vstd::seq_lib::lemma_seq_union_to_multiset_commutative(s.subrange(by, s.len() as int), s.subrange(0, by));
    assert(s.subrange(0, by) + s.subrange(by, s.len() as int) =~= s);
}

} // verus!

verus! {

/// The first `t` steps of shifting values along `cols` in place: column
/// `cols[i]` takes the value that column `cols[i + 1]` holds at that step.
pub open spec fn spec_chain_prefix<T>(s: Seq<T>, cols: Seq<usize>, t: int) -> Seq<T>
    decreases t,
{
    if t <= 0 {
        s
    } else {
        let p = spec_chain_prefix(s, cols, t - 1);
        p.update(cols[t - 1] as int, p[cols[t] as int])
    }
}

/// Shifting values along `cols` in place, one column after the other: each
/// column takes the value its successor holds at that moment, and the last
/// column takes the first column's original value.
pub open spec fn spec_chain_shift<T>(s: Seq<T>, cols: Seq<usize>) -> Seq<T> {
    if cols.len() == 0 {
        s
    } else {
        spec_chain_prefix(s, cols, cols.len() - 1).update(cols[cols.len() - 1] as int, s[cols[0] as int])
    }
}

/// `x` is one of `cols[0..t)`.
pub open spec fn spec_among_first(cols: Seq<usize>, t: int, x: int) -> bool {
    exists|i: int| 0 <= i < t && #[trigger] cols[i] as int == x
}

proof fn lemma_chain_prefix_distinct<T>(s: Seq<T>, cols: Seq<usize>, t: int)
    requires
        0 <= t < cols.len(),
        cols.no_duplicates(),
        spec_all_below(cols, s.len() as int),
    ensures
        spec_chain_prefix(s, cols, t).len() == s.len(),
        forall|i: int| 0 <= i < t ==> spec_chain_prefix(s, cols, t)[#[trigger] cols[i] as int] == s[cols[i + 1] as int],
        forall|x: int| 0 <= x < s.len() && !spec_among_first(cols, t, x) ==> #[trigger] spec_chain_prefix(s, cols, t)[x] == s[x],
    decreases t,
{
    if t > 0 {
        lemma_chain_prefix_distinct(s, cols, t - 1);
        let p = spec_chain_prefix(s, cols, t - 1);
        let a = cols[t - 1] as int;
        let b = cols[t] as int;
        assert(!spec_among_first(cols, t - 1, b)) by {
            if spec_among_first(cols, t - 1, b) {
                let i = choose|i: int| 0 <= i < t - 1 && #[trigger] cols[i] as int == b;
                assert(cols[i] == cols[t]);
            }
        }
        let cur = spec_chain_prefix(s, cols, t);
        assert(cur == p.update(a, p[b]));
        assert forall|i: int| 0 <= i < t implies cur[#[trigger] cols[i] as int] == s[cols[i + 1] as int] by {
            if i < t - 1 {
                assert(cols[i] != cols[t - 1]);
            }
        }
        assert forall|x: int| 0 <= x < s.len() && !spec_among_first(cols, t, x) implies #[trigger] cur[x] == s[x] by {
            assert(x != a) by {
                if x == a {
                    assert(spec_among_first(cols, t, x));
                }
            }
            assert(!spec_among_first(cols, t - 1, x)) by {
                if spec_among_first(cols, t - 1, x) {
                    let i = choose|i: int| 0 <= i < t - 1 && #[trigger] cols[i] as int == x;
                    assert(spec_among_first(cols, t, x));
                }
            }
        }
    }
}

/// Over distinct columns, shifting in place writes the values gathered at
/// the columns, rotated left by one: column `cols[i]` takes the value of
/// `cols[i + 1]`, the last column that of the first.
pub proof fn lemma_chain_shift_is_rotation<T>(s: Seq<T>, cols: Seq<usize>)
    requires
        cols.no_duplicates(),
        spec_all_below(cols, s.len() as int),
    ensures
        spec_chain_shift(s, cols) == spec_write_at(s, cols, spec_rotate_left(spec_gather(s, cols), 1)),
        spec_chain_shift(s, cols) == spec_apply_deltas(s, spec_zip(cols, spec_rotate_left(spec_gather(s, cols), 1))),
{
    let n = cols.len() as int;
    let vals = spec_rotate_left(spec_gather(s, cols), if n == 0 { 0 } else { 1 });
    if n == 0 {
        assert(spec_write_at(s, cols, spec_rotate_left(spec_gather(s, cols), 1)) =~= s);
        assert(spec_zip(cols, spec_rotate_left(spec_gather(s, cols), 1)) =~= Seq::<(usize, T)>::empty());
    } else {
        lemma_chain_prefix_distinct(s, cols, n - 1);
        lemma_write_at_pointwise(s, cols, vals);
        let w = spec_write_at(s, cols, vals);
        let p = spec_chain_prefix(s, cols, n - 1);
        let sh = spec_chain_shift(s, cols);
        assert forall|x: int| 0 <= x < s.len() implies sh[x] == w[x] by {
            if x == cols[n - 1] as int {
                assert(w[cols[n - 1] as int] == vals[n - 1]);
            } else if spec_among_first(cols, n - 1, x) {
                let i = choose|i: int| 0 <= i < n - 1 && #[trigger] cols[i] as int == x;
                assert(w[cols[i] as int] == vals[i]);
            } else {
                assert(!spec_writes(cols, x)) by {
                    if spec_writes(cols, x) {
                        let i = choose|i: int| 0 <= i < cols.len() && #[trigger] cols[i] as int == x;
                        if i < n - 1 {
                            assert(spec_among_first(cols, n - 1, x));
                        }
                    }
                }
            }
        }
        assert(sh =~= w);
        lemma_apply_deltas_is_write_at(s, cols, vals);
    }
}

} // verus!
