//! Which fact and field each solver variable sets, and the reverse: which
//! variables point at each fact. Deltas from the solver are grouped per fact
//! through it, and it follows facts as committed changes replace them.
use vstd::prelude::*;
use rustc_hash::FxHashMap;
use crate::random::{fx_map_new, fx_map_insert, fx_map_get_ref, fx_map_remove, fx_map_keys};
use crate::variable_names::{EntityGroup, build_variables_info, spec_group_slots, spec_variable_at, lemma_group_slots_valid, sizes_fit};

verus! {

/// `rev` is the reverse of `map`: it holds the facts that some variable
/// points at, each with the variables that point at it, each once (so no
/// list is empty).
pub open spec fn is_reverse_of(map: Map<usize, (i64, String)>, rev: Map<i64, Seq<usize>>) -> bool {
    &&& forall|f: i64| #[trigger] rev.contains_key(f) ==> rev[f].len() > 0
    &&& forall|v: usize| #[trigger] map.contains_key(v) ==> rev.contains_key(map[v].0) && rev[map[v].0].contains(v)
    &&& forall|f: i64| #[trigger] rev.contains_key(f) ==> rev[f].no_duplicates()
    &&& forall|f: i64, i: int| rev.contains_key(f) && 0 <= i < rev[f].len()
        ==> map.contains_key(#[trigger] rev[f][i]) && map[rev[f][i]].0 == f
}

/// The field changes that `deltas` make to fact `f`, in order: each delta
/// `(variable, value)` whose variable points at `f` sets that variable's
/// field to the value.
pub open spec fn spec_fact_changes<V>(map: Map<usize, (i64, String)>, deltas: Seq<(usize, V)>, f: i64) -> Seq<(Seq<char>, V)>
    decreases deltas.len(),
{
    if deltas.len() == 0 {
        Seq::empty()
    } else {
        let prev = spec_fact_changes(map, deltas.drop_last(), f);
        let d = deltas.last();
        if map.contains_key(d.0) && map[d.0].0 == f {
            prev.push((map[d.0].1@, d.1))
        } else {
            prev
        }
    }
}

/// The facts that `deltas` change: those some delta's variable points at.
pub open spec fn spec_touched<V>(map: Map<usize, (i64, String)>, deltas: Seq<(usize, V)>) -> Set<i64> {
    Set::new(|f: i64| exists|i: int| 0 <= i < deltas.len() && map.contains_key(deltas[i].0) && map[deltas[i].0].0 == f)
}

/// A fact that no delta touches gets no field changes.
proof fn lemma_untouched_no_changes<V>(map: Map<usize, (i64, String)>, deltas: Seq<(usize, V)>, f: i64)
    requires
        !spec_touched(map, deltas).contains(f),
    ensures
        spec_fact_changes(map, deltas, f).len() == 0,
    decreases deltas.len(),
{
    if deltas.len() > 0 {
        let prev = deltas.drop_last();
        if spec_touched(map, prev).contains(f) {
            let k = choose|k: int| 0 <= k < prev.len() && map.contains_key(prev[k].0) && map[prev[k].0].0 == f;
            assert(deltas[k] == prev[k]);
        }
        lemma_untouched_no_changes(map, prev, f);
        let last_index = deltas.len() - 1;
        if map.contains_key(deltas.last().0) && map[deltas.last().0].0 == f {
            assert(0 <= last_index < deltas.len() && map.contains_key(deltas[last_index].0) && map[deltas[last_index].0].0 == f);
        }
    }
}

/// Field changes with the field names as text.
pub open spec fn changes_view<V>(s: Seq<(String, V)>) -> Seq<(Seq<char>, V)> {
    s.map_values(|p: (String, V)| (p.0@, p.1))
}

/// `map` with the variables of `list` pointing at `new_id`, keeping their fields.
pub open spec fn spec_repoint(map: Map<usize, (i64, String)>, list: Seq<usize>, new_id: i64) -> Map<usize, (i64, String)> {
    Map::new(|v: usize| map.contains_key(v), |v: usize| if list.contains(v) { (new_id, map[v].1) } else { map[v] })
}

/// One committed replacement of fact `old_id` by fact `new_id`: the
/// variables listed for `old_id` point at `new_id`, keeping their fields,
/// and their list moves to `new_id`. Nothing changes when no list is kept
/// for `old_id`.
pub open spec fn spec_replaced(
    map: Map<usize, (i64, String)>,
    rev: Map<i64, Seq<usize>>,
    old_id: i64,
    new_id: i64,
) -> (Map<usize, (i64, String)>, Map<i64, Seq<usize>>) {
    if rev.contains_key(old_id) {
        (spec_repoint(map, rev[old_id], new_id), rev.remove(old_id).insert(new_id, rev[old_id]))
    } else {
        (map, rev)
    }
}

/// The replacements of `pairs` (old id, new id), made one after another.
pub open spec fn spec_replaced_all(
    map: Map<usize, (i64, String)>,
    rev: Map<i64, Seq<usize>>,
    pairs: Seq<(i64, i64)>,
) -> (Map<usize, (i64, String)>, Map<i64, Seq<usize>>)
    decreases pairs.len(),
{
    if pairs.len() == 0 {
        (map, rev)
    } else {
        let prev = spec_replaced_all(map, rev, pairs.drop_last());
        spec_replaced(prev.0, prev.1, pairs.last().0, pairs.last().1)
    }
}

/// What fact `f` becomes under `pairs`: the new id of the pair whose old id
/// is `f`, or `f` itself.
pub open spec fn spec_replacement(pairs: Seq<(i64, i64)>, f: i64) -> i64 {
    if exists|i: int| 0 <= i < pairs.len() && pairs[i].0 == f {
        pairs[choose|i: int| 0 <= i < pairs.len() && pairs[i].0 == f].1
    } else {
        f
    }
}

/// The pairs rename facts without clashes: old ids differ, new ids differ,
/// no new id is another pair's old id, and a new id is a fact of the index
/// only when it is its own old id.
pub open spec fn spec_clash_free(rev: Map<i64, Seq<usize>>, pairs: Seq<(i64, i64)>) -> bool {
    &&& forall|a: int, b: int| 0 <= a < b < pairs.len() ==> pairs[a].0 != pairs[b].0 && pairs[a].1 != pairs[b].1
    &&& forall|a: int, b: int| 0 <= a < pairs.len() && 0 <= b < pairs.len() && pairs[a].1 == pairs[b].0 ==> a == b
    &&& forall|a: int| 0 <= a < pairs.len() && rev.contains_key(#[trigger] pairs[a].1) ==> pairs[a].1 == pairs[a].0
}

/// Replacing a fact by one that the index does not hold (or by itself)
/// keeps the reverse index matching, and makes exactly the variables that
/// pointed at the old fact point at the new one, with their fields.
pub proof fn lemma_replace_keeps_reverse(map: Map<usize, (i64, String)>, rev: Map<i64, Seq<usize>>, old_id: i64, new_id: i64)
    requires
        is_reverse_of(map, rev),
        new_id == old_id || !rev.contains_key(new_id),
    ensures
        is_reverse_of(spec_replaced(map, rev, old_id, new_id).0, spec_replaced(map, rev, old_id, new_id).1),
        spec_replaced(map, rev, old_id, new_id).0.dom() == map.dom(),
        forall|v: usize| #[trigger] map.contains_key(v) ==> spec_replaced(map, rev, old_id, new_id).0[v]
            == if map[v].0 == old_id { (new_id, map[v].1) } else { map[v] },
{
    let (m2, r2) = spec_replaced(map, rev, old_id, new_id);
    if rev.contains_key(old_id) {
        let list = rev[old_id];
        assert forall|v: usize| map.contains_key(v) implies (list.contains(v) <==> map[v].0 == old_id) by {
            if list.contains(v) {
                let i = choose|i: int| 0 <= i < list.len() && list[i] == v;
                assert(map.contains_key(rev[old_id][i]));
            }
        }
        assert(m2.dom() =~= map.dom());
        assert forall|v: usize| #[trigger] m2.contains_key(v) implies r2.contains_key(m2[v].0) && r2[m2[v].0].contains(v) by {
            assert(map.contains_key(v));
            assert(rev.contains_key(map[v].0));
        }
        assert forall|f: i64, i: int| r2.contains_key(f) && 0 <= i < r2[f].len()
            implies m2.contains_key(#[trigger] r2[f][i]) && m2[r2[f][i]].0 == f by {
            if f == new_id {
                assert(map.contains_key(list[i]) && map[list[i]].0 == old_id);
                assert(list.contains(list[i]));
            } else {
                assert(rev.contains_key(f) && r2[f] == rev[f]);
                assert(map.contains_key(rev[f][i]) && map[rev[f][i]].0 == f);
            }
        }
    } else {
        assert forall|v: usize| #[trigger] map.contains_key(v) implies map[v].0 != old_id by {
            assert(rev.contains_key(map[v].0));
        }
    }
}

/// A clash-free batch of replacements, made one after another, keeps the
/// reverse index matching and makes each variable point at what its fact
/// became, with its field.
pub proof fn lemma_commit_replacements(map: Map<usize, (i64, String)>, rev: Map<i64, Seq<usize>>, pairs: Seq<(i64, i64)>)
    requires
        is_reverse_of(map, rev),
        spec_clash_free(rev, pairs),
    ensures
        is_reverse_of(spec_replaced_all(map, rev, pairs).0, spec_replaced_all(map, rev, pairs).1),
        spec_replaced_all(map, rev, pairs).0.dom() == map.dom(),
        forall|v: usize| #[trigger] map.contains_key(v) ==> spec_replaced_all(map, rev, pairs).0[v]
            == (spec_replacement(pairs, map[v].0), map[v].1),
    decreases pairs.len(),
{
    if pairs.len() == 0 {
        assert forall|v: usize| #[trigger] map.contains_key(v) implies map[v] == (spec_replacement(pairs, map[v].0), map[v].1) by {}
    } else {
        let prefix = pairs.drop_last();
        let k = pairs.len() - 1;
        let (o, n) = pairs.last();
        assert forall|a: int| 0 <= a < prefix.len() implies #[trigger] prefix[a] == pairs[a] by {}
        lemma_commit_replacements(map, rev, prefix);
        let (mk, rk) = spec_replaced_all(map, rev, prefix);
        assert(n == o || !rk.contains_key(n)) by {
            if rk.contains_key(n) && n != o {
                let v = rk[n][0];
                assert(mk.contains_key(v) && mk[v].0 == n);
                let g = map[v].0;
                if exists|i: int| 0 <= i < prefix.len() && prefix[i].0 == g {
                    let c = choose|i: int| 0 <= i < prefix.len() && prefix[i].0 == g;
                    assert(pairs[c].1 == pairs[k].1);
                } else {
                    assert(rev.contains_key(g));
                    assert(pairs[k].1 == n);
                }
            }
        }
        lemma_replace_keeps_reverse(mk, rk, o, n);
        assert forall|v: usize| #[trigger] map.contains_key(v) implies spec_replaced_all(map, rev, pairs).0[v]
            == (spec_replacement(pairs, map[v].0), map[v].1) by {
            let g = map[v].0;
            assert(mk.contains_key(v));
            if exists|i: int| 0 <= i < prefix.len() && prefix[i].0 == g {
                let c = choose|i: int| 0 <= i < prefix.len() && prefix[i].0 == g;
                let d = choose|i: int| 0 <= i < pairs.len() && pairs[i].0 == g;
                assert(pairs[c].0 == g);
                assert(c == d);
                assert(mk[v].0 == pairs[c].1);
                assert(pairs[c].1 != o);
            } else if g == o {
                let d = choose|i: int| 0 <= i < pairs.len() && pairs[i].0 == g;
                assert(pairs[k].0 == g);
                assert(d == k);
            } else {
                assert(!exists|i: int| 0 <= i < pairs.len() && pairs[i].0 == g) by {
                    if exists|i: int| 0 <= i < pairs.len() && pairs[i].0 == g {
                        let d = choose|i: int| 0 <= i < pairs.len() && pairs[i].0 == g;
                        assert(d != k);
                        assert(prefix[d].0 == g);
                    }
                }
            }
        }
    }
}

/// Maps a solver variable to the fact it belongs to (by id) and the field it
/// sets, and each fact to the variables that point at it.
pub struct EntityIndex {
    pub var_idx_to_entity_map: FxHashMap<usize, (i64, String)>,
    entity_id_to_var_indices: FxHashMap<i64, Vec<usize>>,
}

impl EntityIndex {
    /// Variable index to (fact id, field name).
    pub closed spec fn entities(&self) -> Map<usize, (i64, String)> {
        self.var_idx_to_entity_map@
    }

    /// Fact id to the variables that point at it.
    pub closed spec fn reverse(&self) -> Map<i64, Seq<usize>> {
        self.entity_id_to_var_indices@.map_values(|v: Vec<usize>| v@)
    }

    /// The reverse index matches the variables.
    pub open spec fn wf(&self) -> bool {
        is_reverse_of(self.entities(), self.reverse())
    }

    /// No variables.
    pub fn new() -> (r: Self)
        ensures
            r.entities() == Map::<usize, (i64, String)>::empty(),
            r.reverse() == Map::<i64, Seq<usize>>::empty(),
            r.wf(),
    {
        let r = EntityIndex { var_idx_to_entity_map: fx_map_new(), entity_id_to_var_indices: fx_map_new() };
        assert(r.entities() =~= Map::<usize, (i64, String)>::empty());
        assert(r.reverse() =~= Map::<i64, Seq<usize>>::empty());
        r
    }

    /// The variables of entity groups, numbered in order (see
    /// `build_variables_info`): variable `i`, at slot `(g, e, k)`, sets the
    /// field named after attribute `k` of entity `e` of group `g`, in the
    /// fact `fact_ids[g][e]` of that entity; the reverse index is built.
    pub fn from_groups(groups: &Vec<EntityGroup>, fact_ids: &Vec<Vec<i64>>) -> (r: Self)
        requires
            fact_ids@.len() == groups@.len(),
            forall|g: int| 0 <= g < groups@.len() ==> (#[trigger] fact_ids@[g])@.len() == groups@[g].entities@.len(),
        ensures
            r.wf(),
            forall|v: usize| #[trigger] r.entities().contains_key(v)
                <==> v < spec_group_slots(groups@, groups@.len() as int).len(),
            forall|v: usize| #![trigger r.entities()[v]] v < spec_group_slots(groups@, groups@.len() as int).len() ==> {
                let s = spec_group_slots(groups@, groups@.len() as int)[v as int];
                &&& r.entities()[v].0 == fact_ids@[s.0 as int]@[s.1 as int]
                &&& r.entities()[v].1@ == groups@[s.0 as int].entities@[s.1 as int]@[s.2 as int].name@
            },
    {
        sizes_fit(groups);
        let vars = build_variables_info(groups);
        let ghost slots = spec_group_slots(groups@, groups@.len() as int);
        proof {
            lemma_group_slots_valid(groups@, groups@.len() as int);
        }
        let mut entities: Vec<(i64, String)> = Vec::new();
        let mut i: usize = 0;
        while i < vars.len()
            invariant
                i <= vars@.len() == slots.len(),
                fact_ids@.len() == groups@.len(),
                forall|g: int| 0 <= g < groups@.len() ==> (#[trigger] fact_ids@[g])@.len() == groups@[g].entities@.len(),
                forall|q: int| 0 <= q < vars@.len() ==> spec_variable_at(groups@, vars@, q, #[trigger] slots[q]),
                forall|q: int| 0 <= q < slots.len() ==> {
                    let s = #[trigger] slots[q];
                    &&& s.0 < groups@.len()
                    &&& s.1 < groups@[s.0 as int].entities@.len()
                    &&& s.2 < groups@[s.0 as int].entities@[s.1 as int]@.len()
                },
                entities@.len() == i,
                forall|q: int| 0 <= q < i ==> {
                    let s = slots[q];
                    &&& (#[trigger] entities@[q]).0 == fact_ids@[s.0 as int]@[s.1 as int]
                    &&& entities@[q].1@ == groups@[s.0 as int].entities@[s.1 as int]@[s.2 as int].name@
                },
            decreases vars.len() - i,
        {
            let slot = vars[i].1;
            proof {
                assert(spec_variable_at(groups@, vars@, i as int, slots[i as int]));
                assert(slot == slots[i as int]);
            }
            let fact_id = fact_ids[slot.0][slot.1];
            let name = groups[slot.0].entities[slot.1][slot.2].name.clone();
            entities.push((fact_id, name));
            i = i + 1;
        }
        EntityIndex::from_variables(&entities)
    }

    /// The variables numbered in order: variable `i` sets field
    /// `entities[i].1` of fact `entities[i].0`; the reverse index is built.
    pub fn from_variables(entities: &Vec<(i64, String)>) -> (r: Self)
        ensures
            forall|v: usize| #[trigger] r.entities().contains_key(v) <==> v < entities@.len(),
            forall|v: usize| #![trigger r.entities()[v]] v < entities@.len() ==> r.entities()[v].0 == entities@[v as int].0
                && r.entities()[v].1@ == entities@[v as int].1@,
            r.wf(),
    {
        let mut r = EntityIndex::new();
        let mut i: usize = 0;
        while i < entities.len()
            invariant
                i <= entities@.len(),
                forall|v: usize| #[trigger] r.entities().contains_key(v) <==> v < i,
                forall|v: usize| #![trigger r.entities()[v]] v < i ==> r.entities()[v].0 == entities@[v as int].0
                    && r.entities()[v].1@ == entities@[v as int].1@,
            decreases entities.len() - i,
        {
            let fact_id = entities[i].0;
            let attr = entities[i].1.clone();
            let ghost before = r.entities();
            fx_map_insert(&mut r.var_idx_to_entity_map, i, (fact_id, attr));
            proof {
                assert(r.entities() == before.insert(i, (fact_id, attr)));
                assert forall|v: usize| #[trigger] r.entities().contains_key(v) <==> v < i + 1 by {
                    if v != i {
                        assert(r.entities().contains_key(v) == before.contains_key(v));
                    }
                }
                assert forall|v: usize| v < i + 1 implies #[trigger] r.entities()[v].0 == entities@[v as int].0
                    && r.entities()[v].1@ == entities@[v as int].1@ by {
                    if v != i {
                        assert(r.entities()[v] == before[v]);
                    }
                }
            }
            i = i + 1;
        }
        r.rebuild_reverse_index();
        r
    }

    /// Groups the deltas by the fact they change: one entry per fact that
    /// some delta's variable points at, with the field changes for it in the
    /// order of the deltas. Deltas of unknown variables are skipped. The
    /// order of the entries follows the hash map they are gathered in.
    pub fn group_deltas<V: Copy>(&self, deltas: &Vec<(usize, V)>) -> (r: Vec<(i64, Vec<(String, V)>)>)
        ensures
            forall|a: int, b: int| 0 <= a < b < r@.len() ==> r@[a].0 != r@[b].0,
            forall|a: int| 0 <= a < r@.len() ==> spec_touched(self.entities(), deltas@).contains(#[trigger] r@[a].0),
            forall|f: i64| #[trigger] spec_touched(self.entities(), deltas@).contains(f) ==> exists|a: int| 0 <= a < r@.len() && r@[a].0 == f,
            forall|a: int| 0 <= a < r@.len() ==> changes_view((#[trigger] r@[a]).1@) == spec_fact_changes(self.entities(), deltas@, r@[a].0),
    {
        let ghost map = self.entities();
        let mut grouped: FxHashMap<i64, Vec<(String, V)>> = fx_map_new();
        let mut i: usize = 0;
        while i < deltas.len()
            invariant
                map == self.entities(),
                i <= deltas@.len(),
                forall|f: i64| #[trigger] grouped@.contains_key(f) <==> spec_touched(map, deltas@.take(i as int)).contains(f),
                forall|f: i64| #[trigger] grouped@.contains_key(f) ==> changes_view(grouped@[f]@) == spec_fact_changes(map, deltas@.take(i as int), f),
            decreases deltas.len() - i,
        {
            let (var_idx, value) = deltas[i];
            let ghost prefix = deltas@.take(i as int);
            let ghost next = deltas@.take(i + 1);
            assert(next.drop_last() == prefix);
            assert(next.last() == (var_idx, value));
            match fx_map_get_ref(&self.var_idx_to_entity_map, var_idx) {
                Some(entry) => {
                    let fact_id = entry.0;
                    let attr = entry.1.clone();
                    let ghost old_grouped = grouped@;
                    let mut changes = match fx_map_remove(&mut grouped, fact_id) {
                        Some(c) => c,
                        None => Vec::new(),
                    };
                    let ghost before = changes@;
                    changes.push((attr, value));
                    assert(changes_view(changes@) == changes_view(before).push((map[var_idx].1@, value)));
                    fx_map_insert(&mut grouped, fact_id, changes);
                    proof {
                        assert forall|f: i64| #[trigger] grouped@.contains_key(f) <==> spec_touched(map, next).contains(f) by {
                            if spec_touched(map, prefix).contains(f) {
                                let k = choose|k: int| 0 <= k < prefix.len() && map.contains_key(prefix[k].0) && map[prefix[k].0].0 == f;
                                assert(next[k] == prefix[k]);
                            }
                            if spec_touched(map, next).contains(f) && f != fact_id {
                                let k = choose|k: int| 0 <= k < next.len() && map.contains_key(next[k].0) && map[next[k].0].0 == f;
                                assert(k < i);
                                assert(prefix[k] == next[k]);
                            }
                            if f == fact_id {
                                assert(map.contains_key(next[i as int].0) && map[next[i as int].0].0 == f);
                            }
                        }
                        assert forall|f: i64| #[trigger] grouped@.contains_key(f) implies changes_view(grouped@[f]@) == spec_fact_changes(map, next, f) by {
                            if f == fact_id {
                                if old_grouped.contains_key(f) {
                                    assert(before == old_grouped[f]@);
                                } else {
                                    assert(!spec_touched(map, prefix).contains(f));
                                    lemma_untouched_no_changes(map, prefix, f);
                                    assert(changes_view(before) =~= Seq::<(Seq<char>, V)>::empty());
                                }
                            } else {
                                assert(grouped@[f] == old_grouped[f]);
                            }
                        }
                    }
                },
                None => {
                    proof {
                        assert forall|f: i64| #[trigger] grouped@.contains_key(f) <==> spec_touched(map, next).contains(f) by {
                            if spec_touched(map, prefix).contains(f) {
                                let k = choose|k: int| 0 <= k < prefix.len() && map.contains_key(prefix[k].0) && map[prefix[k].0].0 == f;
                                assert(next[k] == prefix[k]);
                            }
                            if spec_touched(map, next).contains(f) {
                                let k = choose|k: int| 0 <= k < next.len() && map.contains_key(next[k].0) && map[next[k].0].0 == f;
                                assert(k < i);
                                assert(prefix[k] == next[k]);
                            }
                        }
                    }
                },
            }
            i = i + 1;
        }
        assert(deltas@.take(deltas@.len() as int) == deltas@);
        let ghost all = grouped@;
        let keys = fx_map_keys(&grouped);
        let mut r: Vec<(i64, Vec<(String, V)>)> = Vec::new();
        let mut j: usize = 0;
        while j < keys.len()
            invariant
                keys@.to_set() == all.dom(),
                keys@.no_duplicates(),
                j <= keys@.len(),
                r@.len() == j,
                forall|a: int| 0 <= a < j ==> (#[trigger] r@[a]).0 == keys@[a] && r@[a].1 == all[keys@[a]],
                forall|f: i64| #[trigger] grouped@.contains_key(f) <==> (all.contains_key(f) && !keys@.take(j as int).contains(f)),
                forall|f: i64| #[trigger] grouped@.contains_key(f) ==> grouped@[f] == all[f],
            decreases keys.len() - j,
        {
            let key = keys[j];
            assert(keys@.to_set().contains(key));
            assert(!keys@.take(j as int).contains(key)) by {
                if keys@.take(j as int).contains(key) {
                    let k = choose|k: int| 0 <= k < j && keys@.take(j as int)[k] == key;
                    assert(keys@[k] == keys@[j as int]);
                }
            }
            let changes = fx_map_remove(&mut grouped, key).unwrap();
            r.push((key, changes));
            proof {
                let taken = keys@.take(j as int);
                assert(keys@.take(j + 1) == taken.push(key));
                assert forall|f: i64| #[trigger] grouped@.contains_key(f) <==> (all.contains_key(f) && !keys@.take(j + 1).contains(f)) by {
                    if taken.push(key).contains(f) && f != key {
                        let k = choose|k: int| 0 <= k < j + 1 && taken.push(key)[k] == f;
                        assert(taken[k] == f);
                    }
                    if taken.contains(f) {
                        let k = choose|k: int| 0 <= k < j && taken[k] == f;
                        assert(taken.push(key)[k] == f);
                    }
                    assert(taken.push(key)[j as int] == key);
                }
            }
            j = j + 1;
        }
        proof {
            assert forall|a: int, b: int| 0 <= a < b < r@.len() implies r@[a].0 != r@[b].0 by {
                assert(r@[a].0 == keys@[a] && r@[b].0 == keys@[b]);
            }
            assert forall|a: int| 0 <= a < r@.len() implies spec_touched(map, deltas@).contains(#[trigger] r@[a].0) by {
                assert(r@[a].0 == keys@[a]);
                assert(keys@.to_set().contains(keys@[a]));
            }
            assert forall|f: i64| #[trigger] spec_touched(map, deltas@).contains(f) implies exists|a: int| 0 <= a < r@.len() && r@[a].0 == f by {
                assert(keys@.to_set().contains(f));
                let a = choose|a: int| 0 <= a < keys@.len() && keys@[a] == f;
                assert(r@[a].0 == f);
            }
            assert forall|a: int| 0 <= a < r@.len() implies changes_view((#[trigger] r@[a]).1@) == spec_fact_changes(map, deltas@, r@[a].0) by {
                assert(keys@.to_set().contains(keys@[a]));
            }
        }
        r
    }

    /// Fact `old_id` was replaced by fact `new_id`: the variables listed for
    /// it now point at the new fact, and their list moves to the new id.
    pub fn replace_entity(&mut self, old_id: i64, new_id: i64)
        ensures
            (final(self).entities(), final(self).reverse()) == spec_replaced(old(self).entities(), old(self).reverse(), old_id, new_id),
            old(self).wf() && (new_id == old_id || !old(self).reverse().contains_key(new_id)) ==> final(self).wf(),
    {
        proof {
            if self.wf() && (new_id == old_id || !self.reverse().contains_key(new_id)) {
                lemma_replace_keeps_reverse(self.entities(), self.reverse(), old_id, new_id);
            }
        }
        let ghost map0 = self.entities();
        let ghost rev_exec0 = self.entity_id_to_var_indices@;
        let ghost rev0 = self.reverse();
        match fx_map_remove(&mut self.entity_id_to_var_indices, old_id) {
            Some(vars) => {
                assert(rev0.contains_key(old_id) && rev0[old_id] == vars@);
                let mut j: usize = 0;
                while j < vars.len()
                    invariant
                        j <= vars@.len(),
                        self.entities() == spec_repoint(map0, vars@.take(j as int), new_id),
                        self.entity_id_to_var_indices@ == rev_exec0.remove(old_id),
                    decreases vars.len() - j,
                {
                    let v = vars[j];
                    let ghost before = self.entities();
                    match fx_map_remove(&mut self.var_idx_to_entity_map, v) {
                        Some(entry) => {
                            let (_, attr) = entry;
                            fx_map_insert(&mut self.var_idx_to_entity_map, v, (new_id, attr));
                        },
                        None => {},
                    }
                    proof {
                        let next = vars@.take(j + 1);
                        assert(next == vars@.take(j as int).push(v));
                        assert forall|u: usize| #[trigger] next.contains(u) <==> (vars@.take(j as int).contains(u) || u == v) by {
                            if next.contains(u) && u != v {
                                let k = choose|k: int| 0 <= k < next.len() && next[k] == u;
                                assert(vars@.take(j as int)[k] == u);
                            }
                            if vars@.take(j as int).contains(u) {
                                let k = choose|k: int| 0 <= k < j && vars@.take(j as int)[k] == u;
                                assert(next[k] == u);
                            }
                            assert(next[j as int] == v);
                        }
                        assert(self.entities() =~= spec_repoint(map0, next, new_id));
                    }
                    j = j + 1;
                }
                assert(vars@.take(vars@.len() as int) == vars@);
                fx_map_insert(&mut self.entity_id_to_var_indices, new_id, vars);
                assert(self.reverse() =~= rev0.remove(old_id).insert(new_id, rev0[old_id]));
            },
            None => {
                assert(!rev0.contains_key(old_id));
                assert(self.entities() == map0);
                assert(self.reverse() =~= rev0);
            },
        }
    }

    /// The facts of `pairs` (old id, new id) were replaced, in order; each
    /// replacement is made as `replace_entity` makes it.
    pub fn commit_replacements(&mut self, pairs: &Vec<(i64, i64)>)
        ensures
            (final(self).entities(), final(self).reverse()) == spec_replaced_all(old(self).entities(), old(self).reverse(), pairs@),
            old(self).wf() && spec_clash_free(old(self).reverse(), pairs@) ==> final(self).wf(),
    {
        proof {
            if self.wf() && spec_clash_free(self.reverse(), pairs@) {
                lemma_commit_replacements(self.entities(), self.reverse(), pairs@);
            }
        }
        let ghost map0 = self.entities();
        let ghost rev0 = self.reverse();
        let mut k: usize = 0;
        while k < pairs.len()
            invariant
                k <= pairs@.len(),
                (self.entities(), self.reverse()) == spec_replaced_all(map0, rev0, pairs@.take(k as int)),
            decreases pairs.len() - k,
        {
            let (old_id, new_id) = pairs[k];
            self.replace_entity(old_id, new_id);
            proof {
                let next = pairs@.take(k + 1);
                assert(next.drop_last() == pairs@.take(k as int));
                assert(next.last() == (old_id, new_id));
            }
            k = k + 1;
        }
        assert(pairs@.take(pairs@.len() as int) == pairs@);
    }

    /// Rebuilds the reverse index from the variables.
    pub fn rebuild_reverse_index(&mut self)
        ensures
            final(self).entities() == old(self).entities(),
            final(self).wf(),
    {
        let ghost map = self.entities();
        let keys = fx_map_keys(&self.var_idx_to_entity_map);
        let mut rev: FxHashMap<i64, Vec<usize>> = fx_map_new();
        let mut j: usize = 0;
        while j < keys.len()
            invariant
                map == self.var_idx_to_entity_map@,
                keys@.to_set() == map.dom(),
                keys@.no_duplicates(),
                j <= keys@.len(),
                forall|f: i64| #[trigger] rev@.contains_key(f) ==> rev@[f]@.len() > 0,
                forall|t: int| 0 <= t < j ==> rev@.contains_key(#[trigger] map[keys@[t]].0)
                    && rev@[map[keys@[t]].0]@.contains(keys@[t]),
                forall|f: i64| #[trigger] rev@.contains_key(f) ==> rev@[f]@.no_duplicates(),
                forall|f: i64, i: int| rev@.contains_key(f) && 0 <= i < rev@[f]@.len()
                    ==> map.contains_key(#[trigger] rev@[f]@[i]) && map[rev@[f]@[i]].0 == f,
                forall|f: i64, i: int, t: int| rev@.contains_key(f) && 0 <= i < rev@[f]@.len() && j <= t < keys@.len()
                    ==> #[trigger] rev@[f]@[i] != #[trigger] keys@[t],
            decreases keys.len() - j,
        {
            let v = keys[j];
            assert(keys@.to_set().contains(v));
            let entry = fx_map_get_ref(&self.var_idx_to_entity_map, v);
            let fact_id = entry.unwrap().0;
            let ghost old_rev = rev@;
            let mut vars = match fx_map_remove(&mut rev, fact_id) {
                Some(vars) => vars,
                None => Vec::new(),
            };
            let ghost before = vars@;
            assert(!before.contains(v)) by {
                if before.contains(v) {
                    let i = choose|i: int| 0 <= i < before.len() && before[i] == v;
                    assert(old_rev.contains_key(fact_id) && 0 <= i < old_rev[fact_id]@.len());
                    assert(old_rev[fact_id]@[i] != keys@[j as int]);
                }
            }
            vars.push(v);
            fx_map_insert(&mut rev, fact_id, vars);
            proof {
                assert forall|f: i64| #[trigger] rev@.contains_key(f) implies rev@[f]@.len() > 0 by {
                    if f != fact_id {
                        assert(old_rev.contains_key(f));
                    }
                }
                assert forall|f: i64| #[trigger] rev@.contains_key(f) implies rev@[f]@.no_duplicates() by {
                    if f != fact_id {
                        assert(old_rev.contains_key(f));
                    } else {
                        assert forall|a: int, b: int| 0 <= a < b < rev@[f]@.len() implies rev@[f]@[a] != rev@[f]@[b] by {
                            if b == before.len() {
                                assert(before.contains(before[a]));
                            }
                        }
                    }
                }
                assert forall|t: int| 0 <= t < j + 1 implies rev@.contains_key(#[trigger] map[keys@[t]].0)
                    && rev@[map[keys@[t]].0]@.contains(keys@[t]) by {
                    if t < j && map[keys@[t]].0 == fact_id {
                        let k = choose|k: int| 0 <= k < before.len() && before[k] == keys@[t];
                        assert(rev@[fact_id]@[k] == keys@[t]);
                    } else if t == j {
                        assert(rev@[fact_id]@[before.len() as int] == v);
                    }
                }
                assert forall|f: i64, i: int| rev@.contains_key(f) && 0 <= i < rev@[f]@.len()
                    implies map.contains_key(#[trigger] rev@[f]@[i]) && map[rev@[f]@[i]].0 == f by {
                    if f == fact_id && i == before.len() {
                        assert(rev@[f]@[i] == v);
                    } else {
                        assert(old_rev.contains_key(f) && old_rev[f]@[i] == rev@[f]@[i]);
                    }
                }
                assert forall|f: i64, i: int, t: int| rev@.contains_key(f) && 0 <= i < rev@[f]@.len() && j + 1 <= t < keys@.len()
                    implies #[trigger] rev@[f]@[i] != #[trigger] keys@[t] by {
                    if f == fact_id && i == before.len() {
                        assert(rev@[f]@[i] == keys@[j as int]);
                    } else {
                        assert(old_rev.contains_key(f) && old_rev[f]@[i] == rev@[f]@[i]);
                    }
                }
            }
            j = j + 1;
        }
        self.entity_id_to_var_indices = rev;
        proof {
            let rv = self.reverse();
            assert forall|v: usize| #[trigger] map.contains_key(v) implies rv.contains_key(map[v].0) && rv[map[v].0].contains(v) by {
                assert(keys@.to_set().contains(v));
                let t = choose|t: int| 0 <= t < keys@.len() && keys@[t] == v;
                assert(rev@.contains_key(map[keys@[t]].0));
            }
            assert forall|f: i64, i: int| rv.contains_key(f) && 0 <= i < rv[f].len()
                implies map.contains_key(#[trigger] rv[f][i]) && map[rv[f][i]].0 == f by {
                assert(rv[f][i] == rev@[f]@[i]);
            }
        }
    }
}

} // verus!
