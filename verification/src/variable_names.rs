//! The planning variables of a problem's entities, numbered in order, and
//! their names `"<group>: <index>--><attribute>"`.
use vstd::prelude::*;
use crate::columns::{occurs_at, table_separator, column_separator, is_prefix_before_first, is_suffix_after_last};

verus! {

/// The decimal digits of `n`, most significant first.
pub open spec fn spec_decimal(n: nat) -> Seq<char>
    decreases n,
{
    if n < 10 {
        seq![spec_digit(n)]
    } else {
        spec_decimal(n / 10).push(spec_digit(n % 10))
    }
}

/// The character of the digit `d`.
pub open spec fn spec_digit(d: nat) -> char {
    (48 + d) as char
}

/// The name of variable `index` of attribute `attribute` in entity group `group`.
pub open spec fn spec_variable_name(group: Seq<char>, index: nat, attribute: Seq<char>) -> Seq<char> {
    group + table_separator() + spec_decimal(index) + column_separator() + attribute
}

/// The text of the digit `d`.
fn digit_text(d: usize) -> (r: &'static str)
    requires
        d < 10,
    ensures
        r@ == seq![spec_digit(d as nat)],
{
    proof {
        reveal_strlit("0");
        reveal_strlit("1");
        reveal_strlit("2");
        reveal_strlit("3");
        reveal_strlit("4");
        reveal_strlit("5");
        reveal_strlit("6");
        reveal_strlit("7");
        reveal_strlit("8");
        reveal_strlit("9");
    }
    if d == 0 {
        "0"
    } else if d == 1 {
        "1"
    } else if d == 2 {
        "2"
    } else if d == 3 {
        "3"
    } else if d == 4 {
        "4"
    } else if d == 5 {
        "5"
    } else if d == 6 {
        "6"
    } else if d == 7 {
        "7"
    } else if d == 8 {
        "8"
    } else {
        "9"
    }
}

/// The decimal text of `n`, most significant digit first.
fn decimal_text(n: usize) -> (r: String)
    ensures
        r@ == spec_decimal(n as nat),
    decreases n,
{
    if n < 10 {
        String::from_str(digit_text(n))
    } else {
        let head = decimal_text(n / 10);
        head.concat(digit_text(n % 10))
    }
}

/// The name of variable `index` of attribute `attribute` in group `group`:
/// the group, `": "`, the index in decimal, `"-->"` and the attribute.
fn format_variable_name(group: &String, index: usize, attribute: &String) -> (r: String)
    ensures
        r@ == spec_variable_name(group@, index as nat, attribute@),
{
    proof {
        reveal_strlit(": ");
        reveal_strlit("-->");
    }
    let digits = decimal_text(index);
    let name = group.clone().concat(": ").concat(digits.as_str()).concat("-->").concat(attribute.as_str());
    assert(name@ =~= spec_variable_name(group@, index as nat, attribute@));
    name
}

/// An attribute of a planning entity: its name, and whether it is a planning
/// variable (a float or integer value the solver chooses) or a fixed value.
pub struct EntityAttribute {
    pub name: String,
    pub is_variable: bool,
}

/// A named group of planning entities, each given by its attributes.
pub struct EntityGroup {
    pub name: String,
    pub entities: Vec<Vec<EntityAttribute>>,
}

/// Where a variable comes from: group, entity within the group, attribute
/// within the entity.
pub type Slot = (usize, usize, usize);

/// The variable attributes among the first `k` attributes of entity `e` of
/// group `g`, in order.
pub open spec fn spec_attr_slots(attrs: Seq<EntityAttribute>, g: usize, e: usize, k: int) -> Seq<Slot>
    decreases k,
{
    if k <= 0 {
        Seq::empty()
    } else {
        let prev = spec_attr_slots(attrs, g, e, k - 1);
        if attrs[k - 1].is_variable {
            prev.push((g, e, (k - 1) as usize))
        } else {
            prev
        }
    }
}

/// The variable attributes of the first `m` entities of group `g`, in order.
pub open spec fn spec_entity_slots(group: EntityGroup, g: usize, m: int) -> Seq<Slot>
    decreases m,
{
    if m <= 0 {
        Seq::empty()
    } else {
        let attrs = group.entities@[m - 1]@;
        spec_entity_slots(group, g, m - 1) + spec_attr_slots(attrs, g, (m - 1) as usize, attrs.len() as int)
    }
}

/// The variable attributes of the first `n` groups, in order: the problem's
/// variables, numbered from 0.
pub open spec fn spec_group_slots(groups: Seq<EntityGroup>, n: int) -> Seq<Slot>
    decreases n,
{
    if n <= 0 {
        Seq::empty()
    } else {
        let group = groups[n - 1];
        spec_group_slots(groups, n - 1) + spec_entity_slots(group, (n - 1) as usize, group.entities@.len() as int)
    }
}

/// The variable at position `i` of `vars` comes from `slot` and is named
/// after its group, its number and its attribute.
pub open spec fn spec_variable_at(groups: Seq<EntityGroup>, vars: Seq<(String, Slot)>, i: int, slot: Slot) -> bool {
    &&& vars[i].1 == slot
    &&& vars[i].0@ == spec_variable_name(
        groups[slot.0 as int].name@, i as nat, groups[slot.0 as int].entities@[slot.1 as int]@[slot.2 as int].name@)
}

/// The problem's variables in order, each with its name and where it comes
/// from: for each group, each entity and each of its attributes that is a
/// variable, the next number.
pub fn build_variables_info(groups: &Vec<EntityGroup>) -> (r: Vec<(String, Slot)>)
    ensures
        r@.len() == spec_group_slots(groups@, groups@.len() as int).len(),
        forall|i: int| 0 <= i < r@.len() ==> spec_variable_at(groups@, r@, i,
            #[trigger] spec_group_slots(groups@, groups@.len() as int)[i]),
{
    let mut r: Vec<(String, Slot)> = Vec::new();
    let mut g: usize = 0;
    while g < groups.len()
        invariant
            g <= groups@.len(),
            r@.len() == spec_group_slots(groups@, g as int).len(),
            forall|i: int| 0 <= i < r@.len() ==> spec_variable_at(groups@, r@, i,
                #[trigger] spec_group_slots(groups@, g as int)[i]),
        decreases groups.len() - g,
    {
        let group = &groups[g];
        let ghost before_group = spec_group_slots(groups@, g as int);
        let mut e: usize = 0;
        while e < group.entities.len()
            invariant
                g < groups@.len(),
                *group == groups@[g as int],
                e <= group.entities@.len(),
                r@.len() == (before_group + spec_entity_slots(*group, g, e as int)).len(),
                forall|i: int| 0 <= i < r@.len() ==> spec_variable_at(groups@, r@, i,
                    #[trigger] (before_group + spec_entity_slots(*group, g, e as int))[i]),
            decreases group.entities.len() - e,
        {
            let attrs = &group.entities[e];
            let ghost before_entity = before_group + spec_entity_slots(*group, g, e as int);
            let mut k: usize = 0;
            while k < attrs.len()
                invariant
                    g < groups@.len(),
                    *group == groups@[g as int],
                    e < group.entities@.len(),
                    *attrs == group.entities@[e as int],
                    k <= attrs@.len(),
                    r@.len() == (before_entity + spec_attr_slots(attrs@, g, e, k as int)).len(),
                    forall|i: int| 0 <= i < r@.len() ==> spec_variable_at(groups@, r@, i,
                        #[trigger] (before_entity + spec_attr_slots(attrs@, g, e, k as int))[i]),
                decreases attrs.len() - k,
            {
                let ghost prev = before_entity + spec_attr_slots(attrs@, g, e, k as int);
                if attrs[k].is_variable {
                    let i = r.len();
                    let name = format_variable_name(&group.name, i, &attrs[k].name);
                    r.push((name, (g, e, k)));
                    proof {
                        assert(before_entity + spec_attr_slots(attrs@, g, e, k + 1) =~= prev.push((g, e, k)));
                        assert forall|q: int| 0 <= q < r@.len() implies spec_variable_at(groups@, r@, q,
                            #[trigger] (before_entity + spec_attr_slots(attrs@, g, e, k + 1))[q]) by {
                            if q < i {
                                assert((before_entity + spec_attr_slots(attrs@, g, e, k + 1))[q] == prev[q]);
                                assert(spec_variable_at(groups@, r@.drop_last(), q, prev[q]));
                                assert(r@[q] == r@.drop_last()[q]);
                            }
                        }
                    }
                } else {
                    proof {
                        assert(before_entity + spec_attr_slots(attrs@, g, e, k + 1) =~= prev);
                    }
                }
                k = k + 1;
            }
            proof {
                assert(before_group + spec_entity_slots(*group, g, e + 1)
                    =~= before_entity + spec_attr_slots(attrs@, g, e, attrs@.len() as int));
            }
            e = e + 1;
        }
        proof {
            assert(spec_group_slots(groups@, g + 1) =~= before_group + spec_entity_slots(*group, g, group.entities@.len() as int));
        }
        g = g + 1;
    }
    r
}

} // verus!

verus! {

/// Law: a variable's name reads back to its group and its attribute as the
/// tables of entity values read it (`get_df_column_name`: what comes before
/// the first `": "` and after the last `"-->"`), when the group's name holds
/// no `": "` and the attribute's name no `"-->"`.
pub proof fn lemma_variable_name_parses(group: Seq<char>, index: nat, attribute: Seq<char>)
    requires
        forall|j: int| !occurs_at(group, table_separator(), j),
        forall|j: int| !occurs_at(attribute, column_separator(), j),
    ensures
        is_prefix_before_first(spec_variable_name(group, index, attribute), table_separator(), group),
        is_suffix_after_last(spec_variable_name(group, index, attribute), column_separator(), attribute),
{
    let ts = table_separator();
    let cs = column_separator();
    let d = spec_decimal(index);
    let name = spec_variable_name(group, index, attribute);
    let gl = group.len() as int;
    let p = gl + 2 + d.len();
    assert(name.len() == p + 3 + attribute.len());
    assert forall|x: int| 0 <= x < gl implies name[x] == group[x] by {
    }
    assert(name[gl] == ':' && name[gl + 1] == ' ');
    assert forall|x: int| 0 <= x < attribute.len() implies name[p + 3 + x] == attribute[x] by {
    }
    assert(name[p] == '-' && name[p + 1] == '-' && name[p + 2] == '>');
    // the first ": " is the separator
    assert(name.subrange(gl, gl + 2) =~= ts);
    assert(occurs_at(name, ts, gl));
    assert forall|j: int| 0 <= j < gl implies !occurs_at(name, ts, j) by {
        if occurs_at(name, ts, j) {
            if j + 2 <= gl {
                assert(group.subrange(j, j + 2) =~= name.subrange(j, j + 2));
                assert(occurs_at(group, ts, j));
            } else {
                assert(name.subrange(j, j + 2)[1] == name[gl]);
            }
        }
    }
    assert(name.subrange(0, gl) =~= group);
    // the last "-->" is the separator
    assert(name.subrange(p, p + 3) =~= cs);
    assert(occurs_at(name, cs, p));
    assert forall|j: int| p < j implies !occurs_at(name, cs, j) by {
        if occurs_at(name, cs, j) {
            if j == p + 1 {
                assert(name.subrange(j, j + 3)[1] == name[p + 2]);
            } else if j == p + 2 {
                assert(name.subrange(j, j + 3)[0] == name[p + 2]);
            } else {
                let a = j - (p + 3);
                assert(attribute.subrange(a, a + 3) =~= name.subrange(j, j + 3));
                assert(occurs_at(attribute, cs, a));
            }
        }
    }
    assert(name.subrange(p + 3, name.len() as int) =~= attribute);
}

} // verus!

verus! {

/// Different digits have different characters.
proof fn lemma_digit_injective(d: nat, e: nat)
    requires
        d < 10,
        e < 10,
        spec_digit(d) == spec_digit(e),
    ensures
        d == e,
{
    assert((spec_digit(d) as int) == 48 + d);
    assert((spec_digit(e) as int) == 48 + e);
}

/// The decimal text of a number is never empty.
proof fn lemma_decimal_nonempty(n: nat)
    ensures
        spec_decimal(n).len() >= 1,
    decreases n,
{
    if n >= 10 {
        lemma_decimal_nonempty(n / 10);
    }
}

/// Different numbers have different decimal texts.
proof fn lemma_decimal_injective(n: nat, m: nat)
    requires
        spec_decimal(n) == spec_decimal(m),
    ensures
        n == m,
    decreases n,
{
    if n < 10 && m < 10 {
        assert(spec_decimal(n) == seq![spec_digit(n)]);
        assert(spec_decimal(m) == seq![spec_digit(m)]);
        assert(spec_decimal(n)[0] == spec_digit(n));
        assert(spec_decimal(m)[0] == spec_digit(m));
        lemma_digit_injective(n, m);
    } else if n < 10 {
        lemma_decimal_nonempty(m / 10);
        assert(spec_decimal(m).len() >= 2);
    } else if m < 10 {
        lemma_decimal_nonempty(n / 10);
        assert(spec_decimal(n).len() >= 2);
    } else {
        let a = spec_decimal(n);
        let b = spec_decimal(m);
        assert(a.last() == spec_digit(n % 10));
        assert(b.last() == spec_digit(m % 10));
        lemma_digit_injective(n % 10, m % 10);
        assert(a.drop_last() =~= spec_decimal(n / 10));
        assert(b.drop_last() =~= spec_decimal(m / 10));
        lemma_decimal_injective(n / 10, m / 10);
    }
}

/// Law: two variables with different numbers have different names, when no
/// group's name holds `": "` and no attribute's name holds `"-->"`.
#[verifier::spinoff_prover]
#[verifier::rlimit(40)]
pub proof fn lemma_variable_names_distinct(g1: Seq<char>, i: nat, a1: Seq<char>, g2: Seq<char>, j: nat, a2: Seq<char>)
    requires
        forall|q: int| !occurs_at(g1, table_separator(), q),
        forall|q: int| !occurs_at(g2, table_separator(), q),
        forall|q: int| !occurs_at(a1, column_separator(), q),
        forall|q: int| !occurs_at(a2, column_separator(), q),
        i != j,
    ensures
        spec_variable_name(g1, i, a1) != spec_variable_name(g2, j, a2),
{
    let n1 = spec_variable_name(g1, i, a1);
    let n2 = spec_variable_name(g2, j, a2);
    if n1 == n2 {
        let ts = table_separator();
        let cs = column_separator();
        let l1 = g1.len() as int;
        let l2 = g2.len() as int;
        assert(n1.subrange(l1, l1 + 2) =~= ts);
        assert(n2.subrange(l2, l2 + 2) =~= ts);
        assert(occurs_at(n1, ts, l1));
        assert(occurs_at(n1, ts, l2));
        assert(l1 == l2) by {
            if l1 < l2 {
                assert(g2.subrange(l1, l1 + 2) =~= n2.subrange(l1, l1 + 2)) by {
                    if l1 + 2 > l2 {
                        assert(n2[l1 + 1] == n2.subrange(l1, l1 + 2)[1]);
                        assert(n2[l2] == ':');
                        assert(n1[l1 + 1] == ' ');
                    }
                }
                if l1 + 2 <= l2 {
                    assert(occurs_at(g2, ts, l1));
                }
            } else if l2 < l1 {
                if l2 + 2 <= l1 {
                    assert(g1.subrange(l2, l2 + 2) =~= n1.subrange(l2, l2 + 2));
                    assert(occurs_at(g1, ts, l2));
                } else {
                    assert(n1[l2 + 1] == n1.subrange(l2, l2 + 2)[1]);
                    assert(n1[l1] == ':');
                    assert(n2[l2 + 1] == ' ');
                }
            }
        }
        assert(g1 =~= n1.subrange(0, l1));
        assert(g2 =~= n2.subrange(0, l2));
        let t1 = a1.len() as int;
        let t2 = a2.len() as int;
        let e1 = n1.len() - t1 - 3;
        let e2 = n2.len() - t2 - 3;
        assert(n1.subrange(e1, e1 + 3) =~= cs);
        assert(n2.subrange(e2, e2 + 3) =~= cs);
        assert(t1 == t2) by {
            if t1 < t2 {
                let q = e1 - e2 - 3;
                if q >= 0 {
                    assert(a2.subrange(q, q + 3) =~= n2.subrange(e1, e1 + 3));
                    assert(occurs_at(a2, cs, q));
                } else if q == -1 {
                    assert(n2[e1 + 2] == n2.subrange(e1, e1 + 3)[2]);
                    assert(n2[e2 + 3 + q + 2] == a2[q + 2]);
                    assert(n2[e1 + 1] == n1[e1 + 1]);
                    assert(n2[e2 + 2] == '>');
                    assert(n1[e1 + 1] == '-');
                } else {
                    assert(n1[e1 + 2] == '>');
                    assert(n2[e2 + 1] == '-');
                }
            } else if t2 < t1 {
                let q = e2 - e1 - 3;
                if q >= 0 {
                    assert(a1.subrange(q, q + 3) =~= n1.subrange(e2, e2 + 3));
                    assert(occurs_at(a1, cs, q));
                } else if q == -1 {
                    assert(n1[e2 + 1] == n2[e2 + 1]);
                    assert(n1[e1 + 2] == '>');
                    assert(n2[e2 + 1] == '-');
                } else {
                    assert(n2[e2 + 2] == '>');
                    assert(n1[e1 + 1] == '-');
                }
            }
        }
        lemma_decimal_nonempty(i);
        lemma_decimal_nonempty(j);
        assert(spec_decimal(i) =~= n1.subrange(l1 + 2, e1));
        assert(spec_decimal(j) =~= n2.subrange(l2 + 2, e2));
        lemma_decimal_injective(i, j);
    }
}

/// The number of the variable named `name`: the first position of `vars`
/// with that name, or `None` when no variable has it.
pub fn variable_id_of(vars: &Vec<(String, Slot)>, name: &String) -> (r: Option<usize>)
    ensures
        match r {
            Some(i) => i < vars@.len() && vars@[i as int].0@ == name@
                && forall|j: int| 0 <= j < i ==> (#[trigger] vars@[j]).0@ != name@,
            None => forall|j: int| 0 <= j < vars@.len() ==> (#[trigger] vars@[j]).0@ != name@,
        },
{
    let mut i: usize = 0;
    while i < vars.len()
        invariant
            i <= vars@.len(),
            forall|j: int| 0 <= j < i ==> (#[trigger] vars@[j]).0@ != name@,
        decreases vars.len() - i,
    {
        if vars[i].0 == *name {
            return Some(i);
        }
        i = i + 1;
    }
    None
}

} // verus!

verus! {

proof fn lemma_attr_slots_valid(attrs: Seq<EntityAttribute>, g: usize, e: usize, k: int)
    requires
        0 <= k <= attrs.len(),
        k <= usize::MAX,
    ensures
        forall|i: int| 0 <= i < spec_attr_slots(attrs, g, e, k).len() ==> {
            let s = #[trigger] spec_attr_slots(attrs, g, e, k)[i];
            &&& s.0 == g
            &&& s.1 == e
            &&& s.2 < k
            &&& attrs[s.2 as int].is_variable
        },
    decreases k,
{
    if k > 0 {
        lemma_attr_slots_valid(attrs, g, e, k - 1);
        let prev = spec_attr_slots(attrs, g, e, k - 1);
        let cur = spec_attr_slots(attrs, g, e, k);
        assert forall|i: int| 0 <= i < cur.len() implies {
            let s = #[trigger] cur[i];
            &&& s.0 == g
            &&& s.1 == e
            &&& s.2 < k
            &&& attrs[s.2 as int].is_variable
        } by {
            if i < prev.len() {
                assert(cur[i] == prev[i]);
            } else {
                assert(attrs[k - 1].is_variable);
                assert(cur == prev.push((g, e, (k - 1) as usize)));
                assert(cur[i] == (g, e, (k - 1) as usize));
            }
        }
    }
}

proof fn lemma_entity_slots_valid(group: EntityGroup, g: usize, m: int)
    requires
        0 <= m <= group.entities@.len(),
        m <= usize::MAX,
        forall|e: int| 0 <= e < m ==> (#[trigger] group.entities@[e]@.len()) <= usize::MAX,
    ensures
        forall|i: int| 0 <= i < spec_entity_slots(group, g, m).len() ==> {
            let s = #[trigger] spec_entity_slots(group, g, m)[i];
            &&& s.0 == g
            &&& s.1 < m
            &&& s.2 < group.entities@[s.1 as int]@.len()
            &&& group.entities@[s.1 as int]@[s.2 as int].is_variable
        },
    decreases m,
{
    if m > 0 {
        lemma_entity_slots_valid(group, g, m - 1);
        let attrs = group.entities@[m - 1]@;
        lemma_attr_slots_valid(attrs, g, (m - 1) as usize, attrs.len() as int);
        let prev = spec_entity_slots(group, g, m - 1);
        let tail = spec_attr_slots(attrs, g, (m - 1) as usize, attrs.len() as int);
        assert forall|i: int| 0 <= i < spec_entity_slots(group, g, m).len() implies {
            let s = #[trigger] spec_entity_slots(group, g, m)[i];
            &&& s.0 == g
            &&& s.1 < m
            &&& s.2 < group.entities@[s.1 as int]@.len()
            &&& group.entities@[s.1 as int]@[s.2 as int].is_variable
        } by {
            if i < prev.len() {
                assert(spec_entity_slots(group, g, m)[i] == prev[i]);
            } else {
                assert(spec_entity_slots(group, g, m)[i] == tail[i - prev.len()]);
            }
        }
    }
}

/// The slots of the variables of the first `n` groups are positions of
/// variable attributes of those groups.
pub proof fn lemma_group_slots_valid(groups: Seq<EntityGroup>, n: int)
    requires
        0 <= n <= groups.len(),
        spec_sizes_fit(groups),
    ensures
        forall|i: int| 0 <= i < spec_group_slots(groups, n).len() ==> {
            let s = #[trigger] spec_group_slots(groups, n)[i];
            &&& s.0 < n
            &&& s.1 < groups[s.0 as int].entities@.len()
            &&& s.2 < groups[s.0 as int].entities@[s.1 as int]@.len()
            &&& groups[s.0 as int].entities@[s.1 as int]@[s.2 as int].is_variable
        },
    decreases n,
{
    if n > 0 {
        lemma_group_slots_valid(groups, n - 1);
        let group = groups[n - 1];
        lemma_entity_slots_valid(group, (n - 1) as usize, group.entities@.len() as int);
        let prev = spec_group_slots(groups, n - 1);
        let tail = spec_entity_slots(group, (n - 1) as usize, group.entities@.len() as int);
        assert forall|i: int| 0 <= i < spec_group_slots(groups, n).len() implies {
            let s = #[trigger] spec_group_slots(groups, n)[i];
            &&& s.0 < n
            &&& s.1 < groups[s.0 as int].entities@.len()
            &&& s.2 < groups[s.0 as int].entities@[s.1 as int]@.len()
            &&& groups[s.0 as int].entities@[s.1 as int]@[s.2 as int].is_variable
        } by {
            if i < prev.len() {
                assert(spec_group_slots(groups, n)[i] == prev[i]);
            } else {
                assert(spec_group_slots(groups, n)[i] == tail[i - prev.len()]);
            }
        }
    }
}

/// The numbers of groups, of entities per group and of attributes per
/// entity fit in a `usize` (as they do for vectors).
pub open spec fn spec_sizes_fit(groups: Seq<EntityGroup>) -> bool {
    &&& groups.len() <= usize::MAX
    &&& forall|g: int| 0 <= g < groups.len() ==> (#[trigger] groups[g].entities@.len()) <= usize::MAX
    &&& forall|g: int, e: int| 0 <= g < groups.len() && 0 <= e < groups[g].entities@.len()
        ==> (#[trigger] groups[g].entities@[e]@.len()) <= usize::MAX
}

/// The sizes of vectors of entity groups fit in a `usize`.
pub(crate) fn sizes_fit(groups: &Vec<EntityGroup>)
    ensures
        spec_sizes_fit(groups@),
{
    let mut g: usize = 0;
    while g < groups.len()
        invariant
            g <= groups@.len(),
            forall|h: int| 0 <= h < g ==> (#[trigger] groups@[h].entities@.len()) <= usize::MAX,
            forall|h: int, e: int| 0 <= h < g && 0 <= e < groups@[h].entities@.len()
                ==> (#[trigger] groups@[h].entities@[e]@.len()) <= usize::MAX,
        decreases groups.len() - g,
    {
        let entities = &groups[g].entities;
        let _ = entities.len();
        let mut e: usize = 0;
        while e < entities.len()
            invariant
                g < groups@.len(),
                *entities == groups@[g as int].entities,
                e <= entities@.len(),
                forall|f: int| 0 <= f < e ==> (#[trigger] entities@[f]@.len()) <= usize::MAX,
            decreases entities.len() - e,
        {
            let _ = entities[e].len();
            e = e + 1;
        }
        g = g + 1;
    }
}

/// No group's name holds `": "` and no attribute's name holds `"-->"`.
pub open spec fn spec_names_readable(groups: Seq<EntityGroup>) -> bool {
    &&& forall|g: int, q: int| 0 <= g < groups.len() ==> !#[trigger] occurs_at(groups[g].name@, table_separator(), q)
    &&& forall|g: int, e: int, k: int, q: int| 0 <= g < groups.len() && 0 <= e < groups[g].entities@.len()
        && 0 <= k < groups[g].entities@[e]@.len()
        ==> !#[trigger] occurs_at(groups[g].entities@[e]@[k].name@, column_separator(), q)
}

/// Law: when the names of groups and attributes are readable (see
/// `spec_names_readable`), the variables built from them have distinct
/// names, so `variable_id_of` finds each variable by its name:
/// `variable_id_of(vars, vars[i].0) == Some(i)`.
pub proof fn lemma_built_names_distinct(groups: Seq<EntityGroup>, vars: Seq<(String, Slot)>)
    requires
        spec_names_readable(groups),
        spec_sizes_fit(groups),
        vars.len() == spec_group_slots(groups, groups.len() as int).len(),
        forall|i: int| 0 <= i < vars.len() ==> spec_variable_at(groups, vars, i,
            #[trigger] spec_group_slots(groups, groups.len() as int)[i]),
    ensures
        forall|a: int, b: int| 0 <= a < b < vars.len() ==> (#[trigger] vars[a]).0@ != (#[trigger] vars[b]).0@,
{
    let slots = spec_group_slots(groups, groups.len() as int);
    lemma_group_slots_valid(groups, groups.len() as int);
    assert forall|a: int, b: int| 0 <= a < b < vars.len() implies (#[trigger] vars[a]).0@ != (#[trigger] vars[b]).0@ by {
        let sa = slots[a];
        let sb = slots[b];
        assert(spec_variable_at(groups, vars, a, sa));
        assert(spec_variable_at(groups, vars, b, sb));
        let ga = groups[sa.0 as int];
        let gb = groups[sb.0 as int];
        let aa = ga.entities@[sa.1 as int]@[sa.2 as int];
        let ab = gb.entities@[sb.1 as int]@[sb.2 as int];
        assert forall|q: int| !occurs_at(ga.name@, table_separator(), q) by {}
        assert forall|q: int| !occurs_at(gb.name@, table_separator(), q) by {}
        assert forall|q: int| !occurs_at(aa.name@, column_separator(), q) by {}
        assert forall|q: int| !occurs_at(ab.name@, column_separator(), q) by {}
        lemma_variable_names_distinct(ga.name@, a as nat, aa.name@, gb.name@, b as nat, ab.name@);
    }
}

} // verus!
