//! Planning variables as the search sees them: which variables belong to
//! which semantic group, and which of them are integers.
use vstd::prelude::*;
use rand::rngs::SmallRng;
use crate::random::uniform_sample;

verus! {

/// The semantic groups of a problem: group `g` is named `semantic_group_keys[g]`
/// and holds the variable ids `semantic_groups_ids[g]`.
pub struct SemanticGroups {
    pub semantic_group_keys: Vec<String>,
    pub semantic_groups_ids: Vec<Vec<usize>>,
}

impl SemanticGroups {
    /// The ids of group `g`.
    pub open spec fn group(&self, g: int) -> Seq<usize> {
        self.semantic_groups_ids@[g]@
    }

    /// Number of groups.
    pub open spec fn n_groups(&self) -> int {
        self.semantic_groups_ids@.len() as int
    }

    /// Every group names variables below `variables_count`.
    pub open spec fn ids_below(&self, variables_count: int) -> bool {
        forall|g: int, i: int| 0 <= g < self.n_groups() && 0 <= i < self.group(g).len()
            ==> (#[trigger] self.group(g)[i]) < variables_count
    }

    /// Picks a group uniformly at random and returns its position.
    pub fn get_random_semantic_group_ids(&self, rng: &mut SmallRng) -> (g: usize)
        requires
            self.semantic_groups_ids.len() > 0,
        ensures
            g < self.semantic_groups_ids.len(),
    {
        uniform_sample(rng, 0, self.semantic_groups_ids.len())
    }
}

} // verus!

verus! {

/// What the search reads of a planning variable: its name, the semantic
/// groups it belongs to, whether it is frozen, and whether it takes integer
/// values.
pub struct PlanningVariableInfo {
    pub name: String,
    pub semantic_groups: Vec<String>,
    pub frozen: bool,
    pub is_integer: bool,
}

/// The memberships `(variable id, group name)` of the first `n` variables, in
/// order of variable and then of group; frozen variables belong to no group.
pub open spec fn spec_memberships(vars: Seq<PlanningVariableInfo>, n: int) -> Seq<(usize, Seq<char>)>
    decreases n,
{
    if n <= 0 {
        Seq::empty()
    } else {
        spec_memberships(vars, n - 1) + spec_memberships_of(vars[n - 1], (n - 1) as usize, vars[n - 1].semantic_groups@.len() as int)
    }
}

/// The memberships of variable `id` through its first `j` group names.
pub open spec fn spec_memberships_of(var: PlanningVariableInfo, id: usize, j: int) -> Seq<(usize, Seq<char>)> {
    if var.frozen {
        Seq::empty()
    } else {
        Seq::new(j as nat, |k: int| (id, var.semantic_groups@[k]@))
    }
}

/// The group names of the memberships, each once, in order of first appearance.
pub open spec fn spec_group_keys(ms: Seq<(usize, Seq<char>)>) -> Seq<Seq<char>>
    decreases ms.len(),
{
    if ms.len() == 0 {
        Seq::empty()
    } else {
        let prev = spec_group_keys(ms.drop_last());
        if prev.contains(ms.last().1) {
            prev
        } else {
            prev.push(ms.last().1)
        }
    }
}

/// The variable ids of the memberships in group `key`, in order.
pub open spec fn spec_group_members(ms: Seq<(usize, Seq<char>)>, key: Seq<char>) -> Seq<usize>
    decreases ms.len(),
{
    if ms.len() == 0 {
        Seq::empty()
    } else {
        let prev = spec_group_members(ms.drop_last(), key);
        if ms.last().1 == key {
            prev.push(ms.last().0)
        } else {
            prev
        }
    }
}

impl SemanticGroups {
    /// The groups are those of the memberships `ms`: one group per distinct
    /// name, in order of first appearance, holding the ids of its members.
    pub open spec fn built_from(&self, ms: Seq<(usize, Seq<char>)>) -> bool {
        &&& self.semantic_group_keys@.len() == self.semantic_groups_ids@.len()
        &&& self.semantic_group_keys@.map_values(|k: String| k@) == spec_group_keys(ms)
        &&& forall|g: int| 0 <= g < self.n_groups() ==> #[trigger] self.group(g)
            == spec_group_members(ms, self.semantic_group_keys@[g]@)
    }

    /// Position of the group named `key`, if there is one.
    fn find_key(&self, key: &String) -> (r: Option<usize>)
        ensures
            match r {
                Some(g) => g < self.semantic_group_keys@.len() && self.semantic_group_keys@[g as int]@ == key@,
                None => !self.semantic_group_keys@.map_values(|k: String| k@).contains(key@),
            },
    {
        let mut g: usize = 0;
        while g < self.semantic_group_keys.len()
            invariant
                g <= self.semantic_group_keys@.len(),
                forall|h: int| 0 <= h < g ==> (#[trigger] self.semantic_group_keys@[h])@ != key@,
            decreases self.semantic_group_keys.len() - g,
        {
            if self.semantic_group_keys[g] == *key {
                return Some(g);
            }
            g = g + 1;
        }
        proof {
            let keys = self.semantic_group_keys@.map_values(|k: String| k@);
            if keys.contains(key@) {
                let h = choose|h: int| 0 <= h < keys.len() && keys[h] == key@;
                assert(self.semantic_group_keys@[h]@ == key@);
            }
        }
        None
    }

    /// Adds variable `id` to the group named `key`, creating the group after
    /// the others when there is none.
    fn add_member(&mut self, key: &String, id: usize)
        requires
            old(self).semantic_group_keys@.len() == old(self).semantic_groups_ids@.len(),
            old(self).semantic_group_keys@.map_values(|k: String| k@).no_duplicates(),
        ensures
            final(self).semantic_group_keys@.len() == final(self).semantic_groups_ids@.len(),
            final(self).semantic_group_keys@.map_values(|k: String| k@).no_duplicates(),
            ({
                let old_keys = old(self).semantic_group_keys@.map_values(|k: String| k@);
                let new_keys = final(self).semantic_group_keys@.map_values(|k: String| k@);
                &&& new_keys == if old_keys.contains(key@) { old_keys } else { old_keys.push(key@) }
                &&& forall|g: int| 0 <= g < final(self).n_groups() ==> #[trigger] final(self).group(g)
                    == if final(self).semantic_group_keys@[g]@ == key@ {
                        (if g < old(self).n_groups() { old(self).group(g) } else { Seq::empty() }).push(id)
                    } else {
                        old(self).group(g)
                    }
            }),
            forall|g: int| 0 <= g < old(self).n_groups() ==> (#[trigger] final(self).semantic_group_keys@[g])@
                == old(self).semantic_group_keys@[g]@,
    {
        match self.find_key(key) {
            Some(g) => {
                let ghost before = self.semantic_groups_ids@;
                let mut ids: Vec<usize> = Vec::new();
                std::mem::swap(&mut ids, &mut self.semantic_groups_ids[g]);
                ids.push(id);
                self.semantic_groups_ids[g] = ids;
                proof {
                    let keys = self.semantic_group_keys@;
                    assert forall|h: int| 0 <= h < self.n_groups() && h != g implies self.semantic_groups_ids@[h] == before[h] by {
                    }
                    let mk = keys.map_values(|k: String| k@);
                    assert forall|h: int| 0 <= h < self.n_groups() && h != g implies keys[h]@ != key@ by {
                        assert(mk[h] != mk[g as int]);
                    }
                    assert(mk.contains(key@)) by {
                        assert(mk[g as int] == key@);
                    }
                    assert(self.semantic_group_keys@ == old(self).semantic_group_keys@);
                    assert(self.group(g as int) == old(self).group(g as int).push(id));
                    assert forall|h: int| 0 <= h < self.n_groups() && h != g implies #[trigger] self.group(h) == old(self).group(h) by {
                        assert(self.semantic_groups_ids@[h] == before[h]);
                    }
                }
            },
            None => {
                let ghost old_keys = self.semantic_group_keys@;
                self.semantic_group_keys.push(key.clone());
                let mut ids: Vec<usize> = Vec::new();
                ids.push(id);
                self.semantic_groups_ids.push(ids);
                proof {
                    let n = old_keys.len() as int;
                    assert(self.semantic_group_keys@.map_values(|k: String| k@)
                        =~= old_keys.map_values(|k: String| k@).push(key@));
                    assert(self.group(n) =~= Seq::<usize>::empty().push(id));
                    assert forall|h: int| 0 <= h < n implies #[trigger] self.group(h) == old(self).group(h)
                        && self.semantic_group_keys@[h]@ != key@ by {
                        let mk = old_keys.map_values(|k: String| k@);
                        assert(mk[h] == old_keys[h]@);
                    }
                }
            },
        }
    }
}

} // verus!

verus! {

/// A name that is no group key has no members.
proof fn lemma_members_of_unknown_key(ms: Seq<(usize, Seq<char>)>, key: Seq<char>)
    requires
        !spec_group_keys(ms).contains(key),
    ensures
        spec_group_members(ms, key) == Seq::<usize>::empty(),
    decreases ms.len(),
{
    if ms.len() > 0 {
        let prev = spec_group_keys(ms.drop_last());
        if prev.contains(key) {
            let i = choose|i: int| 0 <= i < prev.len() && prev[i] == key;
            if !prev.contains(ms.last().1) {
                assert(prev.push(ms.last().1)[i] == key);
            }
        }
        lemma_members_of_unknown_key(ms.drop_last(), key);
        if ms.last().1 == key {
            if !prev.contains(ms.last().1) {
                assert(prev.push(ms.last().1)[prev.len() as int] == key);
            }
        }
    }
}

impl SemanticGroups {
    /// Adding a membership to groups built from `ms` builds them from `ms`
    /// with that membership at the end.
    fn add_membership(&mut self, key: &String, id: usize, Ghost(ms): Ghost<Seq<(usize, Seq<char>)>>)
        requires
            old(self).built_from(ms),
            old(self).semantic_group_keys@.map_values(|k: String| k@).no_duplicates(),
        ensures
            final(self).built_from(ms.push((id, key@))),
            final(self).semantic_group_keys@.map_values(|k: String| k@).no_duplicates(),
    {
        let ghost old_self = *self;
        self.add_member(key, id);
        proof {
            let ms2 = ms.push((id, key@));
            assert(ms2.drop_last() =~= ms);
            assert(ms2.last() == (id, key@));
            assert forall|g: int| 0 <= g < self.n_groups() implies #[trigger] self.group(g)
                == spec_group_members(ms2, self.semantic_group_keys@[g]@) by {
                if g >= old_self.n_groups() {
                    let okeys = old_self.semantic_group_keys@.map_values(|k: String| k@);
                    let nkeys = self.semantic_group_keys@.map_values(|k: String| k@);
                    assert(!okeys.contains(key@)) by {
                        if okeys.contains(key@) {
                            assert(nkeys.len() == okeys.len());
                        }
                    }
                    assert(nkeys == okeys.push(key@));
                    assert(g == okeys.len());
                    assert(nkeys[g] == key@);
                    lemma_members_of_unknown_key(ms, key@);
                } else {
                    assert(self.semantic_group_keys@[g]@ == old_self.semantic_group_keys@[g]@);
                }
            }
        }
    }
}

/// The semantic groups of the variables: for each group name of a variable
/// that is not frozen, in order of first appearance, the ids of the
/// variables that name it (a variable naming a group twice is listed twice).
pub fn build_semantic_groups_dict(variables: &Vec<PlanningVariableInfo>) -> (r: SemanticGroups)
    ensures
        r.built_from(spec_memberships(variables@, variables@.len() as int)),
        r.semantic_group_keys@.map_values(|k: String| k@).no_duplicates(),
{
    let mut groups = SemanticGroups { semantic_group_keys: Vec::new(), semantic_groups_ids: Vec::new() };
    proof {
        assert(groups.semantic_group_keys@.map_values(|k: String| k@) =~= Seq::<Seq<char>>::empty());
        assert(spec_memberships(variables@, 0) =~= Seq::<(usize, Seq<char>)>::empty());
    }
    let mut i: usize = 0;
    while i < variables.len()
        invariant
            i <= variables.len(),
            groups.built_from(spec_memberships(variables@, i as int)),
            groups.semantic_group_keys@.map_values(|k: String| k@).no_duplicates(),
        decreases variables.len() - i,
    {
        let variable = &variables[i];
        let ghost before = spec_memberships(variables@, i as int);
        if !variable.frozen {
            let mut j: usize = 0;
            while j < variable.semantic_groups.len()
                invariant
                    j <= variable.semantic_groups.len(),
                    *variable == variables@[i as int],
                    !variable.frozen,
                    groups.built_from(before + spec_memberships_of(*variable, i, j as int)),
                    groups.semantic_group_keys@.map_values(|k: String| k@).no_duplicates(),
                decreases variable.semantic_groups.len() - j,
            {
                let ghost ms = before + spec_memberships_of(*variable, i, j as int);
                groups.add_membership(&variable.semantic_groups[j], i, Ghost(ms));
                proof {
                    assert(ms.push((i, variable.semantic_groups@[j as int]@))
                        =~= before + spec_memberships_of(*variable, i, j + 1));
                }
                j = j + 1;
            }
        }
        proof {
            assert(spec_memberships(variables@, i + 1) =~= before + spec_memberships_of(*variable, i, variable.semantic_groups@.len() as int));
            if variable.frozen {
                assert(spec_memberships(variables@, i + 1) =~= before);
            }
        }
        i = i + 1;
    }
    groups
}

} // verus!

verus! {

proof fn lemma_members_concat(a: Seq<(usize, Seq<char>)>, b: Seq<(usize, Seq<char>)>, key: Seq<char>)
    ensures
        spec_group_members(a + b, key) == spec_group_members(a, key) + spec_group_members(b, key),
    decreases b.len(),
{
    if b.len() == 0 {
        assert(a + b =~= a);
        assert(spec_group_members(a, key) + Seq::<usize>::empty() =~= spec_group_members(a, key));
    } else {
        assert((a + b).drop_last() =~= a + b.drop_last());
        lemma_members_concat(a, b.drop_last(), key);
        assert((a + b).last() == b.last());
        if b.last().1 == key {
            assert(spec_group_members(a, key) + spec_group_members(b.drop_last(), key).push(b.last().0)
                =~= (spec_group_members(a, key) + spec_group_members(b.drop_last(), key)).push(b.last().0));
        }
    }
}

proof fn lemma_members_of_one(var: PlanningVariableInfo, id: usize, j: int, key: Seq<char>)
    requires
        0 <= j <= var.semantic_groups@.len(),
        var.semantic_groups@.map_values(|k: String| k@).no_duplicates(),
    ensures
        spec_group_members(spec_memberships_of(var, id, j), key).len() <= 1,
        forall|x: int| 0 <= x < spec_group_members(spec_memberships_of(var, id, j), key).len()
            ==> #[trigger] spec_group_members(spec_memberships_of(var, id, j), key)[x] == id,
        spec_group_members(spec_memberships_of(var, id, j), key).len() == 1
            ==> exists|k: int| 0 <= k < j && var.semantic_groups@[k]@ == key,
    decreases j,
{
    let ms = spec_memberships_of(var, id, j);
    if j > 0 && !var.frozen {
        lemma_members_of_one(var, id, j - 1, key);
        assert(ms.drop_last() =~= spec_memberships_of(var, id, j - 1));
        let names = var.semantic_groups@.map_values(|k: String| k@);
        if ms.last().1 == key {
            let prev = spec_group_members(spec_memberships_of(var, id, j - 1), key);
            if prev.len() == 1 {
                let k = choose|k: int| 0 <= k < j - 1 && var.semantic_groups@[k]@ == key;
                assert(names[k] == names[j - 1]);
            }
        }
    } else if var.frozen {
        assert(ms =~= Seq::<(usize, Seq<char>)>::empty());
    } else {
        assert(ms =~= Seq::<(usize, Seq<char>)>::empty());
    }
}

/// Law: when no variable names the same group twice, every group built from
/// the first `n` variables holds distinct ids, in increasing order, below `n`.
pub proof fn lemma_built_groups_valid(vars: Seq<PlanningVariableInfo>, n: int, key: Seq<char>)
    requires
        0 <= n <= vars.len() <= usize::MAX,
        forall|i: int| 0 <= i < vars.len() ==> (#[trigger] vars[i]).semantic_groups@.map_values(|k: String| k@).no_duplicates(),
    ensures
        forall|x: int, y: int| 0 <= x < y < spec_group_members(spec_memberships(vars, n), key).len()
            ==> (#[trigger] spec_group_members(spec_memberships(vars, n), key)[x])
                < (#[trigger] spec_group_members(spec_memberships(vars, n), key)[y]),
        forall|x: int| 0 <= x < spec_group_members(spec_memberships(vars, n), key).len()
            ==> (#[trigger] spec_group_members(spec_memberships(vars, n), key)[x]) < n,
        spec_group_members(spec_memberships(vars, n), key).no_duplicates(),
    decreases n,
{
    let m = spec_group_members(spec_memberships(vars, n), key);
    if n > 0 {
        lemma_built_groups_valid(vars, n - 1, key);
        let prev_ms = spec_memberships(vars, n - 1);
        let last_ms = spec_memberships_of(vars[n - 1], (n - 1) as usize, vars[n - 1].semantic_groups@.len() as int);
        lemma_members_concat(prev_ms, last_ms, key);
        lemma_members_of_one(vars[n - 1], (n - 1) as usize, vars[n - 1].semantic_groups@.len() as int, key);
        let a = spec_group_members(prev_ms, key);
        let b = spec_group_members(last_ms, key);
        assert(m == a + b);
        assert forall|x: int, y: int| 0 <= x < y < m.len() implies (#[trigger] m[x]) < (#[trigger] m[y]) by {
            if y >= a.len() {
                assert(m[y] == b[y - a.len()]);
                if x < a.len() {
                    assert(m[x] == a[x]);
                }
            } else {
                assert(m[x] == a[x] && m[y] == a[y]);
            }
        }
        assert forall|x: int| 0 <= x < m.len() implies (#[trigger] m[x]) < n by {
            if x >= a.len() {
                assert(m[x] == b[x - a.len()]);
            } else {
                assert(m[x] == a[x]);
            }
        }
    } else {
        assert(spec_memberships(vars, 0) =~= Seq::<(usize, Seq<char>)>::empty());
    }
    assert forall|x: int, y: int| 0 <= x < m.len() && 0 <= y < m.len() && x != y implies m[x] != m[y] by {
        if x < y {
            assert(m[x] < m[y]);
        } else {
            assert(m[y] < m[x]);
        }
    }
}

} // verus!

verus! {

/// The ids of the integer variables among the first `n`, in order.
pub open spec fn spec_integer_ids(vars: Seq<PlanningVariableInfo>, n: int) -> Seq<usize>
    decreases n,
{
    if n <= 0 {
        Seq::empty()
    } else if vars[n - 1].is_integer {
        spec_integer_ids(vars, n - 1).push((n - 1) as usize)
    } else {
        spec_integer_ids(vars, n - 1)
    }
}

/// The groups a planning variable is created with: the given ones, or the
/// single group `"common"` when none are given.
pub fn resolve_semantic_groups(semantic_groups: Option<Vec<String>>) -> (r: Vec<String>)
    ensures
        match semantic_groups {
            Some(groups) => r@ == groups@,
            None => r@.len() == 1 && r@[0]@ == "common"@,
        },
{
    match semantic_groups {
        Some(groups) => groups,
        None => {
            let mut r: Vec<String> = Vec::new();
            r.push("common".to_owned());
            r
        },
    }
}

/// The layout of the planning variables that the search works on: their
/// ids, semantic groups and the ids of the integer ones.
pub struct VariablesLayout {
    pub variables: Vec<PlanningVariableInfo>,
    pub variables_count: usize,
    pub variable_ids: Vec<usize>,
    pub semantic_groups: SemanticGroups,
    pub n_semantic_groups: usize,
    pub discrete_ids: Option<Vec<usize>>,
}

impl VariablesLayout {
    /// Lays out the variables: ids `0..n`, the semantic groups of the
    /// variables that are not frozen, and the ids of the integer variables
    /// (`None` when there is none).
    pub fn new(variables: Vec<PlanningVariableInfo>) -> (m: Self)
        ensures
            m.variables@ == variables@,
            m.variables_count == variables@.len(),
            m.variable_ids@.len() == variables@.len(),
            forall|i: int| 0 <= i < variables@.len() ==> #[trigger] m.variable_ids@[i] == i,
            m.semantic_groups.built_from(spec_memberships(variables@, variables@.len() as int)),
            m.semantic_groups.semantic_group_keys@.map_values(|k: String| k@).no_duplicates(),
            m.n_semantic_groups == m.semantic_groups.n_groups(),
            spec_integer_ids(variables@, variables@.len() as int).len() == 0 ==> m.discrete_ids is None,
            spec_integer_ids(variables@, variables@.len() as int).len() > 0 ==> m.discrete_ids is Some
                && m.discrete_ids->0@ == spec_integer_ids(variables@, variables@.len() as int),
            m.discrete_ids is None <==> forall|i: int| 0 <= i < variables@.len() ==> !(#[trigger] variables@[i]).is_integer,
            m.discrete_ids is Some ==> forall|i: usize| #[trigger] m.discrete_ids->0@.contains(i)
                <==> (i < variables@.len() && variables@[i as int].is_integer),
    {
        let variables_count = variables.len();
        let mut variable_ids: Vec<usize> = Vec::new();
        let mut discrete_ids: Vec<usize> = Vec::new();
        let mut i: usize = 0;
        while i < variables_count
            invariant
                i <= variables_count == variables@.len(),
                variable_ids@.len() == i,
                forall|k: int| 0 <= k < i ==> #[trigger] variable_ids@[k] == k,
                discrete_ids@ == spec_integer_ids(variables@, i as int),
            decreases variables_count - i,
        {
            variable_ids.push(i);
            if variables[i].is_integer {
                discrete_ids.push(i);
            }
            i = i + 1;
        }
        let semantic_groups = build_semantic_groups_dict(&variables);
        let n_semantic_groups = semantic_groups.semantic_group_keys.len();
        proof {
            lemma_integer_ids_exact(variables@, variables@.len() as int);
        }
        let discrete = if discrete_ids.len() > 0 { Some(discrete_ids) } else { None };
        VariablesLayout {
            variables,
            variables_count,
            variable_ids,
            semantic_groups,
            n_semantic_groups,
            discrete_ids: discrete,
        }
    }

    /// The names of the variables, in order of id.
    pub fn get_variables_names_vec(&self) -> (r: Vec<String>)
        ensures
            r@.len() == self.variables@.len(),
            forall|i: int| 0 <= i < r@.len() ==> #[trigger] r@[i] == self.variables@[i].name,
    {
        let mut r: Vec<String> = Vec::new();
        let mut i: usize = 0;
        while i < self.variables.len()
            invariant
                i <= self.variables@.len(),
                r@.len() == i,
                forall|k: int| 0 <= k < i ==> #[trigger] r@[k] == self.variables@[k].name,
            decreases self.variables.len() - i,
        {
            r.push(self.variables[i].name.clone());
            i = i + 1;
        }
        r
    }
}

} // verus!

verus! {

/// Law: the integer variables among the first `n` are exactly the variables
/// below `n` that take integer values (frozen or not), each once, in
/// increasing order.
pub proof fn lemma_integer_ids_exact(vars: Seq<PlanningVariableInfo>, n: int)
    requires
        0 <= n <= vars.len(),
        n <= usize::MAX,
    ensures
        forall|i: usize| #[trigger] spec_integer_ids(vars, n).contains(i) <==> (i < n && vars[i as int].is_integer),
        forall|a: int, b: int| 0 <= a < b < spec_integer_ids(vars, n).len()
            ==> spec_integer_ids(vars, n)[a] < spec_integer_ids(vars, n)[b],
        spec_integer_ids(vars, n).len() == 0 <==> forall|i: int| 0 <= i < n ==> !(#[trigger] vars[i]).is_integer,
    decreases n,
{
    if n > 0 {
        lemma_integer_ids_exact(vars, n - 1);
        let prev = spec_integer_ids(vars, n - 1);
        let cur = spec_integer_ids(vars, n);
        assert forall|i: usize| #[trigger] cur.contains(i) <==> (i < n && vars[i as int].is_integer) by {
            if vars[n - 1].is_integer {
                assert(cur == prev.push((n - 1) as usize));
                if cur.contains(i) && i != (n - 1) as usize {
                    let k = choose|k: int| 0 <= k < cur.len() && cur[k] == i;
                    assert(k < prev.len());
                    assert(prev.contains(i));
                }
                if prev.contains(i) {
                    let k = choose|k: int| 0 <= k < prev.len() && prev[k] == i;
                    assert(cur[k] == i);
                }
                if i == (n - 1) as usize {
                    assert(cur[prev.len() as int] == i);
                }
            }
        }
        assert forall|a: int, b: int| 0 <= a < b < cur.len() implies cur[a] < cur[b] by {
            if vars[n - 1].is_integer && b == prev.len() {
                assert(prev.contains(prev[a]));
            }
        }
        assert(cur.len() == 0 <==> forall|i: int| 0 <= i < n ==> !(#[trigger] vars[i]).is_integer) by {
            if cur.len() == 0 {
                assert(!vars[n - 1].is_integer);
            } else if forall|i: int| 0 <= i < n ==> !(#[trigger] vars[i]).is_integer {
                assert(!vars[n - 1].is_integer);
            }
        }
    }
}

} // verus!
