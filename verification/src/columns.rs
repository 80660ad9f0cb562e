//! How the variables of a candidate map to the columns of the entity tables
//! that score them: a variable named `"<table>: <index>--><column>"` lives in
//! column `<column>` of table `<table>`.
use vstd::prelude::*;

verus! {

/// `pat` occurs in `s` at position `i`.
pub open spec fn occurs_at(s: Seq<char>, pat: Seq<char>, i: int) -> bool {
    &&& 0 <= i
    &&& i + pat.len() <= s.len()
    &&& s.subrange(i, i + pat.len()) == pat
}

/// The separator between a variable's table and the rest of its name.
pub open spec fn table_separator() -> Seq<char> {
    seq![':', ' ']
}

/// The separator before a variable's column.
pub open spec fn column_separator() -> Seq<char> {
    seq!['-', '-', '>']
}

/// `d` is what comes before the first `pat` in `s`, or all of `s` when `pat`
/// does not occur.
pub open spec fn is_prefix_before_first(s: Seq<char>, pat: Seq<char>, d: Seq<char>) -> bool {
    ||| exists|i: int| #![trigger occurs_at(s, pat, i)] {
        &&& occurs_at(s, pat, i)
        &&& forall|j: int| 0 <= j < i ==> !occurs_at(s, pat, j)
        &&& d == s.subrange(0, i)
    }
    ||| (forall|i: int| !occurs_at(s, pat, i)) && d == s
}

/// `c` is what comes after the last `pat` in `s`, or all of `s` when `pat`
/// does not occur.
pub open spec fn is_suffix_after_last(s: Seq<char>, pat: Seq<char>, c: Seq<char>) -> bool {
    ||| exists|i: int| #![trigger occurs_at(s, pat, i)] {
        &&& occurs_at(s, pat, i)
        &&& forall|j: int| i < j ==> !occurs_at(s, pat, j)
        &&& c == s.subrange(i + pat.len(), s.len() as int)
    }
    ||| (forall|i: int| !occurs_at(s, pat, i)) && c == s
}

/// Whether `pat` occurs in `s` at `i`, reading characters one by one.
fn occurs_here(s: &str, n: usize, pat: &Vec<char>, i: usize) -> (r: bool)
    requires
        n == s@.len(),
    ensures
        r == occurs_at(s@, pat@, i as int),
{
    if i > n || pat.len() > n - i {
        return false;
    }
    let mut k: usize = 0;
    while k < pat.len()
        invariant
            k <= pat.len(),
            i + pat.len() <= n == s@.len(),
            forall|q: int| 0 <= q < k ==> s@[i + q] == pat@[q],
        decreases pat.len() - k,
    {
        if s.get_char(i + k) != pat[k] {
            assert(s@.subrange(i as int, i + pat@.len())[k as int] != pat@[k as int]);
            return false;
        }
        k = k + 1;
    }
    assert(s@.subrange(i as int, i + pat@.len()) =~= pat@);
    true
}

/// The characters `':'` and `' '`.
fn table_separator_chars() -> (r: Vec<char>)
    ensures
        r@ == table_separator(),
{
    let mut r: Vec<char> = Vec::new();
    r.push(':');
    r.push(' ');
    assert(r@ =~= table_separator());
    r
}

/// The characters `'-'`, `'-'` and `'>'`.
fn column_separator_chars() -> (r: Vec<char>)
    ensures
        r@ == column_separator(),
{
    let mut r: Vec<char> = Vec::new();
    r.push('-');
    r.push('-');
    r.push('>');
    assert(r@ =~= column_separator());
    r
}

/// The table and the column of a variable: what comes before the first
/// `": "` of its name, and what comes after the last `"-->"` (the whole name
/// where a separator is missing).
pub fn get_df_column_name(variable_name: String) -> (r: (String, String))
    ensures
        is_prefix_before_first(variable_name@, table_separator(), r.0@),
        is_suffix_after_last(variable_name@, column_separator(), r.1@),
{
    let s = variable_name.as_str();
    let n = s.unicode_len();
    let table_pat = table_separator_chars();
    let column_pat = column_separator_chars();
    let mut first: Option<usize> = None;
    let mut last: Option<usize> = None;
    let mut i: usize = 0;
    while i < n
        invariant
            i <= n == s@.len(),
            s@ == variable_name@,
            table_pat@ == table_separator(),
            column_pat@ == column_separator(),
            match first {
                Some(f) => f < i && occurs_at(s@, table_pat@, f as int)
                    && forall|j: int| 0 <= j < f ==> !occurs_at(s@, table_pat@, j),
                None => forall|j: int| 0 <= j < i ==> !occurs_at(s@, table_pat@, j),
            },
            match last {
                Some(l) => l < i && occurs_at(s@, column_pat@, l as int)
                    && forall|j: int| l < j < i ==> !occurs_at(s@, column_pat@, j),
                None => forall|j: int| 0 <= j < i ==> !occurs_at(s@, column_pat@, j),
            },
        decreases n - i,
    {
        if first.is_none() && occurs_here(s, n, &table_pat, i) {
            first = Some(i);
        }
        if occurs_here(s, n, &column_pat, i) {
            last = Some(i);
        }
        i = i + 1;
    }
    proof {
        assert forall|j: int| j >= n implies !occurs_at(s@, table_pat@, j) && !occurs_at(s@, column_pat@, j) by {
        }
    }
    let df_name = match first {
        Some(f) => s.substring_char(0, f).to_owned(),
        None => s.to_owned(),
    };
    let column_name = match last {
        Some(l) => s.substring_char(l + 3, n).to_owned(),
        None => s.to_owned(),
    };
    proof {
        match first {
            Some(f) => {
                assert(occurs_at(variable_name@, table_separator(), f as int));
            },
            None => {
                assert forall|j: int| !occurs_at(variable_name@, table_separator(), j) by {
                    if 0 <= j < n {
                    }
                }
            },
        }
        match last {
            Some(l) => {
                assert(occurs_at(variable_name@, column_separator(), l as int));
                assert forall|j: int| l < j implies !occurs_at(variable_name@, column_separator(), j) by {
                    if j < n {
                    }
                }
            },
            None => {
                assert forall|j: int| !occurs_at(variable_name@, column_separator(), j) by {
                    if 0 <= j < n {
                    }
                }
            },
        }
    }
    (df_name, column_name)
}

} // verus!

verus! {

/// The keys of `ks`, each once, in order of first appearance.
pub open spec fn spec_distinct_in_order<K>(ks: Seq<K>) -> Seq<K>
    decreases ks.len(),
{
    if ks.len() == 0 {
        Seq::empty()
    } else {
        let p = spec_distinct_in_order(ks.drop_last());
        if p.contains(ks.last()) {
            p
        } else {
            p.push(ks.last())
        }
    }
}

/// The positions of `ks` that hold `key`, in increasing order.
pub open spec fn spec_positions_of<K>(ks: Seq<K>, key: K) -> Seq<usize>
    decreases ks.len(),
{
    if ks.len() == 0 {
        Seq::empty()
    } else {
        let p = spec_positions_of(ks.drop_last(), key);
        if ks.last() == key {
            p.push((ks.len() - 1) as usize)
        } else {
            p
        }
    }
}

/// The positions of `ks` that hold `key`, in increasing order, as integers.
pub open spec fn spec_int_positions_of<K>(ks: Seq<K>, key: K) -> Seq<int>
    decreases ks.len(),
{
    if ks.len() == 0 {
        Seq::empty()
    } else {
        let p = spec_int_positions_of(ks.drop_last(), key);
        if ks.last() == key {
            p.push(ks.len() - 1)
        } else {
            p
        }
    }
}

proof fn lemma_int_positions_of_absent<K>(ks: Seq<K>, key: K)
    requires
        !spec_distinct_in_order(ks).contains(key),
    ensures
        spec_int_positions_of(ks, key) == Seq::<int>::empty(),
    decreases ks.len(),
{
    if ks.len() > 0 {
        let p = spec_distinct_in_order(ks.drop_last());
        if p.contains(key) {
            let i = choose|i: int| 0 <= i < p.len() && p[i] == key;
            if !p.contains(ks.last()) {
                assert(p.push(ks.last())[i] == key);
            }
        }
        lemma_int_positions_of_absent(ks.drop_last(), key);
        if ks.last() == key && !p.contains(ks.last()) {
            assert(p.push(ks.last())[p.len() as int] == key);
        }
    }
}

proof fn lemma_int_positions_below<K>(ks: Seq<K>, key: K)
    ensures
        forall|j: int| 0 <= j < spec_int_positions_of(ks, key).len() ==> 0 <= #[trigger] spec_int_positions_of(ks, key)[j] < ks.len(),
    decreases ks.len(),
{
    if ks.len() > 0 {
        lemma_int_positions_below(ks.drop_last(), key);
        let p = spec_int_positions_of(ks.drop_last(), key);
        assert forall|j: int| 0 <= j < spec_int_positions_of(ks, key).len() implies 0 <= #[trigger] spec_int_positions_of(ks, key)[j] < ks.len() by {
            if j < p.len() {
                assert(spec_int_positions_of(ks, key)[j] == p[j]);
            }
        }
    }
}

/// A key that is not among the distinct keys has no positions.
proof fn lemma_positions_of_absent<K>(ks: Seq<K>, key: K)
    requires
        !spec_distinct_in_order(ks).contains(key),
    ensures
        spec_positions_of(ks, key) == Seq::<usize>::empty(),
    decreases ks.len(),
{
    if ks.len() > 0 {
        let p = spec_distinct_in_order(ks.drop_last());
        if p.contains(key) {
            let i = choose|i: int| 0 <= i < p.len() && p[i] == key;
            if !p.contains(ks.last()) {
                assert(p.push(ks.last())[i] == key);
            }
        }
        lemma_positions_of_absent(ks.drop_last(), key);
        if ks.last() == key && !p.contains(ks.last()) {
            assert(p.push(ks.last())[p.len() as int] == key);
        }
    }
}

/// A variable's table and column, as plain character sequences.
pub type ColumnKey = (Seq<char>, Seq<char>);

/// Where the variables of a candidate go in the entity tables: per variable
/// its table and column, per (table, column) the variables in it, and the
/// sample-id columns last built.
pub struct ColumnLayout {
    pub var_id_to_df_name: Vec<String>,
    pub var_id_to_col_name: Vec<String>,
    /// Per distinct (table, column), in order of first appearance, the ids of
    /// its variables in increasing order.
    pub df_column_to_var_ids_map: Vec<(String, String, Vec<usize>)>,
    pub cached_sample_id_vectors: Vec<(String, Vec<u64>)>,
    pub cached_sample_size: usize,
}

impl ColumnLayout {
    /// The (table, column) of each variable.
    pub open spec fn var_keys(&self) -> Seq<ColumnKey> {
        Seq::new(self.var_id_to_df_name@.len(), |i: int| (self.var_id_to_df_name@[i]@, self.var_id_to_col_name@[i]@))
    }

    /// The (table, column) keys of the map, in order.
    pub open spec fn map_keys(&self) -> Seq<ColumnKey> {
        self.df_column_to_var_ids_map@.map_values(|e: (String, String, Vec<usize>)| (e.0@, e.1@))
    }

    /// The variable ids of entry `k` of the map.
    pub open spec fn entry_ids(&self, k: int) -> Seq<usize> {
        self.df_column_to_var_ids_map@[k].2@
    }

    /// The map groups the variables by (table, column).
    pub open spec fn mapping_wf(&self) -> bool {
        &&& self.var_id_to_df_name@.len() == self.var_id_to_col_name@.len()
        &&& self.map_keys() == spec_distinct_in_order(self.var_keys())
        &&& forall|k: int| 0 <= k < self.df_column_to_var_ids_map@.len() ==> #[trigger] self.entry_ids(k)
            == spec_positions_of(self.var_keys(), self.map_keys()[k])
    }

    /// Adds variable `id` under `key` to the map, creating the entry after
    /// the others when there is none.
    fn add_to_map(&mut self, df_name: &String, col_name: &String, id: usize, Ghost(ks): Ghost<Seq<ColumnKey>>)
        requires
            old(self).map_keys() == spec_distinct_in_order(ks),
            forall|k: int| 0 <= k < old(self).df_column_to_var_ids_map@.len() ==> #[trigger] old(self).entry_ids(k)
                == spec_positions_of(ks, old(self).map_keys()[k]),
            id == ks.len(),
        ensures
            final(self).map_keys() == spec_distinct_in_order(ks.push((df_name@, col_name@))),
            forall|k: int| 0 <= k < final(self).df_column_to_var_ids_map@.len() ==> #[trigger] final(self).entry_ids(k)
                == spec_positions_of(ks.push((df_name@, col_name@)), final(self).map_keys()[k]),
            final(self).var_id_to_df_name == old(self).var_id_to_df_name,
            final(self).var_id_to_col_name == old(self).var_id_to_col_name,
            final(self).cached_sample_id_vectors == old(self).cached_sample_id_vectors,
            final(self).cached_sample_size == old(self).cached_sample_size,
    {
        let ghost key = (df_name@, col_name@);
        let ghost ks2 = ks.push(key);
        proof {
            assert(ks2.drop_last() =~= ks);
            assert(ks2.last() == key);
        }
        let mut k: usize = 0;
        while k < self.df_column_to_var_ids_map.len()
            invariant
                *self == *old(self),
                k <= self.df_column_to_var_ids_map@.len(),
                key == (df_name@, col_name@),
                ks2 == ks.push(key),
                ks2.drop_last() == ks,
                old(self).map_keys() == spec_distinct_in_order(ks),
                forall|q: int| 0 <= q < old(self).df_column_to_var_ids_map@.len() ==> #[trigger] old(self).entry_ids(q)
                    == spec_positions_of(ks, old(self).map_keys()[q]),
                id == ks.len(),
                forall|q: int| 0 <= q < k ==> (#[trigger] self.map_keys()[q]) != key,
            decreases self.df_column_to_var_ids_map.len() - k,
        {
            if self.df_column_to_var_ids_map[k].0 == *df_name && self.df_column_to_var_ids_map[k].1 == *col_name {
                let ghost before = self.df_column_to_var_ids_map@;
                let mut entry = (String::new(), String::new(), Vec::new());
                std::mem::swap(&mut entry, &mut self.df_column_to_var_ids_map[k]);
                entry.2.push(id);
                self.df_column_to_var_ids_map[k] = entry;
                proof {
                    assert(self.map_keys() =~= old(self).map_keys());
                    assert(old(self).map_keys()[k as int] == key);
                    assert(spec_distinct_in_order(ks).contains(key));
                    assert forall|q: int| 0 <= q < self.df_column_to_var_ids_map@.len() implies #[trigger] self.entry_ids(q)
                        == spec_positions_of(ks2, self.map_keys()[q]) by {
                        let mq = self.map_keys()[q];
                        assert(old(self).entry_ids(q) == spec_positions_of(ks, old(self).map_keys()[q]));
                        assert(mq == old(self).map_keys()[q]);
                        if q != k {
                            assert(self.df_column_to_var_ids_map@[q] == before[q]);
                            assert(spec_distinct_in_order(ks).no_duplicates()) by {
                                lemma_distinct_in_order(ks);
                            }
                            assert(self.map_keys()[q] != self.map_keys()[k as int]);
                            assert(self.entry_ids(q) == old(self).entry_ids(q));
                            assert(spec_positions_of(ks2, mq) == spec_positions_of(ks, mq));
                        } else {
                            assert(self.entry_ids(q) =~= old(self).entry_ids(q).push(id));
                            assert(spec_positions_of(ks2, mq) == spec_positions_of(ks, mq).push(id));
                        }
                    }
                }
                return;
            }
            proof {
                assert(self.map_keys()[k as int] == (self.df_column_to_var_ids_map@[k as int].0@, self.df_column_to_var_ids_map@[k as int].1@));
            }
            k = k + 1;
        }
        let ghost before = self.df_column_to_var_ids_map@;
        let mut ids: Vec<usize> = Vec::new();
        ids.push(id);
        self.df_column_to_var_ids_map.push((df_name.clone(), col_name.clone(), ids));
        proof {
            let n = before.len() as int;
            assert(!spec_distinct_in_order(ks).contains(key)) by {
                if spec_distinct_in_order(ks).contains(key) {
                    let q = choose|q: int| 0 <= q < n && spec_distinct_in_order(ks)[q] == key;
                    assert(old(self).map_keys()[q] == key);
                }
            }
            assert(self.map_keys() =~= old(self).map_keys().push(key));
            lemma_positions_of_absent(ks, key);
            assert(self.entry_ids(n) =~= Seq::<usize>::empty().push(id));
            assert forall|q: int| 0 <= q < n implies #[trigger] self.entry_ids(q) == spec_positions_of(ks2, self.map_keys()[q]) by {
                assert(self.df_column_to_var_ids_map@[q] == before[q]);
                let mq = self.map_keys()[q];
                assert(mq == old(self).map_keys()[q]);
                assert(mq != key);
                assert(self.entry_ids(q) == old(self).entry_ids(q));
                assert(old(self).entry_ids(q) == spec_positions_of(ks, mq));
                assert(spec_positions_of(ks2, mq) == spec_positions_of(ks, mq));
            }
            assert(spec_positions_of(ks2, key) == spec_positions_of(ks, key).push(id));
        }
    }
}

/// The distinct keys hold no key twice, and each is one of the keys.
pub proof fn lemma_distinct_in_order<K>(ks: Seq<K>)
    ensures
        spec_distinct_in_order(ks).no_duplicates(),
        forall|x: K| spec_distinct_in_order(ks).contains(x) <==> ks.contains(x),
    decreases ks.len(),
{
    if ks.len() > 0 {
        lemma_distinct_in_order(ks.drop_last());
        let p = spec_distinct_in_order(ks.drop_last());
        assert forall|x: K| spec_distinct_in_order(ks).contains(x) <==> ks.contains(x) by {
            if ks.contains(x) {
                let i = choose|i: int| 0 <= i < ks.len() && ks[i] == x;
                if i < ks.len() - 1 {
                    assert(ks.drop_last()[i] == x);
                    assert(ks.drop_last().contains(x));
                    assert(p.contains(x));
                    if !p.contains(ks.last()) {
                        let j = choose|j: int| 0 <= j < p.len() && p[j] == x;
                        assert(p.push(ks.last())[j] == x);
                    }
                } else if !p.contains(ks.last()) {
                    assert(p.push(ks.last())[p.len() as int] == x);
                }
            }
            if spec_distinct_in_order(ks).contains(x) {
                if p.contains(x) {
                    assert(ks.drop_last().contains(x));
                    let i = choose|i: int| 0 <= i < ks.drop_last().len() && ks.drop_last()[i] == x;
                    assert(ks[i] == x);
                } else {
                    assert(x == ks.last());
                    assert(ks[ks.len() - 1] == x);
                }
            }
        }
    }
}

impl ColumnLayout {
    /// The layout of variables with the given names: each variable's table
    /// and column (see `get_df_column_name`) and, per (table, column), its
    /// variables. No sample-id column has been built yet.
    pub fn new(variable_names: &Vec<String>) -> (m: Self)
        ensures
            m.mapping_wf(),
            m.var_id_to_df_name@.len() == variable_names@.len(),
            forall|i: int| 0 <= i < variable_names@.len() ==> {
                &&& is_prefix_before_first(variable_names@[i]@, table_separator(), #[trigger] m.var_id_to_df_name@[i]@)
                &&& is_suffix_after_last(variable_names@[i]@, column_separator(), m.var_id_to_col_name@[i]@)
            },
            m.cached_sample_id_vectors@.len() == 0,
            m.cached_sample_size == 999_999_999,
    {
        let mut m = ColumnLayout {
            var_id_to_df_name: Vec::new(),
            var_id_to_col_name: Vec::new(),
            df_column_to_var_ids_map: Vec::new(),
            cached_sample_id_vectors: Vec::new(),
            cached_sample_size: 999_999_999,
        };
        proof {
            assert(m.var_keys() =~= Seq::<ColumnKey>::empty());
            assert(m.map_keys() =~= Seq::<ColumnKey>::empty());
        }
        let mut i: usize = 0;
        while i < variable_names.len()
            invariant
                i <= variable_names@.len(),
                m.mapping_wf(),
                m.var_id_to_df_name@.len() == i,
                forall|j: int| 0 <= j < i ==> {
                    &&& is_prefix_before_first(variable_names@[j]@, table_separator(), #[trigger] m.var_id_to_df_name@[j]@)
                    &&& is_suffix_after_last(variable_names@[j]@, column_separator(), m.var_id_to_col_name@[j]@)
                },
                m.cached_sample_id_vectors@.len() == 0,
                m.cached_sample_size == 999_999_999,
            decreases variable_names.len() - i,
        {
            let (df_name, col_name) = get_df_column_name(variable_names[i].clone());
            let ghost ks = m.var_keys();
            m.add_to_map(&df_name, &col_name, i, Ghost(ks));
            let ghost mid = m;
            m.var_id_to_df_name.push(df_name);
            m.var_id_to_col_name.push(col_name);
            proof {
                assert(m.var_keys() =~= ks.push((df_name@, col_name@)));
                assert(m.map_keys() == spec_distinct_in_order(m.var_keys()));
                assert forall|k: int| 0 <= k < m.df_column_to_var_ids_map@.len() implies #[trigger] m.entry_ids(k)
                    == spec_positions_of(m.var_keys(), m.map_keys()[k]) by {
                    assert(mid.entry_ids(k) == m.entry_ids(k));
                }
            }
            i = i + 1;
        }
        m
    }

    /// Per variable, its table, its column, and how many variables of the
    /// same (table, column) come before it: its row in that column.
    pub fn build_var_id_to_df_column_index_map(&self) -> (r: Vec<(String, String, usize)>)
        requires
            self.var_id_to_df_name@.len() == self.var_id_to_col_name@.len(),
        ensures
            r@.len() == self.var_keys().len(),
            forall|i: int| 0 <= i < r@.len() ==> {
                &&& (#[trigger] r@[i]).0@ == self.var_keys()[i].0
                &&& r@[i].1@ == self.var_keys()[i].1
                &&& r@[i].2 == spec_positions_of(self.var_keys().take(i), self.var_keys()[i]).len()
            },
    {
        let ghost ks = self.var_keys();
        let mut counters: Vec<(String, String, usize)> = Vec::new();
        let mut r: Vec<(String, String, usize)> = Vec::new();
        proof {
            assert(ks.take(0) =~= Seq::<ColumnKey>::empty());
            assert(counters@.map_values(|e: (String, String, usize)| (e.0@, e.1@)) =~= Seq::<ColumnKey>::empty());
        }
        let mut i: usize = 0;
        while i < self.var_id_to_df_name.len()
            invariant
                i <= self.var_id_to_df_name@.len() == self.var_id_to_col_name@.len(),
                ks == self.var_keys(),
                r@.len() == i,
                forall|j: int| 0 <= j < i ==> {
                    &&& (#[trigger] r@[j]).0@ == ks[j].0
                    &&& r@[j].1@ == ks[j].1
                    &&& r@[j].2 == spec_positions_of(ks.take(j), ks[j]).len()
                },
                counters@.map_values(|e: (String, String, usize)| (e.0@, e.1@)) == spec_distinct_in_order(ks.take(i as int)),
                forall|q: int| 0 <= q < counters@.len() ==> (#[trigger] counters@[q]).2
                    == spec_positions_of(ks.take(i as int), (counters@[q].0@, counters@[q].1@)).len(),
            decreases self.var_id_to_df_name.len() - i,
        {
            let df_name = &self.var_id_to_df_name[i];
            let col_name = &self.var_id_to_col_name[i];
            let ghost key: ColumnKey = (df_name@, col_name@);
            let ghost pre = ks.take(i as int);
            let ghost next = ks.take(i + 1);
            let ghost keys_before = counters@.map_values(|e: (String, String, usize)| (e.0@, e.1@));
            proof {
                assert(next.drop_last() =~= pre);
                assert(next.last() == key);
                assert(ks[i as int] == key);
                lemma_positions_len(pre, key);
            }
            let row: usize;
            match find_counter(&counters, df_name, col_name) {
                Some(k) => {
                    proof {
                        assert(keys_before[k as int] == key);
                        assert(counters@[k as int].2 == spec_positions_of(pre, key).len());
                    }
                    row = counters[k].2;
                    let ghost before = counters@;
                    let mut entry = (String::new(), String::new(), 0usize);
                    std::mem::swap(&mut entry, &mut counters[k]);
                    entry.2 = entry.2 + 1;
                    counters[k] = entry;
                    proof {
                        assert(spec_distinct_in_order(pre).contains(key)) by {
                            assert(keys_before[k as int] == key);
                        }
                        assert(counters@.map_values(|e: (String, String, usize)| (e.0@, e.1@)) =~= keys_before);
                        lemma_distinct_in_order(pre);
                        assert forall|q: int| 0 <= q < counters@.len() implies (#[trigger] counters@[q]).2
                            == spec_positions_of(next, (counters@[q].0@, counters@[q].1@)).len() by {
                            let kq: ColumnKey = (counters@[q].0@, counters@[q].1@);
                            if q != k {
                                assert(counters@[q] == before[q]);
                                assert(keys_before[q] == kq);
                                assert(keys_before[q] != keys_before[k as int]);
                                assert(spec_positions_of(next, kq) == spec_positions_of(pre, kq));
                            } else {
                                assert(kq == key);
                                assert(spec_positions_of(next, kq) == spec_positions_of(pre, kq).push(i));
                            }
                        }
                    }
                },
                None => {
                    row = 0;
                    counters.push((df_name.clone(), col_name.clone(), 1));
                    proof {
                        assert(!spec_distinct_in_order(pre).contains(key)) by {
                            if spec_distinct_in_order(pre).contains(key) {
                                let q = choose|q: int| 0 <= q < keys_before.len() && keys_before[q] == key;
                                assert(keys_before[q] == (counters@[q].0@, counters@[q].1@));
                            }
                        }
                        lemma_positions_of_absent(pre, key);
                        assert(counters@.map_values(|e: (String, String, usize)| (e.0@, e.1@)) =~= keys_before.push(key));
                        assert forall|q: int| 0 <= q < counters@.len() implies (#[trigger] counters@[q]).2
                            == spec_positions_of(next, (counters@[q].0@, counters@[q].1@)).len() by {
                            let kq: ColumnKey = (counters@[q].0@, counters@[q].1@);
                            if q < keys_before.len() {
                                assert(keys_before[q] == kq);
                                assert(kq != key);
                                assert(spec_positions_of(next, kq) == spec_positions_of(pre, kq));
                            } else {
                                assert(kq == key);
                                assert(spec_positions_of(next, kq) == spec_positions_of(pre, kq).push(i));
                            }
                        }
                    }
                },
            }
            r.push((df_name.clone(), col_name.clone(), row));
            proof {
                assert(row == spec_positions_of(ks.take(i as int), ks[i as int]).len());
            }
            i = i + 1;
        }
        r
    }
}

/// Position of the counter of `(df_name, col_name)`, if there is one.
fn find_counter(counters: &Vec<(String, String, usize)>, df_name: &String, col_name: &String) -> (r: Option<usize>)
    ensures
        match r {
            Some(k) => k < counters@.len() && counters@[k as int].0@ == df_name@ && counters@[k as int].1@ == col_name@,
            None => forall|q: int| 0 <= q < counters@.len() ==> (#[trigger] counters@[q].0@, counters@[q].1@) != (df_name@, col_name@),
        },
{
    let mut k: usize = 0;
    while k < counters.len()
        invariant
            k <= counters@.len(),
            forall|q: int| 0 <= q < k ==> (#[trigger] counters@[q].0@, counters@[q].1@) != (df_name@, col_name@),
        decreases counters.len() - k,
    {
        if counters[k].0 == *df_name && counters[k].1 == *col_name {
            return Some(k);
        }
        k = k + 1;
    }
    None
}

/// No key has more positions than there are keys.
proof fn lemma_positions_len<K>(ks: Seq<K>, key: K)
    ensures
        spec_positions_of(ks, key).len() <= ks.len(),
    decreases ks.len(),
{
    if ks.len() > 0 {
        lemma_positions_len(ks.drop_last(), key);
    }
}

/// Every position of a key lies below the number of keys, in increasing order.
proof fn lemma_positions_below<K>(ks: Seq<K>, key: K)
    ensures
        forall|j: int| 0 <= j < spec_positions_of(ks, key).len() ==> (#[trigger] spec_positions_of(ks, key)[j]) < ks.len(),
    decreases ks.len(),
{
    if ks.len() > 0 {
        lemma_positions_below(ks.drop_last(), key);
        let p = spec_positions_of(ks.drop_last(), key);
        assert forall|j: int| 0 <= j < spec_positions_of(ks, key).len() implies (#[trigger] spec_positions_of(ks, key)[j]) < ks.len() by {
            if j < p.len() {
                assert(spec_positions_of(ks, key)[j] == p[j]);
            }
        }
    }
}

/// The values of the variables `ids` in each sample, sample after sample.
pub open spec fn spec_sample_column<V>(samples: Seq<Seq<V>>, ids: Seq<usize>) -> Seq<V>
    decreases samples.len(),
{
    if samples.len() == 0 {
        Seq::empty()
    } else {
        spec_sample_column(samples.drop_last(), ids) + Seq::new(ids.len(), |j: int| samples.last()[ids[j] as int])
    }
}

/// The sample-id column of `count` samples of `width` rows each: `width`
/// zeros, then `width` ones, and so on.
pub open spec fn spec_sample_ids(count: nat, width: nat) -> Seq<u64>
    decreases count,
{
    if count == 0 {
        Seq::empty()
    } else {
        spec_sample_ids((count - 1) as nat, width) + Seq::new(width, |j: int| (count - 1) as u64)
    }
}

proof fn lemma_sample_column_len<V>(samples: Seq<Seq<V>>, ids: Seq<usize>)
    ensures
        spec_sample_column(samples, ids).len() == samples.len() * ids.len(),
    decreases samples.len(),
{
    if samples.len() > 0 {
        lemma_sample_column_len(samples.drop_last(), ids);
        assert(samples.len() * ids.len() == (samples.len() - 1) * ids.len() + ids.len()) by (nonlinear_arith);
    }
}

/// One table of a batch of samples: each of its columns with the values of
/// all samples, sample after sample, and its sample-id column when asked for.
pub struct TableData<V> {
    pub df_name: String,
    pub columns: Vec<(String, Vec<V>)>,
    pub sample_ids: Option<Vec<u64>>,
}

impl ColumnLayout {
    /// The table of each entry of the map.
    pub open spec fn map_tables(&self) -> Seq<Seq<char>> {
        self.map_keys().map_values(|k: ColumnKey| k.0)
    }

    /// The tables of the map, each once, in order of first appearance.
    pub open spec fn tables(&self) -> Seq<Seq<char>> {
        spec_distinct_in_order(self.map_tables())
    }

    /// How many rows table `t` has per sample: the number of variables of
    /// its first column.
    pub open spec fn table_width(&self, t: Seq<char>) -> nat {
        self.entry_ids(spec_positions_of(self.map_tables(), t)[0] as int).len()
    }

    /// A sample-id column is kept for every table, in the order of the tables.
    pub open spec fn sample_ids_cached(&self) -> bool {
        &&& self.cached_sample_id_vectors@.len() == self.tables().len()
        &&& forall|q: int| 0 <= q < self.cached_sample_id_vectors@.len()
            ==> (#[trigger] self.cached_sample_id_vectors@[q]).0@ == self.tables()[q]
    }

    /// The sample-id columns kept are those of `cached_sample_size` samples,
    /// one per table; none is kept before the first are built, while the
    /// kept count still has its initial value.
    pub open spec fn cache_wf(&self) -> bool {
        &&& forall|q: int| 0 <= q < self.cached_sample_id_vectors@.len() ==> {
            &&& self.tables().contains((#[trigger] self.cached_sample_id_vectors@[q]).0@)
            &&& self.cached_sample_id_vectors@[q].1@ == spec_sample_ids(
                self.cached_sample_size as nat, self.table_width(self.cached_sample_id_vectors@[q].0@))
        }
        &&& self.sample_ids_cached()
            || (self.cached_sample_id_vectors@.len() == 0 && self.cached_sample_size == 999_999_999)
    }

    /// Well-formedness: the map groups the variables and the kept sample-id
    /// columns match the kept sample count.
    pub open spec fn wf(&self) -> bool {
        &&& self.mapping_wf()
        &&& self.cache_wf()
    }

    /// `data` holds, for table `tables()[a]`, each of its columns (in the
    /// map's order) with the values of `samples`.
    pub open spec fn spec_table_filled<V>(&self, samples: Seq<Seq<V>>, a: int, data: TableData<V>) -> bool {
        let t = self.tables()[a];
        let ps = spec_positions_of(self.map_tables(), t);
        &&& data.df_name@ == t
        &&& data.columns@.len() == ps.len()
        &&& forall|j: int| 0 <= j < ps.len() ==> {
            &&& (#[trigger] data.columns@[j]).0@ == self.map_keys()[ps[j] as int].1
            &&& data.columns@[j].1@ == spec_sample_column(samples, self.entry_ids(ps[j] as int))
        }
    }
}

/// The samples as sequences of values.
pub open spec fn spec_samples<V>(samples: Seq<Vec<V>>) -> Seq<Seq<V>> {
    samples.map_values(|v: Vec<V>| v@)
}

/// The values of the variables `ids` in each sample, sample after sample.
fn sample_column<V: Copy>(samples: &Vec<Vec<V>>, ids: &Vec<usize>, Ghost(bound): Ghost<int>) -> (r: Vec<V>)
    requires
        forall|j: int| 0 <= j < ids@.len() ==> #[trigger] ids@[j] < bound,
        forall|s: int| 0 <= s < samples@.len() ==> (#[trigger] samples@[s])@.len() >= bound,
    ensures
        r@ == spec_sample_column(spec_samples(samples@), ids@),
{
    let mut r: Vec<V> = Vec::new();
    let mut s: usize = 0;
    while s < samples.len()
        invariant
            s <= samples@.len(),
            forall|j: int| 0 <= j < ids@.len() ==> #[trigger] ids@[j] < bound,
            forall|s: int| 0 <= s < samples@.len() ==> (#[trigger] samples@[s])@.len() >= bound,
            r@ == spec_sample_column(spec_samples(samples@).take(s as int), ids@),
        decreases samples.len() - s,
    {
        let ghost before = r@;
        let sample = &samples[s];
        let mut j: usize = 0;
        while j < ids.len()
            invariant
                j <= ids@.len(),
                forall|j: int| 0 <= j < ids@.len() ==> #[trigger] ids@[j] < bound,
                sample@.len() >= bound,
                r@ == before + Seq::new(j as nat, |q: int| sample@[ids@[q] as int]),
            decreases ids.len() - j,
        {
            r.push(sample[ids[j]]);
            j = j + 1;
            proof {
                assert(r@ =~= before + Seq::new(j as nat, |q: int| sample@[ids@[q] as int]));
            }
        }
        proof {
            let all = spec_samples(samples@);
            assert(all.take(s + 1).drop_last() =~= all.take(s as int));
            assert(all.take(s + 1).last() == sample@);
        }
        s = s + 1;
    }
    assert(spec_samples(samples@).take(samples@.len() as int) =~= spec_samples(samples@));
    r
}

/// The sample-id column of `count` samples of `width` rows each.
fn build_sample_ids(count: usize, width: usize) -> (r: Vec<u64>)
    ensures
        r@ == spec_sample_ids(count as nat, width as nat),
{
    let mut r: Vec<u64> = Vec::new();
    let mut i: usize = 0;
    while i < count
        invariant
            i <= count,
            r@ == spec_sample_ids(i as nat, width as nat),
        decreases count - i,
    {
        let ghost before = r@;
        let mut j: usize = 0;
        while j < width
            invariant
                j <= width,
                r@ == before + Seq::new(j as nat, |q: int| i as u64),
            decreases width - j,
        {
            r.push(i as u64);
            j = j + 1;
            proof {
                assert(r@ =~= before + Seq::new(j as nat, |q: int| i as u64));
            }
        }
        i = i + 1;
    }
    r
}

/// Position of the table named `name`, if there is one.
fn find_table<V>(tables: &Vec<TableData<V>>, name: &String) -> (r: Option<usize>)
    ensures
        match r {
            Some(a) => a < tables@.len() && tables@[a as int].df_name@ == name@
                && forall|q: int| 0 <= q < a ==> (#[trigger] tables@[q]).df_name@ != name@,
            None => forall|a: int| 0 <= a < tables@.len() ==> (#[trigger] tables@[a]).df_name@ != name@,
        },
{
    let mut a: usize = 0;
    while a < tables.len()
        invariant
            a <= tables@.len(),
            forall|q: int| 0 <= q < a ==> (#[trigger] tables@[q]).df_name@ != name@,
        decreases tables.len() - a,
    {
        if tables[a].df_name == *name {
            return Some(a);
        }
        a = a + 1;
    }
    None
}

/// The names of the tables.
pub open spec fn spec_table_names<V>(tables: Seq<TableData<V>>) -> Seq<Seq<char>> {
    tables.map_values(|d: TableData<V>| d.df_name@)
}

impl ColumnLayout {
    /// `data` holds table `a` of the map's first `k` entries, filled with the
    /// values of `samples`.
    pub open spec fn spec_filled_upto<V>(&self, samples: Seq<Seq<V>>, k: int, a: int, data: TableData<V>) -> bool {
        let mt = self.map_tables().take(k);
        let t = spec_distinct_in_order(mt)[a];
        let ps = spec_positions_of(mt, t);
        &&& data.df_name@ == t
        &&& data.columns@.len() == ps.len()
        &&& forall|j: int| 0 <= j < ps.len() ==> {
            &&& (#[trigger] data.columns@[j]).0@ == self.map_keys()[ps[j] as int].1
            &&& data.columns@[j].1@ == spec_sample_column(samples, self.entry_ids(ps[j] as int))
        }
    }

    /// The tables of the map filled with the values of `samples`, without
    /// sample-id columns.
    fn fill_tables<V: Copy>(&self, samples: &Vec<Vec<V>>) -> (r: Vec<TableData<V>>)
        requires
            self.wf(),
            forall|s: int| 0 <= s < samples@.len() ==> (#[trigger] samples@[s])@.len() >= self.var_keys().len(),
        ensures
            spec_table_names(r@) == self.tables(),
            forall|a: int| 0 <= a < r@.len() ==> self.spec_table_filled(spec_samples(samples@), a, #[trigger] r@[a]),
            forall|a: int| 0 <= a < r@.len() ==> (#[trigger] r@[a]).sample_ids is None,
    {
        let ghost sv = spec_samples(samples@);
        let ghost mt_all = self.map_tables();
        let mut tables: Vec<TableData<V>> = Vec::new();
        proof {
            assert(mt_all.take(0) =~= Seq::<Seq<char>>::empty());
            assert(spec_table_names(tables@) =~= Seq::<Seq<char>>::empty());
        }
        let mut k: usize = 0;
        while k < self.df_column_to_var_ids_map.len()
            invariant
                self.wf(),
                forall|s: int| 0 <= s < samples@.len() ==> (#[trigger] samples@[s])@.len() >= self.var_keys().len(),
                sv == spec_samples(samples@),
                mt_all == self.map_tables(),
                k <= self.df_column_to_var_ids_map@.len(),
                spec_table_names(tables@) == spec_distinct_in_order(mt_all.take(k as int)),
                forall|a: int| 0 <= a < tables@.len() ==> self.spec_filled_upto(sv, k as int, a, #[trigger] tables@[a]),
                forall|a: int| 0 <= a < tables@.len() ==> (#[trigger] tables@[a]).sample_ids is None,
            decreases self.df_column_to_var_ids_map.len() - k,
        {
            let entry = &self.df_column_to_var_ids_map[k];
            proof {
                let key = self.map_keys()[k as int];
                lemma_positions_below(self.var_keys(), key);
                assert(self.entry_ids(k as int) == spec_positions_of(self.var_keys(), key));
                assert forall|j: int| 0 <= j < entry.2@.len() implies #[trigger] entry.2@[j] < self.var_keys().len() by {
                    assert(entry.2@[j] == spec_positions_of(self.var_keys(), key)[j]);
                }
            }
            let data = sample_column(samples, &entry.2, Ghost(self.var_keys().len() as int));
            let ghost t = entry.0@;
            let ghost pre = mt_all.take(k as int);
            let ghost next = mt_all.take(k + 1);
            let ghost names_before = spec_table_names(tables@);
            let ghost tables_before = tables@;
            proof {
                assert(next.drop_last() =~= pre);
                assert(mt_all[k as int] == t);
                assert(next.last() == t);
                lemma_distinct_in_order(pre);
            }
            match find_table(&tables, &entry.0) {
                Some(a) => {
                    let mut table = TableData { df_name: String::new(), columns: Vec::new(), sample_ids: None };
                    std::mem::swap(&mut table, &mut tables[a]);
                    table.columns.push((entry.1.clone(), data));
                    tables[a] = table;
                    proof {
                        assert(names_before[a as int] == t);
                        assert(spec_distinct_in_order(pre).contains(t));
                        assert(spec_table_names(tables@) =~= names_before);
                        assert forall|b: int| 0 <= b < tables@.len() implies self.spec_filled_upto(sv, k + 1, b, #[trigger] tables@[b]) by {
                            let tb = names_before[b];
                            assert(spec_distinct_in_order(next)[b] == tb);
                            assert(spec_distinct_in_order(pre)[b] == tb);
                            assert(self.spec_filled_upto(sv, k as int, b, tables_before[b]));
                            if b != a {
                                assert(tables@[b] == tables_before[b]);
                                assert(tb != t);
                                assert(spec_positions_of(next, tb) == spec_positions_of(pre, tb));
                            } else {
                                assert(tb == t);
                                assert(spec_positions_of(next, tb) == spec_positions_of(pre, tb).push(k));
                                let ps = spec_positions_of(next, tb);
                                assert forall|j: int| 0 <= j < ps.len() implies {
                                    &&& (#[trigger] tables@[b].columns@[j]).0@ == self.map_keys()[ps[j] as int].1
                                    &&& tables@[b].columns@[j].1@ == spec_sample_column(sv, self.entry_ids(ps[j] as int))
                                } by {
                                    if j < ps.len() - 1 {
                                        assert(tables@[b].columns@[j] == tables_before[b].columns@[j]);
                                    } else {
                                        assert(ps[j] == k);
                                        assert(self.map_keys()[k as int].1 == entry.1@);
                                    }
                                }
                            }
                        }
                        assert forall|b: int| 0 <= b < tables@.len() implies (#[trigger] tables@[b]).sample_ids is None by {
                            if b != a {
                                assert(tables@[b] == tables_before[b]);
                            }
                        }
                    }
                },
                None => {
                    let mut columns: Vec<(String, Vec<V>)> = Vec::new();
                    columns.push((entry.1.clone(), data));
                    tables.push(TableData { df_name: entry.0.clone(), columns, sample_ids: None });
                    proof {
                        let n = names_before.len() as int;
                        assert(!spec_distinct_in_order(pre).contains(t)) by {
                            if spec_distinct_in_order(pre).contains(t) {
                                let q = choose|q: int| 0 <= q < n && names_before[q] == t;
                                assert(tables_before[q].df_name@ == t);
                            }
                        }
                        lemma_positions_of_absent(pre, t);
                        assert(spec_table_names(tables@) =~= names_before.push(t));
                        assert(spec_distinct_in_order(next) == names_before.push(t));
                        assert forall|b: int| 0 <= b < tables@.len() implies self.spec_filled_upto(sv, k + 1, b, #[trigger] tables@[b]) by {
                            if b < n {
                                let tb = names_before[b];
                                assert(spec_distinct_in_order(next)[b] == tb);
                                assert(self.spec_filled_upto(sv, k as int, b, tables_before[b]));
                                assert(tables@[b] == tables_before[b]);
                                assert(tb != t);
                                assert(spec_positions_of(next, tb) == spec_positions_of(pre, tb));
                            } else {
                                assert(spec_distinct_in_order(next)[b] == t);
                                assert(spec_positions_of(next, t) =~= seq![k as usize]);
                                assert(self.map_keys()[k as int].1 == entry.1@);
                            }
                        }
                    }
                },
            }
            k = k + 1;
        }
        proof {
            assert(mt_all.take(mt_all.len() as int) =~= mt_all);
            assert forall|a: int| 0 <= a < tables@.len() implies self.spec_table_filled(sv, a, #[trigger] tables@[a]) by {
                assert(self.spec_filled_upto(sv, k as int, a, tables@[a]));
            }
        }
        tables
    }
}

/// The sample-id column of a table is `spec_sample_ids` of `count`
/// samples of the table's width.
pub open spec fn spec_ids_of(layout: ColumnLayout, t: Seq<char>, count: nat, ids: Option<Vec<u64>>) -> bool {
    ids matches Some(v) && v@ == spec_sample_ids(count, layout.table_width(t))
}

impl ColumnLayout {
    /// The tables of the map filled with the values of the samples (see
    /// `spec_table_filled`). When asked, each table also gets its sample-id
    /// column: built anew when the number of samples differs from the one
    /// last seen (and kept for next time), or else taken from those kept.
    pub fn build_group_data_map<V: Copy>(&mut self, samples_vec: &Vec<Vec<V>>, include_sample_id_column: bool) -> (r: Vec<TableData<V>>)
        requires
            old(self).wf(),
            forall|s: int| 0 <= s < samples_vec@.len() ==> (#[trigger] samples_vec@[s])@.len() >= old(self).var_keys().len(),
            include_sample_id_column && samples_vec@.len() != old(self).cached_sample_size ==> samples_vec@.len() > 0,
        ensures
            final(self).wf(),
            final(self).var_id_to_df_name == old(self).var_id_to_df_name,
            final(self).var_id_to_col_name == old(self).var_id_to_col_name,
            final(self).df_column_to_var_ids_map == old(self).df_column_to_var_ids_map,
            spec_table_names(r@) == old(self).tables(),
            forall|a: int| 0 <= a < r@.len() ==> old(self).spec_table_filled(spec_samples(samples_vec@), a, #[trigger] r@[a]),
            !include_sample_id_column ==> forall|a: int| 0 <= a < r@.len() ==> (#[trigger] r@[a]).sample_ids is None,
            !include_sample_id_column ==> *final(self) == *old(self),
            include_sample_id_column && samples_vec@.len() != old(self).cached_sample_size ==> {
                &&& final(self).cached_sample_size == samples_vec@.len()
                &&& forall|a: int| 0 <= a < r@.len() ==> spec_ids_of(*old(self), old(self).tables()[a],
                    samples_vec@.len() as nat, (#[trigger] r@[a]).sample_ids)
            },
            include_sample_id_column && samples_vec@.len() == old(self).cached_sample_size ==> {
                &&& *final(self) == *old(self)
                &&& old(self).sample_ids_cached() ==> forall|a: int| 0 <= a < r@.len() ==> spec_ids_of(
                    *old(self), old(self).tables()[a], samples_vec@.len() as nat, (#[trigger] r@[a]).sample_ids)
                &&& !old(self).sample_ids_cached() ==> forall|a: int| 0 <= a < r@.len() ==> (#[trigger] r@[a]).sample_ids is None
            },
    {
        let mut tables = self.fill_tables(samples_vec);
        if !include_sample_id_column {
            return tables;
        }
        let ghost sv = spec_samples(samples_vec@);
        let samples_count = samples_vec.len();
        if samples_count != self.cached_sample_size {
            let mut cache: Vec<(String, Vec<u64>)> = Vec::new();
            let mut a: usize = 0;
            while a < tables.len()
                invariant
                    *self == *old(self),
                    self.wf(),
                    samples_count == samples_vec@.len() > 0,
                    sv == spec_samples(samples_vec@),
                    a <= tables@.len(),
                    spec_table_names(tables@) == self.tables(),
                    forall|b: int| 0 <= b < tables@.len() ==> self.spec_table_filled(sv, b, #[trigger] tables@[b]),
                    cache@.len() == a,
                    forall|b: int| 0 <= b < a ==> (#[trigger] cache@[b]).0@ == self.tables()[b]
                        && cache@[b].1@ == spec_sample_ids(samples_count as nat, self.table_width(self.tables()[b])),
                    forall|b: int| 0 <= b < a ==> spec_ids_of(*self, self.tables()[b], samples_count as nat, (#[trigger] tables@[b]).sample_ids),
                decreases tables.len() - a,
            {
                let ghost t = self.tables()[a as int];
                let ghost ps = spec_positions_of(self.map_tables(), t);
                proof {
                    assert(spec_table_names(tables@)[a as int] == t);
                    assert(self.spec_table_filled(sv, a as int, tables@[a as int]));
                    lemma_distinct_in_order(self.map_tables());
                    assert(self.map_tables().contains(t));
                    let i = choose|i: int| 0 <= i < self.map_tables().len() && self.map_tables()[i] == t;
                    lemma_positions_nonempty(self.map_tables(), t, i);
                    lemma_sample_column_len(sv, self.entry_ids(ps[0] as int));
                    assert(tables@[a as int].columns@[0].1@ == spec_sample_column(sv, self.entry_ids(ps[0] as int)));
                }
                let column_len = tables[a].columns[0].1.len();
                let width = column_len / samples_count;
                proof {
                    let w = self.table_width(t);
                    assert(column_len == samples_count * w);
                    assert(width == w) by (nonlinear_arith)
                        requires column_len == samples_count * w, samples_count > 0, width == column_len / samples_count;
                }
                let ids = build_sample_ids(samples_count, width);
                let ghost before = tables@;
                let mut table = TableData { df_name: String::new(), columns: Vec::new(), sample_ids: None };
                std::mem::swap(&mut table, &mut tables[a]);
                table.sample_ids = Some(ids.clone());
                let name = table.df_name.clone();
                tables[a] = table;
                cache.push((name, ids));
                proof {
                    assert(spec_table_names(tables@) =~= spec_table_names(before));
                    assert forall|b: int| 0 <= b < tables@.len() implies self.spec_table_filled(sv, b, #[trigger] tables@[b]) by {
                        if b != a {
                            assert(tables@[b] == before[b]);
                        } else {
                            assert(tables@[b].columns == before[b].columns);
                            assert(tables@[b].df_name == before[b].df_name);
                            assert(self.spec_table_filled(sv, b, before[b]));
                        }
                    }
                    assert forall|b: int| 0 <= b < a + 1 implies spec_ids_of(*self, self.tables()[b], samples_count as nat, (#[trigger] tables@[b]).sample_ids) by {
                        if b != a {
                            assert(tables@[b] == before[b]);
                        }
                    }
                    assert(cache@[a as int].0@ == t) by {
                        assert(before[a as int].df_name@ == t);
                    }
                }
                a = a + 1;
            }
            let ghost unchanged = *self;
            self.cached_sample_size = samples_count;
            self.cached_sample_id_vectors = cache;
            proof {
                assert(self.var_keys() == unchanged.var_keys());
                assert(self.map_keys() == unchanged.map_keys());
                assert(self.tables() == unchanged.tables());
                assert forall|k: int| 0 <= k < self.df_column_to_var_ids_map@.len() implies #[trigger] self.entry_ids(k)
                    == spec_positions_of(self.var_keys(), self.map_keys()[k]) by {
                    assert(unchanged.entry_ids(k) == self.entry_ids(k));
                }
                assert(self.mapping_wf());
                assert forall|t: Seq<char>| #[trigger] self.table_width(t) == unchanged.table_width(t) by {
                    assert(self.map_tables() == unchanged.map_tables());
                }
                assert(self.sample_ids_cached()) by {
                    assert(spec_table_names(tables@).len() == tables@.len());
                }
                assert forall|q: int| 0 <= q < self.cached_sample_id_vectors@.len() implies {
                    &&& self.tables().contains((#[trigger] self.cached_sample_id_vectors@[q]).0@)
                    &&& self.cached_sample_id_vectors@[q].1@ == spec_sample_ids(
                        self.cached_sample_size as nat, self.table_width(self.cached_sample_id_vectors@[q].0@))
                } by {
                    assert(self.tables()[q] == self.cached_sample_id_vectors@[q].0@);
                }
            }
            tables
        } else {
            let mut q: usize = 0;
            while q < self.cached_sample_id_vectors.len()
                invariant
                    *self == *old(self),
                    self.wf(),
                    samples_count == samples_vec@.len() == self.cached_sample_size,
                    q <= self.cached_sample_id_vectors@.len(),
                    spec_table_names(tables@) == self.tables(),
                    forall|b: int| 0 <= b < tables@.len() ==> self.spec_table_filled(sv, b, #[trigger] tables@[b]),
                    forall|b: int| 0 <= b < tables@.len() ==> ((#[trigger] tables@[b]).sample_ids is Some ==> spec_ids_of(
                        *self, self.tables()[b], samples_count as nat, tables@[b].sample_ids)),
                    self.sample_ids_cached() ==> forall|b: int| 0 <= b < q ==> (#[trigger] tables@[b]).sample_ids is Some,
                    !self.sample_ids_cached() ==> forall|b: int| 0 <= b < tables@.len() ==> (#[trigger] tables@[b]).sample_ids is None,
                decreases self.cached_sample_id_vectors.len() - q,
            {
                let entry = &self.cached_sample_id_vectors[q];
                proof {
                    assert(self.tables().contains(entry.0@));
                    lemma_distinct_in_order(self.map_tables());
                }
                match find_table(&tables, &entry.0) {
                    Some(a) => {
                        let ghost before = tables@;
                        let mut table = TableData { df_name: String::new(), columns: Vec::new(), sample_ids: None };
                        std::mem::swap(&mut table, &mut tables[a]);
                        table.sample_ids = Some(entry.1.clone());
                        tables[a] = table;
                        proof {
                            assert(spec_table_names(tables@) =~= spec_table_names(before));
                            assert(self.tables()[a as int] == entry.0@) by {
                                assert(spec_table_names(before)[a as int] == before[a as int].df_name@);
                            }
                            assert forall|b: int| 0 <= b < tables@.len() implies self.spec_table_filled(sv, b, #[trigger] tables@[b]) by {
                                if b != a {
                                    assert(tables@[b] == before[b]);
                                } else {
                                    assert(self.spec_table_filled(sv, b, before[b]));
                                }
                            }
                            assert forall|b: int| 0 <= b < tables@.len() implies ((#[trigger] tables@[b]).sample_ids is Some ==> spec_ids_of(
                                *self, self.tables()[b], samples_count as nat, tables@[b].sample_ids)) by {
                                if b != a {
                                    assert(tables@[b] == before[b]);
                                }
                            }
                            if self.sample_ids_cached() {
                                assert(entry.0@ == self.tables()[q as int]);
                                assert(a as int == q as int) by {
                                    assert(spec_table_names(before)[q as int] == before[q as int].df_name@);
                                    if (a as int) < (q as int) {
                                        assert(before[q as int].df_name@ == entry.0@);
                                    } else if (a as int) > (q as int) {
                                        assert(self.tables()[a as int] == self.tables()[q as int]);
                                    }
                                }
                                assert forall|b: int| 0 <= b < q + 1 implies (#[trigger] tables@[b]).sample_ids is Some by {
                                    if b != a {
                                        assert(tables@[b] == before[b]);
                                    }
                                }
                            }
                        }
                    },
                    None => {
                        proof {
                            let i = choose|i: int| 0 <= i < self.tables().len() && self.tables()[i] == entry.0@;
                            assert(spec_table_names(tables@)[i] == tables@[i].df_name@);
                        }
                    },
                }
                q = q + 1;
            }
            tables
        }
    }
}

/// A key that occurs has a first position.
proof fn lemma_positions_nonempty<K>(ks: Seq<K>, key: K, i: int)
    requires
        0 <= i < ks.len(),
        ks[i] == key,
    ensures
        spec_positions_of(ks, key).len() > 0,
    decreases ks.len(),
{
    if i < ks.len() - 1 {
        assert(ks.drop_last()[i] == key);
        lemma_positions_nonempty(ks.drop_last(), key, i);
    }
}

/// The changes of one batch, one after the other: per sample, in order,
/// its `(variable id, new value)` pairs, each with the sample's index.
pub open spec fn spec_flat_deltas<V>(deltas: Seq<Seq<(usize, V)>>) -> Seq<(u64, usize, V)>
    decreases deltas.len(),
{
    if deltas.len() == 0 {
        Seq::empty()
    } else {
        let s = deltas.len() - 1;
        spec_flat_deltas(deltas.drop_last()) + Seq::new(deltas.last().len(), |j: int| (s as u64, deltas.last()[j].0, deltas.last()[j].1))
    }
}

/// The changes of one table of a batch: per change, the sample it belongs
/// to, the row of the changed variable in its column, and the row's values
/// in each column of the table with the change applied.
pub struct DeltaTable<V> {
    pub df_name: String,
    pub sample_ids: Vec<u64>,
    pub row_ids: Vec<u64>,
    pub columns: Vec<(String, Vec<V>)>,
}

impl ColumnLayout {
    /// The row of variable `v` in its column.
    pub open spec fn row_of(&self, v: usize) -> nat {
        spec_positions_of(self.var_keys().take(v as int), self.var_keys()[v as int]).len()
    }

    /// The positions of the changes to table `t`.
    pub open spec fn delta_positions<V>(&self, flat: Seq<(u64, usize, V)>, t: Seq<char>) -> Seq<int> {
        spec_int_positions_of(self.delta_tables_of(flat), t)
    }

    /// The table of each change.
    pub open spec fn delta_tables_of<V>(&self, flat: Seq<(u64, usize, V)>) -> Seq<Seq<char>> {
        flat.map_values(|e: (u64, usize, V)| self.var_keys()[e.1 as int].0)
    }

    /// `d` holds the changes of table `t` among `flat`, against the values of
    /// `table` (the batch's first table of that name).
    pub open spec fn spec_delta_filled<V>(&self, flat: Seq<(u64, usize, V)>, t: Seq<char>, table: TableData<V>, d: DeltaTable<V>) -> bool {
        let ps = self.delta_positions(flat, t);
        &&& d.df_name@ == t
        &&& d.sample_ids@.len() == ps.len()
        &&& d.row_ids@.len() == ps.len()
        &&& d.columns@.len() == table.columns@.len()
        &&& forall|j: int| 0 <= j < ps.len() ==> {
            &&& #[trigger] d.sample_ids@[j] == flat[ps[j]].0
            &&& d.row_ids@[j] == self.row_of(flat[ps[j]].1)
        }
        &&& forall|m: int| 0 <= m < table.columns@.len() ==> {
            &&& (#[trigger] d.columns@[m]).0 == table.columns@[m].0
            &&& d.columns@[m].1@.len() == ps.len()
            &&& forall|j: int| 0 <= j < ps.len() ==> {
                let e = flat[ps[j]];
                #[trigger] d.columns@[m].1@[j] == if table.columns@[m].0@ == self.var_keys()[e.1 as int].1 {
                    e.2
                } else {
                    table.columns@[m].1@[self.row_of(e.1) as int]
                }
            }
        }
    }

    /// Every change names a variable whose table is in the batch, at a row
    /// that each column of that table has.
    pub open spec fn spec_deltas_fit<V>(&self, group_data_map: Seq<TableData<V>>, deltas: Seq<Seq<(usize, V)>>) -> bool {
        forall|s: int, j: int| 0 <= s < deltas.len() && 0 <= j < deltas[s].len() ==> {
            let v = (#[trigger] deltas[s][j]).0;
            &&& v < self.var_keys().len()
            &&& spec_table_names(group_data_map).contains(self.var_keys()[v as int].0)
            &&& forall|a: int, m: int| 0 <= a < group_data_map.len() && group_data_map[a].df_name@ == self.var_keys()[v as int].0
                && 0 <= m < group_data_map[a].columns@.len()
                ==> self.row_of(v) < (#[trigger] group_data_map[a].columns@[m]).1@.len()
        }
    }

    /// `d` holds the changes among `done` to its table, against the first
    /// table of that name in `group_data_map`.
    pub open spec fn spec_change_table_ok<V>(&self, group_data_map: Seq<TableData<V>>, done: Seq<(u64, usize, V)>, d: DeltaTable<V>) -> bool {
        exists|table: TableData<V>| #![trigger Self::spec_first_named(group_data_map, d.df_name@, table)] {
            &&& Self::spec_first_named(group_data_map, d.df_name@, table)
            &&& self.spec_delta_filled(done, d.df_name@, table, d)
        }
    }

    /// `dts` holds, per table in order of its first change among `done`, the
    /// changes to it (see `spec_change_table_ok`).
    pub open spec fn spec_changes_built<V>(&self, group_data_map: Seq<TableData<V>>, done: Seq<(u64, usize, V)>, dts: Seq<DeltaTable<V>>) -> bool {
        &&& dts.map_values(|d: DeltaTable<V>| d.df_name@) == spec_distinct_in_order(self.delta_tables_of(done))
        &&& forall|a: int| 0 <= a < dts.len() ==> #[trigger] self.spec_change_table_ok(group_data_map, done, dts[a])
    }

    /// `table` is the first table of the batch named `t`.
    pub open spec fn spec_first_named<V>(group_data_map: Seq<TableData<V>>, t: Seq<char>, table: TableData<V>) -> bool {
        exists|a: int| #![trigger group_data_map[a]] {
            &&& 0 <= a < group_data_map.len()
            &&& group_data_map[a] == table
            &&& table.df_name@ == t
            &&& forall|q: int| 0 <= q < a ==> (#[trigger] group_data_map[q]).df_name@ != t
        }
    }
}

/// An empty change table with the columns of `table`.
fn new_delta_table<V>(table: &TableData<V>) -> (d: DeltaTable<V>)
    ensures
        d.df_name@ == table.df_name@,
        d.sample_ids@.len() == 0,
        d.row_ids@.len() == 0,
        d.columns@.len() == table.columns@.len(),
        forall|m: int| 0 <= m < d.columns@.len() ==> (#[trigger] d.columns@[m]).0 == table.columns@[m].0
            && d.columns@[m].1@.len() == 0,
{
    let mut columns: Vec<(String, Vec<V>)> = Vec::new();
    let mut m: usize = 0;
    while m < table.columns.len()
        invariant
            m <= table.columns@.len(),
            columns@.len() == m,
            forall|q: int| 0 <= q < m ==> (#[trigger] columns@[q]).0 == table.columns@[q].0 && columns@[q].1@.len() == 0,
        decreases table.columns.len() - m,
    {
        columns.push((table.columns[m].0.clone(), Vec::new()));
        m = m + 1;
    }
    DeltaTable { df_name: table.df_name.clone(), sample_ids: Vec::new(), row_ids: Vec::new(), columns }
}

/// Appends one change to a change table: its sample, its row, and the row's
/// values with column `col` set to `x`.
fn push_change<V: Copy>(d: &mut DeltaTable<V>, table: &TableData<V>, sample: u64, col: &String, row: usize, x: V)
    requires
        old(d).columns@.len() == table.columns@.len(),
        forall|m: int| 0 <= m < table.columns@.len() ==> row < (#[trigger] table.columns@[m]).1@.len(),
    ensures
        final(d).df_name == old(d).df_name,
        final(d).sample_ids@ == old(d).sample_ids@.push(sample),
        final(d).row_ids@ == old(d).row_ids@.push(row as u64),
        final(d).columns@.len() == old(d).columns@.len(),
        forall|m: int| 0 <= m < final(d).columns@.len() ==> {
            &&& (#[trigger] final(d).columns@[m]).0 == old(d).columns@[m].0
            &&& final(d).columns@[m].1@ == old(d).columns@[m].1@.push(
                if table.columns@[m].0@ == col@ { x } else { table.columns@[m].1@[row as int] })
        },
{
    d.sample_ids.push(sample);
    d.row_ids.push(row as u64);
    let ghost before = d.columns@;
    let mut m: usize = 0;
    while m < table.columns.len()
        invariant
            d.df_name == old(d).df_name,
            d.sample_ids@ == old(d).sample_ids@.push(sample),
            d.row_ids@ == old(d).row_ids@.push(row as u64),
            m <= table.columns@.len() == d.columns@.len() == before.len(),
            forall|m: int| 0 <= m < table.columns@.len() ==> row < (#[trigger] table.columns@[m]).1@.len(),
            forall|q: int| 0 <= q < d.columns@.len() ==> (#[trigger] d.columns@[q]).0 == before[q].0,
            forall|q: int| 0 <= q < m ==> (#[trigger] d.columns@[q]).1@ == before[q].1@.push(
                if table.columns@[q].0@ == col@ { x } else { table.columns@[q].1@[row as int] }),
            forall|q: int| m <= q < d.columns@.len() ==> (#[trigger] d.columns@[q]).1@ == before[q].1@,
        decreases table.columns.len() - m,
    {
        let value = if table.columns[m].0 == *col { x } else { table.columns[m].1[row] };
        let ghost mid = d.columns@;
        let mut entry = (String::new(), Vec::new());
        std::mem::swap(&mut entry, &mut d.columns[m]);
        entry.1.push(value);
        d.columns[m] = entry;
        proof {
            assert forall|q: int| 0 <= q < d.columns@.len() && q != m implies d.columns@[q] == mid[q] by {
            }
        }
        m = m + 1;
    }
}

/// A change to table `t` extends its change table by one row.
proof fn lemma_delta_step<V>(
    layout: ColumnLayout,
    done: Seq<(u64, usize, V)>,
    e: (u64, usize, V),
    t: Seq<char>,
    table: TableData<V>,
    old_d: DeltaTable<V>,
    new_d: DeltaTable<V>,
)
    requires
        e.1 < layout.var_keys().len(),
        layout.var_keys()[e.1 as int].0 == t,
        layout.spec_delta_filled(done, t, table, old_d),
        new_d.df_name == old_d.df_name,
        new_d.sample_ids@ == old_d.sample_ids@.push(e.0),
        new_d.row_ids@ == old_d.row_ids@.push(layout.row_of(e.1) as u64),
        new_d.columns@.len() == old_d.columns@.len(),
        forall|m: int| 0 <= m < new_d.columns@.len() ==> {
            &&& (#[trigger] new_d.columns@[m]).0 == old_d.columns@[m].0
            &&& new_d.columns@[m].1@ == old_d.columns@[m].1@.push(
                if table.columns@[m].0@ == layout.var_keys()[e.1 as int].1 { e.2 } else { table.columns@[m].1@[layout.row_of(e.1) as int] })
        },
        layout.row_of(e.1) <= u64::MAX,
    ensures
        layout.spec_delta_filled(done.push(e), t, table, new_d),
{
    let next = done.push(e);
    let tn = layout.delta_tables_of(next);
    let td = layout.delta_tables_of(done);
    assert(tn =~= td.push(t));
    assert(tn.drop_last() =~= td);
    let ps = spec_int_positions_of(td, t);
    let pn = spec_int_positions_of(tn, t);
    assert(pn == ps.push(done.len() as int));
    lemma_int_positions_below(td, t);
    assert forall|j: int| 0 <= j < pn.len() implies {
        &&& #[trigger] new_d.sample_ids@[j] == next[pn[j]].0
        &&& new_d.row_ids@[j] == layout.row_of(next[pn[j]].1)
    } by {
        if j < ps.len() {
            assert(pn[j] == ps[j]);
            assert(next[ps[j]] == done[ps[j]]);
            assert(new_d.sample_ids@[j] == old_d.sample_ids@[j]);
            assert(new_d.row_ids@[j] == old_d.row_ids@[j]);
            assert(old_d.sample_ids@[j] == done[ps[j]].0);
        } else {
            assert(j == ps.len());
            assert(pn[j] == done.len());
            assert(next[done.len() as int] == e);
        }
    }
    assert forall|m: int| 0 <= m < table.columns@.len() implies {
        &&& (#[trigger] new_d.columns@[m]).0 == table.columns@[m].0
        &&& new_d.columns@[m].1@.len() == pn.len()
        &&& forall|j: int| 0 <= j < pn.len() ==> {
            let e2 = next[pn[j]];
            #[trigger] new_d.columns@[m].1@[j] == if table.columns@[m].0@ == layout.var_keys()[e2.1 as int].1 {
                e2.2
            } else {
                table.columns@[m].1@[layout.row_of(e2.1) as int]
            }
        }
    } by {
        assert forall|j: int| 0 <= j < pn.len() implies {
            let e2 = next[pn[j]];
            #[trigger] new_d.columns@[m].1@[j] == if table.columns@[m].0@ == layout.var_keys()[e2.1 as int].1 {
                e2.2
            } else {
                table.columns@[m].1@[layout.row_of(e2.1) as int]
            }
        } by {
            assert(old_d.columns@[m].0 == table.columns@[m].0);
            assert(old_d.columns@[m].1@.len() == ps.len());
            if j < ps.len() {
                assert(pn[j] == ps[j]);
                assert(next[ps[j]] == done[ps[j]]);
                assert(new_d.columns@[m].1@[j] == old_d.columns@[m].1@[j]);
            } else {
                assert(j == ps.len());
                assert(pn[j] == done.len());
                assert(next[done.len() as int] == e);
            }
        }
    }
}

/// A change to another table leaves a change table as it is.
proof fn lemma_delta_other<V>(
    layout: ColumnLayout,
    done: Seq<(u64, usize, V)>,
    e: (u64, usize, V),
    t: Seq<char>,
    table: TableData<V>,
    d: DeltaTable<V>,
)
    requires
        e.1 < layout.var_keys().len(),
        layout.var_keys()[e.1 as int].0 != t,
        layout.spec_delta_filled(done, t, table, d),
    ensures
        layout.spec_delta_filled(done.push(e), t, table, d),
{
    let next = done.push(e);
    let tn = layout.delta_tables_of(next);
    let td = layout.delta_tables_of(done);
    assert(tn =~= td.push(layout.var_keys()[e.1 as int].0));
    assert(tn.drop_last() =~= td);
    let ps = spec_int_positions_of(td, t);
    assert(spec_int_positions_of(tn, t) == ps);
    lemma_int_positions_below(td, t);
    assert forall|j: int| 0 <= j < ps.len() implies next[ps[j]] == done[ps[j]] by {
    }
}

/// `(sample, row)` pairs in lexicographic order: `a` comes no later than `b`.
pub open spec fn row_key_le(a: (u64, u64), b: (u64, u64)) -> bool {
    a.0 < b.0 || (a.0 == b.0 && a.1 <= b.1)
}

/// The `(sample, row)` pair of row `j` of a change table.
pub open spec fn row_key<V>(d: DeltaTable<V>, j: int) -> (u64, u64) {
    (d.sample_ids@[j], d.row_ids@[j])
}

/// `p` lists each of `0..n` once.
pub open spec fn spec_is_perm(p: Seq<usize>, n: int) -> bool {
    &&& p.len() == n
    &&& p.no_duplicates()
    &&& forall|j: int| 0 <= j < n ==> (#[trigger] p[j]) < n
}

/// `d` holds the rows of `d0` taken in the order `p`.
pub open spec fn spec_rows_permuted<V>(d0: DeltaTable<V>, d: DeltaTable<V>, p: Seq<usize>) -> bool {
    &&& spec_is_perm(p, d0.sample_ids@.len() as int)
    &&& d.df_name == d0.df_name
    &&& d.sample_ids@ == crate::candidate::spec_gather(d0.sample_ids@, p)
    &&& d.row_ids@ == crate::candidate::spec_gather(d0.row_ids@, p)
    &&& d.columns@.len() == d0.columns@.len()
    &&& forall|m: int| 0 <= m < d.columns@.len() ==> {
        &&& (#[trigger] d.columns@[m]).0 == d0.columns@[m].0
        &&& d.columns@[m].1@ == crate::candidate::spec_gather(d0.columns@[m].1@, p)
    }
}

/// The rows of `d` come in order of `(sample, row)`.
pub open spec fn spec_rows_sorted<V>(d: DeltaTable<V>) -> bool {
    forall|i: int, j: int| 0 <= i < j < d.sample_ids@.len() ==> row_key_le(row_key(d, i), row_key(d, j))
}

/// `d` holds the rows of `d0` rearranged in order of `(sample, row)` (rows
/// with equal pairs in some order).
pub open spec fn spec_sorted_rows_of<V>(d0: DeltaTable<V>, d: DeltaTable<V>) -> bool {
    &&& exists|p: Seq<usize>| spec_rows_permuted(d0, d, p)
    &&& spec_rows_sorted(d)
}

/// Each table of `r` holds the rows of the same table of `unsorted`, sorted
/// by `(sample, row)`.
pub open spec fn spec_tables_sorted<V>(unsorted: Seq<DeltaTable<V>>, r: Seq<DeltaTable<V>>) -> bool {
    &&& r.len() == unsorted.len()
    &&& forall|a: int| 0 <= a < r.len() ==> spec_sorted_rows_of(unsorted[a], #[trigger] r[a])
}

/// The rows of a change table sorted by `(sample, row)`.
fn sort_delta_rows<V: Copy>(d0: DeltaTable<V>) -> (d: DeltaTable<V>)
    requires
        d0.row_ids@.len() == d0.sample_ids@.len(),
        forall|m: int| 0 <= m < d0.columns@.len() ==> (#[trigger] d0.columns@[m]).1@.len() == d0.sample_ids@.len(),
    ensures
        spec_sorted_rows_of(d0, d),
{
    let n = d0.sample_ids.len();
    let mut perm: Vec<usize> = Vec::new();
    let mut i: usize = 0;
    while i < n
        invariant
            n == d0.sample_ids@.len() == d0.row_ids@.len(),
            i <= n,
            perm@.len() == i,
            perm@.no_duplicates(),
            forall|j: int| 0 <= j < i ==> (#[trigger] perm@[j]) < i,
            forall|a: int, b: int| 0 <= a < b < i ==> row_key_le(
                (d0.sample_ids@[perm@[a] as int], d0.row_ids@[perm@[a] as int]),
                (d0.sample_ids@[perm@[b] as int], d0.row_ids@[perm@[b] as int])),
        decreases n - i,
    {
        let is = d0.sample_ids[i];
        let ir = d0.row_ids[i];
        let mut pos: usize = 0;
        while pos < perm.len() && (d0.sample_ids[perm[pos]] < is || (d0.sample_ids[perm[pos]] == is && d0.row_ids[perm[pos]] <= ir))
            invariant
                n == d0.sample_ids@.len() == d0.row_ids@.len(),
                i < n,
                is == d0.sample_ids@[i as int],
                ir == d0.row_ids@[i as int],
                perm@.len() == i,
                forall|j: int| 0 <= j < i ==> (#[trigger] perm@[j]) < i,
                pos <= perm@.len(),
                forall|a: int| 0 <= a < pos ==> row_key_le(
                    (d0.sample_ids@[perm@[a] as int], d0.row_ids@[perm@[a] as int]), (is, ir)),
            decreases perm.len() - pos,
        {
            pos = pos + 1;
        }
        let ghost before = perm@;
        proof {
            assert forall|a: int| pos <= a < i implies !row_key_le(
                (d0.sample_ids@[before[a] as int], d0.row_ids@[before[a] as int]), (is, ir)) by {
                if a > pos {
                    assert(row_key_le(
                        (d0.sample_ids@[before[pos as int] as int], d0.row_ids@[before[pos as int] as int]),
                        (d0.sample_ids@[before[a] as int], d0.row_ids@[before[a] as int])));
                }
            }
        }
        perm.insert(pos, i);
        proof {
            assert(perm@ == before.insert(pos as int, i));
            assert forall|j: int| 0 <= j < i + 1 implies (#[trigger] perm@[j]) < i + 1 by {
                if j < pos {
                    assert(perm@[j] == before[j]);
                } else if j > pos {
                    assert(perm@[j] == before[j - 1]);
                }
            }
            assert(perm@.no_duplicates()) by {
                assert forall|a: int, b: int| 0 <= a < b < perm@.len() implies perm@[a] != perm@[b] by {
                    if a != pos && b != pos {
                        let a0 = if a < pos { a } else { a - 1 };
                        let b0 = if b < pos { b } else { b - 1 };
                        assert(perm@[a] == before[a0] && perm@[b] == before[b0]);
                    } else if a == pos {
                        let b0 = b - 1;
                        assert(perm@[b] == before[b0]);
                    } else {
                        assert(perm@[a] == before[a]);
                    }
                }
            }
            assert forall|a: int, b: int| 0 <= a < b < i + 1 implies row_key_le(
                (d0.sample_ids@[perm@[a] as int], d0.row_ids@[perm@[a] as int]),
                (d0.sample_ids@[perm@[b] as int], d0.row_ids@[perm@[b] as int])) by {
                if a != pos && b != pos {
                    let a0 = if a < pos { a } else { a - 1 };
                    let b0 = if b < pos { b } else { b - 1 };
                    assert(perm@[a] == before[a0] && perm@[b] == before[b0]);
                } else if a == pos {
                    assert(perm@[b] == before[b - 1]);
                } else {
                    assert(perm@[a] == before[a]);
                }
            }
        }
        i = i + 1;
    }
    proof {
        assert(crate::candidate::spec_all_below(perm@, n as int));
    }
    let DeltaTable { df_name, sample_ids, row_ids, columns } = d0;
    let new_sample_ids = crate::mover::gather_values(&sample_ids, &perm);
    let new_row_ids = crate::mover::gather_values(&row_ids, &perm);
    let mut cols = columns;
    let ghost cols0 = cols@;
    let mut m: usize = 0;
    while m < cols.len()
        invariant
            m <= cols@.len() == cols0.len(),
            crate::candidate::spec_all_below(perm@, n as int),
            forall|q: int| 0 <= q < cols0.len() ==> (#[trigger] cols0[q]).1@.len() == n,
            forall|q: int| 0 <= q < cols@.len() ==> (#[trigger] cols@[q]).0 == cols0[q].0,
            forall|q: int| 0 <= q < m ==> (#[trigger] cols@[q]).1@ == crate::candidate::spec_gather(cols0[q].1@, perm@),
            forall|q: int| m <= q < cols@.len() ==> (#[trigger] cols@[q]).1@ == cols0[q].1@,
        decreases cols.len() - m,
    {
        let mut entry: (String, Vec<V>) = (String::new(), Vec::new());
        std::mem::swap(&mut entry, &mut cols[m]);
        let sorted = crate::mover::gather_values(&entry.1, &perm);
        entry.1 = sorted;
        cols[m] = entry;
        m = m + 1;
    }
    let d = DeltaTable { df_name, sample_ids: new_sample_ids, row_ids: new_row_ids, columns: cols };
    proof {
        assert(spec_rows_permuted(d0, d, perm@));
        assert(spec_rows_sorted(d));
    }
    d
}

impl ColumnLayout {
    /// The changes of a batch grouped by table, in order of the first change
    /// to each table, each table's rows in order of `(sample, row)` (see
    /// `spec_delta_filled` and `spec_sorted_rows_of`).
    pub fn build_delta_dfs<V: Copy>(&self, group_data_map: &Vec<TableData<V>>, inverted_deltas: &Vec<Vec<(usize, V)>>) -> (r: Vec<DeltaTable<V>>)
        requires
            self.mapping_wf(),
            self.spec_deltas_fit(group_data_map@, inverted_deltas@.map_values(|v: Vec<(usize, V)>| v@)),
        ensures
            exists|unsorted: Seq<DeltaTable<V>>| #![trigger spec_tables_sorted(unsorted, r@)] {
                &&& self.spec_changes_built(group_data_map@, spec_flat_deltas(inverted_deltas@.map_values(|v: Vec<(usize, V)>| v@)), unsorted)
                &&& spec_tables_sorted(unsorted, r@)
            },
    {
        let mut tables = self.collect_delta_tables(group_data_map, inverted_deltas);
        let ghost unsorted = tables@;
        let ghost flat = spec_flat_deltas(inverted_deltas@.map_values(|v: Vec<(usize, V)>| v@));
        let mut sorted: Vec<DeltaTable<V>> = Vec::new();
        let mut a: usize = 0;
        while a < tables.len()
            invariant
                tables@.len() == unsorted.len(),
                a <= tables@.len(),
                sorted@.len() == a,
                self.spec_changes_built(group_data_map@, flat, unsorted),
                forall|b: int| 0 <= b < a ==> spec_sorted_rows_of(unsorted[b], #[trigger] sorted@[b]),
                forall|b: int| a <= b < tables@.len() ==> #[trigger] tables@[b] == unsorted[b],
            decreases tables.len() - a,
        {
            let mut d = DeltaTable { df_name: String::new(), sample_ids: Vec::new(), row_ids: Vec::new(), columns: Vec::new() };
            std::mem::swap(&mut d, &mut tables[a]);
            proof {
                assert(d == unsorted[a as int]);
                assert(self.spec_change_table_ok(group_data_map@, flat, unsorted[a as int]));
                let tb = choose|tb: TableData<V>| Self::spec_first_named(group_data_map@, d.df_name@, tb)
                    && self.spec_delta_filled(flat, d.df_name@, tb, d);
                assert forall|m: int| 0 <= m < d.columns@.len() implies (#[trigger] d.columns@[m]).1@.len() == d.sample_ids@.len() by {
                    assert(d.columns@[m].1@.len() == self.delta_positions(flat, d.df_name@).len());
                }
            }
            let sd = sort_delta_rows(d);
            sorted.push(sd);
            proof {
                assert forall|b: int| a + 1 <= b < tables@.len() implies #[trigger] tables@[b] == unsorted[b] by {
                }
            }
            a = a + 1;
        }
        assert(spec_tables_sorted(unsorted, sorted@));
        sorted
    }

    /// The changes of a batch grouped by table, in order of the first change
    /// to each table, each table's rows in the order the changes come (see
    /// `spec_delta_filled`).
    fn collect_delta_tables<V: Copy>(&self, group_data_map: &Vec<TableData<V>>, inverted_deltas: &Vec<Vec<(usize, V)>>) -> (r: Vec<DeltaTable<V>>)
        requires
            self.mapping_wf(),
            self.spec_deltas_fit(group_data_map@, inverted_deltas@.map_values(|v: Vec<(usize, V)>| v@)),
        ensures
            self.spec_changes_built(group_data_map@, spec_flat_deltas(inverted_deltas@.map_values(|v: Vec<(usize, V)>| v@)), r@),
    {
        let ghost deltas = inverted_deltas@.map_values(|v: Vec<(usize, V)>| v@);
        let index = self.build_var_id_to_df_column_index_map();
        let mut dts: Vec<DeltaTable<V>> = Vec::new();
        let ghost mut done: Seq<(u64, usize, V)> = Seq::empty();
        proof {
            assert(spec_flat_deltas(deltas.take(0)) =~= done);
            assert(dts@.map_values(|d: DeltaTable<V>| d.df_name@) =~= Seq::<Seq<char>>::empty());
        }
        let mut s: usize = 0;
        while s < inverted_deltas.len()
            invariant
                s <= inverted_deltas@.len(),
                deltas == inverted_deltas@.map_values(|v: Vec<(usize, V)>| v@),
                self.mapping_wf(),
                self.spec_deltas_fit(group_data_map@, deltas),
                index@.len() == self.var_keys().len(),
                forall|i: int| 0 <= i < index@.len() ==> {
                    &&& (#[trigger] index@[i]).0@ == self.var_keys()[i].0
                    &&& index@[i].1@ == self.var_keys()[i].1
                    &&& index@[i].2 == spec_positions_of(self.var_keys().take(i), self.var_keys()[i]).len()
                },
                done == spec_flat_deltas(deltas.take(s as int)),
                self.spec_changes_built(group_data_map@, done, dts@),
            decreases inverted_deltas.len() - s,
        {
            let ghost start = done;
            let current = &inverted_deltas[s];
            let mut j: usize = 0;
            while j < current.len()
                invariant
                    s < inverted_deltas@.len(),
                    j <= current@.len(),
                    current@ == deltas[s as int],
                    deltas == inverted_deltas@.map_values(|v: Vec<(usize, V)>| v@),
                    self.mapping_wf(),
                    self.spec_deltas_fit(group_data_map@, deltas),
                    index@.len() == self.var_keys().len(),
                    forall|i: int| 0 <= i < index@.len() ==> {
                        &&& (#[trigger] index@[i]).0@ == self.var_keys()[i].0
                        &&& index@[i].1@ == self.var_keys()[i].1
                        &&& index@[i].2 == spec_positions_of(self.var_keys().take(i), self.var_keys()[i]).len()
                    },
                    start == spec_flat_deltas(deltas.take(s as int)),
                    done == start + Seq::new(j as nat, |q: int| (s as u64, current@[q].0, current@[q].1)),
                    self.spec_changes_built(group_data_map@, done, dts@),
                decreases current.len() - j,
            {
                let (var_id, new_value) = current[j];
                proof {
                    assert(deltas[s as int][j as int] == current@[j as int]);
                }
                let entry = &index[var_id];
                let ghost e = (s as u64, var_id, new_value);
                let ghost t = self.var_keys()[var_id as int].0;
                let ghost next = done.push(e);
                proof {
                    assert(entry.0@ == t);
                    assert(self.delta_tables_of(next) =~= self.delta_tables_of(done).push(t));
                    assert(self.delta_tables_of(next).drop_last() =~= self.delta_tables_of(done));
                    lemma_distinct_in_order(self.delta_tables_of(done));
                }
                let found_table = find_table(group_data_map, &entry.0);
                proof {
                    if found_table is None {
                        let q = choose|q: int| 0 <= q < group_data_map@.len() && spec_table_names(group_data_map@)[q] == t;
                        assert(group_data_map@[q].df_name@ == t);
                    }
                }
                let ga = found_table.unwrap();
                let table = &group_data_map[ga];
                proof {
                    assert(Self::spec_first_named(group_data_map@, t, *table));
                    assert forall|m: int| 0 <= m < table.columns@.len() implies entry.2 < (#[trigger] table.columns@[m]).1@.len() by {
                        assert(self.row_of(var_id) < group_data_map@[ga as int].columns@[m].1@.len());
                    }
                }
                let ghost names_before = dts@.map_values(|d: DeltaTable<V>| d.df_name@);
                let ghost dts_before = dts@;
                let found = find_delta_table(&dts, &entry.0);
                let a = match found {
                    Some(a) => a,
                    None => {
                        dts.push(new_delta_table(table));
                        dts.len() - 1
                    },
                };
                let mut d = DeltaTable { df_name: String::new(), sample_ids: Vec::new(), row_ids: Vec::new(), columns: Vec::new() };
                std::mem::swap(&mut d, &mut dts[a]);
                proof {
                    if found is Some {
                        assert(names_before[a as int] == t);
                        assert(self.spec_change_table_ok(group_data_map@, done, dts_before[a as int]));
                        let tb = choose|tb: TableData<V>| Self::spec_first_named(group_data_map@, dts_before[a as int].df_name@, tb)
                            && self.spec_delta_filled(done, dts_before[a as int].df_name@, tb, dts_before[a as int]);
                        assert(Self::spec_first_named(group_data_map@, t, tb));
                        let ia = choose|ia: int| #![trigger group_data_map@[ia]] 0 <= ia < group_data_map@.len() && group_data_map@[ia] == tb
                            && tb.df_name@ == t && forall|q: int| 0 <= q < ia ==> (#[trigger] group_data_map@[q]).df_name@ != t;
                        assert(ia == ga) by {
                            if ia < ga {
                                assert(group_data_map@[ia].df_name@ != t);
                            } else if ia > ga {
                                assert(group_data_map@[ga as int].df_name@ != t);
                            }
                        }
                        assert(tb == *table);
                        assert(d.columns@.len() == table.columns@.len());
                    }
                }
                let ghost old_d = d;
                push_change(&mut d, table, s as u64, &entry.1, entry.2, new_value);
                let ghost new_d = d;
                dts[a] = d;
                proof {
                    lemma_positions_len(self.var_keys().take(var_id as int), self.var_keys()[var_id as int]);
                    assert(self.row_of(var_id) == entry.2);
                    if found is None {
                        assert(!spec_distinct_in_order(self.delta_tables_of(done)).contains(t)) by {
                            if spec_distinct_in_order(self.delta_tables_of(done)).contains(t) {
                                let q = choose|q: int| 0 <= q < names_before.len() && names_before[q] == t;
                                assert(dts_before[q].df_name@ == t);
                            }
                        }
                        lemma_int_positions_of_absent(self.delta_tables_of(done), t);
                        assert(self.spec_delta_filled(done, t, *table, old_d));
                        assert(names_before.push(t) =~= dts@.map_values(|d: DeltaTable<V>| d.df_name@)) by {
                            assert(dts@[a as int].df_name@ == t);
                        }
                    } else {
                        assert(self.spec_change_table_ok(group_data_map@, done, dts_before[a as int]));
                        let tb = choose|tb: TableData<V>| Self::spec_first_named(group_data_map@, dts_before[a as int].df_name@, tb)
                            && self.spec_delta_filled(done, dts_before[a as int].df_name@, tb, dts_before[a as int]);
                        assert(tb == *table);
                        assert(old_d == dts_before[a as int]);
                        assert(spec_distinct_in_order(self.delta_tables_of(done)).contains(t)) by {
                            assert(names_before[a as int] == t);
                        }
                        assert(names_before =~= dts@.map_values(|d: DeltaTable<V>| d.df_name@)) by {
                            assert(dts@[a as int].df_name@ == t);
                            assert forall|b: int| 0 <= b < dts@.len() && b != a implies dts@[b] == dts_before[b] by {
                            }
                        }
                    }
                    lemma_delta_step(*self, done, e, t, *table, old_d, new_d);
                    let names_now = dts@.map_values(|d: DeltaTable<V>| d.df_name@);
                    assert(names_now == spec_distinct_in_order(self.delta_tables_of(next)));
                    lemma_distinct_in_order(self.delta_tables_of(next));
                    assert forall|b: int| 0 <= b < dts@.len() implies #[trigger] self.spec_change_table_ok(group_data_map@, next, dts@[b]) by {
                        if b == a {
                            assert(dts@[b] == new_d);
                            assert(Self::spec_first_named(group_data_map@, dts@[b].df_name@, *table));
                            assert(self.spec_delta_filled(next, dts@[b].df_name@, *table, dts@[b]));
                        } else {
                            assert(b < dts_before.len());
                            assert(dts@[b] == dts_before[b]);
                            assert(names_now[b] != names_now[a as int]);
                            assert(self.spec_change_table_ok(group_data_map@, done, dts_before[b]));
                            let tb = choose|tb: TableData<V>| Self::spec_first_named(group_data_map@, dts_before[b].df_name@, tb)
                                && self.spec_delta_filled(done, dts_before[b].df_name@, tb, dts_before[b]);
                            lemma_delta_other(*self, done, e, dts_before[b].df_name@, tb, dts_before[b]);
                            assert(Self::spec_first_named(group_data_map@, dts@[b].df_name@, tb));
                        }
                    }
                    assert(self.spec_changes_built(group_data_map@, next, dts@));
                    done = next;
                    assert(done =~= start + Seq::new((j + 1) as nat, |q: int| (s as u64, current@[q].0, current@[q].1)));
                }
                j = j + 1;
            }
            proof {
                assert(deltas.take(s + 1).drop_last() =~= deltas.take(s as int));
                assert(current@.len() == deltas[s as int].len());
                assert(done =~= spec_flat_deltas(deltas.take(s + 1)));
            }
            s = s + 1;
        }
        proof {
            assert(deltas.take(deltas.len() as int) =~= deltas);
        }
        dts
    }
}

/// Position of the change table named `name`, if there is one.
fn find_delta_table<V>(tables: &Vec<DeltaTable<V>>, name: &String) -> (r: Option<usize>)
    ensures
        match r {
            Some(a) => a < tables@.len() && tables@[a as int].df_name@ == name@,
            None => forall|a: int| 0 <= a < tables@.len() ==> (#[trigger] tables@[a]).df_name@ != name@,
        },
{
    let mut a: usize = 0;
    while a < tables.len()
        invariant
            a <= tables@.len(),
            forall|q: int| 0 <= q < a ==> (#[trigger] tables@[q]).df_name@ != name@,
        decreases tables.len() - a,
    {
        if tables[a].df_name == *name {
            return Some(a);
        }
        a = a + 1;
    }
    None
}

} // verus!
