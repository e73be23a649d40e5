use vstd::prelude::*;

use crate::graph::{has_table, is_first};

verus! {

/// One single-column foreign-key constraint, as declared by `from_table`.
#[derive(Debug, PartialEq, Eq)]
pub struct ForeignKey {
    pub from_table: String,
    pub from_column: String,
    pub to_table: String,
    pub to_column: String,
}

/// The mathematical value of a [`ForeignKey`].
pub struct ForeignKeyView {
    pub from_table: Seq<char>,
    pub from_column: Seq<char>,
    pub to_table: Seq<char>,
    pub to_column: Seq<char>,
}

impl View for ForeignKey {
    type V = ForeignKeyView;

    open spec fn view(&self) -> ForeignKeyView {
        ForeignKeyView {
            from_table: self.from_table@,
            from_column: self.from_column@,
            to_table: self.to_table@,
            to_column: self.to_column@,
        }
    }
}

impl Clone for ForeignKey {
    fn clone(&self) -> (r: Self)
        ensures
            r == *self,
    {
        ForeignKey {
            from_table: self.from_table.clone(),
            from_column: self.from_column.clone(),
            to_table: self.to_table.clone(),
            to_column: self.to_column.clone(),
        }
    }
}

/// A table with its ordered columns and the foreign keys it declares.
#[derive(Debug)]
pub struct Table {
    pub name: String,
    pub columns: Vec<String>,
    pub foreign_keys: Vec<ForeignKey>,
}

/// The mathematical value of a [`Table`].
pub struct TableView {
    pub name: Seq<char>,
    pub columns: Seq<Seq<char>>,
    pub foreign_keys: Seq<ForeignKeyView>,
}

pub open spec fn strings_view(v: Seq<String>) -> Seq<Seq<char>> {
    v.map_values(|s: String| s@)
}

pub open spec fn keys_view(v: Seq<ForeignKey>) -> Seq<ForeignKeyView> {
    v.map_values(|k: ForeignKey| k@)
}

impl View for Table {
    type V = TableView;

    open spec fn view(&self) -> TableView {
        TableView {
            name: self.name@,
            columns: strings_view(self.columns@),
            foreign_keys: keys_view(self.foreign_keys@),
        }
    }
}

/// The schema graph: every table of the database, in the order in which
/// they were listed, with no table name twice.
#[derive(Debug)]
pub struct Schema {
    pub tables: Vec<Table>,
}

impl View for Schema {
    type V = Seq<TableView>;

    open spec fn view(&self) -> Seq<TableView> {
        self.tables@.map_values(|t: Table| t@)
    }
}

/// No two tables share a name.
pub open spec fn unique_names(s: Seq<TableView>) -> bool {
    forall|i: int, j: int|
        0 <= i < s.len() && 0 <= j < s.len() && i != j ==> #[trigger] s[i].name != #[trigger] s[j].name
}

/// The names of `names`, each once, in the order of first occurrence.
pub open spec fn distinct_names(names: Seq<Seq<char>>) -> Seq<Seq<char>>
    decreases names.len(),
{
    if names.len() == 0 {
        Seq::empty()
    } else {
        let rest = distinct_names(names.drop_last());
        if names.drop_last().contains(names.last()) {
            rest
        } else {
            rest.push(names.last())
        }
    }
}

/// `i` is the first position of an entry keyed by `key`.
pub open spec fn first_entry<V>(entries: Seq<(String, V)>, key: Seq<char>, i: int) -> bool {
    0 <= i < entries.len() && entries[i].0@ == key && forall|j: int|
        0 <= j < i ==> #[trigger] entries[j].0@ != key
}

/// The value of the first entry keyed by `key`, if any.
pub open spec fn entry_of<V>(entries: Seq<(String, V)>, key: Seq<char>) -> Option<V> {
    if exists|i: int| first_entry(entries, key, i) {
        Some(entries[choose|i: int| first_entry(entries, key, i)].1)
    } else {
        None
    }
}

/// The table that `build` makes for `name`.
pub open spec fn built_table(
    columns: Seq<(String, Vec<String>)>,
    foreign_keys: Seq<(String, Vec<ForeignKey>)>,
    name: Seq<char>,
) -> TableView {
    TableView {
        name,
        columns: match entry_of(columns, name) {
            Some(c) => strings_view(c@),
            None => Seq::empty(),
        },
        foreign_keys: match entry_of(foreign_keys, name) {
            Some(f) => keys_view(f@),
            None => Seq::empty(),
        },
    }
}

proof fn lemma_first_entry_unique<V>(entries: Seq<(String, V)>, key: Seq<char>, i: int, j: int)
    requires
        first_entry(entries, key, i),
        first_entry(entries, key, j),
    ensures
        i == j,
{
    if i < j {
        assert(entries[i].0@ != key);
    } else if j < i {
        assert(entries[j].0@ != key);
    }
}

proof fn lemma_distinct_names(names: Seq<Seq<char>>)
    ensures
        forall|n: Seq<char>|
            #![trigger distinct_names(names).contains(n)]
            #![trigger names.contains(n)]
            distinct_names(names).contains(n) <==> names.contains(n),
        forall|i: int, j: int|
            0 <= i < distinct_names(names).len() && 0 <= j < distinct_names(names).len() && i != j
                ==> distinct_names(names)[i] != distinct_names(names)[j],
    decreases names.len(),
{
    if names.len() > 0 {
        let init = names.drop_last();
        lemma_distinct_names(init);
        assert(names =~= init.push(names.last()));
        let d = distinct_names(names);
        let di = distinct_names(init);
        assert forall|n: Seq<char>| d.contains(n) <==> names.contains(n) by {
            if names.contains(n) {
                let m = choose|m: int| 0 <= m < names.len() && names[m] == n;
                if m < init.len() {
                    assert(init[m] == n);
                    assert(init.contains(n));
                    assert(di.contains(n));
                    let q = choose|q: int| 0 <= q < di.len() && di[q] == n;
                    assert(d[q] == n);
                } else if init.contains(n) {
                    let q = choose|q: int| 0 <= q < di.len() && di[q] == n;
                    assert(d[q] == n);
                } else {
                    assert(d[d.len() - 1] == n);
                }
            }
            if d.contains(n) {
                let q = choose|q: int| 0 <= q < d.len() && d[q] == n;
                if q < di.len() {
                    assert(di[q] == n);
                    assert(di.contains(n));
                    let m = choose|m: int| 0 <= m < init.len() && init[m] == n;
                    assert(names[m] == n);
                } else {
                    assert(names[names.len() - 1] == n);
                }
            }
        }
    }
}

/// Copies a list of strings.
fn copy_strings(v: &Vec<String>) -> (r: Vec<String>)
    ensures
        r@ == v@,
{
    let mut r: Vec<String> = Vec::new();
    let mut i: usize = 0;
    while i < v.len()
        invariant
            i <= v.len(),
            r@ == v@.subrange(0, i as int),
        decreases v.len() - i,
    {
        r.push(v[i].clone());
        i = i + 1;
        assert(r@ =~= v@.subrange(0, i as int));
    }
    assert(r@ =~= v@);
    r
}

/// Copies a list of foreign keys.
pub fn copy_keys(v: &Vec<ForeignKey>) -> (r: Vec<ForeignKey>)
    ensures
        r@ == v@,
{
    let mut r: Vec<ForeignKey> = Vec::new();
    let mut i: usize = 0;
    while i < v.len()
        invariant
            i <= v.len(),
            r@ == v@.subrange(0, i as int),
        decreases v.len() - i,
    {
        r.push(v[i].clone());
        i = i + 1;
        assert(r@ =~= v@.subrange(0, i as int));
    }
    assert(r@ =~= v@);
    r
}

/// The position of the first entry keyed by `key`.
fn entry_position<V>(entries: &Vec<(String, V)>, key: &String) -> (r: Option<usize>)
    ensures
        match r {
            Some(i) => first_entry(entries@, key@, i as int),
            None => !exists|i: int| first_entry(entries@, key@, i),
        },
{
    let mut i: usize = 0;
    while i < entries.len()
        invariant
            i <= entries.len(),
            forall|j: int| 0 <= j < i ==> #[trigger] entries@[j].0@ != key@,
        decreases entries.len() - i,
    {
        if entries[i].0 == *key {
            return Some(i);
        }
        i = i + 1;
    }
    None
}

proof fn lemma_entry_of<V>(entries: Seq<(String, V)>, key: Seq<char>, i: Option<usize>)
    requires
        match i {
            Some(i) => first_entry(entries, key, i as int),
            None => !exists|i: int| first_entry(entries, key, i),
        },
    ensures
        entry_of(entries, key) == match i {
            Some(i) => Some(entries[i as int].1),
            None => None,
        },
{
    if let Some(i) = i {
        let c = choose|c: int| first_entry(entries, key, c);
        lemma_first_entry_unique(entries, key, i as int, c);
    }
}

impl Schema {
    /// Whether the schema is well formed: no table name occurs twice.
    pub open spec fn wf(&self) -> bool {
        unique_names(self@)
    }

    /// Builds the schema graph from a listing of table names and, keyed by
    /// table name, their columns and declared foreign keys. A table without
    /// an entry has no columns or no foreign keys; a name listed twice gives
    /// one table.
    pub fn build(
        table_names: &Vec<String>,
        columns: &Vec<(String, Vec<String>)>,
        foreign_keys: &Vec<(String, Vec<ForeignKey>)>,
    ) -> (r: Schema)
        ensures
            r.wf(),
            r@.len() == distinct_names(strings_view(table_names@)).len(),
            forall|i: int|
                0 <= i < r@.len() ==> #[trigger] r@[i] == built_table(
                    columns@,
                    foreign_keys@,
                    distinct_names(strings_view(table_names@))[i],
                ),
    {
        let ghost names = strings_view(table_names@);
        let mut tables: Vec<Table> = Vec::new();
        let mut k: usize = 0;
        while k < table_names.len()
            invariant
                k <= table_names.len(),
                names == strings_view(table_names@),
                tables@.len() == distinct_names(names.subrange(0, k as int)).len(),
                forall|i: int|
                    0 <= i < tables@.len() ==> #[trigger] tables@[i]@ == built_table(
                        columns@,
                        foreign_keys@,
                        distinct_names(names.subrange(0, k as int))[i],
                    ),
            decreases table_names.len() - k,
        {
            let name = &table_names[k];
            proof {
                lemma_distinct_names(names.subrange(0, k as int));
            }
            let mut seen = false;
            let mut j: usize = 0;
            while j < tables.len()
                invariant
                    j <= tables.len(),
                    seen == exists|m: int| 0 <= m < j && #[trigger] tables@[m].name@ == name@,
                decreases tables.len() - j,
            {
                if tables[j].name == *name {
                    seen = true;
                }
                j = j + 1;
            }
            let ghost before = names.subrange(0, k as int);
            let ghost after = names.subrange(0, k as int + 1);
            proof {
                assert(after.drop_last() =~= before);
                assert(after.last() == name@);
                assert(seen <==> distinct_names(before).contains(name@)) by {
                    if seen {
                        let m = choose|m: int| 0 <= m < j && #[trigger] tables@[m].name@ == name@;
                        assert(tables@[m]@.name == distinct_names(before)[m]);
                    }
                    if distinct_names(before).contains(name@) {
                        let m = choose|m: int| 0 <= m < distinct_names(before).len() && distinct_names(before)[m] == name@;
                        assert(tables@[m]@.name == name@);
                    }
                }
            }
            if !seen {
                let ci = entry_position(columns, name);
                let fi = entry_position(foreign_keys, name);
                let cols = match ci {
                    Some(c) => copy_strings(&columns[c].1),
                    None => Vec::new(),
                };
                let keys = match fi {
                    Some(f) => copy_keys(&foreign_keys[f].1),
                    None => Vec::new(),
                };
                proof {
                    lemma_entry_of(columns@, name@, ci);
                    lemma_entry_of(foreign_keys@, name@, fi);
                }
                let t = Table { name: name.clone(), columns: cols, foreign_keys: keys };
                assert(t@.columns =~= built_table(columns@, foreign_keys@, name@).columns);
                assert(t@.foreign_keys =~= built_table(columns@, foreign_keys@, name@).foreign_keys);
                assert(t@ == built_table(columns@, foreign_keys@, name@));
                tables.push(t);
                assert(distinct_names(after) == distinct_names(before).push(name@));
            } else {
                assert(distinct_names(after) == distinct_names(before));
            }
            k = k + 1;
        }
        proof {
            assert(names.subrange(0, table_names@.len() as int) =~= names);
            lemma_distinct_names(names);
        }
        let r = Schema { tables };
        assert(r.wf()) by {
            assert forall|i: int, j: int| 0 <= i < r@.len() && 0 <= j < r@.len() && i != j
                implies #[trigger] r@[i].name != #[trigger] r@[j].name by {
                assert(r@[i] == r.tables@[i]@);
                assert(r@[j] == r.tables@[j]@);
            }
        }
        r
    }
}

impl Schema {
    /// The position of the table named `name`.
    pub(crate) fn position_of(&self, name: &String) -> (r: Option<usize>)
        ensures
            match r {
                Some(i) => is_first(self@, name@, i as int),
                None => !has_table(self@, name@),
            },
    {
        let mut i: usize = 0;
        while i < self.tables.len()
            invariant
                i <= self.tables.len(),
                forall|j: int| 0 <= j < i ==> #[trigger] self@[j].name != name@,
            decreases self.tables.len() - i,
        {
            if self.tables[i].name == *name {
                assert(self@[i as int].name == name@);
                return Some(i);
            }
            assert(self@[i as int].name != name@);
            i = i + 1;
        }
        None
    }

    /// The table named `name`, if any.
    pub fn table(&self, name: &str) -> (r: Option<&Table>)
        ensures
            match r {
                Some(t) => exists|i: int| #[trigger] is_first(self@, name@, i) && t@ == self@[i],
                None => !has_table(self@, name@),
            },
    {
        let key = name.to_owned();
        match self.position_of(&key) {
            Some(i) => Some(&self.tables[i]),
            None => None,
        }
    }

    /// The names of all tables, in order.
    pub fn table_names(&self) -> (r: Vec<String>)
        ensures
            strings_view(r@) == self@.map_values(|t: TableView| t.name),
    {
        let mut r: Vec<String> = Vec::new();
        let mut i: usize = 0;
        while i < self.tables.len()
            invariant
                i <= self.tables.len(),
                r@.len() == i,
                forall|j: int| 0 <= j < i ==> #[trigger] r@[j]@ == self@[j].name,
            decreases self.tables.len() - i,
        {
            r.push(self.tables[i].name.clone());
            i = i + 1;
        }
        assert(strings_view(r@) =~= self@.map_values(|t: TableView| t.name));
        r
    }

    /// The foreign keys that the table named `name` declares; none where
    /// there is no such table.
    pub fn foreign_keys_of(&self, name: &str) -> (r: Vec<ForeignKey>)
        ensures
            has_table(self@, name@) ==> exists|i: int|
                #[trigger] is_first(self@, name@, i) && keys_view(r@) == self@[i].foreign_keys,
            !has_table(self@, name@) ==> r@.len() == 0,
    {
        match self.table(name) {
            Some(t) => copy_keys(&t.foreign_keys),
            None => Vec::new(),
        }
    }
}

} // verus!
