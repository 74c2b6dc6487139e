use vstd::prelude::*;

use crate::table::{
    after_delete, after_update, assigns_view, first_position, join_model, join_rows, lemma_first_position,
    lemma_first_position_is, matches_of, out_view, select_model, star_row, star_row_of, strings_view,
    values_view, with_column, with_index, with_row, without_index, TableMeta, TableModel,
};
use crate::value::{cond_view, Assignment, Cell, Condition, JoinInfo, Value};

verus! {

/// Why a table operation was refused.
#[derive(Debug, PartialEq)]
pub enum StoreError {
    /// No table has this name.
    TableNotFound(String),
    /// A table of this name exists already.
    AlreadyExists(String),
    /// An insert's value count differs from the schema's width.
    ArityMismatch,
}

/// A table with its name.
pub(crate) struct NamedTable {
    pub(crate) name: String,
    pub(crate) table: TableMeta,
}

/// The predicate "is the table named `n`".
pub(crate) open spec fn table_named(n: Seq<char>) -> spec_fn(NamedTable) -> bool {
    |e: NamedTable| e.name@ == n
}

/// Position of the table named `n`, or -1.
pub(crate) open spec fn table_position(ts: Seq<NamedTable>, n: Seq<char>) -> int {
    first_position(ts, table_named(n))
}

/// A collection of named tables.
pub struct BTreeStorage {
    tables: Vec<NamedTable>,
}

impl View for BTreeStorage {
    type V = Map<Seq<char>, TableModel>;

    closed spec fn view(&self) -> Map<Seq<char>, TableModel> {
        Map::new(
            |n: Seq<char>| table_position(self.tables@, n) >= 0,
            |n: Seq<char>| self.tables@[table_position(self.tables@, n)].table@,
        )
    }
}

/// With unique names, the table named `n` sits exactly where its name is.
proof fn lemma_unique_position(ts: Seq<NamedTable>, n: Seq<char>, i: int)
    requires
        -1 <= i < ts.len(),
        forall|a: int, b: int| 0 <= a < ts.len() && 0 <= b < ts.len() && a != b ==> ts[a].name@ != ts[b].name@,
        i >= 0 ==> ts[i].name@ == n,
        i < 0 ==> forall|a: int| 0 <= a < ts.len() ==> ts[a].name@ != n,
    ensures
        table_position(ts, n) == i,
{
    assert forall|a: int| 0 <= a < ts.len() && (i < 0 || a < i) implies !table_named(n)(#[trigger] ts[a]) by {
        if i >= 0 {
            assert(ts[a].name@ != ts[i].name@);
        }
    }
    lemma_first_position_is(ts, table_named(n), i);
}

impl BTreeStorage {
    /// Every table is well formed and no two tables share a name.
    pub closed spec fn wf(&self) -> bool {
        &&& forall|i: int| 0 <= i < self.tables@.len() ==> (#[trigger] self.tables@[i]).table.wf()
        &&& forall|a: int, b: int|
            0 <= a < self.tables@.len() && 0 <= b < self.tables@.len() && a != b
                ==> self.tables@[a].name@ != self.tables@[b].name@
    }

    /// An empty collection.
    pub fn new() -> (r: BTreeStorage)
        ensures
            r.wf(),
            r@ == Map::<Seq<char>, TableModel>::empty(),
    {
        let r = BTreeStorage { tables: Vec::new() };
        assert(r@ =~= Map::<Seq<char>, TableModel>::empty());
        r
    }

    /// Position of the table named `name`.
    fn find(&self, name: &String) -> (r: Option<usize>)
        requires
            self.wf(),
        ensures
            match r {
                Some(p) => p < self.tables@.len() && self.tables@[p as int].name@ == name@
                    && table_position(self.tables@, name@) == p,
                None => table_position(self.tables@, name@) == -1
                    && forall|a: int| 0 <= a < self.tables@.len() ==> self.tables@[a].name@ != name@,
            },
    {
        let mut i: usize = 0;
        while i < self.tables.len()
            invariant
                self.wf(),
                i <= self.tables@.len(),
                forall|a: int| 0 <= a < i ==> self.tables@[a].name@ != name@,
            decreases self.tables@.len() - i,
        {
            if self.tables[i].name == *name {
                proof {
                    lemma_unique_position(self.tables@, name@, i as int);
                }
                return Some(i);
            }
            i = i + 1;
        }
        proof {
            lemma_unique_position(self.tables@, name@, -1);
        }
        None
    }

    /// The table named `name`, if any.
    pub fn table(&self, name: &String) -> (r: Option<&TableMeta>)
        requires
            self.wf(),
        ensures
            self@.contains_key(name@) ==> (r matches Some(t) && t.wf() && t@ == self@[name@]),
            !self@.contains_key(name@) ==> r is None,
    {
        match self.find(name) {
            Some(p) => {
                proof {
                    self.lemma_view_at(p as int);
                }
                Some(&self.tables[p].table)
            },
            None => None,
        }
    }

    /// The names of all tables.
    pub fn table_names(&self) -> (r: Vec<String>)
        requires
            self.wf(),
        ensures
            forall|n: Seq<char>| self@.contains_key(n) <==> strings_view(r@).contains(n),
            strings_view(r@).no_duplicates(),
    {
        let mut r: Vec<String> = Vec::new();
        let mut i: usize = 0;
        while i < self.tables.len()
            invariant
                self.wf(),
                i <= self.tables@.len(),
                r@.len() == i,
                forall|j: int| 0 <= j < i ==> (#[trigger] r@[j])@ == self.tables@[j].name@,
            decreases self.tables@.len() - i,
        {
            r.push(self.tables[i].name.clone());
            i = i + 1;
        }
        assert forall|n: Seq<char>| self@.contains_key(n) <==> strings_view(r@).contains(n) by {
            if self@.contains_key(n) {
                lemma_first_position(self.tables@, table_named(n));
                let p = table_position(self.tables@, n);
                assert(strings_view(r@)[p] == n);
            }
            if strings_view(r@).contains(n) {
                let j = choose|j: int| 0 <= j < strings_view(r@).len() && strings_view(r@)[j] == n;
                lemma_unique_position(self.tables@, n, j);
            }
        }
        assert(strings_view(r@).no_duplicates()) by {
            assert forall|a: int, b: int| 0 <= a < r@.len() && 0 <= b < r@.len() && a != b
                implies strings_view(r@)[a] != strings_view(r@)[b] by {
                assert(self.tables@[a].name@ != self.tables@[b].name@);
            }
        }
        r
    }

    /// Puts a restored table under `name`, replacing any table of that name.
    pub fn restore_table(&mut self, name: &String, table: TableMeta)
        requires
            old(self).wf(),
            table.wf(),
        ensures
            final(self).wf(),
            final(self)@ == old(self)@.insert(name@, table@),
    {
        self.drop_table(name);
        let e = NamedTable { name: name.clone(), table };
        let ghost old_s = *self;
        let ghost ge = e;
        self.tables.push(e);
        proof {
            BTreeStorage::lemma_view_push(old_s, *self, ge);
            assert(old(self)@.remove(name@).insert(name@, ge.table@) =~= old(self)@.insert(name@, ge.table@));
        }
    }

    /// Whether a table of this name exists.
    pub fn table_exists(&self, name: &String) -> (r: bool)
        requires
            self.wf(),
        ensures
            r == self@.contains_key(name@),
    {
        self.find(name).is_some()
    }

    /// The model of the table at position `p` is the map's value under its name.
    proof fn lemma_view_at(&self, p: int)
        requires
            self.wf(),
            0 <= p < self.tables@.len(),
        ensures
            self@.contains_key(self.tables@[p].name@),
            self@[self.tables@[p].name@] == self.tables@[p].table@,
    {
        lemma_unique_position(self.tables@, self.tables@[p].name@, p);
    }

    /// Replacing the table at `p` by one of the same name changes the map at that name only.
    proof fn lemma_view_replace(old_s: BTreeStorage, new_s: BTreeStorage, p: int)
        requires
            old_s.wf(),
            0 <= p < old_s.tables@.len(),
            new_s.tables@.len() == old_s.tables@.len(),
            new_s.tables@[p].name == old_s.tables@[p].name,
            forall|a: int| 0 <= a < old_s.tables@.len() && a != p ==> new_s.tables@[a] == old_s.tables@[a],
        ensures
            new_s@ == old_s@.insert(old_s.tables@[p].name@, new_s.tables@[p].table@),
    {
        let n = old_s.tables@[p].name@;
        assert forall|m: Seq<char>| #[trigger] new_s@.contains_key(m) == old_s@.insert(n, new_s.tables@[p].table@).contains_key(m)
            && (new_s@.contains_key(m) ==> new_s@[m] == old_s@.insert(n, new_s.tables@[p].table@)[m]) by {
            assert forall|a: int| 0 <= a < old_s.tables@.len() implies table_named(m)(#[trigger] new_s.tables@[a]) == table_named(m)(old_s.tables@[a]) by {
                if a != p {
                    assert(new_s.tables@[a] == old_s.tables@[a]);
                }
            }
            crate::table::lemma_first_position_same(new_s.tables@, old_s.tables@, table_named(m), table_named(m));
            if m == n {
                lemma_unique_position(old_s.tables@, n, p);
            } else {
                lemma_first_position(old_s.tables@, table_named(m));
            }
        }
        assert(new_s@ =~= old_s@.insert(n, new_s.tables@[p].table@));
    }
}

/// Whether `r` is the error "no table named `n`".
pub open spec fn is_not_found<T>(r: Result<T, StoreError>, n: Seq<char>) -> bool {
    r matches Err(StoreError::TableNotFound(m)) && m@ == n
}

impl BTreeStorage {
    /// Removing the table at `p` removes its name from the map.
    proof fn lemma_view_remove(old_s: BTreeStorage, new_s: BTreeStorage, p: int)
        requires
            old_s.wf(),
            0 <= p < old_s.tables@.len(),
            new_s.tables@ == old_s.tables@.remove(p),
        ensures
            new_s@ == old_s@.remove(old_s.tables@[p].name@),
            new_s.wf(),
    {
        let n = old_s.tables@[p].name@;
        let ots = old_s.tables@;
        let nts = new_s.tables@;
        assert forall|a: int, b: int| 0 <= a < nts.len() && 0 <= b < nts.len() && a != b implies nts[a].name@ != nts[b].name@ by {
            let a2 = if a < p { a } else { a + 1 };
            let b2 = if b < p { b } else { b + 1 };
            assert(nts[a] == ots[a2]);
            assert(nts[b] == ots[b2]);
        }
        assert forall|i: int| 0 <= i < nts.len() implies (#[trigger] nts[i]).table.wf() by {
            let i2 = if i < p { i } else { i + 1 };
            assert(nts[i] == ots[i2]);
        }
        assert forall|m: Seq<char>| #[trigger] new_s@.contains_key(m) == old_s@.remove(n).contains_key(m)
            && (new_s@.contains_key(m) ==> new_s@[m] == old_s@.remove(n)[m]) by {
            lemma_first_position(ots, table_named(m));
            let q = table_position(ots, m);
            if q < 0 {
                assert forall|a: int| 0 <= a < nts.len() implies nts[a].name@ != m by {
                    let a2 = if a < p { a } else { a + 1 };
                    assert(nts[a] == ots[a2]);
                    assert(!table_named(m)(ots[a2]));
                }
                lemma_unique_position(nts, m, -1);
            } else if q == p {
                assert forall|a: int| 0 <= a < nts.len() implies nts[a].name@ != m by {
                    let a2 = if a < p { a } else { a + 1 };
                    assert(nts[a] == ots[a2]);
                    assert(ots[a2].name@ != ots[p].name@);
                }
                lemma_unique_position(nts, m, -1);
            } else {
                let q2 = if q < p { q } else { q - 1 };
                assert(nts[q2] == ots[q]);
                assert(ots[q].name@ != n) by {
                    assert(ots[q].name@ != ots[p].name@);
                }
                lemma_unique_position(nts, m, q2);
            }
        }
        assert(new_s@ =~= old_s@.remove(n));
    }

    /// Appending a table under a fresh name adds it to the map.
    proof fn lemma_view_push(old_s: BTreeStorage, new_s: BTreeStorage, e: NamedTable)
        requires
            old_s.wf(),
            e.table.wf(),
            !old_s@.contains_key(e.name@),
            new_s.tables@ == old_s.tables@.push(e),
        ensures
            new_s@ == old_s@.insert(e.name@, e.table@),
            new_s.wf(),
    {
        let ots = old_s.tables@;
        let nts = new_s.tables@;
        let n = e.name@;
        lemma_first_position(ots, table_named(n));
        assert forall|a: int| 0 <= a < ots.len() implies ots[a].name@ != n by {
            assert(!table_named(n)(ots[a]));
        }
        assert forall|a: int, b: int| 0 <= a < nts.len() && 0 <= b < nts.len() && a != b implies nts[a].name@ != nts[b].name@ by {
            if a < ots.len() && b < ots.len() {
                assert(nts[a] == ots[a]);
                assert(nts[b] == ots[b]);
            } else if a < ots.len() {
                assert(nts[a] == ots[a]);
            } else {
                assert(nts[b] == ots[b]);
            }
        }
        assert forall|i: int| 0 <= i < nts.len() implies (#[trigger] nts[i]).table.wf() by {
            if i < ots.len() {
                assert(nts[i] == ots[i]);
            }
        }
        assert forall|m: Seq<char>| #[trigger] new_s@.contains_key(m) == old_s@.insert(n, e.table@).contains_key(m)
            && (new_s@.contains_key(m) ==> new_s@[m] == old_s@.insert(n, e.table@)[m]) by {
            if m == n {
                lemma_unique_position(nts, m, ots.len() as int);
            } else {
                lemma_first_position(ots, table_named(m));
                let q = table_position(ots, m);
                if q < 0 {
                    assert forall|a: int| 0 <= a < nts.len() implies nts[a].name@ != m by {
                        if a < ots.len() {
                            assert(nts[a] == ots[a]);
                            assert(!table_named(m)(ots[a]));
                        }
                    }
                    lemma_unique_position(nts, m, -1);
                } else {
                    assert(nts[q] == ots[q]);
                    lemma_unique_position(nts, m, q);
                }
            }
        }
        assert(new_s@ =~= old_s@.insert(n, e.table@));
    }

    /// Creates an empty table with the given schema and no indexes; refused
    /// when the name is taken.
    pub fn create_table(&mut self, name: &String, columns: Vec<String>) -> (r: Result<(), StoreError>)
        requires
            old(self).wf(),
        ensures
            final(self).wf(),
            old(self)@.contains_key(name@) ==> (r matches Err(StoreError::AlreadyExists(m)) && m@ == name@)
                && final(self)@ == old(self)@,
            !old(self)@.contains_key(name@) ==> r is Ok && final(self)@ == old(self)@.insert(
                name@,
                TableModel { columns: strings_view(columns@), rows: Seq::empty(), indexed: Seq::empty() },
            ),
    {
        if self.table_exists(name) {
            return Err(StoreError::AlreadyExists(name.clone()));
        }
        let e = NamedTable { name: name.clone(), table: TableMeta::new(columns) };
        let ghost old_s = *self;
        let ghost ge = e;
        self.tables.push(e);
        proof {
            BTreeStorage::lemma_view_push(old_s, *self, ge);
        }
        Ok(())
    }

    /// Removes the table and its indexes, if it exists.
    pub fn drop_table(&mut self, name: &String)
        requires
            old(self).wf(),
        ensures
            final(self).wf(),
            final(self)@ == old(self)@.remove(name@),
    {
        match self.find(name) {
            None => {
                assert(self@ =~= old(self)@.remove(name@));
            },
            Some(p) => {
                let ghost old_s = *self;
                let _ = self.tables.remove(p);
                proof {
                    BTreeStorage::lemma_view_remove(old_s, *self, p as int);
                }
            },
        }
    }

    /// Appends a column to a table (see `TableMeta::add_column`).
    pub fn add_column(&mut self, name: &String, column: String) -> (r: Result<(), StoreError>)
        requires
            old(self).wf(),
        ensures
            final(self).wf(),
            !old(self)@.contains_key(name@) ==> is_not_found(r, name@) && final(self)@ == old(self)@,
            old(self)@.contains_key(name@) ==> r is Ok && final(self)@ == old(self)@.insert(
                name@,
                with_column(old(self)@[name@], column@),
            ),
    {
        match self.find(name) {
            None => Err(StoreError::TableNotFound(name.clone())),
            Some(p) => {
                let ghost old_s = *self;
                proof {
                    old_s.lemma_view_at(p as int);
                }
                self.tables[p].table.add_column(column);
                proof {
                    BTreeStorage::lemma_view_replace(old_s, *self, p as int);
                }
                Ok(())
            },
        }
    }

    /// Builds the index on a table's column unless it exists.
    pub fn create_index(&mut self, name: &String, column: &String) -> (r: Result<(), StoreError>)
        requires
            old(self).wf(),
        ensures
            final(self).wf(),
            !old(self)@.contains_key(name@) ==> is_not_found(r, name@) && final(self)@ == old(self)@,
            old(self)@.contains_key(name@) ==> r is Ok && final(self)@ == old(self)@.insert(
                name@,
                with_index(old(self)@[name@], column@),
            ),
    {
        match self.find(name) {
            None => Err(StoreError::TableNotFound(name.clone())),
            Some(p) => {
                let ghost old_s = *self;
                proof {
                    old_s.lemma_view_at(p as int);
                }
                self.tables[p].table.create_index(column);
                proof {
                    BTreeStorage::lemma_view_replace(old_s, *self, p as int);
                }
                Ok(())
            },
        }
    }

    /// Removes the index on a table's column.
    pub fn drop_index(&mut self, name: &String, column: &String) -> (r: Result<(), StoreError>)
        requires
            old(self).wf(),
        ensures
            final(self).wf(),
            !old(self)@.contains_key(name@) ==> is_not_found(r, name@) && final(self)@ == old(self)@,
            old(self)@.contains_key(name@) ==> r is Ok && final(self)@ == old(self)@.insert(
                name@,
                without_index(old(self)@[name@], column@),
            ),
    {
        match self.find(name) {
            None => Err(StoreError::TableNotFound(name.clone())),
            Some(p) => {
                let ghost old_s = *self;
                proof {
                    old_s.lemma_view_at(p as int);
                }
                self.tables[p].table.drop_index(column);
                proof {
                    BTreeStorage::lemma_view_replace(old_s, *self, p as int);
                }
                Ok(())
            },
        }
    }

    /// Appends a row given in schema order and returns it as named cells;
    /// refused when the table is missing or the value count differs from
    /// the schema's width.
    pub fn insert_row(&mut self, name: &String, values: Vec<Value>) -> (r: Result<Vec<Cell>, StoreError>)
        requires
            old(self).wf(),
        ensures
            final(self).wf(),
            !old(self)@.contains_key(name@) ==> is_not_found(r, name@) && final(self)@ == old(self)@,
            old(self)@.contains_key(name@) && values@.len() != old(self)@[name@].columns.len()
                ==> (r matches Err(StoreError::ArityMismatch)) && final(self)@ == old(self)@,
            old(self)@.contains_key(name@) && values@.len() == old(self)@[name@].columns.len() ==> {
                &&& r matches Ok(row) && crate::table::cells_view(row@) == star_row(old(self)@[name@].columns, values_view(values@))
                &&& final(self)@ == old(self)@.insert(name@, with_row(old(self)@[name@], values_view(values@)))
            },
    {
        match self.find(name) {
            None => Err(StoreError::TableNotFound(name.clone())),
            Some(p) => {
                let ghost old_s = *self;
                proof {
                    old_s.lemma_view_at(p as int);
                }
                let cols = self.tables[p].table.columns();
                if values.len() != cols.len() {
                    return Err(StoreError::ArityMismatch);
                }
                let row = star_row_of(cols, &values);
                self.tables[p].table.insert_row(values);
                proof {
                    BTreeStorage::lemma_view_replace(old_s, *self, p as int);
                }
                Ok(row)
            },
        }
    }

    /// Overwrites the assigned columns of the matching rows of a table and
    /// returns how many rows matched.
    pub fn update_rows(&mut self, name: &String, assigns: &Vec<Assignment>, cond: Option<&Condition>) -> (r: Result<usize, StoreError>)
        requires
            old(self).wf(),
        ensures
            final(self).wf(),
            !old(self)@.contains_key(name@) ==> is_not_found(r, name@) && final(self)@ == old(self)@,
            old(self)@.contains_key(name@) ==> {
                &&& r matches Ok(n) && n == matches_of(old(self)@[name@].columns, old(self)@[name@].rows, cond_view(cond)).len()
                &&& final(self)@ == old(self)@.insert(name@, after_update(old(self)@[name@], assigns_view(assigns@), cond_view(cond)))
            },
    {
        match self.find(name) {
            None => Err(StoreError::TableNotFound(name.clone())),
            Some(p) => {
                let ghost old_s = *self;
                proof {
                    old_s.lemma_view_at(p as int);
                }
                let n = self.tables[p].table.update_rows(assigns, cond);
                proof {
                    BTreeStorage::lemma_view_replace(old_s, *self, p as int);
                }
                Ok(n)
            },
        }
    }

    /// Removes the matching rows of a table, keeping the rest in order, and
    /// returns how many were removed.
    pub fn delete_rows(&mut self, name: &String, cond: Option<&Condition>) -> (r: Result<usize, StoreError>)
        requires
            old(self).wf(),
        ensures
            final(self).wf(),
            !old(self)@.contains_key(name@) ==> is_not_found(r, name@) && final(self)@ == old(self)@,
            old(self)@.contains_key(name@) ==> {
                &&& r matches Ok(n) && n == matches_of(old(self)@[name@].columns, old(self)@[name@].rows, cond_view(cond)).len()
                &&& final(self)@ == old(self)@.insert(name@, after_delete(old(self)@[name@], cond_view(cond)))
            },
    {
        match self.find(name) {
            None => Err(StoreError::TableNotFound(name.clone())),
            Some(p) => {
                let ghost old_s = *self;
                proof {
                    old_s.lemma_view_at(p as int);
                }
                let n = self.tables[p].table.delete_rows(cond);
                proof {
                    BTreeStorage::lemma_view_replace(old_s, *self, p as int);
                }
                Ok(n)
            },
        }
    }

    /// The matching rows of a table, whole for `*` or projected; with a join,
    /// the matching left rows joined against every row of the right table.
    pub fn select_rows(
        &self,
        name: &String,
        requested: &Vec<String>,
        cond: Option<&Condition>,
        join: Option<&JoinInfo>,
    ) -> (r: Result<Vec<Vec<Cell>>, StoreError>)
        requires
            self.wf(),
        ensures
            !self@.contains_key(name@) ==> is_not_found(r, name@),
            self@.contains_key(name@) ==> match join {
                None => r matches Ok(rows)
                    && out_view(rows@) == select_model(self@[name@], strings_view(requested@), cond_view(cond)),
                Some(j) => if self@.contains_key(j.table@) {
                    r matches Ok(rows) && out_view(rows@) == join_model(
                        self@[name@],
                        self@[j.table@],
                        strings_view(requested@),
                        cond_view(cond),
                        j@,
                    )
                } else {
                    is_not_found(r, j.table@)
                },
            },
    {
        match self.find(name) {
            None => Err(StoreError::TableNotFound(name.clone())),
            Some(p) => {
                proof {
                    self.lemma_view_at(p as int);
                }
                match join {
                    None => Ok(self.tables[p].table.select_rows(requested, cond)),
                    Some(j) => match self.find(&j.table) {
                        None => Err(StoreError::TableNotFound(j.table.clone())),
                        Some(q) => {
                            proof {
                                self.lemma_view_at(q as int);
                            }
                            Ok(join_rows(&self.tables[p].table, &self.tables[q].table, requested, cond, j))
                        },
                    },
                }
            },
        }
    }
}

} // verus!
