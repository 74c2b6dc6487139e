use vstd::prelude::*;

use crate::value::{cond_view, values_equal, Assignment, Cell, Condition, JoinInfo, JoinModel, Value, ValueModel};

verus! {

/// Position of the first element of `s` that satisfies `p`, or -1 when none does.
pub open spec fn first_position<A>(s: Seq<A>, p: spec_fn(A) -> bool) -> int
    decreases s.len(),
{
    if s.len() == 0 {
        -1
    } else {
        let q = first_position(s.drop_last(), p);
        if q >= 0 {
            q
        } else if p(s.last()) {
            s.len() - 1
        } else {
            -1
        }
    }
}

/// `first_position` is the least index whose element satisfies `p`.
pub proof fn lemma_first_position<A>(s: Seq<A>, p: spec_fn(A) -> bool)
    ensures
        -1 <= first_position(s, p) < s.len(),
        first_position(s, p) >= 0 ==> p(s[first_position(s, p)]),
        forall|j: int| 0 <= j < s.len() && (first_position(s, p) < 0 || j < first_position(s, p))
            ==> !p(#[trigger] s[j]),
    decreases s.len(),
{
    if s.len() > 0 {
        lemma_first_position(s.drop_last(), p);
        assert forall|j: int| 0 <= j < s.len() - 1 implies s.drop_last()[j] == s[j] by {}
    }
}

/// An index that satisfies `p` with no earlier one that does is the first position.
pub proof fn lemma_first_position_is<A>(s: Seq<A>, p: spec_fn(A) -> bool, i: int)
    requires
        -1 <= i < s.len(),
        i >= 0 ==> p(s[i]),
        forall|j: int| 0 <= j < s.len() && (i < 0 || j < i) ==> !p(#[trigger] s[j]),
    ensures
        first_position(s, p) == i,
{
    lemma_first_position(s, p);
}

/// Two sequences whose elements agree on `p` have the same first position.
pub proof fn lemma_first_position_same<A, B>(s: Seq<A>, t: Seq<B>, p: spec_fn(A) -> bool, q: spec_fn(B) -> bool)
    requires
        s.len() == t.len(),
        forall|j: int| 0 <= j < s.len() ==> p(#[trigger] s[j]) == q(t[j]),
    ensures
        first_position(s, p) == first_position(t, q),
{
    lemma_first_position(s, p);
    let i = first_position(s, p);
    assert forall|j: int| 0 <= j < t.len() && (i < 0 || j < i) implies !q(#[trigger] t[j]) by {
        assert(p(s[j]) == q(t[j]));
    }
    lemma_first_position_is(t, q, i);
}


/// The predicate "is the name `name`".
pub open spec fn named(name: Seq<char>) -> spec_fn(Seq<char>) -> bool {
    |c: Seq<char>| c == name
}

/// Position of the first column named `name`, or -1.
pub open spec fn column_position(cols: Seq<Seq<char>>, name: Seq<char>) -> int {
    first_position(cols, named(name))
}

/// The value a row holds under the column named `name`, if the schema has it.
pub open spec fn cell_of(cols: Seq<Seq<char>>, row: Seq<ValueModel>, name: Seq<char>) -> Option<ValueModel> {
    let p = column_position(cols, name);
    if 0 <= p < row.len() {
        Some(row[p])
    } else {
        None
    }
}

/// Whether a row satisfies an optional equality condition (typed equality;
/// a column the schema lacks never matches).
pub open spec fn row_matches(
    cols: Seq<Seq<char>>,
    row: Seq<ValueModel>,
    cond: Option<(Seq<char>, ValueModel)>,
) -> bool {
    match cond {
        None => true,
        Some((c, v)) => cell_of(cols, row, c) == Some(v),
    }
}

/// Ascending positions, below `n`, of the rows that satisfy `cond`.
pub open spec fn matched_positions(
    cols: Seq<Seq<char>>,
    rows: Seq<Seq<ValueModel>>,
    cond: Option<(Seq<char>, ValueModel)>,
    n: nat,
) -> Seq<usize>
    decreases n,
{
    if n == 0 {
        Seq::empty()
    } else {
        let s = matched_positions(cols, rows, cond, (n - 1) as nat);
        if row_matches(cols, rows[n - 1], cond) {
            s.push((n - 1) as usize)
        } else {
            s
        }
    }
}

/// Positions of all rows that satisfy `cond`.
pub open spec fn matches_of(
    cols: Seq<Seq<char>>,
    rows: Seq<Seq<ValueModel>>,
    cond: Option<(Seq<char>, ValueModel)>,
) -> Seq<usize> {
    matched_positions(cols, rows, cond, rows.len())
}

/// Matched positions below `n` depend only on the first `n` rows, and each is below `n`.
pub proof fn lemma_matched_prefix(
    cols: Seq<Seq<char>>,
    rows1: Seq<Seq<ValueModel>>,
    rows2: Seq<Seq<ValueModel>>,
    cond: Option<(Seq<char>, ValueModel)>,
    n: nat,
)
    requires
        n <= rows1.len(),
        n <= rows2.len(),
        n <= usize::MAX,
        forall|i: int| 0 <= i < n ==> rows1[i] == rows2[i],
    ensures
        matched_positions(cols, rows1, cond, n) == matched_positions(cols, rows2, cond, n),
        forall|j: int| 0 <= j < matched_positions(cols, rows1, cond, n).len()
            ==> #[trigger] matched_positions(cols, rows1, cond, n)[j] < n,
        forall|j: int, k: int| 0 <= j < k < matched_positions(cols, rows1, cond, n).len()
            ==> matched_positions(cols, rows1, cond, n)[j] < matched_positions(cols, rows1, cond, n)[k],
    decreases n,
{
    if n > 0 {
        lemma_matched_prefix(cols, rows1, rows2, cond, (n - 1) as nat);
    }
}

/// One entry of a secondary index: a key and the positions holding it.
pub struct IndexEntry {
    pub key: Value,
    pub positions: Vec<usize>,
}

/// The positions an index lists under `k` (empty when `k` has no entry).
pub open spec fn entries_lookup(es: Seq<IndexEntry>, k: ValueModel) -> Seq<usize> {
    let p = first_position(es, |e: IndexEntry| e.key@ == k);
    if p >= 0 {
        es[p].positions@
    } else {
        Seq::empty()
    }
}

/// Records `pos` under `key`: appended to the key's entry, or in a new entry.
fn index_add_position(entries: &mut Vec<IndexEntry>, key: &Value, pos: usize)
    ensures
        forall|k: ValueModel| #[trigger] entries_lookup(final(entries)@, k) == if k == key@ {
            entries_lookup(old(entries)@, k).push(pos)
        } else {
            entries_lookup(old(entries)@, k)
        },
{
    let ghost olds = entries@;
    let n = entries.len();
    let mut j: usize = 0;
    while j < n
        invariant
            n == entries@.len(),
            entries@ == olds,
            olds == old(entries)@,
            j <= n,
            forall|i: int| 0 <= i < j ==> entries@[i].key@ != key@,
        decreases n - j,
    {
        if values_equal(&entries[j].key, key) {
            let ghost p = |e: IndexEntry| e.key@ == key@;
            proof {
                lemma_first_position_is(olds, p, j as int);
            }
            entries[j].positions.push(pos);
            assert(entries@.len() == olds.len());
            assert(entries@[j as int].key == olds[j as int].key);
            assert(entries@[j as int].positions@ == olds[j as int].positions@.push(pos));
            assert(forall|i: int| 0 <= i < olds.len() && i != j ==> entries@[i] == olds[i]);
            assert forall|k: ValueModel| #[trigger] entries_lookup(entries@, k) == if k == key@ {
                entries_lookup(olds, k).push(pos)
            } else {
                entries_lookup(olds, k)
            } by {
                let q = |e: IndexEntry| e.key@ == k;
                assert forall|i: int| 0 <= i < olds.len() implies q(#[trigger] entries@[i]) == q(olds[i]) by {
                    if i != j {
                        assert(entries@[i] == olds[i]);
                    }
                }
                lemma_first_position_same(entries@, olds, q, q);
                lemma_first_position(olds, q);
            }
            return;
        }
        j = j + 1;
    }
    let mut positions: Vec<usize> = Vec::new();
    positions.push(pos);
    entries.push(IndexEntry { key: key.clone(), positions });
    assert forall|k: ValueModel| #[trigger] entries_lookup(entries@, k) == if k == key@ {
        entries_lookup(olds, k).push(pos)
    } else {
        entries_lookup(olds, k)
    } by {
        let q = |e: IndexEntry| e.key@ == k;
        assert(entries@.drop_last() == olds);
        lemma_first_position(olds, q);
        if k == key@ {
            assert(entries_lookup(olds, k) == Seq::<usize>::empty());
            assert(positions@ == Seq::<usize>::empty().push(pos));
        }
    }
}

/// Views of a sequence of strings.
pub open spec fn strings_view(s: Seq<String>) -> Seq<Seq<char>> {
    s.map_values(|c: String| c@)
}

/// Views of a sequence of rows.
pub open spec fn rows_view(rows: Seq<Vec<Value>>) -> Seq<Seq<ValueModel>> {
    rows.map_values(|r: Vec<Value>| values_view(r@))
}

/// Views of a sequence of values.
pub open spec fn values_view(vals: Seq<Value>) -> Seq<ValueModel> {
    vals.map_values(|v: Value| v@)
}

/// Position of the first string of `cols` equal to `name`.
pub fn find_column(cols: &Vec<String>, name: &String) -> (r: Option<usize>)
    ensures
        match r {
            Some(i) => i < cols@.len() && i as int == column_position(strings_view(cols@), name@),
            None => column_position(strings_view(cols@), name@) == -1,
        },
{
    let ghost sv = strings_view(cols@);
    let ghost p = named(name@);
    let mut i: usize = 0;
    while i < cols.len()
        invariant
            i <= cols@.len(),
            sv == strings_view(cols@),
            p == named(name@),
            forall|j: int| 0 <= j < i ==> !p(#[trigger] sv[j]),
        decreases cols@.len() - i,
    {
        if cols[i] == *name {
            proof {
                lemma_first_position_is(sv, p, i as int);
            }
            return Some(i);
        }
        i = i + 1;
    }
    proof {
        lemma_first_position_is(sv, p, -1);
    }
    None
}

/// Index entries listing, for every key, exactly the rows whose `column` holds it.
fn build_entries(columns: &Vec<String>, rows: &Vec<Vec<Value>>, column: &String) -> (r: Vec<IndexEntry>)
    requires
        forall|i: int| 0 <= i < rows@.len() ==> (#[trigger] rows@[i])@.len() == columns@.len(),
    ensures
        forall|k: ValueModel| #[trigger] entries_lookup(r@, k) == matches_of(
            strings_view(columns@),
            rows_view(rows@),
            Some((column@, k)),
        ),
{
    let ghost cols = strings_view(columns@);
    let ghost rv = rows_view(rows@);
    let pos = find_column(columns, column);
    let mut entries: Vec<IndexEntry> = Vec::new();
    let n = rows.len();
    let mut i: usize = 0;
    while i < n
        invariant
            n == rows@.len(),
            i <= n,
            cols == strings_view(columns@),
            rv == rows_view(rows@),
            forall|j: int| 0 <= j < rows@.len() ==> (#[trigger] rows@[j])@.len() == columns@.len(),
            pos matches Some(pi) ==> pi < columns@.len() && pi as int == column_position(cols, column@),
            pos is None ==> column_position(cols, column@) == -1,
            forall|k: ValueModel| #[trigger] entries_lookup(entries@, k) == matched_positions(
                cols,
                rv,
                Some((column@, k)),
                i as nat,
            ),
        decreases n - i,
    {
        let ghost olde = entries@;
        match pos {
            Some(pi) => {
                let key = &rows[i][pi];
                index_add_position(&mut entries, key, i);
                assert forall|k: ValueModel| #[trigger] entries_lookup(entries@, k) == matched_positions(
                    cols,
                    rv,
                    Some((column@, k)),
                    (i + 1) as nat,
                ) by {
                    assert(rv[i as int][pi as int] == key@);
                    assert(entries_lookup(olde, k) == matched_positions(cols, rv, Some((column@, k)), i as nat));
                }
            },
            None => {
                assert forall|k: ValueModel| #[trigger] entries_lookup(entries@, k) == matched_positions(
                    cols,
                    rv,
                    Some((column@, k)),
                    (i + 1) as nat,
                ) by {
                    assert(entries_lookup(olde, k) == matched_positions(cols, rv, Some((column@, k)), i as nat));
                }
            },
        }
        i = i + 1;
    }
    entries
}

/// A per-column secondary index.
pub struct ColumnIndex {
    pub column: String,
    pub entries: Vec<IndexEntry>,
}

/// Whether an index lists, for every key, exactly the matching row positions.
pub open spec fn index_consistent(ix: ColumnIndex, cols: Seq<Seq<char>>, rows: Seq<Seq<ValueModel>>) -> bool {
    forall|k: ValueModel| #[trigger] entries_lookup(ix.entries@, k) == matches_of(cols, rows, Some((ix.column@, k)))
}

/// Mathematical model of a table: its schema, its rows, and the columns it indexes.
pub ghost struct TableModel {
    pub columns: Seq<Seq<char>>,
    pub rows: Seq<Seq<ValueModel>>,
    pub indexed: Seq<Seq<char>>,
}

/// The table after appending a row.
pub open spec fn with_row(t: TableModel, vals: Seq<ValueModel>) -> TableModel {
    TableModel { rows: t.rows.push(vals), ..t }
}

/// The table after adding a column: unchanged when the schema has it, else
/// the column is appended and every row holds Null there.
pub open spec fn with_column(t: TableModel, c: Seq<char>) -> TableModel {
    if t.columns.contains(c) {
        t
    } else {
        TableModel {
            columns: t.columns.push(c),
            rows: Seq::new(t.rows.len(), |i: int| t.rows[i].push(ValueModel::Null)),
            indexed: t.indexed,
        }
    }
}

/// The table after creating an index on `c`.
pub open spec fn with_index(t: TableModel, c: Seq<char>) -> TableModel {
    if t.indexed.contains(c) {
        t
    } else {
        TableModel { indexed: t.indexed.push(c), ..t }
    }
}

/// The table after dropping the index on `c`.
pub open spec fn without_index(t: TableModel, c: Seq<char>) -> TableModel {
    if t.indexed.contains(c) {
        TableModel { indexed: t.indexed.remove(column_position(t.indexed, c)), ..t }
    } else {
        t
    }
}

/// The table after creating an index on each of `cs`, in order.
pub open spec fn with_indexes(t: TableModel, cs: Seq<Seq<char>>) -> TableModel
    decreases cs.len(),
{
    if cs.len() == 0 {
        t
    } else {
        with_index(with_indexes(t, cs.drop_last()), cs.last())
    }
}

/// Whether every row has `width` values.
fn rows_fit(rows: &Vec<Vec<Value>>, width: usize) -> (r: bool)
    ensures
        r == forall|i: int| 0 <= i < rows@.len() ==> (#[trigger] rows@[i])@.len() == width,
{
    let mut i: usize = 0;
    while i < rows.len()
        invariant
            i <= rows@.len(),
            forall|j: int| 0 <= j < i ==> (#[trigger] rows@[j])@.len() == width,
        decreases rows@.len() - i,
    {
        if rows[i].len() != width {
            return false;
        }
        i = i + 1;
    }
    true
}

/// One table: ordered schema, positional rows, and secondary indexes.
pub struct TableMeta {
    columns: Vec<String>,
    rows: Vec<Vec<Value>>,
    indexes: Vec<ColumnIndex>,
}

impl View for TableMeta {
    type V = TableModel;

    closed spec fn view(&self) -> TableModel {
        TableModel {
            columns: strings_view(self.columns@),
            rows: rows_view(self.rows@),
            indexed: self.indexes@.map_values(|ix: ColumnIndex| ix.column@),
        }
    }
}

impl TableMeta {
    /// Every row matches the schema width, every index is exact, and no
    /// column is indexed twice.
    pub closed spec fn wf(&self) -> bool {
        &&& forall|i: int| 0 <= i < self.rows@.len() ==> (#[trigger] self.rows@[i])@.len() == self.columns@.len()
        &&& forall|x: int| 0 <= x < self.indexes@.len() ==> index_consistent(
            #[trigger] self.indexes@[x],
            self@.columns,
            self@.rows,
        )
        &&& self@.indexed.no_duplicates()
    }

    /// An empty table with the given schema and no indexes.
    pub fn new(columns: Vec<String>) -> (r: TableMeta)
        ensures
            r.wf(),
            r@ == (TableModel { columns: strings_view(columns@), rows: Seq::empty(), indexed: Seq::empty() }),
    {
        let r = TableMeta { columns, rows: Vec::new(), indexes: Vec::new() };
        assert(r@.rows =~= Seq::empty());
        assert(r@.indexed =~= Seq::empty());
        r
    }

    /// A table rebuilt from its schema, its rows and the columns it indexes;
    /// `None` when a row's width differs from the schema's.
    pub fn restore(columns: Vec<String>, rows: &Vec<Vec<Value>>, index_columns: &Vec<String>) -> (r: Option<TableMeta>)
        ensures
            (forall|i: int| 0 <= i < rows@.len() ==> (#[trigger] rows@[i])@.len() == columns@.len()) ==> (r matches Some(t)
                && t.wf() && t@ == with_indexes(
                TableModel { columns: strings_view(columns@), rows: rows_view(rows@), indexed: Seq::empty() },
                strings_view(index_columns@),
            )),
            !(forall|i: int| 0 <= i < rows@.len() ==> (#[trigger] rows@[i])@.len() == columns@.len()) ==> r is None,
    {
        let width = columns.len();
        if !rows_fit(rows, width) {
            return None;
        }
        let ghost cols = strings_view(columns@);
        let ghost ncols = columns@.len();
        assert(ncols == columns@.len());
        let mut t = TableMeta::new(columns);
        let mut i: usize = 0;
        assert(rows_view(rows@).subrange(0, 0) =~= Seq::<Seq<ValueModel>>::empty());
        while i < rows.len()
            invariant
                i <= rows@.len(),
                width == ncols,
                width == t@.columns.len(),
                t.wf(),
                t@ == (TableModel { columns: cols, rows: rows_view(rows@).subrange(0, i as int), indexed: Seq::empty() }),
                forall|j: int| 0 <= j < rows@.len() ==> (#[trigger] rows@[j])@.len() == width,
            decreases rows@.len() - i,
        {
            let row = copy_row(&rows[i]);
            assert(values_view(row@).len() == row@.len());
            assert(values_view(rows@[i as int]@).len() == rows@[i as int]@.len());
            t.insert_row(row);
            assert(t@.rows =~= rows_view(rows@).subrange(0, i + 1));
            i = i + 1;
        }
        assert(rows_view(rows@).subrange(0, i as int) =~= rows_view(rows@));
        let ghost base = t@;
        let mut x: usize = 0;
        while x < index_columns.len()
            invariant
                x <= index_columns@.len(),
                t.wf(),
                t@ == with_indexes(base, strings_view(index_columns@).subrange(0, x as int)),
            decreases index_columns@.len() - x,
        {
            t.create_index(&index_columns[x]);
            assert(strings_view(index_columns@).subrange(0, x + 1).drop_last() =~= strings_view(index_columns@).subrange(0, x as int));
            x = x + 1;
        }
        assert(strings_view(index_columns@).subrange(0, x as int) =~= strings_view(index_columns@));
        Some(t)
    }

    /// The schema, in order.
    pub fn columns(&self) -> (r: &Vec<String>)
        ensures
            strings_view(r@) == self@.columns,
    {
        &self.columns
    }

    /// The rows, in order, each in schema order.
    pub fn rows(&self) -> (r: &Vec<Vec<Value>>)
        ensures
            rows_view(r@) == self@.rows,
    {
        &self.rows
    }

    /// Number of rows.
    pub fn row_count(&self) -> (r: usize)
        ensures
            r == self@.rows.len(),
    {
        self.rows.len()
    }

    /// Position of the index on `column`, if there is one.
    fn find_index(&self, column: &String) -> (r: Option<usize>)
        ensures
            match r {
                Some(x) => x < self.indexes@.len() && self.indexes@[x as int].column@ == column@
                    && x as int == column_position(self@.indexed, column@)
                    && self@.indexed[x as int] == column@,
                None => !self@.indexed.contains(column@),
            },
    {
        let ghost iv = self@.indexed;
        let ghost p = named(column@);
        let mut x: usize = 0;
        while x < self.indexes.len()
            invariant
                x <= self.indexes@.len(),
                iv == self@.indexed,
                p == named(column@),
                forall|j: int| 0 <= j < x ==> !p(#[trigger] iv[j]),
            decreases self.indexes@.len() - x,
        {
            if self.indexes[x].column == *column {
                proof {
                    lemma_first_position_is(iv, p, x as int);
                }
                return Some(x);
            }
            x = x + 1;
        }
        assert(!iv.contains(column@)) by {
            if iv.contains(column@) {
                let j = choose|j: int| 0 <= j < iv.len() && iv[j] == column@;
                assert(!p(iv[j]));
            }
        }
        None
    }

    /// The column names this table indexes.
    pub fn index_columns(&self) -> (r: Vec<String>)
        ensures
            strings_view(r@) == self@.indexed,
    {
        let mut r: Vec<String> = Vec::new();
        let mut x: usize = 0;
        while x < self.indexes.len()
            invariant
                x <= self.indexes@.len(),
                r@.len() == x,
                forall|j: int| 0 <= j < x ==> (#[trigger] r@[j])@ == self.indexes@[j].column@,
            decreases self.indexes@.len() - x,
        {
            r.push(self.indexes[x].column.clone());
            x = x + 1;
        }
        assert(strings_view(r@) =~= self@.indexed);
        r
    }

    /// Rebuilds every index from a full scan of the rows.
    fn rebuild_indexes(&mut self)
        requires
            forall|i: int| 0 <= i < old(self).rows@.len() ==> (#[trigger] old(self).rows@[i])@.len() == old(self).columns@.len(),
            old(self)@.indexed.no_duplicates(),
        ensures
            final(self).wf(),
            final(self)@ == old(self)@,
    {
        let mut fresh: Vec<ColumnIndex> = Vec::new();
        let mut x: usize = 0;
        while x < self.indexes.len()
            invariant
                x <= self.indexes@.len(),
                *self == *old(self),
                forall|i: int| 0 <= i < self.rows@.len() ==> (#[trigger] self.rows@[i])@.len() == self.columns@.len(),
                fresh@.len() == x,
                forall|y: int| 0 <= y < x ==> (#[trigger] fresh@[y]).column@ == self.indexes@[y].column@,
                forall|y: int| 0 <= y < x ==> index_consistent(#[trigger] fresh@[y], self@.columns, self@.rows),
            decreases self.indexes@.len() - x,
        {
            let column = self.indexes[x].column.clone();
            let entries = build_entries(&self.columns, &self.rows, &column);
            fresh.push(ColumnIndex { column, entries });
            x = x + 1;
        }
        self.indexes = fresh;
        assert(self@.indexed =~= old(self)@.indexed);
    }

    /// Appends a row given in schema order, and records it in every index.
    pub fn insert_row(&mut self, values: Vec<Value>)
        requires
            old(self).wf(),
            values@.len() == old(self)@.columns.len(),
        ensures
            final(self).wf(),
            final(self)@ == with_row(old(self)@, values_view(values@)),
    {
        let n = self.rows.len();
        let ghost vv = values_view(values@);
        let ghost cols = self@.columns;
        let ghost new_rows = self@.rows.push(vv);
        let ghost old_ixs = self.indexes@;
        let mut x: usize = 0;
        while x < self.indexes.len()
            invariant
                n == self.rows@.len(),
                x <= self.indexes@.len(),
                self.indexes@.len() == old_ixs.len(),
                self.columns == old(self).columns,
                self.rows == old(self).rows,
                cols == self@.columns,
                vv == values_view(values@),
                values@.len() == self.columns@.len(),
                new_rows == old(self)@.rows.push(vv),
                forall|i: int| 0 <= i < self.rows@.len() ==> (#[trigger] self.rows@[i])@.len() == self.columns@.len(),
                forall|y: int| 0 <= y < old_ixs.len() ==> index_consistent(#[trigger] old_ixs[y], cols, old(self)@.rows),
                forall|y: int| 0 <= y < self.indexes@.len() ==> (#[trigger] self.indexes@[y]).column == old_ixs[y].column,
                forall|y: int| x <= y < self.indexes@.len() ==> #[trigger] self.indexes@[y] == old_ixs[y],
                forall|y: int| 0 <= y < x ==> index_consistent(#[trigger] self.indexes@[y], cols, new_rows),
            decreases self.indexes@.len() - x,
        {
            let pos = find_column(&self.columns, &self.indexes[x].column);
            let ghost c = self.indexes@[x as int].column@;
            let ghost olde = self.indexes@[x as int].entries@;
            proof {
                assert forall|k: ValueModel| matched_positions(cols, new_rows, Some((c, k)), n as nat)
                    == matched_positions(cols, old(self)@.rows, Some((c, k)), n as nat) by {
                    lemma_matched_prefix(cols, new_rows, old(self)@.rows, Some((c, k)), n as nat);
                }
            }
            assert(old_ixs[x as int] == self.indexes@[x as int]);
            assert(index_consistent(old_ixs[x as int], cols, old(self)@.rows));
            assert(new_rows.len() == n + 1);
            assert(new_rows[n as int] == vv);
            match pos {
                Some(p) => {
                    index_add_position(&mut self.indexes[x].entries, &values[p], n);
                    assert(vv[p as int] == values@[p as int]@);
                    assert(cell_of(cols, vv, c) == Some(vv[p as int]));
                    assert(self.indexes@[x as int].column == old_ixs[x as int].column);
                    assert forall|k: ValueModel| #[trigger] entries_lookup(self.indexes@[x as int].entries@, k)
                        == matches_of(cols, new_rows, Some((c, k))) by {
                        assert(entries_lookup(olde, k) == matches_of(cols, old(self)@.rows, Some((c, k))));
                        assert(row_matches(cols, new_rows[n as int], Some((c, k))) == (k == values@[p as int]@));
                        let m_old = matched_positions(cols, new_rows, Some((c, k)), n as nat);
                        assert(matches_of(cols, new_rows, Some((c, k))) == matched_positions(cols, new_rows, Some((c, k)), (n + 1) as nat));
                        assert(matched_positions(cols, new_rows, Some((c, k)), (n + 1) as nat) == if k == values@[p as int]@ {
                            m_old.push(n)
                        } else {
                            m_old
                        });
                        assert(entries_lookup(self.indexes@[x as int].entries@, k) == if k == values@[p as int]@ {
                            entries_lookup(olde, k).push(n)
                        } else {
                            entries_lookup(olde, k)
                        });
                    }
                },
                None => {
                    assert(cell_of(cols, vv, c) is None);
                    assert(self.indexes@[x as int].entries@ == olde);
                    assert forall|k: ValueModel| #[trigger] entries_lookup(self.indexes@[x as int].entries@, k)
                        == matches_of(cols, new_rows, Some((c, k))) by {
                        assert(entries_lookup(olde, k) == matches_of(cols, old(self)@.rows, Some((c, k))));
                        assert(!row_matches(cols, new_rows[n as int], Some((c, k))));
                        assert(matched_positions(cols, new_rows, Some((c, k)), n as nat)
                            == matched_positions(cols, old(self)@.rows, Some((c, k)), n as nat));
                        assert(matches_of(cols, new_rows, Some((c, k))) == matched_positions(cols, new_rows, Some((c, k)), (n + 1) as nat));
                    }
                },
            }
            assert(index_consistent(self.indexes@[x as int], cols, new_rows));
            x = x + 1;
        }
        self.rows.push(values);
        assert(self@.rows =~= new_rows);
        assert(self@.indexed =~= old(self)@.indexed) by {
            assert forall|y: int| 0 <= y < old_ixs.len() implies self@.indexed[y] == old(self)@.indexed[y] by {
                assert(self.indexes@[y].column == old_ixs[y].column);
            }
        }
    }

    /// Appends a column unless the schema has it; every existing row gets
    /// Null there, and every index is rebuilt.
    pub fn add_column(&mut self, column: String)
        requires
            old(self).wf(),
        ensures
            final(self).wf(),
            final(self)@ == with_column(old(self)@, column@),
    {
        proof {
            lemma_first_position(self@.columns, named(column@));
        }
        match find_column(&self.columns, &column) {
            Some(p) => {
                assert(self@.columns[p as int] == column@);
                return;
            },
            None => {},
        }
        let ghost old_rows = self@.rows;
        let ghost cs = column;
        self.columns.push(column);
        let n = self.rows.len();
        let mut i: usize = 0;
        while i < n
            invariant
                n == self.rows@.len(),
                i <= n,
                n == old(self).rows@.len(),
                self.columns@ == old(self).columns@.push(cs),
                self.indexes == old(self).indexes,
                forall|j: int| 0 <= j < n ==> (#[trigger] old(self).rows@[j])@.len() == old(self).columns@.len(),
                forall|j: int| 0 <= j < i ==> (#[trigger] self.rows@[j])@ == old(self).rows@[j]@.push(Value::Null),
                forall|j: int| i <= j < n ==> #[trigger] self.rows@[j] == old(self).rows@[j],
            decreases n - i,
        {
            self.rows[i].push(Value::Null);
            i = i + 1;
        }
        assert(self@.columns =~= old(self)@.columns.push(cs@));
        assert forall|j: int| 0 <= j < n implies #[trigger] self@.rows[j] == old_rows[j].push(ValueModel::Null) by {
            assert(values_view(self.rows@[j]@) =~= values_view(old(self).rows@[j]@).push(ValueModel::Null));
        }
        assert(self@.rows =~= Seq::new(old_rows.len(), |j: int| old_rows[j].push(ValueModel::Null)));
        assert(forall|j: int| 0 <= j < n ==> (#[trigger] self.rows@[j])@.len() == self.columns@.len());
        self.rebuild_indexes();
    }

    /// Builds the index on `column` unless one exists.
    pub fn create_index(&mut self, column: &String)
        requires
            old(self).wf(),
        ensures
            final(self).wf(),
            final(self)@ == with_index(old(self)@, column@),
    {
        if let Some(x) = self.find_index(column) {
            assert(self@.indexed.contains(column@)) by {
                assert(self@.indexed[x as int] == column@);
            }
            return;
        }
        let entries = build_entries(&self.columns, &self.rows, column);
        let ghost old_ixs = self.indexes@;
        self.indexes.push(ColumnIndex { column: column.clone(), entries });
        assert(self@.indexed =~= old(self)@.indexed.push(column@));
        assert forall|x: int| 0 <= x < self.indexes@.len() implies index_consistent(
            #[trigger] self.indexes@[x],
            self@.columns,
            self@.rows,
        ) by {
            if x < old_ixs.len() {
                assert(self.indexes@[x] == old_ixs[x]);
            }
        }
    }

    /// Removes the index on `column`, if any.
    pub fn drop_index(&mut self, column: &String)
        requires
            old(self).wf(),
        ensures
            final(self).wf(),
            final(self)@ == without_index(old(self)@, column@),
            !final(self)@.indexed.contains(column@),
    {
        match self.find_index(column) {
            None => {},
            Some(x) => {
                assert(self@.indexed.contains(column@)) by {
                    assert(self@.indexed[x as int] == column@);
                }
                let ghost old_ixs = self.indexes@;
                let _ = self.indexes.remove(x);
                assert(self@.indexed =~= old(self)@.indexed.remove(x as int));
                assert forall|y: int| 0 <= y < self.indexes@.len() implies index_consistent(
                    #[trigger] self.indexes@[y],
                    self@.columns,
                    self@.rows,
                ) by {
                    if y < x {
                        assert(self.indexes@[y] == old_ixs[y]);
                    } else {
                        assert(self.indexes@[y] == old_ixs[y + 1]);
                    }
                }
                assert(!self@.indexed.contains(column@)) by {
                    if self@.indexed.contains(column@) {
                        let j = choose|j: int| 0 <= j < self@.indexed.len() && self@.indexed[j] == column@;
                        if j < x {
                            assert(old(self)@.indexed[j] == column@);
                        } else {
                            assert(old(self)@.indexed[j + 1] == column@);
                        }
                        assert(old(self)@.indexed[x as int] == column@);
                    }
                }
            },
        }
    }
}

/// A named value of an output row, as a model.
pub type CellModel = (Seq<char>, ValueModel);

/// Views of the cells of an output row.
pub open spec fn cells_view(cells: Seq<Cell>) -> Seq<CellModel> {
    cells.map_values(|c: Cell| c@)
}

/// Views of a sequence of output rows.
pub open spec fn out_view(rows: Seq<Vec<Cell>>) -> Seq<Seq<CellModel>> {
    rows.map_values(|r: Vec<Cell>| cells_view(r@))
}

/// Whether a requested column list is the single wildcard `*`.
pub open spec fn is_star(requested: Seq<Seq<char>>) -> bool {
    requested.len() == 1 && requested[0] == seq!['*']
}

/// The part of a name after its last dot (the whole name when it has none).
pub open spec fn last_segment(q: Seq<char>) -> Seq<char>
    decreases q.len(),
{
    if q.len() == 0 {
        q
    } else if q.last() == '.' {
        Seq::empty()
    } else {
        last_segment(q.drop_last()).push(q.last())
    }
}

/// The value, or Null when there is none.
pub open spec fn or_null(v: Option<ValueModel>) -> ValueModel {
    match v {
        Some(v) => v,
        None => ValueModel::Null,
    }
}

/// A full row: every column of the schema, in order, with its value.
pub open spec fn star_row(cols: Seq<Seq<char>>, row: Seq<ValueModel>) -> Seq<CellModel> {
    Seq::new(cols.len(), |j: int| (cols[j], row[j]))
}

/// A projected row: each requested name, with the value of the column named
/// by its last segment, or Null.
pub open spec fn projected_row(cols: Seq<Seq<char>>, row: Seq<ValueModel>, requested: Seq<Seq<char>>) -> Seq<CellModel> {
    Seq::new(requested.len(), |j: int| (requested[j], or_null(cell_of(cols, row, last_segment(requested[j])))))
}

/// What a selection outputs for one row.
pub open spec fn output_row(cols: Seq<Seq<char>>, row: Seq<ValueModel>, requested: Seq<Seq<char>>) -> Seq<CellModel> {
    if is_star(requested) {
        star_row(cols, row)
    } else {
        projected_row(cols, row, requested)
    }
}

/// The rows at the given positions.
pub open spec fn rows_at(rows: Seq<Seq<ValueModel>>, ps: Seq<usize>) -> Seq<Seq<ValueModel>> {
    Seq::new(ps.len(), |i: int| rows[ps[i] as int])
}

/// The rows of a table that satisfy `cond`, in table order.
pub open spec fn filtered_rows(t: TableModel, cond: Option<(Seq<char>, ValueModel)>) -> Seq<Seq<ValueModel>> {
    rows_at(t.rows, matches_of(t.columns, t.rows, cond))
}

/// The output of a selection without a join.
pub open spec fn select_model(
    t: TableModel,
    requested: Seq<Seq<char>>,
    cond: Option<(Seq<char>, ValueModel)>,
) -> Seq<Seq<CellModel>> {
    let rs = filtered_rows(t, cond);
    Seq::new(rs.len(), |i: int| output_row(t.columns, rs[i], requested))
}

/// A suffix after the last dot, or after the start, is the last segment.
proof fn lemma_last_segment(q: Seq<char>, i: int)
    requires
        0 <= i <= q.len(),
        i == 0 || q[i - 1] == '.',
        forall|j: int| i <= j < q.len() ==> q[j] != '.',
    ensures
        last_segment(q) == q.subrange(i, q.len() as int),
    decreases q.len(),
{
    if q.len() > 0 {
        if i == q.len() {
            assert(q.subrange(i, q.len() as int) =~= Seq::<char>::empty());
        } else {
            lemma_last_segment(q.drop_last(), i);
            assert(q.subrange(i, q.len() as int) =~= q.drop_last().subrange(i, q.len() - 1).push(q.last()));
        }
    }
}

/// Whether the requested list is the single wildcard `*`.
pub fn requests_all(requested: &Vec<String>) -> (r: bool)
    ensures
        r == is_star(strings_view(requested@)),
{
    if requested.len() != 1 {
        return false;
    }
    let s = requested[0].as_str();
    if s.unicode_len() != 1 {
        assert(strings_view(requested@)[0] != seq!['*']);
        return false;
    }
    let c = s.get_char(0);
    if c == '*' {
        assert(strings_view(requested@)[0] =~= seq!['*']);
        true
    } else {
        assert(strings_view(requested@)[0][0] != seq!['*'][0]);
        false
    }
}

/// The part of `q` after its last dot.
pub fn last_segment_of(q: &String) -> (r: String)
    ensures
        r@ == last_segment(q@),
{
    let s = q.as_str();
    let n = s.unicode_len();
    let mut i: usize = n;
    while i > 0 && s.get_char(i - 1) != '.'
        invariant
            i <= n,
            n == s@.len(),
            s@ == q@,
            forall|j: int| i <= j < n ==> s@[j] != '.',
        decreases i,
    {
        i = i - 1;
    }
    proof {
        lemma_last_segment(q@, i as int);
    }
    String::from_str(s.substring_char(i, n))
}

/// The value of the column named `name`, or Null.
fn value_at(cols: &Vec<String>, row: &Vec<Value>, name: &String) -> (r: Value)
    requires
        row@.len() == cols@.len(),
    ensures
        r@ == or_null(cell_of(strings_view(cols@), values_view(row@), name@)),
{
    match find_column(cols, name) {
        Some(p) => row[p].clone(),
        None => Value::Null,
    }
}

/// Every column of the schema with its value.
pub(crate) fn star_row_of(cols: &Vec<String>, row: &Vec<Value>) -> (r: Vec<Cell>)
    requires
        row@.len() == cols@.len(),
    ensures
        cells_view(r@) == star_row(strings_view(cols@), values_view(row@)),
{
    let mut r: Vec<Cell> = Vec::new();
    let mut j: usize = 0;
    while j < cols.len()
        invariant
            j <= cols@.len(),
            row@.len() == cols@.len(),
            r@.len() == j,
            forall|i: int| 0 <= i < j ==> (#[trigger] r@[i])@ == (cols@[i]@, row@[i]@),
        decreases cols@.len() - j,
    {
        r.push(Cell { column: cols[j].clone(), value: row[j].clone() });
        j = j + 1;
    }
    assert(cells_view(r@) =~= star_row(strings_view(cols@), values_view(row@)));
    r
}

/// Each requested name with the value of the column its last segment names.
fn projected_row_of(cols: &Vec<String>, row: &Vec<Value>, requested: &Vec<String>) -> (r: Vec<Cell>)
    requires
        row@.len() == cols@.len(),
    ensures
        cells_view(r@) == projected_row(strings_view(cols@), values_view(row@), strings_view(requested@)),
{
    let mut r: Vec<Cell> = Vec::new();
    let mut j: usize = 0;
    while j < requested.len()
        invariant
            j <= requested@.len(),
            row@.len() == cols@.len(),
            r@.len() == j,
            forall|i: int| 0 <= i < j ==> (#[trigger] r@[i])@ == (
                requested@[i]@,
                or_null(cell_of(strings_view(cols@), values_view(row@), last_segment(requested@[i]@))),
            ),
        decreases requested@.len() - j,
    {
        let name = last_segment_of(&requested[j]);
        let v = value_at(cols, row, &name);
        r.push(Cell { column: requested[j].clone(), value: v });
        j = j + 1;
    }
    assert(cells_view(r@) =~= projected_row(strings_view(cols@), values_view(row@), strings_view(requested@)));
    r
}

/// A copy of a list of positions.
fn copy_positions(v: &Vec<usize>) -> (r: Vec<usize>)
    ensures
        r@ == v@,
{
    let mut r: Vec<usize> = Vec::new();
    let mut i: usize = 0;
    while i < v.len()
        invariant
            i <= v@.len(),
            r@ == v@.subrange(0, i as int),
        decreases v@.len() - i,
    {
        r.push(v[i]);
        assert(r@ =~= v@.subrange(0, i + 1));
        i = i + 1;
    }
    assert(r@ =~= v@);
    r
}

/// The positions an index lists under `key`.
fn lookup_entries(entries: &Vec<IndexEntry>, key: &Value) -> (r: Vec<usize>)
    ensures
        r@ == entries_lookup(entries@, key@),
{
    let ghost p = |e: IndexEntry| e.key@ == key@;
    let mut j: usize = 0;
    while j < entries.len()
        invariant
            j <= entries@.len(),
            p == (|e: IndexEntry| e.key@ == key@),
            forall|i: int| 0 <= i < j ==> !p(#[trigger] entries@[i]),
        decreases entries@.len() - j,
    {
        if values_equal(&entries[j].key, key) {
            proof {
                lemma_first_position_is(entries@, p, j as int);
            }
            return copy_positions(&entries[j].positions);
        }
        j = j + 1;
    }
    proof {
        lemma_first_position_is(entries@, p, -1);
    }
    Vec::new()
}

impl TableMeta {
    /// Positions of the rows that satisfy `cond`: read from the index on the
    /// condition's column when there is one, else found by a full scan.
    pub fn matching_positions(&self, cond: Option<&Condition>) -> (r: Vec<usize>)
        requires
            self.wf(),
        ensures
            r@ == matches_of(self@.columns, self@.rows, cond_view(cond)),
            forall|i: int| 0 <= i < r@.len() ==> #[trigger] r@[i] < self@.rows.len(),
    {
        let n = self.rows.len();
        proof {
            assert(self@.rows.len() == self.rows@.len());
            lemma_matched_prefix(self@.columns, self@.rows, self@.rows, cond_view(cond), self@.rows.len());
        }
        if let Some(c) = cond {
            if let Some(x) = self.find_index(&c.column) {
                assert(index_consistent(self.indexes@[x as int], self@.columns, self@.rows));
                return lookup_entries(&self.indexes[x].entries, &c.value);
            }
        }
        let ghost cols = self@.columns;
        let ghost rows = self@.rows;
        let ghost cv = cond_view(cond);
        let pos = match cond {
            Some(c) => find_column(&self.columns, &c.column),
            None => None,
        };
        let mut r: Vec<usize> = Vec::new();
        let mut i: usize = 0;
        while i < n
            invariant
                n == self.rows@.len(),
                i <= n,
                cols == self@.columns,
                rows == self@.rows,
                cv == cond_view(cond),
                forall|j: int| 0 <= j < n ==> (#[trigger] self.rows@[j])@.len() == self.columns@.len(),
                cond matches Some(c) ==> (pos matches Some(p) ==> p < self.columns@.len() && p as int == column_position(cols, c.column@)),
                cond matches Some(c) ==> (pos is None ==> column_position(cols, c.column@) == -1),
                r@ == matched_positions(cols, rows, cv, i as nat),
            decreases n - i,
        {
            let hit = match cond {
                None => true,
                Some(c) => match pos {
                    Some(p) => values_equal(&self.rows[i][p], &c.value),
                    None => false,
                },
            };
            assert(hit == row_matches(cols, rows[i as int], cv));
            if hit {
                r.push(i);
            }
            i = i + 1;
        }
        r
    }

    /// The rows that satisfy `cond`, each output whole for `*` or projected
    /// onto the requested names.
    pub fn select_rows(&self, requested: &Vec<String>, cond: Option<&Condition>) -> (r: Vec<Vec<Cell>>)
        requires
            self.wf(),
        ensures
            out_view(r@) == select_model(self@, strings_view(requested@), cond_view(cond)),
    {
        let ps = self.matching_positions(cond);
        let star = requests_all(requested);
        let ghost rs = filtered_rows(self@, cond_view(cond));
        let mut r: Vec<Vec<Cell>> = Vec::new();
        let mut i: usize = 0;
        while i < ps.len()
            invariant
                self.wf(),
                i <= ps@.len(),
                ps@ == matches_of(self@.columns, self@.rows, cond_view(cond)),
                forall|j: int| 0 <= j < ps@.len() ==> #[trigger] ps@[j] < self@.rows.len(),
                star == is_star(strings_view(requested@)),
                rs == filtered_rows(self@, cond_view(cond)),
                r@.len() == i,
                forall|j: int| 0 <= j < i ==> cells_view((#[trigger] r@[j])@) == output_row(self@.columns, rs[j], strings_view(requested@)),
            decreases ps@.len() - i,
        {
            let p = ps[i];
            assert(self.rows@[p as int]@.len() == self.columns@.len());
            let row = if star {
                star_row_of(&self.columns, &self.rows[p])
            } else {
                projected_row_of(&self.columns, &self.rows[p], requested)
            };
            r.push(row);
            i = i + 1;
        }
        assert(out_view(r@) =~= select_model(self@, strings_view(requested@), cond_view(cond)));
        r
    }
}

/// Views of a list of assignments.
pub open spec fn assigns_view(a: Seq<Assignment>) -> Seq<(Seq<char>, ValueModel)> {
    a.map_values(|x: Assignment| x@)
}

/// The value the last assignment to column `c` gives, if any assigns it.
pub open spec fn assigned_value(assigns: Seq<(Seq<char>, ValueModel)>, c: Seq<char>) -> Option<ValueModel>
    decreases assigns.len(),
{
    if assigns.len() == 0 {
        None
    } else if assigns.last().0 == c {
        Some(assigns.last().1)
    } else {
        assigned_value(assigns.drop_last(), c)
    }
}

/// A row with the assigned columns overwritten; other columns, and names
/// outside the schema, are left alone.
pub open spec fn updated_row(
    cols: Seq<Seq<char>>,
    row: Seq<ValueModel>,
    assigns: Seq<(Seq<char>, ValueModel)>,
) -> Seq<ValueModel> {
    Seq::new(row.len(), |j: int| match assigned_value(assigns, cols[j]) {
        Some(v) => v,
        None => row[j],
    })
}

/// The rows after an update: matching rows updated, the rest unchanged.
pub open spec fn updated_rows(
    t: TableModel,
    assigns: Seq<(Seq<char>, ValueModel)>,
    cond: Option<(Seq<char>, ValueModel)>,
) -> Seq<Seq<ValueModel>> {
    Seq::new(t.rows.len(), |i: int| if row_matches(t.columns, t.rows[i], cond) {
        updated_row(t.columns, t.rows[i], assigns)
    } else {
        t.rows[i]
    })
}

/// The table after an update.
pub open spec fn after_update(
    t: TableModel,
    assigns: Seq<(Seq<char>, ValueModel)>,
    cond: Option<(Seq<char>, ValueModel)>,
) -> TableModel {
    TableModel { rows: updated_rows(t, assigns, cond), ..t }
}

/// The table after a delete: the rows that do not satisfy `cond`, in order.
pub open spec fn after_delete(t: TableModel, cond: Option<(Seq<char>, ValueModel)>) -> TableModel {
    TableModel { rows: kept_rows(t.columns, t.rows, cond, t.rows.len()), ..t }
}

/// The first `n` rows that do not satisfy `cond`, in order.
pub open spec fn kept_rows(
    cols: Seq<Seq<char>>,
    rows: Seq<Seq<ValueModel>>,
    cond: Option<(Seq<char>, ValueModel)>,
    n: nat,
) -> Seq<Seq<ValueModel>>
    decreases n,
{
    if n == 0 {
        Seq::empty()
    } else {
        let s = kept_rows(cols, rows, cond, (n - 1) as nat);
        if row_matches(cols, rows[n - 1], cond) {
            s
        } else {
            s.push(rows[n - 1])
        }
    }
}

/// Whether a row satisfies `cond`, given the position of the condition's column.
fn row_hit(row: &Vec<Value>, cond: Option<&Condition>, pos: Option<usize>, Ghost(cols): Ghost<Seq<Seq<char>>>) -> (r: bool)
    requires
        row@.len() == cols.len(),
        cond matches Some(c) ==> (pos matches Some(p) ==> p < cols.len() && p as int == column_position(cols, c.column@)),
        cond matches Some(c) ==> (pos is None ==> column_position(cols, c.column@) == -1),
    ensures
        r == row_matches(cols, values_view(row@), cond_view(cond)),
{
    match cond {
        None => true,
        Some(c) => match pos {
            Some(p) => values_equal(&row[p], &c.value),
            None => false,
        },
    }
}

/// Position of the condition's column in the schema.
fn cond_column(cols: &Vec<String>, cond: Option<&Condition>) -> (r: Option<usize>)
    ensures
        cond matches Some(c) ==> (r matches Some(p) ==> p < cols@.len() && p as int == column_position(strings_view(cols@), c.column@)),
        cond matches Some(c) ==> (r is None ==> column_position(strings_view(cols@), c.column@) == -1),
{
    match cond {
        Some(c) => find_column(cols, &c.column),
        None => None,
    }
}

/// Position of the last assignment to `col`.
fn last_assignment(assigns: &Vec<Assignment>, col: &String) -> (r: Option<usize>)
    ensures
        match r {
            Some(k) => k < assigns@.len() && assigned_value(assigns_view(assigns@), col@) == Some(assigns@[k as int].value@),
            None => assigned_value(assigns_view(assigns@), col@) is None,
        },
{
    let ghost av = assigns_view(assigns@);
    let mut k: usize = assigns.len();
    assert(av.subrange(0, k as int) =~= av);
    while k > 0
        invariant
            k <= assigns@.len(),
            av == assigns_view(assigns@),
            assigned_value(av, col@) == assigned_value(av.subrange(0, k as int), col@),
        decreases k,
    {
        assert(av.subrange(0, k as int).drop_last() =~= av.subrange(0, k - 1));
        if assigns[k - 1].column == *col {
            return Some(k - 1);
        }
        k = k - 1;
    }
    assert(av.subrange(0, 0) =~= Seq::<(Seq<char>, ValueModel)>::empty());
    None
}

/// A copy of a row, with the assigned columns overwritten.
fn apply_assignments(cols: &Vec<String>, row: &Vec<Value>, assigns: &Vec<Assignment>) -> (r: Vec<Value>)
    requires
        row@.len() == cols@.len(),
    ensures
        values_view(r@) == updated_row(strings_view(cols@), values_view(row@), assigns_view(assigns@)),
{
    let mut r: Vec<Value> = Vec::new();
    let mut j: usize = 0;
    while j < row.len()
        invariant
            j <= row@.len(),
            row@.len() == cols@.len(),
            r@.len() == j,
            forall|i: int| 0 <= i < j ==> (#[trigger] r@[i])@ == updated_row(
                strings_view(cols@),
                values_view(row@),
                assigns_view(assigns@),
            )[i],
        decreases row@.len() - j,
    {
        let v = match last_assignment(assigns, &cols[j]) {
            Some(k) => assigns[k].value.clone(),
            None => row[j].clone(),
        };
        r.push(v);
        j = j + 1;
    }
    assert(values_view(r@) =~= updated_row(strings_view(cols@), values_view(row@), assigns_view(assigns@)));
    r
}

/// A copy of a row.
pub(crate) fn copy_row(row: &Vec<Value>) -> (r: Vec<Value>)
    ensures
        values_view(r@) == values_view(row@),
{
    let mut r: Vec<Value> = Vec::new();
    let mut j: usize = 0;
    while j < row.len()
        invariant
            j <= row@.len(),
            r@.len() == j,
            forall|i: int| 0 <= i < j ==> (#[trigger] r@[i])@ == row@[i]@,
        decreases row@.len() - j,
    {
        r.push(row[j].clone());
        j = j + 1;
    }
    assert(values_view(r@) =~= values_view(row@));
    r
}

impl TableMeta {
    /// Overwrites the assigned columns of every row that satisfies `cond`,
    /// rebuilds every index, and returns how many rows matched.
    pub fn update_rows(&mut self, assigns: &Vec<Assignment>, cond: Option<&Condition>) -> (count: usize)
        requires
            old(self).wf(),
        ensures
            final(self).wf(),
            final(self)@ == after_update(old(self)@, assigns_view(assigns@), cond_view(cond)),
            count == matches_of(old(self)@.columns, old(self)@.rows, cond_view(cond)).len(),
    {
        let ghost t = self@;
        let ghost cv = cond_view(cond);
        let pos = cond_column(&self.columns, cond);
        let n = self.rows.len();
        let mut count: usize = 0;
        let mut i: usize = 0;
        proof {
            lemma_matched_prefix(t.columns, t.rows, t.rows, cv, n as nat);
            lemma_matched_len(t.columns, t.rows, cv, n as nat, n as nat);
        }
        while i < n
            invariant
                n == self.rows@.len(),
                n == t.rows.len(),
                i <= n,
                t == old(self)@,
                cv == cond_view(cond),
                self.columns == old(self).columns,
                self.indexes == old(self).indexes,
                strings_view(self.columns@) == t.columns,
                forall|j: int| 0 <= j < n ==> (#[trigger] self.rows@[j])@.len() == self.columns@.len(),
                cond matches Some(c) ==> (pos matches Some(p) ==> p < self.columns@.len() && p as int == column_position(t.columns, c.column@)),
                cond matches Some(c) ==> (pos is None ==> column_position(t.columns, c.column@) == -1),
                forall|j: int| 0 <= j < i ==> values_view((#[trigger] self.rows@[j])@) == updated_rows(t, assigns_view(assigns@), cv)[j],
                forall|j: int| i <= j < n ==> #[trigger] self.rows@[j] == old(self).rows@[j],
                count == matched_positions(t.columns, t.rows, cv, i as nat).len(),
                matched_positions(t.columns, t.rows, cv, n as nat).len() <= n,
            decreases n - i,
        {
            proof {
                lemma_matched_prefix(t.columns, t.rows, t.rows, cv, (i + 1) as nat);
                lemma_matched_len(t.columns, t.rows, cv, (i + 1) as nat, n as nat);
            }
            assert(values_view(self.rows@[i as int]@) == t.rows[i as int]);
            if row_hit(&self.rows[i], cond, pos, Ghost(t.columns)) {
                let new_row = apply_assignments(&self.columns, &self.rows[i], assigns);
                assert(values_view(new_row@).len() == new_row@.len());
                assert(new_row@.len() == self.columns@.len());
                self.rows.set(i, new_row);
                count = count + 1;
            }
            i = i + 1;
        }
        assert(self@.rows =~= updated_rows(t, assigns_view(assigns@), cv));
        self.rebuild_indexes();
        count
    }

    /// Removes every row that satisfies `cond`, keeping the others in order,
    /// rebuilds every index, and returns how many rows were removed.
    pub fn delete_rows(&mut self, cond: Option<&Condition>) -> (count: usize)
        requires
            old(self).wf(),
        ensures
            final(self).wf(),
            final(self)@ == after_delete(old(self)@, cond_view(cond)),
            count == matches_of(old(self)@.columns, old(self)@.rows, cond_view(cond)).len(),
    {
        let ghost t = self@;
        let ghost cv = cond_view(cond);
        let pos = cond_column(&self.columns, cond);
        let n = self.rows.len();
        let mut kept: Vec<Vec<Value>> = Vec::new();
        let mut count: usize = 0;
        let mut i: usize = 0;
        while i < n
            invariant
                n == self.rows@.len(),
                n == t.rows.len(),
                i <= n,
                *self == *old(self),
                t == self@,
                cv == cond_view(cond),
                forall|j: int| 0 <= j < n ==> (#[trigger] self.rows@[j])@.len() == self.columns@.len(),
                cond matches Some(c) ==> (pos matches Some(p) ==> p < self.columns@.len() && p as int == column_position(t.columns, c.column@)),
                cond matches Some(c) ==> (pos is None ==> column_position(t.columns, c.column@) == -1),
                rows_view(kept@) == kept_rows(t.columns, t.rows, cv, i as nat),
                forall|j: int| 0 <= j < kept@.len() ==> (#[trigger] kept@[j])@.len() == self.columns@.len(),
                count == matched_positions(t.columns, t.rows, cv, i as nat).len(),
                count <= i,
            decreases n - i,
        {
            assert(values_view(self.rows@[i as int]@) == t.rows[i as int]);
            if row_hit(&self.rows[i], cond, pos, Ghost(t.columns)) {
                count = count + 1;
            } else {
                let ghost old_kept = kept@;
                let row = copy_row(&self.rows[i]);
                kept.push(row);
                assert(rows_view(kept@) =~= rows_view(old_kept).push(t.rows[i as int]));
            }
            i = i + 1;
        }
        self.rows = kept;
        self.rebuild_indexes();
        count
    }
}

/// The number of matches below `m` is at most `m`, and grows with the bound.
proof fn lemma_matched_len(
    cols: Seq<Seq<char>>,
    rows: Seq<Seq<ValueModel>>,
    cond: Option<(Seq<char>, ValueModel)>,
    m: nat,
    n: nat,
)
    requires
        m <= n,
    ensures
        matched_positions(cols, rows, cond, m).len() <= m,
        matched_positions(cols, rows, cond, m).len() <= matched_positions(cols, rows, cond, n).len(),
    decreases n,
{
    if n > m {
        lemma_matched_len(cols, rows, cond, m, (n - 1) as nat);
    } else if m > 0 {
        lemma_matched_len(cols, rows, cond, (m - 1) as nat, (m - 1) as nat);
    }
}

/// `first_position` of a column name is -1 exactly when the name is absent.
pub proof fn lemma_column_position(cols: Seq<Seq<char>>, name: Seq<char>)
    ensures
        -1 <= column_position(cols, name) < cols.len(),
        column_position(cols, name) >= 0 <==> cols.contains(name),
        column_position(cols, name) >= 0 ==> cols[column_position(cols, name)] == name,
{
    lemma_first_position(cols, named(name));
    if cols.contains(name) {
        let j = choose|j: int| 0 <= j < cols.len() && cols[j] == name;
        assert(named(name)(cols[j]));
    }
}

/// A column name qualified by a table alias: `alias.column`.
pub open spec fn qualified(alias: Seq<char>, c: Seq<char>) -> Seq<char> {
    alias + seq!['.'] + c
}

/// Every column of both sides, each qualified by its side's alias, with its value.
pub open spec fn combined_row(
    lcols: Seq<Seq<char>>,
    lrow: Seq<ValueModel>,
    rcols: Seq<Seq<char>>,
    rrow: Seq<ValueModel>,
    j: JoinModel,
) -> Seq<CellModel> {
    Seq::new(lcols.len(), |i: int| (qualified(j.left_table, lcols[i]), lrow[i]))
        + Seq::new(rcols.len(), |i: int| (qualified(j.right_table, rcols[i]), rrow[i]))
}

/// The value of the first cell named `name`.
pub open spec fn cell_named(cells: Seq<CellModel>, name: Seq<char>) -> Option<ValueModel> {
    let p = first_position(cells, |c: CellModel| c.0 == name);
    if p >= 0 {
        Some(cells[p].1)
    } else {
        None
    }
}

/// The value a requested name takes in a joined row: a dotted name is read
/// from the qualified columns; a plain one from the left schema, else the
/// right one; anything else is Null.
pub open spec fn join_value(
    lcols: Seq<Seq<char>>,
    lrow: Seq<ValueModel>,
    rcols: Seq<Seq<char>>,
    rrow: Seq<ValueModel>,
    j: JoinModel,
    q: Seq<char>,
) -> ValueModel {
    if q.contains('.') {
        or_null(cell_named(combined_row(lcols, lrow, rcols, rrow, j), q))
    } else if lcols.contains(q) {
        or_null(cell_of(lcols, lrow, q))
    } else if rcols.contains(q) {
        or_null(cell_of(rcols, rrow, q))
    } else {
        ValueModel::Null
    }
}

/// The output row for one matching pair.
pub open spec fn join_output_row(
    lcols: Seq<Seq<char>>,
    lrow: Seq<ValueModel>,
    rcols: Seq<Seq<char>>,
    rrow: Seq<ValueModel>,
    j: JoinModel,
    requested: Seq<Seq<char>>,
) -> Seq<CellModel> {
    if is_star(requested) {
        combined_row(lcols, lrow, rcols, rrow, j)
    } else {
        Seq::new(requested.len(), |i: int| (requested[i], join_value(lcols, lrow, rcols, rrow, j, requested[i])))
    }
}

/// Whether a left row and a right row agree (typed equality) on the join columns.
pub open spec fn pair_matches(
    lcols: Seq<Seq<char>>,
    lrow: Seq<ValueModel>,
    rcols: Seq<Seq<char>>,
    rrow: Seq<ValueModel>,
    j: JoinModel,
) -> bool {
    &&& cell_of(lcols, lrow, j.left_column) is Some
    &&& cell_of(lcols, lrow, j.left_column) == cell_of(rcols, rrow, j.right_column)
}

/// Output rows for one left row against the first `n` right rows.
pub open spec fn join_for_left(
    lcols: Seq<Seq<char>>,
    lrow: Seq<ValueModel>,
    rcols: Seq<Seq<char>>,
    rrows: Seq<Seq<ValueModel>>,
    j: JoinModel,
    requested: Seq<Seq<char>>,
    n: nat,
) -> Seq<Seq<CellModel>>
    decreases n,
{
    if n == 0 {
        Seq::empty()
    } else {
        let s = join_for_left(lcols, lrow, rcols, rrows, j, requested, (n - 1) as nat);
        if pair_matches(lcols, lrow, rcols, rrows[n - 1], j) {
            s.push(join_output_row(lcols, lrow, rcols, rrows[n - 1], j, requested))
        } else {
            s
        }
    }
}

/// Output rows for the first `m` left rows against every right row: the
/// matching pairs of the product, in left-then-right order, each once.
pub open spec fn join_all(
    lcols: Seq<Seq<char>>,
    lrows: Seq<Seq<ValueModel>>,
    rcols: Seq<Seq<char>>,
    rrows: Seq<Seq<ValueModel>>,
    j: JoinModel,
    requested: Seq<Seq<char>>,
    m: nat,
) -> Seq<Seq<CellModel>>
    decreases m,
{
    if m == 0 {
        Seq::empty()
    } else {
        join_all(lcols, lrows, rcols, rrows, j, requested, (m - 1) as nat)
            + join_for_left(lcols, lrows[m - 1], rcols, rrows, j, requested, rrows.len())
    }
}

/// The output of a join: the left rows that satisfy `cond`, against every right row.
pub open spec fn join_model(
    l: TableModel,
    r: TableModel,
    requested: Seq<Seq<char>>,
    cond: Option<(Seq<char>, ValueModel)>,
    j: JoinModel,
) -> Seq<Seq<CellModel>> {
    let lrows = filtered_rows(l, cond);
    join_all(l.columns, lrows, r.columns, r.rows, j, requested, lrows.len())
}

/// `alias.column`.
fn qualified_name(alias: &String, c: &String) -> (r: String)
    ensures
        r@ == qualified(alias@, c@),
{
    proof {
        reveal_strlit(".");
    }
    let mut k = alias.clone();
    k.append(".");
    k.append(c.as_str());
    k
}

/// Whether a name contains a dot.
fn has_dot(q: &String) -> (r: bool)
    ensures
        r == q@.contains('.'),
{
    let s = q.as_str();
    let n = s.unicode_len();
    let mut i: usize = 0;
    while i < n
        invariant
            i <= n,
            n == s@.len(),
            s@ == q@,
            forall|j: int| 0 <= j < i ==> s@[j] != '.',
        decreases n - i,
    {
        if s.get_char(i) == '.' {
            return true;
        }
        i = i + 1;
    }
    false
}

/// The value of the first cell named `name`, or Null.
fn value_named(cells: &Vec<Cell>, name: &String) -> (r: Value)
    ensures
        r@ == or_null(cell_named(cells_view(cells@), name@)),
{
    let ghost cv = cells_view(cells@);
    let ghost p = |c: CellModel| c.0 == name@;
    let mut i: usize = 0;
    while i < cells.len()
        invariant
            i <= cells@.len(),
            cv == cells_view(cells@),
            p == (|c: CellModel| c.0 == name@),
            forall|j: int| 0 <= j < i ==> !p(#[trigger] cv[j]),
        decreases cells@.len() - i,
    {
        if cells[i].column == *name {
            proof {
                lemma_first_position_is(cv, p, i as int);
            }
            return cells[i].value.clone();
        }
        i = i + 1;
    }
    proof {
        lemma_first_position_is(cv, p, -1);
    }
    Value::Null
}

/// The qualified cells of a matching pair.
fn combine(left: &TableMeta, lrow: &Vec<Value>, right: &TableMeta, rrow: &Vec<Value>, join: &JoinInfo) -> (r: Vec<Cell>)
    requires
        lrow@.len() == left.columns@.len(),
        rrow@.len() == right.columns@.len(),
    ensures
        cells_view(r@) == combined_row(left@.columns, values_view(lrow@), right@.columns, values_view(rrow@), join@),
{
    let ghost target = combined_row(left@.columns, values_view(lrow@), right@.columns, values_view(rrow@), join@);
    let nl = left.columns.len();
    let mut r: Vec<Cell> = Vec::new();
    let mut i: usize = 0;
    while i < nl
        invariant
            nl == left.columns@.len(),
            lrow@.len() == nl,
            i <= nl,
            r@.len() == i,
            target == combined_row(left@.columns, values_view(lrow@), right@.columns, values_view(rrow@), join@),
            forall|k: int| 0 <= k < i ==> (#[trigger] r@[k])@ == target[k],
        decreases nl - i,
    {
        r.push(Cell { column: qualified_name(&join.left_table, &left.columns[i]), value: lrow[i].clone() });
        i = i + 1;
    }
    let nr = right.columns.len();
    let mut i: usize = 0;
    while i < nr
        invariant
            nl == left.columns@.len(),
            nr == right.columns@.len(),
            rrow@.len() == nr,
            i <= nr,
            r@.len() == nl + i,
            target == combined_row(left@.columns, values_view(lrow@), right@.columns, values_view(rrow@), join@),
            forall|k: int| 0 <= k < nl + i ==> (#[trigger] r@[k])@ == target[k],
        decreases nr - i,
    {
        r.push(Cell { column: qualified_name(&join.right_table, &right.columns[i]), value: rrow[i].clone() });
        i = i + 1;
    }
    assert(cells_view(r@) =~= target);
    r
}

/// The requested names for a matching pair.
fn join_project(
    left: &TableMeta,
    lrow: &Vec<Value>,
    right: &TableMeta,
    rrow: &Vec<Value>,
    join: &JoinInfo,
    combined: &Vec<Cell>,
    requested: &Vec<String>,
) -> (r: Vec<Cell>)
    requires
        lrow@.len() == left.columns@.len(),
        rrow@.len() == right.columns@.len(),
        cells_view(combined@) == combined_row(left@.columns, values_view(lrow@), right@.columns, values_view(rrow@), join@),
    ensures
        cells_view(r@) == Seq::new(
            requested@.len(),
            |i: int| (requested@[i]@, join_value(left@.columns, values_view(lrow@), right@.columns, values_view(rrow@), join@, requested@[i]@)),
        ),
{
    let ghost lv = values_view(lrow@);
    let ghost rv = values_view(rrow@);
    let mut r: Vec<Cell> = Vec::new();
    let mut i: usize = 0;
    while i < requested.len()
        invariant
            i <= requested@.len(),
            lrow@.len() == left.columns@.len(),
            rrow@.len() == right.columns@.len(),
            lv == values_view(lrow@),
            rv == values_view(rrow@),
            cells_view(combined@) == combined_row(left@.columns, lv, right@.columns, rv, join@),
            r@.len() == i,
            forall|k: int| 0 <= k < i ==> (#[trigger] r@[k])@ == (
                requested@[k]@,
                join_value(left@.columns, lv, right@.columns, rv, join@, requested@[k]@),
            ),
        decreases requested@.len() - i,
    {
        let q = &requested[i];
        proof {
            lemma_column_position(left@.columns, q@);
            lemma_column_position(right@.columns, q@);
        }
        let v = if has_dot(q) {
            value_named(combined, q)
        } else if find_column(&left.columns, q).is_some() {
            value_at(&left.columns, lrow, q)
        } else if find_column(&right.columns, q).is_some() {
            value_at(&right.columns, rrow, q)
        } else {
            Value::Null
        };
        r.push(Cell { column: q.clone(), value: v });
        i = i + 1;
    }
    assert(cells_view(r@) =~= Seq::new(
        requested@.len(),
        |i: int| (requested@[i]@, join_value(left@.columns, lv, right@.columns, rv, join@, requested@[i]@)),
    ));
    r
}

/// Nested-loop equi-join: every left row that satisfies `cond` against every
/// right row, emitting one output row per pair whose join columns are equal.
pub fn join_rows(
    left: &TableMeta,
    right: &TableMeta,
    requested: &Vec<String>,
    cond: Option<&Condition>,
    join: &JoinInfo,
) -> (r: Vec<Vec<Cell>>)
    requires
        left.wf(),
        right.wf(),
    ensures
        out_view(r@) == join_model(left@, right@, strings_view(requested@), cond_view(cond), join@),
{
    let ghost req = strings_view(requested@);
    let ghost lrows = filtered_rows(left@, cond_view(cond));
    let ghost rrows = right@.rows;
    let ghost lc = left@.columns;
    let ghost rc = right@.columns;
    let ghost jm = join@;
    let ps = left.matching_positions(cond);
    let star = requests_all(requested);
    let lpos = find_column(&left.columns, &join.left_column);
    let rpos = find_column(&right.columns, &join.right_column);
    let nr = right.rows.len();
    let mut r: Vec<Vec<Cell>> = Vec::new();
    let mut i: usize = 0;
    while i < ps.len()
        invariant
            left.wf(),
            right.wf(),
            i <= ps@.len(),
            ps@ == matches_of(left@.columns, left@.rows, cond_view(cond)),
            forall|k: int| 0 <= k < ps@.len() ==> #[trigger] ps@[k] < left@.rows.len(),
            lrows == filtered_rows(left@, cond_view(cond)),
            req == strings_view(requested@),
            rrows == right@.rows,
            lc == left@.columns,
            rc == right@.columns,
            jm == join@,
            nr == rrows.len(),
            star == is_star(req),
            lpos matches Some(p) ==> p < left.columns@.len() && p as int == column_position(lc, jm.left_column),
            lpos is None ==> column_position(lc, jm.left_column) == -1,
            rpos matches Some(p) ==> p < right.columns@.len() && p as int == column_position(rc, jm.right_column),
            rpos is None ==> column_position(rc, jm.right_column) == -1,
            out_view(r@) == join_all(lc, lrows, rc, rrows, jm, req, i as nat),
        decreases ps@.len() - i,
    {
        let lrow = &left.rows[ps[i]];
        assert(lrow@.len() == left.columns@.len());
        assert(values_view(lrow@) == lrows[i as int]);
        let ghost base = r@;
        let mut k: usize = 0;
        while k < nr
            invariant
                left.wf(),
                right.wf(),
                k <= nr,
                nr == rrows.len(),
                lrow@.len() == left.columns@.len(),
                values_view(lrow@) == lrows[i as int],
                req == strings_view(requested@),
                rrows == right@.rows,
                lc == left@.columns,
                rc == right@.columns,
                jm == join@,
                star == is_star(req),
                lpos matches Some(p) ==> p < left.columns@.len() && p as int == column_position(lc, jm.left_column),
                lpos is None ==> column_position(lc, jm.left_column) == -1,
                rpos matches Some(p) ==> p < right.columns@.len() && p as int == column_position(rc, jm.right_column),
                rpos is None ==> column_position(rc, jm.right_column) == -1,
                out_view(base) == join_all(lc, lrows, rc, rrows, jm, req, i as nat),
                out_view(r@) == out_view(base) + join_for_left(lc, lrows[i as int], rc, rrows, jm, req, k as nat),
            decreases nr - k,
        {
            let rrow = right.row_at(k);
            let hit = match (lpos, rpos) {
                (Some(lp), Some(rp)) => values_equal(&lrow[lp], &rrow[rp]),
                _ => false,
            };
            assert(hit == pair_matches(lc, lrows[i as int], rc, rrows[k as int], jm));
            if hit {
                let combined = combine(left, lrow, right, rrow, join);
                let out = if star {
                    combined
                } else {
                    join_project(left, lrow, right, rrow, join, &combined, requested)
                };
                assert(cells_view(out@) == join_output_row(lc, lrows[i as int], rc, rrows[k as int], jm, req));
                let ghost prev = r@;
                r.push(out);
                assert(out_view(r@) =~= out_view(prev).push(join_output_row(lc, lrows[i as int], rc, rrows[k as int], jm, req)));
            }
            k = k + 1;
        }
        assert(out_view(r@) =~= join_all(lc, lrows, rc, rrows, jm, req, (i + 1) as nat));
        i = i + 1;
    }
    r
}

impl TableMeta {
    /// The row at position `k`.
    fn row_at(&self, k: usize) -> (r: &Vec<Value>)
        requires
            self.wf(),
            k < self@.rows.len(),
        ensures
            values_view(r@) == self@.rows[k as int],
            r@.len() == self.columns@.len(),
    {
        &self.rows[k]
    }
}

} // verus!
