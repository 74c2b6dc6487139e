use vstd::prelude::*;

use crate::commit_log::{entries_view, LSMTreeStorage, LogDetail, LogEntry, LogEntryModel, LogModel, last_entries};
use crate::storage::{BTreeStorage, StoreError};
use crate::table::{
    after_delete, after_update, assigns_view, first_position, lemma_first_position, lemma_first_position_is,
    matches_of, out_view, select_model, join_model, strings_view, values_view, with_column, with_index,
    with_row, without_index, TableModel,
};
use crate::value::{opt_cond_view, Assignment, Cell, ColumnDef, Condition, JoinInfo, Value, ValueModel};

verus! {

/// A command, already parsed and typed.
#[allow(inconsistent_fields)]
pub enum CommandType {
    Empty,
    CreateDatabase { name: String },
    AlterDatabase { name: String },
    UseDatabase { name: String },
    CreateTable { table: String, columns: Vec<ColumnDef> },
    AlterTable { table: String, column: ColumnDef },
    DropTable { table: String },
    CreateIndex { table: String, column: String },
    DropIndex { table: String, column: String },
    Insert { table: String, values: Vec<Value> },
    Update { table: String, assignments: Vec<Assignment>, condition: Option<Condition> },
    Delete { table: String, condition: Option<Condition> },
    Select { table: String, columns: Vec<String>, condition: Option<Condition>, join: Option<JoinInfo> },
    Commit,
    Unknown,
}

/// A command with the text it was parsed from.
pub struct ParsedCommand {
    pub command: CommandType,
    pub raw: String,
}

/// What executing a command produced.
#[derive(Debug, PartialEq)]
pub enum Outcome {
    Empty,
    DatabaseReady(String),
    UsingDatabase(String),
    DatabaseNotFound(String),
    TableExists(String),
    TableCreated(String),
    TableNotFound(String),
    ColumnAdded { column: String, table: String },
    TableDropped(String),
    IndexBuilt { table: String, column: String },
    IndexRemoved { table: String, column: String },
    Inserted,
    Updated(usize),
    Deleted(usize),
    Failed(StoreError),
    Rows(Vec<Vec<Cell>>),
    Committed(Vec<LogEntry>),
    NotUnderstood(String),
}

impl Outcome {
    /// Whether the active database's state must be persisted after this
    /// outcome: after every schema or row change, and after an update or a
    /// delete only when a row matched.
    pub fn needs_persist(&self) -> (r: bool)
        ensures
            r == match self {
                Outcome::TableCreated(_) | Outcome::ColumnAdded { .. } | Outcome::TableDropped(_)
                | Outcome::IndexBuilt { .. } | Outcome::IndexRemoved { .. } | Outcome::Inserted => true,
                Outcome::Updated(n) | Outcome::Deleted(n) => *n > 0,
                _ => false,
            },
    {
        match self {
            Outcome::TableCreated(_) | Outcome::ColumnAdded { .. } | Outcome::TableDropped(_)
            | Outcome::IndexBuilt { .. } | Outcome::IndexRemoved { .. } | Outcome::Inserted => true,
            Outcome::Updated(n) | Outcome::Deleted(n) => *n > 0,
            _ => false,
        }
    }
}

/// A database with its name.
pub(crate) struct Database {
    pub(crate) name: String,
    pub(crate) storage: BTreeStorage,
}

/// The predicate "is the database named `n`".
pub(crate) open spec fn db_named(n: Seq<char>) -> spec_fn(Database) -> bool {
    |d: Database| d.name@ == n
}

/// Position of the database named `n`, or -1.
pub(crate) open spec fn db_position(ds: Seq<Database>, n: Seq<char>) -> int {
    first_position(ds, db_named(n))
}

/// Model of the executor: every database's tables, the active database, and the log.
pub ghost struct ExecModel {
    pub databases: Map<Seq<char>, Map<Seq<char>, TableModel>>,
    pub active: Seq<char>,
    pub log: LogModel,
}

/// Runs commands against a set of named databases, one of them active, and
/// logs each completed mutation.
pub struct SQLExecutor {
    lsm: LSMTreeStorage,
    databases: Vec<Database>,
    active_db: String,
}

impl View for SQLExecutor {
    type V = ExecModel;

    closed spec fn view(&self) -> ExecModel {
        ExecModel {
            databases: Map::new(
                |n: Seq<char>| db_position(self.databases@, n) >= 0,
                |n: Seq<char>| self.databases@[db_position(self.databases@, n)].storage@,
            ),
            active: self.active_db@,
            log: self.lsm@,
        }
    }
}

/// With unique names, the database named `n` sits exactly where its name is.
proof fn lemma_db_position(ds: Seq<Database>, n: Seq<char>, i: int)
    requires
        -1 <= i < ds.len(),
        forall|a: int, b: int| 0 <= a < ds.len() && 0 <= b < ds.len() && a != b ==> ds[a].name@ != ds[b].name@,
        i >= 0 ==> ds[i].name@ == n,
        i < 0 ==> forall|a: int| 0 <= a < ds.len() ==> ds[a].name@ != n,
    ensures
        db_position(ds, n) == i,
{
    assert forall|a: int| 0 <= a < ds.len() && (i < 0 || a < i) implies !db_named(n)(#[trigger] ds[a]) by {
        if i >= 0 {
            assert(ds[a].name@ != ds[i].name@);
        }
    }
    lemma_first_position_is(ds, db_named(n), i);
}

/// A log entry `{db, command, key: value}`.
pub open spec fn entry_model(db: Seq<char>, command: Seq<char>, key: Seq<char>, v: ValueModel) -> LogEntryModel {
    LogEntryModel { db, command, details: seq![(key, v)] }
}

/// Names of column definitions.
pub open spec fn def_names(cols: Seq<ColumnDef>) -> Seq<Seq<char>> {
    cols.map_values(|c: ColumnDef| c.name@)
}

/// The model with the active database's tables replaced.
pub open spec fn set_active(m: ExecModel, tables: Map<Seq<char>, TableModel>) -> ExecModel {
    ExecModel { databases: m.databases.insert(m.active, tables), ..m }
}

/// The model with an entry appended to the pending log.
pub open spec fn logged(m: ExecModel, e: LogEntryModel) -> ExecModel {
    ExecModel { log: LogModel { pending: m.log.pending.push(e), ..m.log }, ..m }
}

/// What executing `cmd` (parsed from `raw`) does: `old` becomes `new` and
/// `r` is reported. Table commands act on the active database; only a
/// completed insert, update or delete is logged.
pub open spec fn executed(old: ExecModel, cmd: CommandType, raw: Seq<char>, new: ExecModel, r: Outcome) -> bool {
    let a = old.databases[old.active];
    match cmd {
        CommandType::Empty => r is Empty && new == old,
        CommandType::CreateDatabase { name } => (r matches Outcome::DatabaseReady(n) && n@ == name@) && new == ExecModel {
            databases: if old.databases.contains_key(name@) {
                old.databases
            } else {
                old.databases.insert(name@, Map::empty())
            },
            active: name@,
            log: old.log,
        },
        CommandType::AlterDatabase { name } => (r matches Outcome::UsingDatabase(n) && n@ == name@) && new == ExecModel {
            databases: if old.databases.contains_key(name@) {
                old.databases
            } else {
                old.databases.insert(name@, Map::empty())
            },
            active: name@,
            log: old.log,
        },
        CommandType::UseDatabase { name } => if old.databases.contains_key(name@) {
            (r matches Outcome::UsingDatabase(n) && n@ == name@) && new == ExecModel { active: name@, ..old }
        } else {
            (r matches Outcome::DatabaseNotFound(n) && n@ == name@) && new == old
        },
        CommandType::CreateTable { table, columns } => if a.contains_key(table@) {
            (r matches Outcome::TableExists(n) && n@ == table@) && new == old
        } else {
            (r matches Outcome::TableCreated(n) && n@ == table@) && new == set_active(
                old,
                a.insert(table@, TableModel { columns: def_names(columns@), rows: Seq::empty(), indexed: Seq::empty() }),
            )
        },
        CommandType::AlterTable { table, column } => if !a.contains_key(table@) {
            (r matches Outcome::TableNotFound(n) && n@ == table@) && new == old
        } else {
            (r matches Outcome::ColumnAdded { column: c, table: t } && c@ == column.name@ && t@ == table@)
                && new == set_active(old, a.insert(table@, with_column(a[table@], column.name@)))
        },
        CommandType::DropTable { table } => if !a.contains_key(table@) {
            (r matches Outcome::TableNotFound(n) && n@ == table@) && new == old
        } else {
            (r matches Outcome::TableDropped(n) && n@ == table@) && new == set_active(old, a.remove(table@))
        },
        CommandType::CreateIndex { table, column } => if !a.contains_key(table@) {
            (r matches Outcome::TableNotFound(n) && n@ == table@) && new == old
        } else {
            (r matches Outcome::IndexBuilt { table: t, column: c } && c@ == column@ && t@ == table@)
                && new == set_active(old, a.insert(table@, with_index(a[table@], column@)))
        },
        CommandType::DropIndex { table, column } => if !a.contains_key(table@) {
            (r matches Outcome::TableNotFound(n) && n@ == table@) && new == old
        } else {
            (r matches Outcome::IndexRemoved { table: t, column: c } && c@ == column@ && t@ == table@)
                && new == set_active(old, a.insert(table@, without_index(a[table@], column@)))
        },
        CommandType::Insert { table, values } => if !a.contains_key(table@) {
            (r matches Outcome::TableNotFound(n) && n@ == table@) && new == old
        } else if values@.len() != a[table@].columns.len() {
            (r matches Outcome::Failed(StoreError::ArityMismatch)) && new == old
        } else {
            r is Inserted && new == logged(
                set_active(old, a.insert(table@, with_row(a[table@], values_view(values@)))),
                entry_model(old.active, "INSERT"@, "table"@, ValueModel::Text(table@)),
            )
        },
        CommandType::Update { table, assignments, condition } => if !a.contains_key(table@) {
            (r matches Outcome::TableNotFound(n) && n@ == table@) && new == old
        } else {
            let t = a[table@];
            let n = matches_of(t.columns, t.rows, opt_cond_view(condition));
            (r matches Outcome::Updated(k) && k == n.len()) && new == logged(
                set_active(old, a.insert(table@, after_update(t, assigns_view(assignments@), opt_cond_view(condition)))),
                entry_model(old.active, "UPDATE"@, "count"@, ValueModel::Integer(n.len() as i64 as int)),
            )
        },
        CommandType::Delete { table, condition } => if !a.contains_key(table@) {
            (r matches Outcome::TableNotFound(n) && n@ == table@) && new == old
        } else {
            let t = a[table@];
            let n = matches_of(t.columns, t.rows, opt_cond_view(condition));
            (r matches Outcome::Deleted(k) && k == n.len()) && new == logged(
                set_active(old, a.insert(table@, after_delete(t, opt_cond_view(condition)))),
                entry_model(old.active, "DELETE"@, "count"@, ValueModel::Integer(n.len() as i64 as int)),
            )
        },
        CommandType::Select { table, columns, condition, join } => new == old && if !a.contains_key(table@) {
            r matches Outcome::TableNotFound(n) && n@ == table@
        } else {
            match join {
                None => r matches Outcome::Rows(rows)
                    && out_view(rows@) == select_model(a[table@], strings_view(columns@), opt_cond_view(condition)),
                Some(j) => if a.contains_key(j.table@) {
                    r matches Outcome::Rows(rows) && out_view(rows@) == join_model(
                        a[table@],
                        a[j.table@],
                        strings_view(columns@),
                        opt_cond_view(condition),
                        j@,
                    )
                } else {
                    r matches Outcome::TableNotFound(n) && n@ == j.table@
                },
            }
        },
        CommandType::Commit => (r matches Outcome::Committed(es) && entries_view(es@) == old.log.pending) && new == ExecModel {
            log: LogModel { pending: Seq::empty(), history: last_entries(old.log.history + old.log.pending) },
            ..old
        },
        CommandType::Unknown => (r matches Outcome::NotUnderstood(s) && s@ == raw) && new == old,
    }
}

/// A log entry with one detail.
fn make_entry(db: &String, command: &str, key: &str, v: Value) -> (r: LogEntry)
    ensures
        r@ == entry_model(db@, command@, key@, v@),
{
    let r = LogEntry {
        db: db.clone(),
        command: String::from_str(command),
        details: vec![LogDetail { key: String::from_str(key), value: v }],
    };
    assert(r@.details =~= seq![(key@, v@)]);
    r
}

impl SQLExecutor {
    /// Database names are unique, every database is well formed, and the
    /// active database exists.
    pub closed spec fn wf(&self) -> bool {
        &&& forall|i: int| 0 <= i < self.databases@.len() ==> (#[trigger] self.databases@[i]).storage.wf()
        &&& forall|a: int, b: int|
            0 <= a < self.databases@.len() && 0 <= b < self.databases@.len() && a != b
                ==> self.databases@[a].name@ != self.databases@[b].name@
        &&& self@.databases.contains_key(self@.active)
    }

    /// The model of the database at `p` is the map's value under its name.
    proof fn lemma_view_at(&self, p: int)
        requires
            forall|a: int, b: int|
                0 <= a < self.databases@.len() && 0 <= b < self.databases@.len() && a != b
                    ==> self.databases@[a].name@ != self.databases@[b].name@,
            0 <= p < self.databases@.len(),
        ensures
            self@.databases.contains_key(self.databases@[p].name@),
            self@.databases[self.databases@[p].name@] == self.databases@[p].storage@,
    {
        lemma_db_position(self.databases@, self.databases@[p].name@, p);
    }

    /// Position of the database named `name`.
    fn find(&self, name: &String) -> (r: Option<usize>)
        requires
            forall|a: int, b: int|
                0 <= a < self.databases@.len() && 0 <= b < self.databases@.len() && a != b
                    ==> self.databases@[a].name@ != self.databases@[b].name@,
        ensures
            match r {
                Some(p) => p < self.databases@.len() && self.databases@[p as int].name@ == name@
                    && db_position(self.databases@, name@) == p,
                None => db_position(self.databases@, name@) == -1
                    && forall|a: int| 0 <= a < self.databases@.len() ==> self.databases@[a].name@ != name@,
            },
    {
        let mut i: usize = 0;
        while i < self.databases.len()
            invariant
                i <= self.databases@.len(),
                forall|a: int, b: int|
                    0 <= a < self.databases@.len() && 0 <= b < self.databases@.len() && a != b
                        ==> self.databases@[a].name@ != self.databases@[b].name@,
                forall|a: int| 0 <= a < i ==> self.databases@[a].name@ != name@,
            decreases self.databases@.len() - i,
        {
            if self.databases[i].name == *name {
                proof {
                    lemma_db_position(self.databases@, name@, i as int);
                }
                return Some(i);
            }
            i = i + 1;
        }
        proof {
            lemma_db_position(self.databases@, name@, -1);
        }
        None
    }

    /// Replacing the storage of the database at `p` changes the map at its name only.
    proof fn lemma_view_replace(old_s: SQLExecutor, new_s: SQLExecutor, p: int)
        requires
            old_s.wf(),
            0 <= p < old_s.databases@.len(),
            new_s.databases@.len() == old_s.databases@.len(),
            new_s.databases@[p].name == old_s.databases@[p].name,
            new_s.databases@[p].storage.wf(),
            new_s.active_db == old_s.active_db,
            forall|a: int| 0 <= a < old_s.databases@.len() && a != p ==> new_s.databases@[a] == old_s.databases@[a],
        ensures
            new_s@.databases == old_s@.databases.insert(old_s.databases@[p].name@, new_s.databases@[p].storage@),
            new_s@.active == old_s@.active,
            new_s.wf(),
    {
        let n = old_s.databases@[p].name@;
        let ods = old_s.databases@;
        let nds = new_s.databases@;
        assert forall|m: Seq<char>| #[trigger] new_s@.databases.contains_key(m) == old_s@.databases.insert(n, nds[p].storage@).contains_key(m)
            && (new_s@.databases.contains_key(m) ==> new_s@.databases[m] == old_s@.databases.insert(n, nds[p].storage@)[m]) by {
            assert forall|a: int| 0 <= a < ods.len() implies db_named(m)(#[trigger] nds[a]) == db_named(m)(ods[a]) by {
                if a != p {
                    assert(nds[a] == ods[a]);
                }
            }
            crate::table::lemma_first_position_same(nds, ods, db_named(m), db_named(m));
            if m == n {
                lemma_db_position(ods, n, p);
            } else {
                lemma_first_position(ods, db_named(m));
            }
        }
        assert(new_s@.databases =~= old_s@.databases.insert(n, nds[p].storage@));
        assert forall|a: int, b: int| 0 <= a < nds.len() && 0 <= b < nds.len() && a != b implies nds[a].name@ != nds[b].name@ by {
            assert(nds[a].name == ods[a].name);
            assert(nds[b].name == ods[b].name);
        }
        assert forall|i: int| 0 <= i < nds.len() implies (#[trigger] nds[i]).storage.wf() by {
            if i != p {
                assert(nds[i] == ods[i]);
            }
        }
        assert(new_s@.databases.contains_key(new_s@.active)) by {
            assert(old_s@.databases.contains_key(old_s@.active));
        }
    }

    /// Adds an empty database unless one of that name exists.
    fn ensure_database(&mut self, name: &String)
        requires
            old(self).wf(),
        ensures
            final(self).wf(),
            final(self)@.active == old(self)@.active,
            final(self)@.log == old(self)@.log,
            final(self)@.databases == if old(self)@.databases.contains_key(name@) {
                old(self)@.databases
            } else {
                old(self)@.databases.insert(name@, Map::empty())
            },
    {
        if self.find(name).is_some() {
            return;
        }
        let ghost ods = self.databases@;
        let ghost old_view = self@;
        self.databases.push(Database { name: name.clone(), storage: BTreeStorage::new() });
        let ghost nds = self.databases@;
        proof {
            assert(forall|a: int| 0 <= a < ods.len() ==> nds[a] == ods[a]);
            assert forall|a: int, b: int| 0 <= a < nds.len() && 0 <= b < nds.len() && a != b implies nds[a].name@ != nds[b].name@ by {
                if a < ods.len() && b < ods.len() {
                } else if a < ods.len() {
                    assert(ods[a].name@ != name@);
                } else {
                    assert(ods[b].name@ != name@);
                }
            }
            assert forall|m: Seq<char>| #[trigger] self@.databases.contains_key(m) == old_view.databases.insert(name@, Map::empty()).contains_key(m)
                && (self@.databases.contains_key(m) ==> self@.databases[m] == old_view.databases.insert(name@, Map::empty())[m]) by {
                if m == name@ {
                    lemma_db_position(nds, m, ods.len() as int);
                } else {
                    lemma_first_position(ods, db_named(m));
                    let q = db_position(ods, m);
                    if q < 0 {
                        assert forall|a: int| 0 <= a < nds.len() implies nds[a].name@ != m by {
                            if a < ods.len() {
                                assert(!db_named(m)(ods[a]));
                            }
                        }
                        lemma_db_position(nds, m, -1);
                    } else {
                        lemma_db_position(nds, m, q);
                    }
                }
            }
            assert(self@.databases =~= old_view.databases.insert(name@, Map::empty()));
        }
    }
}

/// The names of column definitions.
fn column_names(defs: &Vec<ColumnDef>) -> (r: Vec<String>)
    ensures
        strings_view(r@) == def_names(defs@),
{
    let mut r: Vec<String> = Vec::new();
    let mut i: usize = 0;
    while i < defs.len()
        invariant
            i <= defs@.len(),
            r@.len() == i,
            forall|j: int| 0 <= j < i ==> (#[trigger] r@[j])@ == defs@[j].name@,
        decreases defs@.len() - i,
    {
        r.push(defs[i].name.clone());
        i = i + 1;
    }
    assert(strings_view(r@) =~= def_names(defs@));
    r
}

impl SQLExecutor {
    /// An executor with one empty database, `default`, active.
    pub fn new() -> (r: SQLExecutor)
        ensures
            r.wf(),
            r@.active == "default"@,
            r@.databases == Map::<Seq<char>, Map<Seq<char>, TableModel>>::empty().insert("default"@, Map::empty()),
            r@.log.pending.len() == 0,
            r@.log.history.len() == 0,
    {
        let name = String::from_str("default");
        let mut databases: Vec<Database> = Vec::new();
        databases.push(Database { name: name.clone(), storage: BTreeStorage::new() });
        let r = SQLExecutor { lsm: LSMTreeStorage::new(), databases, active_db: name };
        proof {
            lemma_db_position(r.databases@, name@, 0);
            assert forall|m: Seq<char>| #[trigger] r@.databases.contains_key(m)
                == Map::<Seq<char>, Map<Seq<char>, TableModel>>::empty().insert("default"@, Map::empty()).contains_key(m) by {
                if m != name@ {
                    lemma_db_position(r.databases@, m, -1);
                }
            }
            assert(r@.databases =~= Map::<Seq<char>, Map<Seq<char>, TableModel>>::empty().insert("default"@, Map::empty()));
        }
        r
    }

    /// The name of the active database.
    pub fn active_database(&self) -> (r: &str)
        ensures
            r@ == self@.active,
    {
        self.active_db.as_str()
    }

    /// The names of all databases, in the order they were opened.
    pub fn databases(&self) -> (r: Vec<String>)
        requires
            self.wf(),
        ensures
            forall|n: Seq<char>| self@.databases.contains_key(n) <==> strings_view(r@).contains(n),
    {
        let mut r: Vec<String> = Vec::new();
        let mut i: usize = 0;
        while i < self.databases.len()
            invariant
                self.wf(),
                i <= self.databases@.len(),
                r@.len() == i,
                forall|j: int| 0 <= j < i ==> (#[trigger] r@[j])@ == self.databases@[j].name@,
            decreases self.databases@.len() - i,
        {
            r.push(self.databases[i].name.clone());
            i = i + 1;
        }
        assert forall|n: Seq<char>| self@.databases.contains_key(n) <==> strings_view(r@).contains(n) by {
            if self@.databases.contains_key(n) {
                lemma_first_position(self.databases@, db_named(n));
                let p = db_position(self.databases@, n);
                assert(strings_view(r@)[p] == n);
            }
            if strings_view(r@).contains(n) {
                let j = choose|j: int| 0 <= j < strings_view(r@).len() && strings_view(r@)[j] == n;
                lemma_db_position(self.databases@, n, j);
            }
        }
        r
    }

    /// The database named `name`, if any.
    pub fn database(&self, name: &String) -> (r: Option<&BTreeStorage>)
        requires
            self.wf(),
        ensures
            self@.databases.contains_key(name@) ==> (r matches Some(s) && s.wf() && s@ == self@.databases[name@]),
            !self@.databases.contains_key(name@) ==> r is None,
    {
        match self.find(name) {
            Some(p) => {
                proof {
                    self.lemma_view_at(p as int);
                }
                Some(&self.databases[p].storage)
            },
            None => None,
        }
    }

    /// A copy of the pending log entries.
    pub fn lsm_entries(&self) -> (r: Vec<LogEntry>)
        ensures
            entries_view(r@) == self@.log.pending,
    {
        self.lsm.snapshot()
    }

    /// Puts a database opened elsewhere under `name`, replacing any database
    /// of that name; the active database stays as it is.
    pub fn add_database(&mut self, name: &String, storage: BTreeStorage)
        requires
            old(self).wf(),
            storage.wf(),
        ensures
            final(self).wf(),
            final(self)@ == (ExecModel { databases: old(self)@.databases.insert(name@, storage@), ..old(self)@ }),
    {
        self.ensure_database(name);
        assert(self@.databases.contains_key(name@));
        let p = match self.find(name) {
            Some(p) => p,
            None => {
                return;
            },
        };
        let ghost old_s = *self;
        proof {
            old_s.lemma_view_at(p as int);
        }
        self.databases[p].storage = storage;
        proof {
            SQLExecutor::lemma_view_replace(old_s, *self, p as int);
            assert(self@.databases =~= old(self)@.databases.insert(name@, self.databases@[p as int].storage@));
        }
    }

    /// Position of the active database.
    fn active_index(&self) -> (r: usize)
        requires
            self.wf(),
        ensures
            r < self.databases@.len(),
            self.databases@[r as int].name@ == self@.active,
            self.databases@[r as int].storage.wf(),
            self@.databases[self@.active] == self.databases@[r as int].storage@,
    {
        match self.find(&self.active_db) {
            Some(p) => {
                proof {
                    self.lemma_view_at(p as int);
                }
                p
            },
            None => 0,
        }
    }

    /// Executes one command: database commands switch or create the active
    /// database, table commands act on the active database, a completed
    /// insert, update or delete is logged, and a commit flushes the log.
    pub fn execute(&mut self, parsed: &ParsedCommand) -> (r: Outcome)
        requires
            old(self).wf(),
        ensures
            final(self).wf(),
            executed(old(self)@, parsed.command, parsed.raw@, final(self)@, r),
    {
        match &parsed.command {
            CommandType::Empty => Outcome::Empty,
            CommandType::CreateDatabase { name } => {
                self.ensure_database(name);
                self.active_db = name.clone();
                Outcome::DatabaseReady(name.clone())
            },
            CommandType::AlterDatabase { name } => {
                self.ensure_database(name);
                self.active_db = name.clone();
                Outcome::UsingDatabase(name.clone())
            },
            CommandType::UseDatabase { name } => {
                match self.find(name) {
                    Some(p) => {
                        proof {
                            self.lemma_view_at(p as int);
                        }
                        self.active_db = name.clone();
                        Outcome::UsingDatabase(name.clone())
                    },
                    None => Outcome::DatabaseNotFound(name.clone()),
                }
            },
            CommandType::CreateTable { table, columns } => {
                let p = self.active_index();
                if self.databases[p].storage.table_exists(table) {
                    return Outcome::TableExists(table.clone());
                }
                let names = column_names(columns);
                let ghost old_s = *self;
                let _ = self.databases[p].storage.create_table(table, names);
                proof {
                    SQLExecutor::lemma_view_replace(old_s, *self, p as int);
                }
                Outcome::TableCreated(table.clone())
            },
            CommandType::AlterTable { table, column } => {
                let p = self.active_index();
                let ghost old_s = *self;
                match self.databases[p].storage.add_column(table, column.name.clone()) {
                    Ok(()) => {
                        proof {
                            SQLExecutor::lemma_view_replace(old_s, *self, p as int);
                        }
                        Outcome::ColumnAdded { column: column.name.clone(), table: table.clone() }
                    },
                    Err(_) => {
                        proof {
                            SQLExecutor::lemma_view_replace(old_s, *self, p as int);
                            assert(self@.databases =~= old_s@.databases);
                        }
                        Outcome::TableNotFound(table.clone())
                    },
                }
            },
            CommandType::DropTable { table } => {
                let p = self.active_index();
                if !self.databases[p].storage.table_exists(table) {
                    return Outcome::TableNotFound(table.clone());
                }
                let ghost old_s = *self;
                self.databases[p].storage.drop_table(table);
                proof {
                    SQLExecutor::lemma_view_replace(old_s, *self, p as int);
                }
                Outcome::TableDropped(table.clone())
            },
            CommandType::CreateIndex { table, column } => {
                let p = self.active_index();
                let ghost old_s = *self;
                match self.databases[p].storage.create_index(table, column) {
                    Ok(()) => {
                        proof {
                            SQLExecutor::lemma_view_replace(old_s, *self, p as int);
                        }
                        Outcome::IndexBuilt { table: table.clone(), column: column.clone() }
                    },
                    Err(_) => {
                        proof {
                            SQLExecutor::lemma_view_replace(old_s, *self, p as int);
                            assert(self@.databases =~= old_s@.databases);
                        }
                        Outcome::TableNotFound(table.clone())
                    },
                }
            },
            CommandType::DropIndex { table, column } => {
                let p = self.active_index();
                let ghost old_s = *self;
                match self.databases[p].storage.drop_index(table, column) {
                    Ok(()) => {
                        proof {
                            SQLExecutor::lemma_view_replace(old_s, *self, p as int);
                        }
                        Outcome::IndexRemoved { table: table.clone(), column: column.clone() }
                    },
                    Err(_) => {
                        proof {
                            SQLExecutor::lemma_view_replace(old_s, *self, p as int);
                            assert(self@.databases =~= old_s@.databases);
                        }
                        Outcome::TableNotFound(table.clone())
                    },
                }
            },
            CommandType::Insert { table, values } => {
                let p = self.active_index();
                let ghost old_s = *self;
                let vals = crate::table::copy_row(values);
                assert(vals@.len() == values@.len()) by {
                    assert(values_view(vals@).len() == values_view(values@).len());
                }
                let res = self.databases[p].storage.insert_row(table, vals);
                proof {
                    SQLExecutor::lemma_view_replace(old_s, *self, p as int);
                }
                match res {
                    Ok(_) => {
                        let e = make_entry(&self.active_db, "INSERT", "table", Value::Text(table.clone()));
                        self.lsm.log(e);
                        Outcome::Inserted
                    },
                    Err(StoreError::ArityMismatch) => {
                        assert(self@.databases =~= old_s@.databases);
                        Outcome::Failed(StoreError::ArityMismatch)
                    },
                    Err(_) => {
                        assert(self@.databases =~= old_s@.databases);
                        Outcome::TableNotFound(table.clone())
                    },
                }
            },
            CommandType::Update { table, assignments, condition } => {
                let p = self.active_index();
                let ghost old_s = *self;
                let res = self.databases[p].storage.update_rows(table, assignments, condition.as_ref());
                proof {
                    SQLExecutor::lemma_view_replace(old_s, *self, p as int);
                }
                match res {
                    Ok(n) => {
                        let count: i64 = #[verifier::truncate] (n as i64);
                        let e = make_entry(&self.active_db, "UPDATE", "count", Value::Integer(count));
                        self.lsm.log(e);
                        Outcome::Updated(n)
                    },
                    Err(_) => {
                        assert(self@.databases =~= old_s@.databases);
                        Outcome::TableNotFound(table.clone())
                    },
                }
            },
            CommandType::Delete { table, condition } => {
                let p = self.active_index();
                let ghost old_s = *self;
                let res = self.databases[p].storage.delete_rows(table, condition.as_ref());
                proof {
                    SQLExecutor::lemma_view_replace(old_s, *self, p as int);
                }
                match res {
                    Ok(n) => {
                        let count: i64 = #[verifier::truncate] (n as i64);
                        let e = make_entry(&self.active_db, "DELETE", "count", Value::Integer(count));
                        self.lsm.log(e);
                        Outcome::Deleted(n)
                    },
                    Err(_) => {
                        assert(self@.databases =~= old_s@.databases);
                        Outcome::TableNotFound(table.clone())
                    },
                }
            },
            CommandType::Select { table, columns, condition, join } => {
                let p = self.active_index();
                match self.databases[p].storage.select_rows(table, columns, condition.as_ref(), join.as_ref()) {
                    Ok(rows) => Outcome::Rows(rows),
                    Err(StoreError::TableNotFound(n)) => Outcome::TableNotFound(n),
                    Err(e) => Outcome::Failed(e),
                }
            },
            CommandType::Commit => {
                let es = self.lsm.commit();
                Outcome::Committed(es)
            },
            CommandType::Unknown => Outcome::NotUnderstood(parsed.raw.clone()),
        }
    }
}

} // verus!
