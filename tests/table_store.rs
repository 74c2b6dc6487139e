use mini_sqlite::storage::{BTreeStorage, StoreError};
use mini_sqlite::table::TableMeta;
use mini_sqlite::value::{Assignment, Cell, Condition, JoinInfo, Value};

fn s(x: &str) -> String {
    x.to_string()
}

fn cols(names: &[&str]) -> Vec<String> {
    names.iter().map(|n| n.to_string()).collect()
}

fn text(x: &str) -> Value {
    Value::Text(x.to_string())
}

fn cell(c: &str, v: Value) -> Cell {
    Cell { column: s(c), value: v }
}

fn eq(c: &str, v: Value) -> Condition {
    Condition { column: s(c), value: v }
}

fn star() -> Vec<String> {
    cols(&["*"])
}

fn users() -> BTreeStorage {
    let mut db = BTreeStorage::new();
    db.create_table(&s("users"), cols(&["id", "name"])).unwrap();
    db.insert_row(&s("users"), vec![Value::Integer(1), text("a")]).unwrap();
    db.insert_row(&s("users"), vec![Value::Integer(2), text("b")]).unwrap();
    db
}

fn user_row(id: i64, name: &str) -> Vec<Cell> {
    vec![cell("id", Value::Integer(id)), cell("name", text(name))]
}

#[test]
fn select_all_after_inserts() {
    let db = users();
    let rows = db.select_rows(&s("users"), &star(), None, None).unwrap();
    assert_eq!(rows, vec![user_row(1, "a"), user_row(2, "b")]);
}

#[test]
fn indexed_select_returns_exact_row() {
    let mut db = users();
    db.create_index(&s("users"), &s("id")).unwrap();
    let c = eq("id", Value::Integer(2));
    let rows = db.select_rows(&s("users"), &star(), Some(&c), None).unwrap();
    assert_eq!(rows, vec![user_row(2, "b")]);
}

#[test]
fn update_one_row_then_select() {
    let mut db = users();
    db.create_index(&s("users"), &s("id")).unwrap();
    let set = vec![Assignment { column: s("name"), value: text("c") }];
    let c = eq("id", Value::Integer(1));
    assert_eq!(db.update_rows(&s("users"), &set, Some(&c)).unwrap(), 1);
    let rows = db.select_rows(&s("users"), &star(), Some(&c), None).unwrap();
    assert_eq!(rows, vec![user_row(1, "c")]);
}

#[test]
fn delete_one_row_leaves_one() {
    let mut db = users();
    db.create_index(&s("users"), &s("id")).unwrap();
    let c = eq("id", Value::Integer(2));
    assert_eq!(db.delete_rows(&s("users"), Some(&c)).unwrap(), 1);
    let rows = db.select_rows(&s("users"), &star(), None, None).unwrap();
    assert_eq!(rows, vec![user_row(1, "a")]);
}

fn with_orders() -> BTreeStorage {
    let mut db = users();
    db.create_table(&s("orders"), cols(&["oid", "user_id"])).unwrap();
    db.insert_row(&s("orders"), vec![Value::Integer(10), Value::Integer(1)]).unwrap();
    db.insert_row(&s("orders"), vec![Value::Integer(11), Value::Integer(1)]).unwrap();
    db.insert_row(&s("orders"), vec![Value::Integer(12), Value::Integer(3)]).unwrap();
    db
}

fn users_orders() -> JoinInfo {
    JoinInfo {
        table: s("orders"),
        left_table: s("users"),
        left_column: s("id"),
        right_table: s("orders"),
        right_column: s("user_id"),
    }
}

#[test]
fn join_star_prefixes_every_column() {
    let db = with_orders();
    let j = users_orders();
    let rows = db.select_rows(&s("users"), &star(), None, Some(&j)).unwrap();
    let expect = |oid: i64| {
        vec![
            cell("users.id", Value::Integer(1)),
            cell("users.name", text("a")),
            cell("orders.oid", Value::Integer(oid)),
            cell("orders.user_id", Value::Integer(1)),
        ]
    };
    assert_eq!(rows, vec![expect(10), expect(11)]);
}

#[test]
fn join_projection_resolves_names() {
    let db = with_orders();
    let j = users_orders();
    let req = cols(&["name", "oid", "orders.user_id", "users.missing", "nothing"]);
    let c = eq("id", Value::Integer(1));
    let rows = db.select_rows(&s("users"), &req, Some(&c), Some(&j)).unwrap();
    assert_eq!(rows.len(), 2);
    assert_eq!(
        rows[1],
        vec![
            cell("name", text("a")),
            cell("oid", Value::Integer(11)),
            cell("orders.user_id", Value::Integer(1)),
            cell("users.missing", Value::Null),
            cell("nothing", Value::Null),
        ]
    );
}

#[test]
fn join_without_matches_is_empty() {
    let db = with_orders();
    let j = users_orders();
    let c = eq("id", Value::Integer(2));
    let rows = db.select_rows(&s("users"), &star(), Some(&c), Some(&j)).unwrap();
    assert!(rows.is_empty());
}

#[test]
fn join_with_missing_right_table() {
    let db = users();
    let j = users_orders();
    let r = db.select_rows(&s("users"), &star(), None, Some(&j));
    assert_eq!(r, Err(StoreError::TableNotFound(s("orders"))));
}

#[test]
fn join_does_not_coerce_kinds() {
    let mut db = users();
    db.create_table(&s("tags"), cols(&["uid"])).unwrap();
    db.insert_row(&s("tags"), vec![text("1")]).unwrap();
    let j = JoinInfo {
        table: s("tags"),
        left_table: s("users"),
        left_column: s("id"),
        right_table: s("tags"),
        right_column: s("uid"),
    };
    let rows = db.select_rows(&s("users"), &star(), None, Some(&j)).unwrap();
    assert!(rows.is_empty());
}

#[test]
fn inserted_row_is_selected() {
    let mut db = users();
    let row = db.insert_row(&s("users"), vec![Value::Integer(7), Value::Null]).unwrap();
    assert_eq!(row, vec![cell("id", Value::Integer(7)), cell("name", Value::Null)]);
    let rows = db.select_rows(&s("users"), &star(), None, None).unwrap();
    assert!(rows.contains(&row));
}

#[test]
fn index_does_not_change_selection() {
    let mut db = users();
    db.insert_row(&s("users"), vec![Value::Integer(2), text("z")]).unwrap();
    db.insert_row(&s("users"), vec![text("2"), text("y")]).unwrap();
    let c = eq("id", Value::Integer(2));
    let before = db.select_rows(&s("users"), &star(), Some(&c), None).unwrap();
    db.create_index(&s("users"), &s("id")).unwrap();
    let after = db.select_rows(&s("users"), &star(), Some(&c), None).unwrap();
    assert_eq!(before, after);
    assert_eq!(after, vec![user_row(2, "b"), user_row(2, "z")]);
    let missing = eq("id", Value::Integer(9));
    assert!(db.select_rows(&s("users"), &star(), Some(&missing), None).unwrap().is_empty());
}

#[test]
fn counts_equal_matching_rows() {
    let mut db = users();
    db.insert_row(&s("users"), vec![Value::Integer(3), text("a")]).unwrap();
    let set = vec![Assignment { column: s("id"), value: Value::Integer(0) }];
    let c = eq("name", text("a"));
    assert_eq!(db.update_rows(&s("users"), &set, Some(&c)).unwrap(), 2);
    let none = eq("name", text("q"));
    assert_eq!(db.update_rows(&s("users"), &set, Some(&none)).unwrap(), 0);
    assert_eq!(db.delete_rows(&s("users"), None).unwrap(), 3);
    assert!(db.select_rows(&s("users"), &star(), None, None).unwrap().is_empty());
}

#[test]
fn update_ignores_unknown_columns() {
    let mut db = users();
    let set = vec![
        Assignment { column: s("ghost"), value: Value::Integer(5) },
        Assignment { column: s("name"), value: text("x") },
        Assignment { column: s("name"), value: text("y") },
    ];
    assert_eq!(db.update_rows(&s("users"), &set, None).unwrap(), 2);
    let rows = db.select_rows(&s("users"), &star(), None, None).unwrap();
    assert_eq!(rows, vec![user_row(1, "y"), user_row(2, "y")]);
}

#[test]
fn add_column_fills_null_and_keeps_index() {
    let mut db = users();
    db.create_index(&s("users"), &s("id")).unwrap();
    let c = eq("id", Value::Integer(1));
    let before = db.select_rows(&s("users"), &cols(&["id"]), Some(&c), None).unwrap();
    db.add_column(&s("users"), s("age")).unwrap();
    let rows = db.select_rows(&s("users"), &star(), None, None).unwrap();
    assert_eq!(rows[0][2], cell("age", Value::Null));
    assert_eq!(rows[1][2], cell("age", Value::Null));
    let after = db.select_rows(&s("users"), &cols(&["id"]), Some(&c), None).unwrap();
    assert_eq!(before, after);
    db.add_column(&s("users"), s("age")).unwrap();
    assert_eq!(db.table(&s("users")).unwrap().columns().len(), 3);
}

#[test]
fn projection_strips_qualifier() {
    let db = users();
    let rows = db.select_rows(&s("users"), &cols(&["users.name", "age"]), None, None).unwrap();
    assert_eq!(rows[0], vec![cell("users.name", text("a")), cell("age", Value::Null)]);
}

#[test]
fn errors_are_reported() {
    let mut db = users();
    assert_eq!(db.create_table(&s("users"), cols(&["x"])), Err(StoreError::AlreadyExists(s("users"))));
    assert_eq!(
        db.insert_row(&s("users"), vec![Value::Integer(1)]),
        Err(StoreError::ArityMismatch)
    );
    assert_eq!(
        db.insert_row(&s("nope"), vec![Value::Integer(1)]),
        Err(StoreError::TableNotFound(s("nope")))
    );
    assert_eq!(db.delete_rows(&s("nope"), None), Err(StoreError::TableNotFound(s("nope"))));
    assert_eq!(db.update_rows(&s("nope"), &vec![], None), Err(StoreError::TableNotFound(s("nope"))));
    assert_eq!(db.select_rows(&s("nope"), &star(), None, None), Err(StoreError::TableNotFound(s("nope"))));
    assert_eq!(db.add_column(&s("nope"), s("c")), Err(StoreError::TableNotFound(s("nope"))));
    assert_eq!(db.create_index(&s("nope"), &s("c")), Err(StoreError::TableNotFound(s("nope"))));
    assert_eq!(db.drop_index(&s("nope"), &s("c")), Err(StoreError::TableNotFound(s("nope"))));
}

#[test]
fn drop_table_and_index() {
    let mut db = users();
    db.create_index(&s("users"), &s("name")).unwrap();
    assert_eq!(db.table(&s("users")).unwrap().index_columns(), vec![s("name")]);
    db.drop_index(&s("users"), &s("name")).unwrap();
    assert!(db.table(&s("users")).unwrap().index_columns().is_empty());
    assert!(db.table_exists(&s("users")));
    db.drop_table(&s("users"));
    assert!(!db.table_exists(&s("users")));
    db.drop_table(&s("users"));
    assert!(db.table_names().is_empty());
}

#[test]
fn float_values_compare_by_bits() {
    let mut db = BTreeStorage::new();
    db.create_table(&s("m"), cols(&["x"])).unwrap();
    db.insert_row(&s("m"), vec![Value::Float(1.5f64.to_bits())]).unwrap();
    db.insert_row(&s("m"), vec![Value::Integer(1)]).unwrap();
    let c = eq("x", Value::Float(1.5f64.to_bits()));
    assert_eq!(db.delete_rows(&s("m"), Some(&c)).unwrap(), 1);
}

#[test]
fn restore_rebuilds_indexes() {
    let rows = vec![
        vec![Value::Integer(1), text("a")],
        vec![Value::Integer(2), text("b")],
    ];
    let t = TableMeta::restore(cols(&["id", "name"]), &rows, &cols(&["id"])).unwrap();
    assert_eq!(t.row_count(), 2);
    assert_eq!(t.index_columns(), vec![s("id")]);
    let mut db = BTreeStorage::new();
    db.restore_table(&s("users"), t);
    let c = eq("id", Value::Integer(2));
    let got = db.select_rows(&s("users"), &star(), Some(&c), None).unwrap();
    assert_eq!(got, vec![user_row(2, "b")]);
    let bad = vec![vec![Value::Integer(1)]];
    assert!(TableMeta::restore(cols(&["id", "name"]), &bad, &vec![]).is_none());
}
