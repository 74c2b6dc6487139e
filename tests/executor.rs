use mini_sqlite::executor::{CommandType, Outcome, ParsedCommand, SQLExecutor};
use mini_sqlite::storage::StoreError;
use mini_sqlite::value::{Assignment, Cell, ColumnDef, Condition, Value};
use mini_sqlite::web::{html_escape, parse_form_value, url_decode};

fn s(x: &str) -> String {
    x.to_string()
}

fn run(ex: &mut SQLExecutor, command: CommandType) -> Outcome {
    ex.execute(&ParsedCommand { command, raw: s("raw text") })
}

fn def(name: &str) -> ColumnDef {
    ColumnDef { name: s(name), col_type: s("TEXT") }
}

fn setup() -> SQLExecutor {
    let mut ex = SQLExecutor::new();
    let r = run(&mut ex, CommandType::CreateTable { table: s("users"), columns: vec![def("id"), def("name")] });
    assert_eq!(r, Outcome::TableCreated(s("users")));
    ex
}

#[test]
fn executor_starts_on_default() {
    let ex = SQLExecutor::new();
    assert_eq!(ex.active_database(), "default");
    assert_eq!(ex.databases(), vec![s("default")]);
    assert!(ex.lsm_entries().is_empty());
}

#[test]
fn executor_create_and_use_databases() {
    let mut ex = SQLExecutor::new();
    assert_eq!(run(&mut ex, CommandType::CreateDatabase { name: s("shop") }), Outcome::DatabaseReady(s("shop")));
    assert_eq!(ex.active_database(), "shop");
    assert_eq!(run(&mut ex, CommandType::UseDatabase { name: s("nope") }), Outcome::DatabaseNotFound(s("nope")));
    assert_eq!(ex.active_database(), "shop");
    assert_eq!(run(&mut ex, CommandType::UseDatabase { name: s("default") }), Outcome::UsingDatabase(s("default")));
    assert_eq!(run(&mut ex, CommandType::AlterDatabase { name: s("other") }), Outcome::UsingDatabase(s("other")));
    assert_eq!(ex.databases().len(), 3);
}

#[test]
fn executor_logs_mutations_and_commits() {
    let mut ex = setup();
    let r = run(&mut ex, CommandType::Insert { table: s("users"), values: vec![Value::Integer(1), Value::Text(s("a"))] });
    assert_eq!(r, Outcome::Inserted);
    assert!(r.needs_persist());
    let r = run(
        &mut ex,
        CommandType::Update {
            table: s("users"),
            assignments: vec![Assignment { column: s("name"), value: Value::Text(s("b")) }],
            condition: Some(Condition { column: s("id"), value: Value::Integer(5) }),
        },
    );
    assert_eq!(r, Outcome::Updated(0));
    assert!(!r.needs_persist());
    assert_eq!(ex.lsm_entries().len(), 2);
    assert_eq!(ex.lsm_entries()[0].command, "INSERT");
    assert_eq!(ex.lsm_entries()[0].details[0].value, Value::Text(s("users")));
    assert_eq!(ex.lsm_entries()[1].details[0].value, Value::Integer(0));
    match run(&mut ex, CommandType::Commit) {
        Outcome::Committed(es) => assert_eq!(es.len(), 2),
        other => panic!("unexpected {:?}", other),
    }
    assert!(ex.lsm_entries().is_empty());
    match run(&mut ex, CommandType::Commit) {
        Outcome::Committed(es) => assert!(es.is_empty()),
        other => panic!("unexpected {:?}", other),
    }
}

#[test]
fn executor_reports_errors() {
    let mut ex = setup();
    let again = CommandType::CreateTable { table: s("users"), columns: vec![def("x")] };
    assert_eq!(run(&mut ex, again), Outcome::TableExists(s("users")));
    let short = CommandType::Insert { table: s("users"), values: vec![Value::Null] };
    assert_eq!(run(&mut ex, short), Outcome::Failed(StoreError::ArityMismatch));
    assert_eq!(run(&mut ex, CommandType::DropTable { table: s("x") }), Outcome::TableNotFound(s("x")));
    let del = CommandType::Delete { table: s("x"), condition: None };
    assert_eq!(run(&mut ex, del), Outcome::TableNotFound(s("x")));
    assert_eq!(run(&mut ex, CommandType::Unknown), Outcome::NotUnderstood(s("raw text")));
    assert_eq!(run(&mut ex, CommandType::Empty), Outcome::Empty);
    assert!(ex.lsm_entries().is_empty());
}

#[test]
fn executor_schema_commands_and_select() {
    let mut ex = setup();
    run(&mut ex, CommandType::Insert { table: s("users"), values: vec![Value::Integer(1), Value::Text(s("a"))] });
    let r = run(&mut ex, CommandType::AlterTable { table: s("users"), column: def("age") });
    assert_eq!(r, Outcome::ColumnAdded { column: s("age"), table: s("users") });
    let r = run(&mut ex, CommandType::CreateIndex { table: s("users"), column: s("id") });
    assert_eq!(r, Outcome::IndexBuilt { table: s("users"), column: s("id") });
    let sel = CommandType::Select {
        table: s("users"),
        columns: vec![s("name"), s("age")],
        condition: Some(Condition { column: s("id"), value: Value::Integer(1) }),
        join: None,
    };
    let expect = vec![vec![
        Cell { column: s("name"), value: Value::Text(s("a")) },
        Cell { column: s("age"), value: Value::Null },
    ]];
    assert_eq!(run(&mut ex, sel), Outcome::Rows(expect));
    let r = run(&mut ex, CommandType::DropIndex { table: s("users"), column: s("id") });
    assert_eq!(r, Outcome::IndexRemoved { table: s("users"), column: s("id") });
    assert_eq!(run(&mut ex, CommandType::DropTable { table: s("users") }), Outcome::TableDropped(s("users")));
    let sel = CommandType::Select { table: s("users"), columns: vec![s("*")], condition: None, join: None };
    assert_eq!(run(&mut ex, sel), Outcome::TableNotFound(s("users")));
}

#[test]
fn html_escape_replaces_specials() {
    assert_eq!(html_escape("<a href=\"x\">&'</a>"), "&lt;a href=&quot;x&quot;&gt;&amp;&#39;&lt;/a&gt;");
    assert_eq!(html_escape("plain"), "plain");
}

#[test]
fn url_decode_handles_escapes() {
    assert_eq!(url_decode("SELECT+*+FROM+t%3B"), "SELECT * FROM t;");
    assert_eq!(url_decode("%41%62"), "Ab");
    assert_eq!(url_decode("%zz!"), "!");
    assert_eq!(url_decode("a%4"), "a\u{4}");
}

#[test]
fn form_values_by_key() {
    let body = "use_database=&query=SELECT+1&x=y%3D";
    assert_eq!(parse_form_value(body, "query"), "SELECT 1");
    assert_eq!(parse_form_value(body, "use_database"), "");
    assert_eq!(parse_form_value(body, "x"), "y=");
    assert_eq!(parse_form_value(body, "missing"), "");
    assert_eq!(parse_form_value("", "q"), "");
}
