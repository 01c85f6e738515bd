use witchdb::database::{Database, FieldType};
use witchdb::error::Error;
use witchdb::query_handler::{explain_query, handle_query};
use witchdb::witchvm_kv::ExplainStep;

fn text(s: &str) -> String {
    s.to_string()
}

#[test]
fn basic_insert_then_get() {
    let mut db = Database::new();
    db.create_storage(text("people")).unwrap();
    db.insert(text("people"), text("p1"), text("{\"name\":\"John\",\"age\":30}")).unwrap();
    assert_eq!(
        db.get(text("people"), text("p1")).unwrap(),
        "{\"name\":\"John\",\"age\":30}"
    );
}

#[test]
fn unique_index_violation_rolls_back() {
    let mut db = Database::new();
    db.create_storage(text("u")).unwrap();
    db.create_index(text("u"), text("email"), FieldType::String, true).unwrap();
    db.insert(text("u"), text("a"), text("{\"email\":\"x@y\"}")).unwrap();
    let before = db.clone();
    let second = db.insert(text("u"), text("b"), text("{\"email\":\"x@y\"}"));
    assert!(matches!(second, Err(Error::IndexError(_))));
    assert!(matches!(db.get(text("u"), text("b")), Err(Error::KeyNotFound(_))));
    assert_eq!(db, before);
}

fn ages() -> Database {
    let mut db = Database::new();
    db.create_storage(text("main")).unwrap();
    db.insert(text("main"), text("p1"), text("{\"age\":30}")).unwrap();
    db.insert(text("main"), text("p2"), text("{\"age\":25}")).unwrap();
    db.insert(text("main"), text("p3"), text("{\"age\":40}")).unwrap();
    db
}

#[test]
fn where_on_number_takes_full_scan() {
    let mut db = ages();
    let out = handle_query(&mut db, text("SELECT * FROM main WHERE age >= 30")).unwrap();
    assert_eq!(out, "{\"age\":30},{\"age\":40}");
    let steps = explain_query(&mut db, text("SELECT * FROM main WHERE age >= 30")).unwrap();
    let scans = steps.iter().filter(|s| matches!(s, ExplainStep::FullScan { .. })).count();
    assert_eq!(scans, 1);
    assert!(!steps.iter().any(|s| matches!(s, ExplainStep::IndexScan { .. })));
}

#[test]
fn projection_of_one_and_two_fields() {
    let mut db = Database::new();
    db.create_storage(text("main")).unwrap();
    db.insert(text("main"), text("p1"), text("{\"name\":\"John\",\"age\":30}")).unwrap();
    assert_eq!(handle_query(&mut db, text("SELECT name FROM main")).unwrap(), "{\"name\":\"John\"}");
    assert_eq!(
        handle_query(&mut db, text("SELECT name, age FROM main")).unwrap(),
        "{\"name\":\"John\",\"age\":30}"
    );
    assert!(matches!(
        handle_query(&mut db, text("SELECT name, * FROM main")),
        Err(Error::SyntaxError(_))
    ));
}

fn names() -> Database {
    let mut db = Database::new();
    db.create_storage(text("s")).unwrap();
    db.insert(text("s"), text("k1"), text("{\"name\":\"Charlie\"}")).unwrap();
    db.insert(text("s"), text("k2"), text("{\"name\":\"Alice\"}")).unwrap();
    db.insert(text("s"), text("k3"), text("{\"name\":\"Bob\"}")).unwrap();
    db
}

#[test]
fn order_by_then_limit_and_offset() {
    let mut db = names();
    assert_eq!(
        handle_query(&mut db, text("SELECT name FROM s ORDER BY name")).unwrap(),
        "{\"name\":\"Alice\"},{\"name\":\"Bob\"},{\"name\":\"Charlie\"}"
    );
    assert_eq!(
        handle_query(&mut db, text("SELECT name FROM s ORDER BY name LIMIT 2")).unwrap(),
        "{\"name\":\"Alice\"},{\"name\":\"Bob\"}"
    );
    assert_eq!(
        handle_query(&mut db, text("SELECT name FROM s ORDER BY name OFFSET 1 LIMIT 1")).unwrap(),
        "{\"name\":\"Bob\"}"
    );
}

#[test]
fn equality_on_indexed_string_takes_index_scan() {
    let mut db = Database::new();
    db.create_storage(text("u")).unwrap();
    for i in 1..=1000 {
        db.insert(text("u"), format!("p{}", i), format!("{{\"name\":\"N{}\"}}", i)).unwrap();
    }
    db.create_index(text("u"), text("name"), FieldType::String, true).unwrap();
    let out = handle_query(&mut db, text("SELECT * FROM u WHERE name = 'N42'")).unwrap();
    assert_eq!(out, "{\"name\":\"N42\"}");
    let steps = explain_query(&mut db, text("SELECT * FROM u WHERE name = 'N42'")).unwrap();
    assert!(steps.iter().any(|s| matches!(s, ExplainStep::IndexScan { .. })));
    assert!(!steps.iter().any(|s| matches!(s, ExplainStep::FullScan { .. })));
}
