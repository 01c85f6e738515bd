use witchdb::database::{Database, FieldType, Record};
use witchdb::error::Error;
use witchdb::index::{Index, NumberEntry, TextEntry};

fn text(s: &str) -> String {
    s.to_string()
}

fn users() -> Database {
    let mut db = Database::new();
    db.create_storage(text("u")).unwrap();
    db.create_index(text("u"), text("email"), FieldType::String, true).unwrap();
    db.create_index(text("u"), text("age"), FieldType::Number, true).unwrap();
    db
}

fn email_index(db: &Database) -> Index {
    db.get_storage(text("u")).unwrap().indexes.get_index(&text("email")).unwrap().clone()
}

fn age_index(db: &Database) -> Index {
    db.get_storage(text("u")).unwrap().indexes.get_index(&text("age")).unwrap().clone()
}

#[test]
fn create_storage_twice_is_a_storage_error() {
    let mut db = Database::new();
    assert!(db.create_storage(text("a")).is_ok());
    let before = db.clone();
    assert!(matches!(db.create_storage(text("a")), Err(Error::StorageError(_))));
    assert_eq!(db, before);
    assert!(db.create_storage(text("b")).is_ok());
    assert_eq!(db.storages.len(), 2);
    assert_eq!(db.storages[0].name, "a");
    assert_eq!(db.storages[1].name, "b");
}

#[test]
fn create_then_delete_storage_leaves_the_database_as_it_was() {
    let mut db = Database::new();
    db.create_storage(text("keep")).unwrap();
    db.insert(text("keep"), text("k"), text("v")).unwrap();
    let before = db.clone();
    db.create_storage(text("temp")).unwrap();
    assert!(db.delete_storage(text("temp")).is_ok());
    assert_eq!(db, before);
}

#[test]
fn delete_of_a_missing_storage_is_silent() {
    let mut db = Database::new();
    db.create_storage(text("a")).unwrap();
    let before = db.clone();
    assert!(db.delete_storage(text("zzz")).is_ok());
    assert_eq!(db, before);
    assert!(db.delete_storage(text("a")).is_ok());
    assert_eq!(db, Database::new());
}

#[test]
fn missing_storage_is_a_storage_error_everywhere() {
    let mut db = Database::new();
    assert!(matches!(db.get_storage(text("x")), Err(Error::StorageError(_))));
    assert!(matches!(db.get(text("x"), text("k")), Err(Error::StorageError(_))));
    assert!(matches!(db.insert(text("x"), text("k"), text("v")), Err(Error::StorageError(_))));
    assert!(matches!(db.update(text("x"), text("k"), text("v")), Err(Error::StorageError(_))));
    assert!(matches!(db.delete(text("x"), text("k")), Err(Error::StorageError(_))));
    assert!(matches!(
        db.create_index(text("x"), text("f"), FieldType::String, true),
        Err(Error::StorageError(_))
    ));
    assert_eq!(db, Database::new());
}

#[test]
fn insert_of_a_bound_key_is_rejected() {
    let mut db = users();
    db.insert(text("u"), text("a"), text("first")).unwrap();
    let before = db.clone();
    assert!(matches!(
        db.insert(text("u"), text("a"), text("second")),
        Err(Error::KeyAlreadyExists(_))
    ));
    assert_eq!(db, before);
    assert_eq!(db.get(text("u"), text("a")).unwrap(), "first");
}

#[test]
fn get_returns_the_latest_value() {
    let mut db = users();
    assert!(matches!(db.get(text("u"), text("a")), Err(Error::KeyNotFound(_))));
    db.insert(text("u"), text("a"), text("one")).unwrap();
    db.insert(text("u"), text("b"), text("other")).unwrap();
    assert_eq!(db.get(text("u"), text("a")).unwrap(), "one");
    db.update(text("u"), text("a"), text("two")).unwrap();
    assert_eq!(db.get(text("u"), text("a")).unwrap(), "two");
    assert_eq!(db.get(text("u"), text("b")).unwrap(), "other");
    db.delete(text("u"), text("a")).unwrap();
    assert!(matches!(db.get(text("u"), text("a")), Err(Error::KeyNotFound(_))));
    assert_eq!(db.get(text("u"), text("b")).unwrap(), "other");
}

#[test]
fn insert_files_each_typed_field_once() {
    let mut db = users();
    db.insert(text("u"), text("a"), text("{\"email\":\"a@x\",\"age\":31,\"extra\":true}")).unwrap();
    db.insert(text("u"), text("b"), text("{\"email\":\"b@x\",\"age\":\"old\"}")).unwrap();
    db.insert(text("u"), text("c"), text("{\"email\":7,\"age\":29}")).unwrap();
    db.insert(text("u"), text("d"), text("not json")).unwrap();
    db.insert(text("u"), text("e"), text("[1,2,3]")).unwrap();
    db.insert(text("u"), text("f"), text("{\"age\":1.5}")).unwrap();
    assert_eq!(
        email_index(&db),
        Index::HashUnique(vec![
            TextEntry { value: text("a@x"), key: text("a") },
            TextEntry { value: text("b@x"), key: text("b") },
        ])
    );
    assert_eq!(
        age_index(&db),
        Index::BTreeUnique(vec![
            NumberEntry { number: 29, key: text("c") },
            NumberEntry { number: 31, key: text("a") },
        ])
    );
    assert_eq!(db.get_storage(text("u")).unwrap().data.len(), 6);
}

#[test]
fn violation_on_a_later_index_writes_nothing_at_all() {
    let mut db = users();
    db.insert(text("u"), text("a"), text("{\"email\":\"a@x\",\"age\":31}")).unwrap();
    let before = db.clone();
    let result = db.insert(text("u"), text("b"), text("{\"email\":\"fresh@x\",\"age\":31}"));
    assert!(matches!(result, Err(Error::IndexError(_))));
    assert_eq!(db, before);
    let result = db.insert(text("u"), text("b"), text("{\"age\":99,\"email\":\"a@x\"}"));
    assert!(matches!(result, Err(Error::IndexError(_))));
    assert_eq!(db, before);
}

#[test]
fn integer_beyond_64_bits_is_not_filed() {
    let mut db = users();
    db.insert(text("u"), text("max"), text("{\"age\":9223372036854775807}")).unwrap();
    db.insert(text("u"), text("over"), text("{\"age\":9223372036854775808}")).unwrap();
    db.insert(text("u"), text("min"), text("{\"age\":-9223372036854775808}")).unwrap();
    assert_eq!(
        age_index(&db),
        Index::BTreeUnique(vec![
            NumberEntry { number: i64::MIN, key: text("min") },
            NumberEntry { number: i64::MAX, key: text("max") },
        ])
    );
}

#[test]
fn update_swaps_the_index_entries() {
    let mut db = users();
    db.insert(text("u"), text("a"), text("{\"email\":\"a@x\",\"age\":31}")).unwrap();
    db.insert(text("u"), text("b"), text("{\"email\":\"b@x\",\"age\":20}")).unwrap();
    db.update(text("u"), text("a"), text("{\"email\":\"new@x\"}")).unwrap();
    assert_eq!(
        email_index(&db),
        Index::HashUnique(vec![
            TextEntry { value: text("b@x"), key: text("b") },
            TextEntry { value: text("new@x"), key: text("a") },
        ])
    );
    assert_eq!(
        age_index(&db),
        Index::BTreeUnique(vec![NumberEntry { number: 20, key: text("b") }])
    );
    assert_eq!(
        db.get_storage(text("u")).unwrap().data,
        vec![
            Record { key: text("a"), value: text("{\"email\":\"new@x\"}") },
            Record { key: text("b"), value: text("{\"email\":\"b@x\",\"age\":20}") },
        ]
    );
}

#[test]
fn update_may_keep_its_own_indexed_value() {
    let mut db = users();
    db.insert(text("u"), text("a"), text("{\"email\":\"a@x\",\"age\":31}")).unwrap();
    db.update(text("u"), text("a"), text("{\"email\":\"a@x\",\"age\":32}")).unwrap();
    assert_eq!(
        email_index(&db),
        Index::HashUnique(vec![TextEntry { value: text("a@x"), key: text("a") }])
    );
    assert_eq!(
        age_index(&db),
        Index::BTreeUnique(vec![NumberEntry { number: 32, key: text("a") }])
    );
}

#[test]
fn update_that_violates_uniqueness_restores_everything() {
    let mut db = users();
    db.insert(text("u"), text("a"), text("{\"email\":\"a@x\",\"age\":31}")).unwrap();
    db.insert(text("u"), text("b"), text("{\"email\":\"b@x\",\"age\":20}")).unwrap();
    let before = db.clone();
    let result = db.update(text("u"), text("a"), text("{\"email\":\"z@x\",\"age\":20}"));
    assert!(matches!(result, Err(Error::IndexError(_))));
    assert_eq!(db, before);
    let result = db.update(text("u"), text("a"), text("{\"email\":\"b@x\"}"));
    assert!(matches!(result, Err(Error::IndexError(_))));
    assert_eq!(db, before);
}

#[test]
fn update_and_delete_of_a_missing_key_are_key_not_found() {
    let mut db = users();
    db.insert(text("u"), text("a"), text("{\"email\":\"a@x\"}")).unwrap();
    let before = db.clone();
    assert!(matches!(db.update(text("u"), text("zz"), text("v")), Err(Error::KeyNotFound(_))));
    assert!(matches!(db.delete(text("u"), text("zz")), Err(Error::KeyNotFound(_))));
    assert_eq!(db, before);
}

#[test]
fn delete_takes_the_entries_out_of_the_indexes() {
    let mut db = users();
    db.insert(text("u"), text("a"), text("{\"email\":\"a@x\",\"age\":31}")).unwrap();
    db.insert(text("u"), text("b"), text("{\"email\":\"b@x\",\"age\":20}")).unwrap();
    db.delete(text("u"), text("a")).unwrap();
    assert_eq!(
        email_index(&db),
        Index::HashUnique(vec![TextEntry { value: text("b@x"), key: text("b") }])
    );
    assert_eq!(
        age_index(&db),
        Index::BTreeUnique(vec![NumberEntry { number: 20, key: text("b") }])
    );
    db.insert(text("u"), text("c"), text("{\"email\":\"a@x\",\"age\":31}")).unwrap();
    assert_eq!(db.get(text("u"), text("c")).unwrap(), "{\"email\":\"a@x\",\"age\":31}");
}

#[test]
fn create_index_back_fills_from_the_records() {
    let mut db = Database::new();
    db.create_storage(text("u")).unwrap();
    db.insert(text("u"), text("a"), text("{\"email\":\"a@x\",\"age\":31}")).unwrap();
    db.insert(text("u"), text("b"), text("{\"age\":20}")).unwrap();
    db.insert(text("u"), text("c"), text("garbage")).unwrap();
    db.insert(text("u"), text("d"), text("{\"email\":\"d@x\",\"age\":\"x\"}")).unwrap();
    db.create_index(text("u"), text("email"), FieldType::String, true).unwrap();
    db.create_index(text("u"), text("age"), FieldType::Number, true).unwrap();
    assert_eq!(
        email_index(&db),
        Index::HashUnique(vec![
            TextEntry { value: text("a@x"), key: text("a") },
            TextEntry { value: text("d@x"), key: text("d") },
        ])
    );
    assert_eq!(
        age_index(&db),
        Index::BTreeUnique(vec![
            NumberEntry { number: 20, key: text("b") },
            NumberEntry { number: 31, key: text("a") },
        ])
    );
}

#[test]
fn create_index_that_finds_a_duplicate_installs_nothing() {
    let mut db = Database::new();
    db.create_storage(text("u")).unwrap();
    db.insert(text("u"), text("a"), text("{\"email\":\"same\"}")).unwrap();
    db.insert(text("u"), text("b"), text("{\"email\":\"same\"}")).unwrap();
    let before = db.clone();
    let result = db.create_index(text("u"), text("email"), FieldType::String, true);
    assert!(matches!(result, Err(Error::IndexError(_))));
    assert_eq!(db, before);
    assert!(!db.get_storage(text("u")).unwrap().indexes.index_exists(&text("email")));
}

#[test]
fn non_unique_index_creation_is_rejected() {
    let mut db = Database::new();
    db.create_storage(text("u")).unwrap();
    let before = db.clone();
    match db.create_index(text("u"), text("email"), FieldType::String, false) {
        Err(Error::IndexError(message)) => {
            assert!(message.starts_with("Non unique indexes are not supported"))
        }
        other => panic!("unexpected {:?}", other),
    }
    assert!(matches!(
        db.create_index(text("u"), text("age"), FieldType::Number, false),
        Err(Error::IndexError(_))
    ));
    assert_eq!(db, before);
}

#[test]
fn create_index_again_replaces_the_index() {
    let mut db = users();
    db.insert(text("u"), text("a"), text("{\"email\":\"a@x\"}")).unwrap();
    db.create_index(text("u"), text("email"), FieldType::Number, true).unwrap();
    assert_eq!(email_index(&db), Index::BTreeUnique(vec![]));
    assert_eq!(db.get_storage(text("u")).unwrap().indexes.list.len(), 2);
    db.insert(text("u"), text("b"), text("{\"email\":\"a@x\"}")).unwrap();
}

#[test]
fn index_size_equals_the_count_of_qualifying_records() {
    let mut db = users();
    let mut expected = 0usize;
    for i in 0..40 {
        let value = if i % 3 == 0 {
            format!("{{\"email\":\"m{}@x\",\"age\":{}}}", i, i)
        } else if i % 3 == 1 {
            format!("{{\"email\":{}}}", i)
        } else {
            format!("plain {}", i)
        };
        if i % 3 == 0 {
            expected += 1;
        }
        db.insert(text("u"), format!("k{}", i), value).unwrap();
    }
    for i in (0..40).step_by(6) {
        db.delete(text("u"), format!("k{}", i)).unwrap();
        expected -= 1;
    }
    db.update(text("u"), text("k1"), text("{\"email\":\"late@x\",\"age\":1000}")).unwrap();
    expected += 1;
    match email_index(&db) {
        Index::HashUnique(entries) => {
            assert_eq!(entries.len(), expected);
            for entry in entries {
                let value = db.get(text("u"), entry.key.clone()).unwrap();
                assert!(value.contains(&format!("\"email\":\"{}\"", entry.value)));
            }
        }
        other => panic!("unexpected {:?}", other),
    }
    match age_index(&db) {
        Index::BTreeUnique(entries) => assert_eq!(entries.len(), expected),
        other => panic!("unexpected {:?}", other),
    }
}
