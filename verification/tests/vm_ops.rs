use witchdb::database::{Database, FieldType};
use witchdb::error::Error;
use witchdb::index::Index;
use witchdb::query_handler::{explain_query, handle_query};
use witchdb::sql::Operator;
use witchdb::witchvm_kv::{
    key_of, num_cond, sort_by_field, str_cond, ExplainStep, Filter, Instruction, Predicate,
    Projection, WitchVMKV,
};

fn text(s: &str) -> String {
    s.to_string()
}

fn people() -> Database {
    let mut db = Database::new();
    db.create_storage(text("main")).unwrap();
    db.insert(text("main"), text("p1"), text("{\"name\":\"John\",\"age\":30}")).unwrap();
    db.insert(text("main"), text("p2"), text("{\"name\":\"Jane\",\"age\":25}")).unwrap();
    db.insert(text("main"), text("p3"), text("{\"name\":\"Jim\",\"age\":40}")).unwrap();
    db.insert(text("main"), text("p4"), text("LALALA")).unwrap();
    db.insert(text("main"), text("p5"), text("{\"name\":7,\"age\":\"thirty\"}")).unwrap();
    db
}

fn query(db: &mut Database, sql: &str) -> String {
    handle_query(db, text(sql)).unwrap()
}

fn kinds(steps: &[ExplainStep]) -> Vec<&'static str> {
    steps
        .iter()
        .map(|s| match s {
            ExplainStep::SetStorage(_) => "SetStorage",
            ExplainStep::FullScan { .. } => "FullScan",
            ExplainStep::IndexScan { .. } => "IndexScan",
            ExplainStep::MapOutput => "MapOutput",
            ExplainStep::SortOutput => "SortOutput",
            ExplainStep::Limit => "Limit",
            ExplainStep::Offset => "Offset",
        })
        .collect()
}

#[test]
fn comparison_helpers() {
    assert!(num_cond(3, Operator::GreaterThan, 2));
    assert!(!num_cond(2, Operator::GreaterThan, 2));
    assert!(num_cond(2, Operator::GreaterThanEqual, 2));
    assert!(num_cond(1, Operator::LessThan, 2));
    assert!(num_cond(2, Operator::LessThanEqual, 2));
    assert!(num_cond(2, Operator::Equal, 2));
    assert!(num_cond(3, Operator::NotEqual, 2));
    assert!(!num_cond(2, Operator::And, 2));
    assert!(!num_cond(2, Operator::Or, 2));
    assert!(str_cond(&text("a"), Operator::Equal, &text("a")));
    assert!(!str_cond(&text("a"), Operator::Equal, &text("b")));
    assert!(str_cond(&text("a"), Operator::NotEqual, &text("b")));
    assert!(!str_cond(&text("a"), Operator::NotEqual, &text("a")));
    assert!(!str_cond(&text("a"), Operator::LessThan, &text("b")));
    assert!(!str_cond(&text("b"), Operator::GreaterThanEqual, &text("a")));
}

#[test]
fn select_without_where_returns_every_value_in_order() {
    let mut db = people();
    assert_eq!(
        query(&mut db, "SELECT * FROM main"),
        "{\"name\":\"John\",\"age\":30},{\"name\":\"Jane\",\"age\":25},\
         {\"name\":\"Jim\",\"age\":40},LALALA,{\"name\":7,\"age\":\"thirty\"}"
    );
    assert_eq!(
        query(&mut db, "SELECT age FROM main"),
        "{\"age\":30},{\"age\":25},{\"age\":40},{},{\"age\":\"thirty\"}"
    );
}

#[test]
fn comparisons_need_a_field_of_the_type_of_the_literal() {
    let mut db = people();
    assert_eq!(query(&mut db, "SELECT name FROM main WHERE age > 25"), "{\"name\":\"John\"},{\"name\":\"Jim\"}");
    assert_eq!(query(&mut db, "SELECT name FROM main WHERE age != 30"), "{\"name\":\"Jane\"},{\"name\":\"Jim\"}");
    assert_eq!(query(&mut db, "SELECT name FROM main WHERE age = 'thirty'"), "{\"name\":7}");
    assert_eq!(query(&mut db, "SELECT age FROM main WHERE name = 'Jane'"), "{\"age\":25}");
    assert_eq!(query(&mut db, "SELECT age FROM main WHERE name != 'Jane'"), "{\"age\":30},{\"age\":40}");
    assert_eq!(query(&mut db, "SELECT age FROM main WHERE name > 'A'"), "");
    assert_eq!(query(&mut db, "SELECT age FROM main WHERE missing = 1"), "");
    assert_eq!(query(&mut db, "SELECT age FROM main WHERE age <= 25.9"), "{\"age\":25}");
}

#[test]
fn and_and_or_combine_left_to_right() {
    let mut db = people();
    assert_eq!(
        query(&mut db, "SELECT name FROM main WHERE age >= 30 AND name = 'Jim'"),
        "{\"name\":\"Jim\"}"
    );
    assert_eq!(
        query(&mut db, "SELECT name FROM main WHERE age < 26 OR age > 39"),
        "{\"name\":\"Jane\"},{\"name\":\"Jim\"}"
    );
    assert_eq!(
        query(&mut db, "SELECT name FROM main WHERE age = 25 OR age = 30 AND name = 'John'"),
        "{\"name\":\"John\"}"
    );
}

#[test]
fn projection_gives_null_for_an_absent_field_and_keeps_the_asked_order() {
    let projection = Projection { fields: vec![text("b"), text("zz"), text("a"), text("b")] };
    assert_eq!(
        projection.apply(&text("{\"a\": [1, 2], \"b\": {\"c\": \"x y\"}, \"q\": 1}")),
        "{\"b\":{\"c\":\"x y\"},\"zz\":null,\"a\":[1,2]}"
    );
    assert_eq!(projection.apply(&text("oops")), "{}");
    assert_eq!(projection.apply(&text("42")), "{\"b\":null,\"zz\":null,\"a\":null}");
    let quoted = Projection { fields: vec![text("we\"ird")] };
    assert_eq!(quoted.apply(&text("{\"we\\\"ird\": true}")), "{\"we\\\"ird\":true}");
    let none = Projection { fields: vec![] };
    assert_eq!(none.apply(&text("{\"a\":1}")), "{}");
}

#[test]
fn sort_is_by_json_text_and_stable() {
    let values = vec![
        text("{\"n\":10,\"id\":1}"),
        text("{\"n\":9,\"id\":2}"),
        text("{\"n\":\"10\",\"id\":3}"),
        text("{\"id\":4}"),
        text("junk"),
        text("{\"n\":10,\"id\":6}"),
        text("{\"n\":null,\"id\":7}"),
    ];
    assert_eq!(
        sort_by_field(&values, &text("n")),
        vec![
            text("{\"n\":\"10\",\"id\":3}"),
            text("{\"n\":10,\"id\":1}"),
            text("{\"n\":10,\"id\":6}"),
            text("{\"n\":9,\"id\":2}"),
            text("{\"id\":4}"),
            text("junk"),
            text("{\"n\":null,\"id\":7}"),
        ]
    );
    assert_eq!(key_of(&text("n"), &text("{\"n\": \"a b\"}")), "\"a b\"".chars().collect::<Vec<char>>());
    assert_eq!(key_of(&text("n"), &text("{}")), "null".chars().collect::<Vec<char>>());
    assert_eq!(sort_by_field(&vec![], &text("n")), Vec::<String>::new());
}

#[test]
fn sorted_output_is_ordered_and_a_permutation() {
    let mut values = Vec::new();
    for i in 0..60u32 {
        values.push(format!("{{\"k\":\"{}\",\"i\":{}}}", (i * 37) % 23, i));
    }
    let sorted = sort_by_field(&values, &text("k"));
    assert_eq!(sorted.len(), values.len());
    for pair in sorted.windows(2) {
        let a: String = key_of(&text("k"), &pair[0]).into_iter().collect();
        let b: String = key_of(&text("k"), &pair[1]).into_iter().collect();
        assert!(a <= b);
    }
    let mut left = sorted.clone();
    let mut right = values.clone();
    left.sort();
    right.sort();
    assert_eq!(left, right);
}

#[test]
fn limit_and_offset_cut_the_unpaged_result() {
    let mut db = Database::new();
    db.create_storage(text("t")).unwrap();
    for i in 0..10 {
        db.insert(text("t"), format!("k{}", i), format!("{}", i)).unwrap();
    }
    let all: Vec<String> = (0..10).map(|i| format!("{}", i)).collect();
    for (limit, offset) in [(3u64, 2u64), (0, 0), (10, 0), (11, 0), (5, 9), (5, 10), (5, 11), (1, 3)] {
        let from = (offset as usize).min(all.len());
        let to = ((offset + limit) as usize).min(all.len());
        assert_eq!(
            query(&mut db, &format!("SELECT * FROM t LIMIT {} OFFSET {}", limit, offset)),
            all[from..to].join(","),
            "limit {} offset {}",
            limit,
            offset
        );
    }
    assert_eq!(query(&mut db, "SELECT * FROM t OFFSET 7"), "7,8,9");
    assert_eq!(query(&mut db, "SELECT * FROM t LIMIT 2"), "0,1");
}

#[test]
fn running_a_query_twice_gives_the_same() {
    let mut db = people();
    let before = db.clone();
    let sql = "SELECT name FROM main WHERE age >= 25 ORDER BY name LIMIT 2";
    let first = query(&mut db, sql);
    let second = query(&mut db, sql);
    assert_eq!(first, second);
    assert_eq!(db, before);
}

#[test]
fn explain_lists_the_steps_taken() {
    let mut db = people();
    let steps =
        explain_query(&mut db, text("SELECT name FROM main ORDER BY name OFFSET 1 LIMIT 1")).unwrap();
    assert_eq!(kinds(&steps), vec!["SetStorage", "FullScan", "MapOutput", "SortOutput", "Offset", "Limit"]);
    assert_eq!(steps[0], ExplainStep::SetStorage(text("main")));
    match &steps[1] {
        ExplainStep::FullScan { time } => assert!(time.nanos < 1_000_000_000),
        other => panic!("unexpected {:?}", other),
    }
    let steps = explain_query(&mut db, text("SELECT * FROM main")).unwrap();
    assert_eq!(kinds(&steps), vec!["SetStorage", "FullScan"]);
}

#[test]
fn query_errors_surface_unchanged() {
    let mut db = people();
    assert!(matches!(handle_query(&mut db, text("SELEC * FROM main")), Err(Error::SyntaxError(_))));
    assert!(matches!(handle_query(&mut db, text("SELECT * FROM nowhere")), Err(Error::StorageError(_))));
    assert!(matches!(explain_query(&mut db, text("SELECT * FROM nowhere")), Err(Error::StorageError(_))));
    assert!(matches!(explain_query(&mut db, text("SELECT name, * FROM main")), Err(Error::SyntaxError(_))));
}

fn indexed() -> Database {
    let mut db = Database::new();
    db.create_storage(text("u")).unwrap();
    db.insert(text("u"), text("k1"), text("{\"name\":\"Ann\",\"mail\":\"a@x\",\"age\":1}")).unwrap();
    db.insert(text("u"), text("k2"), text("{\"name\":\"Bob\",\"mail\":\"b@x\",\"age\":2}")).unwrap();
    db.insert(text("u"), text("k3"), text("{\"name\":\"Cid\",\"age\":3}")).unwrap();
    db.create_index(text("u"), text("name"), FieldType::String, true).unwrap();
    db.create_index(text("u"), text("age"), FieldType::Number, true).unwrap();
    db
}

#[test]
fn scan_goes_through_the_index_only_where_every_string_hint_is_indexed() {
    let mut db = indexed();
    let steps = explain_query(&mut db, text("SELECT * FROM u WHERE name = 'Bob'")).unwrap();
    assert_eq!(kinds(&steps), vec!["SetStorage", "IndexScan"]);
    assert_eq!(query(&mut db, "SELECT mail FROM u WHERE name = 'Bob'"), "{\"mail\":\"b@x\"}");

    let steps = explain_query(&mut db, text("SELECT * FROM u WHERE mail = 'b@x'")).unwrap();
    assert_eq!(kinds(&steps), vec!["SetStorage", "FullScan"]);
    let steps =
        explain_query(&mut db, text("SELECT * FROM u WHERE name = 'Bob' OR mail = 'a@x'")).unwrap();
    assert_eq!(kinds(&steps), vec!["SetStorage", "FullScan"]);
    assert_eq!(
        query(&mut db, "SELECT name FROM u WHERE name = 'Bob' OR mail = 'a@x'"),
        "{\"name\":\"Ann\"},{\"name\":\"Bob\"}"
    );

    let steps = explain_query(&mut db, text("SELECT * FROM u WHERE age = 2")).unwrap();
    assert_eq!(kinds(&steps), vec!["SetStorage", "FullScan"]);
    let steps = explain_query(&mut db, text("SELECT * FROM u WHERE name != 'Bob'")).unwrap();
    assert_eq!(kinds(&steps), vec!["SetStorage", "FullScan"]);
    let steps =
        explain_query(&mut db, text("SELECT * FROM u WHERE name = 'Bob' AND age = 2")).unwrap();
    assert_eq!(kinds(&steps), vec!["SetStorage", "FullScan"]);
    assert_eq!(query(&mut db, "SELECT name FROM u WHERE name = 'Bob' AND age = 2"), "{\"name\":\"Bob\"}");
}

#[test]
fn index_scan_walks_each_hinted_index_in_turn() {
    let mut db = indexed();
    db.create_index(text("u"), text("mail"), FieldType::String, true).unwrap();
    let steps =
        explain_query(&mut db, text("SELECT * FROM u WHERE mail = 'a@x' OR name = 'Cid'")).unwrap();
    assert_eq!(kinds(&steps), vec!["SetStorage", "IndexScan"]);
    assert_eq!(
        query(&mut db, "SELECT name FROM u WHERE mail = 'a@x' OR name = 'Cid'"),
        "{\"name\":\"Ann\"},{\"name\":\"Cid\"}"
    );
    assert_eq!(
        query(&mut db, "SELECT name FROM u WHERE name = 'Cid' OR mail = 'a@x'"),
        "{\"name\":\"Cid\"},{\"name\":\"Ann\"}"
    );
}

#[test]
fn string_hint_on_an_ordered_index_is_an_execution_error() {
    let mut db = indexed();
    assert!(matches!(
        handle_query(&mut db, text("SELECT * FROM u WHERE age = '2'")),
        Err(Error::ExecutionError(_))
    ));
}

#[test]
fn string_index_search_follows_the_order_of_the_index() {
    let mut db = indexed();
    db.delete(text("u"), text("k1")).unwrap();
    db.insert(text("u"), text("k9"), text("{\"name\":\"Ann\"}")).unwrap();
    let storage = db.get_storage(text("u")).unwrap();
    let index = storage.indexes.get_index(&text("name")).unwrap();
    let not_bob = Predicate::Text {
        column: text("name"),
        operator: Operator::NotEqual,
        literal: text("Bob"),
    };
    assert_eq!(
        db.string_index_search(text("u"), index, &text("name"), &not_bob).unwrap(),
        vec![text("{\"name\":\"Cid\",\"age\":3}"), text("{\"name\":\"Ann\"}")]
    );
    assert_eq!(
        db.string_index_search(text("u"), index, &text("other"), &not_bob).unwrap(),
        Vec::<String>::new()
    );
    assert!(matches!(
        db.string_index_search(text("zz"), index, &text("name"), &not_bob),
        Err(Error::StorageError(_))
    ));
    let ordered = storage.indexes.get_index(&text("age")).unwrap();
    assert_eq!(
        db.string_index_search(text("u"), ordered, &text("age"), &Predicate::Always).unwrap(),
        Vec::<String>::new()
    );

    let mut many = Index::new_hashmap();
    many.add_string(text("k3"), text("x")).unwrap();
    many.add_string(text("gone"), text("x")).unwrap();
    many.add_string(text("k2"), text("y")).unwrap();
    many.add_string(text("k9"), text("x")).unwrap();
    assert_eq!(
        db.string_index_search(text("u"), &many, &text("f"), &Predicate::Always).unwrap(),
        vec![
            text("{\"name\":\"Cid\",\"age\":3}"),
            text("{\"name\":\"Ann\"}"),
            text("{\"name\":\"Bob\",\"mail\":\"b@x\",\"age\":2}"),
        ]
    );
}

#[test]
fn predicate_on_a_single_field_value() {
    let p = Predicate::Or(
        Box::new(Predicate::Text {
            column: text("name"),
            operator: Operator::Equal,
            literal: text("a"),
        }),
        Box::new(Predicate::And(
            Box::new(Predicate::Text {
                column: text("mail"),
                operator: Operator::NotEqual,
                literal: text("b"),
            }),
            Box::new(Predicate::Always),
        )),
    );
    assert!(p.matches_field(&text("name"), &text("a")));
    assert!(!p.matches_field(&text("name"), &text("b")));
    assert!(p.matches_field(&text("mail"), &text("a")));
    assert!(!p.matches_field(&text("mail"), &text("b")));
    let n = Predicate::Number { column: text("name"), operator: Operator::Equal, literal: 1 };
    assert!(!n.matches_field(&text("name"), &text("1")));
    assert!(p.matches_value(&text("{\"name\":\"a\"}")));
    assert!(!p.matches_value(&text("{\"name\":\"b\"}")));
    assert!(p.matches_value(&text("{\"mail\":\"z\"}")));
    assert!(n.matches_value(&text("{\"name\":1}")));
    assert!(!n.matches_value(&text("{\"name\":1.0}")));
    assert!(!n.matches_value(&text("{\"name\":\"1\"}")));
}

#[test]
fn machine_needs_a_storage_before_it_reads_or_writes() {
    for instruction in [
        Instruction::Get { key: text("p1") },
        Instruction::SetValue { key: text("k"), value: text("v") },
        Instruction::GetJsonField { key: text("p1"), field: text("name") },
        Instruction::Scan {
            index_filter: Filter::Condition(Predicate::Always),
            full_scan_filter: Filter::Condition(Predicate::Always),
            string_fields_values: vec![],
            number_fields_values: vec![],
        },
    ] {
        let mut db = people();
        let before = db.clone();
        let mut vm = WitchVMKV::new();
        assert!(matches!(vm.execute(&mut db, vec![instruction]), Err(Error::ExecutionError(_))));
        assert_eq!(db, before);
    }
}

#[test]
fn get_and_set_instructions() {
    let mut db = people();
    let mut vm = WitchVMKV::new();
    let steps = vm
        .execute(
            &mut db,
            vec![
                Instruction::UseStorage { name: text("main") },
                Instruction::SetValue { key: text("new"), value: text("fresh") },
                Instruction::Get { key: text("new") },
                Instruction::Get { key: text("p4") },
                Instruction::GetJsonField { key: text("p1"), field: text("name") },
            ],
        )
        .unwrap();
    assert_eq!(steps, vec![ExplainStep::SetStorage(text("main"))]);
    assert_eq!(vm.into_output(), vec![text("fresh"), text("LALALA")]);
    assert_eq!(db.get(text("main"), text("new")).unwrap(), "fresh");
}

#[test]
fn first_error_ends_the_program() {
    let mut db = people();
    let mut vm = WitchVMKV::new();
    let result = vm.execute(
        &mut db,
        vec![
            Instruction::UseStorage { name: text("main") },
            Instruction::SetValue { key: text("a"), value: text("1") },
            Instruction::SetValue { key: text("p1"), value: text("clash") },
            Instruction::SetValue { key: text("b"), value: text("2") },
        ],
    );
    assert!(matches!(result, Err(Error::KeyAlreadyExists(_))));
    assert_eq!(db.get(text("main"), text("a")).unwrap(), "1");
    assert!(matches!(db.get(text("main"), text("b")), Err(Error::KeyNotFound(_))));

    let mut vm = WitchVMKV::new();
    let program = |instruction| vec![Instruction::UseStorage { name: text("main") }, instruction];
    assert!(matches!(
        vm.execute(&mut db, program(Instruction::Get { key: text("zz") })),
        Err(Error::KeyNotFound(_))
    ));
    for (key, field) in [("zz", "name"), ("p4", "name"), ("p1", "absent")] {
        let mut vm = WitchVMKV::new();
        assert!(matches!(
            vm.execute(
                &mut db,
                program(Instruction::GetJsonField { key: text(key), field: text(field) })
            ),
            Err(Error::ExecutionError(_))
        ));
    }
    let mut vm = WitchVMKV::new();
    assert!(matches!(
        vm.execute(
            &mut db,
            vec![
                Instruction::UseStorage { name: text("void") },
                Instruction::Get { key: text("p1") },
            ]
        ),
        Err(Error::StorageError(_))
    ));
}

#[test]
fn output_instructions_work_on_what_is_there() {
    let mut db = people();
    let mut vm = WitchVMKV::new();
    let steps = vm
        .execute(
            &mut db,
            vec![
                Instruction::UseStorage { name: text("main") },
                Instruction::Get { key: text("p3") },
                Instruction::Get { key: text("p1") },
                Instruction::Get { key: text("p2") },
                Instruction::SortOutput { field: text("age") },
                Instruction::MapOutput { map_fn: Projection { fields: vec![text("age")] } },
                Instruction::SetOffset { count: 1 },
                Instruction::SetLimit { count: 5 },
            ],
        )
        .unwrap();
    assert_eq!(kinds(&steps), vec!["SetStorage", "SortOutput", "MapOutput", "Offset", "Limit"]);
    assert_eq!(vm.into_output(), vec![text("{\"age\":30}"), text("{\"age\":40}")]);
}
