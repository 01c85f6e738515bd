use witchdb::error::Error;
use witchdb::sql::parser::whole_number;
use witchdb::sql::{
    AstNode, CodeGenerator, FieldExpression, Lexer, LiteralValue, Operator, Parser, Token,
};
use witchdb::witchvm_kv::{Filter, Instruction, Predicate, Projection};

fn text(s: &str) -> String {
    s.to_string()
}

fn tokens(query: &str) -> Vec<Token> {
    Lexer::new(query).tokenize()
}

fn ident(s: &str) -> Token {
    Token::Identifier(text(s))
}

fn parse(query: &str) -> Result<AstNode, Error> {
    Parser::new(tokens(query)).parse()
}

fn compile(query: &str) -> Result<Vec<Instruction>, Error> {
    let ast = parse(query)?;
    let mut generator = CodeGenerator::new();
    generator.generate(&ast)?;
    Ok(generator.instructions)
}

fn column(name: &str) -> Box<AstNode> {
    Box::new(AstNode::Column(text(name)))
}

fn number(digits: &str) -> Box<AstNode> {
    Box::new(AstNode::Literal(LiteralValue::Number(text(digits))))
}

fn string(value: &str) -> Box<AstNode> {
    Box::new(AstNode::Literal(LiteralValue::String(text(value))))
}

fn compare(name: &str, operator: Operator, right: Box<AstNode>) -> AstNode {
    AstNode::BinaryOp { left: column(name), operator, right }
}

#[test]
fn keywords_are_recognised_in_any_case() {
    assert_eq!(
        tokens("select FROM wHeRe And OR order By limit OFFSET"),
        vec![
            Token::Select,
            Token::From,
            Token::Where,
            Token::And,
            Token::Or,
            Token::Order,
            Token::By,
            Token::Limit,
            Token::Offset,
            Token::Eof,
        ]
    );
}

#[test]
fn symbols_and_composed_symbols() {
    assert_eq!(
        tokens("* , > < = ! >= <= != <>"),
        vec![
            Token::Asterisk,
            Token::Comma,
            Token::GreaterThan,
            Token::LessThan,
            Token::Equal,
            Token::Not,
            Token::GreaterThanEqual,
            Token::LessThanEqual,
            Token::NotEqual,
            Token::NotEqual,
            Token::Eof,
        ]
    );
    assert_eq!(
        tokens("a>=1"),
        vec![ident("a"), Token::GreaterThanEqual, Token::Number(text("1")), Token::Eof]
    );
    assert_eq!(tokens("<"), vec![Token::LessThan, Token::Eof]);
    assert_eq!(tokens("!"), vec![Token::Not, Token::Eof]);
}

#[test]
fn identifiers_numbers_and_strings() {
    assert_eq!(
        tokens("_name1 user_2 12 3.75 4.5.6 'it is' ''"),
        vec![
            ident("_name1"),
            ident("user_2"),
            Token::Number(text("12")),
            Token::Number(text("3.75")),
            Token::Number(text("4.5")),
            Token::Eof,
        ]
    );
    assert_eq!(
        tokens("'it is' '' 'a b'"),
        vec![
            Token::String(text("it is")),
            Token::String(text("")),
            Token::String(text("a b")),
            Token::Eof,
        ]
    );
    assert_eq!(tokens("selected"), vec![ident("selected"), Token::Eof]);
    assert_eq!(tokens("na\u{00ef}ve"), vec![ident("na\u{00ef}ve"), Token::Eof]);
}

#[test]
fn whitespace_of_every_sort_separates_tokens() {
    assert_eq!(
        tokens("\tSELECT\n*\r\nFROM\u{00a0}t  "),
        vec![Token::Select, Token::Asterisk, Token::From, ident("t"), Token::Eof]
    );
    assert_eq!(tokens(""), vec![Token::Eof]);
    assert_eq!(tokens("   "), vec![Token::Eof]);
}

#[test]
fn unknown_character_ends_the_stream() {
    assert_eq!(tokens("SELECT # FROM t"), vec![Token::Select, Token::Eof]);
    assert_eq!(tokens("a - b"), vec![ident("a"), Token::Eof]);
}

#[test]
fn unterminated_string_runs_to_the_end_of_input() {
    assert_eq!(
        tokens("name = 'Jo hn"),
        vec![ident("name"), Token::Equal, Token::String(text("Jo hn")), Token::Eof]
    );
}

#[test]
fn next_token_walks_the_input() {
    let mut lexer = Lexer::new("a  , 'b'");
    assert_eq!(lexer.next_token(), ident("a"));
    assert_eq!(lexer.position, 1);
    assert_eq!(lexer.next_token(), Token::Comma);
    assert_eq!(lexer.next_token(), Token::String(text("b")));
    assert_eq!(lexer.position, 8);
    assert_eq!(lexer.next_token(), Token::Eof);
    assert_eq!(lexer.next_token(), Token::Eof);
    assert_eq!(lexer.position, 8);
}

#[test]
fn whole_part_of_a_written_number() {
    assert_eq!(whole_number("0", u64::MAX), 0);
    assert_eq!(whole_number("42", u64::MAX), 42);
    assert_eq!(whole_number("007", u64::MAX), 7);
    assert_eq!(whole_number("12.99", u64::MAX), 12);
    assert_eq!(whole_number("18446744073709551615", u64::MAX), u64::MAX);
    assert_eq!(whole_number("18446744073709551616", u64::MAX), u64::MAX);
    assert_eq!(whole_number("99999999999999999999999", u64::MAX), u64::MAX);
    assert_eq!(whole_number("9223372036854775807", i64::MAX as u64), i64::MAX as u64);
    assert_eq!(whole_number("9223372036854775808", i64::MAX as u64), i64::MAX as u64);
    assert_eq!(whole_number("", u64::MAX), 0);
}

#[test]
fn select_star() {
    assert_eq!(
        parse("SELECT * FROM main").unwrap(),
        AstNode::Select {
            fields: vec![FieldExpression::AllColumns],
            from: text("main"),
            where_clause: None,
            order_by: None,
            limit: None,
            offset: None,
        }
    );
}

#[test]
fn full_query_with_every_clause() {
    let ast = parse(
        "SELECT name, age FROM people WHERE age >= 30 AND name != 'Bob' OR age < 5 \
         ORDER BY name LIMIT 10 OFFSET 3",
    )
    .unwrap();
    let first = compare("age", Operator::GreaterThanEqual, number("30"));
    let second = compare("name", Operator::NotEqual, string("Bob"));
    let third = compare("age", Operator::LessThan, number("5"));
    let conjunction = AstNode::BinaryOp {
        left: Box::new(first),
        operator: Operator::And,
        right: Box::new(second),
    };
    let condition = AstNode::BinaryOp {
        left: Box::new(conjunction),
        operator: Operator::Or,
        right: Box::new(third),
    };
    assert_eq!(
        ast,
        AstNode::Select {
            fields: vec![
                FieldExpression::Field(text("name")),
                FieldExpression::Field(text("age")),
            ],
            from: text("people"),
            where_clause: Some(Box::new(condition)),
            order_by: Some(text("name")),
            limit: Some(10),
            offset: Some(3),
        }
    );
}

#[test]
fn limit_and_offset_in_either_order() {
    let a = parse("SELECT * FROM t OFFSET 1 LIMIT 2").unwrap();
    let b = parse("SELECT * FROM t LIMIT 2 OFFSET 1").unwrap();
    assert_eq!(a, b);
    match parse("SELECT * FROM t LIMIT 2.9").unwrap() {
        AstNode::Select { limit, offset, .. } => {
            assert_eq!(limit, Some(2));
            assert_eq!(offset, None);
        }
        other => panic!("unexpected {:?}", other),
    }
    match parse("SELECT * FROM t LIMIT 1 LIMIT 5").unwrap() {
        AstNode::Select { limit, .. } => assert_eq!(limit, Some(1)),
        other => panic!("unexpected {:?}", other),
    }
}

#[test]
fn every_comparison_operator_parses() {
    for (symbol, operator) in [
        (">", Operator::GreaterThan),
        (">=", Operator::GreaterThanEqual),
        ("<", Operator::LessThan),
        ("<=", Operator::LessThanEqual),
        ("=", Operator::Equal),
        ("!=", Operator::NotEqual),
        ("<>", Operator::NotEqual),
    ] {
        match parse(&format!("SELECT * FROM t WHERE a {} 1", symbol)).unwrap() {
            AstNode::Select { where_clause: Some(condition), .. } => {
                assert_eq!(*condition, compare("a", operator, number("1")))
            }
            other => panic!("unexpected {:?}", other),
        }
    }
}

#[test]
fn malformed_queries_are_syntax_errors() {
    for query in [
        "",
        "FROM t",
        "SELECT",
        "SELECT FROM t",
        "SELECT * t",
        "SELECT * FROM",
        "SELECT * FROM 'main'",
        "SELECT name, FROM t",
        "SELECT name, * FROM t",
        "SELECT *, name FROM t",
        "SELECT * FROM t WHERE",
        "SELECT * FROM t WHERE a",
        "SELECT * FROM t WHERE a =",
        "SELECT * FROM t WHERE a ! 1",
        "SELECT * FROM t WHERE 1 = a",
        "SELECT * FROM t WHERE a = b",
        "SELECT * FROM t WHERE a = 1 AND",
        "SELECT * FROM t WHERE a = 1 OR b",
        "SELECT * FROM t ORDER name",
        "SELECT * FROM t ORDER BY",
        "SELECT * FROM t ORDER BY 'x'",
        "SELECT * FROM t LIMIT",
        "SELECT * FROM t LIMIT x",
        "SELECT * FROM t OFFSET 'a'",
    ] {
        assert!(
            matches!(parse(query), Err(Error::SyntaxError(_))),
            "query {:?} must not parse",
            query
        );
    }
}

#[test]
fn what_follows_the_query_is_not_read() {
    assert_eq!(parse("SELECT * FROM t garbage here").unwrap(), parse("SELECT * FROM t").unwrap());
}

#[test]
fn program_of_a_plain_select() {
    assert_eq!(
        compile("SELECT * FROM main").unwrap(),
        vec![
            Instruction::UseStorage { name: text("main") },
            Instruction::Scan {
                index_filter: Filter::Condition(Predicate::Always),
                full_scan_filter: Filter::Condition(Predicate::Always),
                string_fields_values: vec![],
                number_fields_values: vec![],
            },
        ]
    );
}

#[test]
fn program_emits_map_sort_offset_limit_in_that_order() {
    let program = compile("SELECT b, a FROM t ORDER BY a LIMIT 7 OFFSET 2").unwrap();
    assert_eq!(program.len(), 6);
    assert_eq!(program[0], Instruction::UseStorage { name: text("t") });
    assert!(matches!(program[1], Instruction::Scan { .. }));
    assert_eq!(
        program[2],
        Instruction::MapOutput { map_fn: Projection { fields: vec![text("b"), text("a")] } }
    );
    assert_eq!(program[3], Instruction::SortOutput { field: text("a") });
    assert_eq!(program[4], Instruction::SetOffset { count: 2 });
    assert_eq!(program[5], Instruction::SetLimit { count: 7 });
}

#[test]
fn hints_come_from_equalities_under_or_only() {
    match &compile("SELECT * FROM t WHERE name = 'a' OR age = 5 OR city != 'x' OR n > 3").unwrap()[1] {
        Instruction::Scan { string_fields_values, number_fields_values, .. } => {
            assert_eq!(string_fields_values, &vec![(text("name"), text("a"))]);
            assert_eq!(number_fields_values, &vec![(text("age"), 5i64)]);
        }
        other => panic!("unexpected {:?}", other),
    }
    match &compile("SELECT * FROM t WHERE name = 'a' AND age = 5").unwrap()[1] {
        Instruction::Scan { string_fields_values, number_fields_values, .. } => {
            assert!(string_fields_values.is_empty());
            assert!(number_fields_values.is_empty());
        }
        other => panic!("unexpected {:?}", other),
    }
    match &compile("SELECT * FROM t WHERE a = 'x' AND b = 'y' OR c = 'z'").unwrap()[1] {
        Instruction::Scan { string_fields_values, .. } => {
            assert_eq!(string_fields_values, &vec![(text("c"), text("z"))]);
        }
        other => panic!("unexpected {:?}", other),
    }
}

#[test]
fn scan_carries_the_condition_as_a_predicate() {
    let expected = Predicate::Or(
        Box::new(Predicate::And(
            Box::new(Predicate::Number {
                column: text("age"),
                operator: Operator::GreaterThanEqual,
                literal: 30,
            }),
            Box::new(Predicate::Text {
                column: text("name"),
                operator: Operator::Equal,
                literal: text("Al"),
            }),
        )),
        Box::new(Predicate::Number {
            column: text("n"),
            operator: Operator::LessThan,
            literal: 2,
        }),
    );
    match &compile("SELECT * FROM t WHERE age >= 30 AND name = 'Al' OR n < 2.5").unwrap()[1] {
        Instruction::Scan { index_filter, full_scan_filter, .. } => {
            assert_eq!(index_filter.condition(), &expected);
            assert_eq!(full_scan_filter.condition(), &expected);
        }
        other => panic!("unexpected {:?}", other),
    }
}

#[test]
fn generator_rejects_trees_that_are_no_queries() {
    let mut generator = CodeGenerator::new();
    assert!(matches!(
        generator.generate(&AstNode::Column(text("a"))),
        Err(Error::QueryError(_))
    ));
    let twisted = AstNode::Select {
        fields: vec![FieldExpression::AllColumns],
        from: text("t"),
        where_clause: Some(Box::new(AstNode::BinaryOp {
            left: number("1"),
            operator: Operator::Equal,
            right: column("a"),
        })),
        order_by: None,
        limit: None,
        offset: None,
    };
    assert!(matches!(generator.generate(&twisted), Err(Error::QueryError(_))));
    let bare = AstNode::Select {
        fields: vec![FieldExpression::AllColumns],
        from: text("t"),
        where_clause: Some(column("a")),
        order_by: None,
        limit: None,
        offset: None,
    };
    assert!(matches!(generator.generate(&bare), Err(Error::QueryError(_))));
    assert!(generator.instructions.is_empty());
}

#[test]
fn generator_rejects_bad_select_lists() {
    let mut generator = CodeGenerator::new();
    let select = |fields: Vec<FieldExpression>| AstNode::Select {
        fields,
        from: text("t"),
        where_clause: None,
        order_by: None,
        limit: None,
        offset: None,
    };
    assert!(matches!(generator.generate(&select(vec![])), Err(Error::SyntaxError(_))));
    assert!(matches!(
        generator.generate(&select(vec![
            FieldExpression::Field(text("a")),
            FieldExpression::AllColumns,
        ])),
        Err(Error::SyntaxError(_))
    ));
    assert!(matches!(
        generator.generate(&select(vec![
            FieldExpression::AllColumns,
            FieldExpression::AllColumns,
        ])),
        Err(Error::SyntaxError(_))
    ));
    assert!(generator.instructions.is_empty());
    assert!(generator.generate(&select(vec![FieldExpression::AllColumns])).is_ok());
    assert_eq!(generator.instructions.len(), 2);
}
