use witchdb::graph::cypher::{
    Expression, Lexer, MatchClause, Parser, Pattern, Property, Query, ReturnClause, ReturnItem,
    Token, Value,
};

#[test]
fn test_lexer() {
    let input = "MATCH (keanu:Person {name:'Keanu Reeves'}) RETURN keanu.name AS name";
    let mut lexer = Lexer::new(input);

    let expected_tokens = vec![
        Token::Match,
        Token::LeftParen,
        Token::Identifier("keanu".to_string()),
        Token::Colon,
        Token::Identifier("Person".to_string()),
        Token::LeftBrace,
        Token::Identifier("name".to_string()),
        Token::Colon,
        Token::String("Keanu Reeves".to_string()),
        Token::RightBrace,
        Token::RightParen,
        Token::Return,
        Token::Identifier("keanu".to_string()),
        Token::Dot,
        Token::Identifier("name".to_string()),
        Token::As,
        Token::Identifier("name".to_string()),
        Token::EOF,
    ];

    for expected in expected_tokens {
        let token = lexer.next_token();
        assert_eq!(token, expected);
    }
}

#[test]
fn test_parser() {
    let input = "MATCH (keanu:Person {name:'Keanu Reeves'}) RETURN keanu.name AS name, keanu.born AS born";
    let mut parser = Parser::new(input);
    let query = parser.parse_query().unwrap();

    // Verify match clause
    assert_eq!(query.match_clause.patterns.len(), 1);
    let pattern = &query.match_clause.patterns[0];
    assert_eq!(pattern.variable, "keanu");
    assert_eq!(pattern.labels, vec!["Person"]);
    assert_eq!(pattern.properties.len(), 1);
    assert_eq!(pattern.properties[0].key, "name");
    assert_eq!(
        pattern.properties[0].value,
        Value::String("Keanu Reeves".to_string())
    );

    // Verify return clause
    assert_eq!(query.return_clause.items.len(), 2);

    let first_item = &query.return_clause.items[0];
    match &first_item.expression {
        Expression::Property { variable, property } => {
            assert_eq!(variable, "keanu");
            assert_eq!(property, "name");
        }
        _ => panic!("Expected property expression"),
    }
    assert_eq!(first_item.alias, Some("name".to_string()));

    let second_item = &query.return_clause.items[1];
    match &second_item.expression {
        Expression::Property { variable, property } => {
            assert_eq!(variable, "keanu");
            assert_eq!(property, "born");
        }
        _ => panic!("Expected property expression"),
    }
    assert_eq!(second_item.alias, Some("born".to_string()));
}

fn text(s: &str) -> String {
    s.to_string()
}

fn all_tokens(input: &str) -> Vec<Token> {
    let mut lexer = Lexer::new(input);
    let mut tokens = Vec::new();
    loop {
        let token = lexer.next_token();
        let done = token == Token::EOF;
        tokens.push(token);
        if done {
            return tokens;
        }
    }
}

#[test]
fn graph_keywords_in_any_case_and_every_symbol() {
    assert_eq!(
        all_tokens("match Return aS WHERE ( ) { } : , ."),
        vec![
            Token::Match,
            Token::Return,
            Token::As,
            Token::Where,
            Token::LeftParen,
            Token::RightParen,
            Token::LeftBrace,
            Token::RightBrace,
            Token::Colon,
            Token::Comma,
            Token::Dot,
            Token::EOF,
        ]
    );
}

#[test]
fn graph_lexer_edges() {
    assert_eq!(all_tokens(""), vec![Token::EOF]);
    assert_eq!(all_tokens(" \t\n"), vec![Token::EOF]);
    assert_eq!(all_tokens("a1_b c"), vec![Token::Identifier(text("a1_b")), Token::Identifier(text("c")), Token::EOF]);
    assert_eq!(all_tokens("_a"), vec![Token::EOF]);
    assert_eq!(all_tokens("a 1"), vec![Token::Identifier(text("a")), Token::EOF]);
    assert_eq!(all_tokens("'open"), vec![Token::String(text("open")), Token::EOF]);
    assert_eq!(all_tokens("'' x"), vec![Token::String(text("")), Token::Identifier(text("x")), Token::EOF]);
    assert_eq!(all_tokens("\u{00e9}t\u{00e9}"), vec![Token::Identifier(text("\u{00e9}t\u{00e9}")), Token::EOF]);

    let mut lexer = Lexer::new("a\u{0}b");
    assert_eq!(lexer.next_token(), Token::Identifier(text("a")));
    assert_eq!(lexer.next_token(), Token::EOF);
    assert_eq!(lexer.next_token(), Token::EOF);
    assert_eq!(lexer.position, 1);

    let mut lexer = Lexer::new("ab");
    assert_eq!(lexer.current, 'a');
    assert_eq!(lexer.peek(), 'b');
    lexer.advance();
    assert_eq!(lexer.current, 'b');
    assert_eq!(lexer.peek(), '\0');
    lexer.advance();
    assert_eq!(lexer.current, '\0');
    lexer.advance();
    assert_eq!(lexer.position, 2);
}

fn parse(input: &str) -> Result<Query, String> {
    Parser::new(input).parse_query()
}

#[test]
fn graph_query_with_every_part() {
    let query = parse(
        "MATCH (a:Person:Actor {name: 'Al', city: 'Rome',}), (b), (c: {}) RETURN a, b.name, c AS see",
    )
    .unwrap();
    assert_eq!(
        query,
        Query {
            match_clause: MatchClause {
                patterns: vec![
                    Pattern {
                        variable: text("a"),
                        labels: vec![text("Person"), text("Actor")],
                        properties: vec![
                            Property { key: text("name"), value: Value::String(text("Al")) },
                            Property { key: text("city"), value: Value::String(text("Rome")) },
                        ],
                    },
                    Pattern { variable: text("b"), labels: vec![], properties: vec![] },
                    Pattern { variable: text("c"), labels: vec![], properties: vec![] },
                ],
            },
            return_clause: ReturnClause {
                items: vec![
                    ReturnItem { expression: Expression::Variable(text("a")), alias: None },
                    ReturnItem {
                        expression: Expression::Property {
                            variable: text("b"),
                            property: text("name"),
                        },
                        alias: None,
                    },
                    ReturnItem {
                        expression: Expression::Variable(text("c")),
                        alias: Some(text("see")),
                    },
                ],
            },
        }
    );
}

#[test]
fn graph_queries_that_do_not_parse() {
    assert_eq!(parse("MATCH (a) RETURN").unwrap_err(), "Expected identifier");
    assert_eq!(parse("MATCH () RETURN a").unwrap_err(), "Expected identifier");
    assert_eq!(parse("MATCH (a {1}) RETURN a").unwrap_err(), "Expected property key");
    assert_eq!(parse("MATCH (a {k: }) RETURN a").unwrap_err(), "Expected property value");
    assert_eq!(parse("MATCH (a {k: 'v'").unwrap_err(), "Expected property key");
    assert_eq!(parse("MATCH (a) RETURN a.").unwrap_err(), "Expected property name");
    assert_eq!(parse("MATCH (a) RETURN a AS").unwrap_err(), "Expected identifier after AS");
    assert_eq!(parse("MATCH (a) RETURN a,").unwrap_err(), "Expected identifier");
    for input in ["", "RETURN a", "MATCH a RETURN a", "MATCH (a RETURN a", "MATCH (a)", "MATCH (a), RETURN a", "MATCH (a {k 'v'}) RETURN a"] {
        let error = parse(input).unwrap_err();
        assert!(error.starts_with("Expected "), "input {:?} gave {:?}", input, error);
    }
}

#[test]
fn graph_query_ignores_what_follows() {
    assert_eq!(parse("MATCH (a) RETURN a WHERE junk").unwrap(), parse("MATCH (a) RETURN a").unwrap());
}
