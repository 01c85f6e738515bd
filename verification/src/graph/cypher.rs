//! A fragment of the Cypher graph query language: `MATCH` patterns and a
//! `RETURN` clause.
//!
//! ```text
//! query    := MATCH pattern ("," pattern)* RETURN item ("," item)*
//! pattern  := "(" Identifier (":" Identifier?)* ("{" (property ","?)* "}")? ")"
//! property := Identifier ":" (String | Number)
//! item     := Identifier ("." Identifier)? (AS Identifier)?
//! ```
//!
//! What follows the query is not read.

use vstd::prelude::*;
use vstd::string::*;
use crate::sql::{skip_spaces, word_end};
use crate::text::{
    join3, join5, char_is_alphabetic, chars_of, is_alphabetic, is_alphanumeric, is_whitespace, text_of,
    to_uppercase, uppercase_text,
};

verus! {

/// A token of the query language.
#[derive(Debug, PartialEq, Clone)]
pub enum Token {
    Match,
    Return,
    As,
    Where,
    LeftParen,
    RightParen,
    LeftBrace,
    RightBrace,
    Colon,
    Comma,
    Dot,
    Identifier(String),
    String(String),
    /// A number as it was written.
    Number(String),
    /// The end of the input, or a character that starts no token.
    EOF,
}

/// The mathematical value of a [`Token`].
pub enum TokenView {
    Match,
    Return,
    As,
    Where,
    LeftParen,
    RightParen,
    LeftBrace,
    RightBrace,
    Colon,
    Comma,
    Dot,
    Identifier(Seq<char>),
    String(Seq<char>),
    Number(Seq<char>),
    EOF,
}

impl View for Token {
    type V = TokenView;

    open spec fn view(&self) -> TokenView {
        match self {
            Token::Match => TokenView::Match,
            Token::Return => TokenView::Return,
            Token::As => TokenView::As,
            Token::Where => TokenView::Where,
            Token::LeftParen => TokenView::LeftParen,
            Token::RightParen => TokenView::RightParen,
            Token::LeftBrace => TokenView::LeftBrace,
            Token::RightBrace => TokenView::RightBrace,
            Token::Colon => TokenView::Colon,
            Token::Comma => TokenView::Comma,
            Token::Dot => TokenView::Dot,
            Token::Identifier(name) => TokenView::Identifier(name@),
            Token::String(text) => TokenView::String(text@),
            Token::Number(digits) => TokenView::Number(digits@),
            Token::EOF => TokenView::EOF,
        }
    }
}

/// The scanner of one query text.
pub struct Lexer {
    /// The characters of the text.
    pub input: Vec<char>,
    /// The place of the current character; the length of the text once the
    /// text is used up.
    pub position: usize,
    /// The current character; the NUL character once the text is used up.
    pub current: char,
}

/// A query: what to match, and what to return of it.
#[derive(Debug, PartialEq, Clone)]
pub struct Query {
    pub match_clause: MatchClause,
    pub return_clause: ReturnClause,
}

/// The patterns of a `MATCH` clause.
#[derive(Debug, PartialEq, Clone)]
pub struct MatchClause {
    pub patterns: Vec<Pattern>,
}

/// A node pattern: a variable with labels and properties.
#[derive(Debug, PartialEq, Clone)]
pub struct Pattern {
    pub variable: String,
    pub labels: Vec<String>,
    pub properties: Vec<Property>,
}

/// A property of a node pattern.
#[derive(Debug, PartialEq, Clone)]
pub struct Property {
    pub key: String,
    pub value: Value,
}

/// The value of a property.
#[derive(Debug, PartialEq, Clone)]
pub enum Value {
    String(String),
    /// A number as it was written.
    Number(String),
    Boolean(bool),
}

/// The items of a `RETURN` clause.
#[derive(Debug, PartialEq, Clone)]
pub struct ReturnClause {
    pub items: Vec<ReturnItem>,
}

/// An item of a `RETURN` clause: an expression, and the name it is
/// returned under where it is given one.
#[derive(Debug, PartialEq, Clone)]
pub struct ReturnItem {
    pub expression: Expression,
    pub alias: Option<String>,
}

/// What a `RETURN` item returns: a variable, or a property of one.
#[derive(Debug, PartialEq, Clone)]
pub enum Expression {
    Property { variable: String, property: String },
    Variable(String),
}

/// The mathematical value of a [`Value`].
pub enum ValueView {
    String(Seq<char>),
    Number(Seq<char>),
    Boolean(bool),
}

/// The mathematical value of a [`Property`].
pub struct PropertyView {
    pub key: Seq<char>,
    pub value: ValueView,
}

/// The mathematical value of a [`Pattern`].
pub struct PatternView {
    pub variable: Seq<char>,
    pub labels: Seq<Seq<char>>,
    pub properties: Seq<PropertyView>,
}

/// The mathematical value of an [`Expression`].
pub enum ExpressionView {
    Property { variable: Seq<char>, property: Seq<char> },
    Variable(Seq<char>),
}

/// The mathematical value of a [`ReturnItem`].
pub struct ReturnItemView {
    pub expression: ExpressionView,
    pub alias: Option<Seq<char>>,
}

/// The mathematical value of a [`Query`].
pub struct QueryView {
    pub patterns: Seq<PatternView>,
    pub items: Seq<ReturnItemView>,
}

impl View for Value {
    type V = ValueView;

    open spec fn view(&self) -> ValueView {
        match self {
            Value::String(text) => ValueView::String(text@),
            Value::Number(digits) => ValueView::Number(digits@),
            Value::Boolean(b) => ValueView::Boolean(*b),
        }
    }
}

impl View for Property {
    type V = PropertyView;

    open spec fn view(&self) -> PropertyView {
        PropertyView { key: self.key@, value: self.value@ }
    }
}

impl View for Pattern {
    type V = PatternView;

    open spec fn view(&self) -> PatternView {
        PatternView {
            variable: self.variable@,
            labels: label_views(self.labels@),
            properties: property_views(self.properties@),
        }
    }
}

impl View for Expression {
    type V = ExpressionView;

    open spec fn view(&self) -> ExpressionView {
        match self {
            Expression::Property { variable, property } => ExpressionView::Property {
                variable: variable@,
                property: property@,
            },
            Expression::Variable(variable) => ExpressionView::Variable(variable@),
        }
    }
}

impl View for ReturnItem {
    type V = ReturnItemView;

    open spec fn view(&self) -> ReturnItemView {
        ReturnItemView {
            expression: self.expression@,
            alias: match self.alias {
                Some(name) => Some(name@),
                None => None,
            },
        }
    }
}

impl View for Query {
    type V = QueryView;

    open spec fn view(&self) -> QueryView {
        QueryView {
            patterns: pattern_views(self.match_clause.patterns@),
            items: item_views(self.return_clause.items@),
        }
    }
}

/// The parser of one query: a lexer and the token that it read last.
pub struct Parser {
    pub lexer: Lexer,
    pub current_token: Token,
}

/// Where a parser stands: at a token, with the rest of the text from a
/// place on.
pub struct Cursor {
    pub token: TokenView,
    pub pos: int,
}

/// The character at the place; the NUL character behind the text.
pub open spec fn char_at(input: Seq<char>, pos: int) -> char {
    if 0 <= pos < input.len() {
        input[pos]
    } else {
        '\0'
    }
}

/// The first place from `pos` on that holds a single quote or the NUL
/// character, or the end of the input.
pub open spec fn literal_end(input: Seq<char>, pos: int) -> int
    decreases input.len() - pos,
{
    if 0 <= pos < input.len() && input[pos] != '\'' && input[pos] != '\0' {
        literal_end(input, pos + 1)
    } else {
        pos
    }
}

/// The token that a word is: a keyword, whatever its case, or an
/// identifier.
pub open spec fn word_token(word: Seq<char>) -> TokenView {
    let upper = uppercase_text(word);
    if upper == "MATCH"@ {
        TokenView::Match
    } else if upper == "RETURN"@ {
        TokenView::Return
    } else if upper == "AS"@ {
        TokenView::As
    } else if upper == "WHERE"@ {
        TokenView::Where
    } else {
        TokenView::Identifier(word)
    }
}

/// The place behind the character at `pos`, or the end of the input.
pub open spec fn step_from(input: Seq<char>, pos: int) -> int {
    if pos < input.len() {
        pos + 1
    } else {
        pos
    }
}

/// The token that starts at the first place from `pos` on that holds no
/// white space, and the place behind it. At the end of the input, and at a
/// NUL character, that is `EOF` at that place; for any other character
/// that starts no token it is `EOF` one place on.
pub open spec fn token_at(input: Seq<char>, pos: int) -> (TokenView, int) {
    let start = skip_spaces(input, pos);
    let c = char_at(input, start);
    if c == '\0' {
        (TokenView::EOF, start)
    } else if c == '(' {
        (TokenView::LeftParen, start + 1)
    } else if c == ')' {
        (TokenView::RightParen, start + 1)
    } else if c == '{' {
        (TokenView::LeftBrace, start + 1)
    } else if c == '}' {
        (TokenView::RightBrace, start + 1)
    } else if c == ':' {
        (TokenView::Colon, start + 1)
    } else if c == ',' {
        (TokenView::Comma, start + 1)
    } else if c == '.' {
        (TokenView::Dot, start + 1)
    } else if c == '\'' {
        let end = literal_end(input, start + 1);
        (TokenView::String(input.subrange(start + 1, end)), step_from(input, end))
    } else if char_is_alphabetic(c) {
        let end = word_end(input, start + 1);
        (word_token(input.subrange(start, end)), end)
    } else {
        (TokenView::EOF, start + 1)
    }
}

/// The values of the labels.
pub open spec fn label_views(labels: Seq<String>) -> Seq<Seq<char>> {
    Seq::new(labels.len(), |i: int| labels[i]@)
}

/// The values of the properties.
pub open spec fn property_views(properties: Seq<Property>) -> Seq<PropertyView> {
    Seq::new(properties.len(), |i: int| properties[i]@)
}

/// The values of the patterns.
pub open spec fn pattern_views(patterns: Seq<Pattern>) -> Seq<PatternView> {
    Seq::new(patterns.len(), |i: int| patterns[i]@)
}

/// The values of the items.
pub open spec fn item_views(items: Seq<ReturnItem>) -> Seq<ReturnItemView> {
    Seq::new(items.len(), |i: int| items[i]@)
}

/// The cursor one token on.
pub open spec fn advanced(input: Seq<char>, cursor: Cursor) -> Cursor {
    Cursor { token: token_at(input, cursor.pos).0, pos: token_at(input, cursor.pos).1 }
}

/// How much of the way a cursor has before it: the text that is left, and
/// one more step unless the cursor stands at the end.
pub open spec fn way_left(input: Seq<char>, cursor: Cursor) -> int {
    2 * (input.len() - cursor.pos) + if cursor.token is EOF {
        0int
    } else {
        1int
    }
}

/// The name that a token writes.
pub open spec fn name_of(token: TokenView) -> Option<Seq<char>> {
    match token {
        TokenView::Identifier(name) => Some(name),
        _ => None,
    }
}

/// The expression at the cursor, and the cursor behind it.
pub open spec fn expression_at(input: Seq<char>, cursor: Cursor) -> Option<(ExpressionView, Cursor)> {
    match name_of(cursor.token) {
        None => None,
        Some(variable) => {
            let second = advanced(input, cursor);
            if second.token is Dot {
                let third = advanced(input, second);
                match name_of(third.token) {
                    Some(property) => Some(
                        (ExpressionView::Property { variable, property }, advanced(input, third)),
                    ),
                    None => None,
                }
            } else {
                Some((ExpressionView::Variable(variable), second))
            }
        },
    }
}

/// The `RETURN` item at the cursor, and the cursor behind it.
pub open spec fn item_at(input: Seq<char>, cursor: Cursor) -> Option<(ReturnItemView, Cursor)> {
    match expression_at(input, cursor) {
        None => None,
        Some((expression, after)) => if after.token is As {
            let named = advanced(input, after);
            match name_of(named.token) {
                Some(alias) => Some(
                    (ReturnItemView { expression, alias: Some(alias) }, advanced(input, named)),
                ),
                None => None,
            }
        } else {
            Some((ReturnItemView { expression, alias: None }, after))
        },
    }
}

/// The `RETURN` items from the cursor on, behind those already read: one
/// item, and one more behind each comma.
pub open spec fn items_from(input: Seq<char>, items: Seq<ReturnItemView>, cursor: Cursor) -> Option<
    Seq<ReturnItemView>,
>
    decreases way_left(input, cursor),
{
    match item_at(input, cursor) {
        None => None,
        Some((item, after)) => if after.token is Comma {
            let next = advanced(input, after);
            if 0 <= way_left(input, next) < way_left(input, cursor) {
                items_from(input, items.push(item), next)
            } else {
                None
            }
        } else {
            Some(items.push(item))
        },
    }
}

/// The property at the cursor, and the cursor behind it.
pub open spec fn property_at(input: Seq<char>, cursor: Cursor) -> Option<(PropertyView, Cursor)> {
    match name_of(cursor.token) {
        None => None,
        Some(key) => {
            let colon = advanced(input, cursor);
            if colon.token is Colon {
                let valued = advanced(input, colon);
                match valued.token {
                    TokenView::String(text) => Some(
                        (
                            PropertyView { key, value: ValueView::String(text) },
                            advanced(input, valued),
                        ),
                    ),
                    TokenView::Number(digits) => Some(
                        (
                            PropertyView { key, value: ValueView::Number(digits) },
                            advanced(input, valued),
                        ),
                    ),
                    _ => None,
                }
            } else {
                None
            }
        },
    }
}

/// The labels from the cursor on, behind those already read: behind each
/// colon a label, or nothing.
pub open spec fn labels_from(input: Seq<char>, labels: Seq<Seq<char>>, cursor: Cursor) -> (
    Seq<Seq<char>>,
    Cursor,
)
    decreases way_left(input, cursor),
{
    if cursor.token is Colon {
        let next = advanced(input, cursor);
        let named = match name_of(next.token) {
            Some(label) => (labels.push(label), advanced(input, next)),
            None => (labels, next),
        };
        if 0 <= way_left(input, named.1) < way_left(input, cursor) {
            labels_from(input, named.0, named.1)
        } else {
            named
        }
    } else {
        (labels, cursor)
    }
}

/// The properties from the cursor on up to the closing brace, behind those
/// already read, and the cursor at the brace.
pub open spec fn properties_from(
    input: Seq<char>,
    properties: Seq<PropertyView>,
    cursor: Cursor,
) -> Option<(Seq<PropertyView>, Cursor)>
    decreases way_left(input, cursor),
{
    if cursor.token is RightBrace {
        Some((properties, cursor))
    } else {
        match property_at(input, cursor) {
            None => None,
            Some((property, after)) => {
                let next = if after.token is Comma {
                    advanced(input, after)
                } else {
                    after
                };
                if 0 <= way_left(input, next) < way_left(input, cursor) {
                    properties_from(input, properties.push(property), next)
                } else {
                    None
                }
            },
        }
    }
}

/// The node pattern at the cursor, and the cursor behind it.
pub open spec fn pattern_at(input: Seq<char>, cursor: Cursor) -> Option<(PatternView, Cursor)> {
    if !(cursor.token is LeftParen) {
        None
    } else {
        let named = advanced(input, cursor);
        match name_of(named.token) {
            None => None,
            Some(variable) => {
                let (labels, labelled) = labels_from(input, Seq::empty(), advanced(input, named));
                let braced = if labelled.token is LeftBrace {
                    match properties_from(input, Seq::empty(), advanced(input, labelled)) {
                        Some((properties, brace)) => Some((properties, advanced(input, brace))),
                        None => None,
                    }
                } else {
                    Some((Seq::empty(), labelled))
                };
                match braced {
                    None => None,
                    Some((properties, closing)) => if closing.token is RightParen {
                        Some(
                            (PatternView { variable, labels, properties }, advanced(input, closing)),
                        )
                    } else {
                        None
                    },
                }
            },
        }
    }
}

/// The patterns from the cursor on, behind those already read: one more
/// behind each comma.
pub open spec fn patterns_from(input: Seq<char>, patterns: Seq<PatternView>, cursor: Cursor) -> Option<
    (Seq<PatternView>, Cursor),
>
    decreases way_left(input, cursor),
{
    if cursor.token is Comma {
        match pattern_at(input, advanced(input, cursor)) {
            None => None,
            Some((pattern, after)) => if 0 <= way_left(input, after) < way_left(input, cursor) {
                patterns_from(input, patterns.push(pattern), after)
            } else {
                None
            },
        }
    } else {
        Some((patterns, cursor))
    }
}

/// The query at the cursor, or `None` where the text writes none.
pub open spec fn query_at(input: Seq<char>, cursor: Cursor) -> Option<QueryView> {
    if !(cursor.token is Match) {
        None
    } else {
        match pattern_at(input, advanced(input, cursor)) {
            None => None,
            Some((first, after)) => match patterns_from(input, seq![first], after) {
                None => None,
                Some((patterns, returning)) => if returning.token is Return {
                    match items_from(input, Seq::empty(), advanced(input, returning)) {
                        Some(items) => Some(QueryView { patterns, items }),
                        None => None,
                    }
                } else {
                    None
                },
            },
        }
    }
}

/// How a message names a token: by the name of its kind, and for an
/// identifier, a string or a number with its text in brackets.
pub open spec fn described(token: TokenView) -> Seq<char> {
    match token {
        TokenView::Match => "Match"@,
        TokenView::Return => "Return"@,
        TokenView::As => "As"@,
        TokenView::Where => "Where"@,
        TokenView::LeftParen => "LeftParen"@,
        TokenView::RightParen => "RightParen"@,
        TokenView::LeftBrace => "LeftBrace"@,
        TokenView::RightBrace => "RightBrace"@,
        TokenView::Colon => "Colon"@,
        TokenView::Comma => "Comma"@,
        TokenView::Dot => "Dot"@,
        TokenView::Identifier(name) => "Identifier("@ + name + ")"@,
        TokenView::String(text) => "String("@ + text + ")"@,
        TokenView::Number(digits) => "Number("@ + digits + ")"@,
        TokenView::EOF => "EOF"@,
    }
}

/// The query that a text writes, or `None` where it writes none.
pub open spec fn parsed(text: Seq<char>) -> Option<QueryView> {
    query_at(text, advanced(text, Cursor { token: TokenView::EOF, pos: 0 }))
}

/// The patterns of a `MATCH` clause at the cursor, which stands at `MATCH`,
/// and the cursor behind them.
pub open spec fn matched(input: Seq<char>, cursor: Cursor) -> Option<(Seq<PatternView>, Cursor)> {
    match pattern_at(input, advanced(input, cursor)) {
        None => None,
        Some((first, after)) => patterns_from(input, seq![first], after),
    }
}

/// The token of a word.
pub fn keyword_or_identifier(word: String) -> (token: Token)
    ensures
        token@ == word_token(word@),
{
    let upper = to_uppercase(word.as_str());
    if upper == String::from_str("MATCH") {
        Token::Match
    } else if upper == String::from_str("RETURN") {
        Token::Return
    } else if upper == String::from_str("AS") {
        Token::As
    } else if upper == String::from_str("WHERE") {
        Token::Where
    } else {
        Token::Identifier(word)
    }
}

impl Lexer {
    /// The invariant of a lexer: the place lies within the text or at its
    /// end, and the current character is the one at the place.
    pub open spec fn wf(self) -> bool {
        &&& self.position <= self.input@.len()
        &&& self.current == char_at(self.input@, self.position as int)
    }

    /// A lexer at the start of the text.
    pub fn new(input: &str) -> (lexer: Lexer)
        ensures
            lexer.input@ == input@,
            lexer.position == 0,
            lexer.wf(),
    {
        let chars = chars_of(input);
        let current = if chars.len() > 0 {
            chars[0]
        } else {
            '\0'
        };
        Lexer { input: chars, position: 0, current }
    }

    /// Steps over the current character.
    pub fn advance(&mut self)
        requires
            old(self).wf(),
        ensures
            final(self).wf(),
            final(self).input == old(self).input,
            final(self).position == step_from(old(self).input@, old(self).position as int),
    {
        if self.position < self.input.len() {
            self.position += 1;
        }
        self.current = if self.position < self.input.len() {
            self.input[self.position]
        } else {
            '\0'
        };
    }

    /// The character behind the current one; the NUL character where there
    /// is none.
    pub fn peek(&self) -> (next: char)
        requires
            self.wf(),
        ensures
            next == char_at(self.input@, self.position + 1),
    {
        if self.position < self.input.len() && self.position + 1 < self.input.len() {
            self.input[self.position + 1]
        } else {
            '\0'
        }
    }

    /// Steps over white space.
    pub fn skip_whitespace(&mut self)
        requires
            old(self).wf(),
        ensures
            final(self).wf(),
            final(self).input == old(self).input,
            final(self).position == skip_spaces(old(self).input@, old(self).position as int),
    {
        while self.position < self.input.len() && is_whitespace(self.current)
            invariant
                self.wf(),
                self.input == old(self).input,
                skip_spaces(self.input@, self.position as int) == skip_spaces(
                    old(self).input@,
                    old(self).position as int,
                ),
            decreases self.input.len() - self.position,
        {
            self.advance();
        }
    }

    /// Reads a word that starts at the current character: that character,
    /// and the letters, numbers and `_` behind it.
    pub fn read_identifier(&mut self) -> (word: String)
        requires
            old(self).wf(),
            old(self).position < old(self).input.len(),
        ensures
            final(self).wf(),
            final(self).input == old(self).input,
            final(self).position == word_end(old(self).input@, old(self).position + 1),
            word@ == old(self).input@.subrange(
                old(self).position as int,
                final(self).position as int,
            ),
    {
        let start = self.position;
        self.advance();
        while self.position < self.input.len() && (is_alphanumeric(self.current) || self.current
            == '_')
            invariant
                self.wf(),
                start < self.position <= self.input@.len(),
                self.input == old(self).input,
                word_end(self.input@, self.position as int) == word_end(
                    old(self).input@,
                    start + 1,
                ),
            decreases self.input.len() - self.position,
        {
            self.advance();
        }
        text_of(&self.input, start, self.position)
    }

    /// Reads a string literal whose opening quote is the current character:
    /// the text up to the closing quote, a NUL character or the end of the
    /// input, and steps over what closed it.
    pub fn read_string(&mut self) -> (text: String)
        requires
            old(self).wf(),
            old(self).position < old(self).input.len(),
        ensures
            final(self).wf(),
            final(self).input == old(self).input,
            text@ == old(self).input@.subrange(
                old(self).position + 1,
                literal_end(old(self).input@, old(self).position + 1),
            ),
            final(self).position == step_from(
                old(self).input@,
                literal_end(old(self).input@, old(self).position + 1),
            ),
    {
        self.advance();
        let start = self.position;
        while self.position < self.input.len() && self.current != '\'' && self.current != '\0'
            invariant
                self.wf(),
                start <= self.position <= self.input@.len(),
                start == old(self).position + 1,
                self.input == old(self).input,
                literal_end(self.input@, self.position as int) == literal_end(
                    old(self).input@,
                    start as int,
                ),
            decreases self.input.len() - self.position,
        {
            self.advance();
        }
        let text = text_of(&self.input, start, self.position);
        self.advance();
        text
    }

    /// Reads the next token.
    pub fn next_token(&mut self) -> (token: Token)
        requires
            old(self).wf(),
        ensures
            final(self).wf(),
            final(self).input == old(self).input,
            (token@, final(self).position as int) == token_at(
                old(self).input@,
                old(self).position as int,
            ),
    {
        self.skip_whitespace();
        proof {
            crate::sql::lemma_scans_advance(self.input@, old(self).position as int);
        }
        let c = self.current;
        if c == '\0' {
            Token::EOF
        } else if c == '(' {
            self.advance();
            Token::LeftParen
        } else if c == ')' {
            self.advance();
            Token::RightParen
        } else if c == '{' {
            self.advance();
            Token::LeftBrace
        } else if c == '}' {
            self.advance();
            Token::RightBrace
        } else if c == ':' {
            self.advance();
            Token::Colon
        } else if c == ',' {
            self.advance();
            Token::Comma
        } else if c == '.' {
            self.advance();
            Token::Dot
        } else if c == '\'' {
            Token::String(self.read_string())
        } else if is_alphabetic(c) {
            keyword_or_identifier(self.read_identifier())
        } else {
            self.advance();
            Token::EOF
        }
    }
}

/// How a message names a token.
fn describe(token: &Token) -> (text: String)
    ensures
        text@ == described(token@),
{
    match token {
        Token::Match => String::from_str("Match"),
        Token::Return => String::from_str("Return"),
        Token::As => String::from_str("As"),
        Token::Where => String::from_str("Where"),
        Token::LeftParen => String::from_str("LeftParen"),
        Token::RightParen => String::from_str("RightParen"),
        Token::LeftBrace => String::from_str("LeftBrace"),
        Token::RightBrace => String::from_str("RightBrace"),
        Token::Colon => String::from_str("Colon"),
        Token::Comma => String::from_str("Comma"),
        Token::Dot => String::from_str("Dot"),
        Token::Identifier(name) => join3("Identifier(", name.as_str(), ")"),
        Token::String(text) => join3("String(", text.as_str(), ")"),
        Token::Number(digits) => join3("Number(", digits.as_str(), ")"),
        Token::EOF => String::from_str("EOF"),
    }
}

/// Tests whether two tokens are the same.
pub fn same_token(a: &Token, b: &Token) -> (answer: bool)
    ensures
        answer == (a@ == b@),
{
    match (a, b) {
        (Token::Match, Token::Match) => true,
        (Token::Return, Token::Return) => true,
        (Token::As, Token::As) => true,
        (Token::Where, Token::Where) => true,
        (Token::LeftParen, Token::LeftParen) => true,
        (Token::RightParen, Token::RightParen) => true,
        (Token::LeftBrace, Token::LeftBrace) => true,
        (Token::RightBrace, Token::RightBrace) => true,
        (Token::Colon, Token::Colon) => true,
        (Token::Comma, Token::Comma) => true,
        (Token::Dot, Token::Dot) => true,
        (Token::Identifier(x), Token::Identifier(y)) => *x == *y,
        (Token::String(x), Token::String(y)) => *x == *y,
        (Token::Number(x), Token::Number(y)) => *x == *y,
        (Token::EOF, Token::EOF) => true,
        _ => false,
    }
}

impl Parser {
    /// Where the parser stands.
    pub open spec fn cursor(self) -> Cursor {
        Cursor { token: self.current_token@, pos: self.lexer.position as int }
    }

    /// The text that the parser reads.
    pub open spec fn text(self) -> Seq<char> {
        self.lexer.input@
    }

    /// The invariant of a parser: that of its lexer.
    pub open spec fn wf(self) -> bool {
        self.lexer.wf()
    }

    /// A parser at the first token of the text.
    pub fn new(input: &str) -> (parser: Parser)
        ensures
            parser.wf(),
            parser.text() == input@,
            parser.cursor() == advanced(input@, Cursor { token: TokenView::EOF, pos: 0 }),
    {
        let mut lexer = Lexer::new(input);
        let current_token = lexer.next_token();
        Parser { lexer, current_token }
    }

    /// Reads the next token.
    fn advance(&mut self)
        requires
            old(self).wf(),
        ensures
            final(self).wf(),
            final(self).text() == old(self).text(),
            final(self).cursor() == advanced(old(self).text(), old(self).cursor()),
            0 <= way_left(final(self).text(), final(self).cursor()) <= way_left(
                old(self).text(),
                old(self).cursor(),
            ),
            !(old(self).current_token@ is EOF) ==> way_left(final(self).text(), final(self).cursor())
                < way_left(old(self).text(), old(self).cursor()),
    {
        proof {
            lemma_cursor_advances(self.text(), self.cursor());
        }
        self.current_token = self.lexer.next_token();
    }

    /// Steps over the current token where it is the expected one, and
    /// fails where it is not.
    fn expect_token(&mut self, expected: Token) -> (result: Result<(), String>)
        requires
            old(self).wf(),
        ensures
            final(self).wf(),
            final(self).text() == old(self).text(),
            match result {
                Ok(_) => old(self).current_token@ == expected@ && final(self).cursor() == advanced(
                    old(self).text(),
                    old(self).cursor(),
                ),
                Err(_) => old(self).current_token@ != expected@ && final(self).cursor() == old(
                    self,
                ).cursor(),
            },
    {
        if same_token(&self.current_token, &expected) {
            self.advance();
            Ok(())
        } else {
            Err(
                join5(
                    "Expected ",
                    describe(&expected).as_str(),
                    ", got ",
                    describe(&self.current_token).as_str(),
                    "",
                ),
            )
        }
    }

    /// Reads an expression: a variable, or a property of one.
    fn parse_expression(&mut self) -> (result: Result<Expression, String>)
        requires
            old(self).wf(),
        ensures
            final(self).wf(),
            final(self).text() == old(self).text(),
            match result {
                Ok(expression) => expression_at(old(self).text(), old(self).cursor()) == Some(
                    (expression@, final(self).cursor()),
                ),
                Err(_) => expression_at(old(self).text(), old(self).cursor()) is None,
            },
    {
        let variable = match &self.current_token {
            Token::Identifier(name) => name.clone(),
            _ => {
                return Err(String::from_str("Expected identifier"));
            },
        };
        self.advance();
        if matches!(self.current_token, Token::Dot) {
            self.advance();
            let property = match &self.current_token {
                Token::Identifier(name) => name.clone(),
                _ => {
                    return Err(String::from_str("Expected property name"));
                },
            };
            self.advance();
            Ok(Expression::Property { variable, property })
        } else {
            Ok(Expression::Variable(variable))
        }
    }

    /// Reads an item of a `RETURN` clause.
    fn parse_return_item(&mut self) -> (result: Result<ReturnItem, String>)
        requires
            old(self).wf(),
        ensures
            final(self).wf(),
            final(self).text() == old(self).text(),
            match result {
                Ok(item) => item_at(old(self).text(), old(self).cursor()) == Some(
                    (item@, final(self).cursor()),
                ),
                Err(_) => item_at(old(self).text(), old(self).cursor()) is None,
            },
    {
        let expression = self.parse_expression()?;
        if matches!(self.current_token, Token::As) {
            self.advance();
            let alias = match &self.current_token {
                Token::Identifier(name) => name.clone(),
                _ => {
                    return Err(String::from_str("Expected identifier after AS"));
                },
            };
            self.advance();
            Ok(ReturnItem { expression, alias: Some(alias) })
        } else {
            Ok(ReturnItem { expression, alias: None })
        }
    }

    /// Reads a `RETURN` clause.
    #[verifier::loop_isolation(false)]
    fn parse_return_clause(&mut self) -> (result: Result<ReturnClause, String>)
        requires
            old(self).wf(),
        ensures
            final(self).wf(),
            final(self).text() == old(self).text(),
            match result {
                Ok(clause) => old(self).current_token@ is Return && items_from(
                    old(self).text(),
                    Seq::empty(),
                    advanced(old(self).text(), old(self).cursor()),
                ) == Some(item_views(clause.items@)),
                Err(_) => !(old(self).current_token@ is Return) || items_from(
                    old(self).text(),
                    Seq::empty(),
                    advanced(old(self).text(), old(self).cursor()),
                ) is None,
            },
    {
        self.expect_token(Token::Return)?;
        let mut items: Vec<ReturnItem> = Vec::new();
        proof {
            assert(item_views(items@) =~= Seq::empty());
        }
        loop
            invariant
                self.wf(),
                self.text() == old(self).text(),
                items_from(self.text(), item_views(items@), self.cursor()) == items_from(
                    old(self).text(),
                    Seq::empty(),
                    advanced(old(self).text(), old(self).cursor()),
                ),
            decreases way_left(self.text(), self.cursor()),
        {
            let ghost before = item_views(items@);
            let ghost start = self.cursor();
            let item = match self.parse_return_item() {
                Ok(item) => item,
                Err(e) => {
                    return Err(e);
                },
            };
            items.push(item);
            proof {
                assert(item_views(items@) =~= before.push(item@));
                lemma_item_advances(self.text(), start);
            }
            if !matches!(self.current_token, Token::Comma) {
                proof {
                    assert(items_from(self.text(), before, start) == Some(before.push(item@)));
                }
                return Ok(ReturnClause { items });
            }
            self.advance();
        }
    }

    /// Reads a property of a node pattern.
    fn parse_property(&mut self) -> (result: Result<Property, String>)
        requires
            old(self).wf(),
        ensures
            final(self).wf(),
            final(self).text() == old(self).text(),
            match result {
                Ok(property) => property_at(old(self).text(), old(self).cursor()) == Some(
                    (property@, final(self).cursor()),
                ),
                Err(_) => property_at(old(self).text(), old(self).cursor()) is None,
            },
    {
        let key = match &self.current_token {
            Token::Identifier(name) => name.clone(),
            _ => {
                return Err(String::from_str("Expected property key"));
            },
        };
        self.advance();
        self.expect_token(Token::Colon)?;
        let value = match &self.current_token {
            Token::String(text) => Value::String(text.clone()),
            Token::Number(digits) => Value::Number(digits.clone()),
            _ => {
                return Err(String::from_str("Expected property value"));
            },
        };
        self.advance();
        Ok(Property { key, value })
    }

    /// Reads a node pattern.
    #[verifier::loop_isolation(false)]
    fn parse_pattern(&mut self) -> (result: Result<Pattern, String>)
        requires
            old(self).wf(),
        ensures
            final(self).wf(),
            final(self).text() == old(self).text(),
            match result {
                Ok(pattern) => pattern_at(old(self).text(), old(self).cursor()) == Some(
                    (pattern@, final(self).cursor()),
                ),
                Err(_) => pattern_at(old(self).text(), old(self).cursor()) is None,
            },
    {
        self.expect_token(Token::LeftParen)?;
        let variable = match &self.current_token {
            Token::Identifier(name) => name.clone(),
            _ => {
                return Err(String::from_str("Expected identifier"));
            },
        };
        self.advance();
        let mut labels: Vec<String> = Vec::new();
        let mut properties: Vec<Property> = Vec::new();
        let ghost labels_start = self.cursor();
        proof {
            assert(label_views(labels@) =~= Seq::empty());
            assert(property_views(properties@) =~= Seq::empty());
        }
        while matches!(self.current_token, Token::Colon)
            invariant
                self.wf(),
                self.text() == old(self).text(),
                labels_from(self.text(), label_views(labels@), self.cursor()) == labels_from(
                    old(self).text(),
                    Seq::empty(),
                    labels_start,
                ),
            decreases way_left(self.text(), self.cursor()),
        {
            let ghost before = label_views(labels@);
            self.advance();
            let label = match &self.current_token {
                Token::Identifier(label) => Some(label.clone()),
                _ => None,
            };
            match label {
                Some(label) => {
                    labels.push(label);
                    proof {
                        assert(label_views(labels@) =~= before.push(label@));
                    }
                    self.advance();
                },
                None => {},
            }
        }
        if matches!(self.current_token, Token::LeftBrace) {
            self.advance();
            let ghost properties_start = self.cursor();
            while !matches!(self.current_token, Token::RightBrace)
                invariant
                    self.wf(),
                    self.text() == old(self).text(),
                    properties_from(self.text(), property_views(properties@), self.cursor())
                        == properties_from(old(self).text(), Seq::empty(), properties_start),
                decreases way_left(self.text(), self.cursor()),
            {
                let ghost before = property_views(properties@);
                let ghost start = self.cursor();
                let property = match self.parse_property() {
                    Ok(property) => property,
                    Err(e) => {
                        return Err(e);
                    },
                };
                properties.push(property);
                proof {
                    assert(property_views(properties@) =~= before.push(property@));
                    lemma_property_advances(self.text(), start);
                }
                if matches!(self.current_token, Token::Comma) {
                    self.advance();
                }
            }
            self.advance();
        }
        self.expect_token(Token::RightParen)?;
        Ok(Pattern { variable, labels, properties })
    }

    /// Reads a `MATCH` clause.
    #[verifier::loop_isolation(false)]
    fn parse_match_clause(&mut self) -> (result: Result<MatchClause, String>)
        requires
            old(self).wf(),
        ensures
            final(self).wf(),
            final(self).text() == old(self).text(),
            match result {
                Ok(clause) => old(self).current_token@ is Match && matched(
                    old(self).text(),
                    old(self).cursor(),
                ) == Some((pattern_views(clause.patterns@), final(self).cursor())),
                Err(_) => !(old(self).current_token@ is Match) || matched(
                    old(self).text(),
                    old(self).cursor(),
                ) is None,
            },
    {
        self.expect_token(Token::Match)?;
        let mut patterns: Vec<Pattern> = Vec::new();
        let first = self.parse_pattern()?;
        patterns.push(first);
        proof {
            assert(pattern_views(patterns@) =~= seq![first@]);
        }
        while matches!(self.current_token, Token::Comma)
            invariant
                self.wf(),
                self.text() == old(self).text(),
                patterns_from(self.text(), pattern_views(patterns@), self.cursor()) == matched(
                    old(self).text(),
                    old(self).cursor(),
                ),
            decreases way_left(self.text(), self.cursor()),
        {
            let ghost before = pattern_views(patterns@);
            let ghost comma = self.cursor();
            self.advance();
            let ghost start = self.cursor();
            let pattern = match self.parse_pattern() {
                Ok(pattern) => pattern,
                Err(e) => {
                    return Err(e);
                },
            };
            patterns.push(pattern);
            proof {
                assert(pattern_views(patterns@) =~= before.push(pattern@));
                lemma_pattern_advances(self.text(), start);
            }
        }
        Ok(MatchClause { patterns })
    }

    /// Reads the query that the text writes.
    ///
    /// Fails, with a message that says what was expected, exactly where the
    /// text writes no query.
    pub fn parse_query(&mut self) -> (result: Result<Query, String>)
        requires
            old(self).wf(),
        ensures
            final(self).wf(),
            final(self).text() == old(self).text(),
            match result {
                Ok(query) => query_at(old(self).text(), old(self).cursor()) == Some(query@),
                Err(_) => query_at(old(self).text(), old(self).cursor()) is None,
            },
    {
        let match_clause = self.parse_match_clause()?;
        let return_clause = self.parse_return_clause()?;
        Ok(Query { match_clause, return_clause })
    }
}

/// A token takes the cursor on or leaves it where it is, and a token that
/// is not `EOF` takes it on.
pub proof fn lemma_cursor_advances(input: Seq<char>, cursor: Cursor)
    requires
        0 <= cursor.pos <= input.len(),
    ensures
        cursor.pos <= advanced(input, cursor).pos <= input.len(),
        !(advanced(input, cursor).token is EOF) ==> cursor.pos < advanced(input, cursor).pos,
        !(cursor.token is EOF) ==> way_left(input, advanced(input, cursor)) < way_left(
            input,
            cursor,
        ),
        0 <= way_left(input, advanced(input, cursor)) <= way_left(input, cursor),
{
    crate::sql::lemma_scans_advance(input, cursor.pos);
    let start = skip_spaces(input, cursor.pos);
    if start < input.len() {
        crate::sql::lemma_scans_advance(input, start + 1);
        lemma_literal_end(input, start + 1);
    }
}

/// A literal ends within the text.
pub proof fn lemma_literal_end(input: Seq<char>, pos: int)
    requires
        0 <= pos <= input.len(),
    ensures
        pos <= literal_end(input, pos) <= input.len(),
    decreases input.len() - pos,
{
    if pos < input.len() && input[pos] != '\'' && input[pos] != '\0' {
        lemma_literal_end(input, pos + 1);
    }
}

/// The way left does not grow over an expression, and shrinks.
pub proof fn lemma_expression_advances(input: Seq<char>, cursor: Cursor)
    requires
        0 <= cursor.pos <= input.len(),
        expression_at(input, cursor) is Some,
    ensures
        0 <= expression_at(input, cursor)->Some_0.1.pos <= input.len(),
        0 <= way_left(input, expression_at(input, cursor)->Some_0.1) < way_left(input, cursor),
{
    let second = advanced(input, cursor);
    lemma_cursor_advances(input, cursor);
    if second.token is Dot {
        let third = advanced(input, second);
        lemma_cursor_advances(input, second);
        lemma_cursor_advances(input, third);
    }
}

/// The way left shrinks over a `RETURN` item.
pub proof fn lemma_item_advances(input: Seq<char>, cursor: Cursor)
    requires
        0 <= cursor.pos <= input.len(),
        item_at(input, cursor) is Some,
    ensures
        0 <= item_at(input, cursor)->Some_0.1.pos <= input.len(),
        0 <= way_left(input, item_at(input, cursor)->Some_0.1) < way_left(input, cursor),
{
    lemma_expression_advances(input, cursor);
    let after = expression_at(input, cursor)->Some_0.1;
    if after.token is As {
        let named = advanced(input, after);
        lemma_cursor_advances(input, after);
        lemma_cursor_advances(input, named);
    }
}

/// The way left shrinks over a property.
pub proof fn lemma_property_advances(input: Seq<char>, cursor: Cursor)
    requires
        0 <= cursor.pos <= input.len(),
        property_at(input, cursor) is Some,
    ensures
        0 <= property_at(input, cursor)->Some_0.1.pos <= input.len(),
        0 <= way_left(input, property_at(input, cursor)->Some_0.1) < way_left(input, cursor),
{
    let colon = advanced(input, cursor);
    lemma_cursor_advances(input, cursor);
    let valued = advanced(input, colon);
    lemma_cursor_advances(input, colon);
    lemma_cursor_advances(input, valued);
}

/// The way left does not grow over labels.
pub proof fn lemma_labels_advance(input: Seq<char>, labels: Seq<Seq<char>>, cursor: Cursor)
    requires
        0 <= cursor.pos <= input.len(),
    ensures
        0 <= labels_from(input, labels, cursor).1.pos <= input.len(),
        0 <= way_left(input, labels_from(input, labels, cursor).1) <= way_left(input, cursor),
    decreases way_left(input, cursor),
{
    if cursor.token is Colon {
        let next = advanced(input, cursor);
        lemma_cursor_advances(input, cursor);
        lemma_cursor_advances(input, next);
        let named = match name_of(next.token) {
            Some(label) => (labels.push(label), advanced(input, next)),
            None => (labels, next),
        };
        if 0 <= way_left(input, named.1) < way_left(input, cursor) {
            lemma_labels_advance(input, named.0, named.1);
        }
    }
}

/// The way left does not grow over properties.
pub proof fn lemma_properties_advance(
    input: Seq<char>,
    properties: Seq<PropertyView>,
    cursor: Cursor,
)
    requires
        0 <= cursor.pos <= input.len(),
        properties_from(input, properties, cursor) is Some,
    ensures
        0 <= properties_from(input, properties, cursor)->Some_0.1.pos <= input.len(),
        0 <= way_left(input, properties_from(input, properties, cursor)->Some_0.1) <= way_left(
            input,
            cursor,
        ),
    decreases way_left(input, cursor),
{
    if !(cursor.token is RightBrace) {
        lemma_property_advances(input, cursor);
        let after = property_at(input, cursor)->Some_0.1;
        let property = property_at(input, cursor)->Some_0.0;
        lemma_cursor_advances(input, after);
        let next = if after.token is Comma {
            advanced(input, after)
        } else {
            after
        };
        lemma_properties_advance(input, properties.push(property), next);
    }
}

/// The way left shrinks over a node pattern.
pub proof fn lemma_pattern_advances(input: Seq<char>, cursor: Cursor)
    requires
        0 <= cursor.pos <= input.len(),
        pattern_at(input, cursor) is Some,
    ensures
        0 <= pattern_at(input, cursor)->Some_0.1.pos <= input.len(),
        0 <= way_left(input, pattern_at(input, cursor)->Some_0.1) < way_left(input, cursor),
{
    let named = advanced(input, cursor);
    lemma_cursor_advances(input, cursor);
    let first = advanced(input, named);
    lemma_cursor_advances(input, named);
    lemma_labels_advance(input, Seq::empty(), first);
    let labelled = labels_from(input, Seq::empty(), first).1;
    lemma_cursor_advances(input, labelled);
    if labelled.token is LeftBrace {
        let inner = advanced(input, labelled);
        lemma_properties_advance(input, Seq::empty(), inner);
        let brace = properties_from(input, Seq::empty(), inner)->Some_0.1;
        lemma_cursor_advances(input, brace);
        lemma_cursor_advances(input, advanced(input, brace));
    }
}

} // verus!
