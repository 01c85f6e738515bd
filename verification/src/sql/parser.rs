//! The parser: tokens to syntax tree.
//!
//! ```text
//! query       := SELECT select_list FROM Identifier where? order? page*
//! select_list := "*" | Identifier ("," Identifier)*
//! where       := WHERE expression
//! expression  := comparison ((AND | OR) comparison)*
//! comparison  := Identifier (> | >= | < | <= | = | !=) (Number | String)
//! order       := ORDER BY Identifier
//! page        := LIMIT Number | OFFSET Number
//! ```
//!
//! `AND` and `OR` bind equally and to the left. Each of `LIMIT` and `OFFSET`
//! may stand once, in either order. What follows the query is not read.

use vstd::prelude::*;
use vstd::string::*;
use crate::error::Error;
use crate::sql::{Token, TokenView, token_views};
use crate::text::{chars_of, join3, join5};

verus! {

/// A comparison or a connective of a condition.
#[derive(Debug, Clone, Copy, PartialEq, Eq, Structural)]
pub enum Operator {
    And,
    Or,
    GreaterThan,
    GreaterThanEqual,
    LessThan,
    LessThanEqual,
    Equal,
    NotEqual,
}

/// An item of a select list.
#[derive(Debug, Clone, PartialEq)]
pub enum FieldExpression {
    AllColumns,
    Field(String),
}

/// A literal of a comparison.
#[derive(Debug, Clone, PartialEq)]
pub enum LiteralValue {
    /// A number as it was written.
    Number(String),
    String(String),
}

/// A node of the syntax tree.
#[derive(Debug, PartialEq)]
pub enum AstNode {
    Select {
        fields: Vec<FieldExpression>,
        from: String,
        where_clause: Option<Box<AstNode>>,
        order_by: Option<String>,
        limit: Option<u64>,
        offset: Option<u64>,
    },
    BinaryOp { left: Box<AstNode>, operator: Operator, right: Box<AstNode> },
    Column(String),
    Literal(LiteralValue),
}

/// The mathematical value of a [`FieldExpression`].
pub enum FieldView {
    AllColumns,
    Field(Seq<char>),
}

/// The mathematical value of a [`LiteralValue`].
pub enum LiteralView {
    Number(Seq<char>),
    String(Seq<char>),
}

/// The mathematical value of an [`AstNode`].
pub enum AstView {
    Select {
        fields: Seq<FieldView>,
        from: Seq<char>,
        where_clause: Option<Box<AstView>>,
        order_by: Option<Seq<char>>,
        limit: Option<u64>,
        offset: Option<u64>,
    },
    BinaryOp { left: Box<AstView>, operator: Operator, right: Box<AstView> },
    Column(Seq<char>),
    Literal(LiteralView),
}

impl View for FieldExpression {
    type V = FieldView;

    open spec fn view(&self) -> FieldView {
        match self {
            FieldExpression::AllColumns => FieldView::AllColumns,
            FieldExpression::Field(name) => FieldView::Field(name@),
        }
    }
}

impl View for LiteralValue {
    type V = LiteralView;

    open spec fn view(&self) -> LiteralView {
        match self {
            LiteralValue::Number(digits) => LiteralView::Number(digits@),
            LiteralValue::String(text) => LiteralView::String(text@),
        }
    }
}

impl View for AstNode {
    type V = AstView;

    open spec fn view(&self) -> AstView {
        ast_view(*self)
    }
}

/// The parser of one query.
pub struct Parser {
    pub tokens: Vec<Token>,
    /// The place of the next token to read.
    pub position: usize,
}

/// The values of the items of a select list.
pub open spec fn field_views(fields: Seq<FieldExpression>) -> Seq<FieldView> {
    Seq::new(fields.len(), |i: int| fields[i]@)
}

/// The value of an optional text.
pub open spec fn optional_text(text: Option<String>) -> Option<Seq<char>> {
    match text {
        Some(t) => Some(t@),
        None => None,
    }
}

/// The value of a node of the syntax tree.
pub open spec fn ast_view(node: AstNode) -> AstView
    decreases node,
{
    match node {
        AstNode::Select { fields, from, where_clause, order_by, limit, offset } => AstView::Select {
            fields: field_views(fields@),
            from: from@,
            where_clause: match where_clause {
                Some(condition) => Some(Box::new(ast_view(*condition))),
                None => None,
            },
            order_by: optional_text(order_by),
            limit,
            offset,
        },
        AstNode::BinaryOp { left, operator, right } => AstView::BinaryOp {
            left: Box::new(ast_view(*left)),
            operator,
            right: Box::new(ast_view(*right)),
        },
        AstNode::Column(name) => AstView::Column(name@),
        AstNode::Literal(literal) => AstView::Literal(literal@),
    }
}

/// The digit that the character writes.
pub open spec fn digit_value(c: char) -> nat {
    (c as u32 - '0' as u32) as nat
}

/// The first place from `pos` on that holds no digit.
pub open spec fn digits_end(text: Seq<char>, pos: int) -> int
    decreases text.len() - pos,
{
    if 0 <= pos < text.len() && crate::sql::is_digit(text[pos]) {
        digits_end(text, pos + 1)
    } else {
        pos
    }
}

/// The number that the digits write in base ten.
pub open spec fn decimal_value(digits: Seq<char>) -> nat
    decreases digits.len(),
{
    if digits.len() == 0 {
        0
    } else {
        decimal_value(digits.drop_last()) * 10 + digit_value(digits.last())
    }
}

/// The whole part of a number as it was written: what its leading digits
/// write. A fraction is cut off.
pub open spec fn whole_part(number: Seq<char>) -> nat {
    decimal_value(number.take(digits_end(number, 0)))
}

/// The whole part of a written number, or `limit` where it is greater.
pub open spec fn whole_part_up_to(number: Seq<char>, limit: nat) -> nat {
    if whole_part(number) > limit {
        limit
    } else {
        whole_part(number)
    }
}

/// The token at the place, if the place lies among the tokens.
pub open spec fn token_or_none(tokens: Seq<TokenView>, pos: int) -> Option<TokenView> {
    if 0 <= pos < tokens.len() {
        Some(tokens[pos])
    } else {
        None
    }
}

/// The comparison that a token writes.
pub open spec fn comparison_of(token: Option<TokenView>) -> Option<Operator> {
    match token {
        Some(TokenView::GreaterThan) => Some(Operator::GreaterThan),
        Some(TokenView::GreaterThanEqual) => Some(Operator::GreaterThanEqual),
        Some(TokenView::LessThan) => Some(Operator::LessThan),
        Some(TokenView::LessThanEqual) => Some(Operator::LessThanEqual),
        Some(TokenView::Equal) => Some(Operator::Equal),
        Some(TokenView::NotEqual) => Some(Operator::NotEqual),
        _ => None,
    }
}

/// The literal that a token writes.
pub open spec fn literal_of(token: Option<TokenView>) -> Option<LiteralView> {
    match token {
        Some(TokenView::Number(digits)) => Some(LiteralView::Number(digits)),
        Some(TokenView::String(text)) => Some(LiteralView::String(text)),
        _ => None,
    }
}

/// The name that a token writes.
pub open spec fn name_of(token: Option<TokenView>) -> Option<Seq<char>> {
    match token {
        Some(TokenView::Identifier(name)) => Some(name),
        _ => None,
    }
}

/// The comparison that the three tokens from `pos` on write, and the place
/// behind it.
pub open spec fn comparison_at(tokens: Seq<TokenView>, pos: int) -> Option<(AstView, int)> {
    match (
        name_of(token_or_none(tokens, pos)),
        comparison_of(token_or_none(tokens, pos + 1)),
        literal_of(token_or_none(tokens, pos + 2)),
    ) {
        (Some(name), Some(operator), Some(literal)) => Some(
            (
                AstView::BinaryOp {
                    left: Box::new(AstView::Column(name)),
                    operator,
                    right: Box::new(AstView::Literal(literal)),
                },
                pos + 3,
            ),
        ),
        _ => None,
    }
}

/// The connective that a token writes.
pub open spec fn connective_of(token: Option<TokenView>) -> Option<Operator> {
    match token {
        Some(TokenView::And) => Some(Operator::And),
        Some(TokenView::Or) => Some(Operator::Or),
        _ => None,
    }
}

/// The condition that `left` and the tokens from `pos` on write: `left`
/// joined, from the left, with each comparison that a connective brings.
pub open spec fn expression_after(tokens: Seq<TokenView>, left: AstView, pos: int) -> Option<
    (AstView, int),
>
    decreases tokens.len() - pos,
{
    match connective_of(token_or_none(tokens, pos)) {
        Some(operator) => match comparison_at(tokens, pos + 1) {
            Some((right, next)) => expression_after(
                tokens,
                AstView::BinaryOp { left: Box::new(left), operator, right: Box::new(right) },
                next,
            ),
            None => None,
        },
        None => Some((left, pos)),
    }
}

/// The condition that the tokens from `pos` on write, and the place behind
/// it.
pub open spec fn expression_at(tokens: Seq<TokenView>, pos: int) -> Option<(AstView, int)> {
    match comparison_at(tokens, pos) {
        Some((left, next)) => expression_after(tokens, left, next),
        None => None,
    }
}

/// The select list that `fields` and the tokens from `pos` on write:
/// `fields` with each name that a comma brings.
pub open spec fn fields_after(tokens: Seq<TokenView>, fields: Seq<FieldView>, pos: int) -> Option<
    (Seq<FieldView>, int),
>
    decreases tokens.len() - pos,
{
    if token_or_none(tokens, pos) == Some(TokenView::Comma) {
        match name_of(token_or_none(tokens, pos + 1)) {
            Some(name) => fields_after(tokens, fields.push(FieldView::Field(name)), pos + 2),
            None => None,
        }
    } else {
        Some((fields, pos))
    }
}

/// The select list that the tokens from `pos` on write, and the place
/// behind it.
pub open spec fn fields_at(tokens: Seq<TokenView>, pos: int) -> Option<(Seq<FieldView>, int)> {
    if token_or_none(tokens, pos) == Some(TokenView::Asterisk) {
        Some((seq![FieldView::AllColumns], pos + 1))
    } else {
        match name_of(token_or_none(tokens, pos)) {
            Some(name) => fields_after(tokens, seq![FieldView::Field(name)], pos + 1),
            None => None,
        }
    }
}

/// The `WHERE` clause that the tokens from `pos` on write, if they write
/// one, and the place behind it. The outer `None` is a syntax error.
pub open spec fn where_at(tokens: Seq<TokenView>, pos: int) -> Option<(Option<AstView>, int)> {
    if token_or_none(tokens, pos) == Some(TokenView::Where) {
        match expression_at(tokens, pos + 1) {
            Some((condition, next)) => Some((Some(condition), next)),
            None => None,
        }
    } else {
        Some((None, pos))
    }
}

/// The `ORDER BY` clause that the tokens from `pos` on write, if they write
/// one, and the place behind it. The outer `None` is a syntax error.
pub open spec fn order_at(tokens: Seq<TokenView>, pos: int) -> Option<(Option<Seq<char>>, int)> {
    if token_or_none(tokens, pos) == Some(TokenView::Order) {
        if token_or_none(tokens, pos + 1) == Some(TokenView::By) {
            match name_of(token_or_none(tokens, pos + 2)) {
                Some(name) => Some((Some(name), pos + 3)),
                None => None,
            }
        } else {
            None
        }
    } else {
        Some((None, pos))
    }
}

/// The count that a token writes: the whole part of a number, or the
/// greatest count where that is greater.
pub open spec fn count_of(token: Option<TokenView>) -> Option<u64> {
    match token {
        Some(TokenView::Number(digits)) => Some(
            whole_part_up_to(digits, u64::MAX as nat) as u64,
        ),
        _ => None,
    }
}

/// The `LIMIT` and `OFFSET` that the tokens from `pos` on write, beside
/// those already read. The outer `None` is a syntax error.
pub open spec fn page_at(
    tokens: Seq<TokenView>,
    pos: int,
    limit: Option<u64>,
    offset: Option<u64>,
) -> Option<(Option<u64>, Option<u64>)>
    decreases tokens.len() - pos,
{
    if token_or_none(tokens, pos) == Some(TokenView::Limit) && limit is None {
        match count_of(token_or_none(tokens, pos + 1)) {
            Some(count) => page_at(tokens, pos + 2, Some(count), offset),
            None => None,
        }
    } else if token_or_none(tokens, pos) == Some(TokenView::Offset) && offset is None {
        match count_of(token_or_none(tokens, pos + 1)) {
            Some(count) => page_at(tokens, pos + 2, limit, Some(count)),
            None => None,
        }
    } else {
        Some((limit, offset))
    }
}

/// The query that the tokens from `pos` on write, or `None` where they
/// write none.
pub open spec fn select_at(tokens: Seq<TokenView>, pos: int) -> Option<AstView> {
    if token_or_none(tokens, pos) != Some(TokenView::Select) {
        None
    } else {
        match fields_at(tokens, pos + 1) {
            None => None,
            Some((fields, after_fields)) => {
                if token_or_none(tokens, after_fields) != Some(TokenView::From) {
                    None
                } else {
                    match name_of(token_or_none(tokens, after_fields + 1)) {
                        None => None,
                        Some(from) => match where_at(tokens, after_fields + 2) {
                            None => None,
                            Some((condition, after_where)) => match order_at(
                                tokens,
                                after_where,
                            ) {
                                None => None,
                                Some((order_by, after_order)) => match page_at(
                                    tokens,
                                    after_order,
                                    None,
                                    None,
                                ) {
                                    None => None,
                                    Some((limit, offset)) => Some(
                                        AstView::Select {
                                            fields,
                                            from,
                                            where_clause: match condition {
                                                Some(c) => Some(Box::new(c)),
                                                None => None,
                                            },
                                            order_by,
                                            limit,
                                            offset,
                                        },
                                    ),
                                },
                            },
                        },
                    }
                }
            },
        }
    }
}

/// How a message names a token, or the want of one: a keyword by its word,
/// a symbol by its name, an identifier, a number or a string by its kind
/// and its text.
pub open spec fn described(token: Option<TokenView>) -> Seq<char> {
    match token {
        None => "nothing"@,
        Some(TokenView::Select) => "SELECT"@,
        Some(TokenView::From) => "FROM"@,
        Some(TokenView::Where) => "WHERE"@,
        Some(TokenView::And) => "AND"@,
        Some(TokenView::Or) => "OR"@,
        Some(TokenView::Order) => "ORDER"@,
        Some(TokenView::By) => "BY"@,
        Some(TokenView::Limit) => "LIMIT"@,
        Some(TokenView::Offset) => "OFFSET"@,
        Some(TokenView::Asterisk) => "asterisk"@,
        Some(TokenView::Comma) => "comma"@,
        Some(TokenView::GreaterThan) => "greater-than sign"@,
        Some(TokenView::LessThan) => "less-than sign"@,
        Some(TokenView::Equal) => "equals sign"@,
        Some(TokenView::Not) => "exclamation mark"@,
        Some(TokenView::GreaterThanEqual) => "greater-or-equal sign"@,
        Some(TokenView::LessThanEqual) => "less-or-equal sign"@,
        Some(TokenView::NotEqual) => "not-equal sign"@,
        Some(TokenView::Identifier(name)) => "identifier '"@ + name + "'"@,
        Some(TokenView::Number(digits)) => "number "@ + digits,
        Some(TokenView::String(text)) => "string '"@ + text + "'"@,
        Some(TokenView::Eof) => "end of input"@,
    }
}

/// The query that the tokens write.
pub open spec fn parsed(tokens: Seq<TokenView>) -> Option<AstView> {
    select_at(tokens, 0)
}

/// The whole part of a written number, or `limit` where it is greater.
pub fn whole_number(number: &str, limit: u64) -> (whole: u64)
    requires
        limit >= 9,
    ensures
        whole == whole_part_up_to(number@, limit as nat),
{
    let digits = chars_of(number);
    let mut whole: u64 = 0;
    let mut i: usize = 0;
    proof {
        assert(digits@.take(0) =~= Seq::<char>::empty());
    }
    while i < digits.len() && crate::sql::digit(digits[i])
        invariant
            i <= digits.len(),
            digits@ == number@,
            limit >= 9,
            digits_end(digits@, i as int) == digits_end(digits@, 0),
            whole <= limit,
            whole == if decimal_value(digits@.take(i as int)) > limit {
                limit as nat
            } else {
                decimal_value(digits@.take(i as int))
            },
        decreases digits.len() - i,
    {
        let c = digits[i];
        let d: u64 = (c as u32 - '0' as u32) as u64;
        proof {
            assert(digits@.take(i + 1).drop_last() =~= digits@.take(i as int));
            assert(digits@.take(i + 1).last() == c);
            assert(d == digit_value(c));
            assert(d <= 9);
        }
        if whole > (limit - d) / 10 {
            whole = limit;
        } else {
            whole = whole * 10 + d;
        }
        i += 1;
    }
    whole
}

/// How a message names a token.
fn describe(token: Option<&Token>) -> (text: String)
    ensures
        text@ == described(
            match token {
                Some(t) => Some(t@),
                None => None,
            },
        ),
{
    match token {
        None => String::from_str("nothing"),
        Some(Token::Select) => String::from_str("SELECT"),
        Some(Token::From) => String::from_str("FROM"),
        Some(Token::Where) => String::from_str("WHERE"),
        Some(Token::And) => String::from_str("AND"),
        Some(Token::Or) => String::from_str("OR"),
        Some(Token::Order) => String::from_str("ORDER"),
        Some(Token::By) => String::from_str("BY"),
        Some(Token::Limit) => String::from_str("LIMIT"),
        Some(Token::Offset) => String::from_str("OFFSET"),
        Some(Token::Asterisk) => String::from_str("asterisk"),
        Some(Token::Comma) => String::from_str("comma"),
        Some(Token::GreaterThan) => String::from_str("greater-than sign"),
        Some(Token::LessThan) => String::from_str("less-than sign"),
        Some(Token::Equal) => String::from_str("equals sign"),
        Some(Token::Not) => String::from_str("exclamation mark"),
        Some(Token::GreaterThanEqual) => String::from_str("greater-or-equal sign"),
        Some(Token::LessThanEqual) => String::from_str("less-or-equal sign"),
        Some(Token::NotEqual) => String::from_str("not-equal sign"),
        Some(Token::Identifier(name)) => join3("identifier '", name.as_str(), "'"),
        Some(Token::Number(digits)) => {
            let mut text = String::from_str("number ");
            text.append(digits.as_str());
            text
        },
        Some(Token::String(text)) => join3("string '", text.as_str(), "'"),
        Some(Token::Eof) => String::from_str("end of input"),
    }
}

impl Parser {
    /// The values of the tokens.
    pub open spec fn views(self) -> Seq<TokenView> {
        token_views(self.tokens@)
    }

    /// A parser at the first token.
    pub fn new(tokens: Vec<Token>) -> (parser: Parser)
        ensures
            parser.tokens == tokens,
            parser.position == 0,
    {
        Parser { tokens, position: 0 }
    }

    /// The next token, if there is one left.
    pub fn peek(&self) -> (next: Option<&Token>)
        ensures
            match next {
                Some(token) => self.position < self.tokens@.len() && *token
                    == self.tokens@[self.position as int] && token_or_none(
                    self.views(),
                    self.position as int,
                ) == Some(token@),
                None => self.position >= self.tokens@.len() && token_or_none(
                    self.views(),
                    self.position as int,
                ) is None,
            },
    {
        if self.position < self.tokens.len() {
            Some(&self.tokens[self.position])
        } else {
            None
        }
    }

    /// Steps over one token.
    pub fn advance(&mut self)
        requires
            old(self).position < old(self).tokens.len(),
        ensures
            final(self).tokens == old(self).tokens,
            final(self).position == old(self).position + 1,
    {
        self.position += 1;
    }

    /// Steps over the next token where it is the keyword `SELECT` or `FROM`
    /// that is expected, and fails where it is not.
    fn expect(&mut self, expected: Token) -> (result: Result<(), Error>)
        requires
            expected is Select || expected is From,
        ensures
            final(self).tokens == old(self).tokens,
            match result {
                Ok(_) => token_or_none(old(self).views(), old(self).position as int) == Some(
                    expected@,
                ) && final(self).position == old(self).position + 1,
                Err(e) => e is SyntaxError && token_or_none(
                    old(self).views(),
                    old(self).position as int,
                ) != Some(expected@) && final(self).position == old(self).position,
            },
    {
        let matching = match (self.peek(), &expected) {
            (Some(Token::Select), Token::Select) => true,
            (Some(Token::From), Token::From) => true,
            _ => false,
        };
        if matching {
            self.advance();
            Ok(())
        } else {
            Err(
                Error::SyntaxError(
                    join5(
                        "Expected ",
                        describe(Some(&expected)).as_str(),
                        ", got ",
                        describe(self.peek()).as_str(),
                        "",
                    ),
                ),
            )
        }
    }

    /// Reads one comparison: a column, an operator, a literal.
    fn parse_comparison(&mut self) -> (result: Result<AstNode, Error>)
        ensures
            final(self).tokens == old(self).tokens,
            match result {
                Ok(node) => comparison_at(old(self).views(), old(self).position as int) == Some(
                    (node@, final(self).position as int),
                ),
                Err(e) => e is SyntaxError && comparison_at(
                    old(self).views(),
                    old(self).position as int,
                ) is None,
            },
    {
        let left = match self.peek() {
            Some(Token::Identifier(name)) => AstNode::Column(name.clone()),
            _ => {
                return Err(
                    Error::SyntaxError(String::from_str("Expected identifier in WHERE clause")),
                );
            },
        };
        self.advance();
        let operator = match self.peek() {
            Some(Token::GreaterThan) => Operator::GreaterThan,
            Some(Token::GreaterThanEqual) => Operator::GreaterThanEqual,
            Some(Token::LessThan) => Operator::LessThan,
            Some(Token::LessThanEqual) => Operator::LessThanEqual,
            Some(Token::Equal) => Operator::Equal,
            Some(Token::NotEqual) => Operator::NotEqual,
            other => {
                return Err(
                    Error::SyntaxError(
                        join3("Expected comparison operator, got ", describe(other).as_str(), ""),
                    ),
                );
            },
        };
        self.advance();
        let right = match self.peek() {
            Some(Token::Number(digits)) => AstNode::Literal(LiteralValue::Number(digits.clone())),
            Some(Token::String(text)) => AstNode::Literal(LiteralValue::String(text.clone())),
            _ => {
                return Err(
                    Error::SyntaxError(String::from_str("Expected literal value after operator")),
                );
            },
        };
        self.advance();
        proof {
            reveal_with_fuel(ast_view, 3);
        }
        Ok(AstNode::BinaryOp { left: Box::new(left), operator, right: Box::new(right) })
    }

    /// Reads a condition: comparisons joined by `AND` and `OR`, from the
    /// left.
    fn parse_expression(&mut self) -> (result: Result<AstNode, Error>)
        ensures
            final(self).tokens == old(self).tokens,
            match result {
                Ok(node) => expression_at(old(self).views(), old(self).position as int) == Some(
                    (node@, final(self).position as int),
                ),
                Err(e) => e is SyntaxError && expression_at(
                    old(self).views(),
                    old(self).position as int,
                ) is None,
            },
    {
        let mut left = self.parse_comparison()?;
        loop
            invariant
                self.tokens == old(self).tokens,
                expression_after(self.views(), left@, self.position as int) == expression_at(
                    old(self).views(),
                    old(self).position as int,
                ),
            decreases self.tokens.len() - self.position,
        {
            let operator = match self.peek() {
                Some(Token::And) => Operator::And,
                Some(Token::Or) => Operator::Or,
                _ => {
                    return Ok(left);
                },
            };
            self.advance();
            let right = match self.parse_comparison() {
                Ok(right) => right,
                Err(e) => {
                    return Err(e);
                },
            };
            proof {
                reveal_with_fuel(ast_view, 2);
            }
            left = AstNode::BinaryOp { left: Box::new(left), operator, right: Box::new(right) };
        }
    }

    /// Reads a select list: `*`, or names between commas.
    fn parse_fields(&mut self) -> (result: Result<Vec<FieldExpression>, Error>)
        ensures
            final(self).tokens == old(self).tokens,
            match result {
                Ok(fields) => fields_at(old(self).views(), old(self).position as int) == Some(
                    (field_views(fields@), final(self).position as int),
                ),
                Err(e) => e is SyntaxError && fields_at(
                    old(self).views(),
                    old(self).position as int,
                ) is None,
            },
    {
        let mut fields: Vec<FieldExpression> = Vec::new();
        match self.peek() {
            Some(Token::Asterisk) => {
                fields.push(FieldExpression::AllColumns);
                self.advance();
                proof {
                    assert(field_views(fields@) =~= seq![FieldView::AllColumns]);
                }
                return Ok(fields);
            },
            Some(Token::Identifier(name)) => {
                fields.push(FieldExpression::Field(name.clone()));
                proof {
                    assert(field_views(fields@) =~= seq![FieldView::Field(name@)]);
                }
            },
            _ => {
                return Err(Error::SyntaxError(String::from_str("Expected identifier in SELECT")));
            },
        }
        self.advance();
        loop
            invariant
                self.tokens == old(self).tokens,
                fields_after(self.views(), field_views(fields@), self.position as int)
                    == fields_at(old(self).views(), old(self).position as int),
            decreases self.tokens.len() - self.position,
        {
            match self.peek() {
                Some(Token::Comma) => {},
                _ => {
                    return Ok(fields);
                },
            }
            self.advance();
            let ghost before = field_views(fields@);
            match self.peek() {
                Some(Token::Identifier(name)) => {
                    fields.push(FieldExpression::Field(name.clone()));
                    proof {
                        assert(field_views(fields@) =~= before.push(FieldView::Field(name@)));
                    }
                },
                _ => {
                    return Err(
                        Error::SyntaxError(String::from_str("Expected identifier after comma")),
                    );
                },
            }
            self.advance();
        }
    }

    /// Reads a `WHERE` clause, if one stands next.
    fn parse_where(&mut self) -> (result: Result<Option<Box<AstNode>>, Error>)
        ensures
            final(self).tokens == old(self).tokens,
            match result {
                Ok(Some(condition)) => where_at(old(self).views(), old(self).position as int)
                    == Some((Some(condition@), final(self).position as int)),
                Ok(None) => where_at(old(self).views(), old(self).position as int) == Some(
                    (None::<AstView>, final(self).position as int),
                ),
                Err(e) => e is SyntaxError && where_at(
                    old(self).views(),
                    old(self).position as int,
                ) is None,
            },
    {
        match self.peek() {
            Some(Token::Where) => {},
            _ => {
                return Ok(None);
            },
        }
        self.advance();
        match self.parse_expression() {
            Ok(condition) => Ok(Some(Box::new(condition))),
            Err(e) => Err(e),
        }
    }

    /// Reads an `ORDER BY` clause, if one stands next.
    fn parse_order(&mut self) -> (result: Result<Option<String>, Error>)
        ensures
            final(self).tokens == old(self).tokens,
            match result {
                Ok(order_by) => order_at(old(self).views(), old(self).position as int) == Some(
                    (optional_text(order_by), final(self).position as int),
                ),
                Err(e) => e is SyntaxError && order_at(
                    old(self).views(),
                    old(self).position as int,
                ) is None,
            },
    {
        match self.peek() {
            Some(Token::Order) => {},
            _ => {
                return Ok(None);
            },
        }
        self.advance();
        match self.peek() {
            Some(Token::By) => {},
            _ => {
                return Err(Error::SyntaxError(String::from_str("Expected BY after ORDER")));
            },
        }
        self.advance();
        let name = match self.peek() {
            Some(Token::Identifier(name)) => name.clone(),
            _ => {
                return Err(
                    Error::SyntaxError(String::from_str("Expected column name after ORDER BY")),
                );
            },
        };
        self.advance();
        Ok(Some(name))
    }

    /// Reads the count behind `LIMIT` or `OFFSET`.
    fn parse_count(&mut self) -> (result: Result<u64, Error>)
        ensures
            final(self).tokens == old(self).tokens,
            match result {
                Ok(count) => count_of(token_or_none(old(self).views(), old(self).position as int))
                    == Some(count) && final(self).position == old(self).position + 1,
                Err(e) => e is SyntaxError && count_of(
                    token_or_none(old(self).views(), old(self).position as int),
                ) is None,
            },
    {
        let count = match self.peek() {
            Some(Token::Number(digits)) => whole_number(digits.as_str(), u64::MAX),
            _ => {
                return Err(
                    Error::SyntaxError(String::from_str("Expected a number after LIMIT or OFFSET")),
                );
            },
        };
        self.advance();
        Ok(count)
    }

    /// Reads the `LIMIT` and `OFFSET` clauses that stand next.
    fn parse_page(&mut self) -> (result: Result<(Option<u64>, Option<u64>), Error>)
        ensures
            final(self).tokens == old(self).tokens,
            match result {
                Ok(page) => page_at(old(self).views(), old(self).position as int, None, None)
                    == Some(page),
                Err(e) => e is SyntaxError && page_at(
                    old(self).views(),
                    old(self).position as int,
                    None,
                    None,
                ) is None,
            },
    {
        let mut limit: Option<u64> = None;
        let mut offset: Option<u64> = None;
        loop
            invariant
                self.tokens == old(self).tokens,
                page_at(self.views(), self.position as int, limit, offset) == page_at(
                    old(self).views(),
                    old(self).position as int,
                    None,
                    None,
                ),
            decreases self.tokens.len() - self.position,
        {
            let limit_next = match self.peek() {
                Some(Token::Limit) => limit.is_none(),
                _ => false,
            };
            let offset_next = match self.peek() {
                Some(Token::Offset) => offset.is_none(),
                _ => false,
            };
            if limit_next {
                self.advance();
                match self.parse_count() {
                    Ok(count) => {
                        limit = Some(count);
                    },
                    Err(e) => {
                        return Err(e);
                    },
                }
            } else if offset_next {
                self.advance();
                match self.parse_count() {
                    Ok(count) => {
                        offset = Some(count);
                    },
                    Err(e) => {
                        return Err(e);
                    },
                }
            } else {
                return Ok((limit, offset));
            }
        }
    }

    /// Reads a query.
    fn parse_select(&mut self) -> (result: Result<AstNode, Error>)
        ensures
            final(self).tokens == old(self).tokens,
            match result {
                Ok(node) => select_at(old(self).views(), old(self).position as int) == Some(node@),
                Err(e) => e is SyntaxError && select_at(
                    old(self).views(),
                    old(self).position as int,
                ) is None,
            },
    {
        match self.expect(Token::Select) {
            Ok(_) => {},
            Err(e) => {
                return Err(e);
            },
        }
        let fields = match self.parse_fields() {
            Ok(fields) => fields,
            Err(e) => {
                return Err(e);
            },
        };
        match self.expect(Token::From) {
            Ok(_) => {},
            Err(e) => {
                return Err(e);
            },
        }
        let from = match self.peek() {
            Some(Token::Identifier(name)) => name.clone(),
            _ => {
                return Err(Error::SyntaxError(String::from_str("Expected table name after FROM")));
            },
        };
        self.advance();
        let where_clause = match self.parse_where() {
            Ok(clause) => clause,
            Err(e) => {
                return Err(e);
            },
        };
        let order_by = match self.parse_order() {
            Ok(order_by) => order_by,
            Err(e) => {
                return Err(e);
            },
        };
        let (limit, offset) = match self.parse_page() {
            Ok(page) => page,
            Err(e) => {
                return Err(e);
            },
        };
        proof {
            reveal_with_fuel(ast_view, 2);
        }
        Ok(AstNode::Select { fields, from, where_clause, order_by, limit, offset })
    }

    /// Reads the query that the tokens write.
    ///
    /// Fails with `SyntaxError` exactly where the tokens write no query.
    pub fn parse(&mut self) -> (result: Result<AstNode, Error>)
        ensures
            final(self).tokens == old(self).tokens,
            match result {
                Ok(node) => select_at(old(self).views(), old(self).position as int) == Some(node@),
                Err(e) => e is SyntaxError && select_at(
                    old(self).views(),
                    old(self).position as int,
                ) is None,
            },
    {
        self.parse_select()
    }
}

} // verus!
