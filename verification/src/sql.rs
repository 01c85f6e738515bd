//! The SQL-like query language: its tokens and the lexer that scans them.
//! The parser and the code generator stand in the modules below.

use vstd::prelude::*;
use vstd::string::*;
use crate::text::{
    char_is_alphanumeric, char_is_whitespace, chars_of, is_alphanumeric, is_whitespace, text_of,
    to_uppercase, uppercase_text,
};

pub mod parser;
pub mod codegen;

pub use parser::{AstNode, FieldExpression, LiteralValue, Operator, Parser};
pub use codegen::CodeGenerator;

verus! {

/// A token of the query language.
#[derive(Debug, Clone, PartialEq)]
pub enum Token {
    Select,
    From,
    Where,
    And,
    Or,
    Order,
    By,
    Limit,
    Offset,
    Asterisk,
    Comma,
    GreaterThan,
    LessThan,
    Equal,
    Not,
    GreaterThanEqual,
    LessThanEqual,
    NotEqual,
    /// A name: a letter or `_`, then letters, numbers and `_`.
    Identifier(String),
    /// A number as it was written: digits with at most one decimal point.
    Number(String),
    /// The text between single quotes.
    String(String),
    /// The end of the input, or a character that starts no token.
    Eof,
}

/// The mathematical value of a [`Token`].
pub enum TokenView {
    Select,
    From,
    Where,
    And,
    Or,
    Order,
    By,
    Limit,
    Offset,
    Asterisk,
    Comma,
    GreaterThan,
    LessThan,
    Equal,
    Not,
    GreaterThanEqual,
    LessThanEqual,
    NotEqual,
    Identifier(Seq<char>),
    Number(Seq<char>),
    String(Seq<char>),
    Eof,
}

impl View for Token {
    type V = TokenView;

    open spec fn view(&self) -> TokenView {
        match self {
            Token::Select => TokenView::Select,
            Token::From => TokenView::From,
            Token::Where => TokenView::Where,
            Token::And => TokenView::And,
            Token::Or => TokenView::Or,
            Token::Order => TokenView::Order,
            Token::By => TokenView::By,
            Token::Limit => TokenView::Limit,
            Token::Offset => TokenView::Offset,
            Token::Asterisk => TokenView::Asterisk,
            Token::Comma => TokenView::Comma,
            Token::GreaterThan => TokenView::GreaterThan,
            Token::LessThan => TokenView::LessThan,
            Token::Equal => TokenView::Equal,
            Token::Not => TokenView::Not,
            Token::GreaterThanEqual => TokenView::GreaterThanEqual,
            Token::LessThanEqual => TokenView::LessThanEqual,
            Token::NotEqual => TokenView::NotEqual,
            Token::Identifier(name) => TokenView::Identifier(name@),
            Token::Number(digits) => TokenView::Number(digits@),
            Token::String(text) => TokenView::String(text@),
            Token::Eof => TokenView::Eof,
        }
    }
}

/// The scanner of one query text.
pub struct Lexer {
    /// The characters of the text.
    pub input: Vec<char>,
    /// The place of the next character to read.
    pub position: usize,
}

/// The values of the tokens, in their order.
pub open spec fn token_views(tokens: Seq<Token>) -> Seq<TokenView> {
    Seq::new(tokens.len(), |i: int| tokens[i]@)
}

/// A decimal digit.
pub open spec fn is_digit(c: char) -> bool {
    '0' <= c <= '9'
}

/// A character that starts a word: an ASCII letter or `_`.
pub open spec fn is_word_start(c: char) -> bool {
    ('a' <= c <= 'z') || ('A' <= c <= 'Z') || c == '_'
}

/// A character that continues a word: a letter, a number or `_`.
pub open spec fn is_word_part(c: char) -> bool {
    char_is_alphanumeric(c) || c == '_'
}

/// The first place from `pos` on that holds no white space.
pub open spec fn skip_spaces(input: Seq<char>, pos: int) -> int
    decreases input.len() - pos,
{
    if 0 <= pos < input.len() && char_is_whitespace(input[pos]) {
        skip_spaces(input, pos + 1)
    } else {
        pos
    }
}

/// The first place from `pos` on that does not continue a word.
pub open spec fn word_end(input: Seq<char>, pos: int) -> int
    decreases input.len() - pos,
{
    if 0 <= pos < input.len() && is_word_part(input[pos]) {
        word_end(input, pos + 1)
    } else {
        pos
    }
}

/// The first place from `pos` on that does not continue a number: neither
/// a digit nor the number's first decimal point.
pub open spec fn number_end(input: Seq<char>, pos: int, pointed: bool) -> int
    decreases input.len() - pos,
{
    if 0 <= pos < input.len() && is_digit(input[pos]) {
        number_end(input, pos + 1, pointed)
    } else if 0 <= pos < input.len() && input[pos] == '.' && !pointed {
        number_end(input, pos + 1, true)
    } else {
        pos
    }
}

/// The first place from `pos` on that holds a single quote, or the end of
/// the input.
pub open spec fn string_end(input: Seq<char>, pos: int) -> int
    decreases input.len() - pos,
{
    if 0 <= pos < input.len() && input[pos] != '\'' {
        string_end(input, pos + 1)
    } else {
        pos
    }
}

/// The token that a word is: a keyword, whatever its case, or an
/// identifier.
pub open spec fn word_token(word: Seq<char>) -> TokenView {
    let upper = uppercase_text(word);
    if upper == "SELECT"@ {
        TokenView::Select
    } else if upper == "FROM"@ {
        TokenView::From
    } else if upper == "WHERE"@ {
        TokenView::Where
    } else if upper == "AND"@ {
        TokenView::And
    } else if upper == "OR"@ {
        TokenView::Or
    } else if upper == "ORDER"@ {
        TokenView::Order
    } else if upper == "BY"@ {
        TokenView::By
    } else if upper == "LIMIT"@ {
        TokenView::Limit
    } else if upper == "OFFSET"@ {
        TokenView::Offset
    } else {
        TokenView::Identifier(word)
    }
}

/// Whether the place holds the character.
pub open spec fn holds_char(input: Seq<char>, pos: int, c: char) -> bool {
    0 <= pos < input.len() && input[pos] == c
}

/// The token that starts at the first place from `pos` on that holds no
/// white space, and the place behind it. At the end of the input that is
/// `Eof`; so it is, one place on, for a character that starts no token.
pub open spec fn token_at(input: Seq<char>, pos: int) -> (TokenView, int) {
    let start = skip_spaces(input, pos);
    if !(0 <= start < input.len()) {
        (TokenView::Eof, start)
    } else {
        let c = input[start];
        if c == '*' {
            (TokenView::Asterisk, start + 1)
        } else if c == ',' {
            (TokenView::Comma, start + 1)
        } else if c == '>' {
            if holds_char(input, start + 1, '=') {
                (TokenView::GreaterThanEqual, start + 2)
            } else {
                (TokenView::GreaterThan, start + 1)
            }
        } else if c == '<' {
            if holds_char(input, start + 1, '=') {
                (TokenView::LessThanEqual, start + 2)
            } else if holds_char(input, start + 1, '>') {
                (TokenView::NotEqual, start + 2)
            } else {
                (TokenView::LessThan, start + 1)
            }
        } else if c == '=' {
            (TokenView::Equal, start + 1)
        } else if c == '!' {
            if holds_char(input, start + 1, '=') {
                (TokenView::NotEqual, start + 2)
            } else {
                (TokenView::Not, start + 1)
            }
        } else if is_digit(c) {
            let end = number_end(input, start + 1, false);
            (TokenView::Number(input.subrange(start, end)), end)
        } else if c == '\'' {
            let end = string_end(input, start + 1);
            (
                TokenView::String(input.subrange(start + 1, end)),
                if end < input.len() {
                    end + 1
                } else {
                    end
                },
            )
        } else if is_word_start(c) {
            let end = word_end(input, start + 1);
            (word_token(input.subrange(start, end)), end)
        } else {
            (TokenView::Eof, start + 1)
        }
    }
}

/// The tokens of the input from `pos` on, up to and with the first `Eof`.
pub open spec fn tokens_from(input: Seq<char>, pos: int) -> Seq<TokenView>
    decreases input.len() - pos,
{
    let token = token_at(input, pos).0;
    let next = token_at(input, pos).1;
    if token is Eof || !(pos < next <= input.len()) {
        seq![token]
    } else {
        seq![token] + tokens_from(input, next)
    }
}

/// The tokens of a query text.
pub open spec fn tokens_of(text: Seq<char>) -> Seq<TokenView> {
    tokens_from(text, 0)
}

/// Tests for a decimal digit.
pub fn digit(c: char) -> (answer: bool)
    ensures
        answer == is_digit(c),
{
    '0' <= c && c <= '9'
}

/// Tests for a character that starts a word.
pub fn word_start(c: char) -> (answer: bool)
    ensures
        answer == is_word_start(c),
{
    ('a' <= c && c <= 'z') || ('A' <= c && c <= 'Z') || c == '_'
}

/// The token of a word.
pub fn keyword_or_identifier(word: String) -> (token: Token)
    ensures
        token@ == word_token(word@),
{
    let upper = to_uppercase(word.as_str());
    if upper == String::from_str("SELECT") {
        Token::Select
    } else if upper == String::from_str("FROM") {
        Token::From
    } else if upper == String::from_str("WHERE") {
        Token::Where
    } else if upper == String::from_str("AND") {
        Token::And
    } else if upper == String::from_str("OR") {
        Token::Or
    } else if upper == String::from_str("ORDER") {
        Token::Order
    } else if upper == String::from_str("BY") {
        Token::By
    } else if upper == String::from_str("LIMIT") {
        Token::Limit
    } else if upper == String::from_str("OFFSET") {
        Token::Offset
    } else {
        Token::Identifier(word)
    }
}

impl Lexer {
    /// The invariant of a lexer: the place lies within the text or at its
    /// end.
    pub open spec fn wf(self) -> bool {
        self.position <= self.input@.len()
    }

    /// A lexer at the start of the text.
    pub fn new(input: &str) -> (lexer: Lexer)
        ensures
            lexer.input@ == input@,
            lexer.position == 0,
            lexer.wf(),
    {
        Lexer { input: chars_of(input), position: 0 }
    }

    /// The next character, if the text has one left.
    pub fn peek(&self) -> (next: Option<char>)
        ensures
            next == if self.position < self.input@.len() {
                Some(self.input@[self.position as int])
            } else {
                None
            },
    {
        if self.position < self.input.len() {
            Some(self.input[self.position])
        } else {
            None
        }
    }

    /// Whether the next character is `c`.
    pub fn at(&self, c: char) -> (answer: bool)
        ensures
            answer == holds_char(self.input@, self.position as int, c),
    {
        self.position < self.input.len() && self.input[self.position] == c
    }

    /// Steps over one character.
    pub fn advance(&mut self)
        requires
            old(self).position < old(self).input.len(),
        ensures
            final(self).input == old(self).input,
            final(self).position == old(self).position + 1,
            final(self).wf(),
    {
        self.position += 1;
    }

    /// Steps over white space.
    pub fn skip_whitespace(&mut self)
        requires
            old(self).wf(),
        ensures
            final(self).input == old(self).input,
            final(self).position == skip_spaces(old(self).input@, old(self).position as int),
            final(self).wf(),
    {
        while self.position < self.input.len() && is_whitespace(self.input[self.position])
            invariant
                self.wf(),
                self.input == old(self).input,
                skip_spaces(self.input@, self.position as int) == skip_spaces(
                    old(self).input@,
                    old(self).position as int,
                ),
            decreases self.input.len() - self.position,
        {
            self.position += 1;
        }
    }

    /// Reads a word that starts at the next character: that character, and
    /// the letters, numbers and `_` behind it.
    pub fn read_identifier(&mut self) -> (word: String)
        requires
            old(self).position < old(self).input.len(),
        ensures
            final(self).input == old(self).input,
            final(self).position == word_end(old(self).input@, old(self).position + 1),
            final(self).wf(),
            word@ == old(self).input@.subrange(
                old(self).position as int,
                final(self).position as int,
            ),
    {
        let start = self.position;
        self.position += 1;
        while self.position < self.input.len() && (is_alphanumeric(self.input[self.position])
            || self.input[self.position] == '_')
            invariant
                start < self.position <= self.input@.len(),
                self.input == old(self).input,
                word_end(self.input@, self.position as int) == word_end(
                    old(self).input@,
                    start + 1,
                ),
            decreases self.input.len() - self.position,
        {
            self.position += 1;
        }
        text_of(&self.input, start, self.position)
    }

    /// Reads a number that starts at the next character: that character,
    /// and the digits behind it with at most one decimal point among them.
    pub fn read_number(&mut self) -> (digits: String)
        requires
            old(self).position < old(self).input.len(),
        ensures
            final(self).input == old(self).input,
            final(self).position == number_end(old(self).input@, old(self).position + 1, false),
            final(self).wf(),
            digits@ == old(self).input@.subrange(
                old(self).position as int,
                final(self).position as int,
            ),
    {
        let start = self.position;
        let mut pointed = false;
        self.position += 1;
        loop
            invariant
                start < self.position <= self.input@.len(),
                self.input == old(self).input,
                number_end(self.input@, self.position as int, pointed) == number_end(
                    old(self).input@,
                    start + 1,
                    false,
                ),
            ensures
                start < self.position <= self.input@.len(),
                self.input == old(self).input,
                self.position == number_end(old(self).input@, start + 1, false),
            decreases self.input.len() - self.position,
        {
            if self.position < self.input.len() && digit(self.input[self.position]) {
                self.position += 1;
            } else if self.position < self.input.len() && self.input[self.position] == '.'
                && !pointed {
                pointed = true;
                self.position += 1;
            } else {
                break ;
            }
        }
        text_of(&self.input, start, self.position)
    }

    /// Reads a string literal whose opening quote is the next character:
    /// the text up to the closing quote, or up to the end of the input where
    /// the quote is missing.
    pub fn read_string(&mut self) -> (text: String)
        requires
            old(self).position < old(self).input.len(),
        ensures
            final(self).input == old(self).input,
            final(self).wf(),
            text@ == old(self).input@.subrange(
                old(self).position + 1,
                string_end(old(self).input@, old(self).position + 1),
            ),
            final(self).position == if string_end(old(self).input@, old(self).position + 1) < old(
                self,
            ).input@.len() {
                string_end(old(self).input@, old(self).position + 1) + 1
            } else {
                string_end(old(self).input@, old(self).position + 1)
            },
    {
        self.position += 1;
        let start = self.position;
        while self.position < self.input.len() && self.input[self.position] != '\''
            invariant
                start <= self.position <= self.input@.len(),
                start == old(self).position + 1,
                self.input == old(self).input,
                string_end(self.input@, self.position as int) == string_end(
                    old(self).input@,
                    start as int,
                ),
            decreases self.input.len() - self.position,
        {
            self.position += 1;
        }
        let text = text_of(&self.input, start, self.position);
        if self.position < self.input.len() {
            self.position += 1;
        }
        text
    }

    /// Reads the next token.
    pub fn next_token(&mut self) -> (token: Token)
        requires
            old(self).wf(),
        ensures
            final(self).input == old(self).input,
            final(self).wf(),
            (token@, final(self).position as int) == token_at(
                old(self).input@,
                old(self).position as int,
            ),
    {
        self.skip_whitespace();
        proof {
            lemma_scans_advance(self.input@, old(self).position as int);
        }
        if self.position >= self.input.len() {
            return Token::Eof;
        }
        let c = self.input[self.position];
        if c == '*' {
            self.advance();
            Token::Asterisk
        } else if c == ',' {
            self.advance();
            Token::Comma
        } else if c == '>' {
            self.advance();
            if self.at('=') {
                self.advance();
                Token::GreaterThanEqual
            } else {
                Token::GreaterThan
            }
        } else if c == '<' {
            self.advance();
            if self.at('=') {
                self.advance();
                Token::LessThanEqual
            } else if self.at('>') {
                self.advance();
                Token::NotEqual
            } else {
                Token::LessThan
            }
        } else if c == '=' {
            self.advance();
            Token::Equal
        } else if c == '!' {
            self.advance();
            if self.at('=') {
                self.advance();
                Token::NotEqual
            } else {
                Token::Not
            }
        } else if digit(c) {
            Token::Number(self.read_number())
        } else if c == '\'' {
            Token::String(self.read_string())
        } else if word_start(c) {
            keyword_or_identifier(self.read_identifier())
        } else {
            self.advance();
            Token::Eof
        }
    }

    /// Reads the tokens up to and with the first `Eof`.
    pub fn tokenize(&mut self) -> (tokens: Vec<Token>)
        requires
            old(self).wf(),
        ensures
            final(self).input == old(self).input,
            final(self).wf(),
            token_views(tokens@) == tokens_from(old(self).input@, old(self).position as int),
    {
        let mut tokens: Vec<Token> = Vec::new();
        loop
            invariant_except_break
                token_views(tokens@) + tokens_from(self.input@, self.position as int)
                    == tokens_from(old(self).input@, old(self).position as int),
            invariant
                self.wf(),
                self.input == old(self).input,
            ensures
                self.wf(),
                self.input == old(self).input,
                token_views(tokens@) == tokens_from(old(self).input@, old(self).position as int),
            decreases self.input.len() - self.position,
        {
            let ghost before = self.position;
            let ghost seen = token_views(tokens@);
            proof {
                lemma_token_advances(self.input@, self.position as int);
            }
            let token = self.next_token();
            let done = matches!(token, Token::Eof);
            tokens.push(token);
            proof {
                assert(token_views(tokens@) =~= seen.push(token@));
                if done {
                    assert(tokens_from(self.input@, before as int) =~= seq![token@]);
                    assert(seen + seq![token@] =~= seen.push(token@));
                } else {
                    assert(tokens_from(self.input@, before as int) =~= seq![token@] + tokens_from(
                        self.input@,
                        self.position as int,
                    ));
                    assert(seen.push(token@) + tokens_from(self.input@, self.position as int)
                        =~= seen + (seq![token@] + tokens_from(
                        self.input@,
                        self.position as int,
                    )));
                }
            }
            if done {
                break ;
            }
        }
        tokens
    }
}

/// The scans never go back, and stay within the input.
pub proof fn lemma_scans_advance(input: Seq<char>, pos: int)
    requires
        0 <= pos <= input.len(),
    ensures
        pos <= skip_spaces(input, pos) <= input.len(),
        pos <= word_end(input, pos) <= input.len(),
        pos <= number_end(input, pos, false) <= input.len(),
        pos <= number_end(input, pos, true) <= input.len(),
        pos <= string_end(input, pos) <= input.len(),
    decreases input.len() - pos,
{
    if pos < input.len() {
        lemma_scans_advance(input, pos + 1);
    }
}

/// A token other than `Eof` takes at least one character.
pub proof fn lemma_token_advances(input: Seq<char>, pos: int)
    requires
        0 <= pos <= input.len(),
    ensures
        pos <= token_at(input, pos).1 <= input.len(),
        !(token_at(input, pos).0 is Eof) ==> pos < token_at(input, pos).1,
{
    lemma_scans_advance(input, pos);
    let start = skip_spaces(input, pos);
    if start < input.len() {
        lemma_scans_advance(input, start + 1);
    }
}

} // verus!
