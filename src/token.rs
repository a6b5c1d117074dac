use vstd::prelude::*;

verus! {

/// Where a token stands in its source unit. Carried for diagnostics only.
#[derive(Clone, Debug, PartialEq, Eq)]
pub struct Location {
    pub file: String,
    pub line: u64,
    pub col: u64,
}

/// What a token is, with its payload where it has one.
#[derive(Clone, Debug, PartialEq, Eq)]
pub enum Lexeme {
    Identifier(String),
    Integer(u64),
    ParenOpen,
    ParenClose,
    BraceOpen,
    BraceClose,
    Arrow,
    Semicolon,
    Colon,
    Comma,
    CrossKeyword,
    ChipKeyword,
}

/// One lexical unit together with its position.
#[derive(Clone, Debug, PartialEq, Eq)]
pub struct Token {
    pub loc: Location,
    pub lexeme: Lexeme,
}

/// The tag of a token, without its payload. `End` stands for the end of a
/// chip unit, where no further token may follow.
#[derive(Clone, Copy, Debug, PartialEq, Eq, Structural)]
pub enum TokenKind {
    Identifier,
    Integer,
    ParenOpen,
    ParenClose,
    BraceOpen,
    BraceClose,
    Arrow,
    Semicolon,
    Colon,
    Comma,
    CrossKeyword,
    ChipKeyword,
    End,
}

/// A token that does not fit the grammar at the point where it was read.
/// `found` is `None` where the token sequence ran out.
#[derive(Clone, Debug, PartialEq, Eq)]
pub struct SyntaxError {
    pub expected: TokenKind,
    pub found: Option<Token>,
}

pub open spec fn kind_of(t: Token) -> TokenKind {
    match t.lexeme {
        Lexeme::Identifier(_) => TokenKind::Identifier,
        Lexeme::Integer(_) => TokenKind::Integer,
        Lexeme::ParenOpen => TokenKind::ParenOpen,
        Lexeme::ParenClose => TokenKind::ParenClose,
        Lexeme::BraceOpen => TokenKind::BraceOpen,
        Lexeme::BraceClose => TokenKind::BraceClose,
        Lexeme::Arrow => TokenKind::Arrow,
        Lexeme::Semicolon => TokenKind::Semicolon,
        Lexeme::Colon => TokenKind::Colon,
        Lexeme::Comma => TokenKind::Comma,
        Lexeme::CrossKeyword => TokenKind::CrossKeyword,
        Lexeme::ChipKeyword => TokenKind::ChipKeyword,
    }
}

/// What a token carries beyond its kind.
#[derive(Clone, Debug, PartialEq, Eq)]
pub enum Payload {
    Name(String),
    Number(u64),
    Empty,
}

/// The payload of a token: the name of an identifier, the value of an
/// integer, and nothing for every other kind.
pub open spec fn payload_of(t: Token) -> Payload {
    match t.lexeme {
        Lexeme::Identifier(s) => Payload::Name(s),
        Lexeme::Integer(v) => Payload::Number(v),
        _ => Payload::Empty,
    }
}

/// The expectation primitive: the payload of `t` where it has kind `k`,
/// else a syntax error that carries `t`.
pub open spec fn expect_spec(t: Token, k: TokenKind) -> Result<Payload, SyntaxError> {
    if kind_of(t) == k {
        Ok(payload_of(t))
    } else {
        Err(SyntaxError { expected: k, found: Some(t) })
    }
}

impl Token {
    pub fn kind(&self) -> (k: TokenKind)
        ensures
            k == kind_of(*self),
    {
        match &self.lexeme {
            Lexeme::Identifier(_) => TokenKind::Identifier,
            Lexeme::Integer(_) => TokenKind::Integer,
            Lexeme::ParenOpen => TokenKind::ParenOpen,
            Lexeme::ParenClose => TokenKind::ParenClose,
            Lexeme::BraceOpen => TokenKind::BraceOpen,
            Lexeme::BraceClose => TokenKind::BraceClose,
            Lexeme::Arrow => TokenKind::Arrow,
            Lexeme::Semicolon => TokenKind::Semicolon,
            Lexeme::Colon => TokenKind::Colon,
            Lexeme::Comma => TokenKind::Comma,
            Lexeme::CrossKeyword => TokenKind::CrossKeyword,
            Lexeme::ChipKeyword => TokenKind::ChipKeyword,
        }
    }
}

/// Consumes `tok` where it has kind `expected` and returns its payload;
/// otherwise returns a syntax error that carries the token.
pub fn match_token(tok: Token, expected: TokenKind) -> (r: Result<Payload, SyntaxError>)
    ensures
        r == expect_spec(tok, expected),
{
    if tok.kind() != expected {
        return Err(SyntaxError { expected, found: Some(tok) });
    }
    match tok.lexeme {
        Lexeme::Identifier(s) => Ok(Payload::Name(s)),
        Lexeme::Integer(v) => Ok(Payload::Number(v)),
        _ => Ok(Payload::Empty),
    }
}

} // verus!
