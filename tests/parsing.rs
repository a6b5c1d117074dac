use chipsim::chip::Chip;
use chipsim::parser::{parse, parse_chip, parse_cross, parse_inst, ParseError};
use chipsim::token::{match_token, Lexeme, Location, Payload, SyntaxError, Token, TokenKind};

fn tok(line: u64, lexeme: Lexeme) -> Token {
    Token { loc: Location { file: String::from("main.chp"), line, col: 0 }, lexeme }
}

fn ident(line: u64, s: &str) -> Token {
    tok(line, Lexeme::Identifier(String::from(s)))
}

/// Turns tokens in source order into the stack that the parser pops from.
fn stack(mut v: Vec<Token>) -> Vec<Token> {
    v.reverse();
    v
}

fn not_tokens() -> Vec<Token> {
    vec![
        tok(0, Lexeme::ChipKeyword),
        ident(1, "not"),
        tok(2, Lexeme::ParenOpen),
        ident(3, "A"),
        tok(4, Lexeme::Colon),
        tok(5, Lexeme::Integer(1)),
        tok(10, Lexeme::ParenClose),
        tok(11, Lexeme::Arrow),
        ident(12, "Z"),
        tok(13, Lexeme::Colon),
        tok(14, Lexeme::Integer(1)),
        tok(15, Lexeme::BraceOpen),
        ident(16, "nand"),
        tok(17, Lexeme::ParenOpen),
        ident(18, "A"),
        tok(19, Lexeme::Comma),
        ident(20, "A"),
        tok(21, Lexeme::ParenClose),
        tok(22, Lexeme::Arrow),
        ident(23, "Z"),
        tok(24, Lexeme::Semicolon),
        tok(25, Lexeme::BraceClose),
    ]
}

fn and_tokens() -> Vec<Token> {
    vec![
        tok(0, Lexeme::ChipKeyword),
        ident(1, "and"),
        tok(2, Lexeme::ParenOpen),
        ident(3, "A"),
        tok(4, Lexeme::Colon),
        tok(5, Lexeme::Integer(1)),
        tok(6, Lexeme::Comma),
        ident(7, "B"),
        tok(8, Lexeme::Colon),
        tok(9, Lexeme::Integer(1)),
        tok(10, Lexeme::ParenClose),
        tok(11, Lexeme::Arrow),
        ident(12, "Z"),
        tok(13, Lexeme::Colon),
        tok(14, Lexeme::Integer(1)),
        tok(15, Lexeme::BraceOpen),
        tok(16, Lexeme::CrossKeyword),
        ident(17, "X"),
        tok(18, Lexeme::Colon),
        tok(19, Lexeme::Integer(1)),
        tok(20, Lexeme::Semicolon),
        ident(21, "nand"),
        tok(22, Lexeme::ParenOpen),
        ident(23, "A"),
        tok(24, Lexeme::Comma),
        ident(25, "B"),
        tok(26, Lexeme::ParenClose),
        tok(27, Lexeme::Arrow),
        ident(28, "X"),
        tok(29, Lexeme::Semicolon),
        ident(30, "not"),
        tok(31, Lexeme::ParenOpen),
        ident(32, "X"),
        tok(33, Lexeme::ParenClose),
        tok(34, Lexeme::Arrow),
        ident(35, "Z"),
        tok(36, Lexeme::Semicolon),
        tok(37, Lexeme::BraceClose),
    ]
}

fn names(c: &Chip) -> (Vec<String>, Vec<String>, Vec<String>) {
    (
        c.inputs.iter().map(|w| w.name.clone()).collect(),
        c.outputs.iter().map(|w| w.name.clone()).collect(),
        c.internal.iter().map(|w| w.name.clone()).collect(),
    )
}

#[test]
fn match_token_returns_identifier_name() {
    let r = match_token(ident(1, "abc"), TokenKind::Identifier);
    assert_eq!(r, Ok(Payload::Name(String::from("abc"))));
}

#[test]
fn match_token_returns_integer_value() {
    let r = match_token(tok(1, Lexeme::Integer(42)), TokenKind::Integer);
    assert_eq!(r, Ok(Payload::Number(42)));
}

#[test]
fn match_token_returns_empty_payload_for_punctuation() {
    let r = match_token(tok(1, Lexeme::Semicolon), TokenKind::Semicolon);
    assert_eq!(r, Ok(Payload::Empty));
}

#[test]
fn match_token_rejects_other_kind_with_position() {
    let t = tok(7, Lexeme::Colon);
    let r = match_token(t.clone(), TokenKind::Comma);
    assert_eq!(r, Err(SyntaxError { expected: TokenKind::Comma, found: Some(t) }));
}

#[test]
fn parse_cross_reads_name_and_width() {
    let mut ts = stack(vec![ident(1, "bus"), tok(2, Lexeme::Colon), tok(3, Lexeme::Integer(8)), tok(4, Lexeme::Comma)]);
    let w = parse_cross(&mut ts).unwrap();
    assert_eq!(w.name, "bus");
    assert_eq!(w.width, 8);
    assert_eq!(ts, vec![tok(4, Lexeme::Comma)]);
}

#[test]
fn parse_cross_reports_missing_colon() {
    let mut ts = stack(vec![ident(1, "bus"), tok(2, Lexeme::Integer(8))]);
    let r = parse_cross(&mut ts);
    assert_eq!(r, Err(SyntaxError { expected: TokenKind::Colon, found: Some(tok(2, Lexeme::Integer(8))) }));
}

#[test]
fn parse_inst_reads_inputs_and_outputs() {
    let mut ts = stack(vec![
        ident(1, "nand"),
        tok(2, Lexeme::ParenOpen),
        ident(3, "A"),
        tok(4, Lexeme::Comma),
        ident(5, "B"),
        tok(6, Lexeme::ParenClose),
        tok(7, Lexeme::Arrow),
        ident(8, "X"),
        tok(9, Lexeme::Semicolon),
    ]);
    let i = parse_inst(&mut ts).unwrap();
    assert_eq!(i.callee, "nand");
    assert_eq!(i.inputs, vec![String::from("A"), String::from("B")]);
    assert_eq!(i.outputs, vec![String::from("X")]);
    assert!(ts.is_empty());
}

#[test]
fn parse_inst_rejects_bad_separator() {
    let mut ts = stack(vec![
        ident(1, "nand"),
        tok(2, Lexeme::ParenOpen),
        ident(3, "A"),
        tok(4, Lexeme::Semicolon),
    ]);
    let r = parse_inst(&mut ts);
    assert_eq!(r, Err(SyntaxError { expected: TokenKind::ParenClose, found: Some(tok(4, Lexeme::Semicolon)) }));
}

#[test]
fn parse_chip_reads_definition_without_keyword() {
    let mut ts = stack(not_tokens());
    ts.pop();
    let c = parse_chip(&mut ts).unwrap();
    assert_eq!(c.name, "not");
    assert!(ts.is_empty());
}

#[test]
fn parse_not_chip() {
    let c = parse(stack(not_tokens())).unwrap();
    assert_eq!(c.name, "not");
    let (i, o, x) = names(&c);
    assert_eq!(i, vec![String::from("A")]);
    assert_eq!(o, vec![String::from("Z")]);
    assert!(x.is_empty());
    assert_eq!(c.instructions.len(), 1);
    assert_eq!(c.instructions[0].callee, "nand");
    assert_eq!(c.instructions[0].inputs, vec![String::from("A"), String::from("A")]);
    assert_eq!(c.instructions[0].outputs, vec![String::from("Z")]);
}

#[test]
fn parse_and_chip_keeps_declaration_order() {
    let c = parse(stack(and_tokens())).unwrap();
    assert_eq!(c.name, "and");
    let (i, o, x) = names(&c);
    assert_eq!(i, vec![String::from("A"), String::from("B")]);
    assert_eq!(o, vec![String::from("Z")]);
    assert_eq!(x, vec![String::from("X")]);
    assert_eq!(c.instructions.len(), 2);
    assert_eq!(c.instructions[0].callee, "nand");
    assert_eq!(c.instructions[1].callee, "not");
    assert_eq!(c.internal[0].width, 1);
}

#[test]
fn parse_is_deterministic() {
    let a = parse(stack(and_tokens()));
    let b = parse(stack(and_tokens()));
    assert_eq!(a, b);
    assert!(a.is_ok());
}

#[test]
fn parse_requires_chip_keyword() {
    let mut ts = not_tokens();
    ts.remove(0);
    let r = parse(stack(ts));
    assert_eq!(
        r,
        Err(ParseError::Syntax(SyntaxError { expected: TokenKind::ChipKeyword, found: Some(ident(1, "not")) }))
    );
}

#[test]
fn parse_empty_sequence_reports_end_of_input() {
    let r = parse(Vec::new());
    assert_eq!(r, Err(ParseError::Syntax(SyntaxError { expected: TokenKind::ChipKeyword, found: None })));
}

#[test]
fn parse_truncated_body_reports_end_of_input() {
    let mut ts = not_tokens();
    ts.pop();
    let r = parse(stack(ts));
    assert_eq!(r, Err(ParseError::Syntax(SyntaxError { expected: TokenKind::BraceClose, found: None })));
}

#[test]
fn parse_rejects_unexpected_body_token() {
    let mut ts = not_tokens();
    ts.insert(12, tok(99, Lexeme::Integer(3)));
    let r = parse(stack(ts));
    assert_eq!(
        r,
        Err(ParseError::Syntax(SyntaxError { expected: TokenKind::BraceClose, found: Some(tok(99, Lexeme::Integer(3))) }))
    );
}

#[test]
fn parse_rejects_trailing_tokens() {
    let mut ts = not_tokens();
    ts.push(tok(40, Lexeme::Semicolon));
    let r = parse(stack(ts));
    assert_eq!(
        r,
        Err(ParseError::Syntax(SyntaxError { expected: TokenKind::End, found: Some(tok(40, Lexeme::Semicolon)) }))
    );
}

#[test]
fn parse_rejects_empty_input_list() {
    let ts = vec![
        tok(0, Lexeme::ChipKeyword),
        ident(1, "c"),
        tok(2, Lexeme::ParenOpen),
        tok(3, Lexeme::ParenClose),
    ];
    let r = parse(stack(ts));
    assert_eq!(
        r,
        Err(ParseError::Syntax(SyntaxError { expected: TokenKind::Identifier, found: Some(tok(3, Lexeme::ParenClose)) }))
    );
}

#[test]
fn parse_rejects_duplicate_wire_name() {
    let mut ts = and_tokens();
    // Rename the internal wire X to A, an input name.
    ts[17] = ident(17, "A");
    let r = parse(stack(ts));
    assert_eq!(r, Err(ParseError::DuplicateName { chip: String::from("and"), name: String::from("A") }));
}

#[test]
fn parse_rejects_output_named_like_input() {
    let mut ts = not_tokens();
    ts[8] = ident(12, "A");
    let r = parse(stack(ts));
    assert_eq!(r, Err(ParseError::DuplicateName { chip: String::from("not"), name: String::from("A") }));
}

#[test]
fn parse_chip_rejects_duplicate_wire_name() {
    let mut ts = stack(vec![
        ident(1, "d"),
        tok(2, Lexeme::ParenOpen),
        ident(3, "A"),
        tok(4, Lexeme::Colon),
        tok(5, Lexeme::Integer(1)),
        tok(6, Lexeme::ParenClose),
        tok(7, Lexeme::Arrow),
        ident(8, "A"),
        tok(9, Lexeme::Colon),
        tok(10, Lexeme::Integer(1)),
        tok(11, Lexeme::BraceOpen),
        tok(12, Lexeme::BraceClose),
    ]);
    let r = parse_chip(&mut ts);
    assert_eq!(r, Err(ParseError::DuplicateName { chip: String::from("d"), name: String::from("A") }));
}

#[test]
fn parse_chip_reports_syntax_error() {
    let mut ts = stack(vec![ident(1, "d"), tok(2, Lexeme::Arrow)]);
    let r = parse_chip(&mut ts);
    assert_eq!(
        r,
        Err(ParseError::Syntax(SyntaxError { expected: TokenKind::ParenOpen, found: Some(tok(2, Lexeme::Arrow)) }))
    );
}
