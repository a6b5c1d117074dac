use vstd::prelude::*;

use crate::chip::{Chip, ChipView, InstrView, Instruction, Wire};
use crate::token::{expect_spec, kind_of, match_token, Payload, SyntaxError, Token, TokenKind};

verus! {

// The parser consumes a stack of tokens: the last element of the sequence is
// the next token to read. Each grammar rule below maps the stack it starts on
// to what it builds and the stack that is left, or to the first syntax error.

/// Reads the next token, which must have kind `k`.
pub open spec fn take(s: Seq<Token>, k: TokenKind) -> Result<(Payload, Seq<Token>), SyntaxError> {
    if s.len() == 0 {
        Err(SyntaxError { expected: k, found: None })
    } else {
        match expect_spec(s.last(), k) {
            Ok(p) => Ok((p, s.drop_last())),
            Err(e) => Err(e),
        }
    }
}

pub open spec fn name_of(p: Payload) -> String {
    match p {
        Payload::Name(s) => s,
        _ => arbitrary(),
    }
}

pub open spec fn number_of(p: Payload) -> u64 {
    match p {
        Payload::Number(v) => v,
        _ => 0,
    }
}

/// The end of a list: the next token is `,` (more follows), `close` (the
/// list ends, `close` consumed), or anything else (an error on `close`).
pub open spec fn separator(s: Seq<Token>, close: TokenKind) -> Result<(bool, Seq<Token>), SyntaxError> {
    if s.len() == 0 {
        Err(SyntaxError { expected: close, found: None })
    } else if kind_of(s.last()) == TokenKind::Comma {
        Ok((true, s.drop_last()))
    } else if kind_of(s.last()) == close {
        Ok((false, s.drop_last()))
    } else {
        Err(SyntaxError { expected: close, found: Some(s.last()) })
    }
}

/// `wire := IDENT ':' INTEGER`
pub open spec fn wire_at(s: Seq<Token>) -> Result<(Wire, Seq<Token>), SyntaxError> {
    match take(s, TokenKind::Identifier) {
        Err(e) => Err(e),
        Ok((n, r1)) => match take(r1, TokenKind::Colon) {
            Err(e) => Err(e),
            Ok((_, r2)) => match take(r2, TokenKind::Integer) {
                Err(e) => Err(e),
                Ok((w, r3)) => Ok((Wire { name: name_of(n), width: number_of(w) }, r3)),
            },
        },
    }
}

/// `wire (',' wire)* close`, where `acc` holds the wires read so far.
pub open spec fn wires_from(s: Seq<Token>, close: TokenKind, acc: Seq<Wire>) -> Result<(Seq<Wire>, Seq<Token>), SyntaxError>
    decreases s.len(),
{
    match wire_at(s) {
        Err(e) => Err(e),
        Ok((w, r1)) => match separator(r1, close) {
            Err(e) => Err(e),
            Ok((more, r2)) => if more {
                wires_from(r2, close, acc.push(w))
            } else {
                Ok((acc.push(w), r2))
            },
        },
    }
}

/// `IDENT (',' IDENT)* close`, where `acc` holds the names read so far.
pub open spec fn names_from(s: Seq<Token>, close: TokenKind, acc: Seq<String>) -> Result<(Seq<String>, Seq<Token>), SyntaxError>
    decreases s.len(),
{
    match take(s, TokenKind::Identifier) {
        Err(e) => Err(e),
        Ok((n, r1)) => match separator(r1, close) {
            Err(e) => Err(e),
            Ok((more, r2)) => if more {
                names_from(r2, close, acc.push(name_of(n)))
            } else {
                Ok((acc.push(name_of(n)), r2))
            },
        },
    }
}

/// `instruction := IDENT '(' name_list ')' '->' name_list ';'`
pub open spec fn inst_at(s: Seq<Token>) -> Result<(InstrView, Seq<Token>), SyntaxError> {
    match take(s, TokenKind::Identifier) {
        Err(e) => Err(e),
        Ok((n, r1)) => match take(r1, TokenKind::ParenOpen) {
            Err(e) => Err(e),
            Ok((_, r2)) => match names_from(r2, TokenKind::ParenClose, seq![]) {
                Err(e) => Err(e),
                Ok((ins, r3)) => match take(r3, TokenKind::Arrow) {
                    Err(e) => Err(e),
                    Ok((_, r4)) => match names_from(r4, TokenKind::Semicolon, seq![]) {
                        Err(e) => Err(e),
                        Ok((outs, r5)) => Ok(
                            (InstrView { callee: name_of(n), inputs: ins, outputs: outs }, r5),
                        ),
                    },
                },
            },
        },
    }
}

/// Pairs an exec result with the stack that is left.
pub open spec fn at<T>(r: Result<T, SyntaxError>, rest: Seq<Token>) -> Result<(T, Seq<Token>), SyntaxError> {
    match r {
        Ok(v) => Ok((v, rest)),
        Err(e) => Err(e),
    }
}

fn take_token(tokens: &mut Vec<Token>, k: TokenKind) -> (r: Result<Payload, SyntaxError>)
    ensures
        at(r, final(tokens)@) == take(old(tokens)@, k),
{
    match tokens.pop() {
        None => Err(SyntaxError { expected: k, found: None }),
        Some(t) => match_token(t, k),
    }
}

fn take_name(tokens: &mut Vec<Token>) -> (r: Result<String, SyntaxError>)
    ensures
        match take(old(tokens)@, TokenKind::Identifier) {
            Ok((p, rest)) => r == Ok::<String, SyntaxError>(name_of(p)) && final(tokens)@ == rest,
            Err(e) => r == Err::<String, SyntaxError>(e),
        },
{
    match take_token(tokens, TokenKind::Identifier) {
        Ok(Payload::Name(s)) => Ok(s),
        Ok(_) => unreached(),
        Err(e) => Err(e),
    }
}

fn take_separator(tokens: &mut Vec<Token>, close: TokenKind) -> (r: Result<bool, SyntaxError>)
    ensures
        at(r, final(tokens)@) == separator(old(tokens)@, close),
{
    match tokens.pop() {
        None => Err(SyntaxError { expected: close, found: None }),
        Some(t) => if t.kind() == TokenKind::Comma {
            Ok(true)
        } else {
            match match_token(t, close) {
                Ok(_) => Ok(false),
                Err(e) => Err(e),
            }
        },
    }
}

/// Reads one wire declaration, `IDENT ':' INTEGER`.
pub fn parse_cross(tokens: &mut Vec<Token>) -> (r: Result<Wire, SyntaxError>)
    ensures
        at(r, final(tokens)@) == wire_at(old(tokens)@),
{
    let name = match take_name(tokens) {
        Ok(s) => s,
        Err(e) => return Err(e),
    };
    match take_token(tokens, TokenKind::Colon) {
        Ok(_) => {},
        Err(e) => return Err(e),
    }
    match take_token(tokens, TokenKind::Integer) {
        Ok(Payload::Number(width)) => Ok(Wire { name, width }),
        Ok(_) => unreached(),
        Err(e) => Err(e),
    }
}

/// `body := (cross_decl | instruction)* '}'`, where `internal` and `instrs`
/// hold what was declared so far.
pub open spec fn body_from(s: Seq<Token>, internal: Seq<Wire>, instrs: Seq<InstrView>) -> Result<
    (Seq<Wire>, Seq<InstrView>, Seq<Token>),
    SyntaxError,
>
    decreases s.len(),
{
    if s.len() == 0 {
        Err(SyntaxError { expected: TokenKind::BraceClose, found: None })
    } else if kind_of(s.last()) == TokenKind::BraceClose {
        Ok((internal, instrs, s.drop_last()))
    } else if kind_of(s.last()) == TokenKind::CrossKeyword {
        match wire_at(s.drop_last()) {
            Err(e) => Err(e),
            Ok((w, r1)) => match take(r1, TokenKind::Semicolon) {
                Err(e) => Err(e),
                Ok((_, r2)) => body_from(r2, internal.push(w), instrs),
            },
        }
    } else if kind_of(s.last()) == TokenKind::Identifier {
        match inst_at(s) {
            Err(e) => Err(e),
            Ok((i, r1)) => {
                proof {
                    lemma_inst_shrinks(s);
                }
                body_from(r1, internal, instrs.push(i))
            },
        }
    } else {
        Err(SyntaxError { expected: TokenKind::BraceClose, found: Some(s.last()) })
    }
}

/// `chip_def := IDENT '(' wire_list ')' '->' wire_list '{' body '}'`
pub open spec fn chip_def_at(s: Seq<Token>) -> Result<(ChipView, Seq<Token>), SyntaxError> {
    match take(s, TokenKind::Identifier) {
        Err(e) => Err(e),
        Ok((n, r1)) => match take(r1, TokenKind::ParenOpen) {
            Err(e) => Err(e),
            Ok((_, r2)) => match wires_from(r2, TokenKind::ParenClose, seq![]) {
                Err(e) => Err(e),
                Ok((ins, r3)) => match take(r3, TokenKind::Arrow) {
                    Err(e) => Err(e),
                    Ok((_, r4)) => match wires_from(r4, TokenKind::BraceOpen, seq![]) {
                        Err(e) => Err(e),
                        Ok((outs, r5)) => match body_from(r5, seq![], seq![]) {
                            Err(e) => Err(e),
                            Ok((internal, instrs, r6)) => Ok(
                                (
                                    ChipView {
                                        name: name_of(n),
                                        inputs: ins,
                                        outputs: outs,
                                        internal,
                                        instructions: instrs,
                                    },
                                    r6,
                                ),
                            ),
                        },
                    },
                },
            },
        },
    }
}

pub proof fn lemma_names_shrink(s: Seq<Token>, close: TokenKind, acc: Seq<String>)
    ensures
        names_from(s, close, acc) is Ok ==> names_from(s, close, acc)->Ok_0.1.len() < s.len(),
    decreases s.len(),
{
    if let Ok((_, r1)) = take(s, TokenKind::Identifier) {
        if let Ok((more, r2)) = separator(r1, close) {
            if more {
                lemma_names_shrink(r2, close, acc.push(name_of(take(s, TokenKind::Identifier)->Ok_0.0)));
            }
        }
    }
}

pub proof fn lemma_inst_shrinks(s: Seq<Token>)
    ensures
        inst_at(s) is Ok ==> inst_at(s)->Ok_0.1.len() < s.len(),
{
    if let Ok((_, r1)) = take(s, TokenKind::Identifier) {
        if let Ok((_, r2)) = take(r1, TokenKind::ParenOpen) {
            lemma_names_shrink(r2, TokenKind::ParenClose, seq![]);
            if let Ok((_, r3)) = names_from(r2, TokenKind::ParenClose, seq![]) {
                if let Ok((_, r4)) = take(r3, TokenKind::Arrow) {
                    lemma_names_shrink(r4, TokenKind::Semicolon, seq![]);
                }
            }
        }
    }
}

fn parse_wire_list(tokens: &mut Vec<Token>, close: TokenKind) -> (r: Result<Vec<Wire>, SyntaxError>)
    ensures
        match r {
            Ok(ws) => wires_from(old(tokens)@, close, seq![]) == Ok::<(Seq<Wire>, Seq<Token>), SyntaxError>((ws@, final(tokens)@)),
            Err(e) => wires_from(old(tokens)@, close, seq![]) == Err::<(Seq<Wire>, Seq<Token>), SyntaxError>(e),
        },
{
    let mut ws: Vec<Wire> = Vec::new();
    loop
        invariant
            wires_from(old(tokens)@, close, seq![]) == wires_from(tokens@, close, ws@),
        decreases tokens@.len(),
    {
        let w = match parse_cross(tokens) {
            Ok(w) => w,
            Err(e) => return Err(e),
        };
        ws.push(w);
        match take_separator(tokens, close) {
            Ok(true) => {},
            Ok(false) => return Ok(ws),
            Err(e) => return Err(e),
        }
    }
}

fn parse_name_list(tokens: &mut Vec<Token>, close: TokenKind) -> (r: Result<Vec<String>, SyntaxError>)
    ensures
        match r {
            Ok(ns) => names_from(old(tokens)@, close, seq![]) == Ok::<(Seq<String>, Seq<Token>), SyntaxError>((ns@, final(tokens)@)),
            Err(e) => names_from(old(tokens)@, close, seq![]) == Err::<(Seq<String>, Seq<Token>), SyntaxError>(e),
        },
{
    let mut ns: Vec<String> = Vec::new();
    loop
        invariant
            names_from(old(tokens)@, close, seq![]) == names_from(tokens@, close, ns@),
        decreases tokens@.len(),
    {
        let name = match take_name(tokens) {
            Ok(s) => s,
            Err(e) => return Err(e),
        };
        ns.push(name);
        match take_separator(tokens, close) {
            Ok(true) => {},
            Ok(false) => return Ok(ns),
            Err(e) => return Err(e),
        }
    }
}

/// Reads one instruction, `IDENT '(' name_list ')' '->' name_list ';'`.
pub fn parse_inst(tokens: &mut Vec<Token>) -> (r: Result<Instruction, SyntaxError>)
    ensures
        match r {
            Ok(i) => inst_at(old(tokens)@) == Ok::<(InstrView, Seq<Token>), SyntaxError>((i@, final(tokens)@)),
            Err(e) => inst_at(old(tokens)@) == Err::<(InstrView, Seq<Token>), SyntaxError>(e),
        },
{
    let callee = match take_name(tokens) {
        Ok(s) => s,
        Err(e) => return Err(e),
    };
    match take_token(tokens, TokenKind::ParenOpen) {
        Ok(_) => {},
        Err(e) => return Err(e),
    }
    let inputs = match parse_name_list(tokens, TokenKind::ParenClose) {
        Ok(ns) => ns,
        Err(e) => return Err(e),
    };
    match take_token(tokens, TokenKind::Arrow) {
        Ok(_) => {},
        Err(e) => return Err(e),
    }
    let outputs = match parse_name_list(tokens, TokenKind::Semicolon) {
        Ok(ns) => ns,
        Err(e) => return Err(e),
    };
    Ok(Instruction { callee, inputs, outputs })
}

/// An error that ends a parse: a syntax error, or a wire name declared twice
/// in one chip.
#[derive(Clone, Debug, PartialEq, Eq)]
pub enum ParseError {
    Syntax(SyntaxError),
    DuplicateName { chip: String, name: String },
}

/// The names of every wire of a chip: inputs, then outputs, then internal
/// wires.
pub open spec fn wire_names(c: ChipView) -> Seq<String> {
    (c.inputs + c.outputs + c.internal).map_values(|w: Wire| w.name)
}

/// The first name, from position `j` on, that an earlier position already
/// holds.
pub open spec fn first_duplicate_from(ns: Seq<String>, j: int) -> Option<String>
    decreases ns.len() - j,
{
    if j < 0 || j >= ns.len() {
        None
    } else if exists|i: int| 0 <= i < j && ns[i]@ == ns[j]@ {
        Some(ns[j])
    } else {
        first_duplicate_from(ns, j + 1)
    }
}

/// A chip whose wire names are unique, or the first name declared twice.
pub open spec fn check_names(c: ChipView) -> Result<ChipView, ParseError> {
    match first_duplicate_from(wire_names(c), 0) {
        Some(name) => Err(ParseError::DuplicateName { chip: c.name, name }),
        None => Ok(c),
    }
}

/// A chip definition whose wire names are unique.
pub open spec fn chip_at(s: Seq<Token>) -> Result<(ChipView, Seq<Token>), ParseError> {
    match chip_def_at(s) {
        Err(e) => Err(ParseError::Syntax(e)),
        Ok((c, rest)) => match check_names(c) {
            Err(e) => Err(e),
            Ok(c) => Ok((c, rest)),
        },
    }
}

/// A whole chip unit, `'chip' chip_def`, that drains the tokens, with no wire
/// name declared twice.
pub open spec fn parse_spec(s: Seq<Token>) -> Result<ChipView, ParseError> {
    match take(s, TokenKind::ChipKeyword) {
        Err(e) => Err(ParseError::Syntax(e)),
        Ok((_, r1)) => match chip_at(r1) {
            Err(e) => Err(e),
            Ok((c, rest)) => if rest.len() > 0 {
                Err(
                    ParseError::Syntax(
                        SyntaxError { expected: TokenKind::End, found: Some(rest.last()) },
                    ),
                )
            } else {
                Ok(c)
            },
        },
    }
}

fn parse_body(tokens: &mut Vec<Token>) -> (r: Result<(Vec<Wire>, Vec<Instruction>), SyntaxError>)
    ensures
        match r {
            Ok((ws, is)) => body_from(old(tokens)@, seq![], seq![]) == Ok::<(Seq<Wire>, Seq<InstrView>, Seq<Token>), SyntaxError>(
                (ws@, is@.map_values(|i: Instruction| i@), final(tokens)@),
            ),
            Err(e) => body_from(old(tokens)@, seq![], seq![]) == Err::<(Seq<Wire>, Seq<InstrView>, Seq<Token>), SyntaxError>(e),
        },
{
    let mut internal: Vec<Wire> = Vec::new();
    let mut instrs: Vec<Instruction> = Vec::new();
    assert(instrs@.map_values(|i: Instruction| i@) =~= seq![]);
    loop
        invariant
            body_from(old(tokens)@, seq![], seq![]) == body_from(
                tokens@,
                internal@,
                instrs@.map_values(|i: Instruction| i@),
            ),
        decreases tokens@.len(),
    {
        let ghost before = tokens@;
        let ghost views = instrs@.map_values(|i: Instruction| i@);
        let k = match tokens.last() {
            None => return Err(SyntaxError { expected: TokenKind::BraceClose, found: None }),
            Some(t) => t.kind(),
        };
        if k == TokenKind::BraceClose {
            tokens.pop();
            return Ok((internal, instrs));
        } else if k == TokenKind::CrossKeyword {
            tokens.pop();
            let w = match parse_cross(tokens) {
                Ok(w) => w,
                Err(e) => return Err(e),
            };
            match take_token(tokens, TokenKind::Semicolon) {
                Ok(_) => {},
                Err(e) => return Err(e),
            }
            internal.push(w);
        } else if k == TokenKind::Identifier {
            let i = match parse_inst(tokens) {
                Ok(i) => i,
                Err(e) => return Err(e),
            };
            proof {
                lemma_inst_shrinks(before);
            }
            instrs.push(i);
            assert(instrs@.map_values(|i: Instruction| i@) =~= views.push(i@));
        } else {
            match tokens.pop() {
                Some(t) => return Err(SyntaxError { expected: TokenKind::BraceClose, found: Some(t) }),
                None => return Err(SyntaxError { expected: TokenKind::BraceClose, found: None }),
            }
        }
    }
}

fn parse_chip_def(tokens: &mut Vec<Token>) -> (r: Result<Chip, SyntaxError>)
    ensures
        match r {
            Ok(c) => chip_def_at(old(tokens)@) == Ok::<(ChipView, Seq<Token>), SyntaxError>((c@, final(tokens)@)),
            Err(e) => chip_def_at(old(tokens)@) == Err::<(ChipView, Seq<Token>), SyntaxError>(e),
        },
{
    let name = match take_name(tokens) {
        Ok(s) => s,
        Err(e) => return Err(e),
    };
    match take_token(tokens, TokenKind::ParenOpen) {
        Ok(_) => {},
        Err(e) => return Err(e),
    }
    let inputs = match parse_wire_list(tokens, TokenKind::ParenClose) {
        Ok(ws) => ws,
        Err(e) => return Err(e),
    };
    match take_token(tokens, TokenKind::Arrow) {
        Ok(_) => {},
        Err(e) => return Err(e),
    }
    let outputs = match parse_wire_list(tokens, TokenKind::BraceOpen) {
        Ok(ws) => ws,
        Err(e) => return Err(e),
    };
    let (internal, instructions) = match parse_body(tokens) {
        Ok(b) => b,
        Err(e) => return Err(e),
    };
    Ok(Chip { name, inputs, outputs, internal, instructions })
}

fn append_names(ns: &mut Vec<String>, ws: &Vec<Wire>)
    ensures
        final(ns)@ == old(ns)@ + ws@.map_values(|w: Wire| w.name),
{
    let mut k: usize = 0;
    while k < ws.len()
        invariant
            k <= ws@.len(),
            ns@ == old(ns)@ + ws@.subrange(0, k as int).map_values(|w: Wire| w.name),
        decreases ws.len() - k,
    {
        ns.push(ws[k].name.clone());
        k = k + 1;
        assert(ws@.subrange(0, k as int) =~= ws@.subrange(0, k - 1).push(ws@[k - 1]));
    }
    assert(ws@.subrange(0, k as int) =~= ws@);
}

/// The first wire name of `c` that an earlier wire of `c` already has.
fn find_duplicate(c: &Chip) -> (r: Option<String>)
    ensures
        r == first_duplicate_from(wire_names(c@), 0),
{
    let mut names: Vec<String> = Vec::new();
    append_names(&mut names, &c.inputs);
    append_names(&mut names, &c.outputs);
    append_names(&mut names, &c.internal);
    let ghost ns = wire_names(c@);
    assert(names@ =~= ns);
    let n = names.len();
    let mut j: usize = 0;
    while j < n
        invariant
            ns == wire_names(c@),
            names@ == ns,
            n == ns.len(),
            j <= n,
            first_duplicate_from(ns, 0) == first_duplicate_from(ns, j as int),
        decreases n - j,
    {
        let mut i: usize = 0;
        while i < j
            invariant
                i <= j < n,
                ns == wire_names(c@),
                names@ == ns,
                n == ns.len(),
                first_duplicate_from(ns, 0) == first_duplicate_from(ns, j as int),
                forall|k: int| 0 <= k < i ==> ns[k]@ != ns[j as int]@,
            decreases j - i,
        {
            if names[i] == names[j] {
                assert(0 <= i < j && ns[i as int]@ == ns[j as int]@);
                assert(first_duplicate_from(ns, j as int) == Some(ns[j as int]));
                let dup = names[j].clone();
                return Some(dup);
            }
            i = i + 1;
        }
        j = j + 1;
    }
    None
}

/// Reads a chip definition that follows the chip keyword,
/// `IDENT '(' wire_list ')' '->' wire_list '{' body '}'`, and rejects a wire
/// name that the chip declares twice among its inputs, outputs and internal
/// wires.
pub fn parse_chip(tokens: &mut Vec<Token>) -> (r: Result<Chip, ParseError>)
    ensures
        match r {
            Ok(c) => chip_at(old(tokens)@) == Ok::<(ChipView, Seq<Token>), ParseError>((c@, final(tokens)@)),
            Err(e) => chip_at(old(tokens)@) == Err::<(ChipView, Seq<Token>), ParseError>(e),
        },
{
    let chip = match parse_chip_def(tokens) {
        Ok(c) => c,
        Err(e) => return Err(ParseError::Syntax(e)),
    };
    match find_duplicate(&chip) {
        Some(name) => Err(ParseError::DuplicateName { chip: chip.name, name }),
        None => Ok(chip),
    }
}

/// Parses one chip unit: `'chip' chip_def`, which must use up every token.
/// The stack's last element is the first token of the unit.
pub fn parse(tokens: Vec<Token>) -> (r: Result<Chip, ParseError>)
    ensures
        match r {
            Ok(c) => parse_spec(tokens@) == Ok::<ChipView, ParseError>(c@),
            Err(e) => parse_spec(tokens@) == Err::<ChipView, ParseError>(e),
        },
{
    let mut tokens = tokens;
    match take_token(&mut tokens, TokenKind::ChipKeyword) {
        Ok(_) => {},
        Err(e) => return Err(ParseError::Syntax(e)),
    }
    let chip = match parse_chip(&mut tokens) {
        Ok(c) => c,
        Err(e) => return Err(e),
    };
    match tokens.pop() {
        Some(t) => Err(ParseError::Syntax(SyntaxError { expected: TokenKind::End, found: Some(t) })),
        None => Ok(chip),
    }
}

} // verus!
