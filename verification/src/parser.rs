//! The parser of the assembly language: from source text to a program.
use vstd::prelude::*;
use vstd::string::StringSliceAdditionalSpecFns;
use vstd::utf8::*;

use crate::assembler::{program_view, Instr, InstrView, Node, NodeView, Program};
use crate::lexer::{lex, lexeme_is, span_text, tokenize, Lexeme, Span, Token, TokenKind};
use crate::words::{meta_at, meta_of, mnemonic_at, mnemonic_of, Meta, Mnemonic};

verus! {

broadcast use vstd::utf8::encode_utf8_valid_utf8, vstd::utf8::encode_utf8_decode_utf8;

/// A fault in the source text, with the line it stands on.
#[derive(Debug, Clone, PartialEq, Eq)]
pub enum ParseError {
    /// Text that is no token.
    UnrecognizedToken { line: usize, text: String },
    /// A meta operator other than `@point`, `@push` and `@pushstr`.
    UnknownMetaOperator { line: usize, name: String },
    /// A word that is no operator and that no jump or label expects.
    UnexpectedIdentifier { line: usize, name: String },
    /// A number operand that does not fit in a byte.
    InvalidNumber { line: usize, literal: String },
}

/// A fault in the source text, with its text as a character sequence.
pub ghost enum ParseErrorView {
    UnrecognizedToken(usize, Seq<char>),
    UnknownMetaOperator(usize, Seq<char>),
    UnexpectedIdentifier(usize, Seq<char>),
    InvalidNumber(usize, Seq<char>),
}

impl View for ParseError {
    type V = ParseErrorView;

    open spec fn view(&self) -> ParseErrorView {
        match self {
            ParseError::UnrecognizedToken { line, text } => ParseErrorView::UnrecognizedToken(
                *line,
                text@,
            ),
            ParseError::UnknownMetaOperator { line, name } => ParseErrorView::UnknownMetaOperator(
                *line,
                name@,
            ),
            ParseError::UnexpectedIdentifier { line, name } => ParseErrorView::UnexpectedIdentifier(
                *line,
                name@,
            ),
            ParseError::InvalidNumber { line, literal } => ParseErrorView::InvalidNumber(
                *line,
                literal@,
            ),
        }
    }
}

/// What the parser expects next.
#[derive(Debug, Clone, Copy, PartialEq, Eq, Structural)]
pub enum Pending {
    /// Nothing in particular.
    Idle,
    /// The size operand of `print`.
    Print,
    /// The operand of `push`.
    Push,
    /// Numbers to push, after `@push`, up to the next `;`.
    PushMulti,
    /// Strings to push, after `@pushstr`, up to the next `;`.
    PushStr,
    /// The target label of `jmp`.
    Jmp,
    /// The target label of `jz`.
    Jz,
    /// The name of a label, after `@point`.
    Point,
}

/// The parser's state after a prefix of the tokens.
pub ghost struct ParseState {
    pub program: Seq<NodeView>,
    pub pending: Pending,
    pub errors: Seq<ParseErrorView>,
}

/// Number of newlines in `b[0..end]`.
pub open spec fn newlines_before(b: Seq<u8>, end: int) -> nat
    decreases end,
{
    if end <= 0 {
        0
    } else {
        newlines_before(b, end - 1) + if b[end - 1] == 10 {
            1nat
        } else {
            0nat
        }
    }
}

/// The line (counted from 1) on which byte `offset` of `b` stands.
pub open spec fn line_at(b: Seq<u8>, offset: int) -> nat {
    newlines_before(b, offset) + 1
}

/// The value of a string of decimal digits.
pub open spec fn decimal_value(w: Seq<u8>) -> nat
    decreases w.len(),
{
    if w.len() == 0 {
        0
    } else {
        decimal_value(w.drop_last()) * 10 + (w.last() - 48) as nat
    }
}

/// All bytes of `w` are decimal digits.
pub open spec fn all_digits(w: Seq<u8>) -> bool {
    forall|i: int| 0 <= i < w.len() ==> 48 <= #[trigger] w[i] <= 57
}

/// The byte that a non-empty string of decimal digits denotes, if it fits.
pub open spec fn byte_value(w: Seq<u8>) -> Option<u8> {
    if decimal_value(w) <= 255 {
        Some(decimal_value(w) as u8)
    } else {
        None
    }
}

/// The instruction that an operator without operand stands for.
pub open spec fn plain_instr(m: Mnemonic) -> Option<InstrView> {
    match m {
        Mnemonic::Add => Some(InstrView::Add),
        Mnemonic::Sub => Some(InstrView::Sub),
        Mnemonic::Dup => Some(InstrView::Dup),
        Mnemonic::Swap => Some(InstrView::Swap),
        Mnemonic::Ret => Some(InstrView::Ret),
        Mnemonic::Pop => Some(InstrView::Pop),
        Mnemonic::Mul => Some(InstrView::Mul),
        Mnemonic::Mod => Some(InstrView::Mod),
        Mnemonic::Div => Some(InstrView::Div),
        Mnemonic::Load => Some(InstrView::Load),
        Mnemonic::Store => Some(InstrView::Store),
        Mnemonic::Eq => Some(InstrView::Eq),
        Mnemonic::Lt => Some(InstrView::Lt),
        Mnemonic::Gte => Some(InstrView::Gte),
        _ => None,
    }
}

/// `push` of each byte of `bytes`, all on `line`.
pub open spec fn push_all(bytes: Seq<u8>, line: usize) -> Seq<NodeView> {
    bytes.map_values(|v: u8| NodeView::Instr(InstrView::Push(v), line))
}

/// The parser's state after the token `sp` of source `b`.
pub open spec fn parse_step(st: ParseState, b: Seq<u8>, sp: Span) -> ParseState {
    let line = line_at(b, sp.start) as usize;
    let text = span_text(b, sp);
    let word = b.subrange(sp.start, sp.end);
    match sp.kind {
        TokenKind::Error => ParseState {
            errors: st.errors.push(ParseErrorView::UnrecognizedToken(line, text)),
            ..st
        },
        TokenKind::MetaOperator => match meta_of(word) {
            Some(Meta::Point) => ParseState { pending: Pending::Point, ..st },
            Some(Meta::Push) => ParseState { pending: Pending::PushMulti, ..st },
            Some(Meta::PushStr) => ParseState { pending: Pending::PushStr, ..st },
            None => ParseState {
                errors: st.errors.push(ParseErrorView::UnknownMetaOperator(line, text)),
                ..st
            },
        },
        TokenKind::Operator => match mnemonic_of(word) {
            Some(m) => match plain_instr(m) {
                Some(i) => ParseState {
                    program: st.program.push(NodeView::Instr(i, line)),
                    pending: Pending::Idle,
                    ..st
                },
                None => ParseState {
                    pending: match m {
                        Mnemonic::Print => Pending::Print,
                        Mnemonic::Push => Pending::Push,
                        Mnemonic::Jmp => Pending::Jmp,
                        _ => Pending::Jz,
                    },
                    ..st
                },
            },
            None => match st.pending {
                Pending::Jmp => ParseState {
                    program: st.program.push(NodeView::Instr(InstrView::Jmp(text), line)),
                    pending: Pending::Idle,
                    ..st
                },
                Pending::Jz => ParseState {
                    program: st.program.push(NodeView::Instr(InstrView::Jz(text), line)),
                    pending: Pending::Idle,
                    ..st
                },
                Pending::Point => ParseState {
                    program: st.program.push(NodeView::Label(text, line)),
                    pending: Pending::Idle,
                    ..st
                },
                _ => ParseState {
                    errors: st.errors.push(ParseErrorView::UnexpectedIdentifier(line, text)),
                    ..st
                },
            },
        },
        TokenKind::Number => if st.pending == Pending::Push || st.pending == Pending::PushMulti
            || st.pending == Pending::Print {
            match byte_value(word) {
                Some(v) => if st.pending == Pending::Print {
                    ParseState {
                        program: st.program.push(NodeView::Instr(InstrView::Print(v), line)),
                        pending: Pending::Idle,
                        ..st
                    }
                } else {
                    ParseState {
                        program: st.program.push(NodeView::Instr(InstrView::Push(v), line)),
                        pending: if st.pending == Pending::Push {
                            Pending::Idle
                        } else {
                            st.pending
                        },
                        ..st
                    }
                },
                None => ParseState {
                    errors: st.errors.push(ParseErrorView::InvalidNumber(line, text)),
                    ..st
                },
            }
        } else {
            st
        },
        TokenKind::Text => if st.pending == Pending::PushStr {
            ParseState {
                program: st.program + push_all(b.subrange(sp.start + 1, sp.end - 1), line),
                ..st
            }
        } else {
            st
        },
        TokenKind::Semicolon => ParseState { pending: Pending::Idle, ..st },
    }
}

/// The parser's state after the tokens `spans` of source `b`.
pub open spec fn parse_spans(b: Seq<u8>, spans: Seq<Span>) -> ParseState
    decreases spans.len(),
{
    if spans.len() == 0 {
        ParseState { program: Seq::empty(), pending: Pending::Idle, errors: Seq::empty() }
    } else {
        parse_step(parse_spans(b, spans.drop_last()), b, spans.last())
    }
}

/// The parser's state after all tokens of source `b`.
pub open spec fn parse_source(b: Seq<u8>) -> ParseState {
    parse_spans(b, lex(b))
}


/// The number of newlines grows by at most one per byte.
proof fn lemma_newlines_bound(b: Seq<u8>, end: int)
    requires
        0 <= end,
    ensures
        newlines_before(b, end) <= end,
    decreases end,
{
    if end > 0 {
        lemma_newlines_bound(b, end - 1);
    }
}

/// Counts the newlines of `b[from..to]` onto `count`, the number of newlines
/// in `b[0..from]`.
fn count_newlines(b: &[u8], from: usize, to: usize, count: usize) -> (r: usize)
    requires
        from <= to <= b@.len(),
        count == newlines_before(b@, from as int),
    ensures
        r == newlines_before(b@, to as int),
{
    proof {
        lemma_newlines_bound(b@, to as int);
    }
    let mut n: usize = count;
    let mut j: usize = from;
    while j < to
        invariant
            from <= j <= to <= b@.len(),
            n == newlines_before(b@, j as int),
            newlines_before(b@, to as int) <= to,
        decreases to - j,
    {
        proof {
            lemma_newlines_bound(b@, j as int + 1);
            lemma_newlines_monotone(b@, j as int + 1, to as int);
        }
        if b[j] == 10 {
            n = n + 1;
        }
        j = j + 1;
    }
    n
}

proof fn lemma_newlines_monotone(b: Seq<u8>, a: int, c: int)
    requires
        0 <= a <= c,
    ensures
        newlines_before(b, a) <= newlines_before(b, c),
    decreases c,
{
    if a < c {
        lemma_newlines_monotone(b, a, c - 1);
    }
}

/// The line (counted from 1) on which byte `byte_offset` of the source stands.
pub fn line_of(source: &str, byte_offset: usize) -> (r: usize)
    requires
        byte_offset <= source.spec_bytes().len(),
        crate::lexer::at_char_start(source.spec_bytes(), byte_offset as int),
        byte_offset < usize::MAX,
    ensures
        r == line_at(source.spec_bytes(), byte_offset as int),
{
    let b = source.as_bytes();
    proof {
        lemma_newlines_bound(b@, byte_offset as int);
    }
    count_newlines(b, 0, byte_offset, 0) + 1
}

/// A prefix of a digit string denotes no more than the whole string.
proof fn lemma_decimal_prefix(w: Seq<u8>, k: int)
    requires
        0 <= k <= w.len(),
        all_digits(w),
    ensures
        decimal_value(w.take(k)) <= decimal_value(w),
    decreases w.len(),
{
    if k < w.len() {
        let shorter = w.drop_last();
        assert(shorter.take(k) =~= w.take(k));
        assert(48 <= w[w.len() - 1]);
        lemma_decimal_prefix(shorter, k);
        assert(decimal_value(shorter) <= decimal_value(w)) by (nonlinear_arith)
            requires
                decimal_value(w) == decimal_value(shorter) * 10 + (w.last() - 48) as nat,
        ;
    } else {
        assert(w.take(k) =~= w);
    }
}

/// The byte denoted by the digits `b[start..end]`, if it fits.
pub(crate) fn parse_byte(b: &[u8], start: usize, end: usize) -> (r: Option<u8>)
    requires
        start <= end <= b@.len(),
        all_digits(b@.subrange(start as int, end as int)),
    ensures
        r == byte_value(b@.subrange(start as int, end as int)),
{
    let ghost w = b@.subrange(start as int, end as int);
    let mut acc: u32 = 0;
    let mut i: usize = start;
    while i < end
        invariant
            start <= i <= end <= b@.len(),
            w == b@.subrange(start as int, end as int),
            all_digits(w),
            acc == decimal_value(w.take(i - start)),
            acc <= 255,
        decreases end - i,
    {
        proof {
            assert(w.take(i - start + 1).drop_last() =~= w.take(i - start));
            assert(w[i - start] == b@[i as int]);
        }
        let d = b[i] - 48;
        let next = acc * 10 + d as u32;
        if next > 255 {
            proof {
                lemma_decimal_prefix(w, i - start + 1);
            }
            return None;
        }
        acc = next;
        i = i + 1;
    }
    proof {
        assert(w.take(i - start) =~= w);
    }
    Some(acc as u8)
}

/// The instruction that an operator without operand stands for.
fn plain_instr_exec(m: Mnemonic) -> (r: Option<Instr>)
    ensures
        match plain_instr(m) {
            Some(i) => r matches Some(x) && x@ == i,
            None => r is None,
        },
{
    match m {
        Mnemonic::Add => Some(Instr::Add),
        Mnemonic::Sub => Some(Instr::Sub),
        Mnemonic::Dup => Some(Instr::Dup),
        Mnemonic::Swap => Some(Instr::Swap),
        Mnemonic::Ret => Some(Instr::Ret),
        Mnemonic::Pop => Some(Instr::Pop),
        Mnemonic::Mul => Some(Instr::Mul),
        Mnemonic::Mod => Some(Instr::Mod),
        Mnemonic::Div => Some(Instr::Div),
        Mnemonic::Load => Some(Instr::Load),
        Mnemonic::Store => Some(Instr::Store),
        Mnemonic::Eq => Some(Instr::Eq),
        Mnemonic::Lt => Some(Instr::Lt),
        Mnemonic::Gte => Some(Instr::Gte),
        _ => None,
    }
}

/// The views of a list of errors.
pub open spec fn errors_view(es: Seq<ParseError>) -> Seq<ParseErrorView> {
    es.map_values(|e: ParseError| e@)
}

/// Parses assembly source text into a program.
///
/// Every token is read in turn; all faults of the text are collected. When
/// there are none the result is the program, else the faults in the order of
/// the text.
pub fn parse(source: &str) -> (r: Result<Program, Vec<ParseError>>)
    ensures
        parse_source(source.spec_bytes()).errors.len() == 0 ==> (r matches Ok(p) && program_view(
            p@,
        ) == parse_source(source.spec_bytes()).program),
        parse_source(source.spec_bytes()).errors.len() > 0 ==> (r matches Err(es) && errors_view(
            es@,
        ) == parse_source(source.spec_bytes()).errors),
{
    let b = source.as_bytes();
    let ghost bs = source.spec_bytes();
    let tokens = tokenize(source);
    let ghost spans = lex(bs);
    proof {
        crate::lexer::lemma_lex_from_placed(bs, 0);
    }
    let mut program: Program = Vec::new();
    let mut pending = Pending::Idle;
    let mut errors: Vec<ParseError> = Vec::new();
    let mut scanned: usize = 0;
    let mut newlines: usize = 0;
    let mut k: usize = 0;
    while k < tokens.len()
        invariant
            b@ == bs,
            bs == source.spec_bytes(),
            spans == lex(bs),
            tokens@.len() == spans.len(),
            forall|j: int| 0 <= j < tokens@.len() ==> lexeme_is(#[trigger] tokens@[j], spans[j], bs),
            forall|j: int|
                0 <= j < spans.len() ==> crate::lexer::span_well_placed(bs, #[trigger] spans[j]),
            forall|j: int| 0 <= j < spans.len() - 1 ==> #[trigger] spans[j].end <= spans[j + 1].start,
            k <= tokens@.len(),
            scanned <= bs.len(),
            k < tokens@.len() ==> scanned <= spans[k as int].start,
            newlines == newlines_before(bs, scanned as int),
            program_view(program@) == parse_spans(bs, spans.take(k as int)).program,
            pending == parse_spans(bs, spans.take(k as int)).pending,
            errors_view(errors@) == parse_spans(bs, spans.take(k as int)).errors,
        decreases tokens@.len() - k,
    {
        let ghost sp = spans[k as int];
        let ghost before = parse_spans(bs, spans.take(k as int));
        proof {
            assert(spans.take(k + 1).drop_last() =~= spans.take(k as int));
            assert(spans.take(k + 1).last() == sp);
            if k + 1 < spans.len() {
                assert(spans[k as int].end <= spans[k + 1].start);
            }
        }
        let lexeme: &Lexeme = &tokens[k];
        let start = lexeme.start;
        let end = lexeme.end;
        newlines = count_newlines(b, scanned, start, newlines);
        scanned = start;
        proof {
            lemma_newlines_bound(bs, start as int);
        }
        let line: usize = newlines + 1;
        let ghost program_before = program@;
        let ghost errors_before = errors@;
        match &lexeme.token {
            Err(()) => {
                let text = crate::lexer::substring(source, start, end);
                errors.push(ParseError::UnrecognizedToken { line, text });
                proof {
                    assert(errors_view(errors@) =~= errors_view(errors_before).push(
                        errors@.last()@,
                    ));
                }
            },
            Ok(Token::MetaOperator(name)) => {
                match meta_at(b, start, end) {
                    Some(Meta::Point) => pending = Pending::Point,
                    Some(Meta::Push) => pending = Pending::PushMulti,
                    Some(Meta::PushStr) => pending = Pending::PushStr,
                    None => {
                        errors.push(ParseError::UnknownMetaOperator { line, name: name.clone() });
                        proof {
                            assert(errors_view(errors@) =~= errors_view(errors_before).push(
                                errors@.last()@,
                            ));
                        }
                    },
                }
            },
            Ok(Token::Operator(word)) => {
                match mnemonic_at(b, start, end) {
                    Some(m) => match plain_instr_exec(m) {
                        Some(instr) => {
                            program.push(Node::Instr(instr, line));
                            pending = Pending::Idle;
                            proof {
                                assert(program_view(program@) =~= program_view(program_before).push(
                                    program@.last()@,
                                ));
                            }
                        },
                        None => {
                            pending =
                            match m {
                                Mnemonic::Print => Pending::Print,
                                Mnemonic::Push => Pending::Push,
                                Mnemonic::Jmp => Pending::Jmp,
                                _ => Pending::Jz,
                            };
                        },
                    },
                    None => {
                        match pending {
                            Pending::Jmp => {
                                program.push(Node::Instr(Instr::Jmp(word.clone()), line));
                                pending = Pending::Idle;
                                proof {
                                    assert(program_view(program@) =~= program_view(
                                        program_before,
                                    ).push(program@.last()@));
                                }
                            },
                            Pending::Jz => {
                                program.push(Node::Instr(Instr::Jz(word.clone()), line));
                                pending = Pending::Idle;
                                proof {
                                    assert(program_view(program@) =~= program_view(
                                        program_before,
                                    ).push(program@.last()@));
                                }
                            },
                            Pending::Point => {
                                program.push(Node::Label(word.clone(), line));
                                pending = Pending::Idle;
                                proof {
                                    assert(program_view(program@) =~= program_view(
                                        program_before,
                                    ).push(program@.last()@));
                                }
                            },
                            _ => {
                                errors.push(
                                    ParseError::UnexpectedIdentifier { line, name: word.clone() },
                                );
                                proof {
                                    assert(errors_view(errors@) =~= errors_view(errors_before).push(
                                        errors@.last()@,
                                    ));
                                }
                            },
                        }
                    },
                }
            },
            Ok(Token::Number(literal)) => {
                if pending == Pending::Push || pending == Pending::PushMulti || pending
                    == Pending::Print {
                    proof {
                        assert(all_digits(bs.subrange(start as int, end as int)));
                    }
                    match parse_byte(b, start, end) {
                        Some(value) => {
                            if pending == Pending::Print {
                                program.push(Node::Instr(Instr::Print(value), line));
                                pending = Pending::Idle;
                            } else {
                                program.push(Node::Instr(Instr::Push(value), line));
                                if pending == Pending::Push {
                                    pending = Pending::Idle;
                                }
                            }
                            proof {
                                assert(program_view(program@) =~= program_view(program_before).push(
                                    program@.last()@,
                                ));
                            }
                        },
                        None => {
                            errors.push(ParseError::InvalidNumber { line, literal: literal.clone() });
                            proof {
                                assert(errors_view(errors@) =~= errors_view(errors_before).push(
                                    errors@.last()@,
                                ));
                            }
                        },
                    }
                }
            },
            Ok(Token::Text(_)) => {
                if pending == Pending::PushStr {
                    let mut j: usize = start + 1;
                    while j < end - 1
                        invariant
                            b@ == bs,
                            start + 1 <= j <= end - 1,
                            end <= bs.len(),
                            program_view(program@) == program_view(program_before) + push_all(
                                bs.subrange(start + 1, j as int),
                                line,
                            ),
                        decreases end - 1 - j,
                    {
                        let ghost pv = program@;
                        program.push(Node::Instr(Instr::Push(b[j]), line));
                        proof {
                            let sub = bs.subrange(start + 1, j as int);
                            assert(bs.subrange(start + 1, j + 1) =~= sub.push(bs[j as int]));
                            assert(program_view(program@) =~= program_view(pv).push(
                                NodeView::Instr(InstrView::Push(bs[j as int]), line),
                            ));
                            assert(push_all(sub.push(bs[j as int]), line) =~= push_all(sub, line).push(
                                NodeView::Instr(InstrView::Push(bs[j as int]), line),
                            ));
                            assert(program_view(program@) =~= program_view(program_before)
                                + push_all(bs.subrange(start + 1, j + 1), line));
                        }
                        j = j + 1;
                    }
                }
            },
            Ok(Token::Semicolon) => {
                pending = Pending::Idle;
            },
            Ok(_) => {},
        }
        k = k + 1;
    }
    proof {
        assert(spans.take(k as int) =~= spans);
    }
    if errors.len() > 0 {
        Err(errors)
    } else {
        Ok(program)
    }
}
/// The state `st` with instruction `i` on `line` appended and nothing
/// pending.
pub open spec fn appended(st: ParseState, i: InstrView, line: usize) -> ParseState {
    ParseState {
        program: st.program.push(NodeView::Instr(i, line)),
        pending: Pending::Idle,
        errors: st.errors,
    }
}

/// `st` now expecting `pending`.
pub open spec fn expecting(st: ParseState, pending: Pending) -> ParseState {
    ParseState { pending, ..st }
}

/// Each operator word without operand becomes the instruction of the same
/// name, on the token's line: `add` is `add`, `mod` is `mod`, `lt` is `lt`,
/// and so on. `print`, `push`, `jmp` and `jz` wait for their operand.
pub proof fn lemma_operator_words(st: ParseState, b: Seq<u8>, sp: Span)
    requires
        sp.kind == TokenKind::Operator,
    ensures
        ({
            let word = b.subrange(sp.start, sp.end);
            let line = line_at(b, sp.start) as usize;
            &&& word == seq![112u8, 114u8, 105u8, 110u8, 116u8] ==> parse_step(st, b, sp) == expecting(st, Pending::Print)
            &&& word == seq![112u8, 117u8, 115u8, 104u8] ==> parse_step(st, b, sp) == expecting(st, Pending::Push)
            &&& word == seq![106u8, 109u8, 112u8] ==> parse_step(st, b, sp) == expecting(st, Pending::Jmp)
            &&& word == seq![106u8, 122u8] ==> parse_step(st, b, sp) == expecting(st, Pending::Jz)
            &&& word == seq![97u8, 100u8, 100u8] ==> parse_step(st, b, sp) == appended(st, InstrView::Add, line)
            &&& word == seq![115u8, 117u8, 98u8] ==> parse_step(st, b, sp) == appended(st, InstrView::Sub, line)
            &&& word == seq![100u8, 117u8, 112u8] ==> parse_step(st, b, sp) == appended(st, InstrView::Dup, line)
            &&& word == seq![115u8, 119u8, 97u8, 112u8] ==> parse_step(st, b, sp) == appended(st, InstrView::Swap, line)
            &&& word == seq![114u8, 101u8, 116u8] ==> parse_step(st, b, sp) == appended(st, InstrView::Ret, line)
            &&& word == seq![112u8, 111u8, 112u8] ==> parse_step(st, b, sp) == appended(st, InstrView::Pop, line)
            &&& word == seq![109u8, 117u8, 108u8] ==> parse_step(st, b, sp) == appended(st, InstrView::Mul, line)
            &&& word == seq![109u8, 111u8, 100u8] ==> parse_step(st, b, sp) == appended(st, InstrView::Mod, line)
            &&& word == seq![100u8, 105u8, 118u8] ==> parse_step(st, b, sp) == appended(st, InstrView::Div, line)
            &&& word == seq![108u8, 111u8, 97u8, 100u8] ==> parse_step(st, b, sp) == appended(st, InstrView::Load, line)
            &&& word == seq![115u8, 116u8, 111u8, 114u8, 101u8] ==> parse_step(st, b, sp) == appended(st, InstrView::Store, line)
            &&& word == seq![101u8, 113u8] ==> parse_step(st, b, sp) == appended(st, InstrView::Eq, line)
            &&& word == seq![108u8, 116u8] ==> parse_step(st, b, sp) == appended(st, InstrView::Lt, line)
            &&& word == seq![103u8, 116u8, 101u8] ==> parse_step(st, b, sp) == appended(st, InstrView::Gte, line)
        }),
{
}

/// A number after `push`, `print` or inside `@push ... ;` becomes the
/// instruction with that number's value as operand, when it fits in a byte;
/// after `push` and `print` nothing is pending any more.
pub proof fn lemma_number_operands(st: ParseState, b: Seq<u8>, sp: Span)
    requires
        sp.kind == TokenKind::Number,
        decimal_value(b.subrange(sp.start, sp.end)) <= 255,
    ensures
        ({
            let v = decimal_value(b.subrange(sp.start, sp.end)) as u8;
            let line = line_at(b, sp.start) as usize;
            &&& st.pending == Pending::Push ==> parse_step(st, b, sp) == appended(
                st,
                InstrView::Push(v),
                line,
            )
            &&& st.pending == Pending::Print ==> parse_step(st, b, sp) == appended(
                st,
                InstrView::Print(v),
                line,
            )
            &&& st.pending == Pending::PushMulti ==> parse_step(st, b, sp) == expecting(
                appended(st, InstrView::Push(v), line),
                Pending::PushMulti,
            )
        }),
{
}

/// Decimal digits denote their value: one digit `d` is `d - 48`, and each
/// further digit multiplies by ten and adds its own.
pub proof fn lemma_decimal_digits(w: Seq<u8>, c: u8)
    requires
        48 <= c <= 57,
    ensures
        decimal_value(seq![c]) == c - 48,
        decimal_value(w.push(c)) == 10 * decimal_value(w) + (c - 48),
{
    assert(seq![c].drop_last() =~= Seq::<u8>::empty());
    assert(w.push(c).drop_last() =~= w);
    reveal_with_fuel(decimal_value, 2);
}

/// The line of a byte is one more than the number of newlines before it.
pub proof fn lemma_line_count(b: Seq<u8>, k: int)
    requires
        0 <= k < b.len(),
    ensures
        line_at(b, 0) == 1,
        line_at(b, k + 1) == line_at(b, k) + if b[k] == 10 {
            1int
        } else {
            0int
        },
{
}

/// A word that is no operator names the target of a pending `jmp` or `jz`,
/// or the label after `@point`; anywhere else it is an error on its line.
pub proof fn lemma_identifiers(st: ParseState, b: Seq<u8>, sp: Span)
    requires
        sp.kind == TokenKind::Operator,
        mnemonic_of(b.subrange(sp.start, sp.end)) is None,
    ensures
        ({
            let line = line_at(b, sp.start) as usize;
            let text = span_text(b, sp);
            &&& st.pending == Pending::Jmp ==> parse_step(st, b, sp) == appended(
                st,
                InstrView::Jmp(text),
                line,
            )
            &&& st.pending == Pending::Jz ==> parse_step(st, b, sp) == appended(
                st,
                InstrView::Jz(text),
                line,
            )
            &&& st.pending == Pending::Point ==> parse_step(st, b, sp).program == st.program.push(
                NodeView::Label(text, line),
            ) && parse_step(st, b, sp).pending == Pending::Idle && parse_step(st, b, sp).errors
                == st.errors
            &&& st.pending != Pending::Jmp && st.pending != Pending::Jz && st.pending
                != Pending::Point ==> parse_step(st, b, sp).program == st.program && parse_step(
                st,
                b,
                sp,
            ).pending == st.pending && parse_step(st, b, sp).errors == st.errors.push(
                ParseErrorView::UnexpectedIdentifier(line, text),
            )
        }),
{
}

/// `@point`, `@push` and `@pushstr` wait for a label name, numbers and
/// strings; any other meta operator is an error on its line; `;` ends what
/// was pending; text that is no token is an error on its line.
pub proof fn lemma_meta_words_and_errors(st: ParseState, b: Seq<u8>, sp: Span)
    ensures
        ({
            let word = b.subrange(sp.start, sp.end);
            let line = line_at(b, sp.start) as usize;
            &&& sp.kind == TokenKind::MetaOperator && word == seq![64u8, 112u8, 111u8, 105u8, 110u8, 116u8] ==> parse_step(st, b, sp)
                == expecting(st, Pending::Point)
            &&& sp.kind == TokenKind::MetaOperator && word == seq![64u8, 112u8, 117u8, 115u8, 104u8] ==> parse_step(st, b, sp)
                == expecting(st, Pending::PushMulti)
            &&& sp.kind == TokenKind::MetaOperator && word == seq![64u8, 112u8, 117u8, 115u8, 104u8, 115u8, 116u8, 114u8] ==> parse_step(st, b, sp)
                == expecting(st, Pending::PushStr)
            &&& sp.kind == TokenKind::MetaOperator && word != seq![64u8, 112u8, 111u8, 105u8, 110u8, 116u8] && word != seq![64u8, 112u8, 117u8, 115u8, 104u8] && word
                != seq![64u8, 112u8, 117u8, 115u8, 104u8, 115u8, 116u8, 114u8] ==> parse_step(st, b, sp).errors == st.errors.push(
                ParseErrorView::UnknownMetaOperator(line, span_text(b, sp)),
            ) && parse_step(st, b, sp).program == st.program
            &&& sp.kind == TokenKind::Semicolon ==> parse_step(st, b, sp) == expecting(st, Pending::Idle)
            &&& sp.kind == TokenKind::Error ==> parse_step(st, b, sp).errors == st.errors.push(
                ParseErrorView::UnrecognizedToken(line, span_text(b, sp)),
            ) && parse_step(st, b, sp).program == st.program
        }),
{
}

/// Inside `@pushstr ... ;` each string pushes its bytes, in order, each on
/// the string's line.
pub proof fn lemma_pushstr_bytes(st: ParseState, b: Seq<u8>, sp: Span, k: int)
    requires
        sp.kind == TokenKind::Text,
        st.pending == Pending::PushStr,
        0 <= sp.start,
        sp.start + 1 <= sp.end - 1,
        sp.end <= b.len(),
        0 <= k < sp.end - 1 - (sp.start + 1),
    ensures
        parse_step(st, b, sp).program.len() == st.program.len() + (sp.end - 1 - (sp.start + 1)),
        parse_step(st, b, sp).program[st.program.len() + k] == NodeView::Instr(
            InstrView::Push(b[sp.start + 1 + k]),
            line_at(b, sp.start) as usize,
        ),
{
    let bytes = b.subrange(sp.start + 1, sp.end - 1);
    let line = line_at(b, sp.start) as usize;
    assert(bytes[k] == b[sp.start + 1 + k]);
    assert(push_all(bytes, line)[k] == NodeView::Instr(InstrView::Push(bytes[k]), line));
}

} // verus!
