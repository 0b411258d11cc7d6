//! The earlier compiler, which compiles the token stream in two passes
//! without building a program: a first pass that places labels and expands
//! `@push` and `@pushstr`, and a second pass that emits the instructions.
use vstd::prelude::*;
use vstd::string::StringSliceAdditionalSpecFns;
use vstd::utf8::*;

use crate::labels::LabelMap;
use crate::lexer::{lex, lexeme_is, span_text, tokenize, Lexeme, Span, Token, TokenKind};
use crate::opcode::{opcode_byte, Opcode};
use crate::parser::byte_value;
use crate::words::{meta_at, meta_of, mnemonic_at, mnemonic_of, Meta, Mnemonic};

verus! {

broadcast use vstd::utf8::encode_utf8_valid_utf8, vstd::utf8::encode_utf8_decode_utf8;

/// Why the first pass stops.
#[derive(Debug, Clone, PartialEq, Eq)]
pub enum MetaError {
    /// A number after `@push` does not fit in a byte.
    InvalidNumber,
    /// The running instruction address passed 65535.
    AddressOverflow,
    /// Words that are neither operators nor label names, in order.
    UnknownOperators(Vec<String>),
}

/// Why the second pass stops.
#[derive(Debug, Clone, Copy, PartialEq, Eq, Structural)]
pub enum CompileError {
    /// The source holds text that is no token.
    UnrecognizedToken,
    /// The operand of `push` does not fit in a byte.
    InvalidNumber,
}

/// A fault of the first pass that ends it at once.
#[derive(Debug, Clone, Copy, PartialEq, Eq, Structural)]
pub enum MetaFault {
    InvalidNumber,
    AddressOverflow,
}

/// The first pass's state after a prefix of the tokens.
pub ghost struct MetaState {
    pub bytecode: Seq<u8>,
    pub points: Map<Seq<char>, u16>,
    /// The address of a `@point` that waits for its name.
    pub new_point: Option<u16>,
    /// The running instruction address.
    pub opid: u16,
    /// Inside `@push ... ;`.
    pub push: bool,
    /// Inside `@pushstr ... ;`.
    pub push_str: bool,
    /// The next unknown word names a label (after `@point`, `jmp` or `jz`).
    pub armed: bool,
    pub unknowns: Seq<Seq<char>>,
    pub fault: Option<MetaFault>,
}

/// `opid` advanced by `n`, or the overflow fault.
pub open spec fn meta_advance(st: MetaState, n: int) -> MetaState {
    if st.opid + n > u16::MAX {
        MetaState { fault: Some(MetaFault::AddressOverflow), ..st }
    } else {
        MetaState { opid: (st.opid + n) as u16, ..st }
    }
}

/// `push` of each byte of `bytes`, as bytecode.
pub open spec fn push_bytes(bytes: Seq<u8>) -> Seq<u8>
    decreases bytes.len(),
{
    if bytes.len() == 0 {
        Seq::empty()
    } else {
        push_bytes(bytes.drop_last()) + seq![opcode_byte(Opcode::Push), bytes.last()]
    }
}

/// The first pass's state after the token `sp` of source `b`.
pub open spec fn meta_step(st: MetaState, b: Seq<u8>, sp: Span) -> MetaState {
    let text = span_text(b, sp);
    let word = b.subrange(sp.start, sp.end);
    if st.fault is Some {
        st
    } else {
        match sp.kind {
            TokenKind::MetaOperator => match meta_of(word) {
                Some(Meta::Point) => MetaState { new_point: Some(st.opid), armed: true, ..st },
                Some(Meta::Push) => MetaState { push: true, ..st },
                Some(Meta::PushStr) => MetaState { push_str: true, ..st },
                None => MetaState { unknowns: st.unknowns.push(text), ..st },
            },
            TokenKind::Operator => match mnemonic_of(word) {
                Some(Mnemonic::Print) | Some(Mnemonic::Ret) | Some(Mnemonic::Add) | Some(
                    Mnemonic::Dup,
                ) | Some(Mnemonic::Sub) => meta_advance(st, 1),
                Some(Mnemonic::Push) => meta_advance(st, 2),
                Some(Mnemonic::Jmp) | Some(Mnemonic::Jz) => meta_advance(
                    MetaState { armed: true, ..st },
                    3,
                ),
                _ => if st.armed {
                    match st.new_point {
                        Some(p) => MetaState {
                            armed: false,
                            points: st.points.insert(text, p),
                            new_point: None,
                            ..st
                        },
                        None => MetaState { armed: false, ..st },
                    }
                } else {
                    MetaState { unknowns: st.unknowns.push(text), ..st }
                },
            },
            TokenKind::Number => if st.push {
                match byte_value(word) {
                    Some(v) => meta_advance(
                        MetaState {
                            bytecode: st.bytecode + seq![opcode_byte(Opcode::Push), v],
                            ..st
                        },
                        1,
                    ),
                    None => MetaState { fault: Some(MetaFault::InvalidNumber), ..st },
                }
            } else {
                st
            },
            TokenKind::Text => if st.push_str {
                let bytes = b.subrange(sp.start + 1, sp.end - 1);
                meta_advance(
                    MetaState { bytecode: st.bytecode + push_bytes(bytes), ..st },
                    (2 * bytes.len()) as int,
                )
            } else {
                st
            },
            TokenKind::Semicolon => MetaState { push: false, push_str: false, ..st },
            TokenKind::Error => st,
        }
    }
}

/// The first pass's state after the tokens `spans`.
pub open spec fn meta_spans(init: MetaState, b: Seq<u8>, spans: Seq<Span>) -> MetaState
    decreases spans.len(),
{
    if spans.len() == 0 {
        init
    } else {
        meta_step(meta_spans(init, b, spans.drop_last()), b, spans.last())
    }
}

/// The first pass's starting state, for the given output and label table.
pub open spec fn meta_start(bytecode: Seq<u8>, points: Map<Seq<char>, u16>) -> MetaState {
    MetaState {
        bytecode,
        points,
        new_point: None,
        opid: 0,
        push: false,
        push_str: false,
        armed: false,
        unknowns: Seq::empty(),
        fault: None,
    }
}

/// The operand that the second pass expects next.
#[derive(Debug, Clone, Copy, PartialEq, Eq, Structural)]
pub enum CurOp {
    Idle,
    Push,
    Jmp,
    Jz,
}

/// The second pass's state after a prefix of the tokens.
pub ghost struct CompileState {
    pub bytecode: Seq<u8>,
    pub curop: CurOp,
    pub fault: Option<CompileError>,
}

/// The opcode that the second pass emits for an operator word, and the
/// operand it then expects.
pub open spec fn emitted_opcode(m: Mnemonic) -> Option<(Opcode, Option<CurOp>)> {
    match m {
        Mnemonic::Add => Some((Opcode::Add, None)),
        Mnemonic::Push => Some((Opcode::Push, Some(CurOp::Push))),
        Mnemonic::Jmp => Some((Opcode::Jmp, Some(CurOp::Jmp))),
        Mnemonic::Jz => Some((Opcode::Jz, Some(CurOp::Jz))),
        Mnemonic::Sub => Some((Opcode::Sub, None)),
        Mnemonic::Dup => Some((Opcode::Dup, None)),
        Mnemonic::Swap => Some((Opcode::Swap, None)),
        Mnemonic::Print => Some((Opcode::Print, None)),
        Mnemonic::Ret => Some((Opcode::Ret, None)),
        _ => None,
    }
}

/// The second pass's state after the token `sp` of source `b`.
pub open spec fn compile_token(
    st: CompileState,
    b: Seq<u8>,
    sp: Span,
    points: Map<Seq<char>, u16>,
) -> CompileState {
    let text = span_text(b, sp);
    let word = b.subrange(sp.start, sp.end);
    if st.fault is Some {
        st
    } else {
        match sp.kind {
            TokenKind::Error => CompileState { fault: Some(CompileError::UnrecognizedToken), ..st },
            TokenKind::Operator => {
                let known = match mnemonic_of(word) {
                    Some(m) => emitted_opcode(m),
                    None => None,
                };
                match known {
                    Some((op, next)) => CompileState {
                        bytecode: st.bytecode.push(opcode_byte(op)),
                        curop: match next {
                            Some(c) => c,
                            None => st.curop,
                        },
                        ..st
                    },
                    None => if points.contains_key(text) && (st.curop == CurOp::Jmp || st.curop
                        == CurOp::Jz) {
                        let a = points[text];
                        CompileState {
                            bytecode: st.bytecode + seq![(a / 256) as u8, (a % 256) as u8],
                            curop: CurOp::Idle,
                            ..st
                        }
                    } else {
                        st
                    },
                }
            },
            TokenKind::Number => if st.curop == CurOp::Push {
                match byte_value(word) {
                    Some(v) => CompileState {
                        bytecode: st.bytecode.push(v),
                        curop: CurOp::Idle,
                        ..st
                    },
                    None => CompileState { fault: Some(CompileError::InvalidNumber), ..st },
                }
            } else {
                st
            },
            _ => st,
        }
    }
}

/// The second pass's state after the tokens `spans`.
pub open spec fn compile_spans(
    init: Seq<u8>,
    b: Seq<u8>,
    spans: Seq<Span>,
    points: Map<Seq<char>, u16>,
) -> CompileState
    decreases spans.len(),
{
    if spans.len() == 0 {
        CompileState { bytecode: init, curop: CurOp::Idle, fault: None }
    } else {
        compile_token(compile_spans(init, b, spans.drop_last(), points), b, spans.last(), points)
    }
}

/// The first pass counts the bytes the second pass emits for the words it
/// knows: `print`, `ret`, `add`, `dup` and `sub` take one byte, `push` two
/// (opcode and operand), `jmp` and `jz` three (opcode and address), after
/// which the next unknown word names a label. An address past 65535 is a
/// fault.
pub proof fn lemma_meta_word_sizes(st: MetaState, b: Seq<u8>, sp: Span)
    requires
        st.fault is None,
        sp.kind == TokenKind::Operator,
    ensures
        ({
            let word = b.subrange(sp.start, sp.end);
            let r = meta_step(st, b, sp);
            &&& word == seq![112u8, 114u8, 105u8, 110u8, 116u8] && st.opid + 1 <= 65535 ==> r.fault is None && r.opid == st.opid + 1 && r.bytecode == st.bytecode && r.points == st.points
            &&& word == seq![112u8, 114u8, 105u8, 110u8, 116u8] && st.opid + 1 > 65535 ==> r.fault == Some(MetaFault::AddressOverflow)
            &&& word == seq![114u8, 101u8, 116u8] && st.opid + 1 <= 65535 ==> r.fault is None && r.opid == st.opid + 1 && r.bytecode == st.bytecode && r.points == st.points
            &&& word == seq![114u8, 101u8, 116u8] && st.opid + 1 > 65535 ==> r.fault == Some(MetaFault::AddressOverflow)
            &&& word == seq![97u8, 100u8, 100u8] && st.opid + 1 <= 65535 ==> r.fault is None && r.opid == st.opid + 1 && r.bytecode == st.bytecode && r.points == st.points
            &&& word == seq![97u8, 100u8, 100u8] && st.opid + 1 > 65535 ==> r.fault == Some(MetaFault::AddressOverflow)
            &&& word == seq![100u8, 117u8, 112u8] && st.opid + 1 <= 65535 ==> r.fault is None && r.opid == st.opid + 1 && r.bytecode == st.bytecode && r.points == st.points
            &&& word == seq![100u8, 117u8, 112u8] && st.opid + 1 > 65535 ==> r.fault == Some(MetaFault::AddressOverflow)
            &&& word == seq![115u8, 117u8, 98u8] && st.opid + 1 <= 65535 ==> r.fault is None && r.opid == st.opid + 1 && r.bytecode == st.bytecode && r.points == st.points
            &&& word == seq![115u8, 117u8, 98u8] && st.opid + 1 > 65535 ==> r.fault == Some(MetaFault::AddressOverflow)
            &&& word == seq![112u8, 117u8, 115u8, 104u8] && st.opid + 2 <= 65535 ==> r.fault is None && r.opid == st.opid + 2 && r.bytecode == st.bytecode && r.points == st.points
            &&& word == seq![112u8, 117u8, 115u8, 104u8] && st.opid + 2 > 65535 ==> r.fault == Some(MetaFault::AddressOverflow)
            &&& word == seq![106u8, 109u8, 112u8] && st.opid + 3 <= 65535 ==> r.fault is None && r.opid == st.opid + 3 && r.bytecode == st.bytecode && r.points == st.points
            &&& word == seq![106u8, 109u8, 112u8] && st.opid + 3 > 65535 ==> r.fault == Some(MetaFault::AddressOverflow)
            &&& word == seq![106u8, 122u8] && st.opid + 3 <= 65535 ==> r.fault is None && r.opid == st.opid + 3 && r.bytecode == st.bytecode && r.points == st.points
            &&& word == seq![106u8, 122u8] && st.opid + 3 > 65535 ==> r.fault == Some(MetaFault::AddressOverflow)
            &&& word == seq![106u8, 109u8, 112u8] && st.opid + 3 <= 65535 ==> r.armed
            &&& word == seq![106u8, 122u8] && st.opid + 3 <= 65535 ==> r.armed
        }),
{
}

/// `@point` marks the current address; the next unknown word is bound to it.
pub proof fn lemma_meta_point(st: MetaState, b: Seq<u8>, sp: Span, sq: Span)
    requires
        st.fault is None,
        sp.kind == TokenKind::MetaOperator,
        b.subrange(sp.start, sp.end) == seq![64u8, 112u8, 111u8, 105u8, 110u8, 116u8],
        sq.kind == TokenKind::Operator,
        mnemonic_of(b.subrange(sq.start, sq.end)) is None,
    ensures
        meta_step(st, b, sp).new_point == Some(st.opid),
        meta_step(meta_step(st, b, sp), b, sq).points == st.points.insert(
            span_text(b, sq),
            st.opid,
        ),
        meta_step(meta_step(st, b, sp), b, sq).opid == st.opid,
{
}

/// The second pass emits for each word it knows that word's opcode: `add`
/// 0x01, `push` 0x02, `jmp` 0x03, `jz` 0x04, `sub` 0x05, `dup` 0x06, `swap`
/// 0x07, `print` 0x10, `ret` 0xff.
pub proof fn lemma_compile_word_opcodes(
    st: CompileState,
    b: Seq<u8>,
    sp: Span,
    points: Map<Seq<char>, u16>,
)
    requires
        st.fault is None,
        sp.kind == TokenKind::Operator,
    ensures
        ({
            let word = b.subrange(sp.start, sp.end);
            let r = compile_token(st, b, sp, points);
            &&& word == seq![97u8, 100u8, 100u8] ==> r.fault is None && r.bytecode == st.bytecode.push(0x01u8)
            &&& word == seq![112u8, 117u8, 115u8, 104u8] ==> r.fault is None && r.bytecode == st.bytecode.push(0x02u8)
            &&& word == seq![106u8, 109u8, 112u8] ==> r.fault is None && r.bytecode == st.bytecode.push(0x03u8)
            &&& word == seq![106u8, 122u8] ==> r.fault is None && r.bytecode == st.bytecode.push(0x04u8)
            &&& word == seq![115u8, 117u8, 98u8] ==> r.fault is None && r.bytecode == st.bytecode.push(0x05u8)
            &&& word == seq![100u8, 117u8, 112u8] ==> r.fault is None && r.bytecode == st.bytecode.push(0x06u8)
            &&& word == seq![115u8, 119u8, 97u8, 112u8] ==> r.fault is None && r.bytecode == st.bytecode.push(0x07u8)
            &&& word == seq![112u8, 114u8, 105u8, 110u8, 116u8] ==> r.fault is None && r.bytecode == st.bytecode.push(0x10u8)
            &&& word == seq![114u8, 101u8, 116u8] ==> r.fault is None && r.bytecode == st.bytecode.push(0xffu8)
        }),
{
}

/// After `push`, the second pass emits the number's value; after `jmp` or
/// `jz`, a known label's address, big-endian.
pub proof fn lemma_compile_operands(
    st: CompileState,
    b: Seq<u8>,
    sp: Span,
    points: Map<Seq<char>, u16>,
)
    requires
        st.fault is None,
    ensures
        sp.kind == TokenKind::Number && st.curop == CurOp::Push && crate::parser::decimal_value(
            b.subrange(sp.start, sp.end),
        ) <= 255 ==> compile_token(st, b, sp, points).bytecode == st.bytecode.push(
            crate::parser::decimal_value(b.subrange(sp.start, sp.end)) as u8,
        ),
        sp.kind == TokenKind::Operator && mnemonic_of(b.subrange(sp.start, sp.end)) is None && (
        st.curop == CurOp::Jmp || st.curop == CurOp::Jz) && points.contains_key(span_text(b, sp))
            ==> compile_token(st, b, sp, points).bytecode == st.bytecode + seq![
            (points[span_text(b, sp)] / 256) as u8,
            (points[span_text(b, sp)] % 256) as u8,
        ],
{
}

proof fn lemma_push_bytes_shape(bytes: Seq<u8>)
    ensures
        push_bytes(bytes).len() == 2 * bytes.len(),
        forall|k: int|
            0 <= k < bytes.len() ==> #[trigger] push_bytes(bytes)[2 * k] == 0x02u8 && push_bytes(
                bytes,
            )[2 * k + 1] == bytes[k],
    decreases bytes.len(),
{
    if bytes.len() > 0 {
        let q = bytes.drop_last();
        lemma_push_bytes_shape(q);
        assert forall|k: int| 0 <= k < bytes.len() implies #[trigger] push_bytes(bytes)[2 * k]
            == 0x02u8 && push_bytes(bytes)[2 * k + 1] == bytes[k] by {
            if k < q.len() {
                assert(push_bytes(q)[2 * k] == 0x02u8);
                assert(q[k] == bytes[k]);
            }
        }
    }
}

/// Inside `@push ... ;` each number becomes `push` of its value in the
/// bytecode, and a number past 255 is a fault; inside `@pushstr ... ;` each
/// byte of a string becomes a `push` of that byte, in order, counted as two
/// bytes each; `;` ends both lists; outside them numbers and strings change
/// nothing.
pub proof fn lemma_meta_push_lists(st: MetaState, b: Seq<u8>, sp: Span, k: int)
    requires
        st.fault is None,
        0 <= sp.start,
        sp.end <= b.len(),
    ensures
        ({
            let word = b.subrange(sp.start, sp.end);
            let r = meta_step(st, b, sp);
            &&& sp.kind == TokenKind::Number && st.push && crate::parser::decimal_value(word) <= 255
                && st.opid < 65535 ==> r.fault is None && r.bytecode == st.bytecode + seq![
                0x02u8,
                crate::parser::decimal_value(word) as u8,
            ] && r.opid == st.opid + 1
            &&& sp.kind == TokenKind::Number && st.push && crate::parser::decimal_value(word) > 255
                ==> r.fault == Some(MetaFault::InvalidNumber)
            &&& sp.kind == TokenKind::Number && !st.push ==> r == st
            &&& sp.kind == TokenKind::Text && !st.push_str ==> r == st
            &&& sp.kind == TokenKind::Semicolon ==> !r.push && !r.push_str && r.bytecode
                == st.bytecode
        }),
        ({
            let text = b.subrange(sp.start + 1, sp.end - 1);
            let r = meta_step(st, b, sp);
            sp.kind == TokenKind::Text && st.push_str && sp.start + 1 <= sp.end - 1 && st.opid + 2
                * text.len() <= 65535 && 0 <= k < text.len() ==> {
                &&& r.fault is None
                &&& r.opid == st.opid + 2 * text.len()
                &&& r.bytecode.len() == st.bytecode.len() + 2 * text.len()
                &&& r.bytecode[st.bytecode.len() + 2 * k] == 0x02u8
                &&& r.bytecode[st.bytecode.len() + 2 * k + 1] == text[k]
            }
        }),
{
    if sp.start + 1 <= sp.end - 1 {
        let text = b.subrange(sp.start + 1, sp.end - 1);
        lemma_push_bytes_shape(text);
        if 0 <= k < text.len() {
            assert(push_bytes(text)[2 * k] == 0x02u8);
        }
    }
}

/// Once the first pass has faulted, later tokens change nothing.
proof fn lemma_meta_fault_persists(init: MetaState, b: Seq<u8>, spans: Seq<Span>, k: int)
    requires
        0 <= k <= spans.len(),
        meta_spans(init, b, spans.take(k)).fault is Some,
    ensures
        meta_spans(init, b, spans) == meta_spans(init, b, spans.take(k)),
    decreases spans.len(),
{
    if k < spans.len() {
        assert(spans.drop_last().take(k) =~= spans.take(k));
        lemma_meta_fault_persists(init, b, spans.drop_last(), k);
    } else {
        assert(spans.take(k) =~= spans);
    }
}

/// Once the second pass has faulted, later tokens change nothing.
proof fn lemma_compile_fault_persists(
    init: Seq<u8>,
    b: Seq<u8>,
    spans: Seq<Span>,
    points: Map<Seq<char>, u16>,
    k: int,
)
    requires
        0 <= k <= spans.len(),
        compile_spans(init, b, spans.take(k), points).fault is Some,
    ensures
        compile_spans(init, b, spans, points) == compile_spans(init, b, spans.take(k), points),
    decreases spans.len(),
{
    if k < spans.len() {
        assert(spans.drop_last().take(k) =~= spans.take(k));
        lemma_compile_fault_persists(init, b, spans.drop_last(), points, k);
    } else {
        assert(spans.take(k) =~= spans);
    }
}

/// The error that a fault of the first pass is reported as.
pub open spec fn meta_fault_error(f: MetaFault, e: MetaError) -> bool {
    match f {
        MetaFault::InvalidNumber => e == MetaError::InvalidNumber,
        MetaFault::AddressOverflow => e == MetaError::AddressOverflow,
    }
}

/// The running state of the first pass, apart from its outputs.
struct MetaPass {
    new_point: Option<u16>,
    opid: u16,
    push: bool,
    push_str: bool,
    armed: bool,
    unknowns: Vec<String>,
}

/// The first pass's state that `pass` and the outputs stand for.
spec fn meta_state_of(pass: MetaPass, bytecode: Seq<u8>, points: Map<Seq<char>, u16>) -> MetaState {
    MetaState {
        bytecode,
        points,
        new_point: pass.new_point,
        opid: pass.opid,
        push: pass.push,
        push_str: pass.push_str,
        armed: pass.armed,
        unknowns: pass.unknowns@.map_values(|w: String| w@),
        fault: None,
    }
}

/// The first pass on one token.
fn meta_token(
    b: &[u8],
    lexeme: &Lexeme,
    Ghost(sp): Ghost<Span>,
    pass: &mut MetaPass,
    bytecode: &mut Vec<u8>,
    pointmap: &mut LabelMap,
) -> (r: Result<(), MetaFault>)
    requires
        lexeme_is(*lexeme, sp, b@),
        crate::lexer::span_well_placed(b@, sp),
    ensures
        ({
            let st = meta_step(meta_state_of(*old(pass), old(bytecode)@, old(pointmap)@), b@, sp);
            match st.fault {
                Some(f) => r == Err::<(), MetaFault>(f),
                None => r is Ok && meta_state_of(*final(pass), final(bytecode)@, final(pointmap)@)
                    == st,
            }
        }),
{
    let start = lexeme.start;
    let end = lexeme.end;
    let ghost unknowns_before = pass.unknowns@;
    match &lexeme.token {
        Ok(Token::MetaOperator(name)) => {
            match meta_at(b, start, end) {
                Some(Meta::Point) => {
                    pass.new_point = Some(pass.opid);
                    pass.armed = true;
                },
                Some(Meta::Push) => pass.push = true,
                Some(Meta::PushStr) => pass.push_str = true,
                None => {
                    pass.unknowns.push(name.clone());
                    proof {
                        assert(pass.unknowns@.map_values(|w: String| w@) =~= unknowns_before.map_values(
                            |w: String| w@,
                        ).push(name@));
                    }
                },
            }
            Ok(())
        },
        Ok(Token::Operator(word)) => {
            let m = mnemonic_at(b, start, end);
            let size: u16 = match m {
                Some(Mnemonic::Print) | Some(Mnemonic::Ret) | Some(Mnemonic::Add) | Some(
                    Mnemonic::Dup,
                ) | Some(Mnemonic::Sub) => 1,
                Some(Mnemonic::Push) => 2,
                Some(Mnemonic::Jmp) | Some(Mnemonic::Jz) => 3,
                _ => 0,
            };
            if size > 0 {
                if size == 3 {
                    pass.armed = true;
                }
                if pass.opid > 65535 - size {
                    return Err(MetaFault::AddressOverflow);
                }
                pass.opid = pass.opid + size;
            } else if pass.armed {
                pass.armed = false;
                match pass.new_point {
                    Some(p) => {
                        pointmap.insert(word.clone(), p);
                        pass.new_point = None;
                    },
                    None => {},
                }
            } else {
                pass.unknowns.push(word.clone());
                proof {
                    assert(pass.unknowns@.map_values(|w: String| w@) =~= unknowns_before.map_values(
                        |w: String| w@,
                    ).push(word@));
                }
            }
            Ok(())
        },
        Ok(Token::Number(_)) => {
            if pass.push {
                proof {
                    assert(crate::parser::all_digits(b@.subrange(start as int, end as int)));
                }
                match crate::parser::parse_byte(b, start, end) {
                    Some(v) => {
                        bytecode.push(Opcode::Push.to_byte());
                        bytecode.push(v);
                        if pass.opid == 65535 {
                            return Err(MetaFault::AddressOverflow);
                        }
                        pass.opid = pass.opid + 1;
                        proof {
                            assert(bytecode@ =~= old(bytecode)@ + seq![opcode_byte(Opcode::Push), v]);
                        }
                    },
                    None => {
                        return Err(MetaFault::InvalidNumber);
                    },
                }
            }
            Ok(())
        },
        Ok(Token::Text(_)) => {
            if pass.push_str {
                let n = end - 1 - (start + 1);
                if n > 32767 || pass.opid as usize + 2 * n > 65535 {
                    return Err(MetaFault::AddressOverflow);
                }
                let mut j: usize = start + 1;
                while j < end - 1
                    invariant
                        start + 1 <= j <= end - 1,
                        end <= b@.len(),
                        bytecode@ == old(bytecode)@ + push_bytes(b@.subrange(start + 1, j as int)),
                    decreases end - 1 - j,
                {
                    bytecode.push(Opcode::Push.to_byte());
                    bytecode.push(b[j]);
                    proof {
                        let sub = b@.subrange(start + 1, j + 1);
                        assert(sub.drop_last() =~= b@.subrange(start + 1, j as int));
                        assert(bytecode@ =~= old(bytecode)@ + push_bytes(sub));
                    }
                    j = j + 1;
                }
                pass.opid = pass.opid + (2 * n) as u16;
            }
            Ok(())
        },
        Ok(Token::Semicolon) => {
            pass.push = false;
            pass.push_str = false;
            Ok(())
        },
        _ => Ok(()),
    }
}

/// The first pass over the tokens of `source`.
///
/// It records in `pointmap` the address of each `@point` label (counted in
/// the way this pass counts instruction sizes), appends to `bytecode` a
/// `push` for each number of an `@push` list and for each byte of an
/// `@pushstr` string, and collects the words it does not know. Text that is
/// no token is passed over.
pub fn new_meta_step(source: &str, bytecode: &mut Vec<u8>, pointmap: &mut LabelMap) -> (r: Result<
    (),
    MetaError,
>)
    ensures
        ({
            let st = meta_spans(
                meta_start(old(bytecode)@, old(pointmap)@),
                source.spec_bytes(),
                lex(source.spec_bytes()),
            );
            match st.fault {
                Some(f) => r matches Err(e) && meta_fault_error(f, e),
                None => {
                    &&& final(bytecode)@ == st.bytecode
                    &&& final(pointmap)@ == st.points
                    &&& st.unknowns.len() == 0 ==> r is Ok
                    &&& st.unknowns.len() > 0 ==> (r matches Err(MetaError::UnknownOperators(v))
                        && v@.map_values(|w: String| w@) == st.unknowns)
                },
            }
        }),
{
    let b = source.as_bytes();
    let ghost bs = source.spec_bytes();
    let tokens = tokenize(source);
    let ghost spans = lex(bs);
    let ghost init = meta_start(bytecode@, pointmap@);
    proof {
        crate::lexer::lemma_lex_from_placed(bs, 0);
    }
    let mut pass = MetaPass {
        new_point: None,
        opid: 0,
        push: false,
        push_str: false,
        armed: false,
        unknowns: Vec::new(),
    };
    proof {
        assert(pass.unknowns@.map_values(|w: String| w@) =~= Seq::<Seq<char>>::empty());
        assert(meta_state_of(pass, bytecode@, pointmap@) == init);
    }
    let mut k: usize = 0;
    while k < tokens.len()
        invariant
            b@ == bs,
            bs == source.spec_bytes(),
            spans == lex(bs),
            tokens@.len() == spans.len(),
            forall|j: int| 0 <= j < tokens@.len() ==> lexeme_is(#[trigger] tokens@[j], spans[j], bs),
            forall|j: int|
                0 <= j < spans.len() ==> crate::lexer::span_well_placed(bs, #[trigger] spans[j]),
            k <= tokens@.len(),
            init == meta_start(old(bytecode)@, old(pointmap)@),
            meta_spans(init, bs, spans.take(k as int)) == meta_state_of(pass, bytecode@, pointmap@),
        decreases tokens@.len() - k,
    {
        let ghost before = meta_state_of(pass, bytecode@, pointmap@);
        proof {
            assert(spans.take(k + 1).drop_last() =~= spans.take(k as int));
            assert(spans.take(k + 1).last() == spans[k as int]);
            assert(meta_spans(init, bs, spans.take(k + 1)) == meta_step(before, bs, spans[k as int]));
        }
        match meta_token(b, &tokens[k], Ghost(spans[k as int]), &mut pass, bytecode, pointmap) {
            Ok(()) => {},
            Err(f) => {
                proof {
                    lemma_meta_fault_persists(init, bs, spans, k + 1);
                }
                return Err(
                    match f {
                        MetaFault::InvalidNumber => MetaError::InvalidNumber,
                        MetaFault::AddressOverflow => MetaError::AddressOverflow,
                    },
                );
            },
        }
        k = k + 1;
    }
    proof {
        assert(spans.take(k as int) =~= spans);
    }
    if pass.unknowns.len() > 0 {
        Err(MetaError::UnknownOperators(pass.unknowns))
    } else {
        Ok(())
    }
}

/// The second pass on one token.
fn compile_token_exec(
    b: &[u8],
    lexeme: &Lexeme,
    Ghost(sp): Ghost<Span>,
    curop: &mut CurOp,
    bytecode: &mut Vec<u8>,
    pointmap: &LabelMap,
) -> (r: Result<(), CompileError>)
    requires
        lexeme_is(*lexeme, sp, b@),
        crate::lexer::span_well_placed(b@, sp),
    ensures
        ({
            let st = compile_token(
                CompileState { bytecode: old(bytecode)@, curop: *old(curop), fault: None },
                b@,
                sp,
                pointmap@,
            );
            match st.fault {
                Some(f) => r == Err::<(), CompileError>(f),
                None => r is Ok && final(bytecode)@ == st.bytecode && *final(curop) == st.curop,
            }
        }),
{
    let start = lexeme.start;
    let end = lexeme.end;
    match &lexeme.token {
        Err(()) => Err(CompileError::UnrecognizedToken),
        Ok(Token::Operator(word)) => {
            let known: Option<(Opcode, Option<CurOp>)> = match mnemonic_at(b, start, end) {
                Some(Mnemonic::Add) => Some((Opcode::Add, None)),
                Some(Mnemonic::Push) => Some((Opcode::Push, Some(CurOp::Push))),
                Some(Mnemonic::Jmp) => Some((Opcode::Jmp, Some(CurOp::Jmp))),
                Some(Mnemonic::Jz) => Some((Opcode::Jz, Some(CurOp::Jz))),
                Some(Mnemonic::Sub) => Some((Opcode::Sub, None)),
                Some(Mnemonic::Dup) => Some((Opcode::Dup, None)),
                Some(Mnemonic::Swap) => Some((Opcode::Swap, None)),
                Some(Mnemonic::Print) => Some((Opcode::Print, None)),
                Some(Mnemonic::Ret) => Some((Opcode::Ret, None)),
                _ => None,
            };
            match known {
                Some((op, next)) => {
                    bytecode.push(op.to_byte());
                    match next {
                        Some(c) => *curop = c,
                        None => {},
                    }
                },
                None => {
                    if *curop == CurOp::Jmp || *curop == CurOp::Jz {
                        match pointmap.get(word) {
                            Some(a) => {
                                bytecode.push((a / 256) as u8);
                                bytecode.push((a % 256) as u8);
                                *curop = CurOp::Idle;
                                proof {
                                    assert(bytecode@ =~= old(bytecode)@ + seq![
                                        (a / 256) as u8,
                                        (a % 256) as u8,
                                    ]);
                                }
                            },
                            None => {},
                        }
                    }
                },
            }
            Ok(())
        },
        Ok(Token::Number(_)) => {
            if *curop == CurOp::Push {
                proof {
                    assert(crate::parser::all_digits(b@.subrange(start as int, end as int)));
                }
                match crate::parser::parse_byte(b, start, end) {
                    Some(v) => {
                        bytecode.push(v);
                        *curop = CurOp::Idle;
                    },
                    None => {
                        return Err(CompileError::InvalidNumber);
                    },
                }
            }
            Ok(())
        },
        _ => Ok(()),
    }
}

/// The second pass over the tokens of `source`: appends to `bytecode` the
/// opcode of each operator it knows, the operand of each `push`, and the
/// address in `pointmap` of each label that follows `jmp` or `jz`. Text that
/// is no token, and a `push` operand that does not fit in a byte, stop it.
pub fn compile_step(source: &str, bytecode: &mut Vec<u8>, pointmap: &LabelMap) -> (r: Result<
    (),
    CompileError,
>)
    ensures
        ({
            let st = compile_spans(
                old(bytecode)@,
                source.spec_bytes(),
                lex(source.spec_bytes()),
                pointmap@,
            );
            match st.fault {
                Some(f) => r == Err::<(), CompileError>(f),
                None => r is Ok && final(bytecode)@ == st.bytecode,
            }
        }),
{
    let b = source.as_bytes();
    let ghost bs = source.spec_bytes();
    let tokens = tokenize(source);
    let ghost spans = lex(bs);
    let ghost init = bytecode@;
    proof {
        crate::lexer::lemma_lex_from_placed(bs, 0);
    }
    let mut curop = CurOp::Idle;
    let mut k: usize = 0;
    while k < tokens.len()
        invariant
            b@ == bs,
            bs == source.spec_bytes(),
            spans == lex(bs),
            tokens@.len() == spans.len(),
            forall|j: int| 0 <= j < tokens@.len() ==> lexeme_is(#[trigger] tokens@[j], spans[j], bs),
            forall|j: int|
                0 <= j < spans.len() ==> crate::lexer::span_well_placed(bs, #[trigger] spans[j]),
            k <= tokens@.len(),
            init == old(bytecode)@,
            compile_spans(init, bs, spans.take(k as int), pointmap@) == (CompileState {
                bytecode: bytecode@,
                curop,
                fault: None,
            }),
        decreases tokens@.len() - k,
    {
        let ghost before = CompileState { bytecode: bytecode@, curop, fault: None };
        proof {
            assert(spans.take(k + 1).drop_last() =~= spans.take(k as int));
            assert(spans.take(k + 1).last() == spans[k as int]);
            assert(compile_spans(init, bs, spans.take(k + 1), pointmap@) == compile_token(
                before,
                bs,
                spans[k as int],
                pointmap@,
            ));
        }
        match compile_token_exec(b, &tokens[k], Ghost(spans[k as int]), &mut curop, bytecode, pointmap) {
            Ok(()) => {},
            Err(e) => {
                proof {
                    lemma_compile_fault_persists(init, bs, spans, pointmap@, k + 1);
                }
                return Err(e);
            },
        }
        k = k + 1;
    }
    proof {
        assert(spans.take(k as int) =~= spans);
    }
    Ok(())
}

} // verus!
