//! Properties that tie the assembler to the machine.
use vstd::prelude::*;

use crate::assembler::{
    defines, instr_bytes, instr_opcode, instr_size, jumps_resolved, label_addresses,
    lemma_instr_at_offset, lemma_instr_bytes_shape, lemma_program_bytes_len,
    lemma_program_size_prefix, lemma_label_address,
    lemma_resolved_program_encodes, program_bytes, program_size, InstrView, NodeView,
};
use crate::opcode::{decode_opcode, lemma_decode_encode};
use crate::vm::{
    jump_target, lemma_two_operand_instructions, pair_code, pair_result, run, spec_step, Effect,
    MachineState,
};

verus! {

/// Where control may go after instruction `i` at address `ip`: for a jump,
/// to its label's address (or, for `jz`, past it); else to the next
/// instruction.
pub open spec fn next_ip_follows(i: InstrView, ip: int, next: int, labels: Map<Seq<char>, u16>) -> bool {
    match i {
        InstrView::Jmp(l) => next == labels[l],
        InstrView::Jz(l) => next == labels[l] || next == ip + 3,
        _ => next == ip + instr_size(i),
    }
}

/// An instruction of an assembled program, executed where the assembler
/// placed it, moves the instruction pointer as the program says: a jump to
/// the address of its label, any other instruction to the instruction that
/// follows it. The first byte there decodes to the instruction's opcode.
pub proof fn lemma_assembled_step(
    p: Seq<NodeView>,
    labels: Map<Seq<char>, u16>,
    j: int,
    s: MachineState,
)
    requires
        0 <= j < p.len(),
        p[j] is Instr,
        program_bytes(p, labels) is Ok,
        program_size(p) <= u16::MAX,
        s.ip == program_size(p.take(j)),
    ensures
        decode_opcode(program_bytes(p, labels)->Ok_0[s.ip as int]) == Some(
            instr_opcode(p[j]->Instr_0),
        ),
        spec_step(s, program_bytes(p, labels)->Ok_0) matches Ok((s2, Effect::Continue))
            ==> next_ip_follows(p[j]->Instr_0, s.ip as int, s2.ip as int, labels),
{
    let code = program_bytes(p, labels)->Ok_0;
    let i = p[j]->Instr_0;
    let at = s.ip as int;
    lemma_instr_at_offset(p, j, labels);
    lemma_instr_bytes_shape(i, labels);
    let ib = instr_bytes(i, labels).unwrap();
    let n = instr_size(i) as int;
    let w = code.subrange(at, at + n);
    assert(w == ib);
    lemma_program_bytes_len(p, labels);
    lemma_program_size_prefix(p, j + 1);
    assert(p.take(j + 1).drop_last() =~= p.take(j));
    assert(p.take(j + 1).last() == p[j]);
    assert(at + n <= code.len());
    assert(w[0] == code[at]);
    assert(n >= 2 ==> w[1] == code[at + 1]);
    assert(n >= 3 ==> w[2] == code[at + 2]);
    lemma_decode_encode(instr_opcode(i));
    match i {
        InstrView::Jmp(l) => {
            assert(jump_target(code, at) == labels[l]);
        },
        InstrView::Jz(l) => {
            assert(jump_target(code, at) == labels[l]);
        },
        _ => {},
    }
}

/// A program whose jumps all name its own labels encodes against the
/// labels that `resolve_labels` finds, and each of its jumps, executed where
/// it was placed, goes to the first instruction after the label's last
/// definition.
pub proof fn lemma_jump_reaches_label(p: Seq<NodeView>, j: int, s: MachineState)
    requires
        jumps_resolved(p),
        0 <= j < p.len(),
        p[j] matches NodeView::Instr(InstrView::Jmp(_), _),
        program_size(p) <= u16::MAX,
        s.ip == program_size(p.take(j)),
    ensures
        program_bytes(p, label_addresses(p)) is Ok,
        ({
            let l = p[j]->Instr_0->Jmp_0;
            let code = program_bytes(p, label_addresses(p))->Ok_0;
            spec_step(s, code) matches Ok((s2, Effect::Continue)) ==> exists|k: int|
                0 <= k < p.len() && defines(#[trigger] p[k], l) && s2.ip == program_size(
                    p.take(k),
                ) as u16
        }),
{
    lemma_resolved_program_encodes(p);
    let l = p[j]->Instr_0->Jmp_0;
    assert(label_addresses(p).contains_key(l)) by {
        assert(match p[j] {
            NodeView::Instr(InstrView::Jmp(m), _) => label_addresses(p).contains_key(m),
            NodeView::Instr(InstrView::Jz(m), _) => label_addresses(p).contains_key(m),
            _ => true,
        });
    }
    lemma_assembled_step(p, label_addresses(p), j, s);
    lemma_label_address(p, l);
}

/// The program `push x; push y; i`, with the given lines.
pub open spec fn pair_program(x: u8, y: u8, i: InstrView, lines: (usize, usize, usize)) -> Seq<
    NodeView,
> {
    seq![
        NodeView::Instr(InstrView::Push(x), lines.0),
        NodeView::Instr(InstrView::Push(y), lines.1),
        NodeView::Instr(i, lines.2),
    ]
}

/// The bytecode of `pair_program`.
pub open spec fn pair_bytes(
    x: u8,
    y: u8,
    i: InstrView,
    lines: (usize, usize, usize),
    labels: Map<Seq<char>, u16>,
) -> Seq<u8> {
    program_bytes(pair_program(x, y, i, lines), labels)->Ok_0
}

proof fn lemma_pair_program_bytes(
    x: u8,
    y: u8,
    i: InstrView,
    lines: (usize, usize, usize),
    labels: Map<Seq<char>, u16>,
)
    requires
        instr_bytes(i, labels) is Some,
    ensures
        program_bytes(pair_program(x, y, i, lines), labels) == Ok::<Seq<u8>, (Seq<char>, usize)>(
            seq![0x02u8, x, 0x02u8, y] + instr_bytes(i, labels).unwrap(),
        ),
{
    let p = pair_program(x, y, i, lines);
    assert(p.drop_last().drop_last().drop_last() =~= Seq::<NodeView>::empty());
    assert(p.drop_last().drop_last().last() == NodeView::Instr(InstrView::Push(x), lines.0));
    assert(p.drop_last().last() == NodeView::Instr(InstrView::Push(y), lines.1));
    reveal_with_fuel(program_bytes, 4);
    assert(seq![0x02u8, x] + seq![0x02u8, y] =~= seq![0x02u8, x, 0x02u8, y]);
    assert(Seq::<u8>::empty() + seq![0x02u8, x] =~= seq![0x02u8, x]);
}

/// An assembled two-operand instruction computes, when run, what its name
/// says of the value pushed first, `x`, and the value pushed second, `y`:
/// `add` `x + y`, `sub` `x - y`, `mul` `x * y`, `div` `x / y`, `mod`
/// `x % y`, `eq` 1 if `x == y`, `lt` 1 if `x < y`, `gte` 1 if `x >= y`
/// (0 otherwise).
pub proof fn lemma_assembled_two_operand(
    s: MachineState,
    x: u8,
    y: u8,
    lines: (usize, usize, usize),
    labels: Map<Seq<char>, u16>,
)
    requires
        s.ip == 0,
    ensures
        x + y <= 255 ==> run(s, pair_bytes(x, y, InstrView::Add, lines, labels), 3) == pair_result(
            s,
            (x + y) as u8,
        ),
        y <= x ==> run(s, pair_bytes(x, y, InstrView::Sub, lines, labels), 3) == pair_result(
            s,
            (x - y) as u8,
        ),
        x * y <= 255 ==> run(s, pair_bytes(x, y, InstrView::Mul, lines, labels), 3) == pair_result(
            s,
            (x * y) as u8,
        ),
        y != 0 ==> run(s, pair_bytes(x, y, InstrView::Div, lines, labels), 3) == pair_result(
            s,
            x / y,
        ),
        y != 0 ==> run(s, pair_bytes(x, y, InstrView::Mod, lines, labels), 3) == pair_result(
            s,
            x % y,
        ),
        run(s, pair_bytes(x, y, InstrView::Eq, lines, labels), 3) == pair_result(
            s,
            if x == y { 1u8 } else { 0u8 },
        ),
        run(s, pair_bytes(x, y, InstrView::Lt, lines, labels), 3) == pair_result(
            s,
            if x < y { 1u8 } else { 0u8 },
        ),
        run(s, pair_bytes(x, y, InstrView::Gte, lines, labels), 3) == pair_result(
            s,
            if x >= y { 1u8 } else { 0u8 },
        ),
{
    lemma_two_operand_instructions(s, x, y);
    lemma_pair_program_bytes(x, y, InstrView::Add, lines, labels);
    lemma_pair_program_bytes(x, y, InstrView::Sub, lines, labels);
    lemma_pair_program_bytes(x, y, InstrView::Mul, lines, labels);
    lemma_pair_program_bytes(x, y, InstrView::Div, lines, labels);
    lemma_pair_program_bytes(x, y, InstrView::Mod, lines, labels);
    lemma_pair_program_bytes(x, y, InstrView::Eq, lines, labels);
    lemma_pair_program_bytes(x, y, InstrView::Lt, lines, labels);
    lemma_pair_program_bytes(x, y, InstrView::Gte, lines, labels);
    assert(seq![0x02u8, x, 0x02u8, y] + seq![0x01u8] =~= pair_code(x, y, 0x01));
    assert(seq![0x02u8, x, 0x02u8, y] + seq![0x05u8] =~= pair_code(x, y, 0x05));
    assert(seq![0x02u8, x, 0x02u8, y] + seq![0x09u8] =~= pair_code(x, y, 0x09));
    assert(seq![0x02u8, x, 0x02u8, y] + seq![0x0au8] =~= pair_code(x, y, 0x0a));
    assert(seq![0x02u8, x, 0x02u8, y] + seq![0x0bu8] =~= pair_code(x, y, 0x0b));
    assert(seq![0x02u8, x, 0x02u8, y] + seq![0x11u8] =~= pair_code(x, y, 0x11));
    assert(seq![0x02u8, x, 0x02u8, y] + seq![0x0eu8] =~= pair_code(x, y, 0x0e));
    assert(seq![0x02u8, x, 0x02u8, y] + seq![0x0fu8] =~= pair_code(x, y, 0x0f));
}

} // verus!
