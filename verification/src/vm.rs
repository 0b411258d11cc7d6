//! The stack machine: its state and its transition function.
//!
//! The machine executes one instruction per call of [`Machine::step`]. What
//! the machine asks of the world (printing text, ending the process) is
//! handed back to the caller as a [`Step`]; a state in which the instruction
//! cannot be carried out is reported as a [`Fault`] and leaves the machine
//! unchanged.
use vstd::prelude::*;

use crate::opcode::{decode_opcode, Binary, Opcode};

verus! {

/// Number of bytes of data memory.
pub const MEMORY_SIZE: usize = 65536;

/// Ghost model of a machine: operand stack (bottom first), instruction
/// pointer and data memory.
pub ghost struct MachineState {
    pub stack: Seq<u8>,
    pub ip: usize,
    pub memory: Seq<u8>,
}

/// What a step asks of its caller, as a mathematical value.
pub ghost enum Effect {
    /// Nothing: go on with the next step.
    Continue,
    /// Write these bytes (UTF-8 text) to standard output.
    Print(Seq<u8>),
    /// End the process with this exit code.
    Exit(u8),
    /// The instruction pointer has left the code: the program is over.
    Halt,
}

/// What a step asks of its caller.
#[derive(Debug, Clone, PartialEq, Eq)]
pub enum Step {
    Continue,
    Print(Vec<u8>),
    Exit(u8),
    Halt,
}

impl Step {
    pub open spec fn effect(&self) -> Effect {
        match self {
            Step::Continue => Effect::Continue,
            Step::Print(bytes) => Effect::Print(bytes@),
            Step::Exit(code) => Effect::Exit(*code),
            Step::Halt => Effect::Halt,
        }
    }
}

/// Why an instruction cannot be carried out.
#[derive(Debug, Clone, Copy, PartialEq, Eq, Structural)]
pub enum Fault {
    /// The byte at the instruction pointer encodes no opcode.
    UnknownOpcode(u8),
    /// The stack holds fewer values than the instruction takes.
    StackUnderflow,
    /// The code ends before the instruction's operand bytes.
    MissingOperand,
    /// The result of `add`, `sub` or `mul` does not fit in a byte.
    ArithmeticOverflow,
    /// `div` or `mod` by zero.
    DivisionByZero,
}

/// The machine at the start of a run: empty stack, instruction pointer 0,
/// zeroed memory.
pub open spec fn initial_state() -> MachineState {
    MachineState { stack: Seq::empty(), ip: 0, memory: Seq::new(MEMORY_SIZE as nat, |i: int| 0u8) }
}

/// The memory of a machine has `MEMORY_SIZE` bytes.
pub open spec fn well_formed(s: MachineState) -> bool {
    s.memory.len() == MEMORY_SIZE
}

/// 1 for true, 0 for false.
pub open spec fn flag(b: bool) -> u8 {
    if b {
        1
    } else {
        0
    }
}

/// The jump target stored big-endian in the two bytes after `ip`.
pub open spec fn jump_target(code: Seq<u8>, ip: int) -> usize {
    (code[ip + 1] as int * 256 + code[ip + 2] as int) as usize
}

/// The value on top of the stack.
pub open spec fn top(s: MachineState) -> u8 {
    s.stack.last()
}

/// The value just below the top of the stack.
pub open spec fn second(s: MachineState) -> u8 {
    s.stack[s.stack.len() - 2]
}

/// The stack without its top `n` values.
pub open spec fn dropped(s: MachineState, n: int) -> Seq<u8> {
    s.stack.subrange(0, s.stack.len() - n)
}

/// The state after an instruction of `len` bytes that pops `pops` values and
/// pushes `pushed`.
pub open spec fn advance(s: MachineState, pops: int, pushed: Seq<u8>, len: int) -> MachineState {
    MachineState { stack: dropped(s, pops) + pushed, ip: (s.ip + len) as usize, memory: s.memory }
}

/// An instruction that pops two values `a` (top) and `b` and pushes one.
pub open spec fn binary(s: MachineState, op: Opcode) -> Result<(MachineState, Effect), Fault> {
    let a = top(s);
    let b = second(s);
    let r: int = match op {
        Opcode::Add => a + b,
        Opcode::Sub => b - a,
        Opcode::Mul => a * b,
        Opcode::Div => (b / a) as int,
        Opcode::Mod => (b % a) as int,
        Opcode::Eq => flag(a == b) as int,
        Opcode::Lt => flag(b < a) as int,
        _ => flag(b >= a) as int,
    };
    if (op == Opcode::Div || op == Opcode::Mod) && a == 0 {
        Err(Fault::DivisionByZero)
    } else if !(0 <= r <= 255) {
        Err(Fault::ArithmeticOverflow)
    } else {
        Ok((advance(s, 2, seq![r as u8], 1), Effect::Continue))
    }
}

/// One step of the machine on `code`, from state `s`: the next state and what
/// the step asks of the caller, or the fault that stops it.
pub open spec fn spec_step(s: MachineState, code: Seq<u8>) -> Result<(MachineState, Effect), Fault> {
    let ip = s.ip as int;
    let n = s.stack.len();
    if ip >= code.len() {
        Ok((s, Effect::Halt))
    } else {
        match decode_opcode(code[ip]) {
            None => Err(Fault::UnknownOpcode(code[ip])),
            Some(op) => match op {
                Opcode::Add | Opcode::Sub | Opcode::Mul | Opcode::Div | Opcode::Mod
                | Opcode::Eq | Opcode::Lt | Opcode::Gte => {
                    if n < 2 {
                        Err(Fault::StackUnderflow)
                    } else {
                        binary(s, op)
                    }
                },
                Opcode::Push => {
                    if ip + 1 >= code.len() {
                        Err(Fault::MissingOperand)
                    } else {
                        Ok((advance(s, 0, seq![code[ip + 1]], 2), Effect::Continue))
                    }
                },
                Opcode::Jmp => {
                    if ip + 2 >= code.len() {
                        Err(Fault::MissingOperand)
                    } else {
                        Ok((MachineState { ip: jump_target(code, ip), ..s }, Effect::Continue))
                    }
                },
                Opcode::Jz => {
                    if n < 1 {
                        Err(Fault::StackUnderflow)
                    } else if top(s) == 0 {
                        if ip + 2 >= code.len() {
                            Err(Fault::MissingOperand)
                        } else {
                            Ok((
                                MachineState { stack: dropped(s, 1), ip: jump_target(code, ip), ..s },
                                Effect::Continue,
                            ))
                        }
                    } else {
                        Ok((advance(s, 1, seq![], 3), Effect::Continue))
                    }
                },
                Opcode::Dup => {
                    if n < 1 {
                        Err(Fault::StackUnderflow)
                    } else {
                        Ok((advance(s, 0, seq![top(s)], 1), Effect::Continue))
                    }
                },
                Opcode::Swap => {
                    if n < 2 {
                        Err(Fault::StackUnderflow)
                    } else {
                        Ok((advance(s, 2, seq![top(s), second(s)], 1), Effect::Continue))
                    }
                },
                Opcode::Pop => {
                    if n < 1 {
                        Err(Fault::StackUnderflow)
                    } else {
                        Ok((advance(s, 1, seq![], 1), Effect::Continue))
                    }
                },
                Opcode::Store => {
                    if n < 2 {
                        Err(Fault::StackUnderflow)
                    } else {
                        Ok((
                            MachineState {
                                stack: dropped(s, 2),
                                ip: (ip + 1) as usize,
                                memory: s.memory.update(top(s) as int, second(s)),
                            },
                            Effect::Continue,
                        ))
                    }
                },
                Opcode::Load => {
                    if n < 1 {
                        Err(Fault::StackUnderflow)
                    } else {
                        Ok((advance(s, 1, seq![s.memory[top(s) as int]], 1), Effect::Continue))
                    }
                },
                Opcode::Print => {
                    if ip + 1 >= code.len() {
                        Err(Fault::MissingOperand)
                    } else if n < code[ip + 1] {
                        Err(Fault::StackUnderflow)
                    } else {
                        let size = code[ip + 1] as int;
                        Ok((
                            advance(s, size, seq![], 2),
                            Effect::Print(s.stack.subrange(n - size, n as int)),
                        ))
                    }
                },
                Opcode::Ret => {
                    if n < 1 {
                        Err(Fault::StackUnderflow)
                    } else {
                        Ok((MachineState { stack: dropped(s, 1), ..s }, Effect::Exit(top(s))))
                    }
                },
            },
        }
    }
}

/// `n` steps of the machine, stopping early at the first step that asks
/// something of its caller or faults.
pub open spec fn run(s: MachineState, code: Seq<u8>, n: nat) -> Result<(MachineState, Effect), Fault>
    decreases n,
{
    if n == 0 {
        Ok((s, Effect::Continue))
    } else {
        match spec_step(s, code) {
            Ok((s1, Effect::Continue)) => run(s1, code, (n - 1) as nat),
            r => r,
        }
    }
}

/// The first `n` steps of running a binary from a fresh machine.
pub open spec fn binary_run(b: Binary, n: nat) -> Result<(MachineState, Effect), Fault> {
    run(initial_state(), b.code@, n)
}

/// A run depends on a binary's code alone: binaries with the same code and
/// any magic number or version run alike, step for step.
pub proof fn lemma_run_depends_only_on_code(b1: Binary, b2: Binary, n: nat)
    requires
        b1.code@ == b2.code@,
    ensures
        binary_run(b1, n) == binary_run(b2, n),
{
}

/// A step never changes the size of memory.
pub proof fn lemma_step_keeps_memory_size(s: MachineState, code: Seq<u8>)
    requires
        well_formed(s),
    ensures
        spec_step(s, code) matches Ok((s1, _)) ==> well_formed(s1),
{
}

/// What `store` writes, `load` reads back: `push v; push a; store; push a;
/// load` leaves `v` on the stack and `v` at address `a`.
pub proof fn lemma_store_then_load(s: MachineState, v: u8, a: u8)
    requires
        well_formed(s),
        s.ip == 0,
    ensures
        run(s, seq![0x02u8, v, 0x02u8, a, 0x0cu8, 0x02u8, a, 0x0du8], 5) == Ok::<
            (MachineState, Effect),
            Fault,
        >(
            (
                MachineState { stack: s.stack.push(v), ip: 8, memory: s.memory.update(a as int, v) },
                Effect::Continue,
            ),
        ),
{
    let code = seq![0x02u8, v, 0x02u8, a, 0x0cu8, 0x02u8, a, 0x0du8];
    let s1 = MachineState { stack: s.stack.push(v), ip: 2, memory: s.memory };
    let s2 = MachineState { stack: s.stack.push(v).push(a), ip: 4, memory: s.memory };
    let m = s.memory.update(a as int, v);
    let s3 = MachineState { stack: s.stack, ip: 5, memory: m };
    let s4 = MachineState { stack: s.stack.push(a), ip: 7, memory: m };
    let s5 = MachineState { stack: s.stack.push(v), ip: 8, memory: m };
    assert(spec_step(s, code) == Ok::<(MachineState, Effect), Fault>((s1, Effect::Continue))) by {
        assert(advance(s, 0, seq![v], 2).stack =~= s1.stack);
    }
    assert(spec_step(s1, code) == Ok::<(MachineState, Effect), Fault>((s2, Effect::Continue))) by {
        assert(advance(s1, 0, seq![a], 2).stack =~= s2.stack);
    }
    assert(spec_step(s2, code) == Ok::<(MachineState, Effect), Fault>((s3, Effect::Continue))) by {
        assert(dropped(s2, 2) =~= s.stack);
    }
    assert(spec_step(s3, code) == Ok::<(MachineState, Effect), Fault>((s4, Effect::Continue))) by {
        assert(advance(s3, 0, seq![a], 2).stack =~= s4.stack);
    }
    assert(spec_step(s4, code) == Ok::<(MachineState, Effect), Fault>((s5, Effect::Continue))) by {
        assert(advance(s4, 1, seq![m[a as int]], 1).stack =~= s5.stack);
    }
    reveal_with_fuel(run, 6);
}

/// `push v; pop` leaves the stack as it was.
pub proof fn lemma_push_then_pop(s: MachineState, v: u8)
    requires
        s.ip == 0,
    ensures
        run(s, seq![0x02u8, v, 0x08u8], 2) == Ok::<(MachineState, Effect), Fault>(
            (MachineState { ip: 3, ..s }, Effect::Continue),
        ),
{
    let code = seq![0x02u8, v, 0x08u8];
    let s1 = MachineState { stack: s.stack.push(v), ip: 2, memory: s.memory };
    assert(spec_step(s, code) == Ok::<(MachineState, Effect), Fault>((s1, Effect::Continue))) by {
        assert(advance(s, 0, seq![v], 2).stack =~= s1.stack);
    }
    assert(spec_step(s1, code) == Ok::<(MachineState, Effect), Fault>(
        (MachineState { ip: 3, ..s }, Effect::Continue),
    )) by {
        assert(advance(s1, 1, seq![], 1).stack =~= s.stack);
    }
    reveal_with_fuel(run, 3);
}

/// `swap; swap` leaves a stack of two or more values as it was.
pub proof fn lemma_swap_twice(s: MachineState)
    requires
        s.ip == 0,
        s.stack.len() >= 2,
    ensures
        run(s, seq![0x07u8, 0x07u8], 2) == Ok::<(MachineState, Effect), Fault>(
            (MachineState { ip: 2, ..s }, Effect::Continue),
        ),
{
    let code = seq![0x07u8, 0x07u8];
    let s1 = advance(s, 2, seq![top(s), second(s)], 1);
    assert(spec_step(s, code) == Ok::<(MachineState, Effect), Fault>((s1, Effect::Continue)));
    assert(spec_step(s1, code) == Ok::<(MachineState, Effect), Fault>(
        (MachineState { ip: 2, ..s }, Effect::Continue),
    )) by {
        assert(advance(s1, 2, seq![top(s1), second(s1)], 1).stack =~= s.stack);
    }
    reveal_with_fuel(run, 3);
}

/// The first value pushed is the left operand: `push x; push y; sub`
/// leaves `x - y`, and faults when `y > x`.
pub proof fn lemma_sub_operand_order(s: MachineState, x: u8, y: u8)
    requires
        s.ip == 0,
    ensures
        y <= x ==> run(s, seq![0x02u8, x, 0x02u8, y, 0x05u8], 3) == Ok::<
            (MachineState, Effect),
            Fault,
        >(
            (
                MachineState { stack: s.stack.push((x - y) as u8), ip: 5, memory: s.memory },
                Effect::Continue,
            ),
        ),
        y > x ==> run(s, seq![0x02u8, x, 0x02u8, y, 0x05u8], 3) == Err::<
            (MachineState, Effect),
            Fault,
        >(Fault::ArithmeticOverflow),
{
    let code = seq![0x02u8, x, 0x02u8, y, 0x05u8];
    let s1 = MachineState { stack: s.stack.push(x), ip: 2, memory: s.memory };
    let s2 = MachineState { stack: s.stack.push(x).push(y), ip: 4, memory: s.memory };
    assert(spec_step(s, code) == Ok::<(MachineState, Effect), Fault>((s1, Effect::Continue))) by {
        assert(advance(s, 0, seq![x], 2).stack =~= s1.stack);
    }
    assert(spec_step(s1, code) == Ok::<(MachineState, Effect), Fault>((s2, Effect::Continue))) by {
        assert(advance(s1, 0, seq![y], 2).stack =~= s2.stack);
    }
    if y <= x {
        assert(spec_step(s2, code) == Ok::<(MachineState, Effect), Fault>(
            (
                MachineState { stack: s.stack.push((x - y) as u8), ip: 5, memory: s.memory },
                Effect::Continue,
            ),
        )) by {
            assert(advance(s2, 2, seq![(x - y) as u8], 1).stack =~= s.stack.push((x - y) as u8));
        }
    }
    reveal_with_fuel(run, 4);
}

/// `push x; push y; op`, the code of a two-operand instruction applied to
/// `x` (the left operand) and `y`.
pub open spec fn pair_code(x: u8, y: u8, op: u8) -> Seq<u8> {
    seq![0x02u8, x, 0x02u8, y, op]
}

/// The state after running `pair_code` from `s` when the instruction leaves
/// `v`: `v` on top of the stack that `s` had, the instruction pointer after
/// the code, memory unchanged.
pub open spec fn pair_result(s: MachineState, v: u8) -> Result<(MachineState, Effect), Fault> {
    Ok((with_stack(s, s.stack.push(v), 5), Effect::Continue))
}

/// `s` with the given stack and instruction pointer, memory unchanged.
pub open spec fn with_stack(s: MachineState, stack: Seq<u8>, ip: usize) -> MachineState {
    MachineState { stack, ip, memory: s.memory }
}

proof fn lemma_pair_prefix(s: MachineState, x: u8, y: u8, op: u8)
    requires
        s.ip == 0,
    ensures
        run(s, pair_code(x, y, op), 3) == spec_step(
            with_stack(s, s.stack.push(x).push(y), 4),
            pair_code(x, y, op),
        ),
        forall|v: u8|
            #[trigger] advance(with_stack(s, s.stack.push(x).push(y), 4), 2, seq![v], 1)
                == with_stack(s, s.stack.push(v), 5),
{
    let code = pair_code(x, y, op);
    let s1 = MachineState { stack: s.stack.push(x), ip: 2, memory: s.memory };
    let s2 = MachineState { stack: s.stack.push(x).push(y), ip: 4, memory: s.memory };
    assert(spec_step(s, code) == Ok::<(MachineState, Effect), Fault>((s1, Effect::Continue))) by {
        assert(advance(s, 0, seq![x], 2).stack =~= s1.stack);
    }
    assert(spec_step(s1, code) == Ok::<(MachineState, Effect), Fault>((s2, Effect::Continue))) by {
        assert(advance(s1, 0, seq![y], 2).stack =~= s2.stack);
    }
    assert forall|v: u8| #[trigger] advance(s2, 2, seq![v], 1) == with_stack(s, s.stack.push(v), 5) by {
        assert(advance(s2, 2, seq![v], 1).stack =~= s.stack.push(v));
    }
    reveal_with_fuel(run, 4);
}

/// What each two-operand instruction computes from the value pushed first,
/// `x`, and the value pushed second, `y`: `add` gives `x + y`, `sub`
/// `x - y`, `mul` `x * y`, `div` `x / y`, `mod` `x % y`, and `eq`, `lt`,
/// `gte` give 1 when `x == y`, `x < y`, `x >= y` hold and 0 when they do not.
/// A result outside a byte, and a division by zero, fault.
pub proof fn lemma_two_operand_instructions(s: MachineState, x: u8, y: u8)
    requires
        s.ip == 0,
    ensures
        x + y <= 255 ==> run(s, pair_code(x, y, 0x01), 3) == pair_result(s, (x + y) as u8),
        x + y > 255 ==> run(s, pair_code(x, y, 0x01), 3) == Err::<(MachineState, Effect), Fault>(
            Fault::ArithmeticOverflow,
        ),
        y <= x ==> run(s, pair_code(x, y, 0x05), 3) == pair_result(s, (x - y) as u8),
        y > x ==> run(s, pair_code(x, y, 0x05), 3) == Err::<(MachineState, Effect), Fault>(
            Fault::ArithmeticOverflow,
        ),
        x * y <= 255 ==> run(s, pair_code(x, y, 0x09), 3) == pair_result(s, (x * y) as u8),
        x * y > 255 ==> run(s, pair_code(x, y, 0x09), 3) == Err::<(MachineState, Effect), Fault>(
            Fault::ArithmeticOverflow,
        ),
        y != 0 ==> run(s, pair_code(x, y, 0x0a), 3) == pair_result(s, x / y),
        y == 0 ==> run(s, pair_code(x, y, 0x0a), 3) == Err::<(MachineState, Effect), Fault>(
            Fault::DivisionByZero,
        ),
        y != 0 ==> run(s, pair_code(x, y, 0x0b), 3) == pair_result(s, x % y),
        y == 0 ==> run(s, pair_code(x, y, 0x0b), 3) == Err::<(MachineState, Effect), Fault>(
            Fault::DivisionByZero,
        ),
        run(s, pair_code(x, y, 0x11), 3) == pair_result(s, if x == y { 1u8 } else { 0u8 }),
        run(s, pair_code(x, y, 0x0e), 3) == pair_result(s, if x < y { 1u8 } else { 0u8 }),
        run(s, pair_code(x, y, 0x0f), 3) == pair_result(s, if x >= y { 1u8 } else { 0u8 }),
{
    lemma_pair_prefix(s, x, y, 0x01);
    lemma_pair_prefix(s, x, y, 0x05);
    lemma_pair_prefix(s, x, y, 0x09);
    lemma_pair_prefix(s, x, y, 0x0a);
    lemma_pair_prefix(s, x, y, 0x0b);
    lemma_pair_prefix(s, x, y, 0x11);
    lemma_pair_prefix(s, x, y, 0x0e);
    lemma_pair_prefix(s, x, y, 0x0f);
    let s2 = MachineState { stack: s.stack.push(x).push(y), ip: 4, memory: s.memory };
    assert(top(s2) == y);
    assert(second(s2) == x);
}

/// `push x; dup` leaves `x` twice on the stack; `push x; pop` leaves the
/// stack as it was; `push x; push y; swap` leaves `y` below `x`.
pub proof fn lemma_stack_instructions(s: MachineState, x: u8, y: u8)
    requires
        s.ip == 0,
    ensures
        run(s, seq![0x02u8, x, 0x06u8], 2) == Ok::<(MachineState, Effect), Fault>(
            (with_stack(s, s.stack.push(x).push(x), 3), Effect::Continue),
        ),
        run(s, seq![0x02u8, x, 0x08u8], 2) == Ok::<(MachineState, Effect), Fault>(
            (with_stack(s, s.stack, 3), Effect::Continue),
        ),
        run(s, pair_code(x, y, 0x07), 3) == Ok::<(MachineState, Effect), Fault>(
            (with_stack(s, s.stack.push(y).push(x), 5), Effect::Continue),
        ),
{
    let s1 = MachineState { stack: s.stack.push(x), ip: 2, memory: s.memory };
    let c1 = seq![0x02u8, x, 0x06u8];
    let c2 = seq![0x02u8, x, 0x08u8];
    assert(spec_step(s, c1) == Ok::<(MachineState, Effect), Fault>((s1, Effect::Continue))) by {
        assert(advance(s, 0, seq![x], 2).stack =~= s1.stack);
    }
    assert(spec_step(s, c2) == Ok::<(MachineState, Effect), Fault>((s1, Effect::Continue))) by {
        assert(advance(s, 0, seq![x], 2).stack =~= s1.stack);
    }
    assert(advance(s1, 0, seq![x], 1).stack =~= s.stack.push(x).push(x));
    assert(advance(s1, 1, seq![], 1).stack =~= s.stack);
    lemma_pair_prefix(s, x, y, 0x07);
    let s2 = MachineState { stack: s.stack.push(x).push(y), ip: 4, memory: s.memory };
    assert(advance(s2, 2, seq![y, x], 1).stack =~= s.stack.push(y).push(x));
    reveal_with_fuel(run, 3);
}

/// `jmp` goes to the big-endian address in its two operand bytes; `jz`
/// pops its condition and goes there when it is 0, else to the next
/// instruction; `ret` ends the run with the popped value as exit code;
/// `print n` hands out the top `n` values, lowest first, and pops them.
pub proof fn lemma_control_instructions(s: MachineState, hi: u8, lo: u8, v: u8)
    requires
        s.ip == 0,
    ensures
        spec_step(s, seq![0x03u8, hi, lo]) == Ok::<(MachineState, Effect), Fault>(
            (with_stack(s, s.stack, (hi * 256 + lo) as usize), Effect::Continue),
        ),
        v == 0 ==> run(s, seq![0x02u8, v, 0x04u8, hi, lo], 2) == Ok::<
            (MachineState, Effect),
            Fault,
        >((with_stack(s, s.stack, (hi * 256 + lo) as usize), Effect::Continue)),
        v != 0 ==> run(s, seq![0x02u8, v, 0x04u8, hi, lo], 2) == Ok::<
            (MachineState, Effect),
            Fault,
        >((with_stack(s, s.stack, 5), Effect::Continue)),
        run(s, seq![0x02u8, v, 0xffu8], 2) == Ok::<(MachineState, Effect), Fault>(
            (with_stack(s, s.stack, 2), Effect::Exit(v)),
        ),
        run(s, seq![0x02u8, hi, 0x02u8, lo, 0x10u8, 2u8], 3) == Ok::<(MachineState, Effect), Fault>(
            (with_stack(s, s.stack, 6), Effect::Print(seq![hi, lo])),
        ),
{
    let s1 = MachineState { stack: s.stack.push(v), ip: 2, memory: s.memory };
    let cj = seq![0x02u8, v, 0x04u8, hi, lo];
    let cr = seq![0x02u8, v, 0xffu8];
    assert(spec_step(s, cj) == Ok::<(MachineState, Effect), Fault>((s1, Effect::Continue))) by {
        assert(advance(s, 0, seq![v], 2).stack =~= s1.stack);
    }
    assert(spec_step(s, cr) == Ok::<(MachineState, Effect), Fault>((s1, Effect::Continue))) by {
        assert(advance(s, 0, seq![v], 2).stack =~= s1.stack);
    }
    assert(dropped(s1, 1) =~= s.stack);
    assert(advance(s1, 1, seq![], 3).stack =~= s.stack);
    lemma_pair_prefix(s, hi, lo, 0x10);
    let cp = seq![0x02u8, hi, 0x02u8, lo, 0x10u8, 2u8];
    let t1 = MachineState { stack: s.stack.push(hi), ip: 2, memory: s.memory };
    let t2 = MachineState { stack: s.stack.push(hi).push(lo), ip: 4, memory: s.memory };
    assert(spec_step(s, cp) == Ok::<(MachineState, Effect), Fault>((t1, Effect::Continue))) by {
        assert(advance(s, 0, seq![hi], 2).stack =~= t1.stack);
    }
    assert(spec_step(t1, cp) == Ok::<(MachineState, Effect), Fault>((t2, Effect::Continue))) by {
        assert(advance(t1, 0, seq![lo], 2).stack =~= t2.stack);
    }
    assert(advance(t2, 2, seq![], 2).stack =~= s.stack);
    assert(t2.stack.subrange(t2.stack.len() - 2, t2.stack.len() as int) =~= seq![hi, lo]);
    reveal_with_fuel(run, 4);
}

/// When the run has left the code it is over and nothing changes; a byte
/// that is no opcode faults; an instruction that finds fewer values on the
/// stack than it takes (two for `add`, `sub`, `mul`, `div`, `mod`, `eq`,
/// `lt`, `gte`, `swap`, `store`; one for `jz`, `dup`, `pop`, `load`, `ret`)
/// faults; `push`, `jmp` and `jz` whose operand bytes run past the end of
/// the code fault.
pub proof fn lemma_step_faults(s: MachineState, code: Seq<u8>)
    ensures
        s.ip >= code.len() ==> spec_step(s, code) == Ok::<(MachineState, Effect), Fault>(
            (s, Effect::Halt),
        ),
        s.ip < code.len() && !(0x01 <= code[s.ip as int] <= 0x11 || code[s.ip as int] == 0xff)
            ==> spec_step(s, code) == Err::<(MachineState, Effect), Fault>(
            Fault::UnknownOpcode(code[s.ip as int]),
        ),
        s.ip < code.len() && s.stack.len() < 2 && (code[s.ip as int] == 0x01 || code[s.ip as int]
            == 0x05 || code[s.ip as int] == 0x09 || code[s.ip as int] == 0x0a || code[s.ip as int]
            == 0x0b || code[s.ip as int] == 0x11 || code[s.ip as int] == 0x0e || code[s.ip as int]
            == 0x0f || code[s.ip as int] == 0x07 || code[s.ip as int] == 0x0c) ==> spec_step(
            s,
            code,
        ) == Err::<(MachineState, Effect), Fault>(Fault::StackUnderflow),
        s.ip < code.len() && s.stack.len() == 0 && (code[s.ip as int] == 0x04 || code[s.ip as int]
            == 0x06 || code[s.ip as int] == 0x08 || code[s.ip as int] == 0x0d || code[s.ip as int]
            == 0xff) ==> spec_step(s, code) == Err::<(MachineState, Effect), Fault>(
            Fault::StackUnderflow,
        ),
        s.ip + 1 == code.len() && code[s.ip as int] == 0x02 ==> spec_step(s, code) == Err::<
            (MachineState, Effect),
            Fault,
        >(Fault::MissingOperand),
        s.ip < code.len() <= s.ip + 2 && code[s.ip as int] == 0x03 ==> spec_step(s, code) == Err::<
            (MachineState, Effect),
            Fault,
        >(Fault::MissingOperand),
{
}

/// The state of the stack machine.
pub struct Machine {
    stack: Vec<u8>,
    ip: usize,
    memory: Vec<u8>,
}

impl View for Machine {
    type V = MachineState;

    closed spec fn view(&self) -> MachineState {
        MachineState { stack: self.stack@, ip: self.ip, memory: self.memory@ }
    }
}

impl Machine {
    /// A machine ready to run a program from its first byte.
    pub fn new() -> (m: Machine)
        ensures
            m@ == initial_state(),
            well_formed(m@),
    {
        let memory: Vec<u8> = vec![0u8; MEMORY_SIZE];
        let m = Machine { stack: Vec::new(), ip: 0, memory };
        assert(m@.memory =~= initial_state().memory);
        assert(m@.stack =~= initial_state().stack);
        m
    }

    /// The operand stack, bottom first.
    pub fn stack(&self) -> (r: &Vec<u8>)
        ensures
            r@ == self@.stack,
    {
        &self.stack
    }

    /// The instruction pointer.
    pub fn ip(&self) -> (r: usize)
        ensures
            r == self@.ip,
    {
        self.ip
    }

    /// The data memory.
    pub fn memory(&self) -> (r: &Vec<u8>)
        ensures
            r@ == self@.memory,
    {
        &self.memory
    }

    /// Pops the top value of a stack known not to be empty.
    fn pop_value(stack: &mut Vec<u8>) -> (v: u8)
        requires
            old(stack)@.len() > 0,
        ensures
            v == old(stack)@.last(),
            final(stack)@ == old(stack)@.drop_last(),
    {
        match stack.pop() {
            Some(v) => v,
            None => 0,
        }
    }

    /// Carries out the instruction at the instruction pointer.
    ///
    /// On success the machine takes the state that [`spec_step`] gives and the
    /// result says what the caller must do; on a fault the machine is left as
    /// it was.
    pub fn step(&mut self, code: &Vec<u8>) -> (r: Result<Step, Fault>)
        requires
            well_formed(old(self)@),
            code@.len() + 3 <= usize::MAX,
        ensures
            well_formed(final(self)@),
            match spec_step(old(self)@, code@) {
                Ok((s, e)) => r matches Ok(st) && st.effect() == e && final(self)@ == s,
                Err(f) => r == Err::<Step, Fault>(f) && final(self)@ == old(self)@,
            },
    {
        let ghost s = self@;
        let ip = self.ip;
        let n = self.stack.len();
        if ip >= code.len() {
            return Ok(Step::Halt);
        }
        let byte = code[ip];
        let op = match Opcode::try_from(byte) {
            Ok(op) => op,
            Err(()) => return Err(Fault::UnknownOpcode(byte)),
        };
        match op {
            Opcode::Add | Opcode::Sub | Opcode::Mul | Opcode::Div | Opcode::Mod | Opcode::Eq
            | Opcode::Lt | Opcode::Gte => {
                if n < 2 {
                    return Err(Fault::StackUnderflow);
                }
                let a = self.stack[n - 1];
                let b = self.stack[n - 2];
                let r: u8 = match op {
                    Opcode::Add => {
                        if a as u16 + b as u16 > 255 {
                            return Err(Fault::ArithmeticOverflow);
                        }
                        a + b
                    },
                    Opcode::Sub => {
                        if b < a {
                            return Err(Fault::ArithmeticOverflow);
                        }
                        b - a
                    },
                    Opcode::Mul => {
                        match a.checked_mul(b) {
                            Some(r) => r,
                            None => return Err(Fault::ArithmeticOverflow),
                        }
                    },
                    Opcode::Div => {
                        if a == 0 {
                            return Err(Fault::DivisionByZero);
                        }
                        b / a
                    },
                    Opcode::Mod => {
                        if a == 0 {
                            return Err(Fault::DivisionByZero);
                        }
                        b % a
                    },
                    Opcode::Eq => {
                        if a == b {
                            1
                        } else {
                            0
                        }
                    },
                    Opcode::Lt => {
                        if b < a {
                            1
                        } else {
                            0
                        }
                    },
                    _ => {
                        if b >= a {
                            1
                        } else {
                            0
                        }
                    },
                };
                self.stack.truncate(n - 2);
                self.stack.push(r);
                self.ip = ip + 1;
                proof {
                    assert(self@.stack =~= advance(s, 2, seq![r], 1).stack);
                }
                Ok(Step::Continue)
            },
            Opcode::Push => {
                if ip + 1 >= code.len() {
                    return Err(Fault::MissingOperand);
                }
                self.stack.push(code[ip + 1]);
                self.ip = ip + 2;
                proof {
                    assert(self@.stack =~= advance(s, 0, seq![code@[ip + 1]], 2).stack);
                }
                Ok(Step::Continue)
            },
            Opcode::Jmp => {
                if ip + 2 >= code.len() {
                    return Err(Fault::MissingOperand);
                }
                self.ip = code[ip + 1] as usize * 256 + code[ip + 2] as usize;
                Ok(Step::Continue)
            },
            Opcode::Jz => {
                if n < 1 {
                    return Err(Fault::StackUnderflow);
                }
                if self.stack[n - 1] == 0 {
                    if ip + 2 >= code.len() {
                        return Err(Fault::MissingOperand);
                    }
                    Self::pop_value(&mut self.stack);
                    self.ip = code[ip + 1] as usize * 256 + code[ip + 2] as usize;
                } else {
                    Self::pop_value(&mut self.stack);
                    self.ip = ip + 3;
                }
                proof {
                    assert(self@.stack =~= dropped(s, 1));
                    assert(dropped(s, 1) =~= advance(s, 1, seq![], 3).stack);
                }
                Ok(Step::Continue)
            },
            Opcode::Dup => {
                if n < 1 {
                    return Err(Fault::StackUnderflow);
                }
                let v = self.stack[n - 1];
                self.stack.push(v);
                self.ip = ip + 1;
                proof {
                    assert(self@.stack =~= advance(s, 0, seq![v], 1).stack);
                }
                Ok(Step::Continue)
            },
            Opcode::Swap => {
                if n < 2 {
                    return Err(Fault::StackUnderflow);
                }
                let a = Self::pop_value(&mut self.stack);
                let b = Self::pop_value(&mut self.stack);
                self.stack.push(a);
                self.stack.push(b);
                self.ip = ip + 1;
                proof {
                    assert(self@.stack =~= advance(s, 2, seq![a, b], 1).stack);
                }
                Ok(Step::Continue)
            },
            Opcode::Pop => {
                if n < 1 {
                    return Err(Fault::StackUnderflow);
                }
                Self::pop_value(&mut self.stack);
                self.ip = ip + 1;
                proof {
                    assert(self@.stack =~= advance(s, 1, seq![], 1).stack);
                }
                Ok(Step::Continue)
            },
            Opcode::Store => {
                if n < 2 {
                    return Err(Fault::StackUnderflow);
                }
                let address = Self::pop_value(&mut self.stack);
                let value = Self::pop_value(&mut self.stack);
                self.memory.set(address as usize, value);
                self.ip = ip + 1;
                proof {
                    assert(self@.stack =~= dropped(s, 2));
                }
                Ok(Step::Continue)
            },
            Opcode::Load => {
                if n < 1 {
                    return Err(Fault::StackUnderflow);
                }
                let address = Self::pop_value(&mut self.stack);
                let v = self.memory[address as usize];
                self.stack.push(v);
                self.ip = ip + 1;
                proof {
                    assert(self@.stack =~= advance(s, 1, seq![v], 1).stack);
                }
                Ok(Step::Continue)
            },
            Opcode::Print => {
                if ip + 1 >= code.len() {
                    return Err(Fault::MissingOperand);
                }
                let size = code[ip + 1] as usize;
                if n < size {
                    return Err(Fault::StackUnderflow);
                }
                let bytes = self.stack.split_off(n - size);
                self.ip = ip + 2;
                proof {
                    assert(self@.stack =~= advance(s, size as int, seq![], 2).stack);
                }
                Ok(Step::Print(bytes))
            },
            Opcode::Ret => {
                if n < 1 {
                    return Err(Fault::StackUnderflow);
                }
                let v = Self::pop_value(&mut self.stack);
                Ok(Step::Exit(v))
            },
        }
    }
}

} // verus!
