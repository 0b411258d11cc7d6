//! The assembler: its program representation, label resolution and code
//! generation.
use vstd::prelude::*;

use crate::labels::LabelMap;
use crate::opcode::{opcode_byte, Opcode};

verus! {

/// One instruction of an assembly program.
#[derive(Debug, Clone, PartialEq, Eq)]
pub enum Instr {
    Add,
    Sub,
    Dup,
    Pop,
    Mul,
    Mod,
    Div,
    Load,
    Store,
    Swap,
    Eq,
    Lt,
    Gte,
    Print(u8),
    Ret,
    Push(u8),
    Jmp(String),
    Jz(String),
}

/// One element of an assembly program, with the source line it came from.
#[derive(Debug, Clone)]
pub enum Node {
    Label(String, usize),
    Instr(Instr, usize),
}

/// An assembly program.
pub type Program = Vec<Node>;

/// An instruction, with label names as character sequences.
pub ghost enum InstrView {
    Add,
    Sub,
    Dup,
    Pop,
    Mul,
    Mod,
    Div,
    Load,
    Store,
    Swap,
    Eq,
    Lt,
    Gte,
    Print(u8),
    Ret,
    Push(u8),
    Jmp(Seq<char>),
    Jz(Seq<char>),
}

/// A program element, with names as character sequences.
pub ghost enum NodeView {
    Label(Seq<char>, usize),
    Instr(InstrView, usize),
}

impl View for Instr {
    type V = InstrView;

    open spec fn view(&self) -> InstrView {
        match self {
            Instr::Add => InstrView::Add,
            Instr::Sub => InstrView::Sub,
            Instr::Dup => InstrView::Dup,
            Instr::Pop => InstrView::Pop,
            Instr::Mul => InstrView::Mul,
            Instr::Mod => InstrView::Mod,
            Instr::Div => InstrView::Div,
            Instr::Load => InstrView::Load,
            Instr::Store => InstrView::Store,
            Instr::Swap => InstrView::Swap,
            Instr::Eq => InstrView::Eq,
            Instr::Lt => InstrView::Lt,
            Instr::Gte => InstrView::Gte,
            Instr::Print(v) => InstrView::Print(*v),
            Instr::Ret => InstrView::Ret,
            Instr::Push(v) => InstrView::Push(*v),
            Instr::Jmp(l) => InstrView::Jmp(l@),
            Instr::Jz(l) => InstrView::Jz(l@),
        }
    }
}

impl View for Node {
    type V = NodeView;

    open spec fn view(&self) -> NodeView {
        match self {
            Node::Label(name, line) => NodeView::Label(name@, *line),
            Node::Instr(i, line) => NodeView::Instr(i@, *line),
        }
    }
}

/// The elements of a program, with names as character sequences.
pub open spec fn program_view(p: Seq<Node>) -> Seq<NodeView> {
    p.map_values(|n: Node| n@)
}


/// The opcode that an instruction is encoded with.
pub open spec fn instr_opcode(i: InstrView) -> Opcode {
    match i {
        InstrView::Add => Opcode::Add,
        InstrView::Sub => Opcode::Sub,
        InstrView::Dup => Opcode::Dup,
        InstrView::Pop => Opcode::Pop,
        InstrView::Mul => Opcode::Mul,
        InstrView::Mod => Opcode::Mod,
        InstrView::Div => Opcode::Div,
        InstrView::Load => Opcode::Load,
        InstrView::Store => Opcode::Store,
        InstrView::Swap => Opcode::Swap,
        InstrView::Eq => Opcode::Eq,
        InstrView::Lt => Opcode::Lt,
        InstrView::Gte => Opcode::Gte,
        InstrView::Print(_) => Opcode::Print,
        InstrView::Ret => Opcode::Ret,
        InstrView::Push(_) => Opcode::Push,
        InstrView::Jmp(_) => Opcode::Jmp,
        InstrView::Jz(_) => Opcode::Jz,
    }
}

/// Number of bytes an instruction occupies in bytecode.
pub open spec fn instr_size(i: InstrView) -> nat {
    match i {
        InstrView::Push(_) | InstrView::Print(_) => 2,
        InstrView::Jmp(_) | InstrView::Jz(_) => 3,
        _ => 1,
    }
}

/// Number of bytes the instructions of a program occupy.
pub open spec fn program_size(p: Seq<NodeView>) -> nat
    decreases p.len(),
{
    if p.len() == 0 {
        0
    } else {
        program_size(p.drop_last()) + match p.last() {
            NodeView::Label(..) => 0,
            NodeView::Instr(i, _) => instr_size(i),
        }
    }
}

/// The labels of a program: each name is bound to the number of bytecode
/// bytes before its label; a later label of the same name wins.
pub open spec fn label_addresses(p: Seq<NodeView>) -> Map<Seq<char>, u16>
    decreases p.len(),
{
    if p.len() == 0 {
        Map::empty()
    } else {
        let earlier = label_addresses(p.drop_last());
        match p.last() {
            NodeView::Label(name, _) => earlier.insert(name, program_size(p.drop_last()) as u16),
            NodeView::Instr(..) => earlier,
        }
    }
}

/// The bytecode of a jump with opcode `op` to `address`, big-endian.
pub open spec fn jump_bytes(op: Opcode, address: u16) -> Seq<u8> {
    seq![opcode_byte(op), (address / 256) as u8, (address % 256) as u8]
}

/// The bytecode of an instruction, or `None` when it jumps to a label that
/// `labels` does not hold.
pub open spec fn instr_bytes(i: InstrView, labels: Map<Seq<char>, u16>) -> Option<Seq<u8>> {
    match i {
        InstrView::Print(v) => Some(seq![opcode_byte(Opcode::Print), v]),
        InstrView::Push(v) => Some(seq![opcode_byte(Opcode::Push), v]),
        InstrView::Jmp(l) => if labels.contains_key(l) {
            Some(jump_bytes(Opcode::Jmp, labels[l]))
        } else {
            None
        },
        InstrView::Jz(l) => if labels.contains_key(l) {
            Some(jump_bytes(Opcode::Jz, labels[l]))
        } else {
            None
        },
        _ => Some(seq![opcode_byte(instr_opcode(i))]),
    }
}

/// Why code generation stops.
#[derive(Debug, Clone, PartialEq, Eq)]
pub enum CodegenError {
    /// A jump names a label that the program does not define.
    UndefinedLabel { label: String, line: usize },
}

/// The bytecode of a program, or the name and line of the first jump to an
/// undefined label.
pub open spec fn program_bytes(p: Seq<NodeView>, labels: Map<Seq<char>, u16>) -> Result<
    Seq<u8>,
    (Seq<char>, usize),
>
    decreases p.len(),
{
    if p.len() == 0 {
        Ok(seq![])
    } else {
        match program_bytes(p.drop_last(), labels) {
            Err(e) => Err(e),
            Ok(b) => match p.last() {
                NodeView::Label(..) => Ok(b),
                NodeView::Instr(i, line) => match instr_bytes(i, labels) {
                    Some(ib) => Ok(b + ib),
                    None => Err(
                        (
                            match i {
                                InstrView::Jmp(l) => l,
                                InstrView::Jz(l) => l,
                                _ => Seq::empty(),
                            },
                            line,
                        ),
                    ),
                },
            },
        }
    }
}

impl CodegenError {
    pub open spec fn model(&self) -> (Seq<char>, usize) {
        match self {
            CodegenError::UndefinedLabel { label, line } => (label@, *line),
        }
    }
}

impl Instr {
    /// Number of bytes this instruction occupies in bytecode.
    pub fn size(&self) -> (r: u16)
        ensures
            r == instr_size(self@),
    {
        match self {
            Instr::Add | Instr::Sub | Instr::Dup | Instr::Swap | Instr::Mul | Instr::Pop
            | Instr::Ret | Instr::Mod | Instr::Load | Instr::Store | Instr::Div | Instr::Eq
            | Instr::Gte | Instr::Lt => 1,
            Instr::Push(_) | Instr::Print(_) => 2,
            Instr::Jmp(_) | Instr::Jz(_) => 3,
        }
    }
}

/// The bytecode of an instruction is as long as its size says, and starts
/// with its opcode.
pub proof fn lemma_instr_bytes_shape(i: InstrView, labels: Map<Seq<char>, u16>)
    ensures
        instr_bytes(i, labels) matches Some(bs) ==> bs.len() == instr_size(i) && bs[0]
            == opcode_byte(instr_opcode(i)),
{
}

/// The bytecode of a program is as long as the program's size says.
pub proof fn lemma_program_bytes_len(p: Seq<NodeView>, labels: Map<Seq<char>, u16>)
    ensures
        program_bytes(p, labels) matches Ok(b) ==> b.len() == program_size(p),
    decreases p.len(),
{
    if p.len() > 0 {
        lemma_program_bytes_len(p.drop_last(), labels);
        match p.last() {
            NodeView::Instr(i, _) => lemma_instr_bytes_shape(i, labels),
            NodeView::Label(..) => {},
        }
    }
}

/// The bytecode of a prefix of a program is a prefix of the program's
/// bytecode.
pub proof fn lemma_program_bytes_prefix(p: Seq<NodeView>, k: int, labels: Map<Seq<char>, u16>)
    requires
        0 <= k <= p.len(),
        program_bytes(p, labels) is Ok,
    ensures
        program_bytes(p.take(k), labels) is Ok,
        program_bytes(p, labels)->Ok_0.subrange(
            0,
            program_bytes(p.take(k), labels)->Ok_0.len() as int,
        ) == program_bytes(p.take(k), labels)->Ok_0,
    decreases p.len(),
{
    if k < p.len() {
        assert(p.drop_last().take(k) =~= p.take(k));
        lemma_program_bytes_prefix(p.drop_last(), k, labels);
        let b = program_bytes(p.drop_last(), labels)->Ok_0;
        let full = program_bytes(p, labels)->Ok_0;
        let pre = program_bytes(p.take(k), labels)->Ok_0;
        lemma_program_bytes_len(p.drop_last(), labels);
        lemma_program_bytes_len(p.take(k), labels);
        lemma_program_size_prefix(p.drop_last(), k);
        assert(full.subrange(0, b.len() as int) =~= b);
        assert(full.subrange(0, pre.len() as int) =~= b.subrange(0, pre.len() as int));
    } else {
        assert(p.take(k) =~= p);
        let full = program_bytes(p, labels)->Ok_0;
        assert(full.subrange(0, full.len() as int) =~= full);
    }
}

/// Each instruction of a program is encoded in the program's bytecode at
/// the offset that the size of the instructions before it gives.
pub proof fn lemma_instr_at_offset(p: Seq<NodeView>, j: int, labels: Map<Seq<char>, u16>)
    requires
        0 <= j < p.len(),
        program_bytes(p, labels) is Ok,
        p[j] is Instr,
    ensures
        ({
            let i = p[j]->Instr_0;
            let at = program_size(p.take(j)) as int;
            &&& instr_bytes(i, labels) is Some
            &&& program_bytes(p, labels)->Ok_0.subrange(at, at + instr_size(i)) == instr_bytes(
                i,
                labels,
            ).unwrap()
        }),
{
    let i = p[j]->Instr_0;
    let q = p.take(j + 1);
    lemma_program_bytes_prefix(p, j + 1, labels);
    assert(q.drop_last() =~= p.take(j));
    assert(q.last() == p[j]);
    let bq = program_bytes(q, labels)->Ok_0;
    let bj = program_bytes(p.take(j), labels)->Ok_0;
    lemma_program_bytes_len(p.take(j), labels);
    lemma_instr_bytes_shape(i, labels);
    let ib = instr_bytes(i, labels).unwrap();
    assert(bq == bj + ib);
    let full = program_bytes(p, labels)->Ok_0;
    let at = program_size(p.take(j)) as int;
    lemma_program_bytes_len(p, labels);
    lemma_program_bytes_len(q, labels);
    lemma_program_size_prefix(p, j + 1);
    let fp = full.subrange(0, bq.len() as int);
    assert(fp == bq);
    assert(bq.len() == at + instr_size(i));
    assert(full.subrange(at, at + instr_size(i)) =~= fp.subrange(at, at + instr_size(i)));
    assert(bq.subrange(at, at + instr_size(i)) =~= ib);
}

/// Whether node `n` defines the label `name`.
pub open spec fn defines(n: NodeView, name: Seq<char>) -> bool {
    n matches NodeView::Label(l, _) && l == name
}

/// A label of a program stands for the address of the last definition of
/// its name: the number of bytecode bytes before it.
pub proof fn lemma_label_address(p: Seq<NodeView>, name: Seq<char>)
    requires
        label_addresses(p).contains_key(name),
    ensures
        exists|j: int|
            0 <= j < p.len() && defines(#[trigger] p[j], name) && label_addresses(p)[name]
                == program_size(p.take(j)) as u16 && forall|k: int|
                j < k < p.len() ==> !defines(#[trigger] p[k], name),
    decreases p.len(),
{
    let q = p.drop_last();
    let last = p.last();
    if defines(last, name) {
        let j = p.len() - 1;
        assert(p.take(j) =~= q);
        assert(defines(p[j], name));
    } else {
        assert(label_addresses(q).contains_key(name) && label_addresses(p)[name]
            == label_addresses(q)[name]);
        lemma_label_address(q, name);
        let j = choose|j: int|
            0 <= j < q.len() && defines(#[trigger] q[j], name) && label_addresses(q)[name]
                == program_size(q.take(j)) as u16 && forall|k: int|
                j < k < q.len() ==> !defines(#[trigger] q[k], name);
        assert(q.take(j) =~= p.take(j));
        assert(p[j] == q[j]);
        assert forall|k: int| j < k < p.len() implies !defines(#[trigger] p[k], name) by {
            if k < q.len() {
                assert(p[k] == q[k]);
            }
        }
    }
}

/// Every jump of the program names a label that the program defines.
pub open spec fn jumps_resolved(p: Seq<NodeView>) -> bool {
    forall|j: int|
        0 <= j < p.len() ==> match #[trigger] p[j] {
            NodeView::Instr(InstrView::Jmp(l), _) => label_addresses(p).contains_key(l),
            NodeView::Instr(InstrView::Jz(l), _) => label_addresses(p).contains_key(l),
            _ => true,
        }
}

/// A program whose jumps all name labels it defines encodes to bytecode
/// against its own labels.
pub proof fn lemma_resolved_program_encodes(p: Seq<NodeView>)
    requires
        jumps_resolved(p),
    ensures
        program_bytes(p, label_addresses(p)) is Ok,
{
    let labels = label_addresses(p);
    lemma_encodes_with(p, labels);
}

proof fn lemma_encodes_with(p: Seq<NodeView>, labels: Map<Seq<char>, u16>)
    requires
        forall|j: int|
            0 <= j < p.len() ==> match #[trigger] p[j] {
                NodeView::Instr(InstrView::Jmp(l), _) => labels.contains_key(l),
                NodeView::Instr(InstrView::Jz(l), _) => labels.contains_key(l),
                _ => true,
            },
    ensures
        program_bytes(p, labels) is Ok,
    decreases p.len(),
{
    if p.len() > 0 {
        let q = p.drop_last();
        assert forall|j: int| 0 <= j < q.len() implies match #[trigger] q[j] {
            NodeView::Instr(InstrView::Jmp(l), _) => labels.contains_key(l),
            NodeView::Instr(InstrView::Jz(l), _) => labels.contains_key(l),
            _ => true,
        } by {
            assert(q[j] == p[j]);
        }
        lemma_encodes_with(q, labels);
        let last = p[p.len() - 1];
        assert(last == p.last());
    }
}

/// The bytecode of two programs one after the other is the bytecode of the
/// first followed by that of the second; the first error wins.
pub proof fn lemma_program_bytes_concat(
    p1: Seq<NodeView>,
    p2: Seq<NodeView>,
    labels: Map<Seq<char>, u16>,
)
    ensures
        program_bytes(p1 + p2, labels) == match program_bytes(p1, labels) {
            Err(e) => Err(e),
            Ok(b1) => match program_bytes(p2, labels) {
                Ok(b2) => Ok(b1 + b2),
                Err(e) => Err(e),
            },
        },
    decreases p2.len(),
{
    if p2.len() == 0 {
        assert(p1 + p2 =~= p1);
        match program_bytes(p1, labels) {
            Ok(b1) => {
                assert(b1 + Seq::<u8>::empty() =~= b1);
            },
            Err(_) => {},
        }
    } else {
        let q = p2.drop_last();
        assert((p1 + p2).drop_last() =~= p1 + q);
        assert((p1 + p2).last() == p2.last());
        lemma_program_bytes_concat(p1, q, labels);
        match program_bytes(p1, labels) {
            Ok(b1) => match program_bytes(q, labels) {
                Ok(bq) => match p2.last() {
                    NodeView::Label(..) => {},
                    NodeView::Instr(i, _) => match instr_bytes(i, labels) {
                        Some(ib) => {
                            assert(b1 + bq + ib =~= b1 + (bq + ib));
                        },
                        None => {},
                    },
                },
                Err(_) => {},
            },
            Err(_) => {},
        }
    }
}

/// The instructions of a program, in order, without labels and lines.
pub open spec fn instructions(p: Seq<NodeView>) -> Seq<InstrView>
    decreases p.len(),
{
    if p.len() == 0 {
        Seq::empty()
    } else {
        match p.last() {
            NodeView::Label(..) => instructions(p.drop_last()),
            NodeView::Instr(i, _) => instructions(p.drop_last()).push(i),
        }
    }
}

/// Two label tables agree on every label that the instructions `is` jump
/// to, and both hold it.
pub open spec fn agree_on_targets(
    is: Seq<InstrView>,
    l1: Map<Seq<char>, u16>,
    l2: Map<Seq<char>, u16>,
) -> bool {
    forall|k: int|
        0 <= k < is.len() ==> match #[trigger] is[k] {
            InstrView::Jmp(l) => l1.contains_key(l) && l2.contains_key(l) && l1[l] == l2[l],
            InstrView::Jz(l) => l1.contains_key(l) && l2.contains_key(l) && l1[l] == l2[l],
            _ => true,
        }
}

/// The bytecode of a list of instructions whose jump targets `labels` holds.
pub open spec fn encode_instrs(is: Seq<InstrView>, labels: Map<Seq<char>, u16>) -> Seq<u8>
    decreases is.len(),
{
    if is.len() == 0 {
        Seq::empty()
    } else {
        encode_instrs(is.drop_last(), labels) + instr_bytes(is.last(), labels).unwrap()
    }
}

proof fn lemma_encode_instrs_agree(is: Seq<InstrView>, l1: Map<Seq<char>, u16>, l2: Map<Seq<char>, u16>)
    requires
        agree_on_targets(is, l1, l2),
    ensures
        encode_instrs(is, l1) == encode_instrs(is, l2),
        forall|k: int| 0 <= k < is.len() ==> instr_bytes(#[trigger] is[k], l1) is Some,
    decreases is.len(),
{
    if is.len() > 0 {
        let q = is.drop_last();
        assert forall|k: int| 0 <= k < q.len() implies match #[trigger] q[k] {
            InstrView::Jmp(l) => l1.contains_key(l) && l2.contains_key(l) && l1[l] == l2[l],
            InstrView::Jz(l) => l1.contains_key(l) && l2.contains_key(l) && l1[l] == l2[l],
            _ => true,
        } by {
            assert(q[k] == is[k]);
        }
        lemma_encode_instrs_agree(q, l1, l2);
        let last = is[is.len() - 1];
        assert(last == is.last());
        assert forall|k: int| 0 <= k < is.len() implies instr_bytes(#[trigger] is[k], l1) is Some by {
            if k < q.len() {
                assert(q[k] == is[k]);
            }
        }
    }
}

proof fn lemma_program_bytes_instructions(p: Seq<NodeView>, labels: Map<Seq<char>, u16>)
    requires
        forall|k: int|
            0 <= k < instructions(p).len() ==> instr_bytes(#[trigger] instructions(p)[k], labels) is Some,
    ensures
        program_bytes(p, labels) == Ok::<Seq<u8>, (Seq<char>, usize)>(
            encode_instrs(instructions(p), labels),
        ),
    decreases p.len(),
{
    if p.len() > 0 {
        let q = p.drop_last();
        match p.last() {
            NodeView::Label(..) => {
                assert(instructions(p) == instructions(q));
                lemma_program_bytes_instructions(q, labels);
            },
            NodeView::Instr(i, _) => {
                let iq = instructions(q);
                let ip = instructions(p);
                assert(ip == iq.push(i));
                assert forall|k: int| 0 <= k < iq.len() implies instr_bytes(
                    #[trigger] iq[k],
                    labels,
                ) is Some by {
                    assert(ip[k] == iq[k]);
                }
                lemma_program_bytes_instructions(q, labels);
                assert(ip[iq.len() as int] == i);
                assert(ip.drop_last() =~= iq);
            },
        }
    }
}

/// The bytecode of a program depends only on its instructions and on the
/// addresses of the labels they jump to: labels and line numbers do not
/// change it, nor do addresses of labels that no jump names.
pub proof fn lemma_program_bytes_only_instructions(
    p: Seq<NodeView>,
    q: Seq<NodeView>,
    l1: Map<Seq<char>, u16>,
    l2: Map<Seq<char>, u16>,
)
    requires
        instructions(p) == instructions(q),
        agree_on_targets(instructions(p), l1, l2),
    ensures
        program_bytes(p, l1) is Ok,
        program_bytes(p, l1) == program_bytes(q, l2),
{
    let is = instructions(p);
    lemma_encode_instrs_agree(is, l1, l2);
    assert(agree_on_targets(is, l2, l1));
    lemma_encode_instrs_agree(is, l2, l1);
    lemma_program_bytes_instructions(p, l1);
    lemma_program_bytes_instructions(q, l2);
}

/// Two programs one after the other take the sum of their sizes.
pub proof fn lemma_program_size_concat(p: Seq<NodeView>, q: Seq<NodeView>)
    ensures
        program_size(p + q) == program_size(p) + program_size(q),
    decreases q.len(),
{
    if q.len() == 0 {
        assert(p + q =~= p);
    } else {
        assert((p + q).drop_last() =~= p + q.drop_last());
        assert((p + q).last() == q.last());
        lemma_program_size_concat(p, q.drop_last());
    }
}

/// The labels of two programs one after the other: a label of the first
/// that the second does not define keeps its address, and a label that the
/// second defines is placed after the whole first program.
pub proof fn lemma_label_addresses_concat(p: Seq<NodeView>, q: Seq<NodeView>)
    requires
        program_size(p + q) <= u16::MAX,
    ensures
        label_addresses(p + q).dom() == label_addresses(p).dom() + label_addresses(q).dom(),
        forall|n: Seq<char>|
            #[trigger] label_addresses(p).contains_key(n) && !label_addresses(q).contains_key(n)
                ==> label_addresses(p + q)[n] == label_addresses(p)[n],
        forall|m: Seq<char>|
            #[trigger] label_addresses(q).contains_key(m) ==> label_addresses(p + q)[m]
                == program_size(p) + label_addresses(q)[m],
    decreases q.len(),
{
    lemma_program_size_concat(p, q);
    if q.len() == 0 {
        assert(p + q =~= p);
        assert(label_addresses(p).dom() + label_addresses(q).dom() =~= label_addresses(p).dom());
    } else {
        let r = q.drop_last();
        assert((p + q).drop_last() =~= p + r);
        assert((p + q).last() == q.last());
        lemma_program_size_concat(p, r);
        lemma_program_size_prefix(q, r.len() as int);
        assert(q.take(r.len() as int) =~= r);
        lemma_label_addresses_concat(p, r);
        match q.last() {
            NodeView::Label(name, _) => {
                assert(label_addresses(p + q).dom() =~= label_addresses(p).dom()
                    + label_addresses(q).dom());
            },
            NodeView::Instr(..) => {
                assert(label_addresses(p + q).dom() =~= label_addresses(p).dom()
                    + label_addresses(q).dom());
            },
        }
    }
}

/// The bytes of each instruction: its opcode (`add` 0x01, `push` 0x02,
/// `jmp` 0x03, `jz` 0x04, `sub` 0x05, `dup` 0x06, `swap` 0x07, `pop` 0x08,
/// `mul` 0x09, `div` 0x0a, `mod` 0x0b, `store` 0x0c, `load` 0x0d, `lt` 0x0e,
/// `gte` 0x0f, `print` 0x10, `eq` 0x11, `ret` 0xff), then the operand byte
/// of `push` and `print`, or the big-endian address of a jump's label.
pub proof fn lemma_instruction_encoding(labels: Map<Seq<char>, u16>, v: u8, l: Seq<char>)
    ensures
        instr_bytes(InstrView::Add, labels) == Some(seq![0x01u8]),
        instr_bytes(InstrView::Sub, labels) == Some(seq![0x05u8]),
        instr_bytes(InstrView::Dup, labels) == Some(seq![0x06u8]),
        instr_bytes(InstrView::Pop, labels) == Some(seq![0x08u8]),
        instr_bytes(InstrView::Mul, labels) == Some(seq![0x09u8]),
        instr_bytes(InstrView::Mod, labels) == Some(seq![0x0bu8]),
        instr_bytes(InstrView::Div, labels) == Some(seq![0x0au8]),
        instr_bytes(InstrView::Load, labels) == Some(seq![0x0du8]),
        instr_bytes(InstrView::Store, labels) == Some(seq![0x0cu8]),
        instr_bytes(InstrView::Swap, labels) == Some(seq![0x07u8]),
        instr_bytes(InstrView::Eq, labels) == Some(seq![0x11u8]),
        instr_bytes(InstrView::Lt, labels) == Some(seq![0x0eu8]),
        instr_bytes(InstrView::Gte, labels) == Some(seq![0x0fu8]),
        instr_bytes(InstrView::Ret, labels) == Some(seq![0xffu8]),
        instr_bytes(InstrView::Push(v), labels) == Some(seq![0x02u8, v]),
        instr_bytes(InstrView::Print(v), labels) == Some(seq![0x10u8, v]),
        labels.contains_key(l) ==> instr_bytes(InstrView::Jmp(l), labels) == Some(
            seq![0x03u8, (labels[l] / 256) as u8, (labels[l] % 256) as u8],
        ),
        labels.contains_key(l) ==> instr_bytes(InstrView::Jz(l), labels) == Some(
            seq![0x04u8, (labels[l] / 256) as u8, (labels[l] % 256) as u8],
        ),
        !labels.contains_key(l) ==> instr_bytes(InstrView::Jmp(l), labels) is None,
        !labels.contains_key(l) ==> instr_bytes(InstrView::Jz(l), labels) is None,
{
}

/// Number of bytes the instructions of a program occupy, or `None` when
/// that is more than the 65535 that bytecode addresses reach.
pub fn code_size(program: &Program) -> (r: Option<u16>)
    ensures
        program_size(program_view(program@)) <= u16::MAX ==> r == Some(
            program_size(program_view(program@)) as u16,
        ),
        program_size(program_view(program@)) > u16::MAX ==> r is None,
{
    let ghost pv = program_view(program@);
    let mut total: u16 = 0;
    let mut i: usize = 0;
    while i < program.len()
        invariant
            pv == program_view(program@),
            i <= program@.len(),
            total == program_size(pv.take(i as int)),
        decreases program@.len() - i,
    {
        proof {
            assert(pv.take(i + 1).drop_last() =~= pv.take(i as int));
            assert(pv[i as int] == program@[i as int]@);
        }
        match &program[i] {
            Node::Label(..) => {},
            Node::Instr(instr, _) => {
                let size = instr.size();
                if total > 65535 - size {
                    proof {
                        lemma_program_size_prefix(pv, i as int + 1);
                    }
                    return None;
                }
                total = total + size;
            },
        }
        i = i + 1;
    }
    proof {
        assert(pv.take(i as int) =~= pv);
    }
    Some(total)
}

/// A prefix of a program is no larger than the program.
pub proof fn lemma_program_size_prefix(p: Seq<NodeView>, k: int)
    requires
        0 <= k <= p.len(),
    ensures
        program_size(p.take(k)) <= program_size(p),
    decreases p.len(),
{
    if k < p.len() {
        lemma_program_size_prefix(p.drop_last(), k);
        assert(p.drop_last().take(k) =~= p.take(k));
    } else {
        assert(p.take(k) =~= p);
    }
}

/// Once a prefix of a program fails to encode, the whole program fails
/// with the same error.
pub proof fn lemma_program_bytes_err_prefix(p: Seq<NodeView>, k: int, labels: Map<Seq<char>, u16>)
    requires
        0 <= k <= p.len(),
        program_bytes(p.take(k), labels) is Err,
    ensures
        program_bytes(p, labels) == program_bytes(p.take(k), labels),
    decreases p.len(),
{
    if k < p.len() {
        assert(p.drop_last().take(k) =~= p.take(k));
        lemma_program_bytes_err_prefix(p.drop_last(), k, labels);
    } else {
        assert(p.take(k) =~= p);
    }
}

/// Binds each label of the program to the bytecode address of the
/// instruction that follows it. A label defined twice keeps its last address.
pub fn resolve_labels(program: &Program) -> (labels: LabelMap)
    requires
        program_size(program_view(program@)) <= u16::MAX,
    ensures
        labels@ == label_addresses(program_view(program@)),
{
    let ghost pv = program_view(program@);
    let mut labels = LabelMap::new();
    let mut offset: u16 = 0;
    let mut i: usize = 0;
    while i < program.len()
        invariant
            pv == program_view(program@),
            i <= program@.len(),
            offset == program_size(pv.take(i as int)),
            labels@ == label_addresses(pv.take(i as int)),
            program_size(pv) <= u16::MAX,
        decreases program@.len() - i,
    {
        proof {
            lemma_program_size_prefix(pv, i as int + 1);
            assert(pv.take(i + 1).drop_last() =~= pv.take(i as int));
            assert(pv[i as int] == program@[i as int]@);
        }
        match &program[i] {
            Node::Label(name, _line) => {
                labels.insert(name.clone(), offset);
            },
            Node::Instr(instr, _line) => {
                offset = offset + instr.size();
            },
        }
        i = i + 1;
    }
    proof {
        assert(pv.take(i as int) =~= pv);
    }
    labels
}

/// Appends a jump to `label`: its opcode, then the label's address,
/// big-endian. A label that `labels` does not hold is an error; the opcode
/// has been appended by then.
pub fn emit_jump(
    bytecode: &mut Vec<u8>,
    opcode: Opcode,
    label: &String,
    line: usize,
    labels: &LabelMap,
) -> (r: Result<(), CodegenError>)
    ensures
        labels@.contains_key(label@) ==> (r is Ok && final(bytecode)@ == old(bytecode)@
            + jump_bytes(opcode, labels@[label@])),
        !labels@.contains_key(label@) ==> (r matches Err(e) && e.model() == (label@, line)
            && final(bytecode)@ == old(bytecode)@.push(opcode_byte(opcode))),
{
    bytecode.push(opcode.to_byte());
    match labels.get(label) {
        Some(addr) => {
            bytecode.push((addr / 256) as u8);
            bytecode.push((addr % 256) as u8);
            proof {
                assert(final(bytecode)@ =~= old(bytecode)@ + jump_bytes(opcode, addr));
            }
            Ok(())
        },
        None => Err(CodegenError::UndefinedLabel { label: label.clone(), line }),
    }
}

/// Encodes a program as bytecode, with jump targets taken from `labels`.
/// The first jump to a label that `labels` does not hold stops the
/// encoding with an error.
pub fn codegen(program: &Program, labels: &LabelMap) -> (r: Result<Vec<u8>, CodegenError>)
    ensures
        match program_bytes(program_view(program@), labels@) {
            Ok(b) => r matches Ok(v) && v@ == b,
            Err(e) => r matches Err(err) && err.model() == e,
        },
{
    let ghost pv = program_view(program@);
    let mut bytecode: Vec<u8> = Vec::new();
    let mut i: usize = 0;
    while i < program.len()
        invariant
            pv == program_view(program@),
            i <= program@.len(),
            program_bytes(pv.take(i as int), labels@) == Ok::<Seq<u8>, (Seq<char>, usize)>(
                bytecode@,
            ),
        decreases program@.len() - i,
    {
        proof {
            assert(pv.take(i + 1).drop_last() =~= pv.take(i as int));
            assert(pv[i as int] == program@[i as int]@);
        }
        let ghost before = bytecode@;
        match &program[i] {
            Node::Label(..) => {},
            Node::Instr(instr, line) => {
                let line = *line;
                match instr {
                    Instr::Add => bytecode.push(Opcode::Add.to_byte()),
                    Instr::Sub => bytecode.push(Opcode::Sub.to_byte()),
                    Instr::Dup => bytecode.push(Opcode::Dup.to_byte()),
                    Instr::Swap => bytecode.push(Opcode::Swap.to_byte()),
                    Instr::Mul => bytecode.push(Opcode::Mul.to_byte()),
                    Instr::Pop => bytecode.push(Opcode::Pop.to_byte()),
                    Instr::Div => bytecode.push(Opcode::Div.to_byte()),
                    Instr::Mod => bytecode.push(Opcode::Mod.to_byte()),
                    Instr::Load => bytecode.push(Opcode::Load.to_byte()),
                    Instr::Store => bytecode.push(Opcode::Store.to_byte()),
                    Instr::Eq => bytecode.push(Opcode::Eq.to_byte()),
                    Instr::Gte => bytecode.push(Opcode::Gte.to_byte()),
                    Instr::Lt => bytecode.push(Opcode::Lt.to_byte()),
                    Instr::Print(v) => {
                        bytecode.push(Opcode::Print.to_byte());
                        bytecode.push(*v);
                    },
                    Instr::Ret => bytecode.push(Opcode::Ret.to_byte()),
                    Instr::Push(v) => {
                        bytecode.push(Opcode::Push.to_byte());
                        bytecode.push(*v);
                    },
                    Instr::Jmp(label) => {
                        match emit_jump(&mut bytecode, Opcode::Jmp, label, line, labels) {
                            Ok(()) => {},
                            Err(e) => {
                                proof {
                                    let p = pv.take(i + 1);
                                    assert(p.last() == pv[i as int]);
                                    lemma_program_bytes_err_prefix(pv, i + 1, labels@);
                                }
                                return Err(e);
                            },
                        }
                    },
                    Instr::Jz(label) => {
                        match emit_jump(&mut bytecode, Opcode::Jz, label, line, labels) {
                            Ok(()) => {},
                            Err(e) => {
                                proof {
                                    let p = pv.take(i + 1);
                                    assert(p.last() == pv[i as int]);
                                    lemma_program_bytes_err_prefix(pv, i + 1, labels@);
                                }
                                return Err(e);
                            },
                        }
                    },
                }
            },
        }
        proof {
            let p = pv.take(i + 1);
            assert(p.last() == pv[i as int]);
            match pv[i as int] {
                NodeView::Label(..) => {
                    assert(bytecode@ =~= before);
                },
                NodeView::Instr(ins, _) => {
                    assert(instr_bytes(ins, labels@) is Some);
                    assert(bytecode@ =~= before + instr_bytes(ins, labels@).unwrap());
                },
            }
        }
        i = i + 1;
    }
    proof {
        assert(pv.take(i as int) =~= pv);
    }
    Ok(bytecode)
}

} // verus!
