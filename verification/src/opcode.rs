//! The bytecode format: opcodes and the binary container.
use vstd::prelude::*;

verus! {

/// One instruction of the stack machine, as stored in bytecode.
#[derive(Debug, Clone, Copy, PartialEq, Eq, Structural)]
pub enum Opcode {
    Add,
    Push,
    Jmp,
    Jz,
    Sub,
    Dup,
    Swap,
    Pop,
    Mul,
    Div,
    Mod,
    Store,
    Load,
    Lt,
    Gte,
    Print,
    Eq,
    Ret,
}

/// The byte that encodes an opcode.
pub open spec fn opcode_byte(op: Opcode) -> u8 {
    match op {
        Opcode::Add => 0x01,
        Opcode::Push => 0x02,
        Opcode::Jmp => 0x03,
        Opcode::Jz => 0x04,
        Opcode::Sub => 0x05,
        Opcode::Dup => 0x06,
        Opcode::Swap => 0x07,
        Opcode::Pop => 0x08,
        Opcode::Mul => 0x09,
        Opcode::Div => 0x0a,
        Opcode::Mod => 0x0b,
        Opcode::Store => 0x0c,
        Opcode::Load => 0x0d,
        Opcode::Lt => 0x0e,
        Opcode::Gte => 0x0f,
        Opcode::Print => 0x10,
        Opcode::Eq => 0x11,
        Opcode::Ret => 0xff,
    }
}

/// The opcode that a byte encodes, if any.
pub open spec fn decode_opcode(b: u8) -> Option<Opcode> {
    if b == 0x01 {
        Some(Opcode::Add)
    } else if b == 0x02 {
        Some(Opcode::Push)
    } else if b == 0x03 {
        Some(Opcode::Jmp)
    } else if b == 0x04 {
        Some(Opcode::Jz)
    } else if b == 0x05 {
        Some(Opcode::Sub)
    } else if b == 0x06 {
        Some(Opcode::Dup)
    } else if b == 0x07 {
        Some(Opcode::Swap)
    } else if b == 0x08 {
        Some(Opcode::Pop)
    } else if b == 0x09 {
        Some(Opcode::Mul)
    } else if b == 0x0a {
        Some(Opcode::Div)
    } else if b == 0x0b {
        Some(Opcode::Mod)
    } else if b == 0x0c {
        Some(Opcode::Store)
    } else if b == 0x0d {
        Some(Opcode::Load)
    } else if b == 0x0e {
        Some(Opcode::Lt)
    } else if b == 0x0f {
        Some(Opcode::Gte)
    } else if b == 0x10 {
        Some(Opcode::Print)
    } else if b == 0x11 {
        Some(Opcode::Eq)
    } else if b == 0xff {
        Some(Opcode::Ret)
    } else {
        None
    }
}

impl Opcode {
    /// The byte that encodes this opcode in bytecode.
    pub fn to_byte(self) -> (b: u8)
        ensures
            b == opcode_byte(self),
    {
        match self {
            Opcode::Add => 0x01,
            Opcode::Push => 0x02,
            Opcode::Jmp => 0x03,
            Opcode::Jz => 0x04,
            Opcode::Sub => 0x05,
            Opcode::Dup => 0x06,
            Opcode::Swap => 0x07,
            Opcode::Pop => 0x08,
            Opcode::Mul => 0x09,
            Opcode::Div => 0x0a,
            Opcode::Mod => 0x0b,
            Opcode::Store => 0x0c,
            Opcode::Load => 0x0d,
            Opcode::Lt => 0x0e,
            Opcode::Gte => 0x0f,
            Opcode::Print => 0x10,
            Opcode::Eq => 0x11,
            Opcode::Ret => 0xff,
        }
    }

    /// Decodes a byte of bytecode. Bytes that encode no opcode are refused.
    pub fn try_from(value: u8) -> (r: Result<Opcode, ()>)
        ensures
            match decode_opcode(value) {
                Some(op) => r == Ok::<Opcode, ()>(op),
                None => r is Err,
            },
    {
        match value {
            0x01 => Ok(Opcode::Add),
            0x02 => Ok(Opcode::Push),
            0x03 => Ok(Opcode::Jmp),
            0x04 => Ok(Opcode::Jz),
            0x05 => Ok(Opcode::Sub),
            0x06 => Ok(Opcode::Dup),
            0x07 => Ok(Opcode::Swap),
            0x08 => Ok(Opcode::Pop),
            0x09 => Ok(Opcode::Mul),
            0x0a => Ok(Opcode::Div),
            0x0b => Ok(Opcode::Mod),
            0x0c => Ok(Opcode::Store),
            0x0d => Ok(Opcode::Load),
            0x0e => Ok(Opcode::Lt),
            0x0f => Ok(Opcode::Gte),
            0x10 => Ok(Opcode::Print),
            0x11 => Ok(Opcode::Eq),
            0xff => Ok(Opcode::Ret),
            _ => Err(()),
        }
    }
}

/// Decoding the byte of an opcode gives the opcode back.
pub proof fn lemma_decode_encode(op: Opcode)
    ensures
        decode_opcode(opcode_byte(op)) == Some(op),
{
}

/// A byte that decodes to an opcode is that opcode's byte.
pub proof fn lemma_encode_decode(b: u8)
    ensures
        decode_opcode(b) matches Some(op) ==> opcode_byte(op) == b,
{
}

/// The bytecode's opcodes: 0x01 `add`, 0x02 `push`, 0x03 `jmp`, 0x04 `jz`,
/// 0x05 `sub`, 0x06 `dup`, 0x07 `swap`, 0x08 `pop`, 0x09 `mul`, 0x0a `div`,
/// 0x0b `mod`, 0x0c `store`, 0x0d `load`, 0x0e `lt`, 0x0f `gte`, 0x10
/// `print`, 0x11 `eq`, 0xff `ret`; every other byte is no opcode.
pub proof fn lemma_opcode_table(b: u8)
    ensures
        decode_opcode(0x01) == Some(Opcode::Add),
        decode_opcode(0x02) == Some(Opcode::Push),
        decode_opcode(0x03) == Some(Opcode::Jmp),
        decode_opcode(0x04) == Some(Opcode::Jz),
        decode_opcode(0x05) == Some(Opcode::Sub),
        decode_opcode(0x06) == Some(Opcode::Dup),
        decode_opcode(0x07) == Some(Opcode::Swap),
        decode_opcode(0x08) == Some(Opcode::Pop),
        decode_opcode(0x09) == Some(Opcode::Mul),
        decode_opcode(0x0a) == Some(Opcode::Div),
        decode_opcode(0x0b) == Some(Opcode::Mod),
        decode_opcode(0x0c) == Some(Opcode::Store),
        decode_opcode(0x0d) == Some(Opcode::Load),
        decode_opcode(0x0e) == Some(Opcode::Lt),
        decode_opcode(0x0f) == Some(Opcode::Gte),
        decode_opcode(0x10) == Some(Opcode::Print),
        decode_opcode(0x11) == Some(Opcode::Eq),
        decode_opcode(0xff) == Some(Opcode::Ret),
        decode_opcode(b) is Some <==> (0x01 <= b <= 0x11 || b == 0xff),
{
}

/// The magic number at the head of every binary.
pub open spec fn binary_magic() -> Seq<u8> {
    seq![0xCAu8, 0xFEu8, 0xCAu8, 0xFEu8]
}

/// A compiled program: a format tag, a format version and the bytecode.
#[derive(Debug, PartialEq, Eq)]
pub struct Binary {
    pub magic: [u8; 4],
    pub version: u16,
    pub code: Vec<u8>,
}

impl Binary {
    /// Wraps bytecode in a binary with the current magic number and version.
    pub fn from_code(code: Vec<u8>) -> (b: Binary)
        ensures
            b.magic@ == binary_magic(),
            b.version == 67,
            b.code@ == code@,
    {
        let b = Binary { magic: [0xCA, 0xFE, 0xCA, 0xFE], version: 67, code };
        assert(b.magic@ =~= binary_magic());
        b
    }
}

} // verus!
