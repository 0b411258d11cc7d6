//! A small stack machine and its assembler.
//!
//! The crate holds the bytecode format ([`opcode`]), the machine's transition
//! function ([`vm`]), the tokenizer and parser of the assembly language
//! ([`lexer`], [`words`], [`parser`]), label resolution and code generation
//! ([`labels`], [`assembler`], [`compiler`]), the earlier two-pass compiler
//! that works directly on the token stream ([`legacy`]), and properties that
//! tie the assembler to the machine ([`laws`]).
use vstd::prelude::*;

pub mod opcode;
pub mod vm;
pub mod labels;
pub mod assembler;
pub mod lexer;
pub mod words;
pub mod parser;
pub mod legacy;
pub mod compiler;
pub mod laws;

pub use assembler::{codegen, resolve_labels, Instr, Node, Program};
pub use opcode::{Binary, Opcode};
pub use parser::parse;

verus! {

} // verus!
