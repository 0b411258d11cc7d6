//! The assembler as a whole: from source text to a binary.
use vstd::prelude::*;
use vstd::string::StringSliceAdditionalSpecFns;

use crate::assembler::{
    code_size, codegen, label_addresses, program_bytes, program_size, resolve_labels,
    CodegenError,
};
use crate::opcode::{binary_magic, Binary};
use crate::parser::{errors_view, parse, parse_source, ParseError};

verus! {

/// Why a source text does not assemble.
#[derive(Debug, Clone, PartialEq, Eq)]
pub enum AssembleError {
    /// Faults of the source text, in order.
    Parse(Vec<ParseError>),
    /// The instructions take more than 65535 bytes, beyond what a jump
    /// address reaches.
    TooLarge,
    /// A jump names a label that the source does not define.
    Codegen(CodegenError),
}

/// Assembles a source text into a binary: parses it, binds its labels to
/// addresses and encodes it as bytecode.
pub fn assemble(source: &str) -> (r: Result<Binary, AssembleError>)
    ensures
        ({
            let st = parse_source(source.spec_bytes());
            let p = st.program;
            &&& st.errors.len() > 0 ==> (r matches Err(AssembleError::Parse(es)) && errors_view(es@)
                == st.errors)
            &&& st.errors.len() == 0 && program_size(p) > u16::MAX ==> (r matches Err(
                AssembleError::TooLarge,
            ))
            &&& st.errors.len() == 0 && program_size(p) <= u16::MAX ==> match program_bytes(
                p,
                label_addresses(p),
            ) {
                Ok(b) => (r matches Ok(bin) && bin.code@ == b && bin.magic@ == binary_magic()
                    && bin.version == 67),
                Err(e) => (r matches Err(AssembleError::Codegen(ce)) && ce.model() == e),
            }
        }),
{
    let program = match parse(source) {
        Ok(program) => program,
        Err(errors) => return Err(AssembleError::Parse(errors)),
    };
    match code_size(&program) {
        Some(_) => {},
        None => return Err(AssembleError::TooLarge),
    }
    let labels = resolve_labels(&program);
    match codegen(&program, &labels) {
        Ok(code) => Ok(Binary::from_code(code)),
        Err(e) => Err(AssembleError::Codegen(e)),
    }
}

} // verus!
