//! The assembly backend for the Linux ARM64 target.
//!
//! The instruction selection, register model, labels, prologue and epilogue
//! are the fixed table shared with the primary ARM64 target, so the emitted
//! text is the same; only the toolchain that assembles and links it differs.

use vstd::prelude::*;

use crate::common::XBFError;
use crate::generators::arm64::asm_text;
use crate::generators::arm64::generator_arm64;
use crate::generators::common::brackets_ok;
use crate::generators::common::structural_err_of;
use crate::lexer::Token;

verus! {

/// Emits ARM64 assembly for the Linux target, or reports the matcher's
/// structural error.
pub fn generator_linux_arm64(tokens: Vec<Token>, memory_size: usize) -> (r: Result<
    String,
    XBFError,
>)
    ensures
        brackets_ok(tokens@) ==> r is Ok && r->Ok_0@ == asm_text(tokens@, memory_size as nat),
        !brackets_ok(tokens@) ==> r is Err && r->Err_0 == structural_err_of(tokens@),
{
    generator_arm64(tokens, memory_size)
}

} // verus!
