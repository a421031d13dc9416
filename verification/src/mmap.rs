//! The register file: fixed low addresses of the runtime's named cells.

use vstd::prelude::*;

verus! {

/// Top of the parameter stack.
pub const DSP: usize = 4;

/// Base of the parameter stack.
pub const S0: usize = 8;

/// Top of the return stack.
pub const RSP: usize = 12;

/// Base of the return stack.
pub const R0: usize = 16;

/// Top of the engine's call stack.
pub const CTOP: usize = 20;

/// Base of the engine's call stack.
pub const CBASE: usize = 24;

/// Top of the locals stack.
pub const LTOP: usize = 28;

/// Base of the locals stack.
pub const LBASE: usize = 32;

/// Next free byte of the dictionary.
pub const HERE: usize = 36;

/// Newest dictionary entry, 0 while there is none.
pub const LATEST: usize = 40;

/// Program counter into the cell stream of the running composite word.
pub const IC: usize = 44;

/// Scratch cell: code field address of the word just dispatched.
pub const A0: usize = 48;

/// Compiler state, `INTERPRETING` or `COMPILING`.
pub const STATE: usize = 52;

/// Address of the scratch area that `word` collects a token into.
pub const IN_STREAM: usize = 56;

/// Radix of number parsing.
pub const BASE: usize = 60;

/// Cell that holds the code field address of the word to start with.
pub const START_ADR: usize = 64;

/// One dispatch instruction, the entry point of every run.
pub const COLD_START: usize = 68;

/// Address of the input line buffer.
pub const INPUT_BUFFER: usize = 72;

/// Count of the bytes of the input line that were read already.
pub const INPUT_BUFFER_IN: usize = 76;

/// Where the shared trampoline of composite words is stored.
pub const DOCOL: usize = 80;

/// Where the dictionary starts.
pub const DICT: usize = DOCOL + 64;

} // verus!
