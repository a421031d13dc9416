//! A dictionary-based, threaded-code runtime for a stack-oriented word
//! language. Every runtime entity lives in one flat byte arena; all
//! cross-references are plain integer addresses into it.
//!
//! The runtime is built on an execution engine that runs instructions from
//! the arena. The engine is not part of this library: the library lays out
//! the arena, writes the dictionary, looks words up, parses numbers and
//! tokens and takes the dispatch step of threaded execution; whoever owns the
//! engine hands in the bytes of its instructions and runs the words.
//!
//! Cells are four bytes, least significant first. The functions do not
//! panic: what a function needs of the arena is in its `requires`, and
//! `checks` holds the tests that a caller outside can make first.

use vstd::prelude::*;

pub mod mmap;
pub mod cells;
pub mod forthvm;
pub mod dictionary;
pub mod writer;
pub mod number;
pub mod stacks;
pub mod threaded;
pub mod opcodes;
pub mod input_stream;
pub mod input;
pub mod words;
pub mod checks;
pub mod dump;
pub mod laws;
pub mod vocabulary;

pub use forthvm::{ForthVM, VmConfig};
pub use opcodes::Opcodes;
pub use vocabulary::NativeWords;
pub use writer::DefineError;
pub use input_stream::{
    in_steam_from_file, in_stream_from_stdin, in_stream_is_terminal, in_stream_read_line,
    in_stream_read_piece, InputStream,
};

verus! {

/// Size of one cell in bytes.
pub const CELL: i32 = 4;

/// Number of name bytes a dictionary entry stores at most.
pub const MAX_WORD_LEN: usize = 13;

/// Mask of the name length inside the length/flags byte.
pub const LEN_MASK: u8 = 0x1f;

/// Flag bit of a word that name lookup passes over.
pub const HIDDEN: u8 = 0x20;

/// Flag bit of a word that runs even while compiling.
pub const IMMEDIATE: u8 = 0x80;

pub const TRUE: i32 = 0x1;

pub const FALSE: i32 = 0x0;

/// Value of the state register while tokens are executed.
pub const INTERPRETING: i32 = 0;

/// Value of the state register while tokens are compiled.
pub const COMPILING: i32 = 1;

/// The least multiple of four that is not below `idx`.
pub open spec fn aligned(idx: int) -> int {
    idx + (4 - idx % 4) % 4
}

/// Rounds `idx` up to the next cell boundary.
pub fn align(idx: i32) -> (r: i32)
    requires
        idx + 3 <= i32::MAX,
    ensures
        r == aligned(idx as int),
        r % 4 == 0,
        idx <= r < idx + 4,
{
    let up: i32 = idx + 3;
    let r: i32 = up & !3;
    assert(r <= up && up - r <= 3 && r % 4 == 0) by (bit_vector)
        requires
            r == up & !3i32,
    ;
    r
}

} // verus!
