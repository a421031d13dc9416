//! Helpers for showing the arena.

use vstd::prelude::*;

verus! {

/// The character that stands for the byte `c` in a dump of the arena: the
/// byte's own character where it is a printable ASCII character other than
/// the space, a dot otherwise.
pub fn print_c(c: u8) -> (r: char)
    ensures
        r == if 33 <= c <= 126 {
            c as char
        } else {
            '.'
        },
{
    if 33 <= c && c <= 126 {
        c as char
    } else {
        '.'
    }
}

} // verus!
