//! How integers are laid out in the byte arena: a cell is four bytes, the
//! least significant first, read as a two's complement number.

use vstd::prelude::*;

verus! {

/// The unsigned number that four bytes spell, least significant first.
pub open spec fn word_of(b0: u8, b1: u8, b2: u8, b3: u8) -> int {
    b0 as int + 256 * (b1 as int) + 65536 * (b2 as int) + 16777216 * (b3 as int)
}

/// The two's complement reading of an unsigned 32-bit number.
pub open spec fn signed(u: int) -> int {
    if u >= 0x8000_0000 {
        u - 0x1_0000_0000
    } else {
        u
    }
}

/// The unsigned 32-bit number that stands for `v` in two's complement.
pub open spec fn unsigned(v: int) -> int {
    if v < 0 {
        v + 0x1_0000_0000
    } else {
        v
    }
}

/// The four bytes of the cell that holds `v`.
pub open spec fn cell_bytes(v: int) -> Seq<u8> {
    let u = unsigned(v);
    seq![
        (u % 256) as u8,
        ((u / 256) % 256) as u8,
        ((u / 65536) % 256) as u8,
        ((u / 16777216) % 256) as u8,
    ]
}

/// The value of the cell that starts at address `a`.
pub open spec fn cell_at(mem: Seq<u8>, a: int) -> int {
    signed(word_of(mem[a], mem[a + 1], mem[a + 2], mem[a + 3]))
}

/// The arena after `bytes` were written at address `a`.
pub open spec fn store_bytes(mem: Seq<u8>, a: int, bytes: Seq<u8>) -> Seq<u8> {
    Seq::new(
        mem.len(),
        |i: int|
            if a <= i < a + bytes.len() {
                bytes[i - a]
            } else {
                mem[i]
            },
    )
}

/// The arena after the cell at address `a` was set to `v`.
pub open spec fn store_cell(mem: Seq<u8>, a: int, v: int) -> Seq<u8> {
    store_bytes(mem, a, cell_bytes(v))
}

/// The arena after the byte at address `a` was set to `b`.
pub open spec fn store_byte(mem: Seq<u8>, a: int, b: u8) -> Seq<u8> {
    store_bytes(mem, a, seq![b])
}

/// Whether the `n` bytes from address `a` on lie inside an arena of `len` bytes.
pub open spec fn in_bounds(len: nat, a: int, n: int) -> bool {
    0 <= a && 0 <= n && a + n <= len
}

/// A cell that was stored is read back unchanged.
pub proof fn lemma_cell_round_trip(mem: Seq<u8>, a: int, v: int)
    requires
        in_bounds(mem.len(), a, 4),
        i32::MIN <= v <= i32::MAX,
    ensures
        cell_at(store_cell(mem, a, v), a) == v,
{
    let u = unsigned(v);
    let m = store_cell(mem, a, v);
    assert(m[a] == cell_bytes(v)[0]);
    assert(m[a + 1] == cell_bytes(v)[1]);
    assert(m[a + 2] == cell_bytes(v)[2]);
    assert(m[a + 3] == cell_bytes(v)[3]);
    assert(u == u % 256 + 256 * ((u / 256) % 256) + 65536 * ((u / 65536) % 256) + 16777216 * ((u
        / 16777216) % 256));
}

/// The value of every cell fits a signed 32-bit integer.
pub proof fn lemma_cell_range(mem: Seq<u8>, a: int)
    ensures
        i32::MIN <= cell_at(mem, a) <= i32::MAX,
{
}

/// A cell that does not overlap the bytes that were written holds what it
/// held before.
pub proof fn lemma_cell_apart(mem: Seq<u8>, a: int, bytes: Seq<u8>, b: int)
    requires
        in_bounds(mem.len(), b, 4),
        b + 4 <= a || a + bytes.len() <= b,
    ensures
        cell_at(store_bytes(mem, a, bytes), b) == cell_at(mem, b),
{
}

/// In every arena a cell that was stored is read back unchanged.
pub proof fn lemma_cell_reads_back()
    ensures
        forall|mem: Seq<u8>, a: int, v: int|
            in_bounds(mem.len(), a, 4) && i32::MIN <= v <= i32::MAX ==> cell_at(
                #[trigger] store_cell(mem, a, v),
                a,
            ) == v,
{
    assert forall|mem: Seq<u8>, a: int, v: int|
        in_bounds(mem.len(), a, 4) && i32::MIN <= v <= i32::MAX implies cell_at(
        #[trigger] store_cell(mem, a, v),
        a,
    ) == v by {
        lemma_cell_round_trip(mem, a, v);
    }
}

/// The four bytes of the cell that holds `v`, least significant first.
pub fn cell_le(v: i32) -> (r: (u8, u8, u8, u8))
    ensures
        seq![r.0, r.1, r.2, r.3] == cell_bytes(v as int),
{
    let u: u32 = if v < 0 {
        ((v - i32::MIN) as u32) + 0x8000_0000
    } else {
        v as u32
    };
    let r = (
        (u % 256) as u8,
        ((u / 256) % 256) as u8,
        ((u / 65536) % 256) as u8,
        ((u / 16777216) % 256) as u8,
    );
    assert(seq![r.0, r.1, r.2, r.3] =~= cell_bytes(v as int));
    r
}

} // verus!
