//! The definition writer: appends entries to the dictionary at the free-space
//! pointer and links each one in as the newest.

use vstd::prelude::*;
use vstd::slice::slice_subrange;
use vstd::string::StringSliceAdditionalSpecFns;
use crate::cells::{cell_at, in_bounds, store_byte, store_bytes, store_cell, lemma_cell_round_trip};
use crate::dictionary::{
    code_field, dict_ok, entries, entry_matches, find_in, flags_of, here_of, key_of, latest_of,
    lemma_extend, lemma_flag_bits, lemma_lookup_result, link, lookup, stored_len, stored_max,
    NAME_MASK,
};
use crate::forthvm::{ForthVM, MAX_MEMORY};
use crate::number::{literal_of, parse_literal};
use crate::{aligned, align, mmap, HIDDEN, LEN_MASK, MAX_WORD_LEN};

verus! {

/// The length/flags byte of an entry whose name has `len` bytes: the length,
/// cut to a byte, with the flags set in it.
pub open spec fn header_byte(len: int, flags: u8) -> u8 {
    ((len % 256) as u8) | flags
}

/// The arena after one cell was appended at the free-space pointer.
#[verifier::opaque]
pub open spec fn with_cell(mem: Seq<u8>, value: int) -> Seq<u8> {
    store_cell(store_cell(mem, here_of(mem), value), mmap::HERE as int, here_of(mem) + 4)
}

/// The arena after the length/flags byte and the stored part of a name were
/// appended at the free-space pointer, which is then cell-aligned.
#[verifier::opaque]
pub open spec fn with_name(mem: Seq<u8>, name: Seq<u8>, flags: u8) -> Seq<u8> {
    let at = here_of(mem);
    let m1 = store_byte(mem, at, header_byte(name.len() as int, flags));
    let m2 = store_bytes(m1, at + 1, key_of(name));
    store_cell(m2, mmap::HERE as int, aligned(at + 1 + key_of(name).len()))
}

/// The arena after `code` was appended at the free-space pointer, which is
/// then cell-aligned.
#[verifier::opaque]
pub open spec fn with_code(mem: Seq<u8>, code: Seq<u8>) -> Seq<u8> {
    let at = here_of(mem);
    store_cell(store_bytes(mem, at, code), mmap::HERE as int, aligned(at + code.len()))
}

/// The arena after the link field and the name of a new entry were appended.
pub open spec fn with_header(mem: Seq<u8>, name: Seq<u8>, flags: u8) -> Seq<u8> {
    with_name(with_cell(mem, latest_of(mem)), name, flags)
}

/// The arena after a primitive named `name` with the instruction bytes `code`
/// was defined.
pub open spec fn with_primitive(mem: Seq<u8>, name: Seq<u8>, flags: u8, code: Seq<u8>) -> Seq<u8> {
    let m1 = with_header(mem, name, flags);
    let m2 = with_cell(m1, here_of(m1) + 4);
    let m3 = with_code(m2, code);
    store_cell(m3, mmap::LATEST as int, here_of(mem))
}

/// The address at which the code field of an entry lies whose header starts
/// at `at` and stores `stored` name bytes.
pub open spec fn code_field_after(at: int, stored: int) -> int {
    aligned(at + 5 + stored)
}

/// Whether an entry can be told by its name: the name fits the length field
/// and the flags leave that field alone.
pub open spec fn well_named(len: int, flags: u8) -> bool {
    len <= LEN_MASK && flags & LEN_MASK == 0
}

/// Whether two names are the same to the dictionary: they agree in length and
/// in the part that an entry stores.
pub open spec fn same_word(a: Seq<u8>, b: Seq<u8>) -> bool {
    a.len() == b.len() && key_of(a) == key_of(b)
}

/// Whether `post` holds below the dictionary region what `pre` holds there,
/// but for the free-space pointer and the pointer to the newest entry.
pub open spec fn same_registers(pre: Seq<u8>, post: Seq<u8>) -> bool {
    forall|i: int|
        0 <= i < mmap::DICT && !(mmap::HERE <= i < mmap::HERE + 4) && !(mmap::LATEST <= i
            < mmap::LATEST + 4) ==> post[i] == pre[i]
}

/// What holds of the arena `post` when it is `pre` with a new entry at `w`,
/// named `name` with `flags`, whose body ends where the free-space pointer of
/// `post` points.
#[verifier::opaque]
pub open spec fn added(pre: Seq<u8>, post: Seq<u8>, w: int, name: Seq<u8>, flags: u8) -> bool {
    &&& post.len() == pre.len()
    &&& w == here_of(pre)
    &&& latest_of(post) == w
    &&& link(post, w) == latest_of(pre)
    &&& flags_of(post, w) == header_byte(name.len() as int, flags)
    &&& post.subrange(w + 5, w + 5 + key_of(name).len()) == key_of(name)
    &&& code_field_after(w, key_of(name).len() as int) <= here_of(post)
    &&& same_registers(pre, post)
    &&& forall|i: int| mmap::DICT <= i < w ==> post[i] == pre[i]
    &&& forall|i: int| here_of(post) <= i < post.len() ==> post[i] == pre[i]
    &&& (dict_ok(pre) && well_named(name.len() as int, flags) && here_of(post) <= post.len()) ==> {
        &&& dict_ok(post)
        &&& entries(post) == seq![w] + entries(pre)
        &&& code_field(post, w) == code_field_after(w, key_of(name).len() as int)
        &&& forall|other: Seq<u8>| #[trigger]
            find_in(post, other) == if flags & HIDDEN == 0 && same_word(other, name) {
                w
            } else {
                find_in(pre, other)
            }
    }
}

/// The length/flags byte of a well-named entry declares the length of the
/// name and shows the hidden flag as it was given.
pub proof fn lemma_header_byte(len: int, flags: u8)
    requires
        0 <= len,
        well_named(len, flags),
    ensures
        header_byte(len, flags) & LEN_MASK == len,
        flags & HIDDEN == 0 ==> header_byte(len, flags) & NAME_MASK == len,
        flags & HIDDEN != 0 ==> header_byte(len, flags) & NAME_MASK >= 32,
{
    let l: u8 = len as u8;
    assert(len % 256 == len);
    assert(l <= 31 && flags & 0x1f == 0 ==> (l | flags) & 0x1f == l) by (bit_vector);
    assert(l <= 31 && flags & 0x1f == 0 && flags & 0x20 == 0 ==> (l | flags) & 0x3f == l)
        by (bit_vector);
    assert(l <= 31 && flags & 0x20 != 0 ==> (l | flags) & 0x3f >= 32) by (bit_vector);
}

/// Appending a cell writes it at the free-space pointer and moves the
/// pointer one cell up.
pub proof fn lemma_with_cell(mem: Seq<u8>, value: int)
    requires
        mmap::DICT <= here_of(mem),
        here_of(mem) + 4 <= mem.len() <= i32::MAX - 4,
        i32::MIN <= value <= i32::MAX,
    ensures
        with_cell(mem, value).len() == mem.len(),
        here_of(with_cell(mem, value)) == here_of(mem) + 4,
        cell_at(with_cell(mem, value), here_of(mem)) == value,
        forall|i: int|
            0 <= i < mem.len() && !(here_of(mem) <= i < here_of(mem) + 4) && !(mmap::HERE <= i
                < mmap::HERE + 4) ==> with_cell(mem, value)[i] == mem[i],
{
    reveal(with_cell);
    let at = here_of(mem);
    let m1 = store_cell(mem, at, value);
    lemma_cell_round_trip(mem, at, value);
    lemma_cell_round_trip(m1, mmap::HERE as int, at + 4);
    assert(cell_at(with_cell(mem, value), at) == cell_at(m1, at));
}

/// Appending a name writes the length/flags byte and the stored bytes at the
/// free-space pointer and moves the pointer to the next cell boundary.
pub proof fn lemma_with_name(mem: Seq<u8>, name: Seq<u8>, flags: u8)
    requires
        mmap::DICT <= here_of(mem),
        here_of(mem) + 1 + key_of(name).len() <= mem.len() <= i32::MAX - 4,
    ensures
        with_name(mem, name, flags).len() == mem.len(),
        here_of(with_name(mem, name, flags)) == aligned(here_of(mem) + 1 + key_of(name).len()),
        with_name(mem, name, flags)[here_of(mem)] == header_byte(name.len() as int, flags),
        with_name(mem, name, flags).subrange(
            here_of(mem) + 1,
            here_of(mem) + 1 + key_of(name).len(),
        ) == key_of(name),
        forall|i: int|
            0 <= i < mem.len() && !(here_of(mem) <= i < here_of(mem) + 1 + key_of(name).len())
                && !(mmap::HERE <= i < mmap::HERE + 4) ==> with_name(mem, name, flags)[i] == mem[i],
{
    reveal(with_name);
    let at = here_of(mem);
    let m1 = store_byte(mem, at, header_byte(name.len() as int, flags));
    let m2 = store_bytes(m1, at + 1, key_of(name));
    lemma_cell_round_trip(m2, mmap::HERE as int, aligned(at + 1 + key_of(name).len()));
    assert(with_name(mem, name, flags).subrange(at + 1, at + 1 + key_of(name).len()) =~= key_of(
        name,
    ));
}

/// Appending code writes it at the free-space pointer and moves the pointer
/// to the next cell boundary.
pub proof fn lemma_with_code(mem: Seq<u8>, code: Seq<u8>)
    requires
        mmap::DICT <= here_of(mem),
        here_of(mem) + code.len() <= mem.len() <= i32::MAX - 4,
    ensures
        with_code(mem, code).len() == mem.len(),
        here_of(with_code(mem, code)) == aligned(here_of(mem) + code.len()),
        with_code(mem, code).subrange(here_of(mem), here_of(mem) + code.len()) == code,
        forall|i: int|
            0 <= i < mem.len() && !(here_of(mem) <= i < here_of(mem) + code.len()) && !(mmap::HERE
                <= i < mmap::HERE + 4) ==> with_code(mem, code)[i] == mem[i],
{
    reveal(with_code);
    let at = here_of(mem);
    let m1 = store_bytes(mem, at, code);
    lemma_cell_round_trip(m1, mmap::HERE as int, aligned(at + code.len()));
    assert(with_code(mem, code).subrange(at, at + code.len()) =~= code);
}

/// An arena that holds a new entry as `added` lays it out is related to the
/// arena before as `added` says.
pub proof fn lemma_added(pre: Seq<u8>, post: Seq<u8>, w: int, name: Seq<u8>, flags: u8)
    requires
        post.len() == pre.len(),
        w == here_of(pre),
        mmap::DICT <= w,
        latest_of(post) == w,
        link(post, w) == latest_of(pre),
        flags_of(post, w) == header_byte(name.len() as int, flags),
        post.subrange(w + 5, w + 5 + key_of(name).len()) == key_of(name),
        code_field_after(w, key_of(name).len() as int) <= here_of(post),
        same_registers(pre, post),
        forall|i: int| mmap::DICT <= i < w ==> post[i] == pre[i],
        forall|i: int| here_of(post) <= i < post.len() ==> post[i] == pre[i],
    ensures
        added(pre, post, w, name, flags),
{
    reveal(added);
    if dict_ok(pre) && well_named(name.len() as int, flags) && here_of(post) <= post.len() {
        lemma_header_byte(name.len() as int, flags);
        assert(stored_len(post, w) == key_of(name).len());
        lemma_extend(pre, post, w);
        assert forall|other: Seq<u8>| #[trigger]
            find_in(post, other) == if flags & HIDDEN == 0 && same_word(other, name) {
                w
            } else {
                find_in(pre, other)
            } by {
            let qlen = other.len() as int;
            let key = key_of(other);
            assert(key.len() <= stored_max(qlen));
            assert(lookup(post, latest_of(post), here_of(post), qlen, key) == if entry_matches(
                post,
                w,
                qlen,
                key,
            ) {
                w
            } else {
                lookup(pre, latest_of(pre), here_of(pre), qlen, key)
            });
            if entry_matches(post, w, qlen, key) {
                assert(key.len() == key_of(name).len());
            }
        }
    }
}

/// Whether `post` is `pre` but for the bytes from `lo` up to `hi` and the
/// free-space pointer.
pub open spec fn written(pre: Seq<u8>, post: Seq<u8>, lo: int, hi: int) -> bool {
    &&& post.len() == pre.len()
    &&& forall|i: int|
        0 <= i < pre.len() && !(lo <= i < hi) && !(mmap::HERE <= i < mmap::HERE + 4) ==> post[i]
            == pre[i]
}

/// The four steps that write an entry, and the step that makes it the
/// newest, leave alone what lies before the entry, what lies behind it, and
/// the registers but for the two pointers of the dictionary.
pub proof fn lemma_entry_frame(
    pre: Seq<u8>,
    m1: Seq<u8>,
    m2: Seq<u8>,
    m3: Seq<u8>,
    m4: Seq<u8>,
    post: Seq<u8>,
    w: int,
    end: int,
)
    requires
        mmap::DICT <= w <= end,
        w <= pre.len(),
        written(pre, m1, w, end),
        written(m1, m2, w, end),
        written(m2, m3, w, end),
        written(m3, m4, w, end),
        post == store_cell(m4, mmap::LATEST as int, w),
    ensures
        same_registers(pre, post),
        forall|i: int| mmap::DICT <= i < w ==> post[i] == pre[i],
        forall|i: int| end <= i < post.len() ==> post[i] == pre[i],
{
    assert forall|i: int|
        0 <= i < pre.len() && !(w <= i < end) && !(mmap::HERE <= i < mmap::HERE + 4) && !(
        mmap::LATEST <= i < mmap::LATEST + 4) implies post[i] == pre[i] by {
        assert(m1[i] == pre[i]);
        assert(m2[i] == m1[i]);
        assert(m3[i] == m2[i]);
        assert(m4[i] == m3[i]);
    }
}

/// Defining a primitive lays the new entry out as `added` and
/// `primitive_body` say.
pub proof fn lemma_primitive(pre: Seq<u8>, name: Seq<u8>, flags: u8, code: Seq<u8>)
    requires
        mmap::DICT <= here_of(pre),
        code_field_after(here_of(pre), key_of(name).len() as int) + 4 + code.len() <= pre.len()
            <= MAX_MEMORY,
    ensures
        with_primitive(pre, name, flags, code).len() == pre.len(),
        added(pre, with_primitive(pre, name, flags, code), here_of(pre), name, flags),
        primitive_body(with_primitive(pre, name, flags, code), here_of(pre), name, code),
        here_of(with_cell(pre, latest_of(pre))) == here_of(pre) + 4,
        here_of(with_header(pre, name, flags)) == code_field_after(
            here_of(pre),
            key_of(name).len() as int,
        ),
        here_of(with_cell(with_header(pre, name, flags), here_of(with_header(pre, name, flags)) + 4))
            == here_of(with_header(pre, name, flags)) + 4,
{
    let w = here_of(pre);
    let cf = code_field_after(w, key_of(name).len() as int);
    crate::cells::lemma_cell_range(pre, mmap::LATEST as int);
    lemma_with_cell(pre, latest_of(pre));
    let m1 = with_cell(pre, latest_of(pre));
    lemma_with_name(m1, name, flags);
    let m2 = with_name(m1, name, flags);
    assert(here_of(m2) == cf);
    lemma_with_cell(m2, cf + 4);
    let m3 = with_cell(m2, cf + 4);
    lemma_with_code(m3, code);
    let m4 = with_code(m3, code);
    let post = store_cell(m4, mmap::LATEST as int, w);
    lemma_cell_round_trip(m4, mmap::LATEST as int, w);
    assert(post == with_primitive(pre, name, flags, code));
    assert(here_of(post) == here_of(m4));
    assert(cell_at(m2, w) == cell_at(m1, w));
    assert(cell_at(m3, w) == cell_at(m2, w));
    assert(cell_at(m4, w) == cell_at(m3, w));
    assert(cell_at(post, w) == cell_at(m4, w));
    assert(m3[w + 4] == m2[w + 4]);
    assert(m4[w + 4] == m3[w + 4]);
    assert(post[w + 4] == m4[w + 4]);
    assert(post.subrange(w + 5, w + 5 + key_of(name).len()) =~= m2.subrange(
        w + 5,
        w + 5 + key_of(name).len(),
    ));
    assert(cell_at(m4, cf) == cell_at(m3, cf));
    assert(cell_at(post, cf) == cell_at(m4, cf));
    assert(post.subrange(cf + 4, cf + 4 + code.len()) =~= m4.subrange(cf + 4, cf + 4 + code.len()));
    lemma_entry_frame(pre, m1, m2, m3, m4, post, w, here_of(post));
    lemma_added(pre, post, w, name, flags);
}

/// Why a composite word could not be defined.
#[derive(Debug, Clone, Copy, PartialEq, Eq)]
pub enum DefineError {
    /// The token at this index names no visible word and is no literal.
    UnknownToken(usize),
    /// The name is longer than the length field can tell, or the flags
    /// reach into the length field.
    BadName,
    /// The dictionary has no room for the entry.
    OutOfMemory,
}

/// The cell that the token `token` of a definition compiles to: the code
/// field address of the word it names, or else the literal it spells.
pub open spec fn resolve(mem: Seq<u8>, token: Seq<u8>) -> Option<int> {
    let w = find_in(mem, token);
    if w != 0 {
        Some(code_field(mem, w))
    } else {
        literal_of(token)
    }
}

/// The bytes of each of the tokens `calls`.
pub open spec fn token_bytes(calls: Seq<&str>) -> Seq<Seq<u8>> {
    Seq::new(calls.len(), |i: int| calls[i].spec_bytes())
}

/// Whether each of the first `n` tokens compiles to a cell.
pub open spec fn resolved_up_to(mem: Seq<u8>, tokens: Seq<Seq<u8>>, n: int) -> bool {
    forall|i: int| 0 <= i < n ==> (#[trigger] resolve(mem, tokens[i])).is_some()
}

/// The cells that the tokens compile to.
pub open spec fn body_cells(mem: Seq<u8>, tokens: Seq<Seq<u8>>) -> Seq<int> {
    Seq::new(tokens.len(), |i: int| resolve(mem, tokens[i]).unwrap())
}

/// The arena after the cells `cells` were appended at the free-space pointer.
pub open spec fn with_cells(mem: Seq<u8>, cells: Seq<int>) -> Seq<u8>
    decreases cells.len(),
{
    if cells.len() == 0 {
        mem
    } else {
        with_cell(with_cells(mem, cells.drop_last()), cells.last())
    }
}

/// The arena after a composite word named `name` with the body `cells` was
/// defined.
pub open spec fn with_composite(mem: Seq<u8>, name: Seq<u8>, flags: u8, cells: Seq<int>) -> Seq<
    u8,
> {
    let m1 = with_header(mem, name, flags);
    let m2 = with_cell(m1, mmap::DOCOL as int);
    let m3 = with_cells(m2, cells);
    store_cell(m3, mmap::LATEST as int, here_of(mem))
}

/// The body of the composite word at `w`: the code field holds the address
/// of the trampoline, the cells follow, and the free-space pointer is behind
/// the last of them.
pub open spec fn composite_body(mem: Seq<u8>, w: int, name: Seq<u8>, cells: Seq<int>) -> bool {
    let cf = code_field_after(w, key_of(name).len() as int);
    &&& cell_at(mem, cf) == mmap::DOCOL
    &&& forall|k: int| 0 <= k < cells.len() ==> cell_at(mem, cf + 4 + 4 * k) == #[trigger] cells[k]
    &&& here_of(mem) == cf + 4 + 4 * cells.len()
}

/// Appending cells writes them one after the other at the free-space pointer
/// and moves the pointer behind them.
pub proof fn lemma_with_cells(mem: Seq<u8>, cells: Seq<int>)
    requires
        mmap::DICT <= here_of(mem),
        here_of(mem) + 4 * cells.len() <= mem.len() <= i32::MAX - 4,
        forall|k: int| 0 <= k < cells.len() ==> i32::MIN <= #[trigger] cells[k] <= i32::MAX,
    ensures
        with_cells(mem, cells).len() == mem.len(),
        here_of(with_cells(mem, cells)) == here_of(mem) + 4 * cells.len(),
        forall|k: int|
            0 <= k < cells.len() ==> cell_at(with_cells(mem, cells), here_of(mem) + 4 * k)
                == #[trigger] cells[k],
        forall|i: int|
            0 <= i < mem.len() && !(here_of(mem) <= i < here_of(mem) + 4 * cells.len()) && !(
            mmap::HERE <= i < mmap::HERE + 4) ==> with_cells(mem, cells)[i] == mem[i],
    decreases cells.len(),
{
    if cells.len() > 0 {
        let front = cells.drop_last();
        lemma_with_cells(mem, front);
        let m1 = with_cells(mem, front);
        assert(i32::MIN <= cells[cells.len() - 1] <= i32::MAX);
        lemma_with_cell(m1, cells.last());
        let post = with_cells(mem, cells);
        assert forall|k: int| 0 <= k < cells.len() implies cell_at(post, here_of(mem) + 4 * k)
            == #[trigger] cells[k] by {
            if k < front.len() {
                assert(front[k] == cells[k]);
                assert(cell_at(post, here_of(mem) + 4 * k) == cell_at(m1, here_of(mem) + 4 * k));
            }
        }
    }
}

/// Defining a composite word lays the new entry out as `added` and
/// `composite_body` say.
pub proof fn lemma_composite(pre: Seq<u8>, name: Seq<u8>, flags: u8, cells: Seq<int>)
    requires
        mmap::DICT <= here_of(pre),
        code_field_after(here_of(pre), key_of(name).len() as int) + 4 + 4 * cells.len()
            <= pre.len() <= MAX_MEMORY,
        forall|k: int| 0 <= k < cells.len() ==> i32::MIN <= #[trigger] cells[k] <= i32::MAX,
    ensures
        with_composite(pre, name, flags, cells).len() == pre.len(),
        added(pre, with_composite(pre, name, flags, cells), here_of(pre), name, flags),
        composite_body(with_composite(pre, name, flags, cells), here_of(pre), name, cells),
        here_of(with_cell(pre, latest_of(pre))) == here_of(pre) + 4,
        here_of(with_header(pre, name, flags)) == code_field_after(
            here_of(pre),
            key_of(name).len() as int,
        ),
        here_of(with_cell(with_header(pre, name, flags), mmap::DOCOL as int)) == here_of(
            with_header(pre, name, flags),
        ) + 4,
{
    let w = here_of(pre);
    let cf = code_field_after(w, key_of(name).len() as int);
    crate::cells::lemma_cell_range(pre, mmap::LATEST as int);
    lemma_with_cell(pre, latest_of(pre));
    let m1 = with_cell(pre, latest_of(pre));
    lemma_with_name(m1, name, flags);
    let m2 = with_name(m1, name, flags);
    assert(here_of(m2) == cf);
    lemma_with_cell(m2, mmap::DOCOL as int);
    let m3 = with_cell(m2, mmap::DOCOL as int);
    lemma_with_cells(m3, cells);
    let m4 = with_cells(m3, cells);
    let post = store_cell(m4, mmap::LATEST as int, w);
    lemma_cell_round_trip(m4, mmap::LATEST as int, w);
    assert(post == with_composite(pre, name, flags, cells));
    assert(here_of(post) == here_of(m4));
    assert(cell_at(m2, w) == cell_at(m1, w));
    assert(cell_at(m3, w) == cell_at(m2, w));
    assert(cell_at(m4, w) == cell_at(m3, w));
    assert(cell_at(post, w) == cell_at(m4, w));
    assert(m3[w + 4] == m2[w + 4]);
    assert(m4[w + 4] == m3[w + 4]);
    assert(post[w + 4] == m4[w + 4]);
    assert(post.subrange(w + 5, w + 5 + key_of(name).len()) =~= m2.subrange(
        w + 5,
        w + 5 + key_of(name).len(),
    ));
    assert(cell_at(m4, cf) == cell_at(m3, cf));
    assert(cell_at(post, cf) == cell_at(m4, cf));
    assert forall|k: int| 0 <= k < cells.len() implies cell_at(post, cf + 4 + 4 * k)
        == #[trigger] cells[k] by {
        assert(cell_at(post, cf + 4 + 4 * k) == cell_at(m4, cf + 4 + 4 * k));
    }
    lemma_entry_frame(pre, m1, m2, m3, m4, post, w, here_of(post));
    lemma_added(pre, post, w, name, flags);
}

/// Cell values as integers.
pub open spec fn ints(cells: Seq<i32>) -> Seq<int> {
    cells.map_values(|c: i32| c as int)
}

/// What defining a composite word from the tokens `tokens` gives: the arena
/// `post` with the new entry at `w`, or the arena unchanged and the index of
/// the first token that compiles to nothing.
pub open spec fn defines_composite(
    pre: Seq<u8>,
    post: Seq<u8>,
    name: Seq<u8>,
    flags: u8,
    tokens: Seq<Seq<u8>>,
    r: Result<i32, DefineError>,
) -> bool {
    match r {
        Ok(w) => {
            &&& resolved_up_to(pre, tokens, tokens.len() as int)
            &&& w == here_of(pre)
            &&& post == with_composite(pre, name, flags, body_cells(pre, tokens))
            &&& added(pre, post, w as int, name, flags)
            &&& composite_body(post, w as int, name, body_cells(pre, tokens))
        },
        Err(DefineError::UnknownToken(i)) => {
            &&& i < tokens.len()
            &&& resolved_up_to(pre, tokens, i as int)
            &&& resolve(pre, tokens[i as int]).is_none()
            &&& post == pre
        },
        Err(_) => false,
    }
}

/// The index of the first token that compiles to no cell; the number of
/// tokens where every one compiles to a cell.
pub open spec fn first_unresolved(mem: Seq<u8>, tokens: Seq<Seq<u8>>) -> usize {
    choose|i: usize|
        i <= tokens.len() && resolved_up_to(mem, tokens, i as int) && (i < tokens.len() ==> resolve(
            mem,
            tokens[i as int],
        ).is_none())
}

/// The first token that compiles to no cell is the one before which every
/// token compiles to a cell.
pub proof fn lemma_first_unresolved(mem: Seq<u8>, tokens: Seq<Seq<u8>>, i: int)
    requires
        0 <= i < tokens.len(),
        tokens.len() <= usize::MAX,
        resolved_up_to(mem, tokens, i),
        resolve(mem, tokens[i]).is_none(),
    ensures
        first_unresolved(mem, tokens) == i,
{
    let k = i as usize;
    assert(k <= tokens.len() && resolved_up_to(mem, tokens, k as int) && (k < tokens.len()
        ==> resolve(mem, tokens[k as int]).is_none()));
    let j = first_unresolved(mem, tokens);
    if j < i {
        assert(resolve(mem, tokens[j as int]).is_some());
    }
    if j > i {
        assert(resolve(mem, tokens[i]).is_some());
    }
}

/// Whether the entry at `w` is one that was added to the dictionary in
/// `pre` and has its shape in `mem`: it lies in the dictionary region, at or
/// behind the free-space pointer of `pre`, on a cell boundary where that
/// pointer was on one; and its code field, which lies behind its header and
/// before the free-space pointer, holds the address of the byte behind it,
/// as that of a primitive does, or the address of the trampoline, as that of
/// a composite word does.
pub open spec fn entry_shaped(pre: Seq<u8>, mem: Seq<u8>, w: int) -> bool {
    &&& mmap::DICT <= w
    &&& here_of(pre) <= w
    &&& here_of(pre) % 4 == 0 ==> w % 4 == 0
    &&& w + 5 <= code_field(mem, w)
    &&& code_field(mem, w) + 4 <= here_of(mem)
    &&& (cell_at(mem, code_field(mem, w)) == code_field(mem, w) + 4 || cell_at(
        mem,
        code_field(mem, w),
    ) == mmap::DOCOL)
}

/// Whether the `n` newest entries of the dictionary in `mem` were added to
/// the dictionary in `pre` and have their shape: the oldest of them lies at
/// the free-space pointer of `pre`, each is as `entry_shaped` says, and the
/// free-space pointer is on a cell boundary where that of `pre` was.
#[verifier::opaque]
pub open spec fn shaped(pre: Seq<u8>, mem: Seq<u8>, n: int) -> bool {
    &&& 0 <= n <= entries(mem).len()
    &&& here_of(pre) <= here_of(mem)
    &&& here_of(pre) % 4 == 0 ==> here_of(mem) % 4 == 0
    &&& n == 0 ==> here_of(mem) == here_of(pre)
    &&& n > 0 ==> entries(mem)[n - 1] == here_of(pre)
    &&& forall|k: int| 0 <= k < n ==> entry_shaped(pre, mem, #[trigger] entries(mem)[k])
}

/// No entry was added to a dictionary by doing nothing.
pub proof fn lemma_shaped_none(mem: Seq<u8>)
    ensures
        shaped(mem, mem, 0),
{
    reveal(shaped);
}

/// An entry that was added with a code field of either kind is shaped, and
/// the entries that were added before it keep their shape.
pub proof fn lemma_shaped_step(
    origin: Seq<u8>,
    pre: Seq<u8>,
    post: Seq<u8>,
    w: int,
    name: Seq<u8>,
    flags: u8,
    n: int,
)
    requires
        dict_ok(pre),
        mmap::DICT <= here_of(pre),
        shaped(origin, pre, n),
        added(pre, post, w, name, flags),
        well_named(name.len() as int, flags),
        here_of(post) <= post.len(),
        here_of(post) % 4 == 0,
        ({
            let cf = code_field_after(w, key_of(name).len() as int);
            &&& cf + 4 <= here_of(post)
            &&& (cell_at(post, cf) == cf + 4 || cell_at(post, cf) == mmap::DOCOL)
        }),
    ensures
        shaped(origin, post, n + 1),
{
    reveal(shaped);
    reveal(added);
    let old_entries = entries(pre);
    let new_entries = entries(post);
    assert(new_entries[0] == w);
    assert forall|k: int| 0 <= k < n + 1 implies entry_shaped(
        origin,
        post,
        #[trigger] new_entries[k],
    ) by {
        if k > 0 {
            let e = old_entries[k - 1];
            assert(new_entries[k] == e);
            assert(entry_shaped(origin, pre, e));
            assert(post[e + 4] == pre[e + 4]);
            assert(code_field(post, e) == code_field(pre, e));
            let cf = code_field(pre, e);
            assert(post[cf] == pre[cf] && post[cf + 1] == pre[cf + 1] && post[cf + 2] == pre[cf
                + 2] && post[cf + 3] == pre[cf + 3]);
        }
    }
    if n > 0 {
        assert(new_entries[n] == old_entries[n - 1]);
    }
}

/// A primitive that was added is shaped.
pub proof fn lemma_shaped_primitive(
    origin: Seq<u8>,
    pre: Seq<u8>,
    post: Seq<u8>,
    w: int,
    name: Seq<u8>,
    flags: u8,
    code: Seq<u8>,
    n: int,
)
    requires
        dict_ok(pre),
        has_room(pre, code.len() as int),
        w == here_of(pre),
        shaped(origin, pre, n),
        added(pre, post, w, name, flags),
        well_named(name.len() as int, flags),
        primitive_body(post, w, name, code),
    ensures
        shaped(origin, post, n + 1),
{
    assert(post.len() == pre.len()) by {
        reveal(added);
    }
    let cf = code_field_after(w, key_of(name).len() as int);
    assert(cf <= w + 21);
    assert(here_of(post) <= cf + 4 + code.len() + 3);
    assert(here_of(post) % 4 == 0);
    lemma_shaped_step(origin, pre, post, w, name, flags, n);
}

/// A composite word that was added is shaped.
pub proof fn lemma_shaped_composite(
    origin: Seq<u8>,
    pre: Seq<u8>,
    post: Seq<u8>,
    w: int,
    name: Seq<u8>,
    flags: u8,
    cells: Seq<int>,
    n: int,
)
    requires
        dict_ok(pre),
        has_room(pre, 4 * cells.len() as int),
        w == here_of(pre),
        shaped(origin, pre, n),
        added(pre, post, w, name, flags),
        well_named(name.len() as int, flags),
        composite_body(post, w, name, cells),
    ensures
        shaped(origin, post, n + 1),
{
    assert(post.len() == pre.len()) by {
        reveal(added);
    }
    let cf = code_field_after(w, key_of(name).len() as int);
    assert(cf <= w + 21);
    assert(cf % 4 == 0);
    assert(here_of(post) == cf + 4 + 4 * cells.len());
    lemma_shaped_step(origin, pre, post, w, name, flags, n);
}

/// The shaped newest entries of a dictionary and those that were the
/// newest before them are its shaped newest entries together.
pub proof fn lemma_shaped_trans(a: Seq<u8>, b: Seq<u8>, c: Seq<u8>, n1: int, n2: int, room: int)
    requires
        shaped(a, b, n1),
        shaped(b, c, n2),
        extended(b, c, room),
        entries(c).len() == entries(b).len() + n2,
        entries(c).skip(n2) == entries(b),
    ensures
        shaped(a, c, n1 + n2),
{
    reveal(shaped);
    reveal(extended);
    assert forall|k: int| 0 <= k < n1 + n2 implies entry_shaped(a, c, #[trigger] entries(c)[k]) by {
        if k >= n2 {
            let e = entries(b)[k - n2];
            assert(entries(c).skip(n2)[k - n2] == entries(c)[k]);
            assert(entry_shaped(a, b, e));
            assert(c[e + 4] == b[e + 4]);
            assert(code_field(c, e) == code_field(b, e));
            let cf = code_field(b, e);
            assert(c[cf] == b[cf] && c[cf + 1] == b[cf + 1] && c[cf + 2] == b[cf + 2] && c[cf + 3]
                == b[cf + 3]);
        } else {
            assert(entry_shaped(b, c, entries(c)[k]));
        }
    }
    if n1 > 0 {
        assert(entries(c).skip(n2)[n1 - 1] == entries(c)[n1 + n2 - 1]);
    }
}

/// Whether name lookup finds under `name` an entry with the length/flags
/// byte `byte` whose code field, which lies before the free-space pointer,
/// holds the address of the trampoline where `composite` is set, and the
/// address of the byte behind it where not.
#[verifier::opaque]
pub open spec fn word_holds(mem: Seq<u8>, name: Seq<u8>, byte: u8, composite: bool) -> bool {
    let w = find_in(mem, name);
    &&& mmap::DICT <= w
    &&& w + 5 <= code_field(mem, w)
    &&& code_field(mem, w) + 4 <= here_of(mem)
    &&& flags_of(mem, w) == byte
    &&& cell_at(mem, code_field(mem, w)) == if composite {
        mmap::DOCOL as int
    } else {
        code_field(mem, w) + 4
    }
}

/// A visible word that was just added is found with its length/flags byte
/// and its code field.
pub proof fn lemma_word_new(
    pre: Seq<u8>,
    post: Seq<u8>,
    name: Seq<u8>,
    flags: u8,
    composite: bool,
)
    requires
        dict_ok(pre),
        mmap::DICT <= here_of(pre),
        added(pre, post, here_of(pre), name, flags),
        well_named(name.len() as int, flags),
        flags & HIDDEN == 0,
        here_of(post) <= post.len(),
        ({
            let cf = code_field_after(here_of(pre), key_of(name).len() as int);
            &&& cf + 4 <= here_of(post)
            &&& cell_at(post, cf) == if composite {
                mmap::DOCOL as int
            } else {
                cf + 4
            }
        }),
    ensures
        word_holds(post, name, header_byte(name.len() as int, flags), composite),
{
    reveal(word_holds);
    reveal(added);
    assert(same_word(name, name));
}

/// A visible primitive that was just added is found with its length/flags
/// byte and its code field.
pub proof fn lemma_word_primitive(
    pre: Seq<u8>,
    post: Seq<u8>,
    name: Seq<u8>,
    flags: u8,
    code: Seq<u8>,
)
    requires
        dict_ok(pre),
        has_room(pre, code.len() as int),
        added(pre, post, here_of(pre), name, flags),
        well_named(name.len() as int, flags),
        flags & HIDDEN == 0,
        primitive_body(post, here_of(pre), name, code),
    ensures
        word_holds(post, name, header_byte(name.len() as int, flags), false),
{
    assert(post.len() == pre.len()) by {
        reveal(added);
    }
    let cf = code_field_after(here_of(pre), key_of(name).len() as int);
    assert(cf <= here_of(pre) + 21);
    assert(cf + 4 <= here_of(post) <= cf + 4 + code.len() + 3);
    lemma_word_new(pre, post, name, flags, false);
}

/// A visible composite word that was just added is found with its
/// length/flags byte and the trampoline's address in its code field.
pub proof fn lemma_word_composite(
    pre: Seq<u8>,
    post: Seq<u8>,
    name: Seq<u8>,
    flags: u8,
    cells: Seq<int>,
)
    requires
        dict_ok(pre),
        has_room(pre, 4 * cells.len() as int),
        added(pre, post, here_of(pre), name, flags),
        well_named(name.len() as int, flags),
        flags & HIDDEN == 0,
        composite_body(post, here_of(pre), name, cells),
    ensures
        word_holds(post, name, header_byte(name.len() as int, flags), true),
{
    assert(post.len() == pre.len()) by {
        reveal(added);
    }
    let cf = code_field_after(here_of(pre), key_of(name).len() as int);
    assert(cf <= here_of(pre) + 21);
    lemma_word_new(pre, post, name, flags, true);
}

/// A word that is found stays as it is when a word of another name is
/// added.
pub proof fn lemma_word_kept(
    pre: Seq<u8>,
    post: Seq<u8>,
    name: Seq<u8>,
    flags: u8,
    other: Seq<u8>,
    byte: u8,
    composite: bool,
)
    requires
        dict_ok(pre),
        added(pre, post, here_of(pre), name, flags),
        well_named(name.len() as int, flags),
        here_of(post) <= post.len(),
        word_holds(pre, other, byte, composite),
        !same_word(other, name),
    ensures
        word_holds(post, other, byte, composite),
{
    reveal(word_holds);
    reveal(added);
    let e = find_in(pre, other);
    assert(find_in(post, other) == e);
    assert(post[e + 4] == pre[e + 4]);
    assert(code_field(post, e) == code_field(pre, e));
    let cf = code_field(pre, e);
    assert(post[cf] == pre[cf] && post[cf + 1] == pre[cf + 1] && post[cf + 2] == pre[cf + 2]
        && post[cf + 3] == pre[cf + 3]);
}

/// The state of a runtime: the arena and the name table.
pub struct Image {
    pub mem: Seq<u8>,
    pub names: Map<i32, Seq<char>>,
}

/// The state after a primitive named `name` with the instruction bytes
/// `code` was defined: the arena holds the entry, and the name table holds
/// the name under the address of the entry's code field.
pub open spec fn image_with_primitive(img: Image, name: &str, flags: u8, code: Seq<u8>) -> Image {
    let mem = with_primitive(img.mem, name.spec_bytes(), flags, code);
    Image { mem, names: img.names.insert(code_field(mem, here_of(img.mem)) as i32, name@) }
}

/// The state after a composite word named `name` was defined from the
/// tokens `tokens`, each of which compiles to a cell.
pub open spec fn image_with_composite(
    img: Image,
    name: &str,
    flags: u8,
    tokens: Seq<&'static str>,
) -> Image {
    let mem = with_composite(
        img.mem,
        name.spec_bytes(),
        flags,
        body_cells(img.mem, token_bytes(tokens)),
    );
    Image { mem, names: img.names.insert(code_field(mem, here_of(img.mem)) as i32, name@) }
}

/// A composite word that was defined under guard gives the state that
/// `image_with_composite` names.
pub proof fn lemma_composite_image(
    pre: Image,
    post: Image,
    name: &str,
    flags: u8,
    tokens: Seq<&'static str>,
    r: Result<i32, DefineError>,
)
    requires
        guarded_composite(pre.mem, post.mem, name.spec_bytes(), flags, token_bytes(tokens), r),
        r is Ok,
        post.names == pre.names.insert(code_field(post.mem, r->Ok_0 as int) as i32, name@),
    ensures
        post == image_with_composite(pre, name, flags, tokens),
{
    reveal(guarded_composite);
}

/// Whether the dictionary in `mem` holds a visible word named `name`.
pub open spec fn knows(mem: Seq<u8>, name: Seq<u8>) -> bool {
    find_in(mem, name) != 0
}

/// The most bytes that the header and the code field of an entry take, with
/// the padding before and behind them.
pub const ENTRY_OVERHEAD: usize = 28;

/// Whether `post` is `pre` with more entries that take at most `room` bytes:
/// the dictionary is still in order, every name that was known is known,
/// and no byte has changed but those of the new entries, of the free-space
/// pointer and of the pointer to the newest entry.
#[verifier::opaque]
pub open spec fn extended(pre: Seq<u8>, post: Seq<u8>, room: int) -> bool {
    &&& dict_ok(post)
    &&& post.len() == pre.len()
    &&& here_of(pre) <= here_of(post) <= here_of(pre) + room
    &&& forall|other: Seq<u8>| knows(pre, other) ==> #[trigger] knows(post, other)
    &&& same_registers(pre, post)
    &&& forall|i: int| mmap::DICT <= i < here_of(pre) ==> post[i] == pre[i]
    &&& forall|i: int| here_of(post) <= i < post.len() ==> post[i] == pre[i]
}

/// Whether the dictionary in `mem` has room for an entry with a body of
/// `body` bytes: the free-space pointer lies in the dictionary region, and
/// the entry with all its padding ends inside the arena.
pub open spec fn has_room(mem: Seq<u8>, body: int) -> bool {
    mmap::DICT <= here_of(mem) && here_of(mem) + ENTRY_OVERHEAD + body <= mem.len()
}

/// A well-named, visible entry that was added extends the dictionary by the
/// word of its name.
pub proof fn lemma_added_extends(
    pre: Seq<u8>,
    post: Seq<u8>,
    w: int,
    name: Seq<u8>,
    flags: u8,
    body: int,
)
    requires
        dict_ok(pre),
        added(pre, post, w, name, flags),
        well_named(name.len() as int, flags),
        here_of(post) <= here_of(pre) + ENTRY_OVERHEAD + body,
        here_of(post) <= post.len(),
    ensures
        extended(pre, post, ENTRY_OVERHEAD + body),
        flags & HIDDEN == 0 ==> knows(post, name) && find_in(post, name) == w,
{
    reveal(added);
    reveal(extended);
    assert(same_word(name, name));
    assert forall|other: Seq<u8>| knows(pre, other) implies #[trigger] knows(post, other) by {
        assert(find_in(post, other) == if flags & HIDDEN == 0 && same_word(other, name) {
            w
        } else {
            find_in(pre, other)
        });
    }
}

/// What defining a composite word under guard gives: the arena `post` with
/// the new entry, whose body holds the cells that the tokens compile to; or
/// the arena unchanged and the reason, which is, in this order, a name that
/// cannot be told, a dictionary without room, or the first token that
/// compiles to nothing.
#[verifier::opaque]
pub open spec fn guarded_composite(
    pre: Seq<u8>,
    post: Seq<u8>,
    name: Seq<u8>,
    flags: u8,
    tokens: Seq<Seq<u8>>,
    r: Result<i32, DefineError>,
) -> bool {
    match r {
        Ok(w) => {
            &&& well_named(name.len() as int, flags)
            &&& has_room(pre, 4 * tokens.len() as int)
            &&& defines_composite(pre, post, name, flags, tokens, r)
            &&& extended(pre, post, ENTRY_OVERHEAD + 4 * tokens.len())
            &&& flags & HIDDEN == 0 ==> find_in(post, name) == w
        },
        Err(e) => {
            &&& post == pre
            &&& e == if !well_named(name.len() as int, flags) {
                DefineError::BadName
            } else if !has_room(pre, 4 * tokens.len() as int) {
                DefineError::OutOfMemory
            } else {
                DefineError::UnknownToken(first_unresolved(pre, tokens))
            }
            &&& e is UnknownToken ==> {
                &&& e->UnknownToken_0 < tokens.len()
                &&& resolved_up_to(pre, tokens, e->UnknownToken_0 as int)
                &&& resolve(pre, tokens[e->UnknownToken_0 as int]).is_none()
            }
        },
    }
}

impl ForthVM {
    /// The state of this runtime.
    pub open spec fn image(&self) -> Image {
        Image { mem: self.mem(), names: self.names() }
    }

    /// Appends one cell at the free-space pointer.
    pub fn compile_cell(&mut self, value: i32)
        requires
            old(self).wf(),
            in_bounds(old(self).mem().len(), here_of(old(self).mem()), 4),
        ensures
            final(self).mem().len() == old(self).mem().len(),
            final(self).mem() == with_cell(old(self).mem(), value as int),
            final(self).names() == old(self).names(),
    {
        reveal(with_cell);
        let next_empty_space: i32 = self.here();
        self.write_i32(value, next_empty_space);
        self.set_here(next_empty_space + 4);
    }

    /// Appends the link field of a new entry: the address of the newest entry.
    pub fn write_previous_idx(&mut self)
        requires
            old(self).wf(),
            in_bounds(old(self).mem().len(), here_of(old(self).mem()), 4),
        ensures
            final(self).mem().len() == old(self).mem().len(),
            final(self).mem() == with_cell(old(self).mem(), latest_of(old(self).mem())),
            final(self).names() == old(self).names(),
    {
        let latest: i32 = self.latest();
        self.compile_cell(latest);
    }

    /// Appends the length/flags byte and the first bytes of `name`.
    pub fn write_name(&mut self, name: &str, flags: u8)
        requires
            old(self).wf(),
            in_bounds(
                old(self).mem().len(),
                here_of(old(self).mem()),
                1 + key_of(name.spec_bytes()).len() as int,
            ),
        ensures
            final(self).mem().len() == old(self).mem().len(),
            final(self).mem() == with_name(old(self).mem(), name.spec_bytes(), flags),
            final(self).names() == old(self).names(),
    {
        reveal(with_name);
        let next_empty_space: i32 = self.here();
        let bytes = name.as_bytes();
        let len: usize = bytes.len();
        self.write_u8(((len % 256) as u8) | flags, next_empty_space);
        let n: usize = if len <= MAX_WORD_LEN {
            len
        } else {
            MAX_WORD_LEN
        };
        let stored = slice_subrange(bytes, 0, n);
        assert(stored@ == key_of(name.spec_bytes()));
        self.write(next_empty_space as usize + 1, stored);
        self.set_here(align(next_empty_space + n as i32 + 1));
    }

    /// Appends the code field of a primitive: the address of the byte after it.
    pub fn write_codeword_builtin(&mut self)
        requires
            old(self).wf(),
            in_bounds(old(self).mem().len(), here_of(old(self).mem()), 4),
        ensures
            final(self).mem().len() == old(self).mem().len(),
            final(self).mem() == with_cell(old(self).mem(), here_of(old(self).mem()) + 4),
            final(self).names() == old(self).names(),
    {
        let here: i32 = self.here();
        self.compile_cell(here + 4);
    }

    /// Appends the instruction bytes of a primitive.
    pub fn write_code(&mut self, code: &[u8])
        requires
            old(self).wf(),
            in_bounds(old(self).mem().len(), here_of(old(self).mem()), code@.len() as int),
        ensures
            final(self).mem().len() == old(self).mem().len(),
            final(self).mem() == with_code(old(self).mem(), code@),
            final(self).names() == old(self).names(),
    {
        reveal(with_code);
        let next_empty_space: i32 = self.here();
        let n: i32 = code.len() as i32;
        self.write(next_empty_space as usize, code);
        self.set_here(align(next_empty_space + n));
    }

    /// Appends the code field of a composite word: the trampoline's address.
    pub fn write_docol_addr(&mut self)
        requires
            old(self).wf(),
            in_bounds(old(self).mem().len(), here_of(old(self).mem()), 4),
        ensures
            final(self).mem().len() == old(self).mem().len(),
            final(self).mem() == with_cell(old(self).mem(), mmap::DOCOL as int),
            final(self).names() == old(self).names(),
    {
        self.compile_cell(80);
    }

    /// Defines a primitive without flags. See `builtin_ex`.
    pub fn builtin(&mut self, name: &str, code: &[u8]) -> (w: i32)
        requires
            old(self).wf(),
            mmap::DICT <= here_of(old(self).mem()),
            aligned(
                code_field_after(here_of(old(self).mem()), key_of(name.spec_bytes()).len() as int)
                    + 4 + code@.len(),
            ) <= old(self).mem().len(),
        ensures
            final(self).wf(),
            final(self).mem().len() == old(self).mem().len(),
            old(self).dict_ok() && well_named(name.spec_bytes().len() as int, 0)
                ==> final(self).dict_ok(),
            w == here_of(old(self).mem()),
            final(self).mem() == with_primitive(old(self).mem(), name.spec_bytes(), 0, code@),
            added(old(self).mem(), final(self).mem(), w as int, name.spec_bytes(), 0),
            primitive_body(final(self).mem(), w as int, name.spec_bytes(), code@),
            final(self).names() == old(self).names().insert(
                code_field(final(self).mem(), w as int) as i32,
                name@,
            ),
    {
        self.builtin_ex(name, 0, code)
    }

    /// Defines a primitive: appends an entry whose code field points at its
    /// own body, the instruction bytes `code`, and makes it the newest entry.
    /// Returns the address of the entry.
    pub fn builtin_ex(&mut self, name: &str, flags: u8, code: &[u8]) -> (w: i32)
        requires
            old(self).wf(),
            mmap::DICT <= here_of(old(self).mem()),
            aligned(
                code_field_after(here_of(old(self).mem()), key_of(name.spec_bytes()).len() as int)
                    + 4 + code@.len(),
            ) <= old(self).mem().len(),
        ensures
            final(self).wf(),
            final(self).mem().len() == old(self).mem().len(),
            old(self).dict_ok() && well_named(name.spec_bytes().len() as int, flags)
                ==> final(self).dict_ok(),
            w == here_of(old(self).mem()),
            final(self).mem() == with_primitive(old(self).mem(), name.spec_bytes(), flags, code@),
            added(old(self).mem(), final(self).mem(), w as int, name.spec_bytes(), flags),
            primitive_body(final(self).mem(), w as int, name.spec_bytes(), code@),
            final(self).names() == old(self).names().insert(
                code_field(final(self).mem(), w as int) as i32,
                name@,
            ),
    {
        let ghost pre = self.mem();
        proof {
            lemma_primitive(pre, name.spec_bytes(), flags, code@);
            reveal(added);
        }
        let new_last_word_idx: i32 = self.here();
        self.write_previous_idx();
        self.write_name(name, flags);
        self.write_codeword_builtin();
        self.write_code(code);
        self.set_latest(new_last_word_idx);
        let cf: i32 = self.cfa(new_last_word_idx);
        self.remember(cf, name);
        new_last_word_idx
    }

    /// The cell that the token `token` of a definition compiles to, if any.
    pub fn resolve_token(&self, token: &str) -> (r: Option<i32>)
        requires
            self.dict_ok(),
        ensures
            match r {
                Some(c) => resolve(self.mem(), token.spec_bytes()) == Some(c as int),
                None => resolve(self.mem(), token.spec_bytes()).is_none(),
            },
    {
        let bytes = token.as_bytes();
        let w: i32 = self.find_bytes(bytes);
        if w != 0 {
            proof {
                lemma_lookup_result(
                    self.mem(),
                    latest_of(self.mem()),
                    here_of(self.mem()),
                    bytes@.len() as int,
                    key_of(bytes@),
                );
            }
            Some(self.cfa(w))
        } else {
            parse_literal(bytes)
        }
    }

    /// The cells that the tokens `calls` compile to, or the first token that
    /// compiles to nothing.
    fn resolve_all(&self, calls: &[&str]) -> (r: Result<Vec<i32>, DefineError>)
        requires
            self.dict_ok(),
        ensures
            match r {
                Ok(cells) => {
                    &&& cells@.len() == calls@.len()
                    &&& resolved_up_to(self.mem(), token_bytes(calls@), calls@.len() as int)
                    &&& ints(cells@) == body_cells(self.mem(), token_bytes(calls@))
                },
                Err(DefineError::UnknownToken(i)) => {
                    &&& i < calls@.len()
                    &&& resolved_up_to(self.mem(), token_bytes(calls@), i as int)
                    &&& resolve(self.mem(), token_bytes(calls@)[i as int]).is_none()
                },
                Err(_) => false,
            },
    {
        let ghost tokens = token_bytes(calls@);
        let n: usize = calls.len();
        let mut cells: Vec<i32> = Vec::new();
        let mut i: usize = 0;
        while i < n
            invariant
                self.dict_ok(),
                n == calls@.len(),
                tokens == token_bytes(calls@),
                i <= n,
                cells@.len() == i,
                resolved_up_to(self.mem(), tokens, i as int),
                forall|k: int|
                    0 <= k < i ==> cells@[k] as int == resolve(self.mem(), #[trigger] tokens[k]).unwrap(),
            decreases n - i,
        {
            assert(tokens[i as int] == calls@[i as int].spec_bytes());
            match self.resolve_token(calls[i]) {
                Some(c) => {
                    cells.push(c);
                },
                None => {
                    return Err(DefineError::UnknownToken(i));
                },
            }
            i = i + 1;
        }
        assert(ints(cells@) =~= body_cells(self.mem(), tokens));
        Ok(cells)
    }

    /// Appends each of `cells` at the free-space pointer.
    fn write_cells(&mut self, cells: &Vec<i32>)
        requires
            old(self).wf(),
            mmap::DICT <= here_of(old(self).mem()),
            here_of(old(self).mem()) + 4 * cells@.len() <= old(self).mem().len(),
        ensures
            final(self).mem().len() == old(self).mem().len(),
            final(self).mem() == with_cells(old(self).mem(), ints(cells@)),
            final(self).names() == old(self).names(),
    {
        let n: usize = cells.len();
        let mut k: usize = 0;
        assert(ints(cells@).take(0) =~= Seq::<int>::empty());
        while k < n
            invariant
                old(self).wf(),
                self.wf(),
                n == cells@.len(),
                k <= n,
                mmap::DICT <= here_of(old(self).mem()),
                here_of(old(self).mem()) + 4 * n <= old(self).mem().len(),
                self.mem().len() == old(self).mem().len(),
                self.mem() == with_cells(old(self).mem(), ints(cells@).take(k as int)),
                self.names() == old(self).names(),
            decreases n - k,
        {
            proof {
                lemma_with_cells(old(self).mem(), ints(cells@).take(k as int));
                assert(ints(cells@).take(k + 1).drop_last() =~= ints(cells@).take(k as int));
                assert(ints(cells@).take(k + 1).last() == cells@[k as int]);
            }
            self.compile_cell(cells[k]);
            k = k + 1;
        }
        assert(ints(cells@).take(n as int) =~= ints(cells@));
    }

    /// Appends the body of a composite word: for each token the code field
    /// address of the word it names or, where it names none, the literal it
    /// spells. Where a token is neither, nothing is written.
    pub fn write_colon_def(&mut self, calls: &[&str]) -> (r: Result<(), DefineError>)
        requires
            old(self).dict_ok(),
            mmap::DICT <= here_of(old(self).mem()),
            here_of(old(self).mem()) + 4 * calls@.len() <= old(self).mem().len(),
        ensures
            final(self).wf(),
            final(self).mem().len() == old(self).mem().len(),
            final(self).names() == old(self).names(),
            match r {
                Ok(()) => {
                    &&& resolved_up_to(old(self).mem(), token_bytes(calls@), calls@.len() as int)
                    &&& final(self).mem() == with_cells(
                        old(self).mem(),
                        body_cells(old(self).mem(), token_bytes(calls@)),
                    )
                },
                Err(DefineError::UnknownToken(i)) => {
                    &&& i < calls@.len()
                    &&& resolved_up_to(old(self).mem(), token_bytes(calls@), i as int)
                    &&& resolve(old(self).mem(), token_bytes(calls@)[i as int]).is_none()
                    &&& final(self).mem() == old(self).mem()
                },
                Err(_) => false,
            },
    {
        match self.resolve_all(calls) {
            Ok(cells) => {
                self.write_cells(&cells);
                Ok(())
            },
            Err(e) => Err(e),
        }
    }

    /// Defines a composite word without flags. See `colon_def_ex`.
    pub fn colon_def(&mut self, name: &str, calls: &[&str]) -> (r: Result<i32, DefineError>)
        requires
            old(self).dict_ok(),
            mmap::DICT <= here_of(old(self).mem()),
            code_field_after(here_of(old(self).mem()), key_of(name.spec_bytes()).len() as int) + 4
                + 4 * calls@.len() <= old(self).mem().len(),
        ensures
            final(self).wf(),
            final(self).mem().len() == old(self).mem().len(),
            well_named(name.spec_bytes().len() as int, 0) ==> final(self).dict_ok(),
            defines_composite(
                old(self).mem(),
                final(self).mem(),
                name.spec_bytes(),
                0,
                token_bytes(calls@),
                r,
            ),
            final(self).names() == match r {
                Ok(w) => old(self).names().insert(
                    code_field(final(self).mem(), w as int) as i32,
                    name@,
                ),
                Err(_) => old(self).names(),
            },
    {
        self.colon_def_ex(name, 0, calls)
    }

    /// Defines a composite word: appends an entry whose code field points at
    /// the trampoline and whose body holds one cell for each token, and makes
    /// it the newest entry. Returns the address of the entry. Where a token
    /// names no visible word and is no literal, nothing is defined.
    pub fn colon_def_ex(&mut self, name: &str, flags: u8, calls: &[&str]) -> (r: Result<
        i32,
        DefineError,
    >)
        requires
            old(self).dict_ok(),
            mmap::DICT <= here_of(old(self).mem()),
            code_field_after(here_of(old(self).mem()), key_of(name.spec_bytes()).len() as int) + 4
                + 4 * calls@.len() <= old(self).mem().len(),
        ensures
            final(self).wf(),
            final(self).mem().len() == old(self).mem().len(),
            well_named(name.spec_bytes().len() as int, flags) ==> final(self).dict_ok(),
            defines_composite(
                old(self).mem(),
                final(self).mem(),
                name.spec_bytes(),
                flags,
                token_bytes(calls@),
                r,
            ),
            final(self).names() == match r {
                Ok(w) => old(self).names().insert(
                    code_field(final(self).mem(), w as int) as i32,
                    name@,
                ),
                Err(_) => old(self).names(),
            },
    {
        let ghost pre = self.mem();
        let cells = match self.resolve_all(calls) {
            Ok(cells) => cells,
            Err(e) => {
                return Err(e);
            },
        };
        proof {
            assert forall|k: int| 0 <= k < ints(cells@).len() implies i32::MIN
                <= #[trigger] ints(cells@)[k] <= i32::MAX by {
                assert(ints(cells@)[k] == cells@[k]);
            }
            lemma_composite(pre, name.spec_bytes(), flags, ints(cells@));
            reveal(added);
        }
        let new_last_word_idx: i32 = self.here();
        self.write_previous_idx();
        self.write_name(name, flags);
        self.write_docol_addr();
        self.write_cells(&cells);
        self.set_latest(new_last_word_idx);
        let cf: i32 = self.cfa(new_last_word_idx);
        self.remember(cf, name);
        Ok(new_last_word_idx)
    }

    /// Defines a primitive as `builtin_ex` does, where the name can be told
    /// and the dictionary has room; says why it did not where not.
    pub fn define_primitive(&mut self, name: &str, flags: u8, code: &[u8]) -> (r: Result<
        i32,
        DefineError,
    >)
        requires
            old(self).dict_ok(),
        ensures
            final(self).wf(),
            match r {
                Ok(w) => {
                    &&& well_named(name.spec_bytes().len() as int, flags)
                    &&& has_room(old(self).mem(), code@.len() as int)
                    &&& w == here_of(old(self).mem())
                    &&& final(self).mem() == with_primitive(
                        old(self).mem(),
                        name.spec_bytes(),
                        flags,
                        code@,
                    )
                    &&& added(old(self).mem(), final(self).mem(), w as int, name.spec_bytes(), flags)
                    &&& primitive_body(final(self).mem(), w as int, name.spec_bytes(), code@)
                    &&& extended(old(self).mem(), final(self).mem(), ENTRY_OVERHEAD + code@.len())
                    &&& flags & HIDDEN == 0 ==> find_in(final(self).mem(), name.spec_bytes()) == w
                    &&& final(self).names() == old(self).names().insert(
                        code_field(final(self).mem(), w as int) as i32,
                        name@,
                    )
                },
                Err(e) => {
                    &&& final(self).mem() == old(self).mem()
                    &&& final(self).names() == old(self).names()
                    &&& e == if !well_named(name.spec_bytes().len() as int, flags) {
                        DefineError::BadName
                    } else {
                        DefineError::OutOfMemory
                    }
                    &&& !well_named(name.spec_bytes().len() as int, flags) || !has_room(
                        old(self).mem(),
                        code@.len() as int,
                    )
                },
            },
    {
        proof {
            lemma_flag_bits(flags);
        }
        if name.as_bytes().len() > 31 || flags & LEN_MASK != 0 {
            return Err(DefineError::BadName);
        }
        let here: i32 = self.here();
        let total: usize = self.memory_size();
        if here < 144 || code.len() > total || here as usize + 28 > total - code.len() {
            return Err(DefineError::OutOfMemory);
        }
        let w: i32 = self.builtin_ex(name, flags, code);
        proof {
            lemma_added_extends(
                old(self).mem(),
                self.mem(),
                w as int,
                name.spec_bytes(),
                flags,
                code@.len() as int,
            );
        }
        Ok(w)
    }

    /// Defines a composite word as `colon_def_ex` does, where the name can
    /// be told, the dictionary has room and every token compiles to a cell;
    /// says why it did not where not.
    pub fn define_composite(&mut self, name: &str, flags: u8, calls: &[&str]) -> (r: Result<
        i32,
        DefineError,
    >)
        requires
            old(self).dict_ok(),
        ensures
            final(self).wf(),
            guarded_composite(
                old(self).mem(),
                final(self).mem(),
                name.spec_bytes(),
                flags,
                token_bytes(calls@),
                r,
            ),
            final(self).names() == match r {
                Ok(w) => old(self).names().insert(
                    code_field(final(self).mem(), w as int) as i32,
                    name@,
                ),
                Err(_) => old(self).names(),
            },
    {
        reveal(guarded_composite);
        proof {
            lemma_flag_bits(flags);
        }
        if name.as_bytes().len() > 31 || flags & LEN_MASK != 0 {
            return Err(DefineError::BadName);
        }
        let here: i32 = self.here();
        let total: usize = self.memory_size();
        if here < 144 || calls.len() > total / 4 || here as usize + 28 > total - 4 * calls.len() {
            return Err(DefineError::OutOfMemory);
        }
        match self.colon_def_ex(name, flags, calls) {
            Ok(w) => {
                proof {
                    lemma_added_extends(
                        old(self).mem(),
                        self.mem(),
                        w as int,
                        name.spec_bytes(),
                        flags,
                        4 * calls@.len() as int,
                    );
                }
                Ok(w)
            },
            Err(e) => {
                proof {
                    if let DefineError::UnknownToken(i) = e {
                        lemma_first_unresolved(old(self).mem(), token_bytes(calls@), i as int);
                    }
                }
                Err(e)
            },
        }
    }
}

/// The body of the primitive at `w`: the code field holds the address of the
/// byte after it, the instruction bytes follow, and the free-space pointer is
/// the next cell boundary after them.
pub open spec fn primitive_body(mem: Seq<u8>, w: int, name: Seq<u8>, code: Seq<u8>) -> bool {
    let cf = code_field_after(w, key_of(name).len() as int);
    &&& cell_at(mem, cf) == cf + 4
    &&& mem.subrange(cf + 4, cf + 4 + code.len()) == code
    &&& here_of(mem) == aligned(cf + 4 + code.len())
}

} // verus!
