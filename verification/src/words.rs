//! The words that the host implements: each takes its arguments from the
//! parameter stack and leaves its results there, as the instruction stream
//! that calls it expects.

use vstd::prelude::*;
use vstd::string::StringSliceAdditionalSpecFns;
use crate::cells::{cell_at, in_bounds, store_byte, store_bytes, store_cell};
use crate::dictionary::{
    code_field, dict_ok, flags_of, here_of, latest_of, lemma_flag_bits, link, lookup, stored_max,
};
use crate::forthvm::{ForthVM, MAX_MEMORY};
use crate::input::{
    buffer_of, buffered, pending, runs_out, same_but_input, same_but_token, scratch_of,
    scratch_room, skipped, token_len, token_ok, word_read, WordOutcome,
};
use crate::input_stream::{stream_terminal, InputStream, MAX_LINE, NEWLINE};
use crate::number::{magnitude, number_of, parse_number};
use crate::opcodes::{call, call_code, Opcodes};
use crate::stacks::{
    can_pop, can_push, dsp_of, lemma_popped, lemma_pushed, picked, popped, pushed, same_but_stack,
};
use crate::writer::{
    added, code_field_after, primitive_body, well_named, with_cell, with_primitive, written,
};
use crate::{aligned, align, mmap, HIDDEN, IMMEDIATE, MAX_WORD_LEN};
use crate::dictionary::key_of;

verus! {

/// The arena after the flag `flag` of the entry at `w` was toggled.
pub open spec fn toggled(mem: Seq<u8>, w: int, flag: u8) -> Seq<u8> {
    store_byte(mem, w + 4, flags_of(mem, w) ^ flag)
}

/// The arena after a text was stored at `idx`: its length as a cell, then
/// its bytes.
pub open spec fn with_str(mem: Seq<u8>, idx: int, text: Seq<u8>) -> Seq<u8> {
    store_bytes(store_cell(mem, idx, text.len() as int), idx + 4, text)
}

/// The number of name bytes that `create` stores for a declared length.
pub open spec fn clipped(len: int) -> int {
    if 0 <= len <= MAX_WORD_LEN {
        len
    } else {
        MAX_WORD_LEN as int
    }
}

impl ForthVM {
    /// Copies `n` bytes of the arena from address `idx` on.
    pub fn read(&self, idx: usize, n: usize) -> (bytes: Vec<u8>)
        requires
            idx + n <= self.mem().len(),
        ensures
            bytes@ == self.mem().subrange(idx as int, idx + n),
    {
        let total: usize = self.memory_size();
        let mut bytes: Vec<u8> = Vec::new();
        let mut k: usize = 0;
        while k < n
            invariant
                k <= n,
                idx + n <= total,
                total == self.mem().len(),
                bytes@ == self.mem().subrange(idx as int, idx + k),
            decreases n - k,
        {
            bytes.push(self.byte(idx + k));
            assert(bytes@ =~= self.mem().subrange(idx as int, idx + k + 1));
            k = k + 1;
        }
        bytes
    }

    /// Stores a text at `idx`: its length as a cell, then its bytes.
    pub fn write_str(&mut self, idx: usize, s: &str)
        requires
            old(self).wf(),
            idx + 4 + s.spec_bytes().len() <= old(self).mem().len(),
        ensures
            final(self).wf(),
            final(self).mem() == with_str(old(self).mem(), idx as int, s.spec_bytes()),
            final(self).names() == old(self).names(),
    {
        let bytes = s.as_bytes();
        let len: i32 = bytes.len() as i32;
        self.write_i32(len, idx as i32);
        self.write(idx + 4, bytes);
    }

    /// Toggles the hidden flag of the entry at `w`.
    pub fn hidden(&mut self, w: i32)
        requires
            old(self).wf(),
            in_bounds(old(self).mem().len(), w + 4, 1),
        ensures
            final(self).wf(),
            final(self).mem() == toggled(old(self).mem(), w as int, HIDDEN),
            final(self).names() == old(self).names(),
    {
        let b: u8 = self.read_u8(w + 4);
        self.write_u8(b ^ HIDDEN, w + 4);
    }

    /// Toggles the immediate flag of the newest entry.
    pub fn immediate(&mut self)
        requires
            old(self).wf(),
            in_bounds(old(self).mem().len(), latest_of(old(self).mem()) + 4, 1),
        ensures
            final(self).wf(),
            final(self).mem() == toggled(
                old(self).mem(),
                latest_of(old(self).mem()),
                IMMEDIATE,
            ),
            final(self).names() == old(self).names(),
    {
        let w: i32 = self.latest();
        let b: u8 = self.read_u8(w + 4);
        self.write_u8(b ^ IMMEDIATE, w + 4);
    }

    /// Prepares a run of the word at `word_idx`: the start cell holds its
    /// code field address and the program counter points at the start cell,
    /// so that the dispatch instruction at the returned entry point enters
    /// the word.
    pub fn start_word(&mut self, word_idx: usize) -> (ip: usize)
        requires
            old(self).wf(),
            word_idx + 5 <= old(self).mem().len(),
        ensures
            final(self).wf(),
            ip == mmap::COLD_START,
            final(self).mem() == store_cell(
                store_cell(
                    old(self).mem(),
                    mmap::START_ADR as int,
                    code_field(old(self).mem(), word_idx as int),
                ),
                mmap::IC as int,
                mmap::START_ADR as int,
            ),
            final(self).names() == old(self).names(),
    {
        let cfa: i32 = self.cfa(word_idx as i32);
        self.write_i32(cfa, 64);
        self.write_i32(64, 44);
        68
    }

    /// Defines the word `name` that calls the host function with index
    /// `fn_idx`. Returns that index and the address of the entry.
    pub fn vm_call(&mut self, name: &str, fn_idx: usize, ops: &Opcodes) -> (r: (i32, i32))
        requires
            old(self).wf(),
            fn_idx <= i32::MAX,
            mmap::DICT <= here_of(old(self).mem()),
            aligned(
                code_field_after(here_of(old(self).mem()), key_of(name.spec_bytes()).len() as int)
                    + 4 + 7,
            ) <= old(self).mem().len(),
        ensures
            final(self).wf(),
            old(self).dict_ok() && well_named(name.spec_bytes().len() as int, 0) ==> final(
                self
            ).dict_ok(),
            r.0 == fn_idx,
            r.1 == here_of(old(self).mem()),
            final(self).mem() == with_primitive(
                old(self).mem(),
                name.spec_bytes(),
                0,
                call_code(*ops, fn_idx as int),
            ),
            added(old(self).mem(), final(self).mem(), r.1 as int, name.spec_bytes(), 0),
            primitive_body(
                final(self).mem(),
                r.1 as int,
                name.spec_bytes(),
                call_code(*ops, fn_idx as int),
            ),
            final(self).names() == old(self).names().insert(
                code_field(final(self).mem(), r.1 as int) as i32,
                name@,
            ),
    {
        let code: Vec<u8> = call(ops, fn_idx as i32);
        let word_adr: i32 = self.builtin(name, code.as_slice());
        (fn_idx as i32, word_adr)
    }

    /// Makes a bare header at the free-space pointer for the name of `len`
    /// bytes at address `ptr`. See `created`.
    pub fn create_header(&mut self, len: i32, ptr: i32)
        requires
            old(self).wf(),
            can_create(old(self).mem(), len as int, ptr as int),
        ensures
            final(self).wf(),
            final(self).mem() == created(old(self).mem(), len as int, ptr as int),
            final(self).names() == old(self).names(),
            nameable(old(self).mem(), len as int, ptr as int) ==> added(
                old(self).mem(),
                final(self).mem(),
                here_of(old(self).mem()),
                old(self).mem().subrange(ptr as int, ptr + len),
                0,
            ),
    {
        proof {
            if nameable(self.mem(), len as int, ptr as int) {
                lemma_created(self.mem(), len as int, ptr as int);
            }
        }
        let here: i32 = self.here();
        let latest: i32 = self.latest();
        self.write_i32(latest, here);
        let low: i64 = (len as i64 + 0x8000_0000) % 256;
        assert(low == len as int % 256);
        self.write_u8(low as u8, here + 4);
        let n: usize = if 0 <= len && len <= 13 {
            len as usize
        } else {
            MAX_WORD_LEN
        };
        let name: Vec<u8> = self.read(ptr as usize, n);
        self.write(here as usize + 5, name.as_slice());
        let ghost m3 = self.mem();
        assert(m3.len() == old(self).mem().len());
        let end: i32 = align(here + 5 + n as i32);
        self.set_here(end);
        self.set_latest(here);
    }

    /// The newest visible entry whose name has `len` bytes, of which those
    /// that an entry stores lie at address `ptr`; 0 if there is none.
    pub fn find_at(&self, len: i32, ptr: i32) -> (w: i32)
        requires
            self.dict_ok(),
            0 <= len <= 31 ==> in_bounds(self.mem().len(), ptr as int, stored_max(len as int)),
        ensures
            w == lookup(
                self.mem(),
                latest_of(self.mem()),
                here_of(self.mem()),
                len as int,
                self.mem().subrange(ptr as int, ptr + stored_max(len as int)),
            ),
    {
        if len < 0 || len > 31 {
            proof {
                lemma_lookup_none(
                    self.mem(),
                    latest_of(self.mem()),
                    here_of(self.mem()),
                    len as int,
                    self.mem().subrange(ptr as int, ptr + stored_max(len as int)),
                );
            }
            return 0;
        }
        let n: usize = if len as usize <= MAX_WORD_LEN {
            len as usize
        } else {
            MAX_WORD_LEN
        };
        let key: Vec<u8> = self.read(ptr as usize, n);
        self.find_key(len as usize, key.as_slice())
    }

    /// Parses the `len` bytes at address `caddr` as a number in the radix
    /// that the base register holds. See `parse_number`. No bytes give the
    /// value 0.
    pub fn number_at(&self, len: i32, caddr: i32) -> (r: (i32, i32))
        requires
            self.wf(),
            magnitude(text_at(self.mem(), caddr as int, len as int)).len() > 0 ==> 2 <= self.reg(
                mmap::BASE,
            ) <= 36,
            0 < len ==> in_bounds(self.mem().len(), caddr as int, len as int),
        ensures
            r.0 == number_of(text_at(self.mem(), caddr as int, len as int), self.reg(mmap::BASE)).0,
            r.1 == number_of(text_at(self.mem(), caddr as int, len as int), self.reg(mmap::BASE)).1,
    {
        let base: i32 = self.base();
        if len <= 0 {
            let none: Vec<u8> = Vec::new();
            return parse_number(none.as_slice(), base);
        }
        let text: Vec<u8> = self.read(caddr as usize, len as usize);
        parse_number(text.as_slice(), base)
    }
}

/// The `len` bytes of the arena from address `ptr` on; none where `len` is
/// not positive.
pub open spec fn text_at(mem: Seq<u8>, ptr: int, len: int) -> Seq<u8> {
    if len <= 0 {
        Seq::empty()
    } else {
        mem.subrange(ptr, ptr + len)
    }
}

/// A name whose length no entry can declare is the name of no entry.
pub proof fn lemma_lookup_none(mem: Seq<u8>, w: int, bound: int, qlen: int, key: Seq<u8>)
    requires
        qlen < 0 || qlen > 31,
    ensures
        lookup(mem, w, bound, qlen, key) == 0,
    decreases w,
{
    if w != 0 && crate::dictionary::entry_ok(mem, w, bound) {
        lemma_flag_bits(mem[w + 4]);
        lemma_lookup_none(mem, crate::dictionary::link(mem, w), w, qlen, key);
    }
}

/// The arena after `create` made a bare header at the free-space pointer:
/// the link field, the length byte, which holds `len` cut to a byte, and the
/// first bytes of the name, copied from address `ptr`. The free-space
/// pointer is the next cell boundary, and the header is the newest entry.
pub open spec fn created(mem: Seq<u8>, len: int, ptr: int) -> Seq<u8> {
    let w = here_of(mem);
    let n = clipped(len);
    let m1 = store_cell(mem, w, latest_of(mem));
    let m2 = store_byte(m1, w + 4, (len % 256) as u8);
    let m3 = store_bytes(m2, w + 5, m2.subrange(ptr, ptr + n));
    let m4 = store_cell(m3, mmap::HERE as int, aligned(w + 5 + n));
    store_cell(m4, mmap::LATEST as int, w)
}

/// Whether the name of `len` bytes at `ptr` is one that `create` makes a
/// word of: its length fits the length field, and it lies in the arena,
/// above the register file and apart from the five bytes at the free-space
/// pointer that the header starts with.
pub open spec fn nameable(mem: Seq<u8>, len: int, ptr: int) -> bool {
    &&& 0 <= len <= 31
    &&& mmap::DICT <= ptr
    &&& ptr + len <= mem.len()
    &&& ptr + len <= here_of(mem) || here_of(mem) + 5 <= ptr
}

/// A bare header that was created for a name that can be a word's is a new
/// entry of the dictionary under that name.
#[verifier::rlimit(100)]
pub proof fn lemma_created(mem: Seq<u8>, len: int, ptr: int)
    requires
        can_create(mem, len, ptr),
        nameable(mem, len, ptr),
        mem.len() <= MAX_MEMORY,
    ensures
        added(mem, created(mem, len, ptr), here_of(mem), mem.subrange(ptr, ptr + len), 0),
{
    let w = here_of(mem);
    let n = clipped(len);
    let name = mem.subrange(ptr, ptr + len);
    crate::cells::lemma_cell_range(mem, mmap::LATEST as int);
    let m1 = store_cell(mem, w, latest_of(mem));
    let m2 = store_byte(m1, w + 4, (len % 256) as u8);
    let m3 = store_bytes(m2, w + 5, m2.subrange(ptr, ptr + n));
    let m4 = store_cell(m3, mmap::HERE as int, aligned(w + 5 + n));
    let post = store_cell(m4, mmap::LATEST as int, w);
    let end = aligned(w + 5 + n);
    assert(written(mem, m1, w, end));
    assert(written(m1, m2, w, end));
    assert(written(m2, m3, w, end));
    assert(written(m3, m4, w, end));
    crate::writer::lemma_entry_frame(mem, m1, m2, m3, m4, post, w, end);
    crate::cells::lemma_cell_round_trip(mem, w, latest_of(mem));
    crate::cells::lemma_cell_round_trip(m3, mmap::HERE as int, end);
    crate::cells::lemma_cell_round_trip(m4, mmap::LATEST as int, w);
    assert(here_of(post) == end) by {
        assert(cell_at(post, mmap::HERE as int) == cell_at(m4, mmap::HERE as int));
    }
    assert(link(post, w) == latest_of(mem)) by {
        assert(cell_at(m2, w) == cell_at(m1, w));
        assert(cell_at(m3, w) == cell_at(m2, w));
        assert(cell_at(m4, w) == cell_at(m3, w));
        assert(cell_at(post, w) == cell_at(m4, w));
    }
    assert(key_of(name) =~= mem.subrange(ptr, ptr + n));
    assert(m2.subrange(ptr, ptr + n) =~= mem.subrange(ptr, ptr + n));
    assert(m3.subrange(w + 5, w + 5 + n) =~= key_of(name));
    assert(post.subrange(w + 5, w + 5 + n) =~= m3.subrange(w + 5, w + 5 + n));
    let b = (len % 256) as u8;
    assert(b | 0 == b) by (bit_vector);
    assert(post[w + 4] == b) by {
        assert(m2[w + 4] == b);
        assert(m3[w + 4] == m2[w + 4]);
        assert(m4[w + 4] == m3[w + 4]);
    }
    crate::writer::lemma_added(mem, post, w, name, 0);
}

/// What `create` needs of the arena when the name has `len` bytes at `ptr`:
/// room for the header at the free-space pointer, which lies in the
/// dictionary region, and the stored part of the name inside the arena.
pub open spec fn can_create(mem: Seq<u8>, len: int, ptr: int) -> bool {
    &&& mmap::DICT <= here_of(mem)
    &&& here_of(mem) + 5 + clipped(len) <= mem.len()
    &&& in_bounds(mem.len(), ptr, clipped(len))
}

/// ( value -- ): appends the newest value of the parameter stack to the
/// dictionary as one cell.
pub fn comma(vm: &mut ForthVM)
    requires
        old(vm).wf(),
        can_pop(old(vm).mem(), 1),
        in_bounds(old(vm).mem().len(), here_of(old(vm).mem()), 4),
    ensures
        final(vm).wf(),
        final(vm).mem() == with_cell(popped(old(vm).mem()), picked(old(vm).mem(), 0)),
        final(vm).names() == old(vm).names(),
{
    proof {
        lemma_popped(old(vm).mem());
    }
    let value: i32 = vm.pop_i32();
    assert(here_of(vm.mem()) == here_of(old(vm).mem()));
    vm.compile_cell(value);
}

/// ( c-addr len -- ): makes a bare header for the name of `len` bytes at
/// `c-addr`: link field, length byte and stored name, without a code field.
pub fn create(vm: &mut ForthVM)
    requires
        old(vm).wf(),
        can_pop(old(vm).mem(), 2),
        can_create(popped(popped(old(vm).mem())), picked(old(vm).mem(), 0), picked(old(vm).mem(), 1)),
    ensures
        final(vm).wf(),
        final(vm).mem() == created(
            popped(popped(old(vm).mem())),
            picked(old(vm).mem(), 0),
            picked(old(vm).mem(), 1),
        ),
        final(vm).names() == old(vm).names(),
{
    proof {
        lemma_two_pops(old(vm).mem());
    }
    let len: i32 = vm.pop_i32();
    let ptr: i32 = vm.pop_i32();
    vm.create_header(len, ptr);
}

/// Taking two values off the parameter stack gives the two newest values,
/// moves the top register two cells up and changes nothing else.
pub proof fn lemma_two_pops(mem: Seq<u8>)
    requires
        can_pop(mem, 2),
        mem.len() <= i32::MAX - 8,
    ensures
        can_pop(popped(mem), 1),
        picked(popped(mem), 0) == picked(mem, 1),
        dsp_of(popped(popped(mem))) == dsp_of(mem) + 8,
        same_but_stack(mem, popped(popped(mem)), mmap::DSP as int),
{
    lemma_popped(mem);
    lemma_popped(popped(mem));
    let t = dsp_of(mem);
    assert(cell_at(popped(mem), t + 8) == cell_at(mem, t + 8));
}

/// ( c-addr len -- addr ): looks up the name of `len` bytes at `c-addr` and
/// leaves the address of its entry, 0 if there is none.
pub fn find(vm: &mut ForthVM)
    requires
        old(vm).dict_ok(),
        can_pop(old(vm).mem(), 2),
        can_push(popped(popped(old(vm).mem()))),
        0 <= picked(old(vm).mem(), 0) <= 31 ==> in_bounds(
            old(vm).mem().len(),
            picked(old(vm).mem(), 1),
            stored_max(picked(old(vm).mem(), 0)),
        ),
    ensures
        final(vm).wf(),
        final(vm).mem() == pushed(
            popped(popped(old(vm).mem())),
            lookup(
                popped(popped(old(vm).mem())),
                latest_of(old(vm).mem()),
                here_of(old(vm).mem()),
                picked(old(vm).mem(), 0),
                popped(popped(old(vm).mem())).subrange(
                    picked(old(vm).mem(), 1),
                    picked(old(vm).mem(), 1) + stored_max(picked(old(vm).mem(), 0)),
                ),
            ),
        ),
        final(vm).names() == old(vm).names(),
{
    proof {
        lemma_two_pops(old(vm).mem());
    }
    let len: i32 = vm.pop_i32();
    let ptr: i32 = vm.pop_i32();
    proof {
        let pre = old(vm).mem();
        assert(here_of(vm.mem()) == here_of(pre));
        assert(latest_of(vm.mem()) == latest_of(pre));
        crate::dictionary::lemma_append_frame(pre, vm.mem());
    }
    let w: i32 = vm.find_at(len, ptr);
    vm.push_i32(w);
}

/// ( c-addr len -- value rest ): parses the text of `len` bytes at `c-addr`
/// as a number in the current radix. Leaves the value and 0, or 0 and the
/// count of the bytes that were left unparsed.
pub fn number(vm: &mut ForthVM)
    requires
        old(vm).wf(),
        can_pop(old(vm).mem(), 2),
        mmap::DICT <= dsp_of(old(vm).mem()) + 4,
        magnitude(
            text_at(popped(popped(old(vm).mem())), picked(old(vm).mem(), 1), picked(old(vm).mem(), 0)),
        ).len() > 0 ==> 2 <= old(vm).reg(mmap::BASE) <= 36,
        0 < picked(old(vm).mem(), 0) ==> in_bounds(
            old(vm).mem().len(),
            picked(old(vm).mem(), 1),
            picked(old(vm).mem(), 0),
        ),
    ensures
        final(vm).wf(),
        final(vm).mem() == numbered(old(vm).mem()),
        final(vm).names() == old(vm).names(),
{
    proof {
        lemma_two_pops(old(vm).mem());
    }
    let len: i32 = vm.pop_i32();
    let adr: i32 = vm.pop_i32();
    proof {
        let pre = old(vm).mem();
        assert(cell_at(vm.mem(), mmap::BASE as int) == cell_at(pre, mmap::BASE as int));
    }
    let r: (i32, i32) = vm.number_at(len, adr);
    proof {
        lemma_pushed(vm.mem(), r.0 as int);
    }
    vm.push_i32(r.0);
    vm.push_i32(r.1);
}

/// The arena after `number` ran: the text's address and length are replaced
/// by what parsing the text gives.
pub open spec fn numbered(mem: Seq<u8>) -> Seq<u8> {
    let taken = popped(popped(mem));
    let r = number_of(
        text_at(taken, picked(mem, 1), picked(mem, 0)),
        cell_at(mem, mmap::BASE as int),
    );
    pushed(pushed(taken, r.0), r.1)
}

/// Whether the two cells at the top of the parameter stack can be written
/// without touching the scratch area or the input line buffer.
pub open spec fn stack_apart(mem: Seq<u8>) -> bool {
    &&& mmap::DICT <= dsp_of(mem) - 4
    &&& dsp_of(mem) + 4 <= mem.len()
    &&& (dsp_of(mem) + 4 <= scratch_of(mem) || buffer_of(mem) + 1 + MAX_LINE <= dsp_of(mem) - 4)
}

/// A push on a stack that lies apart from the input line buffer leaves the
/// input at hand as it is.
pub proof fn lemma_push_apart(mem: Seq<u8>, value: int)
    requires
        can_push(mem),
        token_ok(mem),
        mem.len() <= i32::MAX,
        i32::MIN <= value <= i32::MAX,
        dsp_of(mem) + 4 <= scratch_of(mem) || buffer_of(mem) + 1 + MAX_LINE <= dsp_of(mem),
    ensures
        token_ok(pushed(mem, value)),
        buffered(pushed(mem, value)) == buffered(mem),
        buffer_of(pushed(mem, value)) == buffer_of(mem),
        scratch_of(pushed(mem, value)) == scratch_of(mem),
        dsp_of(pushed(mem, value)) == dsp_of(mem) - 4,
        pushed(mem, value).len() == mem.len(),
{
    lemma_pushed(mem, value);
    let post = pushed(mem, value);
    assert(cell_at(post, mmap::INPUT_BUFFER as int) == cell_at(mem, mmap::INPUT_BUFFER as int));
    assert(cell_at(post, mmap::INPUT_BUFFER_IN as int) == cell_at(
        mem,
        mmap::INPUT_BUFFER_IN as int,
    ));
    assert(cell_at(post, mmap::IN_STREAM as int) == cell_at(mem, mmap::IN_STREAM as int));
    assert(post[buffer_of(mem)] == mem[buffer_of(mem)]);
    assert(buffered(post) =~= buffered(mem));
}

/// ( -- c ): reads the next byte of input and pushes it. See `ForthVM::key`.
pub fn key(vm: &mut ForthVM, input: &mut Option<InputStream>, terminal: bool) -> (c: u8)
    requires
        old(vm).wf(),
        token_ok(old(vm).mem()),
        stack_apart(old(vm).mem()),
    ensures
        final(vm).wf(),
        final(vm).names() == old(vm).names(),
        c == if pending(old(vm).mem(), *old(input)).len() > 0 {
            pending(old(vm).mem(), *old(input))[0]
        } else {
            NEWLINE
        },
        exists|mid: Seq<u8>|
            same_but_input(old(vm).mem(), mid) && #[trigger] pushed(mid, c as int) == final(
                vm
            ).mem(),
        pending(final(vm).mem(), *final(input)) == if pending(old(vm).mem(), *old(input)).len()
            > 0 {
            pending(old(vm).mem(), *old(input)).skip(1)
        } else {
            Seq::empty()
        },
        if pending(old(vm).mem(), *old(input)).len() > 0 {
            stream_terminal(*final(input)) == stream_terminal(*old(input)) && final(
                input
            ).is_some() == old(input).is_some()
        } else {
            final(input).is_some() && stream_terminal(*final(input)) == terminal
        },
{
    let c: u8 = vm.key(input, terminal);
    let ghost mid = vm.mem();
    proof {
        let pre = old(vm).mem();
        assert(cell_at(mid, mmap::DSP as int) == cell_at(pre, mmap::DSP as int));
        assert(cell_at(mid, mmap::IN_STREAM as int) == cell_at(pre, mmap::IN_STREAM as int));
        assert(cell_at(mid, mmap::INPUT_BUFFER as int) == cell_at(pre, mmap::INPUT_BUFFER as int));
        lemma_push_apart(mid, c as int);
        assert(pending(pushed(mid, c as int), *input) =~= pending(mid, *input));
    }
    vm.push_i32(c as i32);
    assert(pushed(mid, c as int) == vm.mem());
    c
}

/// ( -- c-addr len ): reads the next token and pushes its address and
/// length. Where there is no token, or none that fits the scratch area,
/// nothing is pushed. See `ForthVM::word`.
pub fn word(vm: &mut ForthVM, input: &mut Option<InputStream>, terminal: bool) -> (r: WordOutcome)
    requires
        old(vm).wf(),
        token_ok(old(vm).mem()),
        stack_apart(old(vm).mem()),
    ensures
        final(vm).wf(),
        final(vm).names() == old(vm).names(),
        exists|mid: Seq<u8>|
            #![trigger word_read(
                old(vm).mem(),
                pending(old(vm).mem(), *old(input)),
                mid,
                pending(final(vm).mem(), *final(input)),
                r,
            )]
            {
                &&& word_read(
                    old(vm).mem(),
                    pending(old(vm).mem(), *old(input)),
                    mid,
                    pending(final(vm).mem(), *final(input)),
                    r,
                )
                &&& final(vm).mem() == match r {
                    WordOutcome::Token { len, addr } => pushed(
                        pushed(mid, addr as int),
                        len as int,
                    ),
                    _ => mid,
                }
            },
        if runs_out(pending(old(vm).mem(), *old(input))) {
            final(input).is_some() && stream_terminal(*final(input)) == terminal
        } else {
            stream_terminal(*final(input)) == stream_terminal(*old(input)) && final(
                input
            ).is_some() == old(input).is_some()
        },
{
    let r: WordOutcome = vm.word(input, terminal);
    let ghost mid = vm.mem();
    match r {
        WordOutcome::Token { len, addr } => {
            proof {
                lemma_word_keeps_stack(old(vm).mem(), mid, len as int);
                lemma_push_apart(mid, addr as int);
                let m1 = pushed(mid, addr as int);
                lemma_push_apart(m1, len as int);
                assert(pending(pushed(m1, len as int), *input) =~= pending(mid, *input));
            }
            vm.push_i32(addr);
            vm.push_i32(len);
        },
        _ => {},
    }
    r
}

/// Reading a token leaves the registers of the stack and of the input areas
/// as they are.
pub proof fn lemma_word_keeps_stack(pre: Seq<u8>, mid: Seq<u8>, n: int)
    requires
        token_ok(pre),
        stack_apart(pre),
        same_but_token(pre, mid, n),
        0 <= n <= scratch_room(pre),
    ensures
        dsp_of(mid) == dsp_of(pre),
        scratch_of(mid) == scratch_of(pre),
        buffer_of(mid) == buffer_of(pre),
        stack_apart(mid),
{
    assert(cell_at(mid, mmap::DSP as int) == cell_at(pre, mmap::DSP as int));
    assert(cell_at(mid, mmap::IN_STREAM as int) == cell_at(pre, mmap::IN_STREAM as int));
    assert(cell_at(mid, mmap::INPUT_BUFFER as int) == cell_at(pre, mmap::INPUT_BUFFER as int));
}

/// ( -- c ): reads the next token and pushes its first byte. Where there is
/// no token, or none that fits the scratch area, nothing is pushed.
pub fn read_char(vm: &mut ForthVM, input: &mut Option<InputStream>, terminal: bool) -> (r:
    Option<u8>)
    requires
        old(vm).wf(),
        token_ok(old(vm).mem()),
        stack_apart(old(vm).mem()),
    ensures
        final(vm).wf(),
        final(vm).names() == old(vm).names(),
        ({
            let p = pending(old(vm).mem(), *old(input));
            let s = skipped(p, false) as int;
            match r {
                Some(c) => s < p.len() && c == p[s] && token_len(p.skip(s)) <= scratch_room(
                    old(vm).mem(),
                ),
                None => s == p.len() || token_len(p.skip(s)) > scratch_room(old(vm).mem()),
            }
        }),
        exists|mid: Seq<u8>, outcome: WordOutcome|
            #![trigger word_read(
                old(vm).mem(),
                pending(old(vm).mem(), *old(input)),
                mid,
                pending(final(vm).mem(), *final(input)),
                outcome,
            )]
            {
                &&& word_read(
                    old(vm).mem(),
                    pending(old(vm).mem(), *old(input)),
                    mid,
                    pending(final(vm).mem(), *final(input)),
                    outcome,
                )
                &&& final(vm).mem() == match r {
                    Some(c) => pushed(mid, c as int),
                    None => mid,
                }
            },
        if runs_out(pending(old(vm).mem(), *old(input))) {
            final(input).is_some() && stream_terminal(*final(input)) == terminal
        } else {
            stream_terminal(*final(input)) == stream_terminal(*old(input)) && final(
                input
            ).is_some() == old(input).is_some()
        },
{
    let outcome: WordOutcome = vm.word(input, terminal);
    let ghost mid = vm.mem();
    let ghost p = pending(old(vm).mem(), *old(input));
    let ghost s = skipped(p, false) as int;
    match outcome {
        WordOutcome::Token { len, addr } => {
            proof {
                let pre = old(vm).mem();
                lemma_word_keeps_stack(pre, mid, len as int);
                assert(cell_at(mid, mmap::DSP as int) == cell_at(pre, mmap::DSP as int));
                crate::input::lemma_skipped_stop(p, false);
                crate::input::lemma_token_bound(p.skip(s));
                assert(p.skip(s)[0] == p[s]);
                assert(token_len(p.skip(s)) >= 1);
                assert(mid.subrange(addr as int, addr + len)[0] == p.subrange(s, s + len)[0]);
                assert(p.subrange(s, s + len)[0] == p[s]);
            }
            let c: u8 = vm.read_u8(addr);
            proof {
                lemma_push_apart(mid, c as int);
                assert(pending(pushed(mid, c as int), *input) =~= pending(mid, *input));
            }
            vm.push_i32(c as i32);
            Some(c)
        },
        _ => None,
    }
}

/// ( value -- ): takes the newest value off the parameter stack and returns
/// the character to print: the one whose code is the value's low byte.
pub fn emit_char(vm: &mut ForthVM) -> (c: char)
    requires
        old(vm).wf(),
        can_pop(old(vm).mem(), 1),
    ensures
        final(vm).wf(),
        c as int == picked(old(vm).mem(), 0) % 256,
        final(vm).mem() == popped(old(vm).mem()),
        final(vm).names() == old(vm).names(),
{
    let value: i32 = vm.pop_i32();
    let low: i64 = (value as i64 + 0x8000_0000) % 256;
    (low as u8) as char
}

/// ( value -- ): takes the newest value off the parameter stack and returns
/// it, for printing.
pub fn print_top_value(vm: &mut ForthVM) -> (value: i32)
    requires
        old(vm).wf(),
        can_pop(old(vm).mem(), 1),
    ensures
        final(vm).wf(),
        value == picked(old(vm).mem(), 0),
        final(vm).mem() == popped(old(vm).mem()),
        final(vm).names() == old(vm).names(),
{
    vm.pop_i32()
}

/// ( c-addr len -- ): takes a text's address and length off the parameter
/// stack and returns the text, for printing.
pub fn tell(vm: &mut ForthVM) -> (text: Vec<u8>)
    requires
        old(vm).wf(),
        can_pop(old(vm).mem(), 2),
        0 < picked(old(vm).mem(), 0) ==> in_bounds(
            old(vm).mem().len(),
            picked(old(vm).mem(), 1),
            picked(old(vm).mem(), 0),
        ),
    ensures
        final(vm).wf(),
        final(vm).mem() == popped(popped(old(vm).mem())),
        text@ == text_at(
            popped(popped(old(vm).mem())),
            picked(old(vm).mem(), 1),
            picked(old(vm).mem(), 0),
        ),
        final(vm).names() == old(vm).names(),
{
    proof {
        lemma_two_pops(old(vm).mem());
    }
    let len: i32 = vm.pop_i32();
    let buf_ptr: i32 = vm.pop_i32();
    make_string(vm, len, buf_ptr)
}

/// The text of `len` bytes at address `ptr`; it is empty where `len` is not
/// positive.
pub fn make_string(vm: &ForthVM, len: i32, ptr: i32) -> (text: Vec<u8>)
    requires
        0 < len ==> in_bounds(vm.mem().len(), ptr as int, len as int),
    ensures
        text@ == text_at(vm.mem(), ptr as int, len as int),
{
    if len <= 0 {
        Vec::new()
    } else {
        vm.read(ptr as usize, len as usize)
    }
}

} // verus!
