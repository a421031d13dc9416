//! The dictionary: an append-only, singly linked list of entries in the
//! arena, searched from the newest entry to the oldest.
//!
//! An entry at address `w` holds the address of the entry before it (one
//! cell), the length/flags byte, the first bytes of its name, padding up to
//! the next cell boundary, the code field (one cell) and the body.

use vstd::prelude::*;
use vstd::slice::slice_subrange;
use vstd::string::StringSliceAdditionalSpecFns;
use crate::cells::{cell_at, in_bounds};
use crate::forthvm::ForthVM;
use crate::{aligned, align, mmap, HIDDEN, LEN_MASK, MAX_WORD_LEN};

verus! {

/// Mask of the bits that name lookup compares with the length of a name: the
/// length and the hidden flag.
pub const NAME_MASK: u8 = 0x3f;

/// The length/flags byte of the entry at `w`.
pub open spec fn flags_of(mem: Seq<u8>, w: int) -> u8 {
    mem[w + 4]
}

/// The name length that the entry at `w` declares.
pub open spec fn name_len(mem: Seq<u8>, w: int) -> int {
    (flags_of(mem, w) & LEN_MASK) as int
}

/// The number of name bytes that the entry at `w` stores.
pub open spec fn stored_len(mem: Seq<u8>, w: int) -> int {
    if name_len(mem, w) <= MAX_WORD_LEN {
        name_len(mem, w)
    } else {
        MAX_WORD_LEN as int
    }
}

/// Whether name lookup passes over the entry at `w`.
pub open spec fn is_hidden(mem: Seq<u8>, w: int) -> bool {
    flags_of(mem, w) & HIDDEN != 0
}

/// The address of the entry that was the newest when the one at `w` was
/// made, 0 for the oldest entry.
pub open spec fn link(mem: Seq<u8>, w: int) -> int {
    cell_at(mem, w)
}

/// The address of the code field of the entry at `w`: the header's five
/// fixed bytes and the stored name, rounded up to a cell boundary.
pub open spec fn code_field(mem: Seq<u8>, w: int) -> int {
    aligned(w + 5 + stored_len(mem, w))
}

/// The value of the free-space pointer.
pub open spec fn here_of(mem: Seq<u8>) -> int {
    cell_at(mem, mmap::HERE as int)
}

/// The address of the newest entry.
pub open spec fn latest_of(mem: Seq<u8>) -> int {
    cell_at(mem, mmap::LATEST as int)
}

/// The part of a name that an entry stores and lookup compares.
pub open spec fn key_of(name: Seq<u8>) -> Seq<u8> {
    if name.len() <= MAX_WORD_LEN {
        name
    } else {
        name.take(MAX_WORD_LEN as int)
    }
}

/// The entry at `w` lies in the dictionary region, its header ends at or
/// before `bound`, and it links to a lower address.
pub open spec fn entry_ok(mem: Seq<u8>, w: int, bound: int) -> bool {
    &&& mmap::DICT <= w
    &&& w + 5 + stored_len(mem, w) <= bound
    &&& 0 <= link(mem, w) < w
}

/// Every entry that is reached from `w` is in order, down to the terminator:
/// the header of the entry at `w` ends at or before `bound`, and the header
/// of each older entry ends at or before the address of the next newer one.
pub open spec fn chain_ok(mem: Seq<u8>, w: int, bound: int) -> bool
    decreases w,
{
    w == 0 || (entry_ok(mem, w, bound) && chain_ok(mem, link(mem, w), w))
}

/// The addresses of the entries that are reached from `w`, newest first.
pub open spec fn chain(mem: Seq<u8>, w: int, bound: int) -> Seq<int>
    decreases w,
{
    if w != 0 && entry_ok(mem, w, bound) {
        seq![w] + chain(mem, link(mem, w), w)
    } else {
        Seq::empty()
    }
}

/// Whether the entry at `w` is visible under a name of `qlen` bytes whose
/// stored part is `key`. A name of more than 31 bytes names no word.
pub open spec fn entry_matches(mem: Seq<u8>, w: int, qlen: int, key: Seq<u8>) -> bool {
    &&& qlen <= LEN_MASK
    &&& (flags_of(mem, w) & NAME_MASK) as int == qlen
    &&& mem.subrange(w + 5, w + 5 + key.len()) == key
}

/// The newest entry among those reached from `w` that matches, 0 if none does.
pub open spec fn lookup(mem: Seq<u8>, w: int, bound: int, qlen: int, key: Seq<u8>) -> int
    decreases w,
{
    if w == 0 || !entry_ok(mem, w, bound) {
        0
    } else if entry_matches(mem, w, qlen, key) {
        w
    } else {
        lookup(mem, link(mem, w), w, qlen, key)
    }
}

/// The entry that the dictionary in `mem` holds under `name`, 0 if none.
pub open spec fn find_in(mem: Seq<u8>, name: Seq<u8>) -> int {
    lookup(mem, latest_of(mem), here_of(mem), name.len() as int, key_of(name))
}

/// The entries of the dictionary in `mem`, newest first.
pub open spec fn entries(mem: Seq<u8>) -> Seq<int> {
    chain(mem, latest_of(mem), here_of(mem))
}

/// The dictionary in `mem` is in order: its entries lie below the free-space
/// pointer, which lies inside the arena.
pub open spec fn dict_ok(mem: Seq<u8>) -> bool {
    &&& 0 <= here_of(mem) <= mem.len()
    &&& chain_ok(mem, latest_of(mem), here_of(mem))
}

pub proof fn lemma_flag_bits(b: u8)
    ensures
        b & LEN_MASK <= 31,
        b & NAME_MASK <= 63,
        b & HIDDEN == 0 ==> b & NAME_MASK == b & LEN_MASK,
        b & HIDDEN != 0 ==> b & NAME_MASK >= 32,
        (b ^ HIDDEN) & LEN_MASK == b & LEN_MASK,
        (b ^ crate::IMMEDIATE) & NAME_MASK == b & NAME_MASK,
        (b ^ HIDDEN) & HIDDEN != b & HIDDEN,
{
    assert(b & 0x1f <= 31) by (bit_vector);
    assert(b & 0x3f <= 63) by (bit_vector);
    assert(b & 0x20 == 0 ==> b & 0x3f == b & 0x1f) by (bit_vector);
    assert(b & 0x20 != 0 ==> b & 0x3f >= 32) by (bit_vector);
    assert((b ^ 0x20) & 0x1f == b & 0x1f) by (bit_vector);
    assert((b ^ 0x80) & 0x3f == b & 0x3f) by (bit_vector);
    assert((b ^ 0x20) & 0x20 != b & 0x20) by (bit_vector);
}

/// The bytes of the dictionary region below `bound` decide which entries are
/// reached from `w` and what every lookup among them gives.
pub proof fn lemma_chain_frame(m1: Seq<u8>, m2: Seq<u8>, w: int, bound: int)
    requires
        chain_ok(m1, w, bound),
        bound <= m1.len(),
        m1.len() == m2.len(),
        forall|i: int| mmap::DICT <= i < bound ==> m1[i] == m2[i],
    ensures
        chain_ok(m2, w, bound),
        chain(m2, w, bound) == chain(m1, w, bound),
        forall|qlen: int, key: Seq<u8>|
            key.len() <= stored_max(qlen) ==> #[trigger] lookup(m2, w, bound, qlen, key) == lookup(
                m1,
                w,
                bound,
                qlen,
                key,
            ),
    decreases w,
{
    if w != 0 {
        lemma_flag_bits(m1[w + 4]);
        assert(m1[w + 4] == m2[w + 4]);
        assert(link(m1, w) == link(m2, w));
        lemma_chain_frame(m1, m2, link(m1, w), w);
        assert forall|qlen: int, key: Seq<u8>| key.len() <= stored_max(qlen) implies #[trigger] lookup(
            m2,
            w,
            bound,
            qlen,
            key,
        ) == lookup(m1, w, bound, qlen, key) by {
            if qlen <= LEN_MASK && (flags_of(m1, w) & NAME_MASK) as int == qlen {
                assert(key.len() <= stored_len(m1, w));
                assert(m1.subrange(w + 5, w + 5 + key.len()) =~= m2.subrange(
                    w + 5,
                    w + 5 + key.len(),
                ));
            }
            assert(entry_ok(m2, w, bound));
            assert(entry_matches(m1, w, qlen, key) == entry_matches(m2, w, qlen, key));
            assert(lookup(m2, link(m1, w), w, qlen, key) == lookup(m1, link(m1, w), w, qlen, key));
        }
    }
}

/// A chain that is in order below one bound is the same chain below every
/// larger bound.
pub proof fn lemma_chain_bound(mem: Seq<u8>, w: int, b1: int, b2: int)
    requires
        chain_ok(mem, w, b1),
        b1 <= b2,
    ensures
        chain_ok(mem, w, b2),
        chain(mem, w, b2) == chain(mem, w, b1),
        forall|qlen: int, key: Seq<u8>| #[trigger]
            lookup(mem, w, b2, qlen, key) == lookup(mem, w, b1, qlen, key),
{
}

/// A dictionary stays what it was when only bytes at and above its free-space
/// pointer, or outside the dictionary region, change and the free-space
/// pointer does not move down.
pub proof fn lemma_append_frame(pre: Seq<u8>, post: Seq<u8>)
    requires
        dict_ok(pre),
        pre.len() == post.len(),
        latest_of(post) == latest_of(pre),
        here_of(pre) <= here_of(post) <= post.len(),
        forall|i: int| mmap::DICT <= i < here_of(pre) ==> post[i] == pre[i],
    ensures
        dict_ok(post),
        entries(post) == entries(pre),
        forall|qlen: int, key: Seq<u8>|
            key.len() <= stored_max(qlen) ==> #[trigger] lookup(
                post,
                latest_of(post),
                here_of(post),
                qlen,
                key,
            ) == lookup(pre, latest_of(pre), here_of(pre), qlen, key),
{
    let w = latest_of(pre);
    lemma_chain_frame(pre, post, w, here_of(pre));
    lemma_chain_bound(post, w, here_of(pre), here_of(post));
    assert forall|qlen: int, key: Seq<u8>| key.len() <= stored_max(qlen) implies #[trigger] lookup(
        post,
        latest_of(post),
        here_of(post),
        qlen,
        key,
    ) == lookup(pre, latest_of(pre), here_of(pre), qlen, key) by {
        assert(lookup(post, w, here_of(pre), qlen, key) == lookup(pre, w, here_of(pre), qlen, key));
    }
}

/// A dictionary that gets a new newest entry at its free-space pointer keeps
/// all its entries behind the new one, and a lookup gives the new entry where
/// it matches and what it gave before where it does not.
pub proof fn lemma_extend(pre: Seq<u8>, post: Seq<u8>, w: int)
    requires
        dict_ok(pre),
        pre.len() == post.len(),
        w == here_of(pre),
        mmap::DICT <= w,
        latest_of(post) == w,
        link(post, w) == latest_of(pre),
        w + 5 + stored_len(post, w) <= here_of(post) <= post.len(),
        forall|i: int| mmap::DICT <= i < w ==> post[i] == pre[i],
    ensures
        dict_ok(post),
        entries(post) == seq![w] + entries(pre),
        forall|qlen: int, key: Seq<u8>|
            key.len() <= stored_max(qlen) ==> #[trigger] lookup(
                post,
                latest_of(post),
                here_of(post),
                qlen,
                key,
            ) == if entry_matches(post, w, qlen, key) {
                w
            } else {
                lookup(pre, latest_of(pre), here_of(pre), qlen, key)
            },
{
    let p = latest_of(pre);
    lemma_chain_frame(pre, post, p, w);
    crate::cells::lemma_cell_range(pre, mmap::LATEST as int);
    assert(chain_ok(pre, p, w));
    assert(p == 0 || entry_ok(pre, p, w));
    assert(0 <= p < w);
    assert(entry_ok(post, w, here_of(post)));
    assert forall|qlen: int, key: Seq<u8>| key.len() <= stored_max(qlen) implies #[trigger] lookup(
        post,
        latest_of(post),
        here_of(post),
        qlen,
        key,
    ) == if entry_matches(post, w, qlen, key) {
        w
    } else {
        lookup(pre, latest_of(pre), here_of(pre), qlen, key)
    } by {
        assert(lookup(post, p, w, qlen, key) == lookup(pre, p, w, qlen, key));
    }
}

/// What a lookup gives is 0 or the address of an entry of the chain that
/// matches.
pub proof fn lemma_lookup_result(mem: Seq<u8>, w: int, bound: int, qlen: int, key: Seq<u8>)
    ensures
        ({
            let r = lookup(mem, w, bound, qlen, key);
            r != 0 ==> {
                &&& entry_ok(mem, r, bound)
                &&& entry_matches(mem, r, qlen, key)
                &&& chain(mem, w, bound).contains(r)
            }
        }),
    decreases w,
{
    if w != 0 && entry_ok(mem, w, bound) {
        let rest = chain(mem, link(mem, w), w);
        if entry_matches(mem, w, qlen, key) {
            assert(chain(mem, w, bound)[0] == w);
        } else {
            lemma_lookup_result(mem, link(mem, w), w, qlen, key);
            let r = lookup(mem, w, bound, qlen, key);
            if r != 0 {
                let i = choose|i: int| 0 <= i < rest.len() && rest[i] == r;
                assert(chain(mem, w, bound)[i + 1] == r);
            }
        }
    }
}

/// The most bytes that the stored part of a name of `qlen` bytes has.
pub open spec fn stored_max(qlen: int) -> int {
    if qlen <= MAX_WORD_LEN {
        qlen
    } else {
        MAX_WORD_LEN as int
    }
}

impl ForthVM {
    /// The dictionary of this instance is in order.
    pub open spec fn dict_ok(&self) -> bool {
        self.wf() && dict_ok(self.mem())
    }

    /// The address of the code field of the entry at `idx`.
    pub fn cfa(&self, idx: i32) -> (r: i32)
        requires
            self.wf(),
            in_bounds(self.mem().len(), idx + 4, 1),
        ensures
            r == code_field(self.mem(), idx as int),
            r == aligned(idx + 5 + stored_len(self.mem(), idx as int)),
    {
        let b: u8 = self.read_u8(idx + 4);
        let len: u8 = b & LEN_MASK;
        proof {
            lemma_flag_bits(b);
        }
        let n: i32 = if len <= 13 {
            len as i32
        } else {
            13
        };
        align(idx + n + 5)
    }

    /// Whether the bytes from address `at` on are those of `key`.
    pub fn bytes_at_equal(&self, at: usize, key: &[u8]) -> (r: bool)
        requires
            at + key@.len() <= self.mem().len(),
        ensures
            r == (self.mem().subrange(at as int, at + key@.len()) == key@),
    {
        let n: usize = key.len();
        let total: usize = self.memory_size();
        let mut k: usize = 0;
        while k < n
            invariant
                n == key@.len(),
                k <= n,
                at + n <= total,
                total == self.mem().len(),
                forall|j: int| 0 <= j < k ==> self.mem()[at + j] == key@[j],
            decreases n - k,
        {
            if self.byte(at + k) != key[k] {
                assert(self.mem().subrange(at as int, at + n)[k as int] != key@[k as int]);
                return false;
            }
            k = k + 1;
        }
        assert(self.mem().subrange(at as int, at + n) =~= key@);
        true
    }

    /// The newest entry that is visible under a name of `qlen` bytes whose
    /// stored part is `key`, 0 if there is none.
    pub fn find_key(&self, qlen: usize, key: &[u8]) -> (r: i32)
        requires
            self.dict_ok(),
            key@.len() <= stored_max(qlen as int),
        ensures
            r == lookup(
                self.mem(),
                latest_of(self.mem()),
                here_of(self.mem()),
                qlen as int,
                key@,
            ),
    {
        let mut bound: i32 = self.here();
        let mut w: i32 = self.latest();
        while w != 0
            invariant
                self.dict_ok(),
                bound <= self.mem().len(),
                key@.len() <= stored_max(qlen as int),
                chain_ok(self.mem(), w as int, bound as int),
                lookup(
                    self.mem(),
                    latest_of(self.mem()),
                    here_of(self.mem()),
                    qlen as int,
                    key@,
                ) == lookup(self.mem(), w as int, bound as int, qlen as int, key@),
            decreases w,
        {
            let b: u8 = self.read_u8(w + 4);
            proof {
                lemma_flag_bits(b);
            }
            if qlen <= 31 && (b & NAME_MASK) as usize == qlen {
                if self.bytes_at_equal((w + 5) as usize, key) {
                    return w;
                }
            }
            bound = w;
            w = self.read_i32(w);
        }
        0
    }

    /// The newest visible entry named `name`, if there is one.
    pub fn find(&self, name: &str) -> (r: Option<i32>)
        requires
            self.dict_ok(),
        ensures
            r == found(find_in(self.mem(), name.spec_bytes())),
    {
        let bytes = name.as_bytes();
        let w: i32 = self.find_bytes(bytes);
        if w == 0 {
            None
        } else {
            Some(w)
        }
    }

    /// The newest visible entry whose name is `name`, 0 if there is none.
    pub fn find_bytes(&self, name: &[u8]) -> (r: i32)
        requires
            self.dict_ok(),
        ensures
            r == find_in(self.mem(), name@),
    {
        let qlen: usize = name.len();
        if qlen <= MAX_WORD_LEN {
            self.find_key(qlen, name)
        } else {
            let key = slice_subrange(name, 0, MAX_WORD_LEN);
            assert(key@ == name@.take(MAX_WORD_LEN as int));
            self.find_key(qlen, key)
        }
    }

    /// Whether the dictionary is in order, so that it can be searched and
    /// extended.
    pub fn dictionary_ok(&self) -> (r: bool)
        requires
            self.wf(),
        ensures
            r == self.dict_ok(),
    {
        let mut bound: i32 = self.here();
        let total: usize = self.memory_size();
        if bound < 0 || bound as usize > total {
            return false;
        }
        let mut w: i32 = self.latest();
        while w != 0
            invariant
                self.wf(),
                total == self.mem().len(),
                0 <= bound <= total,
                chain_ok(self.mem(), latest_of(self.mem()), here_of(self.mem())) == chain_ok(
                    self.mem(),
                    w as int,
                    bound as int,
                ),
            decreases w,
        {
            if w < 144 || w > bound - 5 {
                return false;
            }
            let b: u8 = self.read_u8(w + 4);
            proof {
                lemma_flag_bits(b);
            }
            let len: u8 = b & LEN_MASK;
            let n: i32 = if len <= 13 {
                len as i32
            } else {
                13
            };
            if w + 5 + n > bound {
                return false;
            }
            let prev: i32 = self.read_i32(w);
            if prev < 0 || prev >= w {
                return false;
            }
            bound = w;
            w = prev;
        }
        true
    }
}

/// An address as lookup reports it: none for the terminator.
pub open spec fn found(w: int) -> Option<i32> {
    if w == 0 {
        None
    } else {
        Some(w as i32)
    }
}

} // verus!
