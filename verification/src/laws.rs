//! What holds of the dictionary whatever is defined in it.

use vstd::prelude::*;
use crate::dictionary::{
    chain, chain_ok, code_field, dict_ok, entries, entry_matches, entry_ok, find_in, flags_of,
    here_of, is_hidden, key_of, latest_of, lemma_chain_frame, lemma_flag_bits, link, lookup,
    stored_len, stored_max,
};
use crate::cells::cell_at;
use crate::vocabulary::newest;
use crate::words::toggled;
use crate::writer::{added, entry_shaped, shaped, well_named, word_holds};
use crate::{aligned, mmap, HIDDEN, IMMEDIATE, LEN_MASK, MAX_WORD_LEN};

verus! {

/// A word that was defined under a name that can be told, and not hidden,
/// is found under that name at the address of its entry, and its code field
/// lies behind the five fixed bytes of its header and the stored part of its
/// name, on the next cell boundary.
pub proof fn law_defined_word_is_found(
    pre: Seq<u8>,
    post: Seq<u8>,
    w: int,
    name: Seq<u8>,
    flags: u8,
)
    requires
        dict_ok(pre),
        added(pre, post, w, name, flags),
        well_named(name.len() as int, flags),
        flags & HIDDEN == 0,
        here_of(post) <= post.len(),
    ensures
        find_in(post, name) == w,
        code_field(post, w) == aligned(
            w + 5 + if name.len() <= MAX_WORD_LEN {
                name.len() as int
            } else {
                MAX_WORD_LEN as int
            },
        ),
{
    reveal(added);
}

/// The dictionary is last in, first out: of two words that were defined one
/// after the other, the second is the newest entry, and its link field holds
/// the address of the first.
pub proof fn law_newest_first(
    m0: Seq<u8>,
    m1: Seq<u8>,
    m2: Seq<u8>,
    a: int,
    name_a: Seq<u8>,
    flags_a: u8,
    b: int,
    name_b: Seq<u8>,
    flags_b: u8,
)
    requires
        added(m0, m1, a, name_a, flags_a),
        added(m1, m2, b, name_b, flags_b),
    ensures
        latest_of(m2) == b,
        link(m2, b) == a,
{
    reveal(added);
}

/// An entry of a chain lies in the dictionary region, at or below the start
/// of the chain, and its header ends at or before the chain's bound.
pub proof fn lemma_chain_member(mem: Seq<u8>, v: int, bound: int, w: int)
    requires
        chain_ok(mem, v, bound),
        chain(mem, v, bound).contains(w),
    ensures
        entry_ok(mem, w, bound),
        w <= v,
    decreases v,
{
    if v != 0 {
        let rest = chain(mem, link(mem, v), v);
        let i = choose|i: int| 0 <= i < chain(mem, v, bound).len() && chain(mem, v, bound)[i] == w;
        if i > 0 {
            assert(rest[i - 1] == w);
            lemma_chain_member(mem, link(mem, v), v, w);
        }
    }
}

/// Toggling a flag of an entry that is reached from `v` leaves the chain
/// from `v` as it is.
pub proof fn lemma_toggle_chain(mem: Seq<u8>, v: int, bound: int, w: int, flag: u8)
    requires
        chain_ok(mem, v, bound),
        bound <= mem.len(),
        chain(mem, v, bound).contains(w),
        flag == HIDDEN || flag == IMMEDIATE,
    ensures
        chain_ok(toggled(mem, w, flag), v, bound),
        chain(toggled(mem, w, flag), v, bound) == chain(mem, v, bound),
    decreases v,
{
    let post = toggled(mem, w, flag);
    lemma_chain_member(mem, v, bound, w);
    lemma_flag_bits(mem[w + 4]);
    assert((mem[w + 4] ^ flag) & LEN_MASK == mem[w + 4] & LEN_MASK) by {
        let x = mem[w + 4];
        assert((x ^ 0x20) & 0x1f == x & 0x1f) by (bit_vector);
        assert((x ^ 0x80) & 0x1f == x & 0x1f) by (bit_vector);
    }
    if v == w {
        assert(link(post, w) == link(mem, w));
        lemma_chain_frame(mem, post, link(mem, w), w);
    } else {
        let rest = chain(mem, link(mem, v), v);
        let i = choose|i: int| 0 <= i < chain(mem, v, bound).len() && chain(mem, v, bound)[i] == w;
        assert(rest[i - 1] == w);
        lemma_chain_member(mem, link(mem, v), v, w);
        assert(post[v + 4] == mem[v + 4]);
        assert(link(post, v) == link(mem, v));
        lemma_toggle_chain(mem, link(mem, v), v, w, flag);
    }
}

/// After the visible entry at `w` was hidden, no lookup among the entries
/// reached from `v` gives `w`: a lookup that gave `w` gives the next older
/// entry that matches, and every other lookup gives what it gave.
pub proof fn lemma_hide_lookup(
    mem: Seq<u8>,
    v: int,
    bound: int,
    w: int,
    qlen: int,
    key: Seq<u8>,
)
    requires
        chain_ok(mem, v, bound),
        bound <= mem.len(),
        chain(mem, v, bound).contains(w),
        !is_hidden(mem, w),
        key.len() <= stored_max(qlen),
    ensures
        lookup(toggled(mem, w, HIDDEN), v, bound, qlen, key) == if lookup(mem, v, bound, qlen, key)
            == w {
            lookup(mem, link(mem, w), w, qlen, key)
        } else {
            lookup(mem, v, bound, qlen, key)
        },
        lookup(toggled(mem, w, HIDDEN), v, bound, qlen, key) != w,
    decreases v,
{
    let post = toggled(mem, w, HIDDEN);
    lemma_chain_member(mem, v, bound, w);
    lemma_toggle_chain(mem, v, bound, w, HIDDEN);
    lemma_flag_bits(mem[w + 4]);
    lemma_flag_bits(post[w + 4]);
    if v == w {
        assert(link(post, w) == link(mem, w));
        lemma_chain_frame(mem, post, link(mem, w), w);
        assert(!entry_matches(post, w, qlen, key));
        assert(lookup(post, link(mem, w), w, qlen, key) == lookup(mem, link(mem, w), w, qlen, key));
        crate::dictionary::lemma_lookup_result(mem, link(mem, w), w, qlen, key);
        lemma_lookup_below(mem, link(mem, w), w, qlen, key);
    } else {
        let rest = chain(mem, link(mem, v), v);
        let i = choose|i: int| 0 <= i < chain(mem, v, bound).len() && chain(mem, v, bound)[i] == w;
        assert(rest[i - 1] == w);
        lemma_chain_member(mem, link(mem, v), v, w);
        assert(post[v + 4] == mem[v + 4]);
        assert(link(post, v) == link(mem, v));
        if qlen <= LEN_MASK && (flags_of(mem, v) & crate::dictionary::NAME_MASK) as int == qlen {
            lemma_flag_bits(mem[v + 4]);
            assert(key.len() <= stored_len(mem, v));
            assert(mem.subrange(v + 5, v + 5 + key.len()) =~= post.subrange(
                v + 5,
                v + 5 + key.len(),
            ));
        }
        assert(entry_matches(post, v, qlen, key) == entry_matches(mem, v, qlen, key));
        lemma_hide_lookup(mem, link(mem, v), v, w, qlen, key);
    }
}

/// What a lookup gives lies below the bound of the chain.
pub proof fn lemma_lookup_below(mem: Seq<u8>, v: int, bound: int, qlen: int, key: Seq<u8>)
    ensures
        lookup(mem, v, bound, qlen, key) < bound || lookup(mem, v, bound, qlen, key) == 0,
    decreases v,
{
    if v != 0 && entry_ok(mem, v, bound) && !entry_matches(mem, v, qlen, key) {
        lemma_lookup_below(mem, link(mem, v), v, qlen, key);
    }
}

/// Hiding a word takes it out of name lookup and leaves it in the
/// dictionary: no name finds it any more, a name that found it finds the
/// next older word of that name or nothing, every other name finds what it
/// found, the entries that are reached from the newest one are the same, and
/// but for the hidden flag no byte has changed, so that the word runs as
/// before for whoever holds its address.
pub proof fn law_hidden_word(mem: Seq<u8>, w: int, name: Seq<u8>)
    requires
        dict_ok(mem),
        entries(mem).contains(w),
        !is_hidden(mem, w),
    ensures
        dict_ok(toggled(mem, w, HIDDEN)),
        is_hidden(toggled(mem, w, HIDDEN), w),
        entries(toggled(mem, w, HIDDEN)) == entries(mem),
        entries(toggled(mem, w, HIDDEN)).contains(w),
        find_in(toggled(mem, w, HIDDEN), name) != w,
        find_in(toggled(mem, w, HIDDEN), name) == if find_in(mem, name) == w {
            lookup(mem, link(mem, w), w, name.len() as int, key_of(name))
        } else {
            find_in(mem, name)
        },
        code_field(toggled(mem, w, HIDDEN), w) == code_field(mem, w),
        toggled(mem, w, HIDDEN).len() == mem.len(),
        forall|i: int| 0 <= i < mem.len() && i != w + 4 ==> toggled(mem, w, HIDDEN)[i] == mem[i],
{
    let post = toggled(mem, w, HIDDEN);
    lemma_chain_member(mem, latest_of(mem), here_of(mem), w);
    lemma_toggle_chain(mem, latest_of(mem), here_of(mem), w, HIDDEN);
    lemma_hide_lookup(mem, latest_of(mem), here_of(mem), w, name.len() as int, key_of(name));
    lemma_flag_bits(mem[w + 4]);
    assert(latest_of(post) == latest_of(mem));
    assert(here_of(post) == here_of(mem));
}

/// The entries of a chain in order run from its start down: each is the
/// link of the one before it and lies below it, and the last one links to
/// nothing.
pub proof fn lemma_chain_order(mem: Seq<u8>, w: int, bound: int)
    requires
        chain_ok(mem, w, bound),
    ensures
        w == 0 ==> chain(mem, w, bound).len() == 0,
        w != 0 ==> chain(mem, w, bound).len() > 0 && chain(mem, w, bound)[0] == w && link(
            mem,
            chain(mem, w, bound).last(),
        ) == 0,
        forall|i: int|
            0 <= i && i + 1 < chain(mem, w, bound).len() ==> #[trigger] chain(mem, w, bound)[i + 1]
                == link(mem, chain(mem, w, bound)[i]) && chain(mem, w, bound)[i + 1] < chain(
                mem,
                w,
                bound,
            )[i],
    decreases w,
{
    if w != 0 {
        let rest = chain(mem, link(mem, w), w);
        let all = chain(mem, w, bound);
        lemma_chain_order(mem, link(mem, w), w);
        assert(all =~= seq![w] + rest);
        assert forall|i: int| 0 <= i && i + 1 < all.len() implies #[trigger] all[i + 1] == link(
            mem,
            all[i],
        ) && all[i + 1] < all[i] by {
            if i > 0 {
                let j = i - 1;
                assert(all[i] == rest[j]);
                assert(all[i + 1] == rest[j + 1]);
                assert(rest[j + 1] == link(mem, rest[j]) && rest[j + 1] < rest[j]);
            } else {
                assert(all[1] == rest[0]);
                assert(link(mem, w) != 0);
                assert(rest[0] == link(mem, w));
            }
        }
        if rest.len() > 0 {
            assert(all.last() == rest.last());
        }
    }
}

/// What a word that is found holds: its entry lies in the dictionary
/// region, its length/flags byte is the one named, and its code field holds
/// the address of the trampoline, or the address of the byte behind it, as
/// named.
pub proof fn law_found_word(mem: Seq<u8>, name: Seq<u8>, byte: u8, composite: bool)
    requires
        word_holds(mem, name, byte, composite),
    ensures
        find_in(mem, name) >= mmap::DICT,
        find_in(mem, name) + 5 <= code_field(mem, find_in(mem, name)),
        code_field(mem, find_in(mem, name)) + 4 <= here_of(mem),
        flags_of(mem, find_in(mem, name)) == byte,
        composite ==> cell_at(mem, code_field(mem, find_in(mem, name))) == mmap::DOCOL,
        !composite ==> cell_at(mem, code_field(mem, find_in(mem, name))) == code_field(
            mem,
            find_in(mem, name),
        ) + 4,
{
    reveal(word_holds);
}

/// The shape of a dictionary to which `n` entries were added when it was
/// empty and its free-space pointer at the start of the dictionary region:
/// it holds just those entries; the chain from the newest entry visits
/// strictly decreasing addresses on cell boundaries and ends at the oldest
/// entry, which lies at the start of the dictionary region and links to
/// nothing; the free-space pointer is on a cell boundary behind the newest
/// entry; and each code field holds either the address of the byte behind
/// it or the address of the trampoline.
pub proof fn law_added_entries(pre: Seq<u8>, post: Seq<u8>, n: int)
    requires
        dict_ok(post),
        latest_of(pre) == 0,
        here_of(pre) == mmap::DICT,
        shaped(pre, post, n),
        newest(pre, post, n),
        n > 0,
    ensures
        entries(post).len() == n,
        entries(post)[0] == latest_of(post),
        entries(post)[n - 1] == mmap::DICT,
        link(post, mmap::DICT as int) == 0,
        here_of(post) % 4 == 0,
        here_of(post) > latest_of(post),
        forall|k: int|
            0 <= k < n ==> {
                let w = #[trigger] entries(post)[k];
                &&& w % 4 == 0
                &&& mmap::DICT <= w
                &&& k + 1 < n ==> entries(post)[k + 1] == link(post, w) && entries(post)[k + 1] < w
                &&& (cell_at(post, code_field(post, w)) == code_field(post, w) + 4 || cell_at(
                    post,
                    code_field(post, w),
                ) == mmap::DOCOL)
            },
{
    reveal(shaped);
    reveal(newest);
    lemma_chain_order(post, latest_of(post), here_of(post));
    assert(entries(pre).len() == 0);
    let all = entries(post);
    assert(entry_shaped(pre, post, all[0]));
    assert forall|k: int| 0 <= k < n implies {
        let w = #[trigger] all[k];
        &&& w % 4 == 0
        &&& mmap::DICT <= w
        &&& k + 1 < n ==> all[k + 1] == link(post, w) && all[k + 1] < w
        &&& (cell_at(post, code_field(post, w)) == code_field(post, w) + 4 || cell_at(
            post,
            code_field(post, w),
        ) == mmap::DOCOL)
    } by {
        assert(entry_shaped(pre, post, all[k]));
        if k + 1 < n {
            assert(all[k + 1] == link(post, all[k]));
        }
    }
}

} // verus!
