//! Text to integer conversion in a radix that the runtime can change, and the
//! decimal literals of definitions.
//!
//! A value that does not fit a cell wraps around: it is taken modulo 2^32 and
//! read as a two's complement number.

use vstd::prelude::*;
use vstd::arithmetic::div_mod::{
    lemma_add_mod_noop, lemma_mod_multiples_vanish, lemma_mul_mod_noop_general,
};
use crate::cells::signed;

verus! {

/// The byte of the minus sign.
pub const MINUS: u8 = 45;

/// The byte of the plus sign.
pub const PLUS: u8 = 43;

/// The digit that the byte `c` stands for in the largest radix, 36: the
/// decimal digits count from 0, the letters of either case from 10.
pub open spec fn digit_of(c: u8) -> Option<int> {
    if 48 <= c <= 57 {
        Some(c - 48)
    } else if 97 <= c <= 122 {
        Some(c - 87)
    } else if 65 <= c <= 90 {
        Some(c - 55)
    } else {
        None
    }
}

/// Whether the byte `c` is a digit in radix `base`.
pub open spec fn is_digit(c: u8, base: int) -> bool {
    match digit_of(c) {
        Some(d) => d < base,
        None => false,
    }
}

/// The number that the digits `s` spell in radix `base`, most significant
/// digit first. A byte that is no digit counts as 0.
pub open spec fn radix_value(s: Seq<u8>, base: int) -> int
    decreases s.len(),
{
    if s.len() == 0 {
        0
    } else {
        radix_value(s.drop_last(), base) * base + match digit_of(s.last()) {
            Some(d) => d,
            None => 0,
        }
    }
}

/// The number of bytes of `s` from the first one on that is no digit in radix
/// `base`; 0 if all are digits.
pub open spec fn unparsed(s: Seq<u8>, base: int) -> nat
    decreases s.len(),
{
    if s.len() == 0 {
        0
    } else if !is_digit(s[0], base) {
        s.len()
    } else {
        unparsed(s.skip(1), base)
    }
}

/// The cell value that stands for the integer `x`: `x` modulo 2^32, read as
/// a two's complement number.
pub open spec fn wrap32(x: int) -> int {
    signed(x % 0x1_0000_0000)
}

/// Whether `s` starts with a minus sign.
pub open spec fn has_minus(s: Seq<u8>) -> bool {
    s.len() > 0 && s[0] == MINUS
}

/// The digits of `s`: what follows the minus sign, if it has one.
pub open spec fn magnitude(s: Seq<u8>) -> Seq<u8> {
    if has_minus(s) {
        s.skip(1)
    } else {
        s
    }
}

/// What parsing `s` in radix `base` gives: the value and 0, or 0 and the
/// count of the bytes that were left unparsed. The empty text and a lone
/// minus sign give the value 0.
pub open spec fn number_of(s: Seq<u8>, base: int) -> (int, int) {
    let body = magnitude(s);
    if unparsed(body, base) > 0 {
        (0, unparsed(body, base) as int)
    } else if has_minus(s) {
        (wrap32(-radix_value(body, base)), 0)
    } else {
        (wrap32(radix_value(body, base)), 0)
    }
}

/// The digit that `c` stands for in radix `base`, if it is one.
pub fn digit_value(c: u8, base: u32) -> (r: Option<u32>)
    ensures
        match r {
            Some(d) => is_digit(c, base as int) && digit_of(c) == Some(d as int),
            None => !is_digit(c, base as int),
        },
{
    let d: u32 = if 48 <= c && c <= 57 {
        (c - 48) as u32
    } else if 97 <= c && c <= 122 {
        (c - 87) as u32
    } else if 65 <= c && c <= 90 {
        (c - 55) as u32
    } else {
        return None;
    };
    if d < base {
        Some(d)
    } else {
        None
    }
}

proof fn lemma_wrap_step(v: int, acc: int, base: int, d: int)
    requires
        acc == v % 0x1_0000_0000,
    ensures
        (acc * base + d) % 0x1_0000_0000 == (v * base + d) % 0x1_0000_0000,
{
    let m = 0x1_0000_0000int;
    lemma_mul_mod_noop_general(v, base, m);
    lemma_add_mod_noop(v * base, d, m);
    lemma_add_mod_noop(acc * base, d, m);
}

proof fn lemma_wrap_neg(v: int, acc: int)
    requires
        acc == v % 0x1_0000_0000,
    ensures
        (0x1_0000_0000 - acc) % 0x1_0000_0000 == (-v) % 0x1_0000_0000,
{
    let m = 0x1_0000_0000int;
    let q = v / m;
    vstd::arithmetic::div_mod::lemma_fundamental_div_mod(v, m);
    assert(-v == m * (-q - 1) + (m - acc)) by (nonlinear_arith)
        requires
            v == m * q + acc,
    ;
    lemma_mod_multiples_vanish(-q - 1, m - acc, m);
}

/// Parses `bytes` as a number in radix `base`: an optional minus sign, then
/// digits. Returns the value and 0; or, where a byte is no digit, 0 and the
/// count of the bytes from that one on. Where no byte follows the sign, the
/// radix is not looked at.
pub fn parse_number(bytes: &[u8], base: i32) -> (r: (i32, i32))
    requires
        magnitude(bytes@).len() > 0 ==> 2 <= base <= 36,
        bytes@.len() <= i32::MAX,
    ensures
        r.0 == number_of(bytes@, base as int).0,
        r.1 == number_of(bytes@, base as int).1,
{
    let len: usize = bytes.len();
    let negative: bool = len > 0 && bytes[0] == MINUS;
    let start: usize = if negative {
        1
    } else {
        0
    };
    let ghost body = magnitude(bytes@);
    let mut acc: u64 = 0;
    let mut n: usize = start;
    assert(body.take(0) =~= Seq::<u8>::empty());
    assert(body.skip(0) =~= body);
    while n < len
        invariant
            start < len ==> 2 <= base <= 36,
            len == bytes@.len(),
            len <= i32::MAX,
            start <= n <= len,
            body == bytes@.skip(start as int),
            body == magnitude(bytes@),
            acc < 0x1_0000_0000,
            acc == radix_value(body.take(n - start), base as int) % 0x1_0000_0000,
            unparsed(body, base as int) == unparsed(body.skip(n - start), base as int),
        decreases len - n,
    {
        let ghost k = n - start;
        assert(body[k] == bytes@[n as int]);
        assert(body.skip(k)[0] == body[k]);
        match digit_value(bytes[n], base as u32) {
            Some(digit) => {
                proof {
                    assert(body.take(k + 1).drop_last() =~= body.take(k));
                    assert(body.take(k + 1).last() == body[k]);
                    assert(body.skip(k).skip(1) =~= body.skip(k + 1));
                    lemma_wrap_step(
                        radix_value(body.take(k), base as int),
                        acc as int,
                        base as int,
                        digit as int,
                    );
                }
                assert(acc * (base as u64) <= 0x1_0000_0000 * 36) by (nonlinear_arith)
                    requires
                        acc < 0x1_0000_0000,
                        2 <= base <= 36,
                ;
                acc = (acc * (base as u64) + digit as u64) % 0x1_0000_0000;
            },
            None => {
                assert(unparsed(body.skip(k), base as int) == body.skip(k).len());
                return (0, (len - n) as i32);
            },
        }
        n = n + 1;
    }
    assert(body.take(len - start) =~= body);
    let bits: u64 = if negative {
        proof {
            lemma_wrap_neg(radix_value(body, base as int), acc as int);
        }
        (0x1_0000_0000 - acc) % 0x1_0000_0000
    } else {
        acc
    };
    let value: i32 = if bits >= 0x8000_0000 {
        ((bits - 0x8000_0000) as i32) + i32::MIN
    } else {
        bits as i32
    };
    (value, 0)
}

/// Whether every byte of `s` is a decimal digit.
pub open spec fn all_decimal(s: Seq<u8>) -> bool {
    forall|i: int| 0 <= i < s.len() ==> 48 <= #[trigger] s[i] <= 57
}

/// Whether `s` starts with a sign.
pub open spec fn has_sign(s: Seq<u8>) -> bool {
    s.len() > 0 && (s[0] == MINUS || s[0] == PLUS)
}

/// The integer that the token `s` of a definition stands for, if it is a
/// literal: an optional sign, then at least one decimal digit, with a value
/// that fits a cell.
pub open spec fn literal_of(s: Seq<u8>) -> Option<int> {
    let body = if has_sign(s) {
        s.skip(1)
    } else {
        s
    };
    let v = if has_minus(s) {
        -radix_value(body, 10)
    } else {
        radix_value(body, 10)
    };
    if body.len() > 0 && all_decimal(body) && i32::MIN <= v <= i32::MAX {
        Some(v)
    } else {
        None
    }
}

/// The digits of a text spell at least what any of its prefixes spells.
pub proof fn lemma_radix_prefix(s: Seq<u8>, k: int, base: int)
    requires
        0 <= k <= s.len(),
        1 <= base,
    ensures
        0 <= radix_value(s.take(k), base) <= radix_value(s, base),
    decreases s.len(),
{
    if k == s.len() {
        assert(s.take(k) =~= s);
        if s.len() > 0 {
            lemma_radix_prefix(s.drop_last(), k - 1, base);
            assert(s.drop_last().take(k - 1) =~= s.drop_last());
            assert(radix_value(s.drop_last(), base) * base >= 0) by (nonlinear_arith)
                requires
                    radix_value(s.drop_last(), base) >= 0,
                    base >= 1,
            ;
        }
    } else {
        lemma_radix_prefix(s.drop_last(), k, base);
        assert(s.drop_last().take(k) =~= s.take(k));
        assert(radix_value(s.drop_last(), base) * base >= radix_value(s.drop_last(), base))
            by (nonlinear_arith)
            requires
                radix_value(s.drop_last(), base) >= 0,
                base >= 1,
        ;
    }
}

/// Reads `bytes` as the literal of a definition.
pub fn parse_literal(bytes: &[u8]) -> (r: Option<i32>)
    ensures
        match r {
            Some(v) => literal_of(bytes@) == Some(v as int),
            None => literal_of(bytes@).is_none(),
        },
{
    let len: usize = bytes.len();
    let negative: bool = len > 0 && bytes[0] == MINUS;
    let start: usize = if len > 0 && (bytes[0] == MINUS || bytes[0] == PLUS) {
        1
    } else {
        0
    };
    let ghost body = bytes@.skip(start as int);
    assert(bytes@.skip(0) =~= bytes@);
    if start == len {
        return None;
    }
    let mut acc: i64 = 0;
    let mut n: usize = start;
    assert(body.take(0) =~= Seq::<u8>::empty());
    while n < len
        invariant
            len == bytes@.len(),
            start <= n <= len,
            body == bytes@.skip(start as int),
            body == if has_sign(bytes@) {
                bytes@.skip(1)
            } else {
                bytes@
            },
            0 <= acc <= 0x8000_0000,
            acc == radix_value(body.take(n - start), 10),
            all_decimal(body.take(n - start)),
        decreases len - n,
    {
        let ghost k = n - start;
        let c: u8 = bytes[n];
        assert(body[k] == c);
        if c < 48 || c > 57 {
            assert(!all_decimal(body));
            return None;
        }
        proof {
            assert(body.take(k + 1).drop_last() =~= body.take(k));
            assert(body.take(k + 1).last() == c);
            assert forall|i: int| 0 <= i < k + 1 implies 48 <= #[trigger] body.take(k + 1)[i]
                <= 57 by {
                if i < k {
                    assert(body.take(k)[i] == body.take(k + 1)[i]);
                }
            }
        }
        acc = acc * 10 + (c - 48) as i64;
        if acc > 0x8000_0000 {
            proof {
                if all_decimal(body) {
                    lemma_radix_prefix(body, k + 1, 10);
                }
            }
            return None;
        }
        n = n + 1;
    }
    assert(body.take(len - start) =~= body);
    if negative {
        Some((-acc) as i32)
    } else if acc <= 0x7fff_ffff {
        Some(acc as i32)
    } else {
        None
    }
}

/// The decimal digits of `n`, most significant first.
pub open spec fn decimal(n: nat) -> Seq<u8>
    decreases n,
{
    if n < 10 {
        seq![(48 + n) as u8]
    } else {
        decimal(n / 10).push((48 + n % 10) as u8)
    }
}

/// The decimal text of `n`: a minus sign where it is negative, then the
/// digits of its magnitude.
pub open spec fn render(n: int) -> Seq<u8> {
    if n < 0 {
        seq![MINUS] + decimal((-n) as nat)
    } else {
        decimal(n as nat)
    }
}

/// A text of digits stays one when a digit is appended.
pub proof fn lemma_unparsed_push(s: Seq<u8>, c: u8, base: int)
    requires
        unparsed(s, base) == 0,
        is_digit(c, base),
    ensures
        unparsed(s.push(c), base) == 0,
    decreases s.len(),
{
    assert(s.push(c)[0] == if s.len() == 0 {
        c
    } else {
        s[0]
    });
    if s.len() == 0 {
        assert(s.push(c).skip(1) =~= Seq::<u8>::empty());
        assert(unparsed(Seq::<u8>::empty(), base) == 0);
    } else {
        lemma_unparsed_push(s.skip(1), c, base);
        assert(s.push(c).skip(1) =~= s.skip(1).push(c));
    }
}

/// The decimal digits of a number are digits in every radix from ten on, and
/// in radix ten they spell the number.
pub proof fn lemma_decimal(n: nat, base: int)
    requires
        10 <= base,
    ensures
        decimal(n).len() > 0,
        48 <= decimal(n)[0] <= 57,
        unparsed(decimal(n), base) == 0,
        radix_value(decimal(n), 10) == n,
    decreases n,
{
    if n < 10 {
        let s = decimal(n);
        assert(s[0] == (48 + n) as u8);
        assert(is_digit(s[0], base));
        assert(s.skip(1) =~= Seq::<u8>::empty());
        assert(s.drop_last() =~= Seq::<u8>::empty());
        assert(unparsed(Seq::<u8>::empty(), base) == 0);
        assert(radix_value(Seq::<u8>::empty(), 10) == 0);
    } else {
        lemma_decimal(n / 10, base);
        let c = (48 + n % 10) as u8;
        assert(is_digit(c, base));
        lemma_unparsed_push(decimal(n / 10), c, base);
        assert(decimal(n).drop_last() =~= decimal(n / 10));
        assert(decimal(n).last() == c);
        assert(decimal(n)[0] == decimal(n / 10)[0]);
    }
}

/// Parsing the decimal text of a cell value in radix ten gives the value
/// back, with nothing left unparsed.
pub proof fn law_parse_render(n: int)
    requires
        i32::MIN <= n <= i32::MAX,
    ensures
        number_of(render(n), 10) == (n, 0int),
{
    if n < 0 {
        lemma_decimal((-n) as nat, 10);
        assert(render(n).skip(1) =~= decimal((-n) as nat));
    } else {
        lemma_decimal(n as nat, 10);
    }
}

} // verus!
