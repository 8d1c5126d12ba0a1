//! Integers and bit masks as written in a chip description.
use vstd::prelude::*;
use vstd::std_specs::bits::*;
use crate::error::Error;
use crate::text;

verus! {

broadcast use {axiom_u64_trailing_zeros, axiom_u64_leading_zeros};

/// The value of digit `c` in base `radix` (10 or 16), or -1 when `c` is no such digit.
pub open spec fn digit_value(c: char, radix: nat) -> int {
    let v = c as u32 as int;
    if '0' as u32 <= v <= '9' as u32 {
        v - '0' as u32
    } else if radix == 16 && 'a' as u32 <= v <= 'f' as u32 {
        v - 'a' as u32 + 10
    } else if radix == 16 && 'A' as u32 <= v <= 'F' as u32 {
        v - 'A' as u32 + 10
    } else {
        -1
    }
}

/// Whether every character of `s` is a digit in base `radix`.
pub open spec fn all_digits(s: Seq<char>, radix: nat) -> bool {
    forall|i: int| 0 <= i < s.len() ==> digit_value(#[trigger] s[i], radix) >= 0
}

/// The number that the digits `s` denote in base `radix`, most significant first.
pub open spec fn digits_value(s: Seq<char>, radix: nat) -> int
    decreases s.len(),
{
    if s.len() == 0 {
        0
    } else {
        digits_value(s.drop_last(), radix) * radix + digit_value(s.last(), radix)
    }
}

/// Whether `s` starts with the hexadecimal marker `0x`.
pub open spec fn has_hex_prefix(s: Seq<char>) -> bool {
    s.len() >= 2 && s[0] == '0' && s[1] == 'x'
}

/// The base in which `s` is written: 16 after `0x`, else 10.
pub open spec fn int_radix(s: Seq<char>) -> nat {
    if has_hex_prefix(s) {
        16
    } else {
        10
    }
}

/// The digits of `s`: without the `0x` marker and without one leading `+`
/// that is followed by more text.
pub open spec fn int_digits(s: Seq<char>) -> Seq<char> {
    let body = if has_hex_prefix(s) {
        s.skip(2)
    } else {
        s
    };
    if body.len() > 1 && body[0] == '+' {
        body.skip(1)
    } else {
        body
    }
}

/// Whether `s` is an integer that fits in a `usize`: decimal, or hexadecimal
/// after `0x`.
pub open spec fn is_int_text(s: Seq<char>) -> bool {
    let d = int_digits(s);
    &&& d.len() > 0
    &&& all_digits(d, int_radix(s))
    &&& digits_value(d, int_radix(s)) <= usize::MAX
}

/// The value of the integer text `s`.
pub open spec fn int_value(s: Seq<char>) -> int {
    digits_value(int_digits(s), int_radix(s))
}

proof fn lemma_digits_value_grows(a: Seq<char>, b: Seq<char>, radix: nat)
    requires
        radix >= 1,
        all_digits(a + b, radix),
    ensures
        digits_value(a + b, radix) >= digits_value(a, radix),
        digits_value(a, radix) >= 0,
    decreases b.len(),
{
    if b.len() == 0 {
        assert(a + b =~= a);
        lemma_digits_value_nonneg(a, radix);
    } else {
        let ab = a + b;
        assert(ab.drop_last() =~= a + b.drop_last());
        assert forall|i: int| 0 <= i < (a + b.drop_last()).len() implies digit_value(
            #[trigger] (a + b.drop_last())[i],
            radix,
        ) >= 0 by {
            assert((a + b.drop_last())[i] == ab[i]);
        }
        lemma_digits_value_grows(a, b.drop_last(), radix);
        assert(digit_value(ab.last(), radix) >= 0);
        let p = digits_value(ab.drop_last(), radix);
        assert(p * radix >= p) by (nonlinear_arith)
            requires
                p >= 0,
                radix >= 1,
        ;
    }
}

proof fn lemma_digits_value_nonneg(a: Seq<char>, radix: nat)
    requires
        all_digits(a, radix),
    ensures
        digits_value(a, radix) >= 0,
    decreases a.len(),
{
    if a.len() > 0 {
        assert forall|i: int| 0 <= i < a.drop_last().len() implies digit_value(
            #[trigger] a.drop_last()[i],
            radix,
        ) >= 0 by {
            assert(a.drop_last()[i] == a[i]);
        }
        lemma_digits_value_nonneg(a.drop_last(), radix);
        let p = digits_value(a.drop_last(), radix);
        assert(p * radix >= 0) by (nonlinear_arith)
            requires
                p >= 0,
        ;
        assert(digit_value(a.last(), radix) >= 0);
    }
}

fn digit(c: char, radix: usize) -> (r: Option<usize>)
    requires
        radix == 10 || radix == 16,
    ensures
        match r {
            Some(d) => d == digit_value(c, radix as nat) && d < radix,
            None => digit_value(c, radix as nat) < 0,
        },
{
    let v = c as u32;
    if '0' as u32 <= v && v <= '9' as u32 {
        Some((v - '0' as u32) as usize)
    } else if radix == 16 && 'a' as u32 <= v && v <= 'f' as u32 {
        Some((v - 'a' as u32 + 10) as usize)
    } else if radix == 16 && 'A' as u32 <= v && v <= 'F' as u32 {
        Some((v - 'A' as u32 + 10) as usize)
    } else {
        None
    }
}

fn invalid_integer(s: &str) -> (r: Error)
    ensures
        r is InvalidInteger,
{
    Error::InvalidInteger(text::owned(s))
}

/// Parses an integer written in decimal, or in hexadecimal after `0x`.
///
/// Fails on empty text, on a character that is no digit of the base, and on a
/// value beyond `usize::MAX`.
pub fn parse_int(s: &str) -> (r: Result<usize, Error>)
    ensures
        r is Ok <==> is_int_text(s@),
        r matches Ok(v) ==> v == int_value(s@),
        r matches Err(e) ==> e is InvalidInteger,
{
    let n = s.unicode_len();
    let mut start: usize = 0;
    let mut radix: usize = 10;
    if n >= 2 && s.get_char(0) == '0' && s.get_char(1) == 'x' {
        start = 2;
        radix = 16;
    }
    let ghost body = s@.skip(start as int);
    if n - start > 1 && s.get_char(start) == '+' {
        start = start + 1;
    }
    let ghost d = s@.skip(start as int);
    assert(d =~= int_digits(s@));
    assert(radix == int_radix(s@));
    if start == n {
        return Err(invalid_integer(s));
    }
    let mut value: usize = 0;
    let mut i: usize = start;
    while i < n
        invariant
            n == s@.len(),
            start <= i <= n,
            radix == 10 || radix == 16,
            radix == int_radix(s@),
            d == s@.skip(start as int),
            d == int_digits(s@),
            forall|j: int| start <= j < i ==> digit_value(#[trigger] s@[j], radix as nat) >= 0,
            value == digits_value(s@.subrange(start as int, i as int), radix as nat),
        decreases n - i,
    {
        let c = s.get_char(i);
        let ghost prefix = s@.subrange(start as int, i as int + 1);
        assert(prefix.drop_last() =~= s@.subrange(start as int, i as int));
        match digit(c, radix) {
            None => {
                assert(d[i - start] == c);
                assert(digit_value(d[i - start], radix as nat) < 0);
                return Err(invalid_integer(s));
            },
            Some(dv) => {
                let next = match value.checked_mul(radix) {
                    Some(m) => m.checked_add(dv),
                    None => None,
                };
                match next {
                    None => {
                        proof {
                            if is_int_text(s@) {
                                assert(d =~= prefix + d.skip(i + 1 - start));
                                lemma_digits_value_grows(prefix, d.skip(i + 1 - start), radix as nat);
                                assert(value * radix + dv >= value * radix);
                            }
                        }
                        return Err(invalid_integer(s));
                    },
                    Some(v) => {
                        value = v;
                    },
                }
            },
        }
        i = i + 1;
    }
    assert(s@.subrange(start as int, n as int) =~= d);
    Ok(value)
}

/// Whether bit `i` of `m` is set.
pub open spec fn bit_set(m: u64, i: u64) -> bool {
    (m >> i) & 1u64 == 1u64
}

/// What a non-zero mask `m` spans: its lowest and highest set bit, and whether
/// some bit between them is clear.
pub open spec fn mask_span(m: u64) -> Option<((usize, usize), bool)> {
    if m == 0 {
        None
    } else {
        let low = u64_trailing_zeros(m) as usize;
        let high = (63 - u64_leading_zeros(m)) as usize;
        Some(((low, high), exists|j: u64| low <= j <= high && !bit_set(m, j)))
    }
}

/// A mask whose set bits form a single run from bit `low` up to bit `high`
/// spans exactly that run, and has no gap.
pub proof fn lemma_contiguous_mask_span(m: u64, low: u64, high: u64)
    requires
        low <= high < 64,
        forall|j: u64| j < 64 ==> (bit_set(m, j) <==> low <= j <= high),
    ensures
        mask_span(m) == Some(((low as usize, high as usize), false)),
{
    assert(bit_set(m, low));
    assert(forall|j: u64| (0u64 >> j) & 1u64 == 0u64) by (bit_vector);
    assert(m != 0);
    let tz = u64_trailing_zeros(m) as u64;
    assert(tz < 64);
    assert(forall|x: u64| x & 1u64 != 0u64 ==> x & 1u64 == 1u64) by (bit_vector);
    assert(bit_set(m, tz));
    if tz > low {
        assert((m >> low) & 1u64 == 0u64);
    }
    assert(tz == low);
    let top = (63 - u64_leading_zeros(m)) as u64;
    assert(bit_set(m, top));
    assert(top < 64);
    assert(bit_set(m, high));
    if top < high {
        assert((m >> high) & 1u64 == 0u64);
    }
    if top > high {
        assert(!(low <= top <= high));
    }
    assert(top == high);
    assert(!exists|j: u64| low <= j <= high && !bit_set(m, j));
}

/// Reads a bit mask: `None` for a zero mask, else its lowest and highest set
/// bit and whether some bit between them is clear.
pub fn parse_mask(s: &str) -> (r: Result<Option<((usize, usize), bool)>, Error>)
    ensures
        r is Ok <==> is_int_text(s@),
        r matches Ok(span) ==> span == mask_span(int_value(s@) as u64),
        r is Ok ==> 0 <= int_value(s@) <= usize::MAX,
        r matches Err(e) ==> e is InvalidInteger,
{
    let mask = parse_int(s)? as u64;
    if mask == 0 {
        return Ok(None);
    }
    let low = mask.trailing_zeros() as usize;
    let high = (63 - mask.leading_zeros()) as usize;
    let mut gap = false;
    let mut i: u64 = low as u64;
    while i <= high as u64
        invariant
            low <= i <= high + 1,
            high < 64,
            gap == exists|j: u64| low <= j < i && !bit_set(mask, j),
        decreases high + 1 - i,
    {
        if (mask >> i) & 1u64 != 1u64 {
            gap = true;
            assert(low <= i < i + 1 && !bit_set(mask, i));
        }
        proof {
            if !gap {
                assert forall|j: u64| low <= j < i + 1 implies bit_set(mask, j) by {
                    if j < i {
                        assert(!(low <= j < i && !bit_set(mask, j)));
                    }
                }
            }
        }
        i = i + 1;
    }
    Ok(Some(((low, high), gap)))
}

} // verus!
