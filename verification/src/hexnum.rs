//! Reading hexadecimal and decimal numerals from text: the byte-string
//! decoding and the offset parsing of the hex file tool.
//!
//! Contracts are stated over `str::spec_bytes`, the byte view of a string,
//! since the accepted numerals are all ASCII.

use vstd::prelude::*;

verus! {

use vstd::string::StringSliceAdditionalSpecFns;

/// An ASCII hexadecimal digit: `0`-`9`, `a`-`f` or `A`-`F`.
pub open spec fn is_hex_digit(b: u8) -> bool {
    (48 <= b <= 57) || (97 <= b <= 102) || (65 <= b <= 70)
}

/// An ASCII digit of the given base: decimal digits, or any hex digit when
/// the base is 16.
pub open spec fn is_digit(b: u8, base: int) -> bool {
    if base == 16 {
        is_hex_digit(b)
    } else {
        48 <= b <= 57
    }
}

/// The numeric value of one ASCII digit.
pub open spec fn digit_val(b: u8) -> int {
    if 48 <= b <= 57 {
        b - 48
    } else if 97 <= b <= 102 {
        b - 87
    } else {
        b - 55
    }
}

/// The value of a digit string read in the given base, most significant
/// digit first.
pub open spec fn digits_val(s: Seq<u8>, base: int) -> int
    decreases s.len(),
{
    if s.len() == 0 {
        0
    } else {
        digits_val(s.drop_last(), base) * base + digit_val(s.last())
    }
}

pub proof fn lemma_digits_val_nonneg(s: Seq<u8>, base: int)
    requires
        base >= 2,
        forall|i: int| 0 <= i < s.len() ==> is_digit(#[trigger] s[i], base),
    ensures
        digits_val(s, base) >= 0,
    decreases s.len(),
{
    if s.len() > 0 {
        lemma_digits_val_nonneg(s.drop_last(), base);
        assert(digits_val(s.drop_last(), base) * base >= 0) by (nonlinear_arith)
            requires
                digits_val(s.drop_last(), base) >= 0,
                base >= 2,
        ;
    }
}

/// A prefix of a digit string never reads to more than the whole string.
pub proof fn lemma_digits_val_prefix_le(s: Seq<u8>, base: int, i: int)
    requires
        base >= 2,
        0 <= i <= s.len(),
        forall|j: int| 0 <= j < s.len() ==> is_digit(#[trigger] s[j], base),
    ensures
        digits_val(s.take(i), base) <= digits_val(s, base),
    decreases s.len() - i,
{
    if i == s.len() {
        assert(s.take(i) =~= s);
    } else {
        lemma_digits_val_prefix_le(s, base, i + 1);
        let pre = s.take(i);
        let next = s.take(i + 1);
        assert(next.drop_last() =~= pre);
        assert(next.last() == s[i]);
        lemma_digits_val_nonneg(pre, base);
        assert(digits_val(pre, base) * base >= digits_val(pre, base)) by (nonlinear_arith)
            requires
                digits_val(pre, base) >= 0,
                base >= 2,
        ;
    }
}

/// The numeric value of one ASCII hex digit byte.
pub fn hex_digit_value(d: u8) -> (r: u8)
    requires
        is_hex_digit(d),
    ensures
        r as int == digit_val(d),
        r <= 15,
{
    if d >= 48 && d <= 57 {
        d - 48
    } else if d >= 97 && d <= 102 {
        d - 87
    } else {
        d - 55
    }
}

/// Read a digit string `b[start..]` as a number in the given base, most
/// significant digit first. The value must fit in 64 bits.
fn parse_digits(b: &[u8], start: usize, base: u64) -> (r: u64)
    requires
        base == 10 || base == 16,
        start < b@.len(),
        forall|i: int| start <= i < b@.len() ==> is_digit(#[trigger] b@[i], base as int),
        digits_val(b@.skip(start as int), base as int) <= u64::MAX,
    ensures
        r as int == digits_val(b@.skip(start as int), base as int),
{
    let ghost sub = b@.skip(start as int);
    proof {
        assert forall|j: int| 0 <= j < sub.len() implies is_digit(#[trigger] sub[j], base as int) by {
            assert(sub[j] == b@[start + j]);
        }
    }
    let mut val: u64 = 0;
    let mut i: usize = start;
    while i < b.len()
        invariant
            base == 10 || base == 16,
            start <= i <= b@.len(),
            sub == b@.skip(start as int),
            forall|j: int| 0 <= j < sub.len() ==> is_digit(#[trigger] sub[j], base as int),
            digits_val(sub, base as int) <= u64::MAX,
            val as int == digits_val(sub.take(i - start), base as int),
        decreases b@.len() - i,
    {
        proof {
            assert(is_digit(sub[i - start], base as int));
            assert(sub[i - start] == b@[i as int]);
        }
        let d = hex_digit_value(b[i]);
        proof {
            let pre = sub.take(i - start);
            let next = sub.take(i - start + 1);
            assert(next.drop_last() =~= pre);
            assert(next.last() == sub[i - start]);
            assert(sub[i - start] == b@[i as int]);
            lemma_digits_val_prefix_le(sub, base as int, i - start + 1);
            lemma_digits_val_nonneg(pre, base as int);
        }
        val = val * base + (d as u64);
        i = i + 1;
    }
    proof {
        assert(sub.take(b@.len() - start) =~= sub);
    }
    val
}

/// Decode a string of hex digit pairs into the bytes they denote, as the
/// write mode of the hex file tool reads its input: the string must consist
/// of an even number of hex digits, and byte `i` of the result is the value
/// of digits `2*i` and `2*i + 1`.
pub fn hex_to_bytes(s: &str) -> (r: Vec<u8>)
    requires
        s.spec_bytes().len() % 2 == 0,
        forall|i: int| 0 <= i < s.spec_bytes().len() ==> is_hex_digit(#[trigger] s.spec_bytes()[i]),
    ensures
        r@.len() == s.spec_bytes().len() / 2,
        forall|i: int| 0 <= i < r@.len() ==> #[trigger] r@[i] as int == 16 * digit_val(
            s.spec_bytes()[2 * i],
        ) + digit_val(s.spec_bytes()[2 * i + 1]),
{
    let b = s.as_bytes();
    let mut r: Vec<u8> = Vec::new();
    let mut i: usize = 0;
    while i < b.len()
        invariant
            b@ == s.spec_bytes(),
            b@.len() % 2 == 0,
            forall|j: int| 0 <= j < b@.len() ==> is_hex_digit(#[trigger] b@[j]),
            i % 2 == 0,
            i <= b@.len(),
            r@.len() == i / 2,
            forall|j: int| 0 <= j < r@.len() ==> #[trigger] r@[j] as int == 16 * digit_val(
                b@[2 * j],
            ) + digit_val(b@[2 * j + 1]),
        decreases b@.len() - i,
    {
        let hi = hex_digit_value(b[i]);
        let lo = hex_digit_value(b[i + 1]);
        r.push(16 * hi + lo);
        i = i + 2;
    }
    r
}

/// Parse a byte offset as the hex file tool accepts it: `0x` followed by
/// hex digits, or a plain decimal numeral. The denoted value must fit in
/// 64 bits.
pub fn parse_offset(s: &str) -> (r: u64)
    requires
        (if s.spec_bytes().len() >= 2 && s.spec_bytes()[0] == 48u8 && s.spec_bytes()[1] == 120u8 {
            &&& s.spec_bytes().len() >= 3
            &&& forall|i: int| 2 <= i < s.spec_bytes().len() ==> is_hex_digit(
                #[trigger] s.spec_bytes()[i],
            )
            &&& digits_val(s.spec_bytes().skip(2), 16) <= u64::MAX
        } else {
            &&& s.spec_bytes().len() >= 1
            &&& forall|i: int| 0 <= i < s.spec_bytes().len() ==> is_digit(
                #[trigger] s.spec_bytes()[i],
                10,
            )
            &&& digits_val(s.spec_bytes(), 10) <= u64::MAX
        }),
    ensures
        r as int == (if s.spec_bytes().len() >= 2 && s.spec_bytes()[0] == 48u8
            && s.spec_bytes()[1] == 120u8 {
            digits_val(s.spec_bytes().skip(2), 16)
        } else {
            digits_val(s.spec_bytes(), 10)
        }),
{
    let b = s.as_bytes();
    if b.len() >= 2 && b[0] == 48 && b[1] == 120 {
        parse_digits(b, 2, 16)
    } else {
        proof {
            assert(b@.skip(0) =~= b@);
        }
        parse_digits(b, 0, 10)
    }
}

} // verus!
