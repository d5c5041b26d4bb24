//! Byte-string helpers: joining, decimal formatting and integer parsing.

use vstd::prelude::*;
use crate::chars::{spec_is_digit, is_digit, is_xdigit, spec_is_xdigit, DIGIT_ZERO, DIGIT_SEVEN, MINUS, PLUS, LOWER_A, UPPER_A};

verus! {

/// The views of a sequence of byte vectors.
pub open spec fn views(parts: Seq<Vec<u8>>) -> Seq<Seq<u8>> {
    parts.map_values(|v: Vec<u8>| v@)
}

/// `parts` joined with `sep` between each two of them.
pub open spec fn spec_join(parts: Seq<Seq<u8>>, sep: Seq<u8>) -> Seq<u8>
    decreases parts.len(),
{
    if parts.len() == 0 {
        Seq::empty()
    } else if parts.len() == 1 {
        parts[0]
    } else {
        spec_join(parts.drop_last(), sep) + sep + parts.last()
    }
}

/// Joins byte strings with a separator.
pub fn join_bstrings(parts: &[Vec<u8>], sep: &[u8]) -> (r: Vec<u8>)
    ensures
        r@ == spec_join(views(parts@), sep@),
{
    let mut r: Vec<u8> = Vec::new();
    let mut i: usize = 0;
    while i < parts.len()
        invariant
            i <= parts.len(),
            r@ == spec_join(views(parts@).take(i as int), sep@),
        decreases parts.len() - i,
    {
        if i > 0 {
            r.extend_from_slice(sep);
        }
        r.extend_from_slice(parts[i].as_slice());
        assert(views(parts@).take(i + 1).drop_last() =~= views(parts@).take(i as int));
        i += 1;
    }
    assert(views(parts@).take(parts.len() as int) =~= views(parts@));
    r
}

/// The value of a digit byte in bases up to 36 (letters in either case).
pub open spec fn spec_digit_value(b: u8) -> int {
    if spec_is_digit(b) {
        b - DIGIT_ZERO
    } else if LOWER_A <= b {
        b - LOWER_A + 10
    } else {
        b - UPPER_A + 10
    }
}

/// The value of `s` read as digits in `base`, most significant first.
pub open spec fn spec_radix_value(s: Seq<u8>, base: int) -> int
    decreases s.len(),
{
    if s.len() == 0 {
        0
    } else {
        spec_radix_value(s.drop_last(), base) * base + spec_digit_value(s.last())
    }
}

/// The decimal digits of `n`, most significant first.
pub open spec fn spec_decimal(n: nat) -> Seq<u8>
    decreases n,
{
    if n < 10 {
        seq![(DIGIT_ZERO + n) as u8]
    } else {
        spec_decimal(n / 10).push((DIGIT_ZERO + n % 10) as u8)
    }
}

/// The decimal text of a signed value.
pub open spec fn spec_i64_text(v: i64) -> Seq<u8> {
    if v < 0 {
        seq![MINUS] + spec_decimal((-v) as nat)
    } else {
        spec_decimal(v as nat)
    }
}

/// Appends the decimal digits of `n`.
pub fn push_u64(out: &mut Vec<u8>, n: u64)
    ensures
        final(out)@ == old(out)@ + spec_decimal(n as nat),
    decreases n,
{
    if n >= 10 {
        push_u64(out, n / 10);
    }
    out.push(DIGIT_ZERO + (n % 10) as u8);
    assert(n >= 10 ==> spec_decimal(n as nat) == spec_decimal((n / 10) as nat).push((DIGIT_ZERO + n % 10) as u8));
}

/// The decimal text of an unsigned value.
pub fn u64_to_bytes(n: u64) -> (r: Vec<u8>)
    ensures
        r@ == spec_decimal(n as nat),
{
    let mut r = Vec::new();
    push_u64(&mut r, n);
    assert(r@ =~= spec_decimal(n as nat));
    r
}

/// The decimal text of a signed value, with a leading `-` if negative.
pub fn i64_to_bytes(v: i64) -> (r: Vec<u8>)
    ensures
        r@ == spec_i64_text(v),
{
    let mut r = Vec::new();
    if v < 0 {
        r.push(MINUS);
        let mag: u64 = if v == i64::MIN { 0x8000_0000_0000_0000u64 } else { (-v) as u64 };
        push_u64(&mut r, mag);
    } else {
        push_u64(&mut r, v as u64);
    }
    assert(r@ =~= spec_i64_text(v));
    r
}

/// All bytes of `s` are digits of `base` (2 to 16).
pub open spec fn all_radix_digits(s: Seq<u8>, base: int) -> bool {
    forall|i: int| 0 <= i < s.len() ==> spec_is_xdigit(#[trigger] s[i]) && spec_digit_value(s[i]) < base
}

/// Whether `b` is a digit of `base` (2 to 16).
fn is_radix_digit(b: u8, base: u64) -> (r: bool)
    requires
        2 <= base <= 16,
    ensures
        r == (spec_is_xdigit(b) && spec_digit_value(b) < base),
{
    if !is_xdigit(b) {
        return false;
    }
    let v: u64 = if is_digit(b) {
        (b - DIGIT_ZERO) as u64
    } else if LOWER_A <= b {
        (b - LOWER_A) as u64 + 10
    } else {
        (b - UPPER_A) as u64 + 10
    };
    v < base
}

proof fn lemma_radix_value_nonneg(s: Seq<u8>, base: int)
    requires
        base >= 2,
        all_radix_digits(s, base),
    ensures
        spec_radix_value(s, base) >= 0,
    decreases s.len(),
{
    if s.len() > 0 {
        assert(all_radix_digits(s.drop_last(), base));
        lemma_radix_value_nonneg(s.drop_last(), base);
        assert(spec_is_xdigit(s[s.len() - 1]));
        assert(spec_radix_value(s.drop_last(), base) * base >= 0) by (nonlinear_arith)
            requires spec_radix_value(s.drop_last(), base) >= 0, base >= 2;
    }
}

/// Reads `s` as non-empty digits of `base`; `None` where a byte is no such
/// digit, `s` is empty, or the value exceeds `u64::MAX`.
pub fn parse_radix_u64(s: &[u8], base: u64) -> (r: Option<u64>)
    requires
        2 <= base <= 16,
    ensures
        r matches Some(v) ==> s@.len() > 0 && all_radix_digits(s@, base as int) && v == spec_radix_value(s@, base as int),
        r is None ==> s@.len() == 0 || !all_radix_digits(s@, base as int) || spec_radix_value(s@, base as int) > u64::MAX,
{
    if s.len() == 0 {
        return None;
    }
    let mut acc: u64 = 0;
    let mut i: usize = 0;
    let mut overflow = false;
    while i < s.len()
        invariant
            2 <= base <= 16,
            i <= s.len(),
            all_radix_digits(s@.take(i as int), base as int),
            !overflow ==> acc == spec_radix_value(s@.take(i as int), base as int),
            overflow ==> spec_radix_value(s@.take(i as int), base as int) > u64::MAX,
        decreases s.len() - i,
    {
        let b = s[i];
        if !is_radix_digit(b, base) {
            assert(!all_radix_digits(s@, base as int)) by {
                assert(s@[i as int] == b);
            }
            return None;
        }
        let d: u64 = if is_digit(b) {
            (b - DIGIT_ZERO) as u64
        } else if LOWER_A <= b {
            (b - LOWER_A) as u64 + 10
        } else {
            (b - UPPER_A) as u64 + 10
        };
        let ghost prev = spec_radix_value(s@.take(i as int), base as int);
        assert(s@.take(i + 1).drop_last() =~= s@.take(i as int));
        assert(s@.take(i + 1).last() == b);
        assert(all_radix_digits(s@.take(i + 1), base as int));
        proof { lemma_radix_value_nonneg(s@.take(i as int), base as int); }
        if overflow {
            assert(prev * base + d > u64::MAX) by (nonlinear_arith)
                requires prev > u64::MAX, base >= 2, d >= 0;
        } else {
            match acc.checked_mul(base) {
                Some(m) => match m.checked_add(d) {
                    Some(v) => {
                        acc = v;
                    },
                    None => {
                        overflow = true;
                    },
                },
                None => {
                    overflow = true;
                    assert(prev * base + d > u64::MAX) by (nonlinear_arith)
                        requires prev * base > u64::MAX, d >= 0;
                },
            }
        }
        i += 1;
    }
    assert(s@.take(s.len() as int) =~= s@);
    if overflow {
        None
    } else {
        Some(acc)
    }
}

/// The value that `parse_i64` reads from `s`: an optional sign, then
/// decimal digits.
pub open spec fn spec_parse_i64(s: Seq<u8>) -> Option<i64> {
    let neg = s.len() > 0 && s[0] == MINUS;
    let signed = s.len() > 0 && (s[0] == MINUS || s[0] == PLUS);
    let digits = if signed { s.drop_first() } else { s };
    if digits.len() == 0 || !all_radix_digits(digits, 10) {
        None
    } else {
        let v = if neg { -spec_radix_value(digits, 10) } else { spec_radix_value(digits, 10) };
        if i64::MIN <= v <= i64::MAX {
            Some(v as i64)
        } else {
            None
        }
    }
}

/// Non-empty digits of `base` whose value fits in `i64`.
pub open spec fn spec_parse_radix_i64(s: Seq<u8>, base: int) -> Option<i64> {
    if s.len() == 0 || !all_radix_digits(s, base) || spec_radix_value(s, base) > i64::MAX {
        None
    } else {
        Some(spec_radix_value(s, base) as i64)
    }
}

/// Parses an optionally signed decimal integer.
pub fn parse_i64(s: &[u8]) -> (r: Option<i64>)
    ensures
        r == spec_parse_i64(s@),
{
    let neg = s.len() > 0 && s[0] == MINUS;
    let signed = s.len() > 0 && (s[0] == MINUS || s[0] == PLUS);
    let digits = if signed { vstd::slice::slice_subrange(s, 1, s.len()) } else { s };
    assert(signed ==> digits@ =~= s@.drop_first());
    match parse_radix_u64(digits, 10) {
        None => None,
        Some(mag) => {
            if neg {
                if mag <= 0x8000_0000_0000_0000u64 {
                    if mag == 0x8000_0000_0000_0000u64 {
                        Some(i64::MIN)
                    } else {
                        Some(-(mag as i64))
                    }
                } else {
                    None
                }
            } else if mag <= i64::MAX as u64 {
                Some(mag as i64)
            } else {
                None
            }
        },
    }
}

/// Parses non-empty hexadecimal digits.
pub fn parse_hex_i64(s: &[u8]) -> (r: Option<i64>)
    ensures
        r == spec_parse_radix_i64(s@, 16),
{
    match parse_radix_u64(s, 16) {
        Some(v) if v <= i64::MAX as u64 => Some(v as i64),
        _ => None,
    }
}

/// Parses non-empty octal digits.
pub fn parse_octal_i64(s: &[u8]) -> (r: Option<i64>)
    ensures
        r == spec_parse_radix_i64(s@, 8),
{
    match parse_radix_u64(s, 8) {
        Some(v) if v <= i64::MAX as u64 => Some(v as i64),
        _ => None,
    }
}


proof fn lemma_decimal_reads_back(n: nat)
    ensures
        spec_decimal(n).len() > 0,
        all_radix_digits(spec_decimal(n), 10),
        spec_radix_value(spec_decimal(n), 10) == n,
        spec_decimal(n)[0] != MINUS && spec_decimal(n)[0] != PLUS,
    decreases n,
{
    if n >= 10 {
        lemma_decimal_reads_back(n / 10);
        let d = spec_decimal(n);
        assert(d.drop_last() =~= spec_decimal(n / 10));
        assert forall|i: int| 0 <= i < d.len() implies spec_is_xdigit(#[trigger] d[i]) && spec_digit_value(d[i]) < 10 by {
            if i < d.len() - 1 {
                assert(d[i] == spec_decimal(n / 10)[i]);
            }
        }
        assert(d[0] == spec_decimal(n / 10)[0]);
        assert(d.last() == (DIGIT_ZERO + n % 10) as u8);
        assert(spec_digit_value(d.last()) == n % 10);
        assert((n / 10) * 10 + n % 10 == n) by (nonlinear_arith);
        assert(spec_radix_value(d, 10) == spec_radix_value(d.drop_last(), 10) * 10 + spec_digit_value(d.last()));
        assert(spec_radix_value(d.drop_last(), 10) == n / 10);
    } else {
        let d = spec_decimal(n);
        assert(d.drop_last() =~= Seq::<u8>::empty());
        assert(spec_digit_value(d.last()) == n);
        assert(spec_radix_value(d.drop_last(), 10) == 0);
        assert(spec_radix_value(d, 10) == spec_radix_value(d.drop_last(), 10) * 10 + spec_digit_value(d.last()));
    }
}

/// The decimal text of `n` is digits only, without a leading zero unless
/// `n` is zero.
pub proof fn lemma_decimal_digits(n: nat)
    ensures
        spec_decimal(n).len() > 0,
        forall|i: int| 0 <= i < spec_decimal(n).len() ==> spec_is_digit(#[trigger] spec_decimal(n)[i]),
        n >= 1 ==> spec_decimal(n)[0] != DIGIT_ZERO,
        n == 0 ==> spec_decimal(n) == seq![DIGIT_ZERO],
    decreases n,
{
    if n >= 10 {
        lemma_decimal_digits(n / 10);
        let d = spec_decimal(n);
        assert forall|i: int| 0 <= i < d.len() implies spec_is_digit(#[trigger] d[i]) by {
            if i < d.len() - 1 {
                assert(d[i] == spec_decimal(n / 10)[i]);
            }
        }
        assert(d[0] == spec_decimal(n / 10)[0]);
    }
}

/// Reading back the decimal text of a value gives the value.
pub proof fn law_i64_text_parses_back(v: i64)
    ensures
        spec_parse_i64(spec_i64_text(v)) == Some(v),
{
    if v < 0 {
        let m = (-v) as nat;
        lemma_decimal_reads_back(m);
        assert((seq![MINUS] + spec_decimal(m)).drop_first() =~= spec_decimal(m));
    } else {
        lemma_decimal_reads_back(v as nat);
    }
}

} // verus!
