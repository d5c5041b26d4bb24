//! Lexical helpers over the raw text of words: names, assignments,
//! quotes, escapes and the ends of nested constructs.

use vstd::prelude::*;
use vstd::string::StringSliceAdditionalSpecFns;
use crate::chars::{
    spec_is_digit, spec_is_lower, spec_is_upper, spec_is_name_char, spec_is_name_start, spec_is_ws,
    is_digit, is_lower, is_upper, is_name_char, is_name_start, is_ws, BACKSLASH, EQUALS, NEWLINE,
    QUESTION, DEL, DIGIT_ZERO, LOWER_A, UPPER_A, SQUOTE, DQUOTE, DOLLAR, LBRACE, RBRACE, LPAREN, RPAREN,
    COLON, BACKQUOTE, LOWER_X, DIGIT_SEVEN, PERCENT, HASH, STAR, AT, BANG, MINUS, PLUS,
};

verus! {

/// The index after the longest run of name bytes that starts at `i`.
pub open spec fn name_end(raw: Seq<u8>, i: int) -> int
    decreases raw.len() - i,
{
    if 0 <= i < raw.len() && spec_is_name_char(raw[i]) {
        name_end(raw, i + 1)
    } else {
        i
    }
}

/// The index of the `=` of an assignment word `NAME=value`.
pub open spec fn spec_assignment_eq(raw: Seq<u8>) -> Option<int> {
    if raw.len() == 0 || !spec_is_name_start(raw[0]) {
        None
    } else {
        let e = name_end(raw, 1);
        if e < raw.len() && raw[e] == EQUALS {
            Some(e)
        } else {
            None
        }
    }
}

/// Whether `name` is a shell name: a letter or `_`, then letters, digits
/// or `_`.
pub open spec fn spec_is_name(name: Seq<u8>) -> bool {
    name.len() > 0 && spec_is_name_start(name[0]) && forall|i: int| 1 <= i < name.len() ==> spec_is_name_char(#[trigger] name[i])
}

pub proof fn lemma_name_end_bounds(raw: Seq<u8>, i: int)
    requires
        0 <= i <= raw.len(),
    ensures
        i <= name_end(raw, i) <= raw.len(),
        forall|j: int| i <= j < name_end(raw, i) ==> spec_is_name_char(#[trigger] raw[j]),
        name_end(raw, i) < raw.len() ==> !spec_is_name_char(raw[name_end(raw, i)]),
    decreases raw.len() - i,
{
    if i < raw.len() && spec_is_name_char(raw[i]) {
        lemma_name_end_bounds(raw, i + 1);
    }
}

/// The value part of an assignment word `NAME=value`, or `None` if the
/// word is no assignment.
pub fn word_assignment_value(raw: &[u8]) -> (r: Option<&[u8]>)
    ensures
        match spec_assignment_eq(raw@) {
            Some(e) => r matches Some(v) && v@ == raw@.subrange(e + 1, raw@.len() as int),
            None => r is None,
        },
{
    if raw.len() == 0 {
        return None;
    }
    let first = raw[0];
    if !is_name_start(first) {
        return None;
    }
    proof { lemma_name_end_bounds(raw@, 1); }
    let mut i: usize = 1;
    while i < raw.len()
        invariant
            1 <= i <= raw.len(),
            spec_is_name_start(raw@[0]),
            name_end(raw@, 1) == name_end(raw@, i as int),
        decreases raw.len() - i,
    {
        let b = raw[i];
        if b == EQUALS {
            return Some(vstd::slice::slice_subrange(raw, i + 1, raw.len()));
        }
        if !is_name_char(b) {
            return None;
        }
        i += 1;
    }
    None
}

/// Whether a word is an assignment `NAME=value`.
pub fn word_is_assignment(raw: &[u8]) -> (r: bool)
    ensures
        r == spec_assignment_eq(raw@) is Some,
{
    word_assignment_value(raw).is_some()
}

/// Whether `name` is a shell name.
pub fn is_name(name: &[u8]) -> (r: bool)
    ensures
        r == spec_is_name(name@),
{
    if name.len() == 0 {
        return false;
    }
    if !is_name_start(name[0]) {
        return false;
    }
    let mut i: usize = 1;
    while i < name.len()
        invariant
            1 <= i <= name.len(),
            forall|j: int| 1 <= j < i ==> spec_is_name_char(#[trigger] name@[j]),
        decreases name.len() - i,
    {
        if !is_name_char(name[i]) {
            return false;
        }
        i += 1;
    }
    true
}

/// The length of `s` without its trailing newlines.
pub open spec fn trimmed_newlines_len(s: Seq<u8>) -> int
    decreases s.len(),
{
    if s.len() > 0 && s.last() == NEWLINE {
        trimmed_newlines_len(s.drop_last())
    } else {
        s.len() as int
    }
}

/// `s` without its trailing newlines.
pub fn trim_trailing_newlines(s: &[u8]) -> (r: &[u8])
    ensures
        r@ == s@.take(trimmed_newlines_len(s@)),
{
    let mut end = s.len();
    assert(s@.take(end as int) =~= s@);
    while end > 0 && s[end - 1] == NEWLINE
        invariant
            end <= s.len(),
            trimmed_newlines_len(s@) == trimmed_newlines_len(s@.take(end as int)),
        decreases end,
    {
        assert(s@.take(end as int).drop_last() =~= s@.take(end - 1));
        end -= 1;
    }
    assert(s@.take(end as int).len() == end);
    vstd::slice::slice_subrange(s, 0, end)
}

/// The index of the first byte of `s` that is no whitespace, from `i` on.
pub open spec fn first_non_ws(s: Seq<u8>, i: int) -> int
    decreases s.len() - i,
{
    if 0 <= i < s.len() && spec_is_ws(s[i]) {
        first_non_ws(s, i + 1)
    } else {
        i
    }
}

/// The index after the last byte of `s[..end]` that is no whitespace, or
/// `start` if there is none after it.
pub open spec fn last_non_ws_end(s: Seq<u8>, start: int, end: int) -> int
    decreases end - start,
{
    if start < end && spec_is_ws(s[end - 1]) {
        last_non_ws_end(s, start, end - 1)
    } else {
        end
    }
}

/// `s` without leading and trailing whitespace.
pub fn trim_ascii_whitespace(s: &[u8]) -> (r: &[u8])
    ensures
        r@ == s@.subrange(first_non_ws(s@, 0), last_non_ws_end(s@, first_non_ws(s@, 0), s@.len() as int)),
{
    let mut start: usize = 0;
    while start < s.len() && is_ws(s[start])
        invariant
            start <= s.len(),
            first_non_ws(s@, 0) == first_non_ws(s@, start as int),
        decreases s.len() - start,
    {
        start += 1;
    }
    let mut end = s.len();
    while end > start && is_ws(s[end - 1])
        invariant
            start <= end <= s.len(),
            start == first_non_ws(s@, 0),
            last_non_ws_end(s@, start as int, s@.len() as int) == last_non_ws_end(s@, start as int, end as int),
        decreases end,
    {
        end -= 1;
    }
    vstd::slice::slice_subrange(s, start, end)
}

/// The value of octal digits, taken modulo 256 as each digit shifts in.
pub open spec fn spec_octal_u8(digits: Seq<u8>) -> u8
    decreases digits.len(),
{
    if digits.len() == 0 {
        0
    } else {
        ((spec_octal_u8(digits.drop_last()) as int * 8 + (digits.last() - DIGIT_ZERO)) % 256) as u8
    }
}

/// The byte that octal digits (at most three) stand for.
pub fn parse_octal_digits(digits: &[u8]) -> (r: u8)
    requires
        forall|i: int| 0 <= i < digits.len() ==> DIGIT_ZERO <= #[trigger] digits@[i],
    ensures
        r == spec_octal_u8(digits@),
{
    let mut val: u8 = 0;
    let mut i: usize = 0;
    while i < digits.len()
        invariant
            i <= digits.len(),
            forall|k: int| 0 <= k < digits.len() ==> DIGIT_ZERO <= #[trigger] digits@[k],
            val == spec_octal_u8(digits@.take(i as int)),
        decreases digits.len() - i,
    {
        let d = digits[i];
        assert(digits@.take(i + 1).drop_last() =~= digits@.take(i as int));
        let ghost prev = val as int;
        val = val.wrapping_mul(8).wrapping_add(d - DIGIT_ZERO);
        assert(val == ((prev * 8) % 256 + (d - DIGIT_ZERO)) % 256);
        assert(((prev * 8) % 256 + (d - DIGIT_ZERO)) % 256 == (prev * 8 + (d - DIGIT_ZERO)) % 256) by (nonlinear_arith)
            requires 0 <= prev, 0 <= d - DIGIT_ZERO;
        i += 1;
    }
    assert(digits@.take(digits.len() as int) =~= digits@);
    val
}

/// The control character that `\cX` names.
pub open spec fn spec_control_escape(ch: u8) -> u8 {
    if ch == BACKSLASH {
        0x1c
    } else if ch == QUESTION {
        DEL
    } else {
        ch & 0x1f
    }
}

/// The control character that `\cX` names.
pub fn control_escape(ch: u8) -> (r: u8)
    ensures
        r == spec_control_escape(ch),
{
    if ch == BACKSLASH {
        0x1c
    } else if ch == QUESTION {
        DEL
    } else {
        ch & 0x1f
    }
}

/// The value of `b` as a digit (letters count from ten), if it is a
/// letter or digit.
pub open spec fn spec_alnum_digit(b: u8) -> Option<int> {
    if spec_is_digit(b) {
        Some(b - DIGIT_ZERO)
    } else if spec_is_lower(b) {
        Some(b - LOWER_A + 10)
    } else if spec_is_upper(b) {
        Some(b - UPPER_A + 10)
    } else {
        None
    }
}

/// Whether `b` is a digit in `base`.
pub open spec fn spec_is_digit_for_base(b: u8, base: u32) -> bool {
    match spec_alnum_digit(b) {
        Some(d) => d < base,
        None => false,
    }
}

/// Whether `b` is a digit in `base`.
pub fn is_digit_for_base(b: u8, base: u32) -> (r: bool)
    ensures
        r == spec_is_digit_for_base(b, base),
{
    let digit: u32 = if is_digit(b) {
        (b - DIGIT_ZERO) as u32
    } else if is_lower(b) {
        (b - LOWER_A) as u32 + 10
    } else if is_upper(b) {
        (b - UPPER_A) as u32 + 10
    } else {
        return false;
    };
    digit < base
}

/// The number of leading bytes of `s`, at most `max`, that are digits of
/// `base`.
pub open spec fn base_digit_run(s: Seq<u8>, base: u32, max: int, i: int) -> int
    decreases max - i,
{
    if i < max && i < s.len() && spec_is_digit_for_base(s[i], base) {
        base_digit_run(s, base, max, i + 1)
    } else {
        i
    }
}

/// The byte value of digits in `base`, taken modulo 256 as each shifts in.
pub open spec fn spec_base_value_u8(s: Seq<u8>, base: u32) -> u8
    decreases s.len(),
{
    if s.len() == 0 {
        0
    } else {
        let b = s.last();
        let digit = if b >= LOWER_A { b - LOWER_A + 10 } else if b >= UPPER_A { b - UPPER_A + 10 } else { b - DIGIT_ZERO };
        ((spec_base_value_u8(s.drop_last(), base) as int * (base as int % 256) + digit) % 256) as u8
    }
}

/// Reads up to `max_digits` digits of `base` (at most 36) from the start of
/// `source`: the byte they stand for and how many were read.
pub fn parse_variable_base_escape(source: &[u8], base: u32, max_digits: usize) -> (r: (u8, usize))
    requires
        2 <= base <= 36,
    ensures
        r.1 == base_digit_run(source@, base, max_digits as int, 0),
        r.1 == 0 ==> r.0 == 0,
        r.1 > 0 ==> r.0 == spec_base_value_u8(source@.take(r.1 as int), base),
{
    let mut consumed: usize = 0;
    while consumed < max_digits && consumed < source.len() && is_digit_for_base(source[consumed], base)
        invariant
            consumed <= source.len(),
            consumed <= max_digits,
            base_digit_run(source@, base, max_digits as int, 0) == base_digit_run(source@, base, max_digits as int, consumed as int),
            forall|k: int| 0 <= k < consumed ==> spec_is_digit_for_base(#[trigger] source@[k], base),
        decreases source.len() - consumed,
    {
        consumed += 1;
    }
    if consumed == 0 {
        return (0, 0);
    }
    let mut val: u8 = 0;
    let mut i: usize = 0;
    while i < consumed
        invariant
            i <= consumed <= source.len(),
            2 <= base <= 36,
            forall|k: int| 0 <= k < consumed ==> spec_is_digit_for_base(#[trigger] source@[k], base),
            val == spec_base_value_u8(source@.take(i as int), base),
        decreases consumed - i,
    {
        let b = source[i];
        assert(spec_is_digit_for_base(source@[i as int], base));
        let digit = if b >= LOWER_A {
            b - LOWER_A + 10
        } else if b >= UPPER_A {
            b - UPPER_A + 10
        } else {
            b - DIGIT_ZERO
        };
        assert(source@.take(i + 1).drop_last() =~= source@.take(i as int));
        let ghost prev = val as int;
        val = val.wrapping_mul(base as u8).wrapping_add(digit);
        assert(base as u8 == base as int % 256);
        assert(val == ((prev * (base as int % 256)) % 256 + digit) % 256);
        assert(((prev * (base as int % 256)) % 256 + digit) % 256 == (prev * (base as int % 256) + digit) % 256) by (nonlinear_arith)
            requires 0 <= prev, 0 <= digit;
        i += 1;
    }
    (val, consumed)
}

} // verus!

verus! {

// ---------------------------------------------------------------------
// Quoted spans
// ---------------------------------------------------------------------

/// The index of the `'` that closes a single-quoted span whose text starts
/// at `i`, or the end of `raw`.
pub open spec fn skip_single(raw: Seq<u8>, i: int) -> int
    decreases raw.len() - i,
{
    if 0 <= i < raw.len() && raw[i] != SQUOTE {
        skip_single(raw, i + 1)
    } else {
        i
    }
}

/// The index of the `"` that closes a double-quoted span whose text starts
/// at `i` (a backslash hides the byte after it), or the end of `raw`.
pub open spec fn skip_double(raw: Seq<u8>, i: int) -> int
    decreases raw.len() - i,
{
    if 0 <= i < raw.len() && raw[i] != DQUOTE {
        if raw[i] == BACKSLASH && i + 1 < raw.len() {
            skip_double(raw, i + 2)
        } else {
            skip_double(raw, i + 1)
        }
    } else {
        i
    }
}

pub proof fn lemma_skip_single(raw: Seq<u8>, i: int)
    requires
        0 <= i <= raw.len(),
    ensures
        i <= skip_single(raw, i) <= raw.len(),
        skip_single(raw, i) < raw.len() ==> raw[skip_single(raw, i)] == SQUOTE,
    decreases raw.len() - i,
{
    if i < raw.len() && raw[i] != SQUOTE {
        lemma_skip_single(raw, i + 1);
    }
}

proof fn lemma_skip_double(raw: Seq<u8>, i: int)
    requires
        0 <= i <= raw.len(),
    ensures
        i <= skip_double(raw, i) <= raw.len(),
        skip_double(raw, i) < raw.len() ==> raw[skip_double(raw, i)] == DQUOTE,
    decreases raw.len() - i,
{
    if i < raw.len() && raw[i] != DQUOTE {
        if raw[i] == BACKSLASH && i + 1 < raw.len() {
            lemma_skip_double(raw, i + 2);
        } else {
            lemma_skip_double(raw, i + 1);
        }
    }
}

// ---------------------------------------------------------------------
// Splitting assignment values on colons
// ---------------------------------------------------------------------

/// The index after a quoted span that opens at `i`.
pub open spec fn after_quote(raw: Seq<u8>, close: int) -> int {
    if close < raw.len() {
        close + 1
    } else {
        close
    }
}

/// The parts of `raw` from `start` on, split at each colon that stands
/// outside quotes, `${...}` and `$(...)`; scanning has reached `i` with
/// the given nesting depths.
pub open spec fn colon_parts(raw: Seq<u8>, i: int, brace: nat, paren: nat, start: int) -> Seq<Seq<u8>>
    decreases raw.len() - i,
{
    if i < 0 || i >= raw.len() {
        seq![raw.subrange(start, raw.len() as int)]
    } else {
        let c = raw[i];
        let top = brace == 0 && paren == 0;
        if c == SQUOTE && top {
            let k = after_quote(raw, skip_single(raw, i + 1));
            if k <= i || k > raw.len() { seq![] } else { colon_parts(raw, k, brace, paren, start) }
        } else if c == DQUOTE && top {
            let k = after_quote(raw, skip_double(raw, i + 1));
            if k <= i || k > raw.len() { seq![] } else { colon_parts(raw, k, brace, paren, start) }
        } else if c == BACKSLASH {
            colon_parts(raw, if i + 1 < raw.len() { i + 2 } else { i + 1 }, brace, paren, start)
        } else if c == DOLLAR && i + 1 < raw.len() && raw[i + 1] == LBRACE {
            colon_parts(raw, i + 2, brace + 1, paren, start)
        } else if c == RBRACE && brace > 0 {
            colon_parts(raw, i + 1, (brace - 1) as nat, paren, start)
        } else if c == DOLLAR && i + 1 < raw.len() && raw[i + 1] == LPAREN {
            colon_parts(raw, i + 2, brace, paren + 1, start)
        } else if c == RPAREN && paren > 0 {
            colon_parts(raw, i + 1, brace, (paren - 1) as nat, start)
        } else if c == COLON && top {
            seq![raw.subrange(start, i)] + colon_parts(raw, i + 1, brace, paren, i + 1)
        } else {
            colon_parts(raw, i + 1, brace, paren, start)
        }
    }
}

/// Splits an assignment value at the colons that stand outside quotes and
/// nested expansions, for tilde expansion after each colon.
pub fn split_on_unquoted_colons(raw: &[u8]) -> (r: Vec<Vec<u8>>)
    ensures
        crate::bytes::views(r@) == colon_parts(raw@, 0, 0, 0, 0),
{
    let mut parts: Vec<Vec<u8>> = Vec::new();
    let mut current: Vec<u8> = Vec::new();
    let mut i: usize = 0;
    let mut brace_depth: usize = 0;
    let mut paren_depth: usize = 0;
    let ghost mut start: int = 0;
    assert(crate::bytes::views(parts@) =~= Seq::<Seq<u8>>::empty());
    while i < raw.len()
        invariant
            0 <= start <= i <= raw.len(),
            brace_depth <= i,
            paren_depth <= i,
            current@ == raw@.subrange(start, i as int),
            crate::bytes::views(parts@) + colon_parts(raw@, i as int, brace_depth as nat, paren_depth as nat, start)
                == colon_parts(raw@, 0, 0, 0, 0),
        decreases raw.len() - i,
    {
        let ghost gi = i as int;
        let c = raw[i];
        let top = brace_depth == 0 && paren_depth == 0;
        if c == SQUOTE && top {
            proof { lemma_skip_single(raw@, gi + 1); }
            current.push(SQUOTE);
            i += 1;
            assert(current@ =~= raw@.subrange(start, i as int));
            while i < raw.len() && raw[i] != SQUOTE
                invariant
                    0 <= start <= gi < i <= raw.len(),
                    current@ == raw@.subrange(start, i as int),
                    skip_single(raw@, i as int) == skip_single(raw@, gi + 1),
                decreases raw.len() - i,
            {
                current.push(raw[i]);
                i += 1;
                assert(current@ =~= raw@.subrange(start, i as int));
            }
            if i < raw.len() {
                current.push(SQUOTE);
                i += 1;
                assert(current@ =~= raw@.subrange(start, i as int));
            }
        } else if c == DQUOTE && top {
            proof { lemma_skip_double(raw@, gi + 1); }
            current.push(DQUOTE);
            i += 1;
            assert(current@ =~= raw@.subrange(start, i as int));
            while i < raw.len() && raw[i] != DQUOTE
                invariant
                    0 <= start <= gi < i <= raw.len(),
                    current@ == raw@.subrange(start, i as int),
                    skip_double(raw@, i as int) == skip_double(raw@, gi + 1),
                decreases raw.len() - i,
            {
                if raw[i] == BACKSLASH && 1 < raw.len() - i {
                    current.push(BACKSLASH);
                    i += 1;
                    assert(current@ =~= raw@.subrange(start, i as int));
                }
                current.push(raw[i]);
                i += 1;
                assert(current@ =~= raw@.subrange(start, i as int));
            }
            if i < raw.len() {
                current.push(DQUOTE);
                i += 1;
                assert(current@ =~= raw@.subrange(start, i as int));
            }
        } else if c == BACKSLASH {
            current.push(BACKSLASH);
            i += 1;
            if i < raw.len() {
                current.push(raw[i]);
                i += 1;
            }
            assert(current@ =~= raw@.subrange(start, i as int));
        } else if c == DOLLAR && 1 < raw.len() - i && raw[i + 1] == LBRACE {
            current.push(DOLLAR);
            current.push(LBRACE);
            brace_depth += 1;
            i += 2;
            assert(current@ =~= raw@.subrange(start, i as int));
        } else if c == RBRACE && brace_depth > 0 {
            brace_depth -= 1;
            current.push(RBRACE);
            i += 1;
            assert(current@ =~= raw@.subrange(start, i as int));
        } else if c == DOLLAR && 1 < raw.len() - i && raw[i + 1] == LPAREN {
            current.push(DOLLAR);
            current.push(LPAREN);
            paren_depth += 1;
            i += 2;
            assert(current@ =~= raw@.subrange(start, i as int));
        } else if c == RPAREN && paren_depth > 0 {
            paren_depth -= 1;
            current.push(RPAREN);
            i += 1;
            assert(current@ =~= raw@.subrange(start, i as int));
        } else if c == COLON && top {
            let ghost pv = crate::bytes::views(parts@);
            let mut done: Vec<u8> = Vec::new();
            std::mem::swap(&mut done, &mut current);
            parts.push(done);
            assert(crate::bytes::views(parts@) =~= pv.push(raw@.subrange(start, gi)));
            i += 1;
            proof { start = i as int; }
            assert(current@ =~= raw@.subrange(start, i as int));
        } else {
            current.push(c);
            i += 1;
            assert(current@ =~= raw@.subrange(start, i as int));
        }
    }
    let ghost pv = crate::bytes::views(parts@);
    parts.push(current);
    assert(crate::bytes::views(parts@) =~= pv.push(raw@.subrange(start, raw@.len() as int)));
    parts
}


proof fn lemma_join_prepend(x: Seq<u8>, rest: Seq<Seq<u8>>, sep: Seq<u8>)
    requires
        rest.len() > 0,
    ensures
        crate::bytes::spec_join(seq![x] + rest, sep) == x + sep + crate::bytes::spec_join(rest, sep),
    decreases rest.len(),
{
    let all = seq![x] + rest;
    if rest.len() == 1 {
        assert(all.drop_last() =~= seq![x]);
        assert(crate::bytes::spec_join(seq![x], sep) == x);
        assert(crate::bytes::spec_join(rest, sep) == rest[0]);
        assert(all.last() == rest[0]);
    } else {
        lemma_join_prepend(x, rest.drop_last(), sep);
        assert(all.drop_last() =~= seq![x] + rest.drop_last());
        assert(all.last() == rest.last());
        let jr = crate::bytes::spec_join(rest.drop_last(), sep);
        assert(crate::bytes::spec_join(rest, sep) == jr + sep + rest.last());
        assert(crate::bytes::spec_join(all, sep) == (x + sep + jr) + sep + rest.last());
        assert((x + sep + jr) + sep + rest.last() =~= x + sep + (jr + sep + rest.last()));
    }
}

proof fn lemma_colon_parts_join(raw: Seq<u8>, i: int, brace: nat, paren: nat, start: int)
    requires
        0 <= start <= i,
        start <= raw.len(),
    ensures
        colon_parts(raw, i, brace, paren, start).len() > 0,
        crate::bytes::spec_join(colon_parts(raw, i, brace, paren, start), seq![COLON])
            == raw.subrange(start, raw.len() as int),
    decreases raw.len() - i,
{
    if i < raw.len() {
        let c = raw[i];
        let top = brace == 0 && paren == 0;
        if c == SQUOTE && top {
            lemma_skip_single(raw, i + 1);
            lemma_colon_parts_join(raw, after_quote(raw, skip_single(raw, i + 1)), brace, paren, start);
        } else if c == DQUOTE && top {
            lemma_skip_double(raw, i + 1);
            lemma_colon_parts_join(raw, after_quote(raw, skip_double(raw, i + 1)), brace, paren, start);
        } else if c == BACKSLASH {
            lemma_colon_parts_join(raw, if i + 1 < raw.len() { i + 2 } else { i + 1 }, brace, paren, start);
        } else if c == DOLLAR && i + 1 < raw.len() && raw[i + 1] == LBRACE {
            lemma_colon_parts_join(raw, i + 2, brace + 1, paren, start);
        } else if c == RBRACE && brace > 0 {
            lemma_colon_parts_join(raw, i + 1, (brace - 1) as nat, paren, start);
        } else if c == DOLLAR && i + 1 < raw.len() && raw[i + 1] == LPAREN {
            lemma_colon_parts_join(raw, i + 2, brace, paren + 1, start);
        } else if c == RPAREN && paren > 0 {
            lemma_colon_parts_join(raw, i + 1, brace, (paren - 1) as nat, start);
        } else if c == COLON && top {
            let rest = colon_parts(raw, i + 1, brace, paren, i + 1);
            lemma_colon_parts_join(raw, i + 1, brace, paren, i + 1);
            lemma_join_prepend(raw.subrange(start, i), rest, seq![COLON]);
            assert(raw.subrange(start, i) + seq![COLON] + raw.subrange(i + 1, raw.len() as int)
                =~= raw.subrange(start, raw.len() as int));
        } else {
            lemma_colon_parts_join(raw, i + 1, brace, paren, start);
        }
    } else {
        assert(colon_parts(raw, i, brace, paren, start) == seq![raw.subrange(start, raw.len() as int)]);
    }
}

/// Joining the parts of an assignment value with colons gives the value
/// back.
pub proof fn law_colon_parts_rejoin(raw: Seq<u8>)
    ensures
        crate::bytes::spec_join(colon_parts(raw, 0, 0, 0, 0), seq![COLON]) == raw,
{
    lemma_colon_parts_join(raw, 0, 0, 0, 0);
    assert(raw.subrange(0, raw.len() as int) =~= raw);
}


// ---------------------------------------------------------------------
// Backquoted command substitution
// ---------------------------------------------------------------------

/// Whether `\next` inside backquotes stands for `next` alone.
pub open spec fn backquote_special(next: u8, in_double_quotes: bool) -> bool {
    if in_double_quotes {
        next == DOLLAR || next == BACKQUOTE || next == BACKSLASH || next == DQUOTE || next == NEWLINE
    } else {
        next == DOLLAR || next == BACKQUOTE || next == BACKSLASH
    }
}

/// The command text of a backquoted substitution whose body starts at `i`,
/// and the index after its closing backquote.
pub open spec fn spec_backquote(src: Seq<u8>, i: int, dq: bool) -> Option<(Seq<u8>, int)>
    decreases src.len() - i,
{
    if i < 0 || i >= src.len() {
        None
    } else if src[i] == BACKQUOTE {
        Some((Seq::empty(), i + 1))
    } else if src[i] == BACKSLASH && i + 1 < src.len() && backquote_special(src[i + 1], dq) {
        match spec_backquote(src, i + 2, dq) {
            Some((cmd, e)) => Some((seq![src[i + 1]] + cmd, e)),
            None => None,
        }
    } else {
        match spec_backquote(src, i + 1, dq) {
            Some((cmd, e)) => Some((seq![src[i]] + cmd, e)),
            None => None,
        }
    }
}

proof fn lemma_backquote_bounds(src: Seq<u8>, i: int, dq: bool)
    ensures
        spec_backquote(src, i, dq) matches Some((_, e)) ==> i < e <= src.len(),
    decreases src.len() - i,
{
    if 0 <= i < src.len() && src[i] != BACKQUOTE {
        if src[i] == BACKSLASH && i + 1 < src.len() && backquote_special(src[i + 1], dq) {
            lemma_backquote_bounds(src, i + 2, dq);
        } else {
            lemma_backquote_bounds(src, i + 1, dq);
        }
    }
}

/// Where the text of an arithmetic expansion `$((...))` ends, scanning
/// from `i` with `depth` parentheses open: the index of the first `)` of
/// the `))` that closes it.
pub open spec fn arith_close(s: Seq<u8>, i: int, depth: int) -> Option<int>
    decreases s.len() - i,
{
    if i < 0 || i >= s.len() {
        None
    } else if s[i] == LPAREN {
        arith_close(s, i + 1, depth + 1)
    } else if s[i] == RPAREN {
        if depth == 1 && i + 1 < s.len() && s[i + 1] == RPAREN {
            Some(i)
        } else {
            arith_close(s, i + 1, if depth > 0 { depth - 1 } else { 0 })
        }
    } else {
        arith_close(s, i + 1, depth)
    }
}

/// Where the command of a substitution `$(...)` ends, scanning from `i`
/// with `depth` parentheses open: the index of the `)` that closes it.
pub open spec fn command_close(s: Seq<u8>, i: int, depth: int) -> Option<int>
    decreases s.len() - i,
{
    if i < 0 || i >= s.len() {
        None
    } else if s[i] == LPAREN {
        command_close(s, i + 1, depth + 1)
    } else if s[i] == RPAREN {
        if depth == 1 { Some(i) } else { command_close(s, i + 1, depth - 1) }
    } else {
        command_close(s, i + 1, depth)
    }
}

/// The text of the arithmetic expansion `$((...))` at the start of
/// `source` and the index after its closing `))`.
pub fn scan_arithmetic_expansion(source: &[u8]) -> (r: Result<(&[u8], usize), crate::context::ExpandError>)
    requires
        source@.len() >= 3,
        source@[1] == LPAREN,
        source@[2] == LPAREN,
    ensures
        match arith_close(source@, 3, 1) {
            Some(k) => r matches Ok((text, n)) && text@ == source@.subrange(3, k) && n == k + 2,
            None => r matches Err(e) && e.message@ == "unterminated arithmetic expansion".spec_bytes(),
        },
        r matches Ok((text, n)) ==> n == text@.len() + 5 && n <= source@.len(),
{
    let mut index: usize = 3;
    let mut depth: usize = 1;
    while index < source.len()
        invariant
            3 <= index <= source@.len(),
            depth <= index,
            arith_close(source@, index as int, depth as int) == arith_close(source@, 3, 1),
        decreases source@.len() - index,
    {
        let ch = source[index];
        if ch == LPAREN {
            depth += 1;
        } else if ch == RPAREN {
            if depth == 1 && 1 < source.len() - index && source[index + 1] == RPAREN {
                return Ok((vstd::slice::slice_subrange(source, 3, index), index + 2));
            }
            depth = depth.saturating_sub(1);
        }
        index += 1;
    }
    Err(crate::context::expand_error("unterminated arithmetic expansion"))
}

/// The command of the substitution `$(...)` at the start of `source` and
/// the index after its closing `)`.
pub fn scan_command_substitution(source: &[u8]) -> (r: Result<(&[u8], usize), crate::context::ExpandError>)
    requires
        source@.len() >= 2,
        source@[1] == LPAREN,
    ensures
        match command_close(source@, 2, 1) {
            Some(k) => r matches Ok((command, n)) && command@ == source@.subrange(2, k) && n == k + 1,
            None => r matches Err(e) && e.message@ == "unterminated command substitution".spec_bytes(),
        },
        r matches Ok((command, n)) ==> n == command@.len() + 3 && n <= source@.len(),
{
    let mut index: usize = 2;
    let mut depth: usize = 1;
    while index < source.len()
        invariant
            2 <= index <= source@.len(),
            1 <= depth <= index,
            command_close(source@, index as int, depth as int) == command_close(source@, 2, 1),
        decreases source@.len() - index,
    {
        let ch = source[index];
        if ch == LPAREN {
            depth += 1;
        } else if ch == RPAREN {
            depth -= 1;
            if depth == 0 {
                return Ok((vstd::slice::slice_subrange(source, 2, index), index + 1));
            }
        }
        index += 1;
    }
    Err(crate::context::expand_error("unterminated command substitution"))
}

/// Scans a backquoted command whose body starts at `*index`; on success
/// returns its text with the escapes removed and leaves `*index` after the
/// closing backquote.
pub fn scan_backtick_command(source: &[u8], index: &mut usize, in_double_quotes: bool) -> (r: Result<Vec<u8>, crate::context::ExpandError>)
    ensures
        match spec_backquote(source@, *old(index) as int, in_double_quotes) {
            Some((cmd, e)) => r matches Ok(c) && c@ == cmd && *final(index) == e,
            None => r matches Err(err) && err.message@ == "unterminated backquote".spec_bytes(),
        },
        r is Ok ==> *old(index) < *final(index) <= source@.len(),
{
    proof { lemma_backquote_bounds(source@, *index as int, in_double_quotes); }
    let mut command: Vec<u8> = Vec::new();
    let ghost start = *index as int;
    while *index < source.len()
        invariant
            start == *old(index) as int,
            spec_backquote(source@, start, in_double_quotes) matches Some((_, e)) ==> start < e <= source@.len(),
            match spec_backquote(source@, start, in_double_quotes) {
                Some((cmd, e)) => spec_backquote(source@, *index as int, in_double_quotes) matches Some((c2, e2))
                    && cmd == command@ + c2 && e == e2,
                None => spec_backquote(source@, *index as int, in_double_quotes) is None,
            },
        decreases source.len() - *index,
    {
        let ch = source[*index];
        if ch == BACKQUOTE {
            let ghost cur = *index as int;
            assert(spec_backquote(source@, cur, in_double_quotes) == Some((Seq::<u8>::empty(), cur + 1)));
            *index += 1;
            assert(command@ + Seq::<u8>::empty() =~= command@);
            assert(start == *old(index) as int);
            assert(spec_backquote(source@, start, in_double_quotes) == Some((command@, *index as int)));
            return Ok(command);
        }
        if ch == BACKSLASH && 1 < source.len() - *index {
            let next = source[*index + 1];
            let special = if in_double_quotes {
                next == DOLLAR || next == BACKQUOTE || next == BACKSLASH || next == DQUOTE || next == NEWLINE
            } else {
                next == DOLLAR || next == BACKQUOTE || next == BACKSLASH
            };
            if special {
                let ghost before = command@;
                command.push(next);
                *index += 2;
                proof {
                    match spec_backquote(source@, *index as int, in_double_quotes) {
                        Some((c2, e2)) => { assert(before + (seq![next] + c2) =~= command@ + c2); },
                        None => {},
                    }
                }
                continue;
            }
        }
        let ghost before = command@;
        command.push(ch);
        *index += 1;
        proof {
            match spec_backquote(source@, *index as int, in_double_quotes) {
                Some((c2, e2)) => { assert(before + (seq![ch] + c2) =~= command@ + c2); },
                None => {},
            }
        }
    }
    Err(crate::context::expand_error("unterminated backquote"))
}


// ---------------------------------------------------------------------
// The end of a braced parameter expansion
// ---------------------------------------------------------------------

/// The index of the `"` that closes a double-quoted span whose text starts
/// at `i`, a backslash skipping the byte after it even at the end; an index
/// at or past the end of `src` where no quote closes the span.
pub open spec fn skip_raw_double(src: Seq<u8>, i: int) -> int
    decreases src.len() + 2 - i,
{
    if 0 <= i < src.len() && src[i] != DQUOTE {
        if src[i] == BACKSLASH {
            skip_raw_double(src, i + 2)
        } else {
            skip_raw_double(src, i + 1)
        }
    } else {
        i
    }
}

/// Like [`skip_raw_double`] for a backquoted span.
pub open spec fn skip_raw_backquote(src: Seq<u8>, i: int) -> int
    decreases src.len() + 2 - i,
{
    if 0 <= i < src.len() && src[i] != BACKQUOTE {
        if src[i] == BACKSLASH {
            skip_raw_backquote(src, i + 2)
        } else {
            skip_raw_backquote(src, i + 1)
        }
    } else {
        i
    }
}

/// The index after the `))` that closes an arithmetic expansion whose
/// body starts at `i` (at nesting `depth`), or the end of `src`.
pub open spec fn arith_skip(src: Seq<u8>, i: int, depth: nat) -> int
    decreases src.len() - i,
{
    if i < 0 || i >= src.len() {
        i
    } else if src[i] == LPAREN {
        arith_skip(src, i + 1, depth + 1)
    } else if src[i] == RPAREN {
        if depth == 1 && i + 1 < src.len() && src[i + 1] == RPAREN {
            i + 2
        } else {
            arith_skip(src, i + 1, if depth > 0 { (depth - 1) as nat } else { 0 })
        }
    } else {
        arith_skip(src, i + 1, depth)
    }
}

/// The index after the `)` that closes a command substitution whose body
/// starts at `i` (at nesting `depth`), or the end of `src`.
pub open spec fn command_skip(src: Seq<u8>, i: int, depth: nat) -> int
    decreases src.len() - i,
{
    if i < 0 || i >= src.len() {
        i
    } else if src[i] == LPAREN {
        command_skip(src, i + 1, depth + 1)
    } else if src[i] == RPAREN {
        if depth <= 1 {
            i + 1
        } else {
            command_skip(src, i + 1, (depth - 1) as nat)
        }
    } else {
        command_skip(src, i + 1, depth)
    }
}

/// Continues a scan at `k`, which must lie after `i` and not past the end.
pub open spec fn next_ok(src: Seq<u8>, i: int, k: int) -> bool {
    i < k <= src.len() + 1
}

/// The index of the `}` that closes a braced parameter expansion whose
/// body starts at `i`, skipping quotes, escapes and nested expansions.
pub open spec fn spec_closing_brace(src: Seq<u8>, i: int) -> Option<int>
    decreases src.len() + 1 - i,
{
    if i < 0 || i >= src.len() {
        None
    } else {
        let c = src[i];
        if c == RBRACE {
            Some(i)
        } else if c == BACKSLASH {
            spec_closing_brace(src, i + 2)
        } else if c == SQUOTE {
            let j = skip_single(src, i + 1);
            let k = if j < src.len() { j + 1 } else { j };
            if next_ok(src, i, k) { spec_closing_brace(src, k) } else { None }
        } else if c == DQUOTE {
            let j = skip_raw_double(src, i + 1);
            let k = if j < src.len() { j + 1 } else { j };
            if next_ok(src, i, k) { spec_closing_brace(src, k) } else { None }
        } else if c == DOLLAR && i + 1 < src.len() && src[i + 1] == LBRACE {
            match spec_closing_brace(src, i + 2) {
                Some(inner) => if i < inner < src.len() { spec_closing_brace(src, inner + 1) } else { None },
                None => None,
            }
        } else if c == DOLLAR && i + 1 < src.len() && src[i + 1] == LPAREN {
            let k = if i + 2 < src.len() && src[i + 2] == LPAREN {
                arith_skip(src, i + 3, 1)
            } else {
                command_skip(src, i + 2, 1)
            };
            if next_ok(src, i, k) { spec_closing_brace(src, k) } else { None }
        } else if c == BACKQUOTE {
            let j = skip_raw_backquote(src, i + 1);
            let k = if j < src.len() { j + 1 } else { j };
            if next_ok(src, i, k) { spec_closing_brace(src, k) } else { None }
        } else {
            spec_closing_brace(src, i + 1)
        }
    }
}

proof fn lemma_skip_raw_double(src: Seq<u8>, i: int)
    requires
        0 <= i <= src.len() + 1,
    ensures
        i <= skip_raw_double(src, i) <= src.len() + 1,
    decreases src.len() + 2 - i,
{
    if 0 <= i < src.len() && src[i] != DQUOTE {
        if src[i] == BACKSLASH {
            lemma_skip_raw_double(src, i + 2);
        } else {
            lemma_skip_raw_double(src, i + 1);
        }
    }
}

proof fn lemma_skip_raw_backquote(src: Seq<u8>, i: int)
    requires
        0 <= i <= src.len() + 1,
    ensures
        i <= skip_raw_backquote(src, i) <= src.len() + 1,
    decreases src.len() + 2 - i,
{
    if 0 <= i < src.len() && src[i] != BACKQUOTE {
        if src[i] == BACKSLASH {
            lemma_skip_raw_backquote(src, i + 2);
        } else {
            lemma_skip_raw_backquote(src, i + 1);
        }
    }
}

proof fn lemma_arith_skip(src: Seq<u8>, i: int, depth: nat)
    requires
        0 <= i <= src.len(),
    ensures
        i <= arith_skip(src, i, depth) <= src.len(),
    decreases src.len() - i,
{
    if i < src.len() {
        if src[i] == LPAREN {
            lemma_arith_skip(src, i + 1, depth + 1);
        } else if src[i] == RPAREN {
            if !(depth == 1 && i + 1 < src.len() && src[i + 1] == RPAREN) {
                lemma_arith_skip(src, i + 1, if depth > 0 { (depth - 1) as nat } else { 0 });
            }
        } else {
            lemma_arith_skip(src, i + 1, depth);
        }
    }
}

proof fn lemma_command_skip(src: Seq<u8>, i: int, depth: nat)
    requires
        0 <= i <= src.len(),
    ensures
        i <= command_skip(src, i, depth) <= src.len(),
    decreases src.len() - i,
{
    if i < src.len() {
        if src[i] == LPAREN {
            lemma_command_skip(src, i + 1, depth + 1);
        } else if src[i] == RPAREN {
            if depth > 1 {
                lemma_command_skip(src, i + 1, (depth - 1) as nat);
            }
        } else {
            lemma_command_skip(src, i + 1, depth);
        }
    }
}

/// Finds the `}` that closes a braced parameter expansion whose body
/// starts at `start`.
pub fn scan_to_closing_brace(source: &[u8], start: usize) -> (r: Result<usize, crate::context::ExpandError>)
    requires
        start <= source.len() + 1,
    ensures
        match spec_closing_brace(source@, start as int) {
            Some(e) => r == Ok::<usize, crate::context::ExpandError>(e as usize) && start <= e < source@.len(),
            None => r matches Err(err) && err.message@ == "unterminated parameter expansion".spec_bytes(),
        },
    decreases source.len() + 1 - start,
{
    let ghost src = source@;
    let mut index = start;
    while index < source.len()
        invariant
            start <= index <= source.len() + 1,
            src == source@,
            spec_closing_brace(src, start as int) == spec_closing_brace(src, index as int),
        decreases source.len() + 1 - index,
    {
        let c = source[index];
        let ghost gi = index as int;
        if c == RBRACE {
            return Ok(index);
        } else if c == BACKSLASH {
            if source.len() - index <= 2 {
                assert(spec_closing_brace(src, gi + 2) is None);
                return Err(crate::context::expand_error("unterminated parameter expansion"));
            }
            index += 2;
        } else if c == SQUOTE {
            proof { lemma_skip_single(src, gi + 1); }
            index += 1;
            while index < source.len() && source[index] != SQUOTE
                invariant
                    gi < index <= source.len(),
                    src == source@,
                    skip_single(src, index as int) == skip_single(src, gi + 1),
                decreases source.len() - index,
            {
                index += 1;
            }
            if index < source.len() {
                index += 1;
            }
        } else if c == DQUOTE {
            proof { lemma_skip_raw_double(src, gi + 1); }
            index += 1;
            while index < source.len() && source[index] != DQUOTE
                invariant
                    gi < index <= source.len(),
                    src == source@,
                    spec_closing_brace(src, start as int) == spec_closing_brace(src, gi),
                    src[gi] == DQUOTE,
                    skip_raw_double(src, index as int) == skip_raw_double(src, gi + 1),
                decreases source.len() + 1 - index,
            {
                if source[index] == BACKSLASH {
                    if source.len() - index <= 1 {
                        assert(skip_raw_double(src, index + 2) == index + 2);
                        assert(skip_raw_double(src, index as int) == index + 2);
                        assert(skip_raw_double(src, gi + 1) == index + 2);
                        assert(spec_closing_brace(src, index + 2) is None);
                        assert(spec_closing_brace(src, gi) is None);
                        return Err(crate::context::expand_error("unterminated parameter expansion"));
                    }
                    index += 1;
                }
                index += 1;
            }
            if index < source.len() {
                index += 1;
            }
        } else if c == DOLLAR && 1 < source.len() - index && source[index + 1] == LBRACE {
            index += 2;
            let inner = scan_to_closing_brace(source, index)?;
            index = inner + 1;
        } else if c == DOLLAR && 1 < source.len() - index && source[index + 1] == LPAREN {
            if 2 < source.len() - index && source[index + 2] == LPAREN {
                proof { lemma_arith_skip(src, gi + 3, 1); }
                index += 3;
                let mut depth: usize = 1;
                let mut done = false;
                while index < source.len()
                    invariant_except_break
                        gi + 3 <= index <= source.len(),
                        depth <= index,
                        src == source@,
                        arith_skip(src, index as int, depth as nat) == arith_skip(src, gi + 3, 1),
                    ensures
                        index == arith_skip(src, gi + 3, 1),
                    decreases source.len() - index,
                {
                    if source[index] == LPAREN {
                        depth += 1;
                    } else if source[index] == RPAREN {
                        if depth == 1 && 1 < source.len() - index && source[index + 1] == RPAREN {
                            index += 2;
                            break;
                        }
                        depth = depth.saturating_sub(1);
                    }
                    index += 1;
                }
            } else {
                proof { lemma_command_skip(src, gi + 2, 1); }
                index += 2;
                let mut depth: usize = 1;
                while index < source.len()
                    invariant_except_break
                        gi + 2 <= index <= source.len(),
                        1 <= depth <= index,
                        src == source@,
                        command_skip(src, index as int, depth as nat) == command_skip(src, gi + 2, 1),
                    ensures
                        index == command_skip(src, gi + 2, 1),
                    decreases source.len() - index,
                {
                    if source[index] == LPAREN {
                        depth += 1;
                    } else if source[index] == RPAREN {
                        depth -= 1;
                        if depth == 0 {
                            index += 1;
                            break;
                        }
                    }
                    index += 1;
                }
            }
        } else if c == BACKQUOTE {
            proof { lemma_skip_raw_backquote(src, gi + 1); }
            index += 1;
            while index < source.len() && source[index] != BACKQUOTE
                invariant
                    gi < index <= source.len(),
                    src == source@,
                    spec_closing_brace(src, start as int) == spec_closing_brace(src, gi),
                    src[gi] == BACKQUOTE,
                    skip_raw_backquote(src, index as int) == skip_raw_backquote(src, gi + 1),
                decreases source.len() + 1 - index,
            {
                if source[index] == BACKSLASH {
                    if source.len() - index <= 1 {
                        assert(skip_raw_backquote(src, index + 2) == index + 2);
                        assert(skip_raw_backquote(src, index as int) == index + 2);
                        assert(skip_raw_backquote(src, gi + 1) == index + 2);
                        assert(spec_closing_brace(src, index + 2) is None);
                        assert(spec_closing_brace(src, gi) is None);
                        return Err(crate::context::expand_error("unterminated parameter expansion"));
                    }
                    index += 1;
                }
                index += 1;
            }
            if index < source.len() {
                index += 1;
            }
        } else {
            index += 1;
        }
    }
    Err(crate::context::expand_error("unterminated parameter expansion"))
}


// ---------------------------------------------------------------------
// Dollar-single-quoted strings
// ---------------------------------------------------------------------

/// The byte that a one-letter escape `\ch` stands for in `$'...'`.
pub open spec fn simple_escape(ch: u8) -> Option<u8> {
    if ch == DQUOTE || ch == SQUOTE || ch == BACKSLASH {
        Some(ch)
    } else if ch == 0x61 {
        Some(0x07u8)
    } else if ch == 0x62 {
        Some(0x08u8)
    } else if ch == 0x65 {
        Some(0x1bu8)
    } else if ch == 0x66 {
        Some(0x0cu8)
    } else if ch == 0x6e {
        Some(NEWLINE)
    } else if ch == 0x72 {
        Some(0x0du8)
    } else if ch == 0x74 {
        Some(0x09u8)
    } else if ch == 0x76 {
        Some(0x0bu8)
    } else {
        None
    }
}

/// The number of octal digits from `j` on, at most `max`.
pub open spec fn octal_run(src: Seq<u8>, j: int, max: int) -> int
    decreases max,
{
    if max > 0 && 0 <= j < src.len() && DIGIT_ZERO <= src[j] <= DIGIT_SEVEN {
        1 + octal_run(src, j + 1, max - 1)
    } else {
        0
    }
}

/// The byte that the escape whose letter is at `i` stands for, and the
/// index after the escape; `None` for a `\c` at the end.
pub open spec fn spec_dollar_escape(src: Seq<u8>, i: int) -> Option<(u8, int)> {
    let ch = src[i];
    if simple_escape(ch) is Some {
        Some((simple_escape(ch).unwrap(), i + 1))
    } else if ch == 0x63 {
        if i + 1 >= src.len() {
            None
        } else if src[i + 1] == BACKSLASH && i + 2 < src.len() {
            Some((spec_control_escape(src[i + 2]), i + 3))
        } else {
            Some((spec_control_escape(src[i + 1]), i + 2))
        }
    } else if ch == LOWER_X {
        let n = base_digit_run(src.subrange(i + 1, src.len() as int), 16, 2, 0);
        if n == 0 {
            Some((LOWER_X, i + 1))
        } else {
            Some((spec_base_value_u8(src.subrange(i + 1, i + 1 + n), 16), i + 1 + n))
        }
    } else if DIGIT_ZERO <= ch <= DIGIT_SEVEN {
        let n = octal_run(src, i + 1, 2);
        Some((spec_octal_u8(src.subrange(i, i + 1 + n)), i + 1 + n))
    } else {
        Some((ch, i + 1))
    }
}

/// The text of a `$'...'` string from `i` on, and the index after its
/// closing quote.
pub open spec fn spec_dollar_single(src: Seq<u8>, i: int) -> Option<(Seq<u8>, int)>
    decreases src.len() - i,
{
    if i < 0 || i >= src.len() {
        None
    } else if src[i] == SQUOTE {
        Some((Seq::empty(), i + 1))
    } else if src[i] == BACKSLASH {
        if i + 1 >= src.len() {
            None
        } else {
            match spec_dollar_escape(src, i + 1) {
                Some((b, k)) => if k <= i || k > src.len() {
                    None
                } else {
                    match spec_dollar_single(src, k) {
                        Some((rest, e)) => Some((seq![b] + rest, e)),
                        None => None,
                    }
                },
                None => None,
            }
        }
    } else {
        match spec_dollar_single(src, i + 1) {
            Some((rest, e)) => Some((seq![src[i]] + rest, e)),
            None => None,
        }
    }
}

proof fn lemma_dollar_single_bounds(src: Seq<u8>, i: int)
    ensures
        spec_dollar_single(src, i) matches Some((_, e)) ==> i < e <= src.len(),
    decreases src.len() - i,
{
    if 0 <= i < src.len() && src[i] != SQUOTE {
        if src[i] == BACKSLASH {
            if i + 1 < src.len() {
                match spec_dollar_escape(src, i + 1) {
                    Some((b, k)) => {
                        if i < k <= src.len() {
                            lemma_dollar_single_bounds(src, k);
                        }
                    },
                    None => {},
                }
            }
        } else {
            lemma_dollar_single_bounds(src, i + 1);
        }
    }
}

proof fn lemma_octal_run(src: Seq<u8>, j: int, max: int)
    requires
        0 <= j,
        0 <= max,
    ensures
        0 <= octal_run(src, j, max) <= max,
        j + octal_run(src, j, max) <= src.len() || octal_run(src, j, max) == 0,
        forall|k: int| j <= k < j + octal_run(src, j, max) ==> DIGIT_ZERO <= #[trigger] src[k] <= DIGIT_SEVEN,
    decreases max,
{
    if max > 0 && 0 <= j < src.len() && DIGIT_ZERO <= src[j] <= DIGIT_SEVEN {
        lemma_octal_run(src, j + 1, max - 1);
    }
}

proof fn lemma_base_digit_run(s: Seq<u8>, base: u32, max: int, i: int)
    requires
        0 <= i <= max,
        i <= s.len(),
    ensures
        i <= base_digit_run(s, base, max, i) <= max,
        base_digit_run(s, base, max, i) <= s.len(),
    decreases max - i,
{
    if i < max && i < s.len() && spec_is_digit_for_base(s[i], base) {
        lemma_base_digit_run(s, base, max, i + 1);
    }
}

/// Decodes the escape whose letter is at `i` in a `$'...'` string.
pub fn dollar_escape(source: &[u8], i: usize) -> (r: Option<(u8, usize)>)
    requires
        i < source.len(),
    ensures
        match spec_dollar_escape(source@, i as int) {
            Some((b, k)) => r == Some((b, k as usize)) && i < k <= source@.len(),
            None => r is None,
        },
{
    let ch = source[i];
    if ch == DQUOTE || ch == SQUOTE || ch == BACKSLASH {
        Some((ch, i + 1))
    } else if ch == 0x61 {
        Some((0x07, i + 1))
    } else if ch == 0x62 {
        Some((0x08, i + 1))
    } else if ch == 0x65 {
        Some((0x1b, i + 1))
    } else if ch == 0x66 {
        Some((0x0c, i + 1))
    } else if ch == 0x6e {
        Some((NEWLINE, i + 1))
    } else if ch == 0x72 {
        Some((0x0d, i + 1))
    } else if ch == 0x74 {
        Some((0x09, i + 1))
    } else if ch == 0x76 {
        Some((0x0b, i + 1))
    } else if ch == 0x63 {
        if source.len() - i <= 1 {
            None
        } else if source[i + 1] == BACKSLASH && 2 < source.len() - i {
            Some((control_escape(source[i + 2]), i + 3))
        } else {
            Some((control_escape(source[i + 1]), i + 2))
        }
    } else if ch == LOWER_X {
        let rest = vstd::slice::slice_subrange(source, i + 1, source.len());
        proof { lemma_base_digit_run(rest@, 16, 2, 0); }
        let (value, consumed) = parse_variable_base_escape(rest, 16, 2);
        if consumed == 0 {
            Some((LOWER_X, i + 1))
        } else {
            assert(rest@.take(consumed as int) =~= source@.subrange(i + 1, i + 1 + consumed));
            Some((value, i + 1 + consumed))
        }
    } else if DIGIT_ZERO <= ch && ch <= DIGIT_SEVEN {
        proof { lemma_octal_run(source@, i + 1, 2); }
        let mut consumed: usize = 0;
        while consumed < 2 && consumed + 1 < source.len() - i && DIGIT_ZERO <= source[i + 1 + consumed]
            && source[i + 1 + consumed] <= DIGIT_SEVEN
            invariant
                consumed <= 2,
                i + 1 + consumed <= source.len(),
                octal_run(source@, i + 1, 2) == consumed + octal_run(source@, i + 1 + consumed, 2 - consumed),
            decreases 2 - consumed,
        {
            consumed += 1;
        }
        let digits = vstd::slice::slice_subrange(source, i, i + 1 + consumed);
        assert forall|k: int| 0 <= k < digits@.len() implies DIGIT_ZERO <= #[trigger] digits@[k] by {
            assert(digits@[k] == source@[i + k]);
            if k > 0 {
                assert(DIGIT_ZERO <= source@[i + k] <= DIGIT_SEVEN);
            }
        }
        Some((parse_octal_digits(digits), i + 1 + consumed))
    } else {
        Some((ch, i + 1))
    }
}

/// Decodes a `$'...'` string at the start of `source` (which begins with
/// `$'`): its text and the number of bytes it spans.
pub fn parse_dollar_single_quoted(source: &[u8]) -> (r: Result<(Vec<u8>, usize), crate::context::ExpandError>)
    ensures
        match spec_dollar_single(source@, 2) {
            Some((text, e)) => r matches Ok((v, n)) && v@ == text && n == e,
            None => r matches Err(err) && err.message@ == "unterminated dollar-single-quotes".spec_bytes(),
        },
        r matches Ok((_, n)) ==> 2 < n <= source@.len(),
{
    proof { lemma_dollar_single_bounds(source@, 2); }
    let mut index: usize = 2;
    let mut result: Vec<u8> = Vec::new();
    if source.len() <= index {
        return Err(crate::context::expand_error("unterminated dollar-single-quotes"));
    }
    while index < source.len()
        invariant
            2 <= index <= source.len(),
            match spec_dollar_single(source@, 2) {
                Some((text, e)) => spec_dollar_single(source@, index as int) matches Some((t2, e2))
                    && text == result@ + t2 && e == e2,
                None => spec_dollar_single(source@, index as int) is None,
            },
        decreases source.len() - index,
    {
        let c = source[index];
        let ghost gi = index as int;
        if c == SQUOTE {
            assert(spec_dollar_single(source@, gi) == Some((Seq::<u8>::empty(), gi + 1)));
            assert(result@ + Seq::<u8>::empty() =~= result@);
            return Ok((result, index + 1));
        } else if c == BACKSLASH {
            if source.len() - index <= 1 {
                return Err(crate::context::expand_error("unterminated dollar-single-quotes"));
            }
            match dollar_escape(source, index + 1) {
                Some((b, k)) => {
                    let ghost before = result@;
                    result.push(b);
                    index = k;
                    proof {
                        match spec_dollar_single(source@, k as int) {
                            Some((t2, e2)) => { assert(before + (seq![b] + t2) =~= result@ + t2); },
                            None => {},
                        }
                    }
                },
                None => {
                    return Err(crate::context::expand_error("unterminated dollar-single-quotes"));
                },
            }
        } else {
            let ghost before = result@;
            result.push(c);
            index += 1;
            proof {
                match spec_dollar_single(source@, index as int) {
                    Some((t2, e2)) => { assert(before + (seq![c] + t2) =~= result@ + t2); },
                    None => {},
                }
            }
        }
    }
    Err(crate::context::expand_error("unterminated dollar-single-quotes"))
}

// ---------------------------------------------------------------------
// Parameter expressions
// ---------------------------------------------------------------------

/// The index after the run of digits that starts at `i`.
pub open spec fn digit_end(s: Seq<u8>, i: int) -> int
    decreases s.len() - i,
{
    if 0 <= i < s.len() && spec_is_digit(s[i]) {
        digit_end(s, i + 1)
    } else {
        i
    }
}

/// Whether `b` names a one-byte special parameter in `${...}`.
pub open spec fn is_special_param_byte(b: u8) -> bool {
    b == QUESTION || b == DOLLAR || b == BANG || b == HASH || b == STAR || b == AT
}

/// The length of the parameter name at the start of a `${...}` body, or
/// `None` where none starts it.
pub open spec fn spec_param_name_len(expr: Seq<u8>) -> Option<int> {
    if expr.len() == 0 {
        None
    } else if spec_is_digit(expr[0]) {
        Some(digit_end(expr, 0))
    } else if is_special_param_byte(expr[0]) {
        Some(1)
    } else if spec_is_name_start(expr[0]) {
        Some(name_end(expr, 0))
    } else {
        None
    }
}

/// The length of the operator that starts `rest`.
pub open spec fn spec_op_len(rest: Seq<u8>) -> int {
    if rest.len() > 1 && ((rest[0] == COLON && (rest[1] == MINUS || rest[1] == EQUALS || rest[1] == QUESTION
        || rest[1] == PLUS)) || (rest[0] == PERCENT && rest[1] == PERCENT) || (rest[0] == HASH
        && rest[1] == HASH)) {
        2
    } else {
        1
    }
}

proof fn lemma_digit_end(s: Seq<u8>, i: int)
    requires
        0 <= i <= s.len(),
    ensures
        i <= digit_end(s, i) <= s.len(),
    decreases s.len() - i,
{
    if i < s.len() && spec_is_digit(s[i]) {
        lemma_digit_end(s, i + 1);
    }
}

/// Splits the body of `${...}` into the parameter name, the operator and
/// the word after it.
pub fn parse_parameter_expression(expr: &[u8]) -> (r: Result<(&[u8], Option<&[u8]>, Option<&[u8]>), crate::context::ExpandError>)
    ensures
        expr@.len() == 0 ==> (r matches Err(e) && e.message@ == "empty parameter expansion".spec_bytes()),
        expr@.len() > 0 && spec_param_name_len(expr@) is None ==> (r matches Err(e) && e.message@
            == "invalid parameter expansion".spec_bytes()),
        spec_param_name_len(expr@) matches Some(n) ==> {
            let rest = expr@.subrange(n, expr@.len() as int);
            r matches Ok((name, op, word)) && name@ == expr@.subrange(0, n) && (if n == expr@.len() {
                op is None && word is None
            } else {
                op matches Some(o) && word matches Some(w) && o@ == rest.subrange(0, spec_op_len(rest))
                    && w@ == rest.subrange(spec_op_len(rest), rest.len() as int)
            })
        },
        r matches Ok((name, _, word)) ==> name@.len() >= 1 && (word matches Some(w) ==> w@.len()
            < expr@.len()),
{
    if expr.len() == 0 {
        return Err(crate::context::expand_error("empty parameter expansion"));
    }
    let mut index: usize = 0;
    let b0 = expr[0];
    if is_digit(b0) {
        proof { lemma_digit_end(expr@, 0); }
        while index < expr.len() && is_digit(expr[index])
            invariant
                index <= expr.len(),
                digit_end(expr@, 0) == digit_end(expr@, index as int),
            decreases expr.len() - index,
        {
            index += 1;
        }
    } else if b0 == QUESTION || b0 == DOLLAR || b0 == BANG || b0 == HASH || b0 == STAR || b0 == AT {
        index = 1;
    } else if is_name_start(b0) {
        proof { lemma_name_end_bounds(expr@, 0); }
        while index < expr.len() && is_name_char(expr[index])
            invariant
                index <= expr.len(),
                name_end(expr@, 0) == name_end(expr@, index as int),
            decreases expr.len() - index,
        {
            index += 1;
        }
    } else {
        return Err(crate::context::expand_error("invalid parameter expansion"));
    }
    let name = vstd::slice::slice_subrange(expr, 0, index);
    if index == expr.len() {
        return Ok((name, None, None));
    }
    let rest = vstd::slice::slice_subrange(expr, index, expr.len());
    let two = rest.len() > 1 && ((rest[0] == COLON && (rest[1] == MINUS || rest[1] == EQUALS
        || rest[1] == QUESTION || rest[1] == PLUS)) || (rest[0] == PERCENT && rest[1] == PERCENT)
        || (rest[0] == HASH && rest[1] == HASH));
    let op_len: usize = if two { 2 } else { 1 };
    let op = vstd::slice::slice_subrange(rest, 0, op_len);
    let word = vstd::slice::slice_subrange(rest, op_len, rest.len());
    Ok((name, Some(op), Some(word)))
}

} // verus!


