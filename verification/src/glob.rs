//! Shell pattern matching (`fnmatch` without flags) in the POSIX "C"
//! locale, where every byte is one character.

use vstd::prelude::*;
use crate::chars::{spec_in_class, in_class, BACKSLASH, BANG, CARET, COLON, DOT, EQUALS, LBRACKET, MINUS, QUESTION, RBRACKET, STAR};

verus! {

// ---------------------------------------------------------------------
// The meaning of a pattern
// ---------------------------------------------------------------------

/// The first index `i >= start` with `p[i] == close_char` and
/// `p[i + 1] == close_bracket`.
pub open spec fn find_delim(p: Seq<u8>, start: int, close_char: u8, close_bracket: u8) -> Option<int>
    decreases p.len() - start,
{
    if start < 0 || start + 1 >= p.len() {
        None
    } else if p[start] == close_char && p[start + 1] == close_bracket {
        Some(start)
    } else {
        find_delim(p, start + 1, close_char, close_bracket)
    }
}

/// The non-empty text of a `[:name:]`, `[.sym.]` or `[=eq=]` element that
/// starts at `start`, and the index just past its closing `]`.
pub open spec fn spec_scan_delimited(p: Seq<u8>, start: int, close_char: u8, close_bracket: u8) -> Option<(int, Seq<u8>)> {
    match find_delim(p, start, close_char, close_bracket) {
        Some(i) => if i == start {
            None
        } else {
            Some((i + 2, p.subrange(start, i)))
        },
        None => None,
    }
}

/// A collating symbol `[.x.]` used as the upper end of a range, at `rhs`.
pub open spec fn spec_collating_endpoint(p: Seq<u8>, rhs: int) -> Option<(u8, int)> {
    if p[rhs] != LBRACKET || rhs + 1 >= p.len() || p[rhs + 1] != DOT {
        None
    } else {
        match spec_scan_delimited(p, rhs + 2, DOT, RBRACKET) {
            Some((end, elem)) => Some((elem[0], end)),
            None => None,
        }
    }
}

/// A range `-last` that follows the first end of a range at `after_first`:
/// whether `c` lies in it, and the index after it.
pub open spec fn spec_range(p: Seq<u8>, after_first: int, c: u8, first: u8) -> Option<(bool, int)> {
    if after_first + 1 >= p.len() || p[after_first] != MINUS {
        None
    } else if p[after_first + 1] == RBRACKET {
        None
    } else {
        let rhs = after_first + 1;
        match spec_collating_endpoint(p, rhs) {
            Some((last, end)) => Some((first <= c && c <= last, end)),
            None => Some((first <= c && c <= p[rhs], rhs + 1)),
        }
    }
}

/// A range whose upper end must be a collating symbol.
pub open spec fn spec_collsym_range(p: Seq<u8>, after_first: int, c: u8, first: u8) -> Option<(bool, int)> {
    if after_first + 1 >= p.len() || p[after_first] != MINUS {
        None
    } else if p[after_first + 1] == RBRACKET {
        None
    } else {
        match spec_collating_endpoint(p, after_first + 1) {
            Some((last, end)) => Some((first <= c && c <= last, end)),
            None => None,
        }
    }
}

/// A bracket element that starts with `[:`, `[.` or `[=`, at `index`.
pub open spec fn spec_special_elem(t: Seq<u8>, ti: int, p: Seq<u8>, index: int, c: u8) -> Option<(bool, int)> {
    let delim = p[index + 1];
    if delim == COLON {
        match spec_scan_delimited(p, index + 2, COLON, RBRACKET) {
            Some((end, class)) => Some((spec_in_class(class, c), end)),
            None => None,
        }
    } else if delim == DOT {
        match spec_scan_delimited(p, index + 2, DOT, RBRACKET) {
            Some((end, elem)) => if elem.len() > 1 {
                let hit = ti + elem.len() <= t.len() && t.subrange(ti, ti + elem.len()) == elem;
                match spec_collsym_range(p, end, c, elem[0]) {
                    Some((h, e)) => Some((hit || h, e)),
                    None => Some((hit, end)),
                }
            } else {
                match spec_range(p, end, c, elem[0]) {
                    Some((h, e)) => Some((h, e)),
                    None => Some((c == elem[0], end)),
                }
            },
            None => None,
        }
    } else if delim == EQUALS {
        match spec_scan_delimited(p, index + 2, EQUALS, RBRACKET) {
            Some((end, elem)) => Some((c == elem[0], end)),
            None => None,
        }
    } else {
        None
    }
}

/// A single byte, escaped byte or range element at `index`.
pub open spec fn spec_plain_elem(p: Seq<u8>, index: int, c: u8) -> (bool, int) {
    let escaped = p[index] == BACKSLASH && index + 1 < p.len();
    let first = if escaped { p[index + 1] } else { p[index] };
    let first_end = if escaped { index + 2 } else { index + 1 };
    match spec_range(p, first_end, c, first) {
        Some((h, e)) => (h, e),
        None => (c == first, first_end),
    }
}

/// Whether the element at `index` holds `c`, and the index after it.
pub open spec fn spec_elem(t: Seq<u8>, ti: int, p: Seq<u8>, index: int, c: u8) -> (bool, int) {
    if p[index] == LBRACKET && index + 1 < p.len() {
        match spec_special_elem(t, ti, p, index, c) {
            Some(r) => r,
            None => spec_plain_elem(p, index, c),
        }
    } else {
        spec_plain_elem(p, index, c)
    }
}

/// The elements of a bracket expression from `index` on, up to its `]`.
pub open spec fn spec_bracket_loop(t: Seq<u8>, ti: int, p: Seq<u8>, index: int, c: u8, matched: bool, first: bool) -> Option<(bool, int)>
    decreases p.len() - index,
{
    if index < 0 || index >= p.len() {
        None
    } else if p[index] == RBRACKET && !first {
        Some((matched, index + 1))
    } else {
        let (h, next) = spec_elem(t, ti, p, index, c);
        if next <= index || next > p.len() {
            None
        } else {
            spec_bracket_loop(t, ti, p, next, c, matched || h, false)
        }
    }
}

/// A bracket expression that opens at `start`: whether it holds `c`, and
/// the index after it; `None` where the `[` opens no bracket expression.
pub open spec fn spec_bracket(t: Seq<u8>, ti: int, p: Seq<u8>, start: int, c: u8) -> Option<(bool, int)> {
    let index = start + 1;
    if index >= p.len() {
        None
    } else {
        let negate = p[index] == BANG || p[index] == CARET;
        let from = if negate { index + 1 } else { index };
        match spec_bracket_loop(t, ti, p, from, c, false, true) {
            Some((m, e)) => Some((if negate { !m } else { m }, e)),
            None => None,
        }
    }
}

/// Whether `t[ti..]` matches `p[pi..]`.
pub open spec fn spec_matches(t: Seq<u8>, ti: int, p: Seq<u8>, pi: int) -> bool
    decreases p.len() - pi, t.len() - ti,
{
    if pi < 0 || ti < 0 || ti > t.len() || pi >= p.len() {
        pi == p.len() && ti == t.len()
    } else {
        let pc = p[pi];
        if pc == STAR {
            spec_matches(t, ti, p, pi + 1) || (ti < t.len() && spec_matches(t, ti + 1, p, pi))
        } else if pc == QUESTION {
            ti < t.len() && spec_matches(t, ti + 1, p, pi + 1)
        } else if pc == LBRACKET {
            ti < t.len() && match spec_bracket(t, ti, p, pi, t[ti]) {
                Some((m, next)) => m && pi < next <= p.len() && spec_matches(t, ti + 1, p, next),
                None => t[ti] == LBRACKET && spec_matches(t, ti + 1, p, pi + 1),
            }
        } else if pc == BACKSLASH && pi + 1 < p.len() {
            ti < t.len() && t[ti] == p[pi + 1] && spec_matches(t, ti + 1, p, pi + 2)
        } else {
            ti < t.len() && t[ti] == pc && spec_matches(t, ti + 1, p, pi + 1)
        }
    }
}

/// Some position from `ti` on lets `t` match `p[pi..]`.
pub open spec fn star_ok(t: Seq<u8>, ti: int, p: Seq<u8>, pi: int) -> bool {
    exists|k: int| ti <= k <= t.len() && #[trigger] spec_matches(t, k, p, pi)
}

/// Whether the whole text `t` matches the whole pattern `p`.
pub open spec fn spec_pattern_matches(t: Seq<u8>, p: Seq<u8>) -> bool {
    spec_matches(t, 0, p, 0)
}

// ---------------------------------------------------------------------
// Lemmas
// ---------------------------------------------------------------------

proof fn lemma_find_delim_bounds(p: Seq<u8>, start: int, cc: u8, cb: u8)
    ensures
        find_delim(p, start, cc, cb) matches Some(i) ==> start <= i && i + 1 < p.len()
            && p[i] == cc && p[i + 1] == cb,
    decreases p.len() - start,
{
    if start >= 0 && start + 1 < p.len() && !(p[start] == cc && p[start + 1] == cb) {
        lemma_find_delim_bounds(p, start + 1, cc, cb);
    }
}

/// A star matches at `ti` exactly where the rest matches at some position
/// from `ti` on.
proof fn lemma_star(t: Seq<u8>, ti: int, p: Seq<u8>, pi: int)
    requires
        0 <= ti <= t.len(),
        0 <= pi < p.len(),
        p[pi] == STAR,
    ensures
        spec_matches(t, ti, p, pi) == star_ok(t, ti, p, pi + 1),
    decreases t.len() - ti,
{
    assert(spec_matches(t, ti, p, pi) == (spec_matches(t, ti, p, pi + 1) || (ti < t.len()
        && spec_matches(t, ti + 1, p, pi))));
    if ti < t.len() {
        lemma_star(t, ti + 1, p, pi);
        if star_ok(t, ti + 1, p, pi + 1) {
            let k = choose|k: int| ti + 1 <= k <= t.len() && #[trigger] spec_matches(t, k, p, pi + 1);
            assert(ti <= k <= t.len() && spec_matches(t, k, p, pi + 1));
        }
        if star_ok(t, ti, p, pi + 1) {
            let k = choose|k: int| ti <= k <= t.len() && #[trigger] spec_matches(t, k, p, pi + 1);
            if k != ti {
                assert(ti + 1 <= k <= t.len() && spec_matches(t, k, p, pi + 1));
            }
        }
    } else {
        if star_ok(t, ti, p, pi + 1) {
            let k = choose|k: int| ti <= k <= t.len() && #[trigger] spec_matches(t, k, p, pi + 1);
            assert(k == ti);
        }
        assert(spec_matches(t, ti, p, pi + 1) ==> star_ok(t, ti, p, pi + 1));
    }
}

/// Two stars in a row match as one.
proof fn lemma_star_star(t: Seq<u8>, ti: int, p: Seq<u8>, pi: int)
    requires
        0 <= ti <= t.len(),
        0 <= pi < p.len(),
        p[pi] == STAR,
    ensures
        star_ok(t, ti, p, pi) == star_ok(t, ti, p, pi + 1),
{
    if star_ok(t, ti, p, pi) {
        let k = choose|k: int| ti <= k <= t.len() && #[trigger] spec_matches(t, k, p, pi);
        lemma_star(t, k, p, pi);
        let j = choose|j: int| k <= j <= t.len() && #[trigger] spec_matches(t, j, p, pi + 1);
        assert(ti <= j <= t.len() && spec_matches(t, j, p, pi + 1));
    }
    if star_ok(t, ti, p, pi + 1) {
        let j = choose|j: int| ti <= j <= t.len() && #[trigger] spec_matches(t, j, p, pi + 1);
        lemma_star(t, j, p, pi);
        assert(j <= j <= t.len() && spec_matches(t, j, p, pi + 1));
        assert(star_ok(t, j, p, pi + 1));
        assert(ti <= j <= t.len() && spec_matches(t, j, p, pi));
    }
}

/// At the end of the pattern some position (the end of the text) matches.
proof fn lemma_star_end(t: Seq<u8>, ti: int, p: Seq<u8>)
    requires
        0 <= ti <= t.len(),
    ensures
        star_ok(t, ti, p, p.len() as int),
{
    assert(spec_matches(t, t.len() as int, p, p.len() as int));
}

/// A literal byte can only match where the text holds that byte.
proof fn lemma_literal_needs_byte(t: Seq<u8>, k: int, p: Seq<u8>, pi: int)
    requires
        0 <= k <= t.len(),
        0 <= pi < p.len(),
        p[pi] != BACKSLASH && p[pi] != QUESTION && p[pi] != LBRACKET && p[pi] != STAR,
        spec_matches(t, k, p, pi),
    ensures
        k < t.len() && t[k] == p[pi],
{
}

// ---------------------------------------------------------------------
// Bracket expressions
// ---------------------------------------------------------------------

/// The character that a pattern byte stands for, and its length in bytes.
pub fn decode_pattern_char(pattern: &[u8], index: usize) -> (r: (u8, usize))
    requires
        index < pattern.len(),
    ensures
        r == (pattern@[index as int], 1usize),
{
    (pattern[index], 1)
}

/// Membership of `ch` in the named character class.
pub fn match_charclass(class: &[u8], ch: u8) -> (r: bool)
    ensures
        r == spec_in_class(class@, ch),
{
    in_class(class, ch)
}

/// Finds the end of a `[x...x]` element that starts at `start`: the index
/// after its closing bracket and its (non-empty) text.
pub fn scan_bracket_delimited(pattern: &[u8], start: usize, close_char: u8, close_bracket: u8) -> (r: Option<(usize, Vec<u8>)>)
    ensures
        match r {
            Some((end, content)) => spec_scan_delimited(pattern@, start as int, close_char, close_bracket)
                == Some((end as int, content@)) && content@.len() > 0 && start + 2 < end <= pattern@.len(),
            None => spec_scan_delimited(pattern@, start as int, close_char, close_bracket) is None,
        },
{
    proof { lemma_find_delim_bounds(pattern@, start as int, close_char, close_bracket); }
    let mut i = start;
    while i < pattern.len() && 1 < pattern.len() - i
        invariant
            start <= i,
            find_delim(pattern@, start as int, close_char, close_bracket)
                == find_delim(pattern@, i as int, close_char, close_bracket),
        decreases pattern.len() - i,
    {
        if pattern[i] == close_char && pattern[i + 1] == close_bracket {
            if i == start {
                return None;
            }
            return Some((i + 2, vstd::slice::slice_to_vec(slice_range(pattern, start, i))));
        }
        i += 1;
    }
    None
}

/// The bytes `s[start..end]`.
pub fn slice_range(s: &[u8], start: usize, end: usize) -> (r: &[u8])
    requires
        start <= end <= s.len(),
    ensures
        r@ == s@.subrange(start as int, end as int),
{
    vstd::slice::slice_subrange(s, start, end)
}

/// A collating symbol `[.x.]` as the upper end of a range.
pub fn try_collating_range_endpoint(pattern: &[u8], rhs: usize) -> (r: Option<(u8, usize)>)
    requires
        rhs < pattern.len(),
    ensures
        match r {
            Some((wc, end)) => spec_collating_endpoint(pattern@, rhs as int) == Some((wc, end as int)),
            None => spec_collating_endpoint(pattern@, rhs as int) is None,
        },
{
    if pattern[rhs] != LBRACKET || rhs + 1 >= pattern.len() || pattern[rhs + 1] != DOT {
        return None;
    }
    match scan_bracket_delimited(pattern, rhs + 2, DOT, RBRACKET) {
        Some((end, elem)) => Some((elem[0], end)),
        None => None,
    }
}

/// Consumes a range `-last` after a first end: on success moves `index`
/// past it and adds to `matched` whether `current` lies in the range.
pub fn try_consume_range(
    pattern: &[u8],
    after_first: usize,
    current: u8,
    first: u8,
    matched: &mut bool,
    index: &mut usize,
) -> (r: bool)
    requires
        after_first <= pattern.len(),
    ensures
        match spec_range(pattern@, after_first as int, current, first) {
            Some((h, e)) => r && *final(matched) == (*old(matched) || h) && *final(index) == e,
            None => !r && *final(matched) == *old(matched) && *final(index) == *old(index),
        },
{
    if pattern.len() - after_first <= 1 || pattern[after_first] != MINUS {
        return false;
    }
    let rhs = after_first + 1;
    if pattern[rhs] == RBRACKET {
        return false;
    }
    if let Some((last, end)) = try_collating_range_endpoint(pattern, rhs) {
        *matched = *matched || (first <= current && current <= last);
        *index = end;
        return true;
    }
    let (last, last_len) = decode_pattern_char(pattern, rhs);
    *matched = *matched || (first <= current && current <= last);
    *index = rhs + last_len;
    true
}

/// Like [`try_consume_range`] after a multi-byte collating symbol, whose
/// range must end in a collating symbol too.
pub fn try_consume_range_collsym(
    pattern: &[u8],
    after_first: usize,
    current: u8,
    elem: &[u8],
    matched: &mut bool,
    index: &mut usize,
) -> (r: bool)
    requires
        after_first <= pattern.len(),
        elem.len() > 0,
    ensures
        match spec_collsym_range(pattern@, after_first as int, current, elem@[0]) {
            Some((h, e)) => r && *final(matched) == (*old(matched) || h) && *final(index) == e,
            None => !r && *final(matched) == *old(matched) && *final(index) == *old(index),
        },
{
    if pattern.len() - after_first <= 1 || pattern[after_first] != MINUS {
        return false;
    }
    let rhs = after_first + 1;
    if pattern[rhs] == RBRACKET {
        return false;
    }
    if let Some((last_wc, end)) = try_collating_range_endpoint(pattern, rhs) {
        let first_wc = elem[0];
        *matched = *matched || (first_wc <= current && current <= last_wc);
        *index = end;
        return true;
    }
    false
}

/// Whether `text[ti..]` starts with `elem`.
fn text_has_at(text: &[u8], ti: usize, elem: &[u8]) -> (r: bool)
    ensures
        r == (ti + elem@.len() <= text@.len() && text@.subrange(ti as int, ti + elem@.len()) == elem@),
{
    if ti > text.len() || elem.len() > text.len() - ti {
        return false;
    }
    let mut k: usize = 0;
    while k < elem.len()
        invariant
            ti + elem@.len() <= text@.len(),
            k <= elem.len(),
            forall|j: int| 0 <= j < k ==> text@[ti + j] == elem@[j],
        decreases elem.len() - k,
    {
        assert(ti + k < text@.len());
        assert(text@.len() == text.len());
        if text[ti + k] != elem[k] {
            assert(text@.subrange(ti as int, ti + elem@.len())[k as int] != elem@[k as int]);
            return false;
        }
        k += 1;
    }
    assert(text@.subrange(ti as int, ti + elem@.len()) =~= elem@);
    true
}

/// A `[:class:]`, `[.sym.]` or `[=equiv=]` element at `index`: adds to
/// `matched` and returns the index after it, or `None` where the `[` is a
/// plain byte.
pub fn match_bracket_special(
    pattern: &[u8],
    index: usize,
    current: u8,
    text: &[u8],
    ti: usize,
    _char_len: usize,
    matched: &mut bool,
) -> (r: Option<usize>)
    requires
        index + 1 < pattern.len(),
    ensures
        match spec_special_elem(text@, ti as int, pattern@, index as int, current) {
            Some((h, e)) => r == Some(e as usize) && e == r.unwrap() && *final(matched) == (*old(matched) || h),
            None => r is None && *final(matched) == *old(matched),
        },
{
    let delim = pattern[index + 1];
    if delim == COLON {
        match scan_bracket_delimited(pattern, index + 2, COLON, RBRACKET) {
            Some((end, class_name)) => {
                *matched = *matched || match_charclass(&class_name, current);
                Some(end)
            },
            None => None,
        }
    } else if delim == DOT {
        match scan_bracket_delimited(pattern, index + 2, DOT, RBRACKET) {
            Some((end, elem)) => {
                proof { lemma_find_delim_bounds(pattern@, index + 2, DOT, RBRACKET); }
                if elem.len() > 1 {
                    let hit = text_has_at(text, ti, &elem);
                    *matched = *matched || hit;
                    let mut dummy_index = end;
                    if try_consume_range_collsym(pattern, end, current, &elem, matched, &mut dummy_index) {
                        return Some(dummy_index);
                    }
                    return Some(end);
                }
                let wc = elem[0];
                let mut dummy_index = end;
                if try_consume_range(pattern, end, current, wc, matched, &mut dummy_index) {
                    return Some(dummy_index);
                }
                *matched = *matched || current == wc;
                Some(end)
            },
            None => None,
        }
    } else if delim == EQUALS {
        match scan_bracket_delimited(pattern, index + 2, EQUALS, RBRACKET) {
            Some((end, elem)) => {
                let wc = elem[0];
                *matched = *matched || current == wc;
                Some(end)
            },
            None => None,
        }
    } else {
        None
    }
}


proof fn lemma_scan_bounds(p: Seq<u8>, start: int, cc: u8, cb: u8)
    ensures
        spec_scan_delimited(p, start, cc, cb) matches Some((end, content)) ==> start + 2 < end
            <= p.len() && content.len() > 0 && content.len() == end - 2 - start,
{
    lemma_find_delim_bounds(p, start, cc, cb);
}

proof fn lemma_range_bounds(p: Seq<u8>, after_first: int, c: u8, first: u8)
    requires
        0 <= after_first <= p.len(),
    ensures
        spec_range(p, after_first, c, first) matches Some((h, e)) ==> after_first < e <= p.len(),
        spec_collsym_range(p, after_first, c, first) matches Some((h, e)) ==> after_first < e <= p.len(),
{
    if after_first + 1 < p.len() {
        lemma_scan_bounds(p, after_first + 3, DOT, RBRACKET);
    }
}

/// Every bracket element ends after it starts and within the pattern.
proof fn lemma_elem_bounds(t: Seq<u8>, ti: int, p: Seq<u8>, index: int, c: u8)
    requires
        0 <= index < p.len(),
    ensures
        index < spec_elem(t, ti, p, index, c).1 <= p.len(),
        p[index] == LBRACKET && index + 1 < p.len() ==> (spec_special_elem(t, ti, p, index, c) matches Some((h, e))
            ==> index < e <= p.len()),
{
    let escaped = p[index] == BACKSLASH && index + 1 < p.len();
    let first_end = if escaped { index + 2 } else { index + 1 };
    lemma_range_bounds(p, first_end, c, if escaped { p[index + 1] } else { p[index] });
    if p[index] == LBRACKET && index + 1 < p.len() {
        lemma_scan_bounds(p, index + 2, COLON, RBRACKET);
        lemma_scan_bounds(p, index + 2, DOT, RBRACKET);
        lemma_scan_bounds(p, index + 2, EQUALS, RBRACKET);
        match spec_scan_delimited(p, index + 2, DOT, RBRACKET) {
            Some((end, elem)) => {
                lemma_range_bounds(p, end, c, elem[0]);
            },
            None => {},
        }
    }
}

/// Matches a bracket expression that opens at `start` against the
/// character `current`: whether it matches and the index after the
/// expression, or `None` where the `[` opens no bracket expression.
pub fn match_bracket(
    current: Option<u8>,
    char_len: usize,
    text: &[u8],
    ti: usize,
    pattern: &[u8],
    start: usize,
) -> (r: Option<(bool, usize)>)
    requires
        start < pattern.len(),
    ensures
        match current {
            None => r is None,
            Some(c) => match spec_bracket(text@, ti as int, pattern@, start as int, c) {
                Some((m, e)) => r == Some((m, e as usize)) && start < e <= pattern@.len(),
                None => r is None,
            },
        },
{
    let current = match current {
        Some(c) => c,
        None => return None,
    };
    let mut index = start + 1;
    if index >= pattern.len() {
        return None;
    }
    let ghost p = pattern@;
    let mut negate = false;
    if pattern[index] == BANG || pattern[index] == CARET {
        negate = true;
        index += 1;
    }
    let ghost from = index as int;
    let mut matched = false;
    let mut saw_closer = false;
    let mut first_elem = true;
    while index < pattern.len()
        invariant_except_break
            start < from <= index <= pattern.len(),
            p == pattern@,
            !saw_closer,
            spec_bracket_loop(text@, ti as int, p, from, current, false, true)
                == spec_bracket_loop(text@, ti as int, p, index as int, current, matched, first_elem),
        ensures
            saw_closer ==> spec_bracket_loop(text@, ti as int, p, from, current, false, true)
                == Some((matched, index as int)) && start < index <= pattern.len(),
            !saw_closer ==> spec_bracket_loop(text@, ti as int, p, from, current, false, true) is None,
        decreases pattern.len() - index,
    {
        let pc = pattern[index];
        if pc == RBRACKET && !first_elem {
            saw_closer = true;
            index += 1;
            break;
        }
        proof { lemma_elem_bounds(text@, ti as int, p, index as int, current); }
        let ghost old_index = index as int;
        let ghost old_matched = matched;
        first_elem = false;
        if pc == LBRACKET && 1 < pattern.len() - index {
            if let Some(adv) = match_bracket_special(pattern, index, current, text, ti, char_len, &mut matched) {
                index = adv;
                continue;
            }
        }
        let first_wc: u8;
        let first_end: usize;
        if pc == BACKSLASH && 1 < pattern.len() - index {
            index += 1;
            let (wc, len) = decode_pattern_char(pattern, index);
            first_wc = wc;
            first_end = index + len;
        } else {
            let (wc, len) = decode_pattern_char(pattern, index);
            first_wc = wc;
            first_end = index + len;
        }
        if try_consume_range(pattern, first_end, current, first_wc, &mut matched, &mut index) {
            continue;
        }
        matched = matched || current == first_wc;
        index = first_end;
    }
    if saw_closer {
        Some((if negate { !matched } else { matched }, index))
    } else {
        None
    }
}


proof fn lemma_star_ok_step(t: Seq<u8>, ti: int, p: Seq<u8>, pi: int)
    requires
        0 <= ti <= t.len(),
    ensures
        ti < t.len() ==> star_ok(t, ti, p, pi) == (spec_matches(t, ti, p, pi) || star_ok(t, ti + 1, p, pi)),
        ti == t.len() ==> star_ok(t, ti, p, pi) == spec_matches(t, ti, p, pi),
{
    if star_ok(t, ti, p, pi) {
        let k = choose|k: int| ti <= k <= t.len() && #[trigger] spec_matches(t, k, p, pi);
        if k > ti {
            assert(ti + 1 <= k <= t.len() && spec_matches(t, k, p, pi));
        }
    }
    if ti < t.len() && star_ok(t, ti + 1, p, pi) {
        let k = choose|k: int| ti + 1 <= k <= t.len() && #[trigger] spec_matches(t, k, p, pi);
        assert(ti <= k <= t.len() && spec_matches(t, k, p, pi));
    }
    if spec_matches(t, ti, p, pi) {
        assert(ti <= ti <= t.len() && spec_matches(t, ti, p, pi));
    }
}

/// Positions that do not hold the literal byte at `p[pi]` cannot start a
/// match, so the search may start at the first one that does.
proof fn lemma_star_skip(t: Seq<u8>, ti: int, off: int, p: Seq<u8>, pi: int)
    requires
        0 <= ti <= off <= t.len(),
        0 <= pi < p.len(),
        p[pi] != BACKSLASH && p[pi] != QUESTION && p[pi] != LBRACKET && p[pi] != STAR,
        forall|k: int| ti <= k < off ==> t[k] != p[pi],
    ensures
        star_ok(t, ti, p, pi) == star_ok(t, off, p, pi),
        off == t.len() ==> !star_ok(t, ti, p, pi),
{
    if star_ok(t, ti, p, pi) {
        let k = choose|k: int| ti <= k <= t.len() && #[trigger] spec_matches(t, k, p, pi);
        lemma_literal_needs_byte(t, k, p, pi);
        assert(off <= k <= t.len() && spec_matches(t, k, p, pi));
    }
    if star_ok(t, off, p, pi) {
        let k = choose|k: int| off <= k <= t.len() && #[trigger] spec_matches(t, k, p, pi);
        assert(ti <= k <= t.len() && spec_matches(t, k, p, pi));
    }
}

/// Matches `text[ti0..]` against `pattern[pi0..]`.
pub fn pattern_matches_inner(text: &[u8], ti0: usize, pattern: &[u8], pi0: usize) -> (r: bool)
    requires
        ti0 <= text.len(),
        pi0 <= pattern.len(),
    ensures
        r == spec_matches(text@, ti0 as int, pattern@, pi0 as int),
    decreases pattern.len() - pi0,
{
    let ghost t = text@;
    let ghost p = pattern@;
    let mut pi = pi0;
    let mut ti = ti0;
    loop
        invariant
            t == text@,
            p == pattern@,
            pi0 <= pi <= pattern.len(),
            ti <= text.len(),
            spec_matches(t, ti0 as int, p, pi0 as int) == spec_matches(t, ti as int, p, pi as int),
        decreases pattern.len() - pi,
    {
        if pi == pattern.len() {
            return ti == text.len();
        }
        let pc = pattern[pi];
        if pc == STAR {
            proof { lemma_star(t, ti as int, p, pi as int); }
            pi += 1;
            while pi < pattern.len() && pattern[pi] == STAR
                invariant
                    t == text@,
                    p == pattern@,
                    pi0 < pi <= pattern.len(),
                    ti <= text.len(),
                    spec_matches(t, ti0 as int, p, pi0 as int) == star_ok(t, ti as int, p, pi as int),
                decreases pattern.len() - pi,
            {
                proof { lemma_star_star(t, ti as int, p, pi as int); }
                pi += 1;
            }
            if pi == pattern.len() {
                proof { lemma_star_end(t, ti as int, p); }
                return true;
            }
            let next = pattern[pi];
            if next != BACKSLASH && next != QUESTION && next != LBRACKET && next != STAR {
                let mut off = ti;
                while off < text.len() && text[off] != next
                    invariant
                        ti <= off <= text.len(),
                        t == text@,
                        forall|k: int| ti <= k < off ==> t[k] != next,
                    decreases text.len() - off,
                {
                    off += 1;
                }
                proof { lemma_star_skip(t, ti as int, off as int, p, pi as int); }
                if off == text.len() {
                    return false;
                }
                ti = off;
            }
            loop
                invariant
                    t == text@,
                    p == pattern@,
                    pi0 < pi < pattern.len(),
                    ti <= text.len(),
                    spec_matches(t, ti0 as int, p, pi0 as int) == star_ok(t, ti as int, p, pi as int),
                decreases text.len() - ti,
            {
                proof { lemma_star_ok_step(t, ti as int, p, pi as int); }
                if pattern_matches_inner(text, ti, pattern, pi) {
                    return true;
                }
                if ti == text.len() {
                    return false;
                }
                ti += 1;
            }
        } else if pc == QUESTION {
            pi += 1;
            if ti >= text.len() {
                return false;
            }
            ti += 1;
        } else if pc == LBRACKET {
            if ti >= text.len() {
                return false;
            }
            let char_len: usize = 1;
            match match_bracket(Some(text[ti]), char_len, text, ti, pattern, pi) {
                Some((matched, next_pi)) => {
                    if !matched {
                        return false;
                    }
                    pi = next_pi;
                    ti += char_len;
                },
                None => {
                    if text[ti] != LBRACKET {
                        return false;
                    }
                    ti += 1;
                    pi += 1;
                },
            }
        } else if pc == BACKSLASH && 1 < pattern.len() - pi {
            let c = pattern[pi + 1];
            if ti >= text.len() || text[ti] != c {
                return false;
            }
            ti += 1;
            pi += 2;
        } else {
            if ti >= text.len() || text[ti] != pc {
                return false;
            }
            ti += 1;
            pi += 1;
        }
    }
}

/// Whether `text` matches the shell pattern `pattern`: `*` matches any
/// string, `?` any byte, `[...]` a bracket expression, and a backslash
/// makes the next byte literal.
pub fn pattern_matches(text: &[u8], pattern: &[u8]) -> (r: bool)
    ensures
        r == spec_pattern_matches(text@, pattern@),
{
    pattern_matches_inner(text, 0, pattern, 0)
}


// ---------------------------------------------------------------------
// Laws
// ---------------------------------------------------------------------

/// Every byte of `s` preceded by a backslash: the pattern that matches
/// `s` literally.
pub open spec fn escape_all(s: Seq<u8>) -> Seq<u8>
    decreases s.len(),
{
    if s.len() == 0 {
        Seq::empty()
    } else {
        seq![BACKSLASH, s[0]] + escape_all(s.drop_first())
    }
}

/// `p` holds the escaped byte `s[j]` at `2 * j`.
pub open spec fn escaped_at(p: Seq<u8>, s: Seq<u8>, j: int) -> bool {
    p[2 * j] == BACKSLASH && p[2 * j + 1] == s[j]
}

proof fn lemma_escape_all_shape(s: Seq<u8>)
    ensures
        escape_all(s).len() == 2 * s.len(),
        forall|j: int| 0 <= j < s.len() ==> #[trigger] escaped_at(escape_all(s), s, j),
    decreases s.len(),
{
    if s.len() > 0 {
        lemma_escape_all_shape(s.drop_first());
        let e = escape_all(s);
        let r = escape_all(s.drop_first());
        assert(e == seq![BACKSLASH, s[0]] + r);
        assert forall|j: int| 0 <= j < s.len() implies #[trigger] escaped_at(e, s, j) by {
            if j > 0 {
                assert(escaped_at(r, s.drop_first(), j - 1));
                assert(e[2 * j] == r[2 * (j - 1)]);
                assert(e[2 * j + 1] == r[2 * (j - 1) + 1]);
            }
        }
    }
}

proof fn lemma_escaped_suffix(t: Seq<u8>, ti: int, s: Seq<u8>, k: int)
    requires
        0 <= ti <= t.len(),
        0 <= k <= s.len(),
        escape_all(s).len() == 2 * s.len(),
        forall|j: int| 0 <= j < s.len() ==> #[trigger] escaped_at(escape_all(s), s, j),
    ensures
        spec_matches(t, ti, escape_all(s), 2 * k) == (t.subrange(ti, t.len() as int) == s.subrange(k, s.len() as int)),
    decreases s.len() - k,
{
    let p = escape_all(s);
    if k < s.len() {
        assert(escaped_at(p, s, k));
        if ti < t.len() {
            lemma_escaped_suffix(t, ti + 1, s, k + 1);
            if t.subrange(ti, t.len() as int) == s.subrange(k, s.len() as int) {
                assert(t[ti] == t.subrange(ti, t.len() as int)[0]);
                assert(t.subrange(ti + 1, t.len() as int) =~= t.subrange(ti, t.len() as int).drop_first());
                assert(s.subrange(k + 1, s.len() as int) =~= s.subrange(k, s.len() as int).drop_first());
            }
            if t[ti] == s[k] && t.subrange(ti + 1, t.len() as int) == s.subrange(k + 1, s.len() as int) {
                assert(t.subrange(ti, t.len() as int) =~= seq![t[ti]] + t.subrange(ti + 1, t.len() as int));
                assert(s.subrange(k, s.len() as int) =~= seq![s[k]] + s.subrange(k + 1, s.len() as int));
            }
        } else {
            assert(t.subrange(ti, t.len() as int).len() == 0);
        }
    } else {
        assert(s.subrange(k, s.len() as int).len() == 0);
        if ti < t.len() {
            assert(t.subrange(ti, t.len() as int).len() > 0);
        } else {
            assert(t.subrange(ti, t.len() as int) =~= s.subrange(k, s.len() as int));
        }
    }
}

/// A pattern in which every byte is escaped matches exactly the string
/// that it spells, whatever bytes that string holds.
pub proof fn law_escaped_pattern_matches_itself_only(t: Seq<u8>, s: Seq<u8>)
    ensures
        spec_pattern_matches(t, escape_all(s)) == (t == s),
{
    lemma_escape_all_shape(s);
    lemma_escaped_suffix(t, 0, s, 0);
    assert(t.subrange(0, t.len() as int) =~= t);
    assert(s.subrange(0, s.len() as int) =~= s);
}

/// The pattern `*` matches every string.
pub proof fn law_star_matches_everything(t: Seq<u8>)
    ensures
        spec_pattern_matches(t, seq![STAR]),
{
    let p = seq![STAR];
    lemma_star(t, 0, p, 0);
    lemma_star_end(t, 0, p);
}

/// A pattern without `*`, `?`, `[` or `\` matches exactly itself.
pub proof fn law_plain_pattern_matches_itself_only(t: Seq<u8>, p: Seq<u8>)
    requires
        forall|j: int| 0 <= j < p.len() ==> p[j] != STAR && p[j] != QUESTION && p[j] != LBRACKET && p[j] != BACKSLASH,
    ensures
        spec_pattern_matches(t, p) == (t == p),
{
    lemma_plain_suffix(t, 0, p, 0);
    assert(t.subrange(0, t.len() as int) =~= t);
    assert(p.subrange(0, p.len() as int) =~= p);
}

proof fn lemma_plain_suffix(t: Seq<u8>, ti: int, p: Seq<u8>, pi: int)
    requires
        0 <= ti <= t.len(),
        0 <= pi <= p.len(),
        forall|j: int| 0 <= j < p.len() ==> p[j] != STAR && p[j] != QUESTION && p[j] != LBRACKET && p[j] != BACKSLASH,
    ensures
        spec_matches(t, ti, p, pi) == (t.subrange(ti, t.len() as int) == p.subrange(pi, p.len() as int)),
    decreases p.len() - pi,
{
    if pi < p.len() {
        if ti < t.len() {
            lemma_plain_suffix(t, ti + 1, p, pi + 1);
            if t.subrange(ti, t.len() as int) == p.subrange(pi, p.len() as int) {
                assert(t[ti] == t.subrange(ti, t.len() as int)[0]);
                assert(t.subrange(ti + 1, t.len() as int) =~= t.subrange(ti, t.len() as int).drop_first());
                assert(p.subrange(pi + 1, p.len() as int) =~= p.subrange(pi, p.len() as int).drop_first());
            }
            if t[ti] == p[pi] && t.subrange(ti + 1, t.len() as int) == p.subrange(pi + 1, p.len() as int) {
                assert(t.subrange(ti, t.len() as int) =~= seq![t[ti]] + t.subrange(ti + 1, t.len() as int));
                assert(p.subrange(pi, p.len() as int) =~= seq![p[pi]] + p.subrange(pi + 1, p.len() as int));
            }
        } else {
            assert(t.subrange(ti, t.len() as int).len() == 0);
        }
    } else {
        assert(p.subrange(pi, p.len() as int).len() == 0);
        if ti < t.len() {
            assert(t.subrange(ti, t.len() as int).len() > 0);
        } else {
            assert(t.subrange(ti, t.len() as int) =~= p.subrange(pi, p.len() as int));
        }
    }
}


/// A range `[x-y]` holds exactly the bytes from `x` to `y`, both ends
/// included: the one-byte text `c` matches it just when `x <= c <= y`.
/// (`x` is no `!`, `^` or backslash, which would negate or escape, and `y`
/// no `]`, which would close the bracket.)
pub proof fn law_range_holds_both_ends(x: u8, y: u8, c: u8)
    requires
        x != BANG,
        x != CARET,
        x != BACKSLASH,
        y != RBRACKET,
    ensures
        spec_pattern_matches(seq![c], seq![LBRACKET, x, MINUS, y, RBRACKET]) == (x <= c && c <= y),
{
    let t = seq![c];
    let p = seq![LBRACKET, x, MINUS, y, RBRACKET];
    assert(spec_collating_endpoint(p, 3) is None);
    assert(spec_range(p, 2, c, x) == Some((x <= c && c <= y, 4int)));
    assert(spec_plain_elem(p, 1, c) == (x <= c && c <= y, 4int));
    if x == LBRACKET {
        assert(spec_special_elem(t, 0, p, 1, c) is None);
    }
    assert(spec_elem(t, 0, p, 1, c) == (x <= c && c <= y, 4int));
    assert(spec_bracket_loop(t, 0, p, 4, c, x <= c && c <= y, false) == Some((x <= c && c <= y, 5int)));
    assert(spec_bracket_loop(t, 0, p, 1, c, false, true) == Some((x <= c && c <= y, 5int)));
    assert(spec_bracket(t, 0, p, 0, c) == Some((x <= c && c <= y, 5int)));
    assert(spec_matches(t, 1, p, 5));
}

} // verus!
