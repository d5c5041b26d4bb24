//! Word expansion: tilde, parameter, command and arithmetic expansion and
//! quote removal, producing the segments that field splitting and
//! pathname expansion then work on.

use vstd::prelude::*;
use vstd::string::StringSliceAdditionalSpecFns;
use crate::arith::{eval_arithmetic, spec_eval_arithmetic, ArithOutcome};
use crate::bytes::{i64_to_bytes, join_bstrings, spec_i64_text, spec_join, u64_to_bytes, views};
use crate::chars::{
    is_name_char, is_name_start, is_digit, spec_is_name_char, AT, BACKQUOTE, BACKSLASH, BANG, COLON,
    DIGIT_ZERO, DOLLAR, DQUOTE, HASH, LBRACE, LPAREN, MINUS, NEWLINE, QUESTION, RBRACE, RPAREN,
    SLASH, SPACE, SQUOTE, STAR, TILDE,
};
use crate::context::{expand_error, Context, ExpandError};
use crate::params::{
    braced_action, default_fail_message, lookup_answered, lookup_param, opt_view, param_answered,
    require_set_parameter, spec_braced_action, text_view, value_answered, var_answered, with_suffix, BracedAction,
};
use crate::scan::{
    arith_close, command_close, scan_arithmetic_expansion, scan_command_substitution,
    is_name, lemma_skip_single, parse_dollar_single_quoted, parse_parameter_expression,
    scan_backtick_command, scan_to_closing_brace, skip_single, spec_backquote, spec_closing_brace, spec_dollar_single,
    spec_is_name, trim_trailing_newlines,
};
use crate::segments::{
    find_at_marker, flatten, flatten_segments, has_at_break, has_at_empty, push_segment,
    push_segment_slice, remove_parameter_pattern, render_pattern_from_segments, segs_view,
    spec_push_segment, spec_render_pattern, split_at_breaks, ExpandedWord, Expansion, QuoteState,
    SegView, Segment,
};

verus! {

// ---------------------------------------------------------------------
// Words that expansion only unquotes
// ---------------------------------------------------------------------

/// A word with no `$`, no backquote and no leading `~`: expansion only
/// removes its quotes.
pub open spec fn is_plain_word(raw: Seq<u8>) -> bool {
    &&& (raw.len() == 0 || raw[0] != TILDE)
    &&& forall|i: int| 0 <= i < raw.len() ==> #[trigger] raw[i] != DOLLAR && raw[i] != BACKQUOTE
}

/// Whether a backslash inside double quotes escapes `b`.
pub open spec fn dq_escapable(b: u8) -> bool {
    b == DOLLAR || b == BACKQUOTE || b == DQUOTE || b == BACKSLASH || b == NEWLINE || b == RBRACE
}

/// The text of a double-quoted span (free of `$` and backquotes) whose
/// text starts at `i`, with its escapes removed, and the index of the
/// closing `"`; `None` if no `"` closes it.
pub open spec fn dq_text(raw: Seq<u8>, i: int) -> Option<(Seq<u8>, int)>
    decreases raw.len() - i,
{
    if i < 0 || i >= raw.len() {
        None
    } else if raw[i] == DQUOTE {
        Some((Seq::empty(), i))
    } else if raw[i] == BACKSLASH && i + 1 < raw.len() && dq_escapable(raw[i + 1]) {
        match dq_text(raw, i + 2) {
            Some((t, e)) => Some((if raw[i + 1] == NEWLINE { t } else { seq![raw[i + 1]] + t }, e)),
            None => None,
        }
    } else {
        match dq_text(raw, i + 1) {
            Some((t, e)) => Some((seq![raw[i]] + t, e)),
            None => None,
        }
    }
}

pub proof fn lemma_dq_text_bounds(raw: Seq<u8>, i: int)
    ensures
        dq_text(raw, i) matches Some((_, e)) ==> i <= e < raw.len() && raw[e] == DQUOTE,
    decreases raw.len() - i,
{
    if 0 <= i < raw.len() && raw[i] != DQUOTE {
        if raw[i] == BACKSLASH && i + 1 < raw.len() && dq_escapable(raw[i + 1]) {
            lemma_dq_text_bounds(raw, i + 2);
        } else {
            lemma_dq_text_bounds(raw, i + 1);
        }
    }
}

/// The segments that unquoting `raw[i..]` appends to `segs`, and whether
/// a quoted span occurred; `None` where a quote is left open.
pub open spec fn plain_run(raw: Seq<u8>, i: int, segs: Seq<SegView>, quoted: bool) -> Option<(Seq<SegView>, bool)>
    decreases raw.len() - i,
{
    if i < 0 || i >= raw.len() {
        Some((segs, quoted))
    } else if raw[i] == SQUOTE {
        let close = skip_single(raw, i + 1);
        proof { lemma_skip_single(raw, i + 1); }
        if close >= raw.len() {
            None
        } else {
            plain_run(raw, close + 1, spec_push_segment(segs, raw.subrange(i + 1, close), QuoteState::Quoted), true)
        }
    } else if raw[i] == DQUOTE {
        proof { lemma_dq_text_bounds(raw, i + 1); }
        match dq_text(raw, i + 1) {
            Some((t, e)) => plain_run(raw, e + 1, spec_push_segment(segs, t, QuoteState::Quoted), true),
            None => None,
        }
    } else if raw[i] == BACKSLASH {
        if i + 1 < raw.len() {
            plain_run(raw, i + 2, spec_push_segment(segs, seq![raw[i + 1]], QuoteState::Quoted), quoted)
        } else {
            Some((segs, quoted))
        }
    } else {
        plain_run(raw, i + 1, spec_push_segment(segs, seq![raw[i]], QuoteState::Literal), quoted)
    }
}

/// The message of the error that unquoting `raw[i..]` ends in: the quote
/// left open, or nothing where every quote closes.
pub open spec fn plain_error(raw: Seq<u8>, i: int) -> Seq<u8>
    decreases raw.len() - i,
{
    if i < 0 || i >= raw.len() {
        Seq::empty()
    } else if raw[i] == SQUOTE {
        let close = skip_single(raw, i + 1);
        proof { lemma_skip_single(raw, i + 1); }
        if close >= raw.len() {
            "unterminated single quote".spec_bytes()
        } else {
            plain_error(raw, close + 1)
        }
    } else if raw[i] == DQUOTE {
        proof { lemma_dq_text_bounds(raw, i + 1); }
        match dq_text(raw, i + 1) {
            Some((t, e)) => plain_error(raw, e + 1),
            None => "unterminated double quote".spec_bytes(),
        }
    } else if raw[i] == BACKSLASH && i + 1 < raw.len() {
        plain_error(raw, i + 2)
    } else {
        plain_error(raw, i + 1)
    }
}

/// Whether a backslash occurs among the first `n` bytes of `s`.
pub open spec fn backslash_before(s: Seq<u8>, n: int) -> bool {
    exists|k: int| 0 <= k < n && k < s.len() && #[trigger] s[k] == BACKSLASH
}

/// The unquoted form of a plain word: its segments and whether it held a
/// quoted span.
pub open spec fn spec_unquote(raw: Seq<u8>) -> Option<(Seq<SegView>, bool)> {
    plain_run(raw, 0, Seq::empty(), false)
}

/// Every segment is text that came from the word itself, not from an
/// expansion.
pub open spec fn source_texts(s: Seq<SegView>) -> bool {
    forall|j: int| 0 <= j < s.len() ==> (#[trigger] s[j] matches SegView::Text(_, q) && q
        != QuoteState::Expanded)
}

proof fn lemma_push_source_texts(s: Seq<SegView>, t: Seq<u8>, q: QuoteState)
    requires
        source_texts(s),
        q != QuoteState::Expanded,
    ensures
        source_texts(spec_push_segment(s, t, q)),
{
    let r = spec_push_segment(s, t, q);
    assert forall|j: int| 0 <= j < r.len() implies (#[trigger] r[j] matches SegView::Text(_, q2) && q2
        != QuoteState::Expanded) by {
        if j < s.len() - 1 || (j < s.len() && t.len() == 0) {
            assert(r[j] == s[j]);
        } else if j < s.len() {
            assert(s[j] matches SegView::Text(_, _));
        }
    }
}

pub proof fn lemma_plain_run_source_texts(raw: Seq<u8>, i: int, segs: Seq<SegView>, quoted: bool)
    requires
        source_texts(segs),
    ensures
        plain_run(raw, i, segs, quoted) matches Some((s, _)) ==> source_texts(s),
    decreases raw.len() - i,
{
    if 0 <= i < raw.len() {
        if raw[i] == SQUOTE {
            let close = skip_single(raw, i + 1);
            lemma_skip_single(raw, i + 1);
            if close < raw.len() {
                lemma_push_source_texts(segs, raw.subrange(i + 1, close), QuoteState::Quoted);
                lemma_plain_run_source_texts(raw, close + 1, spec_push_segment(segs, raw.subrange(i + 1, close), QuoteState::Quoted), true);
            }
        } else if raw[i] == DQUOTE {
            lemma_dq_text_bounds(raw, i + 1);
            match dq_text(raw, i + 1) {
                Some((t, e)) => {
                    lemma_push_source_texts(segs, t, QuoteState::Quoted);
                    lemma_plain_run_source_texts(raw, e + 1, spec_push_segment(segs, t, QuoteState::Quoted), true);
                },
                None => {},
            }
        } else if raw[i] == BACKSLASH {
            if i + 1 < raw.len() {
                lemma_push_source_texts(segs, seq![raw[i + 1]], QuoteState::Quoted);
                lemma_plain_run_source_texts(raw, i + 2, spec_push_segment(segs, seq![raw[i + 1]], QuoteState::Quoted), quoted);
            }
        } else {
            lemma_push_source_texts(segs, seq![raw[i]], QuoteState::Literal);
            lemma_plain_run_source_texts(raw, i + 1, spec_push_segment(segs, seq![raw[i]], QuoteState::Literal), quoted);
        }
    }
}

pub proof fn lemma_source_texts_no_markers(s: Seq<SegView>)
    requires
        source_texts(s),
    ensures
        !has_at_break(s),
        !has_at_empty(s),
{
    if has_at_break(s) {
        let j = choose|j: int| 0 <= j < s.len() && #[trigger] s[j] == SegView::AtBreak;
        assert(s[j] matches SegView::Text(_, _));
    }
    if has_at_empty(s) {
        let j = choose|j: int| 0 <= j < s.len() && #[trigger] s[j] == SegView::AtEmpty;
        assert(s[j] matches SegView::Text(_, _));
    }
}

// ---------------------------------------------------------------------
// Appending expansions
// ---------------------------------------------------------------------

/// The segments of `"$@"` appended to `s`: the parameters as quoted
/// text with a break between each two, or a marker where there are none.
pub open spec fn spec_push_fields(s: Seq<SegView>, params: Seq<Seq<u8>>) -> Seq<SegView>
    decreases params.len(),
{
    if params.len() == 0 {
        s
    } else {
        let before = spec_push_fields(s, params.drop_last());
        let broken = if params.len() > 1 { before.push(SegView::AtBreak) } else { before };
        spec_push_segment(broken, params.last(), QuoteState::Quoted)
    }
}

/// The segments `expansion` appends to `s`.
pub open spec fn spec_apply_expansion(s: Seq<SegView>, expansion: Expansion, quoted: bool) -> Seq<SegView> {
    match expansion {
        Expansion::One(text) => spec_push_segment(s, text@, if quoted { QuoteState::Quoted } else {
            QuoteState::Expanded
        }),
        Expansion::AtFields(params) => if params.len() == 0 {
            s.push(SegView::AtEmpty)
        } else {
            spec_push_fields(s, views(params@))
        },
    }
}

/// Appends the result of one `$` expansion to the segments.
pub fn apply_expansion(segments: &mut Vec<Segment>, expansion: Expansion, quoted: bool, has_at: &mut bool)
    ensures
        segs_view(final(segments)@) == spec_apply_expansion(segs_view(old(segments)@), expansion, quoted),
        *final(has_at) == (*old(has_at) || expansion is AtFields),
{
    let ghost e = expansion;
    let state = if quoted { QuoteState::Quoted } else { QuoteState::Expanded };
    match expansion {
        Expansion::One(s) => push_segment(segments, s, state),
        Expansion::AtFields(params) => {
            *has_at = true;
            if params.len() == 0 {
                segments.push(Segment::AtEmpty);
                assert(segs_view(segments@) =~= spec_apply_expansion(segs_view(old(segments)@), e, quoted));
            } else {
                let ghost start = segs_view(segments@);
                let ghost pv = views(params@);
                let mut i: usize = 0;
                assert(pv.take(0) =~= Seq::<Seq<u8>>::empty());
                while i < params.len()
                    invariant
                        i <= params.len(),
                        pv == views(params@),
                        segs_view(segments@) == spec_push_fields(start, pv.take(i as int)),
                    decreases params.len() - i,
                {
                    assert(pv.take(i + 1).drop_last() =~= pv.take(i as int));
                    if i > 0 {
                        segments.push(Segment::AtBreak);
                        assert(segs_view(segments@) =~= spec_push_fields(start, pv.take(i as int)).push(SegView::AtBreak));
                    }
                    let p = vstd::slice::slice_to_vec(params[i].as_slice());
                    push_segment(segments, p, QuoteState::Quoted);
                    i += 1;
                }
                assert(pv.take(params.len() as int) =~= pv);
            }
        },
    }
}

/// Whether some text segment came from an unquoted expansion.
pub fn has_expanded_segment(segments: &[Segment]) -> (r: bool)
    ensures
        r == exists|j: int| 0 <= j < segments@.len() && (#[trigger] segs_view(segments@)[j] matches SegView::Text(_, q)
            && q == QuoteState::Expanded),
{
    let ghost s = segs_view(segments@);
    let mut i: usize = 0;
    while i < segments.len()
        invariant
            i <= segments.len(),
            s == segs_view(segments@),
            forall|j: int| 0 <= j < i ==> !(#[trigger] s[j] matches SegView::Text(_, q) && q == QuoteState::Expanded),
        decreases segments.len() - i,
    {
        match &segments[i] {
            Segment::Text(_, QuoteState::Expanded) => {
                assert(s[i as int] matches SegView::Text(_, q) && q == QuoteState::Expanded);
                return true;
            },
            _ => {},
        }
        i += 1;
    }
    false
}

// ---------------------------------------------------------------------
// Expanding the raw text of a word
// ---------------------------------------------------------------------

/// The result of `expand_raw` on a plain word.
pub open spec fn plain_result(raw: Seq<u8>, r: Result<ExpandedWord, ExpandError>) -> bool {
    match spec_unquote(raw) {
        None => r matches Err(e) && e.message@ == plain_error(raw, 0),
        Some((segs, q)) => r matches Ok(w) && segs_view(w.segments@) == segs && w.had_quoted_content
            == q && !w.has_at_expansion && w.had_quoted_null_outside_at == (q || backslash_before(raw, raw.len() as int)),
    }
}

/// The word `"$c"`: one special parameter in double quotes.
pub open spec fn is_quoted_special_word(raw: Seq<u8>, c: u8) -> bool {
    raw == seq![DQUOTE, DOLLAR, c, DQUOTE]
}

/// Whether `segs` are the segments of `"$@"` in the shell `ctx`, and
/// `"$*"` for `star`: what the shell answers for the positional
/// parameters, as separate fields, or joined by the first byte of `IFS`.
pub open spec fn quoted_special_segments<C: Context>(ctx: &C, star: bool, segs: Seq<SegView>) -> bool {
    if star {
        exists|ifs: Option<Seq<u8>>, ps: Vec<Vec<u8>>| #[trigger] var_answered(ctx, "IFS".spec_bytes(), ifs)
            && #[trigger] call_ensures(C::positional_params, (ctx,), ps) && segs == spec_push_segment(
            Seq::empty(),
            spec_join(views(ps@), spec_star_separator(ifs)),
            QuoteState::Quoted,
        )
    } else {
        exists|ps: Vec<Vec<u8>>| #[trigger] call_ensures(C::positional_params, (ctx,), ps) && segs == spec_apply_expansion(
            Seq::empty(),
            Expansion::AtFields(ps),
            true,
        )
    }
}

/// What one state of the shell answers for `"$@"` and `"$*"`, another
/// that answers alike answers too.
pub proof fn lemma_quoted_special_alike<C: Context>(a: &C, b: &C, star: bool, segs: Seq<SegView>)
    requires
        crate::params::answers_alike(a, b),
        quoted_special_segments(a, star, segs),
    ensures
        quoted_special_segments(b, star, segs),
{
    if star {
        let (ifs, ps) = choose|ifs: Option<Seq<u8>>, ps: Vec<Vec<u8>>| #[trigger] var_answered(a, "IFS".spec_bytes(), ifs)
            && #[trigger] call_ensures(C::positional_params, (a,), ps) && segs == spec_push_segment(
            Seq::empty(),
            spec_join(views(ps@), spec_star_separator(ifs)),
            QuoteState::Quoted,
        );
        crate::params::lemma_answers_alike(a, b, "IFS".spec_bytes(), Ok::<Seq<u8>, Seq<u8>>(Seq::empty()), ifs);
        assert(call_ensures(C::positional_params, (b,), ps));
    } else {
        let ps = choose|ps: Vec<Vec<u8>>| #[trigger] call_ensures(C::positional_params, (a,), ps) && segs
            == spec_apply_expansion(Seq::empty(), Expansion::AtFields(ps), true);
        assert(call_ensures(C::positional_params, (b,), ps));
    }
}

/// The fields of `"$@"` and `"$*"` in the shell `ctx`: the positional
/// parameters the shell answers, as separate fields, or as one field
/// joined by the first byte of `IFS`.
pub open spec fn quoted_special_fields<C: Context>(ctx: &C, star: bool, out: Seq<Seq<u8>>) -> bool {
    if star {
        exists|ifs: Option<Seq<u8>>, ps: Vec<Vec<u8>>| #[trigger] var_answered(ctx, "IFS".spec_bytes(), ifs)
            && #[trigger] call_ensures(C::positional_params, (ctx,), ps) && out == seq![
            spec_join(views(ps@), spec_star_separator(ifs)),
        ]
    } else {
        exists|ps: Vec<Vec<u8>>| #[trigger] call_ensures(C::positional_params, (ctx,), ps) && out
            == crate::segments::spec_at_fields(spec_apply_expansion(Seq::empty(), Expansion::AtFields(ps), true), false)
    }
}

/// The text of a value pushed as the only segment is the value.
pub proof fn lemma_flatten_single(v: Seq<u8>, q: QuoteState)
    ensures
        flatten(spec_push_segment(Seq::empty(), v, q)) == v,
{
    let s = spec_push_segment(Seq::empty(), v, q);
    if v.len() == 0 {
        assert(s.len() == 0);
        assert(flatten(s) =~= v);
    } else {
        assert(s.drop_last() =~= Seq::<SegView>::empty());
        assert(flatten(s.drop_last()) =~= Seq::<u8>::empty());
        assert(flatten(s) =~= v);
    }
}

/// Whether `b` stands for itself in a word, outside quotes.
pub open spec fn ordinary_byte(b: u8) -> bool {
    b != SQUOTE && b != DQUOTE && b != BACKSLASH && b != DOLLAR && b != BACKQUOTE && b != NEWLINE
}

/// A word `~` or `~/...` whose rest is made of bytes that stand for
/// themselves: the home directory and a literal path below it.
pub open spec fn is_tilde_word(raw: Seq<u8>) -> bool {
    &&& raw.len() >= 1
    &&& raw[0] == TILDE
    &&& raw.len() == 1 || raw[1] == SLASH
    &&& forall|k: int| 1 <= k < raw.len() ==> ordinary_byte(#[trigger] raw[k])
}

/// The segment a leading `~` becomes, given the value of `HOME`: the
/// home directory as quoted text (an empty one kept as an empty quoted
/// segment), or a literal `~` where `HOME` is unset.
pub open spec fn tilde_segments(home: Option<Seq<u8>>) -> Seq<SegView> {
    match home {
        Some(h) => seq![SegView::Text(h, QuoteState::Quoted)],
        None => seq![SegView::Text(seq![TILDE], QuoteState::Literal)],
    }
}

/// The text a leading `~` becomes, given the value of `HOME`.
pub open spec fn tilde_text(home: Option<Seq<u8>>) -> Seq<u8> {
    match home {
        Some(h) => h,
        None => seq![TILDE],
    }
}

/// Appending literal text in two pieces appends it in one.
pub proof fn lemma_push_literal_twice(s: Seq<SegView>, x: Seq<u8>, y: Seq<u8>)
    ensures
        spec_push_segment(spec_push_segment(s, x, QuoteState::Literal), y, QuoteState::Literal) == spec_push_segment(
            s,
            x + y,
            QuoteState::Literal,
        ),
{
    if x.len() == 0 {
        assert(x + y =~= y);
    } else if y.len() == 0 {
        assert(x + y =~= x);
    } else {
        let s1 = spec_push_segment(s, x, QuoteState::Literal);
        assert(s1.len() > 0);
        if s.len() > 0 {
            match s.last() {
                SegView::Text(t, q) => if q == QuoteState::Literal {
                    assert(s1.drop_last() =~= s.drop_last());
                    assert(t + x + y =~= t + (x + y));
                } else {
                    assert(s1.drop_last() =~= s);
                },
                _ => {
                    assert(s1.drop_last() =~= s);
                },
            }
        } else {
            assert(s1.drop_last() =~= s);
        }
    }
}

/// The segments of a `~` word: none from an expansion, at least one, with
/// the home directory (or `~`) and the literal rest as their text, and an
/// active glob character only where the rest holds one.
pub proof fn lemma_tilde_word_segments(h: Option<Seq<u8>>, tail: Seq<u8>)
    ensures
        ({
            let segs = spec_push_segment(tilde_segments(h), tail, QuoteState::Literal);
            &&& segs.len() > 0
            &&& forall|j: int| 0 <= j < segs.len() ==> (#[trigger] segs[j] matches SegView::Text(_, q) && q
                != QuoteState::Expanded)
            &&& flatten(segs) == tilde_text(h) + tail
            &&& !crate::segments::has_glob_byte(tail) ==> !crate::segments::any_unquoted_glob(segs)
        }),
{
    let t = tilde_segments(h);
    let segs = spec_push_segment(t, tail, QuoteState::Literal);
    crate::segments::lemma_flatten_push(t, tail, QuoteState::Literal);
    assert(t.drop_last() =~= Seq::<SegView>::empty());
    assert(flatten(t.drop_last()) == flatten(Seq::<SegView>::empty()));
    assert(flatten(Seq::<SegView>::empty()) =~= Seq::<u8>::empty());
    assert(t.last() == SegView::Text(tilde_text(h), match h {
        Some(_) => QuoteState::Quoted,
        None => QuoteState::Literal,
    }));
    assert(Seq::<u8>::empty() + tilde_text(h) =~= tilde_text(h));
    assert(flatten(t) =~= tilde_text(h));
    if !crate::segments::has_glob_byte(tail) && crate::segments::any_unquoted_glob(segs) {
        let j = choose|j: int| 0 <= j < segs.len() && #[trigger] crate::segments::seg_has_unquoted_glob(segs[j]);
        if tail.len() == 0 {
            assert(segs == t);
        } else {
            match h {
                Some(v) => {
                    assert(segs =~= seq![SegView::Text(v, QuoteState::Quoted), SegView::Text(tail, QuoteState::Literal)]);
                },
                None => {
                    assert(segs =~= seq![SegView::Text(seq![TILDE] + tail, QuoteState::Literal)]);
                    let w = seq![TILDE] + tail;
                    let k = choose|k: int| 0 <= k < w.len() && crate::segments::spec_is_glob_byte(#[trigger] w[k]);
                    if k == 0 {
                        assert(w[0] == TILDE);
                    } else {
                        assert(w[k] == tail[k - 1]);
                    }
                },
            }
        }
    }
    assert forall|j: int| 0 <= j < segs.len() implies (#[trigger] segs[j] matches SegView::Text(_, q) && q
        != QuoteState::Expanded) by {
        if tail.len() > 0 {
            match h {
                Some(v) => {
                    assert(segs =~= seq![SegView::Text(v, QuoteState::Quoted), SegView::Text(tail, QuoteState::Literal)]);
                },
                None => {
                    assert(segs =~= seq![SegView::Text(seq![TILDE] + tail, QuoteState::Literal)]);
                },
            }
        }
    }
}

/// Whether `b` stands for itself inside double quotes and asks for no
/// expansion or escape.
pub open spec fn dq_simple(b: u8) -> bool {
    b != DOLLAR && b != BACKQUOTE && b != BACKSLASH && b != DQUOTE && b != NEWLINE
}

/// The word `"pre$@suf"` with its `$` at `p`, where `pre` and `suf` are
/// text that stands for itself.
pub open spec fn is_at_sandwich(raw: Seq<u8>, p: int) -> bool {
    &&& 1 <= p
    &&& p + 3 <= raw.len()
    &&& raw[0] == DQUOTE
    &&& raw[raw.len() - 1] == DQUOTE
    &&& raw[p] == DOLLAR
    &&& raw[p + 1] == AT
    &&& forall|k: int| 1 <= k < raw.len() - 1 && k != p && k != p + 1 ==> dq_simple(#[trigger] raw[k])
}

/// The word `''..''"..."`: `q` bytes of empty single-quoted pairs, then one
/// double-quoted part, from `q`, whose bytes stand for themselves but for
/// `$@` and `$name` expansions.
pub open spec fn is_dq_word(raw: Seq<u8>, q: int) -> bool {
    &&& 0 <= q
    &&& q % 2 == 0
    &&& q + 2 <= raw.len()
    &&& forall|k: int| 0 <= k < q ==> #[trigger] raw[k] == SQUOTE
    &&& raw[q] == DQUOTE
    &&& raw[raw.len() - 1] == DQUOTE
    &&& forall|k: int| q < k < raw.len() - 1 ==> (#[trigger] raw[k] == DOLLAR ==> k + 2 < raw.len() && (raw[k + 1] == AT
        || crate::chars::spec_is_name_start(raw[k + 1]))) && (raw[k] != DOLLAR ==> dq_simple(raw[k]))
}

/// Whether the double-quoted part from `q` of `raw` holds a `$@`.
pub open spec fn body_has_at(raw: Seq<u8>, q: int) -> bool {
    exists|k: int| q < k < raw.len() - 1 && #[trigger] raw[k] == DOLLAR && raw[k + 1] == AT
}

/// Whether `r` is what the double-quoted text `raw[i..]` (up to the
/// closing quote) adds to the segments `acc` in the shell `ctx`: its bytes
/// as quoted text, each `$@` as the positional parameters the shell
/// answers, each `$name` as a value the shell answers; or the error the
/// shell answers for the first parameter it refuses.
pub open spec fn dq_fits<C: Context>(ctx: &C, raw: Seq<u8>, i: int, acc: Seq<SegView>, r: Result<Seq<SegView>, Seq<u8>>) -> bool
    decreases raw.len() - i,
{
    if i < 0 || i >= raw.len() - 1 {
        r == Ok::<Seq<SegView>, Seq<u8>>(acc)
    } else if raw[i] == DOLLAR && i + 1 < raw.len() && raw[i + 1] == AT {
        exists|ps: Vec<Vec<u8>>| #[trigger] call_ensures(C::positional_params, (ctx,), ps) && dq_fits(
            ctx,
            raw,
            i + 2,
            spec_apply_expansion(acc, Expansion::AtFields(ps), true),
            r,
        )
    } else if raw[i] == DOLLAR && i + 1 < raw.len() && crate::chars::spec_is_name_start(raw[i + 1]) {
        let e = name_end(raw, i + 1);
        if i < e <= raw.len() {
            exists|v: Result<Seq<u8>, Seq<u8>>| #[trigger] param_answered(ctx, raw.subrange(i + 1, e), v) && match v {
                Ok(val) => dq_fits(ctx, raw, e, spec_push_segment(acc, val, QuoteState::Quoted), r),
                Err(m) => r == Err::<Seq<SegView>, Seq<u8>>(m),
            }
        } else {
            false
        }
    } else {
        dq_fits(ctx, raw, i + 1, spec_push_segment(acc, seq![raw[i]], QuoteState::Quoted), r)
    }
}

/// What one state of the shell makes of double-quoted text, another that
/// answers alike makes too.
pub proof fn lemma_dq_alike<C: Context>(a: &C, b: &C, raw: Seq<u8>, i: int, acc: Seq<SegView>, r: Result<Seq<SegView>, Seq<u8>>)
    requires
        crate::params::answers_alike(a, b),
        dq_fits(a, raw, i, acc, r),
    ensures
        dq_fits(b, raw, i, acc, r),
    decreases raw.len() - i,
{
    if i < 0 || i >= raw.len() - 1 {
    } else if raw[i] == DOLLAR && i + 1 < raw.len() && raw[i + 1] == AT {
        let ps = choose|ps: Vec<Vec<u8>>| #[trigger] call_ensures(C::positional_params, (a,), ps) && dq_fits(
            a,
            raw,
            i + 2,
            spec_apply_expansion(acc, Expansion::AtFields(ps), true),
            r,
        );
        assert(call_ensures(C::positional_params, (b,), ps));
        lemma_dq_alike(a, b, raw, i + 2, spec_apply_expansion(acc, Expansion::AtFields(ps), true), r);
    } else if raw[i] == DOLLAR && i + 1 < raw.len() && crate::chars::spec_is_name_start(raw[i + 1]) {
        let e = name_end(raw, i + 1);
        let v = choose|v: Result<Seq<u8>, Seq<u8>>| #[trigger] param_answered(a, raw.subrange(i + 1, e), v) && match v {
            Ok(val) => dq_fits(a, raw, e, spec_push_segment(acc, val, QuoteState::Quoted), r),
            Err(m) => r == Err::<Seq<SegView>, Seq<u8>>(m),
        };
        crate::params::lemma_answers_alike(a, b, raw.subrange(i + 1, e), v, None);
        if let Ok(val) = v {
            lemma_dq_alike(a, b, raw, e, spec_push_segment(acc, val, QuoteState::Quoted), r);
        }
    } else {
        lemma_dq_alike(a, b, raw, i + 1, spec_push_segment(acc, seq![raw[i]], QuoteState::Quoted), r);
    }
}

/// Whether every segment is quoted text.
pub open spec fn all_quoted(segs: Seq<SegView>) -> bool {
    forall|j: int| 0 <= j < segs.len() ==> (#[trigger] segs[j] matches SegView::Text(_, q) && q == QuoteState::Quoted)
}

/// Quoted text added to quoted text stays quoted.
pub proof fn lemma_push_quoted(acc: Seq<SegView>, t: Seq<u8>)
    requires
        all_quoted(acc),
    ensures
        all_quoted(spec_push_segment(acc, t, QuoteState::Quoted)),
{
    let r = spec_push_segment(acc, t, QuoteState::Quoted);
    if t.len() > 0 && acc.len() > 0 {
        assert(acc[acc.len() - 1] matches SegView::Text(_, q) && q == QuoteState::Quoted);
        assert forall|j: int| 0 <= j < r.len() implies (#[trigger] r[j] matches SegView::Text(_, q) && q == QuoteState::Quoted) by {
            if j < acc.len() - 1 {
                assert(r[j] == acc[j]);
            }
        }
    } else if t.len() > 0 {
        assert forall|j: int| 0 <= j < r.len() implies (#[trigger] r[j] matches SegView::Text(_, q) && q == QuoteState::Quoted) by {}
    }
}

/// Double-quoted text without `$@` gives quoted text only.
pub proof fn lemma_dq_quoted<C: Context>(ctx: &C, raw: Seq<u8>, i: int, acc: Seq<SegView>, segs: Seq<SegView>)
    requires
        all_quoted(acc),
        dq_fits(ctx, raw, i, acc, Ok::<Seq<SegView>, Seq<u8>>(segs)),
        forall|k: int| i <= k < raw.len() - 1 && #[trigger] raw[k] == DOLLAR ==> k + 1 < raw.len() && raw[k + 1] != AT,
    ensures
        all_quoted(segs),
    decreases raw.len() - i,
{
    let r = Ok::<Seq<SegView>, Seq<u8>>(segs);
    if i < 0 || i >= raw.len() - 1 {
    } else if raw[i] == DOLLAR && i + 1 < raw.len() && raw[i + 1] == AT {
    } else if raw[i] == DOLLAR && i + 1 < raw.len() && crate::chars::spec_is_name_start(raw[i + 1]) {
        let e = name_end(raw, i + 1);
        let v = choose|v: Result<Seq<u8>, Seq<u8>>| #[trigger] param_answered(ctx, raw.subrange(i + 1, e), v) && match v {
            Ok(val) => dq_fits(ctx, raw, e, spec_push_segment(acc, val, QuoteState::Quoted), r),
            Err(m) => r == Err::<Seq<SegView>, Seq<u8>>(m),
        };
        if let Ok(val) = v {
            lemma_push_quoted(acc, val);
            lemma_dq_quoted(ctx, raw, e, spec_push_segment(acc, val, QuoteState::Quoted), segs);
        }
    } else {
        lemma_push_quoted(acc, seq![raw[i]]);
        lemma_dq_quoted(ctx, raw, i + 1, spec_push_segment(acc, seq![raw[i]], QuoteState::Quoted), segs);
    }
}

/// Appending text of one kind in two pieces appends it in one.
pub proof fn lemma_push_twice(s: Seq<SegView>, x: Seq<u8>, y: Seq<u8>, q: QuoteState)
    ensures
        spec_push_segment(spec_push_segment(s, x, q), y, q) == spec_push_segment(s, x + y, q),
{
    if x.len() == 0 {
        assert(x + y =~= y);
    } else if y.len() == 0 {
        assert(x + y =~= x);
    } else if s.len() > 0 {
        match s.last() {
            SegView::Text(t, q2) => {
                if q2 == q {
                    let s1 = s.drop_last().push(SegView::Text(t + x, q));
                    assert(s1.drop_last() =~= s.drop_last());
                    assert(t + x + y =~= t + (x + y));
                } else {
                    assert(s.push(SegView::Text(x, q)).drop_last() =~= s);
                }
            },
            _ => {
                assert(s.push(SegView::Text(x, q)).drop_last() =~= s);
            },
        }
    } else {
        assert(s.push(SegView::Text(x, q)).drop_last() =~= s);
    }
}

/// The segments of `"pre$@suf"` for the positional parameters `ps`: the
/// prefix joined to the first, the suffix to the last.
pub open spec fn at_sandwich_segments(pre: Seq<u8>, ps: Vec<Vec<u8>>, suf: Seq<u8>) -> Seq<SegView> {
    spec_push_segment(
        spec_apply_expansion(spec_push_segment(Seq::empty(), pre, QuoteState::Quoted), Expansion::AtFields(ps), true),
        suf,
        QuoteState::Quoted,
    )
}

/// A word that is one backquoted command and nothing else; the command
/// with its escapes removed is `cmd`.
pub open spec fn is_backquote_word(raw: Seq<u8>, cmd: Seq<u8>) -> bool {
    &&& raw.len() >= 1
    &&& raw[0] == BACKQUOTE
    &&& spec_backquote(raw, 1, false) == Some((cmd, raw.len() as int))
}

/// Whether `o` is an answer a shell in some state answering alike to
/// `ctx` gives for running `cmd`, and `t` the text it expands to: its
/// output without trailing newlines, or `e` the error it passes on.
pub open spec fn backquote_fits<C: Context>(ctx: &C, cmd: Seq<u8>, r: Result<Seq<u8>, Seq<u8>>) -> bool {
    exists|c: C, o: Result<Vec<u8>, ExpandError>| #[trigger] crate::params::command_answered(c, cmd, o)
        && crate::params::answers_alike(&c, ctx) && r == match o {
        Ok(out) => Ok::<Seq<u8>, Seq<u8>>(out@.take(crate::scan::trimmed_newlines_len(out@))),
        Err(e) => Err::<Seq<u8>, Seq<u8>>(e.message@),
    }
}

/// A word that is one unquoted `${...}` and nothing else.
pub open spec fn is_braced_word(raw: Seq<u8>) -> bool {
    &&& raw.len() >= 3
    &&& raw[0] == DOLLAR
    &&& raw[1] == LBRACE
    &&& spec_closing_brace(raw, 2) == Some(raw.len() - 1)
}

/// A word that is one unquoted `$name` and nothing else.
pub open spec fn is_name_word(raw: Seq<u8>) -> bool {
    &&& raw.len() >= 2
    &&& raw[0] == DOLLAR
    &&& crate::chars::spec_is_name_start(raw[1])
    &&& name_end(raw, 1) == raw.len()
}

/// A word made of bytes that stand for themselves and `$name` expansions,
/// perhaps led by a `~` that names the home directory.
pub open spec fn is_names_word(raw: Seq<u8>) -> bool {
    &&& forall|k: int| 0 <= k < raw.len() ==> #[trigger] raw[k] == DOLLAR || ordinary_byte(raw[k])
    &&& forall|k: int| 0 <= k < raw.len() && #[trigger] raw[k] == DOLLAR ==> k + 1 < raw.len()
        && crate::chars::spec_is_name_start(raw[k + 1])
}

/// Whether the byte `b` ends the user name after a leading `~`.
pub open spec fn tilde_user_stop(b: u8) -> bool {
    b == SLASH || b == SQUOTE || b == DQUOTE || b == BACKSLASH || b == DOLLAR || b == BACKQUOTE
}

/// Where the user name after a leading `~` that has reached `k` ends.
pub open spec fn tilde_user_end(raw: Seq<u8>, k: int) -> int
    decreases raw.len() - k,
{
    if k < 0 || k >= raw.len() || tilde_user_stop(raw[k]) {
        k
    } else {
        tilde_user_end(raw, k + 1)
    }
}

/// The segment that `~user` becomes, given the home directory the shell
/// answers for the user: that directory as quoted text, or `~user` itself
/// where there is none.
pub open spec fn user_home_segments(user: Seq<u8>, home: Option<Seq<u8>>) -> Seq<SegView> {
    match home {
        Some(d) => spec_push_segment(Seq::empty(), d, QuoteState::Quoted),
        None => seq![SegView::Text(seq![TILDE] + user, QuoteState::Literal)],
    }
}

/// Whether `r` is what expanding `raw[i..]` adds to the segments `acc` in
/// the shell `ctx`: bytes that stand for themselves as literal text, the
/// home directory for a leading `~`, and for each `$name` a value the
/// shell answers for it; or the error it answers for the first parameter
/// it refuses.
pub open spec fn names_fits<C: Context>(ctx: &C, raw: Seq<u8>, i: int, acc: Seq<SegView>, r: Result<Seq<SegView>, Seq<u8>>) -> bool
    decreases raw.len() - i,
{
    if i < 0 || i >= raw.len() {
        r == Ok::<Seq<SegView>, Seq<u8>>(acc)
    } else if raw[i] == DOLLAR && i + 1 < raw.len() && crate::chars::spec_is_name_start(raw[i + 1]) {
        let e = name_end(raw, i + 1);
        if i < e <= raw.len() {
            exists|v: Result<Seq<u8>, Seq<u8>>| #[trigger] param_answered(ctx, raw.subrange(i + 1, e), v) && match v {
                Ok(val) => names_fits(ctx, raw, e, spec_push_segment(acc, val, QuoteState::Expanded), r),
                Err(m) => r == Err::<Seq<SegView>, Seq<u8>>(m),
            }
        } else {
            false
        }
    } else if i == 0 && raw[0] == TILDE {
        let k = tilde_user_end(raw, 1);
        if k == 1 && (raw.len() == 1 || raw[1] == SLASH) {
            exists|h: Option<Seq<u8>>| #[trigger] var_answered(ctx, "HOME".spec_bytes(), h) && names_fits(
                ctx,
                raw,
                1,
                tilde_segments(h),
                r,
            )
        } else if k == 1 {
            names_fits(ctx, raw, 1, seq![SegView::Text(seq![TILDE], QuoteState::Literal)], r)
        } else if 1 < k <= raw.len() {
            exists|o: Option<Seq<u8>>| #[trigger] crate::params::home_answered(ctx, raw.subrange(1, k), o) && names_fits(
                ctx,
                raw,
                k,
                user_home_segments(raw.subrange(1, k), o),
                r,
            )
        } else {
            false
        }
    } else {
        names_fits(ctx, raw, i + 1, spec_push_segment(acc, seq![raw[i]], QuoteState::Literal), r)
    }
}

/// What one state of the shell makes of a word of names, another that
/// answers alike makes too.
pub proof fn lemma_names_alike<C: Context>(a: &C, b: &C, raw: Seq<u8>, i: int, acc: Seq<SegView>, r: Result<Seq<SegView>, Seq<u8>>)
    requires
        crate::params::answers_alike(a, b),
        names_fits(a, raw, i, acc, r),
    ensures
        names_fits(b, raw, i, acc, r),
    decreases raw.len() - i,
{
    if i < 0 || i >= raw.len() {
    } else if raw[i] == DOLLAR && i + 1 < raw.len() && crate::chars::spec_is_name_start(raw[i + 1]) {
        let e = name_end(raw, i + 1);
        let v = choose|v: Result<Seq<u8>, Seq<u8>>| #[trigger] param_answered(a, raw.subrange(i + 1, e), v) && match v {
            Ok(val) => names_fits(a, raw, e, spec_push_segment(acc, val, QuoteState::Expanded), r),
            Err(m) => r == Err::<Seq<SegView>, Seq<u8>>(m),
        };
        crate::params::lemma_answers_alike(a, b, raw.subrange(i + 1, e), v, None);
        if let Ok(val) = v {
            lemma_names_alike(a, b, raw, e, spec_push_segment(acc, val, QuoteState::Expanded), r);
        }
    } else if i == 0 && raw[0] == TILDE {
        let k = tilde_user_end(raw, 1);
        if k == 1 && (raw.len() == 1 || raw[1] == SLASH) {
            let h = choose|h: Option<Seq<u8>>| #[trigger] var_answered(a, "HOME".spec_bytes(), h) && names_fits(a, raw, 1, tilde_segments(h), r);
            crate::params::lemma_answers_alike(a, b, "HOME".spec_bytes(), Ok::<Seq<u8>, Seq<u8>>(Seq::empty()), h);
            lemma_names_alike(a, b, raw, 1, tilde_segments(h), r);
        } else if k == 1 {
            lemma_names_alike(a, b, raw, 1, seq![SegView::Text(seq![TILDE], QuoteState::Literal)], r);
        } else {
            let user = raw.subrange(1, k);
            let o = choose|o: Option<Seq<u8>>| #[trigger] crate::params::home_answered(a, user, o) && names_fits(
                a,
                raw,
                k,
                user_home_segments(user, o),
                r,
            );
            let (n, d) = choose|n: &[u8], d: Option<Vec<u8>>| n@ == user && #[trigger] call_ensures(C::home_dir_for_user, (a, n), d)
                && o == opt_view(d);
            assert(call_ensures(C::home_dir_for_user, (b, n), d));
            assert(crate::params::home_answered(b, user, o));
            lemma_names_alike(a, b, raw, k, user_home_segments(user, o), r);
        }
    } else {
        lemma_names_alike(a, b, raw, i + 1, spec_push_segment(acc, seq![raw[i]], QuoteState::Literal), r);
    }
}

/// The segments of an expanded word, or the error message, as values.
pub open spec fn raw_view(r: Result<ExpandedWord, ExpandError>) -> Result<Seq<SegView>, Seq<u8>> {
    match r {
        Ok(w) => Ok(segs_view(w.segments@)),
        Err(e) => Err(e.message@),
    }
}

/// Expands the raw text of a word into segments: quotes removed, tilde,
/// parameter, command and arithmetic expansions performed.
#[verifier::spinoff_prover]
#[verifier::rlimit(100)]
pub fn expand_raw<C: Context>(ctx: &mut C, raw: &[u8]) -> (r: Result<ExpandedWord, ExpandError>)
    ensures
        is_plain_word(raw@) ==> plain_result(raw@, r),
        raw@.len() > 0 && raw@[0] == BACKQUOTE && spec_backquote(raw@, 1, false) is None ==> (r matches Err(e)
            && e.message@ == "unterminated backquote".spec_bytes()),
        is_plain_word(raw@) ==> crate::params::answers_alike(&*final(ctx), &*old(ctx)),
        is_name_word(raw@) ==> *final(ctx) == *old(ctx) && match r {
            Ok(w) => !w.has_at_expansion && !w.had_quoted_content && exists|v: Seq<u8>| #[trigger] param_answered(
                &*old(ctx),
                raw@.subrange(1, raw@.len() as int),
                Ok::<Seq<u8>, Seq<u8>>(v),
            ) && segs_view(w.segments@) == spec_push_segment(Seq::empty(), v, QuoteState::Expanded),
            Err(e) => param_answered(&*old(ctx), raw@.subrange(1, raw@.len() as int), Err::<Seq<u8>, Seq<u8>>(e.message@)),
        },
        forall|cmd: Seq<u8>| #[trigger] is_backquote_word(raw@, cmd) ==> exists|o: Result<Vec<u8>, ExpandError>|
            #[trigger] crate::params::command_answered(*old(ctx), cmd, o) && match o {
            Ok(out) => r matches Ok(w) && !w.has_at_expansion && !w.had_quoted_content && segs_view(w.segments@)
                == spec_push_segment(Seq::empty(), out@.take(crate::scan::trimmed_newlines_len(out@)), QuoteState::Expanded),
            Err(e) => r matches Err(e2) && e2.message@ == e.message@,
        },
        is_braced_word(raw@) ==> match r {
            Ok(w) => !w.had_quoted_content && exists|v: Seq<u8>| #[trigger] braced_answered(
                &*old(ctx),
                raw@.subrange(2, raw@.len() - 1),
                Ok::<Seq<u8>, Seq<u8>>(v),
            ) && (w.has_at_expansion ==> v == seq![AT]) && (!w.has_at_expansion ==> segs_view(w.segments@)
                == spec_push_segment(Seq::empty(), v, QuoteState::Expanded)),
            Err(e) => braced_answered(&*old(ctx), raw@.subrange(2, raw@.len() - 1), Err::<Seq<u8>, Seq<u8>>(e.message@)),
        },
        is_names_word(raw@) ==> *final(ctx) == *old(ctx) && names_fits(&*old(ctx), raw@, 0, Seq::empty(), raw_view(r)) && (r matches Ok(w)
            ==> !w.has_at_expansion && !w.had_quoted_content),
        forall|q: int| #[trigger] is_dq_word(raw@, q) ==> *final(ctx) == *old(ctx) && dq_fits(
            &*old(ctx),
            raw@,
            q + 1,
            Seq::empty(),
            raw_view(r),
        ) && (r matches Ok(w) ==> w.has_at_expansion == body_has_at(raw@, q) && w.had_quoted_null_outside_at == (q > 0
            || !body_has_at(raw@, q)) && w.had_quoted_content),
        is_tilde_word(raw@) ==> *final(ctx) == *old(ctx) && (r matches Ok(w) && !w.has_at_expansion && !w.had_quoted_content
            && exists|h: Option<Seq<u8>>| #[trigger] var_answered(&*old(ctx), "HOME".spec_bytes(), h) && segs_view(w.segments@)
            == spec_push_segment(tilde_segments(h), raw@.subrange(1, raw@.len() as int), QuoteState::Literal)),
        forall|p: int| #[trigger] is_at_sandwich(raw@, p) ==> *final(ctx) == *old(ctx) && (r matches Ok(w)
            && w.has_at_expansion && w.had_quoted_content && !w.had_quoted_null_outside_at && exists|ps: Vec<Vec<u8>>|
            #[trigger] call_ensures(C::positional_params, (&*old(ctx),), ps) && segs_view(w.segments@)
            == at_sandwich_segments(raw@.subrange(1, p), ps, raw@.subrange(p + 2, raw@.len() - 1))),
        is_quoted_special_word(raw@, AT) || is_quoted_special_word(raw@, STAR) ==> *final(ctx) == *old(ctx) && (r matches Ok(w)
            && w.has_at_expansion == (raw@[2] == AT) && w.had_quoted_content && w.had_quoted_null_outside_at == (raw@[2] == STAR)
            && quoted_special_segments(&*old(ctx), raw@[2] == STAR, segs_view(w.segments@))),
    decreases raw@.len(), 5int,
{
    let ghost src = raw@;
    let ghost at_pos: int = choose|p: int| is_at_sandwich(src, p);
    let ghost aq: int = choose|q: int| is_dq_word(src, q);
    proof {
        assert forall|q: int| #[trigger] is_dq_word(src, q) implies q == aq by {
            if q < aq {
                assert(src[q] == SQUOTE);
            } else if aq < q {
                assert(src[aq] == SQUOTE);
            }
        }
    }
    proof {
        if is_at_sandwich(src, at_pos) {
            assert forall|p: int| #[trigger] is_at_sandwich(src, p) implies p == at_pos by {
                if p != at_pos {
                    if p < at_pos {
                        assert(dq_simple(src[at_pos]) || at_pos == p + 1);
                    } else {
                        assert(dq_simple(src[p]) || p == at_pos + 1);
                    }
                }
            }
        }
    }
    let mut index: usize = 0;
    let mut segments: Vec<Segment> = Vec::new();
    let mut had_quoted_content = false;
    let mut had_quoted_null_outside_at = false;
    let mut has_at_expansion = false;
    assert(segs_view(segments@) =~= Seq::<SegView>::empty());
    while index < raw.len()
        invariant
            index <= raw.len(),
            src == raw@,
            is_plain_word(src) ==> !has_at_expansion && spec_unquote(src) == plain_run(src, index as int,
                segs_view(segments@), had_quoted_content),
            is_plain_word(src) ==> plain_error(src, 0) == plain_error(src, index as int),
            is_plain_word(src) ==> crate::params::answers_alike(&*ctx, &*old(ctx)),
            is_plain_word(src) ==> had_quoted_null_outside_at == (had_quoted_content || backslash_before(src, index as int)),
            src.len() > 0 && src[0] == BACKQUOTE && spec_backquote(src, 1, false) is None ==> index == 0,
            forall|q: int| #[trigger] is_dq_word(src, q) ==> q == aq,
            is_dq_word(src, aq) ==> *ctx == *old(ctx) && ((index <= aq && index % 2 == 0 && segments@.len() == 0
                && !has_at_expansion && had_quoted_content == (index > 0) && had_quoted_null_outside_at == (index > 0)) || (
            index == src.len() && had_quoted_content && has_at_expansion == body_has_at(src, aq) && had_quoted_null_outside_at == (aq > 0
                || !body_has_at(src, aq)) && dq_fits(
                &*old(ctx),
                src,
                aq + 1,
                Seq::empty(),
                Ok::<Seq<SegView>, Seq<u8>>(segs_view(segments@)),
            ))),
            is_names_word(src) ==> *ctx == *old(ctx) && !has_at_expansion && !had_quoted_content && (index == 0
                ==> segments@.len() == 0) && forall|r2: Result<Seq<SegView>, Seq<u8>>| #[trigger] names_fits(
                &*old(ctx),
                src,
                index as int,
                segs_view(segments@),
                r2,
            ) ==> names_fits(&*old(ctx), src, 0, Seq::empty(), r2),
            is_name_word(src) ==> *ctx == *old(ctx) && !has_at_expansion && !had_quoted_content && (index == 0
                ==> segments@.len() == 0) && (index > 0 ==> index == src.len() && exists|v: Seq<u8>| #[trigger] param_answered(
                &*old(ctx),
                src.subrange(1, src.len() as int),
                Ok::<Seq<u8>, Seq<u8>>(v),
            ) && segs_view(segments@) == spec_push_segment(Seq::empty(), v, QuoteState::Expanded)),
            is_braced_word(src) ==> (index == 0 && *ctx == *old(ctx) && segments@.len() == 0 && !has_at_expansion
                && !had_quoted_content) || (index == src.len() && !had_quoted_content && exists|v: Seq<u8>| #[trigger] braced_answered(
                &*old(ctx),
                src.subrange(2, src.len() - 1),
                Ok::<Seq<u8>, Seq<u8>>(v),
            ) && (has_at_expansion ==> v == seq![AT]) && (!has_at_expansion ==> segs_view(segments@)
                == spec_push_segment(Seq::empty(), v, QuoteState::Expanded))),
            forall|cmd: Seq<u8>| #[trigger] is_backquote_word(src, cmd) ==> (index == 0 && *ctx == *old(ctx)
                && segments@.len() == 0 && !has_at_expansion && !had_quoted_content) || (index == src.len()
                && !has_at_expansion && !had_quoted_content && exists|out: Vec<u8>| #[trigger] crate::params::command_answered(
                *old(ctx),
                cmd,
                Ok::<Vec<u8>, ExpandError>(out),
            ) && segs_view(segments@) == spec_push_segment(Seq::empty(), out@.take(crate::scan::trimmed_newlines_len(out@)), QuoteState::Expanded)),
            is_tilde_word(src) ==> *ctx == *old(ctx),
            is_tilde_word(src) ==> !has_at_expansion && !had_quoted_content,
            is_tilde_word(src) && index == 0 ==> segments@.len() == 0,
            is_tilde_word(src) && index > 0 ==> exists|h: Option<Seq<u8>>| #[trigger] var_answered(
                &*old(ctx),
                "HOME".spec_bytes(),
                h,
            ) && segs_view(segments@) == spec_push_segment(tilde_segments(h), src.subrange(1, index as int), QuoteState::Literal),
            forall|p: int| #[trigger] is_at_sandwich(src, p) ==> p == at_pos,
            is_at_sandwich(src, at_pos) ==> *ctx == *old(ctx) && ((index == 0 && segments@.len() == 0 && !has_at_expansion
                && !had_quoted_content && !had_quoted_null_outside_at) || (index == src.len() && had_quoted_content
                && has_at_expansion && !had_quoted_null_outside_at && exists|ps: Vec<Vec<u8>>| #[trigger] call_ensures(
                C::positional_params,
                (&*old(ctx),),
                ps,
            ) && segs_view(segments@) == at_sandwich_segments(src.subrange(1, at_pos), ps, src.subrange(at_pos + 2, src.len() - 1)))),
            is_quoted_special_word(src, AT) || is_quoted_special_word(src, STAR) ==> *ctx == *old(ctx) && ((index == 0
                && segments@.len() == 0 && !has_at_expansion && !had_quoted_content && !had_quoted_null_outside_at) || (
                index == 4 && had_quoted_content && has_at_expansion == (src[2] == AT) && had_quoted_null_outside_at == (
                src[2] == STAR) && quoted_special_segments(&*old(ctx), src[2] == STAR, segs_view(segments@)))),
        decreases raw.len() - index,
    {
        let b = raw[index];
        proof {
            if is_names_word(src) {
                assert(src[index as int] == DOLLAR || ordinary_byte(src[index as int]));
            }
        }
        proof {
            if is_tilde_word(src) && index > 0 {
                assert(ordinary_byte(src[index as int]));
            }
            if is_dq_word(src, aq) {
                if index < aq {
                    assert(src[index as int] == SQUOTE);
                }
            }
        }
        if b == SQUOTE {
            let ghost qi = index as int;
            had_quoted_content = true;
            had_quoted_null_outside_at = true;
            index += 1;
            let start = index;
            proof { lemma_skip_single(src, start as int); }
            while index < raw.len() && raw[index] != SQUOTE
                invariant
                    start <= index <= raw.len(),
                    src == raw@,
                    skip_single(src, start as int) == skip_single(src, index as int),
                    is_plain_word(src) ==> crate::params::answers_alike(&*ctx, &*old(ctx)),
                    is_dq_word(src, aq) && start < aq ==> index == start && *ctx == *old(ctx) && src[start as int] == SQUOTE,
                decreases raw.len() - index,
            {
                if raw[index] == NEWLINE {
                    let ghost prev = *ctx;
                    ctx.inc_lineno();
                    proof {
                        if is_plain_word(src) {
                            crate::params::lemma_alike_trans(&*ctx, &prev, &*old(ctx));
                        }
                    }
                }
                index += 1;
            }
            if index >= raw.len() {
                return Err(expand_error("unterminated single quote"));
            }
            let ghost s_before = segs_view(segments@);
            let quoted_piece = vstd::slice::slice_subrange(raw, start, index);
            proof {
                if is_dq_word(src, aq) && qi < aq {
                    assert(quoted_piece@ =~= Seq::<u8>::empty());
                }
            }
            push_segment_slice(&mut segments, quoted_piece, QuoteState::Quoted);
            index += 1;
            proof {
                if is_dq_word(src, aq) && qi < aq {
                    assert(segs_view(segments@) == s_before);
                    assert(index == qi + 2);
                }
            }
        } else if b == DQUOTE {
            let ghost qi = index as int;
            let ghost seg0 = segs_view(segments@);
            had_quoted_content = true;
            index += 1;
            let ghost start = index as int;
            let mut buffer: Vec<u8> = Vec::new();
            let at_before = has_at_expansion;
            proof {
                if is_dq_word(src, aq) {
                    if qi < aq {
                        assert(src[qi] == SQUOTE);
                    }
                    assert(qi == aq);
                    assert(segs_view(segments@) =~= Seq::<SegView>::empty());
                    assert(spec_push_segment(segs_view(segments@), buffer@, QuoteState::Quoted) =~= Seq::<SegView>::empty());
                }
            }
            while index < raw.len() && raw[index] != DQUOTE
                invariant
                    start <= index <= raw.len(),
                    src == raw@,
                    !(src.len() > 0 && src[0] == BACKQUOTE && spec_backquote(src, 1, false) is None),
                    !is_name_word(src),
                    !is_braced_word(src),
                    !is_names_word(src),
                    forall|cmd: Seq<u8>| !#[trigger] is_backquote_word(src, cmd),
                    is_plain_word(src) ==> crate::params::answers_alike(&*ctx, &*old(ctx)),
                    forall|p: int| #[trigger] is_at_sandwich(src, p) ==> p == at_pos,
                    is_at_sandwich(src, at_pos) ==> qi == 0 && start == 1 && *ctx == *old(ctx) && !had_quoted_null_outside_at
                        && !at_before && ((1 <= index <= at_pos && !has_at_expansion && segments@.len() == 0 && buffer@
                        == src.subrange(1, index as int)) || (at_pos + 2 <= index <= src.len() - 1 && has_at_expansion
                        && buffer@ == src.subrange(at_pos + 2, index as int) && exists|ps: Vec<Vec<u8>>| #[trigger] call_ensures(
                        C::positional_params,
                        (&*old(ctx),),
                        ps,
                    ) && segs_view(segments@) == spec_apply_expansion(
                        spec_push_segment(Seq::empty(), src.subrange(1, at_pos), QuoteState::Quoted),
                        Expansion::AtFields(ps),
                        true,
                    ))),
                    is_quoted_special_word(src, AT) || is_quoted_special_word(src, STAR) ==> qi == 0 && start == 1
                        && *ctx == *old(ctx) && !had_quoted_null_outside_at && !at_before && buffer@.len() == 0 && (
                        (index == 1 && segments@.len() == 0 && !has_at_expansion) || (index == 3
                        && has_at_expansion == (src[2] == AT) && quoted_special_segments(&*old(ctx), src[2] == STAR, segs_view(segments@)))),
                    forall|q: int| #[trigger] is_dq_word(src, q) ==> q == aq,
                    is_dq_word(src, aq) ==> qi == aq && start == aq + 1 && *ctx == *old(ctx) && !at_before
                        && had_quoted_content && had_quoted_null_outside_at == (aq > 0) && index <= src.len() - 1 && (
                        has_at_expansion == exists|k: int| aq < k < index && #[trigger] src[k] == DOLLAR && src[k + 1] == AT) && forall|
                        r: Result<Seq<SegView>, Seq<u8>>,
                    | #[trigger] dq_fits(
                        &*old(ctx),
                        src,
                        index as int,
                        spec_push_segment(segs_view(segments@), buffer@, QuoteState::Quoted),
                        r,
                    ) ==> dq_fits(&*old(ctx), src, aq + 1, Seq::empty(), r),
                    is_plain_word(src) ==> !has_at_expansion && segs_view(segments@) == seg0 && match dq_text(src, start) {
                        Some((t, e)) => dq_text(src, index as int) matches Some((t2, e2)) && t == buffer@ + t2 && e == e2,
                        None => dq_text(src, index as int) is None,
                    },
                decreases raw.len() - index,
            {
                let c = raw[index];
                proof {
                    if is_dq_word(src, aq) {
                        assert(index < src.len() - 1);
                        assert(src[index as int] == DOLLAR ==> index + 2 < src.len() && (src[index + 1] == AT
                            || crate::chars::spec_is_name_start(src[index + 1])));
                        assert(src[index as int] != DOLLAR ==> dq_simple(src[index as int]));
                    }
                }
                if c == BACKSLASH {
                    if 1 < raw.len() - index {
                        let next = raw[index + 1];
                        if next == DOLLAR || next == BACKQUOTE || next == DQUOTE || next == BACKSLASH
                            || next == NEWLINE || next == RBRACE {
                            let ghost before = buffer@;
                            index += 2;
                            if next == NEWLINE {
                                let ghost prev = *ctx;
                                ctx.inc_lineno();
                                proof {
                                    if is_plain_word(src) {
                                        crate::params::lemma_alike_trans(&*ctx, &prev, &*old(ctx));
                                    }
                                }
                            } else {
                                buffer.push(next);
                            }
                            proof {
                                if is_plain_word(src) {
                                    match dq_text(src, index as int) {
                                        Some((t2, e2)) => {
                                            if next != NEWLINE {
                                                assert(before + (seq![next] + t2) =~= buffer@ + t2);
                                            }
                                        },
                                        None => {},
                                    }
                                }
                            }
                        } else {
                            let ghost before = buffer@;
                            buffer.push(BACKSLASH);
                            index += 1;
                            proof {
                                if is_plain_word(src) {
                                    match dq_text(src, index as int) {
                                        Some((t2, e2)) => { assert(before + (seq![BACKSLASH] + t2) =~= buffer@ + t2); },
                                        None => {},
                                    }
                                }
                            }
                        }
                    } else {
                        let ghost before = buffer@;
                        buffer.push(BACKSLASH);
                        index += 1;
                        proof {
                            if is_plain_word(src) {
                                match dq_text(src, index as int) {
                                    Some((t2, e2)) => { assert(before + (seq![BACKSLASH] + t2) =~= buffer@ + t2); },
                                    None => {},
                                }
                            }
                        }
                    }
                } else if c == DOLLAR {
                    let ghost pre = buffer@;
                    let ghost segs_pre = segs_view(segments@);
                    let ghost model = spec_push_segment(segs_pre, pre, QuoteState::Quoted);
                    if buffer.len() > 0 {
                        let mut done: Vec<u8> = Vec::new();
                        std::mem::swap(&mut done, &mut buffer);
                        push_segment(&mut segments, done, QuoteState::Quoted);
                    }
                    proof {
                        if is_at_sandwich(src, at_pos) {
                            assert(index == at_pos);
                            assert(segs_pre =~= Seq::<SegView>::empty());
                            assert(segs_view(segments@) == spec_push_segment(Seq::empty(), src.subrange(1, at_pos), QuoteState::Quoted));
                            assert(buffer@.len() == 0);
                        }
                    }
                    let dsub = vstd::slice::slice_subrange(raw, index, raw.len());
                    proof {
                        if is_quoted_special_word(src, AT) || is_quoted_special_word(src, STAR) {
                            assert(dsub@ =~= seq![DOLLAR, src[2], DQUOTE]);
                        }
                        if is_at_sandwich(src, at_pos) {
                            assert(dsub@[1] == AT);
                        }
                    }
                    proof {
                        if is_dq_word(src, aq) {
                            assert(dsub@ =~= src.subrange(index as int, src.len() as int));
                            assert(dsub@[1] == src[index + 1]);
                            assert(segs_view(segments@) == model);
                            if crate::chars::spec_is_name_start(src[index + 1]) {
                                lemma_name_end_shift(src, index as int, index + 1);
                                lemma_name_end_bounds(src, index + 1);
                                assert(dsub@.subrange(1, name_end(dsub@, 1)) =~= src.subrange(index + 1, name_end(src, index + 1)));
                            }
                        }
                    }
                    let dstep = expand_dollar(ctx, dsub, true);
                    let (expansion, consumed) = match dstep {
                        Ok(x) => x,
                        Err(e) => {
                            proof {
                                if is_dq_word(src, aq) {
                                    let e2 = name_end(src, index + 1);
                                    assert(param_answered(&*old(ctx), src.subrange(index + 1, e2), Err::<Seq<u8>, Seq<u8>>(e.message@)));
                                    assert(dq_fits(&*old(ctx), src, index as int, model, Err::<Seq<SegView>, Seq<u8>>(e.message@)));
                                }
                            }
                            return Err(e);
                        },
                    };
                    let ghost ex = expansion;
                    let ghost seg_before = segs_view(segments@);
                    proof {
                        if is_quoted_special_word(src, AT) || is_quoted_special_word(src, STAR) {
                            assert(seg_before =~= Seq::<SegView>::empty());
                        }
                    }
                    apply_expansion(&mut segments, expansion, true, &mut has_at_expansion);
                    proof {
                        if is_quoted_special_word(src, STAR) {
                            let t = ex->One_0;
                            let (ifs, ps) = choose|ifs: Option<Vec<u8>>, ps: Vec<Vec<u8>>| #[trigger] var_answered(
                                &*old(ctx),
                                "IFS".spec_bytes(),
                                opt_view(ifs),
                            ) && #[trigger] call_ensures(C::positional_params, (&*old(ctx),), ps) && t@ == spec_join(
                                views(ps@),
                                spec_star_separator(opt_view(ifs)),
                            );
                            assert(segs_view(segments@) == spec_push_segment(Seq::empty(), spec_join(views(ps@), spec_star_separator(opt_view(ifs))), QuoteState::Quoted));
                            assert(quoted_special_segments(&*old(ctx), true, segs_view(segments@)));
                        }
                        if is_quoted_special_word(src, AT) {
                            let ps = ex->AtFields_0;
                            assert(call_ensures(C::positional_params, (&*old(ctx),), ps));
                            assert(quoted_special_segments(&*old(ctx), false, segs_view(segments@)));
                        }
                        if is_at_sandwich(src, at_pos) {
                            let ps = ex->AtFields_0;
                            assert(call_ensures(C::positional_params, (&*old(ctx),), ps));
                            assert(src.subrange(at_pos + 2, at_pos + 2) =~= Seq::<u8>::empty());
                        }
                        if is_dq_word(src, aq) {
                            assert(seg_before == model);
                            assert(buffer@ =~= Seq::<u8>::empty());
                            assert(spec_push_segment(segs_view(segments@), buffer@, QuoteState::Quoted) == segs_view(segments@));
                            assert(src[index as int] == DOLLAR);
                            if src[index + 1] == AT {
                                let ps = ex->AtFields_0;
                                assert(call_ensures(C::positional_params, (&*old(ctx),), ps));
                                assert(consumed == 2);
                                assert(aq < index && src[index as int] == DOLLAR && src[index + 1] == AT);
                                assert(has_at_expansion);
                                assert forall|r: Result<Seq<SegView>, Seq<u8>>| #[trigger] dq_fits(
                                    &*old(ctx),
                                    src,
                                    index + consumed,
                                    spec_push_segment(segs_view(segments@), buffer@, QuoteState::Quoted),
                                    r,
                                ) implies dq_fits(&*old(ctx), src, aq + 1, Seq::empty(), r) by {
                                    assert(dq_fits(&*old(ctx), src, index as int, model, r));
                                }
                            } else {
                                let e2 = name_end(src, index + 1);
                                let v = ex->One_0@;
                                assert(segs_view(segments@) == spec_push_segment(model, v, QuoteState::Quoted));
                                assert(param_answered(&*old(ctx), src.subrange(index + 1, e2), Ok::<Seq<u8>, Seq<u8>>(v)));
                                assert(index + consumed == e2);
                                assert forall|k: int| index < k < e2 implies #[trigger] src[k] != DOLLAR by {
                                    lemma_name_chars(src, index + 1, k);
                                }
                                if e2 > src.len() - 1 {
                                    lemma_name_chars(src, index + 1, src.len() - 1);
                                }
                                assert(e2 <= src.len() - 1);
                                assert((exists|k: int| aq < k < e2 && #[trigger] src[k] == DOLLAR && src[k + 1] == AT) == (exists|k: int|
                                    aq < k < index && #[trigger] src[k] == DOLLAR && src[k + 1] == AT));
                                assert forall|r: Result<Seq<SegView>, Seq<u8>>| #[trigger] dq_fits(
                                    &*old(ctx),
                                    src,
                                    index + consumed,
                                    spec_push_segment(segs_view(segments@), buffer@, QuoteState::Quoted),
                                    r,
                                ) implies dq_fits(&*old(ctx), src, aq + 1, Seq::empty(), r) by {
                                    assert(dq_fits(&*old(ctx), src, index as int, model, r));
                                }
                            }
                        }
                    }
                    index += consumed;
                } else if c == BACKQUOTE {
                    if buffer.len() > 0 {
                        let mut done: Vec<u8> = Vec::new();
                        std::mem::swap(&mut done, &mut buffer);
                        push_segment(&mut segments, done, QuoteState::Quoted);
                    }
                    index += 1;
                    let command = scan_backtick_command(raw, &mut index, true)?;
                    let output = ctx.command_substitute(command.as_slice())?;
                    let trimmed = vstd::slice::slice_to_vec(trim_trailing_newlines(output.as_slice()));
                    push_segment(&mut segments, trimmed, QuoteState::Quoted);
                } else {
                    if c == NEWLINE {
                        let ghost prev = *ctx;
                        ctx.inc_lineno();
                        proof {
                            if is_plain_word(src) {
                                crate::params::lemma_alike_trans(&*ctx, &prev, &*old(ctx));
                            }
                        }
                    }
                    let ghost before = buffer@;
                    buffer.push(c);
                    index += 1;
                    proof {
                        if is_plain_word(src) {
                            match dq_text(src, index as int) {
                                Some((t2, e2)) => { assert(before + (seq![c] + t2) =~= buffer@ + t2); },
                                None => {},
                            }
                        }
                        if is_dq_word(src, aq) {
                            let gi = index - 1;
                            let sv = segs_view(segments@);
                            lemma_push_twice(sv, before, seq![c], QuoteState::Quoted);
                            assert(buffer@ =~= before + seq![c]);
                            assert forall|r: Result<Seq<SegView>, Seq<u8>>| #[trigger] dq_fits(
                                &*old(ctx),
                                src,
                                index as int,
                                spec_push_segment(sv, buffer@, QuoteState::Quoted),
                                r,
                            ) implies dq_fits(&*old(ctx), src, aq + 1, Seq::empty(), r) by {
                                assert(dq_fits(&*old(ctx), src, gi, spec_push_segment(sv, before, QuoteState::Quoted), r));
                            }
                            assert((exists|k: int| aq < k < index && #[trigger] src[k] == DOLLAR && src[k + 1] == AT) == (exists|k: int| aq < k < gi
                                && #[trigger] src[k] == DOLLAR && src[k + 1] == AT));
                        }
                        if is_at_sandwich(src, at_pos) {
                            if index - 1 < at_pos {
                                assert(buffer@ =~= src.subrange(1, index as int));
                            } else {
                                assert(buffer@ =~= src.subrange(at_pos + 2, index as int));
                            }
                        }
                    }
                }
            }
            if index >= raw.len() {
                return Err(expand_error("unterminated double quote"));
            }
            proof {
                if is_plain_word(src) {
                    assert(buffer@ + Seq::<u8>::empty() =~= buffer@);
                }
                if is_at_sandwich(src, at_pos) {
                    assert(index == src.len() - 1) by {
                        if index < src.len() - 1 {
                            assert(src[index as int] == DQUOTE);
                            if index != at_pos && index != at_pos + 1 {
                                assert(dq_simple(src[index as int]));
                            }
                        }
                    }
                }
            }
            let ghost segs_mid = segs_view(segments@);
            let ghost suf = buffer@;
            proof {
                if is_dq_word(src, aq) {
                    assert(index == src.len() - 1) by {
                        if index < src.len() - 1 {
                            assert(src[index as int] == DQUOTE);
                            assert(src[index as int] == DOLLAR ==> index + 2 < src.len() && (src[index + 1] == AT
                            || crate::chars::spec_is_name_start(src[index + 1])));
                            assert(src[index as int] != DOLLAR ==> dq_simple(src[index as int]));
                        }
                    }
                    assert(has_at_expansion == body_has_at(src, aq));
                }
            }
            push_segment(&mut segments, buffer, QuoteState::Quoted);
            if !has_at_expansion || at_before == has_at_expansion {
                had_quoted_null_outside_at = true;
            }
            index += 1;
            proof {
                if is_dq_word(src, aq) {
                    let m = segs_view(segments@);
                    assert(m == spec_push_segment(segs_mid, suf, QuoteState::Quoted));
                    assert(dq_fits(&*old(ctx), src, src.len() - 1, m, Ok::<Seq<SegView>, Seq<u8>>(m)));
                    assert(dq_fits(&*old(ctx), src, aq + 1, Seq::empty(), Ok::<Seq<SegView>, Seq<u8>>(m)));
                }
            }
            proof {
                if is_at_sandwich(src, at_pos) {
                    let ps = choose|ps: Vec<Vec<u8>>| #[trigger] call_ensures(C::positional_params, (&*old(ctx),), ps)
                        && segs_mid == spec_apply_expansion(
                        spec_push_segment(Seq::empty(), src.subrange(1, at_pos), QuoteState::Quoted),
                        Expansion::AtFields(ps),
                        true,
                    );
                    assert(segs_view(segments@) == at_sandwich_segments(src.subrange(1, at_pos), ps, src.subrange(at_pos + 2, src.len() - 1)));
                }
            }
        } else if b == BACKSLASH {
            had_quoted_null_outside_at = true;
            index += 1;
            if index < raw.len() {
                if raw[index] == NEWLINE {
                    let ghost prev = *ctx;
                    ctx.inc_lineno();
                    proof {
                        if is_plain_word(src) {
                            crate::params::lemma_alike_trans(&*ctx, &prev, &*old(ctx));
                        }
                    }
                }
                let piece = vstd::slice::slice_subrange(raw, index, index + 1);
                assert(piece@ =~= seq![src[index as int]]);
                push_segment_slice(&mut segments, piece, QuoteState::Quoted);
                index += 1;
            }
        } else if b == DOLLAR {
            assert(!is_plain_word(src));
            let dollar_single_quotes = 1 < raw.len() - index && raw[index + 1] == SQUOTE;
            if dollar_single_quotes {
                had_quoted_content = true;
            }
            let sub = vstd::slice::slice_subrange(raw, index, raw.len());
            proof {
                if is_name_word(src) || (is_braced_word(src) && index == 0) {
                    assert(sub@ =~= src);
                }
            }
            let ghost seg_before = segs_view(segments@);
            let step = expand_dollar(ctx, sub, false);
            proof {
                if is_names_word(src) {
                    assert(sub@ =~= src.subrange(index as int, src.len() as int));
                    assert(sub@[1] == src[index + 1]);
                    lemma_name_end_shift(src, index as int, index + 1);
                    lemma_name_end_bounds(src, index + 1);
                    assert(sub@.subrange(1, name_end(sub@, 1)) =~= src.subrange(index + 1, name_end(src, index + 1)));
                }
            }
            let (expansion, consumed) = match step {
                Ok(x) => x,
                Err(e) => {
                    proof {
                        if is_names_word(src) {
                            let e2 = name_end(src, index + 1);
                            assert(param_answered(&*old(ctx), src.subrange(index + 1, e2), Err::<Seq<u8>, Seq<u8>>(e.message@)));
                            assert(names_fits(&*old(ctx), src, index as int, seg_before, Err::<Seq<SegView>, Seq<u8>>(e.message@)));
                        }
                    }
                    return Err(e);
                },
            };
            let ghost seg0 = segs_view(segments@);
            let ghost ex = expansion;
            apply_expansion(&mut segments, expansion, dollar_single_quotes, &mut has_at_expansion);
            proof {
                if is_name_word(src) {
                    let v = match ex {
                        Expansion::One(t) => t@,
                        Expansion::AtFields(_) => seq![AT],
                    };
                    assert(seg0 =~= Seq::<SegView>::empty());
                    assert(param_answered(&*old(ctx), src.subrange(1, src.len() as int), Ok::<Seq<u8>, Seq<u8>>(v)));
                }
                if is_names_word(src) {
                    let e2 = name_end(src, index + 1);
                    let v = ex->One_0@;
                    assert(segs_view(segments@) == spec_push_segment(seg_before, v, QuoteState::Expanded));
                    assert(param_answered(&*old(ctx), src.subrange(index + 1, e2), Ok::<Seq<u8>, Seq<u8>>(v)));
                    assert(index + consumed == e2);
                    assert forall|r2: Result<Seq<SegView>, Seq<u8>>| #[trigger] names_fits(
                        &*old(ctx),
                        src,
                        index + consumed,
                        segs_view(segments@),
                        r2,
                    ) implies names_fits(&*old(ctx), src, 0, Seq::empty(), r2) by {
                        assert(names_fits(&*old(ctx), src, index as int, seg_before, r2));
                    }
                }
                if is_braced_word(src) && index == 0 {
                    let v = match ex {
                        Expansion::One(t) => t@,
                        Expansion::AtFields(_) => seq![AT],
                    };
                    assert(seg0 =~= Seq::<SegView>::empty());
                    assert(braced_answered(&*old(ctx), src.subrange(2, src.len() - 1), Ok::<Seq<u8>, Seq<u8>>(v)));
                    assert(consumed == src.len());
                }
            }
            index += consumed;
        } else if b == BACKQUOTE {
            assert(!is_plain_word(src));
            let ghost i0 = index as int;
            let ghost seg0 = segs_view(segments@);
            index += 1;
            let command = scan_backtick_command(raw, &mut index, false)?;
            let ghost pre = *ctx;
            let answer = ctx.command_substitute(command.as_slice());
            assert(crate::params::command_answered(pre, command@, answer));
            proof {
                assert forall|cmd: Seq<u8>| #[trigger] is_backquote_word(src, cmd) implies i0 == 0 && cmd == command@
                    && pre == *old(ctx) && seg0.len() == 0 && index == src.len() by {}
            }
            let output = match answer {
                Ok(o) => o,
                Err(e) => {
                    return Err(e);
                },
            };
            let trimmed = vstd::slice::slice_to_vec(trim_trailing_newlines(output.as_slice()));
            push_segment(&mut segments, trimmed, QuoteState::Expanded);
            proof {
                assert forall|cmd: Seq<u8>| #[trigger] is_backquote_word(src, cmd) implies segs_view(segments@)
                    == spec_push_segment(Seq::empty(), output@.take(crate::scan::trimmed_newlines_len(output@)), QuoteState::Expanded) by {
                    assert(seg0 =~= Seq::<SegView>::empty());
                }
            }
        } else if b == TILDE && index == 0 {
            assert(!is_plain_word(src));
            index += 1;
            let mut user: Vec<u8> = Vec::new();
            let at_start = index;
            while index < raw.len() && raw[index] != SLASH && raw[index] != SQUOTE && raw[index] != DQUOTE
                && raw[index] != BACKSLASH && raw[index] != DOLLAR && raw[index] != BACKQUOTE
                invariant
                    at_start <= index <= raw.len(),
                    src == raw@,
                    src.len() > 0 && src[0] == TILDE,
                    at_start == 1,
                    user@ == src.subrange(1, index as int),
                    tilde_user_end(src, index as int) == tilde_user_end(src, 1),
                    is_tilde_word(src) ==> index == 1 && at_start == 1 && user@.len() == 0,
                decreases raw.len() - index,
            {
                user.push(raw[index]);
                index += 1;
            }
            assert(index == tilde_user_end(src, 1));
            let broke_on_non_login = index == at_start && index < raw.len() && raw[index] != SLASH;
            if broke_on_non_login {
                let ghost s0 = segs_view(segments@);
                let tl = vec![TILDE];
                assert(tl@ =~= seq![TILDE]);
                push_segment(&mut segments, tl, QuoteState::Literal);
                proof {
                    if is_names_word(src) {
                        assert(s0 =~= Seq::<SegView>::empty());
                        assert(segs_view(segments@) =~= seq![SegView::Text(seq![TILDE], QuoteState::Literal)]);
                        assert forall|r2: Result<Seq<SegView>, Seq<u8>>| #[trigger] names_fits(
                            &*old(ctx),
                            src,
                            index as int,
                            segs_view(segments@),
                            r2,
                        ) implies names_fits(&*old(ctx), src, 0, Seq::empty(), r2) by {}
                    }
                }
            } else if user.len() == 0 {
                let home_name = crate::chars::lit("HOME");
                let home_slice = home_name.as_slice();
                let home_val = ctx.env_var(home_slice);
                assert(call_ensures(C::env_var, (&*ctx, home_slice), home_val));
                let ghost hv = opt_view(home_val);
                let ghost s0 = segs_view(segments@);
                match home_val {
                    Some(home) => {
                        if home.len() > 0 {
                            let ghost hs = home@;
                            push_segment(&mut segments, home, QuoteState::Quoted);
                            proof {
                                if is_tilde_word(src) || is_names_word(src) {
                                    assert(s0 =~= Seq::<SegView>::empty());
                                    assert(segs_view(segments@) =~= seq![SegView::Text(hs, QuoteState::Quoted)]);
                                }
                            }
                        } else {
                            segments.push(Segment::Text(Vec::new(), QuoteState::Quoted));
                            proof {
                                if is_tilde_word(src) || is_names_word(src) {
                                    assert(s0 =~= Seq::<SegView>::empty());
                                    assert(segs_view(segments@) =~= seq![SegView::Text(Seq::<u8>::empty(), QuoteState::Quoted)]);
                                    assert(hv->Some_0 =~= Seq::<u8>::empty());
                                }
                            }
                        }
                    },
                    None => {
                        let tl = vec![TILDE];
                        assert(tl@ =~= seq![TILDE]);
                        push_segment(&mut segments, tl, QuoteState::Literal);
                        proof {
                            if is_tilde_word(src) || is_names_word(src) {
                                assert(s0 =~= Seq::<SegView>::empty());
                                assert(segs_view(segments@) =~= seq![SegView::Text(seq![TILDE], QuoteState::Literal)]);
                            }
                        }
                    },
                }
                proof {
                    if is_tilde_word(src) || is_names_word(src) {
                        assert(var_answered(&*old(ctx), "HOME".spec_bytes(), hv));
                        assert(s0 =~= Seq::<SegView>::empty());
                        assert(src.subrange(1, index as int) =~= Seq::<u8>::empty());
                        assert(segs_view(segments@) =~= tilde_segments(hv));
                        assert(segs_view(segments@) == spec_push_segment(tilde_segments(hv), src.subrange(1, index as int), QuoteState::Literal));
                    }
                    if is_names_word(src) {
                        assert forall|r2: Result<Seq<SegView>, Seq<u8>>| #[trigger] names_fits(
                            &*old(ctx),
                            src,
                            index as int,
                            segs_view(segments@),
                            r2,
                        ) implies names_fits(&*old(ctx), src, 0, Seq::empty(), r2) by {
                            assert(var_answered(&*old(ctx), "HOME".spec_bytes(), hv));
                        }
                    }
                }
            } else {
                let ghost s0 = segs_view(segments@);
                let ghost uv = user@;
                let user_slice = user.as_slice();
                let home = ctx.home_dir_for_user(user_slice);
                assert(call_ensures(C::home_dir_for_user, (&*ctx, user_slice), home));
                let ghost hv = opt_view(home);
                match home {
                    Some(dir) => push_segment(&mut segments, dir, QuoteState::Quoted),
                    None => {
                        let mut literal: Vec<u8> = vec![TILDE];
                        literal.append(&mut user);
                        assert(literal@ =~= seq![TILDE] + uv);
                        push_segment(&mut segments, literal, QuoteState::Literal);
                    },
                }
                proof {
                    if is_names_word(src) {
                        assert(s0 =~= Seq::<SegView>::empty());
                        assert(crate::params::home_answered(&*old(ctx), uv, hv));
                        assert(segs_view(segments@) == user_home_segments(uv, hv));
                        assert forall|r2: Result<Seq<SegView>, Seq<u8>>| #[trigger] names_fits(
                            &*old(ctx),
                            src,
                            index as int,
                            segs_view(segments@),
                            r2,
                        ) implies names_fits(&*old(ctx), src, 0, Seq::empty(), r2) by {
                            assert(src.subrange(1, index as int) == uv);
                        }
                    }
                }
            }
        } else {
            if b == NEWLINE {
                let ghost prev = *ctx;
                ctx.inc_lineno();
                proof {
                    if is_plain_word(src) {
                        crate::params::lemma_alike_trans(&*ctx, &prev, &*old(ctx));
                    }
                }
            }
            let piece = vstd::slice::slice_subrange(raw, index, index + 1);
            assert(piece@ =~= seq![src[index as int]]);
            let ghost s0 = segs_view(segments@);
            push_segment_slice(&mut segments, piece, QuoteState::Literal);
            proof {
                if is_names_word(src) {
                    assert forall|r2: Result<Seq<SegView>, Seq<u8>>| #[trigger] names_fits(
                        &*old(ctx),
                        src,
                        index + 1,
                        segs_view(segments@),
                        r2,
                    ) implies names_fits(&*old(ctx), src, 0, Seq::empty(), r2) by {
                        assert(names_fits(&*old(ctx), src, index as int, s0, r2));
                    }
                }
                if is_tilde_word(src) {
                    let h = choose|h: Option<Seq<u8>>| #[trigger] var_answered(&*old(ctx), "HOME".spec_bytes(), h) && s0
                        == spec_push_segment(tilde_segments(h), src.subrange(1, index as int), QuoteState::Literal);
                    lemma_push_literal_twice(tilde_segments(h), src.subrange(1, index as int), seq![src[index as int]]);
                    assert(src.subrange(1, index as int) + seq![src[index as int]] =~= src.subrange(1, index + 1));
                    assert(segs_view(segments@) == spec_push_segment(s0, seq![src[index as int]], QuoteState::Literal));
                    assert(segs_view(segments@) == spec_push_segment(tilde_segments(h), src.subrange(1, index + 1), QuoteState::Literal));
                    assert(var_answered(&*old(ctx), "HOME".spec_bytes(), h));
                }
            }
            index += 1;
        }
    }
    proof {
        if is_tilde_word(src) {
            assert(src.subrange(1, src.len() as int) == src.subrange(1, index as int));
        }
        if is_names_word(src) {
            assert(names_fits(&*old(ctx), src, index as int, segs_view(segments@), Ok::<Seq<SegView>, Seq<u8>>(segs_view(segments@))));
        }
    }
    Ok(ExpandedWord { segments, had_quoted_content, had_quoted_null_outside_at, has_at_expansion })
}

/// Whether the byte after a `$` starts an expansion (a `'` only outside
/// double quotes).
pub open spec fn starts_expansion(c: u8, quoted: bool) -> bool {
    (c == SQUOTE && !quoted) || c == LBRACE || c == LPAREN || c == AT || c == STAR || c == QUESTION
        || c == DOLLAR || c == BANG || c == HASH || c == MINUS || crate::chars::spec_is_digit(c)
        || crate::chars::spec_is_name_start(c)
}

/// Whether the byte after a `$` starts a parameter expansion (or a
/// `$'...'` string) where no command substitution is performed.
pub open spec fn starts_parameter(c: u8) -> bool {
    c == SQUOTE || c == LBRACE || c == QUESTION || c == DOLLAR || c == BANG || c == HASH || c == STAR
        || c == AT || c == MINUS || crate::chars::spec_is_digit(c) || crate::chars::spec_is_name_start(c)
}

/// What separates the positional parameters in `$*`: the first byte of
/// `IFS`, nothing where `IFS` is empty, a space where it is unset.
pub fn star_separator(ifs: Option<Vec<u8>>) -> (r: Vec<u8>)
    ensures
        r@ == match ifs {
            None => seq![SPACE],
            Some(v) => if v@.len() == 0 { Seq::empty() } else { seq![v@[0]] },
        },
{
    match ifs {
        None => vec![SPACE],
        Some(v) => if v.len() == 0 { Vec::new() } else { vec![v[0]] },
    }
}

/// The bytes that split fields: `IFS`, or space, tab and newline where it
/// is unset.
pub fn ifs_or_default(ifs: Option<Vec<u8>>) -> (r: Vec<u8>)
    ensures
        r@ == match ifs {
            Some(v) => v@,
            None => " \t\n".spec_bytes(),
        },
{
    match ifs {
        Some(v) => v,
        None => crate::chars::lit(" \t\n"),
    }
}

/// The fields that a field holding an unquoted glob character becomes,
/// given the paths its pattern matched: those paths, or the field itself
/// where nothing matched.
pub fn globbed_fields(text: &[u8], matches: Vec<Vec<u8>>) -> (r: Vec<Vec<u8>>)
    ensures
        views(r@) == (if matches@.len() == 0 { seq![text@] } else { views(matches@) }),
{
    if matches.len() == 0 {
        let mut v: Vec<Vec<u8>> = Vec::new();
        v.push(vstd::slice::slice_to_vec(text));
        assert(views(v@) =~= seq![text@]);
        v
    } else {
        matches
    }
}

/// The end of the run of name bytes in `s` from `i` on.
pub open spec fn name_end(s: Seq<u8>, i: int) -> int
    decreases s.len() - i,
{
    if 0 <= i < s.len() && spec_is_name_char(s[i]) {
        name_end(s, i + 1)
    } else {
        i
    }
}

/// The value or message of a `$` expansion's result, as bytes; the fields
/// of `"$@"` count as no single value.
pub open spec fn dollar_view(r: Result<(Expansion, usize), ExpandError>) -> Result<Seq<u8>, Seq<u8>> {
    match r {
        Ok((Expansion::One(t), _)) => Ok(t@),
        Ok((Expansion::AtFields(_), _)) => Ok(seq![AT]),
        Err(e) => Err(e.message@),
    }
}

/// What separates the positional parameters in `$*`, given the value of
/// `IFS`.
pub open spec fn spec_star_separator(ifs: Option<Seq<u8>>) -> Seq<u8> {
    match ifs {
        None => seq![SPACE],
        Some(v) => if v.len() == 0 { Seq::empty() } else { seq![v[0]] },
    }
}

/// Whether the byte after a `$` names a special parameter that `set -u`
/// may find unset.
pub open spec fn names_special(c: u8) -> bool {
    c == QUESTION || c == DOLLAR || c == BANG || c == HASH || c == MINUS
}

/// Expands the `$` construct at the start of `source`: its expansion and
/// the number of bytes it spans. A `$` that starts no expansion stands for
/// itself.
#[verifier::spinoff_prover]
pub fn expand_dollar<C: Context>(ctx: &mut C, source: &[u8], quoted: bool) -> (r: Result<(Expansion, usize), ExpandError>)
    requires
        source@.len() >= 1,
    ensures
        r matches Ok((_, n)) ==> 1 <= n <= source@.len(),
        (source@.len() < 2 || !starts_expansion(source@[1], quoted)) ==> (r matches Ok((Expansion::One(v), n))
            && v@ == seq![DOLLAR] && n == 1),
        source@.len() >= 2 && source@[1] == SQUOTE && !quoted ==> match spec_dollar_single(source@, 2) {
            Some((t, e)) => r matches Ok((Expansion::One(v), n)) && v@ == t && n == e,
            None => r is Err,
        },
        source@.len() >= 2 && source@[1] == LBRACE && spec_closing_brace(source@, 2) is None ==> (r matches Err(e)
            && e.message@ == "unterminated parameter expansion".spec_bytes()),
        source@.len() >= 3 && source@[1] == LPAREN && source@[2] == LPAREN ==> match arith_close(source@, 3, 1) {
            None => r matches Err(e) && e.message@ == "unterminated arithmetic expansion".spec_bytes(),
            Some(k) => no_substitutions(source@.subrange(3, k)) ==> (!(spec_eval_arithmetic(source@.subrange(3, k)) is NamesVariable)
                ==> crate::params::answers_alike(&*final(ctx), &*old(ctx))) && match spec_eval_arithmetic(source@.subrange(3, k)) {
                ArithOutcome::Value(v, _) => r matches Ok((Expansion::One(t), n)) && t@ == spec_i64_text(v) && n == k + 2,
                ArithOutcome::Error(m) => r matches Err(e) && e.message@ == m,
                ArithOutcome::NamesVariable => match crate::arith::assignment_at(source@.subrange(3, k), 0) {
                    Some((a, b, _, _)) => r matches Ok((Expansion::One(t), _)) ==> exists|v: i64| #[trigger] crate::arith::assigned::<C>(
                        source@.subrange(3, k),
                        a,
                        b,
                        v,
                    ) && t@ == spec_i64_text(v),
                    None => true,
                },
            },
        },
        source@.len() >= 2 && source@[1] == LPAREN && !(source@.len() >= 3 && source@[2] == LPAREN)
            && command_close(source@, 2, 1) is None ==> (r matches Err(e) && e.message@
            == "unterminated command substitution".spec_bytes()),
        source@.len() >= 2 && source@[1] == LPAREN && !(source@.len() >= 3 && source@[2] == LPAREN) ==> match command_close(
            source@,
            2,
            1,
        ) {
            Some(k) => exists|o: Result<Vec<u8>, ExpandError>| #[trigger] crate::params::command_answered(
                *old(ctx),
                source@.subrange(2, k),
                o,
            ) && match o {
                Ok(out) => r matches Ok((Expansion::One(t), n)) && n == k + 1 && t@ == out@.take(
                    crate::scan::trimmed_newlines_len(out@),
                ),
                Err(e) => r matches Err(e2) && e2.message@ == e.message@,
            },
            None => true,
        },
        source@.len() >= 2 && source@[1] == AT ==> (if quoted {
            r matches Ok((Expansion::AtFields(ps), n)) && n == 2 && call_ensures(C::positional_params, (&*old(ctx),), ps)
        } else {
            r matches Ok((Expansion::One(t), n)) && n == 2 && exists|ps: Vec<Vec<u8>>| #[trigger] call_ensures(
                C::positional_params,
                (&*old(ctx),),
                ps,
            ) && t@ == spec_join(views(ps@), seq![SPACE])
        }),
        source@.len() >= 2 && source@[1] == STAR ==> (r matches Ok((Expansion::One(t), n)) && n == 2 && exists|
            ifs: Option<Vec<u8>>,
            ps: Vec<Vec<u8>>,
        | #[trigger] var_answered(&*old(ctx), "IFS".spec_bytes(), opt_view(ifs)) && #[trigger] call_ensures(
            C::positional_params,
            (&*old(ctx),),
            ps,
        ) && t@ == spec_join(views(ps@), spec_star_separator(opt_view(ifs)))),
        source@.len() >= 2 && source@[1] == DIGIT_ZERO ==> (r matches Ok((Expansion::One(t), n)) && n == 2
            && exists|s: Vec<u8>| #[trigger] call_ensures(C::shell_name, (&*old(ctx),), s) && t@ == s@),
        source@.len() >= 2 && names_special(source@[1]) ==> (r matches Ok((_, n)) ==> n == 2) && exists|
            o: Option<Vec<u8>>,
        | #[trigger] call_ensures(C::special_param, (&*old(ctx), source@[1]), o) && value_answered(
            &*old(ctx),
            source@.subrange(1, 2),
            opt_view(o),
            dollar_view(r),
        ),
        source@.len() >= 2 && crate::chars::spec_is_digit(source@[1]) && source@[1] != DIGIT_ZERO ==> (r matches Ok(
            (_, n),
        ) ==> n == 2) && exists|o: Option<Vec<u8>>| #[trigger] call_ensures(
            C::positional_param,
            (&*old(ctx), (source@[1] - DIGIT_ZERO) as usize),
            o,
        ) && value_answered(&*old(ctx), source@.subrange(1, 2), opt_view(o), dollar_view(r)),
        source@.len() >= 2 && crate::chars::spec_is_name_start(source@[1]) ==> (r matches Ok((_, n)) ==> n
            == name_end(source@, 1)) && param_answered(&*old(ctx), source@.subrange(1, name_end(source@, 1)), dollar_view(r)),
        source@.len() >= 2 && (names_special(source@[1]) || crate::chars::spec_is_digit(source@[1])
            || crate::chars::spec_is_name_start(source@[1]) || source@[1] == AT || source@[1] == STAR) ==> *final(ctx)
            == *old(ctx),
        source@.len() >= 2 && crate::chars::spec_is_name_start(source@[1]) ==> !(r matches Ok((Expansion::AtFields(_), _))),
        (source@.len() < 2 || !starts_expansion(source@[1], quoted)) ==> *final(ctx) == *old(ctx),
        source@.len() >= 2 && source@[1] == LBRACE ==> match spec_closing_brace(source@, 2) {
            Some(k) => braced_answered(&*old(ctx), source@.subrange(2, k), dollar_view(r)) && (r matches Ok((_, n))
                ==> n == k + 1),
            None => true,
        },
    decreases source@.len(), 4int,
{
    if source.len() < 2 {
        return Ok((Expansion::One(vec![DOLLAR]), 1));
    }
    let c1 = source[1];
    if c1 == SQUOTE && !quoted {
        let (s, n) = parse_dollar_single_quoted(source)?;
        return Ok((Expansion::One(s), n));
    }
    if c1 == LBRACE {
        let end = scan_to_closing_brace(source, 2)?;
        let expr = vstd::slice::slice_subrange(source, 2, end);
        let expansion = expand_braced_parameter(ctx, expr, quoted)?;
        return Ok((expansion, end + 1));
    }
    if c1 == LPAREN {
        if 2 < source.len() && source[2] == LPAREN {
            let (expression, end) = scan_arithmetic_expansion(source)?;
            let saved_line = ctx.lineno();
            let pre_expanded = expand_arithmetic_expression(ctx, expression)?;
            ctx.set_lineno(saved_line);
            let value = eval_arithmetic(ctx, pre_expanded.as_slice())?;
            return Ok((Expansion::One(i64_to_bytes(value)), end));
        }
        let (command, end) = scan_command_substitution(source)?;
        let ghost pre = *ctx;
        let answer = ctx.command_substitute(command);
        assert(crate::params::command_answered(pre, command@, answer));
        let output = answer?;
        let trimmed = vstd::slice::slice_to_vec(trim_trailing_newlines(output.as_slice()));
        return Ok((Expansion::One(trimmed), end));
    }
    if c1 == AT {
        let params = ctx.positional_params();
        assert(call_ensures(C::positional_params, (&*ctx,), params));
        if quoted {
            return Ok((Expansion::AtFields(params), 2));
        }
        let space: Vec<u8> = vec![SPACE];
        let joined = join_bstrings(params.as_slice(), space.as_slice());
        assert(space@ =~= seq![SPACE]);
        assert(joined@ == spec_join(views(params@), seq![SPACE]));
        return Ok((Expansion::One(joined), 2));
    }
    if c1 == STAR {
        let ifs_name = crate::chars::lit("IFS");
        let ifs_slice = ifs_name.as_slice();
        let ifs = ctx.env_var(ifs_slice);
        assert(call_ensures(C::env_var, (&*ctx, ifs_slice), ifs));
        let ghost iv = opt_view(ifs);
        assert(var_answered(&*ctx, "IFS".spec_bytes(), iv));
        let sep = star_separator(ifs);
        let params = ctx.positional_params();
        assert(call_ensures(C::positional_params, (&*ctx,), params));
        assert(sep@ == spec_star_separator(iv));
        return Ok((Expansion::One(join_bstrings(params.as_slice(), sep.as_slice())), 2));
    }
    if c1 == QUESTION || c1 == DOLLAR || c1 == BANG || c1 == HASH || c1 == MINUS || c1 == DIGIT_ZERO {
        if c1 == DIGIT_ZERO {
            let s0 = ctx.shell_name();
            assert(call_ensures(C::shell_name, (&*ctx,), s0));
            return Ok((Expansion::One(s0), 2));
        }
        let name = vstd::slice::slice_subrange(source, 1, 2);
        let looked = ctx.special_param(c1);
        assert(call_ensures(C::special_param, (&*ctx, c1), looked));
        let ghost lv = opt_view(looked);
        let result = require_set_parameter(ctx, name, looked);
        let value = result?;
        return Ok((Expansion::One(value), 2));
    }
    if is_digit(c1) {
        let name = vstd::slice::slice_subrange(source, 1, 2);
        let looked = ctx.positional_param((c1 - DIGIT_ZERO) as usize);
        assert(call_ensures(C::positional_param, (&*ctx, (c1 - DIGIT_ZERO) as usize), looked));
        let ghost lv = opt_view(looked);
        let result = require_set_parameter(ctx, name, looked);
        let value = result?;
        return Ok((Expansion::One(value), 2));
    }
    if is_name_start(c1) {
        let mut index: usize = 1;
        while index < source.len() && is_name_char(source[index])
            invariant
                1 <= index <= source@.len(),
                name_end(source@, index as int) == name_end(source@, 1),
            decreases source@.len() - index,
        {
            index += 1;
        }
        let name = vstd::slice::slice_subrange(source, 1, index);
        let looked = lookup_param(ctx, name);
        let ghost lv = opt_view(looked);
        let result = require_set_parameter(ctx, name, looked);
        proof {
            assert(lookup_answered(&*ctx, name@, lv));
            assert(value_answered(&*ctx, name@, lv, text_view(result)));
        }
        let value = result?;
        return Ok((Expansion::One(value), index));
    }
    Ok((Expansion::One(vec![DOLLAR]), 1))
}

/// The operator of the braced expansion body `expr` whose name is `n`
/// bytes long.
pub open spec fn braced_op(expr: Seq<u8>, n: int) -> Seq<u8> {
    let rest = expr.subrange(n, expr.len() as int);
    rest.subrange(0, crate::scan::spec_op_len(rest))
}

/// The error that the text of a braced expansion body `expr` alone
/// decides, if any: no name, or an operator the shell does not know.
pub open spec fn braced_text_error(expr: Seq<u8>) -> Option<Seq<u8>> {
    if expr.len() == 0 {
        Some("empty parameter expansion".spec_bytes())
    } else if expr[0] == HASH {
        None
    } else {
        match crate::scan::spec_param_name_len(expr) {
            None => Some("invalid parameter expansion".spec_bytes()),
            Some(n) => if n < expr.len() && spec_braced_action(braced_op(expr, n), false, false)
                == BracedAction::Unsupported {
                Some("unsupported parameter expansion".spec_bytes())
            } else {
                None
            },
        }
    }
}

/// The word of the braced expansion body `expr` whose name is `n` bytes
/// long: what follows the operator.
pub open spec fn braced_word(expr: Seq<u8>, n: int) -> Seq<u8> {
    let rest = expr.subrange(n, expr.len() as int);
    rest.subrange(crate::scan::spec_op_len(rest), rest.len() as int)
}

/// The value or message that an expansion result carries, as bytes; the
/// fields of `"$@"` count as no single value.
pub open spec fn one_view(r: Result<Expansion, ExpandError>) -> Result<Seq<u8>, Seq<u8>> {
    match r {
        Ok(Expansion::One(t)) => Ok(t@),
        Ok(Expansion::AtFields(_)) => Ok(seq![AT]),
        Err(e) => Err(e.message@),
    }
}

/// What `${name<op>word}` gives when the parameter has the value `value`,
/// as far as the word's own expansion is decided by its text: a word
/// without `$`, backquote or leading `~` only loses its quotes.
pub open spec fn braced_value_fits<C: Context>(ctx: &C, name: Seq<u8>, op: Seq<u8>, word: Seq<u8>, value: Option<Seq<u8>>, r: Result<Seq<u8>, Seq<u8>>) -> bool {
    let is_null = match value {
        Some(v) => v.len() == 0,
        None => true,
    };
    let unquoted = spec_unquote(word);
    match spec_braced_action(op, value is Some, is_null) {
        BracedAction::Value => r == Ok::<Seq<u8>, Seq<u8>>(match value {
            Some(v) => v,
            None => Seq::empty(),
        }),
        BracedAction::Empty => r == Ok::<Seq<u8>, Seq<u8>>(Seq::empty()),
        BracedAction::Unsupported => r == Err::<Seq<u8>, Seq<u8>>("unsupported parameter expansion".spec_bytes()),
        BracedAction::Fail { null } => {
            &&& r is Err
            &&& word.len() == 0 ==> r == Err::<Seq<u8>, Seq<u8>>(name + (if null {
                ": parameter null or not set".spec_bytes()
            } else {
                ": parameter not set".spec_bytes()
            }))
            &&& word.len() > 0 && is_plain_word(word) ==> r == Err::<Seq<u8>, Seq<u8>>(match unquoted {
                Some((segs, _)) => flatten(segs),
                None => plain_error(word, 0),
            })
        },
        BracedAction::Word => is_plain_word(word) ==> r == match unquoted {
            Some((segs, _)) => Ok::<Seq<u8>, Seq<u8>>(flatten(segs)),
            None => Err::<Seq<u8>, Seq<u8>>(plain_error(word, 0)),
        },
        BracedAction::Assign => {
            &&& !spec_is_name(name) ==> r == Err::<Seq<u8>, Seq<u8>>(name
                + ": cannot assign in parameter expansion".spec_bytes())
            &&& spec_is_name(name) && is_plain_word(word) ==> match unquoted {
                Some((segs, _)) => (r is Ok ==> r == Ok::<Seq<u8>, Seq<u8>>(flatten(segs))) && assign_fits(
                    ctx,
                    name,
                    flatten(segs),
                    r,
                ),
                None => r == Err::<Seq<u8>, Seq<u8>>(plain_error(word, 0)),
            }
            &&& spec_is_name(name) && word_described(word) ==> assigned_word_fits(ctx, name, word, r)
        },
        BracedAction::Remove(mode) => {
            let v = match value {
                Some(v) => v,
                None => Seq::empty(),
            };
            let removed = is_plain_word(word) ==> r == match unquoted {
                Some((segs, _)) => Ok::<Seq<u8>, Seq<u8>>(crate::segments::spec_remove_pattern(v, spec_render_pattern(segs), mode)),
                None => Err::<Seq<u8>, Seq<u8>>(plain_error(word, 0)),
            };
            match value {
                Some(_) => removed,
                None => (crate::params::unset_answered(ctx, name, Ok::<Seq<u8>, Seq<u8>>(Seq::empty())) && removed) || (
                r is Err && crate::params::unset_answered(ctx, name, r)),
            }
        },
    }
}

/// Whether `r` is what `${expr}` gives in the shell `ctx`, for the values
/// the shell answers: the error the text decides, the decimal length for
/// `${#name}`, the parameter for `${name}`, and `${name<op>word}`
/// evaluated on the parameter's value.
pub open spec fn braced_answered<C: Context>(ctx: &C, expr: Seq<u8>, r: Result<Seq<u8>, Seq<u8>>) -> bool {
    &&& braced_text_error(expr) matches Some(m) ==> r == Err::<Seq<u8>, Seq<u8>>(m)
    &&& expr == seq![HASH] ==> exists|v: Option<Seq<u8>>| #[trigger] lookup_answered(ctx, expr, v) && r == Ok::<Seq<u8>, Seq<u8>>(
        match v {
            Some(t) => t,
            None => Seq::empty(),
        },
    )
    &&& expr.len() > 1 && expr[0] == HASH ==> length_answered(ctx, expr.subrange(1, expr.len() as int), r)
    &&& expr.len() > 0 && expr[0] != HASH ==> match crate::scan::spec_param_name_len(expr) {
        Some(n) => if n == expr.len() {
            param_answered(ctx, expr, r)
        } else {
            exists|v: Option<Seq<u8>>| #[trigger] lookup_answered(ctx, expr.subrange(0, n), v) && braced_value_fits(
                ctx,
                expr.subrange(0, n),
                braced_op(expr, n),
                braced_word(expr, n),
                v,
                r,
            )
        },
        None => true,
    }
}

/// What one state of the shell answers for `${expr}`, another that
/// answers alike answers too.
pub proof fn lemma_braced_alike<C: Context>(a: &C, b: &C, expr: Seq<u8>, r: Result<Seq<u8>, Seq<u8>>)
    requires
        crate::params::answers_alike(a, b),
        braced_answered(a, expr, r),
    ensures
        braced_answered(b, expr, r),
{
    if expr == seq![HASH] {
        let v = choose|v: Option<Seq<u8>>| #[trigger] lookup_answered(a, expr, v) && r == Ok::<Seq<u8>, Seq<u8>>(match v {
            Some(t) => t,
            None => Seq::empty(),
        });
        crate::params::lemma_answers_alike(a, b, expr, r, v);
    }
    if expr.len() > 1 && expr[0] == HASH {
        let name = expr.subrange(1, expr.len() as int);
        let v = choose|v: Option<Seq<u8>>| #[trigger] lookup_answered(a, name, v) && match v {
            Some(t) => r == Ok::<Seq<u8>, Seq<u8>>(crate::bytes::spec_decimal(t.len())),
            None => (crate::params::unset_answered(a, name, Ok::<Seq<u8>, Seq<u8>>(Seq::empty())) && r
                == Ok::<Seq<u8>, Seq<u8>>(crate::bytes::spec_decimal(0))) || (r is Err && crate::params::unset_answered(
                a,
                name,
                r,
            )),
        };
        crate::params::lemma_answers_alike(a, b, name, r, v);
        crate::params::lemma_answers_alike(a, b, name, Ok::<Seq<u8>, Seq<u8>>(Seq::empty()), v);
        assert(lookup_answered(b, name, v));
    }
    if expr.len() > 0 && expr[0] != HASH {
        match crate::scan::spec_param_name_len(expr) {
            Some(n) => if n == expr.len() {
                crate::params::lemma_answers_alike(a, b, expr, r, None);
            } else {
                let name = expr.subrange(0, n);
                let v = choose|v: Option<Seq<u8>>| #[trigger] lookup_answered(a, name, v) && braced_value_fits(
                    a,
                    name,
                    braced_op(expr, n),
                    braced_word(expr, n),
                    v,
                    r,
                );
                crate::params::lemma_answers_alike(a, b, name, r, v);
                crate::params::lemma_answers_alike(a, b, name, Ok::<Seq<u8>, Seq<u8>>(Seq::empty()), v);
                assert(lookup_answered(b, name, v));
                if let Some((segs, _)) = spec_unquote(braced_word(expr, n)) {
                    lemma_assign_fits_alike(a, b, name, flatten(segs), r);
                }
                lemma_assigned_word_alike(a, b, name, braced_word(expr, n), r);
                assert(braced_value_fits(b, name, braced_op(expr, n), braced_word(expr, n), v, r));
            },
            None => {},
        }
    }
}

/// `${name<op>word}` for a parameter whose value was looked up.
pub fn braced_with_value<C: Context>(
    ctx: &mut C,
    name: &[u8],
    op: &[u8],
    w: &[u8],
    value: Option<Vec<u8>>,
    quoted: bool,
) -> (r: Result<Expansion, ExpandError>)
    ensures
        braced_value_fits(&*old(ctx), name@, op@, w@, opt_view(value), one_view(r)),
        r matches Ok(Expansion::AtFields(_)) ==> spec_braced_action(op@, value is Some, match value {
            Some(v) => v@.len() == 0,
            None => true,
        }) == BracedAction::Word && !is_plain_word(w@),
    decreases w@.len(), 8int,
{
    let is_set = value.is_some();
    let is_null = match &value {
        Some(v) => v.len() == 0,
        None => true,
    };
    match braced_action(op, is_set, is_null) {
        BracedAction::Value => Ok(Expansion::One(match value {
            Some(v) => v,
            None => Vec::new(),
        })),
        BracedAction::Word => expand_parameter_word_as_expansion(ctx, w, quoted),
        BracedAction::Assign => Ok(Expansion::One(assign_parameter(ctx, name, w, quoted)?)),
        BracedAction::Fail { null } => {
            let message = if w.len() > 0 {
                expand_parameter_word(ctx, w, quoted)?
            } else {
                default_fail_message(name, null)
            };
            Err(ExpandError { message })
        },
        BracedAction::Empty => Ok(Expansion::One(Vec::new())),
        BracedAction::Remove(mode) => {
            let ghost lv = opt_view(value);
            let val = require_set_parameter(ctx, name, value)?;
            assert(val@ == match lv {
                Some(v) => v,
                None => Seq::<u8>::empty(),
            });
            let pat = expand_parameter_pattern_word(ctx, w)?;
            Ok(Expansion::One(remove_parameter_pattern(val, pat.as_slice(), mode)?))
        },
        BracedAction::Unsupported => Err(expand_error("unsupported parameter expansion")),
    }
}

/// Expands the body `expr` of `${...}`: `${#}`, `${#name}`, `${name}`, or
/// `${name<op>word}` evaluated on the parameter's value.
pub fn expand_braced_parameter<C: Context>(ctx: &mut C, expr: &[u8], quoted: bool) -> (r: Result<Expansion, ExpandError>)
    ensures
        braced_text_error(expr@) matches Some(m) ==> (r matches Err(e) && e.message@ == m),
        expr@ == seq![HASH] ==> r matches Ok(Expansion::One(_)),
        expr@.len() > 1 && expr@[0] == HASH ==> length_answered(&*old(ctx), expr@.subrange(1, expr@.len() as int), one_view(r)),
        expr@.len() > 0 && expr@[0] != HASH ==> match crate::scan::spec_param_name_len(expr@) {
            Some(n) => if n == expr@.len() {
                param_answered(&*old(ctx), expr@, one_view(r))
            } else {
                exists|v: Option<Seq<u8>>| #[trigger] lookup_answered(&*old(ctx), expr@.subrange(0, n), v) && braced_value_fits(
                    &*old(ctx),
                    expr@.subrange(0, n),
                    braced_op(expr@, n),
                    braced_word(expr@, n),
                    v,
                    one_view(r),
                )
            },
            None => true,
        },
        braced_answered(&*old(ctx), expr@, one_view(r)),
    decreases expr@.len(), 3int,
{
    if expr.len() == 1 && expr[0] == HASH {
        let looked = lookup_param(ctx, expr);
        assert(lookup_answered(&*ctx, expr@, opt_view(looked)));
        let value = match looked {
            Some(v) => v,
            None => Vec::new(),
        };
        return Ok(Expansion::One(value));
    }
    if expr.len() > 1 && expr[0] == HASH {
        let name = vstd::slice::slice_subrange(expr, 1, expr.len());
        let looked = lookup_param(ctx, name);
        let ghost lv = opt_view(looked);
        assert(lookup_answered(&*ctx, name@, lv));
        let value = match require_set_parameter(ctx, name, looked) {
            Ok(v) => v,
            Err(e) => {
                assert(length_answered(&*ctx, name@, Err::<Seq<u8>, Seq<u8>>(e.message@)));
                return Err(e);
            },
        };
        proof {
            if lv is None {
                assert(value@ =~= Seq::<u8>::empty());
            }
        }
        let out = u64_to_bytes(value.len() as u64);
        assert(length_answered(&*ctx, name@, Ok::<Seq<u8>, Seq<u8>>(out@)));
        return Ok(Expansion::One(out));
    }
    let (name, op, word) = parse_parameter_expression(expr)?;
    let value = lookup_param(ctx, name);
    let ghost lv = opt_view(value);
    let op = match op {
        None => {
            let result = require_set_parameter(ctx, name, value);
            let ghost rv = match &result {
                Ok(t) => Ok::<Seq<u8>, Seq<u8>>(t@),
                Err(e) => Err::<Seq<u8>, Seq<u8>>(e.message@),
            };
            proof {
                assert(name@ =~= expr@);
                assert(lookup_answered(&*ctx, expr@, lv));
                assert(param_answered(&*ctx, expr@, rv));
            }
            return Ok(Expansion::One(result?));
        },
        Some(op) => op,
    };
    let w: &[u8] = match word {
        Some(w) => w,
        None => &[],
    };
    let ghost before = *ctx;
    proof {
        assert(lookup_answered(&before, name@, lv));
    }
    let r = braced_with_value(ctx, name, op, w, value, quoted);
    proof {
        let n = crate::scan::spec_param_name_len(expr@).unwrap();
        assert(name@ == expr@.subrange(0, n));
        assert(op@ == braced_op(expr@, n));
        assert(w@ == braced_word(expr@, n));
        assert(braced_value_fits(&before, expr@.subrange(0, n), braced_op(expr@, n), braced_word(expr@, n), lv, one_view(r)));
    }
    r
}

/// Whether `r` is what `${#name}` gives in the shell `ctx`, for a value
/// the shell answers: the decimal length of the value, or for an unset
/// parameter that of the empty string or the error of `set -u`.
pub open spec fn length_answered<C: Context>(ctx: &C, name: Seq<u8>, r: Result<Seq<u8>, Seq<u8>>) -> bool {
    exists|v: Option<Seq<u8>>| #[trigger] lookup_answered(ctx, name, v) && match v {
        Some(t) => r == Ok::<Seq<u8>, Seq<u8>>(crate::bytes::spec_decimal(t.len())),
        None => (crate::params::unset_answered(ctx, name, Ok::<Seq<u8>, Seq<u8>>(Seq::empty())) && r
            == Ok::<Seq<u8>, Seq<u8>>(crate::bytes::spec_decimal(0))) || (r is Err && crate::params::unset_answered(
            ctx,
            name,
            r,
        )),
    }
}

/// `${name=word}`: the word's expansion, assigned to `name`.
pub fn assign_parameter<C: Context>(ctx: &mut C, name: &[u8], raw_word: &[u8], quoted: bool) -> (r: Result<Vec<u8>, ExpandError>)
    ensures
        !spec_is_name(name@) ==> (r matches Err(e) && e.message@ == name@
            + ": cannot assign in parameter expansion".spec_bytes()),
        spec_is_name(name@) && is_plain_word(raw_word@) && spec_unquote(raw_word@) is None ==> (r matches Err(e)
            && e.message@ == plain_error(raw_word@, 0)),
        spec_is_name(name@) && is_plain_word(raw_word@) ==> (r matches Ok(v) ==> spec_unquote(
            raw_word@,
        ) matches Some((segs, _)) && v@ == flatten(segs)),
        spec_is_name(name@) && is_plain_word(raw_word@) ==> (spec_unquote(raw_word@) matches Some((segs, _))
            ==> assign_fits(&*old(ctx), name@, flatten(segs), text_view(r))),
        spec_is_name(name@) && word_described(raw_word@) ==> assigned_word_fits(&*old(ctx), name@, raw_word@, text_view(r)),
        r matches Ok(v) ==> exists|c: C, st: Result<(), ExpandError>| #[trigger] crate::params::set_answered(c, name@, v@, st)
            && st is Ok,
    decreases raw_word@.len(), 7int,
{
    if !is_name(name) {
        return Err(ExpandError { message: with_suffix(name, ": cannot assign in parameter expansion") });
    }
    let value = match expand_parameter_word(ctx, raw_word, quoted) {
        Ok(v) => v,
        Err(e) => {
            proof {
                if word_described(raw_word@) {
                    assert(word_text_fits(&*old(ctx), raw_word@, Err::<Seq<u8>, Seq<u8>>(e.message@)));
                }
            }
            return Err(e);
        },
    };
    let ghost pre = *ctx;
    let v2 = vstd::slice::slice_to_vec(value.as_slice());
    let ghost vv = v2;
    let s = ctx.set_var(name, v2);
    assert(crate::params::set_answered(pre, name@, vv@, s));
    let r = match s {
        Ok(()) => Ok(value),
        Err(e) => Err(e),
    };
    proof {
        if is_plain_word(raw_word@) && spec_unquote(raw_word@) is Some {
            assert(crate::params::answers_alike(&pre, &*old(ctx)));
            assert(assign_fits(&*old(ctx), name@, vv@, text_view(r)));
        }
        if word_described(raw_word@) {
            assert(crate::params::answers_alike(&pre, &*old(ctx)));
            assert(assign_fits(&*old(ctx), name@, vv@, text_view(r)));
            assert(word_text_fits(&*old(ctx), raw_word@, Ok::<Seq<u8>, Seq<u8>>(vv@)));
        }
    }
    r
}

/// What a shell answering alike to `a` may give for an assignment, one
/// answering alike to `b` may give too, where `a` and `b` answer alike.
pub proof fn lemma_assign_fits_alike<C: Context>(a: &C, b: &C, name: Seq<u8>, value: Seq<u8>, r: Result<Seq<u8>, Seq<u8>>)
    requires
        crate::params::answers_alike(a, b),
    ensures
        assign_fits(a, name, value, r) ==> assign_fits(b, name, value, r),
{
    if assign_fits(a, name, value, r) {
        let (c, st) = choose|c: C, st: Result<(), ExpandError>| #[trigger] crate::params::set_answered(c, name, value, st)
            && crate::params::answers_alike(&c, a) && r == match st {
            Ok(_) => Ok::<Seq<u8>, Seq<u8>>(value),
            Err(e) => Err::<Seq<u8>, Seq<u8>>(e.message@),
        };
        crate::params::lemma_alike_trans(&c, a, b);
    }
}

/// Whether `r` is what assigning `value` to `name` gives in a shell
/// answering alike to `ctx`: the value where the shell accepts the
/// assignment, else its error.
pub open spec fn assign_fits<C: Context>(ctx: &C, name: Seq<u8>, value: Seq<u8>, r: Result<Seq<u8>, Seq<u8>>) -> bool {
    exists|c: C, s: Result<(), ExpandError>| #[trigger] crate::params::set_answered(c, name, value, s)
        && crate::params::answers_alike(&c, ctx) && r == match s {
        Ok(_) => Ok::<Seq<u8>, Seq<u8>>(value),
        Err(e) => Err::<Seq<u8>, Seq<u8>>(e.message@),
    }
}

/// The text of an expansion's segments, or its error.
pub open spec fn segs_text(x: Result<Seq<SegView>, Seq<u8>>) -> Result<Seq<u8>, Seq<u8>> {
    match x {
        Ok(segs) => Ok(flatten(segs)),
        Err(m) => Err(m),
    }
}

/// A word whose expansion to one string the library describes: plain text,
/// a word of names (perhaps led by `~`), or a double-quoted word of names
/// and `$@`.
pub open spec fn word_described(raw: Seq<u8>) -> bool {
    is_plain_word(raw) || is_names_word(raw) || exists|q: int| #[trigger] is_dq_word(raw, q)
}

/// Whether `r` is the expansion of the word `raw` to one string in the
/// shell `ctx`, for a word whose kind the library describes: a plain word
/// loses its quotes, a word of names gets what `names_fits` says, a
/// double-quoted word what `dq_fits` says.
pub open spec fn word_text_fits<C: Context>(ctx: &C, raw: Seq<u8>, r: Result<Seq<u8>, Seq<u8>>) -> bool {
    &&& is_plain_word(raw) ==> r == match spec_unquote(raw) {
        Some((segs, _)) => Ok::<Seq<u8>, Seq<u8>>(flatten(segs)),
        None => Err::<Seq<u8>, Seq<u8>>(plain_error(raw, 0)),
    }
    &&& is_names_word(raw) ==> exists|x: Result<Seq<SegView>, Seq<u8>>| #[trigger] names_fits(ctx, raw, 0, Seq::empty(), x)
        && r == segs_text(x)
    &&& forall|q: int| #[trigger] is_dq_word(raw, q) ==> exists|x: Result<Seq<SegView>, Seq<u8>>| #[trigger] dq_fits(
        ctx,
        raw,
        q + 1,
        Seq::empty(),
        x,
    ) && r == segs_text(x)
}

/// Whether `r` is what `${name:=word}` (or `${name=word}`) gives where the
/// word is assigned in the shell `ctx`: the word's expansion is assigned to
/// `name` and given, or the expansion's error is.
pub open spec fn assigned_word_fits<C: Context>(ctx: &C, name: Seq<u8>, word: Seq<u8>, r: Result<Seq<u8>, Seq<u8>>) -> bool {
    exists|x: Result<Seq<u8>, Seq<u8>>| #[trigger] word_text_fits(ctx, word, x) && match x {
        Ok(v) => assign_fits(ctx, name, v, r),
        Err(m) => r == Err::<Seq<u8>, Seq<u8>>(m),
    }
}

/// What one state of the shell makes of a word, another that answers
/// alike makes too.
pub proof fn lemma_word_text_alike<C: Context>(a: &C, b: &C, raw: Seq<u8>, r: Result<Seq<u8>, Seq<u8>>)
    requires
        crate::params::answers_alike(a, b),
        word_text_fits(a, raw, r),
    ensures
        word_text_fits(b, raw, r),
{
    if is_names_word(raw) {
        let x = choose|x: Result<Seq<SegView>, Seq<u8>>| #[trigger] names_fits(a, raw, 0, Seq::empty(), x) && r == segs_text(x);
        lemma_names_alike(a, b, raw, 0, Seq::empty(), x);
    }
    assert forall|q: int| #[trigger] is_dq_word(raw, q) implies exists|x: Result<Seq<SegView>, Seq<u8>>| #[trigger] dq_fits(
        b,
        raw,
        q + 1,
        Seq::empty(),
        x,
    ) && r == segs_text(x) by {
        let x = choose|x: Result<Seq<SegView>, Seq<u8>>| #[trigger] dq_fits(a, raw, q + 1, Seq::empty(), x) && r == segs_text(x);
        lemma_dq_alike(a, b, raw, q + 1, Seq::empty(), x);
    }
}

/// What one state of the shell makes of an assigned word, another that
/// answers alike makes too.
pub proof fn lemma_assigned_word_alike<C: Context>(a: &C, b: &C, name: Seq<u8>, word: Seq<u8>, r: Result<Seq<u8>, Seq<u8>>)
    requires
        crate::params::answers_alike(a, b),
    ensures
        assigned_word_fits(a, name, word, r) ==> assigned_word_fits(b, name, word, r),
{
    if assigned_word_fits(a, name, word, r) {
        let x = choose|x: Result<Seq<u8>, Seq<u8>>| #[trigger] word_text_fits(a, word, x) && match x {
            Ok(v) => assign_fits(a, name, v, r),
            Err(m) => r == Err::<Seq<u8>, Seq<u8>>(m),
        };
        lemma_word_text_alike(a, b, word, x);
        if let Ok(v) = x {
            lemma_assign_fits_alike(a, b, name, v, r);
        }
    }
}

/// A run of name bytes reaches the end of the text.
proof fn lemma_name_end_at_end(t: Seq<u8>, j: int)
    requires
        0 <= j <= t.len(),
        forall|k: int| j <= k < t.len() ==> spec_is_name_char(#[trigger] t[k]),
    ensures
        name_end(t, j) == t.len(),
    decreases t.len() - j,
{
    if j < t.len() {
        lemma_name_end_at_end(t, j + 1);
    }
}

/// `${x:=$h}` with `x` unset gives the value the shell answers for `h`,
/// and asks the shell to set `x` to that same value: the word of `:=` is
/// expanded before it is assigned, not assigned as written.
pub proof fn law_assign_default_expands_its_word<C: Context>(ctx: &C, x: Seq<u8>, h: Seq<u8>, out: Seq<u8>)
    requires
        spec_is_name(x),
        spec_is_name(h),
        braced_value_fits(ctx, x, seq![COLON, crate::chars::EQUALS], seq![DOLLAR] + h, None, Ok::<Seq<u8>, Seq<u8>>(out)),
    ensures
        exists|v: Seq<u8>| #[trigger] param_answered(ctx, h, Ok::<Seq<u8>, Seq<u8>>(v)) && out == v && exists|
            c: C,
            st: Result<(), ExpandError>,
        | #[trigger] crate::params::set_answered(c, x, v, st) && st is Ok,
{
    let w = seq![DOLLAR] + h;
    assert(w.subrange(1, w.len() as int) =~= h);
    assert forall|k: int| 1 <= k < w.len() implies spec_is_name_char(#[trigger] w[k]) by {
        assert(w[k] == h[k - 1]);
        if k > 1 {
            assert(spec_is_name_char(h[k - 1]));
        }
    }
    assert(crate::chars::spec_is_name_start(w[1]));
    lemma_name_end_at_end(w, 1);
    assert forall|k: int| 0 <= k < w.len() implies #[trigger] w[k] == DOLLAR || ordinary_byte(w[k]) by {
        if k > 0 {
            assert(spec_is_name_char(w[k]));
        }
    }
    assert forall|k: int| 0 <= k < w.len() && #[trigger] w[k] == DOLLAR implies k + 1 < w.len() && crate::chars::spec_is_name_start(w[k + 1]) by {
        if k > 0 {
            assert(spec_is_name_char(w[k]));
        }
    }
    assert(is_names_word(w));
    assert(word_described(w));
    let xr = choose|xr: Result<Seq<u8>, Seq<u8>>| #[trigger] word_text_fits(ctx, w, xr) && match xr {
        Ok(v) => assign_fits(ctx, x, v, Ok::<Seq<u8>, Seq<u8>>(out)),
        Err(m) => Ok::<Seq<u8>, Seq<u8>>(out) == Err::<Seq<u8>, Seq<u8>>(m),
    };
    let y = choose|y: Result<Seq<SegView>, Seq<u8>>| #[trigger] names_fits(ctx, w, 0, Seq::empty(), y) && xr == segs_text(y);
    let pv = choose|pv: Result<Seq<u8>, Seq<u8>>| #[trigger] param_answered(ctx, w.subrange(1, w.len() as int), pv) && match pv {
        Ok(val) => names_fits(ctx, w, w.len() as int, spec_push_segment(Seq::empty(), val, QuoteState::Expanded), y),
        Err(m) => y == Err::<Seq<SegView>, Seq<u8>>(m),
    };
    match pv {
        Ok(val) => {
            lemma_flatten_single(val, QuoteState::Expanded);
            assert(xr == Ok::<Seq<u8>, Seq<u8>>(val));
            let (c, st) = choose|c: C, st: Result<(), ExpandError>| #[trigger] crate::params::set_answered(c, x, val, st)
                && crate::params::answers_alike(&c, ctx) && Ok::<Seq<u8>, Seq<u8>>(out) == match st {
                Ok(_) => Ok::<Seq<u8>, Seq<u8>>(val),
                Err(e) => Err::<Seq<u8>, Seq<u8>>(e.message@),
            };
            assert(param_answered(ctx, h, Ok::<Seq<u8>, Seq<u8>>(val)));
            assert(crate::params::set_answered(c, x, val, st) && st is Ok);
        },
        Err(m) => {},
    }
}

/// The expansion of a word inside `${...}`, as one string.
pub fn expand_parameter_word<C: Context>(ctx: &mut C, raw: &[u8], quoted: bool) -> (r: Result<Vec<u8>, ExpandError>)
    ensures
        is_plain_word(raw@) ==> match spec_unquote(raw@) {
            None => r matches Err(e) && e.message@ == plain_error(raw@, 0),
            Some((segs, _)) => r matches Ok(v) && v@ == flatten(segs),
        },
        word_described(raw@) ==> crate::params::answers_alike(&*final(ctx), &*old(ctx)),
        word_text_fits(&*old(ctx), raw@, text_view(r)),
    decreases raw@.len(), 6int,
{
    let expanded = match expand_raw(ctx, raw) {
        Ok(x) => x,
        Err(e) => {
            return Err(e);
        },
    };
    let text = flatten_segments(expanded.segments.as_slice());
    proof {
        if is_plain_word(raw@) {
            lemma_plain_run_source_texts(raw@, 0, Seq::empty(), false);
        }
    }
    Ok(text)
}

/// The expansion of a word inside `${...}`: the fields of a `"$@"` in it
/// are kept apart.
pub fn expand_parameter_word_as_expansion<C: Context>(ctx: &mut C, raw: &[u8], quoted: bool) -> (r: Result<Expansion, ExpandError>)
    ensures
        is_plain_word(raw@) ==> match spec_unquote(raw@) {
            None => r matches Err(e) && e.message@ == plain_error(raw@, 0),
            Some((segs, _)) => r matches Ok(Expansion::One(v)) && v@ == flatten(segs),
        },
    decreases raw@.len(), 6int,
{
    let expanded = expand_raw(ctx, raw)?;
    proof {
        if is_plain_word(raw@) {
            lemma_plain_run_source_texts(raw@, 0, Seq::empty(), false);
            lemma_source_texts_no_markers(segs_view(expanded.segments@));
        }
    }
    let segments = expanded.segments.as_slice();
    if find_at_marker(segments, false) || find_at_marker(segments, true) {
        Ok(Expansion::AtFields(split_at_breaks(segments)))
    } else {
        Ok(Expansion::One(flatten_segments(segments)))
    }
}

/// The pattern that a word inside `${name%word}` and the like stands for:
/// its quoted glob characters escaped.
pub fn expand_parameter_pattern_word<C: Context>(ctx: &mut C, raw: &[u8]) -> (r: Result<Vec<u8>, ExpandError>)
    ensures
        is_plain_word(raw@) ==> match spec_unquote(raw@) {
            None => r matches Err(e) && e.message@ == plain_error(raw@, 0),
            Some((segs, _)) => r matches Ok(v) && v@ == spec_render_pattern(segs),
        },
    decreases raw@.len(), 6int,
{
    let expanded = expand_raw(ctx, raw)?;
    Ok(render_pattern_from_segments(expanded.segments.as_slice()))
}

/// The text of `$((...))` with its `$` and command substitutions
/// expanded, ready for evaluation.
pub fn expand_arithmetic_expression<C: Context>(ctx: &mut C, expression: &[u8]) -> (r: Result<Vec<u8>, ExpandError>)
    ensures
        (forall|i: int| 0 <= i < expression@.len() ==> #[trigger] expression@[i] != DOLLAR
            && expression@[i] != BACKQUOTE) ==> (r matches Ok(v) && v@ == expression@),
        no_substitutions(expression@) ==> crate::params::answers_alike(&*final(ctx), &*old(ctx)),
    decreases expression@.len(), 5int,
{
    let mut result: Vec<u8> = Vec::new();
    let mut i: usize = 0;
    while i < expression.len()
        invariant
            i <= expression@.len(),
            (forall|k: int| 0 <= k < expression@.len() ==> #[trigger] expression@[k] != DOLLAR
                && expression@[k] != BACKQUOTE) ==> result@ == expression@.take(i as int),
            no_substitutions(expression@) ==> crate::params::answers_alike(&*ctx, &*old(ctx)),
        decreases expression@.len() - i,
    {
        let c = expression[i];
        if c == DOLLAR {
            let (expansion, consumed) = expand_dollar(ctx, vstd::slice::slice_subrange(expression, i, expression.len()), true)?;
            let text = crate::segments::flatten_expansion(expansion);
            let mut t = text;
            result.append(&mut t);
            i += consumed;
        } else if c == BACKQUOTE {
            i += 1;
            let command = scan_backtick_command(expression, &mut i, true)?;
            let output = ctx.command_substitute(command.as_slice())?;
            result.extend_from_slice(trim_trailing_newlines(output.as_slice()));
        } else {
            if c == NEWLINE {
                let ghost prev = *ctx;
                ctx.inc_lineno();
                proof {
                    if no_substitutions(expression@) {
                        crate::params::lemma_alike_trans(&*ctx, &prev, &*old(ctx));
                    }
                }
            }
            result.push(c);
            assert(expression@.take(i + 1) =~= expression@.take(i as int).push(c));
            i += 1;
        }
    }
    proof {
        assert(expression@.take(expression@.len() as int) =~= expression@);
    }
    Ok(result)
}

// ---------------------------------------------------------------------
// Parameter expansion alone (no command substitution)
// ---------------------------------------------------------------------

/// What parameter expansion alone makes of `raw[i..]` where its text
/// decides it: each `$'...'` replaced by its string, and a `$` that starts
/// no expansion kept. `None` where a parameter is named, whose value the
/// shell supplies; `Some(None)` where a `$'...'` is left open.
pub open spec fn text_only_expansion(raw: Seq<u8>, i: int) -> Option<Option<Seq<u8>>>
    decreases raw.len() - i,
{
    if i < 0 || i >= raw.len() {
        Some(Some(Seq::empty()))
    } else if raw[i] != DOLLAR {
        match text_only_expansion(raw, i + 1) {
            Some(Some(t)) => Some(Some(seq![raw[i]] + t)),
            other => other,
        }
    } else if i + 1 >= raw.len() || !starts_parameter(raw[i + 1]) {
        match text_only_expansion(raw, i + 1) {
            Some(Some(t)) => Some(Some(seq![DOLLAR] + t)),
            other => other,
        }
    } else if raw[i + 1] == SQUOTE {
        match spec_dollar_single(raw.subrange(i, raw.len() as int), 2) {
            Some((t, e)) => if 1 <= e <= raw.len() - i {
                match text_only_expansion(raw, i + e) {
                    Some(Some(t2)) => Some(Some(t + t2)),
                    other => other,
                }
            } else {
                None
            },
            None => Some(None),
        }
    } else {
        None
    }
}

/// Whether the `$` at `k` of `t` is one that parameter expansion handles
/// by names alone: `$name`, `${name}`, or a `$` that starts nothing.
pub open spec fn simple_dollar_at(t: Seq<u8>, k: int) -> bool {
    ||| k + 1 >= t.len()
    ||| !starts_parameter(t[k + 1])
    ||| crate::chars::spec_is_name_start(t[k + 1])
    ||| (t[k + 1] == LBRACE && match spec_closing_brace(t.subrange(k, t.len() as int), 2) {
        Some(e) => is_plain_name_expr(t.subrange(k, t.len() as int).subrange(2, e)),
        None => false,
    })
}

/// Whether every `$` of `t` is a `$name`, a `${name}` or a `$` that starts
/// nothing.
pub open spec fn text_names_only(t: Seq<u8>) -> bool {
    forall|k: int| 0 <= k < t.len() && #[trigger] t[k] == DOLLAR ==> simple_dollar_at(t, k)
}

/// `r` with `piece` put in front of its text; an error stays as it is.
pub open spec fn after_piece(piece: Seq<u8>, r: Result<Seq<u8>, Seq<u8>>) -> Result<Seq<u8>, Seq<u8>> {
    match r {
        Ok(out) => Ok(piece + out),
        Err(m) => Err(m),
    }
}

/// Whether `r` is what parameter expansion makes of `t[i..]` in the shell
/// `ctx`: each `$name` and `${name}` replaced by a value the shell answers
/// for it, a `$` that starts nothing kept, other bytes kept; or the error
/// the shell answers for the first parameter it refuses.
pub open spec fn param_text_fits<C: Context>(ctx: &C, t: Seq<u8>, i: int, r: Result<Seq<u8>, Seq<u8>>) -> bool
    decreases t.len() - i, 0int,
{
    if i < 0 || i >= t.len() {
        r == Ok::<Seq<u8>, Seq<u8>>(Seq::empty())
    } else if t[i] != DOLLAR || i + 1 >= t.len() || !starts_parameter(t[i + 1]) {
        match r {
            Ok(out) => out.len() >= 1 && out[0] == t[i] && param_text_fits(ctx, t, i + 1, Ok(out.skip(1))),
            Err(m) => param_text_fits(ctx, t, i + 1, Err(m)),
        }
    } else if crate::chars::spec_is_name_start(t[i + 1]) {
        let e = name_end(t, i + 1);
        if i < e <= t.len() {
            exists|v: Result<Seq<u8>, Seq<u8>>| #[trigger] param_answered(ctx, t.subrange(i + 1, e), v)
                && piece_fits(ctx, t, e, v, r)
        } else {
            false
        }
    } else if t[i + 1] == LBRACE {
        let src = t.subrange(i, t.len() as int);
        match spec_closing_brace(src, 2) {
            Some(k) => if 2 <= k && i + k + 1 <= t.len() && is_plain_name_expr(src.subrange(2, k)) {
                exists|v: Result<Seq<u8>, Seq<u8>>| #[trigger] param_answered(ctx, src.subrange(2, k), v)
                    && piece_fits(ctx, t, i + k + 1, v, r)
            } else {
                false
            },
            None => false,
        }
    } else {
        false
    }
}

/// Whether `r` is what follows from a parameter answered `v`, with the
/// text resuming at `e`: the value then the expansion of the rest, or the
/// error the parameter was answered with.
pub open spec fn piece_fits<C: Context>(ctx: &C, t: Seq<u8>, e: int, v: Result<Seq<u8>, Seq<u8>>, r: Result<Seq<u8>, Seq<u8>>) -> bool
    decreases t.len() - e, 1int,
{
    match v {
        Ok(val) => match r {
            Ok(out) => out.len() >= val.len() && out.take(val.len() as int) == val && param_text_fits(
                ctx,
                t,
                e,
                Ok(out.skip(val.len() as int)),
            ),
            Err(m) => param_text_fits(ctx, t, e, Err(m)),
        },
        Err(m) => r == Err::<Seq<u8>, Seq<u8>>(m),
    }
}

/// The text, or the error message, of one parameter expansion.
pub open spec fn step_view(r: &Result<(Vec<u8>, usize), ExpandError>) -> Result<Seq<u8>, Seq<u8>> {
    match r {
        Ok((v, _)) => Ok(v@),
        Err(e) => Err(e.message@),
    }
}

/// The number of bytes one parameter expansion spans; 1 where it failed.
pub open spec fn step_len(r: &Result<(Vec<u8>, usize), ExpandError>) -> int {
    match r {
        Ok((_, n)) => *n as int,
        Err(_) => 1,
    }
}

/// One `$` of names-only text, whose parameter the shell answered `res`:
/// where it gave a value, that value followed by any fitting expansion of
/// the rest fits from that `$` on; where it refused, its error does.
proof fn lemma_param_text_step<C: Context>(c0: C, t: Seq<u8>, gi: int, res: Result<Seq<u8>, Seq<u8>>, consumed: int)
    requires
        0 <= gi < t.len(),
        t[gi] == DOLLAR,
        simple_dollar_at(t, gi),
        (gi + 1 >= t.len() || !starts_parameter(t[gi + 1])) ==> res == Ok::<Seq<u8>, Seq<u8>>(seq![DOLLAR])
            && consumed == 1,
        gi + 1 < t.len() && crate::chars::spec_is_name_start(t[gi + 1]) ==> gi < name_end(t, gi + 1) <= t.len()
            && param_answered(&c0, t.subrange(gi + 1, name_end(t, gi + 1)), res) && (res is Ok ==> gi + consumed
            == name_end(t, gi + 1)),
        gi + 1 < t.len() && t[gi + 1] == LBRACE ==> match spec_closing_brace(t.subrange(gi, t.len() as int), 2) {
            Some(k) => 2 <= k && gi + k + 1 <= t.len() && param_answered(
                &c0,
                t.subrange(gi, t.len() as int).subrange(2, k),
                res,
            ) && (res is Ok ==> consumed == k + 1),
            None => false,
        },
    ensures
        res matches Ok(piece) ==> forall|r2: Result<Seq<u8>, Seq<u8>>| #[trigger] param_text_fits(
            &c0,
            t,
            gi + consumed,
            r2,
        ) ==> param_text_fits(&c0, t, gi, after_piece(piece, r2)),
        res matches Err(m) ==> param_text_fits(&c0, t, gi, Err::<Seq<u8>, Seq<u8>>(m)),
{
    let src = t.subrange(gi, t.len() as int);
    if !(gi + 1 < t.len() && starts_parameter(t[gi + 1])) {
        assert forall|r2: Result<Seq<u8>, Seq<u8>>| #[trigger] param_text_fits(&c0, t, gi + consumed, r2) implies param_text_fits(
            &c0,
            t,
            gi,
            after_piece(seq![DOLLAR], r2),
        ) by {
            match r2 {
                Ok(o) => { assert((seq![DOLLAR] + o).skip(1) =~= o); },
                Err(_) => {},
            }
        }
    } else if crate::chars::spec_is_name_start(t[gi + 1]) {
        let e = name_end(t, gi + 1);
        match res {
            Ok(piece) => {
                assert forall|r2: Result<Seq<u8>, Seq<u8>>| #[trigger] param_text_fits(&c0, t, gi + consumed, r2) implies param_text_fits(
                    &c0,
                    t,
                    gi,
                    after_piece(piece, r2),
                ) by {
                    match r2 {
                        Ok(o) => {
                            assert((piece + o).take(piece.len() as int) =~= piece);
                            assert((piece + o).skip(piece.len() as int) =~= o);
                        },
                        Err(_) => {},
                    }
                    assert(piece_fits(&c0, t, e, res, after_piece(piece, r2)));
                    assert(param_answered(&c0, t.subrange(gi + 1, e), res));
                }
            },
            Err(m) => {
                assert(piece_fits(&c0, t, e, res, Err::<Seq<u8>, Seq<u8>>(m)));
                assert(param_answered(&c0, t.subrange(gi + 1, e), res));
            },
        }
    } else {
        match spec_closing_brace(src, 2) {
            Some(k) => {
                match res {
                    Ok(piece) => {
                        assert forall|r2: Result<Seq<u8>, Seq<u8>>| #[trigger] param_text_fits(&c0, t, gi + consumed, r2) implies param_text_fits(
                            &c0,
                            t,
                            gi,
                            after_piece(piece, r2),
                        ) by {
                            match r2 {
                                Ok(o) => {
                                    assert((piece + o).take(piece.len() as int) =~= piece);
                                    assert((piece + o).skip(piece.len() as int) =~= o);
                                },
                                Err(_) => {},
                            }
                            assert(piece_fits(&c0, t, gi + k + 1, res, after_piece(piece, r2)));
                            assert(param_answered(&c0, src.subrange(2, k), res));
                        }
                    },
                    Err(m) => {
                        assert(piece_fits(&c0, t, gi + k + 1, res, Err::<Seq<u8>, Seq<u8>>(m)));
                        assert(param_answered(&c0, src.subrange(2, k), res));
                    },
                }
            },
            None => {},
        }
    }
}

/// `raw` with its `$` parameter expansions performed and nothing else:
/// no quote removal, no command or arithmetic substitution.
#[verifier::spinoff_prover]
#[verifier::rlimit(40)]
pub fn expand_parameter_text_owned<C: Context>(ctx: &mut C, raw: &[u8]) -> (r: Result<Vec<u8>, ExpandError>)
    ensures
        !raw@.contains(DOLLAR) ==> (r matches Ok(v) && v@ == raw@),
        text_only_expansion(raw@, 0) matches Some(o) ==> match o {
            Some(t) => r matches Ok(v) && v@ == t,
            None => r is Err,
        },
        is_name_word(raw@) ==> param_answered(&*old(ctx), raw@.subrange(1, raw@.len() as int), text_view(r)),
        !raw@.contains(DOLLAR) ==> *final(ctx) == *old(ctx),
        text_names_only(raw@) ==> *final(ctx) == *old(ctx) && param_text_fits(&*old(ctx), raw@, 0, text_view(r)),
        text_names_only(raw@) && crate::params::nounset_off(&*old(ctx)) ==> r is Ok,
    decreases raw@.len(), 3int,
{
    let mut result: Vec<u8> = Vec::new();
    let mut index: usize = 0;
    let ghost c0 = *ctx;
    proof {
        assert forall|r2: Result<Seq<u8>, Seq<u8>>| #[trigger] param_text_fits(&c0, raw@, 0, r2) implies param_text_fits(
            &c0,
            raw@,
            0,
            after_piece(result@, r2),
        ) by {
            match r2 {
                Ok(o) => { assert(result@ + o =~= o); },
                Err(_) => {},
            }
        }
    }
    while index < raw.len()
        invariant
            index <= raw@.len(),
            !raw@.contains(DOLLAR) ==> result@ == raw@.take(index as int),
            match text_only_expansion(raw@, 0) {
                Some(Some(t)) => text_only_expansion(raw@, index as int) matches Some(Some(t2)) && t == result@ + t2,
                Some(None) => text_only_expansion(raw@, index as int) == Some(None::<Seq<u8>>),
                None => true,
            },
            !raw@.contains(DOLLAR) ==> *ctx == *old(ctx),
            is_name_word(raw@) ==> (index == 0 && result@.len() == 0 && *ctx == *old(ctx)) || (index == raw@.len()
                && param_answered(&*old(ctx), raw@.subrange(1, raw@.len() as int), Ok::<Seq<u8>, Seq<u8>>(result@))),
            c0 == *old(ctx),
            text_names_only(raw@) ==> *ctx == c0 && forall|r2: Result<Seq<u8>, Seq<u8>>| #[trigger] param_text_fits(
                &c0,
                raw@,
                index as int,
                r2,
            ) ==> param_text_fits(&c0, raw@, 0, after_piece(result@, r2)),
        decreases raw@.len() - index,
    {
        if raw[index] == DOLLAR {
            assert(raw@.contains(DOLLAR));
            let ghost before = result@;
            let ghost src = raw@.subrange(index as int, raw@.len() as int);
            let sub = vstd::slice::slice_subrange(raw, index, raw.len());
            assert(sub@ == src);
            proof {
                if is_name_word(raw@) {
                    assert(src =~= raw@);
                }
            }
            let step = expand_parameter_dollar(ctx, sub);
            proof {
                if text_names_only(raw@) {
                    let gi = index as int;
                    let t = raw@;
                    assert(simple_dollar_at(t, gi));
                    if gi + 1 < t.len() {
                        assert(src[1] == t[gi + 1]);
                    }
                    if gi + 1 < t.len() && crate::chars::spec_is_name_start(t[gi + 1]) {
                        lemma_name_end_shift(t, gi, gi + 1);
                        lemma_name_end_bounds(t, gi + 1);
                        assert(src.subrange(1, name_end(src, 1)) =~= t.subrange(gi + 1, name_end(t, gi + 1)));
                    }
                    lemma_param_text_step(c0, t, gi, step_view(&step), step_len(&step));
                }
            }
            let (value, consumed) = match step {
                Ok(pair) => pair,
                Err(e) => {
                    proof {
                        let t = raw@;
                        let gi = index as int;
                        if text_names_only(t) && crate::params::nounset_off(&c0) {
                            assert(simple_dollar_at(t, gi));
                            assert(src[1] == t[gi + 1]);
                            if crate::chars::spec_is_name_start(t[gi + 1]) {
                                crate::params::lemma_param_never_fails(&c0, src.subrange(1, name_end(src, 1)), e.message@);
                            } else {
                                match spec_closing_brace(src, 2) {
                                    Some(k) => {
                                        crate::params::lemma_param_never_fails(&c0, src.subrange(2, k), e.message@);
                                    },
                                    None => {},
                                }
                            }
                        }
                    }
                    return Err(e);
                },
            };
            proof {
                if is_name_word(raw@) {
                    assert(result@.len() == 0);
                    assert(before + value@ =~= value@);
                    assert(consumed == raw@.len());
                    assert(param_answered(&*old(ctx), raw@.subrange(1, raw@.len() as int), Ok::<Seq<u8>, Seq<u8>>(value@)));
                }
            }
            result.extend_from_slice(value.as_slice());
            proof {
                if is_name_word(raw@) {
                    assert(result@ =~= value@);
                }
            }
            proof {
                if text_names_only(raw@) {
                    let gi = index as int;
                    let piece = value@;
                    assert(result@ =~= before + piece);
                    assert forall|r2: Result<Seq<u8>, Seq<u8>>| #[trigger] param_text_fits(&c0, raw@, gi + consumed, r2) implies param_text_fits(
                        &c0,
                        raw@,
                        0,
                        after_piece(result@, r2),
                    ) by {
                        assert(param_text_fits(&c0, raw@, gi, after_piece(piece, r2)));
                        match r2 {
                            Ok(o) => { assert(before + (piece + o) =~= result@ + o); },
                            Err(_) => {},
                        }
                    }
                }
                if src.len() >= 2 && src[1] == SQUOTE {
                    assert(src[1] == raw@[index + 1]);
                }
                if !(src.len() >= 2 && starts_parameter(src[1])) {
                    assert(value@ == seq![DOLLAR]);
                }
                match text_only_expansion(raw@, 0) {
                    Some(Some(t)) => {
                        match text_only_expansion(raw@, index + consumed) {
                            Some(Some(t3)) => {
                                assert(result@ == before + value@);
                                assert(t == result@ + t3);
                            },
                            _ => {},
                        }
                    },
                    _ => {},
                }
            }
            index += consumed;
        } else {
            let ghost before = result@;
            result.push(raw[index]);
            assert(raw@.take(index + 1) =~= raw@.take(index as int).push(raw@[index as int]));
            proof {
                if text_names_only(raw@) {
                    let gi = index as int;
                    assert forall|r2: Result<Seq<u8>, Seq<u8>>| #[trigger] param_text_fits(&c0, raw@, gi + 1, r2) implies param_text_fits(
                        &c0,
                        raw@,
                        0,
                        after_piece(result@, r2),
                    ) by {
                        let x = after_piece(seq![raw@[gi]], r2);
                        match r2 {
                            Ok(o) => {
                                assert((seq![raw@[gi]] + o).skip(1) =~= o);
                                assert(before + (seq![raw@[gi]] + o) =~= result@ + o);
                            },
                            Err(_) => {},
                        }
                        assert(param_text_fits(&c0, raw@, gi, x));
                    }
                }
                match text_only_expansion(raw@, 0) {
                    Some(Some(t)) => {
                        match text_only_expansion(raw@, index + 1) {
                            Some(Some(t3)) => {
                                assert(t == result@ + t3);
                            },
                            _ => {},
                        }
                    },
                    _ => {},
                }
            }
            index += 1;
        }
    }
    assert(raw@.take(raw@.len() as int) =~= raw@);
    proof {
        match text_only_expansion(raw@, 0) {
            Some(Some(t)) => { assert(result@ + Seq::<u8>::empty() =~= result@); },
            _ => {},
        }
        if text_names_only(raw@) {
            assert(param_text_fits(&c0, raw@, index as int, Ok::<Seq<u8>, Seq<u8>>(Seq::<u8>::empty())));
            assert(result@ + Seq::<u8>::empty() =~= result@);
        }
    }
    Ok(result)
}

/// The parameter expansion at the start of `source` (which begins with
/// `$`) and the number of bytes it spans.
pub fn expand_parameter_dollar<C: Context>(ctx: &mut C, source: &[u8]) -> (r: Result<(Vec<u8>, usize), ExpandError>)
    requires
        source@.len() >= 1,
    ensures
        r matches Ok((_, n)) ==> 1 <= n <= source@.len(),
        (source@.len() < 2 || !starts_parameter(source@[1])) ==> (r matches Ok((v, n)) && v@ == seq![DOLLAR]
            && n == 1) && *final(ctx) == *old(ctx),
        source@.len() >= 2 && source@[1] == SQUOTE ==> match spec_dollar_single(source@, 2) {
            Some((t, e)) => r matches Ok((v, n)) && v@ == t && n == e,
            None => r is Err,
        },
        source@.len() >= 2 && source@[1] == LBRACE && spec_closing_brace(source@, 2) is None ==> (r matches Err(e)
            && e.message@ == "unterminated parameter expansion".spec_bytes()),
        source@.len() >= 2 && crate::chars::spec_is_name_start(source@[1]) ==> *final(ctx) == *old(ctx) && (r matches Ok(
            (_, n),
        ) ==> n == name_end(source@, 1)) && param_answered(
            &*old(ctx),
            source@.subrange(1, name_end(source@, 1)),
            match r {
                Ok((v, _)) => Ok::<Seq<u8>, Seq<u8>>(v@),
                Err(e) => Err::<Seq<u8>, Seq<u8>>(e.message@),
            },
        ),
        source@.len() >= 2 && source@[1] == LBRACE ==> match spec_closing_brace(source@, 2) {
            Some(k) => 2 <= k < source@.len() && (is_plain_name_expr(source@.subrange(2, k)) ==> *final(ctx) == *old(ctx) && (r matches Ok((_, n))
                ==> n == k + 1) && param_answered(
                &*old(ctx),
                source@.subrange(2, k),
                match r {
                    Ok((v, _)) => Ok::<Seq<u8>, Seq<u8>>(v@),
                    Err(e) => Err::<Seq<u8>, Seq<u8>>(e.message@),
                },
            )),
            None => true,
        },
    decreases source@.len(), 2int,
{
    if source.len() < 2 {
        return Ok((vec![DOLLAR], 1));
    }
    let c1 = source[1];
    if c1 == SQUOTE {
        return parse_dollar_single_quoted(source);
    }
    if c1 == LBRACE {
        let end = scan_to_closing_brace(source, 2)?;
        let expr = vstd::slice::slice_subrange(source, 2, end);
        let value = expand_braced_parameter_text(ctx, expr)?;
        return Ok((value, end + 1));
    }
    if c1 == QUESTION || c1 == DOLLAR || c1 == BANG || c1 == HASH || c1 == STAR || c1 == AT || c1 == MINUS
        || c1 == DIGIT_ZERO {
        if c1 == DIGIT_ZERO {
            return Ok((ctx.shell_name(), 2));
        }
        let name = vstd::slice::slice_subrange(source, 1, 2);
        let value = require_set_parameter(ctx, name, ctx.special_param(c1))?;
        return Ok((value, 2));
    }
    if is_digit(c1) {
        let name = vstd::slice::slice_subrange(source, 1, 2);
        let value = require_set_parameter(ctx, name, ctx.positional_param((c1 - DIGIT_ZERO) as usize))?;
        return Ok((value, 2));
    }
    if is_name_start(c1) {
        let mut index: usize = 1;
        while index < source.len() && is_name_char(source[index])
            invariant
                1 <= index <= source@.len(),
                name_end(source@, index as int) == name_end(source@, 1),
            decreases source@.len() - index,
        {
            index += 1;
        }
        let name = vstd::slice::slice_subrange(source, 1, index);
        let looked = lookup_param(ctx, name);
        let ghost lv = opt_view(looked);
        let result = require_set_parameter(ctx, name, looked);
        proof {
            assert(lookup_answered(&*ctx, name@, lv));
            assert(value_answered(&*ctx, name@, lv, text_view(result)));
        }
        let value = result?;
        return Ok((value, index));
    }
    Ok((vec![DOLLAR], 1))
}

/// What `${name<op>word}` gives, with parameter expansion alone, when the
/// parameter has the value `value`, as far as the word is free of `$` and
/// so stands for itself.
pub open spec fn braced_text_value_fits<C: Context>(ctx: &C, name: Seq<u8>, op: Seq<u8>, word: Seq<u8>, value: Option<Seq<u8>>, r: Result<Seq<u8>, Seq<u8>>) -> bool {
    let is_null = match value {
        Some(v) => v.len() == 0,
        None => true,
    };
    let literal = !word.contains(DOLLAR);
    match spec_braced_action(op, value is Some, is_null) {
        BracedAction::Value => r == Ok::<Seq<u8>, Seq<u8>>(match value {
            Some(v) => v,
            None => Seq::empty(),
        }),
        BracedAction::Empty => r == Ok::<Seq<u8>, Seq<u8>>(Seq::empty()),
        BracedAction::Unsupported => r == Err::<Seq<u8>, Seq<u8>>("unsupported parameter expansion".spec_bytes()),
        BracedAction::Fail { null } => {
            &&& r is Err
            &&& word.len() == 0 ==> r == Err::<Seq<u8>, Seq<u8>>(name + seq![COLON, SPACE] + (if null {
                "parameter null or not set".spec_bytes()
            } else {
                "parameter not set".spec_bytes()
            }))
            &&& word.len() > 0 && literal ==> r == Err::<Seq<u8>, Seq<u8>>(word)
        },
        BracedAction::Word => literal ==> r == Ok::<Seq<u8>, Seq<u8>>(word),
        BracedAction::Assign => {
            &&& !spec_is_name(name) ==> r == Err::<Seq<u8>, Seq<u8>>(name
                + ": cannot assign in parameter expansion".spec_bytes())
            &&& spec_is_name(name) && literal ==> (r is Ok ==> r == Ok::<Seq<u8>, Seq<u8>>(word))
            &&& spec_is_name(name) && literal ==> exists|st: Result<(), ExpandError>| #[trigger] crate::params::set_answered(
                *ctx,
                name,
                word,
                st,
            ) && r == match st {
                Ok(_) => Ok::<Seq<u8>, Seq<u8>>(word),
                Err(e) => Err::<Seq<u8>, Seq<u8>>(e.message@),
            }
        },
        BracedAction::Remove(mode) => {
            let v = match value {
                Some(v) => v,
                None => Seq::empty(),
            };
            let removed = literal ==> r == Ok::<Seq<u8>, Seq<u8>>(crate::segments::spec_remove_pattern(v, word, mode));
            match value {
                Some(_) => removed,
                None => (crate::params::unset_answered(ctx, name, Ok::<Seq<u8>, Seq<u8>>(Seq::empty())) && removed) || (
                r is Err && crate::params::unset_answered(ctx, name, r)),
            }
        },
    }
}

/// `${name<op>word}` with parameter expansion alone, for a parameter whose
/// value was looked up.
pub fn braced_text_with_value<C: Context>(ctx: &mut C, name: &[u8], op: &[u8], w: &[u8], value: Option<Vec<u8>>) -> (r: Result<Vec<u8>, ExpandError>)
    ensures
        braced_text_value_fits(&*old(ctx), name@, op@, w@, opt_view(value), text_view(r)),
    decreases w@.len(), 5int,
{
    let is_set = value.is_some();
    let is_null = match &value {
        Some(v) => v.len() == 0,
        None => true,
    };
    match braced_action(op, is_set, is_null) {
        BracedAction::Value => Ok(match value {
            Some(v) => v,
            None => Vec::new(),
        }),
        BracedAction::Word => expand_parameter_text_owned(ctx, w),
        BracedAction::Assign => assign_parameter_text(ctx, name, w),
        BracedAction::Fail { null } => {
            let default_message = if null {
                crate::chars::lit("parameter null or not set")
            } else {
                crate::chars::lit("parameter not set")
            };
            let message = expand_parameter_error_text(ctx, name, Some(w), default_message.as_slice())?;
            Err(ExpandError { message })
        },
        BracedAction::Empty => Ok(Vec::new()),
        BracedAction::Remove(mode) => {
            let ghost lv = opt_view(value);
            let val = require_set_parameter(ctx, name, value)?;
            assert(val@ == match lv {
                Some(v) => v,
                None => Seq::<u8>::empty(),
            });
            let pat = expand_parameter_text_owned(ctx, w)?;
            remove_parameter_pattern(val, pat.as_slice(), mode)
        },
        BracedAction::Unsupported => Err(expand_error("unsupported parameter expansion")),
    }
}

/// Whether the body of `${...}` is a parameter name and nothing else.
pub open spec fn is_plain_name_expr(expr: Seq<u8>) -> bool {
    expr.len() > 0 && expr[0] != HASH && crate::scan::spec_param_name_len(expr) == Some(expr.len() as int)
}

/// Expands the body `expr` of `${...}` with parameter expansion alone:
/// `${#}`, `${#name}`, `${name}`, or `${name<op>word}` evaluated on the
/// parameter's value.
pub fn expand_braced_parameter_text<C: Context>(ctx: &mut C, expr: &[u8]) -> (r: Result<Vec<u8>, ExpandError>)
    ensures
        braced_text_error(expr@) matches Some(m) ==> (r matches Err(e) && e.message@ == m),
        expr@ == seq![HASH] ==> exists|v: Option<Seq<u8>>| #[trigger] lookup_answered(&*old(ctx), expr@, v) && text_view(r)
            == Ok::<Seq<u8>, Seq<u8>>(match v {
            Some(t) => t,
            None => Seq::empty(),
        }),
        expr@.len() > 1 && expr@[0] == HASH ==> length_answered(&*old(ctx), expr@.subrange(1, expr@.len() as int), text_view(r)),
        expr@.len() > 0 && expr@[0] != HASH ==> match crate::scan::spec_param_name_len(expr@) {
            Some(n) => if n == expr@.len() {
                param_answered(&*old(ctx), expr@, text_view(r))
            } else {
                exists|v: Option<Seq<u8>>| #[trigger] lookup_answered(&*old(ctx), expr@.subrange(0, n), v) && braced_text_value_fits(
                    &*old(ctx),
                    expr@.subrange(0, n),
                    braced_op(expr@, n),
                    braced_word(expr@, n),
                    v,
                    text_view(r),
                )
            },
            None => true,
        },
        is_plain_name_expr(expr@) ==> *final(ctx) == *old(ctx),
    decreases expr@.len(), 1int,
{
    if expr.len() == 1 && expr[0] == HASH {
        let looked = lookup_param(ctx, expr);
        assert(lookup_answered(&*ctx, expr@, opt_view(looked)));
        return Ok(match looked {
            Some(v) => v,
            None => Vec::new(),
        });
    }
    if expr.len() > 1 && expr[0] == HASH {
        let name = vstd::slice::slice_subrange(expr, 1, expr.len());
        let looked = lookup_param(ctx, name);
        let ghost lv = opt_view(looked);
        assert(lookup_answered(&*ctx, name@, lv));
        let value = match require_set_parameter(ctx, name, looked) {
            Ok(v) => v,
            Err(e) => {
                assert(length_answered(&*ctx, name@, Err::<Seq<u8>, Seq<u8>>(e.message@)));
                return Err(e);
            },
        };
        proof {
            if lv is None {
                assert(value@ =~= Seq::<u8>::empty());
            }
        }
        let out = u64_to_bytes(value.len() as u64);
        assert(length_answered(&*ctx, name@, Ok::<Seq<u8>, Seq<u8>>(out@)));
        return Ok(out);
    }
    let (name, op, word) = parse_parameter_expression(expr)?;
    let value = lookup_param(ctx, name);
    let ghost lv = opt_view(value);
    let op = match op {
        None => {
            let result = require_set_parameter(ctx, name, value);
            proof {
                assert(name@ =~= expr@);
                assert(lookup_answered(&*ctx, expr@, lv));
                assert(param_answered(&*ctx, expr@, text_view(result)));
            }
            return result;
        },
        Some(op) => op,
    };
    let w: &[u8] = match word {
        Some(w) => w,
        None => &[],
    };
    let ghost before = *ctx;
    proof {
        assert(lookup_answered(&before, name@, lv));
    }
    let r = braced_text_with_value(ctx, name, op, w, value);
    proof {
        let n = crate::scan::spec_param_name_len(expr@).unwrap();
        assert(name@ == expr@.subrange(0, n));
        assert(op@ == braced_op(expr@, n));
        assert(w@ == braced_word(expr@, n));
    }
    r
}

/// `${name=word}` with parameter expansion alone.
pub fn assign_parameter_text<C: Context>(ctx: &mut C, name: &[u8], raw_word: &[u8]) -> (r: Result<Vec<u8>, ExpandError>)
    ensures
        !spec_is_name(name@) ==> (r matches Err(e) && e.message@ == name@
            + ": cannot assign in parameter expansion".spec_bytes()),
        spec_is_name(name@) && !raw_word@.contains(DOLLAR) ==> (r matches Ok(v) ==> v@ == raw_word@),
        spec_is_name(name@) && !raw_word@.contains(DOLLAR) ==> exists|s: Result<(), ExpandError>| #[trigger] crate::params::set_answered(
            *old(ctx),
            name@,
            raw_word@,
            s,
        ) && text_view(r) == match s {
            Ok(_) => Ok::<Seq<u8>, Seq<u8>>(raw_word@),
            Err(e) => Err::<Seq<u8>, Seq<u8>>(e.message@),
        },
    decreases raw_word@.len(), 4int,
{
    if !is_name(name) {
        return Err(ExpandError { message: with_suffix(name, ": cannot assign in parameter expansion") });
    }
    let value = expand_parameter_text_owned(ctx, raw_word)?;
    let ghost pre = *ctx;
    let v2 = vstd::slice::slice_to_vec(value.as_slice());
    let ghost vv = v2;
    let s = ctx.set_var(name, v2);
    assert(crate::params::set_answered(pre, name@, vv@, s));
    match s {
        Ok(()) => Ok(value),
        Err(e) => Err(e),
    }
}

/// The message of a failed `${name:?word}` or `${name?word}`: the word's
/// parameter expansion, or, where the word is missing or empty, the name
/// and `default_message` (a fixed text, used as it stands).
pub fn expand_parameter_error_text<C: Context>(ctx: &mut C, name: &[u8], word: Option<&[u8]>, default_message: &[u8]) -> (r: Result<Vec<u8>, ExpandError>)
    ensures
        (word is None || (word matches Some(w) && w@.len() == 0)) ==> (r matches Ok(m) && m@ == name@
            + seq![COLON, SPACE] + default_message@),
        (word matches Some(w) && w@.len() > 0 && !w@.contains(DOLLAR)) ==> (r matches Ok(m) && word.unwrap()@ == m@),
    decreases match word {
        Some(w) => w@.len(),
        None => 0,
    }, 4int,
{
    match word {
        Some(w) => {
            if w.len() > 0 {
                return expand_parameter_text_owned(ctx, w);
            }
        },
        None => {},
    }
    let mut m = vstd::slice::slice_to_vec(name);
    m.push(COLON);
    m.push(SPACE);
    m.extend_from_slice(default_message);
    Ok(m)
}

/// `raw` with its parameter expansions performed and nothing else.
pub fn expand_parameter_text<C: Context>(ctx: &mut C, raw: &[u8]) -> (r: Result<Vec<u8>, ExpandError>)
    ensures
        !raw@.contains(DOLLAR) ==> (r matches Ok(v) && v@ == raw@),
        text_only_expansion(raw@, 0) matches Some(o) ==> match o {
            Some(t) => r matches Ok(v) && v@ == t,
            None => r is Err,
        },
        is_name_word(raw@) ==> param_answered(&*old(ctx), raw@.subrange(1, raw@.len() as int), text_view(r)),
        !raw@.contains(DOLLAR) ==> *final(ctx) == *old(ctx),
        text_names_only(raw@) ==> *final(ctx) == *old(ctx) && param_text_fits(&*old(ctx), raw@, 0, text_view(r)),
        text_names_only(raw@) && crate::params::nounset_off(&*old(ctx)) ==> r is Ok,
{
    expand_parameter_text_owned(ctx, raw)
}

// ---------------------------------------------------------------------
// Here-documents
// ---------------------------------------------------------------------

/// The body of a here-document after backslash processing, where it holds
/// no `$` and no backquote: `\\` and `\$` drop the backslash, a backslash
/// and newline vanish, other backslashes stay.
pub open spec fn heredoc_text(t: Seq<u8>, i: int) -> Seq<u8>
    decreases t.len() - i,
{
    if i < 0 || i >= t.len() {
        Seq::empty()
    } else if t[i] == BACKSLASH {
        if i + 1 >= t.len() {
            seq![BACKSLASH]
        } else if t[i + 1] == DOLLAR || t[i + 1] == BACKSLASH {
            seq![t[i + 1]] + heredoc_text(t, i + 2)
        } else if t[i + 1] == NEWLINE {
            heredoc_text(t, i + 2)
        } else {
            seq![BACKSLASH, t[i + 1]] + heredoc_text(t, i + 2)
        }
    } else {
        seq![t[i]] + heredoc_text(t, i + 1)
    }
}

/// Whether every `$` of a here-document body `t` is a `$name`, a `$@` or a
/// `$` that starts no expansion, and no backquote occurs.
pub open spec fn heredoc_names_only(t: Seq<u8>) -> bool {
    forall|k: int| 0 <= k < t.len() ==> #[trigger] t[k] != BACKQUOTE && (t[k] == DOLLAR ==> (k + 1 < t.len() && (
    crate::chars::spec_is_name_start(t[k + 1]) || t[k + 1] == AT)) || k + 1 >= t.len() || !starts_expansion(t[k + 1], false))
}

/// Whether `out` is what the here-document body `t[i..]` expands to in the
/// shell `ctx`: the escapes of `heredoc_text`, each `$name` replaced by a
/// value the shell answers for it, each `$@` by the positional parameters
/// it answers joined by spaces, and a `$` that starts no expansion kept.
pub open spec fn heredoc_fits<C: Context>(ctx: &C, t: Seq<u8>, i: int, out: Seq<u8>) -> bool
    decreases t.len() - i,
{
    if i < 0 || i >= t.len() {
        out == Seq::<u8>::empty()
    } else if t[i] == BACKSLASH {
        if i + 1 >= t.len() {
            out == seq![BACKSLASH]
        } else {
            let piece = if t[i + 1] == DOLLAR || t[i + 1] == BACKSLASH {
                seq![t[i + 1]]
            } else if t[i + 1] == NEWLINE {
                Seq::empty()
            } else {
                seq![BACKSLASH, t[i + 1]]
            };
            out.len() >= piece.len() && out.take(piece.len() as int) == piece && heredoc_fits(ctx, t, i + 2, out.skip(piece.len() as int))
        }
    } else if t[i] == DOLLAR {
        if i + 1 < t.len() && crate::chars::spec_is_name_start(t[i + 1]) {
            let e = name_end(t, i + 1);
            if i < e <= t.len() {
                exists|v: Seq<u8>| #[trigger] param_answered(ctx, t.subrange(i + 1, e), Ok::<Seq<u8>, Seq<u8>>(v)) && out.len()
                    >= v.len() && out.take(v.len() as int) == v && heredoc_fits(ctx, t, e, out.skip(v.len() as int))
            } else {
                false
            }
        } else if i + 1 < t.len() && t[i + 1] == AT {
            exists|ps: Vec<Vec<u8>>| #[trigger] call_ensures(C::positional_params, (ctx,), ps) && {
                let v = spec_join(views(ps@), seq![SPACE]);
                out.len() >= v.len() && out.take(v.len() as int) == v && heredoc_fits(ctx, t, i + 2, out.skip(v.len() as int))
            }
        } else {
            out.len() >= 1 && out[0] == DOLLAR && heredoc_fits(ctx, t, i + 1, out.skip(1))
        }
    } else {
        out.len() >= 1 && out[0] == t[i] && heredoc_fits(ctx, t, i + 1, out.skip(1))
    }
}

/// The run of name bytes is the same in a suffix.
proof fn lemma_name_end_shift(t: Seq<u8>, i: int, j: int)
    requires
        0 <= i <= j,
        i <= t.len(),
    ensures
        name_end(t.subrange(i, t.len() as int), j - i) == name_end(t, j) - i,
    decreases t.len() - j,
{
    if j < t.len() {
        assert(t.subrange(i, t.len() as int)[j - i] == t[j]);
        if spec_is_name_char(t[j]) {
            lemma_name_end_shift(t, i, j + 1);
        }
    }
}

/// The bytes of a run of name bytes are name bytes.
proof fn lemma_name_chars(t: Seq<u8>, j: int, k: int)
    requires
        0 <= j <= k < name_end(t, j),
    ensures
        spec_is_name_char(t[k]),
    decreases k - j,
{
    if j < t.len() && spec_is_name_char(t[j]) {
        if j < k {
            lemma_name_chars(t, j + 1, k);
        }
    }
}

proof fn lemma_name_end_bounds(t: Seq<u8>, j: int)
    requires
        0 <= j <= t.len(),
    ensures
        j <= name_end(t, j) <= t.len(),
    decreases t.len() - j,
{
    if j < t.len() && spec_is_name_char(t[j]) {
        lemma_name_end_bounds(t, j + 1);
    }
}

/// Whether `t` holds no `$` and no backquote.
pub open spec fn no_substitutions(t: Seq<u8>) -> bool {
    forall|i: int| 0 <= i < t.len() ==> #[trigger] t[i] != DOLLAR && t[i] != BACKQUOTE
}

/// Expands the body of an unquoted here-document: parameter, command and
/// arithmetic expansion, and backslashes before `$`, `` ` ``, `\` and
/// newline; no field splitting or pathname expansion.
pub fn expand_here_document<C: Context>(ctx: &mut C, text: &[u8], body_line: usize) -> (r: Result<Vec<u8>, ExpandError>)
    ensures
        no_substitutions(text@) ==> (r matches Ok(v) && v@ == heredoc_text(text@, 0)),
        heredoc_names_only(text@) ==> (r matches Ok(out) ==> heredoc_fits(&*old(ctx), text@, 0, out@)),
        heredoc_names_only(text@) && crate::params::nounset_off(&*old(ctx)) ==> r is Ok,
{
    let ghost c0 = *ctx;
    let ghost t = text@;
    ctx.set_lineno(body_line);
    assert(crate::params::answers_alike(&*ctx, &c0));
    let mut result: Vec<u8> = Vec::new();
    let mut index: usize = 0;
    proof {
        assert forall|rest: Seq<u8>| heredoc_fits(&c0, t, 0, rest) implies heredoc_fits(&c0, t, 0, result@ + rest) by {
            assert(result@ + rest =~= rest);
        }
    }
    while index < text.len()
        invariant
            index <= text@.len(),
            t == text@,
            c0 == *old(ctx),
            no_substitutions(text@) ==> heredoc_text(text@, 0) == result@ + heredoc_text(text@, index as int),
            heredoc_names_only(t) ==> crate::params::answers_alike(&*ctx, &c0),
            heredoc_names_only(t) ==> forall|rest: Seq<u8>| #[trigger] heredoc_fits(&c0, t, index as int, rest) ==> heredoc_fits(
                &c0,
                t,
                0,
                result@ + rest,
            ),
        decreases text@.len() - index,
    {
        let c = text[index];
        let ghost before = result@;
        let ghost gi = index as int;
        let ghost cb = *ctx;
        if c == BACKSLASH {
            if 1 >= text.len() - index {
                result.push(BACKSLASH);
                assert(heredoc_text(text@, gi + 1) =~= Seq::<u8>::empty());
                index += 1;
                assert(before + seq![BACKSLASH] + Seq::<u8>::empty() =~= result@ + heredoc_text(text@, index as int));
                proof {
                    if heredoc_names_only(t) {
                        assert forall|rest: Seq<u8>| #[trigger] heredoc_fits(&c0, t, index as int, rest) implies heredoc_fits(
                            &c0,
                            t,
                            0,
                            result@ + rest,
                        ) by {
                            assert(rest =~= Seq::<u8>::empty());
                            assert(heredoc_fits(&c0, t, gi, seq![BACKSLASH] + rest));
                            assert(before + (seq![BACKSLASH] + rest) =~= result@ + rest);
                        }
                    }
                }
            } else {
                let next = text[index + 1];
                if next == DOLLAR || next == BACKSLASH {
                    result.push(next);
                } else if next == NEWLINE {
                    ctx.inc_lineno();
                    proof {
                        if heredoc_names_only(t) {
                            crate::params::lemma_alike_trans(&*ctx, &cb, &c0);
                        }
                    }
                } else {
                    result.push(BACKSLASH);
                    result.push(next);
                }
                index += 2;
                proof {
                    if no_substitutions(text@) {
                        let rest = heredoc_text(text@, index as int);
                        if next == DOLLAR || next == BACKSLASH {
                            assert(before + (seq![next] + rest) =~= result@ + rest);
                        } else if next == NEWLINE {
                        } else {
                            assert(before + (seq![BACKSLASH, next] + rest) =~= result@ + rest);
                        }
                    }
                    if heredoc_names_only(t) {
                        let piece = if next == DOLLAR || next == BACKSLASH {
                            seq![next]
                        } else if next == NEWLINE {
                            Seq::<u8>::empty()
                        } else {
                            seq![BACKSLASH, next]
                        };
                        assert(result@ =~= before + piece);
                        assert forall|rest: Seq<u8>| #[trigger] heredoc_fits(&c0, t, index as int, rest) implies heredoc_fits(
                            &c0,
                            t,
                            0,
                            result@ + rest,
                        ) by {
                            let x = piece + rest;
                            assert(x.take(piece.len() as int) =~= piece);
                            assert(x.skip(piece.len() as int) =~= rest);
                            assert(heredoc_fits(&c0, t, gi, x));
                            assert(before + x =~= result@ + rest);
                        }
                    }
                }
            }
        } else if c == DOLLAR {
            let sub = vstd::slice::slice_subrange(text, index, text.len());
            let step = expand_dollar(ctx, sub, false);
            let (expansion, consumed) = match step {
                Ok(pair) => pair,
                Err(e) => {
                    proof {
                        if heredoc_names_only(t) && crate::params::nounset_off(&c0) {
                            assert(sub@ =~= t.subrange(gi, t.len() as int));
                            assert(gi + 1 < t.len() && (crate::chars::spec_is_name_start(t[gi + 1]) || t[gi + 1] == AT));
                            assert(sub@[1] == t[gi + 1]);
                            assert(crate::chars::spec_is_name_start(t[gi + 1]));
                            let nm = sub@.subrange(1, name_end(sub@, 1));
                            assert(param_answered(&cb, nm, Err::<Seq<u8>, Seq<u8>>(e.message@)));
                            assert forall|b: bool| #[trigger] call_ensures(C::nounset_enabled, (&cb,), b) implies !b by {
                                assert(call_ensures(C::nounset_enabled, (&c0,), b));
                            }
                            crate::params::lemma_param_never_fails(&cb, nm, e.message@);
                        }
                    }
                    return Err(e);
                },
            };
            let ghost ex = expansion;
            let mut tt = crate::segments::flatten_expansion(expansion);
            let ghost piece = tt@;
            result.append(&mut tt);
            index += consumed;
            proof {
                if heredoc_names_only(t) {
                    assert(sub@ =~= t.subrange(gi, t.len() as int));
                    assert(result@ =~= before + piece);
                    if gi + 1 < t.len() && crate::chars::spec_is_name_start(t[gi + 1]) {
                        lemma_name_end_shift(t, gi, gi + 1);
                        lemma_name_end_bounds(t, gi + 1);
                        let e = name_end(t, gi + 1);
                        assert(sub@.subrange(1, name_end(sub@, 1)) =~= t.subrange(gi + 1, e));
                        assert(index == e);
                        assert(piece == ex->One_0@);
                        crate::params::lemma_answers_alike(&cb, &c0, t.subrange(gi + 1, e), Ok::<Seq<u8>, Seq<u8>>(piece), None);
                        assert forall|rest: Seq<u8>| #[trigger] heredoc_fits(&c0, t, index as int, rest) implies heredoc_fits(
                            &c0,
                            t,
                            0,
                            result@ + rest,
                        ) by {
                            let x = piece + rest;
                            assert(x.take(piece.len() as int) =~= piece);
                            assert(x.skip(piece.len() as int) =~= rest);
                            assert(param_answered(&c0, t.subrange(gi + 1, e), Ok::<Seq<u8>, Seq<u8>>(piece)));
                            assert(heredoc_fits(&c0, t, gi, x));
                            assert(before + x =~= result@ + rest);
                        }
                    } else if gi + 1 < t.len() && t[gi + 1] == AT {
                        assert(sub@[1] == AT);
                        let ps = choose|ps: Vec<Vec<u8>>| #[trigger] call_ensures(C::positional_params, (&cb,), ps) && ex->One_0@
                            == spec_join(views(ps@), seq![SPACE]);
                        assert(call_ensures(C::positional_params, (&c0,), ps));
                        assert(piece == spec_join(views(ps@), seq![SPACE]));
                        assert(index == gi + 2);
                        assert forall|rest: Seq<u8>| #[trigger] heredoc_fits(&c0, t, index as int, rest) implies heredoc_fits(
                            &c0,
                            t,
                            0,
                            result@ + rest,
                        ) by {
                            let x = piece + rest;
                            assert(x.take(piece.len() as int) =~= piece);
                            assert(x.skip(piece.len() as int) =~= rest);
                            assert(heredoc_fits(&c0, t, gi, x));
                            assert(before + x =~= result@ + rest);
                        }
                    } else {
                        assert(!(sub@.len() >= 2 && starts_expansion(sub@[1], false)));
                        assert(piece == seq![DOLLAR]);
                        assert forall|rest: Seq<u8>| #[trigger] heredoc_fits(&c0, t, index as int, rest) implies heredoc_fits(
                            &c0,
                            t,
                            0,
                            result@ + rest,
                        ) by {
                            let x = piece + rest;
                            assert(x.skip(1) =~= rest);
                            assert(heredoc_fits(&c0, t, gi, x));
                            assert(before + x =~= result@ + rest);
                        }
                    }
                }
            }
        } else if c == BACKQUOTE {
            index += 1;
            let command = scan_backtick_command(text, &mut index, true)?;
            let output = ctx.command_substitute(command.as_slice())?;
            result.extend_from_slice(trim_trailing_newlines(output.as_slice()));
        } else {
            if c == NEWLINE {
                ctx.inc_lineno();
                proof {
                    if heredoc_names_only(t) {
                        crate::params::lemma_alike_trans(&*ctx, &cb, &c0);
                    }
                }
            }
            result.push(c);
            index += 1;
            proof {
                if no_substitutions(text@) {
                    let rest = heredoc_text(text@, index as int);
                    assert(before + (seq![c] + rest) =~= result@ + rest);
                }
                if heredoc_names_only(t) {
                    assert forall|rest: Seq<u8>| #[trigger] heredoc_fits(&c0, t, index as int, rest) implies heredoc_fits(
                        &c0,
                        t,
                        0,
                        result@ + rest,
                    ) by {
                        let x = seq![c] + rest;
                        assert(x.skip(1) =~= rest);
                        assert(heredoc_fits(&c0, t, gi, x));
                        assert(before + x =~= result@ + rest);
                    }
                }
            }
        }
    }
    proof {
        if no_substitutions(text@) {
            assert(result@ + Seq::<u8>::empty() =~= result@);
        }
        if heredoc_names_only(t) {
            assert(heredoc_fits(&c0, t, index as int, Seq::<u8>::empty()));
            assert(result@ + Seq::<u8>::empty() =~= result@);
        }
    }
    Ok(result)
}

// ---------------------------------------------------------------------
// Whole words
// ---------------------------------------------------------------------

/// The fields of an unquoted plain word: none for an empty word without
/// quotes, an empty field for one with them, else its text.
pub open spec fn spec_plain_fields(segs: Seq<SegView>, quoted: bool) -> Seq<Seq<u8>> {
    if segs.len() == 0 {
        if quoted { seq![Seq::<u8>::empty()] } else { Seq::empty() }
    } else {
        seq![flatten(segs)]
    }
}

/// A plain word whose quotes close and whose unquoted text holds no
/// active glob character: expansion yields its unquoted text exactly.
pub open spec fn is_simple_word(raw: Seq<u8>) -> bool {
    &&& is_plain_word(raw)
    &&& spec_unquote(raw) matches Some((segs, _))
    &&& !crate::segments::any_unquoted_glob(segs)
}

/// The fields of a simple word.
pub open spec fn spec_word_fields(raw: Seq<u8>) -> Seq<Seq<u8>> {
    match spec_unquote(raw) {
        Some((segs, q)) => spec_plain_fields(segs, q),
        None => Seq::empty(),
    }
}

/// The fields of simple words, in order.
pub open spec fn spec_words_fields(words: Seq<crate::context::Word>) -> Seq<Seq<u8>>
    decreases words.len(),
{
    if words.len() == 0 {
        Seq::empty()
    } else {
        spec_words_fields(words.drop_last()) + spec_word_fields(words.last().raw@)
    }
}

/// What `expand_word` promises of the fields it gives for the word `raw`.
pub open spec fn word_fields_fit(raw: Seq<u8>, fields: Seq<Seq<u8>>) -> bool {
    &&& is_plain_word(raw) ==> spec_unquote(raw) is Some
    &&& is_simple_word(raw) ==> fields == spec_word_fields(raw)
}

/// What `expand_word` promises of an error it gives for the word `raw`:
/// a simple word never fails, and a plain word fails only on a quote left
/// open.
pub open spec fn word_error_fits(raw: Seq<u8>, message: Seq<u8>) -> bool {
    &&& !is_simple_word(raw)
    &&& is_plain_word(raw) ==> spec_unquote(raw) is None && message == plain_error(raw, 0)
}

/// The fields of several words, one list after another.
pub open spec fn concat_fields(parts: Seq<Seq<Seq<u8>>>) -> Seq<Seq<u8>>
    decreases parts.len(),
{
    if parts.len() == 0 {
        Seq::empty()
    } else {
        concat_fields(parts.drop_last()) + parts.last()
    }
}

/// The bytes that split fields, given the value of `IFS`: the value, or
/// space, tab and newline where it is unset.
pub open spec fn spec_ifs_default(ifs: Option<Seq<u8>>) -> Seq<u8> {
    match ifs {
        Some(v) => v,
        None => " \t\n".spec_bytes(),
    }
}

/// The texts of fields.
pub open spec fn field_texts(f: Seq<(Seq<u8>, bool)>) -> Seq<Seq<u8>> {
    f.map_values(|p: (Seq<u8>, bool)| p.0)
}

/// Whether no field holds a glob character that quoting left active.
pub open spec fn no_glob_fields(f: Seq<(Seq<u8>, bool)>) -> bool {
    forall|k: int| 0 <= k < f.len() ==> !(#[trigger] f[k]).1
}

/// The fields that the value `v` of an unquoted `$name` splits into at the
/// bytes of `IFS` (whose value is `ifs`).
pub open spec fn name_word_fields(v: Seq<u8>, ifs: Option<Seq<u8>>) -> Seq<(Seq<u8>, bool)> {
    crate::segments::spec_split_fields(spec_push_segment(Seq::empty(), v, QuoteState::Expanded), spec_ifs_default(ifs))
}

/// Whether `out` are the fields of an unquoted expansion with the value
/// `v`, split at the `IFS` that the shell `ctx` answers: none for an empty
/// value, else the split fields where none holds a glob character.
pub open spec fn value_fields_fit<C: Context>(ctx: C, v: Seq<u8>, out: Seq<Seq<u8>>) -> bool {
    &&& v.len() == 0 ==> out.len() == 0
    &&& v.len() > 0 ==> exists|ifs: Option<Seq<u8>>| #[trigger] var_answered(&ctx, "IFS".spec_bytes(), ifs) && (no_glob_fields(
        name_word_fields(v, ifs),
    ) ==> out == field_texts(name_word_fields(v, ifs)))
}

/// Whether `out` is the text of an unquoted expansion with the value `v`
/// where no fields are made: the fields split at the `IFS` that the shell
/// `ctx` answers, joined by spaces.
pub open spec fn value_text_fits<C: Context>(ctx: C, v: Seq<u8>, out: Seq<u8>) -> bool {
    &&& v.len() == 0 ==> out.len() == 0
    &&& v.len() > 0 ==> exists|ifs: Option<Seq<u8>>| #[trigger] var_answered(&ctx, "IFS".spec_bytes(), ifs) && out
        == spec_join(field_texts(name_word_fields(v, ifs)), seq![SPACE])
}

/// Whether the segments `segs` hold text that came from an unquoted
/// expansion.
pub open spec fn has_expanded_view(segs: Seq<SegView>) -> bool {
    exists|j: int| 0 <= j < segs.len() && (#[trigger] segs[j] matches SegView::Text(_, q) && q == QuoteState::Expanded)
}

/// Whether `fv` are the fields that the segments `segs` make in the shell
/// `ctx`: split at the `IFS` it answers where an unquoted expansion
/// contributed, else one field of the whole text.
pub open spec fn segs_fields<C: Context>(ctx: C, segs: Seq<SegView>, fv: Seq<(Seq<u8>, bool)>) -> bool {
    if has_expanded_view(segs) {
        exists|ifs: Option<Seq<u8>>| #[trigger] var_answered(&ctx, "IFS".spec_bytes(), ifs) && fv
            == crate::segments::spec_split_fields(segs, spec_ifs_default(ifs))
    } else {
        fv == seq![(flatten(segs), crate::segments::any_unquoted_glob(segs))]
    }
}

/// Whether `out` is the text of a word whose expansion gave the segments
/// `segs`, where no fields are made: the text itself, or, where an
/// unquoted expansion contributed, the fields split at the `IFS` that the
/// shell `ctx` answers, joined by spaces.
pub open spec fn segs_text_fits<C: Context>(ctx: C, segs: Seq<SegView>, out: Seq<u8>) -> bool {
    if has_expanded_view(segs) {
        exists|ifs: Option<Seq<u8>>| #[trigger] var_answered(&ctx, "IFS".spec_bytes(), ifs) && out == spec_join(
            field_texts(crate::segments::spec_split_fields(segs, spec_ifs_default(ifs))),
            seq![SPACE],
        )
    } else {
        out == flatten(segs)
    }
}

/// Whether `out` are the fields of a word whose expansion gave the
/// segments `segs`: none where there are none, else the fields they make,
/// as they stand where no field holds an active glob character.
pub open spec fn segs_fields_fit<C: Context>(ctx: C, segs: Seq<SegView>, out: Seq<Seq<u8>>) -> bool {
    &&& segs.len() == 0 ==> out.len() == 0
    &&& segs.len() > 0 ==> exists|fv: Seq<(Seq<u8>, bool)>| #[trigger] segs_fields(ctx, segs, fv) && (no_glob_fields(fv)
        ==> out == field_texts(fv))
}

/// What `expand_word` promises of the word `raw` and its result `r`, the
/// shell going from the state `before` to the state `after`.
pub open spec fn word_post<C: Context>(before: C, after: C, raw: Seq<u8>, r: Result<Vec<Vec<u8>>, ExpandError>) -> bool {
    &&& (is_plain_word(raw) && spec_unquote(raw) is None ==> r is Err)
    &&& (is_simple_word(raw) ==> (r matches Ok(v) && views(v@) == spec_word_fields(raw)))
    &&& (r matches Ok(v) ==> word_fields_fit(raw, views(v@)))
    &&& (r matches Err(e) ==> word_error_fits(raw, e.message@))
    &&& (is_plain_word(raw) ==> match spec_unquote(raw) {
            Some((segs, q)) => r matches Ok(v) && (views(v@) == spec_plain_fields(segs, q) || (
            crate::segments::any_unquoted_glob(segs) && call_ensures(C::pathname_expansion_enabled, (&after,), true)
                && crate::pathname::glob_expansion_fits(&after, flatten(segs), views(v@)))),
            None => r matches Err(e) && e.message@ == plain_error(raw, 0),
        })
    &&& (is_name_word(raw) ==> match r {
            Err(e) => param_answered(&before, raw.subrange(1, raw.len() as int), Err::<Seq<u8>, Seq<u8>>(
                e.message@,
            )),
            Ok(out) => exists|v: Seq<u8>| #[trigger] param_answered(
                &before,
                raw.subrange(1, raw.len() as int),
                Ok::<Seq<u8>, Seq<u8>>(v),
            ) && (v.len() == 0 ==> out@.len() == 0) && (v.len() > 0 ==> exists|ifs: Option<Seq<u8>>| #[trigger] var_answered(
                &before,
                "IFS".spec_bytes(),
                ifs,
            ) && (no_glob_fields(name_word_fields(v, ifs)) ==> views(out@) == field_texts(name_word_fields(v, ifs)))),
        })
    &&& (is_braced_word(raw) ==> match r {
            Err(e) => braced_answered(&before, raw.subrange(2, raw.len() - 1), Err::<Seq<u8>, Seq<u8>>(e.message@)),
            Ok(out) => exists|v: Seq<u8>| #[trigger] braced_answered(
                &before,
                raw.subrange(2, raw.len() - 1),
                Ok::<Seq<u8>, Seq<u8>>(v),
            ) && (v == seq![AT] || value_fields_fit(after, v, views(out@))),
        })
    &&& (forall|q: int| #[trigger] is_dq_word(raw, q) ==> exists|x: Result<Seq<SegView>, Seq<u8>>| #[trigger] dq_fits(
            &before,
            raw,
            q + 1,
            Seq::empty(),
            x,
        ) && match x {
            Err(m) => r matches Err(e) && e.message@ == m,
            Ok(segs) => r matches Ok(out) && views(out@) == (if body_has_at(raw, q) {
                crate::segments::spec_at_fields(segs, q > 0)
            } else {
                seq![flatten(segs)]
            }),
        })
    &&& (is_names_word(raw) ==> exists|x: Result<Seq<SegView>, Seq<u8>>| #[trigger] names_fits(&before, raw, 0, Seq::empty(), x)
            && match x {
            Err(m) => r matches Err(e) && e.message@ == m,
            Ok(segs) => r matches Ok(out) && segs_fields_fit(after, segs, views(out@)),
        })
    &&& (is_quoted_special_word(raw, AT) || is_quoted_special_word(raw, STAR) ==> (r matches Ok(out)
            && quoted_special_fields(&before, raw[2] == STAR, views(out@))))
    &&& (forall|p: int| #[trigger] is_at_sandwich(raw, p) ==> (r matches Ok(out) && exists|ps: Vec<Vec<u8>>|
            #[trigger] call_ensures(C::positional_params, (&before,), ps) && views(out@) == crate::segments::spec_at_fields(
            at_sandwich_segments(raw.subrange(1, p), ps, raw.subrange(p + 2, raw.len() - 1)),
            false,
        )))
    &&& (is_tilde_word(raw) ==> r is Ok && exists|h: Option<Seq<u8>>| #[trigger] var_answered(
            &before,
            "HOME".spec_bytes(),
            h,
        ) && (!crate::segments::has_glob_byte(raw.subrange(1, raw.len() as int)) ==> (r matches Ok(out)
            && views(out@) == seq![tilde_text(h) + raw.subrange(1, raw.len() as int)])))
}

/// Expands a word into fields: expansion, field splitting of what
/// unquoted expansions produced, and pathname expansion of unquoted glob
/// patterns (a pattern that matches nothing stays as it is).
#[verifier::spinoff_prover]
pub fn expand_word<C: Context>(ctx: &mut C, word: &crate::context::Word) -> (r: Result<Vec<Vec<u8>>, ExpandError>)
    ensures
        word_post(*old(ctx), *final(ctx), word.raw@, r),
{
    let ghost c0 = *ctx;
    let ghost name = word.raw@.subrange(1, word.raw@.len() as int);
    ctx.set_lineno(word.line);
    let ghost c1 = *ctx;
    assert(crate::params::answers_alike(&c1, &c0));
    let expanded = match expand_raw(ctx, word.raw.as_slice()) {
        Ok(x) => x,
        Err(e) => {
            proof {
                if is_name_word(word.raw@) {
                    crate::params::lemma_answers_alike(&c1, &c0, name, Err::<Seq<u8>, Seq<u8>>(e.message@), None);
                }
                if is_braced_word(word.raw@) {
                    lemma_braced_alike(&c1, &c0, word.raw@.subrange(2, word.raw@.len() - 1), Err::<Seq<u8>, Seq<u8>>(e.message@));
                }
                if is_names_word(word.raw@) {
                    lemma_names_alike(&c1, &c0, word.raw@, 0, Seq::empty(), Err::<Seq<SegView>, Seq<u8>>(e.message@));
                }
                assert forall|q: int| #[trigger] is_dq_word(word.raw@, q) implies dq_fits(
                    &c0,
                    word.raw@,
                    q + 1,
                    Seq::empty(),
                    Err::<Seq<SegView>, Seq<u8>>(e.message@),
                ) by {
                    lemma_dq_alike(&c1, &c0, word.raw@, q + 1, Seq::empty(), Err::<Seq<SegView>, Seq<u8>>(e.message@));
                }
            }
            return Err(e);
        },
    };
    let ghost v0: Seq<u8> = if is_name_word(word.raw@) {
        choose|v: Seq<u8>| #[trigger] param_answered(&c1, name, Ok::<Seq<u8>, Seq<u8>>(v)) && segs_view(expanded.segments@)
            == spec_push_segment(Seq::empty(), v, QuoteState::Expanded)
    } else {
        Seq::empty()
    };
    let ghost c2 = *ctx;
    let ghost bexpr = word.raw@.subrange(2, word.raw@.len() - 1);
    let ghost bv: Seq<u8> = if is_braced_word(word.raw@) {
        choose|v: Seq<u8>| #[trigger] braced_answered(&c1, bexpr, Ok::<Seq<u8>, Seq<u8>>(v)) && (expanded.has_at_expansion
            ==> v == seq![AT]) && (!expanded.has_at_expansion ==> segs_view(expanded.segments@) == spec_push_segment(
            Seq::empty(),
            v,
            QuoteState::Expanded,
        ))
    } else {
        Seq::empty()
    };
    let ghost nb = is_braced_word(word.raw@) && !expanded.has_at_expansion;
    let ghost nw = is_names_word(word.raw@);
    let ghost dq = choose|q: int| is_dq_word(word.raw@, q);
    let ghost ndq = is_dq_word(word.raw@, dq) && !body_has_at(word.raw@, dq);
    proof {
        if is_dq_word(word.raw@, dq) {
            lemma_dq_alike(&c1, &c0, word.raw@, dq + 1, Seq::empty(), Ok::<Seq<SegView>, Seq<u8>>(segs_view(expanded.segments@)));
            assert forall|q: int| #[trigger] is_dq_word(word.raw@, q) implies q == dq by {
                if q < dq {
                    assert(word.raw@[q] == SQUOTE);
                } else if dq < q {
                    assert(word.raw@[dq] == SQUOTE);
                }
            }
        }
        if ndq {
            assert forall|k: int| dq + 1 <= k < word.raw@.len() - 1 && #[trigger] word.raw@[k] == DOLLAR implies k + 1
                < word.raw@.len() && word.raw@[k + 1] != AT by {}
            lemma_dq_quoted(&c1, word.raw@, dq + 1, Seq::empty(), segs_view(expanded.segments@));
        }
        if nw {
            lemma_names_alike(&c1, &c0, word.raw@, 0, Seq::empty(), Ok::<Seq<SegView>, Seq<u8>>(segs_view(expanded.segments@)));
        }
        if is_braced_word(word.raw@) {
            lemma_braced_alike(&c1, &c0, bexpr, Ok::<Seq<u8>, Seq<u8>>(bv));
        }
    }
    let ghost tail = word.raw@.subrange(1, word.raw@.len() as int);
    let ghost h0: Option<Seq<u8>> = if is_tilde_word(word.raw@) {
        choose|h: Option<Seq<u8>>| #[trigger] var_answered(&c1, "HOME".spec_bytes(), h) && segs_view(expanded.segments@)
            == spec_push_segment(tilde_segments(h), tail, QuoteState::Literal)
    } else {
        None
    };
    proof {
        if is_tilde_word(word.raw@) {
            crate::params::lemma_answers_alike(&c1, &c0, "HOME".spec_bytes(), Ok::<Seq<u8>, Seq<u8>>(Seq::empty()), h0);
            lemma_tilde_word_segments(h0, tail);
        }
    }
    let ghost qs = is_quoted_special_word(word.raw@, AT) || is_quoted_special_word(word.raw@, STAR);
    let ghost star = word.raw@.len() > 2 && word.raw@[2] == STAR;
    proof {
        if is_name_word(word.raw@) {
            crate::params::lemma_answers_alike(&c1, &c0, name, Ok::<Seq<u8>, Seq<u8>>(v0), None);
        }
        if qs {
            lemma_quoted_special_alike(&c1, &c0, star, segs_view(expanded.segments@));
        }
    }
    proof {
        if is_plain_word(word.raw@) {
            lemma_plain_run_source_texts(word.raw@, 0, Seq::empty(), false);
        }
    }
    if expanded.has_at_expansion {
        let at = crate::segments::expand_word_with_at_fields(&expanded, expanded.had_quoted_null_outside_at);
        proof {
            assert forall|p: int| #[trigger] is_at_sandwich(word.raw@, p) implies (at matches Ok(out) && exists|ps: Vec<Vec<u8>>|
                #[trigger] call_ensures(C::positional_params, (&c0,), ps) && views(out@) == crate::segments::spec_at_fields(
                at_sandwich_segments(word.raw@.subrange(1, p), ps, word.raw@.subrange(p + 2, word.raw@.len() - 1)),
                false,
            )) by {
                let ps = choose|ps: Vec<Vec<u8>>| #[trigger] call_ensures(C::positional_params, (&c1,), ps) && segs_view(
                    expanded.segments@,
                ) == at_sandwich_segments(word.raw@.subrange(1, p), ps, word.raw@.subrange(p + 2, word.raw@.len() - 1));
                assert(call_ensures(C::positional_params, (&c0,), ps));
            }
            assert forall|q: int| #[trigger] is_dq_word(word.raw@, q) implies exists|x: Result<Seq<SegView>, Seq<u8>>|
                #[trigger] dq_fits(&c0, word.raw@, q + 1, Seq::empty(), x) && match x {
                Err(m) => at matches Err(e) && e.message@ == m,
                Ok(segs) => at matches Ok(out) && views(out@) == (if body_has_at(word.raw@, q) {
                    crate::segments::spec_at_fields(segs, q > 0)
                } else {
                    seq![flatten(segs)]
                }),
            } by {
                lemma_dq_alike(&c1, &c0, word.raw@, q + 1, Seq::empty(), Ok::<Seq<SegView>, Seq<u8>>(segs_view(expanded.segments@)));
            }
            if qs {
                let ps = choose|ps: Vec<Vec<u8>>| #[trigger] call_ensures(C::positional_params, (&c0,), ps)
                    && segs_view(expanded.segments@) == spec_apply_expansion(Seq::empty(), Expansion::AtFields(ps), true);
                assert(quoted_special_fields(&c0, false, views(at->Ok_0@)));
            }
        }
        return at;
    }
    let segments = expanded.segments.as_slice();
    if segments.len() == 0 {
        let mut v: Vec<Vec<u8>> = Vec::new();
        if expanded.had_quoted_content {
            v.push(Vec::new());
        }
        assert(is_plain_word(word.raw@) ==> views(v@) =~= spec_word_fields(word.raw@));
        proof {
            if is_name_word(word.raw@) {
                assert(v0.len() == 0);
            }
            if nb {
                assert(bv.len() == 0);
                assert(value_fields_fit(*ctx, bv, views(v@)));
            }
            if nw {
                assert(segs_fields_fit(*ctx, segs_view(expanded.segments@), views(v@)));
            }
            if ndq {
                assert(views(v@) =~= seq![flatten(segs_view(expanded.segments@))]);
            }
            if qs {
                let (ifs, ps) = choose|ifs: Option<Seq<u8>>, ps: Vec<Vec<u8>>| #[trigger] var_answered(&c0, "IFS".spec_bytes(), ifs)
                    && #[trigger] call_ensures(C::positional_params, (&c0,), ps) && segs_view(expanded.segments@)
                    == spec_push_segment(Seq::empty(), spec_join(views(ps@), spec_star_separator(ifs)), QuoteState::Quoted);
                let j = spec_join(views(ps@), spec_star_separator(ifs));
                assert(segs_view(expanded.segments@).len() == 0);
                if j.len() > 0 {
                    assert(spec_push_segment(Seq::empty(), j, QuoteState::Quoted).len() == 1);
                }
                assert(j =~= Seq::<u8>::empty());
                assert(views(v@) =~= seq![j]);
                assert(quoted_special_fields(&c0, true, views(v@)));
            }
        }
        return Ok(v);
    }
    let has_expanded = has_expanded_segment(segments);
    proof {
        if is_plain_word(word.raw@) && has_expanded {
            let j = choose|j: int| 0 <= j < segments@.len() && (#[trigger] segs_view(segments@)[j] matches SegView::Text(_, q)
                && q == QuoteState::Expanded);
            assert(segs_view(segments@)[j] matches SegView::Text(_, q) && q != QuoteState::Expanded);
        }
    }
    proof {
        if is_name_word(word.raw@) && !has_expanded {
            assert(segs_view(segments@)[0] matches SegView::Text(_, q) && q == QuoteState::Expanded);
        }
        if nb && !has_expanded {
            assert(segs_view(segments@)[0] matches SegView::Text(_, q) && q == QuoteState::Expanded);
        }
    }
    let ghost mut iv: Option<Seq<u8>> = None;
    let fields: Vec<crate::segments::Field> = if has_expanded {
        let ifs_name = crate::chars::lit("IFS");
        let ifs_slice = ifs_name.as_slice();
        let ifs_val = ctx.env_var(ifs_slice);
        assert(call_ensures(C::env_var, (&*ctx, ifs_slice), ifs_val));
        proof {
            iv = opt_view(ifs_val);
            if is_name_word(word.raw@) {
                assert(var_answered(&c1, "IFS".spec_bytes(), iv));
                crate::params::lemma_answers_alike(&c1, &c0, "IFS".spec_bytes(), Ok::<Seq<u8>, Seq<u8>>(v0), iv);
            }
        }
        let ifs = ifs_or_default(ifs_val);
        assert(ifs@ == spec_ifs_default(iv));
        crate::segments::split_fields_from_segments(segments, ifs.as_slice())
    } else {
        let mut v: Vec<crate::segments::Field> = Vec::new();
        v.push(crate::segments::Field {
            text: flatten_segments(segments),
            has_unquoted_glob: crate::segments::has_unquoted_glob_segment(segments),
        });
        v
    };
    let ghost fv = crate::segments::fields_view(fields@);
    proof {
        if is_name_word(word.raw@) {
            assert(fv == name_word_fields(v0, iv));
        }
        if nb {
            assert(fv == name_word_fields(bv, iv));
            assert(var_answered(&c2, "IFS".spec_bytes(), iv));
        }
        if nw {
            if has_expanded {
                assert(has_expanded_view(segs_view(segments@)));
                assert(var_answered(&c2, "IFS".spec_bytes(), iv));
                assert(fv == crate::segments::spec_split_fields(segs_view(segments@), spec_ifs_default(iv)));
            } else {
                assert(!has_expanded_view(segs_view(segments@)));
                assert(fields@.len() == 1);
                assert(fv =~= seq![(flatten(segs_view(segments@)), crate::segments::any_unquoted_glob(segs_view(segments@)))]);
            }
            assert(segs_fields(c2, segs_view(segments@), fv));
        }
    }
    let mut result: Vec<Vec<u8>> = Vec::new();
    let mut i: usize = 0;
    while i < fields.len()
        invariant
            i <= fields@.len(),
            fv == crate::segments::fields_view(fields@),
            no_glob_fields(fv) ==> views(result@) == field_texts(fv).take(i as int),
            is_simple_word(word.raw@) ==> fields@.len() == 1 && !fields@[0].has_unquoted_glob
                && fields@[0].text@ == flatten(segs_view(segments@)) && views(result@) == views(fields@.take(i as int).map_values(|f: crate::segments::Field| f.text)),
            is_plain_word(word.raw@) ==> fields@.len() == 1 && fields@[0].text@ == flatten(segs_view(segments@))
                && fields@[0].has_unquoted_glob == crate::segments::any_unquoted_glob(segs_view(segments@)) && (i == 0
                ==> result@.len() == 0) && (i == 1 ==> views(result@) == seq![flatten(segs_view(segments@))] || (
                fields@[0].has_unquoted_glob && call_ensures(C::pathname_expansion_enabled, (&*ctx,), true)
                && crate::pathname::glob_expansion_fits(&*ctx, flatten(segs_view(segments@)), views(result@)))),
        decreases fields@.len() - i,
    {
        let field = &fields[i];
        assert(fv[i as int].1 == field.has_unquoted_glob && fv[i as int].0 == field.text@);
        let globbing = field.has_unquoted_glob && {
            let on = ctx.pathname_expansion_enabled();
            assert(call_ensures(C::pathname_expansion_enabled, (&*ctx,), on));
            on
        };
        if globbing {
            let matches = crate::pathname::expand_pathname(ctx, field.text.as_slice());
            let ghost mv = views(matches@);
            let mut chosen = globbed_fields(field.text.as_slice(), matches);
            let ghost before = result@;
            let ghost cv = views(chosen@);
            result.append(&mut chosen);
            proof {
                if is_plain_word(word.raw@) {
                    assert(views(result@) =~= views(before) + cv);
                    assert(views(result@) =~= cv);
                    if mv.len() > 0 {
                        assert(crate::pathname::glob_expansion_fits(&*ctx, field.text@, views(result@)));
                    }
                }
            }
        } else {
            let ghost before = views(result@);
            result.push(vstd::slice::slice_to_vec(field.text.as_slice()));
            proof {
                if is_simple_word(word.raw@) {
                    assert(views(fields@.take(i + 1).map_values(|f: crate::segments::Field| f.text))
                        =~= views(fields@.take(i as int).map_values(|f: crate::segments::Field| f.text)).push(field.text@));
                    assert(views(result@) =~= before.push(field.text@));
                }
                if no_glob_fields(fv) {
                    assert(field_texts(fv).take(i + 1) =~= field_texts(fv).take(i as int).push(field.text@));
                    assert(views(result@) =~= before.push(field.text@));
                }
            }
        }
        i += 1;
    }
    proof {
        if is_simple_word(word.raw@) {
            assert(views(result@) =~= seq![flatten(segs_view(segments@))]);
        }
        if no_glob_fields(fv) {
            assert(field_texts(fv).take(fv.len() as int) =~= field_texts(fv));
        }
        if is_name_word(word.raw@) {
            assert(param_answered(&c0, name, Ok::<Seq<u8>, Seq<u8>>(v0)));
            assert(var_answered(&c0, "IFS".spec_bytes(), iv));
        }
        if ndq {
            assert(!has_expanded) by {
                if has_expanded {
                    let j = choose|j: int| 0 <= j < segments@.len() && (#[trigger] segs_view(segments@)[j] matches SegView::Text(_, q)
                        && q == QuoteState::Expanded);
                    assert(segs_view(segments@)[j] matches SegView::Text(_, q) && q == QuoteState::Quoted);
                }
            }
            assert(!crate::segments::any_unquoted_glob(segs_view(segments@))) by {
                if crate::segments::any_unquoted_glob(segs_view(segments@)) {
                    let j = choose|j: int| 0 <= j < segs_view(segments@).len() && #[trigger] crate::segments::seg_has_unquoted_glob(
                        segs_view(segments@)[j],
                    );
                    assert(segs_view(segments@)[j] matches SegView::Text(_, q) && q == QuoteState::Quoted);
                }
            }
            assert(fields@.len() == 1);
            assert(fv =~= seq![(flatten(segs_view(segments@)), false)]);
            assert(no_glob_fields(fv));
            assert(views(result@) =~= seq![flatten(segs_view(segments@))]);
        }
        if nw {
            assert(*ctx == c2);
            assert(segs_fields(*ctx, segs_view(segments@), fv));
            assert(segs_fields_fit(*ctx, segs_view(segments@), views(result@)));
        }
        if nb {
            assert(*ctx == c2);
            assert(value_fields_fit(*ctx, bv, views(result@)));
            assert(braced_answered(&c0, bexpr, Ok::<Seq<u8>, Seq<u8>>(bv)));
        }
        if is_tilde_word(word.raw@) {
            assert(var_answered(&c0, "HOME".spec_bytes(), h0));
            if !crate::segments::has_glob_byte(tail) {
                assert(!has_expanded) by {
                    if has_expanded {
                        let j = choose|j: int| 0 <= j < segments@.len() && (#[trigger] segs_view(segments@)[j] matches SegView::Text(_, q)
                            && q == QuoteState::Expanded);
                        assert(segs_view(segments@)[j] matches SegView::Text(_, q) && q != QuoteState::Expanded);
                    }
                }
                assert(fields@.len() == 1);
                assert(fv =~= seq![(tilde_text(h0) + tail, false)]);
                assert(no_glob_fields(fv));
                assert(views(result@) =~= seq![tilde_text(h0) + tail]);
            }
        }
        if qs {
            let (ifs, ps) = choose|ifs: Option<Seq<u8>>, ps: Vec<Vec<u8>>| #[trigger] var_answered(&c0, "IFS".spec_bytes(), ifs)
                && #[trigger] call_ensures(C::positional_params, (&c0,), ps) && segs_view(segments@)
                == spec_push_segment(Seq::empty(), spec_join(views(ps@), spec_star_separator(ifs)), QuoteState::Quoted);
            let j = spec_join(views(ps@), spec_star_separator(ifs));
            assert(segs_view(segments@) == seq![SegView::Text(j, QuoteState::Quoted)]);
            assert(!has_expanded);
            let sv = segs_view(segments@);
            assert(sv.drop_last() =~= Seq::<SegView>::empty());
            assert(flatten(sv.drop_last()) == flatten(Seq::<SegView>::empty()));
            assert(flatten(Seq::<SegView>::empty()) =~= Seq::<u8>::empty());
            assert(sv.last() == SegView::Text(j, QuoteState::Quoted));
            assert(Seq::<u8>::empty() + j =~= j);
            assert(flatten(sv) == j);
            assert(!crate::segments::any_unquoted_glob(sv)) by {
                if crate::segments::any_unquoted_glob(sv) {
                    let k = choose|k: int| 0 <= k < sv.len() && #[trigger] crate::segments::seg_has_unquoted_glob(sv[k]);
                    assert(sv[k] == SegView::Text(j, QuoteState::Quoted));
                }
            }
            assert(fields@.len() == 1);
            assert(fv =~= seq![(j, false)]);
            assert(no_glob_fields(fv));
            assert(views(result@) =~= seq![j]);
            assert(quoted_special_fields(&c0, true, views(result@)));
        }
    }
    Ok(result)
}

/// Expands each word into fields, in order.
pub fn expand_words<C: Context>(ctx: &mut C, words: &[crate::context::Word]) -> (r: Result<Vec<Vec<u8>>, ExpandError>)
    ensures
        (forall|k: int| 0 <= k < words@.len() ==> is_simple_word(#[trigger] words@[k].raw@)) ==> (r matches Ok(v)
            && views(v@) == spec_words_fields(words@)),
        r matches Ok(v) ==> exists|states: Seq<C>, outs: Seq<Vec<Vec<u8>>>| #[trigger] words_run(
            states,
            words@,
            outs,
            words@.len() as int,
        ) && states[0] == *old(ctx) && states.last() == *final(ctx) && views(v@) == concat_fields(out_views(outs)),
        r matches Err(_) ==> exists|states: Seq<C>, outs: Seq<Vec<Vec<u8>>>, k: int| #[trigger] words_run(states, words@, outs, k)
            && k < words@.len() && states[0] == *old(ctx) && word_post(states[k], *final(ctx), words@[k].raw@, r),
{
    let mut result: Vec<Vec<u8>> = Vec::new();
    let mut i: usize = 0;
    let ghost mut states: Seq<C> = seq![*ctx];
    let ghost mut outs: Seq<Vec<Vec<u8>>> = Seq::empty();
    while i < words.len()
        invariant
            i <= words@.len(),
            (forall|k: int| 0 <= k < words@.len() ==> is_simple_word(#[trigger] words@[k].raw@)) ==> views(result@)
                == spec_words_fields(words@.take(i as int)),
            words_run(states, words@, outs, i as int),
            states[0] == *old(ctx),
            states.last() == *ctx,
            views(result@) == concat_fields(out_views(outs)),
        decreases words@.len() - i,
    {
        let ghost pre = *ctx;
        let answer = expand_word(ctx, &words[i]);
        let fields = match answer {
            Ok(f) => f,
            Err(e) => {
                assert(words_run(states, words@, outs, i as int));
                assert(word_post(states[i as int], *ctx, words@[i as int].raw@, Err::<Vec<Vec<u8>>, ExpandError>(e)));
                return Err(e);
            },
        };
        let ghost fv = fields;
        let ghost before = views(result@);
        let mut k: usize = 0;
        while k < fields.len()
            invariant
                k <= fields@.len(),
                views(result@) == before + views(fields@).take(k as int),
            decreases fields@.len() - k,
        {
            let ghost rv = views(result@);
            result.push(vstd::slice::slice_to_vec(fields[k].as_slice()));
            assert(views(result@) =~= rv.push(views(fields@)[k as int]));
            assert(views(fields@).take(k + 1) =~= views(fields@).take(k as int).push(views(fields@)[k as int]));
            assert(views(result@) =~= before + views(fields@).take(k + 1));
            k += 1;
        }
        proof {
            assert(views(fields@).take(fields@.len() as int) =~= views(fields@));
            assert(words@.take(i + 1).drop_last() =~= words@.take(i as int));
            let old_states = states;
            let old_outs = outs;
            states = states.push(*ctx);
            outs = outs.push(fv);
            assert(out_views(outs).drop_last() =~= out_views(old_outs));
            assert forall|j: int| 0 <= j < i + 1 implies word_post(states[j], states[j + 1], words@[j].raw@, Ok::<Vec<Vec<u8>>, ExpandError>(
                #[trigger] outs[j],
            )) by {
                if j < i {
                    assert(outs[j] == old_outs[j]);
                    assert(states[j] == old_states[j]);
                    assert(states[j + 1] == old_states[j + 1]);
                } else {
                    assert(states[j] == pre);
                }
            }
            assert(words_run(states, words@, outs, i + 1));
        }
        i += 1;
    }
    assert(words@.take(words@.len() as int) =~= words@);
    Ok(result)
}

/// Whether `states` and `outs` are a run of `expand_word` over the first
/// `n` of `words`: word `k` expanded in the state `states[k]` into the
/// fields `outs[k]`, leaving the state `states[k + 1]`.
pub open spec fn words_run<C: Context>(states: Seq<C>, words: Seq<crate::context::Word>, outs: Seq<Vec<Vec<u8>>>, n: int) -> bool {
    &&& 0 <= n <= words.len()
    &&& states.len() == n + 1
    &&& outs.len() == n
    &&& forall|k: int| 0 <= k < n ==> word_post(states[k], states[k + 1], words[k].raw@, Ok::<Vec<Vec<u8>>, ExpandError>(
        #[trigger] outs[k],
    ))
}

/// The fields of each result, as bytes.
pub open spec fn out_views(outs: Seq<Vec<Vec<u8>>>) -> Seq<Seq<Seq<u8>>> {
    outs.map_values(|o: Vec<Vec<u8>>| views(o@))
}

/// Expands the word of a redirection: its fields joined with spaces, and
/// no pathname expansion.
#[verifier::spinoff_prover]
pub fn expand_redirect_word<C: Context>(ctx: &mut C, word: &crate::context::Word) -> (r: Result<Vec<u8>, ExpandError>)
    ensures
        is_plain_word(word.raw@) ==> match spec_unquote(word.raw@) {
            None => r is Err,
            Some((segs, _)) => r matches Ok(v) && v@ == flatten(segs),
        },
        is_name_word(word.raw@) ==> match r {
            Err(e) => param_answered(&*old(ctx), word.raw@.subrange(1, word.raw@.len() as int), Err::<Seq<u8>, Seq<u8>>(
                e.message@,
            )),
            Ok(out) => exists|v: Seq<u8>| #[trigger] param_answered(
                &*old(ctx),
                word.raw@.subrange(1, word.raw@.len() as int),
                Ok::<Seq<u8>, Seq<u8>>(v),
            ) && (v.len() == 0 ==> out@.len() == 0) && (v.len() > 0 ==> exists|ifs: Option<Seq<u8>>| #[trigger] var_answered(
                &*old(ctx),
                "IFS".spec_bytes(),
                ifs,
            ) && out@ == spec_join(field_texts(name_word_fields(v, ifs)), seq![SPACE])),
        },
        is_names_word(word.raw@) ==> exists|x: Result<Seq<SegView>, Seq<u8>>| #[trigger] names_fits(
            &*old(ctx),
            word.raw@,
            0,
            Seq::empty(),
            x,
        ) && match x {
            Ok(segs) => r matches Ok(out) && segs_text_fits(*final(ctx), segs, out@),
            Err(m) => r matches Err(e) && e.message@ == m,
        },
        is_braced_word(word.raw@) ==> match r {
            Err(e) => braced_answered(&*old(ctx), word.raw@.subrange(2, word.raw@.len() - 1), Err::<Seq<u8>, Seq<u8>>(
                e.message@,
            )),
            Ok(out) => exists|v: Seq<u8>| #[trigger] braced_answered(
                &*old(ctx),
                word.raw@.subrange(2, word.raw@.len() - 1),
                Ok::<Seq<u8>, Seq<u8>>(v),
            ) && (v == seq![AT] || value_text_fits(*final(ctx), v, out@)),
        },
{
    let ghost c0 = *ctx;
    let ghost name = word.raw@.subrange(1, word.raw@.len() as int);
    ctx.set_lineno(word.line);
    let ghost c1 = *ctx;
    assert(crate::params::answers_alike(&c1, &c0));
    let expanded = match expand_raw(ctx, word.raw.as_slice()) {
        Ok(x) => x,
        Err(e) => {
            proof {
                if is_name_word(word.raw@) {
                    crate::params::lemma_answers_alike(&c1, &c0, name, Err::<Seq<u8>, Seq<u8>>(e.message@), None);
                }
                if is_braced_word(word.raw@) {
                    lemma_braced_alike(&c1, &c0, word.raw@.subrange(2, word.raw@.len() - 1), Err::<Seq<u8>, Seq<u8>>(e.message@));
                }
                if is_names_word(word.raw@) {
                    lemma_names_alike(&c1, &c0, word.raw@, 0, Seq::empty(), Err::<Seq<SegView>, Seq<u8>>(e.message@));
                }
            }
            return Err(e);
        },
    };
    let ghost v0: Seq<u8> = if is_name_word(word.raw@) {
        choose|v: Seq<u8>| #[trigger] param_answered(&c1, name, Ok::<Seq<u8>, Seq<u8>>(v)) && segs_view(expanded.segments@)
            == spec_push_segment(Seq::empty(), v, QuoteState::Expanded)
    } else {
        Seq::empty()
    };
    let ghost c2 = *ctx;
    let ghost bexpr = word.raw@.subrange(2, word.raw@.len() - 1);
    let ghost bv: Seq<u8> = if is_braced_word(word.raw@) {
        choose|v: Seq<u8>| #[trigger] braced_answered(&c1, bexpr, Ok::<Seq<u8>, Seq<u8>>(v)) && (expanded.has_at_expansion
            ==> v == seq![AT]) && (!expanded.has_at_expansion ==> segs_view(expanded.segments@) == spec_push_segment(
            Seq::empty(),
            v,
            QuoteState::Expanded,
        ))
    } else {
        Seq::empty()
    };
    let ghost nb = is_braced_word(word.raw@) && !expanded.has_at_expansion;
    let ghost nw = is_names_word(word.raw@);
    proof {
        if nw {
            lemma_names_alike(&c1, &c0, word.raw@, 0, Seq::empty(), Ok::<Seq<SegView>, Seq<u8>>(segs_view(expanded.segments@)));
        }
        if is_braced_word(word.raw@) {
            lemma_braced_alike(&c1, &c0, bexpr, Ok::<Seq<u8>, Seq<u8>>(bv));
        }
        if is_plain_word(word.raw@) {
            lemma_plain_run_source_texts(word.raw@, 0, Seq::empty(), false);
        }
        if is_name_word(word.raw@) {
            crate::params::lemma_answers_alike(&c1, &c0, name, Ok::<Seq<u8>, Seq<u8>>(v0), None);
        }
    }
    let segments = expanded.segments.as_slice();
    if segments.len() == 0 {
        assert(flatten(segs_view(segments@)) =~= Seq::<u8>::empty());
        proof {
            if is_name_word(word.raw@) {
                assert(v0.len() == 0);
            }
            if nb {
                assert(bv.len() == 0);
            }
            if nw {
                assert(segs_text_fits(*ctx, segs_view(segments@), Seq::<u8>::empty()));
            }
        }
        return Ok(Vec::new());
    }
    let has_expanded = has_expanded_segment(segments);
    proof {
        if is_plain_word(word.raw@) && has_expanded {
            let j = choose|j: int| 0 <= j < segments@.len() && (#[trigger] segs_view(segments@)[j] matches SegView::Text(_, q)
                && q == QuoteState::Expanded);
            assert(segs_view(segments@)[j] matches SegView::Text(_, q) && q != QuoteState::Expanded);
        }
        if is_name_word(word.raw@) && !has_expanded {
            assert(segs_view(segments@)[0] matches SegView::Text(_, q) && q == QuoteState::Expanded);
        }
        if nb && !has_expanded {
            assert(segs_view(segments@)[0] matches SegView::Text(_, q) && q == QuoteState::Expanded);
        }
    }
    if !has_expanded {
        let flat = flatten_segments(segments);
        proof {
            if nw {
                assert(!has_expanded_view(segs_view(segments@)));
                assert(segs_text_fits(*ctx, segs_view(segments@), flat@));
            }
        }
        return Ok(flat);
    }
    let ifs_name = crate::chars::lit("IFS");
    let ifs_slice = ifs_name.as_slice();
    let ifs_val = ctx.env_var(ifs_slice);
    assert(call_ensures(C::env_var, (&*ctx, ifs_slice), ifs_val));
    let ghost iv = opt_view(ifs_val);
    proof {
        if is_name_word(word.raw@) {
            assert(var_answered(&c1, "IFS".spec_bytes(), iv));
            crate::params::lemma_answers_alike(&c1, &c0, "IFS".spec_bytes(), Ok::<Seq<u8>, Seq<u8>>(v0), iv);
        }
    }
    let ifs = ifs_or_default(ifs_val);
    assert(ifs@ == spec_ifs_default(iv));
    let fields = crate::segments::split_fields_from_segments(segments, ifs.as_slice());
    let ghost fv = crate::segments::fields_view(fields@);
    let mut texts: Vec<Vec<u8>> = Vec::new();
    let mut i: usize = 0;
    while i < fields.len()
        invariant
            i <= fields@.len(),
            fv == crate::segments::fields_view(fields@),
            views(texts@) == field_texts(fv).take(i as int),
        decreases fields@.len() - i,
    {
        let ghost before = views(texts@);
        texts.push(vstd::slice::slice_to_vec(fields[i].text.as_slice()));
        proof {
            assert(fv[i as int].0 == fields@[i as int].text@);
            assert(field_texts(fv).take(i + 1) =~= field_texts(fv).take(i as int).push(fields@[i as int].text@));
            assert(views(texts@) =~= before.push(fields@[i as int].text@));
        }
        i += 1;
    }
    let space: Vec<u8> = vec![SPACE];
    let out = join_bstrings(texts.as_slice(), space.as_slice());
    proof {
        assert(field_texts(fv).take(fv.len() as int) =~= field_texts(fv));
        assert(space@ =~= seq![SPACE]);
        if is_name_word(word.raw@) {
            assert(fv == name_word_fields(v0, iv));
            assert(out@ == spec_join(field_texts(name_word_fields(v0, iv)), seq![SPACE]));
            assert(param_answered(&c0, name, Ok::<Seq<u8>, Seq<u8>>(v0)));
            assert(var_answered(&c0, "IFS".spec_bytes(), iv));
        }
        if nb {
            assert(fv == name_word_fields(bv, iv));
            assert(var_answered(&c2, "IFS".spec_bytes(), iv));
            assert(value_text_fits(*ctx, bv, out@));
        }
        if nw {
            assert(has_expanded_view(segs_view(segments@)));
            assert(var_answered(&c2, "IFS".spec_bytes(), iv));
            assert(fv == crate::segments::spec_split_fields(segs_view(segments@), spec_ifs_default(iv)));
            assert(segs_text_fits(*ctx, segs_view(segments@), out@));
        }
    }
    Ok(out)
}

/// Expands a word to one string, without field splitting or pathname
/// expansion; as the value of an assignment, each colon-separated part
/// gets its own tilde expansion.
pub fn expand_word_text_assignment<C: Context>(ctx: &mut C, word: &crate::context::Word, assignment_rhs: bool) -> (r: Result<Vec<u8>, ExpandError>)
    ensures
        !assignment_rhs && is_plain_word(word.raw@) ==> match spec_unquote(word.raw@) {
            None => r is Err,
            Some((segs, _)) => r matches Ok(v) && v@ == flatten(segs),
        },
        assignment_rhs && all_plain(crate::scan::colon_parts(word.raw@, 0, 0, 0, 0)) ==> match plain_assignment_value(
            crate::scan::colon_parts(word.raw@, 0, 0, 0, 0),
        ) {
            None => r is Err,
            Some(t) => r matches Ok(v) && v@ == t,
        },
        assignment_rhs && all_plain_or_tilde(crate::scan::colon_parts(word.raw@, 0, 0, 0, 0)) ==> (r matches Ok(out)
            ==> assignment_fits(&*old(ctx), crate::scan::colon_parts(word.raw@, 0, 0, 0, 0), out@)),
        assignment_rhs && all_plain_or_tilde(crate::scan::colon_parts(word.raw@, 0, 0, 0, 0)) && parts_close(
            crate::scan::colon_parts(word.raw@, 0, 0, 0, 0),
        ) ==> r is Ok,
        assignment_rhs && all_plain_or_names(crate::scan::colon_parts(word.raw@, 0, 0, 0, 0)) ==> assignment_value_fits(
            &*old(ctx),
            crate::scan::colon_parts(word.raw@, 0, 0, 0, 0),
            text_view(r),
        ),
        assignment_rhs && all_plain_or_names(crate::scan::colon_parts(word.raw@, 0, 0, 0, 0)) && plain_parts_close(
            crate::scan::colon_parts(word.raw@, 0, 0, 0, 0),
        ) && crate::params::nounset_off(&*old(ctx)) ==> r is Ok,
        !assignment_rhs ==> forall|cmd: Seq<u8>| #[trigger] is_backquote_word(word.raw@, cmd) ==> exists|o: Result<Vec<u8>, ExpandError>|
            #[trigger] crate::params::command_answered(*old(ctx), cmd, o) && text_view(r) == match o {
            Ok(out) => Ok::<Seq<u8>, Seq<u8>>(out@.take(crate::scan::trimmed_newlines_len(out@))),
            Err(e) => Err::<Seq<u8>, Seq<u8>>(e.message@),
        },
        !assignment_rhs && is_name_word(word.raw@) ==> param_answered(
            &*old(ctx),
            word.raw@.subrange(1, word.raw@.len() as int),
            text_view(r),
        ),
        !assignment_rhs && is_names_word(word.raw@) ==> *final(ctx) == *old(ctx) && exists|x: Result<Seq<SegView>, Seq<u8>>|
            #[trigger] names_fits(&*old(ctx), word.raw@, 0, Seq::empty(), x) && text_view(r) == match x {
            Ok(segs) => Ok::<Seq<u8>, Seq<u8>>(flatten(segs)),
            Err(m) => Err::<Seq<u8>, Seq<u8>>(m),
        },
        !assignment_rhs ==> forall|q: int| #[trigger] is_dq_word(word.raw@, q) ==> *final(ctx) == *old(ctx) && exists|
            x: Result<Seq<SegView>, Seq<u8>>,
        | #[trigger] dq_fits(&*old(ctx), word.raw@, q + 1, Seq::empty(), x) && text_view(r) == match x {
            Ok(segs) => Ok::<Seq<u8>, Seq<u8>>(flatten(segs)),
            Err(m) => Err::<Seq<u8>, Seq<u8>>(m),
        },
        !assignment_rhs && is_braced_word(word.raw@) ==> match r {
            Err(e) => braced_answered(&*old(ctx), word.raw@.subrange(2, word.raw@.len() - 1), Err::<Seq<u8>, Seq<u8>>(
                e.message@,
            )),
            Ok(out) => exists|v: Seq<u8>| #[trigger] braced_answered(
                &*old(ctx),
                word.raw@.subrange(2, word.raw@.len() - 1),
                Ok::<Seq<u8>, Seq<u8>>(v),
            ) && (v == seq![AT] || out@ == v),
        },
{
    if !assignment_rhs {
        let expanded = match expand_raw(ctx, word.raw.as_slice()) {
            Ok(x) => x,
            Err(e) => {
                proof {
                    if is_names_word(word.raw@) {
                        assert(names_fits(&*old(ctx), word.raw@, 0, Seq::empty(), Err::<Seq<SegView>, Seq<u8>>(e.message@)));
                    }
                    assert forall|q: int| #[trigger] is_dq_word(word.raw@, q) implies dq_fits(
                        &*old(ctx),
                        word.raw@,
                        q + 1,
                        Seq::empty(),
                        Err::<Seq<SegView>, Seq<u8>>(e.message@),
                    ) by {}
                }
                return Err(e);
            },
        };
        let text = flatten_segments(expanded.segments.as_slice());
        proof {
            if is_names_word(word.raw@) {
                assert(names_fits(&*old(ctx), word.raw@, 0, Seq::empty(), Ok::<Seq<SegView>, Seq<u8>>(segs_view(expanded.segments@))));
            }
            assert forall|q: int| #[trigger] is_dq_word(word.raw@, q) implies dq_fits(
                &*old(ctx),
                word.raw@,
                q + 1,
                Seq::empty(),
                Ok::<Seq<SegView>, Seq<u8>>(segs_view(expanded.segments@)),
            ) by {}
        }
        proof {
            assert forall|cmd: Seq<u8>| #[trigger] is_backquote_word(word.raw@, cmd) implies exists|o: Result<Vec<u8>, ExpandError>|
                #[trigger] crate::params::command_answered(*old(ctx), cmd, o) && text_view(Ok::<Vec<u8>, ExpandError>(text))
                == match o {
                Ok(out) => Ok::<Seq<u8>, Seq<u8>>(out@.take(crate::scan::trimmed_newlines_len(out@))),
                Err(e) => Err::<Seq<u8>, Seq<u8>>(e.message@),
            } by {
                let out = choose|out: Vec<u8>| crate::params::command_answered(*old(ctx), cmd, Ok::<Vec<u8>, ExpandError>(out))
                    && segs_view(expanded.segments@) == spec_push_segment(Seq::empty(), out@.take(crate::scan::trimmed_newlines_len(out@)), QuoteState::Expanded);
                lemma_flatten_single(out@.take(crate::scan::trimmed_newlines_len(out@)), QuoteState::Expanded);
                assert(crate::params::command_answered(*old(ctx), cmd, Ok::<Vec<u8>, ExpandError>(out)));
            }
            if is_name_word(word.raw@) {
                let v = choose|v: Seq<u8>| #[trigger] param_answered(
                    &*old(ctx),
                    word.raw@.subrange(1, word.raw@.len() as int),
                    Ok::<Seq<u8>, Seq<u8>>(v),
                ) && segs_view(expanded.segments@) == spec_push_segment(Seq::empty(), v, QuoteState::Expanded);
                lemma_flatten_single(v, QuoteState::Expanded);
                assert(text@ == v);
            }
            if is_braced_word(word.raw@) {
                let v = choose|v: Seq<u8>| #[trigger] braced_answered(
                    &*old(ctx),
                    word.raw@.subrange(2, word.raw@.len() - 1),
                    Ok::<Seq<u8>, Seq<u8>>(v),
                ) && (expanded.has_at_expansion ==> v == seq![AT]) && (!expanded.has_at_expansion ==> segs_view(
                    expanded.segments@,
                ) == spec_push_segment(Seq::empty(), v, QuoteState::Expanded));
                if !expanded.has_at_expansion {
                    lemma_flatten_single(v, QuoteState::Expanded);
                    assert(text@ == v);
                }
            }
        }
        return Ok(text);
    }
    let parts = crate::scan::split_on_unquoted_colons(word.raw.as_slice());
    let ghost ps = views(parts@);
    let ghost c0 = *ctx;
    let ghost mut texts: Seq<Seq<u8>> = Seq::empty();
    let ghost mut ntexts: Seq<Seq<u8>> = Seq::empty();
    let mut result: Vec<u8> = Vec::new();
    let mut i: usize = 0;
    while i < parts.len()
        invariant
            i <= parts@.len(),
            assignment_rhs,
            ps == views(parts@),
            ps == crate::scan::colon_parts(word.raw@, 0, 0, 0, 0),
            all_plain(ps) ==> plain_assignment_value(ps.take(i as int)) == Some(result@),
            c0 == *old(ctx),
            all_plain_or_tilde(ps) ==> crate::params::answers_alike(&*ctx, &c0) && texts.len() == i && (forall|k: int|
                0 <= k < i ==> part_text_fits(&c0, ps[k], #[trigger] texts[k])) && result@ == spec_join(texts, seq![COLON]),
            all_plain_or_names(ps) ==> crate::params::answers_alike(&*ctx, &c0) && ntexts.len() == i && (forall|k: int|
                0 <= k < i ==> part_fits(&c0, ps[k], #[trigger] ntexts[k])) && result@ == spec_join(ntexts, seq![COLON]),
        decreases parts@.len() - i,
    {
        proof {
            assert(ps.take(i + 1).drop_last() =~= ps.take(i as int));
            assert(ps.take(i + 1).last() == ps[i as int]);
            assert(ps[i as int] == parts@[i as int]@);
        }
        let ghost before = result@;
        if i > 0 {
            result.push(crate::chars::COLON);
        }
        let ghost cb = *ctx;
        let expanded = match expand_raw(ctx, parts[i].as_slice()) {
            Ok(e) => e,
            Err(e) => {
                proof {
                    if all_plain(ps) {
                        lemma_plain_assignment_fails(ps, i as int + 1);
                    }
                    if all_plain_or_tilde(ps) && parts_close(ps) {
                        assert(is_tilde_word(ps[i as int]) || spec_unquote(ps[i as int]) is Some);
                        assert(is_plain_word(ps[i as int]) || is_tilde_word(ps[i as int]));
                    }
                    if all_plain_or_names(ps) {
                        let part = ps[i as int];
                        if is_names_word(part) {
                            lemma_names_alike(&cb, &c0, part, 0, Seq::empty(), Err::<Seq<SegView>, Seq<u8>>(e.message@));
                            if crate::params::nounset_off(&c0) {
                                lemma_names_never_fail(&c0, part, 0, Seq::empty(), e.message@);
                            }
                        } else {
                            assert(is_plain_word(part));
                        }
                        assert(part_fails(&c0, part, e.message@));
                        assert(assignment_value_fits(&c0, ps, Err::<Seq<u8>, Seq<u8>>(e.message@)));
                    }
                }
                return Err(e);
            },
        };
        let mut text = flatten_segments(expanded.segments.as_slice());
        let ghost tv = text@;
        result.append(&mut text);
        proof {
            if all_plain(ps) {
                if let Some((segs, _)) = spec_unquote(ps[i as int]) {
                    assert(i > 0 ==> result@ =~= before + seq![COLON] + flatten(segs));
                    assert(i == 0 ==> result@ =~= flatten(segs));
                }
            }
            if all_plain_or_tilde(ps) {
                let part = ps[i as int];
                if is_tilde_word(part) {
                    let h = choose|h: Option<Seq<u8>>| #[trigger] var_answered(&cb, "HOME".spec_bytes(), h) && segs_view(
                        expanded.segments@,
                    ) == spec_push_segment(tilde_segments(h), part.subrange(1, part.len() as int), QuoteState::Literal);
                    lemma_tilde_word_segments(h, part.subrange(1, part.len() as int));
                    crate::params::lemma_answers_alike(&cb, &c0, "HOME".spec_bytes(), Ok::<Seq<u8>, Seq<u8>>(Seq::empty()), h);
                    assert(part_text_fits(&c0, part, tv));
                } else {
                    crate::params::lemma_alike_trans(&*ctx, &cb, &c0);
                    assert(part_text_fits(&c0, part, tv));
                }
                let old_texts = texts;
                texts = texts.push(tv);
                assert(texts.drop_last() =~= old_texts);
                assert forall|k: int| 0 <= k < i + 1 implies part_text_fits(&c0, ps[k], #[trigger] texts[k]) by {
                    if k < i {
                        assert(texts[k] == old_texts[k]);
                    }
                }
                if i == 0 {
                    assert(result@ =~= tv);
                    assert(spec_join(texts, seq![COLON]) == texts[0]);
                } else {
                    assert(result@ =~= before + seq![COLON] + tv);
                }
            }
        }
        proof {
            if all_plain_or_names(ps) {
                let part = ps[i as int];
                if is_names_word(part) {
                    lemma_names_alike(&cb, &c0, part, 0, Seq::empty(), Ok::<Seq<SegView>, Seq<u8>>(segs_view(expanded.segments@)));
                    assert(*ctx == cb);
                } else {
                    assert(is_plain_word(part));
                    crate::params::lemma_alike_trans(&*ctx, &cb, &c0);
                }
                assert(part_fits(&c0, part, tv));
                let old_n = ntexts;
                ntexts = ntexts.push(tv);
                assert(ntexts.drop_last() =~= old_n);
                assert forall|k: int| 0 <= k < i + 1 implies part_fits(&c0, ps[k], #[trigger] ntexts[k]) by {
                    if k < i {
                        assert(ntexts[k] == old_n[k]);
                    }
                }
                if i == 0 {
                    assert(result@ =~= tv);
                    assert(spec_join(ntexts, seq![COLON]) == ntexts[0]);
                } else {
                    assert(result@ =~= before + seq![COLON] + tv);
                }
            }
        }
        i += 1;
    }
    proof {
        assert(ps.take(parts@.len() as int) =~= ps);
        if all_plain_or_names(ps) {
            assert(assignment_value_fits(&c0, ps, Ok::<Seq<u8>, Seq<u8>>(result@)));
        }
        if all_plain_or_tilde(ps) {
            assert(assignment_fits(&c0, ps, result@));
        }
    }
    Ok(result)
}

/// Whether every part is a plain word.
pub open spec fn all_plain(parts: Seq<Seq<u8>>) -> bool {
    forall|k: int| 0 <= k < parts.len() ==> is_plain_word(#[trigger] parts[k])
}

/// The value of an assignment whose parts between unquoted colons are
/// plain words: each part with its quotes removed, joined by colons;
/// `None` where the quotes of a part do not close.
pub open spec fn plain_assignment_value(parts: Seq<Seq<u8>>) -> Option<Seq<u8>>
    decreases parts.len(),
{
    if parts.len() == 0 {
        Some(Seq::empty())
    } else {
        match (plain_assignment_value(parts.drop_last()), spec_unquote(parts.last())) {
            (Some(v), Some((segs, _))) => Some(if parts.len() == 1 { flatten(segs) } else { v + seq![COLON] + flatten(segs) }),
            _ => None,
        }
    }
}

/// Whether each part of an assignment value is a plain word or a `~`
/// word.
pub open spec fn all_plain_or_tilde(parts: Seq<Seq<u8>>) -> bool {
    forall|k: int| 0 <= k < parts.len() ==> is_plain_word(#[trigger] parts[k]) || is_tilde_word(parts[k])
}

/// Whether every part of an assignment value is a word of names (perhaps
/// led by a `~`) or plain text.
pub open spec fn all_plain_or_names(parts: Seq<Seq<u8>>) -> bool {
    forall|k: int| 0 <= k < parts.len() ==> is_names_word(#[trigger] parts[k]) || is_plain_word(parts[k])
}

/// Whether `text` is what the part `part` of an assignment value expands
/// to in the shell `ctx`: a word of names by `names_fits`, a plain part by
/// losing its quotes.
pub open spec fn part_fits<C: Context>(ctx: &C, part: Seq<u8>, text: Seq<u8>) -> bool {
    if is_names_word(part) {
        exists|segs: Seq<SegView>| #[trigger] names_fits(ctx, part, 0, Seq::empty(), Ok::<Seq<SegView>, Seq<u8>>(segs))
            && text == flatten(segs)
    } else {
        spec_unquote(part) matches Some((segs, _)) && text == flatten(segs)
    }
}

/// Whether the part `part` of an assignment value fails with the message
/// `m` in the shell `ctx`: a parameter the shell refuses, or quotes that do
/// not close.
pub open spec fn part_fails<C: Context>(ctx: &C, part: Seq<u8>, m: Seq<u8>) -> bool {
    if is_names_word(part) {
        names_fits(ctx, part, 0, Seq::empty(), Err::<Seq<SegView>, Seq<u8>>(m))
    } else {
        spec_unquote(part) is None && m == plain_error(part, 0)
    }
}

/// Whether `r` is what an assignment value with the parts `parts` expands
/// to in the shell `ctx`: the parts' texts joined by colons, or the error of
/// a part that fails.
pub open spec fn assignment_value_fits<C: Context>(ctx: &C, parts: Seq<Seq<u8>>, r: Result<Seq<u8>, Seq<u8>>) -> bool {
    match r {
        Ok(out) => exists|texts: Seq<Seq<u8>>| #![trigger spec_join(texts, seq![COLON])] {
            &&& texts.len() == parts.len()
            &&& forall|k: int| 0 <= k < parts.len() ==> part_fits(ctx, parts[k], #[trigger] texts[k])
            &&& out == spec_join(texts, seq![COLON])
        },
        Err(m) => exists|k: int| 0 <= k < parts.len() && part_fails(ctx, #[trigger] parts[k], m),
    }
}

/// Whether every plain part of an assignment value has closing quotes.
pub open spec fn plain_parts_close(parts: Seq<Seq<u8>>) -> bool {
    forall|k: int| 0 <= k < parts.len() ==> is_names_word(#[trigger] parts[k]) || spec_unquote(parts[k]) is Some
}

/// With `set -u` off, a word of names never fails.
pub proof fn lemma_names_never_fail<C: Context>(ctx: &C, raw: Seq<u8>, i: int, acc: Seq<SegView>, m: Seq<u8>)
    requires
        crate::params::nounset_off(ctx),
    ensures
        !names_fits(ctx, raw, i, acc, Err::<Seq<SegView>, Seq<u8>>(m)),
    decreases raw.len() - i,
{
    let r = Err::<Seq<SegView>, Seq<u8>>(m);
    if i < 0 || i >= raw.len() {
    } else if raw[i] == DOLLAR && i + 1 < raw.len() && crate::chars::spec_is_name_start(raw[i + 1]) {
        let e = name_end(raw, i + 1);
        if names_fits(ctx, raw, i, acc, r) {
            let v = choose|v: Result<Seq<u8>, Seq<u8>>| #[trigger] param_answered(ctx, raw.subrange(i + 1, e), v) && match v {
                Ok(val) => names_fits(ctx, raw, e, spec_push_segment(acc, val, QuoteState::Expanded), r),
                Err(m2) => r == Err::<Seq<SegView>, Seq<u8>>(m2),
            };
            match v {
                Ok(val) => {
                    lemma_names_never_fail(ctx, raw, e, spec_push_segment(acc, val, QuoteState::Expanded), m);
                },
                Err(m2) => {
                    crate::params::lemma_param_never_fails(ctx, raw.subrange(i + 1, e), m2);
                },
            }
        }
    } else if i == 0 && raw[0] == TILDE {
        let k = tilde_user_end(raw, 1);
        if k == 1 && (raw.len() == 1 || raw[1] == SLASH) {
            assert forall|h: Option<Seq<u8>>| #[trigger] var_answered(ctx, "HOME".spec_bytes(), h) implies !names_fits(
                ctx,
                raw,
                1,
                tilde_segments(h),
                r,
            ) by {
                lemma_names_never_fail(ctx, raw, 1, tilde_segments(h), m);
            }
        } else if k == 1 {
            lemma_names_never_fail(ctx, raw, 1, seq![SegView::Text(seq![TILDE], QuoteState::Literal)], m);
        } else if 1 < k <= raw.len() {
            assert forall|o: Option<Seq<u8>>| #[trigger] crate::params::home_answered(ctx, raw.subrange(1, k), o) implies !names_fits(
                ctx,
                raw,
                k,
                user_home_segments(raw.subrange(1, k), o),
                r,
            ) by {
                lemma_names_never_fail(ctx, raw, k, user_home_segments(raw.subrange(1, k), o), m);
            }
        }
    } else {
        lemma_names_never_fail(ctx, raw, i + 1, spec_push_segment(acc, seq![raw[i]], QuoteState::Literal), m);
    }
}

/// What one state of the shell makes of an assignment value, another that
/// answers alike makes too.
pub proof fn lemma_assignment_value_alike<C: Context>(a: &C, b: &C, parts: Seq<Seq<u8>>, r: Result<Seq<u8>, Seq<u8>>)
    requires
        crate::params::answers_alike(a, b),
        assignment_value_fits(a, parts, r),
    ensures
        assignment_value_fits(b, parts, r),
{
    match r {
        Ok(out) => {
            let texts = choose|texts: Seq<Seq<u8>>| #![trigger spec_join(texts, seq![COLON])] {
                &&& texts.len() == parts.len()
                &&& forall|k: int| 0 <= k < parts.len() ==> part_fits(a, parts[k], #[trigger] texts[k])
                &&& out == spec_join(texts, seq![COLON])
            };
            assert forall|k: int| 0 <= k < parts.len() implies part_fits(b, parts[k], #[trigger] texts[k]) by {
                if is_names_word(parts[k]) {
                    let segs = choose|segs: Seq<SegView>| #[trigger] names_fits(a, parts[k], 0, Seq::empty(), Ok::<Seq<SegView>, Seq<u8>>(segs))
                        && texts[k] == flatten(segs);
                    lemma_names_alike(a, b, parts[k], 0, Seq::empty(), Ok::<Seq<SegView>, Seq<u8>>(segs));
                }
            }
        },
        Err(m) => {
            let k = choose|k: int| 0 <= k < parts.len() && part_fails(a, #[trigger] parts[k], m);
            if is_names_word(parts[k]) {
                lemma_names_alike(a, b, parts[k], 0, Seq::empty(), Err::<Seq<SegView>, Seq<u8>>(m));
            }
            assert(part_fails(b, parts[k], m));
        },
    }
}

/// Whether every part of an assignment value expands without error where
/// its text decides it: a `~` part, or a part whose quotes close.
pub open spec fn parts_close(parts: Seq<Seq<u8>>) -> bool {
    forall|k: int| 0 <= k < parts.len() ==> is_tilde_word(#[trigger] parts[k]) || spec_unquote(parts[k]) is Some
}

/// Whether `text` is what the part `part` of an assignment value expands
/// to in the shell `ctx`: a plain part loses its quotes; a `~` part
/// becomes the home directory the shell answers (or `~`) and its rest.
pub open spec fn part_text_fits<C: Context>(ctx: &C, part: Seq<u8>, text: Seq<u8>) -> bool {
    if is_tilde_word(part) {
        exists|h: Option<Seq<u8>>| #[trigger] var_answered(ctx, "HOME".spec_bytes(), h) && text == tilde_text(h)
            + part.subrange(1, part.len() as int)
    } else {
        spec_unquote(part) matches Some((segs, _)) && text == flatten(segs)
    }
}

/// Whether `out` is what an assignment value with the parts `parts`
/// expands to in the shell `ctx`: the parts' texts joined by colons.
pub open spec fn assignment_fits<C: Context>(ctx: &C, parts: Seq<Seq<u8>>, out: Seq<u8>) -> bool {
    exists|texts: Seq<Seq<u8>>| #![trigger spec_join(texts, seq![COLON])] {
        &&& texts.len() == parts.len()
        &&& forall|k: int| 0 <= k < parts.len() ==> part_text_fits(ctx, parts[k], #[trigger] texts[k])
        &&& out == spec_join(texts, seq![COLON])
    }
}

/// What one state of the shell answers for an assignment value, another
/// that answers alike answers too.
pub proof fn lemma_assignment_alike<C: Context>(a: &C, b: &C, parts: Seq<Seq<u8>>, out: Seq<u8>)
    requires
        crate::params::answers_alike(a, b),
        assignment_fits(a, parts, out),
    ensures
        assignment_fits(b, parts, out),
{
    let texts = choose|texts: Seq<Seq<u8>>| #![trigger spec_join(texts, seq![COLON])] {
        &&& texts.len() == parts.len()
        &&& forall|k: int| 0 <= k < parts.len() ==> part_text_fits(a, parts[k], #[trigger] texts[k])
        &&& out == spec_join(texts, seq![COLON])
    };
    assert forall|k: int| 0 <= k < parts.len() implies part_text_fits(b, parts[k], #[trigger] texts[k]) by {
        if is_tilde_word(parts[k]) {
            let h = choose|h: Option<Seq<u8>>| #[trigger] var_answered(a, "HOME".spec_bytes(), h) && texts[k] == tilde_text(h)
                + parts[k].subrange(1, parts[k].len() as int);
            crate::params::lemma_answers_alike(a, b, "HOME".spec_bytes(), Ok::<Seq<u8>, Seq<u8>>(Seq::empty()), h);
        }
    }
}

proof fn lemma_plain_assignment_fails(parts: Seq<Seq<u8>>, i: int)
    requires
        0 < i <= parts.len(),
        plain_assignment_value(parts.take(i)) is None,
    ensures
        plain_assignment_value(parts) is None,
    decreases parts.len() - i,
{
    if i < parts.len() {
        assert(parts.take(i + 1).drop_last() =~= parts.take(i));
        lemma_plain_assignment_fails(parts, i + 1);
    } else {
        assert(parts.take(i) =~= parts);
    }
}

/// Expands a word to one string, without field splitting or pathname
/// expansion.
pub fn expand_word_text<C: Context>(ctx: &mut C, word: &crate::context::Word) -> (r: Result<Vec<u8>, ExpandError>)
    ensures
        is_plain_word(word.raw@) ==> match spec_unquote(word.raw@) {
            None => r is Err,
            Some((segs, _)) => r matches Ok(v) && v@ == flatten(segs),
        },
        is_name_word(word.raw@) ==> param_answered(&*old(ctx), word.raw@.subrange(1, word.raw@.len() as int), text_view(r)),
        is_braced_word(word.raw@) ==> match r {
            Err(e) => braced_answered(&*old(ctx), word.raw@.subrange(2, word.raw@.len() - 1), Err::<Seq<u8>, Seq<u8>>(
                e.message@,
            )),
            Ok(out) => exists|v: Seq<u8>| #[trigger] braced_answered(
                &*old(ctx),
                word.raw@.subrange(2, word.raw@.len() - 1),
                Ok::<Seq<u8>, Seq<u8>>(v),
            ) && (v == seq![AT] || out@ == v),
        },
        forall|cmd: Seq<u8>| #[trigger] is_backquote_word(word.raw@, cmd) ==> backquote_fits(&*old(ctx), cmd, text_view(r)),
        is_names_word(word.raw@) ==> exists|x: Result<Seq<SegView>, Seq<u8>>| #[trigger] names_fits(
            &*old(ctx),
            word.raw@,
            0,
            Seq::empty(),
            x,
        ) && text_view(r) == match x {
            Ok(segs) => Ok::<Seq<u8>, Seq<u8>>(flatten(segs)),
            Err(m) => Err::<Seq<u8>, Seq<u8>>(m),
        },
        is_names_word(word.raw@) && crate::params::nounset_off(&*old(ctx)) ==> r is Ok,
        forall|q: int| #[trigger] is_dq_word(word.raw@, q) ==> exists|x: Result<Seq<SegView>, Seq<u8>>| #[trigger] dq_fits(
            &*old(ctx),
            word.raw@,
            q + 1,
            Seq::empty(),
            x,
        ) && text_view(r) == match x {
            Ok(segs) => Ok::<Seq<u8>, Seq<u8>>(flatten(segs)),
            Err(m) => Err::<Seq<u8>, Seq<u8>>(m),
        },
{
    let ghost c0 = *ctx;
    ctx.set_lineno(word.line);
    let ghost c1 = *ctx;
    assert(crate::params::answers_alike(&c1, &c0));
    let r = expand_word_text_assignment(ctx, word, false);
    proof {
        assert forall|cmd: Seq<u8>| #[trigger] is_backquote_word(word.raw@, cmd) implies backquote_fits(&c0, cmd, text_view(r)) by {
            let o = choose|o: Result<Vec<u8>, ExpandError>| #[trigger] crate::params::command_answered(c1, cmd, o) && text_view(r)
                == match o {
                Ok(out) => Ok::<Seq<u8>, Seq<u8>>(out@.take(crate::scan::trimmed_newlines_len(out@))),
                Err(e) => Err::<Seq<u8>, Seq<u8>>(e.message@),
            };
            assert(crate::params::command_answered(c1, cmd, o));
        }
        if is_name_word(word.raw@) {
            crate::params::lemma_answers_alike(&c1, &c0, word.raw@.subrange(1, word.raw@.len() as int), text_view(r), None);
        }
        assert forall|q: int| #[trigger] is_dq_word(word.raw@, q) implies exists|x: Result<Seq<SegView>, Seq<u8>>| #[trigger] dq_fits(
            &c0,
            word.raw@,
            q + 1,
            Seq::empty(),
            x,
        ) && text_view(r) == match x {
            Ok(segs) => Ok::<Seq<u8>, Seq<u8>>(flatten(segs)),
            Err(m) => Err::<Seq<u8>, Seq<u8>>(m),
        } by {
            let x = choose|x: Result<Seq<SegView>, Seq<u8>>| #[trigger] dq_fits(&c1, word.raw@, q + 1, Seq::empty(), x)
                && text_view(r) == match x {
                Ok(segs) => Ok::<Seq<u8>, Seq<u8>>(flatten(segs)),
                Err(m) => Err::<Seq<u8>, Seq<u8>>(m),
            };
            lemma_dq_alike(&c1, &c0, word.raw@, q + 1, Seq::empty(), x);
        }
        if is_names_word(word.raw@) {
            let x = choose|x: Result<Seq<SegView>, Seq<u8>>| #[trigger] names_fits(&c1, word.raw@, 0, Seq::empty(), x)
                && text_view(r) == match x {
                Ok(segs) => Ok::<Seq<u8>, Seq<u8>>(flatten(segs)),
                Err(m) => Err::<Seq<u8>, Seq<u8>>(m),
            };
            lemma_names_alike(&c1, &c0, word.raw@, 0, Seq::empty(), x);
            if crate::params::nounset_off(&c0) {
                if let Err(m) = x {
                    lemma_names_never_fail(&c0, word.raw@, 0, Seq::empty(), m);
                }
            }
        }
        if is_braced_word(word.raw@) {
            let bexpr = word.raw@.subrange(2, word.raw@.len() - 1);
            match text_view(r) {
                Ok(out) => {
                    let v = choose|v: Seq<u8>| #[trigger] braced_answered(&c1, bexpr, Ok::<Seq<u8>, Seq<u8>>(v)) && (v
                        == seq![AT] || out == v);
                    lemma_braced_alike(&c1, &c0, bexpr, Ok::<Seq<u8>, Seq<u8>>(v));
                },
                Err(_) => {
                    lemma_braced_alike(&c1, &c0, bexpr, text_view(r));
                },
            }
        }
    }
    r
}

/// Expands a word into a pattern for matching (`case`, `${x%...}`): the
/// glob characters that were quoted come out escaped.
pub fn expand_word_pattern<C: Context>(ctx: &mut C, word: &crate::context::Word) -> (r: Result<Vec<u8>, ExpandError>)
    ensures
        is_plain_word(word.raw@) ==> match spec_unquote(word.raw@) {
            None => r is Err,
            Some((segs, _)) => r matches Ok(v) && v@ == spec_render_pattern(segs),
        },
{
    ctx.set_lineno(word.line);
    let expanded = expand_raw(ctx, word.raw.as_slice())?;
    Ok(render_pattern_from_segments(expanded.segments.as_slice()))
}

/// Expands the value of an assignment `NAME=value`.
pub fn expand_assignment_value<C: Context>(ctx: &mut C, word: &crate::context::Word) -> (r: Result<Vec<u8>, ExpandError>)
    ensures
        all_plain(crate::scan::colon_parts(word.raw@, 0, 0, 0, 0)) ==> match plain_assignment_value(
            crate::scan::colon_parts(word.raw@, 0, 0, 0, 0),
        ) {
            None => r is Err,
            Some(t) => r matches Ok(v) && v@ == t,
        },
        all_plain_or_tilde(crate::scan::colon_parts(word.raw@, 0, 0, 0, 0)) ==> (r matches Ok(out) ==> assignment_fits(
            &*old(ctx),
            crate::scan::colon_parts(word.raw@, 0, 0, 0, 0),
            out@,
        )),
        all_plain_or_tilde(crate::scan::colon_parts(word.raw@, 0, 0, 0, 0)) && parts_close(
            crate::scan::colon_parts(word.raw@, 0, 0, 0, 0),
        ) ==> r is Ok,
        all_plain_or_names(crate::scan::colon_parts(word.raw@, 0, 0, 0, 0)) ==> assignment_value_fits(
            &*old(ctx),
            crate::scan::colon_parts(word.raw@, 0, 0, 0, 0),
            text_view(r),
        ),
        all_plain_or_names(crate::scan::colon_parts(word.raw@, 0, 0, 0, 0)) && plain_parts_close(
            crate::scan::colon_parts(word.raw@, 0, 0, 0, 0),
        ) && crate::params::nounset_off(&*old(ctx)) ==> r is Ok,
{
    let ghost c0 = *ctx;
    ctx.set_lineno(word.line);
    let ghost c1 = *ctx;
    assert(crate::params::answers_alike(&c1, &c0));
    let r = expand_word_text_assignment(ctx, word, true);
    proof {
        let parts = crate::scan::colon_parts(word.raw@, 0, 0, 0, 0);
        if all_plain_or_tilde(parts) && r is Ok {
            lemma_assignment_alike(&c1, &c0, parts, r->Ok_0@);
        }
        if all_plain_or_names(parts) {
            lemma_assignment_value_alike(&c1, &c0, parts, text_view(r));
        }
        assert forall|b: bool| #[trigger] call_ensures(C::nounset_enabled, (&c1,), b) == call_ensures(
            C::nounset_enabled,
            (&c0,),
            b,
        ) by {}
    }
    r
}

/// The part of a declaration utility's argument that is expanded as an
/// assignment value: what follows `NAME=`, or the whole word where it is
/// no assignment.
pub open spec fn declaration_value(raw: Seq<u8>) -> Seq<u8> {
    match crate::scan::spec_assignment_eq(raw) {
        Some(e) => raw.subrange(e + 1, raw.len() as int),
        None => raw,
    }
}

/// The `NAME=` that a declaration utility's argument keeps as it is, or
/// nothing where the word is no assignment.
pub open spec fn declaration_name(raw: Seq<u8>) -> Seq<u8> {
    match crate::scan::spec_assignment_eq(raw) {
        Some(e) => raw.subrange(0, e + 1),
        None => Seq::empty(),
    }
}

/// Expands an assignment word of a declaration utility (`export`,
/// `readonly`): the name and `=` stay, the value is expanded as an
/// assignment's.
pub fn expand_word_as_declaration_assignment<C: Context>(ctx: &mut C, word: &crate::context::Word) -> (r: Result<Vec<u8>, ExpandError>)
    ensures
        crate::scan::spec_assignment_eq(word.raw@) matches Some(e) ==> (r matches Ok(v) ==> v@.len() >= e + 1
            && v@.take(e + 1) == word.raw@.take(e + 1)),
        all_plain(crate::scan::colon_parts(declaration_value(word.raw@), 0, 0, 0, 0)) ==> match plain_assignment_value(
            crate::scan::colon_parts(declaration_value(word.raw@), 0, 0, 0, 0),
        ) {
            None => r is Err,
            Some(t) => r matches Ok(v) && v@ == declaration_name(word.raw@) + t,
        },
        all_plain_or_tilde(crate::scan::colon_parts(declaration_value(word.raw@), 0, 0, 0, 0)) ==> (r matches Ok(out)
            ==> out@.len() >= declaration_name(word.raw@).len() && out@.take(declaration_name(word.raw@).len() as int)
            == declaration_name(word.raw@) && assignment_fits(
            &*old(ctx),
            crate::scan::colon_parts(declaration_value(word.raw@), 0, 0, 0, 0),
            out@.skip(declaration_name(word.raw@).len() as int),
        )),
        all_plain_or_tilde(crate::scan::colon_parts(declaration_value(word.raw@), 0, 0, 0, 0)) && parts_close(
            crate::scan::colon_parts(declaration_value(word.raw@), 0, 0, 0, 0),
        ) ==> r is Ok,
        all_plain_or_names(crate::scan::colon_parts(declaration_value(word.raw@), 0, 0, 0, 0)) ==> match r {
            Ok(out) => out@.len() >= declaration_name(word.raw@).len() && out@.take(declaration_name(word.raw@).len() as int)
                == declaration_name(word.raw@) && assignment_value_fits(
                &*old(ctx),
                crate::scan::colon_parts(declaration_value(word.raw@), 0, 0, 0, 0),
                Ok::<Seq<u8>, Seq<u8>>(out@.skip(declaration_name(word.raw@).len() as int)),
            ),
            Err(e) => assignment_value_fits(
                &*old(ctx),
                crate::scan::colon_parts(declaration_value(word.raw@), 0, 0, 0, 0),
                Err::<Seq<u8>, Seq<u8>>(e.message@),
            ),
        },
        all_plain_or_names(crate::scan::colon_parts(declaration_value(word.raw@), 0, 0, 0, 0)) && plain_parts_close(
            crate::scan::colon_parts(declaration_value(word.raw@), 0, 0, 0, 0),
        ) && crate::params::nounset_off(&*old(ctx)) ==> r is Ok,
{
    let ghost c0 = *ctx;
    ctx.set_lineno(word.line);
    let ghost c1 = *ctx;
    assert(crate::params::answers_alike(&c1, &c0));
    let raw = word.raw.as_slice();
    let value_raw: &[u8] = match crate::scan::word_assignment_value(raw) {
        Some(v) => v,
        None => raw,
    };
    proof {
        if raw@.len() > 0 {
            crate::scan::lemma_name_end_bounds(raw@, 1);
        }
    }
    assert(value_raw@.len() <= raw@.len());
    assert(crate::scan::spec_assignment_eq(raw@) matches Some(e) ==> value_raw@.len() == raw@.len() - (e + 1));
    let name = vstd::slice::slice_subrange(raw, 0, raw.len() - value_raw.len());
    let value_word = crate::context::Word { raw: vstd::slice::slice_to_vec(value_raw), line: word.line };
    assert(value_word.raw@ =~= declaration_value(word.raw@));
    let step = expand_word_text_assignment(ctx, &value_word, true);
    proof {
        let parts = crate::scan::colon_parts(declaration_value(word.raw@), 0, 0, 0, 0);
        assert(value_word.raw@ == declaration_value(word.raw@));
        if all_plain_or_names(parts) {
            lemma_assignment_value_alike(&c1, &c0, parts, text_view(step));
        }
        assert forall|b: bool| #[trigger] call_ensures(C::nounset_enabled, (&c1,), b) == call_ensures(
            C::nounset_enabled,
            (&c0,),
            b,
        ) by {}
    }
    let mut expanded_value = match step {
        Ok(v) => v,
        Err(e) => {
            return Err(e);
        },
    };
    let ghost ev = expanded_value@;
    let mut combined = vstd::slice::slice_to_vec(name);
    combined.append(&mut expanded_value);
    proof {
        assert(value_word.raw@ == declaration_value(word.raw@));
        assert(name@ =~= declaration_name(word.raw@));
        let parts = crate::scan::colon_parts(declaration_value(word.raw@), 0, 0, 0, 0);
        if all_plain_or_tilde(parts) {
            lemma_assignment_alike(&c1, &c0, parts, ev);
            assert(combined@.take(name@.len() as int) =~= name@);
            assert(combined@.skip(name@.len() as int) =~= ev);
        }
        if all_plain_or_names(parts) {
            assert(combined@.take(name@.len() as int) =~= name@);
            assert(combined@.skip(name@.len() as int) =~= ev);
        }
        if crate::scan::spec_assignment_eq(word.raw@) is Some {
            assert(combined@.take(name@.len() as int) =~= name@);
            assert(name@ =~= word.raw@.take(name@.len() as int));
        }
    }
    Ok(combined)
}

// ---------------------------------------------------------------------
// Quoting
// ---------------------------------------------------------------------

proof fn lemma_skip_single_plain(raw: Seq<u8>, i: int, end: int)
    requires
        0 <= i <= end <= raw.len(),
        forall|k: int| i <= k < end ==> raw[k] != SQUOTE,
        end == raw.len() || raw[end] == SQUOTE,
    ensures
        skip_single(raw, i) == end,
    decreases end - i,
{
    if i < end {
        lemma_skip_single_plain(raw, i + 1, end);
    }
}

/// Single quotes keep text as it is: a word that is text without `'`,
/// `$` or backquote in single quotes expands to exactly that text, as one
/// field, even where the text is empty or holds blanks or glob
/// characters.
pub proof fn law_single_quotes_keep_text(t: Seq<u8>)
    requires
        forall|k: int| 0 <= k < t.len() ==> #[trigger] t[k] != SQUOTE && t[k] != DOLLAR && t[k] != BACKQUOTE,
    ensures
        is_simple_word(seq![SQUOTE] + t + seq![SQUOTE]),
        spec_word_fields(seq![SQUOTE] + t + seq![SQUOTE]) == seq![t],
{
    let w = seq![SQUOTE] + t + seq![SQUOTE];
    assert forall|k: int| 0 <= k < w.len() implies #[trigger] w[k] != DOLLAR && w[k] != BACKQUOTE by {
        if 0 < k < w.len() - 1 {
            assert(w[k] == t[k - 1]);
        }
    }
    assert(w[0] == SQUOTE);
    assert forall|k: int| 1 <= k < w.len() - 1 implies w[k] != SQUOTE by {
        assert(w[k] == t[k - 1]);
    }
    lemma_skip_single_plain(w, 1, w.len() - 1);
    let segs = spec_push_segment(Seq::<SegView>::empty(), w.subrange(1, w.len() - 1), QuoteState::Quoted);
    assert(w.subrange(1, w.len() - 1) =~= t);
    assert(plain_run(w, w.len() as int, segs, true) == Some((segs, true)));
    assert(spec_unquote(w) == Some((segs, true)));
    if t.len() > 0 {
        assert(segs =~= seq![SegView::Text(t, QuoteState::Quoted)]);
        assert(flatten(segs) =~= t) by {
            assert(segs.drop_last() =~= Seq::<SegView>::empty());
            reveal_with_fuel(flatten, 2);
        }
        assert(!crate::segments::any_unquoted_glob(segs)) by {
            if crate::segments::any_unquoted_glob(segs) {
                let j = choose|j: int| 0 <= j < segs.len() && #[trigger] crate::segments::seg_has_unquoted_glob(segs[j]);
                assert(j == 0);
            }
        }
    } else {
        assert(segs =~= Seq::<SegView>::empty());
        assert(t =~= Seq::<u8>::empty());
        assert(seq![Seq::<u8>::empty()] =~= seq![t]);
    }
}

/// A backslash quotes the byte after it: the word `\c` (for a byte other
/// than `$` and backquote) expands to the one field `c`, even for a
/// blank or a glob character.
pub proof fn law_backslash_quotes_one_byte(c: u8)
    requires
        c != DOLLAR,
        c != BACKQUOTE,
    ensures
        is_simple_word(seq![BACKSLASH, c]),
        spec_word_fields(seq![BACKSLASH, c]) == seq![seq![c]],
{
    let w = seq![BACKSLASH, c];
    let segs = spec_push_segment(Seq::<SegView>::empty(), seq![w[1]], QuoteState::Quoted);
    assert(plain_run(w, 2, segs, false) == Some((segs, false)));
    assert(spec_unquote(w) == Some((segs, false)));
    assert(segs =~= seq![SegView::Text(seq![c], QuoteState::Quoted)]);
    assert(flatten(segs) =~= seq![c]) by {
        assert(segs.drop_last() =~= Seq::<SegView>::empty());
        reveal_with_fuel(flatten, 2);
    }
    assert(!crate::segments::any_unquoted_glob(segs)) by {
        if crate::segments::any_unquoted_glob(segs) {
            let j = choose|j: int| 0 <= j < segs.len() && #[trigger] crate::segments::seg_has_unquoted_glob(segs[j]);
            assert(j == 0);
        }
    }
}

} // verus!
