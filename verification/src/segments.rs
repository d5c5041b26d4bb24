//! The pieces of an expanded word, field splitting and the forms a word
//! takes after expansion.

use vstd::prelude::*;
use crate::chars::{spec_is_ws, is_ws, BACKSLASH, LBRACKET, QUESTION, STAR};
use crate::glob::{escape_all, pattern_matches, spec_pattern_matches};

verus! {

/// How a piece of an expanded word was quoted, which decides whether it is
/// split into fields and whether its glob characters are active.
#[derive(Debug, Clone, Copy, PartialEq, Eq, Structural)]
pub enum QuoteState {
    Quoted,
    Literal,
    Expanded,
}

/// A piece of an expanded word: text with its quoting, or the boundary
/// between two positional parameters of `"$@"` (`AtBreak`), or a `"$@"`
/// that expanded to no parameters (`AtEmpty`).
#[derive(Debug, Clone, PartialEq, Eq)]
pub enum Segment {
    Text(Vec<u8>, QuoteState),
    AtBreak,
    AtEmpty,
}

/// The result of one `$` expansion: one string, or the separate fields of
/// a quoted `$@`.
#[derive(Debug, PartialEq, Eq)]
pub enum Expansion {
    One(Vec<u8>),
    AtFields(Vec<Vec<u8>>),
}

/// A field after splitting, and whether it holds a glob character that no
/// quoting made literal.
#[derive(Debug, PartialEq, Eq)]
pub struct Field {
    pub text: Vec<u8>,
    pub has_unquoted_glob: bool,
}

/// The mathematical value of a segment.
pub enum SegView {
    Text(Seq<u8>, QuoteState),
    AtBreak,
    AtEmpty,
}

pub open spec fn seg_view(s: Segment) -> SegView {
    match s {
        Segment::Text(t, q) => SegView::Text(t@, q),
        Segment::AtBreak => SegView::AtBreak,
        Segment::AtEmpty => SegView::AtEmpty,
    }
}

pub open spec fn segs_view(s: Seq<Segment>) -> Seq<SegView> {
    s.map_values(|x: Segment| seg_view(x))
}

/// The text of all text segments, in order.
pub open spec fn flatten(s: Seq<SegView>) -> Seq<u8>
    decreases s.len(),
{
    if s.len() == 0 {
        Seq::empty()
    } else {
        flatten(s.drop_last()) + match s.last() {
            SegView::Text(t, _) => t,
            _ => Seq::empty(),
        }
    }
}

/// Appending `text` with quoting `state`: nothing for empty text, else
/// merged into a last text segment of the same quoting, else a new segment.
pub open spec fn spec_push_segment(s: Seq<SegView>, text: Seq<u8>, state: QuoteState) -> Seq<SegView> {
    if text.len() == 0 {
        s
    } else if s.len() > 0 {
        match s.last() {
            SegView::Text(t, q) => if q == state {
                s.drop_last().push(SegView::Text(t + text, state))
            } else {
                s.push(SegView::Text(text, state))
            },
            _ => s.push(SegView::Text(text, state)),
        }
    } else {
        s.push(SegView::Text(text, state))
    }
}

/// Whether a byte is a glob character (`*`, `?`, `[`).
pub open spec fn spec_is_glob_byte(b: u8) -> bool {
    b == STAR || b == QUESTION || b == LBRACKET
}

pub fn is_glob_byte(b: u8) -> (r: bool)
    ensures
        r == spec_is_glob_byte(b),
{
    b == STAR || b == QUESTION || b == LBRACKET
}

pub proof fn lemma_flatten_push(s: Seq<SegView>, text: Seq<u8>, state: QuoteState)
    ensures
        flatten(spec_push_segment(s, text, state)) == flatten(s) + text,
{
    let r = spec_push_segment(s, text, state);
    if text.len() == 0 {
        assert(flatten(s) + text =~= flatten(s));
    } else if s.len() > 0 {
        match s.last() {
            SegView::Text(t, q) => {
                if q == state {
                    assert(r.drop_last() =~= s.drop_last());
                    assert(flatten(s) == flatten(s.drop_last()) + t);
                    assert(flatten(r) =~= flatten(s) + text);
                } else {
                    assert(r.drop_last() =~= s);
                }
            },
            _ => {
                assert(r.drop_last() =~= s);
            },
        }
    } else {
        assert(r.drop_last() =~= s);
    }
}

/// Appends `text` with quoting `state` to the segments.
pub fn push_segment(segments: &mut Vec<Segment>, text: Vec<u8>, state: QuoteState)
    ensures
        segs_view(final(segments)@) == spec_push_segment(segs_view(old(segments)@), text@, state),
        flatten(segs_view(final(segments)@)) == flatten(segs_view(old(segments)@)) + text@,
{
    proof { lemma_flatten_push(segs_view(segments@), text@, state); }
    if text.len() == 0 {
        return;
    }
    let ghost old_view = segs_view(segments@);
    match segments.pop() {
        Some(Segment::Text(mut last, last_state)) => {
            if last_state == state {
                let mut t = text;
                last.append(&mut t);
                segments.push(Segment::Text(last, state));
                assert(segs_view(segments@) =~= spec_push_segment(old_view, text@, state));
            } else {
                segments.push(Segment::Text(last, last_state));
                segments.push(Segment::Text(text, state));
                assert(segs_view(segments@) =~= spec_push_segment(old_view, text@, state));
            }
        },
        Some(other) => {
            segments.push(other);
            segments.push(Segment::Text(text, state));
            assert(segs_view(segments@) =~= spec_push_segment(old_view, text@, state));
        },
        None => {
            segments.push(Segment::Text(text, state));
            assert(segs_view(segments@) =~= spec_push_segment(old_view, text@, state));
        },
    }
}

/// Appends a copy of `text` with quoting `state` to the segments.
pub fn push_segment_slice(segments: &mut Vec<Segment>, text: &[u8], state: QuoteState)
    ensures
        segs_view(final(segments)@) == spec_push_segment(segs_view(old(segments)@), text@, state),
        flatten(segs_view(final(segments)@)) == flatten(segs_view(old(segments)@)) + text@,
{
    push_segment(segments, vstd::slice::slice_to_vec(text), state);
}

/// The text of all text segments.
pub fn flatten_segments(segments: &[Segment]) -> (r: Vec<u8>)
    ensures
        r@ == flatten(segs_view(segments@)),
{
    let mut result: Vec<u8> = Vec::new();
    let mut i: usize = 0;
    while i < segments.len()
        invariant
            i <= segments.len(),
            result@ == flatten(segs_view(segments@).take(i as int)),
        decreases segments.len() - i,
    {
        assert(segs_view(segments@).take(i + 1).drop_last() =~= segs_view(segments@).take(i as int));
        match &segments[i] {
            Segment::Text(part, _) => {
                result.extend_from_slice(part.as_slice());
            },
            _ => {
                assert(result@ + Seq::<u8>::empty() =~= result@);
            },
        }
        i += 1;
    }
    assert(segs_view(segments@).take(segments.len() as int) =~= segs_view(segments@));
    result
}

/// The pattern that a word's segments stand for: quoted text is escaped,
/// so that only unquoted glob characters stay active.
pub open spec fn spec_render_pattern(s: Seq<SegView>) -> Seq<u8>
    decreases s.len(),
{
    if s.len() == 0 {
        Seq::empty()
    } else {
        spec_render_pattern(s.drop_last()) + match s.last() {
            SegView::Text(t, q) => if q == QuoteState::Quoted { escape_all(t) } else { t },
            _ => Seq::empty(),
        }
    }
}

proof fn lemma_escape_all_push(s: Seq<u8>, b: u8)
    ensures
        escape_all(s.push(b)) == escape_all(s) + seq![BACKSLASH, b],
    decreases s.len(),
{
    if s.len() == 0 {
        assert(s.push(b).drop_first() =~= Seq::<u8>::empty());
        assert(escape_all(Seq::<u8>::empty()) == Seq::<u8>::empty());
        assert(s.push(b)[0] == b);
        assert(escape_all(s.push(b)) == seq![BACKSLASH, b] + escape_all(Seq::<u8>::empty()));
        assert(escape_all(s.push(b)) =~= seq![BACKSLASH, b]);
        assert(escape_all(s) == Seq::<u8>::empty());
    } else {
        lemma_escape_all_push(s.drop_first(), b);
        assert(s.push(b).drop_first() =~= s.drop_first().push(b));
        assert(escape_all(s.push(b)) =~= escape_all(s) + seq![BACKSLASH, b]);
    }
}

/// Builds the pattern that a word's segments stand for.
pub fn render_pattern_from_segments(segments: &[Segment]) -> (r: Vec<u8>)
    ensures
        r@ == spec_render_pattern(segs_view(segments@)),
{
    let mut pattern: Vec<u8> = Vec::new();
    let mut i: usize = 0;
    while i < segments.len()
        invariant
            i <= segments.len(),
            pattern@ == spec_render_pattern(segs_view(segments@).take(i as int)),
        decreases segments.len() - i,
    {
        assert(segs_view(segments@).take(i + 1).drop_last() =~= segs_view(segments@).take(i as int));
        match &segments[i] {
            Segment::Text(text, state) => {
                if *state == QuoteState::Quoted {
                    let ghost before = pattern@;
                    let mut k: usize = 0;
                    while k < text.len()
                        invariant
                            k <= text.len(),
                            pattern@ == before + escape_all(text@.take(k as int)),
                        decreases text.len() - k,
                    {
                        proof { lemma_escape_all_push(text@.take(k as int), text@[k as int]); }
                        assert(text@.take(k + 1) =~= text@.take(k as int).push(text@[k as int]));
                        pattern.push(BACKSLASH);
                        pattern.push(text[k]);
                        assert(pattern@ =~= before + escape_all(text@.take(k + 1)));
                        k += 1;
                    }
                    assert(text@.take(text.len() as int) =~= text@);
                } else {
                    pattern.extend_from_slice(text.as_slice());
                }
            },
            _ => {
                assert(pattern@ + Seq::<u8>::empty() =~= pattern@);
            },
        }
        i += 1;
    }
    assert(segs_view(segments@).take(segments.len() as int) =~= segs_view(segments@));
    pattern
}

/// A word whose text was all quoted stands for a pattern that matches
/// exactly that text.
pub proof fn law_quoted_word_pattern_matches_only_its_text(text: Seq<u8>, t: Seq<u8>)
    ensures
        spec_pattern_matches(t, spec_render_pattern(seq![SegView::Text(text, QuoteState::Quoted)])) == (t == text),
{
    let s = seq![SegView::Text(text, QuoteState::Quoted)];
    assert(s.drop_last() =~= Seq::<SegView>::empty());
    assert(spec_render_pattern(Seq::<SegView>::empty()) == Seq::<u8>::empty());
    assert(spec_render_pattern(s) == spec_render_pattern(s.drop_last()) + escape_all(text));
    assert(spec_render_pattern(s) =~= escape_all(text));
    crate::glob::law_escaped_pattern_matches_itself_only(t, text);
}


// ---------------------------------------------------------------------
// Field splitting
// ---------------------------------------------------------------------

/// Each byte of the text segments with the quoting of its segment.
pub open spec fn spec_chars(s: Seq<SegView>) -> Seq<(u8, QuoteState)>
    decreases s.len(),
{
    if s.len() == 0 {
        Seq::empty()
    } else {
        spec_chars(s.drop_last()) + match s.last() {
            SegView::Text(t, q) => t.map_values(|b: u8| (b, q)),
            _ => Seq::empty(),
        }
    }
}

/// Each byte of the text segments with the quoting of its segment.
pub fn segment_bytes(segments: &[Segment]) -> (r: Vec<(u8, QuoteState)>)
    ensures
        r@ == spec_chars(segs_view(segments@)),
{
    let mut out: Vec<(u8, QuoteState)> = Vec::new();
    let mut i: usize = 0;
    while i < segments.len()
        invariant
            i <= segments.len(),
            out@ == spec_chars(segs_view(segments@).take(i as int)),
        decreases segments.len() - i,
    {
        assert(segs_view(segments@).take(i + 1).drop_last() =~= segs_view(segments@).take(i as int));
        match &segments[i] {
            Segment::Text(text, state) => {
                let ghost before = out@;
                let mut k: usize = 0;
                while k < text.len()
                    invariant
                        k <= text.len(),
                        out@ == before + text@.take(k as int).map_values(|b: u8| (b, *state)),
                    decreases text.len() - k,
                {
                    out.push((text[k], *state));
                    assert(out@ =~= before + text@.take(k + 1).map_values(|b: u8| (b, *state)));
                    k += 1;
                }
                assert(text@.take(text.len() as int) =~= text@);
            },
            _ => {
                assert(out@ + Seq::<(u8, QuoteState)>::empty() =~= out@);
            },
        }
        i += 1;
    }
    assert(segs_view(segments@).take(segments.len() as int) =~= segs_view(segments@));
    out
}

/// `b` is an IFS whitespace byte.
pub open spec fn ifs_ws(ifs: Seq<u8>, b: u8) -> bool {
    ifs.contains(b) && spec_is_ws(b)
}

/// `b` is an IFS byte other than whitespace.
pub open spec fn ifs_other(ifs: Seq<u8>, b: u8) -> bool {
    ifs.contains(b) && !spec_is_ws(b)
}

/// The index after the run of unquoted IFS whitespace that starts at `i`.
pub open spec fn skip_ifs_ws(cs: Seq<(u8, QuoteState)>, ifs: Seq<u8>, i: int) -> int
    decreases cs.len() - i,
{
    if 0 <= i < cs.len() && cs[i].1 == QuoteState::Expanded && ifs_ws(ifs, cs[i].0) {
        skip_ifs_ws(cs, ifs, i + 1)
    } else {
        i
    }
}

/// The fields that splitting `cs[i..]` adds to a field `cur` in progress
/// (whose glob flag is `glob`): unquoted expansion results are split at
/// IFS bytes; IFS whitespace around a split counts once, and empty fields
/// come only from non-whitespace IFS bytes.
pub open spec fn spec_split(cs: Seq<(u8, QuoteState)>, ifs: Seq<u8>, i: int, cur: Seq<u8>, glob: bool) -> Seq<(Seq<u8>, bool)>
    decreases cs.len() - i,
{
    if i < 0 || i >= cs.len() {
        if cur.len() > 0 { seq![(cur, glob)] } else { Seq::empty() }
    } else {
        let b = cs[i].0;
        let st = cs[i].1;
        let sp = st == QuoteState::Expanded;
        let k = skip_ifs_ws(cs, ifs, i + 1);
        if sp && ifs_other(ifs, b) {
            if k <= i || k > cs.len() { Seq::empty() } else { seq![(cur, glob)] + spec_split(cs, ifs, k, Seq::empty(), false) }
        } else if sp && ifs_ws(ifs, b) {
            if k <= i || k > cs.len() {
                Seq::empty()
            } else if cur.len() > 0 {
                seq![(cur, glob)] + spec_split(cs, ifs, k, Seq::empty(), false)
            } else {
                spec_split(cs, ifs, k, cur, glob)
            }
        } else {
            spec_split(cs, ifs, i + 1, cur.push(b), glob || (st != QuoteState::Quoted && spec_is_glob_byte(b)))
        }
    }
}

/// A text segment that is not quoted and holds a glob byte.
pub open spec fn seg_has_unquoted_glob(v: SegView) -> bool {
    match v {
        SegView::Text(t, q) => q != QuoteState::Quoted && has_glob_byte(t),
        _ => false,
    }
}

/// Some byte of `t` is a glob byte.
pub open spec fn has_glob_byte(t: Seq<u8>) -> bool {
    exists|k: int| 0 <= k < t.len() && spec_is_glob_byte(#[trigger] t[k])
}

/// Some text segment that is not quoted holds a glob byte.
pub open spec fn any_unquoted_glob(s: Seq<SegView>) -> bool {
    exists|j: int| 0 <= j < s.len() && #[trigger] seg_has_unquoted_glob(s[j])
}

/// The fields of a word: one field of the whole text for an empty IFS,
/// else the fields of [`spec_split`].
pub open spec fn spec_split_fields(s: Seq<SegView>, ifs: Seq<u8>) -> Seq<(Seq<u8>, bool)> {
    if ifs.len() == 0 {
        seq![(flatten(s), any_unquoted_glob(s))]
    } else {
        spec_split(spec_chars(s), ifs, 0, Seq::empty(), false)
    }
}

pub open spec fn fields_view(f: Seq<Field>) -> Seq<(Seq<u8>, bool)> {
    f.map_values(|x: Field| (x.text@, x.has_unquoted_glob))
}

proof fn lemma_skip_ifs_ws(cs: Seq<(u8, QuoteState)>, ifs: Seq<u8>, i: int)
    requires
        0 <= i <= cs.len(),
    ensures
        i <= skip_ifs_ws(cs, ifs, i) <= cs.len(),
    decreases cs.len() - i,
{
    if i < cs.len() && cs[i].1 == QuoteState::Expanded && ifs_ws(ifs, cs[i].0) {
        lemma_skip_ifs_ws(cs, ifs, i + 1);
    }
}

/// Whether `b` occurs in `s`.
pub fn byte_in(s: &[u8], b: u8) -> (r: bool)
    ensures
        r == s@.contains(b),
{
    let mut i: usize = 0;
    while i < s.len()
        invariant
            i <= s.len(),
            forall|j: int| 0 <= j < i ==> s@[j] != b,
        decreases s.len() - i,
    {
        if s[i] == b {
            assert(s@[i as int] == b);
            return true;
        }
        i += 1;
    }
    false
}

/// Whether some unquoted text segment holds a glob byte.
pub fn has_unquoted_glob_segment(segments: &[Segment]) -> (r: bool)
    ensures
        r == any_unquoted_glob(segs_view(segments@)),
{
    let ghost s = segs_view(segments@);
    let mut i: usize = 0;
    while i < segments.len()
        invariant
            i <= segments.len(),
            s == segs_view(segments@),
            forall|j: int| 0 <= j < i ==> !#[trigger] seg_has_unquoted_glob(s[j]),
        decreases segments.len() - i,
    {
        match &segments[i] {
            Segment::Text(text, state) => {
                if *state != QuoteState::Quoted {
                    assert(s[i as int] == SegView::Text(text@, *state));
                    let mut k: usize = 0;
                    while k < text.len()
                        invariant
                            k <= text.len(),
                            i < segments.len(),
                            s == segs_view(segments@),
                            s[i as int] == SegView::Text(text@, *state),
                            *state != QuoteState::Quoted,
                            forall|m: int| 0 <= m < k ==> !spec_is_glob_byte(#[trigger] text@[m]),
                        decreases text.len() - k,
                    {
                        if is_glob_byte(text[k]) {
                            assert(spec_is_glob_byte(text@[k as int]));
                            assert(has_glob_byte(text@));
                            let ghost q = *state;
                            assert(q != QuoteState::Quoted);
                            assert(seg_has_unquoted_glob(SegView::Text(text@, q)));
                            assert(seg_has_unquoted_glob(s[i as int]));
                            return true;
                        }
                        k += 1;
                    }
                    assert(!seg_has_unquoted_glob(s[i as int]));
                } else {
                    assert(!seg_has_unquoted_glob(s[i as int]));
                }
            },
            _ => {},
        }
        i += 1;
    }
    false
}

/// Splits the text of an expanded word into fields at the IFS bytes that
/// unquoted expansions produced.
pub fn split_fields_from_segments(segments: &[Segment], ifs: &[u8]) -> (r: Vec<Field>)
    ensures
        fields_view(r@) == spec_split_fields(segs_view(segments@), ifs@),
{
    if ifs.len() == 0 {
        let f = Field { text: flatten_segments(segments), has_unquoted_glob: has_unquoted_glob_segment(segments) };
        let mut v: Vec<Field> = Vec::new();
        v.push(f);
        assert(fields_view(v@) =~= spec_split_fields(segs_view(segments@), ifs@));
        return v;
    }
    let chars = segment_bytes(segments);
    let ghost cs = chars@;
    let mut fields: Vec<Field> = Vec::new();
    let mut current: Vec<u8> = Vec::new();
    let mut current_glob = false;
    let mut index: usize = 0;
    assert(fields_view(fields@) =~= Seq::<(Seq<u8>, bool)>::empty());
    while index < chars.len()
        invariant
            index <= chars.len(),
            cs == chars@,
            fields_view(fields@) + spec_split(cs, ifs@, index as int, current@, current_glob)
                == spec_split(cs, ifs@, 0, Seq::empty(), false),
        decreases chars.len() - index,
    {
        let (b, state) = chars[index];
        let splittable = state == QuoteState::Expanded;
        let ghost gi = index as int;
        proof { lemma_skip_ifs_ws(cs, ifs@, gi + 1); }
        let in_ifs = byte_in(ifs, b);
        let ws = is_ws(b);
        if splittable && in_ifs && !ws {
            let ghost fv = fields_view(fields@);
            let ghost cur = current@;
            let ghost g = current_glob;
            let mut done: Vec<u8> = Vec::new();
            std::mem::swap(&mut done, &mut current);
            fields.push(Field { text: done, has_unquoted_glob: current_glob });
            assert(fields_view(fields@) =~= fv.push((cur, g)));
            current_glob = false;
            index += 1;
            while index < chars.len() && chars[index].1 == QuoteState::Expanded && byte_in(ifs, chars[index].0)
                && is_ws(chars[index].0)
                invariant
                    gi < index <= chars.len(),
                    cs == chars@,
                    skip_ifs_ws(cs, ifs@, index as int) == skip_ifs_ws(cs, ifs@, gi + 1),
                decreases chars.len() - index,
            {
                index += 1;
            }
            assert(fv + (seq![(cur, g)] + spec_split(cs, ifs@, index as int, Seq::empty(), false))
                =~= fields_view(fields@) + spec_split(cs, ifs@, index as int, current@, current_glob));
            continue;
        }
        if splittable && in_ifs && ws {
            let ghost fv = fields_view(fields@);
            let ghost cur = current@;
            let ghost g = current_glob;
            if current.len() > 0 {
                let mut done: Vec<u8> = Vec::new();
                std::mem::swap(&mut done, &mut current);
                fields.push(Field { text: done, has_unquoted_glob: current_glob });
                assert(fields_view(fields@) =~= fv.push((cur, g)));
                current_glob = false;
            }
            index += 1;
            while index < chars.len() && chars[index].1 == QuoteState::Expanded && byte_in(ifs, chars[index].0)
                && is_ws(chars[index].0)
                invariant
                    gi < index <= chars.len(),
                    cs == chars@,
                    skip_ifs_ws(cs, ifs@, index as int) == skip_ifs_ws(cs, ifs@, gi + 1),
                decreases chars.len() - index,
            {
                index += 1;
            }
            proof {
                if cur.len() > 0 {
                    assert(fv + (seq![(cur, g)] + spec_split(cs, ifs@, index as int, Seq::empty(), false))
                        =~= fields_view(fields@) + spec_split(cs, ifs@, index as int, current@, current_glob));
                }
            }
            continue;
        }
        current_glob = current_glob || (state != QuoteState::Quoted && is_glob_byte(b));
        current.push(b);
        index += 1;
    }
    let ghost fv = fields_view(fields@);
    if current.len() > 0 {
        fields.push(Field { text: current, has_unquoted_glob: current_glob });
        assert(fields_view(fields@) =~= spec_split(cs, ifs@, 0, Seq::empty(), false));
    } else {
        assert(fv + Seq::<(Seq<u8>, bool)>::empty() =~= fv);
    }
    fields
}


// ---------------------------------------------------------------------
// Words with "$@"
// ---------------------------------------------------------------------

/// A word after expansion, before field splitting.
#[derive(Debug)]
pub struct ExpandedWord {
    pub segments: Vec<Segment>,
    pub had_quoted_content: bool,
    pub had_quoted_null_outside_at: bool,
    pub has_at_expansion: bool,
}

/// The fields that the `"$@"` breaks of `s[i..]` make, the first of them
/// continuing `cur`; `AtEmpty` adds nothing.
pub open spec fn at_split(s: Seq<SegView>, i: int, cur: Seq<u8>) -> Seq<Seq<u8>>
    decreases s.len() - i,
{
    if i < 0 || i >= s.len() {
        seq![cur]
    } else {
        match s[i] {
            SegView::Text(t, _) => at_split(s, i + 1, cur + t),
            SegView::AtBreak => seq![cur] + at_split(s, i + 1, Seq::empty()),
            SegView::AtEmpty => at_split(s, i + 1, cur),
        }
    }
}

pub open spec fn has_at_break(s: Seq<SegView>) -> bool {
    exists|j: int| 0 <= j < s.len() && #[trigger] s[j] == SegView::AtBreak
}

pub open spec fn has_at_empty(s: Seq<SegView>) -> bool {
    exists|j: int| 0 <= j < s.len() && #[trigger] s[j] == SegView::AtEmpty
}

/// The fields of a word that holds a `"$@"`: an empty `"$@"` alone leaves
/// no field unless other text or a quoted empty string remains; otherwise
/// each parameter boundary starts a new field.
pub open spec fn spec_at_fields(s: Seq<SegView>, had_quoted_null_outside_at: bool) -> Seq<Seq<u8>> {
    if has_at_empty(s) && !has_at_break(s) {
        if flatten(s).len() > 0 || had_quoted_null_outside_at {
            seq![flatten(s)]
        } else {
            Seq::empty()
        }
    } else if !has_at_break(s) {
        seq![flatten(s)]
    } else {
        at_split(s, 0, Seq::empty())
    }
}

/// Whether some segment is an `AtBreak` (or, with `empty`, an `AtEmpty`).
pub fn find_at_marker(segments: &[Segment], empty: bool) -> (r: bool)
    ensures
        r == (if empty { has_at_empty(segs_view(segments@)) } else { has_at_break(segs_view(segments@)) }),
{
    let ghost s = segs_view(segments@);
    let mut i: usize = 0;
    while i < segments.len()
        invariant
            i <= segments.len(),
            s == segs_view(segments@),
            forall|j: int| 0 <= j < i ==> #[trigger] s[j] != (if empty { SegView::AtEmpty } else { SegView::AtBreak }),
        decreases segments.len() - i,
    {
        match &segments[i] {
            Segment::AtBreak => {
                if !empty {
                    assert(s[i as int] == SegView::AtBreak);
                    return true;
                }
            },
            Segment::AtEmpty => {
                if empty {
                    assert(s[i as int] == SegView::AtEmpty);
                    return true;
                }
            },
            _ => {},
        }
        i += 1;
    }
    false
}

/// Splits segments at the `"$@"` breaks.
pub fn split_at_breaks(segments: &[Segment]) -> (r: Vec<Vec<u8>>)
    ensures
        crate::bytes::views(r@) == at_split(segs_view(segments@), 0, Seq::empty()),
{
    let ghost s = segs_view(segments@);
    let mut fields: Vec<Vec<u8>> = Vec::new();
    let mut current: Vec<u8> = Vec::new();
    let mut i: usize = 0;
    assert(crate::bytes::views(fields@) =~= Seq::<Seq<u8>>::empty());
    while i < segments.len()
        invariant
            i <= segments.len(),
            s == segs_view(segments@),
            crate::bytes::views(fields@) + at_split(s, i as int, current@) == at_split(s, 0, Seq::empty()),
        decreases segments.len() - i,
    {
        match &segments[i] {
            Segment::Text(text, q) => {
                assert(s[i as int] == SegView::Text(text@, *q));
                let ghost cur = current@;
                assert(at_split(s, i as int, cur) == at_split(s, i + 1, cur + text@));
                current.extend_from_slice(text.as_slice());
                assert(current@ == cur + text@);
            },
            Segment::AtBreak => {
                assert(s[i as int] == SegView::AtBreak);
                let ghost fv = crate::bytes::views(fields@);
                let ghost cur = current@;
                assert(at_split(s, i as int, cur) == seq![cur] + at_split(s, i + 1, Seq::empty()));
                let mut done: Vec<u8> = Vec::new();
                std::mem::swap(&mut done, &mut current);
                fields.push(done);
                assert(crate::bytes::views(fields@) =~= fv.push(cur));
                assert(fv + (seq![cur] + at_split(s, i + 1, Seq::empty())) =~= crate::bytes::views(fields@)
                    + at_split(s, i + 1, current@));
            },
            Segment::AtEmpty => {
                assert(s[i as int] == SegView::AtEmpty);
                assert(at_split(s, i as int, current@) == at_split(s, i + 1, current@));
            },
        }
        i += 1;
    }
    let ghost fv = crate::bytes::views(fields@);
    fields.push(current);
    assert(crate::bytes::views(fields@) =~= fv.push(current@));
    fields
}

/// The fields of a word that holds a `"$@"`.
pub fn expand_word_with_at_fields(expanded: &ExpandedWord, had_quoted_null_outside_at: bool) -> (r: Result<Vec<Vec<u8>>, crate::context::ExpandError>)
    ensures
        r matches Ok(v) && crate::bytes::views(v@) == spec_at_fields(segs_view(expanded.segments@), had_quoted_null_outside_at),
{
    let segments = expanded.segments.as_slice();
    let at_empty = find_at_marker(segments, true);
    let at_break = find_at_marker(segments, false);
    if at_empty && !at_break {
        let text = flatten_segments(segments);
        if text.len() > 0 || had_quoted_null_outside_at {
            let mut v: Vec<Vec<u8>> = Vec::new();
            v.push(text);
            assert(crate::bytes::views(v@) =~= spec_at_fields(segs_view(segments@), had_quoted_null_outside_at));
            return Ok(v);
        }
        let v: Vec<Vec<u8>> = Vec::new();
        assert(crate::bytes::views(v@) =~= spec_at_fields(segs_view(segments@), had_quoted_null_outside_at));
        return Ok(v);
    }
    if !at_break {
        let mut v: Vec<Vec<u8>> = Vec::new();
        v.push(flatten_segments(segments));
        assert(crate::bytes::views(v@) =~= spec_at_fields(segs_view(segments@), had_quoted_null_outside_at));
        return Ok(v);
    }
    Ok(split_at_breaks(segments))
}

/// The text an expansion stands for where fields are not kept apart: the
/// fields of `"$@"` joined with spaces.
pub open spec fn spec_flatten_expansion(e: Expansion) -> Seq<u8> {
    match e {
        Expansion::One(s) => s@,
        Expansion::AtFields(f) => crate::bytes::spec_join(crate::bytes::views(f@), seq![crate::chars::SPACE]),
    }
}

/// The text an expansion stands for where fields are not kept apart.
pub fn flatten_expansion(expansion: Expansion) -> (r: Vec<u8>)
    ensures
        r@ == spec_flatten_expansion(expansion),
{
    match expansion {
        Expansion::One(s) => s,
        Expansion::AtFields(fields) => {
            let sep: Vec<u8> = vec![crate::chars::SPACE];
            let r = crate::bytes::join_bstrings(fields.as_slice(), sep.as_slice());
            assert(sep@ =~= seq![crate::chars::SPACE]);
            r
        },
    }
}

// ---------------------------------------------------------------------
// Pattern removal
// ---------------------------------------------------------------------

/// Which end of a value `${x%...}`, `${x%%...}`, `${x#...}` and
/// `${x##...}` trim, and whether the shortest or longest match goes.
#[derive(Clone, Copy, Debug, PartialEq, Eq, Structural)]
pub enum PatternRemoval {
    SmallestSuffix,
    LargestSuffix,
    SmallestPrefix,
    LargestPrefix,
}

/// The first `end` from `from` upwards whose prefix `v[..end]` matches `p`.
pub open spec fn first_prefix_up(v: Seq<u8>, p: Seq<u8>, from: int) -> Option<int>
    decreases v.len() + 1 - from,
{
    if from < 0 || from > v.len() {
        None
    } else if spec_pattern_matches(v.take(from), p) {
        Some(from)
    } else {
        first_prefix_up(v, p, from + 1)
    }
}

/// The first `end` from `from` downwards whose prefix matches `p`.
pub open spec fn first_prefix_down(v: Seq<u8>, p: Seq<u8>, from: int) -> Option<int>
    decreases from + 1,
{
    if from < 0 || from > v.len() {
        None
    } else if spec_pattern_matches(v.take(from), p) {
        Some(from)
    } else {
        first_prefix_down(v, p, from - 1)
    }
}

/// The first `start` from `from` upwards whose suffix `v[start..]` matches.
pub open spec fn first_suffix_up(v: Seq<u8>, p: Seq<u8>, from: int) -> Option<int>
    decreases v.len() + 1 - from,
{
    if from < 0 || from > v.len() {
        None
    } else if spec_pattern_matches(v.skip(from), p) {
        Some(from)
    } else {
        first_suffix_up(v, p, from + 1)
    }
}

/// The first `start` from `from` downwards whose suffix matches.
pub open spec fn first_suffix_down(v: Seq<u8>, p: Seq<u8>, from: int) -> Option<int>
    decreases from + 1,
{
    if from < 0 || from > v.len() {
        None
    } else if spec_pattern_matches(v.skip(from), p) {
        Some(from)
    } else {
        first_suffix_down(v, p, from - 1)
    }
}

/// The value with the matching prefix or suffix removed, or unchanged
/// where none matches.
pub open spec fn spec_remove_pattern(v: Seq<u8>, p: Seq<u8>, mode: PatternRemoval) -> Seq<u8> {
    match mode {
        PatternRemoval::SmallestPrefix => match first_prefix_up(v, p, 0) {
            Some(e) => v.skip(e),
            None => v,
        },
        PatternRemoval::LargestPrefix => match first_prefix_down(v, p, v.len() as int) {
            Some(e) => v.skip(e),
            None => v,
        },
        PatternRemoval::SmallestSuffix => match first_suffix_down(v, p, v.len() as int) {
            Some(s) => v.take(s),
            None => v,
        },
        PatternRemoval::LargestSuffix => match first_suffix_up(v, p, 0) {
            Some(s) => v.take(s),
            None => v,
        },
    }
}

/// Removes the shortest or longest prefix or suffix of `value` that
/// matches `pattern`.
pub fn remove_parameter_pattern(value: Vec<u8>, pattern: &[u8], mode: PatternRemoval) -> (r: Result<Vec<u8>, crate::context::ExpandError>)
    ensures
        r matches Ok(v) && v@ == spec_remove_pattern(value@, pattern@, mode),
{
    let v = value.as_slice();
    let n = v.len();
    match mode {
        PatternRemoval::SmallestPrefix => {
            let mut end: usize = 0;
            while end <= n
                invariant
                    end <= n + 1,
                    n == v.len(),
                    v@ == value@,
                    mode == PatternRemoval::SmallestPrefix,
                    first_prefix_up(v@, pattern@, 0) == first_prefix_up(v@, pattern@, end as int),
                ensures
                    first_prefix_up(v@, pattern@, 0) is None,
                decreases n + 1 - end,
            {
                let head = vstd::slice::slice_subrange(v, 0, end);
                assert(head@ =~= v@.take(end as int));
                if pattern_matches(head, pattern) {
                    let rest = vstd::slice::slice_to_vec(vstd::slice::slice_subrange(v, end, n));
                    assert(rest@ =~= v@.skip(end as int));
                    return Ok(rest);
                }
                if end == n {
                    assert(first_prefix_up(v@, pattern@, n + 1) is None);
                    break;
                }
                end += 1;
            }
        },
        PatternRemoval::LargestPrefix => {
            let mut end: usize = n;
            loop
                invariant
                    end <= n,
                    n == v.len(),
                    v@ == value@,
                    mode == PatternRemoval::LargestPrefix,
                    first_prefix_down(v@, pattern@, n as int) == first_prefix_down(v@, pattern@, end as int),
                ensures
                    first_prefix_down(v@, pattern@, n as int) is None,
                decreases end,
            {
                let head = vstd::slice::slice_subrange(v, 0, end);
                assert(head@ =~= v@.take(end as int));
                if pattern_matches(head, pattern) {
                    let rest = vstd::slice::slice_to_vec(vstd::slice::slice_subrange(v, end, n));
                    assert(rest@ =~= v@.skip(end as int));
                    return Ok(rest);
                }
                if end == 0 {
                    assert(first_prefix_down(v@, pattern@, -1) is None);
                    break;
                }
                end -= 1;
            }
        },
        PatternRemoval::SmallestSuffix => {
            let mut start: usize = n;
            loop
                invariant
                    start <= n,
                    n == v.len(),
                    v@ == value@,
                    mode == PatternRemoval::SmallestSuffix,
                    first_suffix_down(v@, pattern@, n as int) == first_suffix_down(v@, pattern@, start as int),
                ensures
                    first_suffix_down(v@, pattern@, n as int) is None,
                decreases start,
            {
                let tail = vstd::slice::slice_subrange(v, start, n);
                assert(tail@ =~= v@.skip(start as int));
                if pattern_matches(tail, pattern) {
                    let rest = vstd::slice::slice_to_vec(vstd::slice::slice_subrange(v, 0, start));
                    assert(rest@ =~= v@.take(start as int));
                    return Ok(rest);
                }
                if start == 0 {
                    assert(first_suffix_down(v@, pattern@, -1) is None);
                    break;
                }
                start -= 1;
            }
        },
        PatternRemoval::LargestSuffix => {
            let mut start: usize = 0;
            while start <= n
                invariant
                    start <= n + 1,
                    n == v.len(),
                    v@ == value@,
                    mode == PatternRemoval::LargestSuffix,
                    first_suffix_up(v@, pattern@, 0) == first_suffix_up(v@, pattern@, start as int),
                ensures
                    first_suffix_up(v@, pattern@, 0) is None,
                decreases n + 1 - start,
            {
                let tail = vstd::slice::slice_subrange(v, start, n);
                assert(tail@ =~= v@.skip(start as int));
                if pattern_matches(tail, pattern) {
                    let rest = vstd::slice::slice_to_vec(vstd::slice::slice_subrange(v, 0, start));
                    assert(rest@ =~= v@.take(start as int));
                    return Ok(rest);
                }
                if start == n {
                    assert(first_suffix_up(v@, pattern@, n + 1) is None);
                    break;
                }
                start += 1;
            }
        },
    }
    Ok(value)
}

proof fn lemma_prefix_up_found(v: Seq<u8>, p: Seq<u8>, from: int)
    ensures
        first_prefix_up(v, p, from) matches Some(e) ==> from <= e <= v.len() && spec_pattern_matches(v.take(e), p),
    decreases v.len() + 1 - from,
{
    if 0 <= from <= v.len() && !spec_pattern_matches(v.take(from), p) {
        lemma_prefix_up_found(v, p, from + 1);
    }
}

proof fn lemma_prefix_down_reaches(v: Seq<u8>, p: Seq<u8>, from: int, e: int)
    requires
        0 <= e <= from <= v.len(),
        spec_pattern_matches(v.take(e), p),
    ensures
        first_prefix_down(v, p, from) matches Some(e2) && e <= e2 <= from,
    decreases from,
{
    if !spec_pattern_matches(v.take(from), p) {
        lemma_prefix_down_reaches(v, p, from - 1, e);
    }
}

proof fn lemma_suffix_down_found(v: Seq<u8>, p: Seq<u8>, from: int)
    ensures
        first_suffix_down(v, p, from) matches Some(s) ==> 0 <= s <= from && spec_pattern_matches(v.skip(s), p),
    decreases from + 1,
{
    if 0 <= from <= v.len() && !spec_pattern_matches(v.skip(from), p) {
        lemma_suffix_down_found(v, p, from - 1);
    }
}

proof fn lemma_suffix_up_reaches(v: Seq<u8>, p: Seq<u8>, from: int, s: int)
    requires
        0 <= from <= s <= v.len(),
        spec_pattern_matches(v.skip(s), p),
    ensures
        first_suffix_up(v, p, from) matches Some(s2) && from <= s2 <= s,
    decreases v.len() + 1 - from,
{
    if !spec_pattern_matches(v.skip(from), p) {
        lemma_suffix_up_reaches(v, p, from + 1, s);
    }
}

/// Removing the largest matching prefix (`##`) leaves no more than
/// removing the smallest (`#`), and likewise for suffixes (`%%` and `%`);
/// what is left is always a suffix (for `#`, `##`) or a prefix (for `%`,
/// `%%`) of the value.
pub proof fn law_largest_removal_removes_more(v: Seq<u8>, p: Seq<u8>)
    ensures
        spec_remove_pattern(v, p, PatternRemoval::LargestPrefix).len() <= spec_remove_pattern(v, p, PatternRemoval::SmallestPrefix).len(),
        spec_remove_pattern(v, p, PatternRemoval::LargestSuffix).len() <= spec_remove_pattern(v, p, PatternRemoval::SmallestSuffix).len(),
        spec_remove_pattern(v, p, PatternRemoval::SmallestPrefix).is_suffix_of(v),
        spec_remove_pattern(v, p, PatternRemoval::LargestPrefix).is_suffix_of(v),
        spec_remove_pattern(v, p, PatternRemoval::SmallestSuffix).is_prefix_of(v),
        spec_remove_pattern(v, p, PatternRemoval::LargestSuffix).is_prefix_of(v),
{
    lemma_prefix_up_found(v, p, 0);
    match first_prefix_up(v, p, 0) {
        Some(e) => {
            lemma_prefix_down_reaches(v, p, v.len() as int, e);
        },
        None => {},
    }
    lemma_prefix_down_found(v, p, v.len() as int);
    lemma_suffix_down_found(v, p, v.len() as int);
    match first_suffix_down(v, p, v.len() as int) {
        Some(s) => {
            lemma_suffix_up_reaches(v, p, 0, s);
        },
        None => {},
    }
    lemma_suffix_up_found(v, p, 0);
    match first_prefix_down(v, p, v.len() as int) {
        Some(e) => { assert(v.skip(e) =~= v.subrange(v.len() - v.skip(e).len(), v.len() as int)); },
        None => { assert(v =~= v.subrange(0, v.len() as int)); },
    }
    match first_prefix_up(v, p, 0) {
        Some(e) => { assert(v.skip(e) =~= v.subrange(v.len() - v.skip(e).len(), v.len() as int)); },
        None => { assert(v =~= v.subrange(0, v.len() as int)); },
    }
    match first_suffix_up(v, p, 0) {
        Some(s) => { assert(v.take(s) =~= v.subrange(0, v.take(s).len() as int)); },
        None => { assert(v =~= v.subrange(0, v.len() as int)); },
    }
    match first_suffix_down(v, p, v.len() as int) {
        Some(s) => { assert(v.take(s) =~= v.subrange(0, v.take(s).len() as int)); },
        None => { assert(v =~= v.subrange(0, v.len() as int)); },
    }
}

proof fn lemma_prefix_down_found(v: Seq<u8>, p: Seq<u8>, from: int)
    ensures
        first_prefix_down(v, p, from) matches Some(e) ==> 0 <= e <= from && e <= v.len(),
    decreases from + 1,
{
    if 0 <= from <= v.len() && !spec_pattern_matches(v.take(from), p) {
        lemma_prefix_down_found(v, p, from - 1);
    }
}

proof fn lemma_suffix_up_found(v: Seq<u8>, p: Seq<u8>, from: int)
    ensures
        first_suffix_up(v, p, from) matches Some(s) ==> from <= s <= v.len(),
    decreases v.len() + 1 - from,
{
    if 0 <= from <= v.len() && !spec_pattern_matches(v.skip(from), p) {
        lemma_suffix_up_found(v, p, from + 1);
    }
}

/// The bytes of split characters.
pub open spec fn char_bytes(cs: Seq<(u8, QuoteState)>) -> Seq<u8> {
    cs.map_values(|c: (u8, QuoteState)| c.0)
}

proof fn lemma_unexpanded_split(cs: Seq<(u8, QuoteState)>, ifs: Seq<u8>, i: int, cur: Seq<u8>, glob: bool)
    requires
        0 <= i <= cs.len(),
        forall|j: int| 0 <= j < cs.len() ==> (#[trigger] cs[j]).1 != QuoteState::Expanded,
    ensures
        ({
            let text = cur + char_bytes(cs).subrange(i, cs.len() as int);
            let r = spec_split(cs, ifs, i, cur, glob);
            if text.len() > 0 {
                r.len() == 1 && r[0].0 == text
            } else {
                r.len() == 0
            }
        }),
    decreases cs.len() - i,
{
    if i < cs.len() {
        let b = cs[i].0;
        let st = cs[i].1;
        lemma_unexpanded_split(cs, ifs, i + 1, cur.push(b), glob || (st != QuoteState::Quoted && spec_is_glob_byte(b)));
        assert(cur.push(b) + char_bytes(cs).subrange(i + 1, cs.len() as int) =~= cur + char_bytes(cs).subrange(i, cs.len() as int));
    } else {
        assert(cur + char_bytes(cs).subrange(i, cs.len() as int) =~= cur);
    }
}

/// Field splitting only splits what unquoted expansions produced: bytes
/// that came from the word itself or from quoted expansions stay in one
/// field, whatever `IFS` holds.
pub proof fn law_unexpanded_text_is_not_split(cs: Seq<(u8, QuoteState)>, ifs: Seq<u8>)
    requires
        forall|j: int| 0 <= j < cs.len() ==> (#[trigger] cs[j]).1 != QuoteState::Expanded,
    ensures
        cs.len() > 0 ==> spec_split(cs, ifs, 0, Seq::empty(), false).len() == 1
            && spec_split(cs, ifs, 0, Seq::empty(), false)[0].0 == char_bytes(cs),
        cs.len() == 0 ==> spec_split(cs, ifs, 0, Seq::empty(), false).len() == 0,
{
    lemma_unexpanded_split(cs, ifs, 0, Seq::empty(), false);
    assert(Seq::<u8>::empty() + char_bytes(cs).subrange(0, cs.len() as int) =~= char_bytes(cs));
}


/// Some byte of `cs` from `i` on is a glob byte that quoting left active.
pub open spec fn active_glob_from(cs: Seq<(u8, QuoteState)>, i: int) -> bool {
    exists|j: int| i <= j < cs.len() && (#[trigger] cs[j]).1 != QuoteState::Quoted && spec_is_glob_byte(cs[j].0)
}

proof fn lemma_unsplit_glob(cs: Seq<(u8, QuoteState)>, ifs: Seq<u8>, i: int, cur: Seq<u8>, glob: bool)
    requires
        0 <= i <= cs.len(),
        forall|j: int| 0 <= j < cs.len() && (#[trigger] cs[j]).1 == QuoteState::Expanded ==> !ifs.contains(cs[j].0),
    ensures
        ({
            let text = cur + char_bytes(cs).subrange(i, cs.len() as int);
            let r = spec_split(cs, ifs, i, cur, glob);
            if text.len() > 0 {
                r == seq![(text, glob || active_glob_from(cs, i))]
            } else {
                r.len() == 0
            }
        }),
    decreases cs.len() - i,
{
    if i < cs.len() {
        let b = cs[i].0;
        let st = cs[i].1;
        assert(st == QuoteState::Expanded ==> !ifs.contains(b));
        let g2 = glob || (st != QuoteState::Quoted && spec_is_glob_byte(b));
        lemma_unsplit_glob(cs, ifs, i + 1, cur.push(b), g2);
        assert(cur.push(b) + char_bytes(cs).subrange(i + 1, cs.len() as int) =~= cur + char_bytes(cs).subrange(i, cs.len() as int));
        assert((g2 || active_glob_from(cs, i + 1)) == (glob || active_glob_from(cs, i))) by {
            if active_glob_from(cs, i) {
                let j = choose|j: int| i <= j < cs.len() && (#[trigger] cs[j]).1 != QuoteState::Quoted && spec_is_glob_byte(cs[j].0);
                if j > i {
                    assert(active_glob_from(cs, i + 1));
                }
            }
            if active_glob_from(cs, i + 1) {
                let j = choose|j: int| i + 1 <= j < cs.len() && (#[trigger] cs[j]).1 != QuoteState::Quoted && spec_is_glob_byte(cs[j].0);
                assert(active_glob_from(cs, i));
            }
            if st != QuoteState::Quoted && spec_is_glob_byte(b) {
                assert(active_glob_from(cs, i));
            }
        }
    } else {
        assert(cur + char_bytes(cs).subrange(i, cs.len() as int) =~= cur);
    }
}

/// Where no byte that an unquoted expansion produced is an `IFS` byte, the
/// text stays one field, and that field holds an active glob character
/// exactly when some glob byte of it came unquoted, from the word itself
/// or from an unquoted expansion.
pub proof fn law_unsplit_field_keeps_active_globs(cs: Seq<(u8, QuoteState)>, ifs: Seq<u8>)
    requires
        cs.len() > 0,
        forall|j: int| 0 <= j < cs.len() && (#[trigger] cs[j]).1 == QuoteState::Expanded ==> !ifs.contains(cs[j].0),
    ensures
        spec_split(cs, ifs, 0, Seq::empty(), false) == seq![(
            char_bytes(cs),
            exists|j: int| 0 <= j < cs.len() && (#[trigger] cs[j]).1 != QuoteState::Quoted && spec_is_glob_byte(cs[j].0),
        )],
{
    lemma_unsplit_glob(cs, ifs, 0, Seq::empty(), false);
    assert(Seq::<u8>::empty() + char_bytes(cs).subrange(0, cs.len() as int) =~= char_bytes(cs));
}

/// The fields of one text segment `t` with quoting `q`, where an unquoted
/// expansion's text holds no `IFS` byte: the text itself, marked as holding
/// an active glob character exactly when it is not quoted and holds a glob
/// byte. So `$P` with `P` set to `/d/*.txt` is a pattern for pathname
/// expansion, and `"$P"` is not.
pub proof fn law_segment_field_glob(t: Seq<u8>, q: QuoteState, ifs: Seq<u8>)
    requires
        t.len() > 0,
        q == QuoteState::Expanded ==> forall|k: int| 0 <= k < t.len() ==> !ifs.contains(#[trigger] t[k]),
    ensures
        spec_split_fields(seq![SegView::Text(t, q)], ifs) == seq![(t, q != QuoteState::Quoted && has_glob_byte(t))],
{
    let s = seq![SegView::Text(t, q)];
    assert(s.drop_last() =~= Seq::<SegView>::empty());
    assert(s.last() == SegView::Text(t, q));
    assert(flatten(s.drop_last()) =~= Seq::<u8>::empty());
    assert(flatten(s) =~= t);
    assert(spec_chars(s.drop_last()) =~= Seq::<(u8, QuoteState)>::empty());
    assert(any_unquoted_glob(s) == (q != QuoteState::Quoted && has_glob_byte(t))) by {
        if any_unquoted_glob(s) {
            let j = choose|j: int| 0 <= j < s.len() && #[trigger] seg_has_unquoted_glob(s[j]);
            assert(j == 0);
        }
        if q != QuoteState::Quoted && has_glob_byte(t) {
            assert(seg_has_unquoted_glob(s[0]));
        }
    }
    if ifs.len() > 0 {
        let cs = spec_chars(s);
        assert(cs =~= t.map_values(|b: u8| (b, q)));
        assert(char_bytes(cs) =~= t);
        assert forall|j: int| 0 <= j < cs.len() && (#[trigger] cs[j]).1 == QuoteState::Expanded implies !ifs.contains(cs[j].0) by {
            assert(cs[j] == (t[j], q));
        }
        law_unsplit_field_keeps_active_globs(cs, ifs);
        assert((exists|j: int| 0 <= j < cs.len() && (#[trigger] cs[j]).1 != QuoteState::Quoted && spec_is_glob_byte(cs[j].0))
            == (q != QuoteState::Quoted && has_glob_byte(t))) by {
            if q != QuoteState::Quoted && has_glob_byte(t) {
                let k = choose|k: int| 0 <= k < t.len() && spec_is_glob_byte(#[trigger] t[k]);
                assert(cs[k] == (t[k], q));
            }
            if exists|j: int| 0 <= j < cs.len() && (#[trigger] cs[j]).1 != QuoteState::Quoted && spec_is_glob_byte(cs[j].0) {
                let j = choose|j: int| 0 <= j < cs.len() && (#[trigger] cs[j]).1 != QuoteState::Quoted && spec_is_glob_byte(cs[j].0);
                assert(cs[j] == (t[j], q));
                assert(spec_is_glob_byte(t[j]));
            }
        }
    }
}

} // verus!
