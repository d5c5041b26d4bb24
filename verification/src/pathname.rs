//! Pathname expansion: the files whose paths a glob pattern matches, one
//! path component at a time, in byte order.

use vstd::prelude::*;
use crate::bytes::views;
use crate::chars::{DOT, SLASH};
use crate::context::Context;
use crate::glob::{pattern_matches, spec_pattern_matches};
use crate::segments::{is_glob_byte, spec_is_glob_byte};

verus! {

broadcast use vstd::seq_lib::to_multiset_insert;

// ---------------------------------------------------------------------
// Byte order
// ---------------------------------------------------------------------

/// Whether `a` sorts before `b` when both are compared byte by byte from
/// index `i` on, a proper prefix sorting first.
pub open spec fn lex_lt_from(a: Seq<u8>, b: Seq<u8>, i: int) -> bool
    decreases a.len() - i,
{
    if i < 0 || i >= a.len() {
        i < b.len()
    } else if i >= b.len() {
        false
    } else if a[i] != b[i] {
        a[i] < b[i]
    } else {
        lex_lt_from(a, b, i + 1)
    }
}

/// Byte-wise lexicographic order.
pub open spec fn lex_lt(a: Seq<u8>, b: Seq<u8>) -> bool {
    lex_lt_from(a, b, 0)
}

proof fn lemma_lex_trans(a: Seq<u8>, b: Seq<u8>, c: Seq<u8>, i: int)
    requires
        0 <= i,
        lex_lt_from(a, b, i),
        lex_lt_from(b, c, i),
    ensures
        lex_lt_from(a, c, i),
    decreases a.len() - i,
{
    if i < a.len() && i < b.len() && i < c.len() && a[i] == b[i] && b[i] == c[i] {
        lemma_lex_trans(a, b, c, i + 1);
    }
}

proof fn lemma_lex_irrefl(a: Seq<u8>, i: int)
    requires
        0 <= i,
    ensures
        !lex_lt_from(a, a, i),
    decreases a.len() - i,
{
    if i < a.len() {
        lemma_lex_irrefl(a, i + 1);
    }
}

/// Whether `a` sorts strictly before `b`.
pub fn bytes_lt(a: &[u8], b: &[u8]) -> (r: bool)
    ensures
        r == lex_lt(a@, b@),
{
    let mut i: usize = 0;
    while i < a.len() && i < b.len() && a[i] == b[i]
        invariant
            i <= a@.len(),
            i <= b@.len(),
            lex_lt(a@, b@) == lex_lt_from(a@, b@, i as int),
        decreases a@.len() - i,
    {
        i += 1;
    }
    if i >= a.len() {
        i < b.len()
    } else if i >= b.len() {
        false
    } else {
        a[i] < b[i]
    }
}

/// Whether no element sorts before one that comes earlier.
pub open spec fn sorted_bytes(s: Seq<Seq<u8>>) -> bool {
    forall|i: int, j: int| 0 <= i < j < s.len() ==> !lex_lt(#[trigger] s[j], #[trigger] s[i])
}

/// `items` in byte order.
pub fn sort_bytes(items: Vec<Vec<u8>>) -> (r: Vec<Vec<u8>>)
    ensures
        sorted_bytes(views(r@)),
        views(r@).to_multiset() == views(items@).to_multiset(),
{
    let mut out: Vec<Vec<u8>> = Vec::new();
    let mut i: usize = 0;
    assert(views(out@) =~= views(items@).take(0));
    while i < items.len()
        invariant
            i <= items.len(),
            sorted_bytes(views(out@)),
            views(out@).to_multiset() == views(items@).take(i as int).to_multiset(),
        decreases items.len() - i,
    {
        let x = vstd::slice::slice_to_vec(items[i].as_slice());
        let mut p: usize = 0;
        while p < out.len() && !bytes_lt(x.as_slice(), out[p].as_slice())
            invariant
                p <= out.len(),
                forall|k: int| 0 <= k < p ==> !lex_lt(x@, #[trigger] views(out@)[k]),
            decreases out.len() - p,
        {
            p += 1;
        }
        let ghost before = views(out@);
        out.insert(p, x);
        assert(views(out@) =~= before.insert(p as int, x@));
        assert(views(items@).take(i + 1) =~= views(items@).take(i as int).push(x@));
        assert(views(items@).take(i as int).push(x@) =~= views(items@).take(i as int).insert(i as int, x@));
        proof {
            let s = views(out@);
            assert forall|a: int, b: int| 0 <= a < b < s.len() implies !lex_lt(#[trigger] s[b], #[trigger] s[a]) by {
                if a < p && b == p {
                } else if a == p && b > p {
                    assert(lex_lt(x@, before[p as int]));
                    if lex_lt(before[b - 1], x@) {
                        lemma_lex_trans(before[b - 1], x@, before[p as int], 0);
                        if b - 1 == p {
                            lemma_lex_irrefl(before[p as int], 0);
                        }
                    }
                } else if a < p && b > p {
                    assert(s[a] == before[a]);
                    assert(s[b] == before[b - 1]);
                } else if b < p {
                    assert(s[a] == before[a] && s[b] == before[b]);
                } else {
                    assert(s[a] == before[a - 1] && s[b] == before[b - 1]);
                }
            }
        }
        i += 1;
    }
    assert(views(items@).take(items.len() as int) =~= views(items@));
    out
}

// ---------------------------------------------------------------------
// Expansion
// ---------------------------------------------------------------------

/// `base` and `name` joined with one `/`.
pub open spec fn spec_path_join(base: Seq<u8>, name: Seq<u8>) -> Seq<u8> {
    if base.len() > 0 && base.last() != SLASH {
        base + seq![SLASH] + name
    } else {
        base + name
    }
}

/// `base` and `name` joined with one `/`.
pub fn path_join(base: &[u8], name: &[u8]) -> (r: Vec<u8>)
    ensures
        r@ == spec_path_join(base@, name@),
{
    let mut result = vstd::slice::slice_to_vec(base);
    if result.len() > 0 && result[result.len() - 1] != SLASH {
        result.push(SLASH);
    }
    result.extend_from_slice(name);
    result
}

/// Whether `s` holds a glob character.
pub open spec fn spec_has_glob(s: Seq<u8>) -> bool {
    exists|i: int| 0 <= i < s.len() && spec_is_glob_byte(#[trigger] s[i])
}

/// Whether `s` holds a glob character.
pub fn has_glob(s: &[u8]) -> (r: bool)
    ensures
        r == spec_has_glob(s@),
{
    let mut i: usize = 0;
    while i < s.len()
        invariant
            i <= s@.len(),
            forall|k: int| 0 <= k < i ==> !spec_is_glob_byte(#[trigger] s@[k]),
        decreases s@.len() - i,
    {
        if is_glob_byte(s[i]) {
            assert(spec_is_glob_byte(s@[i as int]));
            return true;
        }
        i += 1;
    }
    false
}

/// The non-empty components of `p` from `i` on, `cur` being the part of
/// the component under way read so far.
pub open spec fn split_components(p: Seq<u8>, i: int, cur: Seq<u8>) -> Seq<Seq<u8>>
    decreases p.len() - i,
{
    if i < 0 || i >= p.len() {
        if cur.len() > 0 { seq![cur] } else { Seq::empty() }
    } else if p[i] == SLASH {
        (if cur.len() > 0 { seq![cur] } else { Seq::empty() }) + split_components(p, i + 1, Seq::empty())
    } else {
        split_components(p, i + 1, cur.push(p[i]))
    }
}

/// The non-empty components of a `/`-separated path.
pub fn path_components(pattern: &[u8]) -> (r: Vec<Vec<u8>>)
    ensures
        views(r@) == split_components(pattern@, 0, Seq::empty()),
        forall|k: int| 0 <= k < r@.len() ==> (#[trigger] r@[k])@.len() > 0 && !r@[k]@.contains(SLASH),
{
    let mut parts: Vec<Vec<u8>> = Vec::new();
    let mut current: Vec<u8> = Vec::new();
    let mut i: usize = 0;
    while i < pattern.len()
        invariant
            i <= pattern@.len(),
            !current@.contains(SLASH),
            forall|k: int| 0 <= k < parts@.len() ==> (#[trigger] parts@[k])@.len() > 0 && !parts@[k]@.contains(SLASH),
            views(parts@) + split_components(pattern@, i as int, current@) == split_components(pattern@, 0, Seq::empty()),
        decreases pattern@.len() - i,
    {
        let b = pattern[i];
        if b == SLASH {
            if current.len() > 0 {
                let mut done: Vec<u8> = Vec::new();
                std::mem::swap(&mut done, &mut current);
                let ghost before = views(parts@);
                parts.push(done);
                assert(views(parts@) =~= before.push(done@));
                assert(before + split_components(pattern@, i as int, done@) =~= views(parts@) + split_components(
                    pattern@,
                    i + 1,
                    current@,
                ));
            } else {
                assert(current@ =~= Seq::<u8>::empty());
                assert(split_components(pattern@, i as int, current@) =~= split_components(pattern@, i + 1, current@));
            }
        } else {
            let ghost before = current@;
            current.push(b);
            assert forall|k: int| 0 <= k < current@.len() implies current@[k] != SLASH by {
                if k < before.len() {
                    assert(current@[k] == before[k]);
                    assert(!before.contains(SLASH));
                }
            }
        }
        i += 1;
    }
    let ghost before = views(parts@);
    if current.len() > 0 {
        parts.push(current);
        assert(views(parts@) =~= before + split_components(pattern@, i as int, current@));
    } else {
        assert(views(parts@) =~= before + split_components(pattern@, i as int, current@));
    }
    parts
}

/// Whether a directory entry is a candidate for the pattern component
/// `segment`: names starting with `.` only match a `.` written in it.
pub open spec fn spec_visible(name: Seq<u8>, segment: Seq<u8>) -> bool {
    !(name.len() > 0 && name[0] == DOT) || (segment.len() > 0 && segment[0] == DOT)
}

/// Whether the pattern component `segment` selects the directory entry
/// `name`: the entry is a candidate and the pattern matches it.
pub open spec fn entry_selected(name: Seq<u8>, segment: Seq<u8>) -> bool {
    spec_visible(name, segment) && spec_pattern_matches(name, segment)
}

/// The entries of `names` that the pattern component `segment` selects,
/// in their order.
pub fn matching_entries(names: &[Vec<u8>], segment: &[u8]) -> (r: Vec<Vec<u8>>)
    ensures
        views(r@) == views(names@).filter(|n: Seq<u8>| entry_selected(n, segment@)),
        forall|k: int| 0 <= k < r@.len() ==> entry_selected(#[trigger] r@[k]@, segment@),
        forall|k: int| 0 <= k < r@.len() ==> views(names@).contains(#[trigger] r@[k]@),
{
    let ghost pred = |n: Seq<u8>| entry_selected(n, segment@);
    let mut out: Vec<Vec<u8>> = Vec::new();
    let mut i: usize = 0;
    while i < names.len()
        invariant
            i <= names@.len(),
            pred == (|n: Seq<u8>| entry_selected(n, segment@)),
            views(out@) == views(names@).take(i as int).filter(pred),
            forall|k: int| 0 <= k < out@.len() ==> entry_selected(#[trigger] out@[k]@, segment@),
            forall|k: int| 0 <= k < out@.len() ==> views(names@).contains(#[trigger] out@[k]@),
        decreases names@.len() - i,
    {
        let name = names[i].as_slice();
        let hidden = name.len() > 0 && name[0] == DOT;
        let dotted = segment.len() > 0 && segment[0] == DOT;
        proof {
            assert(views(names@).take(i + 1) =~= views(names@).take(i as int).push(names@[i as int]@));
            views(names@).take(i as int).lemma_filter_push(names@[i as int]@, pred);
        }
        if (!hidden || dotted) && pattern_matches(name, segment) {
            let ghost before = views(out@);
            let ghost prev = out@;
            out.push(vstd::slice::slice_to_vec(name));
            assert(views(out@) =~= before.push(name@));
            assert(views(names@)[i as int] == name@);
            assert forall|k: int| 0 <= k < out@.len() implies entry_selected(#[trigger] out@[k]@, segment@)
                && views(names@).contains(out@[k]@) by {
                if k < prev.len() {
                    assert(out@[k] == prev[k]);
                }
            }
        }
        i += 1;
    }
    assert(views(names@).take(names@.len() as int) =~= views(names@));
    out
}

/// The path that a walk of the pattern components that ended at `base`
/// reports: without its leading `./` where the pattern was relative, and
/// `.` where nothing is left.
pub open spec fn walk_result(base: Seq<u8>, absolute: bool) -> Seq<u8> {
    let t = if absolute {
        base
    } else if base.len() > 2 && base[0] == DOT && base[1] == SLASH {
        base.subrange(2, base.len() as int)
    } else {
        base
    };
    if t.len() == 0 { seq![DOT] } else { t }
}

/// Whether the shell `ctx` can list the directory `dir` with `name` among
/// its entries.
pub open spec fn lists_entry<C: Context>(ctx: &C, dir: Seq<u8>, name: Seq<u8>) -> bool {
    exists|d: &[u8], listed: Option<Vec<Vec<u8>>>| d@ == dir && #[trigger] call_ensures(C::read_dir_entries, (ctx, d), listed)
        && (listed matches Some(ns) && views(ns@).contains(name))
}

/// Whether the shell `ctx` can answer that a file exists at `path`.
pub open spec fn found_at<C: Context>(ctx: &C, path: Seq<u8>) -> bool {
    exists|n: &[u8]| n@ == path && #[trigger] call_ensures(C::file_exists, (ctx, n), true)
}

/// Whether the pattern component `segment` leads from the directory
/// `base` into the entry `name` in the shell `ctx`: a component without
/// glob characters names itself, and the shell answers that the path
/// exists; one with them, each entry it selects from a listing of `base`
/// the shell gives.
pub open spec fn component_leads_to<C: Context>(ctx: &C, base: Seq<u8>, segment: Seq<u8>, name: Seq<u8>) -> bool {
    if spec_has_glob(segment) {
        entry_selected(name, segment) && lists_entry(ctx, base, name)
    } else {
        name == segment && found_at(ctx, spec_path_join(base, name))
    }
}

/// Whether walking the pattern components `segs[i..]` below `base` in the
/// shell `ctx` can report the path `p`: one entry for each component, each
/// led to by its component, joined below `base`.
pub open spec fn walk_reaches<C: Context>(ctx: &C, base: Seq<u8>, segs: Seq<Seq<u8>>, i: int, absolute: bool, p: Seq<u8>) -> bool
    decreases segs.len() - i,
{
    if i < 0 || i >= segs.len() {
        p == walk_result(base, absolute)
    } else {
        exists|name: Seq<u8>|
            #![trigger component_leads_to(ctx, base, segs[i], name)]
            component_leads_to(ctx, base, segs[i], name) && walk_reaches(ctx, spec_path_join(base, name), segs, i + 1, absolute, p)
    }
}

/// What the last pattern component `segment` adds below `base` in the
/// shell `ctx`: without glob characters, the one path where the shell
/// answers that it exists; with them, for a listing of `base` the shell
/// gives, each entry it selects, in byte order.
pub open spec fn last_component_adds<C: Context>(ctx: &C, base: Seq<u8>, segment: Seq<u8>, absolute: bool, added: Seq<Seq<u8>>) -> bool {
    if spec_has_glob(segment) {
        exists|d: &[u8], listed: Option<Vec<Vec<u8>>>| d@ == base && #[trigger] call_ensures(C::read_dir_entries, (ctx, d), listed)
            && match listed {
            None => added.len() == 0,
            Some(ns) => exists|sorted: Seq<Seq<u8>>| #[trigger] sorted_bytes(sorted) && sorted.to_multiset() == views(
                ns@,
            ).to_multiset() && added == sorted.filter(|n: Seq<u8>| entry_selected(n, segment)).map_values(
                |n: Seq<u8>| walk_result(spec_path_join(base, n), absolute),
            ),
        }
    } else {
        exists|n: &[u8], b: bool| n@ == spec_path_join(base, segment) && #[trigger] call_ensures(C::file_exists, (ctx, n), b)
            && added == (if b { seq![walk_result(spec_path_join(base, segment), absolute)] } else { Seq::empty() })
    }
}

/// What walking the pattern components `segs[i..]` below `base` adds in
/// the shell `ctx`, for the answers it gives along the way: at the end the
/// path reached; for a component without glob characters, the walk below
/// its path where the shell answers that the path exists; for one with
/// them, for a listing of `base` the shell gives, the walks below each
/// entry it selects, in byte order, one after another.
pub open spec fn walk_adds<C: Context>(ctx: &C, base: Seq<u8>, segs: Seq<Seq<u8>>, i: int, absolute: bool, added: Seq<Seq<u8>>) -> bool
    decreases 2 * (segs.len() - i) + 1, 0int,
{
    if i < 0 || i >= segs.len() {
        added == seq![walk_result(base, absolute)]
    } else if spec_has_glob(segs[i]) {
        exists|d: &[u8], listed: Option<Vec<Vec<u8>>>| d@ == base && #[trigger] call_ensures(C::read_dir_entries, (ctx, d), listed)
            && match listed {
            None => added.len() == 0,
            Some(ns) => exists|sorted: Seq<Seq<u8>>| #[trigger] sorted_bytes(sorted) && sorted.to_multiset() == views(
                ns@,
            ).to_multiset() && names_adds(
                ctx,
                base,
                sorted.filter(|n: Seq<u8>| entry_selected(n, segs[i])),
                segs,
                i,
                absolute,
                added,
            ),
        }
    } else {
        exists|n: &[u8], b: bool| n@ == spec_path_join(base, segs[i]) && #[trigger] call_ensures(C::file_exists, (ctx, n), b)
            && (if b {
            walk_adds(ctx, spec_path_join(base, segs[i]), segs, i + 1, absolute, added)
        } else {
            added.len() == 0
        })
    }
}

/// What the walks below each of the entries `names` of `base`, for the
/// components `segs[i + 1..]`, add one after another.
pub open spec fn names_adds<C: Context>(ctx: &C, base: Seq<u8>, names: Seq<Seq<u8>>, segs: Seq<Seq<u8>>, i: int, absolute: bool, added: Seq<Seq<u8>>) -> bool
    decreases 2 * (segs.len() - i), names.len(),
{
    if i < 0 || i >= segs.len() || names.len() == 0 {
        added.len() == 0
    } else {
        exists|a1: Seq<Seq<u8>>, a2: Seq<Seq<u8>>|
            #![trigger a1 + a2]
            walk_adds(ctx, spec_path_join(base, names[0]), segs, i + 1, absolute, a1)
                && names_adds(ctx, base, names.drop_first(), segs, i, absolute, a2) && added == a1 + a2
    }
}

proof fn lemma_names_adds_step<C: Context>(
    ctx: &C,
    base: Seq<u8>,
    names: Seq<Seq<u8>>,
    segs: Seq<Seq<u8>>,
    i: int,
    absolute: bool,
    first: Seq<Seq<u8>>,
    others: Seq<Seq<u8>>,
)
    requires
        0 <= i < segs.len(),
        names.len() > 0,
        walk_adds(ctx, spec_path_join(base, names[0]), segs, i + 1, absolute, first),
        names_adds(ctx, base, names.drop_first(), segs, i, absolute, others),
    ensures
        names_adds(ctx, base, names, segs, i, absolute, first + others),
{
}

/// Whether the shell `ctx` answers each question about the file system the
/// same way each time it is asked.
pub open spec fn answers_fixed<C: Context>(ctx: &C) -> bool {
    &&& forall|d1: &[u8], d2: &[u8], l1: Option<Vec<Vec<u8>>>, l2: Option<Vec<Vec<u8>>>| d1@ == d2@ && #[trigger] call_ensures(
        C::read_dir_entries,
        (ctx, d1),
        l1,
    ) && #[trigger] call_ensures(C::read_dir_entries, (ctx, d2), l2) ==> match (l1, l2) {
        (Some(a), Some(b)) => views(a@) == views(b@),
        (None, None) => true,
        _ => false,
    }
    &&& forall|n1: &[u8], n2: &[u8], b1: bool, b2: bool| n1@ == n2@ && #[trigger] call_ensures(C::file_exists, (ctx, n1), b1)
        && #[trigger] call_ensures(C::file_exists, (ctx, n2), b2) ==> b1 == b2
}

/// Walks the pattern components from `index` on below `base`, adding each
/// path they lead to in the shell's answers to `matches`.
pub fn expand_path_segments<C: Context>(
    ctx: &C,
    base: &[u8],
    segments: &[Vec<u8>],
    index: usize,
    absolute: bool,
    matches: &mut Vec<Vec<u8>>,
)
    requires
        index <= segments@.len(),
    ensures
        final(matches)@.len() >= old(matches)@.len(),
        forall|k: int| 0 <= k < old(matches)@.len() ==> #[trigger] final(matches)@[k] == old(matches)@[k],
        index == segments@.len() ==> views(final(matches)@) == views(old(matches)@).push(walk_result(base@, absolute)),
        forall|k: int| old(matches)@.len() <= k < final(matches)@.len() ==> walk_reaches(
            ctx,
            base@,
            views(segments@),
            index as int,
            absolute,
            #[trigger] final(matches)@[k]@,
        ),
        index + 1 == segments@.len() ==> last_component_adds(
            ctx,
            base@,
            segments@[index as int]@,
            absolute,
            views(final(matches)@).skip(old(matches)@.len() as int),
        ),
        walk_adds(ctx, base@, views(segments@), index as int, absolute, views(final(matches)@).skip(old(matches)@.len() as int)),
    decreases segments@.len() - index,
{
    let ghost segs = views(segments@);
    if index == segments.len() {
        let text: Vec<u8> = if absolute {
            vstd::slice::slice_to_vec(base)
        } else if base.len() > 2 && base[0] == DOT && base[1] == SLASH {
            vstd::slice::slice_to_vec(vstd::slice::slice_subrange(base, 2, base.len()))
        } else {
            vstd::slice::slice_to_vec(base)
        };
        let ghost before = matches@;
        if text.len() == 0 {
            let dot = vec![DOT];
            assert(dot@ == walk_result(base@, absolute));
            matches.push(dot);
        } else {
            assert(text@ == walk_result(base@, absolute));
            matches.push(text);
        }
        assert(views(matches@) =~= views(before).push(walk_result(base@, absolute)));
        assert(views(matches@).skip(before.len() as int) =~= seq![walk_result(base@, absolute)]);
        return;
    }
    let segment = segments[index].as_slice();
    let ghost start = matches@;
    if !has_glob(segment) {
        let next = path_join(base, segment);
        let next_slice = next.as_slice();
        let exists = ctx.file_exists(next_slice);
        assert(call_ensures(C::file_exists, (ctx, next_slice), exists));
        if exists {
            expand_path_segments(ctx, next.as_slice(), segments, index + 1, absolute, matches);
            assert forall|k: int| start.len() <= k < matches@.len() implies walk_reaches(
                ctx,
                base@,
                segs,
                index as int,
                absolute,
                #[trigger] matches@[k]@,
            ) by {
                assert(0 <= index < segs.len());
                assert(segs[index as int] == segment@);
                assert(found_at(ctx, spec_path_join(base@, segment@)));
                assert(component_leads_to(ctx, base@, segs[index as int], segment@));
                assert(walk_reaches(ctx, spec_path_join(base@, segment@), segs, index + 1, absolute, matches@[k]@));
            }
            proof {
                if index + 1 == segments@.len() {
                    assert(views(matches@).skip(start.len() as int) =~= seq![walk_result(spec_path_join(base@, segment@), absolute)]);
                }
                assert(segs[index as int] == segment@);
                assert(!spec_has_glob(segs[index as int]));
                assert(walk_adds(ctx, base@, segs, index as int, absolute, views(matches@).skip(start.len() as int)));
            }
        } else {
            proof {
                assert(views(matches@).skip(start.len() as int) =~= Seq::<Seq<u8>>::empty());
                assert(segs[index as int] == segment@);
                assert(walk_adds(ctx, base@, segs, index as int, absolute, views(matches@).skip(start.len() as int)));
            }
        }
        return;
    }
    let listed = ctx.read_dir_entries(base);
    assert(call_ensures(C::read_dir_entries, (ctx, base), listed));
    let ghost lv = listed;
    let names = match listed {
        Some(names) => {
            let ghost nv = views(names@);
            let sorted = sort_bytes(names);
            let ghost sv = views(sorted@);
            let sel = matching_entries(sorted.as_slice(), segment);
            proof {
                assert forall|k: int| 0 <= k < sel@.len() implies #[trigger] lists_entry(ctx, base@, sel@[k]@) by {
                    assert(sv.contains(sel@[k]@));
                    vstd::seq_lib::to_multiset_contains(sv, sel@[k]@);
                    vstd::seq_lib::to_multiset_contains(nv, sel@[k]@);
                }
            }
            sel
        },
        None => {
            proof {
                assert(views(matches@).skip(start.len() as int) =~= Seq::<Seq<u8>>::empty());
                assert(segs[index as int] == segment@);
                assert(walk_adds(ctx, base@, segs, index as int, absolute, views(matches@).skip(start.len() as int)));
            }
            return;
        },
    };
    let ghost sorted_v: Seq<Seq<u8>> = choose|sorted: Seq<Seq<u8>>| sorted_bytes(sorted) && sorted.to_multiset() == views(
        lv->Some_0@,
    ).to_multiset() && views(names@) == sorted.filter(|n: Seq<u8>| entry_selected(n, segment@));
    let nseg = segments.len();
    let mut i: usize = 0;
    proof {
        assert(views(names@).skip(0) =~= views(names@));
        assert(views(matches@).skip(start.len() as int) =~= Seq::<Seq<u8>>::empty());
        assert forall|a2: Seq<Seq<u8>>| #[trigger] names_adds(ctx, base@, views(names@).skip(0), segs, index as int, absolute, a2)
            implies names_adds(ctx, base@, views(names@), segs, index as int, absolute, views(matches@).skip(start.len() as int) + a2) by {
            assert(views(matches@).skip(start.len() as int) + a2 =~= a2);
        }
    }
    while i < names.len()
        invariant
            i <= names@.len(),
            index < nseg,
            nseg == segments@.len(),
            matches@.len() >= start.len(),
            forall|k: int| 0 <= k < start.len() ==> #[trigger] matches@[k] == start[k],
            segs == views(segments@),
            segment@ == segs[index as int],
            spec_has_glob(segment@),
            forall|k: int| 0 <= k < names@.len() ==> entry_selected(#[trigger] names@[k]@, segment@),
            forall|k: int| 0 <= k < names@.len() ==> #[trigger] lists_entry(ctx, base@, names@[k]@),
            forall|k: int| start.len() <= k < matches@.len() ==> walk_reaches(
                ctx,
                base@,
                segs,
                index as int,
                absolute,
                #[trigger] matches@[k]@,
            ),
            index + 1 == nseg ==> views(matches@).skip(start.len() as int) == views(names@).take(i as int).map_values(
                |n: Seq<u8>| walk_result(spec_path_join(base@, n), absolute),
            ),
            forall|a2: Seq<Seq<u8>>| #[trigger] names_adds(ctx, base@, views(names@).skip(i as int), segs, index as int, absolute, a2)
                ==> names_adds(ctx, base@, views(names@), segs, index as int, absolute, views(matches@).skip(start.len() as int) + a2),
        decreases names@.len() - i,
    {
        let next = path_join(base, names[i].as_slice());
        let ghost mid = matches@;
        expand_path_segments(ctx, next.as_slice(), segments, index + 1, absolute, matches);
        assert forall|k: int| 0 <= k < start.len() implies #[trigger] matches@[k] == start[k] by {
            assert(matches@[k] == mid[k]);
        }
        assert forall|k: int| start.len() <= k < matches@.len() implies walk_reaches(
            ctx,
            base@,
            segs,
            index as int,
            absolute,
            #[trigger] matches@[k]@,
        ) by {
            if k < mid.len() {
                assert(matches@[k] == mid[k]);
            } else {
                let name = names@[i as int]@;
                assert(0 <= index < segs.len());
                assert(entry_selected(name, segment@));
                assert(lists_entry(ctx, base@, name));
                assert(component_leads_to(ctx, base@, segs[index as int], name));
                assert(walk_reaches(ctx, spec_path_join(base@, name), segs, index + 1, absolute, matches@[k]@));
            }
        }
        proof {
            if index + 1 == nseg {
                let f = |n: Seq<u8>| walk_result(spec_path_join(base@, n), absolute);
                assert(views(matches@) =~= views(mid).push(walk_result(next@, absolute)));
                assert(views(names@).take(i + 1) =~= views(names@).take(i as int).push(names@[i as int]@));
                assert(views(matches@).skip(start.len() as int) =~= views(mid).skip(start.len() as int).push(walk_result(next@, absolute)));
                assert(views(names@).take(i + 1).map_values(f) =~= views(names@).take(i as int).map_values(f).push(f(names@[i as int]@)));
            }
            let part = views(matches@).skip(mid.len() as int);
            let rest = views(names@).skip(i as int);
            assert(rest[0] == names@[i as int]@);
            assert(rest.drop_first() =~= views(names@).skip(i + 1));
            assert(views(matches@).skip(start.len() as int) =~= views(mid).skip(start.len() as int) + part);
            assert forall|a2: Seq<Seq<u8>>| #[trigger] names_adds(ctx, base@, views(names@).skip(i + 1), segs, index as int, absolute, a2)
                implies names_adds(ctx, base@, views(names@), segs, index as int, absolute, views(matches@).skip(start.len() as int) + a2) by {
                assert(walk_adds(ctx, spec_path_join(base@, rest[0]), segs, index + 1, absolute, part));
                assert(names_adds(ctx, base@, rest.drop_first(), segs, index as int, absolute, a2));
                lemma_names_adds_step(ctx, base@, rest, segs, index as int, absolute, part, a2);
                assert(views(mid).skip(start.len() as int) + (part + a2) =~= views(matches@).skip(start.len() as int) + a2);
            }
        }
        i += 1;
    }
    proof {
        assert(views(names@).skip(names@.len() as int) =~= Seq::<Seq<u8>>::empty());
        assert(names_adds(ctx, base@, views(names@).skip(names@.len() as int), segs, index as int, absolute, Seq::<Seq<u8>>::empty()));
        assert(views(matches@).skip(start.len() as int) + Seq::<Seq<u8>>::empty() =~= views(matches@).skip(start.len() as int));
        assert(names_adds(ctx, base@, views(names@), segs, index as int, absolute, views(matches@).skip(start.len() as int)));
        assert(call_ensures(C::read_dir_entries, (ctx, base), lv));
        assert(sorted_bytes(sorted_v));
        assert(walk_adds(ctx, base@, segs, index as int, absolute, views(matches@).skip(start.len() as int)));
        if index + 1 == nseg {
            assert(views(names@).take(names@.len() as int) =~= views(names@));
            assert(last_component_adds(ctx, base@, segment@, absolute, views(matches@).skip(start.len() as int)));
        }
    }
}

/// Whether `pattern` starts at the root.
pub open spec fn pattern_absolute(pattern: Seq<u8>) -> bool {
    pattern.len() > 0 && pattern[0] == SLASH
}

/// Where the walk of `pattern` starts: `/` for an absolute pattern, `.`
/// for a relative one.
pub open spec fn glob_base(pattern: Seq<u8>) -> Seq<u8> {
    if pattern.len() > 0 && pattern[0] == SLASH { seq![SLASH] } else { seq![DOT] }
}

/// Whether `paths` can be what pathname expansion of `pattern` reports in
/// the shell `ctx` where something matched: paths in byte order, each
/// reached by the walk of the pattern's components through what the shell
/// answers.
pub open spec fn glob_expansion_fits<C: Context>(ctx: &C, pattern: Seq<u8>, paths: Seq<Seq<u8>>) -> bool {
    &&& paths.len() > 0
    &&& sorted_bytes(paths)
    &&& spec_has_glob(pattern) ==> forall|k: int| 0 <= k < paths.len() ==> walk_reaches(
        ctx,
        glob_base(pattern),
        split_components(pattern, 0, Seq::empty()),
        0,
        pattern.len() > 0 && pattern[0] == SLASH,
        #[trigger] paths[k],
    )
}

/// The paths that `pattern` matches in the shell's answers, in byte
/// order; a pattern without glob characters stands for itself. Each path
/// is reached through the listings and existence answers the shell gives;
/// for a pattern of one component, every entry of the listing that the
/// pattern selects is reported.
pub fn expand_pathname<C: Context>(ctx: &C, pattern: &[u8]) -> (r: Vec<Vec<u8>>)
    ensures
        !(exists|i: int| 0 <= i < pattern@.len() && spec_is_glob_byte(#[trigger] pattern@[i]))
            ==> views(r@) == seq![pattern@],
        sorted_bytes(views(r@)),
        spec_has_glob(pattern@) ==> forall|k: int| 0 <= k < r@.len() ==> walk_reaches(
            ctx,
            glob_base(pattern@),
            split_components(pattern@, 0, Seq::empty()),
            0,
            pattern@.len() > 0 && pattern@[0] == SLASH,
            #[trigger] r@[k]@,
        ),
        spec_has_glob(pattern@) && split_components(pattern@, 0, Seq::empty()).len() == 1 ==> exists|added: Seq<Seq<u8>>|
            #[trigger] last_component_adds(
            ctx,
            glob_base(pattern@),
            split_components(pattern@, 0, Seq::empty())[0],
            pattern_absolute(pattern@),
            added,
        ) && views(r@).to_multiset() == added.to_multiset(),
        spec_has_glob(pattern@) ==> exists|added: Seq<Seq<u8>>|
            #[trigger] walk_adds(
            ctx,
            glob_base(pattern@),
            split_components(pattern@, 0, Seq::empty()),
            0,
            pattern_absolute(pattern@),
            added,
        ) && views(r@).to_multiset() == added.to_multiset(),
{
    if !has_glob(pattern) {
        let mut v: Vec<Vec<u8>> = Vec::new();
        v.push(vstd::slice::slice_to_vec(pattern));
        assert(views(v@) =~= seq![pattern@]);
        return v;
    }
    let absolute = pattern.len() > 0 && pattern[0] == SLASH;
    let segments = path_components(pattern);
    let base: Vec<u8> = if absolute { vec![SLASH] } else { vec![DOT] };
    let mut matches: Vec<Vec<u8>> = Vec::new();
    expand_path_segments(ctx, base.as_slice(), segments.as_slice(), 0, absolute, &mut matches);
    let ghost mv = views(matches@);
    let sorted = sort_bytes(matches);
    proof {
        let b = if absolute { seq![SLASH] } else { seq![DOT] };
        assert(base@ == b);
        assert forall|k: int| 0 <= k < sorted@.len() implies walk_reaches(
            ctx,
            b,
            split_components(pattern@, 0, Seq::empty()),
            0,
            absolute,
            #[trigger] sorted@[k]@,
        ) by {
            let x = views(sorted@)[k];
            vstd::seq_lib::to_multiset_contains(views(sorted@), x);
            vstd::seq_lib::to_multiset_contains(mv, x);
            assert(views(sorted@).contains(x));
            let j = choose|j: int| 0 <= j < mv.len() && mv[j] == x;
            assert(matches@[j]@ == x);
        }
        if split_components(pattern@, 0, Seq::empty()).len() == 1 {
            assert(mv.skip(0) =~= mv);
            assert(segments@[0]@ == split_components(pattern@, 0, Seq::empty())[0]);
            assert(last_component_adds(ctx, b, split_components(pattern@, 0, Seq::empty())[0], absolute, mv));
            assert(glob_base(pattern@) == b);
            assert(pattern_absolute(pattern@) == absolute);
            assert(views(sorted@).to_multiset() == mv.to_multiset());
        }
        assert(mv.skip(0) =~= mv);
        assert(glob_base(pattern@) == b);
        assert(pattern_absolute(pattern@) == absolute);
        assert(walk_adds(ctx, b, split_components(pattern@, 0, Seq::empty()), 0, absolute, mv));
    }
    sorted
}

/// Pathname expansion misses nothing: in a shell that answers each
/// question about the file system the same way each time, every path that
/// the walk of the pattern components `segs[i..]` below `base` can reach
/// is among the paths the walk adds, whichever component, not only the
/// last, selects several entries.
pub proof fn law_walk_reports_every_reachable_path<C: Context>(
    ctx: &C,
    base: Seq<u8>,
    segs: Seq<Seq<u8>>,
    i: int,
    absolute: bool,
    added: Seq<Seq<u8>>,
    p: Seq<u8>,
)
    requires
        answers_fixed(ctx),
        walk_adds(ctx, base, segs, i, absolute, added),
        walk_reaches(ctx, base, segs, i, absolute, p),
    ensures
        added.contains(p),
    decreases 2 * (segs.len() - i) + 1, 0int,
{
    if i < 0 || i >= segs.len() {
        assert(added[0] == p);
    } else {
        let name = choose|name: Seq<u8>|
            #![trigger component_leads_to(ctx, base, segs[i], name)]
            component_leads_to(ctx, base, segs[i], name) && walk_reaches(ctx, spec_path_join(base, name), segs, i + 1, absolute, p);
        if spec_has_glob(segs[i]) {
            let (d, listed) = choose|d: &[u8], listed: Option<Vec<Vec<u8>>>| d@ == base && #[trigger] call_ensures(
                C::read_dir_entries,
                (ctx, d),
                listed,
            ) && match listed {
                None => added.len() == 0,
                Some(ns) => exists|sorted: Seq<Seq<u8>>| #[trigger] sorted_bytes(sorted) && sorted.to_multiset() == views(
                    ns@,
                ).to_multiset() && names_adds(
                    ctx,
                    base,
                    sorted.filter(|n: Seq<u8>| entry_selected(n, segs[i])),
                    segs,
                    i,
                    absolute,
                    added,
                ),
            };
            let (d1, listed1) = choose|d1: &[u8], listed1: Option<Vec<Vec<u8>>>| d1@ == base && #[trigger] call_ensures(
                C::read_dir_entries,
                (ctx, d1),
                listed1,
            ) && (listed1 matches Some(ns1) && views(ns1@).contains(name));
            let ns = listed->Some_0;
            let ns1 = listed1->Some_0;
            assert(views(ns@) == views(ns1@));
            let sorted = choose|sorted: Seq<Seq<u8>>| #[trigger] sorted_bytes(sorted) && sorted.to_multiset() == views(
                ns@,
            ).to_multiset() && names_adds(
                ctx,
                base,
                sorted.filter(|n: Seq<u8>| entry_selected(n, segs[i])),
                segs,
                i,
                absolute,
                added,
            );
            vstd::seq_lib::to_multiset_contains(views(ns@), name);
            vstd::seq_lib::to_multiset_contains(sorted, name);
            let k = choose|k: int| 0 <= k < sorted.len() && sorted[k] == name;
            let pred = |n: Seq<u8>| entry_selected(n, segs[i]);
            sorted.lemma_filter_contains(pred, k);
            lemma_selected_names_report(ctx, base, sorted.filter(pred), segs, i, absolute, added, name, p);
        } else {
            let (n, b) = choose|n: &[u8], b: bool| n@ == spec_path_join(base, segs[i]) && #[trigger] call_ensures(
                C::file_exists,
                (ctx, n),
                b,
            ) && (if b {
                walk_adds(ctx, spec_path_join(base, segs[i]), segs, i + 1, absolute, added)
            } else {
                added.len() == 0
            });
            let n1 = choose|n1: &[u8]| n1@ == spec_path_join(base, name) && #[trigger] call_ensures(C::file_exists, (ctx, n1), true);
            assert(b);
            law_walk_reports_every_reachable_path(ctx, spec_path_join(base, name), segs, i + 1, absolute, added, p);
        }
    }
}

proof fn lemma_selected_names_report<C: Context>(
    ctx: &C,
    base: Seq<u8>,
    names: Seq<Seq<u8>>,
    segs: Seq<Seq<u8>>,
    i: int,
    absolute: bool,
    added: Seq<Seq<u8>>,
    name: Seq<u8>,
    p: Seq<u8>,
)
    requires
        answers_fixed(ctx),
        0 <= i < segs.len(),
        names.contains(name),
        names_adds(ctx, base, names, segs, i, absolute, added),
        walk_reaches(ctx, spec_path_join(base, name), segs, i + 1, absolute, p),
    ensures
        added.contains(p),
    decreases 2 * (segs.len() - i), names.len(),
{
    let (a1, a2) = choose|a1: Seq<Seq<u8>>, a2: Seq<Seq<u8>>|
        #![trigger a1 + a2]
        walk_adds(ctx, spec_path_join(base, names[0]), segs, i + 1, absolute, a1)
            && names_adds(ctx, base, names.drop_first(), segs, i, absolute, a2) && added == a1 + a2;
    if names[0] == name {
        law_walk_reports_every_reachable_path(ctx, spec_path_join(base, name), segs, i + 1, absolute, a1, p);
        let j = choose|j: int| 0 <= j < a1.len() && a1[j] == p;
        assert(added[j] == p);
    } else {
        let j = choose|j: int| 0 <= j < names.len() && names[j] == name;
        assert(names.drop_first()[j - 1] == name);
        lemma_selected_names_report(ctx, base, names.drop_first(), segs, i, absolute, a2, name, p);
        let m = choose|m: int| 0 <= m < a2.len() && a2[m] == p;
        assert(added[a1.len() + m] == p);
    }
}

/// What pathname expansion reports of a pattern with glob characters (a
/// reordering of what the walk of its components adds, as `expand_pathname`
/// ensures) holds every path the walk can reach, in a shell that answers
/// each question about the file system the same way each time.
pub proof fn law_pathname_expansion_misses_nothing<C: Context>(ctx: &C, pattern: Seq<u8>, paths: Seq<Seq<u8>>, p: Seq<u8>)
    requires
        answers_fixed(ctx),
        spec_has_glob(pattern),
        exists|added: Seq<Seq<u8>>|
            #[trigger] walk_adds(
            ctx,
            glob_base(pattern),
            split_components(pattern, 0, Seq::empty()),
            0,
            pattern_absolute(pattern),
            added,
        ) && paths.to_multiset() == added.to_multiset(),
        walk_reaches(ctx, glob_base(pattern), split_components(pattern, 0, Seq::empty()), 0, pattern_absolute(pattern), p),
    ensures
        paths.contains(p),
{
    let added = choose|added: Seq<Seq<u8>>|
        #[trigger] walk_adds(
        ctx,
        glob_base(pattern),
        split_components(pattern, 0, Seq::empty()),
        0,
        pattern_absolute(pattern),
        added,
    ) && paths.to_multiset() == added.to_multiset();
    law_walk_reports_every_reachable_path(
        ctx,
        glob_base(pattern),
        split_components(pattern, 0, Seq::empty()),
        0,
        pattern_absolute(pattern),
        added,
        p,
    );
    vstd::seq_lib::to_multiset_contains(added, p);
    vstd::seq_lib::to_multiset_contains(paths, p);
}

} // verus!
