//! The decisions of the interactive loop that do not touch the terminal or
//! the file system: prompt `!` expansion, recognising `fc` commands,
//! where history goes, what mail checking reads, what an edit session
//! returns and how the line is redrawn.

use vstd::prelude::*;
use vstd::string::StringSliceAdditionalSpecFns;
use crate::bytes::{push_u64, spec_decimal};
use crate::chars::{is_name_char, is_ws, spec_is_name_char, spec_is_ws, BANG, COLON, DQUOTE, EQUALS, NEWLINE, PERCENT, SLASH, SQUOTE, TAB, SPACE, CR};
use crate::scan::first_non_ws;

verus! {

// ---------------------------------------------------------------------
// Prompt
// ---------------------------------------------------------------------

/// The prompt `s[i..]` with `!` replaced by the history number `h` and
/// `!!` by a single `!`.
pub open spec fn spec_prompt_excl(s: Seq<u8>, i: int, h: Seq<u8>) -> Seq<u8>
    decreases s.len() - i,
{
    if i < 0 || i >= s.len() {
        Seq::empty()
    } else if s[i] == BANG {
        if i + 1 < s.len() && s[i + 1] == BANG {
            seq![BANG] + spec_prompt_excl(s, i + 2, h)
        } else if i + 1 < s.len() {
            h + seq![s[i + 1]] + spec_prompt_excl(s, i + 2, h)
        } else {
            h
        }
    } else {
        seq![s[i]] + spec_prompt_excl(s, i + 1, h)
    }
}

/// Replaces each `!` of a prompt with the history number `histnum`; `!!`
/// stands for `!`.
pub fn expand_prompt_exclamation(s: &[u8], histnum: usize) -> (r: Vec<u8>)
    ensures
        r@ == spec_prompt_excl(s@, 0, spec_decimal(histnum as nat)),
{
    let ghost h = spec_decimal(histnum as nat);
    let mut result: Vec<u8> = Vec::new();
    let mut i: usize = 0;
    while i < s.len()
        invariant
            i <= s@.len(),
            spec_prompt_excl(s@, 0, h) == result@ + spec_prompt_excl(s@, i as int, h),
            h == spec_decimal(histnum as nat),
        decreases s@.len() - i,
    {
        let ghost before = result@;
        let ghost gi = i as int;
        if s[i] == BANG {
            if 1 < s.len() - i && s[i + 1] == BANG {
                result.push(BANG);
                i += 2;
                assert(before + (seq![BANG] + spec_prompt_excl(s@, i as int, h)) =~= result@ + spec_prompt_excl(s@, i as int, h));
            } else if 1 < s.len() - i {
                push_u64(&mut result, histnum as u64);
                result.push(s[i + 1]);
                i += 2;
                assert(before + (h + seq![s@[gi + 1]] + spec_prompt_excl(s@, i as int, h)) =~= result@ + spec_prompt_excl(s@, i as int, h));
            } else {
                push_u64(&mut result, histnum as u64);
                i += 1;
                assert(spec_prompt_excl(s@, i as int, h) =~= Seq::<u8>::empty());
                assert(before + h =~= result@ + spec_prompt_excl(s@, i as int, h));
            }
        } else {
            result.push(s[i]);
            i += 1;
            assert(before + (seq![s@[gi]] + spec_prompt_excl(s@, i as int, h)) =~= result@ + spec_prompt_excl(s@, i as int, h));
        }
    }
    assert(result@ + Seq::<u8>::empty() =~= result@);
    result
}

// ---------------------------------------------------------------------
// Recognising fc
// ---------------------------------------------------------------------

/// The first index from `i` on whose byte is `b`.
pub open spec fn first_of(l: Seq<u8>, i: int, b: u8) -> Option<int>
    decreases l.len() - i,
{
    if i < 0 || i >= l.len() {
        None
    } else if l[i] == b {
        Some(i)
    } else {
        first_of(l, i + 1, b)
    }
}

/// The first index from `i` on whose byte is whitespace.
pub open spec fn first_ws(l: Seq<u8>, i: int) -> Option<int>
    decreases l.len() - i,
{
    if i < 0 || i >= l.len() {
        None
    } else if spec_is_ws(l[i]) {
        Some(i)
    } else {
        first_ws(l, i + 1)
    }
}

proof fn lemma_first_of(l: Seq<u8>, i: int, b: u8)
    ensures
        first_of(l, i, b) matches Some(k) ==> i <= k < l.len() && l[k] == b,
    decreases l.len() - i,
{
    if 0 <= i < l.len() && l[i] != b {
        lemma_first_of(l, i + 1, b);
    }
}

proof fn lemma_first_ws(l: Seq<u8>, i: int)
    ensures
        first_ws(l, i) matches Some(k) ==> i <= k < l.len(),
    decreases l.len() - i,
{
    if 0 <= i < l.len() && !spec_is_ws(l[i]) {
        lemma_first_ws(l, i + 1);
    }
}

proof fn lemma_first_non_ws(l: Seq<u8>, i: int)
    requires
        0 <= i,
    ensures
        i <= first_non_ws(l, i),
        i <= l.len() ==> first_non_ws(l, i) <= l.len(),
    decreases l.len() - i,
{
    if 0 <= i < l.len() && spec_is_ws(l[i]) {
        lemma_first_non_ws(l, i + 1);
    }
}

/// Whether every byte of `l[j..e]` is a name byte.
pub open spec fn name_bytes(l: Seq<u8>, j: int, e: int) -> bool {
    forall|k: int| j <= k < e ==> spec_is_name_char(#[trigger] l[k])
}

/// Whether the words `r` begin with the command `fc`.
pub open spec fn is_fc_words(r: Seq<u8>) -> bool {
    r == seq![0x66u8, 0x63u8] || (r.len() > 3 && r[0] == 0x66 && r[1] == 0x63 && (r[2] == SPACE
        || r[2] == TAB))
}

/// Where the value of an assignment that starts at `after` ends: after
/// its closing quote for a quoted value, at the first blank otherwise.
pub open spec fn value_end(l: Seq<u8>, after: int) -> Option<int> {
    if after < l.len() && l[after] == SQUOTE {
        match first_of(l, after + 1, SQUOTE) {
            Some(k) => Some(k + 1),
            None => None,
        }
    } else if after < l.len() && l[after] == DQUOTE {
        match first_of(l, after + 1, DQUOTE) {
            Some(k) => Some(k + 1),
            None => None,
        }
    } else {
        first_ws(l, after)
    }
}

/// Whether the command line from `i` on, after its leading assignments,
/// runs `fc`.
pub open spec fn spec_is_fc(l: Seq<u8>, i: int) -> bool
    decreases l.len() - i,
{
    let j = first_non_ws(l, i);
    if i < 0 || j >= l.len() {
        false
    } else {
        match first_of(l, j, EQUALS) {
            Some(e) => if e > j && name_bytes(l, j, e) {
                match value_end(l, e + 1) {
                    Some(next) => if i < next <= l.len() {
                        spec_is_fc(l, next)
                    } else {
                        false
                    },
                    None => false,
                }
            } else {
                is_fc_words(l.subrange(j, l.len() as int))
            },
            None => is_fc_words(l.subrange(j, l.len() as int)),
        }
    }
}

fn find_byte(l: &[u8], i: usize, b: u8) -> (r: Option<usize>)
    ensures
        r == match first_of(l@, i as int, b) {
            Some(k) => Some(k as usize),
            None => None::<usize>,
        },
        r matches Some(k) ==> i <= k < l@.len(),
{
    proof { lemma_first_of(l@, i as int, b); }
    let mut k = i;
    while k < l.len()
        invariant
            i <= k,
            first_of(l@, i as int, b) == first_of(l@, k as int, b),
        decreases l@.len() - k,
    {
        if l[k] == b {
            return Some(k);
        }
        k += 1;
    }
    None
}

fn find_ws(l: &[u8], i: usize) -> (r: Option<usize>)
    ensures
        r == match first_ws(l@, i as int) {
            Some(k) => Some(k as usize),
            None => None::<usize>,
        },
        r matches Some(k) ==> i <= k < l@.len(),
{
    proof { lemma_first_ws(l@, i as int); }
    let mut k = i;
    while k < l.len()
        invariant
            i <= k,
            first_ws(l@, i as int) == first_ws(l@, k as int),
        decreases l@.len() - k,
    {
        if is_ws(l[k]) {
            return Some(k);
        }
        k += 1;
    }
    None
}

fn fc_words(r: &[u8]) -> (b: bool)
    ensures
        b == is_fc_words(r@),
{
    let b = (r.len() == 2 && r[0] == 0x66 && r[1] == 0x63) || (r.len() > 3 && r[0] == 0x66 && r[1]
        == 0x63 && (r[2] == SPACE || r[2] == TAB));
    assert(r@.len() == 2 && r@[0] == 0x66 && r@[1] == 0x63 ==> r@ =~= seq![0x66u8, 0x63u8]);
    b
}

/// Whether a command line runs `fc` (after any leading assignments), so
/// that it is not itself added to the history.
pub fn command_is_fc(line: &[u8]) -> (r: bool)
    ensures
        r == spec_is_fc(line@, 0),
{
    let ghost l = line@;
    let mut i: usize = 0;
    loop
        invariant
            i <= line@.len(),
            l == line@,
            spec_is_fc(l, 0) == spec_is_fc(l, i as int),
        decreases line@.len() - i,
    {
        proof { lemma_first_non_ws(l, i as int); }
        let mut j = i;
        while j < line.len() && is_ws(line[j])
            invariant
                i <= j <= line@.len(),
                first_non_ws(l, i as int) == first_non_ws(l, j as int),
                l == line@,
            decreases line@.len() - j,
        {
            j += 1;
        }
        if j >= line.len() {
            return false;
        }
        let rest = vstd::slice::slice_subrange(line, j, line.len());
        proof { lemma_first_of(l, j as int, EQUALS); }
        match find_byte(line, j, EQUALS) {
            Some(e) => {
                let mut k = j;
                while k < e && is_name_char(line[k])
                    invariant
                        j <= k <= e < line@.len(),
                        forall|m: int| j <= m < k ==> spec_is_name_char(#[trigger] l[m]),
                        l == line@,
                    decreases e - k,
                {
                    k += 1;
                }
                if e > j && k == e {
                    let after = e + 1;
                    proof {
                        lemma_first_of(l, after + 1, SQUOTE);
                        lemma_first_of(l, after + 1, DQUOTE);
                        lemma_first_ws(l, after as int);
                    }
                    let next: Option<usize> = if after < line.len() && line[after] == SQUOTE {
                        match find_byte(line, after + 1, SQUOTE) {
                            Some(q) => Some(q + 1),
                            None => None,
                        }
                    } else if after < line.len() && line[after] == DQUOTE {
                        match find_byte(line, after + 1, DQUOTE) {
                            Some(q) => Some(q + 1),
                            None => None,
                        }
                    } else {
                        find_ws(line, after)
                    };
                    match next {
                        Some(n) => {
                            assert(i < n <= l.len());
                            i = n;
                        },
                        None => return false,
                    }
                } else {
                    if k < e {
                        assert(!spec_is_name_char(l[k as int]));
                    }
                    return fc_words(rest);
                }
            },
            None => {
                return fc_words(rest);
            },
        }
    }
}

// ---------------------------------------------------------------------
// History, mail and the editor
// ---------------------------------------------------------------------

/// The history file: `$HISTFILE`, else `$HOME/.sh_history`, else
/// `.sh_history` in the current directory.
pub fn history_path(histfile: Option<Vec<u8>>, home: Option<Vec<u8>>) -> (r: Vec<u8>)
    ensures
        histfile matches Some(h) ==> r@ == h@,
        histfile is None ==> (home matches Some(h) ==> r@ == h@ + "/.sh_history".spec_bytes()),
        histfile is None && home is None ==> r@ == ".sh_history".spec_bytes(),
{
    match histfile {
        Some(h) => h,
        None => match home {
            Some(h) => {
                let mut path = h;
                let mut tail = crate::chars::lit("/.sh_history");
                path.append(&mut tail);
                path
            },
            None => crate::chars::lit(".sh_history"),
        },
    }
}

/// A history entry for `line`: the line with a newline at its end.
pub fn history_entry(line: &[u8]) -> (r: Vec<u8>)
    ensures
        line@.len() > 0 && line@.last() == NEWLINE ==> r@ == line@,
        !(line@.len() > 0 && line@.last() == NEWLINE) ==> r@ == line@.push(NEWLINE),
{
    let mut entry = vstd::slice::slice_to_vec(line);
    if entry.len() == 0 || entry[entry.len() - 1] != NEWLINE {
        entry.push(NEWLINE);
    }
    entry
}

/// The colon-separated pieces of `s`.
pub open spec fn colon_pieces(s: Seq<u8>) -> Seq<Seq<u8>>
    decreases s.len(),
{
    match first_of(s, 0, COLON) {
        Some(k) => if 0 <= k < s.len() {
            seq![s.subrange(0, k)] + colon_pieces(s.subrange(k + 1, s.len() as int))
        } else {
            seq![s]
        },
        None => seq![s],
    }
}

/// A `$MAILPATH` entry: the path, and the message after a `%` if any.
pub open spec fn spec_mail_entry(piece: Seq<u8>) -> (Seq<u8>, Option<Seq<u8>>) {
    match first_of(piece, 0, PERCENT) {
        Some(k) => (piece.subrange(0, k), Some(piece.subrange(k + 1, piece.len() as int))),
        None => (piece, None),
    }
}

/// The view of the parsed entries.
pub open spec fn entries_view(r: Seq<(Vec<u8>, Option<Vec<u8>>)>) -> Seq<(Seq<u8>, Option<Seq<u8>>)> {
    r.map_values(|e: (Vec<u8>, Option<Vec<u8>>)| (e.0@, match e.1 {
        Some(m) => Some(m@),
        None => None,
    }))
}

proof fn lemma_first_of_shift(s: Seq<u8>, start: int, i: int, b: u8)
    requires
        0 <= start <= i <= s.len(),
        forall|m: int| start <= m < i ==> s[m] != b,
    ensures
        first_of(s.subrange(start, s.len() as int), i - start, b) == match first_of(s, i, b) {
            Some(k) => Some(k - start),
            None => None::<int>,
        },
        first_of(s.subrange(start, s.len() as int), 0, b) == first_of(s.subrange(start, s.len() as int), i - start, b),
    decreases s.len() - i,
{
    let t = s.subrange(start, s.len() as int);
    if i < s.len() && s[i] != b {
        lemma_first_of_shift(s, start, i + 1, b);
    }
    lemma_first_of_prefix(t, 0, i - start, b);
}

proof fn lemma_first_of_prefix(t: Seq<u8>, a: int, c: int, b: u8)
    requires
        0 <= a <= c <= t.len(),
        forall|m: int| a <= m < c ==> t[m] != b,
    ensures
        first_of(t, a, b) == first_of(t, c, b),
    decreases c - a,
{
    if a < c {
        lemma_first_of_prefix(t, a + 1, c, b);
    }
}

/// The `$MAILPATH` entries: paths separated by `:`, each optionally
/// followed by `%` and the message to print for it.
pub fn mail_entries(mailpath: &[u8]) -> (r: Vec<(Vec<u8>, Option<Vec<u8>>)>)
    ensures
        entries_view(r@) == colon_pieces(mailpath@).map_values(|p: Seq<u8>| spec_mail_entry(p)),
{
    let ghost s = mailpath@;
    let mut result: Vec<(Vec<u8>, Option<Vec<u8>>)> = Vec::new();
    let mut start: usize = 0;
    let mut i: usize = 0;
    assert(entries_view(result@) =~= Seq::<(Seq<u8>, Option<Seq<u8>>)>::empty());
    assert(s.subrange(0, s.len() as int) =~= s);
    while i < mailpath.len()
        invariant
            start <= i <= s.len(),
            s == mailpath@,
            forall|m: int| start <= m < i ==> s[m] != COLON,
            entries_view(result@) + colon_pieces(s.subrange(start as int, s.len() as int)).map_values(|p: Seq<u8>| spec_mail_entry(p))
                == colon_pieces(s).map_values(|p: Seq<u8>| spec_mail_entry(p)),
        decreases s.len() - i,
    {
        if mailpath[i] == COLON {
            let entry = vstd::slice::slice_subrange(mailpath, start, i);
            let ghost t = s.subrange(start as int, s.len() as int);
            proof {
                lemma_first_of_shift(s, start as int, i as int, COLON);
                assert(first_of(t, 0, COLON) == Some(i - start));
                assert(t.subrange(0, i - start) =~= entry@);
                assert(t.subrange(i - start + 1, t.len() as int) =~= s.subrange(i + 1, s.len() as int));
            }
            let ghost ev = entries_view(result@);
            let item = mail_entry(entry);
            result.push(item);
            assert(entries_view(result@) =~= ev.push(spec_mail_entry(entry@)));
            assert(colon_pieces(t) == seq![entry@] + colon_pieces(s.subrange(i + 1, s.len() as int)));
            assert(colon_pieces(t).map_values(|p: Seq<u8>| spec_mail_entry(p)) =~= seq![spec_mail_entry(entry@)]
                + colon_pieces(s.subrange(i + 1, s.len() as int)).map_values(|p: Seq<u8>| spec_mail_entry(p)));
            assert(entries_view(result@) + colon_pieces(s.subrange(i + 1, s.len() as int)).map_values(|p: Seq<u8>| spec_mail_entry(p))
                =~= ev + colon_pieces(t).map_values(|p: Seq<u8>| spec_mail_entry(p)));
            start = i + 1;
        }
        i += 1;
    }
    let entry = vstd::slice::slice_subrange(mailpath, start, mailpath.len());
    proof {
        let t = s.subrange(start as int, s.len() as int);
        lemma_first_of_shift(s, start as int, s.len() as int, COLON);
        assert(t =~= entry@);
        assert(first_of(t, 0, COLON) is None);
    }
    let ghost ev = entries_view(result@);
    let item = mail_entry(entry);
    result.push(item);
    assert(entries_view(result@) =~= ev.push(spec_mail_entry(entry@)));
    assert(colon_pieces(entry@).map_values(|p: Seq<u8>| spec_mail_entry(p)) =~= seq![spec_mail_entry(entry@)]);
    result
}

/// One `$MAILPATH` entry: its path and the message after `%`, if any.
pub fn mail_entry(entry: &[u8]) -> (r: (Vec<u8>, Option<Vec<u8>>))
    ensures
        r.0@ == spec_mail_entry(entry@).0,
        match spec_mail_entry(entry@).1 {
            Some(m) => r.1 matches Some(v) && v@ == m,
            None => r.1 is None,
        },
{
    proof { lemma_first_of(entry@, 0, PERCENT); }
    let n = entry.len();
    match find_byte(entry, 0, PERCENT) {
        Some(pos) => {
            let path = vstd::slice::slice_to_vec(vstd::slice::slice_subrange(entry, 0, pos));
            let msg = vstd::slice::slice_to_vec(vstd::slice::slice_subrange(entry, pos + 1, n));
            (path, Some(msg))
        },
        None => (vstd::slice::slice_to_vec(entry), None),
    }
}

/// Whether mail is due to be checked at `now` (seconds) when it was last
/// checked at `last` (0 for never), every `interval` seconds.
pub fn mail_check_due(last: u64, now: u64, interval: u64) -> (r: bool)
    ensures
        r == (last == 0 || now.saturating_sub(last) >= interval),
{
    last == 0 || now.saturating_sub(last) >= interval
}

/// Whether `b` is trimmed from the end of an edited line.
pub open spec fn trailing_blank(b: u8) -> bool {
    b == SPACE || b == TAB || b == NEWLINE || b == CR
}

/// The length of `s[..end]` without its trailing blanks and newlines.
pub open spec fn trimmed_end(s: Seq<u8>, end: int) -> int
    decreases end,
{
    if end > 0 && end <= s.len() && trailing_blank(s[end - 1]) {
        trimmed_end(s, end - 1)
    } else {
        end
    }
}

/// What an editing session of the line returns: the file's text without
/// trailing blanks and newlines, with one newline, unless nothing is
/// left.
pub fn editor_result(content: &[u8]) -> (r: Option<Vec<u8>>)
    ensures
        ({
            let e = trimmed_end(content@, content@.len() as int);
            if e <= 0 {
                r is None
            } else {
                r matches Some(v) && v@ == content@.subrange(0, e).push(NEWLINE)
            }
        }),
{
    let mut end = content.len();
    while end > 0 && (content[end - 1] == SPACE || content[end - 1] == TAB || content[end - 1] == NEWLINE
        || content[end - 1] == CR)
        invariant
            end <= content@.len(),
            trimmed_end(content@, content@.len() as int) == trimmed_end(content@, end as int),
        decreases end,
    {
        end -= 1;
    }
    if end == 0 {
        return None;
    }
    let mut s = vstd::slice::slice_to_vec(vstd::slice::slice_subrange(content, 0, end));
    s.push(NEWLINE);
    Some(s)
}

/// The `$ENV` file to read at start-up: its expanded name, if absolute.
pub fn env_file_path(expanded: Vec<u8>) -> (r: Option<Vec<u8>>)
    ensures
        r is Some <==> expanded@.len() > 0 && expanded@[0] == SLASH,
        r matches Some(p) ==> p@ == expanded@,
{
    if expanded.len() > 0 && expanded[0] == SLASH {
        Some(expanded)
    } else {
        None
    }
}

/// The bytes written after the prompt to redraw the line: the line, then
/// a move left from its end to the cursor.
pub fn redraw_line_bytes(line: &[u8], cursor: usize) -> (r: Vec<u8>)
    ensures
        cursor < line@.len() ==> r@ == line@ + seq![0x1bu8, 0x5bu8] + spec_decimal((line@.len() - cursor) as nat) + seq![0x44u8],
        cursor >= line@.len() ==> r@ == line@,
{
    let mut buf = vstd::slice::slice_to_vec(line);
    if cursor < line.len() {
        let back = line.len() - cursor;
        buf.push(0x1b);
        buf.push(0x5b);
        push_u64(&mut buf, back as u64);
        buf.push(0x44);
    }
    buf
}

} // verus!
