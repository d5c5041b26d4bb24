//! The vi line-editing mode of the interactive shell: cursor motions,
//! edits, history and search, as a state machine that turns each input
//! byte into the actions the terminal side performs.

use vstd::prelude::*;
use crate::bytes::views;
use crate::vi_model::{
    ActionView, EditorView, actions_view, bell_actions, bell_if, esc_move, found_view, hist_view,
    load_entry, repeat_big_x, repeat_find, repeat_replace, repeat_tilde, repeat_word_move, repeat_x,
    replay_big_x, replay_x, search_newer, search_older, spec_apply_completion, spec_apply_glob,
    spec_command, spec_command_edit, spec_command_history, spec_command_motion, spec_command_other,
    spec_insert, spec_operator, spec_process_byte, spec_replay, spec_search, toggle_case,
    with_cursor, with_last_cmd, with_text,
};
use crate::scan::first_non_ws;
use crate::chars::{
    is_digit, is_lower, is_name_char, is_upper, is_ws, spec_is_digit, spec_is_lower, spec_is_name_char,
    spec_is_upper, spec_is_ws,
};

verus! {

// ---------------------------------------------------------------------
// Word motions
// ---------------------------------------------------------------------

/// The class of a byte for word motions: 0 for word bytes (letters,
/// digits, `_`), 1 for whitespace, 2 for the rest.
pub open spec fn cls(b: u8) -> int {
    if spec_is_name_char(b) {
        0
    } else if spec_is_ws(b) {
        1
    } else {
        2
    }
}

/// The first index from `p` on whose byte is not of class `c`.
pub open spec fn fwd_cls(l: Seq<u8>, p: int, c: int) -> int
    decreases l.len() - p,
{
    if 0 <= p < l.len() && cls(l[p]) == c {
        fwd_cls(l, p + 1, c)
    } else {
        p
    }
}

/// The first index from `p` on whose byte is whitespace.
pub open spec fn fwd_nonws(l: Seq<u8>, p: int) -> int
    decreases l.len() - p,
{
    if 0 <= p < l.len() && !spec_is_ws(l[p]) {
        fwd_nonws(l, p + 1)
    } else {
        p
    }
}

/// The start of the run of class-`c` bytes that ends at `p`.
pub open spec fn back_cls(l: Seq<u8>, p: int, c: int) -> int
    decreases p,
{
    if 0 < p <= l.len() && cls(l[p - 1]) == c {
        back_cls(l, p - 1, c)
    } else {
        p
    }
}

/// The start of the run of non-whitespace bytes that ends at `p`.
pub open spec fn back_nonws(l: Seq<u8>, p: int) -> int
    decreases p,
{
    if 0 < p <= l.len() && !spec_is_ws(l[p - 1]) {
        back_nonws(l, p - 1)
    } else {
        p
    }
}

proof fn lemma_fwd_cls(l: Seq<u8>, p: int, c: int)
    requires
        0 <= p,
    ensures
        p <= fwd_cls(l, p, c),
        p <= l.len() ==> fwd_cls(l, p, c) <= l.len(),
        fwd_cls(l, p, c) < l.len() ==> cls(l[fwd_cls(l, p, c)]) != c,
    decreases l.len() - p,
{
    if 0 <= p < l.len() && cls(l[p]) == c {
        lemma_fwd_cls(l, p + 1, c);
    }
}

proof fn lemma_fwd_nonws(l: Seq<u8>, p: int)
    requires
        0 <= p,
    ensures
        p <= fwd_nonws(l, p),
        p <= l.len() ==> fwd_nonws(l, p) <= l.len(),
    decreases l.len() - p,
{
    if 0 <= p < l.len() && !spec_is_ws(l[p]) {
        lemma_fwd_nonws(l, p + 1);
    }
}

proof fn lemma_back_cls(l: Seq<u8>, p: int, c: int)
    requires
        0 <= p <= l.len(),
    ensures
        0 <= back_cls(l, p, c) <= p,
    decreases p,
{
    if 0 < p && cls(l[p - 1]) == c {
        lemma_back_cls(l, p - 1, c);
    }
}

proof fn lemma_back_nonws(l: Seq<u8>, p: int)
    requires
        0 <= p <= l.len(),
    ensures
        0 <= back_nonws(l, p) <= p,
    decreases p,
{
    if 0 < p && !spec_is_ws(l[p - 1]) {
        lemma_back_nonws(l, p - 1);
    }
}

/// Whether `c` belongs to a word (letters, digits and `_`).
pub fn is_word_char(c: u8) -> (r: bool)
    ensures
        r == spec_is_name_char(c),
{
    is_name_char(c)
}

fn class_of(b: u8) -> (r: u8)
    ensures
        r as int == cls(b),
{
    if is_name_char(b) {
        0
    } else if is_ws(b) {
        1
    } else {
        2
    }
}

fn skip_fwd(line: &[u8], p: usize, c: u8) -> (r: usize)
    requires
        p <= line@.len(),
    ensures
        r == fwd_cls(line@, p as int, c as int),
        p <= r <= line@.len(),
{
    proof { lemma_fwd_cls(line@, p as int, c as int); }
    let mut q = p;
    while q < line.len() && class_of(line[q]) == c
        invariant
            p <= q <= line@.len(),
            fwd_cls(line@, p as int, c as int) == fwd_cls(line@, q as int, c as int),
        decreases line@.len() - q,
    {
        q += 1;
    }
    q
}

fn skip_fwd_nonws(line: &[u8], p: usize) -> (r: usize)
    requires
        p <= line@.len(),
    ensures
        r == fwd_nonws(line@, p as int),
        p <= r <= line@.len(),
{
    proof { lemma_fwd_nonws(line@, p as int); }
    let mut q = p;
    while q < line.len() && !is_ws(line[q])
        invariant
            p <= q <= line@.len(),
            fwd_nonws(line@, p as int) == fwd_nonws(line@, q as int),
        decreases line@.len() - q,
    {
        q += 1;
    }
    q
}

fn skip_back(line: &[u8], p: usize, c: u8) -> (r: usize)
    requires
        p <= line@.len(),
    ensures
        r == back_cls(line@, p as int, c as int),
        r <= p,
{
    proof { lemma_back_cls(line@, p as int, c as int); }
    let mut q = p;
    while q > 0 && class_of(line[q - 1]) == c
        invariant
            q <= p <= line@.len(),
            back_cls(line@, p as int, c as int) == back_cls(line@, q as int, c as int),
        decreases q,
    {
        q -= 1;
    }
    q
}

fn skip_back_nonws(line: &[u8], p: usize) -> (r: usize)
    requires
        p <= line@.len(),
    ensures
        r == back_nonws(line@, p as int),
        r <= p,
{
    proof { lemma_back_nonws(line@, p as int); }
    let mut q = p;
    while q > 0 && !is_ws(line[q - 1])
        invariant
            q <= p <= line@.len(),
            back_nonws(line@, p as int) == back_nonws(line@, q as int),
        decreases q,
    {
        q -= 1;
    }
    q
}

/// `w`: past the rest of the word (or punctuation run) under the cursor
/// and the blanks after it.
pub open spec fn spec_word_forward(l: Seq<u8>, pos: int) -> int {
    if pos >= l.len() {
        pos
    } else {
        let p1 = if cls(l[pos]) != 1 { fwd_cls(l, pos, cls(l[pos])) } else { pos };
        fwd_cls(l, p1, 1)
    }
}

/// `b`: back over blanks, then to the start of the word (or punctuation
/// run) before them.
pub open spec fn spec_word_backward(l: Seq<u8>, pos: int) -> int {
    let p = back_cls(l, pos, 1);
    if pos == 0 || p == 0 {
        0
    } else {
        back_cls(l, p, cls(l[p - 1]))
    }
}

/// `W`: past the rest of the blank-delimited word and the blanks after it.
pub open spec fn spec_bigword_forward(l: Seq<u8>, pos: int) -> int {
    if pos >= l.len() {
        pos
    } else {
        fwd_cls(l, fwd_nonws(l, pos), 1)
    }
}

/// `B`: back over blanks, then to the start of the blank-delimited word.
pub open spec fn spec_bigword_backward(l: Seq<u8>, pos: int) -> int {
    if pos == 0 {
        0
    } else {
        back_nonws(l, back_cls(l, pos, 1))
    }
}

/// `e`: to the last byte of the next word (or punctuation run).
pub open spec fn spec_word_end(l: Seq<u8>, pos: int) -> int {
    if pos + 1 >= l.len() {
        pos
    } else {
        let p = fwd_cls(l, pos + 1, 1);
        if p >= l.len() {
            l.len() - 1
        } else {
            fwd_cls(l, p, cls(l[p])) - 1
        }
    }
}

/// `E`: to the last byte of the next blank-delimited word.
pub open spec fn spec_bigword_end(l: Seq<u8>, pos: int) -> int {
    if pos + 1 >= l.len() {
        pos
    } else {
        let p = fwd_cls(l, pos + 1, 1);
        if p >= l.len() {
            l.len() - 1
        } else {
            fwd_nonws(l, p) - 1
        }
    }
}

/// The position `w` moves the cursor at `pos` to.
pub fn word_forward(line: &[u8], pos: usize) -> (r: usize)
    ensures
        r == spec_word_forward(line@, pos as int),
        pos <= r,
        pos <= line@.len() ==> r <= line@.len(),
{
    if pos >= line.len() {
        return pos;
    }
    let c = class_of(line[pos]);
    let p1 = if c != 1 { skip_fwd(line, pos, c) } else { pos };
    skip_fwd(line, p1, 1)
}

/// The position `b` moves the cursor at `pos` to.
pub fn word_backward(line: &[u8], pos: usize) -> (r: usize)
    requires
        pos <= line@.len(),
    ensures
        r == spec_word_backward(line@, pos as int),
        r <= pos,
{
    if pos == 0 {
        return 0;
    }
    let p = skip_back(line, pos, 1);
    if p == 0 {
        return 0;
    }
    let c = class_of(line[p - 1]);
    skip_back(line, p, c)
}

/// The position `W` moves the cursor at `pos` to.
pub fn bigword_forward(line: &[u8], pos: usize) -> (r: usize)
    ensures
        r == spec_bigword_forward(line@, pos as int),
        pos <= r,
        pos <= line@.len() ==> r <= line@.len(),
{
    if pos >= line.len() {
        return pos;
    }
    let p = skip_fwd_nonws(line, pos);
    skip_fwd(line, p, 1)
}

/// The position `B` moves the cursor at `pos` to.
pub fn bigword_backward(line: &[u8], pos: usize) -> (r: usize)
    requires
        pos <= line@.len(),
    ensures
        r == spec_bigword_backward(line@, pos as int),
        r <= pos,
{
    if pos == 0 {
        return 0;
    }
    let p = skip_back(line, pos, 1);
    skip_back_nonws(line, p)
}

/// The position `e` moves the cursor at `pos` to.
pub fn word_end(line: &[u8], pos: usize) -> (r: usize)
    requires
        pos <= line@.len(),
    ensures
        r == spec_word_end(line@, pos as int),
        r <= line@.len(),
        r < line@.len() || r == pos,
{
    if pos >= line.len() || 1 >= line.len() - pos {
        return pos;
    }
    let p = skip_fwd(line, pos + 1, 1);
    if p >= line.len() {
        return line.len() - 1;
    }
    proof { lemma_fwd_cls(line@, p as int, cls(line@[p as int])); }
    let c = class_of(line[p]);
    skip_fwd(line, p, c) - 1
}

/// The position `E` moves the cursor at `pos` to.
pub fn bigword_end(line: &[u8], pos: usize) -> (r: usize)
    requires
        pos <= line@.len(),
    ensures
        r == spec_bigword_end(line@, pos as int),
        r <= line@.len(),
        r < line@.len() || r == pos,
{
    if pos >= line.len() || 1 >= line.len() - pos {
        return pos;
    }
    let p = skip_fwd(line, pos + 1, 1);
    if p >= line.len() {
        return line.len() - 1;
    }
    proof { lemma_fwd_nonws(line@, p as int); }
    skip_fwd_nonws(line, p) - 1
}

// ---------------------------------------------------------------------
// Finding a byte
// ---------------------------------------------------------------------

/// The first index from `from` on whose byte is `t`.
pub open spec fn find_fwd(l: Seq<u8>, from: int, t: u8) -> Option<int>
    decreases l.len() - from,
{
    if from < 0 || from >= l.len() {
        None
    } else if l[from] == t {
        Some(from)
    } else {
        find_fwd(l, from + 1, t)
    }
}

/// The last index before `before` whose byte is `t`.
pub open spec fn find_back(l: Seq<u8>, before: int, t: u8) -> Option<int>
    decreases before,
{
    if before <= 0 || before > l.len() {
        None
    } else if l[before - 1] == t {
        Some(before - 1)
    } else {
        find_back(l, before - 1, t)
    }
}

/// Where `f`, `F`, `t` or `T` with target `t` moves the cursor.
pub open spec fn spec_do_find(l: Seq<u8>, cursor: int, cmd: u8, t: u8) -> Option<int> {
    if cmd == 0x66 {
        find_fwd(l, cursor + 1, t)
    } else if cmd == 0x46 {
        find_back(l, cursor, t)
    } else if cmd == 0x74 {
        match find_fwd(l, cursor + 1, t) {
            Some(i) => Some(i - 1),
            None => None,
        }
    } else if cmd == 0x54 {
        match find_back(l, cursor, t) {
            Some(i) => Some(i + 1),
            None => None,
        }
    } else {
        None
    }
}

proof fn lemma_find_fwd(l: Seq<u8>, from: int, t: u8)
    ensures
        find_fwd(l, from, t) matches Some(i) ==> from <= i < l.len() && l[i] == t,
    decreases l.len() - from,
{
    if 0 <= from < l.len() && l[from] != t {
        lemma_find_fwd(l, from + 1, t);
    }
}

proof fn lemma_find_back(l: Seq<u8>, before: int, t: u8)
    ensures
        find_back(l, before, t) matches Some(i) ==> 0 <= i < before && l[i] == t,
    decreases before,
{
    if 0 < before <= l.len() && l[before - 1] != t {
        lemma_find_back(l, before - 1, t);
    }
}

proof fn lemma_do_find_range(l: Seq<u8>, cursor: int, cmd: u8, t: u8)
    requires
        0 <= cursor <= l.len(),
    ensures
        spec_do_find(l, cursor, cmd, t) matches Some(i) ==> 0 <= i <= l.len(),
{
    lemma_find_fwd(l, cursor + 1, t);
    lemma_find_back(l, cursor, t);
}

/// The first index after `from` whose byte is `target`.
fn scan_fwd(line: &[u8], from: usize, target: u8) -> (r: Option<usize>)
    ensures
        r == match find_fwd(line@, from as int, target) {
            Some(i) => Some(i as usize),
            None => None::<usize>,
        },
        r matches Some(i) ==> from <= i < line@.len(),
{
    proof { lemma_find_fwd(line@, from as int, target); }
    let mut i = from;
    while i < line.len()
        invariant
            from <= i,
            find_fwd(line@, from as int, target) == find_fwd(line@, i as int, target),
        decreases line@.len() - i,
    {
        if line[i] == target {
            return Some(i);
        }
        i += 1;
    }
    None
}

/// The last index before `before` whose byte is `target`.
fn scan_back(line: &[u8], before: usize, target: u8) -> (r: Option<usize>)
    requires
        before <= line@.len(),
    ensures
        r == match find_back(line@, before as int, target) {
            Some(i) => Some(i as usize),
            None => None::<usize>,
        },
        r matches Some(i) ==> i < before,
{
    proof { lemma_find_back(line@, before as int, target); }
    let mut i = before;
    while i > 0
        invariant
            i <= before <= line@.len(),
            find_back(line@, before as int, target) == find_back(line@, i as int, target),
        decreases i,
    {
        if line[i - 1] == target {
            return Some(i - 1);
        }
        i -= 1;
    }
    None
}

/// Where `f`, `F`, `t` or `T` (`cmd`) looking for `target` moves the
/// cursor, if the target is there.
pub fn do_find(line: &[u8], cursor: usize, cmd: u8, target: u8) -> (r: Option<usize>)
    requires
        cursor <= line@.len(),
    ensures
        r == match spec_do_find(line@, cursor as int, cmd, target) {
            Some(i) => Some(i as usize),
            None => None::<usize>,
        },
        r matches Some(i) ==> i <= cursor || i < line@.len(),
{
    proof {
        lemma_find_fwd(line@, cursor + 1, target);
        lemma_find_back(line@, cursor as int, target);
    }
    if cmd == 0x66 {
        if cursor >= line.len() {
            return None;
        }
        scan_fwd(line, cursor + 1, target)
    } else if cmd == 0x46 {
        scan_back(line, cursor, target)
    } else if cmd == 0x74 {
        if cursor >= line.len() {
            return None;
        }
        match scan_fwd(line, cursor + 1, target) {
            Some(i) => Some(i - 1),
            None => None,
        }
    } else if cmd == 0x54 {
        match scan_back(line, cursor, target) {
            Some(i) => Some(i + 1),
            None => None,
        }
    } else {
        None
    }
}

// ---------------------------------------------------------------------
// Motions as ranges
// ---------------------------------------------------------------------

/// Where one step of the word motion `m` takes the cursor at `p`.
pub open spec fn motion_step(l: Seq<u8>, p: int, m: u8) -> int {
    if m == 0x77 {
        spec_word_forward(l, p)
    } else if m == 0x57 {
        spec_bigword_forward(l, p)
    } else if m == 0x62 {
        spec_word_backward(l, p)
    } else if m == 0x42 {
        spec_bigword_backward(l, p)
    } else if m == 0x65 {
        spec_word_end(l, p)
    } else {
        spec_bigword_end(l, p)
    }
}

/// Where `n` steps of the word motion `m` take the cursor at `p`.
pub open spec fn iter_motion(l: Seq<u8>, p: int, m: u8, n: nat) -> int
    decreases n,
{
    if n == 0 {
        p
    } else {
        motion_step(l, iter_motion(l, p, m, (n - 1) as nat), m)
    }
}

/// Whether `m` is one of the word motions `w W b B e E`.
pub open spec fn is_word_motion(m: u8) -> bool {
    m == 0x77 || m == 0x57 || m == 0x62 || m == 0x42 || m == 0x65 || m == 0x45
}

/// The range of the line that an operator with motion `m` and count
/// `count` covers, from the cursor at `cursor`.
pub open spec fn spec_resolve_motion(l: Seq<u8>, cursor: int, m: u8, count: nat) -> (int, int) {
    if is_word_motion(m) {
        let t = iter_motion(l, cursor, m, count) + if m == 0x65 || m == 0x45 { 1int } else { 0int };
        if t < cursor {
            (t, cursor)
        } else {
            (cursor, if t < l.len() { t } else { l.len() as int })
        }
    } else if m == 0x68 {
        (if count <= cursor { cursor - count } else { 0 }, cursor)
    } else if m == 0x6c || m == 0x20 {
        (cursor, if cursor + count < l.len() { cursor + count } else { l.len() as int })
    } else if m == 0x30 {
        (0, cursor)
    } else if m == 0x24 {
        (cursor, l.len() as int)
    } else {
        (cursor, cursor)
    }
}

fn step_motion(line: &[u8], p: usize, m: u8) -> (r: usize)
    requires
        p <= line@.len(),
    ensures
        r == motion_step(line@, p as int, m),
        r <= line@.len(),
{
    if m == 0x77 {
        word_forward(line, p)
    } else if m == 0x57 {
        bigword_forward(line, p)
    } else if m == 0x62 {
        word_backward(line, p)
    } else if m == 0x42 {
        bigword_backward(line, p)
    } else if m == 0x65 {
        word_end(line, p)
    } else {
        bigword_end(line, p)
    }
}

/// The range `[start, end)` of the line that an operator (`d`, `c`, `y`)
/// with motion `motion` and count `count` acts on.
pub fn resolve_motion(line: &[u8], cursor: usize, motion: u8, count: usize) -> (r: (usize, usize))
    requires
        cursor <= line@.len(),
    ensures
        r.0 == spec_resolve_motion(line@, cursor as int, motion, count as nat).0,
        r.1 == spec_resolve_motion(line@, cursor as int, motion, count as nat).1,
        r.0 <= r.1 <= line@.len(),
{
    if motion == 0x77 || motion == 0x57 || motion == 0x62 || motion == 0x42 || motion == 0x65 || motion == 0x45 {
        let mut p = cursor;
        let mut k: usize = 0;
        while k < count
            invariant
                k <= count,
                p <= line@.len(),
                cursor <= line@.len(),
                p == iter_motion(line@, cursor as int, motion, k as nat),
            decreases count - k,
        {
            p = step_motion(line, p, motion);
            k += 1;
        }
        if (motion == 0x65 || motion == 0x45) && p >= line.len() {
            return (cursor, line.len());
        }
        let t = if motion == 0x65 || motion == 0x45 { p + 1 } else { p };
        if t < cursor {
            return (t, cursor);
        }
        return (cursor, if t < line.len() { t } else { line.len() });
    }
    if motion == 0x68 {
        return (cursor.saturating_sub(count), cursor);
    }
    if motion == 0x6c || motion == 0x20 {
        let end = if count < line.len() - cursor { cursor + count } else { line.len() };
        return (cursor, end);
    }
    if motion == 0x30 {
        return (0, cursor);
    }
    if motion == 0x24 {
        return (cursor, line.len());
    }
    (cursor, cursor)
}

// ---------------------------------------------------------------------
// Editing the line
// ---------------------------------------------------------------------

/// `line` without the bytes `start..end`.
pub fn remove_range(line: &mut Vec<u8>, start: usize, end: usize)
    requires
        start <= end <= old(line)@.len(),
    ensures
        final(line)@ == old(line)@.subrange(0, start as int) + old(line)@.subrange(end as int, old(line)@.len() as int),
{
    let mut out: Vec<u8> = vstd::slice::slice_to_vec(vstd::slice::slice_subrange(line.as_slice(), 0, start));
    out.extend_from_slice(vstd::slice::slice_subrange(line.as_slice(), end, line.len()));
    *line = out;
}

/// `text` inserted into `line` at `at`.
pub fn insert_bytes(line: &mut Vec<u8>, at: usize, text: &[u8])
    requires
        at <= old(line)@.len(),
    ensures
        final(line)@ == old(line)@.subrange(0, at as int) + text@ + old(line)@.subrange(at as int, old(line)@.len() as int),
{
    let mut out: Vec<u8> = vstd::slice::slice_to_vec(vstd::slice::slice_subrange(line.as_slice(), 0, at));
    out.extend_from_slice(text);
    out.extend_from_slice(vstd::slice::slice_subrange(line.as_slice(), at, line.len()));
    *line = out;
}

/// The greatest valid cursor position on a line of length `len` in
/// command mode: its last byte, or 0 on an empty line.
pub open spec fn last_pos(len: int) -> int {
    if len > 0 { len - 1 } else { 0 }
}

/// Repeats the last change (`.`): `x`, `X`, `r`, `d` or `c` with its
/// count and argument.
pub fn replay_cmd(line: &mut Vec<u8>, cursor: &mut usize, yank_buf: &mut Vec<u8>, cmd: u8, count: usize, arg: Option<u8>)
    requires
        *old(cursor) <= old(line)@.len(),
    ensures
        *final(cursor) <= final(line)@.len(),
        final(line)@ == spec_replay(old(line)@, *old(cursor) as int, old(yank_buf)@, cmd, count as nat, arg).0,
        *final(cursor) == spec_replay(old(line)@, *old(cursor) as int, old(yank_buf)@, cmd, count as nat, arg).1,
        final(yank_buf)@ == spec_replay(old(line)@, *old(cursor) as int, old(yank_buf)@, cmd, count as nat, arg).2,
{
    let ghost result = spec_replay(line@, *cursor as int, yank_buf@, cmd, count as nat, arg);
    if cmd == 0x78 {
        let mut k: usize = 0;
        while k < count
            invariant
                k <= count,
                *cursor <= line@.len(),
                result == replay_x(old(line)@, *old(cursor) as int, old(yank_buf)@, count as nat),
                replay_x(line@, *cursor as int, yank_buf@, (count - k) as nat) == result,
            decreases count - k,
        {
            if *cursor < line.len() {
                let b = line.remove(*cursor);
                *yank_buf = vec![b];
                assert(yank_buf@ =~= seq![b]);
            }
            if *cursor >= line.len() && *cursor > 0 {
                *cursor -= 1;
            }
            k += 1;
        }
    } else if cmd == 0x58 {
        let mut k: usize = 0;
        while k < count
            invariant
                k <= count,
                *cursor <= line@.len(),
                result == replay_big_x(old(line)@, *old(cursor) as int, old(yank_buf)@, count as nat),
                replay_big_x(line@, *cursor as int, yank_buf@, (count - k) as nat) == result,
            decreases count - k,
        {
            if *cursor > 0 {
                *cursor -= 1;
                let b = line.remove(*cursor);
                *yank_buf = vec![b];
                assert(yank_buf@ =~= seq![b]);
            }
            k += 1;
        }
    } else if cmd == 0x72 {
        if let Some(replacement) = arg {
            let ghost replaced = repeat_replace(line@, *cursor as int, replacement, count as nat);
            let mut k: usize = 0;
            while k < count
                invariant
                    k <= count,
                    *cursor <= line@.len() == old(line)@.len(),
                    replaced == repeat_replace(old(line)@, *old(cursor) as int, replacement, count as nat),
                    repeat_replace(line@, *cursor as int, replacement, (count - k) as nat) == replaced,
                    yank_buf@ == old(yank_buf)@,
                decreases count - k,
            {
                if *cursor < line.len() {
                    line.set(*cursor, replacement);
                    if 1 < line.len() - *cursor {
                        *cursor += 1;
                    }
                }
                k += 1;
            }
            if count > 1 && *cursor > 0 {
                *cursor -= 1;
            }
        }
    } else if cmd == 0x64 || cmd == 0x63 {
        if let Some(motion) = arg {
            if motion == cmd {
                *yank_buf = vstd::slice::slice_to_vec(line.as_slice());
                line.clear();
                *cursor = 0;
            } else {
                let (start, end) = resolve_motion(line.as_slice(), *cursor, motion, count);
                if start != end {
                    *yank_buf = vstd::slice::slice_to_vec(vstd::slice::slice_subrange(line.as_slice(), start, end));
                    remove_range(line, start, end);
                    if cmd == 0x64 {
                        *cursor = if start < line.len() { start } else if line.len() > 0 { line.len() - 1 } else { 0 };
                    } else {
                        *cursor = start;
                    }
                }
            }
        }
    }
}

// ---------------------------------------------------------------------
// The editing state machine
// ---------------------------------------------------------------------

/// What the terminal side does after a byte was processed.
#[derive(Clone, Debug, PartialEq)]
pub enum ViAction {
    /// Redraw the prompt and the line, cursor placed.
    Redraw,
    /// Ring the bell.
    Bell,
    /// Finish: the line entered (with its newline), or `None` at end of
    /// input.
    Return(Option<Vec<u8>>),
    /// Read the next byte.
    ReadByte,
    /// Write these bytes to the terminal.
    WriteBytes(Vec<u8>),
    /// Edit the line in an external editor.
    RunEditor { editor: Vec<u8>, tmp_path: Vec<u8> },
    /// The next byte belongs to a search pattern.
    NeedSearchByte,
    /// The next byte is the target of `f`, `F`, `t` or `T`.
    NeedFindTarget,
    /// The next byte replaces the one under the cursor.
    NeedReplaceChar,
    /// The next byte is the motion of an operator.
    NeedMotion,
    /// Bytes overwrite the line until escape.
    NeedReplaceModeInput,
    /// The next byte is inserted literally.
    NeedLiteralChar,
    /// Insert mode was entered or left.
    SetInsertMode(bool),
    /// Expand the glob `pattern` and hand the paths to `apply_glob` for
    /// the word `start..end`.
    ExpandGlob { pattern: Vec<u8>, start: usize, end: usize },
    /// Expand the glob `pattern` and hand the paths to `apply_completion`
    /// for the word `start..end`.
    CompleteWord { pattern: Vec<u8>, start: usize, end: usize },
}

/// What the next byte means when a command waits for more input.
#[derive(Clone, Debug, PartialEq)]
pub enum PendingInput {
    Idle,
    CountDigits,
    FindTarget { cmd: u8, count: usize },
    ReplaceChar { count: usize },
    ReplaceMode,
    Motion { op: u8, count: usize },
    LiteralChar,
    SearchInput { direction: u8 },
}

/// The state of the vi line editor.
pub struct ViState {
    pub line: Vec<u8>,
    pub cursor: usize,
    pub insert_mode: bool,
    pub yank_buf: Vec<u8>,
    pub last_cmd: Option<(u8, usize, Option<u8>)>,
    pub last_find: Option<(u8, u8)>,
    pub hist_index: Option<usize>,
    pub edit_line: Vec<u8>,
    pub search_buf: Vec<u8>,
    pub count_buf: Option<(usize, u8)>,
    pub pending: PendingInput,
    pub erase_char: u8,
    pub hist_len: usize,
}

/// `ESC [ n` and a final byte: moves the terminal cursor by `n`.
fn cursor_escape(n: usize, fin: u8) -> (r: Vec<u8>)
    ensures
        r@ == esc_move(n as int, fin),
{
    let mut v: Vec<u8> = vec![0x1b, 0x5b];
    crate::bytes::push_u64(&mut v, n as u64);
    v.push(fin);
    assert(v@ =~= esc_move(n as int, fin));
    v
}

/// `line` followed by a newline.
fn with_newline(line: &[u8]) -> (r: Vec<u8>)
    ensures
        r@ == line@.push(crate::chars::NEWLINE),
{
    let mut s = vstd::slice::slice_to_vec(line);
    s.push(crate::chars::NEWLINE);
    s
}

/// The last valid cursor position on a line of length `len`.
fn last_index(len: usize) -> (r: usize)
    ensures
        r == last_pos(len as int),
{
    if len > 0 { len - 1 } else { 0 }
}

/// Whether `needle` occurs in `hay`.
pub open spec fn contains_at(hay: Seq<u8>, needle: Seq<u8>) -> bool {
    exists|i: int| 0 <= i && i + needle.len() <= hay.len() && #[trigger] hay.subrange(i, i + needle.len()) == needle
}

/// Whether `needle` occurs in `hay`.
pub fn contains_bytes(hay: &[u8], needle: &[u8]) -> (r: bool)
    ensures
        r == contains_at(hay@, needle@),
{
    if needle.len() == 0 {
        assert(hay@.subrange(0int, 0int + needle@.len()) =~= needle@);
        return true;
    }
    if needle.len() > hay.len() {
        return false;
    }
    let mut i: usize = 0;
    while i <= hay.len() - needle.len()
        invariant
            1 <= needle@.len() <= hay@.len(),
            i <= hay@.len() - needle@.len() + 1,
            forall|k: int| 0 <= k < i ==> #[trigger] hay@.subrange(k, k + needle@.len()) != needle@,
        decreases hay@.len() - needle@.len() + 1 - i,
    {
        if crate::chars::bytes_eq(vstd::slice::slice_subrange(hay, i, i + needle.len()), needle) {
            assert(hay@.subrange(i as int, i + needle@.len()) == needle@);
            return true;
        }
        i += 1;
    }
    false
}

/// What a byte typed in insert mode does to the line and the cursor:
/// escape leaves insert mode (stepping back from the end), control-W
/// deletes the word before the cursor, erase deletes the byte before it,
/// control-V waits for a literal byte; enter, control-C and control-D
/// (on an empty line) end the line; any other byte is inserted at the
/// cursor.
pub open spec fn spec_insert_step(line: Seq<u8>, cursor: int, erase: u8, byte: u8) -> (Seq<u8>, int, bool) {
    if byte == 0x1b {
        (line, if cursor > 0 && cursor >= line.len() { last_pos(line.len() as int) } else { cursor }, false)
    } else if byte == 0x0a || byte == 0x0d || byte == 0x16 || byte == 0x03 || byte == 0x04 {
        (line, cursor, true)
    } else if byte == 0x17 {
        if cursor > 0 {
            let start = spec_word_backward(line, cursor);
            (line.subrange(0, start) + line.subrange(cursor, line.len() as int), start, true)
        } else {
            (line, cursor, true)
        }
    } else if byte == erase || byte == 0x7f || byte == 0x08 {
        if cursor > 0 {
            (line.remove(cursor - 1), cursor - 1, true)
        } else {
            (line, cursor, true)
        }
    } else {
        (line.insert(cursor, byte), cursor + 1, true)
    }
}

impl ViState {
    /// The state's invariant: the cursor on the line (or just after it),
    /// the history position inside the history.
    pub open spec fn wf(&self) -> bool {
        &&& self.cursor <= self.line@.len()
        &&& (self.hist_index matches Some(i) ==> i < self.hist_len)
        &&& (self.pending is CountDigits ==> self.count_buf is Some)
    }

    /// A fresh editor in insert mode over an empty line.
    pub fn new(erase_char: u8, hist_len: usize) -> (s: Self)
        ensures
            s.wf(),
            s.line@.len() == 0,
            s.cursor == 0,
            s.insert_mode,
            s.hist_len == hist_len,
            s.erase_char == erase_char,
            s.pending is Idle,
    {
        ViState {
            line: Vec::new(),
            cursor: 0,
            insert_mode: true,
            yank_buf: Vec::new(),
            last_cmd: None,
            last_find: None,
            hist_index: None,
            edit_line: Vec::new(),
            search_buf: Vec::new(),
            count_buf: None,
            pending: PendingInput::Idle,
            erase_char,
            hist_len,
        }
    }

    /// Loads history entry `idx` as the line, cursor on its last byte.
    fn load_history(&mut self, idx: usize, history: &[Box<[u8]>])
        requires
            idx < old(self).hist_len <= history@.len(),
            old(self).pending is CountDigits ==> old(self).count_buf is Some,
        ensures
            final(self).wf(),
            final(self).view() == load_entry(old(self).view(), hist_view(history@), idx as int),
    {
        self.hist_index = Some(idx);
        self.line = vstd::slice::slice_to_vec(&history[idx]);
        self.cursor = last_index(self.line.len());
    }

    /// Moves with `f`/`F`/`t`/`T` `count` times; a bell where the target
    /// is missing.
    fn find_repeat(&mut self, cmd: u8, target: u8, count: usize, actions: &mut Vec<ViAction>)
        requires
            old(self).wf(),
        ensures
            final(self).wf(),
            final(self).view() == with_cursor(
                old(self).view(),
                repeat_find(old(self).line@, old(self).cursor as int, cmd, target, count as nat).0,
            ),
            final(actions)@ == old(actions)@ + bell_actions(
                repeat_find(old(self).line@, old(self).cursor as int, cmd, target, count as nat).1,
            ),
    {
        let ghost result = repeat_find(self.line@, self.cursor as int, cmd, target, count as nat);
        let mut k: usize = 0;
        while k < count
            invariant
                k <= count,
                self.wf(),
                self.view() == with_cursor(old(self).view(), self.cursor as int),
                result == repeat_find(old(self).line@, old(self).cursor as int, cmd, target, count as nat),
                repeat_find(self.line@, self.cursor as int, cmd, target, (count - k) as nat) == result,
                actions@ == old(actions)@,
            decreases count - k,
        {
            let line_len = self.line.len();
            proof {
                lemma_do_find_range(self.line@, self.cursor as int, cmd, target);
                assert(line_len == self.line@.len());
            }
            match do_find(self.line.as_slice(), self.cursor, cmd, target) {
                Some(pos) => {
                    assert(spec_do_find(self.line@, self.cursor as int, cmd, target) == Some(pos as int));
                    self.cursor = pos;
                },
                None => {
                    assert(repeat_find(self.line@, self.cursor as int, cmd, target, (count - k) as nat) == (
                    self.cursor as int, true));
                    actions.push(ViAction::Bell);
                    assert(actions@ =~= old(actions)@ + bell_actions(true));
                    return;
                },
            }
            k += 1;
        }
        assert(actions@ =~= old(actions)@ + bell_actions(false));
    }

    /// Handles one input byte and says what the terminal side must do.
    pub fn process_byte(&mut self, byte: u8, history: &[Box<[u8]>]) -> (actions: Vec<ViAction>)
        requires
            old(self).wf(),
            old(self).hist_len <= history@.len(),
        ensures
            final(self).wf(),
            final(self).view() == spec_process_byte(old(self).view(), hist_view(history@), byte).0,
            actions_view(actions@) == spec_process_byte(old(self).view(), hist_view(history@), byte).1,
    {
        let mut actions: Vec<ViAction> = Vec::new();
        match self.pending {
            PendingInput::CountDigits => {
                if is_digit(byte) {
                    if let Some((count, first)) = self.count_buf {
                        let c = match count.checked_mul(10) {
                            Some(t) => t.saturating_add((byte - 0x30) as usize),
                            None => usize::MAX,
                        };
                        self.count_buf = Some((c, first));
                    }
                    return vec![ViAction::ReadByte];
                }
                let (count, first_byte) = match self.count_buf {
                    Some(cb) => cb,
                    None => (1, byte),
                };
                self.count_buf = None;
                self.pending = PendingInput::Idle;
                return self.process_command(byte, count, first_byte, history);
            },
            PendingInput::FindTarget { cmd, count } => {
                self.pending = PendingInput::Idle;
                self.last_find = Some((cmd, byte));
                self.find_repeat(cmd, byte, count, &mut actions);
                actions.push(ViAction::Redraw);
                return actions;
            },
            PendingInput::ReplaceChar { count } => {
                self.pending = PendingInput::Idle;
                self.last_cmd = Some((0x72, count, Some(byte)));
                replay_cmd(&mut self.line, &mut self.cursor, &mut self.yank_buf, 0x72, count, Some(byte));
                actions.push(ViAction::Redraw);
                return actions;
            },
            PendingInput::ReplaceMode => {
                if byte == 0x1b {
                    self.pending = PendingInput::Idle;
                    if self.cursor > 0 && self.cursor >= self.line.len() {
                        self.cursor = last_index(self.line.len());
                    }
                    actions.push(ViAction::Redraw);
                    return actions;
                }
                if byte == 0x0d || byte == 0x0a {
                    self.pending = PendingInput::Idle;
                    let s = with_newline(self.line.as_slice());
                    return vec![ViAction::WriteBytes(vec![0x0d, 0x0a]), ViAction::Return(Some(s))];
                }
                if self.cursor < self.line.len() {
                    self.line.set(self.cursor, byte);
                } else {
                    self.line.push(byte);
                }
                if self.cursor < self.line.len() {
                    self.cursor += 1;
                }
                actions.push(ViAction::Redraw);
                return actions;
            },
            PendingInput::Motion { op, count } => {
                self.pending = PendingInput::Idle;
                return self.process_motion(op, byte, count, &mut actions);
            },
            PendingInput::LiteralChar => {
                self.pending = PendingInput::Idle;
                self.line.insert(self.cursor, byte);
                if self.cursor < self.line.len() {
                    self.cursor += 1;
                }
                actions.push(ViAction::Redraw);
                return actions;
            },
            PendingInput::SearchInput { direction } => {
                if byte == 0x0d || byte == 0x0a {
                    self.pending = PendingInput::Idle;
                    if self.search_buf.len() > 0 {
                        self.do_search(direction, history, &mut actions);
                    }
                    actions.push(ViAction::Redraw);
                    return actions;
                }
                if byte == 0x7f || byte == 0x08 {
                    if self.search_buf.len() > 0 {
                        self.search_buf.pop();
                        actions.push(ViAction::WriteBytes(vec![0x08, 0x20, 0x08]));
                    }
                    return actions;
                }
                self.search_buf.push(byte);
                let echo = vec![byte];
                assert(echo@ =~= seq![byte]);
                actions.push(ViAction::WriteBytes(echo));
                return actions;
            },
            PendingInput::Idle => {},
        }
        if self.insert_mode {
            return self.process_insert(byte);
        }
        if is_digit(byte) && byte != 0x30 {
            self.count_buf = Some(((byte - 0x30) as usize, byte));
            self.pending = PendingInput::CountDigits;
            return vec![ViAction::ReadByte];
        }
        self.process_command(byte, 1, byte, history)
    }

    /// Handles a byte in insert mode.
    fn process_insert(&mut self, byte: u8) -> (actions: Vec<ViAction>)
        requires
            old(self).wf(),
            old(self).pending is Idle,
            old(self).insert_mode,
        ensures
            final(self).wf(),
            final(self).view() == spec_insert(old(self).view(), byte).0,
            actions_view(actions@) == spec_insert(old(self).view(), byte).1,
    {
        let mut actions: Vec<ViAction> = Vec::new();
        if byte == 0x1b {
            self.insert_mode = false;
            if self.cursor > 0 && self.cursor >= self.line.len() {
                self.cursor = last_index(self.line.len());
                actions.push(ViAction::WriteBytes(vec![0x1b, 0x5b, 0x44]));
            }
        } else if byte == 0x0a || byte == 0x0d {
            let s = with_newline(self.line.as_slice());
            actions.push(ViAction::WriteBytes(vec![0x0d, 0x0a]));
            actions.push(ViAction::Return(Some(s)));
        } else if byte == 0x16 {
            self.pending = PendingInput::LiteralChar;
            actions.push(ViAction::NeedLiteralChar);
        } else if byte == 0x17 {
            if self.cursor > 0 {
                let start = word_backward(self.line.as_slice(), self.cursor);
                remove_range(&mut self.line, start, self.cursor);
                self.cursor = start;
                actions.push(ViAction::Redraw);
            }
        } else if byte == 0x03 {
            actions.push(ViAction::WriteBytes(vec![0x0d, 0x0a]));
            actions.push(ViAction::Return(Some(Vec::new())));
        } else if byte == 0x04 {
            if self.line.len() == 0 {
                actions.push(ViAction::WriteBytes(vec![0x0d, 0x0a]));
                actions.push(ViAction::Return(None));
            }
        } else if byte == self.erase_char || byte == 0x7f || byte == 0x08 {
            if self.cursor > 0 {
                self.cursor -= 1;
                self.line.remove(self.cursor);
                actions.push(ViAction::Redraw);
            }
        } else {
            self.line.insert(self.cursor, byte);
            if self.cursor < self.line.len() {
                self.cursor += 1;
            }
            if self.cursor == self.line.len() {
                let echo = vec![byte];
                assert(echo@ =~= seq![byte]);
                actions.push(ViAction::WriteBytes(echo));
            } else {
                actions.push(ViAction::Redraw);
            }
        }
        proof {
            assert(self.view() =~= spec_insert(old(self).view(), byte).0);
            assert(actions_view(actions@) =~= spec_insert(old(self).view(), byte).1);
        }
        actions
    }
}

impl ViState {
    /// Handles a command-mode byte `ch` with its count; `first_byte` is
    /// the byte that began the command (a digit where a count was typed).
    fn process_command(&mut self, ch: u8, count: usize, first_byte: u8, history: &[Box<[u8]>]) -> (actions: Vec<ViAction>)
        requires
            old(self).wf(),
            old(self).hist_len <= history@.len(),
            old(self).pending is Idle,
        ensures
            final(self).wf(),
            final(self).view() == spec_command(old(self).view(), hist_view(history@), ch, count, first_byte).0,
            actions_view(actions@) == spec_command(old(self).view(), hist_view(history@), ch, count, first_byte).1,
    {
        if ch == 0x68 || ch == 0x6c || ch == 0x20 || ch == 0x30 || ch == 0x24 || ch == 0x5e || ch == 0x77
            || ch == 0x57 || ch == 0x62 || ch == 0x42 || ch == 0x65 || ch == 0x45 || ch == 0x7c || ch == 0x3b
            || ch == 0x2c {
            self.command_motion(ch, count, first_byte)
        } else if ch == 0x78 || ch == 0x58 || ch == 0x7e || ch == 0x44 || ch == 0x43 || ch == 0x53 || ch == 0x59
            || ch == 0x70 || ch == 0x50 || ch == 0x75 || ch == 0x55 || ch == 0x2e || ch == 0x23 {
            self.command_edit(ch, count, first_byte, history)
        } else if ch == 0x6b || ch == 0x2d || ch == 0x6a || ch == 0x2b || ch == 0x47 || ch == 0x2f || ch == 0x3f
            || ch == 0x6e || ch == 0x4e {
            self.command_history(ch, count, first_byte, history)
        } else {
            self.command_other(ch, count)
        }
    }

    /// Cursor motions: `h l 0 $ ^ w W b B e E |` and the repeated finds
    /// `;` and `,`.
    fn command_motion(&mut self, ch: u8, count: usize, first_byte: u8) -> (actions: Vec<ViAction>)
        requires
            old(self).wf(),
        ensures
            final(self).wf(),
            final(self).view() == spec_command_motion(old(self).view(), ch, count, first_byte).0,
            actions_view(actions@) == spec_command_motion(old(self).view(), ch, count, first_byte).1,
    {
        let mut actions: Vec<ViAction> = Vec::new();
        let len = self.line.len();
        if ch == 0x68 {
            let n = if count < self.cursor { count } else { self.cursor };
            self.cursor = self.cursor - n;
            if n > 0 {
                actions.push(ViAction::WriteBytes(cursor_escape(n, 0x44)));
            } else {
                actions.push(ViAction::Bell);
            }
        } else if ch == 0x6c || ch == 0x20 {
            let max = last_index(len);
            let room = max.saturating_sub(self.cursor);
            let n = if count < room { count } else { room };
            self.cursor = self.cursor + n;
            if n > 0 {
                actions.push(ViAction::WriteBytes(cursor_escape(n, 0x43)));
            } else {
                actions.push(ViAction::Bell);
            }
        } else if ch == 0x30 {
            if first_byte == 0x30 {
                self.cursor = 0;
                actions.push(ViAction::Redraw);
            } else {
                actions.push(ViAction::Bell);
            }
        } else if ch == 0x24 {
            if len > 0 {
                self.cursor = len - 1;
            }
            actions.push(ViAction::Redraw);
        } else if ch == 0x5e {
            let mut p: usize = 0;
            while p < len && is_ws(self.line[p])
                invariant
                    p <= len == self.line@.len(),
                    first_non_ws(self.line@, 0) == first_non_ws(self.line@, p as int),
                decreases len - p,
            {
                p += 1;
            }
            self.cursor = if p < len { p } else { 0 };
            actions.push(ViAction::Redraw);
        } else if ch == 0x77 || ch == 0x57 || ch == 0x62 || ch == 0x42 {
            let ghost result = repeat_word_move(self.line@, self.cursor as int, ch, count as nat);
            let mut k: usize = 0;
            let mut stopped = false;
            while k < count && !stopped
                invariant
                    k <= count,
                    self.wf(),
                    len == self.line@.len(),
                    ch == 0x77 || ch == 0x57 || ch == 0x62 || ch == 0x42,
                    result == repeat_word_move(old(self).line@, old(self).cursor as int, ch, count as nat),
                    self.view() == with_cursor(old(self).view(), self.cursor as int),
                    stopped ==> result == (self.cursor as int, true) && actions@ == seq![ViAction::Bell],
                    !stopped ==> result == repeat_word_move(self.line@, self.cursor as int, ch, (count - k) as nat)
                        && actions@ == Seq::<ViAction>::empty(),
                decreases count - k, if stopped { 0int } else { 1int },
            {
                let next = if ch == 0x77 {
                    word_forward(self.line.as_slice(), self.cursor)
                } else if ch == 0x57 {
                    bigword_forward(self.line.as_slice(), self.cursor)
                } else if ch == 0x62 {
                    word_backward(self.line.as_slice(), self.cursor)
                } else {
                    bigword_backward(self.line.as_slice(), self.cursor)
                };
                if next == self.cursor {
                    actions.push(ViAction::Bell);
                    stopped = true;
                } else {
                    self.cursor = if ch == 0x77 || ch == 0x57 {
                        let last = last_index(len);
                        if next < last { next } else { last }
                    } else {
                        next
                    };
                    k += 1;
                }
            }
            actions.push(ViAction::Redraw);
        } else if ch == 0x65 || ch == 0x45 {
            let mut k: usize = 0;
            while k < count
                invariant
                    k <= count,
                    self.wf(),
                    ch == 0x65 || ch == 0x45,
                    self.view() == with_cursor(old(self).view(), self.cursor as int),
                    self.cursor == iter_motion(self.line@, old(self).cursor as int, ch, k as nat),
                decreases count - k,
            {
                self.cursor = if ch == 0x65 {
                    word_end(self.line.as_slice(), self.cursor)
                } else {
                    bigword_end(self.line.as_slice(), self.cursor)
                };
                k += 1;
            }
            actions.push(ViAction::Redraw);
        } else if ch == 0x7c {
            let want = count.saturating_sub(1);
            let last = last_index(len);
            self.cursor = if want < last { want } else { last };
            actions.push(ViAction::Redraw);
        } else {
            if let Some((cmd, target)) = self.last_find {
                let c = if ch == 0x2c {
                    if cmd == 0x66 {
                        0x46
                    } else if cmd == 0x46 {
                        0x66
                    } else if cmd == 0x74 {
                        0x54
                    } else if cmd == 0x54 {
                        0x74
                    } else {
                        cmd
                    }
                } else {
                    cmd
                };
                self.find_repeat(c, target, count, &mut actions);
                actions.push(ViAction::Redraw);
            }
        }
        proof {
            assert(actions_view(actions@) =~= spec_command_motion(old(self).view(), ch, count, first_byte).1);
        }
        actions
    }

    /// Changes to the line: `x X ~ D C S Y p P u U . #`.
    fn command_edit(&mut self, ch: u8, count: usize, first_byte: u8, history: &[Box<[u8]>]) -> (actions: Vec<ViAction>)
        requires
            old(self).wf(),
            old(self).hist_len <= history@.len(),
            old(self).pending is Idle,
        ensures
            final(self).wf(),
            final(self).view() == spec_command_edit(old(self).view(), hist_view(history@), ch, count, first_byte).0,
            actions_view(actions@) == spec_command_edit(old(self).view(), hist_view(history@), ch, count, first_byte).1,
    {
        let mut actions: Vec<ViAction> = Vec::new();
        let ghost h = hist_view(history@);
        if ch == 0x78 {
            self.last_cmd = Some((0x78, count, None));
            let ghost v0 = self.view();
            let ghost result = repeat_x(self.line@, self.cursor as int, self.yank_buf@, count as nat);
            let mut k: usize = 0;
            let mut stopped = false;
            while k < count && !stopped
                invariant
                    k <= count,
                    self.wf(),
                    v0 == with_last_cmd(old(self).view(), Some((0x78u8, count, None))),
                    result == repeat_x(old(self).line@, old(self).cursor as int, old(self).yank_buf@, count as nat),
                    self.view() == with_text(v0, self.line@, self.cursor as int, self.yank_buf@),
                    stopped ==> result == (self.line@, self.cursor as int, self.yank_buf@),
                    !stopped ==> repeat_x(self.line@, self.cursor as int, self.yank_buf@, (count - k) as nat) == result,
                decreases count - k, if stopped { 0int } else { 1int },
            {
                if self.cursor < self.line.len() {
                    let b = self.line.remove(self.cursor);
                    self.yank_buf = vec![b];
                    assert(self.yank_buf@ =~= seq![b]);
                    if self.cursor >= self.line.len() && self.cursor > 0 {
                        self.cursor -= 1;
                    }
                    k += 1;
                } else {
                    stopped = true;
                }
            }
            actions.push(ViAction::Redraw);
        } else if ch == 0x58 {
            self.last_cmd = Some((0x58, count, None));
            let ghost v0 = self.view();
            let ghost result = repeat_big_x(self.line@, self.cursor as int, self.yank_buf@, count as nat);
            let mut k: usize = 0;
            let mut stopped = false;
            while k < count && !stopped
                invariant
                    k <= count,
                    self.wf(),
                    v0 == with_last_cmd(old(self).view(), Some((0x58u8, count, None))),
                    result == repeat_big_x(old(self).line@, old(self).cursor as int, old(self).yank_buf@, count as nat),
                    self.view() == with_text(v0, self.line@, self.cursor as int, self.yank_buf@),
                    stopped ==> result == (self.line@, self.cursor as int, self.yank_buf@, true) && actions@ == seq![
                        ViAction::Bell,
                    ],
                    !stopped ==> repeat_big_x(self.line@, self.cursor as int, self.yank_buf@, (count - k) as nat) == result
                        && actions@ == Seq::<ViAction>::empty(),
                decreases count - k, if stopped { 0int } else { 1int },
            {
                if self.cursor > 0 {
                    self.cursor -= 1;
                    let b = self.line.remove(self.cursor);
                    self.yank_buf = vec![b];
                    assert(self.yank_buf@ =~= seq![b]);
                    k += 1;
                } else {
                    actions.push(ViAction::Bell);
                    stopped = true;
                }
            }
            actions.push(ViAction::Redraw);
        } else if ch == 0x7e {
            let ghost result = repeat_tilde(self.line@, self.cursor as int, count as nat);
            let mut k: usize = 0;
            let mut stopped = false;
            while k < count && !stopped
                invariant
                    k <= count,
                    self.wf(),
                    result == repeat_tilde(old(self).line@, old(self).cursor as int, count as nat),
                    self.view() == with_text(old(self).view(), self.line@, self.cursor as int, old(self).yank_buf@),
                    stopped ==> result == (self.line@, self.cursor as int),
                    !stopped ==> repeat_tilde(self.line@, self.cursor as int, (count - k) as nat) == result,
                decreases count - k,
            {
                if self.cursor < self.line.len() {
                    let ghost before = self.line@;
                    let c = self.line[self.cursor];
                    if is_lower(c) {
                        self.line.set(self.cursor, c - 0x20);
                    } else if is_upper(c) {
                        self.line.set(self.cursor, c + 0x20);
                    }
                    assert(self.line@ =~= before.update(self.cursor as int, toggle_case(c)));
                    if 1 < self.line.len() - self.cursor {
                        self.cursor += 1;
                    } else {
                        stopped = true;
                    }
                }
                k += 1;
            }
            actions.push(ViAction::Redraw);
        } else if ch == 0x44 || ch == 0x43 {
            if self.cursor < self.line.len() {
                self.yank_buf = vstd::slice::slice_to_vec(vstd::slice::slice_subrange(self.line.as_slice(), self.cursor, self.line.len()));
                self.line.truncate(self.cursor);
                if ch == 0x44 && self.cursor > 0 {
                    self.cursor -= 1;
                }
            }
            if ch == 0x43 {
                self.insert_mode = true;
                actions.push(ViAction::Redraw);
                actions.push(ViAction::SetInsertMode(true));
            } else {
                actions.push(ViAction::Redraw);
            }
        } else if ch == 0x53 {
            self.yank_buf = vstd::slice::slice_to_vec(self.line.as_slice());
            self.line.clear();
            self.cursor = 0;
            self.insert_mode = true;
            actions.push(ViAction::Redraw);
            actions.push(ViAction::SetInsertMode(true));
        } else if ch == 0x59 {
            if self.cursor < self.line.len() {
                self.yank_buf = vstd::slice::slice_to_vec(vstd::slice::slice_subrange(self.line.as_slice(), self.cursor, self.line.len()));
            }
        } else if ch == 0x70 {
            if self.yank_buf.len() > 0 {
                let pos = if self.cursor < self.line.len() { self.cursor + 1 } else { self.line.len() };
                let y = vstd::slice::slice_to_vec(self.yank_buf.as_slice());
                insert_bytes(&mut self.line, pos, y.as_slice());
                let newlen = self.line.len();
                assert(newlen == old(self).line@.len() + y@.len());
                self.cursor = pos + (y.len() - 1);
                actions.push(ViAction::Redraw);
            }
        } else if ch == 0x50 {
            if self.yank_buf.len() > 0 {
                let y = vstd::slice::slice_to_vec(self.yank_buf.as_slice());
                insert_bytes(&mut self.line, self.cursor, y.as_slice());
                let newlen = self.line.len();
                assert(newlen == old(self).line@.len() + y@.len());
                self.cursor = self.cursor + (y.len() - 1);
                actions.push(ViAction::Redraw);
            }
        } else if ch == 0x75 {
            let saved = vstd::slice::slice_to_vec(self.line.as_slice());
            let saved_cursor = self.cursor;
            self.line = vstd::slice::slice_to_vec(self.edit_line.as_slice());
            self.edit_line = saved;
            let last = last_index(self.line.len());
            self.cursor = if saved_cursor < last { saved_cursor } else { last };
            actions.push(ViAction::Redraw);
        } else if ch == 0x55 {
            match self.hist_index {
                Some(idx) => {
                    if idx < self.hist_len {
                        self.line = vstd::slice::slice_to_vec(&history[idx]);
                    }
                },
                None => {
                    self.line.clear();
                },
            }
            let last = last_index(self.line.len());
            if self.cursor > last {
                self.cursor = last;
            }
            if self.line.len() == 0 {
                self.cursor = 0;
            }
            actions.push(ViAction::Redraw);
        } else if ch == 0x2e {
            if let Some((cmd, prev_count, arg)) = self.last_cmd {
                let c = if is_digit(first_byte) && first_byte != 0x30 { count } else { prev_count };
                replay_cmd(&mut self.line, &mut self.cursor, &mut self.yank_buf, cmd, c, arg);
                actions.push(ViAction::Redraw);
            }
        } else {
            self.line.insert(0, 0x23);
            let s = with_newline(self.line.as_slice());
            actions.push(ViAction::WriteBytes(vec![0x0d, 0x0a]));
            actions.push(ViAction::Return(Some(s)));
        }
        proof {
            assert(self.view() =~= spec_command_edit(old(self).view(), h, ch, count, first_byte).0);
            assert(actions_view(actions@) =~= spec_command_edit(old(self).view(), h, ch, count, first_byte).1);
        }
        actions
    }

    /// History and search: `k - j + G / ? n N`.
    fn command_history(&mut self, ch: u8, count: usize, first_byte: u8, history: &[Box<[u8]>]) -> (actions: Vec<ViAction>)
        requires
            old(self).wf(),
            old(self).hist_len <= history@.len(),
            old(self).pending is Idle,
        ensures
            final(self).wf(),
            final(self).view() == spec_command_history(old(self).view(), hist_view(history@), ch, count, first_byte).0,
            actions_view(actions@) == spec_command_history(old(self).view(), hist_view(history@), ch, count, first_byte).1,
    {
        let mut actions: Vec<ViAction> = Vec::new();
        let ghost h = hist_view(history@);
        let hist_len = self.hist_len;
        if ch == 0x6b || ch == 0x2d {
            let target: Option<usize> = match self.hist_index {
                None => {
                    if hist_len > 0 {
                        self.edit_line = vstd::slice::slice_to_vec(self.line.as_slice());
                        Some(hist_len - 1)
                    } else {
                        None
                    }
                },
                Some(idx) => if idx > 0 { Some(idx - 1) } else { None },
            };
            match target {
                Some(idx) => {
                    self.load_history(idx, history);
                    actions.push(ViAction::Redraw);
                },
                None => actions.push(ViAction::Bell),
            }
        } else if ch == 0x6a || ch == 0x2b {
            match self.hist_index {
                Some(idx) => {
                    if 1 < hist_len - idx {
                        self.load_history(idx + 1, history);
                    } else {
                        self.hist_index = None;
                        self.line = vstd::slice::slice_to_vec(self.edit_line.as_slice());
                        self.cursor = last_index(self.line.len());
                    }
                    actions.push(ViAction::Redraw);
                },
                None => actions.push(ViAction::Bell),
            }
        } else if ch == 0x47 {
            if is_digit(first_byte) && first_byte != 0x30 {
                let want = count.saturating_sub(1);
                let last = last_index(hist_len);
                let target = if want < last { want } else { last };
                if target < hist_len {
                    if self.hist_index.is_none() {
                        self.edit_line = vstd::slice::slice_to_vec(self.line.as_slice());
                    }
                    self.load_history(target, history);
                }
            } else if hist_len > 0 {
                if self.hist_index.is_none() {
                    self.edit_line = vstd::slice::slice_to_vec(self.line.as_slice());
                }
                self.load_history(0, history);
            }
            self.cursor = last_index(self.line.len());
            actions.push(ViAction::Redraw);
        } else if ch == 0x2f || ch == 0x3f {
            let echo = vec![ch];
            assert(echo@ =~= seq![ch]);
            actions.push(ViAction::WriteBytes(echo));
            self.search_buf.clear();
            self.pending = PendingInput::SearchInput { direction: ch };
            actions.push(ViAction::NeedSearchByte);
        } else {
            if self.search_buf.len() > 0 {
                let direction: u8 = if ch == 0x6e { 0x2f } else { 0x3f };
                self.do_search(direction, history, &mut actions);
                proof {
                    let bell = spec_search(old(self).view(), h, direction).1;
                    assert(actions_view(actions@) =~= bell_if(bell));
                }
                actions.push(ViAction::Redraw);
            }
        }
        proof {
            assert(self.view() =~= spec_command_history(old(self).view(), h, ch, count, first_byte).0);
            assert(actions_view(actions@) =~= spec_command_history(old(self).view(), h, ch, count, first_byte).1);
        }
        actions
    }

    /// The commands that wait for more input, enter insert mode, return
    /// the line or hand work to the terminal side.
    fn command_other(&mut self, ch: u8, count: usize) -> (actions: Vec<ViAction>)
        requires
            old(self).wf(),
            old(self).pending is Idle,
        ensures
            final(self).wf(),
            final(self).view() == spec_command_other(old(self).view(), ch, count).0,
            actions_view(actions@) == spec_command_other(old(self).view(), ch, count).1,
    {
        let mut actions: Vec<ViAction> = Vec::new();
        let len = self.line.len();
        if ch == 0x69 {
            self.insert_mode = true;
            actions.push(ViAction::SetInsertMode(true));
        } else if ch == 0x61 {
            self.insert_mode = true;
            if len > 0 {
                self.cursor = if self.cursor < len { self.cursor + 1 } else { len };
                actions.push(ViAction::Redraw);
            }
            actions.push(ViAction::SetInsertMode(true));
        } else if ch == 0x41 || ch == 0x49 {
            self.insert_mode = true;
            self.cursor = if ch == 0x41 { len } else { 0 };
            actions.push(ViAction::Redraw);
            actions.push(ViAction::SetInsertMode(true));
        } else if ch == 0x66 || ch == 0x46 || ch == 0x74 || ch == 0x54 {
            self.pending = PendingInput::FindTarget { cmd: ch, count };
            actions.push(ViAction::NeedFindTarget);
        } else if ch == 0x72 {
            self.pending = PendingInput::ReplaceChar { count };
            actions.push(ViAction::NeedReplaceChar);
        } else if ch == 0x52 {
            self.pending = PendingInput::ReplaceMode;
            actions.push(ViAction::NeedReplaceModeInput);
        } else if ch == 0x64 || ch == 0x63 || ch == 0x79 {
            self.pending = PendingInput::Motion { op: ch, count };
            actions.push(ViAction::NeedMotion);
        } else if ch == 0x76 {
            actions.push(ViAction::RunEditor { editor: Vec::new(), tmp_path: Vec::new() });
        } else if ch == 0x2a || ch == 0x5c {
            let start = skip_back_nonws(self.line.as_slice(), self.cursor);
            let end = skip_fwd_nonws(self.line.as_slice(), self.cursor);
            let word = vstd::slice::slice_subrange(self.line.as_slice(), start, end);
            let mut pattern = vstd::slice::slice_to_vec(word);
            if ch == 0x5c || !crate::pathname::has_glob(word) {
                pattern.push(0x2a);
            }
            if ch == 0x2a {
                actions.push(ViAction::ExpandGlob { pattern, start, end });
            } else {
                actions.push(ViAction::CompleteWord { pattern, start, end });
            }
        } else if ch == 0x03 {
            actions.push(ViAction::WriteBytes(vec![0x0d, 0x0a]));
            actions.push(ViAction::Return(Some(Vec::new())));
        } else if ch == 0x0d || ch == 0x0a {
            let s = with_newline(self.line.as_slice());
            actions.push(ViAction::WriteBytes(vec![0x0d, 0x0a]));
            actions.push(ViAction::Return(Some(s)));
        } else {
            actions.push(ViAction::Bell);
        }
        proof {
            assert(actions_view(actions@) =~= spec_command_other(old(self).view(), ch, count).1);
        }
        actions
    }

    /// Applies an operator (`d`, `c`, `y`) once its motion byte came.
    fn process_motion(&mut self, op: u8, motion: u8, count: usize, actions: &mut Vec<ViAction>) -> (r: Vec<ViAction>)
        requires
            old(self).wf(),
        ensures
            final(self).wf(),
            final(self).view() == spec_operator(old(self).view(), op, motion, count).0,
            actions_view(r@) == actions_view(old(actions)@) + spec_operator(old(self).view(), op, motion, count).1,
            final(actions)@.len() == 0,
    {
        if op == 0x64 || op == 0x63 {
            if motion == op {
                self.yank_buf = vstd::slice::slice_to_vec(self.line.as_slice());
                self.line.clear();
                self.cursor = 0;
                self.last_cmd = Some((op, count, Some(op)));
            } else {
                let (start, end) = resolve_motion(self.line.as_slice(), self.cursor, motion, count);
                if start != end {
                    self.yank_buf = vstd::slice::slice_to_vec(vstd::slice::slice_subrange(self.line.as_slice(), start, end));
                    remove_range(&mut self.line, start, end);
                    if op == 0x64 {
                        let last = last_index(self.line.len());
                        self.cursor = if start < last { start } else { last };
                    } else {
                        self.cursor = start;
                    }
                    self.last_cmd = Some((op, count, Some(motion)));
                } else if op == 0x64 {
                    actions.push(ViAction::Bell);
                }
            }
            if op == 0x63 {
                self.insert_mode = true;
                actions.push(ViAction::Redraw);
                actions.push(ViAction::SetInsertMode(true));
            } else {
                actions.push(ViAction::Redraw);
            }
        } else if op == 0x79 {
            if motion == 0x79 {
                self.yank_buf = vstd::slice::slice_to_vec(self.line.as_slice());
            } else {
                let (start, end) = resolve_motion(self.line.as_slice(), self.cursor, motion, count);
                if start != end {
                    self.yank_buf = vstd::slice::slice_to_vec(vstd::slice::slice_subrange(self.line.as_slice(), start, end));
                }
            }
        }
        let mut out: Vec<ViAction> = Vec::new();
        std::mem::swap(&mut out, actions);
        proof {
            let added = spec_operator(old(self).view(), op, motion, count).1;
            assert(actions_view(out@) =~= actions_view(old(actions)@) + added);
        }
        out
    }

    /// Searches the history for the search pattern: `/` towards older
    /// entries from the current one, `?` towards newer ones; a bell where
    /// nothing matches.
    pub fn do_search(&mut self, direction: u8, history: &[Box<[u8]>], actions: &mut Vec<ViAction>)
        requires
            old(self).wf(),
            old(self).hist_len <= history@.len(),
        ensures
            final(self).wf(),
            final(self).view() == spec_search(old(self).view(), hist_view(history@), direction).0,
            final(actions)@ == old(actions)@ + bell_actions(spec_search(old(self).view(), hist_view(history@), direction).1),
    {
        let ghost h = hist_view(history@);
        let hist_len = self.hist_len;
        if direction == 0x2f {
            let mut k: usize = match self.hist_index {
                Some(i) => i,
                None => hist_len,
            };
            let ghost k0 = k as int;
            while k > 0
                invariant
                    direction == 0x2f,
                    k <= hist_len == self.hist_len,
                    hist_len <= history@.len(),
                    h == hist_view(history@),
                    self.wf(),
                    *self == *old(self),
                    actions@ == old(actions)@,
                    k0 == (match old(self).hist_index {
                        Some(i) => i as int,
                        None => old(self).hist_len as int,
                    }),
                    search_older(h, self.search_buf@, k as int) == search_older(h, self.search_buf@, k0),
                decreases k,
            {
                let idx = k - 1;
                if contains_bytes(&history[idx], self.search_buf.as_slice()) {
                    proof {
                        assert(h[idx as int] == history@[idx as int]@);
                        assert(search_older(h, self.search_buf@, k as int) == Some(idx as int));
                        assert(actions@ =~= old(actions)@ + bell_actions(false));
                    }
                    self.load_history(idx, history);
                    return;
                }
                proof {
                    assert(h[idx as int] == history@[idx as int]@);
                }
                k -= 1;
            }
            actions.push(ViAction::Bell);
            assert(actions@ =~= old(actions)@ + bell_actions(true));
        } else if direction == 0x3f {
            let mut idx: usize = match self.hist_index {
                Some(i) => if i < hist_len { i + 1 } else { hist_len },
                None => 0,
            };
            let ghost from = idx as int;
            while idx < hist_len
                invariant
                    direction == 0x3f,
                    hist_len == self.hist_len,
                    hist_len <= history@.len(),
                    h == hist_view(history@),
                    self.wf(),
                    *self == *old(self),
                    actions@ == old(actions)@,
                    from == (match old(self).hist_index {
                        Some(i) => if i < old(self).hist_len { i + 1 } else { old(self).hist_len as int },
                        None => 0,
                    }),
                    search_newer(h, self.search_buf@, idx as int, hist_len as int) == search_newer(h, self.search_buf@, from, hist_len as int),
                decreases hist_len - idx,
            {
                if contains_bytes(&history[idx], self.search_buf.as_slice()) {
                    proof {
                        assert(h[idx as int] == history@[idx as int]@);
                        assert(search_newer(h, self.search_buf@, idx as int, hist_len as int) == Some(idx as int));
                        assert(actions@ =~= old(actions)@ + bell_actions(false));
                    }
                    self.load_history(idx, history);
                    return;
                }
                proof {
                    assert(h[idx as int] == history@[idx as int]@);
                }
                idx += 1;
            }
            actions.push(ViAction::Bell);
            assert(actions@ =~= old(actions)@ + bell_actions(true));
        } else {
            assert(actions@ =~= old(actions)@ + bell_actions(false));
        }
    }

    /// Replaces the word `start..end` with the paths its glob matched,
    /// separated by spaces; nothing changes where the glob failed.
    pub fn apply_glob(&mut self, start: usize, end: usize, matches: Option<Vec<Vec<u8>>>) -> (actions: Vec<ViAction>)
        requires
            old(self).wf(),
            start <= end <= old(self).line@.len(),
        ensures
            final(self).wf(),
            final(self).view() == spec_apply_glob(old(self).view(), start as int, end as int, found_view(matches)),
            actions_view(actions@) == seq![ActionView::Redraw],
    {
        if let Some(expanded) = matches {
            let sep: Vec<u8> = vec![0x20u8];
            assert(sep@ =~= seq![0x20u8]);
            let replacement = crate::bytes::join_bstrings(expanded.as_slice(), sep.as_slice());
            remove_range(&mut self.line, start, end);
            insert_bytes(&mut self.line, start, replacement.as_slice());
            let newlen = self.line.len();
            assert(self.line@ =~= old(self).line@.subrange(0, start as int) + replacement@ + old(self).line@.subrange(end as int, old(self).line@.len() as int));
            self.cursor = start + replacement.len();
            if self.cursor > 0 {
                self.cursor -= 1;
            }
        }
        let actions = vec![ViAction::Redraw];
        proof {
            assert(self.view() =~= spec_apply_glob(old(self).view(), start as int, end as int, found_view(matches)));
            assert(actions_view(actions@) =~= seq![ActionView::Redraw]);
        }
        actions
    }

    /// Completes the word `start..end` with the one path its glob
    /// matched (and a `/` after a directory); a bell where several or
    /// none matched.
    pub fn apply_completion(&mut self, start: usize, end: usize, matches: Option<Vec<Vec<u8>>>, is_dir: bool) -> (actions: Vec<ViAction>)
        requires
            old(self).wf(),
            start <= end <= old(self).line@.len(),
        ensures
            final(self).wf(),
            final(self).view() == spec_apply_completion(old(self).view(), start as int, end as int, found_view(matches), is_dir).0,
            actions_view(actions@) == spec_apply_completion(old(self).view(), start as int, end as int, found_view(matches), is_dir).1,
    {
        let mut actions: Vec<ViAction> = Vec::new();
        if let Some(found) = matches {
            if found.len() == 1 {
                let mut rep = vstd::slice::slice_to_vec(found[0].as_slice());
                if is_dir {
                    rep.push(crate::chars::SLASH);
                }
                remove_range(&mut self.line, start, end);
                insert_bytes(&mut self.line, start, rep.as_slice());
                let newlen = self.line.len();
                self.cursor = start + rep.len();
                if self.cursor > 0 && !is_dir {
                    self.cursor -= 1;
                }
            } else {
                actions.push(ViAction::Bell);
            }
        }
        actions.push(ViAction::Redraw);
        proof {
            let expected = spec_apply_completion(old(self).view(), start as int, end as int, found_view(matches), is_dir);
            assert(self.view() =~= expected.0);
            assert(actions_view(actions@) =~= expected.1);
        }
        actions
    }
}

} // verus!
