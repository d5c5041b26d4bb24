//! What each input byte does to the vi line editor, as functions on the
//! editor's state taken as values: the line, the cursor, the mode, the
//! buffers and what the next byte is waiting for, and the actions handed
//! to the terminal side.

use vstd::prelude::*;
use crate::bytes::spec_decimal;
use crate::chars::{spec_is_digit, spec_is_lower, spec_is_upper, NEWLINE};
use crate::vi::{
    back_nonws, contains_at, fwd_nonws, last_pos, motion_step, iter_motion, spec_do_find,
    spec_resolve_motion, PendingInput, ViAction, ViState,
};
use crate::scan::first_non_ws;

verus! {

/// The editor's state as values.
#[verifier::ext_equal]
pub struct EditorView {
    pub line: Seq<u8>,
    pub cursor: int,
    pub insert_mode: bool,
    pub yank: Seq<u8>,
    pub last_cmd: Option<(u8, usize, Option<u8>)>,
    pub last_find: Option<(u8, u8)>,
    pub hist_index: Option<usize>,
    pub edit_line: Seq<u8>,
    pub search: Seq<u8>,
    pub count_buf: Option<(usize, u8)>,
    pub pending: PendingInput,
    pub erase_char: u8,
    pub hist_len: usize,
}

/// An action for the terminal side, its bytes taken as values.
#[verifier::ext_equal]
pub enum ActionView {
    Redraw,
    Bell,
    Return(Option<Seq<u8>>),
    ReadByte,
    WriteBytes(Seq<u8>),
    RunEditor(Seq<u8>, Seq<u8>),
    NeedSearchByte,
    NeedFindTarget,
    NeedReplaceChar,
    NeedMotion,
    NeedReplaceModeInput,
    NeedLiteralChar,
    SetInsertMode(bool),
    ExpandGlob(Seq<u8>, int, int),
    CompleteWord(Seq<u8>, int, int),
}

impl ViState {
    /// The state as values.
    pub open spec fn view(&self) -> EditorView {
        EditorView {
            line: self.line@,
            cursor: self.cursor as int,
            insert_mode: self.insert_mode,
            yank: self.yank_buf@,
            last_cmd: self.last_cmd,
            last_find: self.last_find,
            hist_index: self.hist_index,
            edit_line: self.edit_line@,
            search: self.search_buf@,
            count_buf: self.count_buf,
            pending: self.pending,
            erase_char: self.erase_char,
            hist_len: self.hist_len,
        }
    }
}

/// An action as a value.
pub open spec fn action_view(a: ViAction) -> ActionView {
    match a {
        ViAction::Redraw => ActionView::Redraw,
        ViAction::Bell => ActionView::Bell,
        ViAction::Return(r) => ActionView::Return(
            match r {
                Some(v) => Some(v@),
                None => None,
            },
        ),
        ViAction::ReadByte => ActionView::ReadByte,
        ViAction::WriteBytes(b) => ActionView::WriteBytes(b@),
        ViAction::RunEditor { editor, tmp_path } => ActionView::RunEditor(editor@, tmp_path@),
        ViAction::NeedSearchByte => ActionView::NeedSearchByte,
        ViAction::NeedFindTarget => ActionView::NeedFindTarget,
        ViAction::NeedReplaceChar => ActionView::NeedReplaceChar,
        ViAction::NeedMotion => ActionView::NeedMotion,
        ViAction::NeedReplaceModeInput => ActionView::NeedReplaceModeInput,
        ViAction::NeedLiteralChar => ActionView::NeedLiteralChar,
        ViAction::SetInsertMode(b) => ActionView::SetInsertMode(b),
        ViAction::ExpandGlob { pattern, start, end } => ActionView::ExpandGlob(pattern@, start as int, end as int),
        ViAction::CompleteWord { pattern, start, end } => ActionView::CompleteWord(pattern@, start as int, end as int),
    }
}

/// A list of actions as values.
pub open spec fn actions_view(s: Seq<ViAction>) -> Seq<ActionView> {
    s.map_values(|a: ViAction| action_view(a))
}

/// The history entries as values.
pub open spec fn hist_view(h: Seq<Box<[u8]>>) -> Seq<Seq<u8>> {
    h.map_values(|b: Box<[u8]>| b@)
}

/// The escape sequence that moves the terminal cursor `n` columns; `fin`
/// is `C` (right) or `D` (left).
pub open spec fn esc_move(n: int, fin: u8) -> Seq<u8> {
    seq![0x1bu8, 0x5bu8] + spec_decimal(n as nat) + seq![fin]
}

/// Carriage return and line feed.
pub open spec fn crlf() -> Seq<u8> {
    seq![0x0du8, 0x0au8]
}

/// The state with the cursor at `c`.
pub open spec fn with_cursor(v: EditorView, c: int) -> EditorView {
    EditorView { cursor: c, ..v }
}

/// The state with line `l`, cursor `c` and yank buffer `y`.
pub open spec fn with_text(v: EditorView, l: Seq<u8>, c: int, y: Seq<u8>) -> EditorView {
    EditorView { line: l, cursor: c, yank: y, ..v }
}

/// The state with `lc` as the change that `.` repeats.
pub open spec fn with_last_cmd(v: EditorView, lc: Option<(u8, usize, Option<u8>)>) -> EditorView {
    EditorView { last_cmd: lc, ..v }
}

/// `a` or `b`, whichever is smaller.
pub open spec fn min_int(a: int, b: int) -> int {
    if a < b { a } else { b }
}

// ---------------------------------------------------------------------
// Repeated steps
// ---------------------------------------------------------------------

/// `w W b B` repeated `n` times from `p`: each step moves as the motion
/// does (`w` and `W` no further than the last byte); a step that cannot
/// move stops the motion and rings the bell. The final position, and
/// whether the bell rang.
pub open spec fn repeat_word_move(l: Seq<u8>, p: int, ch: u8, n: nat) -> (int, bool)
    decreases n,
{
    if n == 0 {
        (p, false)
    } else {
        let next = motion_step(l, p, ch);
        if next == p {
            (p, true)
        } else {
            let q = if ch == 0x77 || ch == 0x57 { min_int(next, last_pos(l.len() as int)) } else { next };
            repeat_word_move(l, q, ch, (n - 1) as nat)
        }
    }
}

/// `f F t T` repeated `n` times from `p`; where the target is missing the
/// cursor stays where the last found target put it and the bell rings.
pub open spec fn repeat_find(l: Seq<u8>, p: int, cmd: u8, t: u8, n: nat) -> (int, bool)
    decreases n,
{
    if n == 0 {
        (p, false)
    } else {
        match spec_do_find(l, p, cmd, t) {
            Some(q) => repeat_find(l, q, cmd, t, (n - 1) as nat),
            None => (p, true),
        }
    }
}

/// `x` repeated `n` times: the byte under the cursor goes to the yank
/// buffer and leaves the line; the cursor steps back from the end. It
/// stops where nothing is under the cursor.
pub open spec fn repeat_x(l: Seq<u8>, c: int, y: Seq<u8>, n: nat) -> (Seq<u8>, int, Seq<u8>)
    decreases n,
{
    if n == 0 || !(0 <= c < l.len()) {
        (l, c, y)
    } else {
        let l2 = l.remove(c);
        let c2 = if c >= l2.len() && c > 0 { c - 1 } else { c };
        repeat_x(l2, c2, seq![l[c]], (n - 1) as nat)
    }
}

/// `X` repeated `n` times: the byte before the cursor goes to the yank
/// buffer and leaves the line. At the start of the line it stops and
/// rings the bell.
pub open spec fn repeat_big_x(l: Seq<u8>, c: int, y: Seq<u8>, n: nat) -> (Seq<u8>, int, Seq<u8>, bool)
    decreases n,
{
    if n == 0 {
        (l, c, y, false)
    } else if c <= 0 {
        (l, c, y, true)
    } else {
        repeat_big_x(l.remove(c - 1), c - 1, seq![l[c - 1]], (n - 1) as nat)
    }
}

/// A letter with its case changed; other bytes as they are.
pub open spec fn toggle_case(b: u8) -> u8 {
    if spec_is_lower(b) {
        (b - 0x20) as u8
    } else if spec_is_upper(b) {
        (b + 0x20) as u8
    } else {
        b
    }
}

/// `~` repeated `n` times: the case of the byte under the cursor changes
/// and the cursor moves right, stopping on the last byte.
pub open spec fn repeat_tilde(l: Seq<u8>, c: int, n: nat) -> (Seq<u8>, int)
    decreases n,
{
    if n == 0 {
        (l, c)
    } else if 0 <= c < l.len() {
        let l2 = l.update(c, toggle_case(l[c]));
        if l.len() - c > 1 {
            repeat_tilde(l2, c + 1, (n - 1) as nat)
        } else {
            (l2, c)
        }
    } else {
        repeat_tilde(l, c, (n - 1) as nat)
    }
}

/// `r` with byte `b` repeated `n` times: each step replaces the byte
/// under the cursor and moves right, no further than the last byte.
pub open spec fn repeat_replace(l: Seq<u8>, c: int, b: u8, n: nat) -> (Seq<u8>, int)
    decreases n,
{
    if n == 0 {
        (l, c)
    } else if 0 <= c < l.len() {
        repeat_replace(l.update(c, b), if l.len() - c > 1 { c + 1 } else { c }, b, (n - 1) as nat)
    } else {
        repeat_replace(l, c, b, (n - 1) as nat)
    }
}

/// `x` as `.` repeats it, `n` times: as `x`, but a cursor past the end
/// steps back instead of stopping.
pub open spec fn replay_x(l: Seq<u8>, c: int, y: Seq<u8>, n: nat) -> (Seq<u8>, int, Seq<u8>)
    decreases n,
{
    if n == 0 {
        (l, c, y)
    } else {
        let (l2, y2) = if 0 <= c < l.len() { (l.remove(c), seq![l[c]]) } else { (l, y) };
        let c2 = if c >= l2.len() && c > 0 { c - 1 } else { c };
        replay_x(l2, c2, y2, (n - 1) as nat)
    }
}

/// `X` as `.` repeats it, `n` times: as `X`, without the bell.
pub open spec fn replay_big_x(l: Seq<u8>, c: int, y: Seq<u8>, n: nat) -> (Seq<u8>, int, Seq<u8>)
    decreases n,
{
    if n == 0 {
        (l, c, y)
    } else if c > 0 {
        replay_big_x(l.remove(c - 1), c - 1, seq![l[c - 1]], (n - 1) as nat)
    } else {
        replay_big_x(l, c, y, (n - 1) as nat)
    }
}

/// What `.` does with the remembered change `cmd` (`x X r d c`), its
/// count and argument: the new line, cursor and yank buffer.
pub open spec fn spec_replay(l: Seq<u8>, c: int, y: Seq<u8>, cmd: u8, count: nat, arg: Option<u8>) -> (Seq<u8>, int, Seq<u8>) {
    if cmd == 0x78 {
        replay_x(l, c, y, count)
    } else if cmd == 0x58 {
        replay_big_x(l, c, y, count)
    } else if cmd == 0x72 {
        match arg {
            Some(b) => {
                let (l2, c2) = repeat_replace(l, c, b, count);
                (l2, if count > 1 && c2 > 0 { c2 - 1 } else { c2 }, y)
            },
            None => (l, c, y),
        }
    } else if cmd == 0x64 || cmd == 0x63 {
        match arg {
            Some(m) => if m == cmd {
                (Seq::empty(), 0, l)
            } else {
                let (s, e) = spec_resolve_motion(l, c, m, count);
                if s != e {
                    let l2 = l.subrange(0, s) + l.subrange(e, l.len() as int);
                    (l2, if cmd == 0x64 { min_int(s, last_pos(l2.len() as int)) } else { s }, l.subrange(s, e))
                } else {
                    (l, c, y)
                }
            },
            None => (l, c, y),
        }
    } else {
        (l, c, y)
    }
}

// ---------------------------------------------------------------------
// History
// ---------------------------------------------------------------------

/// The newest entry before `k` that holds `pat`.
pub open spec fn search_older(h: Seq<Seq<u8>>, pat: Seq<u8>, k: int) -> Option<int>
    decreases k,
{
    if k <= 0 {
        None
    } else if contains_at(h[k - 1], pat) {
        Some(k - 1)
    } else {
        search_older(h, pat, k - 1)
    }
}

/// The oldest entry from `i` up to `end` that holds `pat`.
pub open spec fn search_newer(h: Seq<Seq<u8>>, pat: Seq<u8>, i: int, end: int) -> Option<int>
    decreases end - i,
{
    if i >= end {
        None
    } else if contains_at(h[i], pat) {
        Some(i)
    } else {
        search_newer(h, pat, i + 1, end)
    }
}

/// The state with history entry `idx` loaded as the line, the cursor on
/// its last byte.
pub open spec fn load_entry(v: EditorView, h: Seq<Seq<u8>>, idx: int) -> EditorView {
    EditorView {
        hist_index: Some(idx as usize),
        line: h[idx],
        cursor: last_pos(h[idx].len() as int),
        ..v
    }
}

/// A search of the history for the search buffer: `/` towards older
/// entries from the current one, `?` towards newer ones. The entry found
/// is loaded; where none is, the bell rings.
pub open spec fn spec_search(v: EditorView, h: Seq<Seq<u8>>, direction: u8) -> (EditorView, bool) {
    if direction == 0x2f {
        let k = match v.hist_index {
            Some(i) => i as int,
            None => v.hist_len as int,
        };
        match search_older(h, v.search, k) {
            Some(idx) => (load_entry(v, h, idx), false),
            None => (v, true),
        }
    } else if direction == 0x3f {
        let from = match v.hist_index {
            Some(i) => if i < v.hist_len { i + 1 } else { v.hist_len as int },
            None => 0,
        };
        match search_newer(h, v.search, from, v.hist_len as int) {
            Some(idx) => (load_entry(v, h, idx), false),
            None => (v, true),
        }
    } else {
        (v, false)
    }
}

/// The bell action, if `bell` is set.
pub open spec fn bell_actions(bell: bool) -> Seq<ViAction> {
    if bell { seq![ViAction::Bell] } else { Seq::empty() }
}

/// The bell, if `bell` is set.
pub open spec fn bell_if(bell: bool) -> Seq<ActionView> {
    if bell { seq![ActionView::Bell] } else { Seq::empty() }
}

/// The state with the line saved for `u` if it is not a history entry.
pub open spec fn save_edit_line(v: EditorView) -> EditorView {
    if v.hist_index is None { EditorView { edit_line: v.line, ..v } } else { v }
}

/// `f` and `F`, `t` and `T` swapped, as `,` repeats a find backwards.
pub open spec fn reverse_find(cmd: u8) -> u8 {
    if cmd == 0x66 {
        0x46
    } else if cmd == 0x46 {
        0x66
    } else if cmd == 0x74 {
        0x54
    } else if cmd == 0x54 {
        0x74
    } else {
        cmd
    }
}

/// Whether `w` holds a glob character.
pub open spec fn holds_glob(w: Seq<u8>) -> bool {
    exists|i: int| 0 <= i < w.len() && crate::segments::spec_is_glob_byte(#[trigger] w[i])
}

/// A count with one more digit `d` typed, at most `usize::MAX`.
pub open spec fn count_step(c: usize, d: u8) -> usize {
    if c * 10 + (d - 0x30) >= usize::MAX { usize::MAX } else { (c * 10 + (d - 0x30)) as usize }
}

/// Whether `ch` is a cursor motion command.
pub open spec fn is_motion_command(ch: u8) -> bool {
    ch == 0x68 || ch == 0x6c || ch == 0x20 || ch == 0x30 || ch == 0x24 || ch == 0x5e || ch == 0x77
        || ch == 0x57 || ch == 0x62 || ch == 0x42 || ch == 0x65 || ch == 0x45 || ch == 0x7c || ch == 0x3b
        || ch == 0x2c
}

/// Whether `ch` is a command that changes the line.
pub open spec fn is_edit_command(ch: u8) -> bool {
    ch == 0x78 || ch == 0x58 || ch == 0x7e || ch == 0x44 || ch == 0x43 || ch == 0x53 || ch == 0x59
        || ch == 0x70 || ch == 0x50 || ch == 0x75 || ch == 0x55 || ch == 0x2e || ch == 0x23
}

/// Whether `ch` is a history or search command.
pub open spec fn is_history_command(ch: u8) -> bool {
    ch == 0x6b || ch == 0x2d || ch == 0x6a || ch == 0x2b || ch == 0x47 || ch == 0x2f || ch == 0x3f
        || ch == 0x6e || ch == 0x4e
}

// ---------------------------------------------------------------------
// Commands
// ---------------------------------------------------------------------

/// The cursor motions `h l`(space) `0 $ ^ w W b B e E |` and the repeated
/// finds `;` and `,`; the line stays as it is. `first` is the byte that
/// began the command, a digit where a count was typed.
pub open spec fn spec_command_motion(v: EditorView, ch: u8, count: usize, first: u8) -> (EditorView, Seq<ActionView>) {
    let len = v.line.len() as int;
    if ch == 0x68 {
        let n = min_int(count as int, v.cursor);
        (
            EditorView { cursor: v.cursor - n, ..v },
            if n > 0 { seq![ActionView::WriteBytes(esc_move(n, 0x44))] } else { seq![ActionView::Bell] },
        )
    } else if ch == 0x6c || ch == 0x20 {
        let room = if last_pos(len) > v.cursor { last_pos(len) - v.cursor } else { 0 };
        let n = min_int(count as int, room);
        (
            EditorView { cursor: v.cursor + n, ..v },
            if n > 0 { seq![ActionView::WriteBytes(esc_move(n, 0x43))] } else { seq![ActionView::Bell] },
        )
    } else if ch == 0x30 {
        if first == 0x30 {
            (EditorView { cursor: 0, ..v }, seq![ActionView::Redraw])
        } else {
            (v, seq![ActionView::Bell])
        }
    } else if ch == 0x24 {
        (if len > 0 { EditorView { cursor: len - 1, ..v } } else { v }, seq![ActionView::Redraw])
    } else if ch == 0x5e {
        let p = first_non_ws(v.line, 0);
        (EditorView { cursor: if p < len { p } else { 0 }, ..v }, seq![ActionView::Redraw])
    } else if ch == 0x77 || ch == 0x57 || ch == 0x62 || ch == 0x42 {
        let (c, bell) = repeat_word_move(v.line, v.cursor, ch, count as nat);
        (EditorView { cursor: c, ..v }, bell_if(bell).push(ActionView::Redraw))
    } else if ch == 0x65 || ch == 0x45 {
        (EditorView { cursor: iter_motion(v.line, v.cursor, ch, count as nat), ..v }, seq![ActionView::Redraw])
    } else if ch == 0x7c {
        let want = if count > 0 { count - 1 } else { 0 };
        (EditorView { cursor: min_int(want, last_pos(len)), ..v }, seq![ActionView::Redraw])
    } else {
        match v.last_find {
            Some((cmd, target)) => {
                let c = if ch == 0x2c { reverse_find(cmd) } else { cmd };
                let (p, bell) = repeat_find(v.line, v.cursor, c, target, count as nat);
                (EditorView { cursor: p, ..v }, bell_if(bell).push(ActionView::Redraw))
            },
            None => (v, Seq::empty()),
        }
    }
}

/// The commands that change the line: `x X ~ D C S Y p P u U .` and `#`.
pub open spec fn spec_command_edit(v: EditorView, h: Seq<Seq<u8>>, ch: u8, count: usize, first: u8) -> (EditorView, Seq<ActionView>) {
    let len = v.line.len() as int;
    if ch == 0x78 {
        let (l, c, y) = repeat_x(v.line, v.cursor, v.yank, count as nat);
        (EditorView { line: l, cursor: c, yank: y, last_cmd: Some((0x78u8, count, None)), ..v }, seq![ActionView::Redraw])
    } else if ch == 0x58 {
        let (l, c, y, bell) = repeat_big_x(v.line, v.cursor, v.yank, count as nat);
        (
            EditorView { line: l, cursor: c, yank: y, last_cmd: Some((0x58u8, count, None)), ..v },
            bell_if(bell).push(ActionView::Redraw),
        )
    } else if ch == 0x7e {
        let (l, c) = repeat_tilde(v.line, v.cursor, count as nat);
        (EditorView { line: l, cursor: c, ..v }, seq![ActionView::Redraw])
    } else if ch == 0x44 || ch == 0x43 {
        let v2 = if v.cursor < len {
            EditorView {
                yank: v.line.subrange(v.cursor, len),
                line: v.line.subrange(0, v.cursor),
                cursor: if ch == 0x44 && v.cursor > 0 { v.cursor - 1 } else { v.cursor },
                ..v
            }
        } else {
            v
        };
        if ch == 0x43 {
            (EditorView { insert_mode: true, ..v2 }, seq![ActionView::Redraw, ActionView::SetInsertMode(true)])
        } else {
            (v2, seq![ActionView::Redraw])
        }
    } else if ch == 0x53 {
        (
            EditorView { yank: v.line, line: Seq::empty(), cursor: 0, insert_mode: true, ..v },
            seq![ActionView::Redraw, ActionView::SetInsertMode(true)],
        )
    } else if ch == 0x59 {
        (if v.cursor < len { EditorView { yank: v.line.subrange(v.cursor, len), ..v } } else { v }, Seq::empty())
    } else if ch == 0x70 || ch == 0x50 {
        if v.yank.len() > 0 {
            let pos = if ch == 0x50 { v.cursor } else if v.cursor < len { v.cursor + 1 } else { len };
            (
                EditorView {
                    line: v.line.subrange(0, pos) + v.yank + v.line.subrange(pos, len),
                    cursor: pos + v.yank.len() - 1,
                    ..v
                },
                seq![ActionView::Redraw],
            )
        } else {
            (v, Seq::empty())
        }
    } else if ch == 0x75 {
        (
            EditorView {
                line: v.edit_line,
                edit_line: v.line,
                cursor: min_int(v.cursor, last_pos(v.edit_line.len() as int)),
                ..v
            },
            seq![ActionView::Redraw],
        )
    } else if ch == 0x55 {
        let l = match v.hist_index {
            Some(idx) => if idx < v.hist_len { h[idx as int] } else { v.line },
            None => Seq::empty(),
        };
        (
            EditorView { line: l, cursor: if l.len() == 0 { 0 } else { min_int(v.cursor, last_pos(l.len() as int)) }, ..v },
            seq![ActionView::Redraw],
        )
    } else if ch == 0x2e {
        match v.last_cmd {
            Some((cmd, prev, arg)) => {
                let n = if spec_is_digit(first) && first != 0x30 { count } else { prev };
                let (l, c, y) = spec_replay(v.line, v.cursor, v.yank, cmd, n as nat, arg);
                (EditorView { line: l, cursor: c, yank: y, ..v }, seq![ActionView::Redraw])
            },
            None => (v, Seq::empty()),
        }
    } else {
        let l = seq![0x23u8] + v.line;
        (
            EditorView { line: l, ..v },
            seq![ActionView::WriteBytes(crlf()), ActionView::Return(Some(l.push(NEWLINE)))],
        )
    }
}

/// The history commands `k - j + G` and the searches `/ ? n N`.
pub open spec fn spec_command_history(v: EditorView, h: Seq<Seq<u8>>, ch: u8, count: usize, first: u8) -> (EditorView, Seq<ActionView>) {
    if ch == 0x6b || ch == 0x2d {
        match v.hist_index {
            None => if v.hist_len > 0 {
                (load_entry(EditorView { edit_line: v.line, ..v }, h, v.hist_len - 1), seq![ActionView::Redraw])
            } else {
                (v, seq![ActionView::Bell])
            },
            Some(idx) => if idx > 0 {
                (load_entry(v, h, idx - 1), seq![ActionView::Redraw])
            } else {
                (v, seq![ActionView::Bell])
            },
        }
    } else if ch == 0x6a || ch == 0x2b {
        match v.hist_index {
            Some(idx) => if v.hist_len - idx > 1 {
                (load_entry(v, h, idx + 1), seq![ActionView::Redraw])
            } else {
                (
                    EditorView { hist_index: None, line: v.edit_line, cursor: last_pos(v.edit_line.len() as int), ..v },
                    seq![ActionView::Redraw],
                )
            },
            None => (v, seq![ActionView::Bell]),
        }
    } else if ch == 0x47 {
        let v2 = if spec_is_digit(first) && first != 0x30 {
            let target = min_int(if count > 0 { count - 1 } else { 0 }, last_pos(v.hist_len as int));
            if target < v.hist_len { load_entry(save_edit_line(v), h, target) } else { v }
        } else if v.hist_len > 0 {
            load_entry(save_edit_line(v), h, 0)
        } else {
            v
        };
        (EditorView { cursor: last_pos(v2.line.len() as int), ..v2 }, seq![ActionView::Redraw])
    } else if ch == 0x2f || ch == 0x3f {
        (
            EditorView { search: Seq::empty(), pending: PendingInput::SearchInput { direction: ch }, ..v },
            seq![ActionView::WriteBytes(seq![ch]), ActionView::NeedSearchByte],
        )
    } else if v.search.len() > 0 {
        let (v2, bell) = spec_search(v, h, if ch == 0x6e { 0x2f } else { 0x3f });
        (v2, bell_if(bell).push(ActionView::Redraw))
    } else {
        (v, Seq::empty())
    }
}

/// The commands that enter insert mode (`i a A I`), wait for more input
/// (`f F t T r R d c y`), hand work to the terminal side (`v * \`), end
/// the line (control-C, enter), and the bell for any other byte.
pub open spec fn spec_command_other(v: EditorView, ch: u8, count: usize) -> (EditorView, Seq<ActionView>) {
    let len = v.line.len() as int;
    if ch == 0x69 {
        (EditorView { insert_mode: true, ..v }, seq![ActionView::SetInsertMode(true)])
    } else if ch == 0x61 {
        if len > 0 {
            (
                EditorView { insert_mode: true, cursor: if v.cursor < len { v.cursor + 1 } else { len }, ..v },
                seq![ActionView::Redraw, ActionView::SetInsertMode(true)],
            )
        } else {
            (EditorView { insert_mode: true, ..v }, seq![ActionView::SetInsertMode(true)])
        }
    } else if ch == 0x41 || ch == 0x49 {
        (
            EditorView { insert_mode: true, cursor: if ch == 0x41 { len } else { 0 }, ..v },
            seq![ActionView::Redraw, ActionView::SetInsertMode(true)],
        )
    } else if ch == 0x66 || ch == 0x46 || ch == 0x74 || ch == 0x54 {
        (EditorView { pending: PendingInput::FindTarget { cmd: ch, count }, ..v }, seq![ActionView::NeedFindTarget])
    } else if ch == 0x72 {
        (EditorView { pending: PendingInput::ReplaceChar { count }, ..v }, seq![ActionView::NeedReplaceChar])
    } else if ch == 0x52 {
        (EditorView { pending: PendingInput::ReplaceMode, ..v }, seq![ActionView::NeedReplaceModeInput])
    } else if ch == 0x64 || ch == 0x63 || ch == 0x79 {
        (EditorView { pending: PendingInput::Motion { op: ch, count }, ..v }, seq![ActionView::NeedMotion])
    } else if ch == 0x76 {
        (v, seq![ActionView::RunEditor(Seq::empty(), Seq::empty())])
    } else if ch == 0x2a || ch == 0x5c {
        let start = back_nonws(v.line, v.cursor);
        let end = fwd_nonws(v.line, v.cursor);
        let word = v.line.subrange(start, end);
        let pattern = if ch == 0x5c || !holds_glob(word) { word.push(0x2a) } else { word };
        (
            v,
            seq![if ch == 0x2a { ActionView::ExpandGlob(pattern, start, end) } else { ActionView::CompleteWord(pattern, start, end) }],
        )
    } else if ch == 0x03 {
        (v, seq![ActionView::WriteBytes(crlf()), ActionView::Return(Some(Seq::empty()))])
    } else if ch == 0x0d || ch == 0x0a {
        (v, seq![ActionView::WriteBytes(crlf()), ActionView::Return(Some(v.line.push(NEWLINE)))])
    } else {
        (v, seq![ActionView::Bell])
    }
}

/// A command-mode byte `ch` with its count.
pub open spec fn spec_command(v: EditorView, h: Seq<Seq<u8>>, ch: u8, count: usize, first: u8) -> (EditorView, Seq<ActionView>) {
    if is_motion_command(ch) {
        spec_command_motion(v, ch, count, first)
    } else if is_edit_command(ch) {
        spec_command_edit(v, h, ch, count, first)
    } else if is_history_command(ch) {
        spec_command_history(v, h, ch, count, first)
    } else {
        spec_command_other(v, ch, count)
    }
}

/// An operator (`d`, `c`, `y`) applied once its motion byte came: `dd`
/// and `cc` take the whole line; the removed text goes to the yank
/// buffer; `c` then enters insert mode.
pub open spec fn spec_operator(v: EditorView, op: u8, motion: u8, count: usize) -> (EditorView, Seq<ActionView>) {
    let (s, e) = spec_resolve_motion(v.line, v.cursor, motion, count as nat);
    if op == 0x64 || op == 0x63 {
        let v2 = if motion == op {
            EditorView { yank: v.line, line: Seq::empty(), cursor: 0, last_cmd: Some((op, count, Some(op))), ..v }
        } else if s != e {
            let l2 = v.line.subrange(0, s) + v.line.subrange(e, v.line.len() as int);
            EditorView {
                yank: v.line.subrange(s, e),
                line: l2,
                cursor: if op == 0x64 { min_int(s, last_pos(l2.len() as int)) } else { s },
                last_cmd: Some((op, count, Some(motion))),
                ..v
            }
        } else {
            v
        };
        let bell = bell_if(motion != op && s == e && op == 0x64);
        if op == 0x63 {
            (EditorView { insert_mode: true, ..v2 }, bell + seq![ActionView::Redraw, ActionView::SetInsertMode(true)])
        } else {
            (v2, bell.push(ActionView::Redraw))
        }
    } else if op == 0x79 {
        (
            if motion == 0x79 {
                EditorView { yank: v.line, ..v }
            } else if s != e {
                EditorView { yank: v.line.subrange(s, e), ..v }
            } else {
                v
            },
            Seq::empty(),
        )
    } else {
        (v, Seq::empty())
    }
}

/// A byte typed in insert mode, with the actions it makes.
pub open spec fn spec_insert(v: EditorView, byte: u8) -> (EditorView, Seq<ActionView>) {
    let (l, c, ins) = crate::vi::spec_insert_step(v.line, v.cursor, v.erase_char, byte);
    let len = v.line.len() as int;
    let v2 = EditorView {
        line: l,
        cursor: c,
        insert_mode: ins,
        pending: if byte == 0x16 { PendingInput::LiteralChar } else { v.pending },
        ..v
    };
    let acts = if byte == 0x1b {
        if v.cursor > 0 && v.cursor >= len { seq![ActionView::WriteBytes(seq![0x1bu8, 0x5bu8, 0x44u8])] } else { Seq::empty() }
    } else if byte == 0x0a || byte == 0x0d {
        seq![ActionView::WriteBytes(crlf()), ActionView::Return(Some(v.line.push(NEWLINE)))]
    } else if byte == 0x16 {
        seq![ActionView::NeedLiteralChar]
    } else if byte == 0x17 {
        if v.cursor > 0 { seq![ActionView::Redraw] } else { Seq::empty() }
    } else if byte == 0x03 {
        seq![ActionView::WriteBytes(crlf()), ActionView::Return(Some(Seq::empty()))]
    } else if byte == 0x04 {
        if len == 0 { seq![ActionView::WriteBytes(crlf()), ActionView::Return(None)] } else { Seq::empty() }
    } else if byte == v.erase_char || byte == 0x7f || byte == 0x08 {
        if v.cursor > 0 { seq![ActionView::Redraw] } else { Seq::empty() }
    } else if c == l.len() {
        seq![ActionView::WriteBytes(seq![byte])]
    } else {
        seq![ActionView::Redraw]
    };
    (v2, acts)
}

/// What one input byte does to the editor: the new state and the actions
/// for the terminal side. `h` is the history, oldest entry first.
pub open spec fn spec_process_byte(v: EditorView, h: Seq<Seq<u8>>, byte: u8) -> (EditorView, Seq<ActionView>) {
    let len = v.line.len() as int;
    match v.pending {
        PendingInput::CountDigits => if spec_is_digit(byte) {
            (
                EditorView {
                    count_buf: match v.count_buf {
                        Some((c, f)) => Some((count_step(c, byte), f)),
                        None => None,
                    },
                    ..v
                },
                seq![ActionView::ReadByte],
            )
        } else {
            let (count, first) = match v.count_buf {
                Some(cb) => cb,
                None => (1usize, byte),
            };
            spec_command(EditorView { count_buf: None, pending: PendingInput::Idle, ..v }, h, byte, count, first)
        },
        PendingInput::FindTarget { cmd, count } => {
            let (p, bell) = repeat_find(v.line, v.cursor, cmd, byte, count as nat);
            (
                EditorView { pending: PendingInput::Idle, last_find: Some((cmd, byte)), cursor: p, ..v },
                bell_if(bell).push(ActionView::Redraw),
            )
        },
        PendingInput::ReplaceChar { count } => {
            let (l, c, y) = spec_replay(v.line, v.cursor, v.yank, 0x72, count as nat, Some(byte));
            (
                EditorView {
                    pending: PendingInput::Idle,
                    last_cmd: Some((0x72u8, count, Some(byte))),
                    line: l,
                    cursor: c,
                    yank: y,
                    ..v
                },
                seq![ActionView::Redraw],
            )
        },
        PendingInput::ReplaceMode => if byte == 0x1b {
            (
                EditorView {
                    pending: PendingInput::Idle,
                    cursor: if v.cursor > 0 && v.cursor >= len { last_pos(len) } else { v.cursor },
                    ..v
                },
                seq![ActionView::Redraw],
            )
        } else if byte == 0x0d || byte == 0x0a {
            (
                EditorView { pending: PendingInput::Idle, ..v },
                seq![ActionView::WriteBytes(crlf()), ActionView::Return(Some(v.line.push(NEWLINE)))],
            )
        } else {
            let l = if v.cursor < len { v.line.update(v.cursor, byte) } else { v.line.push(byte) };
            (EditorView { line: l, cursor: if v.cursor < l.len() { v.cursor + 1 } else { v.cursor }, ..v }, seq![ActionView::Redraw])
        },
        PendingInput::Motion { op, count } => spec_operator(EditorView { pending: PendingInput::Idle, ..v }, op, byte, count),
        PendingInput::LiteralChar => (
            EditorView { pending: PendingInput::Idle, line: v.line.insert(v.cursor, byte), cursor: v.cursor + 1, ..v },
            seq![ActionView::Redraw],
        ),
        PendingInput::SearchInput { direction } => if byte == 0x0d || byte == 0x0a {
            let v1 = EditorView { pending: PendingInput::Idle, ..v };
            if v.search.len() > 0 {
                let (v2, bell) = spec_search(v1, h, direction);
                (v2, bell_if(bell).push(ActionView::Redraw))
            } else {
                (v1, seq![ActionView::Redraw])
            }
        } else if byte == 0x7f || byte == 0x08 {
            if v.search.len() > 0 {
                (EditorView { search: v.search.drop_last(), ..v }, seq![ActionView::WriteBytes(seq![0x08u8, 0x20u8, 0x08u8])])
            } else {
                (v, Seq::empty())
            }
        } else {
            (EditorView { search: v.search.push(byte), ..v }, seq![ActionView::WriteBytes(seq![byte])])
        },
        PendingInput::Idle => if v.insert_mode {
            spec_insert(v, byte)
        } else if spec_is_digit(byte) && byte != 0x30 {
            (
                EditorView { count_buf: Some(((byte - 0x30) as usize, byte)), pending: PendingInput::CountDigits, ..v },
                seq![ActionView::ReadByte],
            )
        } else {
            spec_command(v, h, byte, 1, byte)
        },
    }
}

/// The word `start..end` replaced by `rep`, the cursor at its last byte
/// (or, with `after`, just after it).
pub open spec fn replace_word(v: EditorView, start: int, end: int, rep: Seq<u8>, after: bool) -> EditorView {
    let c = start + rep.len();
    EditorView {
        line: v.line.subrange(0, start) + rep + v.line.subrange(end, v.line.len() as int),
        cursor: if c > 0 && !after { c - 1 } else { c },
        ..v
    }
}

/// `*`: the word replaced by the paths its glob matched, joined by
/// spaces; nothing changes where the glob failed.
pub open spec fn spec_apply_glob(v: EditorView, start: int, end: int, found: Option<Seq<Seq<u8>>>) -> EditorView {
    match found {
        Some(m) => replace_word(v, start, end, crate::bytes::spec_join(m, seq![0x20u8]), false),
        None => v,
    }
}

/// `\`: the word completed to the one path its glob matched, with a `/`
/// after a directory (the cursor then after it); a bell where several
/// or none matched.
pub open spec fn spec_apply_completion(v: EditorView, start: int, end: int, found: Option<Seq<Seq<u8>>>, is_dir: bool) -> (EditorView, Seq<ActionView>) {
    match found {
        Some(m) => if m.len() == 1 {
            (
                replace_word(v, start, end, if is_dir { m[0].push(0x2f) } else { m[0] }, is_dir),
                seq![ActionView::Redraw],
            )
        } else {
            (v, seq![ActionView::Bell, ActionView::Redraw])
        },
        None => (v, seq![ActionView::Redraw]),
    }
}

/// Some list of paths as values.
pub open spec fn found_view(found: Option<Vec<Vec<u8>>>) -> Option<Seq<Seq<u8>>> {
    match found {
        Some(m) => Some(crate::bytes::views(m@)),
        None => None,
    }
}

// ---------------------------------------------------------------------
// Laws
// ---------------------------------------------------------------------

/// A cursor motion moves the cursor and changes nothing else.
pub proof fn law_motions_only_move_the_cursor(v: EditorView, ch: u8, count: usize, first: u8)
    requires
        is_motion_command(ch),
    ensures
        spec_command_motion(v, ch, count, first).0 == with_cursor(v, spec_command_motion(v, ch, count, first).0.cursor),
{
}

/// `u` twice gives back the line and the saved line.
pub proof fn law_undo_twice_restores(v: EditorView, h: Seq<Seq<u8>>, count: usize, first: u8)
    ensures
        spec_command(spec_command(v, h, 0x75, count, first).0, h, 0x75, count, first).0.line == v.line,
        spec_command(spec_command(v, h, 0x75, count, first).0, h, 0x75, count, first).0.edit_line == v.edit_line,
{
}

/// `x` then `P`, away from the end of the line, gives back the line.
pub proof fn law_delete_then_put_restores(v: EditorView, h: Seq<Seq<u8>>)
    requires
        0 <= v.cursor,
        v.cursor + 1 < v.line.len(),
    ensures
        spec_command(spec_command(v, h, 0x78, 1, 0x78).0, h, 0x50, 1, 0x50).0.line == v.line,
{
    let l = v.line;
    let c = v.cursor;
    assert(repeat_x(l, c, v.yank, 1) == (l.remove(c), c, seq![l[c]])) by {
        reveal_with_fuel(repeat_x, 2);
    }
    let l1 = l.remove(c);
    assert(l1.subrange(0, c) + seq![l[c]] + l1.subrange(c, l1.len() as int) =~= l);
}

/// `dd` then `P` gives back a non-empty line.
pub proof fn law_delete_line_then_put_restores(v: EditorView, h: Seq<Seq<u8>>)
    requires
        v.line.len() > 0,
    ensures
        spec_command(spec_operator(v, 0x64, 0x64, 1).0, h, 0x50, 1, 0x50).0.line == v.line,
{
    let v1 = spec_operator(v, 0x64, 0x64, 1).0;
    assert(v1.line == Seq::<u8>::empty());
    assert(v1.line.subrange(0, 0) + v.line + v1.line.subrange(0, 0) =~= v.line);
}

/// In insert mode, a byte typed and then erased with DEL leaves the line
/// and the cursor as they were.
pub proof fn law_erase_undoes_typing(v: EditorView, h: Seq<Seq<u8>>, b: u8)
    requires
        v.pending is Idle,
        v.insert_mode,
        0 <= v.cursor <= v.line.len(),
        b != 0x1b && b != 0x0a && b != 0x0d && b != 0x16 && b != 0x17 && b != 0x03 && b != 0x04,
        b != v.erase_char && b != 0x7f && b != 0x08,
    ensures
        spec_process_byte(spec_process_byte(v, h, b).0, h, 0x7f).0.line == v.line,
        spec_process_byte(spec_process_byte(v, h, b).0, h, 0x7f).0.cursor == v.cursor,
{
    let v1 = spec_process_byte(v, h, b).0;
    assert(v1.line == v.line.insert(v.cursor, b));
    assert(v1.line.remove(v.cursor) =~= v.line);
}

/// In insert mode, enter ends the line: the terminal gets a new line and
/// the line comes back with a newline after it.
pub proof fn law_enter_returns_the_line(v: EditorView, h: Seq<Seq<u8>>)
    requires
        v.pending is Idle,
        v.insert_mode,
    ensures
        spec_process_byte(v, h, 0x0d).1 == seq![ActionView::WriteBytes(crlf()), ActionView::Return(Some(v.line.push(NEWLINE)))],
        spec_process_byte(v, h, 0x0d).0.line == v.line,
{
}

} // verus!
