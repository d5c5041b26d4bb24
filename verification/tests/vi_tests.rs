#![allow(non_snake_case)]

use meiksh::prompt::{command_is_fc, env_file_path, expand_prompt_exclamation, history_entry, history_path};
use meiksh::vi::{
    bigword_backward, bigword_end, bigword_forward, do_find, is_word_char, replay_cmd, resolve_motion,
    word_backward, word_end, word_forward, PendingInput, ViAction, ViState,
};

fn assert_no_syscalls<F: FnOnce()>(f: F) {
    f()
}

#[test]
fn expand_prompt_exclamation_covers_all_branches() {
    assert_no_syscalls(|| {
        assert_eq!(expand_prompt_exclamation(b"!!", 42), b"!");
        assert_eq!(expand_prompt_exclamation(b"!x", 42), b"42x");
        assert_eq!(expand_prompt_exclamation(b"!", 42), b"42");
        assert_eq!(expand_prompt_exclamation(b"no bang", 42), b"no bang");
    });
}

fn has_return(actions: &[ViAction]) -> bool {
    actions.iter().any(|a| matches!(a, ViAction::Return(_)))
}

fn get_return(actions: &[ViAction]) -> Option<Option<Vec<u8>>> {
    actions.iter().find_map(|a| match a {
        ViAction::Return(s) => Some(s.clone()),
        _ => None,
    })
}

fn has_bell(actions: &[ViAction]) -> bool {
    actions.iter().any(|a| matches!(a, ViAction::Bell))
}

fn feed_bytes(state: &mut ViState, bytes: &[u8], history: &[Box<[u8]>]) -> Vec<ViAction> {
    let mut all = Vec::new();
    for &b in bytes {
        all.extend(state.process_byte(b, history));
    }
    all
}

#[test]
fn word_forward_covers_all_branches() {
    assert_no_syscalls(|| {
        assert_eq!(word_forward(b"hello world", 0), 6);
        assert_eq!(word_forward(b"hello world", 5), 6);
        assert_eq!(word_forward(b"hello", 5), 5);
        assert_eq!(word_forward(b"a.b cd", 1), 2);
        assert_eq!(word_forward(b"   a", 0), 3);
    });
}

#[test]
fn word_backward_covers_all_branches() {
    assert_no_syscalls(|| {
        assert_eq!(word_backward(b"hello world", 6), 0);
        assert_eq!(word_backward(b"hello world", 11), 6);
        assert_eq!(word_backward(b"hello", 0), 0);
        assert_eq!(word_backward(b"a.b cd", 3), 2);
        assert_eq!(word_backward(b"  ab", 4), 2);
    });
}

#[test]
fn bigword_forward_and_backward() {
    assert_no_syscalls(|| {
        assert_eq!(bigword_forward(b"a.b c.d", 0), 4);
        assert_eq!(bigword_forward(b"abc", 0), 3);
        assert_eq!(bigword_backward(b"a.b c.d", 4), 0);
        assert_eq!(bigword_backward(b"a.b c.d", 0), 0);
        assert_eq!(bigword_backward(b"ab   cd", 7), 5);
    });
}

#[test]
fn word_end_and_bigword_end() {
    assert_no_syscalls(|| {
        assert_eq!(word_end(b"ab cd", 0), 1);
        assert_eq!(word_end(b"ab cd", 2), 4);
        assert_eq!(word_end(b"a", 0), 0);
        assert_eq!(word_end(b"a  b", 0), 3);
        assert_eq!(bigword_end(b"a.b c.d", 0), 2);
        assert_eq!(bigword_end(b"a", 0), 0);
        assert_eq!(bigword_end(b"a  b", 0), 3);
        assert_eq!(bigword_end(b"ab", 1), 1);
    });
}

#[test]
fn is_word_char_tests() {
    assert_no_syscalls(|| {
        assert!(is_word_char(b'a'));
        assert!(is_word_char(b'Z'));
        assert!(is_word_char(b'0'));
        assert!(is_word_char(b'_'));
        assert!(!is_word_char(b'.'));
        assert!(!is_word_char(b' '));
    });
}

#[test]
fn do_find_all_directions() {
    assert_no_syscalls(|| {
        let line = b"abcba";
        assert_eq!(do_find(line, 0, b'f', b'c'), Some(2));
        assert_eq!(do_find(line, 0, b'f', b'z'), None);
        assert_eq!(do_find(line, 4, b'F', b'c'), Some(2));
        assert_eq!(do_find(line, 0, b'F', b'c'), None);
        assert_eq!(do_find(line, 0, b't', b'c'), Some(1));
        assert_eq!(do_find(line, 0, b't', b'z'), None);
        assert_eq!(do_find(line, 4, b'T', b'c'), Some(3));
        assert_eq!(do_find(line, 0, b'T', b'c'), None);
        assert_eq!(do_find(line, 0, b'z', b'a'), None);
    });
}

#[test]
fn resolve_motion_covers_all_motions() {
    assert_no_syscalls(|| {
        let line = b"hello world";
        assert_eq!(resolve_motion(line, 0, b'w', 1), (0, 6));
        assert_eq!(resolve_motion(line, 6, b'b', 1), (0, 6));
        assert_eq!(resolve_motion(line, 0, b'W', 1), (0, 6));
        assert_eq!(resolve_motion(line, 6, b'B', 1), (0, 6));
        assert_eq!(resolve_motion(line, 0, b'e', 1), (0, 5));
        assert_eq!(resolve_motion(line, 0, b'E', 1), (0, 5));
        assert_eq!(resolve_motion(line, 5, b'h', 3), (2, 5));
        assert_eq!(resolve_motion(line, 2, b'l', 3), (2, 5));
        assert_eq!(resolve_motion(line, 5, b'0', 1), (0, 5));
        assert_eq!(resolve_motion(line, 0, b'$', 1), (0, 11));
        assert_eq!(resolve_motion(line, 0, b'z', 1), (0, 0));
    });
}

#[test]
fn replay_cmd_x_and_X() {
    assert_no_syscalls(|| {
        let mut line = b"abcde".to_vec();
        let mut cursor = 2;
        let mut yank = Vec::new();
        replay_cmd(&mut line, &mut cursor, &mut yank, b'x', 2, None);
        assert_eq!(line, b"abe");
        assert_eq!(cursor, 2);

        let mut line = b"abcde".to_vec();
        cursor = 3;
        replay_cmd(&mut line, &mut cursor, &mut yank, b'X', 2, None);
        assert_eq!(line, b"ade");
        assert_eq!(cursor, 1);
    });
}

#[test]
fn replay_cmd_r() {
    assert_no_syscalls(|| {
        let mut line = b"abcde".to_vec();
        let mut cursor = 1;
        let mut yank = Vec::new();
        replay_cmd(&mut line, &mut cursor, &mut yank, b'r', 3, Some(b'Z'));
        assert_eq!(line, b"aZZZe");
        assert_eq!(cursor, 3);
    });
}

#[test]
fn replay_cmd_d_dd_and_motion() {
    assert_no_syscalls(|| {
        let mut line = b"hello world".to_vec();
        let mut cursor = 0;
        let mut yank = Vec::new();
        replay_cmd(&mut line, &mut cursor, &mut yank, b'd', 1, Some(b'w'));
        assert_eq!(line, b"world");
        assert_eq!(yank, b"hello ");

        let mut line = b"hello".to_vec();
        cursor = 0;
        replay_cmd(&mut line, &mut cursor, &mut yank, b'd', 1, Some(b'd'));
        assert!(line.is_empty());
        assert_eq!(cursor, 0);
    });
}

#[test]
fn replay_cmd_c_cc_and_motion() {
    assert_no_syscalls(|| {
        let mut line = b"hello world".to_vec();
        let mut cursor = 0;
        let mut yank = Vec::new();
        replay_cmd(&mut line, &mut cursor, &mut yank, b'c', 1, Some(b'w'));
        assert_eq!(line, b"world");
        assert_eq!(cursor, 0);

        let mut line = b"hello".to_vec();
        cursor = 0;
        replay_cmd(&mut line, &mut cursor, &mut yank, b'c', 1, Some(b'c'));
        assert!(line.is_empty());
    });
}

#[test]
fn replay_cmd_unknown_is_noop() {
    assert_no_syscalls(|| {
        let mut line = b"ab".to_vec();
        let mut cursor = 0;
        let mut yank = Vec::new();
        replay_cmd(&mut line, &mut cursor, &mut yank, b'z', 1, None);
        assert_eq!(line, b"ab");
    });
}



#[test]
fn command_is_fc_tests() {
    assert_no_syscalls(|| {
        assert!(command_is_fc(b"fc"));
        assert!(command_is_fc(b"fc -l"));
        assert!(command_is_fc(b"fc\t-l"));
        assert!(command_is_fc(b"FCEDIT=true fc -e true"));
        assert!(command_is_fc(b"A=1 B=2 fc"));
        assert!(command_is_fc(b"X='val' fc -s"));
        assert!(command_is_fc(b"X=\"val\" fc -s"));
        assert!(!command_is_fc(b"echo fc"));
        assert!(!command_is_fc(b""));
        assert!(!command_is_fc(b"echo hello"));
        assert!(!command_is_fc(b"FCEDIT=true"));
    });
}

#[test]
fn vi_insert_mode_enter_returns_line() {
    assert_no_syscalls(|| {
        let mut state = ViState::new(0x7f, 0);
        let history: Vec<Box<[u8]>> = vec![];
        let actions = feed_bytes(&mut state, b"abc\n", &history);
        assert!(has_return(&actions));
        assert_eq!(
            get_return(&actions),
            Some(Some(b"abc\n".to_vec()))
        );
    });
}

#[test]
fn vi_insert_mode_eof_returns_none() {
    assert_no_syscalls(|| {
        let mut state = ViState::new(0x7f, 0);
        let history: Vec<Box<[u8]>> = vec![];
        let actions = state.process_byte(0x04, &history);
        assert!(has_return(&actions));
        assert_eq!(get_return(&actions), Some(None));
    });
}

#[test]
fn vi_insert_mode_backspace_erases() {
    assert_no_syscalls(|| {
        let mut state = ViState::new(0x7f, 0);
        let history: Vec<Box<[u8]>> = vec![];
        feed_bytes(&mut state, b"abc", &history);
        assert_eq!(state.line, b"abc");
        state.process_byte(0x7f, &history);
        assert_eq!(state.line, b"ab");
        assert_eq!(state.cursor, 2);
    });
}

#[test]
fn vi_insert_mode_ctrl_c_returns_empty() {
    assert_no_syscalls(|| {
        let mut state = ViState::new(0x7f, 0);
        let history: Vec<Box<[u8]>> = vec![];
        feed_bytes(&mut state, b"abc", &history);
        let actions = state.process_byte(0x03, &history);
        assert_eq!(get_return(&actions), Some(Some(Vec::new())));
    });
}

#[test]
fn vi_insert_mode_ctrl_w_deletes_word() {
    assert_no_syscalls(|| {
        let mut state = ViState::new(0x7f, 0);
        let history: Vec<Box<[u8]>> = vec![];
        feed_bytes(&mut state, b"hello world", &history);
        state.process_byte(0x17, &history);
        assert_eq!(state.line, b"hello ");
    });
}

#[test]
fn vi_insert_mode_ctrl_v_inserts_literal() {
    assert_no_syscalls(|| {
        let mut state = ViState::new(0x7f, 0);
        let history: Vec<Box<[u8]>> = vec![];
        state.process_byte(0x16, &history);
        state.process_byte(0x03, &history);
        assert_eq!(state.line, vec![0x03]);
    });
}

#[test]
fn vi_esc_to_command_mode() {
    assert_no_syscalls(|| {
        let mut state = ViState::new(0x7f, 0);
        let history: Vec<Box<[u8]>> = vec![];
        feed_bytes(&mut state, b"abc", &history);
        state.process_byte(0x1b, &history);
        assert!(!state.insert_mode);
        assert_eq!(state.cursor, 2);
    });
}

#[test]
fn vi_command_h_l_motion() {
    assert_no_syscalls(|| {
        let mut state = ViState::new(0x7f, 0);
        let history: Vec<Box<[u8]>> = vec![];
        feed_bytes(&mut state, b"abcde", &history);
        state.process_byte(0x1b, &history);
        assert_eq!(state.cursor, 4);
        state.process_byte(b'h', &history);
        assert_eq!(state.cursor, 3);
        state.process_byte(b'h', &history);
        assert_eq!(state.cursor, 2);
        state.process_byte(b'l', &history);
        assert_eq!(state.cursor, 3);
    });
}

#[test]
fn vi_command_0_dollar() {
    assert_no_syscalls(|| {
        let mut state = ViState::new(0x7f, 0);
        let history: Vec<Box<[u8]>> = vec![];
        feed_bytes(&mut state, b"abcde", &history);
        state.process_byte(0x1b, &history);
        state.process_byte(b'0', &history);
        assert_eq!(state.cursor, 0);
        state.process_byte(b'$', &history);
        assert_eq!(state.cursor, 4);
    });
}

#[test]
fn vi_command_caret() {
    assert_no_syscalls(|| {
        let mut state = ViState::new(0x7f, 0);
        let history: Vec<Box<[u8]>> = vec![];
        feed_bytes(&mut state, b"  hello", &history);
        state.process_byte(0x1b, &history);
        state.process_byte(b'^', &history);
        assert_eq!(state.cursor, 2);
    });
}

#[test]
fn vi_command_w_b_motion() {
    assert_no_syscalls(|| {
        let mut state = ViState::new(0x7f, 0);
        let history: Vec<Box<[u8]>> = vec![];
        feed_bytes(&mut state, b"echo hello world", &history);
        state.process_byte(0x1b, &history);
        state.process_byte(b'0', &history);
        state.process_byte(b'w', &history);
        assert_eq!(state.cursor, 5);
        state.process_byte(b'w', &history);
        assert_eq!(state.cursor, 11);
        state.process_byte(b'b', &history);
        assert_eq!(state.cursor, 5);
    });
}

#[test]
fn vi_command_W_B_motion() {
    assert_no_syscalls(|| {
        let mut state = ViState::new(0x7f, 0);
        let history: Vec<Box<[u8]>> = vec![];
        feed_bytes(&mut state, b"a.b c.d", &history);
        state.process_byte(0x1b, &history);
        state.process_byte(b'0', &history);
        state.process_byte(b'W', &history);
        assert_eq!(state.cursor, 4);
        state.process_byte(b'B', &history);
        assert_eq!(state.cursor, 0);
    });
}

#[test]
fn vi_command_e_E_motion() {
    assert_no_syscalls(|| {
        let mut state = ViState::new(0x7f, 0);
        let history: Vec<Box<[u8]>> = vec![];
        feed_bytes(&mut state, b"ab cd", &history);
        state.process_byte(0x1b, &history);
        state.process_byte(b'0', &history);
        state.process_byte(b'e', &history);
        assert_eq!(state.cursor, 1);

        let mut state = ViState::new(0x7f, 0);
        feed_bytes(&mut state, b"a-b cd", &history);
        state.process_byte(0x1b, &history);
        state.process_byte(b'0', &history);
        state.process_byte(b'E', &history);
        assert_eq!(state.cursor, 2);
    });
}

#[test]
fn vi_command_pipe() {
    assert_no_syscalls(|| {
        let mut state = ViState::new(0x7f, 0);
        let history: Vec<Box<[u8]>> = vec![];
        feed_bytes(&mut state, b"abcde", &history);
        state.process_byte(0x1b, &history);
        feed_bytes(&mut state, b"3|", &history);
        assert_eq!(state.cursor, 2);
    });
}

#[test]
fn vi_command_find_f_F_t_T() {
    assert_no_syscalls(|| {
        let mut state = ViState::new(0x7f, 0);
        let history: Vec<Box<[u8]>> = vec![];
        feed_bytes(&mut state, b"abcba", &history);
        state.process_byte(0x1b, &history);
        state.process_byte(b'0', &history);
        feed_bytes(&mut state, b"fc", &history);
        assert_eq!(state.cursor, 2);
        feed_bytes(&mut state, b"Fb", &history);
        assert_eq!(state.cursor, 1);
        state.process_byte(b'0', &history);
        feed_bytes(&mut state, b"tc", &history);
        assert_eq!(state.cursor, 1);
        state.process_byte(b'$', &history);
        feed_bytes(&mut state, b"Tb", &history);
        assert_eq!(state.cursor, 4);
    });
}

#[test]
fn vi_command_semicolon_comma_repeat_find() {
    assert_no_syscalls(|| {
        let mut state = ViState::new(0x7f, 0);
        let history: Vec<Box<[u8]>> = vec![];
        feed_bytes(&mut state, b"ababa", &history);
        state.process_byte(0x1b, &history);
        state.process_byte(b'0', &history);
        feed_bytes(&mut state, b"fa", &history);
        assert_eq!(state.cursor, 2);
        state.process_byte(b';', &history);
        assert_eq!(state.cursor, 4);
        state.process_byte(b',', &history);
        assert_eq!(state.cursor, 2);
    });
}

#[test]
fn vi_command_x_delete() {
    assert_no_syscalls(|| {
        let mut state = ViState::new(0x7f, 0);
        let history: Vec<Box<[u8]>> = vec![];
        feed_bytes(&mut state, b"abc", &history);
        state.process_byte(0x1b, &history);
        state.process_byte(b'0', &history);
        state.process_byte(b'x', &history);
        assert_eq!(state.line, b"bc");
    });
}

#[test]
fn vi_command_X_delete_before() {
    assert_no_syscalls(|| {
        let mut state = ViState::new(0x7f, 0);
        let history: Vec<Box<[u8]>> = vec![];
        feed_bytes(&mut state, b"abc", &history);
        state.process_byte(0x1b, &history);
        state.process_byte(b'X', &history);
        assert_eq!(state.line, b"ac");
        assert_eq!(state.cursor, 1);
    });
}

#[test]
fn vi_command_r_replace() {
    assert_no_syscalls(|| {
        let mut state = ViState::new(0x7f, 0);
        let history: Vec<Box<[u8]>> = vec![];
        feed_bytes(&mut state, b"hello", &history);
        state.process_byte(0x1b, &history);
        state.process_byte(b'0', &history);
        feed_bytes(&mut state, b"rH", &history);
        assert_eq!(state.line, b"Hello");
    });
}

#[test]
fn vi_command_r_with_count() {
    assert_no_syscalls(|| {
        let mut state = ViState::new(0x7f, 0);
        let history: Vec<Box<[u8]>> = vec![];
        feed_bytes(&mut state, b"abcd", &history);
        state.process_byte(0x1b, &history);
        state.process_byte(b'0', &history);
        feed_bytes(&mut state, b"3rZ", &history);
        assert_eq!(state.line, b"ZZZd");
    });
}

#[test]
fn vi_command_R_replace_mode() {
    assert_no_syscalls(|| {
        let mut state = ViState::new(0x7f, 0);
        let history: Vec<Box<[u8]>> = vec![];
        feed_bytes(&mut state, b"abcdef", &history);
        state.process_byte(0x1b, &history);
        state.process_byte(b'0', &history);
        feed_bytes(&mut state, b"RXY\x1b", &history);
        assert_eq!(state.line, b"XYcdef");
    });
}

#[test]
fn vi_command_R_enter_returns() {
    assert_no_syscalls(|| {
        let mut state = ViState::new(0x7f, 0);
        let history: Vec<Box<[u8]>> = vec![];
        feed_bytes(&mut state, b"ab", &history);
        state.process_byte(0x1b, &history);
        state.process_byte(b'0', &history);
        state.process_byte(b'R', &history);
        let actions = state.process_byte(b'\n', &history);
        assert!(has_return(&actions));
    });
}

#[test]
fn vi_command_tilde_toggle_case() {
    assert_no_syscalls(|| {
        let mut state = ViState::new(0x7f, 0);
        let history: Vec<Box<[u8]>> = vec![];
        feed_bytes(&mut state, b"aB", &history);
        state.process_byte(0x1b, &history);
        state.process_byte(b'0', &history);
        state.process_byte(b'~', &history);
        assert_eq!(state.line, b"AB");
        state.process_byte(b'~', &history);
        assert_eq!(state.line, b"Ab");
    });
}

#[test]
fn vi_command_d_with_motion() {
    assert_no_syscalls(|| {
        let mut state = ViState::new(0x7f, 0);
        let history: Vec<Box<[u8]>> = vec![];
        feed_bytes(&mut state, b"hello world", &history);
        state.process_byte(0x1b, &history);
        state.process_byte(b'0', &history);
        feed_bytes(&mut state, b"dw", &history);
        assert_eq!(state.line, b"world");
        assert_eq!(state.yank_buf, b"hello ");
    });
}

#[test]
fn vi_command_dd_clears_line() {
    assert_no_syscalls(|| {
        let mut state = ViState::new(0x7f, 0);
        let history: Vec<Box<[u8]>> = vec![];
        feed_bytes(&mut state, b"hello", &history);
        state.process_byte(0x1b, &history);
        feed_bytes(&mut state, b"dd", &history);
        assert!(state.line.is_empty());
    });
}

#[test]
fn vi_command_D_delete_to_end() {
    assert_no_syscalls(|| {
        let mut state = ViState::new(0x7f, 0);
        let history: Vec<Box<[u8]>> = vec![];
        feed_bytes(&mut state, b"hello world", &history);
        state.process_byte(0x1b, &history);
        state.process_byte(b'0', &history);
        state.process_byte(b'w', &history);
        state.process_byte(b'D', &history);
        assert_eq!(state.line, b"hello ");
    });
}

#[test]
fn vi_command_c_change() {
    assert_no_syscalls(|| {
        let mut state = ViState::new(0x7f, 0);
        let history: Vec<Box<[u8]>> = vec![];
        feed_bytes(&mut state, b"hello world", &history);
        state.process_byte(0x1b, &history);
        state.process_byte(b'0', &history);
        feed_bytes(&mut state, b"cw", &history);
        assert_eq!(state.line, b"world");
        assert!(state.insert_mode);
    });
}

#[test]
fn vi_command_cc_clears_line() {
    assert_no_syscalls(|| {
        let mut state = ViState::new(0x7f, 0);
        let history: Vec<Box<[u8]>> = vec![];
        feed_bytes(&mut state, b"hello", &history);
        state.process_byte(0x1b, &history);
        feed_bytes(&mut state, b"cc", &history);
        assert!(state.line.is_empty());
        assert!(state.insert_mode);
    });
}

#[test]
fn vi_command_C_change_to_end() {
    assert_no_syscalls(|| {
        let mut state = ViState::new(0x7f, 0);
        let history: Vec<Box<[u8]>> = vec![];
        feed_bytes(&mut state, b"hello world", &history);
        state.process_byte(0x1b, &history);
        state.process_byte(b'0', &history);
        state.process_byte(b'w', &history);
        state.process_byte(b'C', &history);
        assert_eq!(state.line, b"hello ");
        assert!(state.insert_mode);
    });
}

#[test]
fn vi_command_S_substitute_line() {
    assert_no_syscalls(|| {
        let mut state = ViState::new(0x7f, 0);
        let history: Vec<Box<[u8]>> = vec![];
        feed_bytes(&mut state, b"hello", &history);
        state.process_byte(0x1b, &history);
        state.process_byte(b'S', &history);
        assert!(state.line.is_empty());
        assert!(state.insert_mode);
    });
}

#[test]
fn vi_command_y_yank() {
    assert_no_syscalls(|| {
        let mut state = ViState::new(0x7f, 0);
        let history: Vec<Box<[u8]>> = vec![];
        feed_bytes(&mut state, b"hello world", &history);
        state.process_byte(0x1b, &history);
        state.process_byte(b'0', &history);
        feed_bytes(&mut state, b"yw", &history);
        assert_eq!(state.yank_buf, b"hello ");
        assert_eq!(state.cursor, 0);
    });
}

#[test]
fn vi_command_yy_yanks_line() {
    assert_no_syscalls(|| {
        let mut state = ViState::new(0x7f, 0);
        let history: Vec<Box<[u8]>> = vec![];
        feed_bytes(&mut state, b"hello", &history);
        state.process_byte(0x1b, &history);
        feed_bytes(&mut state, b"yy", &history);
        assert_eq!(state.yank_buf, b"hello");
    });
}

#[test]
fn vi_command_Y_yank_to_end() {
    assert_no_syscalls(|| {
        let mut state = ViState::new(0x7f, 0);
        let history: Vec<Box<[u8]>> = vec![];
        feed_bytes(&mut state, b"hello world", &history);
        state.process_byte(0x1b, &history);
        state.process_byte(b'0', &history);
        state.process_byte(b'w', &history);
        state.process_byte(b'Y', &history);
        assert_eq!(state.yank_buf, b"world");
    });
}

#[test]
fn vi_command_p_P_put() {
    assert_no_syscalls(|| {
        let mut state = ViState::new(0x7f, 0);
        let history: Vec<Box<[u8]>> = vec![];
        feed_bytes(&mut state, b"abc", &history);
        state.process_byte(0x1b, &history);
        state.process_byte(b'x', &history);
        assert_eq!(state.yank_buf, vec![b'c']);
        state.process_byte(b'p', &history);
        assert_eq!(state.line, b"abc");

        let mut state = ViState::new(0x7f, 0);
        feed_bytes(&mut state, b"abc", &history);
        state.process_byte(0x1b, &history);
        state.process_byte(b'x', &history);
        state.process_byte(b'P', &history);
        assert_eq!(state.line, b"acb");
    });
}

#[test]
fn vi_command_u_undo() {
    assert_no_syscalls(|| {
        let mut state = ViState::new(0x7f, 0);
        let history: Vec<Box<[u8]>> = vec![];
        feed_bytes(&mut state, b"hello", &history);
        state.process_byte(0x1b, &history);
        state.edit_line = state.line.clone();
        state.process_byte(b'x', &history);
        assert_eq!(state.line, b"hell");
        state.process_byte(b'u', &history);
        assert_eq!(state.line, b"hello");
    });
}

#[test]
fn vi_command_dot_repeat() {
    assert_no_syscalls(|| {
        let mut state = ViState::new(0x7f, 0);
        let history: Vec<Box<[u8]>> = vec![];
        feed_bytes(&mut state, b"abcde", &history);
        state.process_byte(0x1b, &history);
        state.process_byte(b'0', &history);
        state.process_byte(b'x', &history);
        assert_eq!(state.line, b"bcde");
        state.process_byte(b'.', &history);
        assert_eq!(state.line, b"cde");
    });
}

#[test]
fn vi_command_a_A_i_I_enter_insert() {
    assert_no_syscalls(|| {
        let mut state = ViState::new(0x7f, 0);
        let history: Vec<Box<[u8]>> = vec![];
        feed_bytes(&mut state, b"ab", &history);
        state.process_byte(0x1b, &history);
        state.process_byte(b'0', &history);
        state.process_byte(b'a', &history);
        assert!(state.insert_mode);
        assert_eq!(state.cursor, 1);

        state.process_byte(0x1b, &history);
        state.process_byte(b'A', &history);
        assert!(state.insert_mode);
        assert_eq!(state.cursor, 2);

        state.process_byte(0x1b, &history);
        state.process_byte(b'I', &history);
        assert!(state.insert_mode);
        assert_eq!(state.cursor, 0);

        state.process_byte(0x1b, &history);
        state.process_byte(b'i', &history);
        assert!(state.insert_mode);
    });
}

#[test]
fn vi_command_history_k_j() {
    assert_no_syscalls(|| {
        let history: Vec<Box<[u8]>> =
            vec![b"cmd1"[..].into(), b"cmd2"[..].into()];
        let mut state = ViState::new(0x7f, history.len());
        feed_bytes(&mut state, b"current", &history);
        state.process_byte(0x1b, &history);
        state.process_byte(b'k', &history);
        assert_eq!(state.line, b"cmd2");
        assert_eq!(state.hist_index, Some(1));
        state.process_byte(b'k', &history);
        assert_eq!(state.line, b"cmd1");
        assert_eq!(state.hist_index, Some(0));
        let actions = state.process_byte(b'k', &history);
        assert!(has_bell(&actions));
        state.process_byte(b'j', &history);
        assert_eq!(state.line, b"cmd2");
        state.process_byte(b'j', &history);
        assert_eq!(state.line, b"current");
        assert_eq!(state.hist_index, None);
    });
}

#[test]
fn vi_command_G_goes_to_oldest() {
    assert_no_syscalls(|| {
        let history: Vec<Box<[u8]>> =
            vec![b"oldest"[..].into(), b"newest"[..].into()];
        let mut state = ViState::new(0x7f, history.len());
        feed_bytes(&mut state, b"cur", &history);
        state.process_byte(0x1b, &history);
        state.process_byte(b'G', &history);
        assert_eq!(state.line, b"oldest");
    });
}

#[test]
fn vi_command_hash_comments_out() {
    assert_no_syscalls(|| {
        let mut state = ViState::new(0x7f, 0);
        let history: Vec<Box<[u8]>> = vec![];
        feed_bytes(&mut state, b"echo hello", &history);
        state.process_byte(0x1b, &history);
        let actions = state.process_byte(b'#', &history);
        assert!(has_return(&actions));
        let ret = get_return(&actions).unwrap().unwrap();
        assert!(ret.starts_with(b"#echo hello"));
    });
}

#[test]
fn vi_command_sigint_in_command_mode() {
    assert_no_syscalls(|| {
        let mut state = ViState::new(0x7f, 0);
        let history: Vec<Box<[u8]>> = vec![];
        feed_bytes(&mut state, b"partial", &history);
        state.process_byte(0x1b, &history);
        let actions = state.process_byte(0x03, &history);
        assert_eq!(get_return(&actions), Some(Some(Vec::new())));
    });
}

#[test]
fn vi_command_enter_in_command_mode() {
    assert_no_syscalls(|| {
        let mut state = ViState::new(0x7f, 0);
        let history: Vec<Box<[u8]>> = vec![];
        feed_bytes(&mut state, b"cmd", &history);
        state.process_byte(0x1b, &history);
        let actions = state.process_byte(b'\n', &history);
        assert!(has_return(&actions));
        assert_eq!(
            get_return(&actions),
            Some(Some(b"cmd\n".to_vec()))
        );
    });
}

#[test]
fn vi_command_U_undoes_all() {
    assert_no_syscalls(|| {
        let history: Vec<Box<[u8]>> = vec![b"baseline"[..].into()];
        let mut state = ViState::new(0x7f, history.len());
        feed_bytes(&mut state, b"cur", &history);
        state.process_byte(0x1b, &history);
        state.process_byte(b'k', &history);
        assert_eq!(state.line, b"baseline");
        state.process_byte(b'$', &history);
        state.process_byte(b'x', &history);
        assert_eq!(state.line, b"baselin");
        state.process_byte(b'U', &history);
        assert_eq!(state.line, b"baseline");
    });
}

#[test]
fn vi_command_minus_navigates_history() {
    assert_no_syscalls(|| {
        let history: Vec<Box<[u8]>> = vec![b"hist1"[..].into()];
        let mut state = ViState::new(0x7f, history.len());
        state.process_byte(0x1b, &history);
        state.process_byte(b'-', &history);
        assert_eq!(state.line, b"hist1");
    });
}

#[test]
fn vi_command_plus_navigates_forward() {
    assert_no_syscalls(|| {
        let history: Vec<Box<[u8]>> =
            vec![b"h1"[..].into(), b"h2"[..].into()];
        let mut state = ViState::new(0x7f, history.len());
        state.process_byte(0x1b, &history);
        state.process_byte(b'k', &history);
        state.process_byte(b'+', &history);
        assert_eq!(state.hist_index, None);
    });
}

#[test]
fn vi_command_search_backward() {
    assert_no_syscalls(|| {
        let history: Vec<Box<[u8]>> =
            vec![b"alpha"[..].into(), b"beta"[..].into()];
        let mut state = ViState::new(0x7f, history.len());
        state.process_byte(0x1b, &history);
        feed_bytes(&mut state, b"/alp\n", &history);
        assert_eq!(state.line, b"alpha");
    });
}

#[test]
fn vi_command_search_forward() {
    assert_no_syscalls(|| {
        let history: Vec<Box<[u8]>> =
            vec![b"alpha"[..].into(), b"beta"[..].into()];
        let mut state = ViState::new(0x7f, history.len());
        state.process_byte(0x1b, &history);
        state.process_byte(b'k', &history);
        state.process_byte(b'k', &history);
        feed_bytes(&mut state, b"?beta\n", &history);
        assert_eq!(state.line, b"beta");
    });
}

#[test]
fn vi_command_n_N_repeat_search() {
    assert_no_syscalls(|| {
        let history: Vec<Box<[u8]>> = vec![
            b"alpha1"[..].into(),
            b"beta"[..].into(),
            b"alpha2"[..].into(),
        ];
        let mut state = ViState::new(0x7f, history.len());
        state.process_byte(0x1b, &history);
        feed_bytes(&mut state, b"/alpha\n", &history);
        assert_eq!(state.line, b"alpha2");
        state.process_byte(b'n', &history);
        assert_eq!(state.line, b"alpha1");
        state.process_byte(b'N', &history);
        assert_eq!(state.line, b"alpha2");
    });
}

#[test]
fn vi_command_search_not_found_bells() {
    assert_no_syscalls(|| {
        let history: Vec<Box<[u8]>> = vec![b"alpha"[..].into()];
        let mut state = ViState::new(0x7f, history.len());
        state.process_byte(0x1b, &history);
        let actions = feed_bytes(&mut state, b"/zzz\n", &history);
        assert!(has_bell(&actions));
    });
}

#[test]
fn vi_command_search_backspace() {
    assert_no_syscalls(|| {
        let history: Vec<Box<[u8]>> = vec![b"alpha"[..].into()];
        let mut state = ViState::new(0x7f, history.len());
        state.process_byte(0x1b, &history);
        feed_bytes(&mut state, b"/alphx\x7fa\n", &history);
        assert_eq!(state.line, b"alpha");
    });
}

#[test]
fn vi_command_d_with_invalid_motion_bells() {
    assert_no_syscalls(|| {
        let mut state = ViState::new(0x7f, 0);
        let history: Vec<Box<[u8]>> = vec![];
        feed_bytes(&mut state, b"hello", &history);
        state.process_byte(0x1b, &history);
        let actions = feed_bytes(&mut state, b"dz", &history);
        assert!(has_bell(&actions));
    });
}

#[test]
fn vi_command_unknown_bells() {
    assert_no_syscalls(|| {
        let mut state = ViState::new(0x7f, 0);
        let history: Vec<Box<[u8]>> = vec![];
        feed_bytes(&mut state, b"x", &history);
        state.process_byte(0x1b, &history);
        let actions = state.process_byte(b'Z', &history);
        assert!(has_bell(&actions));
    });
}

#[test]
fn vi_command_count_prefix() {
    assert_no_syscalls(|| {
        let mut state = ViState::new(0x7f, 0);
        let history: Vec<Box<[u8]>> = vec![];
        feed_bytes(&mut state, b"abcde", &history);
        state.process_byte(0x1b, &history);
        state.process_byte(b'0', &history);
        feed_bytes(&mut state, b"3x", &history);
        assert_eq!(state.line, b"de");
    });
}

#[test]
fn vi_command_numbered_G() {
    assert_no_syscalls(|| {
        let history: Vec<Box<[u8]>> =
            vec![b"h0"[..].into(), b"h1"[..].into(), b"h2"[..].into()];
        let mut state = ViState::new(0x7f, history.len());
        state.process_byte(0x1b, &history);
        feed_bytes(&mut state, b"2G", &history);
        assert_eq!(state.line, b"h1");
    });
}

#[test]
fn vi_command_v_returns_run_editor_action() {
    let mut state = ViState::new(0x7f, 0);
    let history: Vec<Box<[u8]>> = vec![];
    state.line = b"hello".to_vec();
    state.cursor = 4;
    state.insert_mode = false;
    let actions = state.process_byte(b'v', &history);
    assert!(
        actions
            .iter()
            .any(|a| matches!(a, ViAction::RunEditor { .. }))
    );
}

#[test]
fn vi_h_at_beginning_bells() {
    assert_no_syscalls(|| {
        let mut state = ViState::new(0x7f, 0);
        let history: Vec<Box<[u8]>> = vec![];
        feed_bytes(&mut state, b"a", &history);
        state.process_byte(0x1b, &history);
        let actions = state.process_byte(b'h', &history);
        assert!(has_bell(&actions));
    });
}

#[test]
fn vi_l_at_end_bells() {
    assert_no_syscalls(|| {
        let mut state = ViState::new(0x7f, 0);
        let history: Vec<Box<[u8]>> = vec![];
        feed_bytes(&mut state, b"a", &history);
        state.process_byte(0x1b, &history);
        let actions = state.process_byte(b'l', &history);
        assert!(has_bell(&actions));
    });
}

#[test]
fn vi_w_at_end_no_move() {
    assert_no_syscalls(|| {
        let mut state = ViState::new(0x7f, 0);
        let history: Vec<Box<[u8]>> = vec![];
        feed_bytes(&mut state, b"abc", &history);
        state.process_byte(0x1b, &history);
        let before = state.cursor;
        let _actions = state.process_byte(b'w', &history);
        assert_eq!(state.cursor, before);
    });
}

#[test]
fn vi_b_at_start_bells() {
    assert_no_syscalls(|| {
        let mut state = ViState::new(0x7f, 0);
        let history: Vec<Box<[u8]>> = vec![];
        feed_bytes(&mut state, b"abc", &history);
        state.process_byte(0x1b, &history);
        state.process_byte(b'0', &history);
        let actions = state.process_byte(b'b', &history);
        assert!(has_bell(&actions));
    });
}

#[test]
fn vi_W_at_end_no_move() {
    assert_no_syscalls(|| {
        let mut state = ViState::new(0x7f, 0);
        let history: Vec<Box<[u8]>> = vec![];
        feed_bytes(&mut state, b"abc", &history);
        state.process_byte(0x1b, &history);
        let before = state.cursor;
        let _actions = state.process_byte(b'W', &history);
        assert_eq!(state.cursor, before);
    });
}

#[test]
fn vi_B_at_start_bells() {
    assert_no_syscalls(|| {
        let mut state = ViState::new(0x7f, 0);
        let history: Vec<Box<[u8]>> = vec![];
        feed_bytes(&mut state, b"abc", &history);
        state.process_byte(0x1b, &history);
        state.process_byte(b'0', &history);
        let actions = state.process_byte(b'B', &history);
        assert!(has_bell(&actions));
    });
}

#[test]
fn vi_find_not_found_bells() {
    assert_no_syscalls(|| {
        let mut state = ViState::new(0x7f, 0);
        let history: Vec<Box<[u8]>> = vec![];
        feed_bytes(&mut state, b"abc", &history);
        state.process_byte(0x1b, &history);
        state.process_byte(b'0', &history);
        let actions = feed_bytes(&mut state, b"fz", &history);
        assert!(has_bell(&actions));
    });
}

#[test]
fn vi_X_at_start_bells() {
    assert_no_syscalls(|| {
        let mut state = ViState::new(0x7f, 0);
        let history: Vec<Box<[u8]>> = vec![];
        feed_bytes(&mut state, b"a", &history);
        state.process_byte(0x1b, &history);
        let actions = state.process_byte(b'X', &history);
        assert!(has_bell(&actions));
    });
}

#[test]
fn vi_j_with_no_history_bells() {
    assert_no_syscalls(|| {
        let history: Vec<Box<[u8]>> = vec![];
        let mut state = ViState::new(0x7f, 0);
        state.process_byte(0x1b, &history);
        let actions = state.process_byte(b'j', &history);
        assert!(has_bell(&actions));
    });
}

#[test]
fn vi_k_with_no_history_bells() {
    assert_no_syscalls(|| {
        let history: Vec<Box<[u8]>> = vec![];
        let mut state = ViState::new(0x7f, 0);
        state.process_byte(0x1b, &history);
        let actions = state.process_byte(b'k', &history);
        assert!(has_bell(&actions));
    });
}

#[test]
fn vi_insert_not_at_end_redraws() {
    assert_no_syscalls(|| {
        let mut state = ViState::new(0x7f, 0);
        let history: Vec<Box<[u8]>> = vec![];
        feed_bytes(&mut state, b"ac", &history);
        state.process_byte(0x1b, &history);
        state.process_byte(b'0', &history);
        state.process_byte(b'l', &history);
        state.process_byte(b'i', &history);
        let actions = state.process_byte(b'b', &history);
        assert_eq!(state.line, b"abc");
        assert!(actions.iter().any(|a| matches!(a, ViAction::Redraw)));
    });
}

#[test]
fn vi_tilde_count_overflow() {
    assert_no_syscalls(|| {
        let mut state = ViState::new(0x7f, 0);
        let history: Vec<Box<[u8]>> = vec![];
        feed_bytes(&mut state, b"aB", &history);
        state.process_byte(0x1b, &history);
        state.process_byte(b'0', &history);
        feed_bytes(&mut state, b"9~", &history);
        assert_eq!(state.line, b"Ab");
    });
}

#[test]
fn vi_count_digits_continuation() {
    assert_no_syscalls(|| {
        let history: Vec<Box<[u8]>> = vec![
            b"one"[..].into(),
            b"two"[..].into(),
            b"three"[..].into(),
        ];
        let mut state = ViState::new(0x7f, history.len());
        feed_bytes(&mut state, b"text", &history);
        state.process_byte(0x1b, &history);
        state.process_byte(b'1', &history);
        state.process_byte(b'2', &history);
        state.process_byte(b'G', &history);
        assert!(!state.line.is_empty());
    });
}

#[test]
fn vi_replace_with_count() {
    assert_no_syscalls(|| {
        let mut state = ViState::new(0x7f, 0);
        let history: Vec<Box<[u8]>> = vec![];
        feed_bytes(&mut state, b"abcdef", &history);
        state.process_byte(0x1b, &history);
        state.process_byte(b'0', &history);
        state.process_byte(b'3', &history);
        state.process_byte(b'r', &history);
        state.process_byte(b'z', &history);
        assert_eq!(&state.line[..3], b"zzz");
    });
}

#[test]
fn vi_replace_mode_esc_adjusts_cursor() {
    assert_no_syscalls(|| {
        let mut state = ViState::new(0x7f, 0);
        let history: Vec<Box<[u8]>> = vec![];
        feed_bytes(&mut state, b"abc", &history);
        state.process_byte(0x1b, &history);
        state.process_byte(b'R', &history);
        state.process_byte(b'z', &history);
        state.process_byte(b'z', &history);
        state.process_byte(b'z', &history);
        state.process_byte(0x1b, &history);
        assert_eq!(state.line, b"abzzz");
        assert_eq!(state.cursor, 4);
    });
}

#[test]
fn vi_replace_mode_past_end() {
    assert_no_syscalls(|| {
        let mut state = ViState::new(0x7f, 0);
        let history: Vec<Box<[u8]>> = vec![];
        feed_bytes(&mut state, b"ab", &history);
        state.process_byte(0x1b, &history);
        state.process_byte(b'R', &history);
        state.process_byte(b'x', &history);
        state.process_byte(b'y', &history);
        state.process_byte(b'z', &history);
        assert_eq!(state.line, b"axyz");
    });
}

#[test]
fn vi_count_zero_normalization() {
    assert_no_syscalls(|| {
        let mut state = ViState::new(0x7f, 0);
        let history: Vec<Box<[u8]>> = vec![];
        feed_bytes(&mut state, b"abc", &history);
        state.process_byte(0x1b, &history);
        state.process_byte(b'i', &history);
        assert!(state.insert_mode);
    });
}

#[test]
fn vi_semicolon_bell_on_not_found() {
    assert_no_syscalls(|| {
        let mut state = ViState::new(0x7f, 0);
        let history: Vec<Box<[u8]>> = vec![];
        feed_bytes(&mut state, b"abcdef", &history);
        state.process_byte(0x1b, &history);
        state.process_byte(b'0', &history);
        state.process_byte(b'f', &history);
        state.process_byte(b'c', &history);
        assert_eq!(state.cursor, 2);
        let actions = state.process_byte(b';', &history);
        assert!(has_bell(&actions));
    });
}

#[test]
fn vi_comma_reverses_find_direction() {
    assert_no_syscalls(|| {
        let mut state = ViState::new(0x7f, 0);
        let history: Vec<Box<[u8]>> = vec![];
        feed_bytes(&mut state, b"abcba", &history);
        state.process_byte(0x1b, &history);
        state.process_byte(b'0', &history);
        state.process_byte(b'f', &history);
        state.process_byte(b'b', &history);
        assert_eq!(state.cursor, 1);
        state.process_byte(b';', &history);
        assert_eq!(state.cursor, 3);
        state.process_byte(b',', &history);
        assert_eq!(state.cursor, 1);
    });
}

#[test]
fn vi_comma_bell_when_not_found() {
    assert_no_syscalls(|| {
        let mut state = ViState::new(0x7f, 0);
        let history: Vec<Box<[u8]>> = vec![];
        feed_bytes(&mut state, b"abcdef", &history);
        state.process_byte(0x1b, &history);
        state.process_byte(b'$', &history);
        state.process_byte(b'F', &history);
        state.process_byte(b'c', &history);
        assert_eq!(state.cursor, 2);
        let actions = state.process_byte(b',', &history);
        assert!(has_bell(&actions));
    });
}

#[test]
fn vi_D_on_empty_line() {
    assert_no_syscalls(|| {
        let mut state = ViState::new(0x7f, 0);
        let history: Vec<Box<[u8]>> = vec![];
        state.process_byte(0x1b, &history);
        let _actions = state.process_byte(b'D', &history);
        assert!(state.line.is_empty());
    });
}

#[test]
fn vi_p_empty_yank_buf() {
    assert_no_syscalls(|| {
        let mut state = ViState::new(0x7f, 0);
        let history: Vec<Box<[u8]>> = vec![];
        feed_bytes(&mut state, b"abc", &history);
        state.process_byte(0x1b, &history);
        let actions = state.process_byte(b'p', &history);
        assert_eq!(state.line, b"abc");
        assert!(!actions.iter().any(|a| matches!(a, ViAction::Redraw)));
    });
}

#[test]
fn vi_P_empty_yank_buf() {
    assert_no_syscalls(|| {
        let mut state = ViState::new(0x7f, 0);
        let history: Vec<Box<[u8]>> = vec![];
        feed_bytes(&mut state, b"abc", &history);
        state.process_byte(0x1b, &history);
        let actions = state.process_byte(b'P', &history);
        assert_eq!(state.line, b"abc");
        assert!(!actions.iter().any(|a| matches!(a, ViAction::Redraw)));
    });
}

#[test]
fn vi_U_without_history_clears_line() {
    assert_no_syscalls(|| {
        let mut state = ViState::new(0x7f, 0);
        let history: Vec<Box<[u8]>> = vec![];
        feed_bytes(&mut state, b"some text", &history);
        state.process_byte(0x1b, &history);
        state.process_byte(b'U', &history);
        assert!(state.line.is_empty());
        assert_eq!(state.cursor, 0);
    });
}

#[test]
fn vi_dot_with_explicit_count() {
    assert_no_syscalls(|| {
        let mut state = ViState::new(0x7f, 0);
        let history: Vec<Box<[u8]>> = vec![];
        feed_bytes(&mut state, b"abcdef", &history);
        state.process_byte(0x1b, &history);
        state.process_byte(b'x', &history);
        state.process_byte(b'2', &history);
        state.process_byte(b'.', &history);
        assert_eq!(state.line.len(), 3);
    });
}

#[test]
fn vi_dot_no_last_cmd() {
    assert_no_syscalls(|| {
        let mut state = ViState::new(0x7f, 0);
        let history: Vec<Box<[u8]>> = vec![];
        feed_bytes(&mut state, b"abc", &history);
        state.process_byte(0x1b, &history);
        let _actions = state.process_byte(b'.', &history);
        assert_eq!(state.line, b"abc");
    });
}

#[test]
fn vi_k_with_empty_history_line() {
    assert_no_syscalls(|| {
        let history: Vec<Box<[u8]>> = vec![b""[..].into()];
        let mut state = ViState::new(0x7f, history.len());
        feed_bytes(&mut state, b"cur", &history);
        state.process_byte(0x1b, &history);
        state.process_byte(b'k', &history);
        assert_eq!(state.cursor, 0);
        assert!(state.line.is_empty());
    });
}

#[test]
fn vi_G_with_explicit_count() {
    assert_no_syscalls(|| {
        let history: Vec<Box<[u8]>> = vec![
            b"first"[..].into(),
            b"second"[..].into(),
            b"third"[..].into(),
        ];
        let mut state = ViState::new(0x7f, history.len());
        feed_bytes(&mut state, b"cur", &history);
        state.process_byte(0x1b, &history);
        state.process_byte(b'2', &history);
        state.process_byte(b'G', &history);
        assert_eq!(state.line, b"second");
    });
}

#[test]
fn vi_G_default_goes_to_oldest() {
    assert_no_syscalls(|| {
        let history: Vec<Box<[u8]>> = vec![
            b"first"[..].into(),
            b"second"[..].into(),
            b"third"[..].into(),
        ];
        let mut state = ViState::new(0x7f, history.len());
        feed_bytes(&mut state, b"cur", &history);
        state.process_byte(0x1b, &history);
        state.process_byte(b'G', &history);
        assert_eq!(state.line, b"first");
        assert_eq!(state.cursor, 4);
    });
}

#[test]
fn vi_G_with_empty_history_line() {
    assert_no_syscalls(|| {
        let history: Vec<Box<[u8]>> = vec![b""[..].into()];
        let mut state = ViState::new(0x7f, history.len());
        feed_bytes(&mut state, b"x", &history);
        state.process_byte(0x1b, &history);
        state.process_byte(b'G', &history);
        assert!(state.line.is_empty());
        assert_eq!(state.cursor, 0);
    });
}

#[test]
fn vi_search_forward_break_and_edit_line() {
    assert_no_syscalls(|| {
        let history: Vec<Box<[u8]>> =
            vec![b"alpha"[..].into(), b"beta"[..].into()];
        let mut state = ViState::new(0x7f, history.len());
        feed_bytes(&mut state, b"cur", &history);
        state.process_byte(0x1b, &history);
        state.process_byte(b'/', &history);
        for &b in b"alpha" {
            state.process_byte(b, &history);
        }
        state.process_byte(b'\r', &history);
        assert_eq!(state.line, b"alpha");
    });
}

#[test]
fn vi_search_backward_not_found_bells() {
    assert_no_syscalls(|| {
        let history: Vec<Box<[u8]>> = vec![b"alpha"[..].into()];
        let mut state = ViState::new(0x7f, history.len());
        feed_bytes(&mut state, b"cur", &history);
        state.process_byte(0x1b, &history);
        state.process_byte(b'k', &history);
        assert_eq!(state.line, b"alpha");
        state.process_byte(b'?', &history);
        for &b in b"nothere" {
            state.process_byte(b, &history);
        }
        let actions = state.process_byte(b'\r', &history);
        assert!(has_bell(&actions));
    });
}

#[test]
fn vi_w_truly_stuck_no_movement() {
    assert_no_syscalls(|| {
        let next = word_forward(b"a", 0);
        assert_eq!(next, 1);
        let clamped = next.min(1usize.saturating_sub(1));
        assert_eq!(clamped, 0);
    });
}

#[test]
fn vi_r_replace_at_end_of_line() {
    assert_no_syscalls(|| {
        let mut state = ViState::new(0x7f, 0);
        let history: Vec<Box<[u8]>> = vec![];
        feed_bytes(&mut state, b"a", &history);
        state.process_byte(0x1b, &history);
        state.process_byte(b'3', &history);
        state.process_byte(b'r', &history);
        state.process_byte(b'z', &history);
        assert_eq!(state.line, b"z");
    });
}

#[test]
fn vi_w_empty_line_truly_stuck() {
    assert_no_syscalls(|| {
        let mut state = ViState::new(0x7f, 0);
        let history: Vec<Box<[u8]>> = vec![];
        state.insert_mode = false;
        let actions = state.process_byte(b'w', &history);
        assert!(has_bell(&actions));
    });
}

#[test]
fn vi_W_empty_line_truly_stuck() {
    assert_no_syscalls(|| {
        let mut state = ViState::new(0x7f, 0);
        let history: Vec<Box<[u8]>> = vec![];
        state.insert_mode = false;
        let actions = state.process_byte(b'W', &history);
        assert!(has_bell(&actions));
    });
}

#[test]
fn vi_comma_with_t_and_T_directions() {
    assert_no_syscalls(|| {
        let mut state = ViState::new(0x7f, 0);
        let history: Vec<Box<[u8]>> = vec![];
        feed_bytes(&mut state, b"abcba", &history);
        state.process_byte(0x1b, &history);
        state.process_byte(b'0', &history);
        state.process_byte(b't', &history);
        state.process_byte(b'b', &history);
        let saved = state.cursor;
        state.process_byte(b',', &history);
        let _ = saved;

        let mut state2 = ViState::new(0x7f, 0);
        feed_bytes(&mut state2, b"abcba", &history);
        state2.process_byte(0x1b, &history);
        state2.process_byte(b'$', &history);
        state2.process_byte(b'T', &history);
        state2.process_byte(b'b', &history);
        state2.process_byte(b',', &history);
    });
}

#[test]
fn vi_tilde_at_end_break() {
    assert_no_syscalls(|| {
        let mut state = ViState::new(0x7f, 0);
        let history: Vec<Box<[u8]>> = vec![];
        feed_bytes(&mut state, b"a", &history);
        state.process_byte(0x1b, &history);
        state.process_byte(b'~', &history);
        assert_eq!(state.line, b"A");
    });
}

#[test]
fn vi_D_on_empty() {
    assert_no_syscalls(|| {
        let mut state = ViState::new(0x7f, 0);
        let history: Vec<Box<[u8]>> = vec![];
        state.insert_mode = false;
        state.process_byte(b'D', &history);
        assert!(state.line.is_empty());
    });
}

#[test]
fn vi_p_P_empty_yank_no_redraw() {
    assert_no_syscalls(|| {
        let mut state = ViState::new(0x7f, 0);
        let history: Vec<Box<[u8]>> = vec![];
        feed_bytes(&mut state, b"x", &history);
        state.process_byte(0x1b, &history);
        let a1 = state.process_byte(b'p', &history);
        assert!(!a1.iter().any(|a| matches!(a, ViAction::Redraw)));
        let a2 = state.process_byte(b'P', &history);
        assert!(!a2.iter().any(|a| matches!(a, ViAction::Redraw)));
    });
}

#[test]
fn vi_search_forward_idx_break() {
    assert_no_syscalls(|| {
        let history: Vec<Box<[u8]>> = vec![b"aaa"[..].into()];
        let mut state = ViState::new(0x7f, history.len());
        feed_bytes(&mut state, b"x", &history);
        state.process_byte(0x1b, &history);
        state.process_byte(b'/', &history);
        for &b in b"aaa" {
            state.process_byte(b, &history);
        }
        state.process_byte(b'\r', &history);
        assert_eq!(state.line, b"aaa");
    });
}

#[test]
fn vi_search_backward_not_found() {
    assert_no_syscalls(|| {
        let history: Vec<Box<[u8]>> = vec![b"aaa"[..].into()];
        let mut state = ViState::new(0x7f, history.len());
        feed_bytes(&mut state, b"x", &history);
        state.process_byte(0x1b, &history);
        state.process_byte(b'k', &history);
        state.process_byte(b'?', &history);
        for &b in b"zzz" {
            state.process_byte(b, &history);
        }
        let actions = state.process_byte(b'\r', &history);
        assert!(has_bell(&actions));
    });
}

#[test]
fn vi_semicolon_with_last_find_on_end() {
    assert_no_syscalls(|| {
        let mut state = ViState::new(0x7f, 0);
        let history: Vec<Box<[u8]>> = vec![];
        feed_bytes(&mut state, b"a", &history);
        state.process_byte(0x1b, &history);
        state.last_find = Some((b'f', b'z'));
        let actions = state.process_byte(b';', &history);
        assert!(has_bell(&actions));
        state.last_find = Some((b'f', b'z'));
        let _actions = state.process_byte(b';', &history);
    });
}

#[test]
fn vi_semicolon_no_last_find() {
    assert_no_syscalls(|| {
        let mut state = ViState::new(0x7f, 0);
        let history: Vec<Box<[u8]>> = vec![];
        feed_bytes(&mut state, b"abc", &history);
        state.process_byte(0x1b, &history);
        let actions = state.process_byte(b';', &history);
        assert!(!has_bell(&actions));
    });
}

#[test]
fn vi_comma_reverse_find() {
    assert_no_syscalls(|| {
        let mut state = ViState::new(0x7f, 0);
        let history: Vec<Box<[u8]>> = vec![];
        feed_bytes(&mut state, b"abcabc", &history);
        state.process_byte(0x1b, &history);
        state.process_byte(b'0', &history);
        feed_bytes(&mut state, b"fb", &history);
        assert_eq!(state.cursor, 1);
        state.process_byte(b';', &history);
        assert_eq!(state.cursor, 4);
        state.process_byte(b',', &history);
        assert_eq!(state.cursor, 1);
    });
}

#[test]
fn vi_comma_no_last_find() {
    assert_no_syscalls(|| {
        let mut state = ViState::new(0x7f, 0);
        let history: Vec<Box<[u8]>> = vec![];
        feed_bytes(&mut state, b"abc", &history);
        state.process_byte(0x1b, &history);
        let actions = state.process_byte(b',', &history);
        assert!(!has_bell(&actions));
    });
}

#[test]
fn vi_comma_with_invalid_last_find_cmd() {
    assert_no_syscalls(|| {
        let mut state = ViState::new(0x7f, 0);
        let history: Vec<Box<[u8]>> = vec![];
        feed_bytes(&mut state, b"abc", &history);
        state.process_byte(0x1b, &history);
        state.last_find = Some((b'z', b'a'));
        let actions = state.process_byte(b',', &history);
        assert!(has_bell(&actions));
    });
}

#[test]
fn vi_replace_char_past_end() {
    assert_no_syscalls(|| {
        let mut state = ViState::new(0x7f, 0);
        let history: Vec<Box<[u8]>> = vec![];
        state.process_byte(0x1b, &history);
        feed_bytes(&mut state, b"rZ", &history);
        assert_eq!(state.line, b"");
    });
}

#[test]
fn vi_tilde_on_empty_line() {
    assert_no_syscalls(|| {
        let mut state = ViState::new(0x7f, 0);
        let history: Vec<Box<[u8]>> = vec![];
        state.process_byte(0x1b, &history);
        state.process_byte(b'~', &history);
        assert!(state.line.is_empty());
    });
}

#[test]
fn vi_x_past_end() {
    assert_no_syscalls(|| {
        let mut state = ViState::new(0x7f, 0);
        let history: Vec<Box<[u8]>> = vec![];
        state.process_byte(0x1b, &history);
        state.process_byte(b'x', &history);
        assert!(state.line.is_empty());
    });
}

#[test]
fn vi_G_with_count() {
    assert_no_syscalls(|| {
        let history: Vec<Box<[u8]>> = vec![
            b"first"[..].into(),
            b"second"[..].into(),
            b"third"[..].into(),
        ];
        let mut state = ViState::new(0x7f, history.len());
        feed_bytes(&mut state, b"current", &history);
        state.process_byte(0x1b, &history);
        feed_bytes(&mut state, b"2G", &history);
        assert_eq!(state.line, b"second");
        assert!(state.hist_index.is_some());
    });
}

#[test]
#[allow(non_snake_case)]
fn vi_G_with_count_no_history() {
    assert_no_syscalls(|| {
        let history: Vec<Box<[u8]>> = vec![];
        let mut state = ViState::new(0x7f, history.len());
        feed_bytes(&mut state, b"text", &history);
        state.process_byte(0x1b, &history);
        feed_bytes(&mut state, b"2G", &history);
        assert_eq!(state.line, b"text");
        assert!(state.hist_index.is_none());
    });
}

#[test]
fn vi_G_without_count_no_history() {
    assert_no_syscalls(|| {
        let history: Vec<Box<[u8]>> = vec![];
        let mut state = ViState::new(0x7f, history.len());
        feed_bytes(&mut state, b"text", &history);
        state.process_byte(0x1b, &history);
        state.process_byte(b'G', &history);
        assert_eq!(state.line, b"text");
    });
}

#[test]
fn vi_G_without_count_with_history() {
    assert_no_syscalls(|| {
        let history: Vec<Box<[u8]>> =
            vec![b"oldest"[..].into(), b"newest"[..].into()];
        let mut state = ViState::new(0x7f, history.len());
        feed_bytes(&mut state, b"text", &history);
        state.process_byte(0x1b, &history);
        state.process_byte(b'G', &history);
        assert_eq!(state.line, b"oldest");
    });
}

#[test]
fn vi_search_forward_finds_match() {
    assert_no_syscalls(|| {
        let history: Vec<Box<[u8]>> = vec![
            b"echo hello"[..].into(),
            b"ls -la"[..].into(),
            b"echo world"[..].into(),
        ];
        let mut state = ViState::new(0x7f, history.len());
        feed_bytes(&mut state, b"x", &history);
        state.process_byte(0x1b, &history);
        state.process_byte(b'/', &history);
        for &b in b"echo" {
            state.process_byte(b, &history);
        }
        state.process_byte(b'\r', &history);
        assert!(state.hist_index.is_some());
        let idx = state.hist_index.unwrap();
        assert!(history[idx].windows(4).any(|w| w == b"echo"));
    });
}

#[test]
fn vi_search_forward_not_found() {
    assert_no_syscalls(|| {
        let history: Vec<Box<[u8]>> =
            vec![b"aaa"[..].into(), b"bbb"[..].into()];
        let mut state = ViState::new(0x7f, history.len());
        feed_bytes(&mut state, b"x", &history);
        state.process_byte(0x1b, &history);
        state.process_byte(b'/', &history);
        for &b in b"zzz" {
            state.process_byte(b, &history);
        }
        let actions = state.process_byte(b'\r', &history);
        assert!(has_bell(&actions));
    });
}

#[test]
fn vi_search_forward_idx_wraps() {
    assert_no_syscalls(|| {
        let history: Vec<Box<[u8]>> =
            vec![b"alpha"[..].into(), b"beta"[..].into()];
        let mut state = ViState::new(0x7f, history.len());
        feed_bytes(&mut state, b"x", &history);
        state.process_byte(0x1b, &history);
        state.process_byte(b'k', &history);
        state.process_byte(b'/', &history);
        for &b in b"alpha" {
            state.process_byte(b, &history);
        }
        state.process_byte(b'\r', &history);
        assert_eq!(state.hist_index, Some(0));
    });
}

#[test]
fn vi_search_backward_finds_match() {
    assert_no_syscalls(|| {
        let history: Vec<Box<[u8]>> = vec![
            b"echo hello"[..].into(),
            b"ls -la"[..].into(),
            b"echo world"[..].into(),
        ];
        let mut state = ViState::new(0x7f, history.len());
        feed_bytes(&mut state, b"x", &history);
        state.process_byte(0x1b, &history);
        state.process_byte(b'?', &history);
        for &b in b"echo" {
            state.process_byte(b, &history);
        }
        state.process_byte(b'\r', &history);
        assert!(state.hist_index.is_some());
        let idx = state.hist_index.unwrap();
        assert!(history[idx].windows(4).any(|w| w == b"echo"));
    });
}

#[test]
fn vi_search_default_direction_noop() {
    assert_no_syscalls(|| {
        let history: Vec<Box<[u8]>> = vec![b"aaa"[..].into()];
        let mut state = ViState::new(0x7f, history.len());
        feed_bytes(&mut state, b"x", &history);
        state.process_byte(0x1b, &history);
        let mut actions = Vec::new();
        state.do_search(b'x', &history, &mut actions);
        assert!(actions.is_empty());
    });
}

#[test]
fn vi_process_motion_unknown_op_noop() {
    assert_no_syscalls(|| {
        let history: Vec<Box<[u8]>> = vec![];
        let mut state = ViState::new(0x7f, history.len());
        feed_bytes(&mut state, b"abc", &history);
        state.process_byte(0x1b, &history);
        state.pending = PendingInput::Motion { op: b'z', count: 1 };
        let actions = state.process_byte(b'w', &history);
        assert_eq!(state.line, b"abc");
        assert!(actions.is_empty() || !has_bell(&actions));
    });
}

#[test]
fn vi_star_glob_nomatch_leaves_line() {
    assert_no_syscalls(|| {
        let mut state = ViState::new(0x7f, 0);
        let history: Vec<Box<[u8]>> = vec![];
        let word = b"/no_such_dir_xyzzy/";
        state.line = word.to_vec();
        state.cursor = state.line.len().saturating_sub(1);
        state.insert_mode = false;
        state.process_byte(b'*', &history);
        assert_eq!(state.line, word);
    });
}

#[test]
fn vi_search_forward_from_oldest_wraps() {
    assert_no_syscalls(|| {
        let history: Vec<Box<[u8]>> =
            vec![b"alpha"[..].into(), b"beta"[..].into()];
        let mut state = ViState::new(0x7f, history.len());
        feed_bytes(&mut state, b"x", &history);
        state.process_byte(0x1b, &history);
        state.process_byte(b'k', &history);
        state.process_byte(b'k', &history);
        assert_eq!(state.hist_index, Some(0));
        state.process_byte(b'/', &history);
        for &b in b"zzz" {
            state.process_byte(b, &history);
        }
        let actions = state.process_byte(b'\r', &history);
        assert!(has_bell(&actions));
    });
}

#[test]
fn vi_search_forward_edit_line_save() {
    assert_no_syscalls(|| {
        let history: Vec<Box<[u8]>> = vec![
            b"found"[..].into(),
            b"skip"[..].into(),
            b"also_skip"[..].into(),
        ];
        let mut state = ViState::new(0x7f, history.len());
        feed_bytes(&mut state, b"unsaved", &history);
        state.process_byte(0x1b, &history);
        state.process_byte(b'/', &history);
        for &b in b"found" {
            state.process_byte(b, &history);
        }
        state.process_byte(b'\r', &history);
        assert_eq!(state.hist_index, Some(0));
        assert_eq!(state.line, b"found");
    });
}

#[test]
fn vi_backslash_glob_nomatch_no_change() {
    assert_no_syscalls(|| {
        let mut state = ViState::new(0x7f, 0);
        let history: Vec<Box<[u8]>> = vec![];
        let word = b"/no_such_dir_xyzzy/nomatch";
        state.line = word.to_vec();
        state.cursor = state.line.len().saturating_sub(1);
        state.insert_mode = false;
        state.process_byte(b'\\', &history);
        assert_eq!(state.line, word);
    });
}

#[test]
fn word_backward_skips_punctuation_class() {
    assert_no_syscalls(|| {
        assert_eq!(word_backward(b"abc...", 5), 3);
        assert_eq!(word_backward(b"   ", 2), 0);
    });
}

#[test]
fn word_end_punctuation_class() {
    assert_no_syscalls(|| {
        assert_eq!(word_end(b"abc...xyz", 0), 2);
        assert_eq!(word_end(b"abc...xyz", 3), 5);
        assert_eq!(word_end(b"a  ", 0), 2);
    });
}

#[test]
fn bigword_end_at_end() {
    assert_no_syscalls(|| {
        assert_eq!(bigword_end(b"abc", 2), 2);
        assert_eq!(bigword_end(b"a  ", 0), 2);
    });
}

#[test]
fn replay_cmd_x_cursor_adjusts() {
    assert_no_syscalls(|| {
        let mut line = b"ab".to_vec();
        let mut cursor = 1usize;
        let mut yank = vec![];
        replay_cmd(&mut line, &mut cursor, &mut yank, b'x', 2, None);
        assert_eq!(line, b"");
        assert_eq!(cursor, 0);
    });
}

#[test]
fn replay_cmd_r_with_count() {
    assert_no_syscalls(|| {
        let mut line = b"abcdef".to_vec();
        let mut cursor = 0usize;
        let mut yank = vec![];
        replay_cmd(&mut line, &mut cursor, &mut yank, b'r', 3, Some(b'z'));
        assert_eq!(&line[..3], b"zzz");
    });
}

#[test]
fn replay_cmd_d_and_c_with_motion() {
    assert_no_syscalls(|| {
        let mut line = b"hello world".to_vec();
        let mut cursor = 0usize;
        let mut yank = vec![];
        replay_cmd(&mut line, &mut cursor, &mut yank, b'd', 1, Some(b'w'));
        assert_eq!(line, b"world");

        let mut line2 = b"hello world".to_vec();
        let mut cursor2 = 0usize;
        let mut yank2 = vec![];
        replay_cmd(&mut line2, &mut cursor2, &mut yank2, b'c', 1, Some(b'w'));
        assert_eq!(line2, b"world");
    });
}

#[test]
fn replay_cmd_r_past_end() {
    assert_no_syscalls(|| {
        let mut line = b"a".to_vec();
        let mut cursor = 0usize;
        let mut yank = vec![];
        replay_cmd(&mut line, &mut cursor, &mut yank, b'r', 5, Some(b'z'));
        assert_eq!(line, b"z");
    });
}

#[test]
fn replay_cmd_d_with_dd() {
    assert_no_syscalls(|| {
        let mut line = b"hello".to_vec();
        let mut cursor = 0usize;
        let mut yank = vec![];
        replay_cmd(&mut line, &mut cursor, &mut yank, b'd', 1, Some(b'd'));
        assert!(line.is_empty());
        assert_eq!(cursor, 0);
    });
}

#[test]
fn replay_cmd_c_with_cc() {
    assert_no_syscalls(|| {
        let mut line = b"hello".to_vec();
        let mut cursor = 0usize;
        let mut yank = vec![];
        replay_cmd(&mut line, &mut cursor, &mut yank, b'c', 1, Some(b'c'));
        assert!(line.is_empty());
        assert_eq!(cursor, 0);
    });
}

#[test]
fn replay_cmd_r_no_arg() {
    assert_no_syscalls(|| {
        let mut line = b"abc".to_vec();
        let mut cursor = 0usize;
        let mut yank = vec![];
        replay_cmd(&mut line, &mut cursor, &mut yank, b'r', 1, None);
        assert_eq!(line, b"abc");
    });
}

#[test]
fn replay_cmd_r_cursor_past_end() {
    assert_no_syscalls(|| {
        let mut line = vec![];
        let mut cursor = 0usize;
        let mut yank = vec![];
        replay_cmd(&mut line, &mut cursor, &mut yank, b'r', 1, Some(b'z'));
        assert!(line.is_empty());
    });
}

#[test]
fn replay_cmd_d_no_arg() {
    assert_no_syscalls(|| {
        let mut line = b"hello".to_vec();
        let mut cursor = 0usize;
        let mut yank = vec![];
        replay_cmd(&mut line, &mut cursor, &mut yank, b'd', 1, None);
        assert_eq!(line, b"hello");
    });
}

#[test]
fn replay_cmd_c_no_arg() {
    assert_no_syscalls(|| {
        let mut line = b"hello".to_vec();
        let mut cursor = 0usize;
        let mut yank = vec![];
        replay_cmd(&mut line, &mut cursor, &mut yank, b'c', 1, None);
        assert_eq!(line, b"hello");
    });
}

#[test]
fn replay_cmd_d_with_motion() {
    assert_no_syscalls(|| {
        let mut line = b"hello world".to_vec();
        let mut cursor = 0usize;
        let mut yank = vec![];
        replay_cmd(&mut line, &mut cursor, &mut yank, b'd', 1, Some(b'w'));
        assert_eq!(line, b"world");
        assert_eq!(yank, b"hello ");
    });
}

#[test]
fn replay_cmd_c_with_motion() {
    assert_no_syscalls(|| {
        let mut line = b"hello world".to_vec();
        let mut cursor = 0usize;
        let mut yank = vec![];
        replay_cmd(&mut line, &mut cursor, &mut yank, b'c', 1, Some(b'w'));
        assert_eq!(line, b"world");
        assert_eq!(yank, b"hello ");
    });
}

#[test]
fn append_history_writes_to_histfile() {
    let path = history_path(Some(b"/tmp/history.txt".to_vec()), None);
    assert_eq!(path, b"/tmp/history.txt".to_vec());
    assert_eq!(history_entry(b"echo hi\n"), b"echo hi\n".to_vec());
}

#[test]
fn append_history_uses_default_path_when_histfile_unset() {
    let path = history_path(None, Some(b"/home/user".to_vec()));
    assert_eq!(path, b"/home/user/.sh_history".to_vec());
    assert_eq!(history_entry(b"echo default\n"), b"echo default\n".to_vec());
}

#[test]
fn env_file_path_keeps_only_absolute_names() {
    assert_eq!(env_file_path(b"relative.sh".to_vec()), None);
    assert_eq!(env_file_path(b"/tmp/env.sh".to_vec()), Some(b"/tmp/env.sh".to_vec()));
    assert_eq!(env_file_path(Vec::new()), None);
}
