use std::collections::HashMap;
use std::hash::Hasher;

use meiksh::arith::{eval_arithmetic, variable_number};
use meiksh::bytes::{i64_to_bytes, parse_i64};
use meiksh::context::{Context, ExpandError, Word};
use meiksh::expand::{
    globbed_fields, ifs_or_default, star_separator, expand_assignment_value, expand_braced_parameter, expand_braced_parameter_text, expand_dollar, expand_here_document, expand_parameter_text, expand_word,
};
use meiksh::glob::pattern_matches;
use meiksh::params::{braced_action, unset_parameter, BracedAction};
use meiksh::pathname::{path_join, sort_bytes};
use meiksh::scan::{scan_arithmetic_expansion, scan_command_substitution, split_on_unquoted_colons};
use meiksh::segments::{
    remove_parameter_pattern, render_pattern_from_segments, split_fields_from_segments, Expansion,
    PatternRemoval, QuoteState, Segment,
};

struct TestShell {
    vars: HashMap<Vec<u8>, Vec<u8>>,
}

impl TestShell {
    fn new() -> Self {
        let mut vars = HashMap::new();
        vars.insert(b"N".to_vec(), b"5".to_vec());
        Self { vars }
    }
}

impl Context for TestShell {
    fn env_var(&self, name: &[u8]) -> Option<Vec<u8>> {
        self.vars.get(name).cloned()
    }

    fn special_param(&self, _name: u8) -> Option<Vec<u8>> {
        None
    }

    fn positional_param(&self, index: usize) -> Option<Vec<u8>> {
        if index == 0 {
            Some(b"meiksh".to_vec())
        } else {
            None
        }
    }

    fn positional_params(&self) -> Vec<Vec<u8>> {
        Vec::new()
    }

    fn set_var(&mut self, name: &[u8], value: Vec<u8>) -> Result<(), ExpandError> {
        self.vars.insert(name.to_vec(), value);
        Ok(())
    }

    fn nounset_enabled(&self) -> bool {
        false
    }

    fn shell_name(&self) -> Vec<u8> {
        b"meiksh".to_vec()
    }

    fn command_substitute(&mut self, _command: &[u8]) -> Result<Vec<u8>, ExpandError> {
        Ok(Vec::new())
    }

    fn home_dir_for_user(&self, _name: &[u8]) -> Option<Vec<u8>> {
        None
    }

    fn file_exists(&self, _path: &[u8]) -> bool {
        false
    }

    fn read_dir_entries(&self, _path: &[u8]) -> Option<Vec<Vec<u8>>> {
        None
    }
}

fn word(raw: &[u8]) -> Word {
    Word { raw: raw.to_vec(), line: 1 }
}

fn eval(text: &[u8]) -> Result<i64, Vec<u8>> {
    let mut shell = TestShell::new();
    eval_arithmetic(&mut shell, text).map_err(|e| e.message)
}

#[test]
fn integer_text_reads_back() {
    for v in [0i64, 7, -42, 1_000_000_007, i64::MIN, i64::MAX] {
        let text = i64_to_bytes(v);
        assert_eq!(parse_i64(&text), Some(v));
    }
    assert_eq!(i64_to_bytes(-305), b"-305".to_vec());
}

#[test]
fn single_quoted_word_keeps_its_text_as_one_field() {
    let mut shell = TestShell::new();
    assert_eq!(expand_word(&mut shell, &word(b"'a  b*c'")).unwrap(), vec![b"a  b*c".to_vec()]);
    assert_eq!(expand_word(&mut shell, &word(b"''")).unwrap(), vec![Vec::<u8>::new()]);
}

#[test]
fn backslash_quotes_the_next_byte() {
    let mut shell = TestShell::new();
    assert_eq!(expand_word(&mut shell, &word(b"\\*")).unwrap(), vec![b"*".to_vec()]);
    assert_eq!(expand_word(&mut shell, &word(b"\\ ")).unwrap(), vec![b" ".to_vec()]);
}

#[test]
fn quoted_word_pattern_matches_only_its_text() {
    let pattern = render_pattern_from_segments(&[Segment::Text(b"a*[b]?".to_vec(), QuoteState::Quoted)]);
    assert!(pattern_matches(b"a*[b]?", &pattern));
    assert!(!pattern_matches(b"axxbz", &pattern));
    assert!(!pattern_matches(b"a*[b]", &pattern));
}

#[test]
fn star_matches_every_string() {
    for text in [&b""[..], b"x", b"a long string with * and ?", b"\xff\x00"] {
        assert!(pattern_matches(text, b"*"));
    }
}

#[test]
fn plain_pattern_matches_only_itself() {
    assert!(pattern_matches(b"abc", b"abc"));
    assert!(!pattern_matches(b"abd", b"abc"));
    assert!(!pattern_matches(b"abcd", b"abc"));
    assert!(!pattern_matches(b"", b"abc"));
}

#[test]
fn defaults_leave_a_set_value_alone() {
    for op in [&b":-"[..], b"-", b":=", b"=", b":?", b"?"] {
        assert_eq!(braced_action(op, true, false), BracedAction::Value);
    }
}

#[test]
fn colon_makes_empty_count_as_unset() {
    assert_eq!(braced_action(b":-", true, true), BracedAction::Word);
    assert_eq!(braced_action(b":-", false, false), BracedAction::Word);
    assert_eq!(braced_action(b"-", true, true), BracedAction::Value);
    assert_eq!(braced_action(b":+", true, true), BracedAction::Empty);
    assert_eq!(braced_action(b"+", true, true), BracedAction::Word);
    assert_eq!(braced_action(b":?", true, true), BracedAction::Fail { null: true });
    assert_eq!(braced_action(b"?", false, false), BracedAction::Fail { null: false });
    assert_eq!(braced_action(b"##", true, false), BracedAction::Remove(PatternRemoval::LargestPrefix));
    assert_eq!(braced_action(b"!", true, false), BracedAction::Unsupported);
}

#[test]
fn colon_parts_rejoin_to_the_value() {
    for raw in [&b"a:b:c"[..], b"${x:-y}:~/bin", b"::", b"", b"$(a:b):c"] {
        let parts = split_on_unquoted_colons(raw);
        assert_eq!(parts.join(&b':'), raw.to_vec());
    }
    assert_eq!(split_on_unquoted_colons(b"${x:-y}:z").len(), 2);
}

#[test]
fn largest_removal_removes_at_least_as_much() {
    let value = b"aXbXc".to_vec();
    let cases = [
        (PatternRemoval::SmallestPrefix, &b"bXc"[..]),
        (PatternRemoval::LargestPrefix, b"c"),
    ];
    for (mode, expected) in cases {
        assert_eq!(remove_parameter_pattern(value.clone(), b"*X", mode).unwrap(), expected.to_vec());
    }
    assert_eq!(remove_parameter_pattern(value.clone(), b"X*", PatternRemoval::SmallestSuffix).unwrap(), b"aXb".to_vec());
    assert_eq!(remove_parameter_pattern(value, b"X*", PatternRemoval::LargestSuffix).unwrap(), b"a".to_vec());
}

#[test]
fn text_from_the_word_itself_is_not_split() {
    let segments = [
        Segment::Text(b"a b".to_vec(), QuoteState::Literal),
        Segment::Text(b" c\t".to_vec(), QuoteState::Quoted),
    ];
    let fields = split_fields_from_segments(&segments, b" \t\n");
    assert_eq!(fields.len(), 1);
    assert_eq!(fields[0].text, b"a b c\t".to_vec());
    let expanded = [Segment::Text(b"a b".to_vec(), QuoteState::Expanded)];
    assert_eq!(split_fields_from_segments(&expanded, b" ").len(), 2);
}

#[test]
fn a_lone_number_evaluates_to_itself() {
    assert_eq!(eval(b"  42  "), Ok(42));
    assert_eq!(eval(b"0x1F"), Ok(31));
    assert_eq!(eval(b"017"), Ok(15));
    assert_eq!(eval(b"0"), Ok(0));
}

#[test]
fn arithmetic_operators_and_precedence() {
    assert_eq!(eval(b"1 + 2 * 3"), Ok(7));
    assert_eq!(eval(b"(1 + 2) * 3"), Ok(9));
    assert_eq!(eval(b"7 / 2"), Ok(3));
    assert_eq!(eval(b"-7 % 3"), Ok(-1));
    assert_eq!(eval(b"1 << 3 | 1"), Ok(9));
    assert_eq!(eval(b"5 > 3 && 2"), Ok(1));
    assert_eq!(eval(b"0 || 0"), Ok(0));
    assert_eq!(eval(b"6 & 3 ^ 1"), Ok(3));
    assert_eq!(eval(b"3 <= 3 == 1"), Ok(1));
    assert_eq!(eval(b"0 ? 1 : 2"), Ok(2));
    assert_eq!(eval(b"~0"), Ok(-1));
    assert_eq!(eval(b"!5"), Ok(0));
    assert_eq!(eval(b"9223372036854775807 + 1"), Ok(i64::MIN));
    assert_eq!(eval(b"(-9223372036854775807 - 1) / -1"), Ok(i64::MIN));
    assert_eq!(eval(b"(-9223372036854775807 - 1) % -1"), Ok(0));
    assert_eq!(eval(b"N * 2"), Ok(10));
}

#[test]
fn arithmetic_errors_carry_their_messages() {
    assert_eq!(eval(b"1 / 0"), Err(b"division by zero".to_vec()));
    assert_eq!(eval(b"1 ? 1 / 0 : 2"), Err(b"division by zero".to_vec()));
    assert_eq!(eval(b"(1"), Err(b"missing ')'".to_vec()));
    assert_eq!(eval(b"1 2"), Err(b"unexpected trailing arithmetic tokens".to_vec()));
    assert_eq!(eval(b"1 ? 2"), Err(b"expected ':' in ternary expression".to_vec()));
    assert_eq!(eval(b"0x"), Err(b"invalid hex constant".to_vec()));
    assert_eq!(eval(b"09"), Err(b"invalid octal constant".to_vec()));
    assert_eq!(eval(b""), Err(b"expected arithmetic operand".to_vec()));
    assert_eq!(eval(b"99999999999999999999"), Err(b"invalid arithmetic operand".to_vec()));
}

#[test]
fn sorting_orders_bytewise_and_keeps_every_item() {
    let items = vec![b"b".to_vec(), b"a".to_vec(), b"ab".to_vec(), b"B".to_vec(), b"a".to_vec()];
    let sorted = sort_bytes(items);
    assert_eq!(
        sorted,
        vec![b"B".to_vec(), b"a".to_vec(), b"a".to_vec(), b"ab".to_vec(), b"b".to_vec()]
    );
}

#[test]
fn path_join_puts_one_slash_between() {
    assert_eq!(path_join(b"/usr", b"bin"), b"/usr/bin".to_vec());
    assert_eq!(path_join(b"/", b"bin"), b"/bin".to_vec());
    assert_eq!(path_join(b"", b"bin"), b"bin".to_vec());
}

fn editor_with(line: &[u8], cursor: usize) -> meiksh::vi::ViState {
    let mut state = meiksh::vi::ViState::new(0x7f, 0);
    state.line = line.to_vec();
    state.cursor = cursor;
    state.insert_mode = false;
    state
}

#[test]
fn motions_leave_the_line_alone() {
    let history: Vec<Box<[u8]>> = vec![];
    for key in [b'h', b'l', b'0', b'$', b'^', b'w', b'W', b'b', b'B', b'e', b'E', b'|'] {
        let mut state = editor_with(b"one two.three", 5);
        state.process_byte(key, &history);
        assert_eq!(state.line, b"one two.three".to_vec());
    }
}

#[test]
fn undo_twice_restores_the_line() {
    let history: Vec<Box<[u8]>> = vec![];
    let mut state = editor_with(b"abc", 1);
    state.edit_line = b"saved".to_vec();
    state.process_byte(b'u', &history);
    assert_eq!(state.line, b"saved".to_vec());
    state.process_byte(b'u', &history);
    assert_eq!(state.line, b"abc".to_vec());
    assert_eq!(state.edit_line, b"saved".to_vec());
}

#[test]
fn delete_then_put_restores_the_line() {
    let history: Vec<Box<[u8]>> = vec![];
    let mut state = editor_with(b"abcd", 1);
    state.process_byte(b'x', &history);
    assert_eq!(state.line, b"acd".to_vec());
    state.process_byte(b'P', &history);
    assert_eq!(state.line, b"abcd".to_vec());
}

#[test]
fn delete_line_then_put_restores_the_line() {
    let history: Vec<Box<[u8]>> = vec![];
    let mut state = editor_with(b"echo hi", 3);
    state.process_byte(b'd', &history);
    state.process_byte(b'd', &history);
    assert!(state.line.is_empty());
    state.process_byte(b'P', &history);
    assert_eq!(state.line, b"echo hi".to_vec());
}

#[test]
fn erase_undoes_typing() {
    let history: Vec<Box<[u8]>> = vec![];
    let mut state = meiksh::vi::ViState::new(0x08, 0);
    state.line = b"ac".to_vec();
    state.cursor = 1;
    state.process_byte(b'b', &history);
    assert_eq!(state.line, b"abc".to_vec());
    state.process_byte(0x7f, &history);
    assert_eq!(state.line, b"ac".to_vec());
    assert_eq!(state.cursor, 1);
}

#[test]
fn enter_returns_the_line_with_a_newline() {
    let history: Vec<Box<[u8]>> = vec![];
    let mut state = meiksh::vi::ViState::new(0x7f, 0);
    for &b in b"ls -l" {
        state.process_byte(b, &history);
    }
    let actions = state.process_byte(b'\r', &history);
    assert_eq!(
        actions,
        vec![
            meiksh::vi::ViAction::WriteBytes(vec![b'\r', b'\n']),
            meiksh::vi::ViAction::Return(Some(b"ls -l\n".to_vec())),
        ]
    );
}

#[test]
fn arithmetic_expansion_gives_the_decimal_value() {
    let mut shell = TestShell::new();
    let (expansion, used) = expand_dollar(&mut shell, b"$((2 * 21))rest", false).unwrap();
    assert_eq!(expansion, Expansion::One(b"42".to_vec()));
    assert_eq!(used, 11);
    let (expansion, used) = expand_dollar(&mut shell, b"$(( (1 + 2) * -(3) ))", true).unwrap();
    assert_eq!(expansion, Expansion::One(b"-9".to_vec()));
    assert_eq!(used, 21);
    let message = |r: Result<(Expansion, usize), ExpandError>| r.unwrap_err().message;
    assert_eq!(message(expand_dollar(&mut shell, b"$((1 + 2)", false)), b"unterminated arithmetic expansion".to_vec());
    assert_eq!(message(expand_dollar(&mut shell, b"$((1 / 0))", false)), b"division by zero".to_vec());
    assert_eq!(message(expand_dollar(&mut shell, b"$(echo hi", false)), b"unterminated command substitution".to_vec());
}

#[test]
fn braced_expansion_errors_decided_by_the_text() {
    let mut shell = TestShell::new();
    let cases: [(&[u8], &[u8]); 3] = [
        (b"", b"empty parameter expansion"),
        (b"%x", b"invalid parameter expansion"),
        (b"N!x", b"unsupported parameter expansion"),
    ];
    for (body, expected) in cases {
        assert_eq!(expand_braced_parameter(&mut shell, body, false).unwrap_err().message, expected.to_vec());
        assert_eq!(expand_braced_parameter_text(&mut shell, body).unwrap_err().message, expected.to_vec());
    }
}

#[test]
fn assignment_value_keeps_colons_and_removes_quotes() {
    let mut shell = TestShell::new();
    let value = expand_assignment_value(&mut shell, &word(b"'/a b':\\x:\"c\"")).unwrap();
    assert_eq!(value, b"/a b:x:c".to_vec());
    assert!(expand_assignment_value(&mut shell, &word(b"a:'b")).is_err());
}

#[test]
fn trailing_zero_bytes_change_the_hash() {
    let hash = |key: &[u8]| {
        let mut h = meiksh::hash::ShellHasher::new();
        h.write(key);
        h.finish()
    };
    assert_ne!(hash(b"PATH"), hash(b"PATH\0"));
    assert_ne!(hash(b"PATH\0"), hash(b"PATH\0\0"));
    assert_eq!(hash(b"PATH"), hash(b"PATH"));
}

#[test]
fn substitution_scanners_find_the_closing_parentheses() {
    let (text, end) = scan_arithmetic_expansion(b"$((1 + (2 * 3)))x").unwrap();
    assert_eq!(text, b"1 + (2 * 3)");
    assert_eq!(end, 16);
    assert_eq!(scan_arithmetic_expansion(b"$((1 + 2)").unwrap_err().message, b"unterminated arithmetic expansion".to_vec());
    let (command, end) = scan_command_substitution(b"$(echo (a) b) tail").unwrap();
    assert_eq!(command, b"echo (a) b");
    assert_eq!(end, 13);
    assert_eq!(scan_command_substitution(b"$(echo").unwrap_err().message, b"unterminated command substitution".to_vec());
}

#[test]
fn unset_parameters_under_set_u() {
    assert_eq!(unset_parameter(b"X", false).unwrap(), Vec::<u8>::new());
    assert_eq!(unset_parameter(b"X", true).unwrap_err().message, b"X: parameter not set".to_vec());
    assert_eq!(unset_parameter(b"@", true).unwrap(), Vec::<u8>::new());
    assert_eq!(unset_parameter(b"*", true).unwrap(), Vec::<u8>::new());
}

#[test]
fn variables_in_arithmetic() {
    assert_eq!(variable_number(b"n", None, false), Ok(0));
    assert_eq!(variable_number(b"n", None, true), Err(b"n: parameter not set".to_vec()));
    assert_eq!(variable_number(b"n", Some(b" 42 ".to_vec()), true), Ok(42));
    assert_eq!(variable_number(b"n", Some(b"".to_vec()), false), Ok(0));
    assert_eq!(variable_number(b"n", Some(b"0x10".to_vec()), false), Ok(16));
    assert_eq!(variable_number(b"n", Some(b"abc".to_vec()), false), Err(b"invalid variable value for 'n'".to_vec()));
}

#[test]
fn shell_answers_turned_into_separators_and_fields() {
    assert_eq!(star_separator(None), b" ".to_vec());
    assert_eq!(star_separator(Some(Vec::new())), Vec::<u8>::new());
    assert_eq!(star_separator(Some(b":x".to_vec())), b":".to_vec());
    assert_eq!(ifs_or_default(None), b" \t\n".to_vec());
    assert_eq!(ifs_or_default(Some(b",".to_vec())), b",".to_vec());
    assert_eq!(globbed_fields(b"*.none", Vec::new()), vec![b"*.none".to_vec()]);
    assert_eq!(globbed_fields(b"*.rs", vec![b"a.rs".to_vec(), b"b.rs".to_vec()]), vec![b"a.rs".to_vec(), b"b.rs".to_vec()]);
}

#[test]
fn here_document_replaces_each_name_by_its_value() {
    let mut shell = TestShell::new();
    shell.vars.insert(b"WHO".to_vec(), b"you".to_vec());
    let out = expand_here_document(&mut shell, b"hi $WHO, $N$ \\$WHO\n", 1).unwrap();
    assert_eq!(out, b"hi you, 5$ $WHO\n".to_vec());
}

#[test]
fn tilde_word_becomes_home_and_rest() {
    let mut shell = TestShell::new();
    assert_eq!(expand_word(&mut shell, &word(b"~/bin")).unwrap(), vec![b"~/bin".to_vec()]);
    shell.vars.insert(b"HOME".to_vec(), b"/home/u".to_vec());
    assert_eq!(expand_word(&mut shell, &word(b"~/bin")).unwrap(), vec![b"/home/u/bin".to_vec()]);
    assert_eq!(expand_word(&mut shell, &word(b"~")).unwrap(), vec![b"/home/u".to_vec()]);
    assert_eq!(expand_assignment_value(&mut shell, &word(b"~/a:~/b:c")).unwrap(), b"/home/u/a:/home/u/b:c".to_vec());
}

#[test]
fn name_word_splits_its_value_at_ifs() {
    let mut shell = TestShell::new();
    shell.vars.insert(b"L".to_vec(), b" a  b ".to_vec());
    assert_eq!(expand_word(&mut shell, &word(b"$L")).unwrap(), vec![b"a".to_vec(), b"b".to_vec()]);
    shell.vars.insert(b"IFS".to_vec(), b":".to_vec());
    shell.vars.insert(b"P".to_vec(), b"x:y".to_vec());
    assert_eq!(expand_word(&mut shell, &word(b"$P")).unwrap(), vec![b"x".to_vec(), b"y".to_vec()]);
    assert_eq!(expand_word(&mut shell, &word(b"$UNSET")).unwrap(), Vec::<Vec<u8>>::new());
}

#[test]
fn parameter_text_keeps_dollar_single_quotes_and_names() {
    let mut shell = TestShell::new();
    assert_eq!(expand_parameter_text(&mut shell, b"a$'b\\tc'").unwrap(), b"ab\tc".to_vec());
    assert_eq!(expand_parameter_text(&mut shell, b"$N").unwrap(), b"5".to_vec());
}
