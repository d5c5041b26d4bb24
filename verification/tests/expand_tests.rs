use std::collections::HashMap;

use meiksh::arith::{apply_compound_assign, eval_arithmetic, ArithmeticParser};
use meiksh::bytes::{join_bstrings, u64_to_bytes};
use meiksh::context::{Context, ExpandError, Word};
use meiksh::expand::{
    assign_parameter, assign_parameter_text, expand_arithmetic_expression, expand_parameter_error_text, expand_assignment_value, expand_braced_parameter,
    expand_braced_parameter_text, expand_dollar, expand_here_document, expand_parameter_dollar,
    expand_parameter_text, expand_parameter_word_as_expansion, expand_redirect_word, expand_word,
    expand_word_as_declaration_assignment, expand_word_pattern, expand_word_text, expand_words,
};
use meiksh::glob::{match_bracket, pattern_matches};
use meiksh::params::lookup_param;
use meiksh::pathname::{expand_path_segments, expand_pathname};
use meiksh::scan::{
    control_escape, parse_dollar_single_quoted, parse_parameter_expression, parse_variable_base_escape,
    scan_backtick_command, scan_to_closing_brace, split_on_unquoted_colons, word_is_assignment,
};
use meiksh::segments::{
    expand_word_with_at_fields, flatten_expansion, flatten_segments, push_segment,
    render_pattern_from_segments, segment_bytes, split_fields_from_segments, ExpandedWord, Expansion,
    Field, QuoteState, Segment,
};

fn assert_no_syscalls<F: FnOnce()>(f: F) {
    f()
}

struct FakeContext {
    env: HashMap<Vec<u8>, Vec<u8>>,
    positional: Vec<Vec<u8>>,
    pathname_expansion_enabled: bool,
    nounset_enabled: bool,
    dirs: HashMap<Vec<u8>, Vec<Vec<u8>>>,
}

impl FakeContext {
    fn new() -> Self {
        let mut env = HashMap::new();
        env.insert(b"HOME".to_vec(), b"/tmp/home".to_vec());
        env.insert(b"USER".to_vec(), b"meiksh".to_vec());
        env.insert(b"IFS".to_vec(), b" \t\n,".to_vec());
        env.insert(b"WORDS".to_vec(), b"one,two three".to_vec());
        env.insert(b"DELIMS".to_vec(), b",,,".to_vec());
        env.insert(b"EMPTY".to_vec(), Vec::new());
        env.insert(b"X".to_vec(), b"fallback".to_vec());
        Self {
            env,
            positional: vec![b"alpha".to_vec(), b"beta".to_vec()],
            pathname_expansion_enabled: true,
            nounset_enabled: false,
            dirs: HashMap::new(),
        }
    }
}

impl Context for FakeContext {
    fn env_var(&self, name: &[u8]) -> Option<Vec<u8>> {
        self.env.get(name).cloned()
    }

    fn special_param(&self, name: u8) -> Option<Vec<u8>> {
        match name {
            b'?' => Some(b"0".to_vec()),
            b'#' => Some(u64_to_bytes(self.positional.len() as u64)),
            b'-' => Some(b"aC".to_vec()),
            b'*' | b'@' => Some(join_bstrings(&self.positional, b" ")),
            _ => None,
        }
    }

    fn positional_param(&self, index: usize) -> Option<Vec<u8>> {
        if index == 0 {
            Some(b"meiksh".to_vec())
        } else {
            self.positional.get(index - 1).cloned()
        }
    }

    fn positional_params(&self) -> Vec<Vec<u8>> {
        self.positional.clone()
    }

    fn set_var(&mut self, name: &[u8], value: Vec<u8>) -> Result<(), ExpandError> {
        self.env.insert(name.to_vec(), value);
        Ok(())
    }

    fn pathname_expansion_enabled(&self) -> bool {
        self.pathname_expansion_enabled
    }

    fn nounset_enabled(&self) -> bool {
        self.nounset_enabled
    }

    fn shell_name(&self) -> Vec<u8> {
        b"meiksh".to_vec()
    }

    fn command_substitute(&mut self, command: &[u8]) -> Result<Vec<u8>, ExpandError> {
        let mut out = command.to_vec();
        out.push(b'\n');
        Ok(out)
    }

    fn home_dir_for_user(&self, name: &[u8]) -> Option<Vec<u8>> {
        if name == b"testuser" {
            Some(b"/home/testuser".to_vec())
        } else {
            None
        }
    }

    fn file_exists(&self, path: &[u8]) -> bool {
        self.dirs.contains_key(path)
    }

    fn read_dir_entries(&self, path: &[u8]) -> Option<Vec<Vec<u8>>> {
        self.dirs.get(path).cloned()
    }
}

struct DefaultPathContext {
    env: HashMap<Vec<u8>, Vec<u8>>,
    nounset_enabled: bool,
}

impl DefaultPathContext {
    fn new() -> Self {
        let mut env = HashMap::new();
        env.insert(b"HOME".to_vec(), b"/tmp/home".to_vec());
        Self {
            env,
            nounset_enabled: false,
        }
    }
}

impl Context for DefaultPathContext {
    fn env_var(&self, name: &[u8]) -> Option<Vec<u8>> {
        self.env.get(name).cloned()
    }

    fn special_param(&self, _name: u8) -> Option<Vec<u8>> {
        None
    }

    fn positional_param(&self, index: usize) -> Option<Vec<u8>> {
        if index == 0 {
            Some(b"meiksh".to_vec())
        } else {
            None
        }
    }

    fn positional_params(&self) -> Vec<Vec<u8>> {
        Vec::new()
    }

    fn set_var(&mut self, name: &[u8], value: Vec<u8>) -> Result<(), ExpandError> {
        self.env.insert(name.to_vec(), value);
        Ok(())
    }

    fn nounset_enabled(&self) -> bool {
        self.nounset_enabled
    }

    fn shell_name(&self) -> Vec<u8> {
        b"meiksh".to_vec()
    }

    fn command_substitute(&mut self, command: &[u8]) -> Result<Vec<u8>, ExpandError> {
        let mut out = command.to_vec();
        out.push(b'\n');
        Ok(out)
    }

    fn home_dir_for_user(&self, _name: &[u8]) -> Option<Vec<u8>> {
        None
    }

    fn file_exists(&self, _path: &[u8]) -> bool {
        false
    }

    fn read_dir_entries(&self, _path: &[u8]) -> Option<Vec<Vec<u8>>> {
        None
    }
}

fn expect_one(result: Result<(Expansion, usize), ExpandError>) -> (Vec<u8>, usize) {
    let (expansion, consumed) = result.expect("expansion");
    match expansion {
        Expansion::One(s) => (s, consumed),
        Expansion::AtFields(_) => panic!("expected One, got AtFields"),
    }
}

#[test]
fn expands_home_and_params() {
    let mut ctx = FakeContext::new();
    let fields = expand_word(
        &mut ctx,
        &Word {
            raw: b"~/$USER".as_ref().into(),
            line: 0,
        })
    .expect("expand");
    assert_eq!(fields, vec![b"/tmp/home/meiksh".as_ref()]);
}

#[test]
fn expands_arithmetic_expressions() {
    let mut ctx = FakeContext::new();
    assert_eq!(
        expand_word(
            &mut ctx,
            &Word {
                raw: b"$((1 + 2 * 3))".as_ref().into(),
                line: 0
            })
        .expect("expand"),
        vec![b"7".as_ref()]
    );
}

#[test]
fn expands_command_substitution() {
    let mut ctx = FakeContext::new();
    assert_eq!(
        expand_words(
            &mut ctx,
            &[
                Word {
                    raw: b"$WORDS".as_ref().into(),
                    line: 0
                },
                Word {
                    raw: b"$(printf hi)".as_ref().into(),
                    line: 0
                },
            ])
        .expect("expand"),
        vec![
            b"one".as_ref(),
            b"two".as_ref(),
            b"three".as_ref(),
            b"printf".as_ref(),
            b"hi".as_ref(),
        ]
    );
}

#[test]
fn preserves_quoted_and_escaped_characters() {
    let mut ctx = FakeContext::new();
    assert_eq!(
        expand_word(
            &mut ctx,
            &Word {
                raw: b"\"$0 $1\"".as_ref().into(),
                line: 0
            })
        .expect("expand"),
        vec![b"meiksh alpha".as_ref()]
    );
    assert_eq!(
        expand_word(
            &mut ctx,
            &Word {
                raw: b"\\$HOME".as_ref().into(),
                line: 0
            })
        .expect("expand"),
        vec![b"$HOME".as_ref()]
    );
    assert_eq!(
        expand_word(
            &mut ctx,
            &Word {
                raw: b"a\\ b".as_ref().into(),
                line: 0
            })
        .expect("expand"),
        vec![b"a b".as_ref()]
    );
    assert_eq!(
        expand_word(
            &mut ctx,
            &Word {
                raw: b"'literal text'".as_ref().into(),
                line: 0
            })
        .expect("expand"),
        vec![b"literal text".as_ref()]
    );
    assert_eq!(
        expand_word(
            &mut ctx,
            &Word {
                raw: b"\"cost:\\$USER\"".as_ref().into(),
                line: 0
            })
        .expect("expand"),
        vec![b"cost:$USER".as_ref()]
    );
    assert_eq!(
        expand_word(
            &mut ctx,
            &Word {
                raw: b"$'a b'".as_ref().into(),
                line: 0
            })
        .expect("expand"),
        vec![b"a b".as_ref()]
    );
    assert_eq!(
        expand_word(
            &mut ctx,
            &Word {
                raw: b"$'line\\nnext'".as_ref().into(),
                line: 0
            })
        .expect("expand"),
        vec![b"line\nnext".as_ref()]
    );
    assert_eq!(
        expand_word(
            &mut ctx,
            &Word {
                raw: b"\"$'a b'\"".as_ref().into(),
                line: 0
            })
        .expect("expand"),
        vec![b"$'a b'".as_ref()]
    );
    assert_eq!(
        expand_parameter_text(&mut ctx, b"$'tab\\tstop'").expect("parameter text"),
        b"tab\tstop".as_ref()
    );
}

#[test]
fn rejects_unterminated_quotes_and_expansions() {
    let mut ctx = FakeContext::new();
    for raw in [
        b"'oops".as_ref(),
        b"\"oops",
        b"${USER",
        b"$(echo",
        b"$((1 + 2)",
        b"$'oops",
    ] {
        let error = expand_word(
            &mut ctx,
            &Word {
                raw: raw.into(),
                line: 0,
            })
        .expect_err("error");
        assert!(!error.message.is_empty());
    }
}

#[test]
fn expand_dollar_single_quote_helpers_cover_escape_matrix() {
    let input = b"$'\\\"\\'\\\\\\a\\b\\e\\f\\n\\r\\t\\v\\cA\\c\\\\\\x41\\101Z'";
    let (value, consumed) = parse_dollar_single_quoted(input).expect("parse");
    assert_eq!(consumed, input.len());
    let mut expected = Vec::new();
    expected.push(b'"');
    expected.push(b'\'');
    expected.push(b'\\');
    expected.push(0x07); // \a
    expected.push(0x08); // \b
    expected.push(0x1b); // \e
    expected.push(0x0c); // \f
    expected.push(b'\n');
    expected.push(b'\r');
    expected.push(b'\t');
    expected.push(0x0b); // \v
    expected.push(0x01); // \cA
    expected.push(0x1c); // \c\\
    expected.push(b'A');  // \x41
    expected.push(b'A');  // \101
    expected.push(b'Z');
    assert_eq!(value, expected);

    assert!(parse_dollar_single_quoted(b"$'\\").is_err());

    assert!(parse_dollar_single_quoted(b"$'\\c").is_err());

    let (value, _) = parse_dollar_single_quoted(b"$'\\xZ'").expect("parse no hex");
    assert_eq!(value, b"xZ");

    let (value, _) = parse_dollar_single_quoted(b"$'\\x41'").expect("parse hex");
    assert_eq!(value, b"A");

    let (value, _) = parse_dollar_single_quoted(b"$'\\z'").expect("parse unspecified");
    assert_eq!(value, b"z");

    assert_eq!(control_escape(b'\\'), 0x1c);
    assert_eq!(control_escape(b'?'), 0x7f);
    assert_eq!(control_escape(b'A'), 0x01);
    assert_eq!(parse_variable_base_escape(b"412", 16, 2), (0x41, 2));
    assert_eq!(parse_variable_base_escape(b"1017", 8, 3), (0o101, 3));
    assert_eq!(parse_variable_base_escape(b"Z", 16, 2), (0, 0));
}

#[test]
fn rejects_bad_arithmetic() {
    let mut ctx = FakeContext::new();
    for raw in [
        b"$((1 / 0))".as_ref(),
        b"$((1 + ))",
        b"$((1 1))",
    ] {
        let error = expand_word(
            &mut ctx,
            &Word {
                raw: raw.into(),
                line: 0,
            })
        .expect_err("error");
        assert!(!error.message.is_empty());
    }
}

#[test]
fn supports_parameter_operators_and_positionals() {
    let mut ctx = FakeContext::new();
    ctx.positional = vec![
        b"a".to_vec(),
        b"b".to_vec(),
        b"c".to_vec(),
        b"d".to_vec(),
        b"e".to_vec(),
        b"f".to_vec(),
        b"g".to_vec(),
        b"h".to_vec(),
        b"i".to_vec(),
        b"j".to_vec(),
    ];

    assert_eq!(
        expand_word(
            &mut ctx,
            &Word {
                raw: b"${10}".as_ref().into(),
                line: 0
            })
        .expect("expand"),
        vec![b"j".as_ref()]
    );
    assert_eq!(
        expand_word(
            &mut ctx,
            &Word {
                raw: b"$10".as_ref().into(),
                line: 0
            })
        .expect("expand"),
        vec![b"a0".as_ref()]
    );
    assert_eq!(
        expand_word(
            &mut ctx,
            &Word {
                raw: b"${#10}".as_ref().into(),
                line: 0
            })
        .expect("expand"),
        vec![b"1".as_ref()]
    );
    ctx.env.insert(b"IFS".to_vec(), b":".to_vec());
    assert_eq!(
        expand_word(
            &mut ctx,
            &Word {
                raw: b"$*".as_ref().into(),
                line: 0
            })
        .expect("expand"),
        vec![
            b"a".as_ref(),
            b"b".as_ref(),
            b"c".as_ref(),
            b"d".as_ref(),
            b"e".as_ref(),
            b"f".as_ref(),
            b"g".as_ref(),
            b"h".as_ref(),
            b"i".as_ref(),
            b"j".as_ref()
        ]
    );
    assert_eq!(
        expand_word(
            &mut ctx,
            &Word {
                raw: b"\"$*\"".as_ref().into(),
                line: 0
            })
        .expect("expand"),
        vec![b"a:b:c:d:e:f:g:h:i:j".as_ref()]
    );
    assert_eq!(
        expand_word(
            &mut ctx,
            &Word {
                raw: b"${UNSET-word}".as_ref().into(),
                line: 0
            })
        .expect("expand"),
        vec![b"word".as_ref()]
    );
    assert_eq!(
        expand_word(
            &mut ctx,
            &Word {
                raw: b"${UNSET:-word}".as_ref().into(),
                line: 0
            })
        .expect("expand"),
        vec![b"word".as_ref()]
    );
    assert_eq!(
        expand_word(
            &mut ctx,
            &Word {
                raw: b"${EMPTY-word}".as_ref().into(),
                line: 0
            })
        .expect("expand"),
        Vec::<&[u8]>::new()
    );
    assert_eq!(
        expand_word(
            &mut ctx,
            &Word {
                raw: b"${EMPTY:-word}".as_ref().into(),
                line: 0
            })
        .expect("expand"),
        vec![b"word".as_ref()]
    );
    assert_eq!(
        expand_word(
            &mut ctx,
            &Word {
                raw: b"${USER:+alt}".as_ref().into(),
                line: 0
            })
        .expect("expand"),
        vec![b"alt".as_ref()]
    );
    assert_eq!(
        expand_word(
            &mut ctx,
            &Word {
                raw: b"${UNSET+alt}".as_ref().into(),
                line: 0
            })
        .expect("expand"),
        Vec::<&[u8]>::new()
    );
    assert_eq!(
        expand_word(
            &mut ctx,
            &Word {
                raw: b"${NEW:=value}".as_ref().into(),
                line: 0
            })
        .expect("expand"),
        vec![b"value".as_ref()]
    );
    assert_eq!(ctx.env.get(b"NEW".as_ref()).map(|v| v.as_slice()), Some(b"value".as_ref()));
    assert_eq!(
        expand_word(
            &mut ctx,
            &Word {
                raw: b"${#}".as_ref().into(),
                line: 0
            })
        .expect("expand"),
        vec![b"10".as_ref()]
    );

    let error = expand_word(
        &mut ctx,
        &Word {
            raw: b"${UNSET:?boom}".as_ref().into(),
            line: 0,
        })
    .expect_err("unset error");
    assert_eq!(&*error.message, b"boom".as_ref());

    let error = expand_word(
        &mut ctx,
        &Word {
            raw: b"${UNSET:?$'unterminated}".as_ref().into(),
            line: 0,
        })
    .expect_err("colon-question word expansion error");
    assert!(!error.message.is_empty());

    let error = expand_word(
        &mut ctx,
        &Word {
            raw: b"${MISSING?$'unterminated}".as_ref().into(),
            line: 0,
        })
    .expect_err("plain-question word expansion error");
    assert!(!error.message.is_empty());
}

#[test]
fn performs_field_splitting_more_like_posix() {
    let mut ctx = FakeContext::new();
    assert_eq!(
        expand_word(
            &mut ctx,
            &Word {
                raw: b"$WORDS".as_ref().into(),
                line: 0
            })
        .expect("expand"),
        vec![b"one".as_ref(), b"two".as_ref(), b"three".as_ref()]
    );
    assert_eq!(
        expand_word(
            &mut ctx,
            &Word {
                raw: b"$DELIMS".as_ref().into(),
                line: 0
            })
        .expect("expand"),
        vec![b"".as_ref() as &[u8], b"", b""]
    );
    assert_eq!(
        expand_word(
            &mut ctx,
            &Word {
                raw: b"$EMPTY".as_ref().into(),
                line: 0
            })
        .expect("expand"),
        Vec::<&[u8]>::new()
    );
    assert!(split_fields_from_segments(&[], b" \t\n").is_empty());
}

#[test]
fn expand_expands_text_without_field_splitting_or_pathname_expansion() {
    let mut ctx = FakeContext::new();
    ctx.env.insert(b"WORDS".to_vec(), b"one two".to_vec());
    assert_eq!(
        expand_word_text(
            &mut ctx,
            &Word {
                raw: b"$WORDS".as_ref().into(),
                line: 0
            })
        .expect("expand"),
        b"one two"
    );
    assert_eq!(
        expand_word_text(
            &mut ctx,
            &Word {
                raw: b"*".as_ref().into(),
                line: 0
            })
        .expect("expand"),
        b"*"
    );
}

#[test]
fn expand_performs_pathname_expansion() {
    {
        let mut ctx = FakeContext::new();
        ctx.dirs.insert(
            b"/testdir".to_vec(),
            vec![b"a.txt".to_vec(), b"b.txt".to_vec(), b".hidden.txt".to_vec()],
        );
        assert_eq!(
            expand_word(
                &mut ctx,
                &Word {
                    raw: b"/testdir/*.txt".as_ref().into(),
                    line: 0
                })
            .expect("glob"),
            vec![b"/testdir/a.txt".as_ref(), b"/testdir/b.txt".as_ref()]
        );
        assert_eq!(
            expand_word(
                &mut ctx,
                &Word {
                    raw: b"\\*.txt".as_ref().into(),
                    line: 0
                })
            .expect("escaped glob"),
            vec![b"*.txt".as_ref()]
        );
        assert_eq!(
            expand_word(
                &mut ctx,
                &Word {
                    raw: b"/testdir/.*.txt".as_ref().into(),
                    line: 0
                })
            .expect("hidden glob"),
            vec![b"/testdir/.hidden.txt".as_ref()]
        );
    }
}

#[test]
fn expand_can_disable_pathname_expansion_via_context() {
    assert_no_syscalls(|| {
        let mut ctx = FakeContext::new();
        ctx.pathname_expansion_enabled = false;
        let pattern = b"/testdir/*.txt";
        assert_eq!(
            expand_word(
                &mut ctx,
                &Word {
                    raw: pattern.as_ref().into(),
                    line: 0
                })
            .expect("noglob"),
            vec![pattern.as_ref()]
        );
    });
}

#[test]
fn helper_paths_cover_remaining_branches() {
    let ctx = FakeContext::new();
    assert_eq!(lookup_param(&ctx, b"?").as_deref(), Some(b"0".as_ref()));
    assert_eq!(lookup_param(&ctx, b"0").as_deref(), Some(b"meiksh".as_ref()));
    assert_eq!(lookup_param(&ctx, b"X").as_deref(), Some(b"fallback".as_ref()));
    assert_eq!(lookup_param(&ctx, b"99"), None);
    assert_eq!(
        ctx.positional_params(),
        &[b"alpha".to_vec(), b"beta".to_vec()][..]
    );
    assert_eq!(ctx.positional_param(0).as_deref(), Some(b"meiksh".as_ref()));

    let mut segs = Vec::new();
    push_segment(&mut segs, b"a".to_vec(), QuoteState::Expanded);
    push_segment(&mut segs, Vec::new(), QuoteState::Expanded);
    push_segment(&mut segs, b"b".to_vec(), QuoteState::Expanded);
    push_segment(&mut segs, b"c".to_vec(), QuoteState::Quoted);
    assert_eq!(
        segs,
        vec![
            Segment::Text(b"ab".to_vec(), QuoteState::Expanded),
            Segment::Text(b"c".to_vec(), QuoteState::Quoted)
        ]
    );

    assert_eq!(flatten_segments(&segs), b"abc".to_vec());
    assert!(pattern_matches(b"beta", b"b*"));
    assert!(!pattern_matches(b"beta", b"a*"));
    let mut ctx2 = FakeContext::new();
    assert_eq!(eval_arithmetic(&mut ctx2, b"42").expect("direct eval"), 42);
    assert!(eval_arithmetic(&mut ctx2, b"(1 + 2").is_err());

    let arith_bt =
        expand_arithmetic_expression(&mut ctx2, b"`printf 5`").expect("backtick in arith");
    assert_eq!(arith_bt, b"printf 5");

    let parser = ArithmeticParser::new(b"9", 0);
    assert!(parser.is_eof(99));
}

#[test]
fn nounset_option_rejects_plain_unset_parameter_expansions() {
    let mut ctx = FakeContext::new();
    ctx.nounset_enabled = true;

    let error = expand_word(
        &mut ctx,
        &Word {
            raw: b"$UNSET".as_ref().into(),
            line: 0,
        })
    .expect_err("nounset variable");
    assert_eq!(&*error.message, b"UNSET: parameter not set".as_ref());

    let error = expand_word(
        &mut ctx,
        &Word {
            raw: b"${UNSET}".as_ref().into(),
            line: 0,
        })
    .expect_err("nounset braced");
    assert_eq!(&*error.message, b"UNSET: parameter not set".as_ref());

    let error = expand_word(
        &mut ctx,
        &Word {
            raw: b"$9".as_ref().into(),
            line: 0,
        })
    .expect_err("nounset positional");
    assert_eq!(&*error.message, b"9: parameter not set".as_ref());

    assert_eq!(
        expand_word(
            &mut ctx,
            &Word {
                raw: b"${UNSET-word}".as_ref().into(),
                line: 0
            })
        .expect("default still works"),
        vec![b"word".as_ref()]
    );
    assert_eq!(
        expand_word(
            &mut ctx,
            &Word {
                raw: b"\"$*\"".as_ref().into(),
                line: 0
            })
        .expect("star exempt"),
        vec![b"alpha beta".as_ref()]
    );
}

#[test]
fn direct_expand_dollar_covers_fallbacks_and_nesting() {
    let mut ctx = FakeContext::new();
    assert_eq!(
        expect_one(expand_dollar(&mut ctx, b"$", false)),
        (b"$".to_vec(), 1)
    );
    assert_eq!(
        expect_one(expand_dollar(&mut ctx, b"$-", false)),
        (b"aC".to_vec(), 2)
    );
    assert_eq!(
        expect_one(expand_dollar(&mut ctx, b"$$", false)),
        (b"".to_vec(), 2)
    );

    let (at_expansion, at_consumed) = expand_dollar(&mut ctx, b"$@", true).expect("quoted at");
    assert_eq!(at_consumed, 2);
    let Expansion::AtFields(fields) = at_expansion else {
        panic!("expected AtFields for quoted $@")
    };
    assert_eq!(fields, vec![b"alpha".to_vec(), b"beta".to_vec()]);

    let arithmetic_input = b"$((1 + (2 * 3)))";
    assert_eq!(
        expect_one(expand_dollar(&mut ctx, arithmetic_input, false)),
        (b"7".to_vec(), arithmetic_input.len())
    );

    let command_input = b"$(printf (hi))";
    assert_eq!(
        expect_one(expand_dollar(&mut ctx, command_input, false)),
        (b"printf (hi)".to_vec(), command_input.len())
    );
}

#[test]
fn expand_parameter_text_expansion_avoids_command_substitution() {
    let mut ctx = FakeContext::new();
    ctx.env.insert(b"HOME".to_vec(), b"/tmp/home".to_vec());
    ctx.env.insert(b"EMPTY".to_vec(), Vec::new());

    assert_eq!(
        expand_parameter_text(&mut ctx, b"${HOME:-/fallback}/.shrc")
            .expect("parameter text"),
        b"/tmp/home/.shrc"
    );
    assert_eq!(
        expand_parameter_text(&mut ctx, b"${EMPTY:-$HOME}/nested")
            .expect("nested default"),
        b"/tmp/home/nested"
    );
    assert_eq!(
        expand_parameter_text(&mut ctx, b"$(printf nope)${HOME}")
            .expect("literal command"),
        b"$(printf nope)/tmp/home"
    );
}

#[test]
fn expand_parameter_text_dollar_helpers_are_split_out() {
    let mut ctx = FakeContext::new();
    ctx.env.insert(b"HOME".to_vec(), b"/tmp/home".to_vec());
    assert_eq!(
        expand_parameter_dollar(&mut ctx, b"$").expect("single"),
        (b"$".to_vec(), 1)
    );
    assert!(expand_parameter_dollar(&mut ctx, b"${HOME").is_err());
    assert_eq!(
        expand_parameter_dollar(&mut ctx, b"$0").expect("zero"),
        (b"meiksh".to_vec(), 2)
    );
    assert_eq!(
        expand_parameter_dollar(&mut ctx, b"$?").expect("special"),
        (b"0".to_vec(), 2)
    );
    assert_eq!(
        expand_parameter_dollar(&mut ctx, b"$1").expect("positional"),
        (b"alpha".to_vec(), 2)
    );
    assert_eq!(
        expand_parameter_dollar(&mut ctx, b"$HOME").expect("name"),
        (b"/tmp/home".to_vec(), 5)
    );
    assert_eq!(
        expand_parameter_dollar(&mut ctx, b"$HOME+rest").expect("name stops at +"),
        (b"/tmp/home".to_vec(), 5)
    );
    assert_eq!(
        expand_parameter_dollar(&mut ctx, b"$-").expect("dash"),
        (b"aC".to_vec(), 2)
    );
}

#[test]
fn expand_parameter_text_assignment_paths_are_split_out() {
    let mut ctx = FakeContext::new();
    ctx.env.insert(b"HOME".to_vec(), b"/tmp/home".to_vec());
    assert_eq!(
        expand_braced_parameter_text(&mut ctx, b"#").expect("hash"),
        b"2"
    );
    assert_eq!(
        expand_braced_parameter_text(&mut ctx, b"#HOME").expect("length"),
        b"9"
    );
    assert_eq!(
        expand_braced_parameter_text(&mut ctx, b"HOME-word").expect("dash set"),
        b"/tmp/home"
    );
    assert_eq!(
        expand_braced_parameter_text(&mut ctx, b"UNSET-word").expect("dash unset"),
        b"word"
    );
    assert_eq!(
        expand_braced_parameter_text(&mut ctx, b"HOME:=value").expect("colon assign set"),
        b"/tmp/home"
    );
    assert_eq!(
        expand_braced_parameter_text(&mut ctx, b"UNSET:=value").expect("assign unset"),
        b"value"
    );
    assert_eq!(ctx.env.get(b"UNSET".as_ref()).map(|v| v.as_slice()), Some(b"value".as_ref()));
    assert_eq!(
        expand_braced_parameter_text(&mut ctx, b"MISSING3=value").expect("assign equals unset"),
        b"value"
    );
    assert_eq!(ctx.env.get(b"MISSING3".as_ref()).map(|v| v.as_slice()), Some(b"value".as_ref()));
    assert_eq!(
        expand_braced_parameter_text(&mut ctx, b"HOME=value").expect("assign set"),
        b"/tmp/home"
    );
    assert!(assign_parameter_text(&mut ctx, b"1", b"value").is_err());

    let err = expand_braced_parameter_text(&mut ctx, b"MISSING4?").expect_err("? no word");
    assert_eq!(&*err.message, b"MISSING4: parameter not set".as_ref());
    let text =
        expand_parameter_error_text(&mut ctx, b"X", Some(b""), b"my default").expect("empty word");
    assert_eq!(text, b"X: my default");
}

#[test]
fn expand_nounset_option_rejects_length_and_pattern_expansions_of_unset_parameters() {
    let mut ctx = DefaultPathContext::new();
    ctx.nounset_enabled = true;

    let error = expand_braced_parameter_text(&mut ctx, b"#UNSET").expect_err("nounset length");
    assert_eq!(&*error.message, b"UNSET: parameter not set".as_ref());

    let error =
        expand_braced_parameter_text(&mut ctx, b"UNSET%.*").expect_err("nounset pattern");
    assert_eq!(&*error.message, b"UNSET: parameter not set".as_ref());
}

#[test]
fn expand_parameter_text_question_operator_paths_are_split_out() {
    let mut ctx = FakeContext::new();
    ctx.env.insert(b"HOME".to_vec(), b"/tmp/home".to_vec());
    ctx.env.insert(b"EMPTY".to_vec(), Vec::new());
    assert_eq!(
        expand_braced_parameter_text(&mut ctx, b"HOME:?boom").expect("colon question set"),
        b"/tmp/home"
    );
    assert_eq!(
        expand_braced_parameter_text(&mut ctx, b"HOME?boom").expect("question set"),
        b"/tmp/home"
    );
    let colon_question = expand_braced_parameter_text(&mut ctx, b"EMPTY:?boom")
        .expect_err("colon question unset");
    assert_eq!(&*colon_question.message, b"boom".as_ref());
    let question =
        expand_braced_parameter_text(&mut ctx, b"MISSING?boom").expect_err("question unset");
    assert_eq!(&*question.message, b"boom".as_ref());
    let colon_default =
        expand_braced_parameter_text(&mut ctx, b"EMPTY:?").expect_err("colon default");
    assert_eq!(&*colon_default.message, b"EMPTY: parameter null or not set".as_ref());
    let question_default =
        expand_braced_parameter_text(&mut ctx, b"MISSING?").expect_err("question default");
    assert_eq!(&*question_default.message, b"MISSING: parameter not set".as_ref());
}

#[test]
fn expand_parameter_text_question_propagates_word_expansion_error() {
    let mut ctx = FakeContext::new();
    let err = expand_braced_parameter_text(&mut ctx, b"MISSING:?$'unterminated")
        .expect_err("colon-question text expansion error");
    assert!(!err.message.is_empty());
    let err = expand_braced_parameter_text(&mut ctx, b"MISSING?$'unterminated")
        .expect_err("plain-question text expansion error");
    assert!(!err.message.is_empty());
}

#[test]
fn expand_parameter_text_plus_and_pattern_paths_are_split_out() {
    let mut ctx = FakeContext::new();
    ctx.env.insert(b"HOME".to_vec(), b"/tmp/home".to_vec());
    ctx.env.insert(b"DOTTED".to_vec(), b"alpha.beta".to_vec());
    assert_eq!(
        expand_braced_parameter_text(&mut ctx, b"HOME:+alt").expect("colon plus"),
        b"alt"
    );
    assert_eq!(
        expand_braced_parameter_text(&mut ctx, b"MISSING2:+alt").expect("colon plus unset"),
        b""
    );
    assert_eq!(
        expand_braced_parameter_text(&mut ctx, b"HOME+alt").expect("plus set"),
        b"alt"
    );
    assert_eq!(
        expand_braced_parameter_text(&mut ctx, b"MISSING2+alt").expect("plus unset"),
        b""
    );
    assert_eq!(
        expand_braced_parameter_text(&mut ctx, b"DOTTED%.*").expect("suffix"),
        b"alpha"
    );
    assert_eq!(
        expand_braced_parameter_text(&mut ctx, b"DOTTED%%.*").expect("largest suffix"),
        b"alpha"
    );
    assert_eq!(
        expand_braced_parameter_text(&mut ctx, b"DOTTED#*.").expect("prefix"),
        b"beta"
    );
    assert_eq!(
        expand_braced_parameter_text(&mut ctx, b"DOTTED##*.").expect("largest prefix"),
        b"beta"
    );
    assert!(expand_braced_parameter_text(&mut ctx, b"HOME::word").is_err());
}

#[test]
fn expand_parameter_helpers_cover_more_edge_cases() {
    let mut ctx = FakeContext::new();

    assert_eq!(
        expand_braced_parameter(&mut ctx, b"USER:-word", false).expect("default set"),
        Expansion::One(b"meiksh".to_vec())
    );
    assert_eq!(
        expand_braced_parameter(&mut ctx, b"USER:=word", false).expect("assign set"),
        Expansion::One(b"meiksh".to_vec())
    );
    assert_eq!(
        expand_braced_parameter(&mut ctx, b"MISSING=value", false).expect("assign unset"),
        Expansion::One(b"value".to_vec())
    );
    assert_eq!(ctx.env.get(b"MISSING".as_ref()).map(|v| v.as_slice()), Some(b"value".as_ref()));
    assert_eq!(
        expand_braced_parameter(&mut ctx, b"USER=value", false).expect("assign set"),
        Expansion::One(b"meiksh".to_vec())
    );
    assert_eq!(
        expand_braced_parameter(&mut ctx, b"USER?boom", false).expect("question set"),
        Expansion::One(b"meiksh".to_vec())
    );
    let error =
        expand_braced_parameter(&mut ctx, b"UNSET?boom", false).expect_err("question unset");
    assert_eq!(&*error.message, b"boom".as_ref());
    assert_eq!(
        expand_braced_parameter(&mut ctx, b"USER:?boom", false).expect("colon question set"),
        Expansion::One(b"meiksh".to_vec())
    );

    let error = assign_parameter(&mut ctx, b"1", b"value", false).expect_err("invalid assign");
    assert_eq!(&*error.message, b"1: cannot assign in parameter expansion".as_ref());

    let parsed = parse_parameter_expression(b"@").expect("special name");
    assert_eq!(parsed, (b"@".as_ref(), None, None));

    let error = parse_parameter_expression(b"").expect_err("empty expr");
    assert_eq!(&*error.message, b"empty parameter expansion".as_ref());

    let error = parse_parameter_expression(b"%oops").expect_err("invalid expr");
    assert_eq!(&*error.message, b"invalid parameter expansion".as_ref());
    let parsed = parse_parameter_expression(b"USER%%tail").expect("largest suffix");
    assert_eq!(parsed, (b"USER".as_ref(), Some(b"%%".as_ref()), Some(b"tail".as_ref())));
    let parsed = parse_parameter_expression(b"USER/tail").expect("unknown operator");
    assert_eq!(parsed, (b"USER".as_ref(), Some(b"/".as_ref()), Some(b"tail".as_ref())));

    let error =
        expand_braced_parameter(&mut ctx, b"USER/tail", false).expect_err("unsupported expr");
    assert_eq!(&*error.message, b"unsupported parameter expansion".as_ref());
}

#[test]
fn expand_field_and_pattern_helpers_cover_corner_cases() {
    let ctx = DefaultPathContext::new();
    {
            let segs = vec![Segment::Text(b"*.txt".to_vec(), QuoteState::Expanded)];
            assert_eq!(
                split_fields_from_segments(&segs, b""),
                vec![Field {
                    text: b"*.txt".to_vec(),
                    has_unquoted_glob: true,
                }]
            );

            assert_eq!(
                split_fields_from_segments(
                    &[Segment::Text(
                        b"alpha,  beta".to_vec(),
                        QuoteState::Expanded
                    )],
                    b" ,"
                ),
                vec![
                    Field {
                        text: b"alpha".to_vec(),
                        has_unquoted_glob: false,
                    },
                    Field {
                        text: b"beta".to_vec(),
                        has_unquoted_glob: false,
                    },
                ]
            );

            assert_eq!(expand_pathname(&ctx, b"plain.txt"), vec![b"plain.txt".to_vec()]);

            let mut matches = Vec::new();
            expand_path_segments(
                &ctx,
                b"/definitely/not/a/real/dir",
                &[b"*.txt".to_vec()],
                0,
                false,
                &mut matches,
            );
            assert!(matches.is_empty());

            let mut matches = Vec::new();
            expand_path_segments(&ctx, b".", &[], 0, false, &mut matches);
            assert_eq!(matches, vec![b".".to_vec()]);

            assert!(pattern_matches(b"x", b"?"));
            assert!(pattern_matches(b"[", b"["));
            assert!(pattern_matches(b"]", b"\\]"));
            assert!(pattern_matches(b"b", b"[a-c]"));
            assert!(pattern_matches(b"d", b"[!a-c]"));

            assert!(pattern_matches(b"a", b"[[:alpha:]]"));
            assert!(pattern_matches(b"Z", b"[[:alpha:]]"));
            assert!(!pattern_matches(b"5", b"[[:alpha:]]"));
            assert!(pattern_matches(b"3", b"[[:alnum:]]"));
            assert!(pattern_matches(b"z", b"[[:alnum:]]"));
            assert!(!pattern_matches(b"!", b"[[:alnum:]]"));
            assert!(pattern_matches(b" ", b"[[:blank:]]"));
            assert!(pattern_matches(b"\t", b"[[:blank:]]"));
            assert!(!pattern_matches(b"a", b"[[:blank:]]"));
            assert!(pattern_matches(b"\x01", b"[[:cntrl:]]"));
            assert!(!pattern_matches(b"a", b"[[:cntrl:]]"));
            assert!(pattern_matches(b"9", b"[[:digit:]]"));
            assert!(!pattern_matches(b"a", b"[[:digit:]]"));
            assert!(pattern_matches(b"!", b"[[:graph:]]"));
            assert!(!pattern_matches(b" ", b"[[:graph:]]"));
            assert!(pattern_matches(b"a", b"[[:lower:]]"));
            assert!(!pattern_matches(b"A", b"[[:lower:]]"));
            assert!(pattern_matches(b" ", b"[[:print:]]"));
            assert!(pattern_matches(b"a", b"[[:print:]]"));
            assert!(!pattern_matches(b"\x01", b"[[:print:]]"));
            assert!(pattern_matches(b".", b"[[:punct:]]"));
            assert!(!pattern_matches(b"a", b"[[:punct:]]"));
            assert!(pattern_matches(b"\n", b"[[:space:]]"));
            assert!(!pattern_matches(b"a", b"[[:space:]]"));
            assert!(pattern_matches(b"A", b"[[:upper:]]"));
            assert!(!pattern_matches(b"a", b"[[:upper:]]"));
            assert!(pattern_matches(b"f", b"[[:xdigit:]]"));
            assert!(pattern_matches(b"F", b"[[:xdigit:]]"));
            assert!(!pattern_matches(b"g", b"[[:xdigit:]]"));
            assert!(!pattern_matches(b"a", b"[[:bogus:]]"));
            assert!(pattern_matches(b"x", b"[[:x]"));
            assert!(!pattern_matches(b"", b"[a-z]"));

            assert_eq!(match_bracket(None, 0, b"", 0, b"[a]", 0), None);
            assert_eq!(match_bracket(Some(b'a'), 1, b"a", 0, b"[", 0), None);
            assert_eq!(match_bracket(Some(b']'), 1, b"]", 0, b"[\\]]", 0), Some((true, 4)));
            assert_eq!(
                render_pattern_from_segments(&[Segment::Text(
                    b"*".to_vec(),
                    QuoteState::Quoted
                )]),
                b"\\*".to_vec()
            );
            assert_eq!(
                render_pattern_from_segments(&[Segment::Text(
                    b"ab".to_vec(),
                    QuoteState::Literal
                )]),
                b"ab".to_vec()
            );
            assert_eq!(
                render_pattern_from_segments(&[
                    Segment::Text(b"x".to_vec(), QuoteState::Literal),
                    Segment::AtBreak,
                    Segment::Text(b"y".to_vec(), QuoteState::Expanded),
                ]),
                b"xy".to_vec()
            );
        }
}

#[test]
fn supports_pattern_removal_parameter_expansions() {
    let mut ctx = FakeContext::new();
    ctx.env.insert(b"PATHNAME".to_vec(), b"src/bin/main.rs".to_vec());
    ctx.env.insert(b"DOTTED".to_vec(), b"alpha.beta.gamma".to_vec());

    assert_eq!(
        expand_word(
            &mut ctx,
            &Word {
                raw: b"${PATHNAME#*/}".as_ref().into(),
                line: 0
            })
        .expect("small prefix"),
        vec![b"bin/main.rs".as_ref()]
    );
    assert_eq!(
        expand_word(
            &mut ctx,
            &Word {
                raw: b"${PATHNAME##*/}".as_ref().into(),
                line: 0
            })
        .expect("large prefix"),
        vec![b"main.rs".as_ref()]
    );
    assert_eq!(
        expand_word(
            &mut ctx,
            &Word {
                raw: b"${PATHNAME%/*}".as_ref().into(),
                line: 0
            })
        .expect("small suffix"),
        vec![b"src/bin".as_ref()]
    );
    assert_eq!(
        expand_word(
            &mut ctx,
            &Word {
                raw: b"${PATHNAME%%/*}".as_ref().into(),
                line: 0
            })
        .expect("large suffix"),
        vec![b"src".as_ref()]
    );
    assert_eq!(
        expand_word(
            &mut ctx,
            &Word {
                raw: b"${PATHNAME#\"src/\"}".as_ref().into(),
                line: 0
            })
        .expect("quoted pattern"),
        vec![b"bin/main.rs".as_ref()]
    );
    assert_eq!(
        expand_word(
            &mut ctx,
            &Word {
                raw: b"${DOTTED#*.}".as_ref().into(),
                line: 0
            })
        .expect("wildcard prefix"),
        vec![b"beta.gamma".as_ref()]
    );
    assert_eq!(
        expand_word(
            &mut ctx,
            &Word {
                raw: b"${DOTTED##*.}".as_ref().into(),
                line: 0
            })
        .expect("largest wildcard prefix"),
        vec![b"gamma".as_ref()]
    );
    assert_eq!(
        expand_word(
            &mut ctx,
            &Word {
                raw: b"${DOTTED%.*}".as_ref().into(),
                line: 0
            })
        .expect("wildcard suffix"),
        vec![b"alpha.beta".as_ref()]
    );
    assert_eq!(
        expand_word(
            &mut ctx,
            &Word {
                raw: b"${DOTTED%%.*}".as_ref().into(),
                line: 0
            })
        .expect("largest wildcard suffix"),
        vec![b"alpha".as_ref()]
    );
    assert_eq!(
        expand_word(
            &mut ctx,
            &Word {
                raw: b"${DOTTED#\"*.\"}".as_ref().into(),
                line: 0
            })
        .expect("quoted wildcard"),
        vec![b"alpha.beta.gamma".as_ref()]
    );
    assert_eq!(
        expand_word(
            &mut ctx,
            &Word {
                raw: b"${DOTTED%}".as_ref().into(),
                line: 0
            })
        .expect("empty suffix pattern"),
        vec![b"alpha.beta.gamma".as_ref()]
    );
    assert_eq!(
        expand_word(
            &mut ctx,
            &Word {
                raw: b"${MISSING%%*.}".as_ref().into(),
                line: 0
            })
        .expect("unset value"),
        Vec::<&[u8]>::new()
    );
}

#[test]
fn expand_arithmetic_parser_covers_more_operators() {
    let mut ctx = FakeContext::new();
    assert_eq!(eval_arithmetic(&mut ctx, b"9 - 2 - 1").expect("subtract"), 6);
    assert_eq!(eval_arithmetic(&mut ctx, b"8 / 2").expect("divide"), 4);
    assert_eq!(eval_arithmetic(&mut ctx, b"9 % 4").expect("modulo"), 1);
    assert_eq!(eval_arithmetic(&mut ctx, b"(1 + 2)").expect("parens"), 3);
    assert_eq!(eval_arithmetic(&mut ctx, b"-5").expect("negation"), -5);

    let error = eval_arithmetic(&mut ctx, b"5 % 0").expect_err("mod zero");
    assert_eq!(&*error.message, b"division by zero".as_ref());

    let error = eval_arithmetic(&mut ctx, b"999999999999999999999999999999999999999")
        .expect_err("overflow");
    assert_eq!(&*error.message, b"invalid arithmetic operand".as_ref());
}

#[test]
fn expand_default_pathname_context_trait_impl() {
    let mut ctx = DefaultPathContext::new();
    assert_eq!(ctx.special_param(b'?'), None);
    assert_eq!(ctx.positional_param(0).as_deref(), Some(b"meiksh".as_ref()));
    assert_eq!(ctx.positional_param(1), None);
    assert!(ctx.positional_params().is_empty());
    assert!(ctx.home_dir_for_user(b"nobody").is_none());
    assert!(!ctx.nounset_enabled());
    ctx.set_var(b"NAME", b"value".to_vec()).expect("set var");
    assert_eq!(ctx.env_var(b"NAME").as_deref(), Some(b"value".as_ref()));
    assert_eq!(ctx.shell_name(), b"meiksh");
    assert_eq!(
        ctx.command_substitute(b"printf ok").expect("substitute"),
        b"printf ok\n"
    );
}

#[test]
fn expand_unmatched_glob_returns_pattern_literally() {
    {
            let mut ctx = DefaultPathContext::new();
            assert_eq!(
                expand_word(
                    &mut ctx,
                    &Word {
                        raw: b"*.definitely-no-match".as_ref().into(),
                        line: 0
                    })
                .expect("unmatched glob"),
                vec![b"*.definitely-no-match".as_ref()]
            );
        }
}

#[test]
fn expand_bracket_helpers_cover_missing_closer() {
    assert_eq!(match_bracket(Some(b'a'), 1, b"a", 0, b"[a", 0), None);
}

#[test]
fn expand_expands_here_documents_without_field_splitting() {
    let mut ctx = FakeContext::new();
    let expanded = expand_here_document(
        &mut ctx,
        b"hello $USER\n$(printf hi)\n$((1 + 2))\n",
        0)
    .expect("expand heredoc");
    assert_eq!(expanded, b"hello meiksh\nprintf hi\n3\n");

    let escaped = expand_here_document(&mut ctx, b"\\$USER\nline\\\ncontinued\n", 0)
        .expect("expand heredoc");
    assert_eq!(escaped, b"$USER\nlinecontinued\n");

    let trailing = expand_here_document(&mut ctx, b"keep\\", 0).expect("expand heredoc");
    assert_eq!(trailing, b"keep\\");

    let literal = expand_here_document(&mut ctx, b"\\x", 0).expect("expand heredoc");
    assert_eq!(literal, b"\\x");

    let double_backslash = expand_here_document(&mut ctx, b"a\\\\b\n", 0)
        .expect("expand heredoc double backslash");
    assert_eq!(double_backslash, b"a\\b\n");
}

#[test]
fn quoted_at_produces_separate_fields() {
    let mut ctx = FakeContext::new();
    ctx.positional = vec![b"a".to_vec(), b"b".to_vec(), b"c".to_vec()];
    assert_eq!(
        expand_word(
            &mut ctx,
            &Word {
                raw: b"\"$@\"".as_ref().into(),
                line: 0
            })
        .expect("quoted at 3"),
        vec![b"a".as_ref(), b"b", b"c"]
    );

    ctx.positional = vec![b"one".to_vec()];
    assert_eq!(
        expand_word(
            &mut ctx,
            &Word {
                raw: b"\"$@\"".as_ref().into(),
                line: 0
            })
        .expect("quoted at 1"),
        vec![b"one".as_ref()]
    );

    ctx.positional = Vec::new();
    assert_eq!(
        expand_word(
            &mut ctx,
            &Word {
                raw: b"\"$@\"".as_ref().into(),
                line: 0
            })
        .expect("quoted at 0"),
        Vec::<&[u8]>::new()
    );
}

#[test]
fn quoted_at_with_prefix_and_suffix() {
    let mut ctx = FakeContext::new();
    ctx.positional = vec![b"a".to_vec(), b"b".to_vec()];
    assert_eq!(
        expand_word(
            &mut ctx,
            &Word {
                raw: b"\"pre$@suf\"".as_ref().into(),
                line: 0
            })
        .expect("prefix suffix"),
        vec![b"prea".as_ref(), b"bsuf"]
    );

    ctx.positional = vec![b"only".to_vec()];
    assert_eq!(
        expand_word(
            &mut ctx,
            &Word {
                raw: b"\"[$@]\"".as_ref().into(),
                line: 0
            })
        .expect("brackets one"),
        vec![b"[only]".as_ref()]
    );

    ctx.positional = Vec::new();
    assert_eq!(
        expand_word(
            &mut ctx,
            &Word {
                raw: b"\"pre$@suf\"".as_ref().into(),
                line: 0
            })
        .expect("prefix empty"),
        vec![b"presuf".as_ref()]
    );
}

#[test]
fn quoted_at_at_produces_merged_fields() {
    let mut ctx = FakeContext::new();
    ctx.positional = vec![b"a".to_vec(), b"b".to_vec()];
    assert_eq!(
        expand_word(
            &mut ctx,
            &Word {
                raw: b"\"$@$@\"".as_ref().into(),
                line: 0
            })
        .expect("at at"),
        vec![b"a".as_ref(), b"ba", b"b"]
    );
}

#[test]
fn unquoted_at_undergoes_field_splitting() {
    let mut ctx = FakeContext::new();
    ctx.positional = vec![b"a b".to_vec(), b"c".to_vec()];
    assert_eq!(
        expand_word(
            &mut ctx,
            &Word {
                raw: b"$@".as_ref().into(),
                line: 0
            })
        .expect("unquoted at"),
        vec![b"a".as_ref(), b"b", b"c"]
    );

    ctx.positional = Vec::new();
    assert_eq!(
        expand_word(
            &mut ctx,
            &Word {
                raw: b"$@".as_ref().into(),
                line: 0
            })
        .expect("unquoted at empty"),
        Vec::<&[u8]>::new()
    );
}

#[test]
fn quoted_star_joins_with_ifs() {
    let mut ctx = FakeContext::new();
    ctx.positional = vec![b"a".to_vec(), b"b".to_vec(), b"c".to_vec()];
    ctx.env.insert(b"IFS".to_vec(), b":".to_vec());
    assert_eq!(
        expand_word(
            &mut ctx,
            &Word {
                raw: b"\"$*\"".as_ref().into(),
                line: 0
            })
        .expect("star colon"),
        vec![b"a:b:c".as_ref()]
    );

    ctx.env.insert(b"IFS".to_vec(), Vec::new());
    assert_eq!(
        expand_word(
            &mut ctx,
            &Word {
                raw: b"\"$*\"".as_ref().into(),
                line: 0
            })
        .expect("star empty ifs"),
        vec![b"abc".as_ref()]
    );

    ctx.env.remove(b"IFS".as_ref());
    assert_eq!(
        expand_word(
            &mut ctx,
            &Word {
                raw: b"\"$*\"".as_ref().into(),
                line: 0
            })
        .expect("star unset ifs"),
        vec![b"a b c".as_ref()]
    );
}

#[test]
fn backtick_command_substitution_in_expander() {
    let mut ctx = FakeContext::new();
    assert_eq!(
        expand_word(
            &mut ctx,
            &Word {
                raw: b"`echo hello`".as_ref().into(),
                line: 0
            })
        .expect("backtick"),
        vec![b"echo".as_ref(), b"hello"]
    );
    assert_eq!(
        expand_word(
            &mut ctx,
            &Word {
                raw: b"\"`echo hello`\"".as_ref().into(),
                line: 0
            })
        .expect("quoted bt"),
        vec![b"echo hello".as_ref()]
    );
}

#[test]
fn backtick_backslash_escapes() {
    let mut ctx = FakeContext::new();
    assert_eq!(
        expand_word_text(
            &mut ctx,
            &Word {
                raw: b"`echo \\$USER`".as_ref().into(),
                line: 0
            })
        .expect("escaped dollar"),
        b"echo $USER"
    );
    assert_eq!(
        expand_word_text(
            &mut ctx,
            &Word {
                raw: b"\"`echo \\$USER`\"".as_ref().into(),
                line: 0
            })
        .expect("escaped dollar dq"),
        b"echo $USER"
    );
}

#[test]
fn brace_scanning_respects_quotes_and_nesting() {
    let mut ctx = FakeContext::new();
    ctx.env.insert(b"VAR".to_vec(), Vec::new());

    assert_eq!(
        expand_word_text(
            &mut ctx,
            &Word {
                raw: b"${VAR:-\"a}b\"}".as_ref().into(),
                line: 0
            })
        .expect("quoted brace in default"),
        b"a}b"
    );

    assert_eq!(
        expand_word_text(
            &mut ctx,
            &Word {
                raw: b"${VAR:-$(echo ok)}".as_ref().into(),
                line: 0
            })
        .expect("command sub in brace"),
        b"echo ok"
    );

    assert_eq!(
        expand_word_text(
            &mut ctx,
            &Word {
                raw: b"${VAR:-$((1+2))}".as_ref().into(),
                line: 0
            })
        .expect("arith in brace"),
        b"3"
    );

    ctx.env.insert(b"INNER".to_vec(), b"val".to_vec());
    assert_eq!(
        expand_word_text(
            &mut ctx,
            &Word {
                raw: b"${VAR:-${INNER}}".as_ref().into(),
                line: 0
            })
        .expect("nested brace"),
        b"val"
    );

    assert_eq!(
        expand_word_text(
            &mut ctx,
            &Word {
                raw: b"${VAR:-`echo hi`}".as_ref().into(),
                line: 0
            })
        .expect("backtick in brace"),
        b"echo hi"
    );

    assert_eq!(
        expand_word_text(
            &mut ctx,
            &Word {
                raw: b"${VAR:-'a}b'}".as_ref().into(),
                line: 0
            })
        .expect("single quote in brace"),
        b"a}b"
    );

    assert_eq!(
        expand_word_text(
            &mut ctx,
            &Word {
                raw: b"${VAR:-\\}}".as_ref().into(),
                line: 0
            })
        .expect("escaped brace"),
        b"}"
    );
}

#[test]
fn expand_here_document_expands_at_sign() {
    let mut ctx = FakeContext::new();
    ctx.positional = vec![b"x".to_vec(), b"y".to_vec()];
    let result = expand_here_document(&mut ctx, b"$@\n", 0).expect("heredoc at");
    assert_eq!(result, b"x y\n");
}

#[test]
fn error_parameter_expansion_operators() {
    let mut ctx = FakeContext::new();
    let error = expand_word(
        &mut ctx,
        &Word {
            raw: b"${UNSET:?custom error}".as_ref().into(),
            line: 0,
        })
    .expect_err("colon question");
    assert_eq!(&*error.message, b"custom error".as_ref());

    let error = expand_word(
        &mut ctx,
        &Word {
            raw: b"${UNSET?also error}".as_ref().into(),
            line: 0,
        })
    .expect_err("question");
    assert_eq!(&*error.message, b"also error".as_ref());
}

#[test]
fn segment_bytes_skips_at_break() {
    let segs = vec![
        Segment::Text(b"a".to_vec(), QuoteState::Expanded),
        Segment::AtBreak,
        Segment::Text(b"b".to_vec(), QuoteState::Quoted),
    ];
    let chars: Vec<_> = segment_bytes(&segs);
    assert_eq!(
        chars,
        vec![(b'a', QuoteState::Expanded), (b'b', QuoteState::Quoted)]
    );
}

#[test]
fn expand_scan_to_closing_brace_error_on_unterminated() {
    let err = scan_to_closing_brace(b"${var", 2).expect_err("unterminated");
    assert_eq!(&*err.message, b"unterminated parameter expansion".as_ref());
}

#[test]
fn expand_word_empty_quoted_at_with_other_quoted() {
    let mut ctx = FakeContext::new();
    ctx.positional = Vec::new();
    assert_eq!(
        expand_word(
            &mut ctx,
            &Word {
                raw: b"\"\"\"$@\"".as_ref().into(),
                line: 0
            })
        .expect("empty at dq"),
        vec![b"".as_ref()]
    );
}

#[test]
fn backtick_inside_double_quotes_with_buffer() {
    let mut ctx = FakeContext::new();
    assert_eq!(
        expand_word(
            &mut ctx,
            &Word {
                raw: b"\"hello `echo world`\"".as_ref().into(),
                line: 0
            })
        .expect("bt dq buffer"),
        vec![b"hello echo world".as_ref()]
    );
}

#[test]
fn scan_backtick_command_unterminated() {
    let mut index = 1usize;
    let err =
        scan_backtick_command(b"`unterminated", &mut index, false).expect_err("unterminated");
    assert_eq!(&*err.message, b"unterminated backquote".as_ref());
}

#[test]
fn scan_backtick_command_escape_outside_dq() {
    let mut index = 1usize;
    let result = scan_backtick_command(b"`echo \\\\ok`", &mut index, false).expect("bt escape");
    assert_eq!(result, b"echo \\ok");
}

#[test]
fn expand_here_document_with_at_expansion() {
    let mut ctx = FakeContext::new();
    ctx.positional = vec![b"a".to_vec(), b"b".to_vec()];
    let result = expand_here_document(&mut ctx, b"args: $@\n", 0).expect("heredoc @");
    assert_eq!(result, b"args: a b\n");
}

#[test]
fn brace_scanning_handles_complex_nesting() {
    let mut ctx = FakeContext::new();
    ctx.env.insert(b"VAR".to_vec(), Vec::new());

    assert_eq!(
        expand_word_text(
            &mut ctx,
            &Word {
                raw: b"${VAR:-$((2+3))}".as_ref().into(),
                line: 0
            })
        .expect("arith in brace scan"),
        b"5"
    );

    assert_eq!(
        expand_word_text(
            &mut ctx,
            &Word {
                raw: b"${VAR:-$(echo deep)}".as_ref().into(),
                line: 0
            })
        .expect("cmd sub in brace scan"),
        b"echo deep"
    );

    assert_eq!(
        expand_word_text(
            &mut ctx,
            &Word {
                raw: b"${VAR:-`echo bt`}".as_ref().into(),
                line: 0
            })
        .expect("backtick in brace scan"),
        b"echo bt"
    );

    assert_eq!(
        expand_word_text(
            &mut ctx,
            &Word {
                raw: b"${VAR:-\"inside\"}".as_ref().into(),
                line: 0
            })
        .expect("dq in brace scan with escape"),
        b"inside"
    );
}

#[test]
fn error_parameter_expansion_with_null_or_not_set() {
    let mut ctx = FakeContext::new();
    ctx.env.insert(b"EMPTY".to_vec(), Vec::new());

    let err = expand_word(
        &mut ctx,
        &Word {
            raw: b"${EMPTY:?null or unset}".as_ref().into(),
            line: 0,
        })
    .expect_err("colon question null");
    assert_eq!(&*err.message, b"null or unset".as_ref());

    let ok = expand_word(
        &mut ctx,
        &Word {
            raw: b"\"${EMPTY?not an error}\"".as_ref().into(),
            line: 0,
        })
    .expect("question set but empty");
    assert_eq!(ok, vec![b"".as_ref()]);

    let err = expand_word(
        &mut ctx,
        &Word {
            raw: b"${NOEXIST?custom msg}".as_ref().into(),
            line: 0,
        })
    .expect_err("question unset");
    assert_eq!(&*err.message, b"custom msg".as_ref());
}

#[test]
fn field_splitting_empty_result_returns_empty_vec() {
    let mut ctx = FakeContext::new();
    ctx.env.insert(b"WS".to_vec(), b"   ".to_vec());
    assert_eq!(
        expand_word(
            &mut ctx,
            &Word {
                raw: b"$WS".as_ref().into(),
                line: 0
            })
        .expect("whitespace only"),
        Vec::<&[u8]>::new()
    );
}

#[test]
fn at_break_with_glob_in_at_fields() {
    let mut ctx = FakeContext::new();
    ctx.pathname_expansion_enabled = false;
    ctx.positional = vec![b"*.txt".to_vec(), b"b".to_vec()];
    let result = expand_word(
        &mut ctx,
        &Word {
            raw: b"\"$@\"".as_ref().into(),
            line: 0,
        })
    .expect("at with glob-like");
    assert_eq!(result, vec![b"*.txt".as_ref(), b"b"]);
}

#[test]
fn flatten_expansion_covers_at_fields() {
    assert_eq!(flatten_expansion(Expansion::One(b"hello".to_vec())), b"hello");
    assert_eq!(
        flatten_expansion(Expansion::AtFields(vec![b"a".to_vec(), b"b".to_vec()])),
        b"a b"
    );
}

#[test]
fn scan_backtick_non_special_escape_in_dquote() {
    let mut index = 1usize;
    let result =
        scan_backtick_command(b"`echo \\x`", &mut index, true).expect("non-special escape");
    assert_eq!(result, b"echo \\x");
}

#[test]
fn at_empty_combined_with_at_break() {
    let mut ctx = FakeContext::new();
    ctx.positional = vec![b"x".to_vec()];
    let result = expand_word(
        &mut ctx,
        &Word {
            raw: b"\"$@\"".as_ref().into(),
            line: 0,
        })
    .expect("at one param");
    assert_eq!(result, vec![b"x".as_ref()]);

    ctx.positional = Vec::new();
    let result2 = expand_word(
        &mut ctx,
        &Word {
            raw: b"\"$@\"".as_ref().into(),
            line: 0,
        })
    .expect("at empty");
    assert_eq!(result2, Vec::<&[u8]>::new());
}

#[test]
fn brace_scanning_with_arith_and_cmd_sub_and_backtick() {
    let mut ctx = FakeContext::new();
    ctx.env.insert(b"V".to_vec(), Vec::new());

    assert_eq!(
        expand_word_text(
            &mut ctx,
            &Word {
                raw: b"${V:-$((1+(2*3)))}".as_ref().into(),
                line: 0
            })
        .expect("nested arith in scan"),
        b"7"
    );

    assert_eq!(
        expand_word_text(
            &mut ctx,
            &Word {
                raw: b"${V:-$(echo (hi))}".as_ref().into(),
                line: 0
            })
        .expect("nested cmd sub in scan"),
        b"echo (hi)"
    );

    assert_eq!(
        expand_word_text(
            &mut ctx,
            &Word {
                raw: b"${V:-`echo \\\\x`}".as_ref().into(),
                line: 0
            })
        .expect("bt escape in scan"),
        b"echo \\x"
    );

    assert_eq!(
        expand_word_text(
            &mut ctx,
            &Word {
                raw: b"${V:-\"q\\}x\"}".as_ref().into(),
                line: 0
            })
        .expect("dq escape in scan"),
        b"q}x"
    );
}

#[test]
fn colon_question_error_with_null_value() {
    let mut ctx = FakeContext::new();
    ctx.env.insert(b"NULL".to_vec(), Vec::new());
    let err = expand_word(
        &mut ctx,
        &Word {
            raw: b"${NULL:?is null}".as_ref().into(),
            line: 0,
        })
    .expect_err(":? with null");
    assert_eq!(&*err.message, b"is null".as_ref());

    ctx.nounset_enabled = true;
    let err = expand_word(
        &mut ctx,
        &Word {
            raw: b"${NULL:?$NOVAR}".as_ref().into(),
            line: 0,
        })
    .expect_err(":? nounset propagation");
    assert_eq!(&*err.message, b"NOVAR: parameter not set".as_ref());

    let err = expand_word(
        &mut ctx,
        &Word {
            raw: b"${NOEXIST?$NOVAR}".as_ref().into(),
            line: 0,
        })
    .expect_err("? nounset propagation");
    assert_eq!(&*err.message, b"NOVAR: parameter not set".as_ref());
}

#[test]
fn question_error_with_unset_default_message() {
    let mut ctx = FakeContext::new();
    let err = expand_word(
        &mut ctx,
        &Word {
            raw: b"${NOVAR?}".as_ref().into(),
            line: 0,
        })
    .expect_err("? with unset");
    assert_eq!(&*err.message, b"NOVAR: parameter not set".as_ref());

    ctx.env.insert(b"SET".to_vec(), b"val".to_vec());
    assert_eq!(
        expand_word_text(
            &mut ctx,
            &Word {
                raw: b"${SET:?no error}".as_ref().into(),
                line: 0
            })
        .expect(":? success"),
        b"val"
    );
    assert_eq!(
        expand_word_text(
            &mut ctx,
            &Word {
                raw: b"${SET?no error}".as_ref().into(),
                line: 0
            })
        .expect("? success"),
        b"val"
    );

    let err_colon = expand_word(
        &mut ctx,
        &Word {
            raw: b"${NOVAR:?}".as_ref().into(),
            line: 0,
        })
    .expect_err(":? with unset");
    assert_eq!(&*err_colon.message, b"NOVAR: parameter null or not set".as_ref());
}

#[test]
fn dquote_backslash_preserves_literal_for_non_special_chars() {
    let mut ctx = FakeContext::new();
    let fields = expand_word(
        &mut ctx,
        &Word {
            raw: b"\"\\a\\b\\c\"".as_ref().into(),
            line: 0,
        })
    .expect("dquote bs");
    assert_eq!(fields, vec![b"\\a\\b\\c".as_ref()]);
}

#[test]
fn dquote_backslash_escapes_special_chars() {
    let mut ctx = FakeContext::new();
    assert_eq!(
        expand_word(
            &mut ctx,
            &Word {
                raw: b"\"\\$\"".as_ref().into(),
                line: 0
            })
        .expect("escape $"),
        vec![b"$".as_ref()]
    );
    assert_eq!(
        expand_word(
            &mut ctx,
            &Word {
                raw: b"\"\\\\\"".as_ref().into(),
                line: 0
            })
        .expect("escape bs"),
        vec![b"\\".as_ref()]
    );
    assert_eq!(
        expand_word(
            &mut ctx,
            &Word {
                raw: b"\"\\\"\"".as_ref().into(),
                line: 0
            })
        .expect("escape dq"),
        vec![b"\"".as_ref()],
    );
    assert_eq!(
        expand_word(
            &mut ctx,
            &Word {
                raw: b"\"\\`\"".as_ref().into(),
                line: 0,
            })
        .expect("escape bt"),
        vec![b"`".as_ref()]
    );
}

#[test]
fn dquote_backslash_newline_is_line_continuation() {
    let mut ctx = FakeContext::new();
    let fields = expand_word(
        &mut ctx,
        &Word {
            raw: b"\"ab\\\ncd\"".as_ref().into(),
            line: 0,
        })
    .expect("line continuation");
    assert_eq!(fields, vec![b"abcd".as_ref()]);
}

#[test]
fn tilde_user_expansion() {
    let mut ctx = FakeContext::new();
    let fields = expand_word(
        &mut ctx,
        &Word {
            raw: b"~testuser/bin".as_ref().into(),
            line: 0,
        })
    .expect("tilde user");
    assert_eq!(fields, vec![b"/home/testuser/bin".as_ref()]);
}

#[test]
fn tilde_unknown_user_preserved() {
    let mut ctx = FakeContext::new();
    let fields = expand_word(
        &mut ctx,
        &Word {
            raw: b"~nosuchuser/dir".as_ref().into(),
            line: 0,
        })
    .expect("tilde unknown");
    assert_eq!(fields, vec![b"~nosuchuser/dir".as_ref()]);
}

#[test]
fn tilde_user_without_slash() {
    let mut ctx = FakeContext::new();
    let fields = expand_word(
        &mut ctx,
        &Word {
            raw: b"~testuser".as_ref().into(),
            line: 0,
        })
    .expect("tilde user no slash");
    assert_eq!(fields, vec![b"/home/testuser".as_ref()]);
}

#[test]
fn tilde_after_colon_in_assignment() {
    let mut ctx = FakeContext::new();
    let result = expand_assignment_value(
        &mut ctx,
        &Word {
            raw: b"~/bin:~testuser/lib".as_ref().into(),
            line: 0,
        })
    .expect("tilde colon");
    assert_eq!(result, b"/tmp/home/bin:/home/testuser/lib");
}

#[test]
fn arith_variable_reference() {
    let mut ctx = FakeContext::new();
    ctx.env.insert(b"count".to_vec(), b"7".to_vec());
    let fields = expand_word(
        &mut ctx,
        &Word {
            raw: b"$((count + 3))".as_ref().into(),
            line: 0,
        })
    .expect("arith var");
    assert_eq!(fields, vec![b"10".as_ref()]);
}

#[test]
fn arith_dollar_variable_reference() {
    let mut ctx = FakeContext::new();
    ctx.env.insert(b"n".to_vec(), b"5".to_vec());
    let fields = expand_word(
        &mut ctx,
        &Word {
            raw: b"$(($n * 2))".as_ref().into(),
            line: 0,
        })
    .expect("arith $var");
    assert_eq!(fields, vec![b"10".as_ref()]);
}

#[test]
fn arith_comparison_operators() {
    let mut ctx = FakeContext::new();
    assert_eq!(expand_word(&mut ctx, &Word { raw: b"$((3 < 5))".as_ref().into(), line: 0 }).unwrap(), vec![b"1".as_ref()]);
    assert_eq!(expand_word(&mut ctx, &Word { raw: b"$((5 < 3))".as_ref().into(), line: 0 }).unwrap(), vec![b"0".as_ref()]);
    assert_eq!(expand_word(&mut ctx, &Word { raw: b"$((3 <= 3))".as_ref().into(), line: 0 }).unwrap(), vec![b"1".as_ref()]);
    assert_eq!(expand_word(&mut ctx, &Word { raw: b"$((5 > 3))".as_ref().into(), line: 0 }).unwrap(), vec![b"1".as_ref()]);
    assert_eq!(expand_word(&mut ctx, &Word { raw: b"$((3 >= 5))".as_ref().into(), line: 0 }).unwrap(), vec![b"0".as_ref()]);
    assert_eq!(expand_word(&mut ctx, &Word { raw: b"$((3 == 3))".as_ref().into(), line: 0 }).unwrap(), vec![b"1".as_ref()]);
    assert_eq!(expand_word(&mut ctx, &Word { raw: b"$((3 != 5))".as_ref().into(), line: 0 }).unwrap(), vec![b"1".as_ref()]);
}

#[test]
fn arith_bitwise_operators() {
    let mut ctx = FakeContext::new();
    assert_eq!(expand_word(&mut ctx, &Word { raw: b"$((6 & 3))".as_ref().into(), line: 0 }).unwrap(), vec![b"2".as_ref()]);
    assert_eq!(expand_word(&mut ctx, &Word { raw: b"$((6 | 3))".as_ref().into(), line: 0 }).unwrap(), vec![b"7".as_ref()]);
    assert_eq!(expand_word(&mut ctx, &Word { raw: b"$((6 ^ 3))".as_ref().into(), line: 0 }).unwrap(), vec![b"5".as_ref()]);
    assert_eq!(expand_word(&mut ctx, &Word { raw: b"$((~0))".as_ref().into(), line: 0 }).unwrap(), vec![b"-1".as_ref()]);
    assert_eq!(expand_word(&mut ctx, &Word { raw: b"$((1 << 4))".as_ref().into(), line: 0 }).unwrap(), vec![b"16".as_ref()]);
    assert_eq!(expand_word(&mut ctx, &Word { raw: b"$((16 >> 2))".as_ref().into(), line: 0 }).unwrap(), vec![b"4".as_ref()]);
}

#[test]
fn arith_logical_operators() {
    let mut ctx = FakeContext::new();
    assert_eq!(expand_word(&mut ctx, &Word { raw: b"$((1 && 1))".as_ref().into(), line: 0 }).unwrap(), vec![b"1".as_ref()]);
    assert_eq!(expand_word(&mut ctx, &Word { raw: b"$((1 && 0))".as_ref().into(), line: 0 }).unwrap(), vec![b"0".as_ref()]);
    assert_eq!(expand_word(&mut ctx, &Word { raw: b"$((0 || 1))".as_ref().into(), line: 0 }).unwrap(), vec![b"1".as_ref()]);
    assert_eq!(expand_word(&mut ctx, &Word { raw: b"$((0 || 0))".as_ref().into(), line: 0 }).unwrap(), vec![b"0".as_ref()]);
    assert_eq!(expand_word(&mut ctx, &Word { raw: b"$((!0))".as_ref().into(), line: 0 }).unwrap(), vec![b"1".as_ref()]);
    assert_eq!(expand_word(&mut ctx, &Word { raw: b"$((!5))".as_ref().into(), line: 0 }).unwrap(), vec![b"0".as_ref()]);
}

#[test]
fn arith_logical_and_short_circuits() {
    let mut ctx = FakeContext::new();
    ctx.env.insert(b"x".to_vec(), b"0".to_vec());
    expand_word(&mut ctx, &Word { raw: b"$((0 && (x = 5)))".as_ref().into(), line: 0 }).unwrap();
    assert_eq!(ctx.env.get(b"x".as_ref()).unwrap(), b"0");
}

#[test]
fn arith_logical_or_short_circuits() {
    let mut ctx = FakeContext::new();
    ctx.env.insert(b"x".to_vec(), b"0".to_vec());
    expand_word(&mut ctx, &Word { raw: b"$((1 || (x = 5)))".as_ref().into(), line: 0 }).unwrap();
    assert_eq!(ctx.env.get(b"x".as_ref()).unwrap(), b"0");
}

#[test]
fn arith_ternary_short_circuits() {
    let mut ctx = FakeContext::new();
    ctx.env.insert(b"x".to_vec(), b"0".to_vec());
    expand_word(&mut ctx, &Word { raw: b"$((1 ? 10 : (x = 99)))".as_ref().into(), line: 0 }).unwrap();
    assert_eq!(ctx.env.get(b"x".as_ref()).unwrap(), b"0");
}

#[test]
fn arith_ternary_operator() {
    let mut ctx = FakeContext::new();
    assert_eq!(expand_word(&mut ctx, &Word { raw: b"$((1 ? 10 : 20))".as_ref().into(), line: 0 }).unwrap(), vec![b"10".as_ref()]);
    assert_eq!(expand_word(&mut ctx, &Word { raw: b"$((0 ? 10 : 20))".as_ref().into(), line: 0 }).unwrap(), vec![b"20".as_ref()]);
}

#[test]
fn arith_assignment_operators() {
    let mut ctx = FakeContext::new();
    ctx.env.insert(b"x".to_vec(), b"10".to_vec());
    assert_eq!(expand_word(&mut ctx, &Word { raw: b"$((x = 5))".as_ref().into(), line: 0 }).unwrap(), vec![b"5".as_ref()]);
    assert_eq!(ctx.env.get(b"x".as_ref()).unwrap(), b"5");

    assert_eq!(expand_word(&mut ctx, &Word { raw: b"$((x += 3))".as_ref().into(), line: 0 }).unwrap(), vec![b"8".as_ref()]);
    assert_eq!(ctx.env.get(b"x".as_ref()).unwrap(), b"8");

    assert_eq!(expand_word(&mut ctx, &Word { raw: b"$((x -= 2))".as_ref().into(), line: 0 }).unwrap(), vec![b"6".as_ref()]);
    assert_eq!(expand_word(&mut ctx, &Word { raw: b"$((x *= 3))".as_ref().into(), line: 0 }).unwrap(), vec![b"18".as_ref()]);
    assert_eq!(expand_word(&mut ctx, &Word { raw: b"$((x /= 6))".as_ref().into(), line: 0 }).unwrap(), vec![b"3".as_ref()]);
    assert_eq!(expand_word(&mut ctx, &Word { raw: b"$((x %= 2))".as_ref().into(), line: 0 }).unwrap(), vec![b"1".as_ref()]);

    ctx.env.insert(b"x".to_vec(), b"4".to_vec());
    assert_eq!(expand_word(&mut ctx, &Word { raw: b"$((x <<= 2))".as_ref().into(), line: 0 }).unwrap(), vec![b"16".as_ref()]);
    assert_eq!(expand_word(&mut ctx, &Word { raw: b"$((x >>= 1))".as_ref().into(), line: 0 }).unwrap(), vec![b"8".as_ref()]);
    assert_eq!(expand_word(&mut ctx, &Word { raw: b"$((x &= 3))".as_ref().into(), line: 0 }).unwrap(), vec![b"0".as_ref()]);

    ctx.env.insert(b"x".to_vec(), b"5".to_vec());
    assert_eq!(expand_word(&mut ctx, &Word { raw: b"$((x |= 2))".as_ref().into(), line: 0 }).unwrap(), vec![b"7".as_ref()]);
    assert_eq!(expand_word(&mut ctx, &Word { raw: b"$((x ^= 3))".as_ref().into(), line: 0 }).unwrap(), vec![b"4".as_ref()]);
}

#[test]
fn arith_hex_and_octal_constants() {
    let mut ctx = FakeContext::new();
    assert_eq!(expand_word(&mut ctx, &Word { raw: b"$((0xff))".as_ref().into(), line: 0 }).unwrap(), vec![b"255".as_ref()]);
    assert_eq!(expand_word(&mut ctx, &Word { raw: b"$((0X1A))".as_ref().into(), line: 0 }).unwrap(), vec![b"26".as_ref()]);
    assert_eq!(expand_word(&mut ctx, &Word { raw: b"$((010))".as_ref().into(), line: 0 }).unwrap(), vec![b"8".as_ref()]);
    assert_eq!(expand_word(&mut ctx, &Word { raw: b"$((0))".as_ref().into(), line: 0 }).unwrap(), vec![b"0".as_ref()]);
}

#[test]
fn arith_unary_plus() {
    let mut ctx = FakeContext::new();
    assert_eq!(expand_word(&mut ctx, &Word { raw: b"$((+5))".as_ref().into(), line: 0 }).unwrap(), vec![b"5".as_ref()]);
}

#[test]
fn arith_unset_variable_is_zero() {
    let mut ctx = FakeContext::new();
    assert_eq!(expand_word(&mut ctx, &Word { raw: b"$((nosuch))".as_ref().into(), line: 0 }).unwrap(), vec![b"0".as_ref()]);
}

#[test]
fn arith_nested_parens_and_precedence() {
    let mut ctx = FakeContext::new();
    assert_eq!(expand_word(&mut ctx, &Word { raw: b"$((2 + 3 * 4))".as_ref().into(), line: 0 }).unwrap(), vec![b"14".as_ref()]);
    assert_eq!(expand_word(&mut ctx, &Word { raw: b"$(((2 + 3) * 4))".as_ref().into(), line: 0 }).unwrap(), vec![b"20".as_ref()]);
}

#[test]
fn arith_variable_in_hex_value() {
    let mut ctx = FakeContext::new();
    ctx.env.insert(b"h".to_vec(), b"0xff".to_vec());
    assert_eq!(expand_word(&mut ctx, &Word { raw: b"$((h))".as_ref().into(), line: 0 }).unwrap(), vec![b"255".as_ref()]);
}

#[test]
fn arith_variable_in_octal_value() {
    let mut ctx = FakeContext::new();
    ctx.env.insert(b"o".to_vec(), b"010".to_vec());
    assert_eq!(expand_word(&mut ctx, &Word { raw: b"$((o))".as_ref().into(), line: 0 }).unwrap(), vec![b"8".as_ref()]);
}

#[test]
fn split_colons_handles_quotes_and_backslash() {
    let parts = split_on_unquoted_colons(b"'b:c':d");
    assert_eq!(parts, vec![b"'b:c'".to_vec(), b"d".to_vec()]);

    let parts = split_on_unquoted_colons(b"\"b:c\":d");
    assert_eq!(parts, vec![b"\"b:c\"".to_vec(), b"d".to_vec()]);

    let parts = split_on_unquoted_colons(b"a\\:b:c");
    assert_eq!(parts, vec![b"a\\:b".to_vec(), b"c".to_vec()]);

    let parts = split_on_unquoted_colons(b"\"a\\\"b\":c");
    assert_eq!(parts, vec![b"\"a\\\"b\"".to_vec(), b"c".to_vec()]);

    let parts = split_on_unquoted_colons(b"${x:-a:b}:c");
    assert_eq!(parts, vec![b"${x:-a:b}".to_vec(), b"c".to_vec()]);

    let parts = split_on_unquoted_colons(b"$(echo a:b):c");
    assert_eq!(parts, vec![b"$(echo a:b)".to_vec(), b"c".to_vec()]);

    let parts = split_on_unquoted_colons(b"${a:-${b:-x:y}}:z");
    assert_eq!(parts, vec![b"${a:-${b:-x:y}}".to_vec(), b"z".to_vec()]);
}

#[test]
fn dquote_trailing_backslash_is_literal() {
    let mut ctx = FakeContext::new();
    let fields = expand_word(
        &mut ctx,
        &Word {
            raw: b"\"abc\\".as_ref().into(),
            line: 0,
        });
    assert!(fields.is_err());
}

#[test]
fn tilde_with_quoted_char_breaks_tilde_prefix() {
    let mut ctx = FakeContext::new();
    let fields = expand_word(
        &mut ctx,
        &Word {
            raw: b"~'user'".as_ref().into(),
            line: 0,
        })
    .expect("tilde quoted");
    assert_eq!(fields, vec![b"~user".as_ref()]);
}

#[test]
fn arith_backtick_in_expression() {
    let mut ctx = FakeContext::new();
    let fields = expand_word(
        &mut ctx,
        &Word {
            raw: b"$((`7` + 3))".as_ref().into(),
            line: 0,
        })
    .expect("arith backtick");
    assert_eq!(fields, vec![b"10".as_ref()]);
}

#[test]
fn arith_not_equal_via_parse_unary() {
    let mut ctx = FakeContext::new();
    assert_eq!(expand_word(&mut ctx, &Word { raw: b"$((3 != 3))".as_ref().into(), line: 0 }).unwrap(), vec![b"0".as_ref()]);
}

#[test]
fn arith_compound_assign_div_by_zero() {
    let mut ctx = FakeContext::new();
    ctx.env.insert(b"x".to_vec(), b"5".to_vec());
    let err = expand_word(&mut ctx, &Word { raw: b"$((x /= 0))".as_ref().into(), line: 0 }).unwrap_err();
    assert_eq!(&*err.message, b"division by zero".as_ref());

    ctx.env.insert(b"x".to_vec(), b"5".to_vec());
    let err = expand_word(&mut ctx, &Word { raw: b"$((x %= 0))".as_ref().into(), line: 0 }).unwrap_err();
    assert_eq!(&*err.message, b"division by zero".as_ref());
}

#[test]
fn tilde_colon_assignment_with_quotes() {
    let mut ctx = FakeContext::new();
    let result = expand_assignment_value(
        &mut ctx,
        &Word {
            raw: b"~/a:'literal:colon'".as_ref().into(),
            line: 0,
        })
    .expect("colon assign with quotes");
    assert_eq!(result, b"/tmp/home/a:literal:colon");
}

#[test]
fn arith_equality_not_confused_with_assignment() {
    let mut ctx = FakeContext::new();
    ctx.env.insert(b"x".to_vec(), b"5".to_vec());
    assert_eq!(expand_word(&mut ctx, &Word { raw: b"$((x == 5))".as_ref().into(), line: 0 }).unwrap(), vec![b"1".as_ref()]);
    assert_eq!(expand_word(&mut ctx, &Word { raw: b"$((x == 3))".as_ref().into(), line: 0 }).unwrap(), vec![b"0".as_ref()]);
}

#[test]
fn arith_ternary_missing_colon_error() {
    let mut ctx = FakeContext::new();
    let err = expand_word(&mut ctx, &Word { raw: b"$((1 ? 2 3))".as_ref().into(), line: 0 }).unwrap_err();
    assert!(err.message.windows(3).any(|w| w == b"':'"));
}

#[test]
fn arith_invalid_hex_constant() {
    let mut ctx = FakeContext::new();
    let err = expand_word(&mut ctx, &Word { raw: b"$((0x))".as_ref().into(), line: 0 }).unwrap_err();
    assert!(err.message.windows(3).any(|w| w == b"hex"));
}

#[test]
fn arith_at_fields_in_expression() {
    let mut ctx = FakeContext::new();
    ctx.positional = vec![b"3".to_vec()];
    let fields = expand_word(
        &mut ctx,
        &Word {
            raw: b"$(($@ + 2))".as_ref().into(),
            line: 0,
        })
    .expect("at fields arith");
    assert_eq!(fields, vec![b"5".as_ref()]);
}

#[test]
fn expand_apply_compound_assign_unknown_op_returns_error() {
    let err = apply_compound_assign(b"??=", 1, 2).unwrap_err();
    assert!(err.message.windows(7).any(|w| w == b"unknown"));
}

#[test]
fn expand_braced_parameter_pattern_removal_operators() {
    assert_no_syscalls(|| {
        let mut ctx = FakeContext::new();
        ctx.env.insert(b"FILE".to_vec(), b"archive.tar.gz".to_vec());

        assert_eq!(
            expand_braced_parameter(&mut ctx, b"FILE%.*", false).unwrap(),
            Expansion::One(b"archive.tar".to_vec())
        );
        assert_eq!(
            expand_braced_parameter(&mut ctx, b"FILE%%.*", false).unwrap(),
            Expansion::One(b"archive".to_vec())
        );
        assert_eq!(
            expand_braced_parameter(&mut ctx, b"FILE#*.", false).unwrap(),
            Expansion::One(b"tar.gz".to_vec())
        );
        assert_eq!(
            expand_braced_parameter(&mut ctx, b"FILE##*.", false).unwrap(),
            Expansion::One(b"gz".to_vec())
        );
    });
}

#[test]
fn expand_scan_to_closing_brace_skips_backslash() {
    assert_no_syscalls(|| {
        let pos = scan_to_closing_brace(b"a\\}b}", 0).unwrap();
        assert_eq!(pos, 4);
    });
}

#[test]
fn expand_parameter_word_as_expansion_with_at_fields() {
    assert_no_syscalls(|| {
        let mut ctx = FakeContext::new();
        ctx.positional = vec![b"x".to_vec(), b"y".to_vec()];
        let result = expand_parameter_word_as_expansion(&mut ctx, b"\"$@\"", false).unwrap();
        assert_eq!(result, Expansion::AtFields(vec![b"x".to_vec(), b"y".to_vec()]));
    });
}

#[test]
fn expand_word_quoted_null_adjacent_to_empty_at() {
    assert_no_syscalls(|| {
        let mut ctx = FakeContext::new();
        ctx.positional = Vec::new();
        assert_eq!(
            expand_word(
                &mut ctx,
                &Word {
                    raw: b"''\"$@\"".as_ref().into(),
                    line: 0
                })
            .unwrap(),
            vec![b"".as_ref()]
        );
    });
}

#[test]
fn expand_redirect_word_no_pathname_expansion() {
    assert_no_syscalls(|| {
        let mut ctx = FakeContext::new();
        let result = expand_redirect_word(
            &mut ctx,
            &Word {
                raw: b"file_*.txt".as_ref().into(),
                line: 0,
            })
        .expect("redirect word");
        assert_eq!(result, b"file_*.txt");
    });
}

#[test]
fn redirect_word_empty_expansion() {
    assert_no_syscalls(|| {
        let mut ctx = FakeContext::new();
        let result = expand_redirect_word(
            &mut ctx,
            &Word {
                raw: b"$UNSET_VAR".as_ref().into(),
                line: 0,
            })
        .expect("redirect word empty");
        assert_eq!(result, b"");
    });
}

#[test]
fn expand_redirect_word_with_expanded_field_splitting() {
    assert_no_syscalls(|| {
        let mut ctx = FakeContext::new();
        ctx.env.insert(b"V".to_vec(), b"a b".to_vec());
        let result = expand_redirect_word(
            &mut ctx,
            &Word {
                raw: b"$V".as_ref().into(),
                line: 0,
            })
        .expect("redirect word split");
        assert_eq!(result, b"a b");
    });
}

#[test]
fn expand_here_doc_backtick_substitution() {
    assert_no_syscalls(|| {
        let mut ctx = FakeContext::new();
        let result = expand_here_document(&mut ctx, b"`echo ok`\n", 0)
            .expect("here doc backtick");
        assert_eq!(result, b"echo ok\n");
    });
}

#[test]
fn word_is_assignment_rejects_empty_and_non_identifier_prefix() {
    assert!(!word_is_assignment(b""));
    assert!(!word_is_assignment(b"a-b=c"));
}

#[test]
fn expand_fake_context_special_param_star_and_at() {
    let ctx = FakeContext::new();
    assert_eq!(ctx.special_param(b'*').as_deref(), Some(b"alpha beta".as_ref()));
    assert_eq!(ctx.special_param(b'@').as_deref(), Some(b"alpha beta".as_ref()));
}

#[test]
fn newline_inside_single_quote_increments_lineno() {
    let mut ctx = FakeContext::new();
    let fields = expand_word(
        &mut ctx,
        &Word {
            raw: b"'hello\nworld'".as_ref().into(),
            line: 1,
        })
    .expect("single quote newline");
    assert_eq!(fields, vec![b"hello\nworld".as_ref()]);
}

#[test]
fn newline_inside_double_quote_increments_lineno() {
    let mut ctx = FakeContext::new();
    let fields = expand_word(
        &mut ctx,
        &Word {
            raw: b"\"hello\nworld\"".as_ref().into(),
            line: 1,
        })
    .expect("double quote newline");
    assert_eq!(fields, vec![b"hello\nworld".as_ref()]);
}

#[test]
fn backslash_newline_inside_double_quote() {
    let mut ctx = FakeContext::new();
    let fields = expand_word(
        &mut ctx,
        &Word {
            raw: b"\"a\\\nb\"".as_ref().into(),
            line: 1,
        })
    .expect("backslash newline in dquote");
    assert_eq!(fields, vec![b"ab".as_ref()]);
}

#[test]
fn backslash_escape_in_unquoted_context() {
    let mut ctx = FakeContext::new();
    let fields = expand_word(
        &mut ctx,
        &Word {
            raw: b"\\a\\b".as_ref().into(),
            line: 1,
        })
    .expect("backslash escape");
    assert_eq!(fields, vec![b"ab".as_ref()]);
}

#[test]
fn backslash_newline_in_unquoted_context() {
    let mut ctx = FakeContext::new();
    let fields = expand_word(
        &mut ctx,
        &Word {
            raw: b"a\\\nb".as_ref().into(),
            line: 1,
        })
    .expect("backslash newline unquoted");
    assert_eq!(fields.len(), 1);
    assert!(fields[0].contains(&b'\n'));
}

#[test]
fn trailing_backslash_in_unquoted_context() {
    let mut ctx = FakeContext::new();
    let fields = expand_word(
        &mut ctx,
        &Word {
            raw: b"a\\".as_ref().into(),
            line: 1,
        })
    .expect("trailing backslash");
    assert_eq!(fields, vec![b"a".as_ref()]);
}

#[test]
fn bare_newline_in_unquoted_context() {
    let mut ctx = FakeContext::new();
    let fields = expand_word(
        &mut ctx,
        &Word {
            raw: b"hello\nworld".as_ref().into(),
            line: 1,
        })
    .expect("bare newline");
    assert_eq!(fields.len(), 1);
    assert!(fields[0].contains(&b'\n'));
}

#[test]
fn arithmetic_nounset_rejects_unset_variable() {
    let mut ctx = FakeContext::new();
    ctx.nounset_enabled = true;
    let result = expand_word(
        &mut ctx,
        &Word {
            raw: b"$((nosuch_var))".as_ref().into(),
            line: 0,
        });
    assert!(result.is_err());
}

fn raw_word(raw: &[u8]) -> Word {
    Word { raw: raw.to_vec(), line: 1 }
}

#[test]
fn word_arithmetic_parser_covers_more_operators() {
    let mut ctx = FakeContext::new();
    assert_eq!(eval_arithmetic(&mut ctx, b"9 - 2 - 1").expect("subtract"), 6);
    assert_eq!(eval_arithmetic(&mut ctx, b"8 / 2").expect("divide"), 4);
    assert_eq!(eval_arithmetic(&mut ctx, b"9 % 4").expect("modulo"), 1);
    assert_eq!(eval_arithmetic(&mut ctx, b"(1 + 2)").expect("parens"), 3);
    assert_eq!(eval_arithmetic(&mut ctx, b"-5").expect("negation"), -5);

    let error = eval_arithmetic(&mut ctx, b"5 % 0").expect_err("mod zero");
    assert_eq!(&*error.message, b"division by zero".as_ref());

    let error = eval_arithmetic(&mut ctx, b"999999999999999999999999999999999999999").expect_err("overflow");
    assert_eq!(&*error.message, b"invalid arithmetic operand".as_ref());
}

#[test]
fn lookup_param_covers_name_and_positional() {
    let ctx = FakeContext::new();
    assert_eq!(lookup_param(&ctx, b"?").as_deref(), Some(b"0".as_ref()));
    assert_eq!(lookup_param(&ctx, b"0").as_deref(), Some(b"meiksh".as_ref()));
    assert_eq!(lookup_param(&ctx, b"X").as_deref(), Some(b"fallback".as_ref()));
    assert_eq!(lookup_param(&ctx, b"99"), None);
}

#[test]
fn lookup_param_cached_handles_zero_and_special_parameter() {
    let ctx = FakeContext::new();
    assert_eq!(lookup_param(&ctx, b"0").expect("$0"), b"meiksh".to_vec());
    assert_eq!(lookup_param(&ctx, b"?").expect("$?"), b"0".to_vec());
    assert_eq!(lookup_param(&ctx, b"1").expect("$1"), b"alpha".to_vec());
}

#[test]
fn word_here_document_expands_at_sign() {
    let mut ctx = FakeContext::new();
    ctx.positional = vec![b"x".to_vec(), b"y".to_vec()];
    let result = expand_here_document(&mut ctx, b"$@\n", 0).expect("heredoc at");
    assert_eq!(result, b"x y\n");
}

#[test]
fn word_here_document_with_at_expansion() {
    let mut ctx = FakeContext::new();
    ctx.positional = vec![b"a".to_vec(), b"b".to_vec()];
    let result = expand_here_document(&mut ctx, b"args: $@\n", 0).expect("heredoc @");
    assert_eq!(result, b"args: a b\n");
}

#[test]
fn word_here_doc_backtick_substitution() {
    assert_no_syscalls(|| {
        let mut ctx = FakeContext::new();
        let result = expand_here_document(&mut ctx, b"`echo ok`\n", 0).expect("here doc backtick");
        assert_eq!(result, b"echo ok\n");
    });
}

#[test]
fn word_fake_context_special_param_star_and_at() {
    let ctx = FakeContext::new();
    assert_eq!(ctx.special_param(b'*').as_deref(), Some(b"alpha beta".as_ref()));
    assert_eq!(ctx.special_param(b'@').as_deref(), Some(b"alpha beta".as_ref()));
}

#[test]
fn expand_assignment_value_via_parts() {
    let mut ctx = FakeContext::new();
    ctx.env.insert(b"Y".to_vec(), b"world".to_vec());
    let result = expand_assignment_value(&mut ctx, &raw_word(b"hello${Y}")).expect("assign");
    assert_eq!(result, b"helloworld");
}

#[test]
fn expand_assignment_value_via_parts_with_at() {
    let mut ctx = FakeContext::new();
    ctx.positional = vec![b"a".to_vec(), b"b".to_vec()];
    let result = expand_assignment_value(&mut ctx, &raw_word(b"$@")).expect("assign at");
    assert_eq!(result, b"a b");
}

#[test]
fn expand_redirect_word_via_parts() {
    let mut ctx = FakeContext::new();
    ctx.env.insert(b"F".to_vec(), b"out.txt".to_vec());
    let result = expand_redirect_word(&mut ctx, &raw_word(b"$F")).expect("redir");
    assert_eq!(result, b"out.txt");
}

#[test]
fn expand_word_text_via_parts() {
    let mut ctx = FakeContext::new();
    ctx.env.insert(b"V".to_vec(), b"world".to_vec());
    let result = expand_word_text(&mut ctx, &raw_word(b"\"hello $V\"")).expect("text");
    assert_eq!(result, b"hello world");
}

#[test]
fn expand_word_parsed_tilde_home_empty() {
    let mut ctx = FakeContext::new();
    ctx.env.insert(b"HOME".to_vec(), b"".to_vec());
    let text = expand_word_text(&mut ctx, &raw_word(b"~")).expect("text");
    assert_eq!(text, b"");
}

#[test]
fn expand_redirect_word_via_parts_static_expansion() {
    let mut ctx = FakeContext::new();
    let result = expand_redirect_word(&mut ctx, &raw_word(b"$?")).expect("redir static");
    assert_eq!(result, b"0");
}

#[test]
fn expand_redirect_word_via_parts_multiple_fields() {
    let mut ctx = FakeContext::new();
    ctx.env.insert(b"F".to_vec(), b"a b".to_vec());
    let result = expand_redirect_word(&mut ctx, &raw_word(b"$F")).expect("redirect");
    assert_eq!(result, b"a b");
}

#[test]
fn expand_word_via_parts_tilde_home_empty() {
    let mut ctx = FakeContext::new();
    ctx.env.insert(b"HOME".to_vec(), b"".to_vec());
    let result = expand_word_text(&mut ctx, &raw_word(b"~")).expect("tilde empty home parts");
    assert_eq!(result, b"");
}

#[test]
fn expand_redirect_word_static_expansion_via_parts() {
    let mut ctx = FakeContext::new();
    let result = expand_redirect_word(&mut ctx, &raw_word(b"$?")).expect("redirect static");
    assert_eq!(result, b"0");
}

#[test]
fn expand_word_at_empty_in_braced_default() {
    assert_no_syscalls(|| {
        let mut ctx = FakeContext::new();
        ctx.positional.clear();
        let result = expand_word_text(&mut ctx, &raw_word(b"${x:-\"$@\"}")).expect("at empty braced");
        assert_eq!(result, b"");
    });
}

#[test]
fn drain_single_vec_via_assignment_star() {
    assert_no_syscalls(|| {
        let mut ctx = FakeContext::new();
        let result = expand_assignment_value(&mut ctx, &raw_word(b"$*")).expect("assign star");
        assert_eq!(result, b"alpha beta");
    });
}

#[test]
fn expand_redirect_word_at_expansion_via_parts() {
    assert_no_syscalls(|| {
        let mut ctx = FakeContext::new();
        ctx.positional = vec![b"file.txt".to_vec()];
        let result = expand_redirect_word(&mut ctx, &raw_word(b"\"$@\"")).expect("redirect at");
        assert_eq!(result, b"file.txt");
    });
}

#[test]
fn expand_redirect_word_empty_quoted_via_parts() {
    assert_no_syscalls(|| {
        let mut ctx = FakeContext::new();
        let word = Word { raw: b"\"\"".to_vec(), line: 0 };
        let result = expand_redirect_word(&mut ctx, &word).expect("redirect empty quoted");
        assert_eq!(result, b"");
    });
}

#[test]
fn expand_words_into_skips_truly_empty_word() {
    assert_no_syscalls(|| {
        let mut ctx = FakeContext::new();
        let empty = Word { raw: Vec::new(), line: 7 };
        let populated = Word { raw: b"keep".to_vec(), line: 7 };
        let argv = expand_words(&mut ctx, &[empty, populated]).expect("mixed empty + populated");
        assert_eq!(argv, vec![b"keep".to_vec()]);
    });
}
