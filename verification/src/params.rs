//! Where a parameter's value comes from, what `set -u` makes of an unset
//! one, and what each `${name<op>word}` operator does with a value.

use vstd::prelude::*;
use vstd::string::StringSliceAdditionalSpecFns;
use crate::bytes::{parse_i64, spec_parse_i64};
use crate::chars::{is_digit, spec_is_digit, DIGIT_ZERO, COLON, MINUS, EQUALS, QUESTION, PLUS, PERCENT, HASH, AT, STAR};
use crate::context::{Context, ExpandError};
use crate::segments::PatternRemoval;

verus! {

/// Where the value of a parameter named `name` is looked up.
#[derive(Debug, Clone, Copy, PartialEq, Eq, Structural)]
pub enum ParamSource {
    /// `$0`: the shell's name.
    ShellName,
    /// A positional parameter by its number.
    Positional(usize),
    /// A number too large to name any parameter.
    Absent,
    /// A one-byte name: a special parameter, else a variable.
    SpecialThenVariable(u8),
    /// A variable.
    Variable,
}

pub open spec fn all_digits(s: Seq<u8>) -> bool {
    forall|i: int| 0 <= i < s.len() ==> spec_is_digit(#[trigger] s[i])
}

pub open spec fn spec_param_source(name: Seq<u8>) -> ParamSource {
    if name == seq![DIGIT_ZERO] {
        ParamSource::ShellName
    } else if name.len() > 0 && all_digits(name) {
        match spec_parse_i64(name) {
            Some(n) => if 0 <= n <= usize::MAX {
                ParamSource::Positional(n as usize)
            } else {
                ParamSource::Absent
            },
            None => ParamSource::Absent,
        }
    } else if name.len() == 1 {
        ParamSource::SpecialThenVariable(name[0])
    } else {
        ParamSource::Variable
    }
}

/// Where the parameter `name` is looked up.
pub fn param_source(name: &[u8]) -> (r: ParamSource)
    ensures
        r == spec_param_source(name@),
{
    if name.len() == 1 && name[0] == DIGIT_ZERO {
        assert(name@ =~= seq![DIGIT_ZERO]);
        return ParamSource::ShellName;
    }
    assert(name@ != seq![DIGIT_ZERO]);
    let mut i: usize = 0;
    while i < name.len() && is_digit(name[i])
        invariant
            i <= name.len(),
            forall|j: int| 0 <= j < i ==> spec_is_digit(#[trigger] name@[j]),
        decreases name.len() - i,
    {
        i += 1;
    }
    if name.len() > 0 && i == name.len() {
        match parse_i64(name) {
            Some(n) => {
                if n >= 0 && (n as u64) <= (usize::MAX as u64) {
                    ParamSource::Positional(n as usize)
                } else {
                    ParamSource::Absent
                }
            },
            None => ParamSource::Absent,
        }
    } else if name.len() == 1 {
        ParamSource::SpecialThenVariable(name[0])
    } else {
        ParamSource::Variable
    }
}

/// The value of an optional parameter, as bytes.
pub open spec fn opt_view(o: Option<Vec<u8>>) -> Option<Seq<u8>> {
    match o {
        Some(v) => Some(v@),
        None => None,
    }
}

/// The value or message of a result, as bytes.
pub open spec fn text_view(r: Result<Vec<u8>, ExpandError>) -> Result<Seq<u8>, Seq<u8>> {
    match r {
        Ok(t) => Ok(t@),
        Err(e) => Err(e.message@),
    }
}

/// Whether `v` is a value that the shell `ctx` can answer when asked for
/// the variable `name`.
pub open spec fn var_answered<C: Context>(ctx: &C, name: Seq<u8>, v: Option<Seq<u8>>) -> bool {
    exists|n: &[u8], o: Option<Vec<u8>>| n@ == name && #[trigger] call_ensures(C::env_var, (ctx, n), o) && v
        == opt_view(o)
}

/// Whether `r` is an answer the shell in the state `ctx` can give when
/// asked to run the command `cmd` for its output.
pub open spec fn command_answered<C: Context>(ctx: C, cmd: Seq<u8>, r: Result<Vec<u8>, ExpandError>) -> bool {
    exists|c: &mut C, n: &[u8]| *c == ctx && n@ == cmd && #[trigger] call_ensures(C::command_substitute, (c, n), r)
}

/// Whether `r` is an answer the shell in the state `ctx` can give when
/// asked to assign `value` to the variable `name`.
pub open spec fn set_answered<C: Context>(ctx: C, name: Seq<u8>, value: Seq<u8>, r: Result<(), ExpandError>) -> bool {
    exists|c: &mut C, n: &[u8], v: Vec<u8>| *c == ctx && n@ == name && v@ == value && #[trigger] call_ensures(
        C::set_var,
        (c, n, v),
        r,
    )
}

/// Whether `v` is a value that the shell `ctx` can answer for the
/// parameter `name`, asked where `param_source` says: the shell's name,
/// a positional parameter, a special parameter and then a variable, or a
/// variable.
pub open spec fn lookup_answered<C: Context>(ctx: &C, name: Seq<u8>, v: Option<Seq<u8>>) -> bool {
    match spec_param_source(name) {
        ParamSource::ShellName => exists|s: Vec<u8>| #[trigger] call_ensures(C::shell_name, (ctx,), s) && v == Some(s@),
        ParamSource::Positional(i) => exists|o: Option<Vec<u8>>| #[trigger] call_ensures(C::positional_param, (ctx, i), o)
            && v == opt_view(o),
        ParamSource::Absent => v is None,
        ParamSource::SpecialThenVariable(b) => exists|o: Option<Vec<u8>>| #[trigger] call_ensures(C::special_param, (ctx, b), o)
            && match o {
            Some(t) => v == Some(t@),
            None => var_answered(ctx, name, v),
        },
        ParamSource::Variable => var_answered(ctx, name, v),
    }
}

/// Whether `r` is what an unset parameter `name` expands to in the shell
/// `ctx`: the empty string, or the error of `set -u` where the shell
/// answers that it is in effect (`$@` and `$*` are exempt).
pub open spec fn unset_answered<C: Context>(ctx: &C, name: Seq<u8>, r: Result<Seq<u8>, Seq<u8>>) -> bool {
    if exempt_from_nounset(name) {
        r == Ok::<Seq<u8>, Seq<u8>>(Seq::empty())
    } else {
        exists|b: bool| #[trigger] call_ensures(C::nounset_enabled, (ctx,), b) && r == (if b {
            Err::<Seq<u8>, Seq<u8>>(name + ": parameter not set".spec_bytes())
        } else {
            Ok::<Seq<u8>, Seq<u8>>(Seq::empty())
        })
    }
}

/// Whether `r` is what a parameter whose value is `v` expands to in the
/// shell `ctx`: the value, or what an unset parameter gives.
pub open spec fn value_answered<C: Context>(ctx: &C, name: Seq<u8>, v: Option<Seq<u8>>, r: Result<Seq<u8>, Seq<u8>>) -> bool {
    match v {
        Some(t) => r == Ok::<Seq<u8>, Seq<u8>>(t),
        None => unset_answered(ctx, name, r),
    }
}

/// Whether `r` is what `$name` expands to in the shell `ctx`, for a value
/// the shell answers.
pub open spec fn param_answered<C: Context>(ctx: &C, name: Seq<u8>, r: Result<Seq<u8>, Seq<u8>>) -> bool {
    exists|v: Option<Seq<u8>>| #[trigger] lookup_answered(ctx, name, v) && value_answered(ctx, name, v, r)
}

/// Whether the shell `ctx` answers that `set -u` is off.
pub open spec fn nounset_off<C: Context>(ctx: &C) -> bool {
    forall|b: bool| #[trigger] call_ensures(C::nounset_enabled, (ctx,), b) ==> !b
}

/// With `set -u` off, expanding a parameter never fails.
pub proof fn lemma_param_never_fails<C: Context>(ctx: &C, name: Seq<u8>, m: Seq<u8>)
    requires
        nounset_off(ctx),
    ensures
        !param_answered(ctx, name, Err::<Seq<u8>, Seq<u8>>(m)),
{
    if param_answered(ctx, name, Err::<Seq<u8>, Seq<u8>>(m)) {
        let v = choose|v: Option<Seq<u8>>| #[trigger] lookup_answered(ctx, name, v) && value_answered(
            ctx,
            name,
            v,
            Err::<Seq<u8>, Seq<u8>>(m),
        );
        if !exempt_from_nounset(name) {
            let b = choose|b: bool| #[trigger] call_ensures(C::nounset_enabled, (ctx,), b) && Err::<Seq<u8>, Seq<u8>>(m) == (
            if b {
                Err::<Seq<u8>, Seq<u8>>(name + ": parameter not set".spec_bytes())
            } else {
                Ok::<Seq<u8>, Seq<u8>>(Seq::empty())
            });
        }
    }
}

/// Whether every query about the parameters and home directories answers
/// alike in the shell states `a` and `b`.
pub open spec fn answers_alike<C: Context>(a: &C, b: &C) -> bool {
    &&& forall|n: &[u8], o: Option<Vec<u8>>| #[trigger] call_ensures(C::env_var, (a, n), o) == call_ensures(
        C::env_var,
        (b, n),
        o,
    )
    &&& forall|c: u8, o: Option<Vec<u8>>| #[trigger] call_ensures(C::special_param, (a, c), o) == call_ensures(
        C::special_param,
        (b, c),
        o,
    )
    &&& forall|i: usize, o: Option<Vec<u8>>| #[trigger] call_ensures(C::positional_param, (a, i), o)
        == call_ensures(C::positional_param, (b, i), o)
    &&& forall|o: Vec<Vec<u8>>| #[trigger] call_ensures(C::positional_params, (a,), o) == call_ensures(
        C::positional_params,
        (b,),
        o,
    )
    &&& forall|x: bool| #[trigger] call_ensures(C::nounset_enabled, (a,), x) == call_ensures(C::nounset_enabled, (b,), x)
    &&& forall|o: Vec<u8>| #[trigger] call_ensures(C::shell_name, (a,), o) == call_ensures(C::shell_name, (b,), o)
    &&& forall|n: &[u8], o: Option<Vec<u8>>| #[trigger] call_ensures(C::home_dir_for_user, (a, n), o) == call_ensures(
        C::home_dir_for_user,
        (b, n),
        o,
    )
}

/// Whether `o` is a home directory that the shell `ctx` can answer for the
/// user `user`.
pub open spec fn home_answered<C: Context>(ctx: &C, user: Seq<u8>, o: Option<Seq<u8>>) -> bool {
    exists|n: &[u8], d: Option<Vec<u8>>| n@ == user && #[trigger] call_ensures(C::home_dir_for_user, (ctx, n), d) && o
        == opt_view(d)
}

/// Answering alike carries over from state to state.
pub proof fn lemma_alike_trans<C: Context>(a: &C, b: &C, c: &C)
    requires
        answers_alike(a, b),
        answers_alike(b, c),
    ensures
        answers_alike(a, c),
{
}

/// What one state of the shell answers, another that answers alike
/// answers too.
pub proof fn lemma_answers_alike<C: Context>(a: &C, b: &C, name: Seq<u8>, r: Result<Seq<u8>, Seq<u8>>, v: Option<Seq<u8>>)
    requires
        answers_alike(a, b),
    ensures
        var_answered(a, name, v) ==> var_answered(b, name, v),
        lookup_answered(a, name, v) ==> lookup_answered(b, name, v),
        unset_answered(a, name, r) ==> unset_answered(b, name, r),
        param_answered(a, name, r) ==> param_answered(b, name, r),
{
    lemma_lookup_alike(a, b, name, v);
    lemma_unset_alike(a, b, name, r);
    if param_answered(a, name, r) {
        let w = choose|w: Option<Seq<u8>>| #[trigger] lookup_answered(a, name, w) && value_answered(a, name, w, r);
        lemma_lookup_alike(a, b, name, w);
        assert(lookup_answered(b, name, w));
    }
}

proof fn lemma_var_alike<C: Context>(a: &C, b: &C, name: Seq<u8>, v: Option<Seq<u8>>)
    requires
        answers_alike(a, b),
    ensures
        var_answered(a, name, v) ==> var_answered(b, name, v),
{
    if var_answered(a, name, v) {
        let (n, o) = choose|n: &[u8], o: Option<Vec<u8>>| n@ == name && #[trigger] call_ensures(C::env_var, (a, n), o)
            && v == opt_view(o);
        assert(call_ensures(C::env_var, (b, n), o));
    }
}

proof fn lemma_unset_alike<C: Context>(a: &C, b: &C, name: Seq<u8>, r: Result<Seq<u8>, Seq<u8>>)
    requires
        answers_alike(a, b),
    ensures
        unset_answered(a, name, r) ==> unset_answered(b, name, r),
{
    if unset_answered(a, name, r) && !exempt_from_nounset(name) {
        let x = choose|x: bool| #[trigger] call_ensures(C::nounset_enabled, (a,), x) && r == (if x {
            Err::<Seq<u8>, Seq<u8>>(name + ": parameter not set".spec_bytes())
        } else {
            Ok::<Seq<u8>, Seq<u8>>(Seq::empty())
        });
        assert(call_ensures(C::nounset_enabled, (b,), x));
    }
}

proof fn lemma_lookup_alike<C: Context>(a: &C, b: &C, name: Seq<u8>, w: Option<Seq<u8>>)
    requires
        answers_alike(a, b),
    ensures
        var_answered(a, name, w) ==> var_answered(b, name, w),
        lookup_answered(a, name, w) ==> lookup_answered(b, name, w),
{
    lemma_var_alike(a, b, name, w);
    if lookup_answered(a, name, w) {
        match spec_param_source(name) {
            ParamSource::ShellName => {
                let s = choose|s: Vec<u8>| #[trigger] call_ensures(C::shell_name, (a,), s) && w == Some(s@);
                assert(call_ensures(C::shell_name, (b,), s));
            },
            ParamSource::Positional(i) => {
                let o = choose|o: Option<Vec<u8>>| #[trigger] call_ensures(C::positional_param, (a, i), o) && w == opt_view(o);
                assert(call_ensures(C::positional_param, (b, i), o));
            },
            ParamSource::Absent => {},
            ParamSource::SpecialThenVariable(c) => {
                let o = choose|o: Option<Vec<u8>>| #[trigger] call_ensures(C::special_param, (a, c), o) && match o {
                    Some(t) => w == Some(t@),
                    None => var_answered(a, name, w),
                };
                assert(call_ensures(C::special_param, (b, c), o));
            },
            ParamSource::Variable => {},
        }
    }
}

/// The value of the parameter `name`, if it is set.
pub fn lookup_param<C: Context>(ctx: &C, name: &[u8]) -> (r: Option<Vec<u8>>)
    ensures
        spec_param_source(name@) == ParamSource::Absent ==> r is None,
        spec_param_source(name@) == ParamSource::ShellName ==> r is Some,
        lookup_answered(ctx, name@, opt_view(r)),
{
    match param_source(name) {
        ParamSource::ShellName => {
            let s = ctx.shell_name();
            assert(call_ensures(C::shell_name, (ctx,), s));
            Some(s)
        },
        ParamSource::Positional(index) => {
            let o = ctx.positional_param(index);
            assert(call_ensures(C::positional_param, (ctx, index), o));
            o
        },
        ParamSource::Absent => None,
        ParamSource::SpecialThenVariable(b) => {
            let o = ctx.special_param(b);
            assert(call_ensures(C::special_param, (ctx, b), o));
            match o {
                Some(value) => Some(value),
                None => {
                    let e = ctx.env_var(name);
                    assert(call_ensures(C::env_var, (ctx, name), e));
                    e
                },
            }
        },
        ParamSource::Variable => {
            let e = ctx.env_var(name);
            assert(call_ensures(C::env_var, (ctx, name), e));
            e
        },
    }
}

/// `text` followed by the bytes of `suffix`.
pub fn with_suffix(text: &[u8], suffix: &str) -> (r: Vec<u8>)
    ensures
        r@ == text@ + suffix.spec_bytes(),
{
    let mut m = vstd::slice::slice_to_vec(text);
    let mut tail = crate::chars::lit(suffix);
    m.append(&mut tail);
    m
}

/// Whether `set -u` spares the parameter `name`: `$@` and `$*` may be
/// unset.
pub open spec fn exempt_from_nounset(name: Seq<u8>) -> bool {
    name == seq![AT] || name == seq![STAR]
}

/// The value of a parameter, its absence read as the empty string, or the
/// error `set -u` makes of an unset parameter.
pub fn require_set_parameter<C: Context>(ctx: &C, name: &[u8], value: Option<Vec<u8>>) -> (r: Result<Vec<u8>, ExpandError>)
    ensures
        value matches Some(v) ==> r == Ok::<Vec<u8>, ExpandError>(v),
        value is None && exempt_from_nounset(name@) ==> (r matches Ok(v) && v@.len() == 0),
        value is None ==> (r matches Ok(v) && v@.len() == 0) || (r matches Err(e) && e.message@
            == name@ + ": parameter not set".spec_bytes() && !exempt_from_nounset(name@)),
        value_answered(ctx, name@, opt_view(value), text_view(r)),
{
    match value {
        Some(v) => Ok(v),
        None => {
            if op_is1(name, AT) || op_is1(name, STAR) {
                let r = Ok(Vec::new());
                assert(text_view(r) == Ok::<Seq<u8>, Seq<u8>>(Seq::empty()));
                r
            } else {
                let b = ctx.nounset_enabled();
                assert(call_ensures(C::nounset_enabled, (ctx,), b));
                let r = unset_parameter(name, b);
                proof {
                    if r is Ok {
                        assert(text_view(r)->Ok_0 =~= Seq::<u8>::empty());
                    }
                }
                r
            }
        },
    }
}

/// What an unset parameter `name` expands to, given whether `set -u` is
/// in effect: the empty string, or the error of `set -u` (from which `$@`
/// and `$*` are exempt).
pub fn unset_parameter(name: &[u8], nounset: bool) -> (r: Result<Vec<u8>, ExpandError>)
    ensures
        nounset && !exempt_from_nounset(name@) ==> (r matches Err(e) && e.message@ == name@
            + ": parameter not set".spec_bytes()),
        !(nounset && !exempt_from_nounset(name@)) ==> (r matches Ok(v) && v@.len() == 0),
{
    if nounset && !op_is1(name, AT) && !op_is1(name, STAR) {
        Err(ExpandError { message: with_suffix(name, ": parameter not set") })
    } else {
        Ok(Vec::new())
    }
}

/// What `${name<op>word}` evaluates, given whether the parameter is set
/// and whether its value is empty.
#[derive(Debug, Clone, Copy, PartialEq, Eq, Structural)]
pub enum BracedAction {
    /// The parameter's value.
    Value,
    /// The expansion of the word.
    Word,
    /// The word's expansion, assigned to the parameter.
    Assign,
    /// An error whose message is the word's expansion, or a default one;
    /// `null` tells which default.
    Fail { null: bool },
    /// The empty string.
    Empty,
    /// The value with a pattern removed.
    Remove(PatternRemoval),
    /// An operator the shell does not know.
    Unsupported,
}

pub open spec fn spec_braced_action(op: Seq<u8>, is_set: bool, is_null: bool) -> BracedAction {
    let unset_or_null = !is_set || is_null;
    if op == seq![COLON, MINUS] {
        if unset_or_null { BracedAction::Word } else { BracedAction::Value }
    } else if op == seq![MINUS] {
        if !is_set { BracedAction::Word } else { BracedAction::Value }
    } else if op == seq![COLON, EQUALS] {
        if unset_or_null { BracedAction::Assign } else { BracedAction::Value }
    } else if op == seq![EQUALS] {
        if !is_set { BracedAction::Assign } else { BracedAction::Value }
    } else if op == seq![COLON, QUESTION] {
        if unset_or_null { BracedAction::Fail { null: true } } else { BracedAction::Value }
    } else if op == seq![QUESTION] {
        if !is_set { BracedAction::Fail { null: false } } else { BracedAction::Value }
    } else if op == seq![COLON, PLUS] {
        if !unset_or_null { BracedAction::Word } else { BracedAction::Empty }
    } else if op == seq![PLUS] {
        if is_set { BracedAction::Word } else { BracedAction::Empty }
    } else if op == seq![PERCENT] {
        BracedAction::Remove(PatternRemoval::SmallestSuffix)
    } else if op == seq![PERCENT, PERCENT] {
        BracedAction::Remove(PatternRemoval::LargestSuffix)
    } else if op == seq![HASH] {
        BracedAction::Remove(PatternRemoval::SmallestPrefix)
    } else if op == seq![HASH, HASH] {
        BracedAction::Remove(PatternRemoval::LargestPrefix)
    } else {
        BracedAction::Unsupported
    }
}

/// Whether `op` is the one byte `a`.
fn op_is1(op: &[u8], a: u8) -> (r: bool)
    ensures
        r == (op@ == seq![a]),
{
    let r = op.len() == 1 && op[0] == a;
    assert(r ==> op@ =~= seq![a]);
    r
}

/// Whether `op` is the two bytes `a`, `b`.
fn op_is2(op: &[u8], a: u8, b: u8) -> (r: bool)
    ensures
        r == (op@ == seq![a, b]),
{
    let r = op.len() == 2 && op[0] == a && op[1] == b;
    assert(r ==> op@ =~= seq![a, b]);
    r
}

/// What the operator `op` of `${name<op>word}` evaluates.
pub fn braced_action(op: &[u8], is_set: bool, is_null: bool) -> (r: BracedAction)
    ensures
        r == spec_braced_action(op@, is_set, is_null),
{
    let unset_or_null = !is_set || is_null;
    if op_is2(op, COLON, MINUS) {
        if unset_or_null { BracedAction::Word } else { BracedAction::Value }
    } else if op_is1(op, MINUS) {
        if !is_set { BracedAction::Word } else { BracedAction::Value }
    } else if op_is2(op, COLON, EQUALS) {
        if unset_or_null { BracedAction::Assign } else { BracedAction::Value }
    } else if op_is1(op, EQUALS) {
        if !is_set { BracedAction::Assign } else { BracedAction::Value }
    } else if op_is2(op, COLON, QUESTION) {
        if unset_or_null { BracedAction::Fail { null: true } } else { BracedAction::Value }
    } else if op_is1(op, QUESTION) {
        if !is_set { BracedAction::Fail { null: false } } else { BracedAction::Value }
    } else if op_is2(op, COLON, PLUS) {
        if !unset_or_null { BracedAction::Word } else { BracedAction::Empty }
    } else if op_is1(op, PLUS) {
        if is_set { BracedAction::Word } else { BracedAction::Empty }
    } else if op_is1(op, PERCENT) {
        BracedAction::Remove(PatternRemoval::SmallestSuffix)
    } else if op_is2(op, PERCENT, PERCENT) {
        BracedAction::Remove(PatternRemoval::LargestSuffix)
    } else if op_is1(op, HASH) {
        BracedAction::Remove(PatternRemoval::SmallestPrefix)
    } else if op_is2(op, HASH, HASH) {
        BracedAction::Remove(PatternRemoval::LargestPrefix)
    } else {
        BracedAction::Unsupported
    }
}

/// The message of `${name:?}` and `${name?}` when no word is given.
pub fn default_fail_message(name: &[u8], null: bool) -> (r: Vec<u8>)
    ensures
        r@ == name@ + (if null { ": parameter null or not set".spec_bytes() } else {
            ": parameter not set".spec_bytes()
        }),
{
    if null {
        with_suffix(name, ": parameter null or not set")
    } else {
        with_suffix(name, ": parameter not set")
    }
}

/// A set, non-empty parameter keeps its value under every operator that
/// only stands in for an unset (or empty) one.
pub proof fn law_defaults_leave_set_values(op: Seq<u8>)
    requires
        op == seq![COLON, MINUS] || op == seq![MINUS] || op == seq![COLON, EQUALS] || op
            == seq![EQUALS] || op == seq![COLON, QUESTION] || op == seq![QUESTION],
    ensures
        spec_braced_action(op, true, false) == BracedAction::Value,
{
}

/// With the colon, an empty value counts as unset; without it, an empty
/// value is kept (and `+` takes the word for it).
pub proof fn law_colon_treats_empty_as_unset()
    ensures
        spec_braced_action(seq![COLON, MINUS], true, true) == spec_braced_action(seq![COLON, MINUS], false, false),
        spec_braced_action(seq![MINUS], true, true) == BracedAction::Value,
        spec_braced_action(seq![COLON, PLUS], true, true) == BracedAction::Empty,
        spec_braced_action(seq![PLUS], true, true) == BracedAction::Word,
{
    assert(seq![MINUS] != seq![COLON, MINUS]);
    assert(seq![COLON, PLUS] != seq![COLON, MINUS] && seq![COLON, PLUS] != seq![COLON, EQUALS]
        && seq![COLON, PLUS] != seq![COLON, QUESTION]);
    assert(seq![COLON, PLUS][1] != seq![COLON, MINUS][1]);
    assert(seq![PLUS][0] != seq![MINUS][0] && seq![PLUS][0] != seq![EQUALS][0] && seq![PLUS][0]
        != seq![QUESTION][0]);
}

} // verus!
