//! Shell arithmetic `$((...))`: a recursive-descent evaluator over 64-bit
//! integers with C's operators, precedence and short-circuiting.

use vstd::prelude::*;
use vstd::string::StringSliceAdditionalSpecFns;
use crate::bytes::{
    i64_to_bytes, parse_hex_i64, parse_i64, parse_octal_i64, spec_decimal, spec_i64_text, spec_parse_i64,
    spec_parse_radix_i64,
};
use crate::chars::{
    is_digit, is_name_char, is_name_start, is_ws, is_xdigit, spec_is_digit, spec_is_name_char,
    spec_is_name_start, spec_is_xdigit, AMP, BANG, CARET, COLON, DIGIT_ZERO, EQUALS, GREATER, LESS, LOWER_X, LPAREN,
    MINUS, NEWLINE, PERCENT, PIPE, PLUS, QUESTION, RPAREN, SLASH, SQUOTE, STAR, TILDE, UPPER_X,
};
use crate::context::{Context, ExpandError};
use crate::scan::{digit_end, first_non_ws, name_end, trim_ascii_whitespace};

verus! {

/// An error whose message is `msg`.
pub fn arith_err(msg: &[u8]) -> (e: ExpandError)
    ensures
        e.message@ == msg@,
{
    ExpandError { message: vstd::slice::slice_to_vec(msg) }
}

// ---------------------------------------------------------------------
// Assignment operators
// ---------------------------------------------------------------------

/// The value of `lhs op rhs` for a compound assignment operator `op`
/// (`+=`, `-=`, ...), with 64-bit wrap-around; `None` for division by
/// zero or an unknown operator.
pub open spec fn spec_compound_assign(op: Seq<u8>, lhs: i64, rhs: i64) -> Option<i64> {
    if op == seq![PLUS, EQUALS] {
        Some(vstd::wrapping::i64_specs::wrapping_add(lhs, rhs))
    } else if op == seq![MINUS, EQUALS] {
        Some(vstd::wrapping::i64_specs::wrapping_sub(lhs, rhs))
    } else if op == seq![STAR, EQUALS] {
        Some(vstd::wrapping::i64_specs::wrapping_mul(lhs, rhs))
    } else if op == seq![SLASH, EQUALS] {
        if rhs == 0 { None } else { Some(spec_div(lhs, rhs)) }
    } else if op == seq![PERCENT, EQUALS] {
        if rhs == 0 { None } else { Some(spec_rem(lhs, rhs)) }
    } else if op == seq![LESS, LESS, EQUALS] {
        Some(vstd::wrapping::i64_specs::wrapping_shl(lhs, rhs as u32))
    } else if op == seq![GREATER, GREATER, EQUALS] {
        Some(vstd::wrapping::i64_specs::wrapping_shr(lhs, rhs as u32))
    } else if op == seq![AMP, EQUALS] {
        Some(lhs & rhs)
    } else if op == seq![CARET, EQUALS] {
        Some(lhs ^ rhs)
    } else if op == seq![PIPE, EQUALS] {
        Some(lhs | rhs)
    } else {
        None
    }
}

/// Whether `op` is one of the compound assignment operators.
pub open spec fn is_compound_op(op: Seq<u8>) -> bool {
    op == seq![PLUS, EQUALS] || op == seq![MINUS, EQUALS] || op == seq![STAR, EQUALS] || op
        == seq![SLASH, EQUALS] || op == seq![PERCENT, EQUALS] || op == seq![LESS, LESS, EQUALS]
        || op == seq![GREATER, GREATER, EQUALS] || op == seq![AMP, EQUALS] || op == seq![CARET, EQUALS]
        || op == seq![PIPE, EQUALS]
}

/// Truncating division, as C and Rust divide; `i64::MIN / -1` wraps to
/// `i64::MIN`.
pub open spec fn spec_div(x: i64, d: i64) -> i64 {
    match x.checked_div(d) {
        Some(q) => q,
        None => i64::MIN,
    }
}

/// The remainder of truncating division; `i64::MIN % -1` is 0.
pub open spec fn spec_rem(x: i64, d: i64) -> i64 {
    match x.checked_rem(d) {
        Some(q) => q,
        None => 0,
    }
}

/// Truncating division of `x` by a non-zero `d`.
pub fn div_wrapping(x: i64, d: i64) -> (r: i64)
    requires
        d != 0,
    ensures
        r == spec_div(x, d),
{
    match x.checked_div(d) {
        Some(q) => q,
        None => i64::MIN,
    }
}

/// The remainder of `x` by a non-zero `d`.
pub fn rem_wrapping(x: i64, d: i64) -> (r: i64)
    requires
        d != 0,
    ensures
        r == spec_rem(x, d),
{
    match x.checked_rem(d) {
        Some(q) => q,
        None => 0,
    }
}

fn is_op1(op: &[u8], a: u8) -> (r: bool)
    ensures
        r == (op@ == seq![a]),
{
    let r = op.len() == 1 && op[0] == a;
    assert(r ==> op@ =~= seq![a]);
    r
}

fn is_op2(op: &[u8], a: u8, b: u8) -> (r: bool)
    ensures
        r == (op@ == seq![a, b]),
{
    let r = op.len() == 2 && op[0] == a && op[1] == b;
    assert(r ==> op@ =~= seq![a, b]);
    r
}

fn is_op3(op: &[u8], a: u8, b: u8, c: u8) -> (r: bool)
    ensures
        r == (op@ == seq![a, b, c]),
{
    let r = op.len() == 3 && op[0] == a && op[1] == b && op[2] == c;
    assert(r ==> op@ =~= seq![a, b, c]);
    r
}

/// The value that the compound assignment `lhs op= rhs` stores.
pub fn apply_compound_assign(op: &[u8], lhs: i64, rhs: i64) -> (r: Result<i64, ExpandError>)
    ensures
        match spec_compound_assign(op@, lhs, rhs) {
            Some(v) => r == Ok::<i64, ExpandError>(v),
            None => r matches Err(e) && (if is_compound_op(op@) {
                e.message@ == "division by zero".spec_bytes()
            } else {
                e.message@ == "unknown assignment operator '".spec_bytes() + op@ + seq![SQUOTE]
            }),
        },
{
    if is_op2(op, PLUS, EQUALS) {
        Ok(lhs.wrapping_add(rhs))
    } else if is_op2(op, MINUS, EQUALS) {
        Ok(lhs.wrapping_sub(rhs))
    } else if is_op2(op, STAR, EQUALS) {
        Ok(lhs.wrapping_mul(rhs))
    } else if is_op2(op, SLASH, EQUALS) {
        if rhs == 0 {
            return Err(crate::context::expand_error("division by zero"));
        }
        Ok(div_wrapping(lhs, rhs))
    } else if is_op2(op, PERCENT, EQUALS) {
        if rhs == 0 {
            return Err(crate::context::expand_error("division by zero"));
        }
        Ok(rem_wrapping(lhs, rhs))
    } else if is_op3(op, LESS, LESS, EQUALS) {
        Ok(lhs.wrapping_shl(rhs as u32))
    } else if is_op3(op, GREATER, GREATER, EQUALS) {
        Ok(lhs.wrapping_shr(rhs as u32))
    } else if is_op2(op, AMP, EQUALS) {
        Ok(lhs & rhs)
    } else if is_op2(op, CARET, EQUALS) {
        Ok(lhs ^ rhs)
    } else if is_op2(op, PIPE, EQUALS) {
        Ok(lhs | rhs)
    } else {
        let mut msg = crate::chars::lit("unknown assignment operator '");
        let mut o = vstd::slice::slice_to_vec(op);
        msg.append(&mut o);
        msg.push(SQUOTE);
        Err(ExpandError { message: msg })
    }
}

// ---------------------------------------------------------------------
// Variable values
// ---------------------------------------------------------------------

/// Whether every byte of `s` is a decimal digit.
pub open spec fn all_decimal(s: Seq<u8>) -> bool {
    forall|i: int| 0 <= i < s.len() ==> spec_is_digit(#[trigger] s[i])
}

/// The number a variable's value stands for in arithmetic: empty is 0;
/// after trimming whitespace, `0x...` is hexadecimal, `0` and digits is
/// octal, anything else a signed decimal.
pub open spec fn spec_variable_value(v: Seq<u8>) -> Option<i64> {
    if v.len() == 0 {
        Some(0)
    } else {
        let start = first_non_ws(v, 0);
        let t = v.subrange(start, crate::scan::last_non_ws_end(v, start, v.len() as int));
        if t.len() >= 2 && t[0] == DIGIT_ZERO && (t[1] == LOWER_X || t[1] == UPPER_X) {
            spec_parse_radix_i64(t.skip(2), 16)
        } else if t.len() > 1 && t[0] == DIGIT_ZERO && all_decimal(t.skip(1)) {
            spec_parse_radix_i64(t.skip(1), 8)
        } else {
            spec_parse_i64(t)
        }
    }
}

/// The number a variable's value stands for in arithmetic.
pub fn variable_value(v: &[u8]) -> (r: Option<i64>)
    ensures
        r == spec_variable_value(v@),
{
    if v.len() == 0 {
        return Some(0);
    }
    let t = trim_ascii_whitespace(v);
    if t.len() >= 2 && t[0] == DIGIT_ZERO && (t[1] == LOWER_X || t[1] == UPPER_X) {
        let digits = vstd::slice::slice_subrange(t, 2, t.len());
        assert(digits@ =~= t@.skip(2));
        return parse_hex_i64(digits);
    }
    if t.len() > 1 && t[0] == DIGIT_ZERO {
        let mut i: usize = 1;
        while i < t.len() && is_digit(t[i])
            invariant
                1 <= i <= t.len(),
                forall|j: int| 1 <= j < i ==> spec_is_digit(#[trigger] t@[j]),
            decreases t.len() - i,
        {
            i += 1;
        }
        if i == t.len() {
            let digits = vstd::slice::slice_subrange(t, 1, t.len());
            assert(digits@ =~= t@.skip(1));
            assert(all_decimal(t@.skip(1)));
            return parse_octal_i64(digits);
        }
        assert(!spec_is_digit(t@.skip(1)[i - 1]));
    }
    parse_i64(t)
}

// ---------------------------------------------------------------------
// Numbers
// ---------------------------------------------------------------------

/// The index after the run of hexadecimal digits that starts at `i`.
pub open spec fn xdigit_end(s: Seq<u8>, i: int) -> int
    decreases s.len() - i,
{
    if 0 <= i < s.len() && spec_is_xdigit(s[i]) {
        xdigit_end(s, i + 1)
    } else {
        i
    }
}

proof fn lemma_xdigit_end(s: Seq<u8>, i: int)
    requires
        0 <= i <= s.len(),
    ensures
        i <= xdigit_end(s, i) <= s.len(),
    decreases s.len() - i,
{
    if i < s.len() && spec_is_xdigit(s[i]) {
        lemma_xdigit_end(s, i + 1);
    }
}

proof fn lemma_digit_end(s: Seq<u8>, i: int)
    requires
        0 <= i <= s.len(),
    ensures
        i <= digit_end(s, i) <= s.len(),
    decreases s.len() - i,
{
    if i < s.len() && spec_is_digit(s[i]) {
        lemma_digit_end(s, i + 1);
    }
}

/// The number that starts at the first non-blank byte from `i`, and the
/// index after it; or the message of the error it makes. `0x` starts a
/// hexadecimal constant, `0` and a digit an octal one.
pub open spec fn spec_number(src: Seq<u8>, i0: int) -> Result<(i64, int), Seq<u8>> {
    let i = first_non_ws(src, i0);
    if i < src.len() && src[i] == DIGIT_ZERO {
        if i + 1 < src.len() && (src[i + 1] == LOWER_X || src[i + 1] == UPPER_X) {
            let he = xdigit_end(src, i + 2);
            if he == i + 2 {
                Err("invalid hex constant".spec_bytes())
            } else {
                match spec_parse_radix_i64(src.subrange(i + 2, he), 16) {
                    Some(v) => Ok((v, he)),
                    None => Err("invalid hex constant".spec_bytes()),
                }
            }
        } else if i + 1 < src.len() && spec_is_digit(src[i + 1]) {
            let e = digit_end(src, i + 1);
            match spec_parse_radix_i64(src.subrange(i + 1, e), 8) {
                Some(v) => Ok((v, e)),
                None => Err("invalid octal constant".spec_bytes()),
            }
        } else {
            Ok((0, i + 1))
        }
    } else {
        let e = digit_end(src, i);
        if e == i {
            Err("expected arithmetic operand".spec_bytes())
        } else {
            match spec_parse_i64(src.subrange(i, e)) {
                Some(v) => Ok((v, e)),
                None => Err("invalid arithmetic operand".spec_bytes()),
            }
        }
    }
}

/// The number that is all the expression holds from `i` on (blanks
/// around it aside), and the index after it; `None` where something else
/// is there.
pub open spec fn lone_number(src: Seq<u8>, i: int) -> Option<(i64, int)> {
    let j = first_non_ws(src, i);
    if 0 <= i && j < src.len() && spec_is_digit(src[j]) {
        match spec_number(src, i) {
            Ok((v, e)) => if first_non_ws(src, e) >= src.len() { Some((v, e)) } else { None },
            Err(_) => None,
        }
    } else {
        None
    }
}

proof fn lemma_first_non_ws_idem(s: Seq<u8>, i: int)
    requires
        0 <= i,
    ensures
        first_non_ws(s, first_non_ws(s, i)) == first_non_ws(s, i),
        i <= first_non_ws(s, i),
    decreases s.len() - i,
{
    if 0 <= i < s.len() && crate::chars::spec_is_ws(s[i]) {
        lemma_first_non_ws_idem(s, i + 1);
    }
}

/// The number of newlines in `s`.
pub open spec fn count_newlines(s: Seq<u8>) -> nat
    decreases s.len(),
{
    if s.len() == 0 {
        0
    } else {
        count_newlines(s.drop_last()) + if s.last() == NEWLINE { 1nat } else { 0nat }
    }
}

proof fn lemma_count_newlines_bound(s: Seq<u8>)
    ensures
        count_newlines(s) <= s.len(),
    decreases s.len(),
{
    if s.len() > 0 {
        lemma_count_newlines_bound(s.drop_last());
    }
}

/// An arithmetic expression being evaluated: its text and the line it
/// starts on, by which errors are placed.
pub struct ArithmeticParser<'a> {
    pub source: &'a [u8],
    pub start_line: usize,
}

/// The assignment operator at `i`, if one starts there: `<<=`, `>>=`,
/// `&=`, `^=`, `|=`, `*=`, `/=`, `%=`, `+=`, `-=` or a `=` that does not
/// begin `==`.
pub open spec fn spec_assign_op_len(s: Seq<u8>, i: int) -> int {
    if i + 2 < s.len() && ((s[i] == LESS && s[i + 1] == LESS) || (s[i] == GREATER && s[i + 1] == GREATER))
        && s[i + 2] == EQUALS {
        3
    } else if i + 1 < s.len() && s[i + 1] == EQUALS && (s[i] == AMP || s[i] == CARET || s[i] == PIPE
        || s[i] == STAR || s[i] == SLASH || s[i] == PERCENT || s[i] == PLUS || s[i] == MINUS) {
        2
    } else if i < s.len() && s[i] == EQUALS && !(i + 1 < s.len() && s[i + 1] == EQUALS) {
        1
    } else {
        0
    }
}

// ---------------------------------------------------------------------
// What an expression evaluates to
// ---------------------------------------------------------------------

/// What evaluating an expression from some index gives, as far as its text
/// decides it: a value and the index after the expression, or the message
/// of an error. Once a variable is named, the outcome depends on the
/// shell's variables and the text no longer decides it.
pub enum ArithOutcome {
    Value(i64, int),
    Error(Seq<u8>),
    NamesVariable,
}

/// Whether `r` is what `o` says it is, where `o` says anything.
pub open spec fn outcome_holds(o: ArithOutcome, r: Result<(i64, usize), ExpandError>) -> bool {
    match o {
        ArithOutcome::Value(v, e) => r matches Ok((v2, e2)) && v2 == v && e2 == e,
        ArithOutcome::Error(m) => r matches Err(err) && err.message@ == m,
        ArithOutcome::NamesVariable => true,
    }
}

/// Whether the byte at `k` is `b`.
pub open spec fn byte_at(s: Seq<u8>, k: int, b: u8) -> bool {
    0 <= k < s.len() && s[k] == b
}

/// The length of the binary operator of precedence level `level` that
/// starts at `k`, or 0 where none does. The levels, tightest first: 3
/// `* / %`, 4 `+ -`, 5 `<< >>`, 6 `< <= > >=`, 7 `== !=`, 8 `&`, 9 `^`,
/// 10 `|`, 11 `&&`, 12 `||`. An operator followed by `=` is an assignment
/// and belongs to no level.
pub open spec fn binary_op_len(s: Seq<u8>, k: int, level: int) -> int {
    if level == 12 {
        if byte_at(s, k, PIPE) && byte_at(s, k + 1, PIPE) { 2 } else { 0 }
    } else if level == 11 {
        if byte_at(s, k, AMP) && byte_at(s, k + 1, AMP) { 2 } else { 0 }
    } else if level == 10 {
        if byte_at(s, k, PIPE) && !byte_at(s, k + 1, PIPE) && !byte_at(s, k + 1, EQUALS) { 1 } else { 0 }
    } else if level == 9 {
        if byte_at(s, k, CARET) && !byte_at(s, k + 1, EQUALS) { 1 } else { 0 }
    } else if level == 8 {
        if byte_at(s, k, AMP) && !byte_at(s, k + 1, AMP) && !byte_at(s, k + 1, EQUALS) { 1 } else { 0 }
    } else if level == 7 {
        if (byte_at(s, k, EQUALS) || byte_at(s, k, BANG)) && byte_at(s, k + 1, EQUALS) { 2 } else { 0 }
    } else if level == 6 {
        if (byte_at(s, k, LESS) || byte_at(s, k, GREATER)) && byte_at(s, k + 1, EQUALS) {
            2
        } else if byte_at(s, k, LESS) && !byte_at(s, k + 1, LESS) {
            1
        } else if byte_at(s, k, GREATER) && !byte_at(s, k + 1, GREATER) {
            1
        } else {
            0
        }
    } else if level == 5 {
        if ((byte_at(s, k, LESS) && byte_at(s, k + 1, LESS)) || (byte_at(s, k, GREATER) && byte_at(s, k + 1, GREATER)))
            && !byte_at(s, k + 2, EQUALS) { 2 } else { 0 }
    } else if level == 4 {
        if (byte_at(s, k, PLUS) || byte_at(s, k, MINUS)) && !byte_at(s, k + 1, EQUALS) { 1 } else { 0 }
    } else if level == 3 {
        if (byte_at(s, k, STAR) || byte_at(s, k, SLASH) || byte_at(s, k, PERCENT)) && !byte_at(s, k + 1, EQUALS) {
            1
        } else {
            0
        }
    } else {
        0
    }
}

/// The value of `a op b` for the operator of level `level` at `k`, with
/// 64-bit wrap-around and comparisons and logical operators giving 1 or 0;
/// `None` for a division by zero.
pub open spec fn binary_value(s: Seq<u8>, k: int, level: int, a: i64, b: i64) -> Option<i64> {
    if level == 12 {
        Some(if a != 0 || b != 0 { 1 } else { 0 })
    } else if level == 11 {
        Some(if a != 0 && b != 0 { 1 } else { 0 })
    } else if level == 10 {
        Some(a | b)
    } else if level == 9 {
        Some(a ^ b)
    } else if level == 8 {
        Some(a & b)
    } else if level == 7 {
        if s[k] == EQUALS {
            Some(if a == b { 1 } else { 0 })
        } else {
            Some(if a != b { 1 } else { 0 })
        }
    } else if level == 6 {
        if binary_op_len(s, k, 6) == 2 {
            if s[k] == LESS {
                Some(if a <= b { 1 } else { 0 })
            } else {
                Some(if a >= b { 1 } else { 0 })
            }
        } else if s[k] == LESS {
            Some(if a < b { 1 } else { 0 })
        } else {
            Some(if a > b { 1 } else { 0 })
        }
    } else if level == 5 {
        if s[k] == LESS {
            Some(vstd::wrapping::i64_specs::wrapping_shl(a, b as u32))
        } else {
            Some(vstd::wrapping::i64_specs::wrapping_shr(a, b as u32))
        }
    } else if level == 4 {
        if s[k] == PLUS {
            Some(vstd::wrapping::i64_specs::wrapping_add(a, b))
        } else {
            Some(vstd::wrapping::i64_specs::wrapping_sub(a, b))
        }
    } else if s[k] == STAR {
        Some(vstd::wrapping::i64_specs::wrapping_mul(a, b))
    } else if b == 0 {
        None
    } else if s[k] == SLASH {
        Some(spec_div(a, b))
    } else {
        Some(spec_rem(a, b))
    }
}

/// Skipping blanks moves forward and stays within the text.
pub proof fn lemma_fnw_range(s: Seq<u8>, i: int)
    ensures
        i <= first_non_ws(s, i),
        i <= s.len() ==> first_non_ws(s, i) <= s.len(),
    decreases s.len() - i,
{
    if 0 <= i < s.len() && crate::chars::spec_is_ws(s[i]) {
        lemma_fnw_range(s, i + 1);
    }
}

/// An operator lies within the text.
pub proof fn lemma_op_len_range(s: Seq<u8>, k: int, level: int)
    ensures
        binary_op_len(s, k, level) == 0 || (0 <= k && 1 <= binary_op_len(s, k, level) && k
            + binary_op_len(s, k, level) <= s.len()),
{
}

/// The outcome of evaluating, from `i`, an expression of precedence level
/// `level`: 1 a primary (number, variable or parenthesized expression),
/// 2 a unary expression, 3 to 12 the binary levels of `binary_op_len`, 13
/// a conditional `c ? a : b` and 14 an assignment.
pub open spec fn arith_eval(s: Seq<u8>, i: int, level: int) -> ArithOutcome
    decreases s.len() - i, 4 * level,
{
    if !(0 <= i <= s.len()) || level < 1 || level > 14 {
        ArithOutcome::Error(Seq::empty())
    } else if level == 1 {
        eval_primary(s, i)
    } else if level == 2 {
        eval_unary(s, i)
    } else if level <= 12 {
        eval_binary(s, i, level)
    } else if level == 13 {
        eval_conditional(s, i)
    } else {
        eval_assignment(s, i)
    }
}

/// A parenthesized expression, a variable or a number.
pub open spec fn eval_primary(s: Seq<u8>, i: int) -> ArithOutcome
    decreases s.len() - i, 3int,
{
    let j = first_non_ws(s, i);
    proof {
        lemma_fnw_range(s, i);
    }
    if byte_at(s, j, LPAREN) {
        match arith_eval(s, j + 1, 14) {
            ArithOutcome::Value(v, k0) => {
                let k = first_non_ws(s, k0);
                if byte_at(s, k, RPAREN) {
                    ArithOutcome::Value(v, k + 1)
                } else {
                    ArithOutcome::Error("missing ')'".spec_bytes())
                }
            },
            o => o,
        }
    } else if 0 <= j < s.len() && spec_is_name_start(s[j]) {
        ArithOutcome::NamesVariable
    } else {
        match spec_number(s, j) {
            Ok((v, e)) => ArithOutcome::Value(v, e),
            Err(m) => ArithOutcome::Error(m),
        }
    }
}

/// `+a`, `-a` (wrapping), `~a` and `!a`.
pub open spec fn eval_unary(s: Seq<u8>, i: int) -> ArithOutcome
    decreases s.len() - i, 7int,
{
    let j = first_non_ws(s, i);
    proof {
        lemma_fnw_range(s, i);
    }
    if byte_at(s, j, PLUS) {
        arith_eval(s, j + 1, 2)
    } else if byte_at(s, j, MINUS) {
        match arith_eval(s, j + 1, 2) {
            ArithOutcome::Value(v, e) => ArithOutcome::Value(vstd::wrapping::i64_specs::wrapping_sub(0, v), e),
            o => o,
        }
    } else if byte_at(s, j, TILDE) {
        match arith_eval(s, j + 1, 2) {
            ArithOutcome::Value(v, e) => ArithOutcome::Value(!v, e),
            o => o,
        }
    } else if byte_at(s, j, BANG) && !byte_at(s, j + 1, EQUALS) {
        match arith_eval(s, j + 1, 2) {
            ArithOutcome::Value(v, e) => ArithOutcome::Value(if v == 0 { 1 } else { 0 }, e),
            o => o,
        }
    } else {
        arith_eval(s, j, 1)
    }
}

/// A binary level: operands of the level below joined, left to right, by
/// the level's operators.
pub open spec fn eval_binary(s: Seq<u8>, i: int, level: int) -> ArithOutcome
    decreases s.len() - i, 4 * level - 1
        when 3 <= level <= 12
{
    match arith_eval(s, i, level - 1) {
        ArithOutcome::Value(v, j) => if i <= j <= s.len() {
            eval_binary_rest(s, v, j, level)
        } else {
            ArithOutcome::Error(Seq::empty())
        },
        o => o,
    }
}

/// The rest of a binary level after an operand ending at `j`, with `acc`
/// the value so far.
pub open spec fn eval_binary_rest(s: Seq<u8>, acc: i64, j: int, level: int) -> ArithOutcome
    decreases s.len() - j, 4 * level - 2
        when 3 <= level <= 12
{
    let k = first_non_ws(s, j);
    let n = binary_op_len(s, k, level);
    proof {
        lemma_fnw_range(s, j);
        lemma_op_len_range(s, k, level);
    }
    if n == 0 {
        ArithOutcome::Value(acc, j)
    } else {
        match arith_eval(s, k + n, level - 1) {
            ArithOutcome::Value(b, m) => if k + n <= m <= s.len() {
                match binary_value(s, k, level, acc, b) {
                    Some(v) => eval_binary_rest(s, v, m, level),
                    None => ArithOutcome::Error("division by zero".spec_bytes()),
                }
            } else {
                ArithOutcome::Error(Seq::empty())
            },
            o => o,
        }
    }
}

/// `c ? a : b`: both branches are evaluated for their errors; the value is
/// that of the branch that `c` picks.
pub open spec fn eval_conditional(s: Seq<u8>, i: int) -> ArithOutcome
    decreases s.len() - i, 51int,
{
    match arith_eval(s, i, 12) {
        ArithOutcome::Value(c, j0) => if i <= j0 <= s.len() {
            let j = first_non_ws(s, j0);
            proof {
                lemma_fnw_range(s, j0);
            }
            if byte_at(s, j, QUESTION) {
                match arith_eval(s, j + 1, 14) {
                    ArithOutcome::Value(a, k0) => if j + 1 <= k0 <= s.len() {
                        let k = first_non_ws(s, k0);
                        proof {
                            lemma_fnw_range(s, k0);
                        }
                        if byte_at(s, k, COLON) {
                            match arith_eval(s, k + 1, 14) {
                                ArithOutcome::Value(b, m) => ArithOutcome::Value(if c != 0 { a } else { b }, m),
                                o => o,
                            }
                        } else {
                            ArithOutcome::Error("expected ':' in ternary expression".spec_bytes())
                        }
                    } else {
                        ArithOutcome::Error(Seq::empty())
                    },
                    o => o,
                }
            } else {
                ArithOutcome::Value(c, j)
            }
        } else {
            ArithOutcome::Error(Seq::empty())
        },
        o => o,
    }
}

/// An assignment starts with a name; without one, a conditional
/// expression.
pub open spec fn eval_assignment(s: Seq<u8>, i: int) -> ArithOutcome
    decreases s.len() - i, 55int,
{
    let save = first_non_ws(s, i);
    proof {
        lemma_fnw_range(s, i);
    }
    if save < s.len() && spec_is_name_start(s[save]) {
        ArithOutcome::NamesVariable
    } else {
        arith_eval(s, save, 13)
    }
}

/// The outcome of evaluating the whole of `s`: text after a complete
/// expression is an error.
pub open spec fn spec_eval_arithmetic(s: Seq<u8>) -> ArithOutcome {
    match arith_eval(s, 0, 14) {
        ArithOutcome::Value(v, e) => if first_non_ws(s, e) < s.len() {
            ArithOutcome::Error("unexpected trailing arithmetic tokens".spec_bytes())
        } else {
            ArithOutcome::Value(v, e)
        },
        o => o,
    }
}

impl<'a> ArithmeticParser<'a> {
    /// A parser over `source`, whose first line is `start_line`.
    pub fn new(source: &'a [u8], start_line: usize) -> (p: Self)
        ensures
            p.source@ == source@,
            p.start_line == start_line,
    {
        ArithmeticParser { source, start_line }
    }

    /// The byte at `i`, if there is one.
    pub fn peek_at(&self, i: usize) -> (r: Option<u8>)
        ensures
            i < self.source@.len() ==> r == Some(self.source@[i as int]),
            i >= self.source@.len() ==> r is None,
    {
        if i < self.source.len() {
            Some(self.source[i])
        } else {
            None
        }
    }

    /// Whether the byte at `i` is `b`.
    pub fn byte_is(&self, i: usize, b: u8) -> (r: bool)
        ensures
            r == (i < self.source@.len() && self.source@[i as int] == b),
            self.source@.len() <= usize::MAX,
    {
        i < self.source.len() && self.source[i] == b
    }

    /// Whether the two bytes at `i` are `a` and `b`.
    pub fn bytes_are(&self, i: usize, a: u8, b: u8) -> (r: bool)
        ensures
            r == (i + 1 < self.source@.len() && self.source@[i as int] == a && self.source@[i + 1]
                == b),
            self.source@.len() <= usize::MAX,
    {
        i < self.source.len() && 1 < self.source.len() - i && self.source[i] == a && self.source[i
            + 1] == b
    }

    /// Whether `i` is at the end of the text.
    pub fn is_eof(&self, i: usize) -> (r: bool)
        ensures
            r == (i >= self.source@.len()),
    {
        i >= self.source.len()
    }

    /// The first index from `i` whose byte is no whitespace.
    pub fn skip_ws(&self, i: usize) -> (r: usize)
        requires
            i <= self.source@.len(),
        ensures
            r == first_non_ws(self.source@, i as int),
            i <= r <= self.source@.len(),
            self.source@.len() <= usize::MAX,
    {
        let mut j = i;
        while j < self.source.len() && is_ws(self.source[j])
            invariant
                i <= j <= self.source@.len(),
                first_non_ws(self.source@, i as int) == first_non_ws(self.source@, j as int),
            decreases self.source@.len() - j,
        {
            j += 1;
        }
        j
    }

    /// The number of newlines before `i`.
    pub fn newlines_before(&self, i: usize) -> (r: usize)
        ensures
            r == count_newlines(self.source@.take(if i <= self.source@.len() { i as int } else {
                self.source@.len() as int
            })),
    {
        let end = if i <= self.source.len() { i } else { self.source.len() };
        let mut n: usize = 0;
        let mut j: usize = 0;
        while j < end
            invariant
                j <= end <= self.source@.len(),
                n == count_newlines(self.source@.take(j as int)),
                n <= j,
            decreases end - j,
        {
            assert(self.source@.take(j + 1).drop_last() =~= self.source@.take(j as int));
            if self.source[j] == NEWLINE {
                n += 1;
            }
            j += 1;
        }
        n
    }

    /// An error with message `msg`, after setting the shell's line number
    /// to the line of index `i`.
    pub fn error_at<C: Context>(&self, ctx: &mut C, i: usize, msg: Vec<u8>) -> (e: ExpandError)
        ensures
            e.message@ == msg@,
            crate::params::answers_alike(&*final(ctx), &*old(ctx)),
    {
        let newlines = self.newlines_before(i);
        ctx.set_lineno(self.start_line.saturating_add(newlines));
        ExpandError { message: msg }
    }

    /// The name that starts at the first non-blank byte from `i`, and the
    /// index after it.
    pub fn try_scan_name(&self, i: usize) -> (r: Option<(Vec<u8>, usize)>)
        requires
            i <= self.source@.len(),
        ensures
            ({
                let s = first_non_ws(self.source@, i as int);
                if s < self.source@.len() && crate::chars::spec_is_name_start(self.source@[s]) {
                    r matches Some((name, e)) && e == name_end(self.source@, s) && name@
                        == self.source@.subrange(s, e as int) && s < e <= self.source@.len()
                } else {
                    r is None
                }
            }),
            r matches Some((_, e)) ==> i < e <= self.source@.len(),
    {
        let start = self.skip_ws(i);
        if start < self.source.len() && is_name_start(self.source[start]) {
            proof { name_end_bounds(self.source@, start as int); }
            let mut j = start + 1;
            while j < self.source.len() && is_name_char(self.source[j])
                invariant
                    start < j <= self.source@.len(),
                    name_end(self.source@, start as int) == name_end(self.source@, j as int),
                decreases self.source@.len() - j,
            {
                j += 1;
            }
            let name = vstd::slice::slice_to_vec(vstd::slice::slice_subrange(self.source, start, j));
            return Some((name, j));
        }
        None
    }

    /// The assignment operator at `i`, if one starts there, and the index
    /// after it.
    pub fn try_consume_assign_op(&self, i: usize) -> (r: Option<(Vec<u8>, usize)>)
        requires
            i <= self.source@.len(),
        ensures
            spec_assign_op_len(self.source@, i as int) == 0 ==> r is None,
            spec_assign_op_len(self.source@, i as int) > 0 ==> (r matches Some((op, e)) && e == i
                + spec_assign_op_len(self.source@, i as int) && op@ == self.source@.subrange(
                i as int,
                e as int,
            )),
    {
        let n: usize = if i < self.source.len() && 2 < self.source.len() - i && ((self.source[i]
            == LESS && self.source[i + 1] == LESS) || (self.source[i] == GREATER && self.source[i
            + 1] == GREATER)) && self.source[i + 2] == EQUALS {
            3
        } else if i < self.source.len() && 1 < self.source.len() - i && self.source[i + 1] == EQUALS
            && (self.source[i] == AMP || self.source[i] == CARET || self.source[i] == PIPE
            || self.source[i] == STAR || self.source[i] == SLASH || self.source[i] == PERCENT
            || self.source[i] == PLUS || self.source[i] == MINUS) {
            2
        } else if self.byte_is(i, EQUALS) && !self.byte_is(i + 1, EQUALS) {
            1
        } else {
            0
        };
        if n == 0 {
            return None;
        }
        let op = vstd::slice::slice_to_vec(vstd::slice::slice_subrange(self.source, i, i + n));
        Some((op, i + n))
    }

    /// Reads the number at the first non-blank byte from `i`.
    pub fn parse_number<C: Context>(&self, ctx: &mut C, i: usize) -> (r: Result<(i64, usize), ExpandError>)
        requires
            i <= self.source@.len(),
        ensures
            crate::params::answers_alike(&*final(ctx), &*old(ctx)),
            match spec_number(self.source@, i as int) {
                Ok((v, e)) => r matches Ok((v2, e2)) && v2 == v && e2 == e,
                Err(m) => r matches Err(err) && err.message@ == m,
            },
            r matches Ok((_, e)) ==> i <= e <= self.source@.len(),
    {
        let start = self.skip_ws(i);
        let ghost src = self.source@;
        if start < self.source.len() && self.source[start] == DIGIT_ZERO {
            if 1 < self.source.len() - start && (self.source[start + 1] == LOWER_X
                || self.source[start + 1] == UPPER_X) {
                let hex_start = start + 2;
                proof { lemma_xdigit_end(src, hex_start as int); }
                let mut j = hex_start;
                while j < self.source.len() && is_xdigit(self.source[j])
                    invariant
                        hex_start <= j <= src.len(),
                        src == self.source@,
                        xdigit_end(src, hex_start as int) == xdigit_end(src, j as int),
                    decreases src.len() - j,
                {
                    j += 1;
                }
                if j == hex_start {
                    return Err(self.error_at(ctx, j, crate::chars::lit("invalid hex constant")));
                }
                return match parse_hex_i64(vstd::slice::slice_subrange(self.source, hex_start, j)) {
                    Some(v) => Ok((v, j)),
                    None => Err(self.error_at(ctx, j, crate::chars::lit("invalid hex constant"))),
                };
            }
            if start + 1 < self.source.len() && is_digit(self.source[start + 1]) {
                proof { lemma_digit_end(src, start + 1); }
                let mut j = start + 1;
                while j < self.source.len() && is_digit(self.source[j])
                    invariant
                        start + 1 <= j <= src.len(),
                        src == self.source@,
                        digit_end(src, start + 1) == digit_end(src, j as int),
                    decreases src.len() - j,
                {
                    j += 1;
                }
                return match parse_octal_i64(vstd::slice::slice_subrange(self.source, start + 1, j)) {
                    Some(v) => Ok((v, j)),
                    None => Err(self.error_at(ctx, j, crate::chars::lit("invalid octal constant"))),
                };
            }
            return Ok((0, start + 1));
        }
        proof { lemma_digit_end(src, start as int); }
        let mut j = start;
        while j < self.source.len() && is_digit(self.source[j])
            invariant
                start <= j <= src.len(),
                src == self.source@,
                digit_end(src, start as int) == digit_end(src, j as int),
            decreases src.len() - j,
        {
            j += 1;
        }
        if j == start {
            return Err(self.error_at(ctx, j, crate::chars::lit("expected arithmetic operand")));
        }
        match parse_i64(vstd::slice::slice_subrange(self.source, start, j)) {
            Some(v) => Ok((v, j)),
            None => Err(self.error_at(ctx, j, crate::chars::lit("invalid arithmetic operand"))),
        }
    }

    /// The value of the variable `name` in arithmetic, the error of `set
    /// -u` if it is unset, or an error if its value is no number. `i` is
    /// where the name ended.
    pub fn resolve_var<C: Context>(&self, ctx: &mut C, name: &[u8], i: usize) -> (r: Result<i64, ExpandError>)
        ensures
            crate::params::answers_alike(&*final(ctx), &*old(ctx)),
            r matches Err(e) ==> e.message@ == name@ + ": parameter not set".spec_bytes() || e.message@
                == "invalid variable value for '".spec_bytes() + name@ + seq![SQUOTE],
            exists|value: Option<Seq<u8>>, nounset: bool| #[trigger] variable_outcome_holds(
                spec_variable_number(name@, value, nounset),
                r,
            ),
            exists|value: Option<Seq<u8>>| #[trigger] crate::params::var_answered(&*old(ctx), name@, value) && match value {
                Some(_) => variable_outcome_holds(spec_variable_number(name@, value, false), r),
                None => exists|b: bool| #[trigger] call_ensures(C::nounset_enabled, (&*old(ctx),), b)
                    && variable_outcome_holds(spec_variable_number(name@, value, b), r),
            },
    {
        let val = ctx.env_var(name);
        assert(call_ensures(C::env_var, (&*ctx, name), val));
        let nounset = match val {
            None => {
                let b = ctx.nounset_enabled();
                assert(call_ensures(C::nounset_enabled, (&*ctx,), b));
                b
            },
            Some(_) => false,
        };
        let ghost value = match &val {
            Some(v) => Some(v@),
            None => None::<Seq<u8>>,
        };
        assert(crate::params::var_answered(&*old(ctx), name@, value));
        let outcome = variable_number(name, val, nounset);
        match outcome {
            Ok(n) => {
                assert(variable_outcome_holds(spec_variable_number(name@, value, nounset), Ok(n)));
                Ok(n)
            },
            Err(msg) => {
                let e = self.error_at(ctx, i, msg);
                assert(variable_outcome_holds(spec_variable_number(name@, value, nounset), Err(e)));
                Err(e)
            },
        }
    }
}

/// The number that a variable `name` stands for in arithmetic, given its
/// value (`None` if unset) and whether `set -u` is in effect: an unset
/// variable is 0, or the error of `set -u`; a set one stands for the
/// number its value holds (`spec_variable_value`), or is an error.
pub open spec fn spec_variable_number(name: Seq<u8>, value: Option<Seq<u8>>, nounset: bool) -> Result<i64, Seq<u8>> {
    match value {
        None => if nounset { Err(name + ": parameter not set".spec_bytes()) } else { Ok(0) },
        Some(v) => match spec_variable_value(v) {
            Some(n) => Ok(n),
            None => Err("invalid variable value for '".spec_bytes() + name + seq![SQUOTE]),
        },
    }
}

/// Whether `r` is what `outcome` says: the same number, or an error with
/// the same message.
pub open spec fn variable_outcome_holds(outcome: Result<i64, Seq<u8>>, r: Result<i64, ExpandError>) -> bool {
    match outcome {
        Ok(n) => r == Ok::<i64, ExpandError>(n),
        Err(m) => r matches Err(e) && e.message@ == m,
    }
}

/// The number that a variable stands for in arithmetic, or the message
/// of the error it makes.
pub fn variable_number(name: &[u8], value: Option<Vec<u8>>, nounset: bool) -> (r: Result<i64, Vec<u8>>)
    ensures
        match spec_variable_number(name@, match value {
            Some(v) => Some(v@),
            None => None,
        }, nounset) {
            Ok(n) => r == Ok::<i64, Vec<u8>>(n),
            Err(m) => r matches Err(msg) && msg@ == m,
        },
{
    match value {
        None => {
            if nounset {
                return Err(crate::params::with_suffix(name, ": parameter not set"));
            }
            Ok(0)
        },
        Some(v) => match variable_value(v.as_slice()) {
            Some(n) => Ok(n),
            None => {
                let mut msg = crate::chars::lit("invalid variable value for '");
                let mut n = vstd::slice::slice_to_vec(name);
                msg.append(&mut n);
                msg.push(SQUOTE);
                Err(msg)
            },
        },
    }
}

/// The assignment `name op= expr` that starts at `i` of `s`: where its
/// name starts and ends, the length of its operator and where its
/// right-hand side starts; `None` where no assignment starts there.
pub open spec fn assignment_at(s: Seq<u8>, i: int) -> Option<(int, int, int, int)> {
    let st = first_non_ws(s, i);
    if 0 <= st < s.len() && spec_is_name_start(s[st]) {
        let e = name_end(s, st);
        let w = first_non_ws(s, e);
        let n = spec_assign_op_len(s, w);
        if n > 0 {
            Some((st, e, n, w + n))
        } else {
            None
        }
    } else {
        None
    }
}

/// Whether the shell was asked, in some state, to set the variable named
/// by `s[a..b]` to the decimal text of `v`, and agreed.
pub open spec fn assigned<C: Context>(s: Seq<u8>, a: int, b: int, v: i64) -> bool {
    exists|c: C, st: Result<(), ExpandError>| #[trigger] crate::params::set_answered(c, s.subrange(a, b), spec_i64_text(v), st)
        && st is Ok
}

/// The levels of the grammar, loosest first; each level's operands are of
/// the next level.
impl<'a> ArithmeticParser<'a> {
    /// `name op= expr`, or a conditional expression. `skip` is set inside
    /// the branch that short-circuiting leaves unevaluated: it parses but
    /// assigns nothing.
    pub fn parse_assignment<C: Context>(&self, ctx: &mut C, i: usize, skip: bool) -> (r: Result<(i64, usize), ExpandError>)
        requires
            i <= self.source@.len(),
        ensures
            skip || !(arith_eval(self.source@, i as int, 14) is NamesVariable) ==> crate::params::answers_alike(
                &*final(ctx),
                &*old(ctx),
            ),
            r matches Ok((_, e)) ==> i <= e <= self.source@.len(),
            outcome_holds(arith_eval(self.source@, i as int, 14), r),
            !skip ==> match assignment_at(self.source@, i as int) {
                Some((a, b, n, rhs)) => (r matches Ok((v, _)) ==> assigned::<C>(self.source@, a, b, v)) && (n == 1
                    ==> match arith_eval(self.source@, rhs, 14) {
                    ArithOutcome::Value(x, e) => r is Ok ==> r == Ok::<(i64, usize), ExpandError>((x, e as usize)),
                    _ => true,
                }),
                None => true,
            },
        decreases self.source@.len() - i, 14int,
    {
        let ghost s = self.source@;
        assert(arith_eval(s, i as int, 14) == eval_assignment(s, i as int));
        let save = self.skip_ws(i);
        proof {
            lemma_first_non_ws_idem(s, i as int);
        }
        if let Some((name, after_name)) = self.try_scan_name(save) {
            let after_ws = self.skip_ws(after_name);
            if let Some((op, after_op)) = self.try_consume_assign_op(after_ws) {
                let (rhs, end) = self.parse_assignment(ctx, after_op, skip)?;
                if skip {
                    return Ok((rhs, end));
                }
                let value = if op.len() == 1 {
                    rhs
                } else {
                    let lhs = self.resolve_var(ctx, name.as_slice(), end)?;
                    apply_compound_assign(op.as_slice(), lhs, rhs)?
                };
                let ghost pre = *ctx;
                let text = i64_to_bytes(value);
                let ghost tv = text@;
                let name_slice = name.as_slice();
                let st = ctx.set_var(name_slice, text);
                proof {
                    assert(crate::params::set_answered(pre, name_slice@, tv, st));
                }
                if let Err(e) = st {
                    return Err(ExpandError { message: e.message });
                }
                proof {
                    let a = first_non_ws(s, i as int);
                    assert(a == first_non_ws(s, save as int));
                    assert(assignment_at(s, i as int) == Some((a, after_name as int, op@.len() as int, after_op as int)));
                    assert(name_slice@ == s.subrange(a, after_name as int));
                    assert(st is Ok);
                    assert(crate::params::set_answered(pre, s.subrange(a, after_name as int), spec_i64_text(value), st));
                    assert(assigned::<C>(s, a, after_name as int, value));
                }
                return Ok((value, end));
            }
        }
        proof {
            if assignment_at(s, i as int) is Some {
                assert(first_non_ws(s, i as int) == first_non_ws(s, save as int));
            }
        }
        self.parse_ternary(ctx, save, skip)
    }

    /// `cond ? a : b`, evaluating only the branch that is taken.
    pub fn parse_ternary<C: Context>(&self, ctx: &mut C, i: usize, skip: bool) -> (r: Result<(i64, usize), ExpandError>)
        requires
            i <= self.source@.len(),
        ensures
            skip || !(arith_eval(self.source@, i as int, 13) is NamesVariable) ==> crate::params::answers_alike(
                &*final(ctx),
                &*old(ctx),
            ),
            r matches Ok((_, e)) ==> i <= e <= self.source@.len(),
            outcome_holds(arith_eval(self.source@, i as int, 13), r),
        decreases self.source@.len() - i, 13int,
    {
        let ghost s = self.source@;
        assert(arith_eval(s, i as int, 13) == eval_conditional(s, i as int));
        let (cond, j) = self.parse_logical_or(ctx, i, skip)?;
        let j = self.skip_ws(j);
        if self.byte_is(j, QUESTION) {
            let (then_val, k) = self.parse_assignment(ctx, j + 1, skip || cond == 0)?;
            let k = self.skip_ws(k);
            if !self.byte_is(k, COLON) {
                return Err(self.error_at(ctx, k, crate::chars::lit("expected ':' in ternary expression")));
            }
            let (else_val, m) = self.parse_assignment(ctx, k + 1, skip || cond != 0)?;
            Ok((if cond != 0 { then_val } else { else_val }, m))
        } else {
            Ok((cond, j))
        }
    }

    /// `a || b`: 1 if either is non-zero; `b` is not evaluated when `a` is
    /// non-zero.
    pub fn parse_logical_or<C: Context>(&self, ctx: &mut C, i: usize, skip: bool) -> (r: Result<(i64, usize), ExpandError>)
        requires
            i <= self.source@.len(),
        ensures
            skip || !(arith_eval(self.source@, i as int, 12) is NamesVariable) ==> crate::params::answers_alike(
                &*final(ctx),
                &*old(ctx),
            ),
            r matches Ok((_, e)) ==> i <= e <= self.source@.len(),
            outcome_holds(arith_eval(self.source@, i as int, 12), r),
        decreases self.source@.len() - i, 12int,
    {
        let ghost s = self.source@;
        assert(arith_eval(s, i as int, 12) == eval_binary(s, i as int, 12));
        let (mut value, mut j) = self.parse_logical_and(ctx, i, skip)?;
        loop
            invariant
                i <= j <= s.len(),
                skip || !(arith_eval(s, i as int, 12) is NamesVariable) ==> crate::params::answers_alike(&*ctx, &*old(ctx)),
                s == self.source@,
                arith_eval(s, i as int, 12) is NamesVariable || arith_eval(s, i as int, 12)
                    == eval_binary_rest(s, value, j as int, 12),
            decreases s.len() - j,
        {
            let k = self.skip_ws(j);
            if self.bytes_are(k, PIPE, PIPE) {
                assert(binary_op_len(s, k as int, 12) == 2);
                if value != 0 {
                    let (_, m) = self.parse_logical_and(ctx, k + 2, true)?;
                    value = 1;
                    j = m;
                } else {
                    let (rhs, m) = self.parse_logical_and(ctx, k + 2, skip)?;
                    value = if rhs != 0 { 1 } else { 0 };
                    j = m;
                }
            } else {
                assert(binary_op_len(s, k as int, 12) == 0);
                return Ok((value, j));
            }
        }
    }

    /// `a && b`: 1 if both are non-zero; `b` is not evaluated when `a` is
    /// zero.
    pub fn parse_logical_and<C: Context>(&self, ctx: &mut C, i: usize, skip: bool) -> (r: Result<(i64, usize), ExpandError>)
        requires
            i <= self.source@.len(),
        ensures
            skip || !(arith_eval(self.source@, i as int, 11) is NamesVariable) ==> crate::params::answers_alike(
                &*final(ctx),
                &*old(ctx),
            ),
            r matches Ok((_, e)) ==> i <= e <= self.source@.len(),
            outcome_holds(arith_eval(self.source@, i as int, 11), r),
        decreases self.source@.len() - i, 11int,
    {
        let ghost s = self.source@;
        assert(arith_eval(s, i as int, 11) == eval_binary(s, i as int, 11));
        let (mut value, mut j) = self.parse_bitwise_or(ctx, i, skip)?;
        loop
            invariant
                i <= j <= s.len(),
                skip || !(arith_eval(s, i as int, 11) is NamesVariable) ==> crate::params::answers_alike(&*ctx, &*old(ctx)),
                s == self.source@,
                arith_eval(s, i as int, 11) is NamesVariable || arith_eval(s, i as int, 11)
                    == eval_binary_rest(s, value, j as int, 11),
            decreases s.len() - j,
        {
            let k = self.skip_ws(j);
            if self.bytes_are(k, AMP, AMP) {
                assert(binary_op_len(s, k as int, 11) == 2);
                if value == 0 {
                    let (_, m) = self.parse_bitwise_or(ctx, k + 2, true)?;
                    j = m;
                } else {
                    let (rhs, m) = self.parse_bitwise_or(ctx, k + 2, skip)?;
                    value = if rhs != 0 { 1 } else { 0 };
                    j = m;
                }
            } else {
                assert(binary_op_len(s, k as int, 11) == 0);
                return Ok((value, j));
            }
        }
    }

    /// `a | b`.
    pub fn parse_bitwise_or<C: Context>(&self, ctx: &mut C, i: usize, skip: bool) -> (r: Result<(i64, usize), ExpandError>)
        requires
            i <= self.source@.len(),
        ensures
            skip || !(arith_eval(self.source@, i as int, 10) is NamesVariable) ==> crate::params::answers_alike(
                &*final(ctx),
                &*old(ctx),
            ),
            r matches Ok((_, e)) ==> i <= e <= self.source@.len(),
            outcome_holds(arith_eval(self.source@, i as int, 10), r),
        decreases self.source@.len() - i, 10int,
    {
        let ghost s = self.source@;
        assert(arith_eval(s, i as int, 10) == eval_binary(s, i as int, 10));
        let (mut value, mut j) = self.parse_bitwise_xor(ctx, i, skip)?;
        loop
            invariant
                i <= j <= s.len(),
                skip || !(arith_eval(s, i as int, 10) is NamesVariable) ==> crate::params::answers_alike(&*ctx, &*old(ctx)),
                s == self.source@,
                arith_eval(s, i as int, 10) is NamesVariable || arith_eval(s, i as int, 10)
                    == eval_binary_rest(s, value, j as int, 10),
            decreases s.len() - j,
        {
            let k = self.skip_ws(j);
            if self.byte_is(k, PIPE) && !self.byte_is(k + 1, PIPE) && !self.byte_is(k + 1, EQUALS) {
                assert(binary_op_len(s, k as int, 10) == 1);
                let (rhs, m) = self.parse_bitwise_xor(ctx, k + 1, skip)?;
                value = value | rhs;
                j = m;
            } else {
                assert(binary_op_len(s, k as int, 10) == 0);
                return Ok((value, j));
            }
        }
    }

    /// `a ^ b`.
    pub fn parse_bitwise_xor<C: Context>(&self, ctx: &mut C, i: usize, skip: bool) -> (r: Result<(i64, usize), ExpandError>)
        requires
            i <= self.source@.len(),
        ensures
            skip || !(arith_eval(self.source@, i as int, 9) is NamesVariable) ==> crate::params::answers_alike(
                &*final(ctx),
                &*old(ctx),
            ),
            r matches Ok((_, e)) ==> i <= e <= self.source@.len(),
            outcome_holds(arith_eval(self.source@, i as int, 9), r),
        decreases self.source@.len() - i, 9int,
    {
        let ghost s = self.source@;
        assert(arith_eval(s, i as int, 9) == eval_binary(s, i as int, 9));
        let (mut value, mut j) = self.parse_bitwise_and(ctx, i, skip)?;
        loop
            invariant
                i <= j <= s.len(),
                skip || !(arith_eval(s, i as int, 9) is NamesVariable) ==> crate::params::answers_alike(&*ctx, &*old(ctx)),
                s == self.source@,
                arith_eval(s, i as int, 9) is NamesVariable || arith_eval(s, i as int, 9)
                    == eval_binary_rest(s, value, j as int, 9),
            decreases s.len() - j,
        {
            let k = self.skip_ws(j);
            if self.byte_is(k, CARET) && !self.byte_is(k + 1, EQUALS) {
                assert(binary_op_len(s, k as int, 9) == 1);
                let (rhs, m) = self.parse_bitwise_and(ctx, k + 1, skip)?;
                value = value ^ rhs;
                j = m;
            } else {
                assert(binary_op_len(s, k as int, 9) == 0);
                return Ok((value, j));
            }
        }
    }

    /// `a & b`.
    pub fn parse_bitwise_and<C: Context>(&self, ctx: &mut C, i: usize, skip: bool) -> (r: Result<(i64, usize), ExpandError>)
        requires
            i <= self.source@.len(),
        ensures
            skip || !(arith_eval(self.source@, i as int, 8) is NamesVariable) ==> crate::params::answers_alike(
                &*final(ctx),
                &*old(ctx),
            ),
            r matches Ok((_, e)) ==> i <= e <= self.source@.len(),
            outcome_holds(arith_eval(self.source@, i as int, 8), r),
        decreases self.source@.len() - i, 8int,
    {
        let ghost s = self.source@;
        assert(arith_eval(s, i as int, 8) == eval_binary(s, i as int, 8));
        let (mut value, mut j) = self.parse_equality(ctx, i, skip)?;
        loop
            invariant
                i <= j <= s.len(),
                skip || !(arith_eval(s, i as int, 8) is NamesVariable) ==> crate::params::answers_alike(&*ctx, &*old(ctx)),
                s == self.source@,
                arith_eval(s, i as int, 8) is NamesVariable || arith_eval(s, i as int, 8)
                    == eval_binary_rest(s, value, j as int, 8),
            decreases s.len() - j,
        {
            let k = self.skip_ws(j);
            if self.byte_is(k, AMP) && !self.byte_is(k + 1, AMP) && !self.byte_is(k + 1, EQUALS) {
                assert(binary_op_len(s, k as int, 8) == 1);
                let (rhs, m) = self.parse_equality(ctx, k + 1, skip)?;
                value = value & rhs;
                j = m;
            } else {
                assert(binary_op_len(s, k as int, 8) == 0);
                return Ok((value, j));
            }
        }
    }

    /// `a == b` and `a != b`.
    pub fn parse_equality<C: Context>(&self, ctx: &mut C, i: usize, skip: bool) -> (r: Result<(i64, usize), ExpandError>)
        requires
            i <= self.source@.len(),
        ensures
            skip || !(arith_eval(self.source@, i as int, 7) is NamesVariable) ==> crate::params::answers_alike(
                &*final(ctx),
                &*old(ctx),
            ),
            r matches Ok((_, e)) ==> i <= e <= self.source@.len(),
            outcome_holds(arith_eval(self.source@, i as int, 7), r),
        decreases self.source@.len() - i, 7int,
    {
        let ghost s = self.source@;
        assert(arith_eval(s, i as int, 7) == eval_binary(s, i as int, 7));
        let (mut value, mut j) = self.parse_relational(ctx, i, skip)?;
        loop
            invariant
                i <= j <= s.len(),
                skip || !(arith_eval(s, i as int, 7) is NamesVariable) ==> crate::params::answers_alike(&*ctx, &*old(ctx)),
                s == self.source@,
                arith_eval(s, i as int, 7) is NamesVariable || arith_eval(s, i as int, 7)
                    == eval_binary_rest(s, value, j as int, 7),
            decreases s.len() - j,
        {
            let k = self.skip_ws(j);
            if self.bytes_are(k, EQUALS, EQUALS) {
                assert(binary_op_len(s, k as int, 7) == 2);
                let (rhs, m) = self.parse_relational(ctx, k + 2, skip)?;
                value = if value == rhs { 1 } else { 0 };
                j = m;
            } else if self.bytes_are(k, BANG, EQUALS) {
                assert(binary_op_len(s, k as int, 7) == 2);
                let (rhs, m) = self.parse_relational(ctx, k + 2, skip)?;
                value = if value != rhs { 1 } else { 0 };
                j = m;
            } else {
                assert(binary_op_len(s, k as int, 7) == 0);
                return Ok((value, j));
            }
        }
    }

    /// `<=`, `>=`, `<` and `>`.
    pub fn parse_relational<C: Context>(&self, ctx: &mut C, i: usize, skip: bool) -> (r: Result<(i64, usize), ExpandError>)
        requires
            i <= self.source@.len(),
        ensures
            skip || !(arith_eval(self.source@, i as int, 6) is NamesVariable) ==> crate::params::answers_alike(
                &*final(ctx),
                &*old(ctx),
            ),
            r matches Ok((_, e)) ==> i <= e <= self.source@.len(),
            outcome_holds(arith_eval(self.source@, i as int, 6), r),
        decreases self.source@.len() - i, 6int,
    {
        let ghost s = self.source@;
        assert(arith_eval(s, i as int, 6) == eval_binary(s, i as int, 6));
        let (mut value, mut j) = self.parse_shift(ctx, i, skip)?;
        loop
            invariant
                i <= j <= s.len(),
                skip || !(arith_eval(s, i as int, 6) is NamesVariable) ==> crate::params::answers_alike(&*ctx, &*old(ctx)),
                s == self.source@,
                arith_eval(s, i as int, 6) is NamesVariable || arith_eval(s, i as int, 6)
                    == eval_binary_rest(s, value, j as int, 6),
            decreases s.len() - j,
        {
            let k = self.skip_ws(j);
            if self.bytes_are(k, LESS, EQUALS) {
                assert(binary_op_len(s, k as int, 6) == 2);
                let (rhs, m) = self.parse_shift(ctx, k + 2, skip)?;
                value = if value <= rhs { 1 } else { 0 };
                j = m;
            } else if self.bytes_are(k, GREATER, EQUALS) {
                assert(binary_op_len(s, k as int, 6) == 2);
                let (rhs, m) = self.parse_shift(ctx, k + 2, skip)?;
                value = if value >= rhs { 1 } else { 0 };
                j = m;
            } else if self.byte_is(k, LESS) && !self.byte_is(k + 1, LESS) {
                assert(binary_op_len(s, k as int, 6) == 1);
                let (rhs, m) = self.parse_shift(ctx, k + 1, skip)?;
                value = if value < rhs { 1 } else { 0 };
                j = m;
            } else if self.byte_is(k, GREATER) && !self.byte_is(k + 1, GREATER) {
                assert(binary_op_len(s, k as int, 6) == 1);
                let (rhs, m) = self.parse_shift(ctx, k + 1, skip)?;
                value = if value > rhs { 1 } else { 0 };
                j = m;
            } else {
                assert(binary_op_len(s, k as int, 6) == 0);
                return Ok((value, j));
            }
        }
    }

    /// `a << b` and `a >> b`, the shift taken modulo 64.
    pub fn parse_shift<C: Context>(&self, ctx: &mut C, i: usize, skip: bool) -> (r: Result<(i64, usize), ExpandError>)
        requires
            i <= self.source@.len(),
        ensures
            skip || !(arith_eval(self.source@, i as int, 5) is NamesVariable) ==> crate::params::answers_alike(
                &*final(ctx),
                &*old(ctx),
            ),
            r matches Ok((_, e)) ==> i <= e <= self.source@.len(),
            outcome_holds(arith_eval(self.source@, i as int, 5), r),
        decreases self.source@.len() - i, 5int,
    {
        let ghost s = self.source@;
        assert(arith_eval(s, i as int, 5) == eval_binary(s, i as int, 5));
        let (mut value, mut j) = self.parse_additive(ctx, i, skip)?;
        loop
            invariant
                i <= j <= s.len(),
                skip || !(arith_eval(s, i as int, 5) is NamesVariable) ==> crate::params::answers_alike(&*ctx, &*old(ctx)),
                s == self.source@,
                arith_eval(s, i as int, 5) is NamesVariable || arith_eval(s, i as int, 5)
                    == eval_binary_rest(s, value, j as int, 5),
            decreases s.len() - j,
        {
            let k = self.skip_ws(j);
            if self.bytes_are(k, LESS, LESS) && !self.byte_is(k + 2, EQUALS) {
                assert(binary_op_len(s, k as int, 5) == 2);
                let (rhs, m) = self.parse_additive(ctx, k + 2, skip)?;
                value = value.wrapping_shl(rhs as u32);
                j = m;
            } else if self.bytes_are(k, GREATER, GREATER) && !self.byte_is(k + 2, EQUALS) {
                assert(binary_op_len(s, k as int, 5) == 2);
                let (rhs, m) = self.parse_additive(ctx, k + 2, skip)?;
                value = value.wrapping_shr(rhs as u32);
                j = m;
            } else {
                assert(binary_op_len(s, k as int, 5) == 0);
                return Ok((value, j));
            }
        }
    }

    /// `a + b` and `a - b`, wrapping around.
    pub fn parse_additive<C: Context>(&self, ctx: &mut C, i: usize, skip: bool) -> (r: Result<(i64, usize), ExpandError>)
        requires
            i <= self.source@.len(),
        ensures
            skip || !(arith_eval(self.source@, i as int, 4) is NamesVariable) ==> crate::params::answers_alike(
                &*final(ctx),
                &*old(ctx),
            ),
            r matches Ok((_, e)) ==> i <= e <= self.source@.len(),
            outcome_holds(arith_eval(self.source@, i as int, 4), r),
        decreases self.source@.len() - i, 4int,
    {
        let ghost s = self.source@;
        assert(arith_eval(s, i as int, 4) == eval_binary(s, i as int, 4));
        let (mut value, mut j) = self.parse_multiplicative(ctx, i, skip)?;
        loop
            invariant
                i <= j <= s.len(),
                skip || !(arith_eval(s, i as int, 4) is NamesVariable) ==> crate::params::answers_alike(&*ctx, &*old(ctx)),
                s == self.source@,
                arith_eval(s, i as int, 4) is NamesVariable || arith_eval(s, i as int, 4)
                    == eval_binary_rest(s, value, j as int, 4),
            decreases s.len() - j,
        {
            let k = self.skip_ws(j);
            if self.byte_is(k, PLUS) && !self.byte_is(k + 1, EQUALS) {
                assert(binary_op_len(s, k as int, 4) == 1);
                let (rhs, m) = self.parse_multiplicative(ctx, k + 1, skip)?;
                value = value.wrapping_add(rhs);
                j = m;
            } else if self.byte_is(k, MINUS) && !self.byte_is(k + 1, EQUALS) {
                assert(binary_op_len(s, k as int, 4) == 1);
                let (rhs, m) = self.parse_multiplicative(ctx, k + 1, skip)?;
                value = value.wrapping_sub(rhs);
                j = m;
            } else {
                assert(binary_op_len(s, k as int, 4) == 0);
                return Ok((value, j));
            }
        }
    }

    /// `a * b`, `a / b` and `a % b`; dividing by zero is an error.
    pub fn parse_multiplicative<C: Context>(&self, ctx: &mut C, i: usize, skip: bool) -> (r: Result<(i64, usize), ExpandError>)
        requires
            i <= self.source@.len(),
        ensures
            skip || !(arith_eval(self.source@, i as int, 3) is NamesVariable) ==> crate::params::answers_alike(
                &*final(ctx),
                &*old(ctx),
            ),
            r matches Ok((_, e)) ==> i <= e <= self.source@.len(),
            outcome_holds(arith_eval(self.source@, i as int, 3), r),
        decreases self.source@.len() - i, 3int,
    {
        let ghost s = self.source@;
        assert(arith_eval(s, i as int, 3) == eval_binary(s, i as int, 3));
        let (mut value, mut j) = self.parse_unary(ctx, i, skip)?;
        loop
            invariant
                i <= j <= s.len(),
                skip || !(arith_eval(s, i as int, 3) is NamesVariable) ==> crate::params::answers_alike(&*ctx, &*old(ctx)),
                s == self.source@,
                arith_eval(s, i as int, 3) is NamesVariable || arith_eval(s, i as int, 3)
                    == eval_binary_rest(s, value, j as int, 3),
            decreases s.len() - j,
        {
            let k = self.skip_ws(j);
            if self.byte_is(k, STAR) && !self.byte_is(k + 1, EQUALS) {
                assert(binary_op_len(s, k as int, 3) == 1);
                let (rhs, m) = self.parse_unary(ctx, k + 1, skip)?;
                value = value.wrapping_mul(rhs);
                j = m;
            } else if self.byte_is(k, SLASH) && !self.byte_is(k + 1, EQUALS) {
                assert(binary_op_len(s, k as int, 3) == 1);
                let (rhs, m) = self.parse_unary(ctx, k + 1, skip)?;
                if rhs == 0 {
                    return Err(self.error_at(ctx, m, crate::chars::lit("division by zero")));
                }
                value = div_wrapping(value, rhs);
                j = m;
            } else if self.byte_is(k, PERCENT) && !self.byte_is(k + 1, EQUALS) {
                assert(binary_op_len(s, k as int, 3) == 1);
                let (rhs, m) = self.parse_unary(ctx, k + 1, skip)?;
                if rhs == 0 {
                    return Err(self.error_at(ctx, m, crate::chars::lit("division by zero")));
                }
                value = rem_wrapping(value, rhs);
                j = m;
            } else {
                assert(binary_op_len(s, k as int, 3) == 0);
                return Ok((value, j));
            }
        }
    }

    /// `+a`, `-a`, `~a` and `!a`.
    pub fn parse_unary<C: Context>(&self, ctx: &mut C, i: usize, skip: bool) -> (r: Result<(i64, usize), ExpandError>)
        requires
            i <= self.source@.len(),
        ensures
            skip || !(arith_eval(self.source@, i as int, 2) is NamesVariable) ==> crate::params::answers_alike(
                &*final(ctx),
                &*old(ctx),
            ),
            r matches Ok((_, e)) ==> i <= e <= self.source@.len(),
            outcome_holds(arith_eval(self.source@, i as int, 2), r),
        decreases self.source@.len() - i, 2int,
    {
        let ghost s = self.source@;
        assert(arith_eval(s, i as int, 2) == eval_unary(s, i as int));
        let j = self.skip_ws(i);
        if self.byte_is(j, PLUS) {
            return self.parse_unary(ctx, j + 1, skip);
        }
        if self.byte_is(j, MINUS) {
            let (v, e) = self.parse_unary(ctx, j + 1, skip)?;
            return Ok((0i64.wrapping_sub(v), e));
        }
        if self.byte_is(j, TILDE) {
            let (v, e) = self.parse_unary(ctx, j + 1, skip)?;
            return Ok((!v, e));
        }
        if self.byte_is(j, BANG) && !self.byte_is(j + 1, EQUALS) {
            let (v, e) = self.parse_unary(ctx, j + 1, skip)?;
            return Ok((if v == 0 { 1 } else { 0 }, e));
        }
        self.parse_primary(ctx, j, skip)
    }

    /// A parenthesized expression, a variable or a number.
    pub fn parse_primary<C: Context>(&self, ctx: &mut C, i: usize, skip: bool) -> (r: Result<(i64, usize), ExpandError>)
        requires
            i <= self.source@.len(),
        ensures
            skip || !(arith_eval(self.source@, i as int, 1) is NamesVariable) ==> crate::params::answers_alike(
                &*final(ctx),
                &*old(ctx),
            ),
            r matches Ok((_, e)) ==> i <= e <= self.source@.len(),
            outcome_holds(arith_eval(self.source@, i as int, 1), r),
        decreases self.source@.len() - i, 1int,
    {
        let ghost s = self.source@;
        assert(arith_eval(s, i as int, 1) == eval_primary(s, i as int));
        let j = self.skip_ws(i);
        proof {
            lemma_first_non_ws_idem(s, i as int);
        }
        if self.byte_is(j, LPAREN) {
            let (v, k) = self.parse_assignment(ctx, j + 1, skip)?;
            let k = self.skip_ws(k);
            if !self.byte_is(k, RPAREN) {
                return Err(self.error_at(ctx, k, crate::chars::lit("missing ')'")));
            }
            return Ok((v, k + 1));
        }
        if let Some((name, e)) = self.try_scan_name(j) {
            let v = self.resolve_var(ctx, name.as_slice(), e)?;
            return Ok((v, e));
        }
        self.parse_number(ctx, j)
    }
}

/// The value of the arithmetic expression `expression`; text after a
/// complete expression is an error.
pub fn eval_arithmetic<C: Context>(ctx: &mut C, expression: &[u8]) -> (r: Result<i64, ExpandError>)
    ensures
        match spec_eval_arithmetic(expression@) {
            ArithOutcome::Value(v, _) => r matches Ok(x) && x == v,
            ArithOutcome::Error(m) => r matches Err(e) && e.message@ == m,
            ArithOutcome::NamesVariable => true,
        },
        lone_number(expression@, 0) matches Some((v, _)) ==> r == Ok::<i64, ExpandError>(v),
        !(spec_eval_arithmetic(expression@) is NamesVariable) ==> crate::params::answers_alike(&*final(ctx), &*old(ctx)),
        match assignment_at(expression@, 0) {
            Some((a, b, n, rhs)) => (r matches Ok(v) ==> assigned::<C>(expression@, a, b, v)) && (n == 1 ==> match arith_eval(
                expression@,
                rhs,
                14,
            ) {
                ArithOutcome::Value(x, _) => r matches Ok(v) ==> v == x,
                _ => true,
            }),
            None => true,
        },
{
    proof {
        law_lone_number_evaluates_to_itself(expression@);
    }
    let parser = ArithmeticParser::new(expression, ctx.lineno());
    let (value, end) = parser.parse_assignment(ctx, 0, false)?;
    let end = parser.skip_ws(end);
    if !parser.is_eof(end) {
        return Err(crate::context::expand_error("unexpected trailing arithmetic tokens"));
    }
    Ok(value)
}

proof fn lemma_number_range(s: Seq<u8>, i: int)
    requires
        0 <= i <= s.len(),
    ensures
        spec_number(s, i) matches Ok((_, e)) ==> first_non_ws(s, i) < e <= s.len(),
{
    let j = first_non_ws(s, i);
    lemma_fnw_range(s, i);
    if j < s.len() && s[j] == DIGIT_ZERO {
        if j + 1 < s.len() && (s[j + 1] == LOWER_X || s[j + 1] == UPPER_X) {
            lemma_xdigit_end(s, j + 2);
        } else if j + 1 < s.len() && spec_is_digit(s[j + 1]) {
            lemma_digit_end(s, j + 1);
        }
    } else {
        lemma_digit_end(s, j);
    }
}

proof fn lemma_lone_number_from_start(s: Seq<u8>, i: int)
    requires
        0 <= i <= s.len(),
    ensures
        lone_number(s, first_non_ws(s, i)) == lone_number(s, i),
        spec_number(s, first_non_ws(s, i)) == spec_number(s, i),
{
    lemma_first_non_ws_idem(s, i);
}

proof fn lemma_lone_number_levels(s: Seq<u8>, i: int, level: int)
    requires
        0 <= i <= s.len(),
        1 <= level <= 14,
    ensures
        lone_number(s, i) matches Some((v, _)) ==> (arith_eval(s, i, level) matches ArithOutcome::Value(
            v2,
            e2,
        ) && v2 == v && first_non_ws(s, e2) >= s.len() && i <= e2 <= s.len()),
    decreases level,
{
    if let Some((v, e)) = lone_number(s, i) {
        let j = first_non_ws(s, i);
        lemma_fnw_range(s, i);
        lemma_lone_number_from_start(s, i);
        lemma_number_range(s, i);
        assert(spec_is_digit(s[j]));
        assert(!spec_is_name_start(s[j]));
        if level == 1 {
            assert(arith_eval(s, i, 1) == eval_primary(s, i));
        } else if level == 2 {
            lemma_lone_number_levels(s, j, 1);
            assert(arith_eval(s, i, 2) == eval_unary(s, i));
        } else if level <= 12 {
            lemma_lone_number_levels(s, i, level - 1);
            assert(arith_eval(s, i, level) == eval_binary(s, i, level));
            if let ArithOutcome::Value(v2, e2) = arith_eval(s, i, level - 1) {
                assert(binary_op_len(s, first_non_ws(s, e2), level) == 0);
                assert(eval_binary_rest(s, v2, e2, level) == ArithOutcome::Value(v2, e2));
            }
        } else if level == 13 {
            lemma_lone_number_levels(s, i, 12);
            assert(arith_eval(s, i, 13) == eval_conditional(s, i));
            if let ArithOutcome::Value(v2, e2) = arith_eval(s, i, 12) {
                lemma_first_non_ws_idem(s, e2);
                lemma_fnw_range(s, e2);
            }
        } else {
            lemma_lone_number_levels(s, j, 13);
            assert(arith_eval(s, i, 14) == eval_assignment(s, i));
        }
    }
}

/// A number alone, blanks around it aside, evaluates to itself.
pub proof fn law_lone_number_evaluates_to_itself(s: Seq<u8>)
    ensures
        lone_number(s, 0) matches Some((v, _)) ==> (spec_eval_arithmetic(s) matches ArithOutcome::Value(
            v2,
            _,
        ) && v2 == v),
{
    lemma_lone_number_levels(s, 0, 14);
}

proof fn name_end_bounds(raw: Seq<u8>, i: int)
    requires
        0 <= i <= raw.len(),
    ensures
        i <= name_end(raw, i) <= raw.len(),
    decreases raw.len() - i,
{
    if i < raw.len() && spec_is_name_char(raw[i]) {
        name_end_bounds(raw, i + 1);
    }
}


/// The digits from `i` to `e` are the run of digits that starts at `i`.
proof fn lemma_digit_run(s: Seq<u8>, i: int, e: int)
    requires
        0 <= i <= e <= s.len(),
        forall|k: int| i <= k < e ==> spec_is_digit(#[trigger] s[k]),
        e == s.len() || !spec_is_digit(s[e]),
    ensures
        digit_end(s, i) == e,
    decreases e - i,
{
    if i < e {
        lemma_digit_run(s, i + 1, e);
    }
}

/// Where blanks end: at a byte that is no blank.
proof fn lemma_fnw_at(s: Seq<u8>, i: int, j: int)
    requires
        0 <= i <= j <= s.len(),
        forall|k: int| i <= k < j ==> crate::chars::spec_is_ws(#[trigger] s[k]),
        j == s.len() || !crate::chars::spec_is_ws(s[j]),
    ensures
        first_non_ws(s, i) == j,
    decreases j - i,
{
    if i < j {
        lemma_fnw_at(s, i + 1, j);
    }
}

/// The decimal text of `n` at `i` of `s`, followed by a byte that is no
/// digit or by the end, is read as the number `n`.
proof fn lemma_decimal_operand(s: Seq<u8>, i: int, n: nat)
    requires
        n <= i64::MAX,
        0 <= i,
        i + spec_decimal(n).len() <= s.len(),
        s.subrange(i, i + spec_decimal(n).len()) == spec_decimal(n),
        i + spec_decimal(n).len() == s.len() || !spec_is_digit(s[i + spec_decimal(n).len()]),
        i + spec_decimal(n).len() == s.len() || (s[i + spec_decimal(n).len()] != LOWER_X && s[i + spec_decimal(n).len()] != UPPER_X),
    ensures
        first_non_ws(s, i) == i,
        spec_is_digit(s[i]),
        spec_number(s, i) == Ok::<(i64, int), Seq<u8>>((n as i64, i + spec_decimal(n).len())),
{
    let d = spec_decimal(n);
    let e = i + d.len();
    crate::bytes::lemma_decimal_digits(n);
    assert forall|k: int| i <= k < e implies spec_is_digit(#[trigger] s[k]) by {
        assert(s[k] == d[k - i]);
    }
    assert(s[i] == d[0]);
    lemma_fnw_at(s, i, i);
    if n == 0 {
        assert(s[i] == DIGIT_ZERO);
    } else {
        lemma_digit_run(s, i, e);
        crate::bytes::law_i64_text_parses_back(n as i64);
        assert(spec_i64_text(n as i64) == d);
        assert(s.subrange(i, e) == d);
    }
}

/// A number at `i` followed by no operator of the levels up to 5 is what
/// every level up to 5 evaluates to.
proof fn lemma_operand_levels(s: Seq<u8>, i: int, v: i64, e: int, level: int)
    requires
        0 <= i <= s.len(),
        1 <= level <= 5,
        first_non_ws(s, i) < s.len(),
        spec_is_digit(s[first_non_ws(s, i)]),
        spec_number(s, i) == Ok::<(i64, int), Seq<u8>>((v, e)),
        binary_op_len(s, first_non_ws(s, e), 3) == 0,
        binary_op_len(s, first_non_ws(s, e), 4) == 0,
        binary_op_len(s, first_non_ws(s, e), 5) == 0,
    ensures
        arith_eval(s, i, level) == ArithOutcome::Value(v, e),
    decreases level,
{
    let j = first_non_ws(s, i);
    lemma_fnw_range(s, i);
    lemma_lone_number_from_start(s, i);
    lemma_number_range(s, i);
    assert(!spec_is_name_start(s[j]));
    if level == 1 {
        lemma_first_non_ws_idem(s, i);
        assert(arith_eval(s, i, 1) == eval_primary(s, i));
    } else if level == 2 {
        lemma_first_non_ws_idem(s, i);
        lemma_operand_levels(s, j, v, e, 1);
        assert(arith_eval(s, i, 2) == eval_unary(s, i));
    } else {
        lemma_operand_levels(s, i, v, e, level - 1);
        assert(arith_eval(s, i, level) == eval_binary(s, i, level));
        assert(eval_binary_rest(s, v, e, level) == ArithOutcome::Value(v, e));
    }
}

/// A value reached at level `level` with nothing after it is what every
/// level above evaluates to, up to the conditional.
proof fn lemma_value_levels_above(s: Seq<u8>, i: int, v: i64, e: int, from: int, level: int)
    requires
        0 <= i <= e,
        e == s.len(),
        3 <= from <= level <= 13,
        arith_eval(s, i, from) == ArithOutcome::Value(v, e),
    ensures
        arith_eval(s, i, level) == ArithOutcome::Value(v, e),
    decreases level - from,
{
    lemma_fnw_at(s, e, e);
    if level > from {
        lemma_value_levels_above(s, i, v, e, from, level - 1);
        if level <= 12 {
            assert(arith_eval(s, i, level) == eval_binary(s, i, level));
            assert(binary_op_len(s, first_non_ws(s, e), level) == 0);
            assert(eval_binary_rest(s, v, e, level) == ArithOutcome::Value(v, e));
        } else {
            lemma_fnw_at(s, e, e);
            assert(arith_eval(s, i, 13) == eval_conditional(s, i));
        }
    }
}

/// The decimal text of `a`, led by `-` where it is negative.
pub open spec fn signed_decimal(a: int) -> Seq<u8> {
    if a < 0 {
        seq![MINUS] + spec_decimal((-a) as nat)
    } else {
        spec_decimal(a as nat)
    }
}

/// A number written with its sign at `j` of `s`, where the blanks from `i`
/// end, followed by a byte that is no digit or by the end and by no
/// operator of the levels from 3 to 5, is what every level from 2 to 5
/// evaluates to from `i`.
proof fn lemma_signed_operand(s: Seq<u8>, i: int, j: int, a: int, level: int)
    requires
        -i64::MAX <= a <= i64::MAX,
        2 <= level <= 5,
        0 <= i <= j,
        first_non_ws(s, i) == j,
        j + signed_decimal(a).len() <= s.len(),
        s.subrange(j, j + signed_decimal(a).len()) == signed_decimal(a),
        j + signed_decimal(a).len() == s.len() || (!spec_is_digit(s[j + signed_decimal(a).len()]) && s[j
            + signed_decimal(a).len()] != LOWER_X && s[j + signed_decimal(a).len()] != UPPER_X),
        binary_op_len(s, first_non_ws(s, j + signed_decimal(a).len()), 3) == 0,
        binary_op_len(s, first_non_ws(s, j + signed_decimal(a).len()), 4) == 0,
        binary_op_len(s, first_non_ws(s, j + signed_decimal(a).len()), 5) == 0,
    ensures
        arith_eval(s, i, level) == ArithOutcome::Value(a as i64, j + signed_decimal(a).len()),
    decreases level,
{
    let e = j + signed_decimal(a).len();
    if a >= 0 {
        lemma_decimal_operand(s, j, a as nat);
        assert(spec_number(s, i) == spec_number(s, j));
        lemma_operand_levels(s, i, a as i64, e, level);
    } else {
        let n = (-a) as nat;
        let d = spec_decimal(n);
        assert(signed_decimal(a) == seq![MINUS] + d);
        assert(s[j] == s.subrange(j, e)[0]);
        assert(s[j] == MINUS);
        assert(s.subrange(j + 1, e) =~= d) by {
            assert forall|k: int| 0 <= k < d.len() implies #[trigger] s.subrange(j + 1, e)[k] == d[k] by {
                assert(s.subrange(j, e)[k + 1] == signed_decimal(a)[k + 1]);
            }
        }
        lemma_decimal_operand(s, j + 1, n);
        lemma_operand_levels(s, j + 1, n as i64, e, 2);
        if level == 2 {
            assert(arith_eval(s, i, 2) == eval_unary(s, i));
            assert(!byte_at(s, j, PLUS));
            assert(byte_at(s, j, MINUS));
            assert(vstd::wrapping::i64_specs::wrapping_sub(0, n as i64) == a as i64);
        } else {
            lemma_signed_operand(s, i, j, a, level - 1);
            assert(arith_eval(s, i, level) == eval_binary(s, i, level));
            assert(eval_binary_rest(s, a as i64, e, level) == ArithOutcome::Value(a as i64, e));
        }
    }
}

/// The text `a op b` for two integers written in decimal with their
/// signs and a comparison `op`, with blanks around it.
pub open spec fn comparison_text(a: int, op: Seq<u8>, b: int) -> Seq<u8> {
    signed_decimal(a) + seq![crate::chars::SPACE] + op + seq![crate::chars::SPACE] + signed_decimal(b)
}

/// Evaluating `a op b` for a comparison `op` gives the value of the
/// comparison level for these operands.
proof fn lemma_comparison_evaluates(a: int, op: Seq<u8>, b: int)
    requires
        -i64::MAX <= a <= i64::MAX,
        -i64::MAX <= b <= i64::MAX,
        op == seq![LESS] || op == seq![GREATER] || op == seq![LESS, EQUALS] || op == seq![GREATER, EQUALS],
    ensures
        spec_eval_arithmetic(comparison_text(a, op, b)) matches ArithOutcome::Value(r, _) && Some(r) == binary_value(
            comparison_text(a, op, b),
            signed_decimal(a).len() + 1int,
            6,
            a as i64,
            b as i64,
        ),
{
    let s = comparison_text(a, op, b);
    let da = signed_decimal(a);
    let db = signed_decimal(b);
    let la = da.len() as int;
    let k = la + 1;
    let rb = k + op.len() + 1;
    let end = s.len() as int;
    crate::bytes::lemma_decimal_digits((if a < 0 { -a } else { a }) as nat);
    crate::bytes::lemma_decimal_digits((if b < 0 { -b } else { b }) as nat);
    assert(s.subrange(0, la) =~= da);
    assert(s[la] == crate::chars::SPACE);
    assert(s[k] == op[0]);
    assert(s[rb - 1] == crate::chars::SPACE);
    assert(op.len() == 2 ==> s[k + 1] == EQUALS);
    assert(s.subrange(rb, end) =~= db);
    assert(db.len() > 0);
    assert(s[rb] == db[0]);
    lemma_fnw_at(s, la, k);
    lemma_fnw_at(s, end, end);
    lemma_fnw_at(s, 0, 0);
    lemma_signed_operand(s, 0, 0, a, 5);
    lemma_fnw_at(s, k + op.len(), rb);
    lemma_signed_operand(s, k + op.len(), rb, b, 5);
    assert(binary_op_len(s, k, 6) == op.len());
    let v = binary_value(s, k, 6, a as i64, b as i64).unwrap();
    assert(eval_binary_rest(s, v, end, 6) == ArithOutcome::Value(v, end));
    assert(eval_binary_rest(s, a as i64, la, 6) == ArithOutcome::Value(v, end));
    assert(arith_eval(s, 0, 6) == eval_binary(s, 0, 6));
    assert(arith_eval(s, 0, 6) == ArithOutcome::Value(v, end));
    lemma_value_levels_above(s, 0, v, end, 6, 13);
    lemma_fnw_at(s, 0, 0);
    assert(arith_eval(s, 0, 14) == eval_assignment(s, 0));
    assert(arith_eval(s, 0, 14) == ArithOutcome::Value(v, end));
}

/// Comparing two integers in arithmetic gives 1 where the comparison holds
/// between them as integers and 0 where it does not: `a < b`, `a <= b`,
/// `a > b` and `a >= b`, so that in particular `n >= n` and `n <= n` are 1
/// and `n < n` and `n > n` are 0. (The least `i64` has no text of its own
/// here: its digits alone overflow.)
pub proof fn law_comparisons_compare_integers(a: int, b: int)
    requires
        -i64::MAX <= a <= i64::MAX,
        -i64::MAX <= b <= i64::MAX,
    ensures
        spec_eval_arithmetic(comparison_text(a, seq![LESS], b)) matches ArithOutcome::Value(r, _) && r == (if a < b {
            1i64
        } else {
            0i64
        }),
        spec_eval_arithmetic(comparison_text(a, seq![LESS, EQUALS], b)) matches ArithOutcome::Value(r, _) && r == (if a
            <= b {
            1i64
        } else {
            0i64
        }),
        spec_eval_arithmetic(comparison_text(a, seq![GREATER], b)) matches ArithOutcome::Value(r, _) && r == (if a > b {
            1i64
        } else {
            0i64
        }),
        spec_eval_arithmetic(comparison_text(a, seq![GREATER, EQUALS], b)) matches ArithOutcome::Value(r, _) && r == (if a
            >= b {
            1i64
        } else {
            0i64
        }),
{
    let la = signed_decimal(a).len() + 1int;
    lemma_comparison_evaluates(a, seq![LESS], b);
    assert(comparison_text(a, seq![LESS], b)[la] == LESS);
    lemma_comparison_evaluates(a, seq![LESS, EQUALS], b);
    assert(comparison_text(a, seq![LESS, EQUALS], b)[la] == LESS);
    assert(comparison_text(a, seq![LESS, EQUALS], b)[la + 1] == EQUALS);
    lemma_comparison_evaluates(a, seq![GREATER], b);
    assert(comparison_text(a, seq![GREATER], b)[la] == GREATER);
    lemma_comparison_evaluates(a, seq![GREATER, EQUALS], b);
    assert(comparison_text(a, seq![GREATER, EQUALS], b)[la] == GREATER);
    assert(comparison_text(a, seq![GREATER, EQUALS], b)[la + 1] == EQUALS);
}

} // verus!
