//! Byte classes of the POSIX "C" locale and the byte constants that the
//! shell's syntax is written with.

use vstd::string::StringSliceAdditionalSpecFns;
use vstd::prelude::*;

verus! {

pub const NUL: u8 = 0x00;
pub const TAB: u8 = 0x09;
pub const NEWLINE: u8 = 0x0a;
pub const VTAB: u8 = 0x0b;
pub const FORMFEED: u8 = 0x0c;
pub const CR: u8 = 0x0d;
pub const ESC: u8 = 0x1b;
pub const SPACE: u8 = 0x20;
pub const BANG: u8 = 0x21;
pub const DQUOTE: u8 = 0x22;
pub const HASH: u8 = 0x23;
pub const DOLLAR: u8 = 0x24;
pub const PERCENT: u8 = 0x25;
pub const AMP: u8 = 0x26;
pub const SQUOTE: u8 = 0x27;
pub const LPAREN: u8 = 0x28;
pub const RPAREN: u8 = 0x29;
pub const STAR: u8 = 0x2a;
pub const PLUS: u8 = 0x2b;
pub const COMMA: u8 = 0x2c;
pub const MINUS: u8 = 0x2d;
pub const DOT: u8 = 0x2e;
pub const SLASH: u8 = 0x2f;
pub const DIGIT_ZERO: u8 = 0x30;
pub const DIGIT_SEVEN: u8 = 0x37;
pub const DIGIT_NINE: u8 = 0x39;
pub const COLON: u8 = 0x3a;
pub const SEMICOLON: u8 = 0x3b;
pub const LESS: u8 = 0x3c;
pub const EQUALS: u8 = 0x3d;
pub const GREATER: u8 = 0x3e;
pub const QUESTION: u8 = 0x3f;
pub const AT: u8 = 0x40;
pub const UPPER_A: u8 = 0x41;
pub const UPPER_F: u8 = 0x46;
pub const UPPER_X: u8 = 0x58;
pub const UPPER_Z: u8 = 0x5a;
pub const LBRACKET: u8 = 0x5b;
pub const BACKSLASH: u8 = 0x5c;
pub const RBRACKET: u8 = 0x5d;
pub const CARET: u8 = 0x5e;
pub const UNDERSCORE: u8 = 0x5f;
pub const BACKQUOTE: u8 = 0x60;
pub const LOWER_A: u8 = 0x61;
pub const LOWER_F: u8 = 0x66;
pub const LOWER_X: u8 = 0x78;
pub const LOWER_Z: u8 = 0x7a;
pub const LBRACE: u8 = 0x7b;
pub const PIPE: u8 = 0x7c;
pub const RBRACE: u8 = 0x7d;
pub const TILDE: u8 = 0x7e;
pub const DEL: u8 = 0x7f;

pub open spec fn spec_is_digit(b: u8) -> bool {
    DIGIT_ZERO <= b && b <= DIGIT_NINE
}

pub open spec fn spec_is_upper(b: u8) -> bool {
    UPPER_A <= b && b <= UPPER_Z
}

pub open spec fn spec_is_lower(b: u8) -> bool {
    LOWER_A <= b && b <= LOWER_Z
}

pub open spec fn spec_is_alpha(b: u8) -> bool {
    spec_is_upper(b) || spec_is_lower(b)
}

pub open spec fn spec_is_alnum(b: u8) -> bool {
    spec_is_alpha(b) || spec_is_digit(b)
}

pub open spec fn spec_is_xdigit(b: u8) -> bool {
    spec_is_digit(b) || (UPPER_A <= b && b <= UPPER_F) || (LOWER_A <= b && b <= LOWER_F)
}

/// The bytes that `u8::is_ascii_whitespace` accepts (vertical tab excluded).
pub open spec fn spec_is_ws(b: u8) -> bool {
    b == SPACE || b == TAB || b == NEWLINE || b == FORMFEED || b == CR
}

/// A byte that may start a shell name.
pub open spec fn spec_is_name_start(b: u8) -> bool {
    b == UNDERSCORE || spec_is_alpha(b)
}

/// A byte that may continue a shell name.
pub open spec fn spec_is_name_char(b: u8) -> bool {
    b == UNDERSCORE || spec_is_alnum(b)
}

pub fn is_digit(b: u8) -> (r: bool)
    ensures
        r == spec_is_digit(b),
{
    DIGIT_ZERO <= b && b <= DIGIT_NINE
}

pub fn is_upper(b: u8) -> (r: bool)
    ensures
        r == spec_is_upper(b),
{
    UPPER_A <= b && b <= UPPER_Z
}

pub fn is_lower(b: u8) -> (r: bool)
    ensures
        r == spec_is_lower(b),
{
    LOWER_A <= b && b <= LOWER_Z
}

pub fn is_alpha(b: u8) -> (r: bool)
    ensures
        r == spec_is_alpha(b),
{
    is_upper(b) || is_lower(b)
}

pub fn is_alnum(b: u8) -> (r: bool)
    ensures
        r == spec_is_alnum(b),
{
    is_alpha(b) || is_digit(b)
}

pub fn is_xdigit(b: u8) -> (r: bool)
    ensures
        r == spec_is_xdigit(b),
{
    is_digit(b) || (UPPER_A <= b && b <= UPPER_F) || (LOWER_A <= b && b <= LOWER_F)
}

pub fn is_ws(b: u8) -> (r: bool)
    ensures
        r == spec_is_ws(b),
{
    b == SPACE || b == TAB || b == NEWLINE || b == FORMFEED || b == CR
}

pub fn is_name_start(b: u8) -> (r: bool)
    ensures
        r == spec_is_name_start(b),
{
    b == UNDERSCORE || is_alpha(b)
}

pub fn is_name_char(b: u8) -> (r: bool)
    ensures
        r == spec_is_name_char(b),
{
    b == UNDERSCORE || is_alnum(b)
}

/// Membership of a byte in a POSIX character class of the "C" locale,
/// the class given by its name (`alpha`, `digit`, ...). An unknown name
/// names an empty class.
pub open spec fn spec_in_class(class: Seq<u8>, c: u8) -> bool {
    if class == "alpha".spec_bytes() {
        spec_is_alpha(c)
    } else if class == "alnum".spec_bytes() {
        spec_is_alnum(c)
    } else if class == "blank".spec_bytes() {
        c == SPACE || c == TAB
    } else if class == "cntrl".spec_bytes() {
        c < SPACE || c == DEL
    } else if class == "digit".spec_bytes() {
        spec_is_digit(c)
    } else if class == "graph".spec_bytes() {
        0x21 <= c && c <= TILDE
    } else if class == "lower".spec_bytes() {
        spec_is_lower(c)
    } else if class == "print".spec_bytes() {
        SPACE <= c && c <= TILDE
    } else if class == "punct".spec_bytes() {
        0x21 <= c && c <= TILDE && !spec_is_alnum(c)
    } else if class == "space".spec_bytes() {
        spec_is_ws(c) || c == VTAB
    } else if class == "upper".spec_bytes() {
        spec_is_upper(c)
    } else if class == "xdigit".spec_bytes() {
        spec_is_xdigit(c)
    } else {
        false
    }
}

/// Whether the byte string `s` equals the bytes of the literal `lit`.
pub fn bytes_eq_str(s: &[u8], lit: &str) -> (r: bool)
    ensures
        r == (s@ == lit.spec_bytes()),
{
    bytes_eq(s, lit.as_bytes())
}

/// Byte-wise equality of two slices.
pub fn bytes_eq(a: &[u8], b: &[u8]) -> (r: bool)
    ensures
        r == (a@ == b@),
{
    if a.len() != b.len() {
        return false;
    }
    let mut i: usize = 0;
    while i < a.len()
        invariant
            a.len() == b.len(),
            i <= a.len(),
            forall|j: int| 0 <= j < i ==> a@[j] == b@[j],
        decreases a.len() - i,
    {
        if a[i] != b[i] {
            return false;
        }
        i += 1;
    }
    assert(a@ =~= b@);
    true
}

/// Membership of `c` in the named character class of the "C" locale.
pub fn in_class(class: &[u8], c: u8) -> (r: bool)
    ensures
        r == spec_in_class(class@, c),
{
    if bytes_eq_str(class, "alpha") {
        is_alpha(c)
    } else if bytes_eq_str(class, "alnum") {
        is_alnum(c)
    } else if bytes_eq_str(class, "blank") {
        c == SPACE || c == TAB
    } else if bytes_eq_str(class, "cntrl") {
        c < SPACE || c == DEL
    } else if bytes_eq_str(class, "digit") {
        is_digit(c)
    } else if bytes_eq_str(class, "graph") {
        0x21 <= c && c <= TILDE
    } else if bytes_eq_str(class, "lower") {
        is_lower(c)
    } else if bytes_eq_str(class, "print") {
        SPACE <= c && c <= TILDE
    } else if bytes_eq_str(class, "punct") {
        0x21 <= c && c <= TILDE && !is_alnum(c)
    } else if bytes_eq_str(class, "space") {
        is_ws(c) || c == VTAB
    } else if bytes_eq_str(class, "upper") {
        is_upper(c)
    } else if bytes_eq_str(class, "xdigit") {
        is_xdigit(c)
    } else {
        false
    }
}

/// A vector that holds the bytes of a string literal.
pub fn lit(s: &str) -> (r: Vec<u8>)
    ensures
        r@ == s.spec_bytes(),
{
    vstd::slice::slice_to_vec(s.as_bytes())
}

} // verus!
