//! Character classes, decimal rendering, and the bijective base-26 column
//! labels that address spreadsheet columns.

use vstd::prelude::*;
use vstd::string::StrSliceExecFns;
use vstd::string::StringExecFns;

verus! {

/// An ASCII uppercase letter, the alphabet of column labels.
pub open spec fn is_upper(c: char) -> bool {
    'A' <= c && c <= 'Z'
}

/// An ASCII decimal digit.
pub open spec fn is_digit_ch(c: char) -> bool {
    '0' <= c && c <= '9'
}

/// An operator or parenthesis character of the formula language.
pub open spec fn is_op_ch(c: char) -> bool {
    c == '+' || c == '-' || c == '*' || c == '/' || c == '(' || c == ')'
}

/// A Unicode whitespace character (the `White_Space` set that
/// `char::is_whitespace` documents); whitespace is skipped by the tokenizer.
pub open spec fn is_space(c: char) -> bool {
    c == ' ' || c == '\t' || c == '\n' || c == '\r' || c == '\u{b}' || c == '\u{c}'
        || c == '\u{85}' || c == '\u{a0}' || c == '\u{1680}'
        || ('\u{2000}' <= c && c <= '\u{200a}')
        || c == '\u{2028}' || c == '\u{2029}' || c == '\u{202f}' || c == '\u{205f}'
        || c == '\u{3000}'
}

pub fn upper_char(c: char) -> (b: bool)
    ensures
        b == is_upper(c),
{
    'A' <= c && c <= 'Z'
}

pub fn digit_char(c: char) -> (b: bool)
    ensures
        b == is_digit_ch(c),
{
    '0' <= c && c <= '9'
}

pub fn op_char(c: char) -> (b: bool)
    ensures
        b == is_op_ch(c),
{
    c == '+' || c == '-' || c == '*' || c == '/' || c == '(' || c == ')'
}

pub fn space_char(c: char) -> (b: bool)
    ensures
        b == is_space(c),
{
    c == ' ' || c == '\t' || c == '\n' || c == '\r' || c == '\u{b}' || c == '\u{c}'
        || c == '\u{85}' || c == '\u{a0}' || c == '\u{1680}'
        || ('\u{2000}' <= c && c <= '\u{200a}')
        || c == '\u{2028}' || c == '\u{2029}' || c == '\u{202f}' || c == '\u{205f}'
        || c == '\u{3000}'
}

/// Numeric value of a decimal digit character.
pub open spec fn digit_val(c: char) -> int {
    c as u32 - '0' as u32
}

/// The decimal digit character for a value below ten.
pub open spec fn digit_of(d: int) -> char {
    ((48 + d) as u8) as char
}

/// The uppercase letter for a value below 26 (0 is `A`).
pub open spec fn upper_of(r: int) -> char {
    ((65 + r) as u8) as char
}

/// Decimal representation of a natural number, most significant digit first.
pub open spec fn dec_rep(n: nat) -> Seq<char>
    decreases n,
{
    if n < 10 {
        seq![digit_of(n as int)]
    } else {
        dec_rep(n / 10).push(digit_of((n % 10) as int))
    }
}

/// Decimal representation of an integer: a `-` sign followed by the digits
/// of the magnitude when negative.
pub open spec fn dec_int(v: int) -> Seq<char> {
    if v < 0 {
        seq!['-'] + dec_rep((-v) as nat)
    } else {
        dec_rep(v as nat)
    }
}

fn render_digit(d: u64) -> (c: char)
    requires
        d < 10,
    ensures
        c == digit_of(d as int),
{
    (48 + d as u8) as char
}

/// The decimal digits of `n`, as characters.
pub fn render_u64(n: u64) -> (v: Vec<char>)
    ensures
        v@ == dec_rep(n as nat),
    decreases n,
{
    if n < 10 {
        let mut v: Vec<char> = Vec::new();
        v.push(render_digit(n));
        proof {
            assert(v@ =~= dec_rep(n as nat));
        }
        v
    } else {
        let mut v = render_u64(n / 10);
        v.push(render_digit(n % 10));
        proof {
            assert(v@ =~= dec_rep(n as nat));
        }
        v
    }
}

/// The decimal rendering of a signed 64-bit integer.
pub fn render_i64(n: i64) -> (v: Vec<char>)
    ensures
        v@ == dec_int(n as int),
{
    if n >= 0 {
        render_u64(n as u64)
    } else {
        let wide: i128 = n as i128;
        let m: u64 = (-wide) as u64;
        let mut v: Vec<char> = Vec::new();
        v.push('-');
        let mut digits = render_u64(m);
        v.append(&mut digits);
        proof {
            assert(v@ =~= dec_int(n as int));
        }
        v
    }
}

/// Relies on `String: FromIterator<char>`: collecting characters builds the
/// string holding exactly those characters in order.
#[verifier::external_body]
pub fn chars_to_string(v: &Vec<char>) -> (s: String)
    ensures
        s@ == v@,
{
    v.iter().collect()
}

/// The characters of a string slice, in order.
pub fn str_to_chars(s: &str) -> (v: Vec<char>)
    ensures
        v@ == s@,
{
    let n = s.unicode_len();
    let mut v: Vec<char> = Vec::new();
    let mut i: usize = 0;
    while i < n
        invariant
            i <= n,
            n == s@.len(),
            v@ == s@.subrange(0, i as int),
        decreases n - i,
    {
        let c = s.get_char(i);
        v.push(c);
        i = i + 1;
        proof {
            assert(v@ =~= s@.subrange(0, i as int));
        }
    }
    proof {
        assert(v@ =~= s@);
    }
    v
}

/// The column label for the positive ordinal `m` in bijective base 26:
/// 1 is `A`, 26 is `Z`, 27 is `AA`.
pub open spec fn label_of(m: nat) -> Seq<char>
    decreases m,
{
    if m == 0 {
        Seq::empty()
    } else {
        let r = ((m - 1) as nat) % 26;
        let q = ((m - 1) as nat) / 26;
        if q == 0 {
            seq![upper_of(r as int)]
        } else {
            label_of(q).push(upper_of(r as int))
        }
    }
}

/// The column label for the 0-based column index `n`: 0 is `A`, 25 is `Z`,
/// 26 is `AA`.
pub open spec fn column_label(n: nat) -> Seq<char> {
    label_of(n + 1)
}

fn label_chars(m: usize) -> (v: Vec<char>)
    requires
        m >= 1,
    ensures
        v@ == label_of(m as nat),
    decreases m,
{
    let r: usize = (m - 1) % 26;
    let q: usize = (m - 1) / 26;
    let c: char = (65 + r as u8) as char;
    if q == 0 {
        let mut v: Vec<char> = Vec::new();
        v.push(c);
        proof {
            assert(v@ =~= label_of(m as nat));
        }
        v
    } else {
        let mut v = label_chars(q);
        v.push(c);
        proof {
            assert(v@ =~= label_of(m as nat));
        }
        v
    }
}

/// The label of the 0-based column `col_index`, e.g. 0 is `"A"` and 702 is
/// `"AAA"`.
pub fn get_column_header(col_index: usize) -> (s: String)
    requires
        col_index < usize::MAX,
    ensures
        s@ == column_label(col_index as nat),
{
    let v = label_chars(col_index + 1);
    chars_to_string(&v)
}

/// The ordinal a column label denotes in bijective base 26 (`A` is 1);
/// inverse of `label_of`.
pub open spec fn label_val(s: Seq<char>) -> int
    decreases s.len(),
{
    if s.len() == 0 {
        0
    } else {
        label_val(s.drop_last()) * 26 + (s.last() as u32 - 64)
    }
}

/// The 0-based column index a label denotes; inverse of `column_label`.
pub open spec fn column_index_of(s: Seq<char>) -> int {
    label_val(s) - 1
}

} // verus!
