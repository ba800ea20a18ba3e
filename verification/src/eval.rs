//! The formula evaluator: tokenizing, shunting-yard conversion to postfix,
//! and postfix evaluation against the current cell store.
//!
//! Values are exact 64-bit signed integers. A numeric literal is a run of
//! digits and `.` characters; the digits before the first `.` give its
//! value (so fractional parts truncate). A failed evaluation yields one of
//! the sentinel strings: `"invalid"` for an unknown token, an unresolved or
//! non-numeric reference, a missing operand or a value out of range;
//! `"#DIV/0!"` for a zero divisor; `"undefined"` when nothing remains to
//! return.

use vstd::prelude::*;
use vstd::math::abs;
use vstd::string::StrSliceExecFns;
use vstd::string::StringExecFns;
use crate::store::{EntryV, Trie, store_lookup, split_ref, get_cell_ref_split};
use crate::text::{
    is_digit_ch, is_op_ch, is_space, digit_val, dec_int, chars_to_string, str_to_chars,
    render_i64,
};

verus! {

/// A formula token, after classification against the store.
pub enum Tok {
    Num(i64),
    CellRef(String, String),
    Plus,
    Minus,
    Star,
    Slash,
    UMinus,
    LParen,
    RParen,
}

/// Model of a token: the literal's value, or a reference's split key.
pub enum TokS {
    Num(int),
    CellRef(Seq<char>, Seq<char>),
    Plus,
    Minus,
    Star,
    Slash,
    UMinus,
    LParen,
    RParen,
}

impl View for Tok {
    type V = TokS;

    open spec fn view(&self) -> TokS {
        match self {
            Tok::Num(n) => TokS::Num(*n as int),
            Tok::CellRef(c, r) => TokS::CellRef(c@, r@),
            Tok::Plus => TokS::Plus,
            Tok::Minus => TokS::Minus,
            Tok::Star => TokS::Star,
            Tok::Slash => TokS::Slash,
            Tok::UMinus => TokS::UMinus,
            Tok::LParen => TokS::LParen,
            Tok::RParen => TokS::RParen,
        }
    }
}

/// The models of a token sequence.
pub open spec fn vt(s: Seq<Tok>) -> Seq<TokS> {
    s.map_values(|t: Tok| t@)
}

proof fn lemma_vt_push(s: Seq<Tok>, t: Tok)
    ensures
        vt(s.push(t)) == vt(s).push(t@),
{
    assert(vt(s.push(t)) =~= vt(s).push(t@));
}

/// A value representable by the engine's 64-bit arithmetic.
pub open spec fn in_i64(v: int) -> bool {
    i64::MIN <= v <= i64::MAX
}

/// Every character is a digit or a decimal point.
pub open spec fn num_body_ok(s: Seq<char>) -> bool {
    forall|i: int| 0 <= i < s.len() ==> is_digit_ch(s[i]) || s[i] == '.'
}

/// The numeric-literal shape: digits and `.`, with an optional leading `-`.
/// (The empty sequence counts as numeric, as a scan of no characters.)
pub open spec fn is_number_tok(s: Seq<char>) -> bool {
    if s.len() > 1 && s[0] == '-' {
        num_body_ok(s.skip(1))
    } else {
        num_body_ok(s)
    }
}

/// Length of the leading run of digits.
pub open spec fn digit_run(s: Seq<char>) -> nat
    decreases s.len(),
{
    if s.len() == 0 || !is_digit_ch(s.first()) {
        0
    } else {
        1 + digit_run(s.drop_first())
    }
}

/// The digits before the first non-digit character.
pub open spec fn int_digits(s: Seq<char>) -> Seq<char> {
    s.take(digit_run(s) as int)
}

/// Value of a digit sequence read in decimal, most significant first.
pub open spec fn digits_val(d: Seq<char>) -> int
    decreases d.len(),
{
    if d.len() == 0 {
        0
    } else {
        digits_val(d.drop_last()) * 10 + digit_val(d.last())
    }
}

/// The integer a numeric literal denotes: an optional leading `-`, then
/// the digits before the first `.`; anything from the `.` on is ignored.
pub open spec fn parse_num(s: Seq<char>) -> int {
    if s.len() > 1 && s[0] == '-' {
        -digits_val(int_digits(s.skip(1)))
    } else {
        digits_val(int_digits(s))
    }
}

/// A position where `-` is unary: at the start of the expression or right
/// after an operator or an opening parenthesis.
pub open spec fn unary_pos(prev: Option<char>) -> bool {
    match prev {
        None => true,
        Some(p) => p == '+' || p == '-' || p == '*' || p == '/' || p == '(',
    }
}

/// The token an operator character becomes, given the preceding raw
/// character.
pub open spec fn op_token(c: char, prev: Option<char>) -> TokS {
    if c == '-' && unary_pos(prev) {
        TokS::UMinus
    } else if c == '+' {
        TokS::Plus
    } else if c == '-' {
        TokS::Minus
    } else if c == '*' {
        TokS::Star
    } else if c == '/' {
        TokS::Slash
    } else if c == '(' {
        TokS::LParen
    } else {
        TokS::RParen
    }
}

/// Classify and append a pending token: a numeric literal must fit the
/// engine's arithmetic, any other token must name a stored cell; otherwise
/// the whole tokenization fails.
pub open spec fn flush(cur: Seq<char>, acc: Seq<TokS>, st: Seq<EntryV>) -> Option<Seq<TokS>> {
    if cur.len() == 0 {
        Some(acc)
    } else if is_number_tok(cur) {
        if in_i64(parse_num(cur)) {
            Some(acc.push(TokS::Num(parse_num(cur))))
        } else {
            None
        }
    } else if store_lookup(st, split_ref(cur).0, split_ref(cur).1) is Some {
        Some(acc.push(TokS::CellRef(split_ref(cur).0, split_ref(cur).1)))
    } else {
        None
    }
}

/// Tokenization of the remaining characters, skipping whitespace,
/// accumulating non-operator characters and classifying them at each
/// operator or at the end. `prev` is the raw previous character, which
/// decides whether a `-` is unary.
pub open spec fn tokenize_rest(
    rest: Seq<char>,
    cur: Seq<char>,
    prev: Option<char>,
    acc: Seq<TokS>,
    st: Seq<EntryV>,
) -> Option<Seq<TokS>>
    decreases rest.len(),
{
    if rest.len() == 0 {
        flush(cur, acc, st)
    } else {
        let c = rest.first();
        if is_space(c) {
            tokenize_rest(rest.drop_first(), cur, Some(c), acc, st)
        } else if is_op_ch(c) {
            match flush(cur, acc, st) {
                None => None,
                Some(acc1) => tokenize_rest(
                    rest.drop_first(),
                    Seq::empty(),
                    Some(c),
                    acc1.push(op_token(c, prev)),
                    st,
                ),
            }
        } else {
            tokenize_rest(rest.drop_first(), cur.push(c), Some(c), acc, st)
        }
    }
}

/// The token sequence of a formula (everything after the `=`), or `None`
/// when some token is neither numeric nor a stored cell reference.
pub open spec fn tokenize_spec(f: Seq<char>, st: Seq<EntryV>) -> Option<Seq<TokS>> {
    tokenize_rest(f.skip(1), Seq::empty(), None, Seq::empty(), st)
}

/// Operator precedence: unary minus binds tightest, then `*` and `/`,
/// then `+` and `-`; a parenthesis never pops.
pub open spec fn prec(t: TokS) -> int {
    match t {
        TokS::UMinus => 3,
        TokS::Star => 2,
        TokS::Slash => 2,
        TokS::Plus => 1,
        TokS::Minus => 1,
        _ => 0,
    }
}

/// An operand token: a literal or a cell reference.
pub open spec fn is_operand(t: TokS) -> bool {
    match t {
        TokS::Num(_) => true,
        TokS::CellRef(_, _) => true,
        _ => false,
    }
}

/// Pop operators of precedence at least `p` onto the output.
pub open spec fn pop_ge(stack: Seq<TokS>, p: int, out: Seq<TokS>) -> (Seq<TokS>, Seq<TokS>)
    decreases stack.len(),
{
    if stack.len() == 0 {
        (stack, out)
    } else if prec(stack.last()) >= p {
        pop_ge(stack.drop_last(), p, out.push(stack.last()))
    } else {
        (stack, out)
    }
}

/// Pop operators onto the output until an opening parenthesis is popped
/// and discarded; an unmatched `)` silently empties the stack.
pub open spec fn pop_until_lparen(stack: Seq<TokS>, out: Seq<TokS>) -> (Seq<TokS>, Seq<TokS>)
    decreases stack.len(),
{
    if stack.len() == 0 {
        (stack, out)
    } else if stack.last() is LParen {
        (stack.drop_last(), out)
    } else {
        pop_until_lparen(stack.drop_last(), out.push(stack.last()))
    }
}

/// Shunting-yard conversion of the remaining tokens, given the operator
/// stack and the output queue so far. At the end the stack is flushed onto
/// the output (so an unmatched `(` reaches postfix evaluation, where it
/// fails as an operator would).
pub open spec fn shunt_rest(rest: Seq<TokS>, stack: Seq<TokS>, out: Seq<TokS>) -> Seq<TokS>
    decreases rest.len(),
{
    if rest.len() == 0 {
        out + stack.reverse()
    } else {
        let t = rest.first();
        let tail = rest.drop_first();
        if is_operand(t) {
            shunt_rest(tail, stack, out.push(t))
        } else if t is UMinus {
            shunt_rest(tail, stack.push(t), out)
        } else if t is LParen {
            shunt_rest(tail, stack.push(t), out)
        } else if t is RParen {
            let p = pop_until_lparen(stack, out);
            shunt_rest(tail, p.0, p.1)
        } else {
            let p = pop_ge(stack, prec(t), out);
            shunt_rest(tail, p.0.push(t), p.1)
        }
    }
}

/// The postfix form of a token sequence.
pub open spec fn to_postfix(toks: Seq<TokS>) -> Seq<TokS> {
    shunt_rest(toks, Seq::empty(), Seq::empty())
}

/// Truncating division (rounding toward zero), the engine's `/`.
pub open spec fn tdiv(a: int, b: int) -> int {
    if (a < 0) == (b < 0) {
        abs(a) as int / abs(b) as int
    } else {
        -(abs(a) as int / abs(b) as int)
    }
}

/// The value a binary operator token computes.
pub open spec fn bin_val(t: TokS, l: int, r: int) -> int {
    match t {
        TokS::Plus => l + r,
        TokS::Minus => l - r,
        TokS::Star => l * r,
        TokS::Slash => tdiv(l, r),
        _ => 0,
    }
}

/// Postfix evaluation of the remaining tokens over a numeric stack,
/// yielding the rendered result or a sentinel string. A unary minus on an
/// empty stack is skipped; a binary operator with fewer than two operands,
/// an out-of-range result, a non-numeric reference or a leftover
/// parenthesis yields `"invalid"`; a zero right operand of `/` yields
/// `"#DIV/0!"`; an empty final stack yields `"undefined"`.
pub open spec fn eval_rest(rest: Seq<TokS>, stack: Seq<int>, st: Seq<EntryV>) -> Seq<char>
    decreases rest.len(),
{
    if rest.len() == 0 {
        if stack.len() == 0 {
            "undefined"@
        } else {
            dec_int(stack.last())
        }
    } else {
        let tail = rest.drop_first();
        match rest.first() {
            TokS::Num(n) => eval_rest(tail, stack.push(n), st),
            TokS::UMinus => {
                if stack.len() == 0 {
                    eval_rest(tail, stack, st)
                } else if !in_i64(-stack.last()) {
                    "invalid"@
                } else {
                    eval_rest(tail, stack.drop_last().push(-stack.last()), st)
                }
            },
            TokS::CellRef(c, r) => {
                match store_lookup(st, c, r) {
                    Some(cell) => {
                        if is_number_tok(cell.value) && in_i64(parse_num(cell.value)) {
                            eval_rest(tail, stack.push(parse_num(cell.value)), st)
                        } else {
                            "invalid"@
                        }
                    },
                    None => "invalid"@,
                }
            },
            TokS::LParen => "invalid"@,
            TokS::RParen => "invalid"@,
            t => {
                if stack.len() < 2 {
                    "invalid"@
                } else {
                    let r = stack.last();
                    let l = stack.drop_last().last();
                    if (t is Slash) && r == 0 {
                        "#DIV/0!"@
                    } else if !in_i64(bin_val(t, l, r)) {
                        "invalid"@
                    } else {
                        eval_rest(tail, stack.drop_last().drop_last().push(bin_val(t, l, r)), st)
                    }
                }
            },
        }
    }
}

/// What evaluating a formula against a store yields: text not starting
/// with `=` is returned unchanged; otherwise the formula is tokenized,
/// converted to postfix and evaluated, every failure becoming a sentinel
/// string.
pub open spec fn eval_formula_spec(f: Seq<char>, st: Seq<EntryV>) -> Seq<char> {
    if f.len() == 0 || f[0] != '=' {
        f
    } else {
        match tokenize_spec(f, st) {
            None => "invalid"@,
            Some(toks) => eval_rest(to_postfix(toks), Seq::empty(), st),
        }
    }
}

proof fn lemma_digits_val_nonneg(d: Seq<char>)
    requires
        forall|i: int| 0 <= i < d.len() ==> is_digit_ch(d[i]),
    ensures
        digits_val(d) >= 0,
    decreases d.len(),
{
    if d.len() > 0 {
        lemma_digits_val_nonneg(d.drop_last());
    }
}

proof fn lemma_digits_val_extend(d: Seq<char>, r: Seq<char>)
    requires
        forall|i: int| 0 <= i < d.len() ==> is_digit_ch(d[i]),
        forall|i: int| 0 <= i < r.len() ==> is_digit_ch(r[i]),
    ensures
        digits_val(d + r) >= digits_val(d) >= 0,
    decreases r.len(),
{
    lemma_digits_val_nonneg(d);
    if r.len() == 0 {
        assert(d + r =~= d);
    } else {
        lemma_digits_val_extend(d, r.drop_last());
        assert((d + r).drop_last() =~= d + r.drop_last());
        assert(forall|i: int| 0 <= i < (d + r).len() ==> is_digit_ch((d + r)[i]));
        lemma_digits_val_nonneg(d + r.drop_last());
    }
}

pub proof fn lemma_digit_run_at(s: Seq<char>, k: int)
    requires
        0 <= k <= s.len(),
        forall|j: int| 0 <= j < k ==> is_digit_ch(s[j]),
        k < s.len() ==> !is_digit_ch(s[k]),
    ensures
        digit_run(s) == k,
    decreases s.len(),
{
    if s.len() == 0 || k == 0 {
    } else {
        let t = s.drop_first();
        assert(forall|j: int| 0 <= j < k - 1 ==> is_digit_ch(#[trigger] t[j]));
        lemma_digit_run_at(t, k - 1);
    }
}

/// Whether a pending token has the numeric-literal shape.
fn is_number_exec(cur: &Vec<char>) -> (b: bool)
    ensures
        b == is_number_tok(cur@),
{
    let n = cur.len();
    let neg = n > 1 && cur[0] == '-';
    let from: usize = if neg { 1 } else { 0 };
    let mut j: usize = from;
    while j < n
        invariant
            from <= j <= n,
            n == cur@.len(),
            neg ==> from == 1 && n > 1 && cur@[0] == '-',
            !neg ==> from == 0 && !(n > 1 && cur@[0] == '-'),
            forall|i: int| from <= i < j ==> is_digit_ch(cur@[i]) || cur@[i] == '.',
        decreases n - j,
    {
        let c = cur[j];
        if !(('0' <= c && c <= '9') || c == '.') {
            proof {
                if neg {
                    assert(cur@.skip(1)[j - 1] == cur@[j as int]);
                }
            }
            return false;
        }
        j = j + 1;
    }
    proof {
        if neg {
            assert(forall|i: int|
                0 <= i < cur@.skip(1).len() ==> is_digit_ch(#[trigger] cur@.skip(1)[i])
                    || cur@.skip(1)[i] == '.');
        }
    }
    true
}

/// Parse a numeric literal: sign, then the digits before the first `.`.
/// `None` when the value does not fit the engine's 64-bit arithmetic.
fn parse_value(cur: &Vec<char>) -> (r: Option<i64>)
    requires
        is_number_tok(cur@),
    ensures
        match r {
            Some(v) => v as int == parse_num(cur@),
            None => !in_i64(parse_num(cur@)),
        },
{
    let n = cur.len();
    let neg = n > 1 && cur[0] == '-';
    let from: usize = if neg { 1 } else { 0 };
    let ghost body = if neg {
        cur@.skip(1)
    } else {
        cur@
    };
    // find the digit run of the body
    let mut to: usize = from;
    while to < n && digit_at(cur, to)
        invariant
            from <= to <= n,
            n == cur@.len(),
            forall|j: int| from <= j < to ==> is_digit_ch(cur@[j]),
        decreases n - to,
    {
        to = to + 1;
    }
    proof {
        assert(forall|j: int|
            0 <= j < to - from ==> is_digit_ch(#[trigger] body[j]) && body[j] == cur@[j + from]);
        if (to as int) - (from as int) < body.len() {
            assert(body[to - from] == cur@[to as int]);
        }
        lemma_digit_run_at(body, to - from);
        assert(int_digits(body) =~= cur@.subrange(from as int, to as int));
    }
    let ghost digits = cur@.subrange(from as int, to as int);
    let mut acc: u128 = 0;
    let mut j: usize = from;
    while j < to
        invariant
            from <= j <= to <= n,
            n == cur@.len(),
            forall|i: int| from <= i < to ==> is_digit_ch(cur@[i]),
            digits == cur@.subrange(from as int, to as int),
            int_digits(body) == digits,
            neg ==> body == cur@.skip(1) && from == 1 && cur@.len() > 1 && cur@[0] == '-',
            !neg ==> body == cur@ && from == 0 && !(cur@.len() > 1 && cur@[0] == '-'),
            acc == digits_val(cur@.subrange(from as int, j as int)),
            acc <= 0x8000_0000_0000_0000u128,
        decreases to - j,
    {
        let c = cur[j];
        let d: u128 = (c as u32 - 48) as u128;
        acc = acc * 10 + d;
        j = j + 1;
        proof {
            let p = cur@.subrange(from as int, j as int);
            assert(p.drop_last() =~= cur@.subrange(from as int, j - 1));
            assert(p.last() == cur@[j - 1]);
        }
        if acc > 0x8000_0000_0000_0000u128 {
            proof {
                let done = cur@.subrange(from as int, j as int);
                let rest = cur@.subrange(j as int, to as int);
                assert(done + rest =~= digits);
                lemma_digits_val_extend(done, rest);
                assert(digits_val(done) == acc as int);
                assert(digits_val(digits) >= acc as int);
                assert(int_digits(body) == digits);
                if neg {
                    assert(parse_num(cur@) == -digits_val(digits));
                } else {
                    assert(parse_num(cur@) == digits_val(digits));
                }
                assert(!in_i64(parse_num(cur@)));
            }
            return None;
        }
    }
    proof {
        assert(cur@.subrange(from as int, to as int) =~= digits);
    }
    if neg {
        // magnitude up to 2^63 is representable as a negative value
        let v: i64 = (-(acc as i128)) as i64;
        Some(v)
    } else {
        if acc <= 0x7fff_ffff_ffff_ffffu128 {
            Some(acc as i64)
        } else {
            None
        }
    }
}

fn digit_at(cur: &Vec<char>, j: usize) -> (b: bool)
    requires
        j < cur@.len(),
    ensures
        b == is_digit_ch(cur@[j as int]),
{
    let c = cur[j];
    '0' <= c && c <= '9'
}

/// Classify the pending token and append it: a fitting numeric literal or
/// a reference to a stored cell; anything else fails the tokenization.
fn classify_flush(cur: &Vec<char>, acc: Vec<Tok>, trie: &Trie) -> (r: Option<Vec<Tok>>)
    ensures
        match r {
            Some(v) => flush(cur@, vt(acc@), trie@) == Some(vt(v@)),
            None => flush(cur@, vt(acc@), trie@) is None,
        },
{
    if cur.len() == 0 {
        return Some(acc);
    }
    if is_number_exec(cur) {
        match parse_value(cur) {
            Some(v) => {
                let mut a = acc;
                proof {
                    lemma_vt_push(a@, Tok::Num(v));
                }
                a.push(Tok::Num(v));
                Some(a)
            },
            None => None,
        }
    } else {
        let s = chars_to_string(cur);
        let (col, row) = get_cell_ref_split(s.as_str());
        match trie.get_internal(col.as_str(), row.as_str()) {
            Some(_) => {
                let mut a = acc;
                proof {
                    lemma_vt_push(a@, Tok::CellRef(col, row));
                }
                a.push(Tok::CellRef(col, row));
                Some(a)
            },
            None => None,
        }
    }
}

/// Tokenize the formula characters (after the leading `=`) against the
/// store.
fn tokenize_exec(cs: &Vec<char>, trie: &Trie) -> (r: Option<Vec<Tok>>)
    requires
        cs@.len() >= 1,
    ensures
        match r {
            Some(v) => tokenize_spec(cs@, trie@) == Some(vt(v@)),
            None => tokenize_spec(cs@, trie@) is None,
        },
{
    let n = cs.len();
    let mut i: usize = 1;
    let mut cur: Vec<char> = Vec::new();
    let mut prev: Option<char> = None;
    let mut acc: Vec<Tok> = Vec::new();
    proof {
        assert(cur@ =~= Seq::<char>::empty());
        assert(vt(acc@) =~= Seq::<TokS>::empty());
    }
    while i < n
        invariant
            1 <= i <= n,
            n == cs@.len(),
            tokenize_spec(cs@, trie@) == tokenize_rest(cs@.skip(i as int), cur@, prev, vt(acc@), trie@),
        decreases n - i,
    {
        let ghost rest0 = cs@.skip(i as int);
        let c = cs[i];
        proof {
            assert(rest0.first() == c);
            assert(rest0.drop_first() =~= cs@.skip(i + 1));
        }
        if crate::text::space_char(c) {
            prev = Some(c);
            i = i + 1;
        } else if crate::text::op_char(c) {
            let ghost acc0 = vt(acc@);
            let flushed = classify_flush(&cur, acc, trie);
            match flushed {
                None => {
                    proof {
                        assert(tokenize_rest(rest0, cur@, prev, acc0, trie@) is None);
                    }
                    return None;
                },
                Some(a) => {
                    acc = a;
                    let unary = c == '-' && (match prev {
                        None => true,
                        Some(p) => p == '+' || p == '-' || p == '*' || p == '/' || p == '(',
                    });
                    let t: Tok = if unary {
                        Tok::UMinus
                    } else if c == '+' {
                        Tok::Plus
                    } else if c == '-' {
                        Tok::Minus
                    } else if c == '*' {
                        Tok::Star
                    } else if c == '/' {
                        Tok::Slash
                    } else if c == '(' {
                        Tok::LParen
                    } else {
                        Tok::RParen
                    };
                    proof {
                        assert(t@ == op_token(c, prev));
                        lemma_vt_push(acc@, t);
                    }
                    acc.push(t);
                    cur = Vec::new();
                    proof {
                        assert(cur@ =~= Seq::<char>::empty());
                    }
                    prev = Some(c);
                    i = i + 1;
                },
            }
        } else {
            cur.push(c);
            prev = Some(c);
            i = i + 1;
        }
    }
    proof {
        assert(cs@.skip(n as int) =~= Seq::<char>::empty());
    }
    classify_flush(&cur, acc, trie)
}

fn prec_exec(t: &Tok) -> (p: i32)
    ensures
        p as int == prec(t@),
{
    match t {
        Tok::UMinus => 3,
        Tok::Star => 2,
        Tok::Slash => 2,
        Tok::Plus => 1,
        Tok::Minus => 1,
        _ => 0,
    }
}

/// Convert a token sequence to postfix by the shunting-yard algorithm.
fn shunt_exec(toks: Vec<Tok>) -> (r: Vec<Tok>)
    ensures
        vt(r@) == to_postfix(vt(toks@)),
{
    let n = toks.len();
    let mut j: usize = 0;
    let mut stack: Vec<Tok> = Vec::new();
    let mut out: Vec<Tok> = Vec::new();
    proof {
        assert(vt(stack@) =~= Seq::<TokS>::empty());
        assert(vt(out@) =~= Seq::<TokS>::empty());
        assert(vt(toks@).skip(0) =~= vt(toks@));
    }
    while j < n
        invariant
            0 <= j <= n,
            n == toks@.len(),
            to_postfix(vt(toks@)) == shunt_rest(vt(toks@).skip(j as int), vt(stack@), vt(out@)),
        decreases n - j,
    {
        let ghost rest0 = vt(toks@).skip(j as int);
        proof {
            assert(rest0.first() == toks@[j as int]@);
            assert(rest0.drop_first() =~= vt(toks@).skip(j + 1));
        }
        let is_opnd = match &toks[j] {
            Tok::Num(_) => true,
            Tok::CellRef(_, _) => true,
            _ => false,
        };
        if is_opnd {
            let t = clone_tok(&toks[j]);
            proof {
                lemma_vt_push(out@, t);
            }
            out.push(t);
        } else {
            match &toks[j] {
                Tok::UMinus => {
                    proof {
                        lemma_vt_push(stack@, Tok::UMinus);
                    }
                    stack.push(Tok::UMinus);
                },
                Tok::LParen => {
                    proof {
                        lemma_vt_push(stack@, Tok::LParen);
                    }
                    stack.push(Tok::LParen);
                },
                Tok::RParen => {
                    // pop until an opening parenthesis is discarded
                    let ghost s0 = vt(stack@);
                    let ghost o0 = vt(out@);
                    loop
                        invariant_except_break
                            pop_until_lparen(s0, o0) == pop_until_lparen(vt(stack@), vt(out@)),
                        ensures
                            vt(stack@) == pop_until_lparen(s0, o0).0,
                            vt(out@) == pop_until_lparen(s0, o0).1,
                        decreases stack@.len(),
                    {
                        if stack.len() == 0 {
                            proof {
                                assert(pop_until_lparen(vt(stack@), vt(out@)) == (vt(stack@), vt(out@)));
                            }
                            break;
                        }
                        let ghost sp = vt(stack@);
                        proof {
                            assert(sp.last() == stack@.last()@);
                            assert(sp.drop_last() =~= vt(stack@.drop_last()));
                        }
                        let top = stack.pop().unwrap();
                        match top {
                            Tok::LParen => {
                                proof {
                                    assert(pop_until_lparen(sp, vt(out@)) == (sp.drop_last(), vt(out@)));
                                }
                                break;
                            },
                            _ => {
                                proof {
                                    lemma_vt_push(out@, top);
                                }
                                out.push(top);
                            },
                        }
                    }
                },
                _ => {
                    let p = prec_exec(&toks[j]);
                    let ghost s0 = vt(stack@);
                    let ghost o0 = vt(out@);
                    let ghost pp = prec(toks@[j as int]@);
                    loop
                        invariant
                            p as int == pp,
                            pop_ge(s0, pp, o0) == pop_ge(vt(stack@), pp, vt(out@)),
                        ensures
                            vt(stack@) == pop_ge(s0, pp, o0).0,
                            vt(out@) == pop_ge(s0, pp, o0).1,
                        decreases stack@.len(),
                    {
                        if stack.len() == 0 {
                            break;
                        }
                        let top_p = prec_exec(&stack[stack.len() - 1]);
                        if top_p >= p {
                            let ghost sp = vt(stack@);
                            proof {
                                assert(sp.last() == stack@.last()@);
                                assert(sp.drop_last() =~= vt(stack@.drop_last()));
                            }
                            let top = stack.pop().unwrap();
                            proof {
                                lemma_vt_push(out@, top);
                            }
                            out.push(top);
                        } else {
                            break;
                        }
                    }
                    let t = clone_tok(&toks[j]);
                    proof {
                        lemma_vt_push(stack@, t);
                    }
                    stack.push(t);
                },
            }
        }
        j = j + 1;
    }
    proof {
        assert(vt(toks@).skip(n as int) =~= Seq::<TokS>::empty());
    }
    // flush the remaining operators, top of stack first
    while stack.len() > 0
        invariant
            to_postfix(vt(toks@)) == vt(out@) + vt(stack@).reverse(),
        decreases stack@.len(),
    {
        let ghost sp = vt(stack@);
        proof {
            assert(sp.last() == stack@.last()@);
            assert(sp.drop_last() =~= vt(stack@.drop_last()));
        }
        let top = stack.pop().unwrap();
        proof {
            lemma_vt_push(out@, top);
            assert(vt(out@).push(top@) + sp.drop_last().reverse() =~= vt(out@) + sp.reverse());
        }
        out.push(top);
    }
    proof {
        assert(vt(out@) + vt(stack@).reverse() =~= vt(out@));
    }
    out
}

fn clone_tok(t: &Tok) -> (r: Tok)
    ensures
        r@ == t@,
{
    match t {
        Tok::Num(n) => Tok::Num(*n),
        Tok::CellRef(c, r2) => Tok::CellRef(c.clone(), r2.clone()),
        Tok::Plus => Tok::Plus,
        Tok::Minus => Tok::Minus,
        Tok::Star => Tok::Star,
        Tok::Slash => Tok::Slash,
        Tok::UMinus => Tok::UMinus,
        Tok::LParen => Tok::LParen,
        Tok::RParen => Tok::RParen,
    }
}

/// The models of the numeric stack.
pub open spec fn sview(s: Seq<i64>) -> Seq<int> {
    s.map_values(|x: i64| x as int)
}

proof fn lemma_sview_push(s: Seq<i64>, x: i64)
    ensures
        sview(s.push(x)) == sview(s).push(x as int),
{
    assert(sview(s.push(x)) =~= sview(s).push(x as int));
}

fn magnitude(a: i64) -> (m: u64)
    ensures
        m as int == abs(a as int),
{
    if a >= 0 {
        a as u64
    } else {
        let wide: i128 = a as i128;
        (-wide) as u64
    }
}

/// Truncating 64-bit division; the caller rules out a zero divisor and
/// the one overflowing quotient.
fn div_exec(a: i64, b: i64) -> (q: i64)
    requires
        b != 0,
        !(a == i64::MIN && b == -1),
    ensures
        q as int == tdiv(a as int, b as int),
{
    let ma = magnitude(a);
    let mb = magnitude(b);
    let mq: u64 = ma / mb;
    proof {
        vstd::arithmetic::div_mod::lemma_fundamental_div_mod(ma as int, mb as int);
        assert(mq as int * mb as int <= ma as int) by (nonlinear_arith)
            requires
                mq as int == ma as int / mb as int,
                mb as int >= 1,
                ma as int >= 0,
        {
        }
        assert(mq as int <= ma as int) by (nonlinear_arith)
            requires
                mq as int * mb as int <= ma as int,
                mb as int >= 1,
                mq as int >= 0,
        {
        }
        if a == i64::MIN && b < 0 {
            // the divisor's magnitude is at least two, so the quotient fits
            assert(mb >= 2);
            assert(mq as int * 2 <= ma as int) by (nonlinear_arith)
                requires
                    mq as int * mb as int <= ma as int,
                    mb as int >= 2,
                    mq as int >= 0,
            {
            }
        }
    }
    let neg = (a < 0) != (b < 0);
    if neg {
        let wide: i128 = mq as i128;
        (-wide) as i64
    } else {
        mq as i64
    }
}

/// Evaluate a postfix token sequence against the store, yielding the
/// rendered result or a sentinel string.
fn eval_post_exec(post: &Vec<Tok>, trie: &Trie) -> (r: String)
    ensures
        r@ == eval_rest(vt(post@), Seq::empty(), trie@),
{
    let n = post.len();
    let mut k: usize = 0;
    let mut stack: Vec<i64> = Vec::new();
    proof {
        assert(sview(stack@) =~= Seq::<int>::empty());
        assert(vt(post@).skip(0) =~= vt(post@));
    }
    while k < n
        invariant
            0 <= k <= n,
            n == post@.len(),
            eval_rest(vt(post@), Seq::empty(), trie@) == eval_rest(
                vt(post@).skip(k as int),
                sview(stack@),
                trie@,
            ),
        decreases n - k,
    {
        let ghost rest0 = vt(post@).skip(k as int);
        proof {
            assert(rest0.first() == post@[k as int]@);
            assert(rest0.drop_first() =~= vt(post@).skip(k + 1));
        }
        match &post[k] {
            Tok::Num(v) => {
                proof {
                    lemma_sview_push(stack@, *v);
                }
                stack.push(*v);
            },
            Tok::UMinus => {
                let ghost sp = sview(stack@);
                if stack.len() > 0 {
                    proof {
                        assert(sp.last() == stack@.last() as int);
                        assert(sp.drop_last() =~= sview(stack@.drop_last()));
                    }
                    let v = stack.pop().unwrap();
                    if v == i64::MIN {
                        return String::from_str("invalid");
                    }
                    let nv: i64 = -v;
                    proof {
                        lemma_sview_push(stack@, nv);
                    }
                    stack.push(nv);
                }
            },
            Tok::CellRef(c, rw) => {
                match trie.get_internal(c.as_str(), rw.as_str()) {
                    Some(cell) => {
                        let vchars = str_to_chars(cell.value().as_str());
                        if is_number_exec(&vchars) {
                            match parse_value(&vchars) {
                                Some(v) => {
                                    proof {
                                        lemma_sview_push(stack@, v);
                                    }
                                    stack.push(v);
                                },
                                None => {
                                    return String::from_str("invalid");
                                },
                            }
                        } else {
                            return String::from_str("invalid");
                        }
                    },
                    None => {
                        return String::from_str("invalid");
                    },
                }
            },
            Tok::LParen => {
                return String::from_str("invalid");
            },
            Tok::RParen => {
                return String::from_str("invalid");
            },
            t => {
                if stack.len() < 2 {
                    return String::from_str("invalid");
                }
                let ghost sp = sview(stack@);
                proof {
                    assert(sp.last() == stack@.last() as int);
                    assert(sp.drop_last() =~= sview(stack@.drop_last()));
                    assert(sp.drop_last().last() == stack@.drop_last().last() as int);
                    assert(sp.drop_last().drop_last() =~= sview(stack@.drop_last().drop_last()));
                }
                let right = stack.pop().unwrap();
                let left = stack.pop().unwrap();
                let is_slash = match t {
                    Tok::Slash => true,
                    _ => false,
                };
                if is_slash && right == 0 {
                    return String::from_str("#DIV/0!");
                }
                let wide_l: i128 = left as i128;
                let wide_r: i128 = right as i128;
                let wide: i128 = match t {
                    Tok::Plus => wide_l + wide_r,
                    Tok::Minus => wide_l - wide_r,
                    Tok::Star => {
                        proof {
                            assert(wide_l * wide_r <= 0x4000_0000_0000_0000_0000_0000_0000_0000i128
                                && wide_l * wide_r
                                >= -0x4000_0000_0000_0000_0000_0000_0000_0000i128)
                                by (nonlinear_arith)
                                requires
                                    -0x8000_0000_0000_0000i128 <= wide_l
                                        <= 0x7fff_ffff_ffff_ffffi128,
                                    -0x8000_0000_0000_0000i128 <= wide_r
                                        <= 0x7fff_ffff_ffff_ffffi128,
                            {
                            }
                        }
                        wide_l * wide_r
                    },
                    _ => {
                        // division: the only overflowing case is MIN / -1
                        if left == i64::MIN && right == -1 {
                            proof {
                                vstd::arithmetic::div_mod::lemma_div_basics(abs(left as int) as int);
                                assert(tdiv(left as int, right as int) == abs(left as int));
                            }
                            return String::from_str("invalid");
                        }
                        div_exec(left, right) as i128
                    },
                };
                proof {
                    assert(wide == bin_val(t@, left as int, right as int));
                }
                if wide < i64::MIN as i128 || wide > i64::MAX as i128 {
                    return String::from_str("invalid");
                }
                let v: i64 = wide as i64;
                proof {
                    lemma_sview_push(stack@, v);
                }
                stack.push(v);
            },
        }
        k = k + 1;
    }
    proof {
        assert(vt(post@).skip(n as int) =~= Seq::<TokS>::empty());
    }
    if stack.len() == 0 {
        String::from_str("undefined")
    } else {
        let v = stack[stack.len() - 1];
        let chars = render_i64(v);
        chars_to_string(&chars)
    }
}

/// Evaluate a formula string against the store: text not starting with
/// `=` is returned unchanged; otherwise the expression's value, or a
/// sentinel string on failure.
pub fn evaluate_formula(trie: &Trie, formula: &str) -> (r: String)
    ensures
        r@ == eval_formula_spec(formula@, trie@),
{
    let cs = str_to_chars(formula);
    let n = cs.len();
    if n == 0 {
        return formula.to_owned();
    }
    if cs[0] != '=' {
        return formula.to_owned();
    }
    match tokenize_exec(&cs, trie) {
        None => String::from_str("invalid"),
        Some(toks) => {
            let post = shunt_exec(toks);
            eval_post_exec(&post, trie)
        },
    }
}

} // verus!
