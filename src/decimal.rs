//! Exact decimal numbers and the numeric literal grammar.

use vstd::arithmetic::power::{lemma_pow_adds, lemma_pow_positive, pow};
use vstd::prelude::*;

use crate::expr::{Expr, Form, ParseError, ParseErrorKind, ParseOutcome, Step};
use crate::lexical::{is_digit, is_digit_char};

verus! {

/// Model of a decimal: `(-1)^negative * digits * 10^exponent`, where
/// `digits` are read most significant first.
pub struct DecimalModel {
    pub negative: bool,
    pub digits: Seq<u8>,
    pub exponent: int,
}

/// An exact decimal number. Values built by the reader are canonical (see
/// `DecimalModel::canonical`), so two of them are equal exactly when they
/// denote the same number.
#[derive(Debug, Clone, PartialEq, Eq)]
pub struct Decimal {
    pub negative: bool,
    pub digits: Vec<u8>,
    pub exponent: i128,
}

impl View for Decimal {
    type V = DecimalModel;

    open spec fn view(&self) -> DecimalModel {
        DecimalModel { negative: self.negative, digits: self.digits@, exponent: self.exponent as int }
    }
}

impl DecimalModel {
    /// No leading or trailing zero digit, and zero is written with no digits,
    /// no sign and exponent zero.
    pub open spec fn canonical(self) -> bool {
        &&& forall|i: int| 0 <= i < self.digits.len() ==> self.digits[i] <= 9
        &&& self.digits.len() == 0 ==> !self.negative && self.exponent == 0
        &&& self.digits.len() > 0 ==> self.digits[0] != 0 && self.digits.last() != 0
    }
}

/// The number that decimal digits denote, most significant first.
pub open spec fn digits_value(ds: Seq<u8>) -> nat
    decreases ds.len(),
{
    if ds.len() == 0 {
        0
    } else {
        digits_value(ds.drop_last()) * 10 + ds.last() as nat
    }
}

pub open spec fn digit_value(c: char) -> u8 {
    (c as u32 - '0' as u32) as u8
}

/// The digit values of a run of digit characters.
pub open spec fn digit_seq(t: Seq<char>) -> Seq<u8> {
    Seq::new(t.len(), |i: int| digit_value(t[i]))
}

/// The end of the run of digit characters that starts at `p`.
pub open spec fn digits_end(s: Seq<char>, p: int) -> int
    decreases s.len() - p,
{
    if 0 <= p < s.len() && is_digit(s[p]) {
        digits_end(s, p + 1)
    } else {
        p
    }
}

pub open spec fn char_is(s: Seq<char>, p: int, c: char) -> bool {
    0 <= p < s.len() && s[p] == c
}

/// What the numeric literal grammar recognizes at a position.
pub enum NumberLex {
    /// No literal starts here.
    Absent,
    /// An exponent marker stands here without digits after it.
    MissingExponent(int),
    /// A literal: its sign, the digits of its integer and fractional parts
    /// together, how many of them are fractional, its exponent, and the
    /// position after it.
    Literal {
        negative: bool,
        mantissa: Seq<char>,
        frac_len: nat,
        exp_negative: bool,
        exp_digits: Seq<char>,
        end: int,
    },
}

/// The optional exponent part of a literal at `q`.
pub open spec fn exponent_lex(
    s: Seq<char>,
    negative: bool,
    mantissa: Seq<char>,
    frac_len: nat,
    q: int,
) -> NumberLex {
    if char_is(s, q, 'e') || char_is(s, q, 'E') {
        let r = if char_is(s, q + 1, '+') || char_is(s, q + 1, '-') { q + 2 } else { q + 1 };
        if 0 <= r < s.len() && is_digit(s[r]) {
            let t = digits_end(s, r);
            NumberLex::Literal {
                negative,
                mantissa,
                frac_len,
                exp_negative: char_is(s, q + 1, '-'),
                exp_digits: s.subrange(r, t),
                end: t,
            }
        } else {
            NumberLex::MissingExponent(r)
        }
    } else {
        NumberLex::Literal {
            negative,
            mantissa,
            frac_len,
            exp_negative: false,
            exp_digits: Seq::empty(),
            end: q,
        }
    }
}

/// The decimal floating-point literal grammar: an optional sign, then digits
/// with an optional `.` and optional digits after it, or `.` and digits; then
/// optionally `e` or `E`, an optional sign and digits.
pub open spec fn number_lex(s: Seq<char>, p: int) -> NumberLex {
    let negative = char_is(s, p, '-');
    let q0 = if char_is(s, p, '+') || negative { p + 1 } else { p };
    if 0 <= q0 < s.len() && is_digit(s[q0]) {
        let q1 = digits_end(s, q0);
        if char_is(s, q1, '.') {
            let q2 = digits_end(s, q1 + 1);
            exponent_lex(
                s,
                negative,
                s.subrange(q0, q1) + s.subrange(q1 + 1, q2),
                (q2 - q1 - 1) as nat,
                q2,
            )
        } else {
            exponent_lex(s, negative, s.subrange(q0, q1), 0, q1)
        }
    } else if char_is(s, q0, '.') && q0 + 1 < s.len() && is_digit(s[q0 + 1]) {
        let q2 = digits_end(s, q0 + 1);
        exponent_lex(s, negative, s.subrange(q0 + 1, q2), (q2 - q0 - 1) as nat, q2)
    } else {
        NumberLex::Absent
    }
}

pub open spec fn digits_text_value(t: Seq<char>) -> nat {
    digits_value(digit_seq(t))
}

/// An exponent is accepted when it lies within the range of `i64`.
pub open spec fn exponent_fits(exp_negative: bool, exp_digits: Seq<char>) -> bool {
    if exp_negative {
        digits_text_value(exp_digits) <= 0x8000_0000_0000_0000
    } else {
        digits_text_value(exp_digits) <= 0x7fff_ffff_ffff_ffff
    }
}

/// The exponent of the last mantissa digit of a literal.
pub open spec fn literal_exponent(exp_negative: bool, exp_digits: Seq<char>, frac_len: nat) -> int {
    let e = digits_text_value(exp_digits) as int;
    (if exp_negative { -e } else { e }) - frac_len
}

pub open spec fn strip_leading(ds: Seq<u8>) -> Seq<u8>
    decreases ds.len(),
{
    if ds.len() > 0 && ds[0] == 0 {
        strip_leading(ds.drop_first())
    } else {
        ds
    }
}

pub open spec fn trailing_zeros(ds: Seq<u8>) -> nat
    decreases ds.len(),
{
    if ds.len() > 0 && ds.last() == 0 {
        1 + trailing_zeros(ds.drop_last())
    } else {
        0
    }
}

/// The canonical decimal for a sign, digits and the exponent of the last digit.
pub open spec fn canonical_of(negative: bool, ds: Seq<u8>, e: int) -> DecimalModel {
    let lead = strip_leading(ds);
    if lead.len() == 0 {
        DecimalModel { negative: false, digits: Seq::empty(), exponent: 0 }
    } else {
        let n = trailing_zeros(lead);
        DecimalModel {
            negative,
            digits: lead.subrange(0, lead.len() - n),
            exponent: e + n,
        }
    }
}

/// The outcome of the number recognizer at `p`, given what the grammar
/// recognizes there.
pub open spec fn lex_step(lex: NumberLex, p: int) -> Step {
    match lex {
        NumberLex::Absent => Step::Unmatched(p),
        NumberLex::MissingExponent(r) => Step::Failed(r, ParseErrorKind::ExponentDigits),
        NumberLex::Literal { negative, mantissa, frac_len, exp_negative, exp_digits, end } => {
            if exponent_fits(exp_negative, exp_digits) {
                Step::Matched(
                    Form::Number(
                        canonical_of(
                            negative,
                            digit_seq(mantissa),
                            literal_exponent(exp_negative, exp_digits, frac_len),
                        ),
                    ),
                    end,
                )
            } else {
                Step::Unmatched(p)
            }
        },
    }
}

/// The outcome of the number recognizer at `p`.
pub open spec fn number_step(s: Seq<char>, p: int) -> Step {
    lex_step(number_lex(s, p), p)
}

pub proof fn lemma_digits_end(s: Seq<char>, p: int)
    requires
        0 <= p <= s.len(),
    ensures
        p <= digits_end(s, p) <= s.len(),
        forall|k: int| p <= k < digits_end(s, p) ==> is_digit(#[trigger] s[k]),
        digits_end(s, p) < s.len() ==> !is_digit(s[digits_end(s, p)]),
    decreases s.len() - p,
{
    if p < s.len() && is_digit(s[p]) {
        lemma_digits_end(s, p + 1);
    }
}

/// A number's digits denote at least as much as any of their prefixes.
pub proof fn lemma_digits_value_prefix(ds: Seq<u8>, k: int)
    requires
        0 <= k <= ds.len(),
    ensures
        digits_value(ds.subrange(0, k)) <= digits_value(ds),
    decreases ds.len(),
{
    if k < ds.len() {
        lemma_digits_value_prefix(ds.drop_last(), k);
        assert(ds.drop_last().subrange(0, k) =~= ds.subrange(0, k));
    } else {
        assert(ds.subrange(0, k) =~= ds);
    }
}

/// The end of the run of digits that starts at `p`.
fn scan_digits(s: &Vec<char>, p: usize) -> (r: usize)
    requires
        p <= s@.len(),
    ensures
        r as int == digits_end(s@, p as int),
{
    let mut i = p;
    while i < s.len() && is_digit_char(s[i])
        invariant
            p <= i <= s@.len(),
            digits_end(s@, i as int) == digits_end(s@, p as int),
        decreases s@.len() - i,
    {
        i = i + 1;
    }
    i
}

/// Appends the values of the digit characters `s[from..to]`.
fn push_digits(raw: &mut Vec<u8>, s: &Vec<char>, from: usize, to: usize)
    requires
        from <= to <= s@.len(),
        forall|k: int| from <= k < to ==> is_digit(#[trigger] s@[k]),
    ensures
        final(raw)@ == old(raw)@ + digit_seq(s@.subrange(from as int, to as int)),
{
    let mut i = from;
    while i < to
        invariant
            from <= i <= to <= s@.len(),
            forall|k: int| from <= k < to ==> is_digit(#[trigger] s@[k]),
            raw@ == old(raw)@ + digit_seq(s@.subrange(from as int, i as int)),
        decreases to - i,
    {
        let c = s[i];
        assert(is_digit(s@[i as int]));
        raw.push((c as u32 - '0' as u32) as u8);
        i = i + 1;
        assert(raw@ =~= old(raw)@ + digit_seq(s@.subrange(from as int, i as int)));
    }
}

/// The value of the digits `s[from..to]`, or `None` when it exceeds `limit`.
fn digits_up_to(s: &Vec<char>, from: usize, to: usize, limit: u64) -> (r: Option<u64>)
    requires
        from <= to <= s@.len(),
        forall|k: int| from <= k < to ==> is_digit(#[trigger] s@[k]),
    ensures
        ({
            let v = digits_text_value(s@.subrange(from as int, to as int));
            match r {
                Some(x) => v <= limit && x == v,
                None => v > limit,
            }
        }),
{
    let ghost whole = digit_seq(s@.subrange(from as int, to as int));
    let mut acc: u64 = 0;
    let mut i = from;
    while i < to
        invariant
            from <= i <= to <= s@.len(),
            forall|k: int| from <= k < to ==> is_digit(#[trigger] s@[k]),
            whole == digit_seq(s@.subrange(from as int, to as int)),
            acc as int == digits_value(whole.subrange(0, i - from)),
            acc <= limit,
        decreases to - i,
    {
        assert(is_digit(s@[i as int]));
        let d = (s[i] as u32 - '0' as u32) as u64;
        let ghost pre = whole.subrange(0, i - from);
        let ghost next = whole.subrange(0, i - from + 1);
        assert(next.drop_last() =~= pre);
        assert(digits_value(next) == digits_value(pre) * 10 + d);
        if d > limit || acc > (limit - d) / 10 {
            assert(acc * 10 + d > limit) by (nonlinear_arith)
                requires d > limit || acc > (limit - d) / 10, acc >= 0, d >= 0;
            proof {
                lemma_digits_value_prefix(whole, i - from + 1);
            }
            return None;
        }
        assert(acc * 10 + d <= limit) by (nonlinear_arith)
            requires d <= limit, acc <= (limit - d) / 10, acc >= 0;
        acc = acc * 10 + d;
        i = i + 1;
    }
    assert(whole.subrange(0, to - from) =~= whole);
    Some(acc)
}

/// The canonical decimal of a sign, digits and the exponent of the last digit.
fn canonicalize(negative: bool, raw: &Vec<u8>, e: i128) -> (r: Decimal)
    requires
        -0x1_0000_0000_0000_0000_0000 <= e <= 0x1_0000_0000_0000_0000_0000,
    ensures
        r@ == canonical_of(negative, raw@, e as int),
{
    let len = raw.len();
    let mut i: usize = 0;
    assert(raw@.subrange(0, len as int) =~= raw@);
    while i < len && raw[i] == 0
        invariant
            i <= len == raw@.len(),
            strip_leading(raw@) == strip_leading(raw@.subrange(i as int, len as int)),
        decreases len - i,
    {
        assert(raw@.subrange(i as int, len as int).drop_first() =~= raw@.subrange(i + 1, len as int));
        i = i + 1;
    }
    let ghost lead = raw@.subrange(i as int, len as int);
    assert(strip_leading(lead) == lead);
    if i == len {
        return Decimal { negative: false, digits: Vec::new(), exponent: 0 };
    }
    let mut j: usize = len;
    while j > i && raw[j - 1] == 0
        invariant
            i < len == raw@.len(),
            i <= j <= len,
            lead == raw@.subrange(i as int, len as int),
            raw@[i as int] != 0,
            trailing_zeros(lead) == (len - j) + trailing_zeros(raw@.subrange(i as int, j as int)),
        decreases j,
    {
        assert(raw@.subrange(i as int, j as int).drop_last() =~= raw@.subrange(i as int, j - 1));
        j = j - 1;
    }
    let mut digits: Vec<u8> = Vec::new();
    let mut k = i;
    while k < j
        invariant
            i <= k <= j <= len == raw@.len(),
            digits@ == raw@.subrange(i as int, k as int),
        decreases j - k,
    {
        digits.push(raw[k]);
        k = k + 1;
        assert(digits@ =~= raw@.subrange(i as int, k as int));
    }
    assert(lead.subrange(0, lead.len() - trailing_zeros(lead)) =~= raw@.subrange(i as int, j as int));
    Decimal { negative, digits, exponent: e + (len - j) as i128 }
}

/// Recognizes a numeric literal at `p` and converts it to an exact decimal.
pub fn parse_number(s: &Vec<char>, p: usize) -> (r: ParseOutcome)
    requires
        p <= s@.len(),
    ensures
        r@ == number_step(s@, p as int),
        r matches ParseOutcome::Matched(_, e) ==> e <= s@.len(),
{
    let len = s.len();
    let negative = p < len && s[p] == '-';
    let q0 = if p < len && (s[p] == '+' || s[p] == '-') { p + 1 } else { p };
    let mut raw: Vec<u8> = Vec::new();
    let q2: usize;
    let frac_len: usize;
    let ghost mantissa: Seq<char>;
    if q0 < len && is_digit_char(s[q0]) {
        let q1 = scan_digits(s, q0);
        proof {
            lemma_digits_end(s@, q0 as int);
        }
        push_digits(&mut raw, s, q0, q1);
        if q1 < len && s[q1] == '.' {
            let e2 = scan_digits(s, q1 + 1);
            proof {
                lemma_digits_end(s@, q1 + 1);
            }
            push_digits(&mut raw, s, q1 + 1, e2);
            q2 = e2;
            frac_len = e2 - q1 - 1;
            proof {
                mantissa = s@.subrange(q0 as int, q1 as int) + s@.subrange(q1 + 1, e2 as int);
                assert(raw@ =~= digit_seq(mantissa));
            }
        } else {
            q2 = q1;
            frac_len = 0;
            proof {
                mantissa = s@.subrange(q0 as int, q1 as int);
                assert(raw@ =~= digit_seq(mantissa));
            }
        }
    } else if q0 < len && s[q0] == '.' && q0 + 1 < len && is_digit_char(s[q0 + 1]) {
        let e2 = scan_digits(s, q0 + 1);
        proof {
            lemma_digits_end(s@, q0 + 1);
        }
        push_digits(&mut raw, s, q0 + 1, e2);
        q2 = e2;
        frac_len = e2 - q0 - 1;
        proof {
            mantissa = s@.subrange(q0 + 1, e2 as int);
            assert(raw@ =~= digit_seq(mantissa));
        }
    } else {
        return ParseOutcome::Unmatched(p);
    }
    number_tail(s, p, negative, &raw, frac_len, q2, Ghost(mantissa))
}

/// The exponent part of a literal whose mantissa ends at `q`, and the
/// conversion of the whole literal.
fn number_tail(
    s: &Vec<char>,
    p: usize,
    negative: bool,
    raw: &Vec<u8>,
    frac_len: usize,
    q2: usize,
    Ghost(mantissa): Ghost<Seq<char>>,
) -> (r: ParseOutcome)
    requires
        p <= q2 <= s@.len(),
        frac_len <= q2,
        raw@ == digit_seq(mantissa),
    ensures
        r@ == lex_step(exponent_lex(s@, negative, mantissa, frac_len as nat, q2 as int), p as int),
        r matches ParseOutcome::Matched(_, e) ==> e <= s@.len(),
{
    let len = s.len();
    let exp_negative: bool;
    let exp_value: u64;
    let end: usize;
    let ghost exp_digits: Seq<char>;
    if q2 < len && (s[q2] == 'e' || s[q2] == 'E') {
        let signed = q2 + 1 < len && (s[q2 + 1] == '+' || s[q2 + 1] == '-');
        let r = if signed { q2 + 2 } else { q2 + 1 };
        if r < len && is_digit_char(s[r]) {
            let t = scan_digits(s, r);
            proof {
                lemma_digits_end(s@, r as int);
                exp_digits = s@.subrange(r as int, t as int);
            }
            exp_negative = q2 + 1 < len && s[q2 + 1] == '-';
            let limit: u64 = if exp_negative { 0x8000_0000_0000_0000 } else { 0x7fff_ffff_ffff_ffff };
            match digits_up_to(s, r, t, limit) {
                Some(v) => {
                    exp_value = v;
                },
                None => {
                    return ParseOutcome::Unmatched(p);
                },
            }
            end = t;
        } else {
            return ParseOutcome::Failed(ParseError { position: r, kind: ParseErrorKind::ExponentDigits });
        }
    } else {
        exp_negative = false;
        exp_value = 0;
        end = q2;
        proof {
            exp_digits = Seq::empty();
            assert(digit_seq(exp_digits).len() == 0);
        }
    }
    let e: i128 = (if exp_negative { -(exp_value as i128) } else { exp_value as i128 }) - frac_len as i128;
    let d = canonicalize(negative, raw, e);
    ParseOutcome::Matched(Expr::Num(d), end)
}

/// The value of `(-1)^negative * digits * 10^e`, in units of `10^k`
/// (`k <= e`).
pub open spec fn scaled_value(negative: bool, ds: Seq<u8>, e: int, k: int) -> int {
    (if negative { -1int } else { 1int }) * (digits_value(ds) * pow(10, (e - k) as nat))
}

proof fn lemma_leading_zero(ds: Seq<u8>)
    requires
        ds.len() > 0,
        ds[0] == 0,
    ensures
        digits_value(ds) == digits_value(ds.drop_first()),
    decreases ds.len(),
{
    if ds.len() == 1 {
        assert(ds.drop_first() =~= Seq::<u8>::empty());
        assert(ds.drop_last() =~= Seq::<u8>::empty());
    } else {
        lemma_leading_zero(ds.drop_last());
        assert(ds.drop_first().drop_last() =~= ds.drop_last().drop_first());
    }
}

proof fn lemma_strip_leading_value(ds: Seq<u8>)
    ensures
        digits_value(strip_leading(ds)) == digits_value(ds),
    decreases ds.len(),
{
    if ds.len() > 0 && ds[0] == 0 {
        lemma_leading_zero(ds);
        lemma_strip_leading_value(ds.drop_first());
    }
}

proof fn lemma_trailing_zeros_value(ds: Seq<u8>)
    ensures
        trailing_zeros(ds) <= ds.len(),
        digits_value(ds) == digits_value(ds.subrange(0, ds.len() - trailing_zeros(ds))) * pow(
            10,
            trailing_zeros(ds),
        ),
    decreases ds.len(),
{
    let n = trailing_zeros(ds);
    if ds.len() > 0 && ds.last() == 0 {
        let dl = ds.drop_last();
        lemma_trailing_zeros_value(dl);
        let m = trailing_zeros(dl);
        assert(ds.subrange(0, ds.len() - n) =~= dl.subrange(0, dl.len() - m));
        let w = digits_value(dl.subrange(0, dl.len() - m));
        assert(n == m + 1);
        reveal(pow);
        assert(pow(10, (m + 1) as nat) == 10 * pow(10, m));
        assert(digits_value(dl) * 10 == w * pow(10, n)) by (nonlinear_arith)
            requires
                digits_value(dl) == w * pow(10, m),
                pow(10, n) == 10 * pow(10, m),
        ;
    } else {
        reveal(pow);
        assert(ds.subrange(0, ds.len() as int) =~= ds);
    }
}

/// Reading a literal is exact: the canonical decimal denotes the same number
/// as the sign, digits and exponent it was made from.
pub proof fn lemma_canonical_exact(negative: bool, ds: Seq<u8>, e: int, k: int)
    requires
        k <= e,
        k <= canonical_of(negative, ds, e).exponent,
    ensures
        ({
            let c = canonical_of(negative, ds, e);
            scaled_value(c.negative, c.digits, c.exponent, k) == scaled_value(negative, ds, e, k)
        }),
{
    let lead = strip_leading(ds);
    lemma_strip_leading_value(ds);
    if lead.len() == 0 {
        let c = canonical_of(negative, ds, e);
        assert(digits_value(ds) == 0);
        assert(digits_value(c.digits) == 0);
        assert(digits_value(ds) * pow(10, (e - k) as nat) == 0);
        assert(digits_value(c.digits) * pow(10, (c.exponent - k) as nat) == 0);
    } else {
        let n = trailing_zeros(lead);
        lemma_trailing_zeros_value(lead);
        let w = digits_value(lead.subrange(0, lead.len() - n));
        lemma_pow_adds(10, n, (e - k) as nat);
        assert((e + n - k) as nat == n + (e - k) as nat);
        assert(w * pow(10, (e + n - k) as nat) == digits_value(ds) * pow(10, (e - k) as nat))
            by (nonlinear_arith)
            requires
                digits_value(ds) == w * pow(10, n),
                pow(10, (e + n - k) as nat) == pow(10, n) * pow(10, (e - k) as nat),
        ;
        let c = canonical_of(negative, ds, e);
        assert(c.digits == lead.subrange(0, lead.len() - n));
        assert(digits_value(c.digits) * pow(10, (c.exponent - k) as nat) == digits_value(ds) * pow(10, (e - k) as nat));
    }
}

/// A numeric literal reads as exactly the number it writes: the decimal
/// recognized at `p` equals, in units of `10^k`, the literal's sign times its
/// digits times ten to its exponent minus its count of fractional digits.
pub proof fn lemma_number_exact(s: Seq<char>, p: int, k: int)
    requires
        number_step(s, p) is Matched,
        number_lex(s, p) is Literal,
        k <= literal_exponent(
            number_lex(s, p)->exp_negative,
            number_lex(s, p)->exp_digits,
            number_lex(s, p)->frac_len,
        ),
        k <= 0,
    ensures
        ({
            let lex = number_lex(s, p);
            let e = literal_exponent(lex->exp_negative, lex->exp_digits, lex->frac_len);
            let d = number_step(s, p)->Matched_0->Number_0;
            number_step(s, p)->Matched_0 is Number
                && scaled_value(d.negative, d.digits, d.exponent, k) == scaled_value(
                lex->negative,
                digit_seq(lex->mantissa),
                e,
                k,
            )
        }),
{
    let lex = number_lex(s, p);
    let e = literal_exponent(lex->exp_negative, lex->exp_digits, lex->frac_len);
    let ds = digit_seq(lex->mantissa);
    let c = canonical_of(lex->negative, ds, e);
    if strip_leading(ds).len() != 0 {
        lemma_trailing_zeros_value(strip_leading(ds));
    }
    assert(k <= c.exponent);
    lemma_canonical_exact(lex->negative, ds, e, k);
}

proof fn lemma_strip_leading_props(ds: Seq<u8>)
    requires
        forall|i: int| 0 <= i < ds.len() ==> #[trigger] ds[i] <= 9,
    ensures
        forall|i: int| 0 <= i < strip_leading(ds).len() ==> #[trigger] strip_leading(ds)[i] <= 9,
        strip_leading(ds).len() > 0 ==> strip_leading(ds)[0] != 0,
    decreases ds.len(),
{
    if ds.len() > 0 && ds[0] == 0 {
        assert forall|i: int| 0 <= i < ds.drop_first().len() implies #[trigger] ds.drop_first()[i] <= 9 by {
            assert(ds.drop_first()[i] == ds[i + 1]);
        }
        lemma_strip_leading_props(ds.drop_first());
    }
}

proof fn lemma_trailing_zeros_props(t: Seq<u8>)
    requires
        t.len() > 0,
        t[0] != 0,
    ensures
        trailing_zeros(t) < t.len(),
        t[t.len() - trailing_zeros(t) - 1] != 0,
    decreases t.len(),
{
    if t.last() == 0 {
        lemma_trailing_zeros_props(t.drop_last());
    }
}

/// The canonical decimal of digits is canonical.
pub proof fn lemma_canonical_of_is_canonical(negative: bool, ds: Seq<u8>, e: int)
    requires
        forall|i: int| 0 <= i < ds.len() ==> #[trigger] ds[i] <= 9,
    ensures
        canonical_of(negative, ds, e).canonical(),
{
    let lead = strip_leading(ds);
    lemma_strip_leading_props(ds);
    if lead.len() > 0 {
        lemma_trailing_zeros_props(lead);
    }
}

proof fn lemma_number_lex_digits(s: Seq<char>, p: int)
    requires
        0 <= p <= s.len(),
        number_lex(s, p) is Literal,
    ensures
        forall|i: int|
            0 <= i < number_lex(s, p)->mantissa.len() ==> is_digit(
                #[trigger] number_lex(s, p)->mantissa[i],
            ),
{
    let negative = char_is(s, p, '-');
    let q0 = if char_is(s, p, '+') || negative { p + 1 } else { p };
    if 0 <= q0 < s.len() && is_digit(s[q0]) {
        lemma_digits_end(s, q0);
        let q1 = digits_end(s, q0);
        if char_is(s, q1, '.') {
            lemma_digits_end(s, q1 + 1);
        }
    } else if char_is(s, q0, '.') && q0 + 1 < s.len() && is_digit(s[q0 + 1]) {
        lemma_digits_end(s, q0 + 1);
    }
}

/// A numeric literal reads as a canonical decimal: digits from 0 to 9, no
/// leading or trailing zero digit, and a single form of zero.
pub proof fn lemma_number_canonical(s: Seq<char>, p: int)
    requires
        0 <= p <= s.len(),
        number_step(s, p) matches Step::Matched(Form::Number(_), _),
    ensures
        number_step(s, p)->Matched_0->Number_0.canonical(),
{
    lemma_number_lex_digits(s, p);
    let lex = number_lex(s, p);
    let ds = digit_seq(lex->mantissa);
    assert forall|i: int| 0 <= i < ds.len() implies #[trigger] ds[i] <= 9 by {
        assert(is_digit(lex->mantissa[i]));
    }
    lemma_canonical_of_is_canonical(
        lex->negative,
        ds,
        literal_exponent(lex->exp_negative, lex->exp_digits, lex->frac_len),
    );
}

proof fn lemma_digits_value_positive(ds: Seq<u8>)
    requires
        ds.len() > 0,
        ds[0] != 0,
    ensures
        digits_value(ds) > 0,
{
    lemma_digits_value_prefix(ds, 1);
    let one = ds.subrange(0, 1);
    assert(one.drop_last() =~= Seq::<u8>::empty());
    assert(one.last() == ds[0]);
    assert(digits_value(Seq::<u8>::empty()) == 0);
    assert(digits_value(one) == ds[0] as nat);
}

proof fn lemma_digits_value_injective(a: Seq<u8>, b: Seq<u8>)
    requires
        forall|i: int| 0 <= i < a.len() ==> #[trigger] a[i] <= 9,
        forall|i: int| 0 <= i < b.len() ==> #[trigger] b[i] <= 9,
        a.len() > 0 ==> a[0] != 0,
        b.len() > 0 ==> b[0] != 0,
        digits_value(a) == digits_value(b),
    ensures
        a == b,
    decreases a.len() + b.len(),
{
    if a.len() == 0 && b.len() == 0 {
        assert(a =~= b);
    } else if a.len() == 0 {
        lemma_digits_value_positive(b);
    } else if b.len() == 0 {
        lemma_digits_value_positive(a);
    } else {
        let wa = digits_value(a.drop_last());
        let wb = digits_value(b.drop_last());
        let da = a.last() as int;
        let db = b.last() as int;
        assert(a.last() <= 9 && b.last() <= 9);
        assert(da == db && wa == wb) by (nonlinear_arith)
            requires
                wa * 10 + da == wb * 10 + db,
                0 <= da <= 9,
                0 <= db <= 9,
                wa >= 0,
                wb >= 0,
        ;
        assert forall|i: int| 0 <= i < a.drop_last().len() implies #[trigger] a.drop_last()[i] <= 9 by {
            assert(a.drop_last()[i] == a[i]);
        }
        assert forall|i: int| 0 <= i < b.drop_last().len() implies #[trigger] b.drop_last()[i] <= 9 by {
            assert(b.drop_last()[i] == b[i]);
        }
        lemma_digits_value_injective(a.drop_last(), b.drop_last());
        assert(a =~= a.drop_last().push(a.last()));
        assert(b =~= b.drop_last().push(b.last()));
    }
}

/// A decimal that denotes the same number as one with a larger exponent
/// ends in a zero digit.
proof fn lemma_exponent_order(a: DecimalModel, b: DecimalModel, k: int)
    requires
        a.digits.len() > 0,
        a.digits.last() <= 9,
        k <= a.exponent < b.exponent,
        digits_value(a.digits) * pow(10, (a.exponent - k) as nat) == digits_value(b.digits) * pow(
            10,
            (b.exponent - k) as nat,
        ),
    ensures
        a.digits.last() == 0,
{
    let va = digits_value(a.digits);
    let vb = digits_value(b.digits);
    let d = (b.exponent - a.exponent - 1) as nat;
    let pa = pow(10, (a.exponent - k) as nat);
    lemma_pow_positive(10, (a.exponent - k) as nat);
    lemma_pow_adds(10, (d + 1) as nat, (a.exponent - k) as nat);
    assert((b.exponent - k) as nat == (d + 1) as nat + (a.exponent - k) as nat);
    reveal(pow);
    assert(pow(10, (d + 1) as nat) == 10 * pow(10, d));
    let m = vb * pow(10, d);
    assert(va * pa == (10 * m) * pa) by (nonlinear_arith)
        requires
            va * pa == vb * pow(10, (b.exponent - k) as nat),
            pow(10, (b.exponent - k) as nat) == pow(10, (d + 1) as nat) * pa,
            pow(10, (d + 1) as nat) == 10 * pow(10, d),
            m == vb * pow(10, d),
    ;
    assert(va == 10 * m) by (nonlinear_arith)
        requires
            va * pa == (10 * m) * pa,
            pa > 0,
    ;
    let w = digits_value(a.digits.drop_last());
    let l = a.digits.last() as int;
    assert(va == w * 10 + l);
    assert(l <= 9);
    assert(l == 0) by (nonlinear_arith)
        requires
            w * 10 + l == 10 * m,
            0 <= l <= 9,
    ;
}

/// Two canonical decimals that denote the same number are the same decimal,
/// so a canonical decimal is the one minimal form of its value.
pub proof fn lemma_canonical_unique(a: DecimalModel, b: DecimalModel, k: int)
    requires
        a.canonical(),
        b.canonical(),
        k <= a.exponent,
        k <= b.exponent,
        scaled_value(a.negative, a.digits, a.exponent, k) == scaled_value(
            b.negative,
            b.digits,
            b.exponent,
            k,
        ),
    ensures
        a == b,
{
    let xa = digits_value(a.digits) * pow(10, (a.exponent - k) as nat);
    let xb = digits_value(b.digits) * pow(10, (b.exponent - k) as nat);
    lemma_pow_positive(10, (a.exponent - k) as nat);
    lemma_pow_positive(10, (b.exponent - k) as nat);
    let sa: int = if a.negative { -1 } else { 1 };
    let sb: int = if b.negative { -1 } else { 1 };
    assert(sa * xa == sb * xb);
    if a.digits.len() == 0 || b.digits.len() == 0 {
        if a.digits.len() == 0 {
            assert(digits_value(a.digits) == 0);
            assert(xa == 0) by (nonlinear_arith)
                requires
                    xa == digits_value(a.digits) * pow(10, (a.exponent - k) as nat),
                    digits_value(a.digits) == 0,
            ;
        }
        if b.digits.len() == 0 {
            assert(digits_value(b.digits) == 0);
            assert(xb == 0) by (nonlinear_arith)
                requires
                    xb == digits_value(b.digits) * pow(10, (b.exponent - k) as nat),
                    digits_value(b.digits) == 0,
            ;
        }
        if a.digits.len() > 0 {
            lemma_digits_value_positive(a.digits);
            assert(xa > 0) by (nonlinear_arith)
                requires
                    xa == digits_value(a.digits) * pow(10, (a.exponent - k) as nat),
                    digits_value(a.digits) > 0,
                    pow(10, (a.exponent - k) as nat) > 0,
            ;
            assert(xa == 0) by (nonlinear_arith)
                requires
                    sa * xa == sb * xb,
                    xb == 0,
                    sa == -1 || sa == 1,
            ;
        }
        if b.digits.len() > 0 {
            lemma_digits_value_positive(b.digits);
            assert(xb > 0) by (nonlinear_arith)
                requires
                    xb == digits_value(b.digits) * pow(10, (b.exponent - k) as nat),
                    digits_value(b.digits) > 0,
                    pow(10, (b.exponent - k) as nat) > 0,
            ;
            assert(xb == 0) by (nonlinear_arith)
                requires
                    sa * xa == sb * xb,
                    xa == 0,
                    sb == -1 || sb == 1,
            ;
        }
        assert(a.digits =~= b.digits);
    } else {
        lemma_digits_value_positive(a.digits);
        lemma_digits_value_positive(b.digits);
        assert(xa > 0 && xb > 0) by (nonlinear_arith)
            requires
                xa == digits_value(a.digits) * pow(10, (a.exponent - k) as nat),
                xb == digits_value(b.digits) * pow(10, (b.exponent - k) as nat),
                digits_value(a.digits) > 0,
                digits_value(b.digits) > 0,
                pow(10, (a.exponent - k) as nat) > 0,
                pow(10, (b.exponent - k) as nat) > 0,
        ;
        assert(sa == sb && xa == xb) by (nonlinear_arith)
            requires
                sa * xa == sb * xb,
                xa > 0,
                xb > 0,
                sa == -1 || sa == 1,
                sb == -1 || sb == 1,
        ;
        if a.exponent < b.exponent {
            lemma_exponent_order(a, b, k);
        } else if b.exponent < a.exponent {
            lemma_exponent_order(b, a, k);
        }
        assert(digits_value(a.digits) == digits_value(b.digits)) by (nonlinear_arith)
            requires
                xa == digits_value(a.digits) * pow(10, (a.exponent - k) as nat),
                xb == digits_value(b.digits) * pow(10, (a.exponent - k) as nat),
                xa == xb,
                pow(10, (a.exponent - k) as nat) > 0,
        ;
        lemma_digits_value_injective(a.digits, b.digits);
    }
}

} // verus!
