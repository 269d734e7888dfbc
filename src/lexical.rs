//! Character classes and the lexical skip between forms.

use vstd::prelude::*;

verus! {

/// Characters skipped between forms: space, tab, carriage return, line feed.
pub open spec fn is_blank(c: char) -> bool {
    c == ' ' || c == '\t' || c == '\r' || c == '\n'
}

/// Characters with the Unicode White_Space property.
pub open spec fn is_unicode_space(c: char) -> bool {
    let u = c as u32;
    (0x9 <= u && u <= 0xd) || u == 0x20 || u == 0x85 || u == 0xa0 || u == 0x1680
        || (0x2000 <= u && u <= 0x200a) || u == 0x2028 || u == 0x2029 || u == 0x202f
        || u == 0x205f || u == 0x3000
}

/// Characters that may stand in a symbol.
pub open spec fn is_symbol_char_spec(c: char) -> bool {
    !(c == '(' || c == ')' || c == '"' || c == '\'' || c == ';' || is_unicode_space(c))
}

pub open spec fn is_digit(c: char) -> bool {
    '0' <= c && c <= '9'
}

/// Where the lexical skip that starts at `p` ends: blanks, and comments
/// that run from `;` to the end of the line, in any number and order.
/// `in_comment` tells whether `p` lies inside a comment.
pub open spec fn skip_from(s: Seq<char>, p: int, in_comment: bool) -> int
    decreases s.len() - p,
{
    if p < 0 || p >= s.len() {
        p
    } else if in_comment {
        skip_from(s, p + 1, s[p] != '\n')
    } else if is_blank(s[p]) {
        skip_from(s, p + 1, false)
    } else if s[p] == ';' {
        skip_from(s, p + 1, true)
    } else {
        p
    }
}

/// The position after the lexical skip at `p`.
pub open spec fn skip(s: Seq<char>, p: int) -> int {
    skip_from(s, p, false)
}

pub proof fn lemma_skip_from_bounds(s: Seq<char>, p: int, in_comment: bool)
    ensures
        skip_from(s, p, in_comment) >= p,
        0 <= p <= s.len() ==> skip_from(s, p, in_comment) <= s.len(),
        0 <= p && skip_from(s, p, in_comment) < s.len() ==> !in_comment || p < skip_from(s, p, in_comment),
    decreases s.len() - p,
{
    if 0 <= p < s.len() {
        if in_comment {
            lemma_skip_from_bounds(s, p + 1, s[p] != '\n');
        } else if is_blank(s[p]) || s[p] == ';' {
            lemma_skip_from_bounds(s, p + 1, s[p] == ';');
        }
    }
}

/// After a skip, the next character (if any) is neither blank nor `;`.
pub proof fn lemma_skip_from_stops(s: Seq<char>, p: int, in_comment: bool)
    requires
        0 <= p,
    ensures
        ({
            let q = skip_from(s, p, in_comment);
            q < s.len() ==> !is_blank(s[q]) && s[q] != ';'
        }),
    decreases s.len() - p,
{
    if p < s.len() {
        if in_comment {
            lemma_skip_from_stops(s, p + 1, s[p] != '\n');
        } else if is_blank(s[p]) || s[p] == ';' {
            lemma_skip_from_stops(s, p + 1, s[p] == ';');
        }
    }
}

/// Skipping twice is skipping once.
pub proof fn lemma_skip_idempotent(s: Seq<char>, p: int)
    ensures
        skip(s, skip(s, p)) == skip(s, p),
{
    if 0 <= p {
        lemma_skip_from_stops(s, p, false);
        lemma_skip_from_bounds(s, p, false);
    }
}

pub fn is_blank_char(c: char) -> (r: bool)
    ensures
        r == is_blank(c),
{
    c == ' ' || c == '\t' || c == '\r' || c == '\n'
}

/// Whether `c` may stand in a symbol.
pub fn is_symbol_char(c: char) -> (r: bool)
    ensures
        r == is_symbol_char_spec(c),
{
    let u = c as u32;
    let space = (0x9 <= u && u <= 0xd) || u == 0x20 || u == 0x85 || u == 0xa0 || u == 0x1680
        || (0x2000 <= u && u <= 0x200a) || u == 0x2028 || u == 0x2029 || u == 0x202f
        || u == 0x205f || u == 0x3000;
    !(c == '(' || c == ')' || c == '"' || c == '\'' || c == ';' || space)
}

pub fn is_digit_char(c: char) -> (r: bool)
    ensures
        r == is_digit(c),
{
    '0' <= c && c <= '9'
}

/// The position after the lexical skip at `p`.
pub fn skip_ignored(s: &Vec<char>, p: usize) -> (r: usize)
    requires
        p <= s@.len(),
    ensures
        r as int == skip(s@, p as int),
        p <= r <= s@.len(),
{
    let mut i = p;
    let mut in_comment = false;
    proof {
        lemma_skip_from_bounds(s@, p as int, false);
    }
    while i < s.len()
        invariant
            p <= i <= s@.len(),
            skip_from(s@, i as int, in_comment) == skip(s@, p as int),
        decreases s@.len() - i,
    {
        let c = s[i];
        if in_comment {
            in_comment = c != '\n';
        } else if is_blank_char(c) {
        } else if c == ';' {
            in_comment = true;
        } else {
            return i;
        }
        i = i + 1;
    }
    i
}

/// Relies on `str::chars`: the characters of `s`, in order.
#[verifier::external_body]
pub(crate) fn chars_of(s: &str) -> (r: Vec<char>)
    ensures
        r@ == s@,
{
    s.chars().collect()
}

/// Relies on `String`'s `FromIterator<char>`: the string of the characters
/// of `v`, in order.
#[verifier::external_body]
pub(crate) fn string_of(v: &[char]) -> (r: String)
    ensures
        r@ == v@,
{
    v.iter().collect()
}

} // verus!
