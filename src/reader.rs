//! The expression grammar and the top-level reader.

use vstd::prelude::*;
use vstd::string::*;

use crate::decimal::{char_is, number_step, parse_number};
use crate::expr::{
    forms_of, lemma_forms_of_empty, lemma_forms_of_push, Expr, Form, Function, ParseError, ParseErrorKind,
    ParseOutcome, Step,
};
use crate::lexical::{
    chars_of, is_symbol_char, is_symbol_char_spec, lemma_skip_from_bounds, lemma_skip_idempotent, skip, skip_ignored,
    string_of,
};

verus! {

/// The end of the run of symbol characters that starts at `p`.
pub open spec fn symbol_end(s: Seq<char>, p: int) -> int
    decreases s.len() - p,
{
    if 0 <= p < s.len() && is_symbol_char_spec(s[p]) {
        symbol_end(s, p + 1)
    } else {
        p
    }
}

/// The display name of the callable built for method `m`.
pub open spec fn method_call_name(m: Seq<char>) -> Seq<char> {
    "method_call<"@ + m + ">"@
}

/// The callable built for a dot-prefixed symbol naming method `m`: it takes
/// one or more arguments.
pub open spec fn method_call_form(m: Seq<char>) -> Form {
    Form::Function { name: method_call_name(m), min_arity: 1, variadic: true, method: m }
}

/// The outcome of the symbol recognizer at `p`.
pub open spec fn symbol_step(s: Seq<char>, p: int) -> Step {
    let e = symbol_end(s, p);
    if e == p {
        Step::Unmatched(p)
    } else {
        let t = s.subrange(p, e);
        if t[0] == '.' {
            Step::Matched(method_call_form(t.drop_first()), e)
        } else {
            Step::Matched(Form::Symbol(t), e)
        }
    }
}

/// The position of the quote that closes a string body starting at `p`.
pub open spec fn string_close(s: Seq<char>, p: int) -> Option<int>
    decreases s.len() - p,
{
    if p < 0 || p >= s.len() {
        None
    } else if s[p] == '"' {
        Some(p)
    } else if s[p] == '\\' {
        if char_is(s, p + 1, '"') {
            string_close(s, p + 2)
        } else {
            None
        }
    } else {
        string_close(s, p + 1)
    }
}

/// The text of a string body starting at `p`, each `\"` read as `"`.
pub open spec fn string_text(s: Seq<char>, p: int) -> Seq<char>
    decreases s.len() - p,
{
    if p < 0 || p >= s.len() || s[p] == '"' {
        Seq::empty()
    } else if s[p] == '\\' && p + 1 < s.len() {
        seq!['"'] + string_text(s, p + 2)
    } else {
        seq![s[p]] + string_text(s, p + 1)
    }
}

/// The outcome of the string recognizer at `p`.
pub open spec fn string_step(s: Seq<char>, p: int) -> Step {
    if char_is(s, p, '"') {
        match string_close(s, p + 1) {
            Some(e) => Step::Matched(Form::Text(string_text(s, p + 1)), e + 1),
            None => Step::Unmatched(p),
        }
    } else {
        Step::Unmatched(p)
    }
}

pub open spec fn word_at(s: Seq<char>, p: int, w: Seq<char>) -> bool {
    0 <= p && p + w.len() <= s.len() && s.subrange(p, p + w.len()) == w
}

/// The outcome of the boolean recognizer at `p`: `true` or `false` as a prefix.
pub open spec fn bool_step(s: Seq<char>, p: int) -> Step {
    if word_at(s, p, seq!['t', 'r', 'u', 'e']) {
        Step::Matched(Form::Bool(true), p + 4)
    } else if word_at(s, p, seq!['f', 'a', 'l', 's', 'e']) {
        Step::Matched(Form::Bool(false), p + 5)
    } else {
        Step::Unmatched(p)
    }
}

/// The atoms, tried in order: string, number, boolean, symbol.
pub open spec fn atom_step(s: Seq<char>, p: int) -> Step {
    match string_step(s, p) {
        Step::Unmatched(_) => match number_step(s, p) {
            Step::Unmatched(_) => match bool_step(s, p) {
                Step::Unmatched(_) => symbol_step(s, p),
                r => r,
            },
            r => r,
        },
        r => r,
    }
}

/// What a run of forms inside parentheses comes to.
pub enum Items {
    /// The forms, in order, and the position after the closing parenthesis.
    Closed(Seq<Form>, int),
    /// The parse failed here.
    Broken(int, ParseErrorKind),
}

pub open spec fn prepend(done: Seq<Form>, it: Items) -> Items {
    match it {
        Items::Closed(fs, e) => Items::Closed(done + fs, e),
        Items::Broken(x, k) => Items::Broken(x, k),
    }
}

pub open spec fn list_step(it: Items) -> Step {
    match it {
        Items::Closed(fs, e) => Step::Matched(Form::List(fs), e),
        Items::Broken(x, k) => Step::Failed(x, k),
    }
}

pub open spec fn quote_step(it: Items) -> Step {
    match it {
        Items::Closed(fs, e) => Step::Matched(Form::Quote(fs), e),
        Items::Broken(x, k) => Step::Failed(x, k),
    }
}

pub open spec fn tuple_symbol() -> Form {
    Form::Symbol("tuple"@)
}

/// `^( ... )` stands for `(tuple ... )`.
pub open spec fn tuple_step(it: Items) -> Step {
    match it {
        Items::Closed(fs, e) => Step::Matched(Form::List(seq![tuple_symbol()] + fs), e),
        Items::Broken(x, k) => Step::Failed(x, k),
    }
}

/// One expression at `p`, with the lexical skip before and after it. Lists,
/// quotes and tuples commit at their opening marker; atoms are tried after.
pub open spec fn expr_step(s: Seq<char>, p: int) -> Step
    decreases s.len() - p, 1int,
{
    if p < 0 || p > s.len() {
        Step::Unmatched(p)
    } else {
        let q = skip(s, p);
        let a = if char_is(s, q, '(') {
            proof {
                lemma_skip_from_bounds(s, p, false);
            }
            list_step(items_step(s, q + 1))
        } else if char_is(s, q, '\'') || char_is(s, q, '^') {
            if char_is(s, q + 1, '(') {
                proof {
                    lemma_skip_from_bounds(s, p, false);
                }
                if s[q] == '^' {
                    tuple_step(items_step(s, q + 2))
                } else {
                    quote_step(items_step(s, q + 2))
                }
            } else {
                Step::Failed(q + 1, ParseErrorKind::OpeningParen)
            }
        } else {
            atom_step(s, q)
        };
        match a {
            Step::Matched(f, e) => Step::Matched(f, skip(s, e)),
            Step::Unmatched(_) => Step::Unmatched(q),
            Step::Failed(x, k) => Step::Failed(x, k),
        }
    }
}

/// The expressions from `p` up to and including the closing parenthesis.
pub open spec fn items_step(s: Seq<char>, p: int) -> Items
    decreases s.len() - p, 2int,
{
    if p < 0 || p > s.len() {
        Items::Broken(p, ParseErrorKind::NoExpression)
    } else {
        match expr_step(s, p) {
            Step::Matched(f, e) => {
                // A form that consumed nothing would repeat forever: refuse it.
                if p < e <= s.len() {
                    prepend(seq![f], items_step(s, e))
                } else {
                    Items::Broken(p, ParseErrorKind::NoExpression)
                }
            },
            Step::Unmatched(_) => {
                let q = skip(s, p);
                if char_is(s, q, ')') {
                    Items::Closed(Seq::empty(), q + 1)
                } else {
                    Items::Broken(q, ParseErrorKind::ClosingParen)
                }
            },
            Step::Failed(x, k) => Items::Broken(x, k),
        }
    }
}

pub open spec fn ends_within(r: ParseOutcome, len: int) -> bool {
    match r {
        ParseOutcome::Matched(_, e) => e <= len,
        _ => true,
    }
}

/// The callable that a dot-prefixed symbol naming method `m` stands for.
fn method_call(m: &Vec<char>) -> (r: Expr)
    ensures
        r.view() == method_call_form(m@),
{
    let method = string_of(m);
    let mut name = String::from_str("method_call<");
    name.append(method.as_str());
    name.append(">");
    Expr::Function(Function { name, min_arity: 1, variadic: true, method })
}

/// The symbol recognizer: the longest nonempty run of symbol characters. A
/// run that begins with `.` names a method, and gives its callable.
pub fn parse_symbol(s: &Vec<char>, p: usize) -> (r: ParseOutcome)
    requires
        p <= s@.len(),
    ensures
        r@ == symbol_step(s@, p as int),
        ends_within(r, s@.len() as int),
{
    let mut e = p;
    let mut text: Vec<char> = Vec::new();
    while e < s.len() && is_symbol_char(s[e])
        invariant
            p <= e <= s@.len(),
            symbol_end(s@, e as int) == symbol_end(s@, p as int),
            text@ == s@.subrange(p as int, e as int),
        decreases s@.len() - e,
    {
        text.push(s[e]);
        e = e + 1;
        assert(text@ =~= s@.subrange(p as int, e as int));
    }
    if e == p {
        return ParseOutcome::Unmatched(p);
    }
    if text[0] == '.' {
        let mut m: Vec<char> = Vec::new();
        let mut k: usize = 1;
        while k < text.len()
            invariant
                1 <= k <= text@.len(),
                m@ == text@.subrange(1, k as int),
            decreases text@.len() - k,
        {
            m.push(text[k]);
            k = k + 1;
            assert(m@ =~= text@.subrange(1, k as int));
        }
        assert(m@ =~= text@.drop_first());
        ParseOutcome::Matched(method_call(&m), e)
    } else {
        ParseOutcome::Matched(Expr::Symbol(string_of(&text)), e)
    }
}

/// The string recognizer: a double-quoted body of characters other than
/// backslash and double quote, and of `\"` escapes, which stand for `"`.
pub fn parse_string(s: &Vec<char>, p: usize) -> (r: ParseOutcome)
    requires
        p <= s@.len(),
    ensures
        r@ == string_step(s@, p as int),
        ends_within(r, s@.len() as int),
{
    let len = s.len();
    if !(p < len && s[p] == '"') {
        return ParseOutcome::Unmatched(p);
    }
    let mut i = p + 1;
    let mut text: Vec<char> = Vec::new();
    loop
        invariant
            p + 1 <= i <= len == s@.len(),
            char_is(s@, p as int, '"'),
            string_close(s@, i as int) == string_close(s@, p + 1),
            string_text(s@, p + 1) == text@ + string_text(s@, i as int),
        decreases len - i,
    {
        if i >= len {
            return ParseOutcome::Unmatched(p);
        }
        let c = s[i];
        let ghost before = text@;
        if c == '"' {
            assert(text@ + string_text(s@, i as int) =~= text@);
            return ParseOutcome::Matched(Expr::String(string_of(&text)), i + 1);
        } else if c == '\\' {
            if i + 1 < len && s[i + 1] == '"' {
                text.push('"');
                i = i + 2;
                assert(before + (seq!['"'] + string_text(s@, i as int)) =~= text@ + string_text(s@, i as int));
            } else {
                return ParseOutcome::Unmatched(p);
            }
        } else {
            text.push(c);
            i = i + 1;
            assert(before + (seq![c] + string_text(s@, i as int)) =~= text@ + string_text(s@, i as int));
        }
    }
}

/// Whether the characters of `w` stand at position `p`.
fn word_here(s: &Vec<char>, p: usize, w: &Vec<char>) -> (r: bool)
    requires
        p <= s@.len(),
    ensures
        r == word_at(s@, p as int, w@),
{
    let n = s.len();
    if w.len() > n - p {
        return false;
    }
    let mut k: usize = 0;
    while k < w.len()
        invariant
            k <= w@.len(),
            p <= n == s@.len(),
            p + w@.len() <= s@.len(),
            forall|j: int| 0 <= j < k ==> s@[p + j] == w@[j],
        decreases w@.len() - k,
    {
        if s[p + k] != w[k] {
            assert(s@.subrange(p as int, p + w@.len())[k as int] == s@[p + k]);
            return false;
        }
        k = k + 1;
    }
    assert(s@.subrange(p as int, p + w@.len()) =~= w@);
    true
}

/// The boolean recognizer: `true` or `false` as a prefix.
pub fn parse_bool(s: &Vec<char>, p: usize) -> (r: ParseOutcome)
    requires
        p <= s@.len(),
    ensures
        r@ == bool_step(s@, p as int),
        ends_within(r, s@.len() as int),
{
    let t = vec!['t', 'r', 'u', 'e'];
    let f = vec!['f', 'a', 'l', 's', 'e'];
    assert(t@ =~= seq!['t', 'r', 'u', 'e']);
    assert(f@ =~= seq!['f', 'a', 'l', 's', 'e']);
    assert(t@.len() == 4 && f@.len() == 5);
    let n = s.len();
    if word_here(s, p, &t) {
        ParseOutcome::Matched(Expr::Bool(true), p + 4)
    } else if word_here(s, p, &f) {
        ParseOutcome::Matched(Expr::Bool(false), p + 5)
    } else {
        ParseOutcome::Unmatched(p)
    }
}

/// The number recognizer: a decimal floating-point literal, read exactly.
pub fn parse_num(s: &Vec<char>, p: usize) -> (r: ParseOutcome)
    requires
        p <= s@.len(),
    ensures
        r@ == number_step(s@, p as int),
        ends_within(r, s@.len() as int),
{
    parse_number(s, p)
}

/// The atoms, tried in order: string, number, boolean, symbol.
fn parse_atom(s: &Vec<char>, p: usize) -> (r: ParseOutcome)
    requires
        p <= s@.len(),
    ensures
        r@ == atom_step(s@, p as int),
        ends_within(r, s@.len() as int),
{
    let r = parse_string(s, p);
    if !matches!(r, ParseOutcome::Unmatched(_)) {
        return r;
    }
    let r = parse_num(s, p);
    if !matches!(r, ParseOutcome::Unmatched(_)) {
        return r;
    }
    let r = parse_bool(s, p);
    if !matches!(r, ParseOutcome::Unmatched(_)) {
        return r;
    }
    parse_symbol(s, p)
}

/// Whether `r` is the executable outcome of a run of forms inside
/// parentheses whose model is `it`, the forms coming after `init`.
pub open spec fn items_agree(
    r: Result<(Vec<Expr>, usize), ParseError>,
    init: Seq<Expr>,
    it: Items,
    len: int,
) -> bool {
    match (r, it) {
        (Ok((v, e)), Items::Closed(fs, end)) => forms_of(v@) == forms_of(init) + fs && e == end
            && e <= len,
        (Err(err), Items::Broken(x, k)) => err.position == x && err.kind == k,
        _ => false,
    }
}

pub proof fn lemma_prepend_empty(it: Items)
    ensures
        prepend(Seq::empty(), it) == it,
{
    if let Items::Closed(fs, e) = it {
        assert(Seq::<Form>::empty() + fs =~= fs);
    }
}

pub proof fn lemma_prepend_push(done: Seq<Form>, f: Form, it: Items)
    ensures
        prepend(done, prepend(seq![f], it)) == prepend(done.push(f), it),
{
    if let Items::Closed(fs, e) = it {
        assert(done + (seq![f] + fs) =~= done.push(f) + fs);
    }
}

/// The lexical skip: blanks and `;` comments, in any number. Returns the
/// position after them.
pub fn ignored_input(s: &Vec<char>, p: usize) -> (r: usize)
    requires
        p <= s@.len(),
    ensures
        r as int == skip(s@, p as int),
        p <= r <= s@.len(),
{
    skip_ignored(s, p)
}

/// One expression at `p`, with the lexical skip before and after it.
pub fn parse_expr(s: &Vec<char>, p: usize) -> (r: ParseOutcome)
    requires
        p <= s@.len(),
    ensures
        r@ == expr_step(s@, p as int),
        ends_within(r, s@.len() as int),
    decreases s@.len() - p, 1int,
{
    let len = s.len();
    let q = skip_ignored(s, p);
    let a = if q < len && s[q] == '(' {
        let r = parse_items(s, q + 1, Vec::new());
        proof {
            lemma_forms_of_empty();
        }
        match r {
            Ok((v, e)) => ParseOutcome::Matched(Expr::List(v), e),
            Err(err) => ParseOutcome::Failed(err),
        }
    } else if q < len && (s[q] == '\'' || s[q] == '^') {
        if q + 1 < len && s[q + 1] == '(' {
            if s[q] == '^' {
                let init = vec![Expr::Symbol(String::from_str("tuple"))];
                proof {
                    lemma_forms_of_empty();
                    lemma_forms_of_push(Seq::empty(), init@[0]);
                    assert(Seq::<Expr>::empty().push(init@[0]) =~= init@);
                }
                let r = parse_items(s, q + 2, init);
                match r {
                    Ok((v, e)) => ParseOutcome::Matched(Expr::List(v), e),
                    Err(err) => ParseOutcome::Failed(err),
                }
            } else {
                let r = parse_items(s, q + 2, Vec::new());
                proof {
                    lemma_forms_of_empty();
                }
                match r {
                    Ok((v, e)) => ParseOutcome::Matched(Expr::Quote(v), e),
                    Err(err) => ParseOutcome::Failed(err),
                }
            }
        } else {
            ParseOutcome::Failed(ParseError { position: q + 1, kind: ParseErrorKind::OpeningParen })
        }
    } else {
        parse_atom(s, q)
    };
    match a {
        ParseOutcome::Matched(e, end) => ParseOutcome::Matched(e, skip_ignored(s, end)),
        ParseOutcome::Unmatched(_) => ParseOutcome::Unmatched(q),
        ParseOutcome::Failed(err) => ParseOutcome::Failed(err),
    }
}

/// The expressions from `p` up to and including the closing parenthesis,
/// appended to `init`.
fn parse_items(s: &Vec<char>, p: usize, init: Vec<Expr>) -> (r: Result<(Vec<Expr>, usize), ParseError>)
    requires
        p <= s@.len(),
    ensures
        items_agree(r, init@, items_step(s@, p as int), s@.len() as int),
    decreases s@.len() - p, 2int,
{
    let len = s.len();
    let mut acc = init;
    let mut i = p;
    let ghost mut done: Seq<Form> = Seq::empty();
    proof {
        lemma_prepend_empty(items_step(s@, p as int));
        assert(forms_of(init@) + done =~= forms_of(init@));
    }
    loop
        invariant
            p <= i <= len == s@.len(),
            forms_of(acc@) == forms_of(init@) + done,
            items_step(s@, p as int) == prepend(done, items_step(s@, i as int)),
        decreases len - i,
    {
        let r = parse_expr(s, i);
        match r {
            ParseOutcome::Matched(e, next) => {
                // A form that consumed nothing would repeat forever: refuse it.
                if next <= i || next > len {
                    return Err(ParseError { position: i, kind: ParseErrorKind::NoExpression });
                }
                proof {
                    lemma_prepend_push(done, e.view(), items_step(s@, next as int));
                    lemma_forms_of_push(acc@, e);
                    assert(forms_of(init@) + done.push(e.view()) =~= (forms_of(init@) + done).push(e.view()));
                    done = done.push(e.view());
                }
                acc.push(e);
                i = next;
            },
            ParseOutcome::Unmatched(_) => {
                let q = skip_ignored(s, i);
                if q < len && s[q] == ')' {
                    proof {
                        assert(forms_of(init@) + (done + Seq::<Form>::empty()) =~= forms_of(acc@));
                    }
                    return Ok((acc, q + 1));
                } else {
                    return Err(ParseError { position: q, kind: ParseErrorKind::ClosingParen });
                }
            },
            ParseOutcome::Failed(err) => {
                return Err(err);
            },
        }
    }
}

/// Model of one result of the reader: a form, or a failure at a position.
pub type ReadResult = Result<Form, (int, ParseErrorKind)>;

pub open spec fn result_model(r: Option<Result<Expr, ParseError>>) -> Option<ReadResult> {
    match r {
        None => None,
        Some(Ok(e)) => Some(Ok(e.view())),
        Some(Err(err)) => Some(Err((err.position as int, err.kind))),
    }
}

/// One request to the reader over `text`, at `pos`, finished or not: what
/// it yields, and the position and finished flag after it. A finished reader
/// or one at the end of its text yields nothing; a failure finishes it.
pub open spec fn reader_next(text: Seq<char>, pos: int, done: bool) -> (Option<ReadResult>, int, bool) {
    if done || pos >= text.len() {
        (None, pos, done)
    } else {
        match expr_step(text, pos) {
            Step::Matched(f, e) => (Some(Ok(f)), e, false),
            Step::Unmatched(q) => (Some(Err((q, ParseErrorKind::NoExpression))), pos, true),
            Step::Failed(x, k) => (Some(Err((x, k))), pos, true),
        }
    }
}

/// A lazy reader of the top-level forms of a text, one at a time. It stops
/// for good at the end of the text or after its first failure.
pub struct ExprIterator {
    chars: Vec<char>,
    pos: usize,
    done: bool,
}

impl ExprIterator {
    /// The text being read.
    pub closed spec fn text(&self) -> Seq<char> {
        self.chars@
    }

    /// Where the next form is read from.
    pub closed spec fn position(&self) -> int {
        self.pos as int
    }

    /// Whether a failure has ended the reading.
    pub closed spec fn is_done(&self) -> bool {
        self.done
    }

    pub closed spec fn wf(&self) -> bool {
        self.pos <= self.chars@.len()
    }

    /// A reader at the start of `input`.
    pub fn new(input: &str) -> (r: Self)
        ensures
            r.wf(),
            r.text() == input@,
            r.position() == 0,
            !r.is_done(),
    {
        ExprIterator { chars: chars_of(input), pos: 0, done: false }
    }

    /// The next top-level form, or the failure that ends the reading, or
    /// `None` once the reading is over.
    pub fn next(&mut self) -> (r: Option<Result<Expr, ParseError>>)
        requires
            old(self).wf(),
        ensures
            final(self).wf(),
            final(self).text() == old(self).text(),
            ({
                let (res, pos, done) = reader_next(
                    old(self).text(),
                    old(self).position(),
                    old(self).is_done(),
                );
                result_model(r) == res && final(self).position() == pos && final(self).is_done()
                    == done
            }),
    {
        if self.done || self.pos >= self.chars.len() {
            return None;
        }
        match parse_expr(&self.chars, self.pos) {
            ParseOutcome::Matched(e, end) => {
                self.pos = end;
                Some(Ok(e))
            },
            ParseOutcome::Unmatched(q) => {
                self.done = true;
                Some(Err(ParseError { position: q, kind: ParseErrorKind::NoExpression }))
            },
            ParseOutcome::Failed(err) => {
                self.done = true;
                Some(Err(err))
            },
        }
    }
}

/// A reader of the top-level forms of `s`.
pub fn read(s: &str) -> (r: ExprIterator)
    ensures
        r.wf(),
        r.text() == s@,
        r.position() == 0,
        !r.is_done(),
{
    ExprIterator::new(s)
}

proof fn lemma_symbol_end_all(t: Seq<char>, i: int)
    requires
        0 <= i <= t.len(),
        forall|j: int| 0 <= j < t.len() ==> is_symbol_char_spec(#[trigger] t[j]),
    ensures
        symbol_end(t, i) == t.len(),
    decreases t.len() - i,
{
    if i < t.len() {
        lemma_symbol_end_all(t, i + 1);
    }
}

/// A nonempty text of symbol characters that does not begin with `.` reads
/// as the symbol with exactly that text.
pub proof fn lemma_symbol_text(t: Seq<char>)
    requires
        t.len() > 0,
        t[0] != '.',
        forall|j: int| 0 <= j < t.len() ==> is_symbol_char_spec(#[trigger] t[j]),
    ensures
        symbol_step(t, 0) == Step::Matched(Form::Symbol(t), t.len() as int),
{
    lemma_symbol_end_all(t, 0);
    assert(t.subrange(0, t.len() as int) =~= t);
}

/// A symbol that begins with `.` reads as the callable for the method named
/// by the rest of it, never as a symbol.
pub proof fn lemma_dotted_symbol(t: Seq<char>)
    requires
        t.len() > 0,
        t[0] == '.',
        forall|j: int| 0 <= j < t.len() ==> is_symbol_char_spec(#[trigger] t[j]),
    ensures
        symbol_step(t, 0) == Step::Matched(method_call_form(t.drop_first()), t.len() as int),
{
    lemma_symbol_end_all(t, 0);
    assert(t.subrange(0, t.len() as int) =~= t);
}

proof fn lemma_plain_string_body(s: Seq<char>, b: Seq<char>, i: int)
    requires
        s == seq!['"'] + b + seq!['"'],
        1 <= i <= b.len() + 1,
        forall|j: int| 0 <= j < b.len() ==> #[trigger] b[j] != '\\' && b[j] != '"',
    ensures
        string_close(s, i) == Some(b.len() + 1int),
        string_text(s, i) == b.subrange(i - 1, b.len() as int),
    decreases b.len() + 1 - i,
{
    if i <= b.len() {
        assert(s[i] == b[i - 1]);
        lemma_plain_string_body(s, b, i + 1);
        assert(seq![s[i]] + b.subrange(i, b.len() as int) =~= b.subrange(i - 1, b.len() as int));
    } else {
        assert(b.subrange(i - 1, b.len() as int) =~= Seq::<char>::empty());
    }
}

/// A text with no backslash and no double quote, between double quotes,
/// reads as the string of exactly that text.
pub proof fn lemma_plain_string(b: Seq<char>)
    requires
        forall|j: int| 0 <= j < b.len() ==> #[trigger] b[j] != '\\' && b[j] != '"',
    ensures
        string_step(seq!['"'] + b + seq!['"'], 0) == Step::Matched(Form::Text(b), b.len() + 2int),
{
    let s = seq!['"'] + b + seq!['"'];
    lemma_plain_string_body(s, b, 1);
    assert(b.subrange(0, b.len() as int) =~= b);
}

/// Separators are ignored: blanks and comments before an expression do not
/// change what is read, and those after it are consumed with it.
pub proof fn lemma_separators_ignored(s: Seq<char>, p: int)
    requires
        0 <= p <= s.len(),
    ensures
        expr_step(s, skip(s, p)) == expr_step(s, p),
        expr_step(s, p) matches Step::Matched(_, e) ==> skip(s, e) == e,
{
    lemma_skip_idempotent(s, p);
    lemma_skip_from_bounds(s, p, false);
    if let Step::Matched(_, e) = expr_step(s, p) {
        let q = skip(s, p);
        let a = if char_is(s, q, '(') {
            list_step(items_step(s, q + 1))
        } else if char_is(s, q, '\'') || char_is(s, q, '^') {
            if char_is(s, q + 1, '(') {
                if s[q] == '^' {
                    tuple_step(items_step(s, q + 2))
                } else {
                    quote_step(items_step(s, q + 2))
                }
            } else {
                Step::Failed(q + 1, ParseErrorKind::OpeningParen)
            }
        } else {
            atom_step(s, q)
        };
        if let Step::Matched(_, e0) = a {
            lemma_skip_idempotent(s, e0);
        }
    }
}

/// A failure ends the reading: the request that yields it finishes the
/// reader, and every later request yields nothing and changes nothing.
pub proof fn lemma_failure_is_final(text: Seq<char>, pos: int, done: bool)
    requires
        reader_next(text, pos, done).0 matches Some(Err(_)),
    ensures
        ({
            let (_, p2, d2) = reader_next(text, pos, done);
            d2 && p2 == pos && reader_next(text, p2, d2) == (None::<ReadResult>, p2, d2)
        }),
{
}

/// An empty text yields nothing.
pub proof fn lemma_empty_text(done: bool)
    ensures
        reader_next(Seq::empty(), 0, done).0 is None,
{
}

} // verus!
