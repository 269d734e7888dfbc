use sexp_reader::{
    ignored_input, parse_bool, parse_expr, parse_num, parse_string, parse_symbol, read, Decimal,
    Expr, ExprIterator, Function, ParseError, ParseErrorKind, ParseOutcome,
};

fn chars(s: &str) -> Vec<char> {
    s.chars().collect()
}

fn num(negative: bool, digits: &[u8], exponent: i128) -> Expr {
    Expr::Num(Decimal { negative, digits: digits.to_vec(), exponent })
}

fn sym(s: &str) -> Expr {
    Expr::Symbol(s.to_string())
}

fn matched(e: Expr, end: usize) -> ParseOutcome {
    ParseOutcome::Matched(e, end)
}

fn expr_of(s: &str) -> Expr {
    match parse_expr(&chars(s), 0) {
        ParseOutcome::Matched(e, end) => {
            assert_eq!(end, s.chars().count());
            e
        }
        other => panic!("no expression in {:?}: {:?}", s, other),
    }
}

fn failed(position: usize, kind: ParseErrorKind) -> ParseOutcome {
    ParseOutcome::Failed(ParseError { position, kind })
}

#[test]
fn parse_floats() {
    assert_eq!(parse_num(&chars("1"), 0), matched(num(false, &[1], 0), 1));
    assert_eq!(parse_num(&chars("1.0"), 0), matched(num(false, &[1], 0), 3));
    assert_eq!(parse_num(&chars("1.1"), 0), matched(num(false, &[1, 1], -1), 3));
    assert_eq!(parse_num(&chars("-1.1"), 0), matched(num(true, &[1, 1], -1), 4));
    assert_eq!(parse_num(&chars("-0.1"), 0), matched(num(true, &[1], -1), 4));
}

#[test]
fn parse_sym() {
    for s in ["abc", "abc1", "empty?", "test", "foo-bar", "-foobar"] {
        assert_eq!(parse_symbol(&chars(s), 0), matched(sym(s), s.len()));
    }
}

#[test]
fn parse_str() {
    let cases = [
        (r#""1""#, "1"),
        (r#""""#, ""),
        (r#""hello-world""#, "hello-world"),
        (r#""hello world""#, "hello world"),
        (r#""hello? world""#, "hello? world"),
    ];
    for (text, value) in cases {
        assert_eq!(
            parse_string(&chars(text), 0),
            matched(Expr::String(value.to_string()), text.len())
        );
    }
}

#[test]
fn parse_ex() {
    assert_eq!(expr_of("1"), num(false, &[1], 0));
    assert_eq!(expr_of(r#""hello? world""#), Expr::String("hello? world".to_string()));
    assert_eq!(expr_of(r#""1""#), Expr::String("1".to_string()));
    assert_eq!(expr_of(r#""""#), Expr::String("".to_string()));
    assert_eq!(expr_of(r#""hello-world""#), Expr::String("hello-world".to_string()));
    assert_eq!(expr_of(r#""hello world""#), Expr::String("hello world".to_string()));
    assert_eq!(expr_of(r#""hello? world""#), Expr::String("hello? world".to_string()));
    assert_eq!(expr_of("; hello\n\n\n1"), num(false, &[1], 0));
    assert_eq!(expr_of("1 ; hello"), num(false, &[1], 0));
    assert_eq!(
        expr_of("(+ 1 1)"),
        Expr::List(vec![sym("+"), num(false, &[1], 0), num(false, &[1], 0)])
    );
}

#[test]
fn parse_ignored_input() {
    for s in ["; hello\n", "; hello", ";hello", " ; hello"] {
        assert_eq!(ignored_input(&chars(s), 0), s.len());
    }
    assert_eq!(ignored_input(&chars("hello"), 0), 0);
    assert_eq!(ignored_input(&chars(" hello"), 0), 1);
}

#[test]
fn test_expr_iterator() {
    let mut iter = ExprIterator::new("1 ; hello");
    let next = iter.next();
    assert!(next.is_some());
    assert_eq!(next.unwrap().unwrap(), num(false, &[1], 0));
    assert!(iter.next().is_none());
}

#[test]
fn numbers_are_exact_and_canonical() {
    assert_eq!(parse_num(&chars("100"), 0), matched(num(false, &[1], 2), 3));
    assert_eq!(parse_num(&chars("1e3"), 0), matched(num(false, &[1], 3), 3));
    assert_eq!(parse_num(&chars("1.5E-2"), 0), matched(num(false, &[1, 5], -3), 6));
    assert_eq!(parse_num(&chars("+.5"), 0), matched(num(false, &[5], -1), 3));
    assert_eq!(parse_num(&chars("007.250"), 0), matched(num(false, &[7, 2, 5], -2), 7));
    assert_eq!(parse_num(&chars("1."), 0), matched(num(false, &[1], 0), 2));
    assert_eq!(parse_num(&chars("-0.000"), 0), matched(num(false, &[], 0), 6));
    assert_eq!(
        parse_num(&chars("0.1000000000000000000000000000001"), 0),
        matched(
            num(false, &[1, 0, 0, 0, 0, 0, 0, 0, 0, 0, 0, 0, 0, 0, 0, 0, 0, 0, 0, 0, 0, 0, 0, 0, 0, 0, 0, 0, 0, 0, 1], -31),
            33
        )
    );
    assert_eq!(expr_of("1.0"), expr_of("1"));
}

#[test]
fn number_edge_cases() {
    assert_eq!(parse_num(&chars("1e"), 0), failed(2, ParseErrorKind::ExponentDigits));
    assert_eq!(parse_num(&chars("2E+x"), 0), failed(3, ParseErrorKind::ExponentDigits));
    assert_eq!(parse_num(&chars("-foo"), 0), ParseOutcome::Unmatched(0));
    assert_eq!(parse_num(&chars("."), 0), ParseOutcome::Unmatched(0));
    assert_eq!(parse_num(&chars("1e99999999999999999999"), 0), ParseOutcome::Unmatched(0));
    assert_eq!(
        parse_num(&chars("1e-9223372036854775808"), 0),
        matched(num(false, &[1], -9223372036854775808), 22)
    );
    assert_eq!(parse_num(&chars("12abc"), 0), matched(num(false, &[1, 2], 0), 2));
}

#[test]
fn symbols_keep_their_text() {
    assert_eq!(parse_symbol(&chars("foo-bar"), 0), matched(sym("foo-bar"), 7));
    assert_eq!(parse_symbol(&chars("a(b"), 0), matched(sym("a"), 1));
    assert_eq!(parse_symbol(&chars("λx y"), 0), matched(sym("λx"), 2));
    assert_eq!(parse_symbol(&chars("(a"), 0), ParseOutcome::Unmatched(0));
    assert_eq!(parse_symbol(&chars(""), 0), ParseOutcome::Unmatched(0));
    assert_eq!(parse_symbol(&chars("a\u{a0}b"), 0), matched(sym("a"), 1));
}

#[test]
fn strings_unescape_quotes() {
    assert_eq!(
        parse_string(&chars(r#""a\"b" c"#), 0),
        matched(Expr::String("a\"b".to_string()), 6)
    );
    assert_eq!(parse_string(&chars("\"\""), 0), matched(Expr::String(String::new()), 2));
    assert_eq!(parse_string(&chars("\"abc"), 0), ParseOutcome::Unmatched(0));
    assert_eq!(parse_string(&chars(r#""a\nb""#), 0), ParseOutcome::Unmatched(0));
    assert_eq!(parse_string(&chars("abc"), 0), ParseOutcome::Unmatched(0));
}

#[test]
fn booleans_match_as_prefixes() {
    assert_eq!(parse_bool(&chars("true"), 0), matched(Expr::Bool(true), 4));
    assert_eq!(parse_bool(&chars("false)"), 0), matched(Expr::Bool(false), 5));
    assert_eq!(parse_bool(&chars("trueish"), 0), matched(Expr::Bool(true), 4));
    assert_eq!(parse_bool(&chars("tru"), 0), ParseOutcome::Unmatched(0));
    assert_eq!(expr_of("true"), Expr::Bool(true));
}

#[test]
fn forms_separated_by_comments_and_blanks() {
    let mut iter = read("1 ; hello\n\n\n1");
    assert_eq!(iter.next(), Some(Ok(num(false, &[1], 0))));
    assert_eq!(iter.next(), Some(Ok(num(false, &[1], 0))));
    assert_eq!(iter.next(), None);

    let mut iter = read("; a\n; b\n\t(x)  ;c\n\"s\"; d");
    assert_eq!(iter.next(), Some(Ok(Expr::List(vec![sym("x")]))));
    assert_eq!(iter.next(), Some(Ok(Expr::String("s".to_string()))));
    assert_eq!(iter.next(), None);
}

#[test]
fn tuple_sugar_is_a_tuple_call() {
    assert_eq!(expr_of("^(a b)"), expr_of("(tuple a b)"));
    assert_eq!(expr_of("^(a b)"), Expr::List(vec![sym("tuple"), sym("a"), sym("b")]));
    assert_eq!(expr_of("^()"), Expr::List(vec![sym("tuple")]));
    assert_eq!(parse_expr(&chars("^a"), 0), failed(1, ParseErrorKind::OpeningParen));
}

#[test]
fn quote_is_not_a_list() {
    let q = expr_of("'(a b)");
    assert_eq!(q, Expr::Quote(vec![sym("a"), sym("b")]));
    assert_ne!(q, expr_of("(a b)"));
    assert_eq!(expr_of("'()"), Expr::Quote(vec![]));
    assert_eq!(parse_expr(&chars("'a"), 0), failed(1, ParseErrorKind::OpeningParen));
}

#[test]
fn dotted_symbol_is_a_method_call() {
    let f = Function {
        name: "method_call<foo>".to_string(),
        min_arity: 1,
        variadic: true,
        method: "foo".to_string(),
    };
    assert_eq!(expr_of(".foo"), Expr::Function(f));
    match expr_of(".") {
        Expr::Function(g) => {
            assert_eq!(g.name, "method_call<>");
            assert_eq!(g.method, "");
        }
        other => panic!("not a function: {:?}", other),
    }
    assert_ne!(expr_of(".foo"), sym(".foo"));
}

#[test]
fn unterminated_form_ends_reading() {
    let mut iter = read("(+ 1 1\n2 3");
    assert_eq!(
        iter.next(),
        Some(Err(ParseError { position: 10, kind: ParseErrorKind::ClosingParen }))
    );
    assert_eq!(iter.next(), None);
    assert_eq!(iter.next(), None);

    let mut iter = read("1 ) 2");
    assert_eq!(iter.next(), Some(Ok(num(false, &[1], 0))));
    let err = iter.next().unwrap().unwrap_err();
    assert_eq!(err, ParseError { position: 2, kind: ParseErrorKind::NoExpression });
    assert_eq!(err.message(), "expected an expression");
    assert_eq!(iter.next(), None);
}

#[test]
fn empty_input_reads_nothing() {
    let mut iter = read("");
    assert_eq!(iter.next(), None);
    let mut iter = read("   ");
    assert!(matches!(iter.next(), Some(Err(_))));
}

#[test]
fn nested_forms() {
    assert_eq!(
        expr_of("(define (f x) '(1 \"two\" false))"),
        Expr::List(vec![
            sym("define"),
            Expr::List(vec![sym("f"), sym("x")]),
            Expr::Quote(vec![num(false, &[1], 0), Expr::String("two".to_string()), Expr::Bool(false)]),
        ])
    );
    assert_eq!(parse_expr(&chars("((a)"), 0), failed(4, ParseErrorKind::ClosingParen));
    assert_eq!(parse_expr(&chars("(1e)"), 0), failed(3, ParseErrorKind::ExponentDigits));
}
