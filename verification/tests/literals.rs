use duralade::model::{Expr, ExprBinaryOp, ExprLiteralKind};
use duralade::parse::literals::{binary_op_precedence, parse_number, parse_string_raw, try_parse_binary_op};
use duralade::parse::strings::{parse_hex_escape, parse_string_quoted};
use duralade::parse::ParseContext;

fn ctx(src: &str) -> ParseContext {
    ParseContext::new(src.as_bytes().to_vec(), "t.dl".chars().collect())
}

fn s(c: &[char]) -> String {
    c.iter().collect()
}

fn errors(c: &ParseContext) -> Vec<(String, (usize, usize))> {
    c.parse_errors.iter().map(|e| (s(&e.message), e.consumed_range)).collect()
}

fn strict(c: &ParseContext) -> Vec<(String, (usize, usize))> {
    c.strict_mode_violations.iter().map(|e| (s(&e.message), e.consumed_range)).collect()
}

fn str_value(e: &Expr) -> String {
    match e {
        Expr::Literal(l) => match &l.kind {
            ExprLiteralKind::Str(v) => s(v),
            k => panic!("expected a string literal, got {:?}", k),
        },
        _ => panic!("expected a literal"),
    }
}

fn number(e: &Expr) -> (bool, String) {
    match e {
        Expr::Literal(l) => match &l.kind {
            ExprLiteralKind::Int(v) => (false, s(v)),
            ExprLiteralKind::Float(v) => (true, s(v)),
            k => panic!("expected a number, got {:?}", k),
        },
        _ => panic!("expected a literal"),
    }
}

#[test]
fn binary_operators_are_recognised() {
    assert_eq!(try_parse_binary_op(b"== x"), Some((ExprBinaryOp::Eq, 2)));
    assert_eq!(try_parse_binary_op(b"!=1"), Some((ExprBinaryOp::Ne, 2)));
    assert_eq!(try_parse_binary_op(b"<=1"), Some((ExprBinaryOp::Le, 2)));
    assert_eq!(try_parse_binary_op(b"?? 0"), Some((ExprBinaryOp::NilCoalesce, 2)));
    assert_eq!(try_parse_binary_op(b"&& b"), Some((ExprBinaryOp::And, 2)));
    assert_eq!(try_parse_binary_op(b"+ 1"), Some((ExprBinaryOp::Add, 1)));
    assert_eq!(try_parse_binary_op(b"+= 1"), None);
    assert_eq!(try_parse_binary_op(b"%= 1"), None);
    assert_eq!(try_parse_binary_op(b"< b"), Some((ExprBinaryOp::Lt, 1)));
    assert_eq!(try_parse_binary_op(b"> b"), Some((ExprBinaryOp::Gt, 1)));
    assert_eq!(try_parse_binary_op(b"x"), None);
    assert_eq!(try_parse_binary_op(b""), None);
}

#[test]
fn precedences_order_the_operators() {
    assert_eq!(binary_op_precedence(&ExprBinaryOp::NilCoalesce), 1);
    assert_eq!(binary_op_precedence(&ExprBinaryOp::Or), 2);
    assert_eq!(binary_op_precedence(&ExprBinaryOp::And), 3);
    assert_eq!(binary_op_precedence(&ExprBinaryOp::Ne), 4);
    assert_eq!(binary_op_precedence(&ExprBinaryOp::Ge), 5);
    assert_eq!(binary_op_precedence(&ExprBinaryOp::Sub), 6);
    assert_eq!(binary_op_precedence(&ExprBinaryOp::Mod), 7);
}

#[test]
fn numbers_parse_with_grouping_checked() {
    let mut c = ctx("1_000.5 rest");
    let e = parse_number(&mut c);
    assert_eq!(number(&e), (true, "1_000.5".to_string()));
    assert_eq!(c.pos(), 7);
    assert_eq!(c.node_span(e.node_id()), (0, 7));
    assert!(strict(&c).is_empty());

    let mut c = ctx("1000");
    let e = parse_number(&mut c);
    assert_eq!(number(&e), (false, "1000".to_string()));
    assert_eq!(strict(&c), vec![("Number should be formatted as 1_000".to_string(), (0, 4))]);
}

#[test]
fn a_dot_without_digit_ends_the_number() {
    let mut c = ctx("3.len");
    let e = parse_number(&mut c);
    assert_eq!(number(&e), (false, "3".to_string()));
    assert_eq!(c.pos(), 1);

    let mut c = ctx("1.2.3");
    let e = parse_number(&mut c);
    assert_eq!(number(&e), (true, "1.2".to_string()));
    assert_eq!(c.pos(), 3);
}

#[test]
fn raw_strings_close_on_the_same_run_of_backticks() {
    let mut c = ctx("``ab`c`` rest");
    let e = parse_string_raw(&mut c);
    assert_eq!(str_value(&e), "ab`c");
    assert_eq!(c.pos(), 8);
    assert!(errors(&c).is_empty());
}

#[test]
fn raw_strings_may_span_lines() {
    let mut c = ctx("``a\nbc`` x");
    let e = parse_string_raw(&mut c);
    assert_eq!(str_value(&e), "a\nbc");
    assert_eq!(c.pos(), 8);
    assert_eq!(c.line_start, 4);
}

#[test]
fn unterminated_raw_string_stops_at_line_end() {
    let mut c = ctx("``abc\ndef");
    let e = parse_string_raw(&mut c);
    assert_eq!(str_value(&e), "abc");
    assert_eq!(c.pos(), 5);
    assert_eq!(errors(&c), vec![("Unterminated raw string literal".to_string(), (0, 5))]);
}

#[test]
fn quoted_string_escapes() {
    let mut c = ctx("\"a\\nb\\t\\\\\\\"\\0\" x");
    let e = parse_string_quoted(&mut c);
    assert_eq!(str_value(&e), "a\nb\t\\\"\0");
    assert_eq!(c.pos(), 14);
    assert!(errors(&c).is_empty());
    assert_eq!(c.node_span(e.node_id()), (0, 14));
}

#[test]
fn quoted_string_hex_escapes() {
    let mut c = ctx("\"\\x41\\u00e9\\U0001f600\"");
    let e = parse_string_quoted(&mut c);
    assert_eq!(str_value(&e), "A\u{e9}\u{1F600}");
    assert!(errors(&c).is_empty());
    assert!(strict(&c).is_empty());
}

#[test]
fn uppercase_hex_digits_are_a_violation() {
    let mut c = ctx("\"\\x4F\"");
    let e = parse_string_quoted(&mut c);
    assert_eq!(str_value(&e), "O");
    assert_eq!(strict(&c), vec![("Hex digits in escape sequences must be lowercase".to_string(), (3, 5))]);
}

#[test]
fn bad_hex_escapes_are_errors() {
    let mut c = ctx("\"\\ud800\"");
    let e = parse_string_quoted(&mut c);
    assert_eq!(str_value(&e), "");
    assert_eq!(errors(&c), vec![("Invalid Unicode code point: U+D800".to_string(), (1, 7))]);

    let mut c = ctx("\"\\x4\"");
    let e = parse_string_quoted(&mut c);
    assert_eq!(str_value(&e), "");
    assert_eq!(errors(&c), vec![("Expected 2 hex digits in escape sequence".to_string(), (1, 4))]);
    assert_eq!(c.pos(), 5);

    let mut c = ctx("\"\\U110000AA\"");
    parse_string_quoted(&mut c);
    assert_eq!(errors(&c), vec![("Invalid Unicode code point: U+110000AA".to_string(), (1, 11))]);
}

#[test]
fn unknown_escape_is_kept_and_reported() {
    let mut c = ctx("\"\\q\"");
    let e = parse_string_quoted(&mut c);
    assert_eq!(str_value(&e), "q");
    assert_eq!(errors(&c), vec![("Unknown escape sequence '\\q'".to_string(), (1, 3))]);
}

#[test]
fn unterminated_quoted_string_points_at_its_quote() {
    let mut c = ctx("\"abc");
    let e = parse_string_quoted(&mut c);
    assert_eq!(str_value(&e), "abc");
    assert_eq!(c.pos(), 4);
    assert_eq!(errors(&c), vec![("Unterminated string literal".to_string(), (0, 4))]);
    assert_eq!(c.parse_errors[0].error_range, Some((0, 1)));

    let mut c = ctx("\"ab\ncd\"");
    let e = parse_string_quoted(&mut c);
    assert_eq!(str_value(&e), "ab");
    assert_eq!(c.pos(), 3);
}

#[test]
fn hex_escape_digits_alone() {
    let mut c = ctx("e9z");
    let mut v: Vec<char> = Vec::new();
    parse_hex_escape(&mut c, 0, 2, &mut v);
    assert_eq!(v, vec!['\u{e9}']);
    assert_eq!(c.pos(), 2);
}
