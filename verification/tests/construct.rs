use duralade::parse::construct::{expect_open_brace, parse_construct_header, parse_modifiers, starts_with_keyword, ConstructModifiers};
use duralade::parse::ParseContext;

fn ctx(src: &str) -> ParseContext {
    ParseContext::new(src.as_bytes().to_vec(), "t.dl".chars().collect())
}

fn s(c: &[char]) -> String {
    c.iter().collect()
}

fn errors(c: &ParseContext) -> Vec<(String, (usize, usize))> {
    c.parse_errors.iter().map(|e| (s(&e.message), e.consumed_range)).collect()
}

fn strict(c: &ParseContext) -> Vec<(String, (usize, usize))> {
    c.strict_mode_violations.iter().map(|e| (s(&e.message), e.consumed_range)).collect()
}

fn none() -> ConstructModifiers {
    ConstructModifiers { out: None, builtin: None, view: None, noblock: None }
}

#[test]
fn keywords_stand_as_whole_words() {
    assert!(starts_with_keyword(b"out x", "out"));
    assert!(starts_with_keyword(b"out", "out"));
    assert!(starts_with_keyword(b"out!", "out"));
    assert!(!starts_with_keyword(b"outer", "out"));
    assert!(!starts_with_keyword(b"out_x", "out"));
    assert!(!starts_with_keyword(b"ou", "out"));
}

#[test]
fn header_keyword_and_name() {
    let mut c = ctx("data foo {");
    let h = parse_construct_header(&mut c, none());
    assert_eq!(s(&h.keyword), "data");
    assert_eq!(h.keyword_span, (0, 4));
    assert_eq!(s(h.name.name.as_str()), "foo");
    assert!(h.errors.is_empty());
    assert_eq!(c.pos(), 8);
    assert!(strict(&c).is_empty());
}

#[test]
fn header_wants_one_space_after_keyword() {
    let mut c = ctx("func  run {");
    let h = parse_construct_header(&mut c, none());
    assert_eq!(s(h.name.name.as_str()), "run");
    assert_eq!(strict(&c), vec![("Expected exactly one space after 'func'".to_string(), (4, 6))]);
}

#[test]
fn header_without_name() {
    let mut c = ctx("data {");
    let h = parse_construct_header(&mut c, none());
    assert_eq!(s(h.name.name.as_str()), "<unknown>");
    assert_eq!(h.errors.len(), 1);
    assert_eq!(s(&h.errors[0].message), "Expected identifier after 'data'");
    assert_eq!(c.node_span(h.name.node_id), (5, 5));
}

#[test]
fn header_with_bad_name_keeps_the_error() {
    let mut c = ctx("data Foo {");
    let h = parse_construct_header(&mut c, none());
    assert_eq!(s(h.name.name.as_str()), "<unknown>");
    assert_eq!(h.errors.len(), 1);
    assert_eq!(h.errors[0].consumed_range, (5, 8));
}

#[test]
fn open_brace_after_one_space() {
    let mut c = ctx(" {");
    assert!(expect_open_brace(&mut c, "data"));
    assert_eq!(c.pos(), 1);
    assert!(strict(&c).is_empty());

    let mut c = ctx("   {");
    assert!(expect_open_brace(&mut c, "data"));
    assert_eq!(strict(&c), vec![("Expected exactly one space before '{'".to_string(), (0, 3))]);
}

#[test]
fn missing_open_brace_skips_the_line() {
    let mut c = ctx(" x y\nnext");
    assert!(!expect_open_brace(&mut c, "data"));
    assert_eq!(errors(&c), vec![("Expected '{' in data".to_string(), (1, 2))]);
    assert_eq!(c.pos(), 5);
}

#[test]
fn modifiers_in_order() {
    let mut c = ctx("out view data x");
    let m = parse_modifiers(&mut c, false);
    assert_eq!(m.out, Some((0, 3)));
    assert_eq!(m.builtin, None);
    assert_eq!(m.view, Some((4, 8)));
    assert_eq!(m.noblock, None);
    assert_eq!(c.pos(), 9);
    assert!(strict(&c).is_empty());
}

#[test]
fn builtin_needs_permission() {
    let mut c = ctx("builtin noblock func f");
    let m = parse_modifiers(&mut c, false);
    assert_eq!(m.builtin, Some((0, 7)));
    assert_eq!(m.noblock, Some((8, 15)));
    assert_eq!(
        errors(&c),
        vec![("'builtin' requires allow_builtin = true in duralade.toml".to_string(), (0, 7))]
    );

    let mut c = ctx("builtin func f");
    let m = parse_modifiers(&mut c, true);
    assert_eq!(m.builtin, Some((0, 7)));
    assert!(errors(&c).is_empty());
}

#[test]
fn out_bang_and_longer_words_are_no_modifiers() {
    let mut c = ctx("out! x: int");
    let m = parse_modifiers(&mut c, false);
    assert_eq!(m.out, None);
    assert_eq!(c.pos(), 0);

    let mut c = ctx("outer x");
    let m = parse_modifiers(&mut c, false);
    assert_eq!(m.out, None);
    assert_eq!(c.pos(), 0);
}

#[test]
fn modifier_spacing_is_strict() {
    let mut c = ctx("view  data x");
    let m = parse_modifiers(&mut c, false);
    assert_eq!(m.view, Some((0, 4)));
    assert_eq!(strict(&c), vec![("Expected exactly one space after 'view'".to_string(), (4, 6))]);
}
