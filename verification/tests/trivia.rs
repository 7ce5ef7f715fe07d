use duralade::model::NodeId;
use duralade::parse::{ParseContext, ParseError};

fn ctx(src: &str) -> ParseContext {
    ParseContext::new(src.as_bytes().to_vec(), "test.dl".chars().collect())
}

fn chars(s: &str) -> Vec<char> {
    s.chars().collect()
}

fn text(e: &ParseError) -> String {
    e.message.iter().collect()
}

#[test]
fn trivia_reports_trailing_space_and_second_blank_line() {
    let mut c = ctx("  \n\n\nfoo");
    let skipped = c.parse_trivia();
    assert_eq!(skipped, b"  \n\n\n".to_vec());
    assert_eq!(c.pos(), 5);
    assert!(c.trivia_had_blank_line);
    assert_eq!(c.strict_mode_violations.len(), 2);
    assert_eq!(text(&c.strict_mode_violations[0]), "Trailing whitespace");
    assert_eq!(c.strict_mode_violations[0].consumed_range, (0, 2));
    assert_eq!(text(&c.strict_mode_violations[1]), "Multiple consecutive blank lines");
    assert_eq!(c.strict_mode_violations[1].consumed_range, (3, 4));
    assert!(c.parse_errors.is_empty());
    assert_eq!(c.line_start, 5);
}

#[test]
fn trivia_joins_consecutive_comment_lines_into_one_block() {
    let mut c = ctx("# a\n# b\nx");
    c.parse_trivia();
    assert_eq!(c.pos(), 8);
    assert!(c.strict_mode_violations.is_empty());
    assert_eq!(c.comments.len(), 1);
    let block = &c.comments[0];
    assert_eq!(block.node_id, NodeId(1));
    assert_eq!(block.lines.len(), 2);
    assert_eq!(block.lines[0].text, chars("a"));
    assert_eq!(block.lines[0].node_id, NodeId(0));
    assert_eq!(block.lines[1].text, chars("b"));
    assert_eq!(block.lines[1].node_id, NodeId(2));
    assert_eq!(c.node_span(NodeId(1)), (0, 7));
    assert_eq!(c.node_span(NodeId(2)), (4, 7));
}

#[test]
fn trivia_blank_line_ends_a_comment_block() {
    let mut c = ctx("# a\n\n# b\nx");
    c.parse_trivia();
    assert_eq!(c.comments.len(), 2);
    assert_eq!(c.comments[0].lines.len(), 1);
    assert_eq!(c.comments[1].lines.len(), 1);
    assert_eq!(c.comments[1].lines[0].text, chars("b"));
}

#[test]
fn trivia_requires_space_after_hash() {
    let mut c = ctx("#nospace\n");
    c.parse_trivia();
    assert_eq!(c.strict_mode_violations.len(), 1);
    assert_eq!(text(&c.strict_mode_violations[0]), "Space required after '#'");
    assert_eq!(c.strict_mode_violations[0].consumed_range, (0, 1));
    assert_eq!(c.comments[0].lines[0].text, chars("nospace"));
}

#[test]
fn trivia_reports_trailing_space_inside_comment() {
    let mut c = ctx("# hi  \n");
    c.parse_trivia();
    assert_eq!(c.strict_mode_violations.len(), 1);
    assert_eq!(text(&c.strict_mode_violations[0]), "Trailing whitespace");
    assert_eq!(c.strict_mode_violations[0].consumed_range, (4, 6));
    assert_eq!(c.comments[0].lines[0].text, chars("hi"));
}

#[test]
fn trivia_reports_tab_as_invalid_whitespace() {
    let mut c = ctx("\tx");
    let skipped = c.parse_trivia();
    assert_eq!(skipped, b"\t".to_vec());
    assert_eq!(c.parse_errors.len(), 1);
    assert_eq!(text(&c.parse_errors[0]), "Invalid whitespace characters");
    assert_eq!(c.parse_errors[0].consumed_range, (0, 1));
    assert!(c.strict_mode_violations.is_empty());
}

#[test]
fn trivia_reports_unicode_whitespace_run() {
    // U+00A0 then U+3000, then content.
    let mut c = ctx("\u{a0}\u{3000}x");
    c.parse_trivia();
    assert_eq!(c.parse_errors.len(), 1);
    assert_eq!(c.parse_errors[0].consumed_range, (0, 5));
    assert_eq!(c.pos(), 5);
}

#[test]
fn trivia_reports_trailing_space_at_end_of_file() {
    let mut c = ctx("x  ");
    c.set_pos(1);
    c.parse_trivia();
    assert_eq!(c.pos(), 3);
    assert_eq!(c.strict_mode_violations.len(), 1);
    assert_eq!(text(&c.strict_mode_violations[0]), "Trailing whitespace at end of file");
    assert_eq!(c.strict_mode_violations[0].consumed_range, (1, 3));
}

#[test]
fn trivia_checks_indentation_of_content() {
    let mut c = ctx("   y");
    c.parse_trivia();
    assert_eq!(c.pos(), 3);
    assert_eq!(c.strict_mode_violations.len(), 1);
    assert_eq!(text(&c.strict_mode_violations[0]), "Expected 0 spaces, found 3");
    assert_eq!(c.strict_mode_violations[0].consumed_range, (0, 3));
}

#[test]
fn trivia_lets_matching_closer_stand_one_level_out() {
    let mut c = ctx("{\n}");
    c.indent(duralade::parse::IndentOpener::Brace);
    c.set_pos(1);
    c.parse_trivia();
    assert_eq!(c.pos(), 2);
    assert!(c.strict_mode_violations.is_empty());

    let mut d = ctx("{\nx");
    d.indent(duralade::parse::IndentOpener::Brace);
    d.set_pos(1);
    d.parse_trivia();
    assert_eq!(d.strict_mode_violations.len(), 1);
    assert_eq!(text(&d.strict_mode_violations[0]), "Expected 4 spaces, found 0");
    assert_eq!(d.strict_mode_violations[0].consumed_range, (2, 3));
}

#[test]
fn trivia_skips_patch_directive_indentation() {
    let mut c = ctx("  %patch");
    c.parse_trivia();
    assert!(c.strict_mode_violations.is_empty());
    assert_eq!(c.pos(), 2);
}

#[test]
fn trivia_rejects_comment_after_content() {
    let mut c = ctx("a # c\n");
    c.set_pos(1);
    c.parse_trivia();
    assert_eq!(c.strict_mode_violations.len(), 1);
    assert_eq!(text(&c.strict_mode_violations[0]), "Comment must be on its own line");
    assert_eq!(c.strict_mode_violations[0].consumed_range, (2, 3));
}

#[test]
fn trivia_treats_crlf_as_line_ending() {
    let mut c = ctx("a  \r\nb");
    c.set_pos(1);
    c.parse_trivia();
    assert_eq!(c.pos(), 5);
    assert_eq!(c.strict_mode_violations.len(), 1);
    assert_eq!(c.strict_mode_violations[0].consumed_range, (1, 4));
    assert!(c.parse_errors.is_empty());
}

#[test]
fn trivia_reports_long_line_with_break_point() {
    let long = format!("# {}\n", "word ".repeat(30));
    let mut c = ctx(&long);
    c.parse_trivia();
    let msgs: Vec<String> = c.strict_mode_violations.iter().map(text).collect();
    assert!(msgs.contains(&"Line exceeds 120 characters".to_string()));
}
