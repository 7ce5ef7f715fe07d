use duralade::model::NodeId;
use duralade::parse::basic::try_parse_ident;
use duralade::parse::ParseContext;

fn ctx(src: &str) -> ParseContext {
    ParseContext::new(src.as_bytes().to_vec(), "i.dl".chars().collect())
}

fn name_of(src: &str) -> (Option<(String, bool)>, usize) {
    let mut c = ctx(src);
    let r = try_parse_ident(&mut c);
    match r {
        Ok(Some(id)) => (Some((id.name.as_str().iter().collect(), id.is_raw)), c.pos()),
        Ok(None) => (None, c.pos()),
        Err(e) => panic!("unexpected error {:?}", e.message.iter().collect::<String>()),
    }
}

fn error_of(src: &str) -> (String, (usize, usize), Option<(usize, usize)>, usize) {
    let mut c = ctx(src);
    match try_parse_ident(&mut c) {
        Err(e) => (e.message.iter().collect(), e.consumed_range, e.error_range, c.pos()),
        _ => panic!("expected an error"),
    }
}

#[test]
fn plain_identifier_is_parsed_with_node() {
    let mut c = ctx("foo_bar1 x");
    let id = try_parse_ident(&mut c).ok().unwrap().unwrap();
    assert_eq!(id.name.as_str().iter().collect::<String>(), "foo_bar1");
    assert!(!id.is_raw);
    assert_eq!(id.node_id, NodeId(0));
    assert_eq!(c.pos(), 8);
    assert_eq!(c.node_span(NodeId(0)), (0, 8));
}

#[test]
fn non_identifier_consumes_nothing() {
    assert_eq!(name_of("+x"), (None, 0));
    assert_eq!(name_of(""), (None, 0));
    assert_eq!(name_of("``raw string``"), (None, 0));
}

#[test]
fn uppercase_letter_is_reported_at_its_place() {
    let (msg, range, under, pos) = error_of("fooBar = 1");
    assert_eq!(msg, "Unexpected character 'B' in identifier 'fooBar' (must be lowercase, digits, or underscore)");
    assert_eq!(range, (0, 6));
    assert_eq!(under, Some((3, 4)));
    assert_eq!(pos, 6);
}

#[test]
fn leading_digit_is_reported() {
    let (msg, range, under, _) = error_of("1abc");
    assert_eq!(msg, "Identifier '1abc' cannot start with a digit");
    assert_eq!(range, (0, 4));
    assert_eq!(under, Some((0, 1)));
}

#[test]
fn kebab_case_is_consumed_and_reported() {
    let (msg, range, under, pos) = error_of("foo-bar baz");
    assert_eq!(msg, "Unexpected character '-' in identifier 'foo-bar' (must be lowercase, digits, or underscore)");
    assert_eq!(range, (0, 7));
    assert_eq!(under, Some((3, 4)));
    assert_eq!(pos, 7);
}

#[test]
fn unicode_letters_follow_their_case() {
    assert_eq!(name_of("café x"), (Some(("café".to_string(), false)), 5));
    let (msg, _, under, _) = error_of("aÄb");
    assert_eq!(msg, "Unexpected character 'Ä' in identifier 'aÄb' (must be lowercase, digits, or underscore)");
    assert_eq!(under, Some((1, 3)));
}

#[test]
fn raw_identifier_with_escaped_backtick() {
    assert_eq!(name_of("`raw name` x"), (Some(("raw name".to_string(), true)), 10));
    assert_eq!(name_of("`a``b`"), (Some(("a`b".to_string(), true)), 6));
    assert_eq!(name_of("`If`"), (Some(("If".to_string(), true)), 4));
}

#[test]
fn unterminated_raw_identifier_is_reported() {
    let (msg, range, under, pos) = error_of("`abc");
    assert_eq!(msg, "Unterminated raw identifier");
    assert_eq!(range, (0, 4));
    assert_eq!(under, Some((0, 4)));
    assert_eq!(pos, 4);
}

fn path_names(src: &str) -> (Result<Vec<String>, (String, (usize, usize), Option<(usize, usize)>)>, usize) {
    let mut c = ctx(src);
    let r = c.parse_qualified_ident();
    let out = match r {
        Ok(ids) => Ok(ids.iter().map(|i| i.name.as_str().iter().collect()).collect()),
        Err(e) => Err((e.message.iter().collect(), e.consumed_range, e.error_range)),
    };
    (out, c.pos())
}

#[test]
fn dotted_path_is_parsed_segment_by_segment() {
    let (r, pos) = path_names("duralade.admin.roles x");
    assert_eq!(r, Ok(vec!["duralade".to_string(), "admin".to_string(), "roles".to_string()]));
    assert_eq!(pos, 20);
}

#[test]
fn missing_segment_is_reported_where_expected() {
    let (r, pos) = path_names("a..b");
    assert_eq!(r, Err(("Expected identifier".to_string(), (0, 2), Some((2, 3)))));
    assert_eq!(pos, 2);
}

#[test]
fn bad_segment_error_is_passed_on() {
    let (r, _) = path_names("a.Bc");
    let (msg, range, under) = r.err().unwrap();
    assert_eq!(msg, "Unexpected character 'B' in identifier 'Bc' (must be lowercase, digits, or underscore)");
    assert_eq!(range, (2, 4));
    assert_eq!(under, Some((2, 3)));
}

#[test]
fn missing_segment_at_end_underlines_the_last_character() {
    let (r, pos) = path_names("a.");
    assert_eq!(r, Err(("Expected identifier".to_string(), (0, 2), Some((1, 2)))));
    assert_eq!(pos, 2);
}
