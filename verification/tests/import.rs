use duralade::model::NodeId;
use duralade::parse::source::try_parse_import;
use duralade::parse::{ParseContext, ParseError};

fn ctx(src: &str) -> ParseContext {
    ParseContext::new(src.as_bytes().to_vec(), "m.dl".chars().collect())
}

fn s(c: &[char]) -> String {
    c.iter().collect()
}

fn msgs(v: &[ParseError]) -> Vec<String> {
    v.iter().map(|e| s(&e.message)).collect()
}

#[test]
fn import_with_path_only() {
    let mut c = ctx("import duralade.error\nx");
    let imp = try_parse_import(&mut c).ok().unwrap().unwrap();
    let path: Vec<String> = imp.path.iter().map(|i| s(i.name.as_str())).collect();
    assert_eq!(path, vec!["duralade".to_string(), "error".to_string()]);
    assert!(imp.alias.is_none());
    assert_eq!(c.pos(), 22);
    assert_eq!(c.node_span(imp.node_id), (0, 21));
    assert!(c.strict_mode_violations.is_empty());
}

#[test]
fn import_with_alias_spans_the_alias() {
    let mut c = ctx("import a.b as c\n");
    let imp = try_parse_import(&mut c).ok().unwrap().unwrap();
    assert_eq!(s(imp.alias.as_ref().unwrap().name.as_str()), "c");
    assert_eq!(c.node_span(imp.node_id), (0, 15));
    assert!(c.strict_mode_violations.is_empty());
}

#[test]
fn not_an_import_consumes_nothing() {
    let mut c = ctx("important = 1");
    assert!(try_parse_import(&mut c).ok().unwrap().is_none());
    assert_eq!(c.pos(), 0);
    assert_eq!(c.next_node_id, 0);
}

#[test]
fn extra_spaces_are_strict_violations() {
    let mut c = ctx("import  a  as  b\n");
    let imp = try_parse_import(&mut c).ok().unwrap().unwrap();
    assert_eq!(s(imp.alias.as_ref().unwrap().name.as_str()), "b");
    assert_eq!(
        msgs(&c.strict_mode_violations),
        vec![
            "Expected no additional whitespace after 'import '".to_string(),
            "Expected exactly one space before 'as'".to_string(),
            "Expected no additional whitespace after 'as '".to_string(),
        ]
    );
    assert_eq!(c.strict_mode_violations[0].consumed_range, (7, 8));
    assert_eq!(c.strict_mode_violations[1].consumed_range, (9, 11));
    assert_eq!(c.strict_mode_violations[2].consumed_range, (14, 15));
}

#[test]
fn bad_path_is_an_invalid_import_and_skips_the_line() {
    let mut c = ctx("import a..b\nnext");
    let e = try_parse_import(&mut c).err().unwrap();
    assert_eq!(s(&e.message), "Invalid import");
    assert_eq!(e.consumed_range, (0, 12));
    let inner = e.cause.as_ref().unwrap();
    assert_eq!(s(&inner.message), "Expected identifier");
    assert_eq!(c.pos(), 12);
    assert_eq!(c.next_node_id, 1);
    assert_eq!(c.node_span(NodeId(0)), (7, 8));
}

#[test]
fn missing_alias_is_reported() {
    let mut c = ctx("import a as \n");
    let e = try_parse_import(&mut c).err().unwrap();
    assert_eq!(s(&e.message), "Invalid import");
    let inner = e.cause.as_ref().unwrap();
    assert_eq!(s(&inner.message), "Expected identifier after 'as'");
}

#[test]
fn trailing_text_is_reported() {
    let mut c = ctx("import a b\n");
    let e = try_parse_import(&mut c).err().unwrap();
    assert_eq!(s(&e.message), "Invalid import");
    let inner = e.cause.as_ref().unwrap();
    assert_eq!(s(&inner.message), "Unexpected characters after import");
    assert_eq!(inner.consumed_range, (0, 11));
    assert_eq!(inner.error_range, Some((11, 12)));
    assert_eq!(c.pos(), 11);
}
