use duralade::model::{
    Expr, ExprLiteral, ExprLiteralKind, Field, FieldKind, FieldVar, FieldVarModifier, Ident, InvalidNode, NodeId,
    Symbol,
};
use duralade::parse::body::{at_body_end, field_name};
use duralade::parse::construct::{derive_field_name, validate_extern_or_native_fields};
use duralade::parse::stmt::{is_nil_narrowing_marker, parse_label, parse_patch_version};
use duralade::parse::types::parse_type;
use duralade::parse::ParseContext;

fn ctx(src: &str) -> ParseContext {
    ParseContext::new(src.as_bytes().to_vec(), "t.dl".chars().collect())
}

fn s(c: &[char]) -> String {
    c.iter().collect()
}

fn errors(c: &ParseContext) -> Vec<(String, (usize, usize))> {
    c.parse_errors.iter().map(|e| (s(&e.message), e.consumed_range)).collect()
}

fn strict(c: &ParseContext) -> Vec<(String, (usize, usize))> {
    c.strict_mode_violations.iter().map(|e| (s(&e.message), e.consumed_range)).collect()
}

fn ident(n: &str, id: u32) -> Ident {
    Ident { node_id: NodeId(id), name: Symbol::from_str(n), is_raw: false }
}

fn var_field(modifier: FieldVarModifier, id: u32, default: Option<Expr>) -> Field {
    Field {
        node_id: NodeId(id),
        annotations: vec![],
        kind: FieldKind::Var(FieldVar { node_id: NodeId(id), modifier, name: ident("f", id), ty: None, default }),
    }
}

#[test]
fn label_right_after_keyword() {
    let mut c = ctx(":outer x");
    let l = parse_label(&mut c).unwrap();
    assert_eq!(s(l.name.as_str()), "outer");
    assert_eq!(c.pos(), 6);
    assert!(strict(&c).is_empty());
    assert!(errors(&c).is_empty());
}

#[test]
fn label_spacing_is_strict() {
    let mut c = ctx(" :a");
    let l = parse_label(&mut c).unwrap();
    assert_eq!(s(l.name.as_str()), "a");
    assert_eq!(strict(&c), vec![("No space allowed before ':' in label".to_string(), (0, 2))]);

    let mut c = ctx(":  a");
    let l = parse_label(&mut c).unwrap();
    assert_eq!(s(l.name.as_str()), "a");
    assert_eq!(strict(&c), vec![("No space allowed after ':' in label".to_string(), (0, 3))]);
}

#[test]
fn no_label_without_colon() {
    let mut c = ctx(" x");
    assert!(parse_label(&mut c).is_none());
    assert_eq!(c.pos(), 0);
    assert!(strict(&c).is_empty());
}

#[test]
fn colon_without_label_name() {
    let mut c = ctx(":");
    assert!(parse_label(&mut c).is_none());
    assert_eq!(errors(&c), vec![("Expected label name after ':'".to_string(), (0, 1))]);
}

#[test]
fn nil_narrowing_marker() {
    assert!(is_nil_narrowing_marker(b"?"));
    assert!(is_nil_narrowing_marker(b"? {"));
    assert!(!is_nil_narrowing_marker(b"?.x"));
    assert!(!is_nil_narrowing_marker(b"?? 0"));
    assert!(!is_nil_narrowing_marker(b"?!"));
    assert!(!is_nil_narrowing_marker(b"x?"));
}

#[test]
fn patch_versions() {
    let mut c = ctx("@default\n");
    let v = parse_patch_version(&mut c);
    assert_eq!(v.len(), 1);
    assert_eq!(s(v[0].name.as_str()), "@default");
    assert_eq!(c.pos(), 8);
    assert_eq!(c.node_span(v[0].node_id), (0, 8));

    let mut c = ctx("v2.fix {");
    let v = parse_patch_version(&mut c);
    let names: Vec<String> = v.iter().map(|i| s(i.name.as_str())).collect();
    assert_eq!(names, vec!["v2".to_string(), "fix".to_string()]);
    assert_eq!(c.pos(), 6);
}

#[test]
fn body_end_detection() {
    assert!(at_body_end(&ctx("  \n }")));
    assert!(at_body_end(&ctx("")));
    assert!(at_body_end(&ctx("\r\n")));
    assert!(!at_body_end(&ctx("  x }")));
}

#[test]
fn names_of_fields() {
    let f = var_field(FieldVarModifier::In, 0, None);
    assert_eq!(s(field_name(&f).unwrap().name.as_str()), "f");
    let inv = Field { node_id: NodeId(1), annotations: vec![], kind: FieldKind::Invalid(InvalidNode { node_id: NodeId(1) }) };
    assert!(field_name(&inv).is_none());
}

#[test]
fn field_names_derive_from_types() {
    let mut c = ctx("&store.user?");
    let t = parse_type(&mut c);
    let n = derive_field_name(&t).unwrap();
    assert_eq!(s(n.name.as_str()), "user");
}

#[test]
fn extern_fields_are_checked() {
    let mut c = ctx("implicit a\nvalue b\nout c = 1\nin d");
    let a = c.alloc_node_id(0, 10);
    let b = c.alloc_node_id(11, 18);
    let one = c.alloc_node_id(27, 28);
    let d = c.alloc_node_id(29, 33);
    let lit = Expr::Literal(ExprLiteral { node_id: one, kind: ExprLiteralKind::Int(vec!['1']) });
    let fields = vec![
        var_field(FieldVarModifier::Implicit, a.0, None),
        var_field(FieldVarModifier::Value, b.0, None),
        var_field(FieldVarModifier::Out, 2, Some(lit)),
        var_field(FieldVarModifier::In, d.0, None),
    ];
    validate_extern_or_native_fields(&mut c, &fields, "extern");
    assert_eq!(
        errors(&c),
        vec![
            ("'implicit' field is not allowed in extern".to_string(), (0, 10)),
            ("'value' field is not allowed in extern".to_string(), (11, 18)),
            ("'out' field in extern cannot have default expression".to_string(), (27, 28)),
        ]
    );
}

#[test]
fn restore_undoes_a_speculative_parse() {
    let mut c = ctx("foo.bar x");
    let snap = c.snapshot();
    let _ = parse_patch_version(&mut c);
    c.add_parse_error(duralade::parse::ParseError::new((0, 1), vec!['e']));
    assert!(c.pos() > 0);
    c.restore(snap);
    assert_eq!(c.pos(), 0);
    assert_eq!(c.next_node_id, 0);
    assert!(c.parse_errors.is_empty());
    assert!(c.node_ranges.is_empty());
}
