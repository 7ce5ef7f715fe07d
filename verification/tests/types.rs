use duralade::model::{NodeId, Type, TypeAnonConstruct, TypeAnonFieldModifier, TypeIntrospectionOp};
use duralade::parse::types::parse_type;
use duralade::parse::ParseContext;

fn ctx(src: &str) -> ParseContext {
    ParseContext::new(src.as_bytes().to_vec(), "t.dl".chars().collect())
}

fn s(c: &[char]) -> String {
    c.iter().collect()
}

fn path_of(t: &Type) -> Vec<String> {
    match t {
        Type::Named(nm) => nm.path.iter().map(|i| s(i.name.as_str())).collect(),
        _ => panic!("expected a named type, got {:?}", t),
    }
}

fn errors(c: &ParseContext) -> Vec<String> {
    c.parse_errors.iter().map(|e| s(&e.message)).collect()
}

fn strict(c: &ParseContext) -> Vec<String> {
    c.strict_mode_violations.iter().map(|e| s(&e.message)).collect()
}

#[test]
fn named_type_with_node_span() {
    let mut c = ctx("duralade.int x");
    let t = parse_type(&mut c);
    assert_eq!(path_of(&t), vec!["duralade".to_string(), "int".to_string()]);
    assert_eq!(c.pos(), 12);
    assert_eq!(c.node_span(t.node_id()), (0, 12));
    assert!(errors(&c).is_empty());
}

#[test]
fn nilable_and_entity_ref() {
    let mut c = ctx("&user?");
    let t = parse_type(&mut c);
    match &t {
        Type::Nilable(n) => {
            assert_eq!(c.node_span(n.node_id), (0, 6));
            match &*n.inner {
                Type::EntityRef(r) => {
                    assert_eq!(path_of(&r.inner), vec!["user".to_string()]);
                    assert_eq!(c.node_span(r.node_id), (0, 5));
                },
                other => panic!("expected an entity ref, got {:?}", other),
            }
        },
        other => panic!("expected a nilable type, got {:?}", other),
    }
    assert_eq!(c.pos(), 6);
}

#[test]
fn type_arguments_named_and_derived() {
    let mut c = ctx("map[k = str, int]");
    let t = parse_type(&mut c);
    match &t {
        Type::Named(nm) => {
            assert_eq!(nm.type_args.len(), 2);
            assert_eq!(s(nm.type_args[0].name.name.as_str()), "k");
            assert_eq!(path_of(&nm.type_args[0].value), vec!["str".to_string()]);
            assert_eq!(s(nm.type_args[1].name.name.as_str()), "int");
        },
        other => panic!("expected a named type, got {:?}", other),
    }
    assert_eq!(c.pos(), 17);
    assert!(errors(&c).is_empty());
    assert!(strict(&c).is_empty());
}

#[test]
fn type_argument_spacing_is_strict() {
    let mut c = ctx("array[t=int]");
    parse_type(&mut c);
    assert_eq!(
        strict(&c),
        vec![
            "Expected exactly one space before '=' in type argument".to_string(),
            "Expected exactly one space after '=' in type argument".to_string(),
        ]
    );
}

#[test]
fn unclosed_type_arguments_are_reported() {
    let mut c = ctx("array[int");
    parse_type(&mut c);
    assert_eq!(errors(&c), vec!["Expected ']'".to_string()]);
    assert_eq!(c.parse_errors[0].consumed_range, (5, 9));
    assert_eq!(c.parse_errors[0].error_range, Some((5, 6)));
}

#[test]
fn introspection_suffixes() {
    let mut c = ctx("user@typeout");
    match parse_type(&mut c) {
        Type::Introspection(ti) => {
            assert_eq!(ti.op, TypeIntrospectionOp::TypeOut);
            assert_eq!(c.node_span(ti.node_id), (0, 12));
        },
        other => panic!("expected introspection, got {:?}", other),
    }
    let mut d = ctx("user@type x");
    match parse_type(&mut d) {
        Type::Introspection(ti) => assert_eq!(ti.op, TypeIntrospectionOp::Type),
        other => panic!("expected introspection, got {:?}", other),
    }
}

#[test]
fn anonymous_data_type_with_fields() {
    let mut c = ctx("data { x: int }");
    match parse_type(&mut c) {
        Type::Anon(an) => {
            assert_eq!(an.construct, TypeAnonConstruct::Data);
            assert_eq!(an.fields.len(), 1);
            assert_eq!(s(an.fields[0].name.as_ref().unwrap().name.as_str()), "x");
            assert_eq!(path_of(&an.fields[0].ty), vec!["int".to_string()]);
            assert!(!an.fields[0].has_default);
            assert_eq!(c.node_span(an.node_id), (0, 15));
        },
        other => panic!("expected an anonymous type, got {:?}", other),
    }
    assert_eq!(c.pos(), 15);
    assert!(errors(&c).is_empty());
    assert!(strict(&c).is_empty());
    assert!(c.indent_stack.is_empty());
}

#[test]
fn anonymous_func_type_over_lines_with_modifiers_and_defaults() {
    let src = "view func {\n    in a: int\n    out b: str = ???\n    :bool\n}";
    let mut c = ctx(src);
    match parse_type(&mut c) {
        Type::Anon(an) => {
            assert_eq!(an.construct, TypeAnonConstruct::FuncView);
            assert_eq!(an.fields.len(), 3);
            assert_eq!(an.fields[0].modifier, Some(TypeAnonFieldModifier::In));
            assert_eq!(an.fields[1].modifier, Some(TypeAnonFieldModifier::Out));
            assert!(an.fields[1].has_default);
            assert!(an.fields[2].modifier.is_none());
            assert_eq!(s(an.fields[2].name.as_ref().unwrap().name.as_str()), "bool");
        },
        other => panic!("expected an anonymous type, got {:?}", other),
    }
    assert_eq!(c.pos(), src.len());
    assert!(errors(&c).is_empty());
    // The shorthand `:type` form still wants one space after the colon.
    assert_eq!(strict(&c), vec!["Expected exactly one space after ':'".to_string()]);
}

#[test]
fn missing_colon_in_anonymous_field_is_reported() {
    let mut c = ctx("data { x int }");
    parse_type(&mut c);
    assert_eq!(
        errors(&c),
        vec!["Expected ':' in anonymous type field".to_string(), "Expected '}'".to_string()]
    );
}

#[test]
fn not_a_type_is_invalid() {
    let mut c = ctx("123");
    match parse_type(&mut c) {
        Type::Invalid(iv) => assert_eq!(iv.node_id, NodeId(0)),
        other => panic!("expected an invalid type, got {:?}", other),
    }
    assert_eq!(errors(&c), vec!["Identifier '123' cannot start with a digit".to_string()]);
}
