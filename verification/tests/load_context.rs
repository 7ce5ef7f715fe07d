use duralade::load::context::{
    default_implicit_modules, import_alias, import_to_path, path_alias, path_module_segments,
    path_root, split_chars, LoadContext, RootSettings,
};
use duralade::load::registry::{make_qualified, Registry};
use duralade::load::check::uninferrable_literal_message;
use duralade::model::{Expr, ExprLiteral, ExprLiteralKind, Ident, Import, NodeId, Symbol};

fn chars(s: &str) -> Vec<char> {
    s.chars().collect()
}

fn st(v: &[char]) -> String {
    v.iter().collect()
}

fn ident(s: &str) -> Ident {
    Ident { node_id: NodeId(0), name: Symbol::from_str(s), is_raw: false }
}

#[test]
fn dotted_paths_split_into_root_alias_and_segments() {
    let p = chars("duralade.admin.roles");
    assert_eq!(st(&path_root(&p)), "duralade");
    assert_eq!(st(path_alias(&p).as_str()), "roles");
    let segs: Vec<String> = path_module_segments(&p).iter().map(|s| st(s)).collect();
    assert_eq!(segs, vec!["admin".to_string(), "roles".to_string()]);

    let single = chars("solo");
    assert_eq!(st(&path_root(&single)), "solo");
    assert_eq!(st(path_alias(&single).as_str()), "solo");
    assert!(path_module_segments(&single).is_empty());
}

#[test]
fn split_keeps_empty_pieces() {
    let parts: Vec<String> = split_chars(&chars("a..b."), '.').iter().map(|s| st(s)).collect();
    assert_eq!(parts, vec!["a", "", "b", ""]);
}

#[test]
fn import_path_and_alias() {
    let imp = Import { node_id: NodeId(0), path: vec![ident("duralade"), ident("error")], alias: None };
    assert_eq!(st(import_to_path(&imp).as_str()), "duralade.error");
    assert_eq!(st(import_alias(&imp).as_str()), "error");

    let aliased = Import { node_id: NodeId(0), path: vec![ident("a"), ident("b")], alias: Some(ident("c")) };
    assert_eq!(st(import_alias(&aliased).as_str()), "c");

    let empty = Import { node_id: NodeId(0), path: vec![], alias: None };
    assert_eq!(st(import_alias(&empty).as_str()), "");
    assert_eq!(st(import_to_path(&empty).as_str()), "");
}

#[test]
fn implicit_modules_follow_root_settings() {
    let defaults: Vec<String> = default_implicit_modules().iter().map(|s| st(s.as_str())).collect();
    assert_eq!(defaults.len(), 7);
    assert!(defaults.contains(&"duralade.error".to_string()));

    let ctx = LoadContext::new(vec![
        (Symbol::from_str("app"), RootSettings { stdlib_prelude: true }),
        (Symbol::from_str("bare"), RootSettings { stdlib_prelude: false }),
    ]);
    assert_eq!(ctx.implicit_modules_for(&chars("app.main")).len(), 7);
    assert!(ctx.implicit_modules_for(&chars("bare.main")).is_empty());
    assert!(ctx.implicit_modules_for(&chars("other")).is_empty());
}

#[test]
fn load_stack_tracks_modules_in_progress() {
    let mut ctx = LoadContext::new(vec![]);
    assert!(!ctx.is_on_stack(&chars("a.b")));
    ctx.push_stack(Symbol::from_str("a.b"));
    assert!(ctx.is_on_stack(&chars("a.b")));
    ctx.pop_stack();
    assert!(!ctx.is_on_stack(&chars("a.b")));
}

#[test]
fn qualified_names_join_path_and_name() {
    assert_eq!(st(&make_qualified(&chars("duralade.int"), &chars("int"))), "duralade.int::int");
}

#[test]
fn builtin_types_display_by_name() {
    let mut reg = Registry::new();
    assert_eq!(st(&reg.display_type(reg.int_type)), "int");
    assert_eq!(st(&reg.display_type(reg.any_type)), "any");
    assert_eq!(st(&reg.display_type(reg.error_type)), "<error>");
    let int_t = reg.int_type;
    let n = reg.intern_nilable(int_t);
    assert_eq!(st(&reg.display_type(n)), "int?");
    // Interning again gives the same id.
    assert_eq!(reg.intern_nilable(int_t), n);
    assert!(reg.is_nilable(n));
    assert_eq!(reg.nilable_inner(n), Some(int_t));
}

#[test]
fn primitive_types_are_serializable() {
    let reg = Registry::new();
    assert!(reg.is_type_serializable(reg.int_type));
    assert!(reg.is_type_serializable(reg.str_type));
    assert!(reg.is_type_serializable(reg.any_type));
    assert!(!reg.is_type_serializable(reg.anylocal_type));
}

#[test]
fn builtin_modules_are_registered() {
    let reg = Registry::new();
    assert!(reg.module_index(&chars("duralade.int")).is_some());
    assert!(reg.module_index(&chars("nowhere")).is_none());
}

#[test]
fn qualified_display_names_modules() {
    let mut reg = Registry::new();
    assert_eq!(st(&reg.display_type_qualified(reg.int_type)), "duralade.int::int");
    let int_t = reg.int_type;
    let n = reg.intern_nilable(int_t);
    assert_eq!(st(&reg.display_type_qualified(n)), "duralade.int::int?");
    assert_eq!(st(&reg.display_type_qualified(reg.anylocal_type)), "anylocal");
    let p = reg.intern_type_param(&Symbol::from_str("t"));
    assert_eq!(st(&reg.display_type_qualified(p)), "[t]");
    assert_eq!(st(&reg.display_type(p)), "t");
}

#[test]
fn uninferrable_literals_are_named() {
    let lit = |k: ExprLiteralKind| Expr::Literal(ExprLiteral { node_id: NodeId(0), kind: k });
    assert_eq!(
        uninferrable_literal_message(&lit(ExprLiteralKind::Nil)),
        Some("cannot infer type of 'nil', add a type annotation (e.g. ': int?')")
    );
    assert_eq!(
        uninferrable_literal_message(&lit(ExprLiteralKind::Array(vec![]))),
        Some("cannot infer element type of empty array, add a type annotation (e.g. ': array[t = int]')")
    );
    assert_eq!(
        uninferrable_literal_message(&lit(ExprLiteralKind::MapLiteral(vec![]))),
        Some("cannot infer key/value types of empty map, add a type annotation (e.g. ': map[k = str, v = int]')")
    );
    assert_eq!(uninferrable_literal_message(&lit(ExprLiteralKind::Array(vec![lit(ExprLiteralKind::Bool(true))]))), None);
    assert_eq!(uninferrable_literal_message(&lit(ExprLiteralKind::Bool(false))), None);
}
