use duralade::load::ids::TypeId;
use duralade::model::Symbol;
use duralade::scope::{Scope, ScopeKind};

type S = Scope<u32, Vec<(String, u32)>>;

fn sym(s: &str) -> Symbol {
    Symbol::from_str(s)
}

fn no_lookup(_c: &Vec<(String, u32)>, _n: &Symbol) -> Option<u32> {
    None
}

fn table_lookup(c: &Vec<(String, u32)>, n: &Symbol) -> Option<u32> {
    let name: String = n.as_str().iter().collect();
    c.iter().find(|(k, _)| *k == name).map(|(_, v)| *v)
}

fn never_set(_c: &Vec<(String, u32)>, _n: &Symbol, _v: u32) -> bool {
    false
}

#[test]
fn declared_variable_resolves_and_redeclaration_fails() {
    let mut s: S = Scope::empty(ScopeKind::Block);
    assert!(s.declare_var(sym("x"), 1));
    assert!(!s.declare_var(sym("x"), 2));
    assert_eq!(s.resolve_var(&sym("x"), &no_lookup), Some(1));
    assert_eq!(s.resolve_var(&sym("y"), &no_lookup), None);
}

#[test]
fn inner_scope_shadows_outer_and_falls_back_to_parent() {
    let mut outer: S = Scope::empty(ScopeKind::Function);
    outer.declare_var(sym("x"), 1);
    outer.declare_var(sym("y"), 2);
    let mut inner: S = Scope::empty(ScopeKind::Block);
    inner.parent = Some(outer.into_ref());
    inner.declare_var(sym("x"), 10);
    assert_eq!(inner.resolve_var(&sym("x"), &no_lookup), Some(10));
    assert_eq!(inner.resolve_var(&sym("y"), &no_lookup), Some(2));
}

#[test]
fn construct_storage_is_consulted_before_parent() {
    let mut outer: S = Scope::empty(ScopeKind::Function);
    outer.declare_var(sym("f"), 1);
    let mut inner: S = Scope::empty(ScopeKind::Construct);
    inner.construct = Some(vec![("f".to_string(), 7)]);
    inner.parent = Some(outer.into_ref());
    assert_eq!(inner.resolve_var(&sym("f"), &table_lookup), Some(7));
}

#[test]
fn set_var_updates_the_declaring_scope() {
    let mut outer: S = Scope::empty(ScopeKind::Function);
    outer.declare_var(sym("x"), 1);
    let mut inner: S = Scope::empty(ScopeKind::Block);
    inner.parent = Some(outer.into_ref());
    assert!(inner.set_var(&sym("x"), 5, &never_set));
    assert_eq!(inner.resolve_var(&sym("x"), &no_lookup), Some(5));
    assert!(inner.vars.is_empty());
    assert!(!inner.set_var(&sym("missing"), 5, &never_set));
}

#[test]
fn type_params_resolve_innermost_first() {
    let mut outer: S = Scope::empty(ScopeKind::Function);
    outer.type_params.push((sym("t"), TypeId(3)));
    outer.type_params.push((sym("u"), TypeId(4)));
    let mut inner: S = Scope::empty(ScopeKind::Construct);
    inner.type_params.push((sym("t"), TypeId(9)));
    inner.parent = Some(outer.into_ref());
    assert_eq!(inner.resolve_type_param(&sym("t")), Some(TypeId(9)));
    assert_eq!(inner.resolve_type_param(&sym("u")), Some(TypeId(4)));
    assert_eq!(inner.resolve_type_param(&sym("v")), None);
}

#[test]
fn out_early_field_of_enclosing_function() {
    let mut func: S = Scope::empty(ScopeKind::Function);
    func.out_early = Some(sym("done"));
    func.declare_var(sym("done"), 0);
    let mut block: S = Scope::empty(ScopeKind::Block);
    block.parent = Some(func.into_ref());
    assert_eq!(block.enclosing_out_early().map(|(n, v)| (n.as_str().iter().collect::<String>(), v)), Some(("done".to_string(), 0)));
    let name = block.set_enclosing_out_early(8);
    assert_eq!(name.map(|n| n.as_str().iter().collect::<String>()), Some("done".to_string()));
    assert_eq!(block.enclosing_out_early().map(|(_, v)| v), Some(8));

    let mut plain: S = Scope::empty(ScopeKind::Block);
    assert!(plain.enclosing_out_early().is_none());
    assert!(plain.set_enclosing_out_early(1).is_none());
}

#[test]
fn break_reaches_loops_but_not_through_functions() {
    let mut func: S = Scope::empty(ScopeKind::Function);
    assert!(!func.can_break_or_continue(None));
    let mut lp: S = Scope::empty(ScopeKind::For);
    lp.label = Some(sym("outer"));
    lp.parent = Some(std::mem::replace(&mut func, Scope::empty(ScopeKind::Module)).into_ref());
    let mut body: S = Scope::empty(ScopeKind::Block);
    body.parent = Some(lp.into_ref());
    assert!(body.can_break_or_continue(None));
    assert!(body.can_break_or_continue(Some(&sym("outer"))));
    assert!(!body.can_break_or_continue(Some(&sym("other"))));

    let mut inner_fn: S = Scope::empty(ScopeKind::Function);
    inner_fn.parent = Some(body.into_ref());
    assert!(!inner_fn.can_break_or_continue(None));
}

fn always_set(_c: &Vec<(String, u32)>, _n: &Symbol, _v: u32) -> bool {
    true
}

#[test]
fn set_var_prefers_variables_to_construct_storage() {
    let mut s: S = Scope::empty(ScopeKind::Construct);
    s.construct = Some(vec![("x".to_string(), 7)]);
    s.declare_var(sym("x"), 1);
    assert!(s.set_var(&sym("x"), 5, &always_set));
    assert_eq!(s.resolve_var(&sym("x"), &table_lookup), Some(5));
    // a name without a variable goes to the construct storage
    assert!(s.set_var(&sym("y"), 3, &always_set));
    assert_eq!(s.resolve_var(&sym("y"), &no_lookup), None);
}

#[test]
fn out_early_set_then_read() {
    let mut f: S = Scope::empty(ScopeKind::Function);
    f.out_early = Some(sym("err"));
    let mut inner: S = Scope::empty(ScopeKind::Block);
    inner.parent = Some(f.into_ref());
    let n = inner.set_enclosing_out_early(9).unwrap();
    assert_eq!(n.as_str().iter().collect::<String>(), "err");
    let (rn, rv) = inner.enclosing_out_early().unwrap();
    assert_eq!(rn.as_str().iter().collect::<String>(), "err");
    assert_eq!(rv, 9);

    let mut g: S = Scope::empty(ScopeKind::Function);
    assert!(g.set_enclosing_out_early(1).is_none());
    assert!(g.enclosing_out_early().is_none());
}
