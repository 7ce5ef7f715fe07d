use duralade::load::context::LoadError;
use duralade::load::ids::TypeId;
use duralade::load::infer::{infer_type_args, is_valid_type_arg_name, unify_type};
use duralade::load::registry::{Registry, RegistryTypeArg};
use duralade::load::types::{Module, TypeField, TypeIntype};
use duralade::model::{NodeId, SourceMap, Symbol};

fn sym(s: &str) -> Symbol {
    Symbol::from_str(s)
}

fn empty_module() -> Module {
    Module { has_errors: false, files: vec![], decl_index: vec![] }
}

fn names(v: &[(Symbol, TypeId)]) -> Vec<(String, TypeId)> {
    v.iter().map(|(n, t)| (n.as_str().iter().collect(), *t)).collect()
}

#[test]
fn type_param_is_solved_through_nilable() {
    let mut reg = Registry::new();
    let t = reg.intern_type_param(&sym("t"));
    let nt = reg.intern_nilable(t);
    let int_t = reg.int_type;
    let ni = reg.intern_nilable(int_t);
    let mut solved = Vec::new();
    unify_type(&mut reg, &empty_module(), ni, nt, &mut solved);
    assert_eq!(names(&solved), vec![("t".to_string(), int_t)]);
}

#[test]
fn first_solution_stays_and_error_type_solves_nothing() {
    let mut reg = Registry::new();
    let t = reg.intern_type_param(&sym("t"));
    let (int_t, str_t, err) = (reg.int_type, reg.str_type, reg.error_type);
    let mut solved = Vec::new();
    unify_type(&mut reg, &empty_module(), err, t, &mut solved);
    assert!(solved.is_empty());
    unify_type(&mut reg, &empty_module(), int_t, t, &mut solved);
    unify_type(&mut reg, &empty_module(), str_t, t, &mut solved);
    assert_eq!(names(&solved), vec![("t".to_string(), int_t)]);
}

#[test]
fn named_type_arguments_unify_by_name() {
    let mut reg = Registry::new();
    let t = reg.intern_type_param(&sym("t"));
    let decl = reg.array_decl;
    let str_t = reg.str_type;
    let expected = reg.intern_named_with_args(decl, vec![RegistryTypeArg { name: sym("t"), value: t }]);
    let actual = reg.intern_named_with_args(decl, vec![RegistryTypeArg { name: sym("t"), value: str_t }]);
    let mut solved = Vec::new();
    unify_type(&mut reg, &empty_module(), actual, expected, &mut solved);
    assert_eq!(names(&solved), vec![("t".to_string(), str_t)]);
}

fn intype(name: &str, default: Option<TypeId>) -> TypeIntype {
    TypeIntype { name: sym(name), constraint: None, default, node_id: NodeId(0) }
}

#[test]
fn type_arguments_are_inferred_or_defaulted() {
    let mut reg = Registry::new();
    let t = reg.intern_type_param(&sym("t"));
    let (int_t, bool_t) = (reg.int_type, reg.bool_type);
    let fields = vec![TypeField { name: sym("x"), modifier: None, ty: t, has_default: false, node_id: NodeId(0) }];
    let intypes = vec![intype("t", None), intype("u", Some(bool_t))];
    let mut errors: Vec<LoadError> = Vec::new();
    let r = infer_type_args(
        &mut reg,
        &empty_module(),
        &mut errors,
        &sym("app.m"),
        0,
        &SourceMap::new(),
        &intypes,
        &fields,
        &vec![(sym("x"), int_t)],
        NodeId(0),
    );
    assert_eq!(names(&r.unwrap()), vec![("t".to_string(), int_t), ("u".to_string(), bool_t)]);
    assert!(errors.is_empty());
}

#[test]
fn uninferable_type_argument_is_reported() {
    let mut reg = Registry::new();
    let mut map = SourceMap::new();
    map.node_ranges.push((3, 8));
    let intypes = vec![intype("v", None)];
    let mut errors: Vec<LoadError> = Vec::new();
    let r = infer_type_args(&mut reg, &empty_module(), &mut errors, &sym("app.m"), 1, &map, &intypes, &vec![], &vec![], NodeId(0));
    assert!(r.is_none());
    assert_eq!(errors.len(), 1);
    assert_eq!(errors[0].message.iter().collect::<String>(), "cannot infer type argument 'v'");
    assert_eq!(errors[0].range, Some((3, 8)));
    assert_eq!(errors[0].file_idx, 1);
}

#[test]
fn no_intypes_infers_nothing() {
    let mut reg = Registry::new();
    let mut errors: Vec<LoadError> = Vec::new();
    let r = infer_type_args(&mut reg, &empty_module(), &mut errors, &sym("m"), 0, &SourceMap::new(), &vec![], &vec![], &vec![], NodeId(0));
    assert!(r.is_none());
}

#[test]
fn type_arg_names_of_a_declaration_without_source() {
    let reg = Registry::new();
    // the well-known declarations have no source module here, so they take no named arguments
    assert!(!is_valid_type_arg_name(&reg, &empty_module(), &sym("app.m"), reg.array_decl, &sym("t")));
}
