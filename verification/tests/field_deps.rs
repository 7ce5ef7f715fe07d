use duralade::load::field_deps::{
    collect_field_refs, field_eval_order, compute_ast_field_eval_order, FieldEvalOrder,
};
use duralade::model::SourceMap;
use duralade::model::symbol_set::SymbolSet;
use duralade::model::{
    Data, Expr, ExprBinary, ExprBinaryOp, ExprLiteral, ExprLiteralKind, Field, FieldKind,
    FieldVar, FieldVarModifier, Func, Ident, NodeId, Stmt, StmtBlock, StmtFor, StmtForClause,
    StmtForIn, StmtVar, StmtVarDecl, Symbol,
};

fn make_field_names(names: &[&str]) -> SymbolSet {
    let mut s = SymbolSet::new();
    for n in names {
        s.insert(Symbol::from_str(n));
    }
    s
}

fn make_ident(name: &str) -> Ident {
    Ident { node_id: NodeId(0), name: Symbol::from_str(name), is_raw: false }
}

fn ident_expr(name: &str) -> Expr {
    Expr::Ident(make_ident(name))
}

fn var_field(name: &str, default: Option<Expr>) -> Field {
    Field {
        node_id: NodeId(0),
        annotations: vec![],
        kind: FieldKind::Var(FieldVar {
            node_id: NodeId(0),
            modifier: FieldVarModifier::In,
            name: make_ident(name),
            ty: None,
            default,
        }),
    }
}

fn int_literal(text: &str) -> Expr {
    Expr::Literal(ExprLiteral {
        node_id: NodeId(0),
        kind: ExprLiteralKind::Int(text.chars().collect()),
    })
}

fn add(a: Expr, b: Expr) -> Expr {
    Expr::Binary(ExprBinary {
        node_id: NodeId(0),
        left: Box::new(a),
        op: ExprBinaryOp::Add,
        right: Box::new(b),
    })
}

#[test]
fn bare_ident_collected() {
    let field_names = make_field_names(&["x", "y"]);
    let mut refs = SymbolSet::new();
    collect_field_refs(&ident_expr("x"), &field_names, &mut refs);
    assert!(refs.contains_str("x"));
    assert!(!refs.contains_str("y"));
}

#[test]
fn non_field_ident_ignored() {
    let field_names = make_field_names(&["x"]);
    let mut refs = SymbolSet::new();
    collect_field_refs(&ident_expr("z"), &field_names, &mut refs);
    assert!(refs.is_empty());
}

#[test]
fn shadowed_by_anon_func_param() {
    let field_names = make_field_names(&["x"]);
    let mut refs = SymbolSet::new();
    // func(in x: ...) { x } - x is shadowed
    let anon = Expr::AnonFunc(Func {
        node_id: NodeId(0),
        view: false,
        noblock: false,
        fields: vec![var_field("x", None)],
        stmts: vec![Stmt::Expr(ident_expr("x"))],
    });
    collect_field_refs(&anon, &field_names, &mut refs);
    assert!(refs.is_empty());
}

#[test]
fn unshadowed_in_anon_func_body() {
    let field_names = make_field_names(&["x", "y"]);
    let mut refs = SymbolSet::new();
    // func(in x: ...) { y } - y is NOT shadowed
    let anon = Expr::AnonFunc(Func {
        node_id: NodeId(0),
        view: false,
        noblock: false,
        fields: vec![var_field("x", None)],
        stmts: vec![Stmt::Expr(ident_expr("y"))],
    });
    collect_field_refs(&anon, &field_names, &mut refs);
    assert!(refs.contains_str("y"));
    assert!(!refs.contains_str("x"));
}

#[test]
fn shadowed_by_var_decl_in_anon_func() {
    let field_names = make_field_names(&["x"]);
    let mut refs = SymbolSet::new();
    // func { x := 1; x } - x is shadowed after var decl
    let anon = Expr::AnonFunc(Func {
        node_id: NodeId(0),
        view: false,
        noblock: false,
        fields: vec![],
        stmts: vec![
            Stmt::Var(StmtVar {
                node_id: NodeId(0),
                vars: vec![StmtVarDecl { node_id: NodeId(0), name: make_ident("x"), ty: None }],
                values: vec![int_literal("1")],
            }),
            Stmt::Expr(ident_expr("x")),
        ],
    });
    collect_field_refs(&anon, &field_names, &mut refs);
    assert!(refs.is_empty());
}

#[test]
fn anon_data_default_refs_outer_field() {
    let field_names = make_field_names(&["x"]);
    let mut refs = SymbolSet::new();
    // data { in y = x } - x references outer field
    let anon = Expr::AnonData(Data {
        node_id: NodeId(0),
        fields: vec![var_field("y", Some(ident_expr("x")))],
        funcs: vec![],
    });
    collect_field_refs(&anon, &field_names, &mut refs);
    assert!(refs.contains_str("x"));
}

#[test]
fn anon_data_field_shadows_outer() {
    let field_names = make_field_names(&["x"]);
    let mut refs = SymbolSet::new();
    // data { in x: int; in y = x } - inner x shadows outer x
    let anon = Expr::AnonData(Data {
        node_id: NodeId(0),
        fields: vec![var_field("x", None), var_field("y", Some(ident_expr("x")))],
        funcs: vec![],
    });
    collect_field_refs(&anon, &field_names, &mut refs);
    assert!(refs.is_empty());
}

#[test]
fn var_value_sees_outer_field_before_shadowing() {
    let field_names = make_field_names(&["x"]);
    let mut refs = SymbolSet::new();
    // func { x := x } - the value is walked before x is shadowed
    let anon = Expr::AnonFunc(Func {
        node_id: NodeId(0),
        view: false,
        noblock: false,
        fields: vec![],
        stmts: vec![Stmt::Var(StmtVar {
            node_id: NodeId(0),
            vars: vec![StmtVarDecl { node_id: NodeId(0), name: make_ident("x"), ty: None }],
            values: vec![ident_expr("x")],
        })],
    });
    collect_field_refs(&anon, &field_names, &mut refs);
    assert!(refs.contains_str("x"));
}

#[test]
fn for_in_binding_shadows_only_the_body() {
    let field_names = make_field_names(&["x", "y"]);
    let mut refs = SymbolSet::new();
    // func { for x in y { x } } - y is read, x is the loop variable
    let anon = Expr::AnonFunc(Func {
        node_id: NodeId(0),
        view: false,
        noblock: false,
        fields: vec![],
        stmts: vec![Stmt::For(StmtFor {
            node_id: NodeId(0),
            label: None,
            clause: Some(StmtForClause::In(StmtForIn {
                node_id: NodeId(0),
                var: make_ident("x"),
                expr: ident_expr("y"),
            })),
            block: StmtBlock { node_id: NodeId(0), stmts: vec![Stmt::Expr(ident_expr("x"))] },
        })],
    });
    collect_field_refs(&anon, &field_names, &mut refs);
    assert!(refs.contains_str("y"));
    assert!(!refs.contains_str("x"));
}

#[test]
fn collected_names_are_added_to_existing() {
    let field_names = make_field_names(&["a", "b"]);
    let mut refs = make_field_names(&["zz"]);
    collect_field_refs(&add(ident_expr("a"), ident_expr("b")), &field_names, &mut refs);
    assert!(refs.contains_str("a"));
    assert!(refs.contains_str("b"));
    assert!(refs.contains_str("zz"));
    assert_eq!(refs.len(), 3);
}

#[test]
fn eval_order_places_dependencies_first() {
    // in a = b; in b = 1; in c = a + b
    let fields = vec![
        var_field("a", Some(ident_expr("b"))),
        var_field("b", Some(int_literal("1"))),
        var_field("c", Some(add(ident_expr("a"), ident_expr("b")))),
    ];
    match field_eval_order(&fields) {
        FieldEvalOrder::Ordered(order) => assert_eq!(order, vec![1, 0, 2]),
        FieldEvalOrder::Circular { .. } => panic!("no circle expected"),
    }
}

#[test]
fn eval_order_follows_kahn_queue() {
    // in a = c; in b; in c; in d = b
    // Kahn's queue starts with b, c (source order); b releases d, c releases a.
    let fields = vec![
        var_field("a", Some(ident_expr("c"))),
        var_field("b", None),
        var_field("c", None),
        var_field("d", Some(ident_expr("b"))),
    ];
    match field_eval_order(&fields) {
        FieldEvalOrder::Ordered(order) => assert_eq!(order, vec![1, 2, 3, 0]),
        FieldEvalOrder::Circular { .. } => panic!("no circle expected"),
    }
}

#[test]
fn eval_order_ignores_own_name() {
    // in foo = foo - the field's own name is not in scope in its default
    let fields = vec![var_field("foo", Some(ident_expr("foo")))];
    match field_eval_order(&fields) {
        FieldEvalOrder::Ordered(order) => assert_eq!(order, vec![0]),
        FieldEvalOrder::Circular { .. } => panic!("no circle expected"),
    }
}

#[test]
fn eval_order_of_no_fields_is_empty() {
    let fields: Vec<Field> = vec![];
    match field_eval_order(&fields) {
        FieldEvalOrder::Ordered(order) => assert!(order.is_empty()),
        FieldEvalOrder::Circular { .. } => panic!("no circle expected"),
    }
}

#[test]
fn eval_order_reports_circle() {
    // in a = b; in b = a; in c = 1; in d = a
    let fields = vec![
        var_field("a", Some(ident_expr("b"))),
        var_field("b", Some(ident_expr("a"))),
        var_field("c", Some(int_literal("1"))),
        var_field("d", Some(ident_expr("a"))),
    ];
    match field_eval_order(&fields) {
        FieldEvalOrder::Ordered(_) => panic!("circle expected"),
        FieldEvalOrder::Circular { var_indices, participants } => {
            assert_eq!(var_indices, vec![0, 1, 2, 3]);
            assert_eq!(participants, vec![0, 1, 3]);
        },
    }
}

#[test]
fn circle_is_reported_as_one_load_error() {
    // in a = b; in b = a; in c = 1
    let fields = vec![
        var_field("a", Some(ident_expr("b"))),
        var_field("b", Some(ident_expr("a"))),
        var_field("c", Some(int_literal("1"))),
    ];
    let mut map = SourceMap::new();
    map.node_ranges.push((5, 9));
    let mut errors = Vec::new();
    let order = compute_ast_field_eval_order(&Symbol::from_str("app.m"), 2, &map, &fields, &mut errors);
    assert_eq!(order, vec![0, 1, 2]);
    assert_eq!(errors.len(), 1);
    let msg: String = errors[0].message.iter().collect();
    assert_eq!(msg, "Circular field default references among: a, b");
    assert_eq!(errors[0].range, Some((5, 9)));
    assert_eq!(errors[0].file_idx, 2);
}

#[test]
fn no_error_without_circle() {
    let fields = vec![var_field("a", Some(ident_expr("b"))), var_field("b", None)];
    let map = SourceMap::new();
    let mut errors = Vec::new();
    let order = compute_ast_field_eval_order(&Symbol::from_str("app.m"), 0, &map, &fields, &mut errors);
    assert_eq!(order, vec![1, 0]);
    assert!(errors.is_empty());
}
