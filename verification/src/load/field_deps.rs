use vstd::prelude::*;

use crate::load::context::LoadError;
use crate::model::symbol::{push_chars, str_chars};
use crate::model::symbol_set::SymbolSet;
use crate::model::{SourceMap, Symbol};
use crate::model::{
    StmtIf, Expr, ExprInvocation, ExprInvocationArg, Ident, ExprLiteralKind, ExprLiteralMapEntry, ExprNarrowingKind, Field,
    FieldKind, Stmt, StmtForClause, StmtIfCondition, StmtIfElseIf, StmtIfNarrowingAsBinding,
    StmtIfNarrowingNilBinding, StmtPatchBranch, StmtPatchKind, StmtVarDecl,
};

verus! {

// ---------------------------------------------------------------------------
// Names brought into scope
// ---------------------------------------------------------------------------

/// The names of the variable fields in `fs`.
pub open spec fn var_field_names(fs: Seq<Field>) -> Set<Seq<char>>
    decreases fs.len(),
{
    if fs.len() == 0 {
        Set::empty()
    } else {
        let rest = var_field_names(fs.subrange(0, fs.len() - 1));
        match fs[fs.len() - 1].kind {
            FieldKind::Var(fv) => rest.insert(fv.name.name@),
            _ => rest,
        }
    }
}

/// The names declared by a variable statement.
pub open spec fn decl_names(ds: Seq<StmtVarDecl>) -> Set<Seq<char>>
    decreases ds.len(),
{
    if ds.len() == 0 {
        Set::empty()
    } else {
        decl_names(ds.subrange(0, ds.len() - 1)).insert(ds[ds.len() - 1].name.name@)
    }
}

/// The names bound by an `as` narrowing condition.
pub open spec fn as_binding_names(bs: Seq<StmtIfNarrowingAsBinding>) -> Set<Seq<char>>
    decreases bs.len(),
{
    if bs.len() == 0 {
        Set::empty()
    } else {
        as_binding_names(bs.subrange(0, bs.len() - 1)).insert(bs[bs.len() - 1].name.name@)
    }
}

/// The names bound by a nil narrowing condition.
pub open spec fn nil_binding_names(bs: Seq<StmtIfNarrowingNilBinding>) -> Set<Seq<char>>
    decreases bs.len(),
{
    if bs.len() == 0 {
        Set::empty()
    } else {
        nil_binding_names(bs.subrange(0, bs.len() - 1)).insert(bs[bs.len() - 1].name.name@)
    }
}

/// The shadowed names after a statement: a variable statement shadows what it
/// declares; an `if` shadows what the declarations in its conditions declare.
pub open spec fn stmt_shadow(s: Stmt, sh: Set<Seq<char>>) -> Set<Seq<char>>
    decreases s,
{
    match s {
        Stmt::Var(v) => sh.union(decl_names(v.vars@)),
        Stmt::If(i) => elifs_shadow(i.else_ifs@, cond_shadow(i.condition, sh)),
        _ => sh,
    }
}

/// The shadowed names after evaluating an `if` condition.
pub open spec fn cond_shadow(c: StmtIfCondition, sh: Set<Seq<char>>) -> Set<Seq<char>>
    decreases c,
{
    match c {
        StmtIfCondition::Bool(b) => match b.init {
            Some(init) => stmt_shadow(*init, sh),
            None => sh,
        },
        _ => sh,
    }
}

/// The shadowed names after evaluating the conditions of `else if` branches in order.
pub open spec fn elifs_shadow(es: Seq<StmtIfElseIf>, sh: Set<Seq<char>>) -> Set<Seq<char>>
    decreases es,
{
    if es.len() == 0 {
        sh
    } else {
        cond_shadow(es[es.len() - 1].condition, elifs_shadow(es.subrange(0, es.len() - 1), sh))
    }
}

/// The shadowed names after a statement list.
pub open spec fn stmts_shadow(ss: Seq<Stmt>, sh: Set<Seq<char>>) -> Set<Seq<char>>
    decreases ss.len(),
{
    if ss.len() == 0 {
        sh
    } else {
        stmt_shadow(ss[ss.len() - 1], stmts_shadow(ss.subrange(0, ss.len() - 1), sh))
    }
}

/// The shadowed names inside the branch that an `if` condition guards: those
/// declared by its initialiser and those its narrowing bindings bind.
pub open spec fn bindings_shadow(c: StmtIfCondition, sh: Set<Seq<char>>) -> Set<Seq<char>> {
    match c {
        StmtIfCondition::Bool(b) => match b.init {
            Some(init) => match *init {
                Stmt::Var(v) => sh.union(decl_names(v.vars@)),
                _ => sh,
            },
            None => sh,
        },
        StmtIfCondition::NarrowingAs(n) => sh.union(as_binding_names(n.bindings@)),
        StmtIfCondition::NarrowingNil(n) => sh.union(nil_binding_names(n.bindings@)),
    }
}

// ---------------------------------------------------------------------------
// References to fields
// ---------------------------------------------------------------------------

/// The bare identifiers of `e` that name one of `f` and are not shadowed,
/// where `sh` holds the names shadowed where `e` stands.
pub open spec fn expr_refs(e: Expr, f: Set<Seq<char>>, sh: Set<Seq<char>>) -> Set<Seq<char>>
    decreases e,
{
    match e {
        Expr::Ident(id) => if f.contains(id.name@) && !sh.contains(id.name@) {
            set![id.name@]
        } else {
            Set::empty()
        },
        Expr::Access(a) => expr_refs(*a.expr, f, sh),
        Expr::Paren(p) => expr_refs(*p.expr, f, sh),
        Expr::Unary(u) => expr_refs(*u.expr, f, sh),
        Expr::Binary(b) => expr_refs(*b.left, f, sh).union(expr_refs(*b.right, f, sh)),
        Expr::Narrowing(n) => expr_refs(*n.expr, f, sh).union(
            match n.kind {
                ExprNarrowingKind::Nil(nil) => match nil.else_expr {
                    Some(x) => expr_refs(*x, f, sh),
                    None => Set::empty(),
                },
                ExprNarrowingKind::As(a) => match a.else_expr {
                    Some(x) => expr_refs(*x, f, sh),
                    None => Set::empty(),
                },
            },
        ),
        Expr::Invocation(inv) => expr_refs(*inv.expr, f, sh).union(args_refs(inv.args@, f, sh)),
        Expr::Wait(w) => expr_refs(*w.condition, f, sh),
        Expr::Spawn(s) => expr_refs(*s.invocation, f, sh).union(
            match s.id {
                Some(x) => expr_refs(*x, f, sh),
                None => Set::empty(),
            },
        ),
        Expr::Literal(l) => match l.kind {
            ExprLiteralKind::Array(items) => exprs_refs(items@, f, sh),
            ExprLiteralKind::MapLiteral(entries) => entries_refs(entries@, f, sh),
            _ => Set::empty(),
        },
        Expr::AnonFunc(func) => {
            let inner = sh.union(var_field_names(func.fields@));
            defaults_refs(func.fields@, f, inner, false).union(stmts_refs(func.stmts@, f, inner))
        },
        Expr::AnonData(data) => defaults_refs(data.fields@, f, sh, true),
        _ => Set::empty(),
    }
}

/// The field references of a list of expressions.
pub open spec fn exprs_refs(es: Seq<Expr>, f: Set<Seq<char>>, sh: Set<Seq<char>>) -> Set<Seq<char>>
    decreases es,
{
    if es.len() == 0 {
        Set::empty()
    } else {
        exprs_refs(es.subrange(0, es.len() - 1), f, sh).union(expr_refs(es[es.len() - 1], f, sh))
    }
}

/// The field references of the values of invocation arguments.
pub open spec fn args_refs(
    args: Seq<ExprInvocationArg>,
    f: Set<Seq<char>>,
    sh: Set<Seq<char>>,
) -> Set<Seq<char>>
    decreases args,
{
    if args.len() == 0 {
        Set::empty()
    } else {
        args_refs(args.subrange(0, args.len() - 1), f, sh).union(
            expr_refs(args[args.len() - 1].value, f, sh),
        )
    }
}

/// The field references of the keys and values of map literal entries.
pub open spec fn entries_refs(
    es: Seq<ExprLiteralMapEntry>,
    f: Set<Seq<char>>,
    sh: Set<Seq<char>>,
) -> Set<Seq<char>>
    decreases es,
{
    if es.len() == 0 {
        Set::empty()
    } else {
        let last = es[es.len() - 1];
        entries_refs(es.subrange(0, es.len() - 1), f, sh).union(
            expr_refs(last.key, f, sh).union(expr_refs(last.value, f, sh)),
        )
    }
}

/// The field references of the defaults of the variable fields `fs`. With
/// `grow`, each field's own name and those before it are shadowed in its
/// default (the fields of an anonymous data type); without, only `sh` is.
pub open spec fn defaults_refs(
    fs: Seq<Field>,
    f: Set<Seq<char>>,
    sh: Set<Seq<char>>,
    grow: bool,
) -> Set<Seq<char>>
    decreases fs,
{
    if fs.len() == 0 {
        Set::empty()
    } else {
        let here = if grow {
            sh.union(var_field_names(fs))
        } else {
            sh
        };
        defaults_refs(fs.subrange(0, fs.len() - 1), f, sh, grow).union(
            match fs[fs.len() - 1].kind {
                FieldKind::Var(fv) => match fv.default {
                    Some(d) => expr_refs(d, f, here),
                    None => Set::empty(),
                },
                _ => Set::empty(),
            },
        )
    }
}

/// The field references of a statement, where `sh` holds the names shadowed
/// before it.
pub open spec fn stmt_refs(s: Stmt, f: Set<Seq<char>>, sh: Set<Seq<char>>) -> Set<Seq<char>>
    decreases s,
{
    match s {
        Stmt::Expr(e) => expr_refs(e, f, sh),
        Stmt::Var(v) => exprs_refs(v.values@, f, sh),
        Stmt::Assign(a) => exprs_refs(a.values@, f, sh).union(exprs_refs(a.vars@, f, sh)),
        Stmt::Block(b) => stmts_refs(b.stmts@, f, sh),
        Stmt::If(i) => {
            let sh1 = cond_shadow(i.condition, sh);
            let sh2 = elifs_shadow(i.else_ifs@, sh1);
            cond_refs(i.condition, f, sh).union(
                stmts_refs(i.then_block.stmts@, f, bindings_shadow(i.condition, sh1)),
            ).union(elifs_refs(i.else_ifs@, f, sh1)).union(
                match i.else_block {
                    Some(b) => stmts_refs(b.stmts@, f, sh2),
                    None => Set::empty(),
                },
            )
        },
        Stmt::For(fs) => match fs.clause {
            Some(StmtForClause::Condition(c)) => expr_refs(c.expr, f, sh).union(
                stmts_refs(fs.block.stmts@, f, sh),
            ),
            Some(StmtForClause::In(fi)) => expr_refs(fi.expr, f, sh).union(
                stmts_refs(fs.block.stmts@, f, sh.insert(fi.var.name@)),
            ),
            None => stmts_refs(fs.block.stmts@, f, sh),
        },
        Stmt::Defer(d) => stmts_refs(d.block.stmts@, f, sh),
        Stmt::ReturnEarly(r) => expr_refs(r.expr, f, sh),
        Stmt::Implicitly(imp) => exprs_refs(imp.exprs@, f, sh).union(
            match imp.block {
                Some(b) => stmts_refs(b.stmts@, f, sh),
                None => Set::empty(),
            },
        ),
        Stmt::Patch(p) => match p.kind {
            StmtPatchKind::Chain(c) => branches_refs(c.branches@, f, sh),
            StmtPatchKind::Complete(_) => Set::empty(),
        },
        _ => Set::empty(),
    }
}

/// The field references of a statement list; each statement sees the names
/// shadowed by those before it.
pub open spec fn stmts_refs(ss: Seq<Stmt>, f: Set<Seq<char>>, sh: Set<Seq<char>>) -> Set<Seq<char>>
    decreases ss,
{
    if ss.len() == 0 {
        Set::empty()
    } else {
        let pre = ss.subrange(0, ss.len() - 1);
        stmts_refs(pre, f, sh).union(stmt_refs(ss[ss.len() - 1], f, stmts_shadow(pre, sh)))
    }
}

/// The field references of an `if` condition.
pub open spec fn cond_refs(c: StmtIfCondition, f: Set<Seq<char>>, sh: Set<Seq<char>>) -> Set<
    Seq<char>,
>
    decreases c,
{
    match c {
        StmtIfCondition::Bool(b) => match b.init {
            Some(init) => stmt_refs(*init, f, sh).union(
                expr_refs(b.expr, f, stmt_shadow(*init, sh)),
            ),
            None => expr_refs(b.expr, f, sh),
        },
        StmtIfCondition::NarrowingAs(n) => as_bindings_refs(n.bindings@, f, sh),
        StmtIfCondition::NarrowingNil(n) => nil_bindings_refs(n.bindings@, f, sh),
    }
}

/// The field references of the expressions of `as` narrowing bindings.
pub open spec fn as_bindings_refs(
    bs: Seq<StmtIfNarrowingAsBinding>,
    f: Set<Seq<char>>,
    sh: Set<Seq<char>>,
) -> Set<Seq<char>>
    decreases bs,
{
    if bs.len() == 0 {
        Set::empty()
    } else {
        as_bindings_refs(bs.subrange(0, bs.len() - 1), f, sh).union(
            expr_refs(bs[bs.len() - 1].expr, f, sh),
        )
    }
}

/// The field references of the expressions of nil narrowing bindings.
pub open spec fn nil_bindings_refs(
    bs: Seq<StmtIfNarrowingNilBinding>,
    f: Set<Seq<char>>,
    sh: Set<Seq<char>>,
) -> Set<Seq<char>>
    decreases bs,
{
    if bs.len() == 0 {
        Set::empty()
    } else {
        nil_bindings_refs(bs.subrange(0, bs.len() - 1), f, sh).union(
            expr_refs(bs[bs.len() - 1].expr, f, sh),
        )
    }
}

/// The field references of `else if` branches: conditions in order, each
/// branch body seeing the names its condition binds.
pub open spec fn elifs_refs(es: Seq<StmtIfElseIf>, f: Set<Seq<char>>, sh: Set<Seq<char>>) -> Set<
    Seq<char>,
>
    decreases es,
{
    if es.len() == 0 {
        Set::empty()
    } else {
        let pre = es.subrange(0, es.len() - 1);
        let e = es[es.len() - 1];
        let sh0 = elifs_shadow(pre, sh);
        elifs_refs(pre, f, sh).union(cond_refs(e.condition, f, sh0)).union(
            stmts_refs(e.then_block.stmts@, f, bindings_shadow(e.condition, cond_shadow(e.condition, sh0))),
        )
    }
}

/// The field references of the branches of a patch chain.
pub open spec fn branches_refs(
    bs: Seq<StmtPatchBranch>,
    f: Set<Seq<char>>,
    sh: Set<Seq<char>>,
) -> Set<Seq<char>>
    decreases bs,
{
    if bs.len() == 0 {
        Set::empty()
    } else {
        branches_refs(bs.subrange(0, bs.len() - 1), f, sh).union(
            stmts_refs(bs[bs.len() - 1].stmts@, f, sh),
        )
    }
}

// ---------------------------------------------------------------------------
// What is reported
// ---------------------------------------------------------------------------

/// Every name in `r` is one of `f` and none of `sh`.
pub open spec fn refs_within(r: Set<Seq<char>>, f: Set<Seq<char>>, sh: Set<Seq<char>>) -> bool {
    forall|x: Seq<char>| #[trigger] r.contains(x) ==> f.contains(x) && !sh.contains(x)
}

/// A statement only adds to the shadowed names.
pub proof fn lemma_stmt_shadow_grows(s: Stmt, sh: Set<Seq<char>>)
    ensures
        sh.subset_of(stmt_shadow(s, sh)),
    decreases s,
{
    match s {
        Stmt::If(i) => {
            lemma_cond_shadow_grows(i.condition, sh);
            lemma_elifs_shadow_grows(i.else_ifs@, cond_shadow(i.condition, sh));
        },
        _ => {},
    }
}

/// An `if` condition only adds to the shadowed names.
pub proof fn lemma_cond_shadow_grows(c: StmtIfCondition, sh: Set<Seq<char>>)
    ensures
        sh.subset_of(cond_shadow(c, sh)),
    decreases c,
{
    match c {
        StmtIfCondition::Bool(b) => match b.init {
            Some(init) => lemma_stmt_shadow_grows(*init, sh),
            None => {},
        },
        _ => {},
    }
}

/// `else if` conditions only add to the shadowed names.
pub proof fn lemma_elifs_shadow_grows(es: Seq<StmtIfElseIf>, sh: Set<Seq<char>>)
    ensures
        sh.subset_of(elifs_shadow(es, sh)),
    decreases es,
{
    if es.len() > 0 {
        let pre = es.subrange(0, es.len() - 1);
        lemma_elifs_shadow_grows(pre, sh);
        lemma_cond_shadow_grows(es[es.len() - 1].condition, elifs_shadow(pre, sh));
    }
}

/// A statement list only adds to the shadowed names.
pub proof fn lemma_stmts_shadow_grows(ss: Seq<Stmt>, sh: Set<Seq<char>>)
    ensures
        sh.subset_of(stmts_shadow(ss, sh)),
    decreases ss.len(),
{
    if ss.len() > 0 {
        let pre = ss.subrange(0, ss.len() - 1);
        lemma_stmts_shadow_grows(pre, sh);
        lemma_stmt_shadow_grows(ss[ss.len() - 1], stmts_shadow(pre, sh));
    }
}

/// What an expression references is a field name that is not shadowed.
pub proof fn lemma_expr_refs_within(e: Expr, f: Set<Seq<char>>, sh: Set<Seq<char>>)
    ensures
        refs_within(expr_refs(e, f, sh), f, sh),
    decreases e,
{
    match e {
        Expr::Access(a) => lemma_expr_refs_within(*a.expr, f, sh),
        Expr::Paren(p) => lemma_expr_refs_within(*p.expr, f, sh),
        Expr::Unary(u) => lemma_expr_refs_within(*u.expr, f, sh),
        Expr::Binary(b) => {
            lemma_expr_refs_within(*b.left, f, sh);
            lemma_expr_refs_within(*b.right, f, sh);
        },
        Expr::Narrowing(n) => {
            lemma_expr_refs_within(*n.expr, f, sh);
            match n.kind {
                ExprNarrowingKind::Nil(nil) => match nil.else_expr {
                    Some(x) => lemma_expr_refs_within(*x, f, sh),
                    None => {},
                },
                ExprNarrowingKind::As(a) => match a.else_expr {
                    Some(x) => lemma_expr_refs_within(*x, f, sh),
                    None => {},
                },
            }
        },
        Expr::Invocation(inv) => {
            lemma_expr_refs_within(*inv.expr, f, sh);
            lemma_args_refs_within(inv.args@, f, sh);
        },
        Expr::Wait(w) => lemma_expr_refs_within(*w.condition, f, sh),
        Expr::Spawn(s) => {
            lemma_expr_refs_within(*s.invocation, f, sh);
            match s.id {
                Some(x) => lemma_expr_refs_within(*x, f, sh),
                None => {},
            }
        },
        Expr::Literal(l) => match l.kind {
            ExprLiteralKind::Array(items) => lemma_exprs_refs_within(items@, f, sh),
            ExprLiteralKind::MapLiteral(entries) => lemma_entries_refs_within(entries@, f, sh),
            _ => {},
        },
        Expr::AnonFunc(func) => {
            let inner = sh.union(var_field_names(func.fields@));
            lemma_defaults_refs_within(func.fields@, f, inner, false);
            lemma_stmts_refs_within(func.stmts@, f, inner);
        },
        Expr::AnonData(data) => lemma_defaults_refs_within(data.fields@, f, sh, true),
        _ => {},
    }
}

/// `lemma_expr_refs_within` over a list of expressions.
pub proof fn lemma_exprs_refs_within(es: Seq<Expr>, f: Set<Seq<char>>, sh: Set<Seq<char>>)
    ensures
        refs_within(exprs_refs(es, f, sh), f, sh),
    decreases es,
{
    if es.len() > 0 {
        lemma_exprs_refs_within(es.subrange(0, es.len() - 1), f, sh);
        lemma_expr_refs_within(es[es.len() - 1], f, sh);
    }
}

/// `lemma_expr_refs_within` over invocation arguments.
pub proof fn lemma_args_refs_within(
    args: Seq<ExprInvocationArg>,
    f: Set<Seq<char>>,
    sh: Set<Seq<char>>,
)
    ensures
        refs_within(args_refs(args, f, sh), f, sh),
    decreases args,
{
    if args.len() > 0 {
        lemma_args_refs_within(args.subrange(0, args.len() - 1), f, sh);
        lemma_expr_refs_within(args[args.len() - 1].value, f, sh);
    }
}

/// `lemma_expr_refs_within` over map literal entries.
pub proof fn lemma_entries_refs_within(
    es: Seq<ExprLiteralMapEntry>,
    f: Set<Seq<char>>,
    sh: Set<Seq<char>>,
)
    ensures
        refs_within(entries_refs(es, f, sh), f, sh),
    decreases es,
{
    if es.len() > 0 {
        lemma_entries_refs_within(es.subrange(0, es.len() - 1), f, sh);
        lemma_expr_refs_within(es[es.len() - 1].key, f, sh);
        lemma_expr_refs_within(es[es.len() - 1].value, f, sh);
    }
}

/// `lemma_expr_refs_within` over field defaults.
pub proof fn lemma_defaults_refs_within(
    fs: Seq<Field>,
    f: Set<Seq<char>>,
    sh: Set<Seq<char>>,
    grow: bool,
)
    ensures
        refs_within(defaults_refs(fs, f, sh, grow), f, sh),
    decreases fs,
{
    if fs.len() > 0 {
        lemma_defaults_refs_within(fs.subrange(0, fs.len() - 1), f, sh, grow);
        let here = if grow {
            sh.union(var_field_names(fs))
        } else {
            sh
        };
        match fs[fs.len() - 1].kind {
            FieldKind::Var(fv) => match fv.default {
                Some(d) => lemma_expr_refs_within(d, f, here),
                None => {},
            },
            _ => {},
        }
    }
}

/// What a statement references is a field name that is not shadowed.
pub proof fn lemma_stmt_refs_within(s: Stmt, f: Set<Seq<char>>, sh: Set<Seq<char>>)
    ensures
        refs_within(stmt_refs(s, f, sh), f, sh),
    decreases s,
{
    match s {
        Stmt::Expr(e) => lemma_expr_refs_within(e, f, sh),
        Stmt::Var(v) => lemma_exprs_refs_within(v.values@, f, sh),
        Stmt::Assign(a) => {
            lemma_exprs_refs_within(a.values@, f, sh);
            lemma_exprs_refs_within(a.vars@, f, sh);
        },
        Stmt::Block(b) => lemma_stmts_refs_within(b.stmts@, f, sh),
        Stmt::If(i) => {
            let sh1 = cond_shadow(i.condition, sh);
            let sh2 = elifs_shadow(i.else_ifs@, sh1);
            lemma_cond_shadow_grows(i.condition, sh);
            lemma_elifs_shadow_grows(i.else_ifs@, sh1);
            lemma_cond_refs_within(i.condition, f, sh);
            lemma_stmts_refs_within(i.then_block.stmts@, f, bindings_shadow(i.condition, sh1));
            lemma_elifs_refs_within(i.else_ifs@, f, sh1);
            match i.else_block {
                Some(b) => lemma_stmts_refs_within(b.stmts@, f, sh2),
                None => {},
            }
        },
        Stmt::For(fs) => match fs.clause {
            Some(StmtForClause::Condition(c)) => {
                lemma_expr_refs_within(c.expr, f, sh);
                lemma_stmts_refs_within(fs.block.stmts@, f, sh);
            },
            Some(StmtForClause::In(fi)) => {
                lemma_expr_refs_within(fi.expr, f, sh);
                lemma_stmts_refs_within(fs.block.stmts@, f, sh.insert(fi.var.name@));
            },
            None => lemma_stmts_refs_within(fs.block.stmts@, f, sh),
        },
        Stmt::Defer(d) => lemma_stmts_refs_within(d.block.stmts@, f, sh),
        Stmt::ReturnEarly(r) => lemma_expr_refs_within(r.expr, f, sh),
        Stmt::Implicitly(imp) => {
            lemma_exprs_refs_within(imp.exprs@, f, sh);
            match imp.block {
                Some(b) => lemma_stmts_refs_within(b.stmts@, f, sh),
                None => {},
            }
        },
        Stmt::Patch(p) => match p.kind {
            StmtPatchKind::Chain(c) => lemma_branches_refs_within(c.branches@, f, sh),
            StmtPatchKind::Complete(_) => {},
        },
        _ => {},
    }
}

/// `lemma_stmt_refs_within` over a statement list.
pub proof fn lemma_stmts_refs_within(ss: Seq<Stmt>, f: Set<Seq<char>>, sh: Set<Seq<char>>)
    ensures
        refs_within(stmts_refs(ss, f, sh), f, sh),
    decreases ss,
{
    if ss.len() > 0 {
        let pre = ss.subrange(0, ss.len() - 1);
        lemma_stmts_refs_within(pre, f, sh);
        lemma_stmts_shadow_grows(pre, sh);
        lemma_stmt_refs_within(ss[ss.len() - 1], f, stmts_shadow(pre, sh));
    }
}

/// What an `if` condition references is a field name that is not shadowed.
pub proof fn lemma_cond_refs_within(c: StmtIfCondition, f: Set<Seq<char>>, sh: Set<Seq<char>>)
    ensures
        refs_within(cond_refs(c, f, sh), f, sh),
    decreases c,
{
    match c {
        StmtIfCondition::Bool(b) => match b.init {
            Some(init) => {
                lemma_stmt_refs_within(*init, f, sh);
                lemma_stmt_shadow_grows(*init, sh);
                lemma_expr_refs_within(b.expr, f, stmt_shadow(*init, sh));
            },
            None => lemma_expr_refs_within(b.expr, f, sh),
        },
        StmtIfCondition::NarrowingAs(n) => lemma_as_bindings_refs_within(n.bindings@, f, sh),
        StmtIfCondition::NarrowingNil(n) => lemma_nil_bindings_refs_within(n.bindings@, f, sh),
    }
}

/// `lemma_expr_refs_within` over `as` narrowing bindings.
pub proof fn lemma_as_bindings_refs_within(
    bs: Seq<StmtIfNarrowingAsBinding>,
    f: Set<Seq<char>>,
    sh: Set<Seq<char>>,
)
    ensures
        refs_within(as_bindings_refs(bs, f, sh), f, sh),
    decreases bs,
{
    if bs.len() > 0 {
        lemma_as_bindings_refs_within(bs.subrange(0, bs.len() - 1), f, sh);
        lemma_expr_refs_within(bs[bs.len() - 1].expr, f, sh);
    }
}

/// `lemma_expr_refs_within` over nil narrowing bindings.
pub proof fn lemma_nil_bindings_refs_within(
    bs: Seq<StmtIfNarrowingNilBinding>,
    f: Set<Seq<char>>,
    sh: Set<Seq<char>>,
)
    ensures
        refs_within(nil_bindings_refs(bs, f, sh), f, sh),
    decreases bs,
{
    if bs.len() > 0 {
        lemma_nil_bindings_refs_within(bs.subrange(0, bs.len() - 1), f, sh);
        lemma_expr_refs_within(bs[bs.len() - 1].expr, f, sh);
    }
}

/// `lemma_stmt_refs_within` over `else if` branches.
pub proof fn lemma_elifs_refs_within(es: Seq<StmtIfElseIf>, f: Set<Seq<char>>, sh: Set<Seq<char>>)
    ensures
        refs_within(elifs_refs(es, f, sh), f, sh),
    decreases es,
{
    if es.len() > 0 {
        let pre = es.subrange(0, es.len() - 1);
        let e = es[es.len() - 1];
        let sh0 = elifs_shadow(pre, sh);
        lemma_elifs_refs_within(pre, f, sh);
        lemma_elifs_shadow_grows(pre, sh);
        lemma_cond_refs_within(e.condition, f, sh0);
        lemma_cond_shadow_grows(e.condition, sh0);
        lemma_stmts_refs_within(
            e.then_block.stmts@,
            f,
            bindings_shadow(e.condition, cond_shadow(e.condition, sh0)),
        );
    }
}

/// `lemma_stmt_refs_within` over the branches of a patch chain.
pub proof fn lemma_branches_refs_within(
    bs: Seq<StmtPatchBranch>,
    f: Set<Seq<char>>,
    sh: Set<Seq<char>>,
)
    ensures
        refs_within(branches_refs(bs, f, sh), f, sh),
    decreases bs,
{
    if bs.len() > 0 {
        lemma_branches_refs_within(bs.subrange(0, bs.len() - 1), f, sh);
        lemma_stmts_refs_within(bs[bs.len() - 1].stmts@, f, sh);
    }
}

// ---------------------------------------------------------------------------
// Walkers
// ---------------------------------------------------------------------------

/// Add to `out` the names of `fields` that `expr` references bare and that
/// `shadowed` does not hold.
fn collect_field_refs_expr(expr: &Expr, fields: &SymbolSet, shadowed: &SymbolSet, out: &mut SymbolSet)
    requires
        shadowed.wf(),
        old(out).wf(),
    ensures
        final(out).wf(),
        final(out)@ == old(out)@.union(expr_refs(*expr, fields@, shadowed@)),
    decreases expr,
{
    match expr {
        Expr::Ident(id) => {
            if fields.contains_sym(&id.name) && !shadowed.contains_sym(&id.name) {
                out.insert(id.name.dup());
            }
        },
        Expr::Access(a) => collect_field_refs_expr(&a.expr, fields, shadowed, out),
        Expr::Paren(p) => collect_field_refs_expr(&p.expr, fields, shadowed, out),
        Expr::Unary(u) => collect_field_refs_expr(&u.expr, fields, shadowed, out),
        Expr::Binary(b) => {
            collect_field_refs_expr(&b.left, fields, shadowed, out);
            collect_field_refs_expr(&b.right, fields, shadowed, out);
        },
        Expr::Narrowing(n) => {
            collect_field_refs_expr(&n.expr, fields, shadowed, out);
            match &n.kind {
                ExprNarrowingKind::Nil(nil) => {
                    if let Some(x) = &nil.else_expr {
                        collect_field_refs_expr(x, fields, shadowed, out);
                    }
                },
                ExprNarrowingKind::As(a) => {
                    if let Some(x) = &a.else_expr {
                        collect_field_refs_expr(x, fields, shadowed, out);
                    }
                },
            }
        },
        Expr::Invocation(inv) => {
            collect_field_refs_expr(&inv.expr, fields, shadowed, out);
            refs_args(&inv.args, fields, shadowed, out);
        },
        Expr::Wait(w) => collect_field_refs_expr(&w.condition, fields, shadowed, out),
        Expr::Spawn(s) => {
            collect_field_refs_expr(&s.invocation, fields, shadowed, out);
            if let Some(x) = &s.id {
                collect_field_refs_expr(x, fields, shadowed, out);
            }
        },
        Expr::Literal(l) => match &l.kind {
            ExprLiteralKind::Array(items) => refs_exprs(items, fields, shadowed, out),
            ExprLiteralKind::MapLiteral(entries) => refs_entries(entries, fields, shadowed, out),
            _ => {},
        },
        Expr::AnonFunc(func) => {
            let mut inner = shadowed.dup();
            add_var_field_names(&func.fields, &mut inner);
            refs_defaults(&func.fields, fields, &inner, out);
            collect_field_refs_stmts(&func.stmts, fields, &mut inner, out);
        },
        Expr::AnonData(data) => {
            let mut inner = shadowed.dup();
            refs_data_fields(&data.fields, fields, &mut inner, out);
        },
        _ => {},
    }
}

/// `collect_field_refs_expr` over a list of expressions.
fn refs_exprs(items: &Vec<Expr>, fields: &SymbolSet, shadowed: &SymbolSet, out: &mut SymbolSet)
    requires
        shadowed.wf(),
        old(out).wf(),
    ensures
        final(out).wf(),
        final(out)@ == old(out)@.union(exprs_refs(items@, fields@, shadowed@)),
    decreases items,
{
    let mut i: usize = 0;
    while i < items.len()
        invariant
            i <= items@.len(),
            shadowed.wf(),
            out.wf(),
            out@ == old(out)@.union(exprs_refs(items@.subrange(0, i as int), fields@, shadowed@)),
        decreases items@.len() - i,
    {
        assert(items@.subrange(0, i + 1).subrange(0, i as int) =~= items@.subrange(0, i as int));
        collect_field_refs_expr(&items[i], fields, shadowed, out);
        i = i + 1;
    }
    assert(items@.subrange(0, items@.len() as int) =~= items@);
}

/// `collect_field_refs_expr` over the values of invocation arguments.
fn refs_args(
    args: &Vec<ExprInvocationArg>,
    fields: &SymbolSet,
    shadowed: &SymbolSet,
    out: &mut SymbolSet,
)
    requires
        shadowed.wf(),
        old(out).wf(),
    ensures
        final(out).wf(),
        final(out)@ == old(out)@.union(args_refs(args@, fields@, shadowed@)),
    decreases args,
{
    let mut i: usize = 0;
    while i < args.len()
        invariant
            i <= args@.len(),
            shadowed.wf(),
            out.wf(),
            out@ == old(out)@.union(args_refs(args@.subrange(0, i as int), fields@, shadowed@)),
        decreases args@.len() - i,
    {
        assert(args@.subrange(0, i + 1).subrange(0, i as int) =~= args@.subrange(0, i as int));
        collect_field_refs_expr(&args[i].value, fields, shadowed, out);
        i = i + 1;
    }
    assert(args@.subrange(0, args@.len() as int) =~= args@);
}

/// `collect_field_refs_expr` over the keys and values of map literal entries.
fn refs_entries(
    entries: &Vec<ExprLiteralMapEntry>,
    fields: &SymbolSet,
    shadowed: &SymbolSet,
    out: &mut SymbolSet,
)
    requires
        shadowed.wf(),
        old(out).wf(),
    ensures
        final(out).wf(),
        final(out)@ == old(out)@.union(entries_refs(entries@, fields@, shadowed@)),
    decreases entries,
{
    let mut i: usize = 0;
    while i < entries.len()
        invariant
            i <= entries@.len(),
            shadowed.wf(),
            out.wf(),
            out@ == old(out)@.union(
                entries_refs(entries@.subrange(0, i as int), fields@, shadowed@),
            ),
        decreases entries@.len() - i,
    {
        assert(entries@.subrange(0, i + 1).subrange(0, i as int) =~= entries@.subrange(
            0,
            i as int,
        ));
        collect_field_refs_expr(&entries[i].key, fields, shadowed, out);
        collect_field_refs_expr(&entries[i].value, fields, shadowed, out);
        i = i + 1;
    }
    assert(entries@.subrange(0, entries@.len() as int) =~= entries@);
}

/// Shadow the names of the variable fields of `fs`.
fn add_var_field_names(fs: &Vec<Field>, shadowed: &mut SymbolSet)
    requires
        old(shadowed).wf(),
    ensures
        final(shadowed).wf(),
        final(shadowed)@ == old(shadowed)@.union(var_field_names(fs@)),
{
    let mut i: usize = 0;
    while i < fs.len()
        invariant
            i <= fs@.len(),
            shadowed.wf(),
            shadowed@ == old(shadowed)@.union(var_field_names(fs@.subrange(0, i as int))),
        decreases fs@.len() - i,
    {
        assert(fs@.subrange(0, i + 1).subrange(0, i as int) =~= fs@.subrange(0, i as int));
        if let FieldKind::Var(fv) = &fs[i].kind {
            shadowed.insert(fv.name.name.dup());
        }
        i = i + 1;
    }
    assert(fs@.subrange(0, fs@.len() as int) =~= fs@);
}

/// `collect_field_refs_expr` over the defaults of the variable fields of an anonymous
/// function, all of whose names are already shadowed.
fn refs_defaults(fs: &Vec<Field>, fields: &SymbolSet, shadowed: &SymbolSet, out: &mut SymbolSet)
    requires
        shadowed.wf(),
        old(out).wf(),
    ensures
        final(out).wf(),
        final(out)@ == old(out)@.union(defaults_refs(fs@, fields@, shadowed@, false)),
    decreases fs,
{
    let mut i: usize = 0;
    while i < fs.len()
        invariant
            i <= fs@.len(),
            shadowed.wf(),
            out.wf(),
            out@ == old(out)@.union(
                defaults_refs(fs@.subrange(0, i as int), fields@, shadowed@, false),
            ),
        decreases fs@.len() - i,
    {
        assert(fs@.subrange(0, i + 1).subrange(0, i as int) =~= fs@.subrange(0, i as int));
        if let FieldKind::Var(fv) = &fs[i].kind {
            if let Some(d) = &fv.default {
                collect_field_refs_expr(d, fields, shadowed, out);
            }
        }
        i = i + 1;
    }
    assert(fs@.subrange(0, fs@.len() as int) =~= fs@);
}

/// The fields of an anonymous data type in order: each variable field's name
/// is shadowed, then its default walked.
fn refs_data_fields(
    fs: &Vec<Field>,
    fields: &SymbolSet,
    shadowed: &mut SymbolSet,
    out: &mut SymbolSet,
)
    requires
        old(shadowed).wf(),
        old(out).wf(),
    ensures
        final(shadowed).wf(),
        final(out).wf(),
        final(shadowed)@ == old(shadowed)@.union(var_field_names(fs@)),
        final(out)@ == old(out)@.union(defaults_refs(fs@, fields@, old(shadowed)@, true)),
    decreases fs,
{
    let mut i: usize = 0;
    while i < fs.len()
        invariant
            i <= fs@.len(),
            shadowed.wf(),
            out.wf(),
            shadowed@ == old(shadowed)@.union(var_field_names(fs@.subrange(0, i as int))),
            out@ == old(out)@.union(
                defaults_refs(fs@.subrange(0, i as int), fields@, old(shadowed)@, true),
            ),
        decreases fs@.len() - i,
    {
        assert(fs@.subrange(0, i + 1).subrange(0, i as int) =~= fs@.subrange(0, i as int));
        if let FieldKind::Var(fv) = &fs[i].kind {
            shadowed.insert(fv.name.name.dup());
            assert(shadowed@ =~= old(shadowed)@.union(var_field_names(fs@.subrange(0, i + 1))));
            if let Some(d) = &fv.default {
                collect_field_refs_expr(d, fields, shadowed, out);
            }
        }
        i = i + 1;
    }
    assert(fs@.subrange(0, fs@.len() as int) =~= fs@);
}

/// Shadow the names that a variable statement declares.
fn add_decl_names(ds: &Vec<StmtVarDecl>, shadowed: &mut SymbolSet)
    requires
        old(shadowed).wf(),
    ensures
        final(shadowed).wf(),
        final(shadowed)@ == old(shadowed)@.union(decl_names(ds@)),
{
    let mut i: usize = 0;
    while i < ds.len()
        invariant
            i <= ds@.len(),
            shadowed.wf(),
            shadowed@ == old(shadowed)@.union(decl_names(ds@.subrange(0, i as int))),
        decreases ds@.len() - i,
    {
        assert(ds@.subrange(0, i + 1).subrange(0, i as int) =~= ds@.subrange(0, i as int));
        shadowed.insert(ds[i].name.name.dup());
        i = i + 1;
    }
    assert(ds@.subrange(0, ds@.len() as int) =~= ds@);
}

/// Walk a statement: add its field references to `out`, and shadow in
/// `shadowed` what it declares.
fn collect_field_refs_stmt(stmt: &Stmt, fields: &SymbolSet, shadowed: &mut SymbolSet, out: &mut SymbolSet)
    requires
        old(shadowed).wf(),
        old(out).wf(),
    ensures
        final(shadowed).wf(),
        final(out).wf(),
        final(shadowed)@ == stmt_shadow(*stmt, old(shadowed)@),
        final(out)@ == old(out)@.union(stmt_refs(*stmt, fields@, old(shadowed)@)),
    decreases stmt,
{
    match stmt {
        Stmt::Expr(e) => collect_field_refs_expr(e, fields, shadowed, out),
        Stmt::Var(v) => {
            refs_exprs(&v.values, fields, shadowed, out);
            add_decl_names(&v.vars, shadowed);
        },
        Stmt::Assign(a) => {
            refs_exprs(&a.values, fields, shadowed, out);
            refs_exprs(&a.vars, fields, shadowed, out);
        },
        Stmt::Block(b) => {
            let mut inner = shadowed.dup();
            collect_field_refs_stmts(&b.stmts, fields, &mut inner, out);
        },
        Stmt::If(i) => refs_if(i, fields, shadowed, out),
        Stmt::For(fs) => {
            let mut inner = shadowed.dup();
            match &fs.clause {
                Some(StmtForClause::Condition(c)) => collect_field_refs_expr(&c.expr, fields, shadowed, out),
                Some(StmtForClause::In(fi)) => {
                    collect_field_refs_expr(&fi.expr, fields, shadowed, out);
                    inner.insert(fi.var.name.dup());
                },
                None => {},
            }
            collect_field_refs_stmts(&fs.block.stmts, fields, &mut inner, out);
        },
        Stmt::Defer(d) => {
            let mut inner = shadowed.dup();
            collect_field_refs_stmts(&d.block.stmts, fields, &mut inner, out);
        },
        Stmt::ReturnEarly(r) => collect_field_refs_expr(&r.expr, fields, shadowed, out),
        Stmt::Implicitly(imp) => {
            refs_exprs(&imp.exprs, fields, shadowed, out);
            if let Some(b) = &imp.block {
                let mut inner = shadowed.dup();
                collect_field_refs_stmts(&b.stmts, fields, &mut inner, out);
            }
        },
        Stmt::Patch(p) => match &p.kind {
            StmtPatchKind::Chain(c) => refs_branches(&c.branches, fields, shadowed, out),
            StmtPatchKind::Complete(_) => {},
        },
        _ => {},
    }
}

/// Walk a statement list in order.
fn collect_field_refs_stmts(stmts: &Vec<Stmt>, fields: &SymbolSet, shadowed: &mut SymbolSet, out: &mut SymbolSet)
    requires
        old(shadowed).wf(),
        old(out).wf(),
    ensures
        final(shadowed).wf(),
        final(out).wf(),
        final(shadowed)@ == stmts_shadow(stmts@, old(shadowed)@),
        final(out)@ == old(out)@.union(stmts_refs(stmts@, fields@, old(shadowed)@)),
    decreases stmts,
{
    let mut i: usize = 0;
    while i < stmts.len()
        invariant
            i <= stmts@.len(),
            shadowed.wf(),
            out.wf(),
            shadowed@ == stmts_shadow(stmts@.subrange(0, i as int), old(shadowed)@),
            out@ == old(out)@.union(
                stmts_refs(stmts@.subrange(0, i as int), fields@, old(shadowed)@),
            ),
        decreases stmts@.len() - i,
    {
        assert(stmts@.subrange(0, i + 1).subrange(0, i as int) =~= stmts@.subrange(0, i as int));
        collect_field_refs_stmt(&stmts[i], fields, shadowed, out);
        i = i + 1;
    }
    assert(stmts@.subrange(0, stmts@.len() as int) =~= stmts@);
}

/// Walk the branches of a patch chain, each in a scope of its own.
fn refs_branches(
    bs: &Vec<StmtPatchBranch>,
    fields: &SymbolSet,
    shadowed: &SymbolSet,
    out: &mut SymbolSet,
)
    requires
        shadowed.wf(),
        old(out).wf(),
    ensures
        final(out).wf(),
        final(out)@ == old(out)@.union(branches_refs(bs@, fields@, shadowed@)),
    decreases bs,
{
    let mut i: usize = 0;
    while i < bs.len()
        invariant
            i <= bs@.len(),
            shadowed.wf(),
            out.wf(),
            out@ == old(out)@.union(branches_refs(bs@.subrange(0, i as int), fields@, shadowed@)),
        decreases bs@.len() - i,
    {
        assert(bs@.subrange(0, i + 1).subrange(0, i as int) =~= bs@.subrange(0, i as int));
        let mut inner = shadowed.dup();
        collect_field_refs_stmts(&bs[i].stmts, fields, &mut inner, out);
        i = i + 1;
    }
    assert(bs@.subrange(0, bs@.len() as int) =~= bs@);
}

/// Walk an `if` statement: its conditions in order (their initialisers
/// declare into the enclosing scope), each branch in a scope of its own.
fn refs_if(i: &StmtIf, fields: &SymbolSet, shadowed: &mut SymbolSet, out: &mut SymbolSet)
    requires
        old(shadowed).wf(),
        old(out).wf(),
    ensures
        final(shadowed).wf(),
        final(out).wf(),
        final(shadowed)@ == stmt_shadow(Stmt::If(*i), old(shadowed)@),
        final(out)@ == old(out)@.union(stmt_refs(Stmt::If(*i), fields@, old(shadowed)@)),
    decreases i,
{
    collect_field_refs_if_condition(&i.condition, fields, shadowed, out);
    let ghost sh1 = shadowed@;
    let mut then_shadowed = shadowed.dup();
    add_if_condition_bindings(&i.condition, &mut then_shadowed);
    collect_field_refs_stmts(&i.then_block.stmts, fields, &mut then_shadowed, out);
    let ghost out1 = out@;
    let mut k: usize = 0;
    while k < i.else_ifs.len()
        invariant
            k <= i.else_ifs@.len(),
            shadowed.wf(),
            out.wf(),
            shadowed@ == elifs_shadow(i.else_ifs@.subrange(0, k as int), sh1),
            out@ == out1.union(elifs_refs(i.else_ifs@.subrange(0, k as int), fields@, sh1)),
        decreases i.else_ifs@.len() - k,
    {
        let ghost pre = i.else_ifs@.subrange(0, k as int);
        assert(i.else_ifs@.subrange(0, k + 1).subrange(0, k as int) =~= pre);
        let e = &i.else_ifs[k];
        collect_field_refs_if_condition(&e.condition, fields, shadowed, out);
        let mut branch_shadowed = shadowed.dup();
        add_if_condition_bindings(&e.condition, &mut branch_shadowed);
        collect_field_refs_stmts(&e.then_block.stmts, fields, &mut branch_shadowed, out);
        k = k + 1;
    }
    assert(i.else_ifs@.subrange(0, i.else_ifs@.len() as int) =~= i.else_ifs@);
    if let Some(b) = &i.else_block {
        let mut else_shadowed = shadowed.dup();
        collect_field_refs_stmts(&b.stmts, fields, &mut else_shadowed, out);
    }
}

/// Walk an `if` condition: its initialiser declares into `shadowed`.
fn collect_field_refs_if_condition(
    c: &StmtIfCondition,
    fields: &SymbolSet,
    shadowed: &mut SymbolSet,
    out: &mut SymbolSet,
)
    requires
        old(shadowed).wf(),
        old(out).wf(),
    ensures
        final(shadowed).wf(),
        final(out).wf(),
        final(shadowed)@ == cond_shadow(*c, old(shadowed)@),
        final(out)@ == old(out)@.union(cond_refs(*c, fields@, old(shadowed)@)),
    decreases c,
{
    match c {
        StmtIfCondition::Bool(b) => {
            if let Some(init) = &b.init {
                collect_field_refs_stmt(init, fields, shadowed, out);
            }
            collect_field_refs_expr(&b.expr, fields, shadowed, out);
        },
        StmtIfCondition::NarrowingAs(n) => refs_as_bindings(&n.bindings, fields, shadowed, out),
        StmtIfCondition::NarrowingNil(n) => refs_nil_bindings(&n.bindings, fields, shadowed, out),
    }
}

/// `collect_field_refs_expr` over the expressions of `as` narrowing bindings.
fn refs_as_bindings(
    bs: &Vec<StmtIfNarrowingAsBinding>,
    fields: &SymbolSet,
    shadowed: &SymbolSet,
    out: &mut SymbolSet,
)
    requires
        shadowed.wf(),
        old(out).wf(),
    ensures
        final(out).wf(),
        final(out)@ == old(out)@.union(as_bindings_refs(bs@, fields@, shadowed@)),
    decreases bs,
{
    let mut k: usize = 0;
    while k < bs.len()
        invariant
            k <= bs@.len(),
            shadowed.wf(),
            out.wf(),
            out@ == old(out)@.union(as_bindings_refs(bs@.subrange(0, k as int), fields@, shadowed@)),
        decreases bs@.len() - k,
    {
        assert(bs@.subrange(0, k + 1).subrange(0, k as int) =~= bs@.subrange(0, k as int));
        collect_field_refs_expr(&bs[k].expr, fields, shadowed, out);
        k = k + 1;
    }
    assert(bs@.subrange(0, bs@.len() as int) =~= bs@);
}

/// `collect_field_refs_expr` over the expressions of nil narrowing bindings.
fn refs_nil_bindings(
    bs: &Vec<StmtIfNarrowingNilBinding>,
    fields: &SymbolSet,
    shadowed: &SymbolSet,
    out: &mut SymbolSet,
)
    requires
        shadowed.wf(),
        old(out).wf(),
    ensures
        final(out).wf(),
        final(out)@ == old(out)@.union(nil_bindings_refs(bs@, fields@, shadowed@)),
    decreases bs,
{
    let mut k: usize = 0;
    while k < bs.len()
        invariant
            k <= bs@.len(),
            shadowed.wf(),
            out.wf(),
            out@ == old(out)@.union(nil_bindings_refs(bs@.subrange(0, k as int), fields@, shadowed@)),
        decreases bs@.len() - k,
    {
        assert(bs@.subrange(0, k + 1).subrange(0, k as int) =~= bs@.subrange(0, k as int));
        collect_field_refs_expr(&bs[k].expr, fields, shadowed, out);
        k = k + 1;
    }
    assert(bs@.subrange(0, bs@.len() as int) =~= bs@);
}

/// Shadow the names that an `if` condition binds for the branch it guards.
fn add_if_condition_bindings(c: &StmtIfCondition, shadowed: &mut SymbolSet)
    requires
        old(shadowed).wf(),
    ensures
        final(shadowed).wf(),
        final(shadowed)@ == bindings_shadow(*c, old(shadowed)@),
{
    match c {
        StmtIfCondition::Bool(b) => {
            if let Some(init) = &b.init {
                if let Stmt::Var(v) = &**init {
                    add_decl_names(&v.vars, shadowed);
                }
            }
        },
        StmtIfCondition::NarrowingAs(n) => {
            let mut k: usize = 0;
            while k < n.bindings.len()
                invariant
                    k <= n.bindings@.len(),
                    shadowed.wf(),
                    shadowed@ == old(shadowed)@.union(
                        as_binding_names(n.bindings@.subrange(0, k as int)),
                    ),
                decreases n.bindings@.len() - k,
            {
                assert(n.bindings@.subrange(0, k + 1).subrange(0, k as int)
                    =~= n.bindings@.subrange(0, k as int));
                shadowed.insert(n.bindings[k].name.name.dup());
                k = k + 1;
            }
            assert(n.bindings@.subrange(0, n.bindings@.len() as int) =~= n.bindings@);
        },
        StmtIfCondition::NarrowingNil(n) => {
            let mut k: usize = 0;
            while k < n.bindings.len()
                invariant
                    k <= n.bindings@.len(),
                    shadowed.wf(),
                    shadowed@ == old(shadowed)@.union(
                        nil_binding_names(n.bindings@.subrange(0, k as int)),
                    ),
                decreases n.bindings@.len() - k,
            {
                assert(n.bindings@.subrange(0, k + 1).subrange(0, k as int)
                    =~= n.bindings@.subrange(0, k as int));
                shadowed.insert(n.bindings[k].name.name.dup());
                k = k + 1;
            }
            assert(n.bindings@.subrange(0, n.bindings@.len() as int) =~= n.bindings@);
        },
    }
}

/// Collect the bare identifier references of `expr` that could refer to the
/// fields named in `field_names`, following the names that inner scopes
/// shadow (anonymous function and data fields, variable declarations,
/// `for ... in` bindings, narrowing bindings). The names found are added to `out`.
pub fn collect_field_refs(expr: &Expr, field_names: &SymbolSet, out: &mut SymbolSet)
    requires
        old(out).wf(),
    ensures
        final(out).wf(),
        final(out)@ == old(out)@.union(expr_refs(*expr, field_names@, Set::empty())),
{
    let shadowed = SymbolSet::new();
    collect_field_refs_expr(expr, field_names, &shadowed, out);
}

// ---------------------------------------------------------------------------
// Evaluation order of field defaults
// ---------------------------------------------------------------------------

/// Field `i` is a variable field.
pub open spec fn is_var_field(fs: Seq<Field>, i: int) -> bool {
    0 <= i < fs.len() && fs[i].kind is Var
}

/// The name of variable field `i`.
pub open spec fn var_name_at(fs: Seq<Field>, i: int) -> Seq<char> {
    match fs[i].kind {
        FieldKind::Var(fv) => fv.name.name@,
        _ => Seq::empty(),
    }
}

/// The field names that the default of field `i` references.
pub open spec fn default_refs(fs: Seq<Field>, i: int) -> Set<Seq<char>> {
    match fs[i].kind {
        FieldKind::Var(fv) => match fv.default {
            Some(d) => expr_refs(d, var_field_names(fs), Set::empty()),
            None => Set::empty(),
        },
        _ => Set::empty(),
    }
}

/// Field `j` is the last variable field with its name: the one that name
/// stands for.
pub open spec fn last_of_name(fs: Seq<Field>, j: int) -> bool {
    &&& is_var_field(fs, j)
    &&& forall|k: int| j < k < fs.len() && is_var_field(fs, k) ==> var_name_at(fs, k) != var_name_at(
        fs,
        j,
    )
}

/// The default of variable field `i` refers to field `j`. A default never
/// refers to its own field's name: that name is not in scope while it is
/// evaluated.
pub open spec fn depends_on(fs: Seq<Field>, i: int, j: int) -> bool {
    &&& is_var_field(fs, i)
    &&& last_of_name(fs, j)
    &&& default_refs(fs, i).contains(var_name_at(fs, j))
    &&& var_name_at(fs, j) != var_name_at(fs, i)
}

/// Variable field `x` is not placed yet, and every field it depends on is.
pub open spec fn ready(fs: Seq<Field>, placed: Seq<usize>, x: int) -> bool {
    &&& is_var_field(fs, x)
    &&& !placed.contains(x as usize)
    &&& forall|d: int| #[trigger] depends_on(fs, x, d) ==> placed.contains(d as usize)
}

/// `t` is the length of the shortest prefix of `placed` that holds every
/// field that `x` depends on.
pub open spec fn ready_from(fs: Seq<Field>, placed: Seq<usize>, x: int, t: int) -> bool {
    &&& 0 <= t <= placed.len()
    &&& forall|d: int| #[trigger] depends_on(fs, x, d) ==> placed.take(t).contains(d as usize)
    &&& (t == 0 || depends_on(fs, x, placed[t - 1] as int))
}

/// When `x` became ready: see `ready_from`.
pub open spec fn ready_time(fs: Seq<Field>, placed: Seq<usize>, x: int) -> int {
    choose|t: int| ready_from(fs, placed, x, t)
}

/// Of two ready fields, `c` goes first: it became ready earlier, or at the
/// same time and stands earlier.
pub open spec fn goes_first(fs: Seq<Field>, placed: Seq<usize>, c: int, y: int) -> bool {
    ||| ready_time(fs, placed, c) < ready_time(fs, placed, y)
    ||| (ready_time(fs, placed, c) == ready_time(fs, placed, y) && c < y)
}

/// `order` places variable fields one at a time, each time the ready field
/// that goes first. This is the order in which Kahn's algorithm emits the
/// fields when its queue is seeded in source order and each emitted field's
/// dependents are appended in source order.
pub open spec fn greedy_order(fs: Seq<Field>, order: Seq<usize>) -> bool {
    forall|k: int|
        #![trigger order[k]]
        0 <= k < order.len() ==> {
            &&& ready(fs, order.take(k), order[k] as int)
            &&& forall|y: int|
                ready(fs, order.take(k), y) && y != order[k] ==> goes_first(
                    fs,
                    order.take(k),
                    order[k] as int,
                    y,
                )
        }
}

/// No field is ready.
pub open spec fn stuck(fs: Seq<Field>, placed: Seq<usize>) -> bool {
    forall|y: int| !ready(fs, placed, y)
}

/// The variable fields below `n` that `placed` does not hold, in source order.
pub open spec fn vars_outside(fs: Seq<Field>, placed: Seq<usize>, n: int) -> Seq<usize>
    decreases n,
{
    if n <= 0 {
        Seq::empty()
    } else {
        let rest = vars_outside(fs, placed, n - 1);
        if is_var_field(fs, n - 1) && !placed.contains((n - 1) as usize) {
            rest.push((n - 1) as usize)
        } else {
            rest
        }
    }
}

/// The evaluation order of the defaults of a construct's fields.
#[derive(Debug)]
pub enum FieldEvalOrder {
    /// The variable fields, each after the fields its default refers to.
    Ordered(Vec<usize>),
    /// Some defaults refer to each other in a circle. `var_indices` are all
    /// the variable fields in source order; `participants` are those that no
    /// order can place, in source order.
    Circular { var_indices: Vec<usize>, participants: Vec<usize> },
}

/// A sequence of distinct indices below `n` has at most `n` elements.
proof fn lemma_distinct_below(s: Seq<usize>, n: int)
    requires
        s.no_duplicates(),
        forall|i: int| 0 <= i < s.len() ==> s[i] < n,
        0 <= n,
    ensures
        s.len() <= n,
{
    let m = s.map_values(|x: usize| x as int);
    assert(m.no_duplicates()) by {
        assert forall|i: int, j: int| 0 <= i < m.len() && 0 <= j < m.len() && i != j implies m[i]
            != m[j] by {
            assert(s[i] != s[j]);
        }
    }
    m.unique_seq_to_set();
    vstd::set_lib::lemma_int_range(0, n);
    assert(m.to_set().subset_of(vstd::set_lib::set_int_range(0, n))) by {
        assert forall|x: int| m.to_set().contains(x) implies vstd::set_lib::set_int_range(
            0,
            n,
        ).contains(x) by {
            let i = choose|i: int| 0 <= i < m.len() && m[i] == x;
            assert(s[i] < n);
        }
    }
    vstd::set_lib::lemma_len_subset(m.to_set(), vstd::set_lib::set_int_range(0, n));
}

/// A prefix of `placed` without repeats determines `ready_from` uniquely.
proof fn lemma_ready_from_unique(fs: Seq<Field>, placed: Seq<usize>, x: int, t1: int, t2: int)
    requires
        placed.no_duplicates(),
        ready_from(fs, placed, x, t1),
        ready_from(fs, placed, x, t2),
    ensures
        t1 == t2,
{
    if t1 < t2 {
        let d = placed[t2 - 1] as int;
        assert(depends_on(fs, x, d));
        assert(placed.take(t1).contains(d as usize));
        let k = choose|k: int| 0 <= k < t1 && placed.take(t1)[k] == d as usize;
        assert(placed[k] == placed[t2 - 1]);
    } else if t2 < t1 {
        let d = placed[t1 - 1] as int;
        assert(depends_on(fs, x, d));
        assert(placed.take(t2).contains(d as usize));
        let k = choose|k: int| 0 <= k < t2 && placed.take(t2)[k] == d as usize;
        assert(placed[k] == placed[t1 - 1]);
    }
}

/// Whether every field in `deps` is placed, and if so, the length of the
/// shortest prefix of the order that holds them all.
fn ready_time_of(deps: &Vec<usize>, placed: &Vec<bool>, pos: &Vec<usize>, placed_len: usize) -> (r: (
    bool,
    usize,
))
    requires
        placed@.len() == pos@.len(),
        forall|i: int| 0 <= i < deps@.len() ==> deps@[i] < placed@.len(),
        forall|d: int| 0 <= d < placed@.len() && placed@[d] ==> pos@[d] < placed_len,
    ensures
        r.0 == (forall|i: int| 0 <= i < deps@.len() ==> placed@[deps@[i] as int]),
        r.0 ==> r.1 <= placed_len,
        r.0 ==> forall|i: int| 0 <= i < deps@.len() ==> pos@[deps@[i] as int] < r.1,
        r.0 ==> (r.1 == 0 || exists|i: int|
            0 <= i < deps@.len() && pos@[deps@[i] as int] + 1 == r.1),
{
    let mut t: usize = 0;
    let mut i: usize = 0;
    while i < deps.len()
        invariant
            i <= deps@.len(),
            placed@.len() == pos@.len(),
            forall|k: int| 0 <= k < deps@.len() ==> deps@[k] < placed@.len(),
            forall|d: int| 0 <= d < placed@.len() && placed@[d] ==> pos@[d] < placed_len,
            forall|k: int| 0 <= k < i ==> placed@[deps@[k] as int],
            t <= placed_len,
            forall|k: int| 0 <= k < i ==> pos@[deps@[k] as int] < t,
            t == 0 || exists|k: int| 0 <= k < i && pos@[deps@[k] as int] + 1 == t,
        decreases deps@.len() - i,
    {
        let d = deps[i];
        if !placed[d] {
            return (false, 0);
        }
        if pos[d] + 1 > t {
            t = pos[d] + 1;
        }
        i = i + 1;
    }
    (true, t)
}

/// `deps[i]` lists exactly the fields that field `i` depends on.
pub open spec fn deps_table(fs: Seq<Field>, deps: Seq<Vec<usize>>) -> bool {
    &&& deps.len() == fs.len()
    &&& forall|i: int|
        #![trigger deps[i]]
        0 <= i < fs.len() ==> {
            &&& forall|k: int| 0 <= k < deps[i]@.len() ==> deps[i]@[k] < fs.len()
            &&& forall|j: int|
                0 <= j < fs.len() ==> (deps[i]@.contains(j as usize) <==> depends_on(fs, i, j))
        }
}

/// `placed` marks the fields in `order`, and `pos` gives their positions.
pub open spec fn placement(order: Seq<usize>, placed: Seq<bool>, pos: Seq<usize>, n: int) -> bool {
    &&& placed.len() == n
    &&& pos.len() == n
    &&& order.no_duplicates()
    &&& forall|k: int|
        #![trigger order[k]]
        0 <= k < order.len() ==> order[k] < n && placed[order[k] as int] && pos[order[k] as int]
            == k
    &&& forall|d: int|
        #![trigger placed[d]]
        0 <= d < n && placed[d] ==> pos[d] < order.len() && order[pos[d] as int] == d
}

proof fn lemma_placed_contains(
    order: Seq<usize>,
    placed: Seq<bool>,
    pos: Seq<usize>,
    n: int,
    d: usize,
)
    requires
        placement(order, placed, pos, n),
        d < n,
    ensures
        placed[d as int] <==> order.contains(d),
{
    if placed[d as int] {
        assert(order[pos[d as int] as int] == d);
    }
    if order.contains(d) {
        let k = choose|k: int| 0 <= k < order.len() && order[k] == d;
        assert(placed[order[k] as int]);
    }
}

/// Placing a ready field that goes first keeps an order greedy.
proof fn lemma_greedy_push(fs: Seq<Field>, order: Seq<usize>, b: usize)
    requires
        greedy_order(fs, order),
        ready(fs, order, b as int),
        forall|y: int| ready(fs, order, y) && y != b ==> goes_first(fs, order, b as int, y),
    ensures
        greedy_order(fs, order.push(b)),
{
    let o2 = order.push(b);
    assert forall|k: int| 0 <= k < o2.len() implies {
        &&& ready(fs, o2.take(k), o2[k] as int)
        &&& forall|y: int|
            ready(fs, o2.take(k), y) && y != o2[k] ==> goes_first(fs, o2.take(k), o2[k] as int, y)
    } by {
        if k < order.len() {
            assert(o2.take(k) =~= order.take(k));
            assert(o2[k] == order[k]);
        } else {
            assert(o2.take(k) =~= order);
        }
    }
}

/// The set of the names of the variable fields.
fn var_names_set(fields: &Vec<Field>) -> (r: SymbolSet)
    ensures
        r.wf(),
        r@ == var_field_names(fields@),
{
    let mut r = SymbolSet::new();
    add_var_field_names(fields, &mut r);
    assert(r@ =~= var_field_names(fields@));
    r
}

/// For each field, whether it is the last variable field with its name.
fn last_of_name_flags(fields: &Vec<Field>) -> (r: Vec<bool>)
    ensures
        r@.len() == fields@.len(),
        forall|j: int| 0 <= j < fields@.len() ==> r@[j] == last_of_name(fields@, j),
{
    let n = fields.len();
    let mut r: Vec<bool> = Vec::new();
    let mut j: usize = 0;
    while j < n
        invariant
            n == fields@.len(),
            j <= n,
            r@.len() == j,
            forall|q: int| 0 <= q < j ==> r@[q] == last_of_name(fields@, q),
        decreases n - j,
    {
        let mut flag = false;
        if let FieldKind::Var(fj) = &fields[j].kind {
            flag = true;
            let mut k: usize = j + 1;
            while k < n
                invariant
                    n == fields@.len(),
                    j < n,
                    j < k <= n,
                    fields@[j as int].kind == FieldKind::Var(*fj),
                    flag == (forall|q: int|
                        j < q < k && is_var_field(fields@, q) ==> var_name_at(fields@, q)
                            != var_name_at(fields@, j as int)),
                decreases n - k,
            {
                let same = match &fields[k].kind {
                    FieldKind::Var(fk) => fk.name.name.eq_sym(&fj.name.name),
                    _ => false,
                };
                assert(same == (is_var_field(fields@, k as int) && var_name_at(fields@, k as int)
                    == var_name_at(fields@, j as int)));
                let ghost old_flag = flag;
                if same {
                    flag = false;
                }
                assert(flag == (forall|q: int|
                    j < q < k + 1 && is_var_field(fields@, q) ==> var_name_at(fields@, q)
                        != var_name_at(fields@, j as int))) by {
                    if !same && old_flag {
                        assert forall|q: int|
                            j < q < k + 1 && is_var_field(fields@, q) implies var_name_at(fields@, q)
                            != var_name_at(fields@, j as int) by {
                            if q < k {
                            }
                        }
                    }
                }
                k = k + 1;
            }
        }
        r.push(flag);
        j = j + 1;
    }
    r
}

/// The fields that field `i` depends on, in source order.
fn deps_of(fields: &Vec<Field>, names: &SymbolSet, last: &Vec<bool>, i: usize) -> (r: Vec<usize>)
    requires
        names.wf(),
        names@ == var_field_names(fields@),
        last@.len() == fields@.len(),
        forall|j: int| 0 <= j < fields@.len() ==> last@[j] == last_of_name(fields@, j),
        i < fields@.len(),
    ensures
        forall|k: int| 0 <= k < r@.len() ==> r@[k] < fields@.len(),
        forall|j: int|
            0 <= j < fields@.len() ==> (r@.contains(j as usize) <==> depends_on(
                fields@,
                i as int,
                j,
            )),
{
    let n = fields.len();
    let mut r: Vec<usize> = Vec::new();
    if let FieldKind::Var(fv) = &fields[i].kind {
        if let Some(d) = &fv.default {
            let mut refs = SymbolSet::new();
            collect_field_refs(d, names, &mut refs);
            assert(refs@ =~= default_refs(fields@, i as int));
            let mut j: usize = 0;
            while j < n
                invariant
                    n == fields@.len(),
                    j <= n,
                    i < n,
                    fields@[i as int].kind == FieldKind::Var(*fv),
                    refs@ == default_refs(fields@, i as int),
                    last@.len() == n,
                    forall|q: int| 0 <= q < n ==> last@[q] == last_of_name(fields@, q),
                    forall|k: int| 0 <= k < r@.len() ==> r@[k] < j,
                    forall|q: int|
                        0 <= q < n ==> (r@.contains(q as usize) <==> (q < j && depends_on(
                            fields@,
                            i as int,
                            q,
                        ))),
                decreases n - j,
            {
                let ghost before = r@;
                if last[j] {
                    if let FieldKind::Var(fj) = &fields[j].kind {
                        if refs.contains_sym(&fj.name.name) && !fj.name.name.eq_sym(&fv.name.name) {
                            r.push(j);
                        }
                    }
                }
                assert forall|q: int| 0 <= q < n implies (r@.contains(q as usize) <==> (q < j + 1
                    && depends_on(fields@, i as int, q))) by {
                    if r@.contains(q as usize) && q != j {
                        if r@ != before {
                            let k = choose|k: int| 0 <= k < r@.len() && r@[k] == q as usize;
                            assert(k < before.len());
                            assert(before[k] == q as usize);
                        }
                    }
                    if q < j && depends_on(fields@, i as int, q) {
                        let k = choose|k: int| 0 <= k < before.len() && before[k] == q as usize;
                        assert(r@[k] == q as usize);
                    }
                    if q == j && depends_on(fields@, i as int, q) {
                        assert(r@[r@.len() - 1] == q as usize);
                    }
                    if q == j && r@.contains(q as usize) {
                        let k = choose|k: int| 0 <= k < r@.len() && r@[k] == q as usize;
                        if k < before.len() {
                            assert(before[k] == q as usize);
                        }
                    }
                }
                j = j + 1;
            }
        }
    }
    r
}

/// The ready field that goes first, if any field is ready.
fn pick_ready(
    fields: &Vec<Field>,
    deps: &Vec<Vec<usize>>,
    placed: &Vec<bool>,
    pos: &Vec<usize>,
    order: &Vec<usize>,
) -> (r: Option<usize>)
    requires
        deps_table(fields@, deps@),
        placement(order@, placed@, pos@, fields@.len() as int),
    ensures
        match r {
            Some(b) => {
                &&& ready(fields@, order@, b as int)
                &&& forall|y: int|
                    ready(fields@, order@, y) && y != b ==> goes_first(fields@, order@, b as int, y)
            },
            None => stuck(fields@, order@),
        },
{
    let n = fields.len();
    let mut best: Option<usize> = None;
    let mut bt: usize = 0;
    let mut x: usize = 0;
    while x < n
        invariant
            n == fields@.len(),
            x <= n,
            deps_table(fields@, deps@),
            placement(order@, placed@, pos@, n as int),
            match best {
                Some(b) => {
                    &&& b < x
                    &&& ready(fields@, order@, b as int)
                    &&& ready_time(fields@, order@, b as int) == bt
                    &&& forall|y: int|
                        0 <= y < x && ready(fields@, order@, y) && y != b ==> goes_first(
                            fields@,
                            order@,
                            b as int,
                            y,
                        )
                },
                None => forall|y: int| 0 <= y < x ==> !ready(fields@, order@, y),
            },
        decreases n - x,
    {
        let is_var = match &fields[x].kind {
            FieldKind::Var(_) => true,
            _ => false,
        };
        proof {
            lemma_placed_contains(order@, placed@, pos@, n as int, x);
        }
        if is_var && !placed[x] {
            let dx = &deps[x];
            assert(deps@[x as int] == *dx);
            let (ok, t) = ready_time_of(dx, placed, pos, order.len());
            proof {
                if ok {
                    assert forall|d: int| #[trigger] depends_on(fields@, x as int, d) implies order@.take(
                        t as int,
                    ).contains(d as usize) by {
                        assert(dx@.contains(d as usize));
                        let i = choose|i: int| 0 <= i < dx@.len() && dx@[i] == d as usize;
                        assert(placed@[d]);
                        assert(pos@[d] < t);
                        assert(order@[pos@[d] as int] == d);
                        assert(order@.take(t as int)[pos@[d] as int] == d as usize);
                    }
                    if t != 0 {
                        let i = choose|i: int| 0 <= i < dx@.len() && pos@[dx@[i] as int] + 1 == t;
                        let d = dx@[i];
                        assert(dx@.contains(d));
                        assert(placed@[d as int]);
                        assert(order@[t - 1] == d);
                        assert(depends_on(fields@, x as int, d as int));
                    }
                    assert(ready_from(fields@, order@, x as int, t as int));
                    assert(ready(fields@, order@, x as int)) by {
                        assert forall|d: int| #[trigger] depends_on(fields@, x as int, d) implies order@.contains(
                            d as usize,
                        ) by {
                            let k = choose|k: int|
                                0 <= k < t && order@.take(t as int)[k] == d as usize;
                            assert(order@[k] == d as usize);
                        }
                    }
                    lemma_ready_from_unique(
                        fields@,
                        order@,
                        x as int,
                        ready_time(fields@, order@, x as int),
                        t as int,
                    );
                } else {
                    let i = choose|i: int| 0 <= i < dx@.len() && !placed@[dx@[i] as int];
                    let d = dx@[i];
                    assert(dx@.contains(d));
                    assert(depends_on(fields@, x as int, d as int));
                    lemma_placed_contains(order@, placed@, pos@, n as int, d);
                    assert(!ready(fields@, order@, x as int));
                }
            }
            if ok {
                match best {
                    None => {
                        best = Some(x);
                        bt = t;
                    },
                    Some(_) => {
                        if t < bt {
                            best = Some(x);
                            bt = t;
                        }
                    },
                }
            }
        }
        x = x + 1;
    }
    best
}

/// The variable fields that `placed` does not mark, in source order.
fn unplaced_vars(fields: &Vec<Field>, placed: &Vec<bool>, Ghost(order): Ghost<Seq<usize>>) -> (r:
    Vec<usize>)
    requires
        placed@.len() == fields@.len(),
        forall|d: int| 0 <= d < fields@.len() ==> (placed@[d] <==> order.contains(d as usize)),
    ensures
        r@ == vars_outside(fields@, order, fields@.len() as int),
{
    let n = fields.len();
    let mut r: Vec<usize> = Vec::new();
    let mut j: usize = 0;
    while j < n
        invariant
            n == fields@.len(),
            j <= n,
            placed@.len() == n,
            forall|d: int| 0 <= d < n ==> (placed@[d] <==> order.contains(d as usize)),
            r@ == vars_outside(fields@, order, j as int),
        decreases n - j,
    {
        let is_var = match &fields[j].kind {
            FieldKind::Var(_) => true,
            _ => false,
        };
        if is_var && !placed[j] {
            r.push(j);
        }
        j = j + 1;
    }
    r
}

/// Compute the order in which the defaults of the variable fields of a
/// construct are evaluated: each field after the fields its default refers
/// to, and otherwise in the order in which Kahn's algorithm emits them (see
/// `greedy_order`). Where defaults refer to each other in a circle, the
/// fields that cannot be placed are given back, with all variable fields in
/// source order as the order to use; `compute_ast_field_eval_order` turns
/// that into a load error.
pub fn field_eval_order(fields: &Vec<Field>) -> (r: FieldEvalOrder)
    ensures
        match r {
            FieldEvalOrder::Ordered(order) => {
                &&& greedy_order(fields@, order@)
                &&& vars_outside(fields@, order@, fields@.len() as int).len() == 0
            },
            FieldEvalOrder::Circular { var_indices, participants } => {
                &&& var_indices@ == vars_outside(fields@, Seq::empty(), fields@.len() as int)
                &&& participants@.len() > 0
                &&& exists|p: Seq<usize>|
                    {
                        &&& greedy_order(fields@, p)
                        &&& stuck(fields@, p)
                        &&& participants@ == vars_outside(fields@, p, fields@.len() as int)
                    }
            },
        },
{
    let n = fields.len();
    let names = var_names_set(fields);
    let last = last_of_name_flags(fields);
    let mut deps: Vec<Vec<usize>> = Vec::new();
    let mut placed: Vec<bool> = Vec::new();
    let mut pos: Vec<usize> = Vec::new();
    let mut i: usize = 0;
    while i < n
        invariant
            n == fields@.len(),
            i <= n,
            names.wf(),
            names@ == var_field_names(fields@),
            last@.len() == n,
            forall|j: int| 0 <= j < n ==> last@[j] == last_of_name(fields@, j),
            deps@.len() == i,
            placed@.len() == i,
            pos@.len() == i,
            forall|q: int| 0 <= q < i ==> !placed@[q],
            forall|q: int|
                #![trigger deps@[q]]
                0 <= q < i ==> {
                    &&& forall|k: int| 0 <= k < deps@[q]@.len() ==> deps@[q]@[k] < n
                    &&& forall|j: int|
                        0 <= j < n ==> (deps@[q]@.contains(j as usize) <==> depends_on(
                            fields@,
                            q,
                            j,
                        ))
                },
        decreases n - i,
    {
        deps.push(deps_of(fields, &names, &last, i));
        placed.push(false);
        pos.push(0);
        i = i + 1;
    }
    let mut order: Vec<usize> = Vec::new();
    assert(placement(order@, placed@, pos@, n as int));
    loop
        invariant
            n == fields@.len(),
            deps_table(fields@, deps@),
            placement(order@, placed@, pos@, n as int),
            greedy_order(fields@, order@),
        ensures
            placement(order@, placed@, pos@, n as int),
            greedy_order(fields@, order@),
            stuck(fields@, order@),
        decreases n - order@.len(),
    {
        match pick_ready(fields, &deps, &placed, &pos, &order) {
            None => {
                break ;
            },
            Some(b) => {
                proof {
                    lemma_greedy_push(fields@, order@, b);
                    lemma_placed_contains(order@, placed@, pos@, n as int, b);
                    let o2 = order@.push(b);
                    assert(o2.no_duplicates()) by {
                        assert forall|p: int, q: int|
                            0 <= p < o2.len() && 0 <= q < o2.len() && p != q implies o2[p]
                            != o2[q] by {
                            if p < order@.len() && q < order@.len() {
                                assert(order@[p] != order@[q]);
                            } else if p < order@.len() {
                                assert(order@.contains(o2[p]));
                            } else {
                                assert(order@.contains(o2[q]));
                            }
                        }
                    }
                    assert forall|k: int| 0 <= k < o2.len() implies o2[k] < n by {
                        if k < order@.len() {
                            assert(order@[k] < n);
                        }
                    }
                    lemma_distinct_below(o2, n as int);
                }
                let ghost old_order = order@;
                let ghost old_placed = placed@;
                let ghost old_pos = pos@;
                let k = order.len();
                pos.set(b, k);
                placed.set(b, true);
                order.push(b);
                proof {
                    assert forall|q: int| 0 <= q < order@.len() implies #[trigger] order@[q] < n
                        && placed@[order@[q] as int] && pos@[order@[q] as int] == q by {
                        if q < old_order.len() {
                            assert(old_order[q] == order@[q]);
                            assert(old_placed[old_order[q] as int]);
                            assert(old_order[q] != b);
                        }
                    }
                    assert forall|d: int| 0 <= d < n && #[trigger] placed@[d] implies pos@[d]
                        < order@.len() && order@[pos@[d] as int] == d by {
                        if d != b {
                            assert(old_placed[d]);
                        }
                    }
                }
            },
        }
    }
    let participants = unplaced_vars(fields, &placed, Ghost(order@));
    if participants.len() == 0 {
        FieldEvalOrder::Ordered(order)
    } else {
        let mut none: Vec<bool> = Vec::new();
        let mut j: usize = 0;
        while j < n
            invariant
                j <= n,
                none@.len() == j,
                forall|q: int| 0 <= q < j ==> !none@[q],
            decreases n - j,
        {
            none.push(false);
            j = j + 1;
        }
        let var_indices = unplaced_vars(fields, &none, Ghost(Seq::empty()));
        FieldEvalOrder::Circular { var_indices, participants }
    }
}

/// Membership in `vars_outside`.
pub proof fn lemma_vars_outside_contains(fs: Seq<Field>, placed: Seq<usize>, n: int, y: usize)
    requires
        0 <= n <= fs.len(),
        fs.len() <= usize::MAX,
    ensures
        vars_outside(fs, placed, n).contains(y) <==> (y < n && is_var_field(fs, y as int)
            && !placed.contains(y)),
    decreases n,
{
    if n > 0 {
        lemma_vars_outside_contains(fs, placed, n - 1, y);
        let rest = vars_outside(fs, placed, n - 1);
        if is_var_field(fs, n - 1) && !placed.contains((n - 1) as usize) {
            assert(rest.push((n - 1) as usize)[rest.len() as int] == (n - 1) as usize);
            let full = rest.push((n - 1) as usize);
            if full.contains(y) && y != (n - 1) as usize {
                let k = choose|k: int| 0 <= k < full.len() && full[k] == y;
                assert(rest[k] == y);
            }
            if rest.contains(y) {
                let k = choose|k: int| 0 <= k < rest.len() && rest[k] == y;
                assert(rest.push((n - 1) as usize)[k] == y);
            }
        }
    }
}

/// In a greedy order, every field comes after each field its default refers to.
pub proof fn lemma_eval_order_respects_deps(fs: Seq<Field>, order: Seq<usize>, k: int, d: int)
    requires
        greedy_order(fs, order),
        0 <= k < order.len(),
        depends_on(fs, order[k] as int, d),
    ensures
        exists|j: int| 0 <= j < k && order[j] == d as usize,
{
    assert(ready(fs, order.take(k), order[k] as int));
    assert(order.take(k).contains(d as usize));
    let j = choose|j: int| 0 <= j < k && order.take(k)[j] == d as usize;
    assert(order[j] == d as usize);
}

/// Two greedy orders agree on their common length.
proof fn lemma_greedy_prefixes_agree(fs: Seq<Field>, p1: Seq<usize>, p2: Seq<usize>, k: int)
    requires
        greedy_order(fs, p1),
        greedy_order(fs, p2),
        0 <= k <= p1.len(),
        k <= p2.len(),
    ensures
        p1.take(k) =~= p2.take(k),
    decreases k,
{
    if k > 0 {
        let j = k - 1;
        lemma_greedy_prefixes_agree(fs, p1, p2, j);
        assert(ready(fs, p1.take(j), p1[j] as int));
        assert(ready(fs, p2.take(j), p2[j] as int));
        if p1[j] != p2[j] {
            assert(goes_first(fs, p1.take(j), p1[j] as int, p2[j] as int));
            assert(goes_first(fs, p2.take(j), p2[j] as int, p1[j] as int));
            assert(false);
        }
        assert(p1.take(k) =~= p1.take(j).push(p1[j]));
        assert(p2.take(k) =~= p2.take(j).push(p2[j]));
    }
}

/// The evaluation order is determined by the fields: two greedy orders after
/// which no field is ready are the same.
pub proof fn lemma_greedy_order_unique(fs: Seq<Field>, p1: Seq<usize>, p2: Seq<usize>)
    requires
        greedy_order(fs, p1),
        greedy_order(fs, p2),
        stuck(fs, p1),
        stuck(fs, p2),
    ensures
        p1 == p2,
{
    let m = if p1.len() < p2.len() {
        p1.len() as int
    } else {
        p2.len() as int
    };
    lemma_greedy_prefixes_agree(fs, p1, p2, m);
    if p1.len() < p2.len() {
        assert(p1 =~= p2.take(m));
        assert(ready(fs, p2.take(m), p2[m] as int));
        assert(!ready(fs, p1, p2[m] as int));
    } else if p2.len() < p1.len() {
        assert(p2 =~= p1.take(m));
        assert(ready(fs, p1.take(m), p1[m] as int));
        assert(!ready(fs, p2, p1[m] as int));
    } else {
        assert(p1 =~= p1.take(m));
        assert(p2 =~= p2.take(m));
    }
}

/// The fields reported as circular are those whose defaults cannot be
/// ordered: each refers to another of them.
pub proof fn lemma_circular_participants_depend_on_each_other(
    fs: Seq<Field>,
    p: Seq<usize>,
    x: usize,
)
    requires
        fs.len() <= usize::MAX,
        stuck(fs, p),
        vars_outside(fs, p, fs.len() as int).contains(x),
    ensures
        exists|d: usize|
            depends_on(fs, x as int, d as int) && vars_outside(fs, p, fs.len() as int).contains(d),
{
    lemma_vars_outside_contains(fs, p, fs.len() as int, x);
    assert(!ready(fs, p, x as int));
    let d = choose|d: int| #[trigger] depends_on(fs, x as int, d) && !p.contains(d as usize);
    lemma_vars_outside_contains(fs, p, fs.len() as int, d as usize);
    assert(depends_on(fs, x as int, (d as usize) as int));
}


/// The names of the variable fields at `idx`, in that order (others skipped).
pub open spec fn var_names_at(fields: Seq<Field>, idx: Seq<usize>) -> Seq<Seq<char>>
    decreases idx.len(),
{
    if idx.len() == 0 {
        Seq::empty()
    } else {
        let rest = var_names_at(fields, idx.drop_last());
        let i = idx.last() as int;
        if 0 <= i < fields.len() && fields[i].kind is Var {
            rest.push(fields[i].kind->Var_0.name.name@)
        } else {
            rest
        }
    }
}

/// `parts` joined with `, ` between them.
pub open spec fn comma_join(parts: Seq<Seq<char>>) -> Seq<char>
    decreases parts.len(),
{
    if parts.len() == 0 {
        Seq::empty()
    } else if parts.len() == 1 {
        parts[0]
    } else {
        comma_join(parts.drop_last()) + ", "@ + parts.last()
    }
}

/// The error for defaults that refer to each other in a circle: it names
/// the fields `participants` (by index, in that order) and points at the
/// first of them where its span is known.
pub open spec fn circular_error_is(
    e: LoadError,
    module: Seq<char>,
    file_idx: usize,
    ranges: Seq<(usize, usize)>,
    fields: Seq<Field>,
    participants: Seq<usize>,
) -> bool {
    &&& e.module@ == module
    &&& e.file_idx == file_idx
    &&& e.message@ == "Circular field default references among: "@ + comma_join(var_names_at(fields, participants))
    &&& e.range == (if participants.len() > 0 && (fields[participants[0] as int].node_id.0 as int) < ranges.len() {
        Some(ranges[fields[participants[0] as int].node_id.0 as int])
    } else {
        None::<(usize, usize)>
    })
}

/// Build the error for circular field defaults (see `circular_error_is`).
pub fn circular_fields_error(
    module: &Symbol,
    file_idx: usize,
    source_map: &SourceMap,
    fields: &Vec<Field>,
    participants: &Vec<usize>,
) -> (r: LoadError)
    requires
        forall|k: int| 0 <= k < participants@.len() ==> participants@[k] < fields@.len(),
    ensures
        circular_error_is(r, module@, file_idx, source_map.node_ranges@, fields@, participants@),
{
    let mut names: Vec<char> = Vec::new();
    let mut count: usize = 0;
    let mut k: usize = 0;
    while k < participants.len()
        invariant
            k <= participants@.len(),
            forall|j: int| 0 <= j < participants@.len() ==> participants@[j] < fields@.len(),
            count <= k,
            count == var_names_at(fields@, participants@.take(k as int)).len(),
            names@ == comma_join(var_names_at(fields@, participants@.take(k as int))),
        decreases participants@.len() - k,
    {
        let ghost before = var_names_at(fields@, participants@.take(k as int));
        proof {
            assert(participants@.take(k + 1).drop_last() =~= participants@.take(k as int));
            assert(participants@.take(k + 1).last() == participants@[k as int]);
        }
        let idx = participants[k];
        match &fields[idx].kind {
            FieldKind::Var(fv) => {
                let ghost after = before.push(fv.name.name@);
                if count > 0 {
                    names.push(',');
                    names.push(' ');
                }
                let nm = fv.name.name.as_str();
                let ghost n0 = names@;
                let mut j: usize = 0;
                while j < nm.len()
                    invariant
                        j <= nm@.len(),
                        names@ == n0 + nm@.take(j as int),
                    decreases nm@.len() - j,
                {
                    names.push(nm[j]);
                    proof {
                        assert(nm@.take(j + 1) =~= nm@.take(j as int).push(nm@[j as int]));
                    }
                    j = j + 1;
                }
                proof {
                    assert(nm@.take(nm@.len() as int) =~= nm@);
                    reveal_strlit(", ");
                    if count > 0 {
                        assert(after.drop_last() =~= before);
                        assert(names@ =~= comma_join(before) + ", "@ + after.last());
                    } else {
                        assert(names@ =~= after[0]);
                    }
                }
                count = count + 1;
            },
            _ => {},
        }
        k = k + 1;
    }
    proof {
        assert(participants@.take(participants@.len() as int) =~= participants@);
    }
    let mut message = str_chars("Circular field default references among: ");
    push_chars(&mut message, names.as_slice());
    let range = if participants.len() > 0 {
        source_map.node_range(fields[participants[0]].node_id)
    } else {
        None
    };
    LoadError { module: module.dup(), message, file_idx, range }
}

/// The evaluation order of a construct's field defaults, reporting a circle
/// among them: the order where there is one; otherwise all variable fields in
/// source order, with the error for the circle added to `errors` (see
/// `field_eval_order` and `circular_error_is`).
pub fn compute_ast_field_eval_order(
    module: &Symbol,
    file_idx: usize,
    source_map: &SourceMap,
    fields: &Vec<Field>,
    errors: &mut Vec<LoadError>,
) -> (r: Vec<usize>)
    ensures
        ({
            let all_vars = vars_outside(fields@, Seq::empty(), fields@.len() as int);
            ||| {
                &&& greedy_order(fields@, r@)
                &&& vars_outside(fields@, r@, fields@.len() as int).len() == 0
                &&& final(errors)@ == old(errors)@
            }
            ||| {
                &&& r@ == all_vars
                &&& final(errors)@.len() == old(errors)@.len() + 1
                &&& final(errors)@.drop_last() == old(errors)@
                &&& exists|p: Seq<usize>| {
                    &&& greedy_order(fields@, p)
                    &&& stuck(fields@, p)
                    &&& vars_outside(fields@, p, fields@.len() as int).len() > 0
                    &&& #[trigger] circular_error_is(
                        final(errors)@.last(),
                        module@,
                        file_idx,
                        source_map.node_ranges@,
                        fields@,
                        vars_outside(fields@, p, fields@.len() as int),
                    )
                }
            }
        }),
{
    match field_eval_order(fields) {
        FieldEvalOrder::Ordered(order) => order,
        FieldEvalOrder::Circular { var_indices, participants } => {
            let ghost p = choose|p: Seq<usize>| {
                &&& greedy_order(fields@, p)
                &&& stuck(fields@, p)
                &&& participants@ == vars_outside(fields@, p, fields@.len() as int)
            };
            proof {
                lemma_vars_outside_in(fields@, p, fields@.len() as int);
            }
            let e = circular_fields_error(module, file_idx, source_map, fields, &participants);
            errors.push(e);
            proof {
                assert(errors@.drop_last() =~= old(errors)@);
                assert(errors@.last() == e);
                assert(circular_error_is(
                    errors@.last(),
                    module@,
                    file_idx,
                    source_map.node_ranges@,
                    fields@,
                    vars_outside(fields@, p, fields@.len() as int),
                ));
            }
            var_indices
        },
    }
}


/// Every index `vars_outside` gives is below `n`.
proof fn lemma_vars_outside_in(fs: Seq<Field>, placed: Seq<usize>, n: int)
    ensures
        forall|k: int| 0 <= k < vars_outside(fs, placed, n).len() ==> (vars_outside(fs, placed, n)[k] as int) < n,
    decreases n,
{
    if n > 0 {
        lemma_vars_outside_in(fs, placed, n - 1);
        let rest = vars_outside(fs, placed, n - 1);
        assert forall|k: int| 0 <= k < vars_outside(fs, placed, n).len() implies (vars_outside(fs, placed, n)[k] as int) < n by {
            if k < rest.len() {
                assert(vars_outside(fs, placed, n)[k] == rest[k]);
            }
        }
    }
}


/// What each argument of a call reads is read by the call.
proof fn lemma_args_refs_include(args: Seq<ExprInvocationArg>, k: int, f: Set<Seq<char>>, sh: Set<Seq<char>>)
    requires
        0 <= k < args.len(),
    ensures
        expr_refs(args[k].value, f, sh).subset_of(args_refs(args, f, sh)),
    decreases args.len(),
{
    if k < args.len() - 1 {
        let init = args.subrange(0, args.len() - 1);
        assert(init[k] == args[k]);
        lemma_args_refs_include(init, k, f, sh);
    }
}

/// A call reads what its callee and each of its argument values read: a
/// default `f(b)` reads the field `b` as surely as a default `b` does.
pub proof fn lemma_call_reads_callee_and_arguments(inv: ExprInvocation, f: Set<Seq<char>>, sh: Set<Seq<char>>)
    ensures
        expr_refs(*inv.expr, f, sh).subset_of(expr_refs(Expr::Invocation(inv), f, sh)),
        forall|k: int| 0 <= k < inv.args@.len() ==> expr_refs(#[trigger] inv.args@[k].value, f, sh).subset_of(
            expr_refs(Expr::Invocation(inv), f, sh),
        ),
{
    assert forall|k: int| 0 <= k < inv.args@.len() implies expr_refs(#[trigger] inv.args@[k].value, f, sh).subset_of(
        expr_refs(Expr::Invocation(inv), f, sh),
    ) by {
        lemma_args_refs_include(inv.args@, k, f, sh);
    }
}

/// A bare identifier naming a field, not shadowed, is read; so is one that
/// stands as an argument value of a call.
pub proof fn lemma_field_ident_is_read(inv: ExprInvocation, k: int, id: Ident, f: Set<Seq<char>>, sh: Set<Seq<char>>)
    requires
        f.contains(id.name@),
        !sh.contains(id.name@),
        0 <= k < inv.args@.len(),
        inv.args@[k].value == Expr::Ident(id),
    ensures
        expr_refs(Expr::Ident(id), f, sh).contains(id.name@),
        expr_refs(Expr::Invocation(inv), f, sh).contains(id.name@),
{
    lemma_call_reads_callee_and_arguments(inv, f, sh);
    assert(expr_refs(inv.args@[k].value, f, sh).contains(id.name@));
}


proof fn lemma_var_field_names_has(fs: Seq<Field>, j: int)
    requires
        is_var_field(fs, j),
    ensures
        var_field_names(fs).contains(var_name_at(fs, j)),
    decreases fs.len(),
{
    if j < fs.len() - 1 {
        let init = fs.subrange(0, fs.len() - 1);
        assert(init[j] == fs[j]);
        lemma_var_field_names_has(init, j);
    }
}

/// A field whose default passes another field (the one its name stands for)
/// as an argument of a call is evaluated after that field: in an evaluation
/// order, the field read comes before the field reading it.
pub proof fn lemma_call_argument_field_placed_first(
    fs: Seq<Field>,
    order: Seq<usize>,
    i: int,
    j: int,
    inv: ExprInvocation,
    k: int,
    id: Ident,
    p: int,
)
    requires
        fs.len() <= usize::MAX,
        greedy_order(fs, order),
        fs[i].kind matches FieldKind::Var(fv) && fv.default == Some(Expr::Invocation(inv)),
        0 <= k < inv.args@.len(),
        inv.args@[k].value == Expr::Ident(id),
        last_of_name(fs, j),
        id.name@ == var_name_at(fs, j),
        var_name_at(fs, j) != var_name_at(fs, i),
        0 <= p < order.len(),
        order[p] == i,
    ensures
        depends_on(fs, i, j),
        exists|q: int| 0 <= q < p && order[q] == j,
{
    lemma_var_field_names_has(fs, j);
    lemma_field_ident_is_read(inv, k, id, var_field_names(fs), Set::empty());
    assert(default_refs(fs, i).contains(var_name_at(fs, j)));
    assert(depends_on(fs, i, j));
    assert(ready(fs, order.take(p), order[p] as int));
    assert(order.take(p).contains(j as usize));
    let q = choose|q: int| 0 <= q < order.take(p).len() && order.take(p)[q] == j as usize;
    assert(order.take(p)[q] == order[q]);
}

} // verus!
