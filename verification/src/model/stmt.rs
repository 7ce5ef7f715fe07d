use vstd::prelude::*;

use super::{Expr, Ident, InvalidNode, NodeId, Type};

verus! {

/// A statement.
#[derive(Debug)]
pub enum Stmt {
    Block(StmtBlock),
    Var(StmtVar),
    Assign(StmtAssign),
    If(StmtIf),
    For(StmtFor),
    ForBreak(StmtForBreak),
    ForContinue(StmtForContinue),
    Defer(StmtDefer),
    Return(StmtReturn),
    ReturnEarly(StmtReturnEarly),
    Implicitly(StmtImplicitly),
    Patch(StmtPatch),
    Expr(Expr),
    Invalid(InvalidNode),
}

impl Stmt {
    pub open spec fn spec_node_id(&self) -> NodeId {
        match self {
            Stmt::Block(s) => s.node_id,
            Stmt::Var(s) => s.node_id,
            Stmt::Assign(s) => s.node_id,
            Stmt::If(s) => s.node_id,
            Stmt::For(s) => s.node_id,
            Stmt::ForBreak(s) => s.node_id,
            Stmt::ForContinue(s) => s.node_id,
            Stmt::Defer(s) => s.node_id,
            Stmt::Return(s) => s.node_id,
            Stmt::ReturnEarly(s) => s.node_id,
            Stmt::Implicitly(s) => s.node_id,
            Stmt::Patch(s) => s.node_id,
            Stmt::Expr(e) => e.spec_node_id(),
            Stmt::Invalid(e) => e.node_id,
        }
    }

    pub fn node_id(&self) -> (r: NodeId)
        ensures
            r == self.spec_node_id(),
    {
        match self {
            Stmt::Block(s) => s.node_id,
            Stmt::Var(s) => s.node_id,
            Stmt::Assign(s) => s.node_id,
            Stmt::If(s) => s.node_id,
            Stmt::For(s) => s.node_id,
            Stmt::ForBreak(s) => s.node_id,
            Stmt::ForContinue(s) => s.node_id,
            Stmt::Defer(s) => s.node_id,
            Stmt::Return(s) => s.node_id,
            Stmt::ReturnEarly(s) => s.node_id,
            Stmt::Implicitly(s) => s.node_id,
            Stmt::Patch(s) => s.node_id,
            Stmt::Expr(e) => e.node_id(),
            Stmt::Invalid(e) => e.node_id,
        }
    }
}

#[derive(Debug)]
pub struct StmtBlock {
    pub node_id: NodeId,
    pub stmts: Vec<Stmt>,
}

/// `a, b := x, y`
#[derive(Debug)]
pub struct StmtVar {
    pub node_id: NodeId,
    pub vars: Vec<StmtVarDecl>,
    pub values: Vec<Expr>,
}

#[derive(Debug)]
pub struct StmtVarDecl {
    pub node_id: NodeId,
    pub name: Ident,
    pub ty: Option<Type>,
}

/// `a, b op= x, y`
#[derive(Debug)]
pub struct StmtAssign {
    pub node_id: NodeId,
    pub vars: Vec<Expr>,
    pub op: StmtAssignOp,
    pub values: Vec<Expr>,
}

#[derive(Debug, Clone, Copy, PartialEq, Eq, Structural)]
pub enum StmtAssignOp {
    Assign,
    AddAssign,
    SubAssign,
    MulAssign,
    DivAssign,
    ModAssign,
}

#[derive(Debug)]
pub struct StmtIf {
    pub node_id: NodeId,
    pub condition: StmtIfCondition,
    pub then_block: StmtBlock,
    pub else_ifs: Vec<StmtIfElseIf>,
    pub else_block: Option<StmtBlock>,
}

#[derive(Debug)]
pub struct StmtIfElseIf {
    pub node_id: NodeId,
    pub condition: StmtIfCondition,
    pub then_block: StmtBlock,
}

#[derive(Debug)]
pub enum StmtIfCondition {
    Bool(StmtIfConditionBool),
    NarrowingAs(StmtIfNarrowingAs),
    NarrowingNil(StmtIfNarrowingNil),
}

#[derive(Debug)]
pub struct StmtIfConditionBool {
    pub node_id: NodeId,
    pub init: Option<Box<Stmt>>,
    pub expr: Expr,
}

#[derive(Debug)]
pub struct StmtIfNarrowingAs {
    pub node_id: NodeId,
    pub bindings: Vec<StmtIfNarrowingAsBinding>,
}

#[derive(Debug)]
pub struct StmtIfNarrowingAsBinding {
    pub node_id: NodeId,
    pub name: Ident,
    pub expr: Expr,
    pub ty: Type,
}

#[derive(Debug)]
pub struct StmtIfNarrowingNil {
    pub node_id: NodeId,
    pub bindings: Vec<StmtIfNarrowingNilBinding>,
}

#[derive(Debug)]
pub struct StmtIfNarrowingNilBinding {
    pub node_id: NodeId,
    pub name: Ident,
    pub expr: Expr,
}

#[derive(Debug)]
pub struct StmtFor {
    pub node_id: NodeId,
    pub label: Option<Ident>,
    pub clause: Option<StmtForClause>,
    pub block: StmtBlock,
}

#[derive(Debug)]
pub enum StmtForClause {
    Condition(StmtForCondition),
    In(StmtForIn),
}

#[derive(Debug)]
pub struct StmtForCondition {
    pub node_id: NodeId,
    pub expr: Expr,
}

/// `for var in expr`: the expression evaluates to an iter func.
#[derive(Debug)]
pub struct StmtForIn {
    pub node_id: NodeId,
    pub var: Ident,
    pub expr: Expr,
}

#[derive(Debug)]
pub struct StmtForBreak {
    pub node_id: NodeId,
    pub label: Option<Ident>,
}

#[derive(Debug)]
pub struct StmtForContinue {
    pub node_id: NodeId,
    pub label: Option<Ident>,
}

#[derive(Debug)]
pub struct StmtDefer {
    pub node_id: NodeId,
    pub block: StmtBlock,
}

#[derive(Debug)]
pub struct StmtReturn {
    pub node_id: NodeId,
}

#[derive(Debug)]
pub struct StmtReturnEarly {
    pub node_id: NodeId,
    pub expr: Expr,
}

#[derive(Debug)]
pub struct StmtImplicitly {
    pub node_id: NodeId,
    pub exprs: Vec<Expr>,
    pub block: Option<StmtBlock>,
}

#[derive(Debug)]
pub struct StmtPatch {
    pub node_id: NodeId,
    pub kind: StmtPatchKind,
}

#[derive(Debug)]
pub enum StmtPatchKind {
    Chain(StmtPatchChain),
    Complete(StmtPatchComplete),
}

#[derive(Debug)]
pub struct StmtPatchChain {
    pub node_id: NodeId,
    pub branches: Vec<StmtPatchBranch>,
}

#[derive(Debug)]
pub struct StmtPatchBranch {
    pub node_id: NodeId,
    pub version: Vec<Ident>,
    pub stmts: Vec<Stmt>,
}

#[derive(Debug)]
pub struct StmtPatchComplete {
    pub node_id: NodeId,
    pub version: Vec<Ident>,
}

} // verus!
