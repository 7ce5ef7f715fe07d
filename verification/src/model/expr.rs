use vstd::prelude::*;

use super::{Data, Func, Ident, InvalidNode, NodeId, Type, TypeArgument};

verus! {

/// An expression.
#[derive(Debug)]
pub enum Expr {
    Paren(ExprParen),
    Access(ExprAccess),
    ModuleAccess(ExprModuleAccess),
    Ident(Ident),
    Outer(ExprOuter),
    Unary(ExprUnary),
    Binary(ExprBinary),
    Narrowing(ExprNarrowing),
    Invocation(ExprInvocation),
    Literal(ExprLiteral),
    Wait(ExprWait),
    Spawn(ExprSpawn),
    AnonData(Data),
    AnonFunc(Func),
    Invalid(InvalidNode),
}

impl Expr {
    pub open spec fn spec_node_id(&self) -> NodeId {
        match self {
            Expr::Paren(e) => e.node_id,
            Expr::Access(e) => e.node_id,
            Expr::ModuleAccess(e) => e.node_id,
            Expr::Ident(e) => e.node_id,
            Expr::Outer(e) => e.node_id,
            Expr::Unary(e) => e.node_id,
            Expr::Binary(e) => e.node_id,
            Expr::Narrowing(e) => e.node_id,
            Expr::Invocation(e) => e.node_id,
            Expr::Literal(e) => e.node_id,
            Expr::Wait(e) => e.node_id,
            Expr::Spawn(e) => e.node_id,
            Expr::AnonData(e) => e.node_id,
            Expr::AnonFunc(e) => e.node_id,
            Expr::Invalid(e) => e.node_id,
        }
    }

    pub fn node_id(&self) -> (r: NodeId)
        ensures
            r == self.spec_node_id(),
    {
        match self {
            Expr::Paren(e) => e.node_id,
            Expr::Access(e) => e.node_id,
            Expr::ModuleAccess(e) => e.node_id,
            Expr::Ident(e) => e.node_id,
            Expr::Outer(e) => e.node_id,
            Expr::Unary(e) => e.node_id,
            Expr::Binary(e) => e.node_id,
            Expr::Narrowing(e) => e.node_id,
            Expr::Invocation(e) => e.node_id,
            Expr::Literal(e) => e.node_id,
            Expr::Wait(e) => e.node_id,
            Expr::Spawn(e) => e.node_id,
            Expr::AnonData(e) => e.node_id,
            Expr::AnonFunc(e) => e.node_id,
            Expr::Invalid(e) => e.node_id,
        }
    }
}

/// `( expr )`
#[derive(Debug)]
pub struct ExprParen {
    pub node_id: NodeId,
    pub expr: Box<Expr>,
}

/// `expr.ident`, `expr?.ident`, `expr->ident`
#[derive(Debug)]
pub struct ExprAccess {
    pub node_id: NodeId,
    pub expr: Box<Expr>,
    pub op: ExprAccessOp,
    pub ident: Ident,
}

#[derive(Debug, Clone, Copy, PartialEq, Eq, Structural)]
pub enum ExprAccessOp {
    Dot,
    NilSafe,
    EntityRef,
}

/// `module::name`
#[derive(Debug)]
pub struct ExprModuleAccess {
    pub node_id: NodeId,
    pub module: Ident,
    pub name: Ident,
}

/// `outer`, `outer.outer`, ...
#[derive(Debug)]
pub struct ExprOuter {
    pub node_id: NodeId,
    pub depth: usize,
}

#[derive(Debug)]
pub struct ExprUnary {
    pub node_id: NodeId,
    pub op: ExprUnaryOp,
    pub expr: Box<Expr>,
}

#[derive(Debug, Clone, Copy, PartialEq, Eq, Structural)]
pub enum ExprUnaryOp {
    Negate,
    Not,
    EarlyReturn,
}

#[derive(Debug)]
pub struct ExprBinary {
    pub node_id: NodeId,
    pub left: Box<Expr>,
    pub op: ExprBinaryOp,
    pub right: Box<Expr>,
}

#[derive(Debug, Clone, Copy, PartialEq, Eq, Structural)]
pub enum ExprBinaryOp {
    Add,
    Sub,
    Mul,
    Div,
    Mod,
    Eq,
    Ne,
    Lt,
    Le,
    Gt,
    Ge,
    And,
    Or,
    NilCoalesce,
}

/// The source spelling of a binary operator.
pub open spec fn binary_op_text(op: ExprBinaryOp) -> Seq<char> {
    match op {
        ExprBinaryOp::Add => seq!['+'],
        ExprBinaryOp::Sub => seq!['-'],
        ExprBinaryOp::Mul => seq!['*'],
        ExprBinaryOp::Div => seq!['/'],
        ExprBinaryOp::Mod => seq!['%'],
        ExprBinaryOp::Eq => seq!['=', '='],
        ExprBinaryOp::Ne => seq!['!', '='],
        ExprBinaryOp::Lt => seq!['<'],
        ExprBinaryOp::Le => seq!['<', '='],
        ExprBinaryOp::Gt => seq!['>'],
        ExprBinaryOp::Ge => seq!['>', '='],
        ExprBinaryOp::And => seq!['&', '&'],
        ExprBinaryOp::Or => seq!['|', '|'],
        ExprBinaryOp::NilCoalesce => seq!['?', '?'],
    }
}

impl ExprBinaryOp {
    pub fn as_str(self) -> (r: &'static str)
        ensures
            r@ == binary_op_text(self),
    {
        proof {
            reveal_strlit("+");
            reveal_strlit("-");
            reveal_strlit("*");
            reveal_strlit("/");
            reveal_strlit("%");
            reveal_strlit("==");
            reveal_strlit("!=");
            reveal_strlit("<");
            reveal_strlit("<=");
            reveal_strlit(">");
            reveal_strlit(">=");
            reveal_strlit("&&");
            reveal_strlit("||");
            reveal_strlit("??");
        }
        match self {
            Self::Add => "+",
            Self::Sub => "-",
            Self::Mul => "*",
            Self::Div => "/",
            Self::Mod => "%",
            Self::Eq => "==",
            Self::Ne => "!=",
            Self::Lt => "<",
            Self::Le => "<=",
            Self::Gt => ">",
            Self::Ge => ">=",
            Self::And => "&&",
            Self::Or => "||",
            Self::NilCoalesce => "??",
        }
    }
}

/// `expr?` / `expr as type` with optional else.
#[derive(Debug)]
pub struct ExprNarrowing {
    pub node_id: NodeId,
    pub expr: Box<Expr>,
    pub kind: ExprNarrowingKind,
}

#[derive(Debug)]
pub enum ExprNarrowingKind {
    Nil(ExprNarrowingNil),
    As(ExprNarrowingAs),
}

#[derive(Debug)]
pub struct ExprNarrowingNil {
    pub node_id: NodeId,
    pub else_expr: Option<Box<Expr>>,
}

#[derive(Debug)]
pub struct ExprNarrowingAs {
    pub node_id: NodeId,
    pub ty: Type,
    pub else_expr: Option<Box<Expr>>,
}

/// `expr[type_args](args)`
#[derive(Debug)]
pub struct ExprInvocation {
    pub node_id: NodeId,
    pub expr: Box<Expr>,
    pub type_args: Vec<TypeArgument>,
    pub args: Vec<ExprInvocationArg>,
}

#[derive(Debug)]
pub struct ExprInvocationArg {
    pub node_id: NodeId,
    pub name: Ident,
    pub value: Expr,
}

#[derive(Debug)]
pub struct ExprLiteral {
    pub node_id: NodeId,
    pub kind: ExprLiteralKind,
}

#[derive(Debug)]
pub enum ExprLiteralKind {
    Int(Vec<char>),
    Float(Vec<char>),
    Str(Vec<char>),
    Bool(bool),
    Nil,
    Array(Vec<Expr>),
    MapLiteral(Vec<ExprLiteralMapEntry>),
}

#[derive(Debug)]
pub struct ExprLiteralMapEntry {
    pub node_id: NodeId,
    pub key: Expr,
    pub value: Expr,
}

/// `wait condition`
#[derive(Debug)]
pub struct ExprWait {
    pub node_id: NodeId,
    pub condition: Box<Expr>,
}

/// `spawn invocation [as id]`
#[derive(Debug)]
pub struct ExprSpawn {
    pub node_id: NodeId,
    pub invocation: Box<Expr>,
    pub id: Option<Box<Expr>>,
}

} // verus!
