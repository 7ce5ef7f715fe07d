use vstd::prelude::*;

use super::{Annotation, Expr, Ident, InvalidNode, NodeId, Stmt, Type};

verus! {

/// A top-level or member construct: `[out] [builtin] kind name { ... }`.
#[derive(Debug)]
pub struct Construct {
    pub node_id: NodeId,
    pub annotations: Vec<Annotation>,
    pub out: bool,
    pub builtin: bool,
    pub name: Ident,
    pub kind: ConstructKind,
}

#[derive(Debug)]
pub enum ConstructKind {
    TypeAlias(TypeAlias),
    Data(Data),
    Entity(Entity),
    Func(Func),
    Extern(Extern),
    Native(Native),
    Invalid(InvalidNode),
}

/// A field declaration inside a construct body.
#[derive(Debug)]
pub struct Field {
    pub node_id: NodeId,
    pub annotations: Vec<Annotation>,
    pub kind: FieldKind,
}

#[derive(Debug)]
pub enum FieldKind {
    Intype(FieldIntype),
    Var(FieldVar),
    Invalid(InvalidNode),
}

/// `intype name [: constraint] [= default]`
#[derive(Debug)]
pub struct FieldIntype {
    pub node_id: NodeId,
    pub name: Ident,
    pub constraint: Option<Type>,
    pub default: Option<Type>,
}

/// `modifier name [: type] [= default]`
#[derive(Debug)]
pub struct FieldVar {
    pub node_id: NodeId,
    pub modifier: FieldVarModifier,
    pub name: Ident,
    pub ty: Option<Type>,
    pub default: Option<Expr>,
}

#[derive(Debug, Clone, Copy, PartialEq, Eq, Structural)]
pub enum FieldVarModifier {
    In,
    Inout,
    Out,
    OutEarly,
    Implicit,
    Value,
}

/// `type name[intypes] = target`
#[derive(Debug)]
pub struct TypeAlias {
    pub node_id: NodeId,
    pub fields: Vec<FieldIntype>,
    pub target: Type,
}

/// `data name { fields; member funcs }`
#[derive(Debug)]
pub struct Data {
    pub node_id: NodeId,
    pub fields: Vec<Field>,
    pub funcs: Vec<Construct>,
}

/// `entity name { fields; init; run; member funcs }`
#[derive(Debug)]
pub struct Entity {
    pub node_id: NodeId,
    pub fields: Vec<Field>,
    pub init: Option<EntityInit>,
    pub run: Option<EntityRun>,
    pub funcs: Vec<Construct>,
}

#[derive(Debug)]
pub struct EntityInit {
    pub node_id: NodeId,
    pub fields: Vec<Field>,
    pub stmts: Vec<Stmt>,
}

#[derive(Debug)]
pub struct EntityRun {
    pub node_id: NodeId,
    pub fields: Vec<Field>,
    pub stmts: Vec<Stmt>,
}

/// `[view|noblock] func name { fields; stmts }`
#[derive(Debug)]
pub struct Func {
    pub node_id: NodeId,
    pub view: bool,
    pub noblock: bool,
    pub fields: Vec<Field>,
    pub stmts: Vec<Stmt>,
}

/// `extern name { fields }`
#[derive(Debug)]
pub struct Extern {
    pub node_id: NodeId,
    pub fields: Vec<Field>,
}

/// `native name { fields }`
#[derive(Debug)]
pub struct Native {
    pub node_id: NodeId,
    pub view: bool,
    pub noblock: bool,
    pub fields: Vec<Field>,
}

} // verus!
