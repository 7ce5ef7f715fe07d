use vstd::prelude::*;

use super::{Ident, InvalidNode, NodeId};

verus! {

/// A type reference as written in source.
#[derive(Debug)]
pub enum Type {
    Named(TypeNamed),
    Nilable(TypeNilable),
    EntityRef(TypeEntityRef),
    Introspection(TypeIntrospection),
    Anon(TypeAnon),
    Invalid(InvalidNode),
}

impl Type {
    pub open spec fn spec_node_id(&self) -> NodeId {
        match self {
            Type::Named(t) => t.node_id,
            Type::Nilable(t) => t.node_id,
            Type::EntityRef(t) => t.node_id,
            Type::Introspection(t) => t.node_id,
            Type::Anon(t) => t.node_id,
            Type::Invalid(t) => t.node_id,
        }
    }

    pub fn node_id(&self) -> (r: NodeId)
        ensures
            r == self.spec_node_id(),
    {
        match self {
            Type::Named(t) => t.node_id,
            Type::Nilable(t) => t.node_id,
            Type::EntityRef(t) => t.node_id,
            Type::Introspection(t) => t.node_id,
            Type::Anon(t) => t.node_id,
            Type::Invalid(t) => t.node_id,
        }
    }
}

/// `module::path[args]`
#[derive(Debug)]
pub struct TypeNamed {
    pub node_id: NodeId,
    pub module: Option<Ident>,
    pub path: Vec<Ident>,
    pub type_args: Vec<TypeArgument>,
}

/// `name = type` inside a type argument list.
#[derive(Debug)]
pub struct TypeArgument {
    pub node_id: NodeId,
    pub name: Ident,
    pub value: Type,
}

/// `type?`
#[derive(Debug)]
pub struct TypeNilable {
    pub node_id: NodeId,
    pub inner: Box<Type>,
}

/// `&type`
#[derive(Debug)]
pub struct TypeEntityRef {
    pub node_id: NodeId,
    pub inner: Box<Type>,
}

/// `type@type`, `type@typein`, `type@typeout`
#[derive(Debug)]
pub struct TypeIntrospection {
    pub node_id: NodeId,
    pub inner: TypeNamed,
    pub op: TypeIntrospectionOp,
}

#[derive(Debug, Clone, Copy, PartialEq, Eq, Structural)]
pub enum TypeIntrospectionOp {
    Type,
    TypeIn,
    TypeOut,
}

/// Anonymous construct type: `data { ... }`, `func { ... }`, ...
#[derive(Debug)]
pub struct TypeAnon {
    pub node_id: NodeId,
    pub construct: TypeAnonConstruct,
    pub fields: Vec<TypeAnonField>,
}

#[derive(Debug, Clone, Copy, PartialEq, Eq, Structural)]
pub enum TypeAnonConstruct {
    Data,
    Func,
    FuncView,
    FuncNoblock,
    Entity,
}

/// A field of an anonymous construct type.
#[derive(Debug)]
pub struct TypeAnonField {
    pub node_id: NodeId,
    pub modifier: Option<TypeAnonFieldModifier>,
    pub name: Option<Ident>,
    pub ty: Box<Type>,
    pub has_default: bool,
}

#[derive(Debug, Clone, Copy, PartialEq, Eq, Structural)]
pub enum TypeAnonFieldModifier {
    In,
    Inout,
    Out,
    OutEarly,
    Implicit,
}

} // verus!
