use vstd::prelude::*;

verus! {

/// Index of a declaration in the registry.
#[derive(Debug, Clone, Copy, PartialEq, Eq, Structural)]
pub struct DeclId(pub u32);

impl DeclId {
    pub fn raw(self) -> (r: u32)
        ensures
            r == self.0,
    {
        self.0
    }
}

/// Index of an interned type in the registry.
#[derive(Debug, Clone, Copy, PartialEq, Eq, Structural)]
pub struct TypeId(pub u32);

impl TypeId {
    pub fn any() -> (r: TypeId)
        ensures
            r.0 == 0,
    {
        TypeId(0)
    }

    pub fn any_local() -> (r: TypeId)
        ensures
            r.0 == 1,
    {
        TypeId(1)
    }

    pub fn error() -> (r: TypeId)
        ensures
            r.0 == 2,
    {
        TypeId(2)
    }
}

/// Index of a module in the registry.
#[derive(Debug, Clone, Copy, PartialEq, Eq, Structural)]
pub struct ModuleIndex(pub u32);

} // verus!
