use std::sync::Arc;
use vstd::prelude::*;

use crate::model::symbol::{push_chars, push_str, str_chars};
use crate::model::Symbol;

use super::ids::{DeclId, ModuleIndex, TypeId};
use super::types::{Module, TypeConstruct, TypeIntype};

verus! {

/// A declaration known to the registry.
#[derive(Debug)]
pub struct DeclEntry {
    pub module: ModuleIndex,
    pub name: Symbol,
    /// `module_path::name`
    pub qualified: Symbol,
}

/// A named type argument.
#[derive(Debug)]
pub struct RegistryTypeArg {
    pub name: Symbol,
    pub value: TypeId,
}

/// An interned type.
#[derive(Debug)]
pub enum TypeEntry {
    Any,
    AnyLocal,
    Error,
    Named { decl: DeclId, type_args: Vec<RegistryTypeArg> },
    /// A member func on a named construct; `type_args` are the receiver's type args.
    MemberFunc { decl: DeclId, member: Symbol, type_args: Vec<RegistryTypeArg> },
    Nilable(TypeId),
    EntityRef(TypeId),
    Anonymous(Box<TypeConstruct>),
    TypeParam(Symbol),
}

/// Holds modules, declarations and interned types.
pub struct Registry {
    pub modules: Vec<Arc<Module>>,
    pub module_paths: Vec<Symbol>,
    pub decls: Vec<DeclEntry>,
    pub types: Vec<TypeEntry>,
    /// Serializability results recorded so far.
    pub serializable_cache: Vec<(TypeId, bool)>,
    pub any_type: TypeId,
    pub anylocal_type: TypeId,
    pub error_type: TypeId,
    pub int_decl: DeclId,
    pub int_type: TypeId,
    pub float_decl: DeclId,
    pub float_type: TypeId,
    pub str_decl: DeclId,
    pub str_type: TypeId,
    pub bool_decl: DeclId,
    pub bool_type: TypeId,
    pub array_decl: DeclId,
    pub array_type: TypeId,
    pub map_decl: DeclId,
    pub map_type: TypeId,
}

/// `path::name`
pub open spec fn qualify(path: Seq<char>, name: Seq<char>) -> Seq<char> {
    path + seq![':', ':'] + name
}

pub open spec fn args_below(args: Seq<RegistryTypeArg>, bound: int) -> bool {
    forall|k: int| 0 <= k < args.len() ==> (#[trigger] args[k]).value.0 < bound
}

pub open spec fn anon_fields_below(tc: TypeConstruct, bound: int) -> bool {
    forall|k: int| 0 <= k < tc.fields@.len() ==> (#[trigger] tc.fields@[k]).ty.0 < bound
}

/// Every type an entry mentions was interned before it, and every declaration exists.
pub open spec fn entry_ok(e: TypeEntry, i: int, ndecls: int) -> bool {
    match e {
        TypeEntry::Named { decl, type_args } => decl.0 < ndecls && args_below(type_args@, i),
        TypeEntry::MemberFunc { decl, type_args, .. } => decl.0 < ndecls && args_below(type_args@, i),
        TypeEntry::Nilable(inner) => inner.0 < i,
        TypeEntry::EntityRef(inner) => inner.0 < i,
        TypeEntry::Anonymous(tc) => anon_fields_below(*tc, i),
        _ => true,
    }
}

pub open spec fn is_plain_named(e: TypeEntry, d: DeclId) -> bool {
    match e {
        TypeEntry::Named { decl, type_args } => decl == d && type_args@.len() == 0,
        _ => false,
    }
}

pub open spec fn is_nilable_of(e: TypeEntry, t: TypeId) -> bool {
    match e {
        TypeEntry::Nilable(inner) => inner == t,
        _ => false,
    }
}

pub open spec fn is_entity_ref_of(e: TypeEntry, t: TypeId) -> bool {
    match e {
        TypeEntry::EntityRef(inner) => inner == t,
        _ => false,
    }
}

pub open spec fn is_type_param_named(e: TypeEntry, name: Seq<char>) -> bool {
    match e {
        TypeEntry::TypeParam(n) => n@ == name,
        _ => false,
    }
}

/// Two entries that interning would share: same plain named decl, same nilable or entity-ref
/// inner type, or same type parameter name.
pub open spec fn same_shared_key(x: TypeEntry, y: TypeEntry) -> bool {
    match (x, y) {
        (
            TypeEntry::Named { decl: d1, type_args: a1 },
            TypeEntry::Named { decl: d2, type_args: a2 },
        ) => d1 == d2 && a1@.len() == 0 && a2@.len() == 0,
        (TypeEntry::Nilable(a), TypeEntry::Nilable(b)) => a == b,
        (TypeEntry::EntityRef(a), TypeEntry::EntityRef(b)) => a == b,
        (TypeEntry::TypeParam(a), TypeEntry::TypeParam(b)) => a@ == b@,
        _ => false,
    }
}

/// The entries that interning shares are never duplicated.
pub open spec fn shared_entries_unique(t: Seq<TypeEntry>) -> bool {
    forall|a: int, b: int| 0 <= a < b < t.len() ==> !same_shared_key(#[trigger] t[a], #[trigger] t[b])
}

pub open spec fn plain_named_pred(d: DeclId) -> spec_fn(TypeEntry) -> bool {
    |e: TypeEntry| is_plain_named(e, d)
}

pub open spec fn nilable_pred(x: TypeId) -> spec_fn(TypeEntry) -> bool {
    |e: TypeEntry| is_nilable_of(e, x)
}

pub open spec fn entity_ref_pred(x: TypeId) -> spec_fn(TypeEntry) -> bool {
    |e: TypeEntry| is_entity_ref_of(e, x)
}

pub open spec fn type_param_pred(n: Seq<char>) -> spec_fn(TypeEntry) -> bool {
    |e: TypeEntry| is_type_param_named(e, n)
}

/// Index of the first entry satisfying `p`.
pub open spec fn first_where(t: Seq<TypeEntry>, p: spec_fn(TypeEntry) -> bool) -> Option<int>
    decreases t.len(),
{
    if t.len() == 0 {
        None
    } else if p(t[0]) {
        Some(0)
    } else {
        match first_where(t.drop_first(), p) {
            Some(i) => Some(i + 1),
            None => None,
        }
    }
}

pub proof fn lemma_first_where_found(t: Seq<TypeEntry>, p: spec_fn(TypeEntry) -> bool, i: int)
    requires
        0 <= i < t.len(),
        p(t[i]),
        forall|j: int| 0 <= j < i ==> !p(t[j]),
    ensures
        first_where(t, p) == Some(i),
    decreases i,
{
    if i > 0 {
        lemma_first_where_found(t.drop_first(), p, i - 1);
    }
}

pub proof fn lemma_first_where_absent(t: Seq<TypeEntry>, p: spec_fn(TypeEntry) -> bool)
    requires
        forall|j: int| 0 <= j < t.len() ==> !p(t[j]),
    ensures
        first_where(t, p) is None,
    decreases t.len(),
{
    if t.len() > 0 {
        lemma_first_where_absent(t.drop_first(), p);
    }
}

pub proof fn lemma_first_where_some(t: Seq<TypeEntry>, p: spec_fn(TypeEntry) -> bool)
    ensures
        first_where(t, p) matches Some(i) ==> 0 <= i < t.len() && p(t[i]) && forall|j: int| 0 <= j < i ==> !p(t[j]),
        first_where(t, p) is None ==> forall|j: int| 0 <= j < t.len() ==> !p(t[j]),
    decreases t.len(),
{
    if t.len() > 0 {
        lemma_first_where_some(t.drop_first(), p);
        if !p(t[0]) {
            if first_where(t, p) is None {
                assert forall|j: int| 0 <= j < t.len() implies !p(t[j]) by {
                    if j > 0 {
                        assert(t[j] == t.drop_first()[j - 1]);
                    }
                }
            } else {
                let i = first_where(t, p).unwrap();
                assert forall|j: int| 0 <= j < i implies !p(t[j]) by {
                    if j > 0 {
                        assert(t[j] == t.drop_first()[j - 1]);
                    }
                }
            }
        }
    }
}

/// Interning outcome: the existing shared entry satisfying `p`, or a new one appended.
pub open spec fn interned(old_t: Seq<TypeEntry>, p: spec_fn(TypeEntry) -> bool, r: int, new_t: Seq<TypeEntry>) -> bool {
    match first_where(old_t, p) {
        Some(j) => r == j && new_t == old_t,
        None => r == old_t.len() && new_t.len() == old_t.len() + 1 && new_t.subrange(
            0,
            old_t.len() as int,
        ) == old_t && p(new_t[r]),
    }
}

/// Index of the first module with path `path`.
pub open spec fn first_path(paths: Seq<Symbol>, path: Seq<char>) -> Option<int>
    decreases paths.len(),
{
    if paths.len() == 0 {
        None
    } else if paths[0]@ == path {
        Some(0)
    } else {
        match first_path(paths.drop_first(), path) {
            Some(i) => Some(i + 1),
            None => None,
        }
    }
}

/// Index of the declaration `name` in module `m`.
pub open spec fn first_decl(decls: Seq<DeclEntry>, m: ModuleIndex, name: Seq<char>) -> Option<int>
    decreases decls.len(),
{
    if decls.len() == 0 {
        None
    } else if decls[0].module == m && decls[0].name@ == name {
        Some(0)
    } else {
        match first_decl(decls.drop_first(), m, name) {
            Some(i) => Some(i + 1),
            None => None,
        }
    }
}

pub open spec fn well_known_ok(r: &Registry, d: DeclId, t: TypeId, name: Seq<char>) -> bool {
    &&& d.0 < r.decls@.len()
    &&& t.0 < r.types@.len()
    &&& is_plain_named(r.types@[t.0 as int], d)
    &&& r.decls@[d.0 as int].name@ == name
}

impl Registry {
    pub open spec fn path_of(&self, m: ModuleIndex) -> Seq<char> {
        self.module_paths@[m.0 as int]@
    }

    /// The registry's internal consistency.
    #[verifier::opaque]
    pub open spec fn wf(&self) -> bool {
        &&& self.modules@.len() == self.module_paths@.len()
        &&& self.modules@.len() < u32::MAX
        &&& self.decls@.len() < u32::MAX
        &&& self.types@.len() < u32::MAX
        &&& forall|a: int, b: int|
            0 <= a < b < self.module_paths@.len() ==> self.module_paths@[a]@ != self.module_paths@[b]@
        &&& forall|d: int|
            #![trigger self.decls@[d]]
            0 <= d < self.decls@.len() ==> {
                &&& self.decls@[d].module.0 < self.modules@.len()
                &&& self.decls@[d].qualified@ == qualify(
                    self.path_of(self.decls@[d].module),
                    self.decls@[d].name@,
                )
            }
        &&& forall|a: int, b: int|
            0 <= a < b < self.decls@.len() ==> !(self.decls@[a].module == self.decls@[b].module
                && self.decls@[a].name@ == self.decls@[b].name@)
        &&& self.types@.len() >= 3
        &&& self.types@[0] is Any
        &&& self.types@[1] is AnyLocal
        &&& self.types@[2] is Error
        &&& self.any_type.0 == 0
        &&& self.anylocal_type.0 == 1
        &&& self.error_type.0 == 2
        &&& forall|i: int|
            #![trigger self.types@[i]]
            0 <= i < self.types@.len() ==> entry_ok(self.types@[i], i, self.decls@.len() as int)
        &&& shared_entries_unique(self.types@)
        &&& well_known_ok(self, self.int_decl, self.int_type, seq!['i', 'n', 't'])
        &&& well_known_ok(self, self.float_decl, self.float_type, seq!['f', 'l', 'o', 'a', 't'])
        &&& well_known_ok(self, self.str_decl, self.str_type, seq!['s', 't', 'r'])
        &&& well_known_ok(self, self.bool_decl, self.bool_type, seq!['b', 'o', 'o', 'l'])
        &&& well_known_ok(self, self.array_decl, self.array_type, seq!['a', 'r', 'r', 'a', 'y'])
        &&& well_known_ok(self, self.map_decl, self.map_type, seq!['m', 'a', 'p'])
        &&& forall|k: int|
            0 <= k < self.serializable_cache@.len() ==> (#[trigger] self.serializable_cache@[k]).0.0
                < self.types@.len()
    }

    /// Only appends: what was interned or registered keeps its meaning.
    pub open spec fn extends(&self, old: &Registry) -> bool {
        &&& old.types@.len() <= self.types@.len()
        &&& self.types@.subrange(0, old.types@.len() as int) == old.types@
        &&& old.decls@.len() <= self.decls@.len()
        &&& self.decls@.subrange(0, old.decls@.len() as int) == old.decls@
        &&& old.module_paths@.len() <= self.module_paths@.len()
        &&& self.module_paths@.subrange(0, old.module_paths@.len() as int) == old.module_paths@
        &&& self.modules@.len() == self.module_paths@.len()
        &&& self.any_type == old.any_type
        &&& self.error_type == old.error_type
        &&& self.anylocal_type == old.anylocal_type
        &&& self.int_type == old.int_type
        &&& self.float_type == old.float_type
        &&& self.str_type == old.str_type
        &&& self.bool_type == old.bool_type
        &&& self.array_type == old.array_type
        &&& self.map_type == old.map_type
        &&& self.int_decl == old.int_decl
        &&& self.float_decl == old.float_decl
        &&& self.str_decl == old.str_decl
        &&& self.bool_decl == old.bool_decl
        &&& self.array_decl == old.array_decl
        &&& self.map_decl == old.map_decl
    }

    /// Everything but the type table (and the cache) is as in `old`.
    pub open spec fn same_except_types(&self, old: &Registry) -> bool {
        &&& self.modules@ == old.modules@
        &&& self.module_paths@ == old.module_paths@
        &&& self.decls@ == old.decls@
        &&& self.serializable_cache@ == old.serializable_cache@
        &&& self.any_type == old.any_type
        &&& self.error_type == old.error_type
        &&& self.anylocal_type == old.anylocal_type
        &&& self.int_type == old.int_type
        &&& self.float_type == old.float_type
        &&& self.str_type == old.str_type
        &&& self.bool_type == old.bool_type
        &&& self.array_type == old.array_type
        &&& self.map_type == old.map_type
        &&& self.int_decl == old.int_decl
        &&& self.float_decl == old.float_decl
        &&& self.str_decl == old.str_decl
        &&& self.bool_decl == old.bool_decl
        &&& self.array_decl == old.array_decl
        &&& self.map_decl == old.map_decl
    }

    pub open spec fn valid_type(&self, t: TypeId) -> bool {
        t.0 < self.types@.len()
    }

    pub open spec fn valid_decl(&self, d: DeclId) -> bool {
        d.0 < self.decls@.len()
    }
}



/// Interning is idempotent: interning the same key again returns the same type and leaves the
/// type table as it is.
pub proof fn lemma_intern_idempotent(t1: Seq<TypeEntry>, p: spec_fn(TypeEntry) -> bool, r: int, t2: Seq<TypeEntry>)
    requires
        interned(t1, p, r, t2),
    ensures
        interned(t2, p, r, t2),
{
    lemma_first_where_some(t1, p);
    match first_where(t1, p) {
        Some(j) => {},
        None => {
            assert forall|j: int| 0 <= j < r implies !p(t2[j]) by {
                assert(t2[j] == t2.subrange(0, t1.len() as int)[j]);
            }
            lemma_first_where_found(t2, p, r);
        },
    }
}

/// Interning never changes what earlier type ids denote.
pub proof fn lemma_intern_extends(t1: Seq<TypeEntry>, p: spec_fn(TypeEntry) -> bool, r: int, t2: Seq<TypeEntry>)
    requires
        interned(t1, p, r, t2),
    ensures
        t1.len() <= t2.len(),
        t2.subrange(0, t1.len() as int) == t1,
        0 <= r < t2.len(),
        p(t2[r]),
{
    lemma_first_where_some(t1, p);
    match first_where(t1, p) {
        Some(j) => {
            assert(t2.subrange(0, t1.len() as int) =~= t1);
        },
        None => {},
    }
}

impl Registry {
    /// Append an entry to the type table.
    fn push_type(&mut self, e: TypeEntry) -> (r: TypeId)
        requires
            old(self).wf(),
            entry_ok(e, old(self).types@.len() as int, old(self).decls@.len() as int),
            forall|j: int| 0 <= j < old(self).types@.len() ==> !same_shared_key(old(self).types@[j], e),
            old(self).types@.len() + 1 < u32::MAX,
        ensures
            final(self).wf(),
            r.0 == old(self).types@.len(),
            final(self).types@ == old(self).types@.push(e),
            final(self).same_except_types(old(self)),
            final(self).extends(old(self)),
    {
        proof {
            reveal(Registry::wf);
        }
        let id = TypeId(self.types.len() as u32);
        let ghost old_t = self.types@;
        self.types.push(e);
        proof {
            assert(self.types@.subrange(0, old_t.len() as int) =~= old_t);
            assert(self.decls@.subrange(0, self.decls@.len() as int) =~= self.decls@);
            assert(self.module_paths@.subrange(0, self.module_paths@.len() as int) =~= self.module_paths@);
            let t = self.types@;
            assert forall|a: int, b: int| 0 <= a < b < t.len() implies !same_shared_key(#[trigger] t[a], #[trigger] t[b]) by {
                if b < old_t.len() {
                    assert(t[a] == old_t[a]);
                    assert(t[b] == old_t[b]);
                } else {
                    assert(t[a] == old_t[a]);
                }
            }
            assert forall|i: int| #![trigger self.types@[i]]
                0 <= i < self.types@.len() implies entry_ok(self.types@[i], i, self.decls@.len() as int) by {
                if i < old_t.len() {
                    assert(self.types@[i] == old_t[i]);
                }
            }
        }
        id
    }

    /// The type of declaration `decl` without type arguments, interned once.
    #[verifier::loop_isolation(false)]
    pub fn intern_named(&mut self, decl: DeclId) -> (r: TypeId)
        requires
            old(self).wf(),
            old(self).valid_decl(decl),
            old(self).types@.len() + 1 < u32::MAX,
        ensures
            final(self).wf(),
            final(self).extends(old(self)),
            final(self).same_except_types(old(self)),
            interned(old(self).types@, plain_named_pred(decl), r.0 as int, final(self).types@),
            final(self).valid_type(r),
            is_plain_named(final(self).types@[r.0 as int], decl),
    {
        proof {
            lemma_wf_basics(self);
            lemma_extends_refl(self);
        }
        let mut i: usize = 0;
        while i < self.types.len()
            invariant
                i <= self.types@.len(),
                forall|j: int| 0 <= j < i ==> !is_plain_named(self.types@[j], decl),
            decreases self.types@.len() - i,
        {
            match &self.types[i] {
                TypeEntry::Named { decl: d, type_args } => {
                    if *d == decl && type_args.len() == 0 {
                        proof {
                            lemma_first_where_found(self.types@, plain_named_pred(decl), i as int);
                        }
                        proof {
                            assert(self.types@.subrange(0, self.types@.len() as int) =~= self.types@);
                            assert(self.decls@.subrange(0, self.decls@.len() as int) =~= self.decls@);
                            assert(self.module_paths@.subrange(0, self.module_paths@.len() as int) =~= self.module_paths@);
                        }
                        return TypeId(i as u32);
                    }
                },
                _ => {},
            }
            i = i + 1;
        }
        proof {
            lemma_first_where_absent(self.types@, plain_named_pred(decl));
        }
        let ghost old_t = self.types@;
        let e = TypeEntry::Named { decl, type_args: Vec::new() };
        proof {
            assert forall|j: int| 0 <= j < old_t.len() implies !same_shared_key(old_t[j], e) by {
                assert(!is_plain_named(old_t[j], decl));
            }
        }
        let r = self.push_type(e);
        assert(self.types@.subrange(0, old_t.len() as int) =~= old_t);
        r
    }

    /// A named type with type arguments (not shared); plain when `type_args` is empty.
    pub fn intern_named_with_args(&mut self, decl: DeclId, type_args: Vec<RegistryTypeArg>) -> (r: TypeId)
        requires
            old(self).wf(),
            old(self).valid_decl(decl),
            args_below(type_args@, old(self).types@.len() as int),
            old(self).types@.len() + 1 < u32::MAX,
        ensures
            final(self).wf(),
            final(self).extends(old(self)),
            final(self).same_except_types(old(self)),
            final(self).valid_type(r),
            type_args@.len() == 0 ==> interned(old(self).types@, plain_named_pred(decl), r.0 as int, final(self).types@),
            type_args@.len() > 0 ==> r.0 == old(self).types@.len() && final(self).types@.len() == old(self).types@.len() + 1
                && final(self).types@.subrange(0, old(self).types@.len() as int) == old(self).types@
                && (match final(self).types@[r.0 as int] {
                    TypeEntry::Named { decl: d, type_args: a } => d == decl && a@ == type_args@,
                    _ => false,
                }),
    {
        if type_args.len() == 0 {
            return self.intern_named(decl);
        }
        let ghost args = type_args@;
        let ghost old_t = self.types@;
        let e = TypeEntry::Named { decl, type_args };
        let r = self.push_type(e);
        assert(self.types@.subrange(0, old_t.len() as int) =~= old_t);
        r
    }

    /// `inner?`, interned once per inner type.
    #[verifier::loop_isolation(false)]
    pub fn intern_nilable(&mut self, inner: TypeId) -> (r: TypeId)
        requires
            old(self).wf(),
            old(self).valid_type(inner),
            old(self).types@.len() + 1 < u32::MAX,
        ensures
            final(self).wf(),
            final(self).extends(old(self)),
            final(self).same_except_types(old(self)),
            interned(old(self).types@, nilable_pred(inner), r.0 as int, final(self).types@),
            final(self).valid_type(r),
            is_nilable_of(final(self).types@[r.0 as int], inner),
    {
        proof {
            lemma_wf_basics(self);
            lemma_extends_refl(self);
        }
        let mut i: usize = 0;
        while i < self.types.len()
            invariant
                i <= self.types@.len(),
                forall|j: int| 0 <= j < i ==> !is_nilable_of(self.types@[j], inner),
            decreases self.types@.len() - i,
        {
            match &self.types[i] {
                TypeEntry::Nilable(x) => {
                    if *x == inner {
                        proof {
                            lemma_first_where_found(self.types@, nilable_pred(inner), i as int);
                        }
                        proof {
                            assert(self.types@.subrange(0, self.types@.len() as int) =~= self.types@);
                            assert(self.decls@.subrange(0, self.decls@.len() as int) =~= self.decls@);
                            assert(self.module_paths@.subrange(0, self.module_paths@.len() as int) =~= self.module_paths@);
                        }
                        return TypeId(i as u32);
                    }
                },
                _ => {},
            }
            i = i + 1;
        }
        proof {
            lemma_first_where_absent(self.types@, nilable_pred(inner));
        }
        let ghost old_t = self.types@;
        let e = TypeEntry::Nilable(inner);
        proof {
            assert forall|j: int| 0 <= j < old_t.len() implies !same_shared_key(old_t[j], e) by {
                assert(!is_nilable_of(old_t[j], inner));
            }
        }
        let r = self.push_type(e);
        assert(self.types@.subrange(0, old_t.len() as int) =~= old_t);
        r
    }

    /// `&inner`, interned once per inner type.
    #[verifier::loop_isolation(false)]
    pub fn intern_entity_ref(&mut self, inner: TypeId) -> (r: TypeId)
        requires
            old(self).wf(),
            old(self).valid_type(inner),
            old(self).types@.len() + 1 < u32::MAX,
        ensures
            final(self).wf(),
            final(self).extends(old(self)),
            final(self).same_except_types(old(self)),
            interned(old(self).types@, entity_ref_pred(inner), r.0 as int, final(self).types@),
            final(self).valid_type(r),
            is_entity_ref_of(final(self).types@[r.0 as int], inner),
    {
        proof {
            lemma_wf_basics(self);
            lemma_extends_refl(self);
        }
        let mut i: usize = 0;
        while i < self.types.len()
            invariant
                i <= self.types@.len(),
                forall|j: int| 0 <= j < i ==> !is_entity_ref_of(self.types@[j], inner),
            decreases self.types@.len() - i,
        {
            match &self.types[i] {
                TypeEntry::EntityRef(x) => {
                    if *x == inner {
                        proof {
                            lemma_first_where_found(self.types@, entity_ref_pred(inner), i as int);
                        }
                        proof {
                            assert(self.types@.subrange(0, self.types@.len() as int) =~= self.types@);
                            assert(self.decls@.subrange(0, self.decls@.len() as int) =~= self.decls@);
                            assert(self.module_paths@.subrange(0, self.module_paths@.len() as int) =~= self.module_paths@);
                        }
                        return TypeId(i as u32);
                    }
                },
                _ => {},
            }
            i = i + 1;
        }
        proof {
            lemma_first_where_absent(self.types@, entity_ref_pred(inner));
        }
        let ghost old_t = self.types@;
        let e = TypeEntry::EntityRef(inner);
        proof {
            assert forall|j: int| 0 <= j < old_t.len() implies !same_shared_key(old_t[j], e) by {
                assert(!is_entity_ref_of(old_t[j], inner));
            }
        }
        let r = self.push_type(e);
        assert(self.types@.subrange(0, old_t.len() as int) =~= old_t);
        r
    }

    /// The type parameter `name`, interned once per name.
    #[verifier::loop_isolation(false)]
    pub fn intern_type_param(&mut self, name: &Symbol) -> (r: TypeId)
        requires
            old(self).wf(),
            old(self).types@.len() + 1 < u32::MAX,
        ensures
            final(self).wf(),
            final(self).extends(old(self)),
            final(self).same_except_types(old(self)),
            interned(old(self).types@, type_param_pred(name@), r.0 as int, final(self).types@),
            final(self).valid_type(r),
            is_type_param_named(final(self).types@[r.0 as int], name@),
    {
        proof {
            lemma_wf_basics(self);
            lemma_extends_refl(self);
        }
        let mut i: usize = 0;
        while i < self.types.len()
            invariant
                i <= self.types@.len(),
                forall|j: int| 0 <= j < i ==> !is_type_param_named(self.types@[j], name@),
            decreases self.types@.len() - i,
        {
            match &self.types[i] {
                TypeEntry::TypeParam(n) => {
                    if n.eq_sym(name) {
                        proof {
                            lemma_first_where_found(self.types@, type_param_pred(name@), i as int);
                        }
                        proof {
                            assert(self.types@.subrange(0, self.types@.len() as int) =~= self.types@);
                            assert(self.decls@.subrange(0, self.decls@.len() as int) =~= self.decls@);
                            assert(self.module_paths@.subrange(0, self.module_paths@.len() as int) =~= self.module_paths@);
                        }
                        return TypeId(i as u32);
                    }
                },
                _ => {},
            }
            i = i + 1;
        }
        proof {
            lemma_first_where_absent(self.types@, type_param_pred(name@));
        }
        let ghost old_t = self.types@;
        let e = TypeEntry::TypeParam(name.dup());
        proof {
            assert forall|j: int| 0 <= j < old_t.len() implies !same_shared_key(old_t[j], e) by {
                assert(!is_type_param_named(old_t[j], name@));
            }
        }
        let r = self.push_type(e);
        assert(self.types@.subrange(0, old_t.len() as int) =~= old_t);
        r
    }

    /// A member func type (never shared).
    pub fn intern_member_func(&mut self, decl: DeclId, member: Symbol, type_args: Vec<RegistryTypeArg>) -> (r: TypeId)
        requires
            old(self).wf(),
            old(self).valid_decl(decl),
            args_below(type_args@, old(self).types@.len() as int),
            old(self).types@.len() + 1 < u32::MAX,
        ensures
            final(self).wf(),
            final(self).extends(old(self)),
            final(self).same_except_types(old(self)),
            r.0 == old(self).types@.len(),
            final(self).types@.len() == old(self).types@.len() + 1,
            final(self).types@.subrange(0, old(self).types@.len() as int) == old(self).types@,
            match final(self).types@[r.0 as int] {
                TypeEntry::MemberFunc { decl: d, member: m, type_args: a } => d == decl && m@ == member@ && a@ == type_args@,
                _ => false,
            },
    {
        let ghost old_t = self.types@;
        let e = TypeEntry::MemberFunc { decl, member, type_args };
        let r = self.push_type(e);
        assert(self.types@.subrange(0, old_t.len() as int) =~= old_t);
        r
    }

    /// An anonymous construct type (never shared).
    pub fn intern_anonymous(&mut self, construct: TypeConstruct) -> (r: TypeId)
        requires
            old(self).wf(),
            anon_fields_below(construct, old(self).types@.len() as int),
            old(self).types@.len() + 1 < u32::MAX,
        ensures
            final(self).wf(),
            final(self).extends(old(self)),
            final(self).same_except_types(old(self)),
            r.0 == old(self).types@.len(),
            final(self).types@.len() == old(self).types@.len() + 1,
            final(self).types@.subrange(0, old(self).types@.len() as int) == old(self).types@,
            match final(self).types@[r.0 as int] {
                TypeEntry::Anonymous(tc) => *tc == construct,
                _ => false,
            },
    {
        let ghost old_t = self.types@;
        let e = TypeEntry::Anonymous(Box::new(construct));
        let r = self.push_type(e);
        assert(self.types@.subrange(0, old_t.len() as int) =~= old_t);
        r
    }
}

pub proof fn lemma_first_path_found(paths: Seq<Symbol>, i: int, path: Seq<char>)
    requires
        0 <= i < paths.len(),
        paths[i]@ == path,
        forall|j: int| 0 <= j < i ==> paths[j]@ != path,
    ensures
        first_path(paths, path) == Some(i),
    decreases i,
{
    if i > 0 {
        lemma_first_path_found(paths.drop_first(), i - 1, path);
    }
}

/// The index `first_path` gives holds the path.
pub proof fn lemma_first_path_bound(paths: Seq<Symbol>, path: Seq<char>)
    ensures
        first_path(paths, path) matches Some(i) ==> 0 <= i < paths.len() && paths[i]@ == path,
    decreases paths.len(),
{
    if paths.len() > 0 {
        lemma_first_path_bound(paths.drop_first(), path);
    }
}

pub proof fn lemma_first_path_absent(paths: Seq<Symbol>, path: Seq<char>)
    requires
        forall|j: int| 0 <= j < paths.len() ==> paths[j]@ != path,
    ensures
        first_path(paths, path) is None,
    decreases paths.len(),
{
    if paths.len() > 0 {
        lemma_first_path_absent(paths.drop_first(), path);
    }
}

pub proof fn lemma_first_decl_found(decls: Seq<DeclEntry>, i: int, m: ModuleIndex, name: Seq<char>)
    requires
        0 <= i < decls.len(),
        decls[i].module == m && decls[i].name@ == name,
        forall|j: int| 0 <= j < i ==> !(decls[j].module == m && decls[j].name@ == name),
    ensures
        first_decl(decls, m, name) == Some(i),
    decreases i,
{
    if i > 0 {
        lemma_first_decl_found(decls.drop_first(), i - 1, m, name);
    }
}

pub proof fn lemma_first_decl_absent(decls: Seq<DeclEntry>, m: ModuleIndex, name: Seq<char>)
    requires
        forall|j: int| 0 <= j < decls.len() ==> !(decls[j].module == m && decls[j].name@ == name),
    ensures
        first_decl(decls, m, name) is None,
    decreases decls.len(),
{
    if decls.len() > 0 {
        lemma_first_decl_absent(decls.drop_first(), m, name);
    }
}

pub proof fn lemma_first_decl_bound(decls: Seq<DeclEntry>, m: ModuleIndex, name: Seq<char>)
    ensures
        first_decl(decls, m, name) matches Some(d) ==> 0 <= d < decls.len(),
    decreases decls.len(),
{
    if decls.len() > 0 {
        lemma_first_decl_bound(decls.drop_first(), m, name);
    }
}

pub proof fn lemma_first_decl_none(decls: Seq<DeclEntry>, m: ModuleIndex, name: Seq<char>)
    requires
        first_decl(decls, m, name) is None,
    ensures
        forall|j: int| 0 <= j < decls.len() ==> !(decls[j].module == m && decls[j].name@ == name),
    decreases decls.len(),
{
    if decls.len() > 0 {
        lemma_first_decl_none(decls.drop_first(), m, name);
        assert forall|j: int| 0 <= j < decls.len() implies !(decls[j].module == m && decls[j].name@ == name) by {
            if j > 0 {
                assert(decls[j] == decls.drop_first()[j - 1]);
            }
        }
    }
}

pub proof fn lemma_param_value_valid(args: Seq<(Symbol, TypeId)>, name: Seq<char>, bound: int)
    requires
        pairs_valid(args, bound),
    ensures
        param_value(args, name) matches Some(t) ==> t.0 < bound,
    decreases args.len(),
{
    if args.len() > 0 {
        assert(pairs_valid(args.drop_first(), bound)) by {
            assert forall|k: int| 0 <= k < args.drop_first().len() implies (#[trigger] args.drop_first()[k]).1.0 < bound by {
                assert(args.drop_first()[k] == args[k + 1]);
            }
        }
        lemma_param_value_valid(args.drop_first(), name, bound);
    }
}

/// Position of the first path equal to `path`.
fn path_position(paths: &[Symbol], path: &[char]) -> (r: Option<usize>)
    ensures
        match r {
            Some(i) => i < paths@.len() && paths@[i as int]@ == path@ && forall|j: int| 0 <= j < i ==> paths@[j]@ != path@,
            None => forall|j: int| 0 <= j < paths@.len() ==> paths@[j]@ != path@,
        },
        r is None ==> first_path(paths@, path@) is None,
{
    let mut i: usize = 0;
    while i < paths.len()
        invariant
            i <= paths@.len(),
            forall|j: int| 0 <= j < i ==> paths@[j]@ != path@,
        decreases paths@.len() - i,
    {
        if paths[i].eq_chars(path) {
            return Some(i);
        }
        i = i + 1;
    }
    proof {
        lemma_first_path_absent(paths@, path@);
    }
    None
}

/// `path::name` as characters.
pub fn make_qualified(path: &[char], name: &[char]) -> (r: Vec<char>)
    ensures
        r@ == qualify(path@, name@),
{
    let mut q: Vec<char> = Vec::new();
    push_chars(&mut q, path);
    q.push(':');
    q.push(':');
    push_chars(&mut q, name);
    assert(q@ =~= qualify(path@, name@));
    q
}

fn placeholder_module() -> (r: Arc<Module>)
    ensures
        !r.has_errors,
        r.files@.len() == 0,
        r.decl_index@.len() == 0,
{
    Arc::new(Module { has_errors: false, files: Vec::new(), decl_index: Vec::new() })
}

fn plain_named(decl: DeclId) -> (r: TypeEntry)
    ensures
        is_plain_named(r, decl),
{
    TypeEntry::Named { decl, type_args: Vec::new() }
}

impl Registry {
    /// A registry with `any`, `anylocal`, `error` and the primitive declarations
    /// (`int`, `float`, `str`, `bool`, `array`, `map`) each in its placeholder module
    /// (`duralade.int`, ...), with their named types interned.
    /// The registry as `new` makes it: the built-in types and declarations
    /// of the primitive modules.
    pub open spec fn is_initial(&self) -> bool {
        &&& self.types@.len() == 9
        &&& self.decls@.len() == 6
        &&& self.modules@.len() == 6
        &&& self.int_decl.0 == 0 && self.int_type.0 == 3
        &&& self.float_decl.0 == 1 && self.float_type.0 == 4
        &&& self.str_decl.0 == 2 && self.str_type.0 == 5
        &&& self.bool_decl.0 == 3 && self.bool_type.0 == 6
        &&& self.array_decl.0 == 4 && self.array_type.0 == 7
        &&& self.map_decl.0 == 5 && self.map_type.0 == 8
        &&& self.module_paths@[0]@ == "duralade.int"@
        &&& self.module_paths@[1]@ == "duralade.float"@
        &&& self.module_paths@[2]@ == "duralade.str"@
        &&& self.module_paths@[3]@ == "duralade.bool"@
        &&& self.module_paths@[4]@ == "duralade.array"@
        &&& self.module_paths@[5]@ == "duralade.map"@
        &&& forall|i: int| 0 <= i < 6 ==> (#[trigger] self.decls@[i]).module.0 == i
        &&& forall|i: int| 0 <= i < 6 ==> self.modules@[i].files@.len() == 0
        &&& self.serializable_cache@.len() == 0
    }

    pub fn new() -> (r: Registry)
        ensures
            r.wf(),
            r.is_initial(),
    {
        proof {
            reveal(Registry::wf);
        }
        proof {
            reveal_strlit("duralade.int");
            reveal_strlit("duralade.float");
            reveal_strlit("duralade.str");
            reveal_strlit("duralade.bool");
            reveal_strlit("duralade.array");
            reveal_strlit("duralade.map");
            reveal_strlit("int");
            reveal_strlit("float");
            reveal_strlit("str");
            reveal_strlit("bool");
            reveal_strlit("array");
            reveal_strlit("map");
        }
        let paths: Vec<Symbol> = vec![
            Symbol::from_str("duralade.int"),
            Symbol::from_str("duralade.float"),
            Symbol::from_str("duralade.str"),
            Symbol::from_str("duralade.bool"),
            Symbol::from_str("duralade.array"),
            Symbol::from_str("duralade.map"),
        ];
        let names: Vec<Symbol> = vec![
            Symbol::from_str("int"),
            Symbol::from_str("float"),
            Symbol::from_str("str"),
            Symbol::from_str("bool"),
            Symbol::from_str("array"),
            Symbol::from_str("map"),
        ];
        let mut modules: Vec<Arc<Module>> = Vec::new();
        let mut decls: Vec<DeclEntry> = Vec::new();
        let mut types: Vec<TypeEntry> = Vec::new();
        types.push(TypeEntry::Any);
        types.push(TypeEntry::AnyLocal);
        types.push(TypeEntry::Error);
        let mut i: usize = 0;
        while i < 6
            invariant
                i <= 6,
                paths@.len() == 6,
                names@.len() == 6,
                modules@.len() == i,
                decls@.len() == i,
                types@.len() == 3 + i,
                types@[0] is Any,
                types@[1] is AnyLocal,
                types@[2] is Error,
                forall|k: int| 0 <= k < i ==> modules@[k].files@.len() == 0,
                forall|k: int| #![trigger decls@[k]] 0 <= k < i ==> decls@[k].module.0 == k
                    && decls@[k].name@ == names@[k]@
                    && decls@[k].qualified@ == qualify(paths@[k]@, names@[k]@),
                forall|j: int| 3 <= j < 3 + i ==> is_plain_named(#[trigger] types@[j], DeclId((j - 3) as u32)),
            decreases 6 - i,
        {
            modules.push(placeholder_module());
            let q = make_qualified(paths[i].as_str(), names[i].as_str());
            decls.push(DeclEntry { module: ModuleIndex(i as u32), name: names[i].dup(), qualified: Symbol::new(q) });
            types.push(plain_named(DeclId(i as u32)));
            i = i + 1;
        }
        let reg = Registry {
            modules,
            module_paths: paths,
            decls,
            types,
            serializable_cache: Vec::new(),
            any_type: TypeId(0),
            anylocal_type: TypeId(1),
            error_type: TypeId(2),
            int_decl: DeclId(0),
            int_type: TypeId(3),
            float_decl: DeclId(1),
            float_type: TypeId(4),
            str_decl: DeclId(2),
            str_type: TypeId(5),
            bool_decl: DeclId(3),
            bool_type: TypeId(6),
            array_decl: DeclId(4),
            array_type: TypeId(7),
            map_decl: DeclId(5),
            map_type: TypeId(8),
        };
        proof {
            let t = reg.types@;
            assert(is_plain_named(t[3], DeclId(0)));
            assert(is_plain_named(t[4], DeclId(1)));
            assert(is_plain_named(t[5], DeclId(2)));
            assert(is_plain_named(t[6], DeclId(3)));
            assert(is_plain_named(t[7], DeclId(4)));
            assert(is_plain_named(t[8], DeclId(5)));
            assert forall|a: int, b: int| 0 <= a < b < t.len() implies !same_shared_key(#[trigger] t[a], #[trigger] t[b]) by {
                if a >= 3 {
                    assert(is_plain_named(t[a], DeclId((a - 3) as u32)));
                    assert(is_plain_named(t[b], DeclId((b - 3) as u32)));
                }
            }
            assert forall|i: int| #![trigger reg.types@[i]]
                0 <= i < reg.types@.len() implies entry_ok(reg.types@[i], i, reg.decls@.len() as int) by {
                if i >= 3 {
                    assert(is_plain_named(t[i], DeclId((i - 3) as u32)));
                }
            }
            let p = reg.module_paths@;
            assert forall|a: int, b: int| 0 <= a < b < p.len() implies p[a]@ != p[b]@ by {
                assert(p[a]@.len() != p[b]@.len() || p[a]@[9] != p[b]@[9]);
            }
            let d = reg.decls@;
            assert(d[0].name@ == seq!['i', 'n', 't']);
            assert(d[1].name@ == seq!['f', 'l', 'o', 'a', 't']);
            assert(d[2].name@ == seq!['s', 't', 'r']);
            assert(d[3].name@ == seq!['b', 'o', 'o', 'l']);
            assert(d[4].name@ == seq!['a', 'r', 'r', 'a', 'y']);
            assert(d[5].name@ == seq!['m', 'a', 'p']);
            assert(well_known_ok(&reg, reg.int_decl, reg.int_type, seq!['i', 'n', 't']));
            assert(well_known_ok(&reg, reg.float_decl, reg.float_type, seq!['f', 'l', 'o', 'a', 't']));
            assert(well_known_ok(&reg, reg.str_decl, reg.str_type, seq!['s', 't', 'r']));
            assert(well_known_ok(&reg, reg.bool_decl, reg.bool_type, seq!['b', 'o', 'o', 'l']));
            assert(well_known_ok(&reg, reg.array_decl, reg.array_type, seq!['a', 'r', 'r', 'a', 'y']));
            assert(well_known_ok(&reg, reg.map_decl, reg.map_type, seq!['m', 'a', 'p']));
            assert forall|dd: int|
                #![trigger reg.decls@[dd]]
                0 <= dd < reg.decls@.len() implies {
                    &&& reg.decls@[dd].module.0 < reg.modules@.len()
                    &&& reg.decls@[dd].qualified@ == qualify(
                        reg.path_of(reg.decls@[dd].module),
                        reg.decls@[dd].name@,
                    )
                } by {
                assert(reg.decls@[dd].module.0 == dd);
            }
            assert forall|a: int, b: int| 0 <= a < b < d.len() implies !(d[a].module == d[b].module
                && d[a].name@ == d[b].name@) by {
                assert(d[a].module.0 == a);
                assert(d[b].module.0 == b);
            }
        }
        reg
    }
}

impl Registry {
    /// Register a module under `path`, replacing the module already registered there.
    #[verifier::rlimit(100)]
    pub fn register_module(&mut self, path: Symbol, module: Arc<Module>) -> (r: ModuleIndex)
        requires
            old(self).wf(),
            old(self).modules@.len() + 1 < u32::MAX,
        ensures
            final(self).wf(),
            final(self).decls@ == old(self).decls@,
            final(self).types@ == old(self).types@,
            match first_path(old(self).module_paths@, path@) {
                Some(i) => r.0 == i && final(self).module_paths@ == old(self).module_paths@
                    && final(self).modules@ == old(self).modules@.update(i, module),
                None => r.0 == old(self).modules@.len() && final(self).module_paths@
                    == old(self).module_paths@.push(path) && final(self).modules@
                    == old(self).modules@.push(module),
            },
            final(self).extends(old(self)),
    {
        proof {
            reveal(Registry::wf);
        }
        match path_position(self.module_paths.as_slice(), path.as_str()) {
            Some(i) => {
                proof {
                    lemma_first_path_found(self.module_paths@, i as int, path@);
                }
                self.modules.set(i, module);
                proof {
                    assert(self.module_paths@.subrange(0, old(self).module_paths@.len() as int) =~= self.module_paths@);
                    assert(self.types@.subrange(0, old(self).types@.len() as int) =~= self.types@);
                    assert(self.decls@.subrange(0, old(self).decls@.len() as int) =~= self.decls@);
                }
                return ModuleIndex(i as u32);
            },
            None => {},
        }
        let idx = ModuleIndex(self.modules.len() as u32);
        self.modules.push(module);
        self.module_paths.push(path);
        proof {
            let p = self.module_paths@;
            let op = old(self).module_paths@;
            assert forall|a: int, b: int| 0 <= a < b < p.len() implies p[a]@ != p[b]@ by {
                if b < op.len() {
                    assert(p[a] == op[a] && p[b] == op[b]);
                } else {
                    assert(p[a] == op[a]);
                }
            }
            assert forall|d: int|
                #![trigger self.decls@[d]]
                0 <= d < self.decls@.len() implies {
                    &&& self.decls@[d].module.0 < self.modules@.len()
                    &&& self.decls@[d].qualified@ == qualify(
                        self.path_of(self.decls@[d].module),
                        self.decls@[d].name@,
                    )
                } by {
                let m = self.decls@[d].module.0 as int;
                assert(old(self).decls@[d] == self.decls@[d]);
                assert(p[m] == op[m]);
            }
            assert(p.subrange(0, op.len() as int) =~= op);
            assert(self.types@.subrange(0, old(self).types@.len() as int) =~= self.types@);
            assert(self.decls@.subrange(0, old(self).decls@.len() as int) =~= self.decls@);
        }
        idx
    }

    pub fn module(&self, idx: ModuleIndex) -> (r: &Arc<Module>)
        requires
            (idx.0 as int) < self.modules@.len(),
        ensures
            *r == self.modules@[idx.0 as int],
    {
        &self.modules[idx.0 as usize]
    }

    pub fn path_of_module(&self, idx: ModuleIndex) -> (r: &Symbol)
        requires
            (idx.0 as int) < self.module_paths@.len(),
        ensures
            *r == self.module_paths@[idx.0 as int],
    {
        &self.module_paths[idx.0 as usize]
    }

    /// The module registered under `path`.
    pub fn module_index(&self, path: &[char]) -> (r: Option<ModuleIndex>)
        requires
            self.module_paths@.len() < u32::MAX,
        ensures
            match first_path(self.module_paths@, path@) {
                Some(i) => r == Some(ModuleIndex(i as u32)),
                None => r is None,
            },
    {
        let mut i: usize = 0;
        while i < self.module_paths.len()
            invariant
                i <= self.module_paths@.len(),
                self.module_paths@.len() < u32::MAX,
                forall|j: int| 0 <= j < i ==> self.module_paths@[j]@ != path@,
            decreases self.module_paths@.len() - i,
        {
            if self.module_paths[i].eq_chars(path) {
                proof {
                    lemma_first_path_found(self.module_paths@, i as int, path@);
                }
                return Some(ModuleIndex(i as u32));
            }
            i = i + 1;
        }
        proof {
            lemma_first_path_absent(self.module_paths@, path@);
        }
        None
    }

    /// The module whose path is `segments` joined by `.`.
    pub fn module_index_from_segments(&self, segments: &[Vec<char>]) -> (r: Option<ModuleIndex>)
        requires
            self.module_paths@.len() < u32::MAX,
        ensures
            match first_path(self.module_paths@, join_dotted(segments@.map_values(|s: Vec<char>| s@))) {
                Some(i) => r == Some(ModuleIndex(i as u32)),
                None => r is None,
            },
    {
        let path = join_chars(segments, '.');
        self.module_index(path.as_slice())
    }

    pub fn module_count(&self) -> (r: usize)
        ensures
            r == self.modules@.len(),
    {
        self.modules.len()
    }

    /// All modules with their indices and paths, in registration order.
    pub fn iter_modules(&self) -> (r: Vec<(ModuleIndex, &Symbol, &Arc<Module>)>)
        requires
            self.wf(),
        ensures
            r@.len() == self.modules@.len(),
            forall|i: int| 0 <= i < r@.len() ==> (#[trigger] r@[i]).0.0 == i && *r@[i].1
                == self.module_paths@[i] && *r@[i].2 == self.modules@[i],
    {
        proof {
            lemma_wf_basics(self);
        }
        let mut out: Vec<(ModuleIndex, &Symbol, &Arc<Module>)> = Vec::new();
        let mut i: usize = 0;
        while i < self.modules.len()
            invariant
                self.modules@.len() == self.module_paths@.len(),
                self.modules@.len() < u32::MAX,
                i <= self.modules@.len(),
                out@.len() == i,
                forall|k: int| 0 <= k < i ==> (#[trigger] out@[k]).0.0 == k && *out@[k].1
                    == self.module_paths@[k] && *out@[k].2 == self.modules@[k],
            decreases self.modules@.len() - i,
        {
            out.push((ModuleIndex(i as u32), &self.module_paths[i], &self.modules[i]));
            i = i + 1;
        }
        out
    }

    /// Register declaration `name` in `module` (once); its plain named type is interned too.
    #[verifier::rlimit(100)]
    pub fn register_decl(&mut self, module: ModuleIndex, name: &Symbol) -> (r: DeclId)
        requires
            old(self).wf(),
            (module.0 as int) < old(self).modules@.len(),
            old(self).decls@.len() + 1 < u32::MAX,
            old(self).types@.len() + 2 < u32::MAX,
        ensures
            final(self).wf(),
            final(self).extends(old(self)),
            final(self).modules@ == old(self).modules@,
            final(self).module_paths@ == old(self).module_paths@,
            decl_registered(*old(self), *final(self), module, name@, r),
            match first_decl(old(self).decls@, module, name@) {
                Some(d) => r.0 == d && final(self).decls@ == old(self).decls@ && final(self).types@ == old(self).types@,
                None => r.0 == old(self).decls@.len() && final(self).decls@.len() == old(self).decls@.len() + 1
                    && final(self).decls@[r.0 as int].module == module
                    && final(self).decls@[r.0 as int].name@ == name@
                    && final(self).decls@[r.0 as int].qualified@ == qualify(old(self).path_of(module), name@)
                    && exists|t: int| interned(old(self).types@, plain_named_pred(r), t, final(self).types@),
            },
    {
        proof {
            reveal(Registry::wf);
        }
        proof {
            lemma_first_decl_bound(self.decls@, module, name@);
        }
        match self.decl_id_in_module(module, name.as_str()) {
            Some(d) => {
                proof {
                    assert(self.types@.subrange(0, old(self).types@.len() as int) =~= self.types@);
                    assert(self.decls@.subrange(0, old(self).decls@.len() as int) =~= self.decls@);
                    assert(self.module_paths@.subrange(0, old(self).module_paths@.len() as int) =~= self.module_paths@);
                }
                return d;
            },
            None => {},
        }
        proof {
            lemma_first_decl_none(self.decls@, module, name@);
        }
        let q = make_qualified(self.module_paths[module.0 as usize].as_str(), name.as_str());
        let id = DeclId(self.decls.len() as u32);
        let ghost before = *self;
        self.decls.push(DeclEntry { module, name: name.dup(), qualified: Symbol::new(q) });
        proof {
            assert(self.decls@.subrange(0, before.decls@.len() as int) =~= before.decls@);
            lemma_push_decl_wf(&before, self);
        }
        let ghost mid = *self;
        let t = self.intern_named(id);
        proof {
            assert(self.decls@.subrange(0, old(self).decls@.len() as int) =~= old(self).decls@);
            assert(self.module_paths@.subrange(0, old(self).module_paths@.len() as int) =~= self.module_paths@);
            lemma_intern_extends(old(self).types@, plain_named_pred(id), t.0 as int, self.types@);
        }
        id
    }

    pub fn decl(&self, id: DeclId) -> (r: &DeclEntry)
        requires
            self.valid_decl(id),
        ensures
            *r == self.decls@[id.0 as int],
    {
        &self.decls[id.0 as usize]
    }

    /// The intypes of a declaration, read from its module; empty for a placeholder module.
    pub fn decl_intypes(&self, id: DeclId) -> (r: &[TypeIntype])
        requires
            self.wf(),
            self.valid_decl(id),
        ensures
            match self.modules@[self.decls@[id.0 as int].module.0 as int].spec_declaration(self.decls@[id.0 as int].name@) {
                Some(tc) => r@ == tc.intypes@,
                None => r@.len() == 0,
            },
    {
        proof {
            lemma_wf_basics(self);
        }
        let entry = &self.decls[id.0 as usize];
        let module = &self.modules[entry.module.0 as usize];
        match module.get_declaration(entry.name.as_str()) {
            Some(tc) => tc.intypes.as_slice(),
            None => &[],
        }
    }

    /// The declaration `name` in `module`.
    pub fn decl_id_in_module(&self, module: ModuleIndex, name: &[char]) -> (r: Option<DeclId>)
        requires
            self.decls@.len() < u32::MAX,
        ensures
            match first_decl(self.decls@, module, name@) {
                Some(d) => r == Some(DeclId(d as u32)),
                None => r is None,
            },
    {
        let mut i: usize = 0;
        while i < self.decls.len()
            invariant
                i <= self.decls@.len(),
                self.decls@.len() < u32::MAX,
                forall|j: int| 0 <= j < i ==> !(self.decls@[j].module == module && self.decls@[j].name@ == name@),
            decreases self.decls@.len() - i,
        {
            if self.decls[i].module == module && self.decls[i].name.eq_chars(name) {
                proof {
                    lemma_first_decl_found(self.decls@, i as int, module, name@);
                }
                return Some(DeclId(i as u32));
            }
            i = i + 1;
        }
        proof {
            lemma_first_decl_absent(self.decls@, module, name@);
        }
        None
    }

    pub fn intern_any(&self) -> (r: TypeId)
        ensures
            r == self.any_type,
    {
        self.any_type
    }

    pub fn intern_error(&self) -> (r: TypeId)
        ensures
            r == self.error_type,
    {
        self.error_type
    }

    /// The plain named type of `decl`, if interned.
    pub fn named_type(&self, decl: DeclId) -> (r: Option<TypeId>)
        requires
            self.types@.len() < u32::MAX,
        ensures
            match first_where(self.types@, plain_named_pred(decl)) {
                Some(i) => r == Some(TypeId(i as u32)),
                None => r is None,
            },
    {
        let mut i: usize = 0;
        while i < self.types.len()
            invariant
                i <= self.types@.len(),
                self.types@.len() < u32::MAX,
                forall|j: int| 0 <= j < i ==> !is_plain_named(self.types@[j], decl),
            decreases self.types@.len() - i,
        {
            match &self.types[i] {
                TypeEntry::Named { decl: d, type_args } => {
                    if *d == decl && type_args.len() == 0 {
                        proof {
                            lemma_first_where_found(self.types@, plain_named_pred(decl), i as int);
                        }
                        return Some(TypeId(i as u32));
                    }
                },
                _ => {},
            }
            i = i + 1;
        }
        proof {
            lemma_first_where_absent(self.types@, plain_named_pred(decl));
        }
        None
    }

    pub fn type_entry(&self, id: TypeId) -> (r: &TypeEntry)
        requires
            self.valid_type(id),
        ensures
            *r == self.types@[id.0 as int],
    {
        &self.types[id.0 as usize]
    }

    pub fn is_int(&self, ty: TypeId) -> (r: bool)
        ensures
            r == (ty == self.int_type),
    {
        ty == self.int_type
    }

    pub fn is_float(&self, ty: TypeId) -> (r: bool)
        ensures
            r == (ty == self.float_type),
    {
        ty == self.float_type
    }

    pub fn is_str(&self, ty: TypeId) -> (r: bool)
        ensures
            r == (ty == self.str_type),
    {
        ty == self.str_type
    }

    pub fn is_bool(&self, ty: TypeId) -> (r: bool)
        ensures
            r == (ty == self.bool_type),
    {
        ty == self.bool_type
    }

    pub fn is_numeric(&self, ty: TypeId) -> (r: bool)
        ensures
            r == (ty == self.int_type || ty == self.float_type),
    {
        self.is_int(ty) || self.is_float(ty)
    }

    pub fn is_nilable(&self, ty: TypeId) -> (r: bool)
        requires
            self.valid_type(ty),
        ensures
            r == (self.types@[ty.0 as int] is Nilable),
    {
        match &self.types[ty.0 as usize] {
            TypeEntry::Nilable(_) => true,
            _ => false,
        }
    }

    pub fn nilable_inner(&self, ty: TypeId) -> (r: Option<TypeId>)
        requires
            self.valid_type(ty),
        ensures
            r == (match self.types@[ty.0 as int] {
                TypeEntry::Nilable(inner) => Some(inner),
                _ => None,
            }),
    {
        match &self.types[ty.0 as usize] {
            TypeEntry::Nilable(inner) => Some(*inner),
            _ => None,
        }
    }

    pub fn is_any(&self, ty: TypeId) -> (r: bool)
        ensures
            r == (ty == self.any_type),
    {
        ty == self.any_type
    }

    pub fn is_anylocal(&self, ty: TypeId) -> (r: bool)
        ensures
            r == (ty == self.anylocal_type),
    {
        ty == self.anylocal_type
    }

    pub fn is_error(&self, ty: TypeId) -> (r: bool)
        ensures
            r == (ty == self.error_type),
    {
        ty == self.error_type
    }

    pub fn named_decl(&self, ty: TypeId) -> (r: Option<DeclId>)
        requires
            self.valid_type(ty),
        ensures
            r == (match self.types@[ty.0 as int] {
                TypeEntry::Named { decl, .. } => Some(decl),
                _ => None,
            }),
    {
        match &self.types[ty.0 as usize] {
            TypeEntry::Named { decl, .. } => Some(*decl),
            _ => None,
        }
    }

    /// `module_path::name`
    pub fn qualify_decl(&self, module: ModuleIndex, name: &[char]) -> (r: Vec<char>)
        requires
            (module.0 as int) < self.module_paths@.len(),
        ensures
            r@ == qualify(self.module_paths@[module.0 as int]@, name@),
    {
        make_qualified(self.module_paths[module.0 as usize].as_str(), name)
    }
}

/// The parts joined by `sep`.
pub open spec fn join_with(parts: Seq<Seq<char>>, sep: char) -> Seq<char>
    decreases parts.len(),
{
    if parts.len() == 0 {
        Seq::empty()
    } else if parts.len() == 1 {
        parts[0]
    } else {
        join_with(parts.drop_last(), sep).push(sep) + parts.last()
    }
}

pub open spec fn join_dotted(parts: Seq<Seq<char>>) -> Seq<char> {
    join_with(parts, '.')
}

/// The parts joined by `sep`.
pub fn join_chars(parts: &[Vec<char>], sep: char) -> (r: Vec<char>)
    ensures
        r@ == join_with(parts@.map_values(|s: Vec<char>| s@), sep),
{
    let ghost views = parts@.map_values(|s: Vec<char>| s@);
    let mut out: Vec<char> = Vec::new();
    let mut i: usize = 0;
    while i < parts.len()
        invariant
            i <= parts@.len(),
            views == parts@.map_values(|s: Vec<char>| s@),
            out@ == join_with(views.take(i as int), sep),
        decreases parts@.len() - i,
    {
        assert(views.take(i + 1).drop_last() =~= views.take(i as int));
        if i > 0 {
            out.push(sep);
        }
        push_chars(&mut out, parts[i].as_slice());
        proof {
            if i == 0 {
                assert(views.take(1)[0] == parts@[0]@);
                assert(out@ =~= views.take(1)[0]);
            } else {
                assert(views.take(i + 1).last() == parts@[i as int]@);
            }
        }
        i = i + 1;
    }
    assert(views.take(parts@.len() as int) =~= views);
    out
}

/// The cached serializability of `ty`, if recorded.
pub open spec fn cached_value(cache: Seq<(TypeId, bool)>, ty: TypeId) -> Option<bool>
    decreases cache.len(),
{
    if cache.len() == 0 {
        None
    } else if cache[0].0 == ty {
        Some(cache[0].1)
    } else {
        cached_value(cache.drop_first(), ty)
    }
}

pub open spec fn kind_never_serializable(k: super::types::TypeConstructKind) -> bool {
    k == super::types::TypeConstructKind::Func || k == super::types::TypeConstructKind::Extern
        || k == super::types::TypeConstructKind::Native || k == super::types::TypeConstructKind::Entity
}

/// Whether a type can cross extern boundaries: primitives, entity refs, `any`, `nil`, and data
/// or anonymous data whose fields are (transitively) serializable; cached answers are used as
/// recorded. `fuel` bounds the depth of the walk; an exhausted walk (only possible through a
/// cycle of declarations) counts as serializable.
pub open spec fn spec_serializable(r: &Registry, ty: TypeId, fuel: nat) -> bool
    decreases fuel, 0nat,
{
    if fuel == 0 {
        true
    } else {
        match cached_value(r.serializable_cache@, ty) {
            Some(b) => b,
            None => if ty.0 >= r.types@.len() {
                true
            } else {
                match r.types@[ty.0 as int] {
                    TypeEntry::AnyLocal => false,
                    TypeEntry::MemberFunc { .. } => false,
                    TypeEntry::Nilable(inner) => spec_serializable(r, inner, (fuel - 1) as nat),
                    TypeEntry::Anonymous(tc) => if tc.kind == super::types::TypeConstructKind::Func {
                        false
                    } else {
                        fields_serializable(r, tc.fields@, (fuel - 1) as nat)
                    },
                    TypeEntry::Named { decl, type_args } => if decl.0 >= r.decls@.len() || r.decls@[decl.0 as int].module.0 >= r.modules@.len() {
                        true
                    } else {
                        match r.modules@[r.decls@[decl.0 as int].module.0 as int].spec_declaration(r.decls@[decl.0 as int].name@) {
                            None => true,
                            Some(tc) => if kind_never_serializable(tc.kind) {
                                false
                            } else {
                                args_serializable(r, type_args@, (fuel - 1) as nat)
                                    && fields_serializable(r, tc.fields@, (fuel - 1) as nat)
                            },
                        }
                    },
                    _ => true,
                }
            },
        }
    }
}

pub open spec fn fields_serializable(r: &Registry, fields: Seq<super::types::TypeField>, fuel: nat) -> bool
    decreases fuel, fields.len(),
{
    if fields.len() == 0 {
        true
    } else {
        spec_serializable(r, fields[0].ty, fuel) && fields_serializable(r, fields.drop_first(), fuel)
    }
}

pub open spec fn args_serializable(r: &Registry, args: Seq<RegistryTypeArg>, fuel: nat) -> bool
    decreases fuel, args.len(),
{
    if args.len() == 0 {
        true
    } else {
        spec_serializable(r, args[0].value, fuel) && args_serializable(r, args.drop_first(), fuel)
    }
}

impl Registry {
    #[verifier::rlimit(50)]
    /// Record serializability for the plain named type of `decl` (if it was interned).
    pub fn cache_serializable(&mut self, decl: DeclId, serializable: bool)
        requires
            old(self).wf(),
        ensures
            final(self).wf(),
            final(self).types@ == old(self).types@,
            final(self).decls@ == old(self).decls@,
            final(self).modules@ == old(self).modules@,
            final(self).module_paths@ == old(self).module_paths@,
            final(self).extends(old(self)),
            match first_where(old(self).types@, plain_named_pred(decl)) {
                Some(t) => cached_value(final(self).serializable_cache@, TypeId(t as u32)) == Some(serializable)
                    && forall|x: TypeId| x != TypeId(t as u32) ==> cached_value(final(self).serializable_cache@, x)
                        == cached_value(old(self).serializable_cache@, x),
                None => final(self).serializable_cache@ == old(self).serializable_cache@,
            },
    {
        proof {
            reveal(Registry::wf);
        }
        let nt = self.named_type(decl);
        proof {
            lemma_first_where_some(self.types@, plain_named_pred(decl));
        }
        match nt {
            Some(t) => {
                let ghost old_cache = self.serializable_cache@;
                match cache_position(self.serializable_cache.as_slice(), t) {
                    Some(i) => {
                        self.serializable_cache.set(i, (t, serializable));
                        proof {
                            lemma_cache_update(old_cache, i as int, t, serializable);
                        }
                    },
                    None => {
                        self.serializable_cache.push((t, serializable));
                        proof {
                            lemma_cache_push(old_cache, t, serializable);
                        }
                    },
                }
                proof {
                    assert(self.types@.subrange(0, self.types@.len() as int) =~= self.types@);
                    assert(self.decls@.subrange(0, self.decls@.len() as int) =~= self.decls@);
                    assert(self.module_paths@.subrange(0, self.module_paths@.len() as int) =~= self.module_paths@);
                    assert forall|k: int|
                        0 <= k < self.serializable_cache@.len() implies (#[trigger] self.serializable_cache@[k]).0.0
                            < self.types@.len() by {
                        if k < old_cache.len() && self.serializable_cache@[k] == old_cache[k] {
                        }
                    }
                }
            },
            None => {
                proof {
                    assert(self.types@.subrange(0, self.types@.len() as int) =~= self.types@);
                    assert(self.decls@.subrange(0, self.decls@.len() as int) =~= self.decls@);
                    assert(self.module_paths@.subrange(0, self.module_paths@.len() as int) =~= self.module_paths@);
                }
            },
        }
    }

    /// Whether `ty` is serializable (see `spec_serializable`), walking at most `types.len() + 1` deep.
    pub fn is_type_serializable(&self, ty: TypeId) -> (r: bool)
        requires
            self.wf(),
        ensures
            r == spec_serializable(self, ty, (self.types@.len() + 1) as nat),
    {
        proof {
            lemma_wf_basics(self);
        }
        let fuel = (self.types.len() as u64) + 1;
        self.serializable_with_fuel(ty, fuel)
    }

    fn serializable_with_fuel(&self, ty: TypeId, fuel: u64) -> (r: bool)
        requires
            self.wf(),
        ensures
            r == spec_serializable(self, ty, fuel as nat),
        decreases fuel, 0nat,
    {
        if fuel == 0 {
            return true;
        }
        let mut i: usize = 0;
        assert(self.serializable_cache@.skip(0) =~= self.serializable_cache@);
        while i < self.serializable_cache.len()
            invariant
                fuel > 0,
                i <= self.serializable_cache@.len(),
                cached_value(self.serializable_cache@, ty) == cached_value(self.serializable_cache@.skip(i as int), ty),
            decreases self.serializable_cache@.len() - i,
        {
            assert(self.serializable_cache@.skip(i as int).drop_first() =~= self.serializable_cache@.skip(i + 1));
            assert(self.serializable_cache@.skip(i as int)[0] == self.serializable_cache@[i as int]);
            if self.serializable_cache[i].0 == ty {
                assert(cached_value(self.serializable_cache@, ty) == Some(self.serializable_cache@[i as int].1));
                return self.serializable_cache[i].1;
            }
            i = i + 1;
        }
        if ty.0 as usize >= self.types.len() {
            return true;
        }
        match &self.types[ty.0 as usize] {
            TypeEntry::AnyLocal => false,
            TypeEntry::MemberFunc { .. } => false,
            TypeEntry::Nilable(inner) => self.serializable_with_fuel(*inner, fuel - 1),
            TypeEntry::Anonymous(tc) => {
                if tc.kind == super::types::TypeConstructKind::Func {
                    false
                } else {
                    self.fields_serializable_exec(tc.fields.as_slice(), fuel - 1)
                }
            },
            TypeEntry::Named { decl, type_args } => {
                if decl.0 as usize >= self.decls.len() {
                    return true;
                }
                let entry = &self.decls[decl.0 as usize];
                if entry.module.0 as usize >= self.modules.len() {
                    return true;
                }
                let module = &self.modules[entry.module.0 as usize];
                match module.get_declaration(entry.name.as_str()) {
                    None => true,
                    Some(tc) => {
                        match tc.kind {
                            super::types::TypeConstructKind::Func
                            | super::types::TypeConstructKind::Extern
                            | super::types::TypeConstructKind::Native
                            | super::types::TypeConstructKind::Entity => false,
                            _ => {
                                self.args_serializable_exec(type_args.as_slice(), fuel - 1)
                                    && self.fields_serializable_exec(tc.fields.as_slice(), fuel - 1)
                            },
                        }
                    },
                }
            },
            _ => true,
        }
    }

    fn fields_serializable_exec(&self, fields: &[super::types::TypeField], fuel: u64) -> (r: bool)
        requires
            self.wf(),
        ensures
            r == fields_serializable(self, fields@, fuel as nat),
        decreases fuel, fields@.len(),
    {
        let mut i: usize = 0;
        assert(fields@.skip(0) =~= fields@);
        while i < fields.len()
            invariant
                self.wf(),
                i <= fields@.len(),
                fields_serializable(self, fields@, fuel as nat) == fields_serializable(self, fields@.skip(i as int), fuel as nat),
            decreases fields@.len() - i,
        {
            assert(fields@.skip(i as int).drop_first() =~= fields@.skip(i + 1));
            if !self.serializable_with_fuel(fields[i].ty, fuel) {
                return false;
            }
            i = i + 1;
        }
        true
    }

    fn args_serializable_exec(&self, args: &[RegistryTypeArg], fuel: u64) -> (r: bool)
        requires
            self.wf(),
        ensures
            r == args_serializable(self, args@, fuel as nat),
        decreases fuel, args@.len(),
    {
        let mut i: usize = 0;
        assert(args@.skip(0) =~= args@);
        while i < args.len()
            invariant
                self.wf(),
                i <= args@.len(),
                args_serializable(self, args@, fuel as nat) == args_serializable(self, args@.skip(i as int), fuel as nat),
            decreases args@.len() - i,
        {
            assert(args@.skip(i as int).drop_first() =~= args@.skip(i + 1));
            if !self.serializable_with_fuel(args[i].value, fuel) {
                return false;
            }
            i = i + 1;
        }
        true
    }
}

/// Position of the first cache entry for `t`.
fn cache_position(c: &[(TypeId, bool)], t: TypeId) -> (r: Option<usize>)
    ensures
        match r {
            Some(i) => i < c@.len() && c@[i as int].0 == t && forall|j: int| 0 <= j < i ==> c@[j].0 != t,
            None => forall|j: int| 0 <= j < c@.len() ==> c@[j].0 != t,
        },
{
    let mut i: usize = 0;
    while i < c.len()
        invariant
            i <= c@.len(),
            forall|j: int| 0 <= j < i ==> c@[j].0 != t,
        decreases c@.len() - i,
    {
        if c[i].0 == t {
            return Some(i);
        }
        i = i + 1;
    }
    None
}

proof fn lemma_cached_value_at(c: Seq<(TypeId, bool)>, i: int, t: TypeId)
    requires
        0 <= i < c.len(),
        c[i].0 == t,
        forall|j: int| 0 <= j < i ==> c[j].0 != t,
    ensures
        cached_value(c, t) == Some(c[i].1),
    decreases i,
{
    if i > 0 {
        lemma_cached_value_at(c.drop_first(), i - 1, t);
    }
}

proof fn lemma_cache_update(c: Seq<(TypeId, bool)>, i: int, t: TypeId, b: bool)
    requires
        0 <= i < c.len(),
        c[i].0 == t,
        forall|j: int| 0 <= j < i ==> c[j].0 != t,
    ensures
        cached_value(c.update(i, (t, b)), t) == Some(b),
        forall|x: TypeId| x != t ==> cached_value(c.update(i, (t, b)), x) == cached_value(c, x),
    decreases i,
{
    let n = c.update(i, (t, b));
    lemma_cached_value_at(n, i, t);
    assert forall|x: TypeId| x != t implies cached_value(n, x) == cached_value(c, x) by {
        lemma_cache_other(c, i, t, b, x);
    }
}

proof fn lemma_cache_other(c: Seq<(TypeId, bool)>, i: int, t: TypeId, b: bool, x: TypeId)
    requires
        0 <= i < c.len(),
        c[i].0 == t,
        x != t,
    ensures
        cached_value(c.update(i, (t, b)), x) == cached_value(c, x),
    decreases c.len(),
{
    let n = c.update(i, (t, b));
    if i == 0 {
        assert(n.drop_first() =~= c.drop_first());
    } else if c[0].0 != x {
        assert(n.drop_first() =~= c.drop_first().update(i - 1, (t, b)));
        lemma_cache_other(c.drop_first(), i - 1, t, b, x);
    }
}

proof fn lemma_cache_push(c: Seq<(TypeId, bool)>, t: TypeId, b: bool)
    requires
        forall|j: int| 0 <= j < c.len() ==> c[j].0 != t,
    ensures
        cached_value(c.push((t, b)), t) == Some(b),
        forall|x: TypeId| x != t ==> cached_value(c.push((t, b)), x) == cached_value(c, x),
    decreases c.len(),
{
    if c.len() > 0 {
        lemma_cache_push(c.drop_first(), t, b);
        assert(c.push((t, b)).drop_first() =~= c.drop_first().push((t, b)));
        assert(c.push((t, b))[0] == c[0]);
        assert forall|x: TypeId| x != t implies cached_value(c.push((t, b)), x) == cached_value(c, x) by {
            if c[0].0 != x {
                assert(cached_value(c.drop_first().push((t, b)), x) == cached_value(c.drop_first(), x));
            }
        }
    } else {
        assert(c.push((t, b)).drop_first().len() == 0);
        assert forall|x: TypeId| x != t implies cached_value(c.push((t, b)), x) == cached_value(c, x) by {
            assert(cached_value(c.push((t, b)), x) == cached_value(c.push((t, b)).drop_first(), x));
        }
    }
}

pub open spec fn decl_name_of(r: &Registry, d: DeclId) -> Seq<char> {
    if d.0 < r.decls@.len() { r.decls@[d.0 as int].name@ } else { Seq::empty() }
}

/// How a type is shown in messages: `int`, `int?`, `&foo`, `array[t = int]`, `foo.bar`, ...
pub open spec fn spec_display(r: &Registry, ty: TypeId) -> Seq<char>
    decreases ty.0, 2nat, 0nat,
{
    if ty.0 >= r.types@.len() {
        Seq::empty()
    } else {
        match r.types@[ty.0 as int] {
            TypeEntry::Any => "any"@,
            TypeEntry::AnyLocal => "anylocal"@,
            TypeEntry::Error => "<error>"@,
            TypeEntry::Named { decl, type_args } => decl_name_of(r, decl) + display_args(r, type_args@, ty.0),
            TypeEntry::MemberFunc { decl, member, type_args } => decl_name_of(r, decl) + "."@ + member@
                + display_args(r, type_args@, ty.0),
            TypeEntry::Nilable(inner) => if inner.0 < ty.0 {
                spec_display(r, inner) + "?"@
            } else {
                Seq::empty()
            },
            TypeEntry::EntityRef(inner) => if inner.0 < ty.0 {
                "&"@ + spec_display(r, inner)
            } else {
                Seq::empty()
            },
            TypeEntry::Anonymous(_) => "{...}"@,
            TypeEntry::TypeParam(name) => name@,
        }
    }
}

/// `[a = x, b = y]`, or nothing when there are no arguments.
pub open spec fn display_args(r: &Registry, args: Seq<RegistryTypeArg>, bound: u32) -> Seq<char>
    decreases bound, 1nat, 0nat,
{
    if args.len() == 0 {
        Seq::empty()
    } else {
        "["@ + display_arg_list(r, args, bound) + "]"@
    }
}

pub open spec fn display_arg(r: &Registry, a: RegistryTypeArg, bound: u32) -> Seq<char>
    decreases bound, 0nat, 0nat,
{
    a.name@ + " = "@ + if a.value.0 < bound { spec_display(r, a.value) } else { Seq::empty() }
}

pub open spec fn display_arg_list(r: &Registry, args: Seq<RegistryTypeArg>, bound: u32) -> Seq<char>
    decreases bound, 0nat, args.len(),
{
    if args.len() == 0 {
        Seq::empty()
    } else if args.len() == 1 {
        display_arg(r, args[0], bound)
    } else {
        display_arg_list(r, args.drop_last(), bound) + ", "@ + display_arg(r, args.last(), bound)
    }
}

impl Registry {
    /// Show a type for messages.
    pub fn display_type(&self, ty: TypeId) -> (r: Vec<char>)
        requires
            self.wf(),
        ensures
            r@ == spec_display(self, ty),
        decreases ty.0, 1nat,
    {
        if ty.0 as usize >= self.types.len() {
            return Vec::new();
        }
        proof {
            lemma_wf_entry(self, ty.0 as int);
            lemma_wf_basics(self);
        }
        match &self.types[ty.0 as usize] {
            TypeEntry::Any => str_chars("any"),
            TypeEntry::AnyLocal => str_chars("anylocal"),
            TypeEntry::Error => str_chars("<error>"),
            TypeEntry::Named { decl, type_args } => {
                let mut s = copy_sym(&self.decls[decl.0 as usize].name);
                let a = self.display_args_exec(type_args.as_slice(), ty.0);
                push_chars(&mut s, a.as_slice());
                s
            },
            TypeEntry::MemberFunc { decl, member, type_args } => {
                let mut s = copy_sym(&self.decls[decl.0 as usize].name);
                push_str(&mut s, ".");
                push_chars(&mut s, member.as_str());
                let a = self.display_args_exec(type_args.as_slice(), ty.0);
                push_chars(&mut s, a.as_slice());
                s
            },
            TypeEntry::Nilable(inner) => {
                let mut s = self.display_type(*inner);
                push_str(&mut s, "?");
                s
            },
            TypeEntry::EntityRef(inner) => {
                let mut s = str_chars("&");
                let d = self.display_type(*inner);
                push_chars(&mut s, d.as_slice());
                s
            },
            TypeEntry::Anonymous(_) => str_chars("{...}"),
            TypeEntry::TypeParam(name) => copy_sym(name),
        }
    }

    fn display_args_exec(&self, args: &[RegistryTypeArg], bound: u32) -> (r: Vec<char>)
        requires
            self.wf(),
            args_below(args@, bound as int),
        ensures
            r@ == display_args(self, args@, bound),
        decreases bound, 0nat,
    {
        if args.len() == 0 {
            return Vec::new();
        }
        let mut s = str_chars("[");
        let mut i: usize = 0;
        let ghost prefix = s@;
        while i < args.len()
            invariant
                self.wf(),
                args_below(args@, bound as int),
                i <= args@.len(),
                prefix == "["@,
                s@ == prefix + display_arg_list(self, args@.take(i as int), bound),
            decreases args@.len() - i,
        {
            proof {
                assert(args@.take(i + 1).drop_last() =~= args@.take(i as int));
                assert(args@.take(i + 1).last() == args@[i as int]);
            }
            if i > 0 {
                push_str(&mut s, ", ");
            }
            push_chars(&mut s, args[i].name.as_str());
            push_str(&mut s, " = ");
            assert(args@[i as int].value.0 < bound);
            let d = self.display_type(args[i].value);
            push_chars(&mut s, d.as_slice());
            proof {
                assert(display_arg(self, args@[i as int], bound) == args@[i as int].name@ + " = "@ + d@);
                if i == 0 {
                    assert(s@ =~= prefix + display_arg_list(self, args@.take(1), bound));
                } else {
                    assert(s@ =~= prefix + display_arg_list(self, args@.take(i + 1), bound));
                }
            }
            i = i + 1;
        }
        push_str(&mut s, "]");
        assert(args@.take(args@.len() as int) =~= args@);
        s
    }
}

/// The qualified name of declaration `d`, or nothing where there is none.
pub open spec fn decl_qualified_of(r: &Registry, d: DeclId) -> Seq<char> {
    if d.0 < r.decls@.len() { r.decls@[d.0 as int].qualified@ } else { Seq::empty() }
}

/// The module path of declaration `d`, or nothing where there is none.
pub open spec fn decl_module_path_of(r: &Registry, d: DeclId) -> Seq<char> {
    if d.0 < r.decls@.len() && r.decls@[d.0 as int].module.0 < r.module_paths@.len() {
        r.module_paths@[r.decls@[d.0 as int].module.0 as int]@
    } else {
        Seq::empty()
    }
}

/// How an anonymous construct names its kind.
pub open spec fn anon_kind_word(tc: TypeConstruct) -> Seq<char> {
    match tc.kind {
        super::types::TypeConstructKind::Data => "data"@,
        super::types::TypeConstructKind::Entity => "entity"@,
        super::types::TypeConstructKind::Func => if tc.func_modifiers.view {
            "view func"@
        } else if tc.func_modifiers.noblock {
            "noblock func"@
        } else {
            "func"@
        },
        _ => "unknown"@,
    }
}

/// How a type is shown with its declarations qualified: `duralade.int::int`,
/// `mod::foo.bar`, `[t]` for a type parameter, and anonymous constructs
/// spelled out (`func { in x: duralade.int::int }`).
pub open spec fn spec_display_qualified(r: &Registry, ty: TypeId) -> Seq<char>
    decreases ty.0, 2nat, 0nat,
{
    if ty.0 >= r.types@.len() {
        Seq::empty()
    } else {
        match r.types@[ty.0 as int] {
            TypeEntry::Any => "any"@,
            TypeEntry::AnyLocal => "anylocal"@,
            TypeEntry::Error => "<error>"@,
            TypeEntry::Named { decl, type_args } => decl_qualified_of(r, decl) + qdisplay_args(r, type_args@, ty.0),
            TypeEntry::MemberFunc { decl, member, type_args } => decl_module_path_of(r, decl) + "::"@
                + decl_name_of(r, decl) + "."@ + member@ + qdisplay_args(r, type_args@, ty.0),
            TypeEntry::Nilable(inner) => if inner.0 < ty.0 {
                spec_display_qualified(r, inner) + "?"@
            } else {
                Seq::empty()
            },
            TypeEntry::EntityRef(inner) => if inner.0 < ty.0 {
                "&"@ + spec_display_qualified(r, inner)
            } else {
                Seq::empty()
            },
            TypeEntry::Anonymous(tc) => anon_kind_word(*tc) + " { "@ + qdisplay_field_list(r, tc.fields@, ty.0) + " }"@,
            TypeEntry::TypeParam(name) => "["@ + name@ + "]"@,
        }
    }
}

pub open spec fn qdisplay_args(r: &Registry, args: Seq<RegistryTypeArg>, bound: u32) -> Seq<char>
    decreases bound, 1nat, 0nat,
{
    if args.len() == 0 {
        Seq::empty()
    } else {
        "["@ + qdisplay_arg_list(r, args, bound) + "]"@
    }
}

pub open spec fn qdisplay_arg(r: &Registry, a: RegistryTypeArg, bound: u32) -> Seq<char>
    decreases bound, 0nat, 0nat,
{
    a.name@ + " = "@ + if a.value.0 < bound { spec_display_qualified(r, a.value) } else { Seq::empty() }
}

pub open spec fn qdisplay_arg_list(r: &Registry, args: Seq<RegistryTypeArg>, bound: u32) -> Seq<char>
    decreases bound, 0nat, args.len(),
{
    if args.len() == 0 {
        Seq::empty()
    } else if args.len() == 1 {
        qdisplay_arg(r, args[0], bound)
    } else {
        qdisplay_arg_list(r, args.drop_last(), bound) + ", "@ + qdisplay_arg(r, args.last(), bound)
    }
}

pub open spec fn qdisplay_field(r: &Registry, f: super::types::TypeField, bound: u32) -> Seq<char>
    decreases bound, 0nat, 0nat,
{
    (match f.modifier {
        Some(m) => super::types::field_modifier_text(m) + " "@,
        None => Seq::empty(),
    }) + f.name@ + ": "@ + if f.ty.0 < bound { spec_display_qualified(r, f.ty) } else { Seq::empty() }
}

pub open spec fn qdisplay_field_list(r: &Registry, fs: Seq<super::types::TypeField>, bound: u32) -> Seq<char>
    decreases bound, 0nat, fs.len(),
{
    if fs.len() == 0 {
        Seq::empty()
    } else if fs.len() == 1 {
        qdisplay_field(r, fs[0], bound)
    } else {
        qdisplay_field_list(r, fs.drop_last(), bound) + ", "@ + qdisplay_field(r, fs.last(), bound)
    }
}

impl Registry {
    /// Show a type with its declarations qualified by module (see `spec_display_qualified`).
    pub fn display_type_qualified(&self, ty: TypeId) -> (r: Vec<char>)
        requires
            self.wf(),
        ensures
            r@ == spec_display_qualified(self, ty),
        decreases ty.0, 1nat,
    {
        if ty.0 as usize >= self.types.len() {
            return Vec::new();
        }
        proof {
            lemma_wf_entry(self, ty.0 as int);
            lemma_wf_basics(self);
        }
        match &self.types[ty.0 as usize] {
            TypeEntry::Any => str_chars("any"),
            TypeEntry::AnyLocal => str_chars("anylocal"),
            TypeEntry::Error => str_chars("<error>"),
            TypeEntry::Named { decl, type_args } => {
                let mut s = copy_sym(&self.decls[decl.0 as usize].qualified);
                let a = self.qdisplay_args_exec(type_args.as_slice(), ty.0);
                push_chars(&mut s, a.as_slice());
                s
            },
            TypeEntry::MemberFunc { decl, member, type_args } => {
                let entry = &self.decls[decl.0 as usize];
                let mut s = copy_sym(&self.module_paths[entry.module.0 as usize]);
                push_str(&mut s, "::");
                push_chars(&mut s, entry.name.as_str());
                push_str(&mut s, ".");
                push_chars(&mut s, member.as_str());
                let a = self.qdisplay_args_exec(type_args.as_slice(), ty.0);
                push_chars(&mut s, a.as_slice());
                s
            },
            TypeEntry::Nilable(inner) => {
                let mut s = self.display_type_qualified(*inner);
                push_str(&mut s, "?");
                s
            },
            TypeEntry::EntityRef(inner) => {
                let mut s = str_chars("&");
                let d = self.display_type_qualified(*inner);
                push_chars(&mut s, d.as_slice());
                s
            },
            TypeEntry::Anonymous(tc) => {
                let mut s = match tc.kind {
                    super::types::TypeConstructKind::Data => str_chars("data"),
                    super::types::TypeConstructKind::Entity => str_chars("entity"),
                    super::types::TypeConstructKind::Func => if tc.func_modifiers.view {
                        str_chars("view func")
                    } else if tc.func_modifiers.noblock {
                        str_chars("noblock func")
                    } else {
                        str_chars("func")
                    },
                    _ => str_chars("unknown"),
                };
                push_str(&mut s, " { ");
                let f = self.qdisplay_fields_exec(tc.fields.as_slice(), ty.0);
                push_chars(&mut s, f.as_slice());
                push_str(&mut s, " }");
                s
            },
            TypeEntry::TypeParam(name) => {
                let mut s = str_chars("[");
                push_chars(&mut s, name.as_str());
                push_str(&mut s, "]");
                s
            },
        }
    }

    fn qdisplay_args_exec(&self, args: &[RegistryTypeArg], bound: u32) -> (r: Vec<char>)
        requires
            self.wf(),
            args_below(args@, bound as int),
        ensures
            r@ == qdisplay_args(self, args@, bound),
        decreases bound, 0nat,
    {
        if args.len() == 0 {
            return Vec::new();
        }
        let mut s = str_chars("[");
        let mut i: usize = 0;
        let ghost prefix = s@;
        while i < args.len()
            invariant
                self.wf(),
                args_below(args@, bound as int),
                i <= args@.len(),
                prefix == "["@,
                s@ == prefix + qdisplay_arg_list(self, args@.take(i as int), bound),
            decreases args@.len() - i,
        {
            proof {
                assert(args@.take(i + 1).drop_last() =~= args@.take(i as int));
                assert(args@.take(i + 1).last() == args@[i as int]);
            }
            if i > 0 {
                push_str(&mut s, ", ");
            }
            push_chars(&mut s, args[i].name.as_str());
            push_str(&mut s, " = ");
            assert(args@[i as int].value.0 < bound);
            let d = self.display_type_qualified(args[i].value);
            push_chars(&mut s, d.as_slice());
            proof {
                assert(qdisplay_arg(self, args@[i as int], bound) == args@[i as int].name@ + " = "@ + d@);
                if i == 0 {
                    assert(s@ =~= prefix + qdisplay_arg_list(self, args@.take(1), bound));
                } else {
                    assert(s@ =~= prefix + qdisplay_arg_list(self, args@.take(i + 1), bound));
                }
            }
            i = i + 1;
        }
        push_str(&mut s, "]");
        assert(args@.take(args@.len() as int) =~= args@);
        s
    }

    fn qdisplay_fields_exec(&self, fs: &[super::types::TypeField], bound: u32) -> (r: Vec<char>)
        requires
            self.wf(),
            forall|k: int| 0 <= k < fs@.len() ==> (#[trigger] fs@[k]).ty.0 < bound,
        ensures
            r@ == qdisplay_field_list(self, fs@, bound),
        decreases bound, 0nat,
    {
        let mut s: Vec<char> = Vec::new();
        let mut i: usize = 0;
        while i < fs.len()
            invariant
                self.wf(),
                forall|k: int| 0 <= k < fs@.len() ==> (#[trigger] fs@[k]).ty.0 < bound,
                i <= fs@.len(),
                s@ == qdisplay_field_list(self, fs@.take(i as int), bound),
            decreases fs@.len() - i,
        {
            proof {
                assert(fs@.take(i + 1).drop_last() =~= fs@.take(i as int));
                assert(fs@.take(i + 1).last() == fs@[i as int]);
            }
            let ghost before = s@;
            if i > 0 {
                push_str(&mut s, ", ");
            }
            let ghost mid = s@;
            match fs[i].modifier {
                Some(m) => {
                    let t = m.as_str();
                    push_str(&mut s, t);
                    push_str(&mut s, " ");
                },
                None => {},
            }
            push_chars(&mut s, fs[i].name.as_str());
            push_str(&mut s, ": ");
            assert(fs@[i as int].ty.0 < bound);
            let d = self.display_type_qualified(fs[i].ty);
            push_chars(&mut s, d.as_slice());
            proof {
                assert(s@ =~= mid + qdisplay_field(self, fs@[i as int], bound));
                if i == 0 {
                    assert(s@ =~= qdisplay_field_list(self, fs@.take(1), bound));
                } else {
                    assert(s@ =~= qdisplay_field_list(self, fs@.take(i + 1), bound));
                }
            }
            i = i + 1;
        }
        assert(fs@.take(fs@.len() as int) =~= fs@);
        s
    }
}

/// A copy of a symbol's characters.
pub fn copy_sym(s: &Symbol) -> (r: Vec<char>)
    ensures
        r@ == s@,
{
    crate::model::symbol::copy_chars(s.as_str())
}

/// The value given for type parameter `name`: the first pair with that name.
pub open spec fn param_value(args: Seq<(Symbol, TypeId)>, name: Seq<char>) -> Option<TypeId>
    decreases args.len(),
{
    if args.len() == 0 {
        None
    } else if args[0].0@ == name {
        Some(args[0].1)
    } else {
        param_value(args.drop_first(), name)
    }
}

/// `b` is `a` with the type parameters in `args` replaced: a parameter becomes its value (or
/// stays when `args` has none), a nilable or a named type with arguments is rebuilt from its
/// substituted parts, and every other type stays as it is.
pub open spec fn is_subst(r: &Registry, a: TypeId, args: Seq<(Symbol, TypeId)>, b: TypeId) -> bool
    decreases a.0, 1nat, 0nat,
{
    &&& a.0 < r.types@.len()
    &&& b.0 < r.types@.len()
    &&& match r.types@[a.0 as int] {
        TypeEntry::TypeParam(n) => b == match param_value(args, n@) {
            Some(t) => t,
            None => a,
        },
        TypeEntry::Nilable(i) => i.0 < a.0 && match r.types@[b.0 as int] {
            TypeEntry::Nilable(j) => is_subst(r, i, args, j),
            _ => false,
        },
        TypeEntry::Named { decl, type_args } => if type_args@.len() == 0 {
            b == a
        } else {
            match r.types@[b.0 as int] {
                TypeEntry::Named { decl: d2, type_args: tb } => d2 == decl && args_subst(r, type_args@, tb@, args, a.0),
                _ => false,
            }
        },
        _ => b == a,
    }
}

pub open spec fn args_subst(r: &Registry, ta: Seq<RegistryTypeArg>, tb: Seq<RegistryTypeArg>, args: Seq<(Symbol, TypeId)>, bound: u32) -> bool
    decreases bound, 0nat, ta.len(),
{
    &&& ta.len() == tb.len()
    &&& ta.len() > 0 ==> {
        &&& ta[0].name@ == tb[0].name@
        &&& ta[0].value.0 < bound
        &&& is_subst(r, ta[0].value, args, tb[0].value)
        &&& args_subst(r, ta.drop_first(), tb.drop_first(), args, bound)
    }
}

/// The type table is full: no further type can be interned.
pub open spec fn table_full(r: &Registry) -> bool {
    r.types@.len() + 1 >= u32::MAX
}

pub proof fn lemma_is_subst_extend(r1: &Registry, r2: &Registry, a: TypeId, args: Seq<(Symbol, TypeId)>, b: TypeId)
    requires
        is_subst(r1, a, args, b),
        r2.types@.len() >= r1.types@.len(),
        r2.types@.subrange(0, r1.types@.len() as int) == r1.types@,
    ensures
        is_subst(r2, a, args, b),
    decreases a.0, 1nat, 0nat,
{
    assert(r2.types@[a.0 as int] == r2.types@.subrange(0, r1.types@.len() as int)[a.0 as int]);
    assert(r2.types@[b.0 as int] == r2.types@.subrange(0, r1.types@.len() as int)[b.0 as int]);
    match r1.types@[a.0 as int] {
        TypeEntry::Nilable(i) => {
            match r1.types@[b.0 as int] {
                TypeEntry::Nilable(j) => lemma_is_subst_extend(r1, r2, i, args, j),
                _ => {},
            }
        },
        TypeEntry::Named { decl, type_args } => {
            if type_args@.len() > 0 {
                match r1.types@[b.0 as int] {
                    TypeEntry::Named { decl: d2, type_args: tb } => {
                        lemma_args_subst_extend(r1, r2, type_args@, tb@, args, a.0);
                    },
                    _ => {},
                }
            }
        },
        _ => {},
    }
}

pub proof fn lemma_args_subst_extend(r1: &Registry, r2: &Registry, ta: Seq<RegistryTypeArg>, tb: Seq<RegistryTypeArg>, args: Seq<(Symbol, TypeId)>, bound: u32)
    requires
        args_subst(r1, ta, tb, args, bound),
        r2.types@.len() >= r1.types@.len(),
        r2.types@.subrange(0, r1.types@.len() as int) == r1.types@,
    ensures
        args_subst(r2, ta, tb, args, bound),
    decreases bound, 0nat, ta.len(),
{
    if ta.len() > 0 {
        lemma_is_subst_extend(r1, r2, ta[0].value, args, tb[0].value);
        lemma_args_subst_extend(r1, r2, ta.drop_first(), tb.drop_first(), args, bound);
    }
}

pub open spec fn pairs_valid(args: Seq<(Symbol, TypeId)>, bound: int) -> bool {
    forall|k: int| 0 <= k < args.len() ==> (#[trigger] args[k]).1.0 < bound
}

impl Registry {
    /// Replace the type parameters named in `type_args` inside `ty` (see `is_subst`).
    /// New nilable and named types are interned as needed; when the type table is full the
    /// walk stops and the type is returned as it was.
    pub fn substitute_type_params(&mut self, ty: TypeId, type_args: &[(Symbol, TypeId)]) -> (r: TypeId)
        requires
            old(self).wf(),
            old(self).valid_type(ty),
            pairs_valid(type_args@, old(self).types@.len() as int),
        ensures
            final(self).wf(),
            final(self).extends(old(self)),
            final(self).same_except_types(old(self)),
            final(self).valid_type(r),
            is_subst(final(self), ty, type_args@, r) || table_full(final(self)),
        decreases ty.0,
    {
        proof {
            lemma_wf_entry(self, ty.0 as int);
            lemma_wf_basics(self);
            assert(self.types@.subrange(0, self.types@.len() as int) =~= self.types@);
            assert(self.decls@.subrange(0, self.decls@.len() as int) =~= self.decls@);
            assert(self.module_paths@.subrange(0, self.module_paths@.len() as int) =~= self.module_paths@);
        }
        match &self.types[ty.0 as usize] {
            TypeEntry::TypeParam(name) => {
                proof {
                    lemma_param_value_valid(type_args@, name@, self.types@.len() as int);
                }
                match lookup_param(type_args, name) {
                    Some(t) => t,
                    None => ty,
                }
            },
            TypeEntry::Nilable(inner) => {
                let inner = *inner;
                let ghost before = *self;
                let substituted = self.substitute_type_params(inner, type_args);
                if substituted == inner {
                    proof {
                        assert(self.types@[ty.0 as int] == self.types@.subrange(0, before.types@.len() as int)[ty.0 as int]);
                    }
                    ty
                } else {
                    if self.types.len() >= 4294967294 {
                        proof {
                            assert(self.types@[ty.0 as int] == self.types@.subrange(0, before.types@.len() as int)[ty.0 as int]);
                        }
                        return ty;
                    }
                    let ghost mid = *self;
                    let r = self.intern_nilable(substituted);
                    proof {
                        lemma_extends_trans(old(self), &mid, self);
                        lemma_intern_extends(mid.types@, nilable_pred(substituted), r.0 as int, self.types@);
                        if !table_full(&mid) {
                            lemma_is_subst_extend(&mid, self, inner, type_args@, substituted);
                        }
                        assert(self.types@[ty.0 as int] == self.types@.subrange(0, mid.types@.len() as int)[ty.0 as int]);
                        assert(mid.types@[ty.0 as int] == mid.types@.subrange(0, before.types@.len() as int)[ty.0 as int]);
                        assert(self.types@.subrange(0, old(self).types@.len() as int) =~= old(self).types@);
                    }
                    r
                }
            },
            TypeEntry::Named { decl, type_args: named_args } => {
                if named_args.len() == 0 {
                    return ty;
                }
                let decl = *decl;
                let n = named_args.len();
                let mut pairs: Vec<(Symbol, TypeId)> = Vec::new();
                let mut k: usize = 0;
                while k < n
                    invariant
                        k <= n,
                        n == named_args@.len(),
                        pairs@.len() == k,
                        forall|j: int| 0 <= j < k ==> (#[trigger] pairs@[j]).0@ == named_args@[j].name@ && pairs@[j].1 == named_args@[j].value,
                    decreases n - k,
                {
                    pairs.push((named_args[k].name.dup(), named_args[k].value));
                    k = k + 1;
                }
                let ghost orig = named_args@;
                self.substitute_args(ty, decl, pairs, type_args)
            },
            _ => ty,
        }
    }

    #[verifier::rlimit(100)]
    /// Substitute inside the arguments of named type `ty` (whose arguments are `pairs`).
    fn substitute_args(&mut self, ty: TypeId, decl: DeclId, pairs: Vec<(Symbol, TypeId)>, type_args: &[(Symbol, TypeId)]) -> (r: TypeId)
        requires
            old(self).wf(),
            old(self).valid_type(ty),
            pairs_valid(type_args@, old(self).types@.len() as int),
            match old(self).types@[ty.0 as int] {
                TypeEntry::Named { decl: d, type_args: ta } => d == decl && ta@.len() > 0 && ta@.len() == pairs@.len()
                    && forall|j: int| 0 <= j < pairs@.len() ==> (#[trigger] pairs@[j]).0@ == ta@[j].name@ && pairs@[j].1 == ta@[j].value,
                _ => false,
            },
        ensures
            final(self).wf(),
            final(self).extends(old(self)),
            final(self).same_except_types(old(self)),
            final(self).valid_type(r),
            is_subst(final(self), ty, type_args@, r) || table_full(final(self)),
        decreases ty.0, 0nat,
    {
        let ghost start = *self;
        let ghost ta = match start.types@[ty.0 as int] {
            TypeEntry::Named { type_args: ta, .. } => ta@,
            _ => Seq::empty(),
        };
        proof {
            lemma_wf_entry(self, ty.0 as int);
            lemma_wf_basics(self);
        }
        proof {
            assert(self.types@.subrange(0, start.types@.len() as int) =~= start.types@);
            assert(self.decls@.subrange(0, start.decls@.len() as int) =~= start.decls@);
            assert(self.module_paths@.subrange(0, start.module_paths@.len() as int) =~= start.module_paths@);
        }
        let mut changed = false;
        let mut new_args: Vec<RegistryTypeArg> = Vec::new();
        let mut i: usize = 0;
        while i < pairs.len()
            invariant
                self.wf(),
                self.extends(&start),
                self.same_except_types(&start),
                start.wf(),
                start.valid_type(ty),
                start.types@[ty.0 as int] is Named,
                ta.len() == pairs@.len(),
                ta.len() > 0,
                args_below(ta, ty.0 as int),
                forall|j: int| 0 <= j < pairs@.len() ==> (#[trigger] pairs@[j]).0@ == ta[j].name@ && pairs@[j].1 == ta[j].value,
                pairs_valid(type_args@, start.types@.len() as int),
                i <= pairs@.len(),
                new_args@.len() == i,
                args_below(new_args@, self.types@.len() as int),
                table_full(self) || (forall|j: int| 0 <= j < i ==> (#[trigger] new_args@[j]).name@ == ta[j].name@ && is_subst(self, ta[j].value, type_args@, new_args@[j].value)),
                !changed ==> forall|j: int| 0 <= j < i ==> (#[trigger] new_args@[j]).value == ta[j].value,
            decreases pairs@.len() - i,
        {
            let arg_ty = pairs[i].1;
            let ghost before = *self;
            assert(arg_ty.0 < ty.0);
            let sub = self.substitute_type_params(arg_ty, type_args);
            proof {
                lemma_extends_trans(&start, &before, self);
                assert forall|j: int| 0 <= j < new_args@.len() implies (#[trigger] new_args@[j]).value.0 < self.types@.len() by {}
                if !table_full(self) {
                    assert(!table_full(&before));
                    assert forall|j: int| 0 <= j < i implies (#[trigger] new_args@[j]).name@ == ta[j].name@ && is_subst(self, ta[j].value, type_args@, new_args@[j].value) by {
                        lemma_is_subst_extend(&before, self, ta[j].value, type_args@, new_args@[j].value);
                    }
                }
            }
            if sub != arg_ty {
                changed = true;
            }
            new_args.push(RegistryTypeArg { name: pairs[i].0.dup(), value: sub });
            i = i + 1;
        }
        proof {
            assert(self.types@[ty.0 as int] == self.types@.subrange(0, start.types@.len() as int)[ty.0 as int]);
        }
        if !changed {
            proof {
                if !table_full(self) {
                    assert(new_args@.len() == ta.len());
                    assert forall|j: int| 0 <= j < ta.len() implies (#[trigger] ta[j]).name@ == ta[j].name@ && is_subst(self, ta[j].value, type_args@, ta[j].value) by {
                        assert(new_args@[j].value == ta[j].value);
                    }
                    lemma_args_subst_from_pointwise(self, ta, ta, type_args@, ty.0, new_args@);
                }
            }
            return ty;
        }
        if self.types.len() >= 4294967294 {
            return ty;
        }
        let ghost mid = *self;
        let ghost nav = new_args@;
        let r = self.intern_named_with_args(decl, new_args);
        proof {
            lemma_extends_trans(old(self), &mid, self);
            assert(self.types@[ty.0 as int] == self.types@.subrange(0, mid.types@.len() as int)[ty.0 as int]);
            assert forall|j: int| 0 <= j < nav.len() implies (#[trigger] nav[j]).name@ == ta[j].name@ && is_subst(self, ta[j].value, type_args@, nav[j].value) by {
                lemma_is_subst_extend(&mid, self, ta[j].value, type_args@, nav[j].value);
            }
            lemma_args_subst_from_pointwise(self, ta, nav, type_args@, ty.0, nav);
            assert(self.types@.subrange(0, old(self).types@.len() as int) =~= old(self).types@);
            assert(self.decls@.subrange(0, old(self).decls@.len() as int) =~= old(self).decls@);
            assert(self.module_paths@.subrange(0, old(self).module_paths@.len() as int) =~= old(self).module_paths@);
        }
        r
    }
}

/// The value given for `name` in `type_args`: the first pair with that name.
pub fn lookup_param(type_args: &[(Symbol, TypeId)], name: &Symbol) -> (r: Option<TypeId>)
    ensures
        r == param_value(type_args@, name@),
{
    let mut i: usize = 0;
    assert(type_args@.skip(0) =~= type_args@);
    while i < type_args.len()
        invariant
            i <= type_args@.len(),
            param_value(type_args@, name@) == param_value(type_args@.skip(i as int), name@),
        decreases type_args@.len() - i,
    {
        assert(type_args@.skip(i as int).drop_first() =~= type_args@.skip(i + 1));
        assert(type_args@.skip(i as int)[0] == type_args@[i as int]);
        if type_args[i].0.eq_sym(name) {
            return Some(type_args[i].1);
        }
        i = i + 1;
    }
    None
}

/// A consistent registry's entries refer only to earlier types and existing declarations.
pub proof fn lemma_wf_entry(r: &Registry, i: int)
    requires
        r.wf(),
        0 <= i < r.types@.len(),
    ensures
        entry_ok(r.types@[i], i, r.decls@.len() as int),
{
    reveal(Registry::wf);
}

/// Basic facts of a consistent registry.
pub proof fn lemma_wf_basics(r: &Registry)
    requires
        r.wf(),
    ensures
        r.types@.len() >= 3,
        r.types@.len() < u32::MAX,
        r.decls@.len() < u32::MAX,
        r.modules@.len() < u32::MAX,
        r.modules@.len() == r.module_paths@.len(),
        r.any_type.0 == 0,
        r.anylocal_type.0 == 1,
        r.error_type.0 == 2,
        r.types@[0] is Any,
        r.types@[1] is AnyLocal,
        r.types@[2] is Error,
        forall|d: int| #![trigger r.decls@[d]] 0 <= d < r.decls@.len() ==> r.decls@[d].module.0 < r.modules@.len(),
        well_known_ok(r, r.int_decl, r.int_type, seq!['i', 'n', 't']),
        well_known_ok(r, r.float_decl, r.float_type, seq!['f', 'l', 'o', 'a', 't']),
        well_known_ok(r, r.str_decl, r.str_type, seq!['s', 't', 'r']),
        well_known_ok(r, r.bool_decl, r.bool_type, seq!['b', 'o', 'o', 'l']),
        well_known_ok(r, r.array_decl, r.array_type, seq!['a', 'r', 'r', 'a', 'y']),
        well_known_ok(r, r.map_decl, r.map_type, seq!['m', 'a', 'p']),
{
    reveal(Registry::wf);
}

/// Appending a declaration of a new (module, name) pair with its qualified name keeps the
/// registry consistent.
proof fn lemma_push_decl_wf(r1: &Registry, r2: &Registry)
    requires
        r1.wf(),
        r2.decls@.len() == r1.decls@.len() + 1,
        r2.decls@.subrange(0, r1.decls@.len() as int) == r1.decls@,
        r2.decls@.len() < u32::MAX,
        r2.modules@ == r1.modules@,
        r2.module_paths@ == r1.module_paths@,
        r2.types@ == r1.types@,
        r2.serializable_cache@ == r1.serializable_cache@,
        r2.any_type == r1.any_type,
        r2.anylocal_type == r1.anylocal_type,
        r2.error_type == r1.error_type,
        r2.int_decl == r1.int_decl && r2.int_type == r1.int_type,
        r2.float_decl == r1.float_decl && r2.float_type == r1.float_type,
        r2.str_decl == r1.str_decl && r2.str_type == r1.str_type,
        r2.bool_decl == r1.bool_decl && r2.bool_type == r1.bool_type,
        r2.array_decl == r1.array_decl && r2.array_type == r1.array_type,
        r2.map_decl == r1.map_decl && r2.map_type == r1.map_type,
        r2.decls@.last().module.0 < r2.modules@.len(),
        r2.decls@.last().qualified@ == qualify(r2.path_of(r2.decls@.last().module), r2.decls@.last().name@),
        forall|j: int| 0 <= j < r1.decls@.len() ==> !(r1.decls@[j].module == r2.decls@.last().module
            && r1.decls@[j].name@ == r2.decls@.last().name@),
    ensures
        r2.wf(),
{
    reveal(Registry::wf);
    let d = r2.decls@;
    let od = r1.decls@;
    assert forall|k: int| 0 <= k < od.len() implies d[k] == od[k] by {
        assert(d[k] == d.subrange(0, od.len() as int)[k]);
    }
    assert forall|dd: int|
        #![trigger r2.decls@[dd]]
        0 <= dd < r2.decls@.len() implies {
            &&& r2.decls@[dd].module.0 < r2.modules@.len()
            &&& r2.decls@[dd].qualified@ == qualify(r2.path_of(r2.decls@[dd].module), r2.decls@[dd].name@)
        } by {
        if dd < od.len() {
            assert(d[dd] == od[dd]);
        }
    }
    assert forall|a: int, b: int| 0 <= a < b < d.len() implies !(d[a].module == d[b].module
        && d[a].name@ == d[b].name@) by {
        if b < od.len() {
            assert(d[a] == od[a] && d[b] == od[b]);
        } else {
            assert(d[a] == od[a]);
        }
    }
    assert forall|k: int| #![trigger r2.types@[k]]
        0 <= k < r2.types@.len() implies entry_ok(r2.types@[k], k, r2.decls@.len() as int) by {
        assert(entry_ok(r1.types@[k], k, od.len() as int));
    }
    assert(well_known_ok(r2, r2.int_decl, r2.int_type, seq!['i', 'n', 't']));
    assert(well_known_ok(r2, r2.float_decl, r2.float_type, seq!['f', 'l', 'o', 'a', 't']));
    assert(well_known_ok(r2, r2.str_decl, r2.str_type, seq!['s', 't', 'r']));
    assert(well_known_ok(r2, r2.bool_decl, r2.bool_type, seq!['b', 'o', 'o', 'l']));
    assert(well_known_ok(r2, r2.array_decl, r2.array_type, seq!['a', 'r', 'r', 'a', 'y']));
    assert(well_known_ok(r2, r2.map_decl, r2.map_type, seq!['m', 'a', 'p']));
}

pub proof fn lemma_extends_refl(r: &Registry)
    requires
        r.modules@.len() == r.module_paths@.len(),
    ensures
        r.extends(r),
{
    assert(r.types@.subrange(0, r.types@.len() as int) =~= r.types@);
    assert(r.decls@.subrange(0, r.decls@.len() as int) =~= r.decls@);
    assert(r.module_paths@.subrange(0, r.module_paths@.len() as int) =~= r.module_paths@);
}

/// `extends` composes.
pub proof fn lemma_extends_trans(a: &Registry, b: &Registry, c: &Registry)
    requires
        b.extends(a),
        c.extends(b),
    ensures
        c.extends(a),
{
    assert(c.types@.subrange(0, a.types@.len() as int) =~= c.types@.subrange(0, b.types@.len() as int).subrange(0, a.types@.len() as int));
    assert(c.decls@.subrange(0, a.decls@.len() as int) =~= c.decls@.subrange(0, b.decls@.len() as int).subrange(0, a.decls@.len() as int));
    assert(c.module_paths@.subrange(0, a.module_paths@.len() as int) =~= c.module_paths@.subrange(0, b.module_paths@.len() as int).subrange(0, a.module_paths@.len() as int));
}

proof fn lemma_args_subst_from_pointwise(r: &Registry, ta: Seq<RegistryTypeArg>, tb: Seq<RegistryTypeArg>, args: Seq<(Symbol, TypeId)>, bound: u32, nav: Seq<RegistryTypeArg>)
    requires
        ta.len() == tb.len(),
        args_below(ta, bound as int),
        forall|j: int| 0 <= j < tb.len() ==> (#[trigger] tb[j]).name@ == ta[j].name@ && is_subst(r, ta[j].value, args, tb[j].value),
    ensures
        args_subst(r, ta, tb, args, bound),
    decreases ta.len(),
{
    if ta.len() > 0 {
        assert(ta[0].value.0 < bound);
        assert forall|j: int| 0 <= j < tb.drop_first().len() implies (#[trigger] tb.drop_first()[j]).name@ == ta.drop_first()[j].name@ && is_subst(r, ta.drop_first()[j].value, args, tb.drop_first()[j].value) by {
            assert(tb.drop_first()[j] == tb[j + 1]);
            assert(ta.drop_first()[j] == ta[j + 1]);
        }
        lemma_args_subst_from_pointwise(r, ta.drop_first(), tb.drop_first(), args, bound, nav);
    }
}


proof fn lemma_first_path_none_all(paths: Seq<Symbol>, path: Seq<char>)
    requires
        first_path(paths, path) is None,
    ensures
        forall|j: int| 0 <= j < paths.len() ==> paths[j]@ != path,
    decreases paths.len(),
{
    if paths.len() > 0 {
        lemma_first_path_none_all(paths.drop_first(), path);
        assert forall|j: int| 0 <= j < paths.len() implies paths[j]@ != path by {
            if j > 0 {
                assert(paths[j] == paths.drop_first()[j - 1]);
            }
        }
    }
}

proof fn lemma_first_decl_none_all(decls: Seq<DeclEntry>, m: ModuleIndex, name: Seq<char>)
    requires
        first_decl(decls, m, name) is None,
    ensures
        forall|j: int| 0 <= j < decls.len() ==> !(decls[j].module == m && decls[j].name@ == name),
    decreases decls.len(),
{
    if decls.len() > 0 {
        lemma_first_decl_none_all(decls.drop_first(), m, name);
        assert forall|j: int| 0 <= j < decls.len() implies !(decls[j].module == m && decls[j].name@ == name) by {
            if j > 0 {
                assert(decls[j] == decls.drop_first()[j - 1]);
            }
        }
    }
}

/// Registering a module: afterwards its path leads to the index that
/// registration gave, and that index holds the module (for a path already
/// registered, the old index with the module replaced).
pub proof fn lemma_registered_module_found(before: Registry, after: Registry, path: Symbol, module: Arc<Module>, r: ModuleIndex)
    requires
        before.modules@.len() == before.module_paths@.len(),
        match first_path(before.module_paths@, path@) {
            Some(i) => r.0 == i && after.module_paths@ == before.module_paths@
                && after.modules@ == before.modules@.update(i, module),
            None => r.0 == before.modules@.len() && after.module_paths@ == before.module_paths@.push(path)
                && after.modules@ == before.modules@.push(module),
        },
    ensures
        first_path(after.module_paths@, path@) == Some(r.0 as int),
        after.modules@[r.0 as int] == module,
{
    lemma_first_path_bound(before.module_paths@, path@);
    match first_path(before.module_paths@, path@) {
        Some(i) => {},
        None => {
            lemma_first_path_none_all(before.module_paths@, path@);
            let ps = after.module_paths@;
            assert forall|j: int| 0 <= j < r.0 implies ps[j]@ != path@ by {
                assert(ps[j] == before.module_paths@[j]);
            }
            lemma_first_path_found(ps, r.0 as int, path@);
        },
    }
}

/// Registering a declaration: afterwards looking up its name in its module
/// gives the id that registration gave (for a name already there, the old id).
pub proof fn lemma_registered_decl_found(before: Registry, after: Registry, module: ModuleIndex, name: Symbol, r: DeclId)
    requires
        match first_decl(before.decls@, module, name@) {
            Some(d) => r.0 == d && after.decls@ == before.decls@,
            None => r.0 == before.decls@.len() && after.decls@.len() == before.decls@.len() + 1
                && after.decls@.subrange(0, before.decls@.len() as int) == before.decls@
                && after.decls@[r.0 as int].module == module && after.decls@[r.0 as int].name@ == name@,
        },
    ensures
        first_decl(after.decls@, module, name@) == Some(r.0 as int),
{
    match first_decl(before.decls@, module, name@) {
        Some(d) => {},
        None => {
            lemma_first_decl_none_all(before.decls@, module, name@);
            let ds = after.decls@;
            assert forall|j: int| 0 <= j < r.0 implies !(ds[j].module == module && ds[j].name@ == name@) by {
                assert(ds[j] == ds.subrange(0, before.decls@.len() as int)[j]);
            }
            lemma_first_decl_found(ds, r.0 as int, module, name@);
        },
    }
}


/// Interning the same key a second time gives the type the first time gave
/// and adds no type (as for `intern_nilable` called twice on one inner type).
pub proof fn lemma_intern_twice(
    t1: Seq<TypeEntry>,
    p: spec_fn(TypeEntry) -> bool,
    r: int,
    t2: Seq<TypeEntry>,
    r2: int,
    t3: Seq<TypeEntry>,
)
    requires
        interned(t1, p, r, t2),
        interned(t2, p, r2, t3),
    ensures
        r2 == r,
        t3 == t2,
{
    lemma_intern_idempotent(t1, p, r, t2);
}


/// What one call of `register_decl` did, as far as the declarations go.
pub open spec fn decl_registered(before: Registry, after: Registry, module: ModuleIndex, name: Seq<char>, r: DeclId) -> bool {
    &&& after.decls@.len() >= before.decls@.len()
    &&& after.decls@.subrange(0, before.decls@.len() as int) == before.decls@
    &&& match first_decl(before.decls@, module, name) {
        Some(d) => r.0 == d && after.decls@ == before.decls@ && after.types@ == before.types@,
        None => r.0 == before.decls@.len() && after.decls@.len() == before.decls@.len() + 1
            && after.decls@[r.0 as int].module == module && after.decls@[r.0 as int].name@ == name,
    }
}

/// Registering the same declaration twice: the second call gives the id the
/// first gave and adds no declaration and no type.
pub proof fn lemma_register_decl_twice(
    r0: Registry,
    r1: Registry,
    r2: Registry,
    module: ModuleIndex,
    name: Symbol,
    d1: DeclId,
    d2: DeclId,
)
    requires
        decl_registered(r0, r1, module, name@, d1),
        decl_registered(r1, r2, module, name@, d2),
    ensures
        d2 == d1,
        r2.decls@ == r1.decls@,
        r2.types@ == r1.types@,
{
    lemma_registered_decl_found(r0, r1, module, name, d1);
}

/// Interning `decl` without type arguments twice, through
/// `intern_named_with_args`: the second call gives the first call's type and
/// adds no type.
pub proof fn lemma_intern_named_no_args_twice(
    t0: Seq<TypeEntry>,
    t1: Seq<TypeEntry>,
    t2: Seq<TypeEntry>,
    decl: DeclId,
    a: int,
    b: int,
)
    requires
        interned(t0, plain_named_pred(decl), a, t1),
        interned(t1, plain_named_pred(decl), b, t2),
    ensures
        b == a,
        t2 == t1,
{
    lemma_intern_twice(t0, plain_named_pred(decl), a, t1, b, t2);
}

} // verus!
