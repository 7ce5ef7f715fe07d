use vstd::prelude::*;

use crate::model::symbol::str_chars;
use crate::model::{NodeId, Symbol};
use crate::project::first_piece;

use super::ids::{DeclId, TypeId};
use super::registry::{anon_fields_below, interned, is_nilable_of, nilable_pred, Registry, TypeEntry};
use super::types::{FieldModifier, FuncModifiers, TypeConstruct, TypeConstructKind, TypeField, Visibility};
use crate::model::assoc::assoc_first;

verus! {

/// The anonymous construct of `kind` with these fields and field order: no
/// name, private, no annotations, intypes or members, derived metadata left
/// empty.
pub open spec fn is_anon_construct(
    tc: TypeConstruct,
    kind: TypeConstructKind,
    func_modifiers: FuncModifiers,
    fields: Seq<TypeField>,
    order: Seq<usize>,
) -> bool {
    &&& tc.name is None
    &&& tc.kind == kind
    &&& tc.visibility == Visibility::Private
    &&& tc.annotations@.len() == 0
    &&& tc.intypes@.len() == 0
    &&& tc.fields@ == fields
    &&& tc.out_early_name is None
    &&& tc.out_field_names@.len() == 0
    &&& tc.func_modifiers == func_modifiers
    &&& tc.type_alias_target is None
    &&& tc.members@.len() == 0
    &&& tc.member_index@.len() == 0
    &&& !tc.is_builtin
    &&& !tc.non_serializable
    &&& tc.decl_id is None
    &&& tc.node_id == NodeId(0)
    &&& tc.ast_field_eval_order@ == order
}

/// Build an anonymous construct for interning (see `is_anon_construct`).
pub fn anon_type_construct(
    kind: TypeConstructKind,
    func_modifiers: FuncModifiers,
    fields: Vec<TypeField>,
    ast_field_eval_order: Vec<usize>,
) -> (r: TypeConstruct)
    ensures
        is_anon_construct(r, kind, func_modifiers, fields@, ast_field_eval_order@),
{
    TypeConstruct {
        name: None,
        kind,
        visibility: Visibility::Private,
        annotations: Vec::new(),
        intypes: Vec::new(),
        fields,
        out_early_name: None,
        out_field_names: Vec::new(),
        func_modifiers,
        type_alias_target: None,
        members: Vec::new(),
        member_index: Vec::new(),
        is_builtin: false,
        non_serializable: false,
        decl_id: None,
        node_id: NodeId(0),
        ast_field_eval_order,
    }
}

/// A field a call returns: `out` or `out!`.
pub open spec fn is_returned(f: TypeField) -> bool {
    f.modifier == Some(FieldModifier::Out) || f.modifier == Some(FieldModifier::OutEarly)
}

/// `a` is a copy of `b`.
pub open spec fn field_same(a: TypeField, b: TypeField) -> bool {
    &&& a.name@ == b.name@
    &&& a.modifier == b.modifier
    &&& a.ty == b.ty
    &&& a.has_default == b.has_default
    &&& a.node_id == b.node_id
}

/// The fields a call returns, in order.
pub open spec fn returned_fields(fs: Seq<TypeField>) -> Seq<TypeField>
    decreases fs.len(),
{
    if fs.len() == 0 {
        Seq::empty()
    } else if is_returned(fs.last()) {
        returned_fields(fs.drop_last()).push(fs.last())
    } else {
        returned_fields(fs.drop_last())
    }
}

/// `a` and `b` are copies of each other, field by field.
pub open spec fn fields_same(a: Seq<TypeField>, b: Seq<TypeField>) -> bool {
    &&& a.len() == b.len()
    &&& forall|k: int| 0 <= k < a.len() ==> field_same(#[trigger] a[k], b[k])
}

proof fn lemma_returned_fields_in(fs: Seq<TypeField>, bound: int)
    requires
        forall|k: int| 0 <= k < fs.len() ==> (#[trigger] fs[k]).ty.0 < bound,
    ensures
        forall|k: int| 0 <= k < returned_fields(fs).len() ==> (#[trigger] returned_fields(fs)[k]).ty.0 < bound,
    decreases fs.len(),
{
    if fs.len() > 0 {
        let d = fs.drop_last();
        assert forall|k: int| 0 <= k < d.len() implies (#[trigger] d[k]).ty.0 < bound by {
            assert(d[k] == fs[k]);
        }
        lemma_returned_fields_in(d, bound);
        assert(fs.last() == fs[fs.len() - 1]);
    }
}

/// Copies of the `out` and `out!` fields of `fields`, in order.
fn copy_returned_fields(fields: &Vec<TypeField>) -> (r: Vec<TypeField>)
    ensures
        fields_same(r@, returned_fields(fields@)),
{
    let mut out: Vec<TypeField> = Vec::new();
    let mut k: usize = 0;
    while k < fields.len()
        invariant
            k <= fields@.len(),
            fields_same(out@, returned_fields(fields@.take(k as int))),
        decreases fields@.len() - k,
    {
        let f = &fields[k];
        let ghost before = out@;
        proof {
            assert(fields@.take(k + 1).drop_last() =~= fields@.take(k as int));
            assert(fields@.take(k + 1).last() == fields@[k as int]);
        }
        if f.modifier == Some(FieldModifier::Out) || f.modifier == Some(FieldModifier::OutEarly) {
            out.push(TypeField {
                name: f.name.dup(),
                modifier: f.modifier,
                ty: f.ty,
                has_default: f.has_default,
                node_id: f.node_id,
            });
            proof {
                let rf = returned_fields(fields@.take(k + 1));
                assert(rf == returned_fields(fields@.take(k as int)).push(fields@[k as int]));
                assert forall|j: int| 0 <= j < out@.len() implies field_same(#[trigger] out@[j], rf[j]) by {
                    if j < before.len() {
                        assert(out@[j] == before[j]);
                    }
                }
            }
        }
        k = k + 1;
    }
    proof {
        assert(fields@.take(fields@.len() as int) =~= fields@);
    }
    out
}

/// The type a call returns, built from `fields` (those of the construct
/// called): nilable `any` where none is `out` or `out!`, else a new anonymous
/// data type of copies of those fields, in order.
pub open spec fn returns_type(old_r: Registry, new_r: Registry, fields: Seq<TypeField>, r: TypeId) -> bool {
    let outs = returned_fields(fields);
    &&& new_r.wf()
    &&& new_r.extends(&old_r)
    &&& new_r.same_except_types(&old_r)
    &&& if outs.len() == 0 {
        &&& interned(old_r.types@, nilable_pred(old_r.any_type), r.0 as int, new_r.types@)
        &&& is_nilable_of(new_r.types@[r.0 as int], old_r.any_type)
    } else {
        &&& r.0 == old_r.types@.len()
        &&& new_r.types@.len() == old_r.types@.len() + 1
        &&& new_r.types@.subrange(0, old_r.types@.len() as int) == old_r.types@
        &&& new_r.types@[r.0 as int] matches TypeEntry::Anonymous(tc) && fields_same(tc.fields@, outs)
            && is_anon_construct(
            *tc,
            TypeConstructKind::Data,
            FuncModifiers { view: false, noblock: false },
            tc.fields@,
            Seq::empty(),
        )
    }
}

fn return_type_of_fields(reg: &mut Registry, fields: &Vec<TypeField>) -> (r: TypeId)
    requires
        old(reg).wf(),
        forall|k: int| 0 <= k < fields@.len() ==> (#[trigger] fields@[k]).ty.0 < old(reg).types@.len(),
        old(reg).types@.len() + 1 < u32::MAX,
    ensures
        returns_type(*old(reg), *final(reg), fields@, r),
{
    let outs = copy_returned_fields(fields);
    if outs.len() == 0 {
        let any = reg.any_type;
        proof {
            super::registry::lemma_wf_basics(reg);
        }
        return reg.intern_nilable(any);
    }
    proof {
        lemma_returned_fields_in(fields@, reg.types@.len() as int);
    }
    let tc = anon_type_construct(TypeConstructKind::Data, FuncModifiers { view: false, noblock: false }, outs, Vec::new());
    proof {
        assert forall|k: int| 0 <= k < tc.fields@.len() implies (#[trigger] tc.fields@[k]).ty.0 < reg.types@.len() by {
            assert(field_same(tc.fields@[k], returned_fields(fields@)[k]));
        }
        assert(anon_fields_below(tc, reg.types@.len() as int));
    }
    reg.intern_anonymous(tc)
}

/// The type calling the construct `decl` gives (see `returns_type`).
pub fn decl_return_type(reg: &mut Registry, decl: &TypeConstruct) -> (r: TypeId)
    requires
        old(reg).wf(),
        forall|k: int| 0 <= k < decl.fields@.len() ==> (#[trigger] decl.fields@[k]).ty.0 < old(reg).types@.len(),
        old(reg).types@.len() + 1 < u32::MAX,
    ensures
        returns_type(*old(reg), *final(reg), decl.fields@, r),
{
    return_type_of_fields(reg, &decl.fields)
}

/// What invoking a value of type `ty` gives: for an anonymous function type,
/// the type built from its fields (see `returns_type`); the error type for
/// anything else, with the registry unchanged.
pub fn invocation_return_type(reg: &mut Registry, ty: TypeId) -> (r: TypeId)
    requires
        old(reg).wf(),
        old(reg).valid_type(ty),
        old(reg).types@.len() + 1 < u32::MAX,
    ensures
        match old(reg).types@[ty.0 as int] {
            TypeEntry::Anonymous(a) => if a.kind.spec_is_func() {
                returns_type(*old(reg), *final(reg), a.fields@, r)
            } else {
                r == old(reg).error_type && *final(reg) == *old(reg)
            },
            _ => r == old(reg).error_type && *final(reg) == *old(reg),
        },
{
    proof {
        super::registry::lemma_wf_entry(reg, ty.0 as int);
    }
    let fields = match &reg.types[ty.0 as usize] {
        TypeEntry::Anonymous(a) => {
            if a.kind.is_func() {
                Some(copy_all_fields(&a.fields))
            } else {
                None
            }
        },
        _ => None,
    };
    match fields {
        Some(fs) => {
            let ghost a_fields = match old(reg).types@[ty.0 as int] {
                TypeEntry::Anonymous(a) => a.fields@,
                _ => Seq::empty(),
            };
            let r = return_type_of_fields(reg, &fs);
            proof {
                lemma_returned_same(fs@, a_fields);
                let outs_c = returned_fields(fs@);
                let outs_a = returned_fields(a_fields);
                if outs_c.len() != 0 {
                    if let TypeEntry::Anonymous(tc) = reg.types@[r.0 as int] {
                        assert forall|k: int| 0 <= k < tc.fields@.len() implies field_same(#[trigger] tc.fields@[k], outs_a[k]) by {
                            assert(field_same(tc.fields@[k], outs_c[k]));
                            assert(field_same(outs_c[k], outs_a[k]));
                        }
                    }
                }
            }
            r
        },
        None => reg.error_type,
    }
}


proof fn lemma_returned_same(x: Seq<TypeField>, y: Seq<TypeField>)
    requires
        fields_same(x, y),
    ensures
        fields_same(returned_fields(x), returned_fields(y)),
    decreases x.len(),
{
    if x.len() > 0 {
        let x1 = x.drop_last();
        let y1 = y.drop_last();
        assert forall|k: int| 0 <= k < x1.len() implies field_same(#[trigger] x1[k], y1[k]) by {
            assert(x1[k] == x[k]);
            assert(y1[k] == y[k]);
        }
        lemma_returned_same(x1, y1);
        assert(field_same(x.last(), y.last())) by {
            assert(x.last() == x[x.len() - 1]);
            assert(y.last() == y[y.len() - 1]);
        }
        if is_returned(x.last()) {
            let rx = returned_fields(x);
            let ry = returned_fields(y);
            assert forall|k: int| 0 <= k < rx.len() implies field_same(#[trigger] rx[k], ry[k]) by {
                if k < rx.len() - 1 {
                    assert(rx[k] == returned_fields(x1)[k]);
                    assert(ry[k] == returned_fields(y1)[k]);
                }
            }
        }
    }
}

/// Copies of all of `fields`, in order.
fn copy_all_fields(fields: &Vec<TypeField>) -> (r: Vec<TypeField>)
    ensures
        fields_same(r@, fields@),
{
    let mut out: Vec<TypeField> = Vec::new();
    let mut k: usize = 0;
    while k < fields.len()
        invariant
            k <= fields@.len(),
            out@.len() == k,
            forall|j: int| 0 <= j < k ==> field_same(#[trigger] out@[j], fields@[j]),
        decreases fields@.len() - k,
    {
        let f = &fields[k];
        out.push(TypeField { name: f.name.dup(), modifier: f.modifier, ty: f.ty, has_default: f.has_default, node_id: f.node_id });
        k = k + 1;
    }
    out
}


/// What looking up a field by name on a declaration finds.
#[derive(Debug)]
pub enum FieldLookup {
    Found(TypeId),
    /// Not visible from outside: the declaration's name and the field's.
    Private(Symbol, Symbol),
    /// A member function used as a value: its owner and its name.
    MemberFunc(DeclId, Symbol),
    NotFound,
}

/// The index of the first field named `name`.
pub open spec fn first_field_named(fs: Seq<TypeField>, name: Seq<char>) -> Option<int>
    decreases fs.len(),
{
    if fs.len() == 0 {
        None
    } else if fs[0].name@ == name {
        Some(0)
    } else {
        match first_field_named(fs.drop_first(), name) {
            Some(i) => Some(i + 1),
            None => None,
        }
    }
}

/// The member named `name`, as the member index finds it.
pub open spec fn member_named(d: TypeConstruct, name: Seq<char>) -> Option<TypeConstruct> {
    match assoc_first(d.member_index@, name) {
        Some(i) => if (i as int) < d.members@.len() {
            Some(d.members@[i as int])
        } else {
            None
        },
        None => None,
    }
}

/// The name of a declaration for messages: `?` where it has none.
pub open spec fn owner_name(d: TypeConstruct) -> Seq<char> {
    match d.name {
        Some(n) => n@,
        None => "?"@,
    }
}

/// What `lookup_field_on_decl` finds for `name` on `d`: the first field so
/// named, private on an entity unless `out` or `inout`; where no field is so
/// named, a member function (private unless public, and only on a
/// declaration with an id).
pub open spec fn field_lookup_is(d: TypeConstruct, name: Seq<char>, r: FieldLookup) -> bool {
    match first_field_named(d.fields@, name) {
        None => match member_named(d, name) {
            Some(m) => if m.visibility == Visibility::Private {
                r matches FieldLookup::Private(a, b) && a@ == owner_name(d) && b@ == name
            } else {
                match d.decl_id {
                    Some(o) => r matches FieldLookup::MemberFunc(x, b) && x == o && b@ == name,
                    None => r is NotFound,
                }
            },
            None => r is NotFound,
        },
        Some(i) => {
            let f = d.fields@[i];
            if d.kind == TypeConstructKind::Entity && !(f.modifier == Some(FieldModifier::Out)
                || f.modifier == Some(FieldModifier::Inout)) {
                r matches FieldLookup::Private(a, b) && a@ == owner_name(d) && b@ == f.name@
            } else {
                r == FieldLookup::Found(f.ty)
            }
        },
    }
}

fn owner_symbol(d: &TypeConstruct) -> (r: Symbol)
    ensures
        r@ == owner_name(*d),
{
    match &d.name {
        Some(n) => n.dup(),
        None => Symbol::from_str("?"),
    }
}

/// Look up `field_name` on the declaration `d`, with entity fields' visibility
/// (see `field_lookup_is`).
pub fn lookup_field_on_decl(d: &TypeConstruct, field_name: &[char]) -> (r: FieldLookup)
    ensures
        field_lookup_is(*d, field_name@, r),
{
    let mut i: usize = 0;
    proof {
        assert(d.fields@.skip(0) =~= d.fields@);
    }
    let ghost name = field_name@;
    let mut found: Option<usize> = None;
    while i < d.fields.len()
        invariant_except_break
            found is None,
        invariant
            i <= d.fields@.len(),
            name == field_name@,
            match first_field_named(d.fields@.skip(i as int), name) {
                Some(j) => first_field_named(d.fields@, name) == Some(j + i),
                None => first_field_named(d.fields@, name) is None,
            },
        ensures
            found matches Some(k) ==> k < d.fields@.len() && first_field_named(d.fields@, name) == Some(k as int),
            found is None ==> first_field_named(d.fields@, name) is None,
        decreases d.fields@.len() - i,
    {
        proof {
            assert(d.fields@.skip(i as int).drop_first() =~= d.fields@.skip(i + 1));
            assert(d.fields@.skip(i as int)[0] == d.fields@[i as int]);
        }
        if d.fields[i].name.eq_chars(field_name) {
            found = Some(i);
            break;
        }
        i = i + 1;
    }

    match found {
        None => {
            match d.get_member(field_name) {
                Some(member) => {
                    if member.visibility == Visibility::Private {
                        return FieldLookup::Private(owner_symbol(d), Symbol { chars: crate::model::symbol::copy_chars(field_name) });
                    }
                    match d.decl_id {
                        Some(owner) => FieldLookup::MemberFunc(owner, Symbol { chars: crate::model::symbol::copy_chars(field_name) }),
                        None => FieldLookup::NotFound,
                    }
                },
                None => FieldLookup::NotFound,
            }
        },
        Some(k) => {
            let f = &d.fields[k];
            if d.kind == TypeConstructKind::Entity && !(f.modifier == Some(FieldModifier::Out)
                || f.modifier == Some(FieldModifier::Inout)) {
                FieldLookup::Private(owner_symbol(d), f.name.dup())
            } else {
                FieldLookup::Found(f.ty)
            }
        },
    }
}

/// The project a module belongs to: its path up to the first `.`.
pub fn project_root(mod_path: &[char]) -> (r: &[char])
    ensures
        r@ == first_piece(mod_path@),
{
    let mut k: usize = 0;
    while k < mod_path.len() && mod_path[k] != '.'
        invariant
            k <= mod_path@.len(),
            forall|j: int| 0 <= j < k ==> mod_path@[j] != '.',
        decreases mod_path@.len() - k,
    {
        k = k + 1;
    }
    proof {
        crate::project::lemma_first_piece(mod_path@, k as int);
    }
    let r = vstd::slice::slice_subrange(mod_path, 0, k);
    proof {
        assert(r@ =~= mod_path@.take(k as int));
    }
    r
}

/// A name private to its project (it starts with `_`) used from another project.
pub open spec fn cross_project_private(name: Seq<char>, from_module: Seq<char>, defining_module: Seq<char>) -> bool {
    name.len() > 0 && name[0] == '_' && first_piece(from_module) != first_piece(defining_module)
}

/// Whether using `name` from `from_module` crosses into another project's
/// private names (see `cross_project_private`).
pub fn is_cross_project_private(name: &[char], from_module: &[char], defining_module: &[char]) -> (r: bool)
    ensures
        r == cross_project_private(name@, from_module@, defining_module@),
{
    name.len() > 0 && name[0] == '_' && !crate::model::symbol::chars_eq(project_root(from_module), project_root(defining_module))
}

} // verus!
