use vstd::prelude::*;

use crate::model::assoc::{
    assoc_first, assoc_position, keys_unique, lemma_assoc_first_at, lemma_assoc_first_push,
    lemma_assoc_first_some, lemma_assoc_first_update,
};
use crate::model::{
    Construct, ConstructKind, Entity, EntityRun, Func, NodeId, SourceFile, Symbol,
};

use super::ids::{DeclId, TypeId};

verus! {

/// A compile-time constant value (annotation arguments). Float constants keep their
/// literal text; they are turned into numbers where they are used.
#[derive(Debug)]
pub enum OwnedValue {
    Int(i64),
    Float(Vec<char>),
    Str(Vec<char>),
    Bool(bool),
    Nil,
    List(Vec<OwnedValue>),
    Data(Vec<(Symbol, OwnedValue)>),
}

/// A resolved annotation on a declaration or file.
#[derive(Debug)]
pub struct Annotation {
    pub decl: DeclId,
    pub fields: Vec<(Symbol, OwnedValue)>,
}

#[derive(Debug, Clone, Copy, PartialEq, Eq, Structural)]
pub enum FieldModifier {
    In,
    Out,
    OutEarly,
    Inout,
    Value,
    Implicit,
}

pub open spec fn field_modifier_text(m: FieldModifier) -> Seq<char> {
    match m {
        FieldModifier::In => seq!['i', 'n'],
        FieldModifier::Out => seq!['o', 'u', 't'],
        FieldModifier::OutEarly => seq!['o', 'u', 't', '!'],
        FieldModifier::Inout => seq!['i', 'n', 'o', 'u', 't'],
        FieldModifier::Value => seq!['v', 'a', 'l', 'u', 'e'],
        FieldModifier::Implicit => seq!['i', 'm', 'p', 'l', 'i', 'c', 'i', 't'],
    }
}

impl FieldModifier {
    pub fn as_str(self) -> (r: &'static str)
        ensures
            r@ == field_modifier_text(self),
    {
        proof {
            reveal_strlit("in");
            reveal_strlit("out");
            reveal_strlit("out!");
            reveal_strlit("inout");
            reveal_strlit("value");
            reveal_strlit("implicit");
        }
        match self {
            Self::In => "in",
            Self::Out => "out",
            Self::OutEarly => "out!",
            Self::Inout => "inout",
            Self::Value => "value",
            Self::Implicit => "implicit",
        }
    }
}

/// A resolved field, in a named construct or an anonymous type.
#[derive(Debug)]
pub struct TypeField {
    pub name: Symbol,
    pub modifier: Option<FieldModifier>,
    pub ty: TypeId,
    pub has_default: bool,
    pub node_id: NodeId,
}

/// A resolved type parameter field.
#[derive(Debug)]
pub struct TypeIntype {
    pub name: Symbol,
    pub constraint: Option<TypeId>,
    pub default: Option<TypeId>,
    pub node_id: NodeId,
}

#[derive(Debug, Clone, Copy, PartialEq, Eq, Structural)]
pub enum TypeConstructKind {
    TypeAlias,
    Data,
    Entity,
    Func,
    Extern,
    Native,
}

impl TypeConstructKind {
    pub open spec fn spec_is_func(&self) -> bool {
        *self == TypeConstructKind::Func || *self == TypeConstructKind::Extern || *self
            == TypeConstructKind::Native
    }

    pub fn is_func(&self) -> (r: bool)
        ensures
            r == self.spec_is_func(),
    {
        match self {
            Self::Func | Self::Extern | Self::Native => true,
            _ => false,
        }
    }
}

#[derive(Debug, Clone, Copy, PartialEq, Eq, Structural)]
pub enum Visibility {
    Public,
    Private,
}

#[derive(Debug, Clone, Copy, PartialEq, Eq, Structural)]
pub struct FuncModifiers {
    pub view: bool,
    pub noblock: bool,
}

impl FuncModifiers {
    pub fn default() -> (r: FuncModifiers)
        ensures
            !r.view && !r.noblock,
    {
        FuncModifiers { view: false, noblock: false }
    }
}

/// A declaration whose signature has been (or will be) resolved.
#[derive(Debug)]
pub struct TypeConstruct {
    pub name: Option<Symbol>,
    pub kind: TypeConstructKind,
    pub visibility: Visibility,
    pub annotations: Vec<Annotation>,
    pub intypes: Vec<TypeIntype>,
    pub fields: Vec<TypeField>,
    pub out_early_name: Option<Symbol>,
    pub out_field_names: Vec<Symbol>,
    pub func_modifiers: FuncModifiers,
    /// For a type alias: the resolved target type.
    pub type_alias_target: Option<TypeId>,
    /// Member functions of a data or entity.
    pub members: Vec<TypeConstruct>,
    /// Member name -> index into `members`.
    pub member_index: Vec<(Symbol, usize)>,
    pub is_builtin: bool,
    pub non_serializable: bool,
    pub decl_id: Option<DeclId>,
    pub node_id: NodeId,
    /// Dependency-ordered indices into the AST construct's fields.
    pub ast_field_eval_order: Vec<usize>,
}

pub open spec fn opt_name_is(o: Option<Symbol>, name: Seq<char>) -> bool {
    match o {
        Some(s) => s@ == name,
        None => false,
    }
}

/// Index of the last member named `name`.
pub open spec fn last_member_named(members: Seq<TypeConstruct>, name: Seq<char>) -> Option<int>
    decreases members.len(),
{
    if members.len() == 0 {
        None
    } else if opt_name_is(members.last().name, name) {
        Some(members.len() - 1)
    } else {
        last_member_named(members.drop_last(), name)
    }
}

/// Name of the first field with the `out!` modifier.
pub open spec fn first_out_early(fields: Seq<TypeField>) -> Option<Seq<char>>
    decreases fields.len(),
{
    if fields.len() == 0 {
        None
    } else if fields[0].modifier == Some(FieldModifier::OutEarly) {
        Some(fields[0].name@)
    } else {
        first_out_early(fields.drop_first())
    }
}

pub open spec fn is_output_modifier(m: Option<FieldModifier>) -> bool {
    m == Some(FieldModifier::Out) || m == Some(FieldModifier::Inout) || m == Some(
        FieldModifier::OutEarly,
    )
}

/// Names of the fields that the construct outputs (`out`, `inout`, `out!`), in order.
pub open spec fn output_field_names(fields: Seq<TypeField>) -> Seq<Seq<char>>
    decreases fields.len(),
{
    if fields.len() == 0 {
        Seq::empty()
    } else {
        let rest = output_field_names(fields.drop_last());
        if is_output_modifier(fields.last().modifier) {
            rest.push(fields.last().name@)
        } else {
            rest
        }
    }
}

/// Type of the first field named `name` with the `implicit` modifier.
pub open spec fn first_implicit_field(fields: Seq<TypeField>, name: Seq<char>) -> Option<TypeId>
    decreases fields.len(),
{
    if fields.len() == 0 {
        None
    } else if fields[0].name@ == name && fields[0].modifier == Some(FieldModifier::Implicit) {
        Some(fields[0].ty)
    } else {
        first_implicit_field(fields.drop_first(), name)
    }
}

pub open spec fn sym_view_opt(o: Option<Symbol>) -> Option<Seq<char>> {
    match o {
        Some(s) => Some(s@),
        None => None,
    }
}

pub open spec fn sym_views(s: Seq<Symbol>) -> Seq<Seq<char>> {
    s.map_values(|x: Symbol| x@)
}

impl TypeConstruct {
    /// The member index maps every member name to the last member with that name, and
    /// holds no other key.
    pub open spec fn member_index_ok(&self) -> bool {
        &&& keys_unique(self.member_index@)
        &&& forall|name: Seq<char>|
            #![trigger assoc_first(self.member_index@, name)]
            match last_member_named(self.members@, name) {
                Some(i) => assoc_first(self.member_index@, name) == Some(i as usize),
                None => assoc_first(self.member_index@, name) is None,
            }
    }

    /// The derived metadata agrees with the fields and members.
    pub open spec fn metadata_ok(&self) -> bool {
        &&& sym_view_opt(self.out_early_name) == first_out_early(self.fields@)
        &&& sym_views(self.out_field_names@) == output_field_names(self.fields@)
        &&& self.member_index_ok()
    }

    /// Recompute `out_early_name`, `out_field_names` and `member_index`.
    pub fn rebuild_metadata(&mut self)
        ensures
            final(self).metadata_ok(),
            final(self).fields@ == old(self).fields@,
            final(self).members@ == old(self).members@,
            final(self).name == old(self).name,
            final(self).kind == old(self).kind,
            final(self).intypes@ == old(self).intypes@,
            final(self).node_id == old(self).node_id,
            final(self).decl_id == old(self).decl_id,
            final(self).visibility == old(self).visibility,
            final(self).type_alias_target == old(self).type_alias_target,
            final(self).ast_field_eval_order@ == old(self).ast_field_eval_order@,
            final(self).func_modifiers == old(self).func_modifiers,
            final(self).is_builtin == old(self).is_builtin,
            final(self).non_serializable == old(self).non_serializable,
            final(self).annotations == old(self).annotations,
    {
        let out_early = first_out_early_name(self.fields.as_slice());
        let names = output_names(self.fields.as_slice());
        let index = build_member_index(self.members.as_slice());
        self.out_early_name = out_early;
        self.out_field_names = names;
        self.member_index = index;
    }

    /// The member named `name`, found through `member_index`.
    pub fn get_member(&self, name: &[char]) -> (r: Option<&TypeConstruct>)
        ensures
            r == (match assoc_first(self.member_index@, name@) {
                Some(i) => if (i as int) < self.members@.len() {
                    Some(&self.members@[i as int])
                } else {
                    None
                },
                None => None,
            }),
    {
        match assoc_position(self.member_index.as_slice(), name) {
            Some(p) => {
                let i = self.member_index[p].1;
                if i < self.members.len() {
                    Some(&self.members[i])
                } else {
                    None
                }
            },
            None => None,
        }
    }

    /// Mutable access to the member named `name`, found through `member_index`.
    pub fn get_member_mut(&mut self, name: &[char]) -> (r: Option<&mut TypeConstruct>)
        ensures
            match assoc_first(old(self).member_index@, name@) {
                Some(i) => if (i as int) < old(self).members@.len() {
                    r matches Some(m) && *m == old(self).members@[i as int]
                        && final(self).members@ == old(self).members@.update(i as int, *final(m))
                        && final(self).member_index@ == old(self).member_index@
                        && final(self).fields@ == old(self).fields@
                        && final(self).name == old(self).name
                } else {
                    r is None
                },
                None => r is None,
            },
    {
        match assoc_position(self.member_index.as_slice(), name) {
            Some(p) => {
                let i = self.member_index[p].1;
                if i < self.members.len() {
                    Some(&mut self.members[i])
                } else {
                    None
                }
            },
            None => None,
        }
    }

    /// Type of the `implicit` field named `field_name`.
    pub fn get_implicit_field_type(&self, field_name: &[char]) -> (r: Option<TypeId>)
        ensures
            r == first_implicit_field(self.fields@, field_name@),
    {
        let mut i: usize = 0;
        assert(self.fields@.skip(0) =~= self.fields@);
        while i < self.fields.len()
            invariant
                i <= self.fields@.len(),
                first_implicit_field(self.fields@, field_name@) == first_implicit_field(
                    self.fields@.skip(i as int),
                    field_name@,
                ),
            decreases self.fields@.len() - i,
        {
            assert(self.fields@.skip(i as int).drop_first() =~= self.fields@.skip(i + 1));
            if self.fields[i].name.eq_chars(field_name) && self.fields[i].modifier == Some(
                FieldModifier::Implicit,
            ) {
                return Some(self.fields[i].ty);
            }
            i = i + 1;
        }
        None
    }
}


/// Name of the first `out!` field.
pub fn first_out_early_name(fields: &[TypeField]) -> (r: Option<Symbol>)
    ensures
        sym_view_opt(r) == first_out_early(fields@),
{
    let mut i: usize = 0;
    assert(fields@.skip(0) =~= fields@);
    while i < fields.len()
        invariant
            i <= fields@.len(),
            first_out_early(fields@) == first_out_early(fields@.skip(i as int)),
        decreases fields@.len() - i,
    {
        assert(fields@.skip(i as int).drop_first() =~= fields@.skip(i + 1));
        if fields[i].modifier == Some(FieldModifier::OutEarly) {
            return Some(fields[i].name.dup());
        }
        i = i + 1;
    }
    assert(fields@.skip(i as int).len() == 0);
    None
}

/// Names of the `out`, `inout` and `out!` fields, in order.
pub fn output_names(fields: &[TypeField]) -> (r: Vec<Symbol>)
    ensures
        sym_views(r@) == output_field_names(fields@),
{
    let mut names: Vec<Symbol> = Vec::new();
    let mut k: usize = 0;
    while k < fields.len()
        invariant
            k <= fields@.len(),
            sym_views(names@) == output_field_names(fields@.take(k as int)),
        decreases fields@.len() - k,
    {
        proof {
            assert(fields@.take(k + 1).drop_last() =~= fields@.take(k as int));
        }
        let m = fields[k].modifier;
        if m == Some(FieldModifier::Out) || m == Some(FieldModifier::Inout) || m == Some(
            FieldModifier::OutEarly,
        ) {
            let ghost before = names@;
            names.push(fields[k].name.dup());
            proof {
                assert(sym_views(names@) =~= sym_views(before).push(fields@[k as int].name@));
            }
        }
        k = k + 1;
    }
    assert(fields@.take(fields@.len() as int) =~= fields@);
    names
}

/// Index from each member name to the last member with that name.
pub fn build_member_index(members: &[TypeConstruct]) -> (r: Vec<(Symbol, usize)>)
    ensures
        keys_unique(r@),
        forall|name: Seq<char>|
            #![trigger assoc_first(r@, name)]
            match last_member_named(members@, name) {
                Some(i) => assoc_first(r@, name) == Some(i as usize),
                None => assoc_first(r@, name) is None,
            },
{
    let mut index: Vec<(Symbol, usize)> = Vec::new();
    let mut m: usize = 0;
    while m < members.len()
        invariant
            m <= members@.len(),
            keys_unique(index@),
            forall|name: Seq<char>|
                #![trigger assoc_first(index@, name)]
                match last_member_named(members@.take(m as int), name) {
                    Some(i) => assoc_first(index@, name) == Some(i as usize),
                    None => assoc_first(index@, name) is None,
                },
        decreases members@.len() - m,
    {
        let ghost old_index = index@;
        let ghost pre = members@.take(m as int);
        let ghost post = members@.take(m + 1);
        assert(post.drop_last() =~= pre);
        assert(post.last() == members@[m as int]);
        match &members[m].name {
            Some(n) => {
                let pos = assoc_position(index.as_slice(), n.chars.as_slice());
                match pos {
                    Some(p) => {
                        let key = index[p].0.dup();
                        index.set(p, (key, m));
                        proof {
                            assert(index@ =~= old_index.update(p as int, (index@[p as int].0, m)));
                            assert(index@[p as int].0@ == old_index[p as int].0@);
                            assert forall|name: Seq<char>|
                                #![trigger assoc_first(index@, name)]
                                match last_member_named(post, name) {
                                    Some(i) => assoc_first(index@, name) == Some(i as usize),
                                    None => assoc_first(index@, name) is None,
                                } by {
                                lemma_assoc_first_update(old_index, p as int, index@[p as int].0, m, name);
                                if name == n@ {
                                    assert(last_member_named(post, name) == Some(m as int));
                                } else {
                                    assert(last_member_named(post, name) == last_member_named(pre, name));
                                    assert(assoc_first(old_index, name) == assoc_first(index@, name));
                                }
                            }
                            assert forall|a: int, b: int|
                                0 <= a < b < index@.len() implies index@[a].0@
                                != index@[b].0@ by {
                                assert(old_index[a].0@ != old_index[b].0@);
                            }
                        }
                    },
                    None => {
                        index.push((n.dup(), m));
                        proof {
                            assert(index@ =~= old_index.push(index@.last()));
                            assert forall|name: Seq<char>|
                                #![trigger assoc_first(index@, name)]
                                match last_member_named(post, name) {
                                    Some(i) => assoc_first(index@, name) == Some(i as usize),
                                    None => assoc_first(index@, name) is None,
                                } by {
                                lemma_assoc_first_push(old_index, index@.last(), name);
                                if name == n@ {
                                    assert(last_member_named(post, name) == Some(m as int));
                                    assert(assoc_first(old_index, name) is None);
                                } else {
                                    assert(last_member_named(post, name) == last_member_named(pre, name));
                                }
                            }
                            assert forall|a: int, b: int|
                                0 <= a < b < index@.len() implies index@[a].0@
                                != index@[b].0@ by {
                                if b < old_index.len() {
                                    assert(old_index[a].0@ != old_index[b].0@);
                                } else {
                                    assert(old_index[a].0@ != n@);
                                }
                            }
                        }
                    },
                }
            },
            None => {
                proof {
                    assert forall|name: Seq<char>|
                        #![trigger assoc_first(index@, name)]
                        match last_member_named(post, name) {
                            Some(i) => assoc_first(index@, name) == Some(i as usize),
                            None => assoc_first(index@, name) is None,
                        } by {
                        assert(!opt_name_is(post.last().name, name));
                        assert(last_member_named(post, name) == last_member_named(pre, name));
                    }
                }
            },
        }
        m = m + 1;
    }
    assert(members@.take(members@.len() as int) =~= members@);
    index
}


/// Side table from AST nodes to resolved types.
#[derive(Debug)]
pub struct TypeTable {
    pub node_types: Vec<(NodeId, TypeId)>,
}

impl TypeTable {
    pub fn new() -> (r: TypeTable)
        ensures
            r.node_types@.len() == 0,
    {
        TypeTable { node_types: Vec::new() }
    }
}

/// A source file with its resolved type information.
#[derive(Debug)]
pub struct TypedFile {
    pub source_file: SourceFile,
    pub type_table: TypeTable,
    pub annotations: Vec<Annotation>,
    pub declarations: Vec<TypeConstruct>,
    /// Import alias -> module path; explicit imports shadow implicit ones.
    pub import_map: Vec<(Symbol, Symbol)>,
}

/// A loaded module.
#[derive(Debug)]
pub struct Module {
    /// True if loading (fetch, parse, ...) reported errors.
    pub has_errors: bool,
    pub files: Vec<TypedFile>,
    /// Declaration name -> (file index, declaration index).
    pub decl_index: Vec<(Symbol, (usize, usize))>,
}

pub open spec fn deref_opt<T>(o: Option<&T>) -> Option<T> {
    match o {
        Some(x) => Some(*x),
        None => None,
    }
}

pub open spec fn is_invalid_construct(c: Construct) -> bool {
    c.kind is Invalid
}

/// Index of the `n`-th construct (counting from 0) that is not `Invalid`.
pub open spec fn nth_valid_construct(cs: Seq<Construct>, n: int) -> Option<int>
    decreases cs.len(),
{
    if cs.len() == 0 {
        None
    } else if !is_invalid_construct(cs[0]) {
        if n == 0 {
            Some(0)
        } else {
            match nth_valid_construct(cs.drop_first(), n - 1) {
                Some(i) => Some(i + 1),
                None => None,
            }
        }
    } else {
        match nth_valid_construct(cs.drop_first(), n) {
            Some(i) => Some(i + 1),
            None => None,
        }
    }
}

/// Index of the first construct in `cs` named `name`.
pub open spec fn first_construct_named(cs: Seq<Construct>, name: Seq<char>) -> Option<int>
    decreases cs.len(),
{
    if cs.len() == 0 {
        None
    } else if cs[0].name.name@ == name {
        Some(0)
    } else {
        match first_construct_named(cs.drop_first(), name) {
            Some(i) => Some(i + 1),
            None => None,
        }
    }
}

/// The first construct of `cs` that is a data named `data_name` with a member func named
/// `member_name`: its index and the member's index.
pub open spec fn data_member_in(cs: Seq<Construct>, data_name: Seq<char>, member_name: Seq<char>) -> Option<(int, int)>
    decreases cs.len(),
{
    if cs.len() == 0 {
        None
    } else {
        let here = match cs[0].kind {
            ConstructKind::Data(d) => if cs[0].name.name@ == data_name {
                first_construct_named(d.funcs@, member_name)
            } else {
                None
            },
            _ => None,
        };
        match here {
            Some(j) => Some((0, j)),
            None => match data_member_in(cs.drop_first(), data_name, member_name) {
                Some((i, j)) => Some((i + 1, j)),
                None => None,
            },
        }
    }
}

/// Over files in order: the file, construct and member index of the first match of `data_member_in`.
pub open spec fn data_member_in_files(files: Seq<TypedFile>, data_name: Seq<char>, member_name: Seq<char>) -> Option<(int, int, int)>
    decreases files.len(),
{
    if files.len() == 0 {
        None
    } else {
        match data_member_in(files[0].source_file.constructs@, data_name, member_name) {
            Some((i, j)) => Some((0, i, j)),
            None => match data_member_in_files(files.drop_first(), data_name, member_name) {
                Some((f, i, j)) => Some((f + 1, i, j)),
                None => None,
            },
        }
    }
}

/// Position of the `n`-th valid construct.
pub fn nth_valid(cs: &[Construct], n: usize) -> (r: Option<usize>)
    ensures
        match r {
            Some(i) => nth_valid_construct(cs@, n as int) == Some(i as int) && i < cs@.len(),
            None => nth_valid_construct(cs@, n as int) is None,
        },
{
    let mut i: usize = 0;
    let mut seen: usize = 0;
    assert(cs@.skip(0) =~= cs@);
    while i < cs.len()
        invariant
            i <= cs@.len(),
            seen <= n,
            forall|k: int| #![trigger nth_valid_construct(cs@.skip(i as int), k)]
                k >= 0 ==> match nth_valid_construct(cs@.skip(i as int), k) {
                    Some(j) => nth_valid_construct(cs@, k + seen) == Some(j + i),
                    None => nth_valid_construct(cs@, k + seen) is None,
                },
        decreases cs@.len() - i,
    {
        let ghost rest = cs@.skip(i as int);
        assert(rest.drop_first() =~= cs@.skip(i + 1));
        let valid = match cs[i].kind {
            ConstructKind::Invalid(_) => false,
            _ => true,
        };
        if valid {
            if seen == n {
                assert(nth_valid_construct(rest, 0) == Some(0int));
                return Some(i);
            }
            proof {
                assert forall|k: int| #![trigger nth_valid_construct(cs@.skip(i + 1), k)]
                    k >= 0 implies match nth_valid_construct(cs@.skip(i + 1), k) {
                        Some(j) => nth_valid_construct(cs@, k + seen + 1) == Some(j + i + 1),
                        None => nth_valid_construct(cs@, k + seen + 1) is None,
                    } by {
                    assert(nth_valid_construct(rest, k + 1) == match nth_valid_construct(rest.drop_first(), k) {
                        Some(j) => Some(j + 1),
                        None => None,
                    });
                }
            }
            seen = seen + 1;
        } else {
            proof {
                assert forall|k: int| #![trigger nth_valid_construct(cs@.skip(i + 1), k)]
                    k >= 0 implies match nth_valid_construct(cs@.skip(i + 1), k) {
                        Some(j) => nth_valid_construct(cs@, k + seen) == Some(j + i + 1),
                        None => nth_valid_construct(cs@, k + seen) is None,
                    } by {
                    assert(nth_valid_construct(rest, k) == match nth_valid_construct(rest.drop_first(), k) {
                        Some(j) => Some(j + 1),
                        None => None,
                    });
                }
            }
        }
        i = i + 1;
    }
    assert(nth_valid_construct(cs@.skip(i as int), (n - seen) as int) is None);
    None
}

/// Position of the first construct named `name`.
pub fn find_construct_named(cs: &[Construct], name: &[char]) -> (r: Option<usize>)
    ensures
        match r {
            Some(i) => first_construct_named(cs@, name@) == Some(i as int) && i < cs@.len(),
            None => first_construct_named(cs@, name@) is None,
        },
{
    let mut i: usize = 0;
    assert(cs@.skip(0) =~= cs@);
    while i < cs.len()
        invariant
            i <= cs@.len(),
            match first_construct_named(cs@.skip(i as int), name@) {
                Some(j) => first_construct_named(cs@, name@) == Some(j + i),
                None => first_construct_named(cs@, name@) is None,
            },
        decreases cs@.len() - i,
    {
        assert(cs@.skip(i as int).drop_first() =~= cs@.skip(i + 1));
        if cs[i].name.name.eq_chars(name) {
            return Some(i);
        }
        i = i + 1;
    }
    None
}

impl Module {
    /// Every declaration index entry points at an existing file.
    pub open spec fn index_in_bounds(&self) -> bool {
        forall|k: int| 0 <= k < self.decl_index@.len() ==> (#[trigger] self.decl_index@[k]).1.0 < self.files@.len()
    }

    pub open spec fn spec_declaration(&self, name: Seq<char>) -> Option<TypeConstruct> {
        match assoc_first(self.decl_index@, name) {
            Some((fi, di)) => if (fi as int) < self.files@.len() && (di as int) < self.files@[fi as int].declarations@.len() {
                Some(self.files@[fi as int].declarations@[di as int])
            } else {
                None
            },
            None => None,
        }
    }

    /// The AST construct behind a declaration name: the `di`-th valid construct of file `fi`.
    pub open spec fn spec_ast_construct(&self, name: Seq<char>) -> Option<Construct> {
        match assoc_first(self.decl_index@, name) {
            Some((fi, di)) => match nth_valid_construct(self.files@[fi as int].source_file.constructs@, di as int) {
                Some(i) => Some(self.files@[fi as int].source_file.constructs@[i]),
                None => None,
            },
            None => None,
        }
    }

    fn get_ast_construct(&self, name: &[char]) -> (r: Option<&Construct>)
        requires
            self.index_in_bounds(),
        ensures
            deref_opt(r) == self.spec_ast_construct(name@),
    {
        let p = assoc_position(self.decl_index.as_slice(), name);
        match p {
            Some(k) => {
                let (fi, di) = self.decl_index[k].1;
                let cs = self.files[fi].source_file.constructs.as_slice();
                match nth_valid(cs, di) {
                    Some(i) => Some(&cs[i]),
                    None => None,
                }
            },
            None => None,
        }
    }

    pub fn get_declaration(&self, name: &[char]) -> (r: Option<&TypeConstruct>)
        ensures
            deref_opt(r) == self.spec_declaration(name@),
    {
        let p = assoc_position(self.decl_index.as_slice(), name);
        match p {
            Some(k) => {
                let (fi, di) = self.decl_index[k].1;
                if fi < self.files.len() && di < self.files[fi].declarations.len() {
                    Some(&self.files[fi].declarations[di])
                } else {
                    None
                }
            },
            None => None,
        }
    }

    /// Like `get_declaration`, also giving the file index.
    pub fn get_declaration_indexed(&self, name: &[char]) -> (r: Option<(u16, &TypeConstruct)>)
        ensures
            match r {
                Some((f, d)) => self.spec_declaration(name@) == Some(*d) && (match assoc_first(
                    self.decl_index@,
                    name@,
                ) {
                    Some((fi, _)) => f as int == fi as int % 65536,
                    None => false,
                }),
                None => self.spec_declaration(name@) is None,
            },
    {
        let p = assoc_position(self.decl_index.as_slice(), name);
        match p {
            Some(k) => {
                let (fi, di) = self.decl_index[k].1;
                if fi < self.files.len() && di < self.files[fi].declarations.len() {
                    let f: u16 = (fi % 65536) as u16;
                    Some((f, &self.files[fi].declarations[di]))
                } else {
                    None
                }
            },
            None => None,
        }
    }

    pub fn get_declaration_mut(&mut self, name: &[char]) -> (r: Option<&mut TypeConstruct>)
        ensures
            match assoc_first(old(self).decl_index@, name@) {
                Some((fi, di)) => if (fi as int) < old(self).files@.len() && (di as int) < old(
                    self,
                ).files@[fi as int].declarations@.len() {
                    r matches Some(d) && *d == old(self).files@[fi as int].declarations@[di as int]
                        && final(self).decl_index@ == old(self).decl_index@
                        && final(self).files@.len() == old(self).files@.len()
                        && final(self).files@[fi as int].declarations@ == old(self).files@[fi as int].declarations@.update(di as int, *final(d))
                } else {
                    r is None
                },
                None => r is None,
            },
    {
        let p = assoc_position(self.decl_index.as_slice(), name);
        match p {
            Some(k) => {
                let (fi, di) = self.decl_index[k].1;
                if fi < self.files.len() && di < self.files[fi].declarations.len() {
                    Some(&mut self.files[fi].declarations[di])
                } else {
                    None
                }
            },
            None => None,
        }
    }

    pub fn get_func_ast(&self, name: &[char]) -> (r: Option<&Func>)
        requires
            self.index_in_bounds(),
        ensures
            deref_opt(r) == (match self.spec_ast_construct(name@) {
                Some(c) => match c.kind {
                    ConstructKind::Func(f) => Some(f),
                    _ => None,
                },
                None => None,
            }),
    {
        match self.get_ast_construct(name) {
            Some(c) => match &c.kind {
                ConstructKind::Func(func) => Some(func),
                _ => None,
            },
            None => None,
        }
    }

    pub fn get_entity_ast(&self, name: &[char]) -> (r: Option<&Entity>)
        requires
            self.index_in_bounds(),
        ensures
            deref_opt(r) == (match self.spec_ast_construct(name@) {
                Some(c) => match c.kind {
                    ConstructKind::Entity(e) => Some(e),
                    _ => None,
                },
                None => None,
            }),
    {
        match self.get_ast_construct(name) {
            Some(c) => match &c.kind {
                ConstructKind::Entity(entity) => Some(entity),
                _ => None,
            },
            None => None,
        }
    }

    pub fn get_entity_member_ast(&self, entity_name: &[char], member_name: &[char]) -> (r: Option<&Construct>)
        requires
            self.index_in_bounds(),
        ensures
            deref_opt(r) == (match self.spec_ast_construct(entity_name@) {
                Some(c) => match c.kind {
                    ConstructKind::Entity(e) => match first_construct_named(e.funcs@, member_name@) {
                        Some(i) => Some(e.funcs@[i]),
                        None => None,
                    },
                    _ => None,
                },
                None => None,
            }),
    {
        match self.get_entity_ast(entity_name) {
            Some(entity) => match find_construct_named(entity.funcs.as_slice(), member_name) {
                Some(i) => Some(&entity.funcs[i]),
                None => None,
            },
            None => None,
        }
    }

    pub fn get_entity_run_ast(&self, entity_name: &[char]) -> (r: Option<&EntityRun>)
        requires
            self.index_in_bounds(),
        ensures
            deref_opt(r) == (match self.spec_ast_construct(entity_name@) {
                Some(c) => match c.kind {
                    ConstructKind::Entity(e) => match e.run {
                        Some(run) => Some(run),
                        None => None,
                    },
                    _ => None,
                },
                None => None,
            }),
    {
        match self.get_entity_ast(entity_name) {
            Some(entity) => match &entity.run {
                Some(run) => Some(run),
                None => None,
            },
            None => None,
        }
    }

    /// The member func `member_name` of the first data construct named `data_name`
    /// (over all files, in order) that has one.
    pub fn get_data_member_ast(&self, data_name: &[char], member_name: &[char]) -> (r: Option<&Construct>)
        ensures
            deref_opt(r) == (match data_member_in_files(self.files@, data_name@, member_name@) {
                Some((f, i, j)) => match self.files@[f].source_file.constructs@[i].kind {
                    ConstructKind::Data(d) => Some(d.funcs@[j]),
                    _ => None,
                },
                None => None,
            }),
    {
        let mut f: usize = 0;
        assert(self.files@.skip(0) =~= self.files@);
        while f < self.files.len()
            invariant
                f <= self.files@.len(),
                data_member_in_files(self.files@, data_name@, member_name@) == match data_member_in_files(self.files@.skip(f as int), data_name@, member_name@) {
                    Some((a, b, c)) => Some((a + f, b, c)),
                    None => None,
                },
            decreases self.files@.len() - f,
        {
            assert(self.files@.skip(f as int).drop_first() =~= self.files@.skip(f + 1));
            let cs = self.files[f].source_file.constructs.as_slice();
            let mut i: usize = 0;
            assert(cs@.skip(0) =~= cs@);
            while i < cs.len()
                invariant
                    i <= cs@.len(),
                    f < self.files@.len(),
                    data_member_in_files(self.files@, data_name@, member_name@) == match data_member_in_files(self.files@.skip(f as int), data_name@, member_name@) {
                        Some((a, b, c)) => Some((a + f, b, c)),
                        None => None,
                    },
                    cs@ == self.files@[f as int].source_file.constructs@,
                    data_member_in(cs@, data_name@, member_name@) == match data_member_in(cs@.skip(i as int), data_name@, member_name@) {
                        Some((a, b)) => Some((a + i, b)),
                        None => None,
                    },
                decreases cs@.len() - i,
            {
                assert(cs@.skip(i as int).drop_first() =~= cs@.skip(i + 1));
                assert(cs@.skip(i as int)[0] == cs@[i as int]);
                match &cs[i].kind {
                    ConstructKind::Data(data) => {
                        if cs[i].name.name.eq_chars(data_name) {
                            match find_construct_named(data.funcs.as_slice(), member_name) {
                                Some(j) => {
                                    proof {
                                        let rest = cs@.skip(i as int);
                                        assert(data_member_in(rest, data_name@, member_name@) == Some((0int, j as int)));
                                        assert(data_member_in(cs@, data_name@, member_name@) == Some((i as int, j as int)));
                                        let frest = self.files@.skip(f as int);
                                        assert(frest[0] == self.files@[f as int]);
                                        assert(data_member_in_files(frest, data_name@, member_name@) == Some((0int, i as int, j as int)));
                                    }
                                    return Some(&data.funcs[j]);
                                },
                                None => {},
                            }
                        }
                    },
                    _ => {},
                }
                i = i + 1;
            }
            assert(cs@.skip(i as int).len() == 0);
            f = f + 1;
        }
        assert(self.files@.skip(f as int).len() == 0);
        None
    }
}

/// Proves that a well-formed member index finds the last member of each name.
pub proof fn lemma_get_member_is_last(tc: &TypeConstruct, name: Seq<char>)
    requires
        tc.member_index_ok(),
    ensures
        assoc_first(tc.member_index@, name) == (match last_member_named(tc.members@, name) {
            Some(i) => Some(i as usize),
            None => None::<usize>,
        }),
{
    assert(match last_member_named(tc.members@, name) {
        Some(i) => assoc_first(tc.member_index@, name) == Some(i as usize),
        None => assoc_first(tc.member_index@, name) is None,
    });
}


proof fn lemma_last_member_named_is(members: Seq<TypeConstruct>, name: Seq<char>)
    ensures
        last_member_named(members, name) matches Some(i) ==> 0 <= i < members.len() && opt_name_is(members[i].name, name),
        last_member_named(members, name) is None ==> forall|j: int| 0 <= j < members.len() ==> !opt_name_is(members[j].name, name),
    decreases members.len(),
{
    if members.len() > 0 {
        lemma_last_member_named_is(members.drop_last(), name);
        assert forall|j: int| 0 <= j < members.len() - 1 implies members.drop_last()[j] == members[j] by {}
    }
}

/// After `rebuild_metadata` (whose metadata is then consistent), the member
/// index holds exactly the names of the members, and each name leads to a
/// member of that name (the last one).
pub proof fn lemma_member_index_names_members(tc: &TypeConstruct, name: Seq<char>)
    requires
        tc.metadata_ok(),
        tc.members@.len() <= usize::MAX,
    ensures
        assoc_first(tc.member_index@, name) matches Some(i) ==> (i as int) < tc.members@.len()
            && opt_name_is(tc.members@[i as int].name, name),
        assoc_first(tc.member_index@, name) is None <==> (forall|j: int| 0 <= j < tc.members@.len() ==> !opt_name_is(tc.members@[j].name, name)),
{
    lemma_get_member_is_last(tc, name);
    lemma_last_member_named_is(tc.members@, name);
    if assoc_first(tc.member_index@, name) is None {
    } else {
        let i = last_member_named(tc.members@, name)->0;
        assert(opt_name_is(tc.members@[i].name, name));
    }
}

} // verus!
