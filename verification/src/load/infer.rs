use vstd::prelude::*;

use crate::model::assoc::{assoc_first, assoc_position, keys_unique, lemma_assoc_first_push};
use crate::model::Symbol;
use crate::parse::types::pick;

use super::calls::member_named;
use super::ids::{DeclId, TypeId};
use super::registry::{is_subst, lemma_wf_entry, table_full, Registry, RegistryTypeArg, TypeEntry};
use super::context::LoadError;
use super::types::{Module, TypeField, TypeIntype};
use crate::model::symbol::{push_chars, str_chars};
use crate::model::{NodeId, SourceMap};

verus! {

/// Names taken by their text, with their types.
pub open spec fn pair_views(ps: Seq<(Symbol, TypeId)>) -> Seq<(Seq<char>, TypeId)> {
    ps.map_values(|p: (Symbol, TypeId)| (p.0@, p.1))
}

/// The type arguments of a type, as names and types.
pub open spec fn arg_views(ta: Seq<RegistryTypeArg>) -> Seq<(Seq<char>, TypeId)> {
    ta.map_values(|a: RegistryTypeArg| (a.name@, a.value))
}

/// The fields of a construct, as names and types.
pub open spec fn field_views(fs: Seq<TypeField>) -> Seq<(Seq<char>, TypeId)> {
    fs.map_values(|f: TypeField| (f.name@, f.ty))
}

/// The type of the first entry named `n`.
pub open spec fn first_ty(ps: Seq<(Seq<char>, TypeId)>, n: Seq<char>) -> Option<TypeId>
    decreases ps.len(),
{
    if ps.len() == 0 {
        None
    } else if ps[0].0 == n {
        Some(ps[0].1)
    } else {
        first_ty(ps.drop_first(), n)
    }
}

/// The type parameters solved so far, by name.
pub open spec fn solved_view(s: Seq<(Symbol, TypeId)>) -> Map<Seq<char>, TypeId> {
    Map::new(|k: Seq<char>| assoc_first(s, k) is Some, |k: Seq<char>| assoc_first(s, k)->0)
}

/// `m` with `n` solved as `t`, unless it is solved already (the first
/// solution stays).
pub open spec fn bind(m: Map<Seq<char>, TypeId>, n: Seq<char>, t: TypeId) -> Map<Seq<char>, TypeId> {
    if m.dom().contains(n) {
        m
    } else {
        m.insert(n, t)
    }
}

/// All types of `ps` are in a table of `len` types.
pub open spec fn views_valid(ps: Seq<(Seq<char>, TypeId)>, len: int) -> bool {
    forall|k: int| 0 <= k < ps.len() ==> (#[trigger] ps[k]).1.0 < len
}

/// Substituting the type arguments `tav` into `at` took `r0` to `r1` and gave `t`.
pub open spec fn subst_step(r0: Registry, at: TypeId, tav: Seq<(Seq<char>, TypeId)>, r1: Registry, t: TypeId) -> bool {
    &&& r1.wf()
    &&& r1.extends(&r0)
    &&& r1.same_except_types(&r0)
    &&& r1.valid_type(t)
    &&& exists|ta: Seq<(Symbol, TypeId)>| #[trigger] pair_views(ta) == tav && (is_subst(&r1, at, ta, t) || table_full(&r1))
}

/// The fields of the member `member` of the declaration `decl_name` of the
/// module being checked (none where there is no such member).
pub open spec fn local_member_fields(local: Module, decl_name: Seq<char>, member: Seq<char>) -> Seq<(Seq<char>, TypeId)> {
    match local.spec_declaration(decl_name) {
        Some(d) => match member_named(d, member) {
            Some(m) => field_views(m.fields@),
            None => Seq::empty(),
        },
        None => Seq::empty(),
    }
}

/// Unifying the actual type `a` against the expected type `e` (solving type
/// parameters that `e` holds), from registry `r0` and solutions `m0` to `r1`
/// and `m1`. The error type solves nothing. A type parameter is solved as
/// `a` (unless solved already). Named types with arguments unify their
/// arguments by name when `a` names the same declaration; a nilable type
/// unifies its inner type against `a`'s inner type (or `a` itself); a
/// function type unifies its fields by name against those of an anonymous
/// function type or of a member function (its fields in its module, or in
/// the module being checked, `local`, with the receiver's type arguments
/// substituted into them first). Anything else solves nothing.
pub open spec fn unify_rel(
    r0: Registry,
    local: Module,
    a: TypeId,
    e: TypeId,
    m0: Map<Seq<char>, TypeId>,
    r1: Registry,
    m1: Map<Seq<char>, TypeId>,
) -> bool
    decreases e.0, 2nat, 0nat,
{
    let len = r0.types@.len();
    let same = r1 == r0 && m1 == m0;
    if !(e.0 < len) || a == r0.error_type {
        same
    } else {
        match r0.types@[e.0 as int] {
            TypeEntry::TypeParam(n) => r1 == r0 && m1 == bind(m0, n@, a),
            TypeEntry::Named { decl, type_args } => {
                if type_args@.len() > 0 && a.0 < len {
                    match r0.types@[a.0 as int] {
                        TypeEntry::Named { decl: d2, type_args: aa } => if d2 == decl {
                            list_rel(r0, local, arg_views(type_args@), arg_views(aa@), Seq::empty(), m0, r1, m1, e.0)
                        } else {
                            same
                        },
                        _ => same,
                    }
                } else {
                    same
                }
            },
            TypeEntry::Nilable(ie) => {
                let act = if a.0 < len {
                    match r0.types@[a.0 as int] {
                        TypeEntry::Nilable(ia) => ia,
                        _ => a,
                    }
                } else {
                    a
                };
                if ie.0 < e.0 {
                    unify_rel(r0, local, act, ie, m0, r1, m1)
                } else {
                    same
                }
            },
            TypeEntry::Anonymous(ec) => {
                if ec.kind.spec_is_func() && a.0 < len {
                    let exp = field_views(ec.fields@);
                    match r0.types@[a.0 as int] {
                        TypeEntry::Anonymous(ac) => if ac.kind.spec_is_func() {
                            list_rel(r0, local, exp, field_views(ac.fields@), Seq::empty(), m0, r1, m1, e.0)
                        } else {
                            same
                        },
                        TypeEntry::MemberFunc { decl, member, type_args } => {
                            if decl.0 < r0.decls@.len() && r0.decls@[decl.0 as int].module.0 < r0.modules@.len() {
                                let entry = r0.decls@[decl.0 as int];
                                let found = match r0.modules@[entry.module.0 as int].spec_declaration(entry.name@) {
                                    Some(d) => member_named(d, member@),
                                    None => None,
                                };
                                let act = match found {
                                    Some(m) => field_views(m.fields@),
                                    None => local_member_fields(local, entry.name@, member@),
                                };
                                list_rel(r0, local, exp, act, arg_views(type_args@), m0, r1, m1, e.0)
                            } else {
                                same
                            }
                        },
                        _ => same,
                    }
                } else {
                    same
                }
            },
            _ => same,
        }
    }
}

/// Unifying, in order, each expected `(name, type)` of `exp` against the
/// first actual of that name in `act` (substituting `tav` into it first where
/// `tav` is not empty); names with no actual are skipped.
pub open spec fn list_rel(
    r0: Registry,
    local: Module,
    exp: Seq<(Seq<char>, TypeId)>,
    act: Seq<(Seq<char>, TypeId)>,
    tav: Seq<(Seq<char>, TypeId)>,
    m0: Map<Seq<char>, TypeId>,
    r1: Registry,
    m1: Map<Seq<char>, TypeId>,
    bound: u32,
) -> bool
    decreases bound, 1nat, exp.len(),
{
    if exp.len() == 0 {
        r1 == r0 && m1 == m0
    } else {
        exists|rm: Registry, mm: Map<Seq<char>, TypeId>| {
            &&& #[trigger] pick((rm, mm))
            &&& list_rel(r0, local, exp.drop_last(), act, tav, m0, rm, mm, bound)
            &&& pair_step(rm, local, exp.last(), act, tav, mm, r1, m1, bound)
        }
    }
}

/// One expected `(name, type)` of `list_rel`.
pub open spec fn pair_step(
    r0: Registry,
    local: Module,
    ep: (Seq<char>, TypeId),
    act: Seq<(Seq<char>, TypeId)>,
    tav: Seq<(Seq<char>, TypeId)>,
    m0: Map<Seq<char>, TypeId>,
    r1: Registry,
    m1: Map<Seq<char>, TypeId>,
    bound: u32,
) -> bool
    decreases bound, 0nat, 0nat,
{
    let same = r1 == r0 && m1 == m0;
    match first_ty(act, ep.0) {
        None => same,
        Some(at) => if ep.1.0 < bound {
            if tav.len() == 0 {
                unify_rel(r0, local, at, ep.1, m0, r1, m1)
            } else if at.0 < r0.types@.len() && views_valid(tav, r0.types@.len() as int) {
                exists|rs: Registry, t: TypeId| {
                    &&& #[trigger] pick((rs, t))
                    &&& subst_step(r0, at, tav, rs, t)
                    &&& unify_rel(rs, local, t, ep.1, m0, r1, m1)
                }
            } else {
                same
            }
        } else {
            same
        },
    }
}

/// What one unification step has to work on, copied out of the registry.
enum UnifyWork {
    Solve(Symbol),
    Fields { exp: Vec<(Symbol, TypeId)>, act: Vec<(Symbol, TypeId)>, ta: Vec<(Symbol, TypeId)> },
    Inner { act: TypeId, exp: TypeId },
    Nothing,
}

fn arg_pairs(ta: &Vec<RegistryTypeArg>) -> (r: Vec<(Symbol, TypeId)>)
    ensures
        pair_views(r@) == arg_views(ta@),
{
    let mut out: Vec<(Symbol, TypeId)> = Vec::new();
    let mut k: usize = 0;
    while k < ta.len()
        invariant
            k <= ta@.len(),
            out@.len() == k,
            pair_views(out@) == arg_views(ta@.take(k as int)),
        decreases ta@.len() - k,
    {
        let ghost before = out@;
        out.push((ta[k].name.dup(), ta[k].value));
        proof {
            assert(ta@.take(k + 1) =~= ta@.take(k as int).push(ta@[k as int]));
            assert forall|j: int| 0 <= j < k + 1 implies #[trigger] pair_views(out@)[j] == arg_views(ta@.take(k + 1))[j] by {
                if j < k {
                    assert(out@[j] == before[j]);
                    assert(pair_views(before)[j] == arg_views(ta@.take(k as int))[j]);
                }
            }
            assert(pair_views(out@) =~= arg_views(ta@.take(k + 1)));
        }
        k = k + 1;
    }
    proof {
        assert(ta@.take(ta@.len() as int) =~= ta@);
    }
    out
}

fn field_pairs(fs: &Vec<TypeField>) -> (r: Vec<(Symbol, TypeId)>)
    ensures
        pair_views(r@) == field_views(fs@),
{
    let mut out: Vec<(Symbol, TypeId)> = Vec::new();
    let mut k: usize = 0;
    while k < fs.len()
        invariant
            k <= fs@.len(),
            out@.len() == k,
            pair_views(out@) == field_views(fs@.take(k as int)),
        decreases fs@.len() - k,
    {
        let ghost before = out@;
        out.push((fs[k].name.dup(), fs[k].ty));
        proof {
            assert(fs@.take(k + 1) =~= fs@.take(k as int).push(fs@[k as int]));
            assert forall|j: int| 0 <= j < k + 1 implies #[trigger] pair_views(out@)[j] == field_views(fs@.take(k + 1))[j] by {
                if j < k {
                    assert(out@[j] == before[j]);
                    assert(pair_views(before)[j] == field_views(fs@.take(k as int))[j]);
                }
            }
            assert(pair_views(out@) =~= field_views(fs@.take(k + 1)));
        }
        k = k + 1;
    }
    proof {
        assert(fs@.take(fs@.len() as int) =~= fs@);
    }
    out
}

/// The type of the first pair named `name`.
fn first_type_named(ps: &Vec<(Symbol, TypeId)>, name: &Symbol) -> (r: Option<TypeId>)
    ensures
        r == first_ty(pair_views(ps@), name@),
{
    let mut k: usize = 0;
    proof {
        assert(pair_views(ps@).skip(0) =~= pair_views(ps@));
    }
    while k < ps.len()
        invariant
            k <= ps@.len(),
            first_ty(pair_views(ps@), name@) == first_ty(pair_views(ps@).skip(k as int), name@),
        decreases ps@.len() - k,
    {
        proof {
            assert(pair_views(ps@).skip(k as int).drop_first() =~= pair_views(ps@).skip(k + 1));
            assert(pair_views(ps@).skip(k as int)[0] == (ps@[k as int].0@, ps@[k as int].1));
        }
        if ps[k].0.eq_sym(name) {
            return Some(ps[k].1);
        }
        k = k + 1;
    }
    None
}

fn pairs_below(ps: &Vec<(Symbol, TypeId)>, len: usize) -> (r: bool)
    ensures
        r == views_valid(pair_views(ps@), len as int),
{
    let mut k: usize = 0;
    while k < ps.len()
        invariant
            k <= ps@.len(),
            forall|j: int| 0 <= j < k ==> (ps@[j].1.0 as int) < len,
        decreases ps@.len() - k,
    {
        if ps[k].1.0 as usize >= len {
            proof {
                assert(pair_views(ps@)[k as int].1 == ps@[k as int].1);
            }
            return false;
        }
        k = k + 1;
    }
    proof {
        assert forall|j: int| 0 <= j < pair_views(ps@).len() implies (#[trigger] pair_views(ps@)[j]).1.0 < len by {
            assert(pair_views(ps@)[j].1 == ps@[j].1);
        }
    }
    true
}

/// Unify the actual type `actual` against the expected type `expected`,
/// recording in `solved` the type parameters this solves (see `unify_rel`);
/// `local` is the module being checked.
pub fn unify_type(
    reg: &mut Registry,
    local: &Module,
    actual: TypeId,
    expected: TypeId,
    solved: &mut Vec<(Symbol, TypeId)>,
)
    requires
        old(reg).wf(),
        old(reg).valid_type(expected),
        keys_unique(old(solved)@),
    ensures
        final(reg).wf(),
        final(reg).extends(old(reg)),
        final(reg).same_except_types(old(reg)),
        keys_unique(final(solved)@),
        unify_rel(*old(reg), *local, actual, expected, solved_view(old(solved)@), *final(reg), solved_view(final(solved)@)),
    decreases expected.0, 2nat, 0nat,
{
    proof {
        super::registry::lemma_wf_basics(reg);
        super::registry::lemma_extends_refl(reg);
    }
    if actual == reg.error_type {
        return;
    }
    proof {
        lemma_wf_entry(reg, expected.0 as int);
        reveal(Registry::wf);
    }
    let len = reg.types.len();
    let work = match &reg.types[expected.0 as usize] {
        TypeEntry::TypeParam(name) => UnifyWork::Solve(name.dup()),
        TypeEntry::Named { decl, type_args } => {
            if type_args.len() > 0 && (actual.0 as usize) < len {
                match &reg.types[actual.0 as usize] {
                    TypeEntry::Named { decl: d2, type_args: aa } => {
                        if *d2 == *decl {
                            UnifyWork::Fields { exp: arg_pairs(type_args), act: arg_pairs(aa), ta: Vec::new() }
                        } else {
                            UnifyWork::Nothing
                        }
                    },
                    _ => UnifyWork::Nothing,
                }
            } else {
                UnifyWork::Nothing
            }
        },
        TypeEntry::Nilable(ie) => {
            let act = if (actual.0 as usize) < len {
                match &reg.types[actual.0 as usize] {
                    TypeEntry::Nilable(ia) => *ia,
                    _ => actual,
                }
            } else {
                actual
            };
            UnifyWork::Inner { act, exp: *ie }
        },
        TypeEntry::Anonymous(ec) => {
            if ec.kind.is_func() && (actual.0 as usize) < len {
                let exp = field_pairs(&ec.fields);
                match &reg.types[actual.0 as usize] {
                    TypeEntry::Anonymous(ac) => {
                        if ac.kind.is_func() {
                            UnifyWork::Fields { exp, act: field_pairs(&ac.fields), ta: Vec::new() }
                        } else {
                            UnifyWork::Nothing
                        }
                    },
                    TypeEntry::MemberFunc { decl, member, type_args } => {
                        proof {
                            lemma_wf_entry(reg, actual.0 as int);
                            assert(reg.decls@[decl.0 as int].module.0 < reg.modules@.len());
                        }
                        let entry = reg.decl(*decl);
                        let module = reg.module(entry.module);
                        let found = match module.get_declaration(entry.name.as_str()) {
                            Some(d) => d.get_member(member.as_str()),
                            None => None,
                        };
                        let act = match found {
                            Some(m) => field_pairs(&m.fields),
                            None => {
                                let lf = match local.get_declaration(entry.name.as_str()) {
                                    Some(d) => d.get_member(member.as_str()),
                                    None => None,
                                };
                                match lf {
                                    Some(m) => field_pairs(&m.fields),
                                    None => {
                                        proof {
                                            assert(pair_views(Seq::<(Symbol, TypeId)>::empty()) =~= Seq::<(Seq<char>, TypeId)>::empty());
                                        }
                                        Vec::new()
                                    },
                                }
                            },
                        };
                        UnifyWork::Fields { exp, act, ta: arg_pairs(type_args) }
                    },
                    _ => UnifyWork::Nothing,
                }
            } else {
                UnifyWork::Nothing
            }
        },
        _ => UnifyWork::Nothing,
    };
    let ghost r0 = *reg;
    let ghost m0 = solved_view(solved@);
    proof {
        assert(pair_views(Seq::<(Symbol, TypeId)>::empty()) =~= Seq::<(Seq<char>, TypeId)>::empty());
    }
    match work {
        UnifyWork::Solve(name) => {
            match assoc_position(solved.as_slice(), name.as_str()) {
                Some(_) => {},
                None => {
                    let ghost s0 = solved@;
                    solved.push((name, actual));
                    proof {
                        assert forall|a: int, b: int| 0 <= a < b < solved@.len() implies solved@[a].0@ != solved@[b].0@ by {
                            if b == s0.len() {
                                assert(s0[a] == solved@[a]);
                            }
                        }
                        assert forall|k: Seq<char>| true implies assoc_first(solved@, k) == (if assoc_first(s0, k) is Some {
                            assoc_first(s0, k)
                        } else if name@ == k {
                            Some(actual)
                        } else {
                            None
                        }) by {
                            lemma_assoc_first_push(s0, (name, actual), k);
                        }
                        assert(solved_view(solved@) =~= bind(m0, name@, actual));
                    }
                },
            }
            proof {
                assert(solved_view(solved@) =~= bind(m0, name@, actual));
            }
        },
        UnifyWork::Fields { exp, act, ta } => {
            unify_list(reg, local, &exp, &act, &ta, solved, expected.0);
        },
        UnifyWork::Inner { act, exp } => {
            unify_type(reg, local, act, exp, solved);
        },
        UnifyWork::Nothing => {},
    }
}

/// Unify each expected pair against the actual pair of the same name (see
/// `list_rel`); `bound` is above every expected type.
fn unify_list(
    reg: &mut Registry,
    local: &Module,
    exp: &Vec<(Symbol, TypeId)>,
    act: &Vec<(Symbol, TypeId)>,
    ta: &Vec<(Symbol, TypeId)>,
    solved: &mut Vec<(Symbol, TypeId)>,
    bound: u32,
)
    requires
        old(reg).wf(),
        (bound as int) < old(reg).types@.len(),
        keys_unique(old(solved)@),
    ensures
        final(reg).wf(),
        final(reg).extends(old(reg)),
        final(reg).same_except_types(old(reg)),
        keys_unique(final(solved)@),
        list_rel(*old(reg), *local, pair_views(exp@), pair_views(act@), pair_views(ta@), solved_view(old(solved)@), *final(reg), solved_view(final(solved)@), bound),
    decreases bound, 1nat, 0nat,
{
    let ghost r0 = *reg;
    let ghost m0 = solved_view(solved@);
    let ghost ev = pair_views(exp@);
    proof {
        super::registry::lemma_wf_basics(reg);
        super::registry::lemma_extends_refl(reg);
    }
    let mut k: usize = 0;
    while k < exp.len()
        invariant
            k <= exp@.len(),
            ev == pair_views(exp@),
            reg.wf(),
            reg.extends(&r0),
            reg.same_except_types(&r0),
            (bound as int) < r0.types@.len(),
            keys_unique(solved@),
            list_rel(r0, *local, ev.take(k as int), pair_views(act@), pair_views(ta@), m0, *reg, solved_view(solved@), bound),
        decreases exp@.len() - k,
    {
        let ghost rm = *reg;
        let ghost mm = solved_view(solved@);
        let ep_name = &exp[k].0;
        let ep_ty = exp[k].1;
        let ghost ep = ev[k as int];
        proof {
            assert(ep == (exp@[k as int].0@, exp@[k as int].1));
            assert(ev.take(k + 1).drop_last() =~= ev.take(k as int));
            assert(ev.take(k + 1).last() == ep);
        }
        match first_type_named(act, ep_name) {
            None => {},
            Some(at) => {
                if ep_ty.0 < bound {
                    if ta.len() == 0 {
                        unify_type(reg, local, at, ep_ty, solved);
                    } else {
                        let n = reg.types.len();
                        if (at.0 as usize) < n && pairs_below(ta, n) {
                            proof {
                                assert forall|j: int| 0 <= j < ta@.len() implies (#[trigger] ta@[j]).1.0 < reg.types@.len() by {
                                    assert(pair_views(ta@)[j].1 == ta@[j].1);
                                }
                            }
                            let t = reg.substitute_type_params(at, ta.as_slice());
                            let ghost rs = *reg;
                            unify_type(reg, local, t, ep_ty, solved);
                            proof {
                                super::registry::lemma_extends_trans(&rm, &rs, reg);
                                assert(pick((rs, t)));
                                assert(pair_views(ta@) == pair_views(ta@));
                                assert(subst_step(rm, at, pair_views(ta@), rs, t));
                            }
                        }
                    }
                }
            },
        }
        proof {
            super::registry::lemma_wf_basics(reg);
            super::registry::lemma_extends_refl(reg);
            super::registry::lemma_extends_trans(&r0, &rm, reg);
            assert(pair_step(rm, *local, ep, pair_views(act@), pair_views(ta@), mm, *reg, solved_view(solved@), bound));
            assert(pick((rm, mm)));
            assert(list_rel(r0, *local, ev.take(k + 1), pair_views(act@), pair_views(ta@), m0, *reg, solved_view(solved@), bound));
        }
        k = k + 1;
    }
    proof {
        assert(ev.take(exp@.len() as int) =~= ev);
    }
}


/// Unifying, in order, each actual argument `(name, type)` of `args` against
/// the type of the first field of that name (where there is one, in the
/// table), from `r0` and `m0` to `r1` and `m1`.
pub open spec fn args_rel(
    r0: Registry,
    local: Module,
    args: Seq<(Seq<char>, TypeId)>,
    fields: Seq<(Seq<char>, TypeId)>,
    m0: Map<Seq<char>, TypeId>,
    r1: Registry,
    m1: Map<Seq<char>, TypeId>,
) -> bool
    decreases args.len(),
{
    if args.len() == 0 {
        r1 == r0 && m1 == m0
    } else {
        exists|rm: Registry, mm: Map<Seq<char>, TypeId>| {
            &&& #[trigger] pick((rm, mm))
            &&& args_rel(r0, local, args.drop_last(), fields, m0, rm, mm)
            &&& match first_ty(fields, args.last().0) {
                Some(ft) => if ft.0 < rm.types@.len() {
                    unify_rel(rm, local, args.last().1, ft, mm, r1, m1)
                } else {
                    r1 == rm && m1 == mm
                },
                None => r1 == rm && m1 == mm,
            }
        }
    }
}

/// The message for a type parameter that nothing solves.
pub open spec fn cannot_infer_message(name: Seq<char>) -> Seq<char> {
    "cannot infer type argument '"@ + name + "'"@
}

/// What inferring the type arguments gives from the solutions `m`: for each
/// intype, in order, its solution, else its default; the intypes with
/// neither are the ones reported.
pub open spec fn inferred(intypes: Seq<TypeIntype>, m: Map<Seq<char>, TypeId>) -> Seq<(Seq<char>, TypeId)>
    decreases intypes.len(),
{
    if intypes.len() == 0 {
        Seq::empty()
    } else {
        let rest = inferred(intypes.drop_last(), m);
        let it = intypes.last();
        if m.dom().contains(it.name@) {
            rest.push((it.name@, m[it.name@]))
        } else {
            match it.default {
                Some(d) => rest.push((it.name@, d)),
                None => rest,
            }
        }
    }
}

/// The intypes that neither a solution nor a default gives a type, in order.
pub open spec fn uninferred(intypes: Seq<TypeIntype>, m: Map<Seq<char>, TypeId>) -> Seq<Seq<char>>
    decreases intypes.len(),
{
    if intypes.len() == 0 {
        Seq::empty()
    } else {
        let rest = uninferred(intypes.drop_last(), m);
        let it = intypes.last();
        if !m.dom().contains(it.name@) && it.default is None {
            rest.push(it.name@)
        } else {
            rest
        }
    }
}

/// The errors added for intypes that cannot be inferred: one per intype, in
/// order, at the invocation's range where it is known.
pub open spec fn infer_errors_are(
    added: Seq<LoadError>,
    names: Seq<Seq<char>>,
    module: Seq<char>,
    file_idx: usize,
    range: Option<(usize, usize)>,
) -> bool {
    &&& added.len() == names.len()
    &&& forall|k: int| 0 <= k < added.len() ==> {
        &&& (#[trigger] added[k]).module@ == module
        &&& added[k].message@ == cannot_infer_message(names[k])
        &&& added[k].file_idx == file_idx
        &&& added[k].range == range
    }
}

/// Infer the type arguments of an invocation from the types of its
/// arguments: each argument is unified against the field of its name (see
/// `args_rel`), then each intype takes its solution or its default. `None`
/// for a declaration without intypes, or where some intype has neither; an
/// error is added for each such intype.
pub fn infer_type_args(
    reg: &mut Registry,
    local: &Module,
    errors: &mut Vec<LoadError>,
    mod_path: &Symbol,
    file_idx: usize,
    source_map: &SourceMap,
    intypes: &Vec<TypeIntype>,
    fields: &Vec<TypeField>,
    arg_types: &Vec<(Symbol, TypeId)>,
    inv_node_id: NodeId,
) -> (r: Option<Vec<(Symbol, TypeId)>>)
    requires
        old(reg).wf(),
    ensures
        final(reg).wf(),
        final(reg).extends(old(reg)),
        intypes@.len() == 0 ==> r is None && *final(reg) == *old(reg) && final(errors)@ == old(errors)@,
        intypes@.len() > 0 ==> exists|m: Map<Seq<char>, TypeId>| {
            &&& #[trigger] args_rel(*old(reg), *local, pair_views(arg_types@), field_views(fields@), Map::empty(), *final(reg), m)
            &&& final(errors)@.subrange(0, old(errors)@.len() as int) == old(errors)@
            &&& infer_errors_are(
                final(errors)@.subrange(old(errors)@.len() as int, final(errors)@.len() as int),
                uninferred(intypes@, m),
                mod_path@,
                file_idx,
                source_map.spec_node_range(inv_node_id),
            )
            &&& if uninferred(intypes@, m).len() == 0 {
                r matches Some(v) && pair_views(v@) == inferred(intypes@, m)
            } else {
                r is None
            }
        },
{
    proof {
        super::registry::lemma_wf_basics(reg);
        super::registry::lemma_extends_refl(reg);
    }
    if intypes.len() == 0 {
        return None;
    }
    let ghost r0 = *reg;
    let mut solved: Vec<(Symbol, TypeId)> = Vec::new();
    let fv = field_pairs(fields);
    let ghost av = pair_views(arg_types@);
    proof {
        super::registry::lemma_wf_basics(reg);
        super::registry::lemma_extends_refl(reg);
        assert(solved_view(solved@) =~= Map::<Seq<char>, TypeId>::empty());
    }
    let mut k: usize = 0;
    while k < arg_types.len()
        invariant
            k <= arg_types@.len(),
            av == pair_views(arg_types@),
            pair_views(fv@) == field_views(fields@),
            reg.wf(),
            reg.extends(&r0),
            keys_unique(solved@),
            args_rel(r0, *local, av.take(k as int), field_views(fields@), Map::empty(), *reg, solved_view(solved@)),
        decreases arg_types@.len() - k,
    {
        let ghost rm = *reg;
        let ghost mm = solved_view(solved@);
        proof {
            assert(av.take(k + 1).drop_last() =~= av.take(k as int));
            assert(av.take(k + 1).last() == (arg_types@[k as int].0@, arg_types@[k as int].1));
        }
        match first_type_named(&fv, &arg_types[k].0) {
            Some(ft) => {
                if (ft.0 as usize) < reg.types.len() {
                    unify_type(reg, local, arg_types[k].1, ft, &mut solved);
                }
            },
            None => {},
        }
        proof {
            super::registry::lemma_wf_basics(reg);
            super::registry::lemma_extends_refl(reg);
            super::registry::lemma_extends_trans(&r0, &rm, reg);
            assert(pick((rm, mm)));
            assert(args_rel(r0, *local, av.take(k + 1), field_views(fields@), Map::empty(), *reg, solved_view(solved@)));
        }
        k = k + 1;
    }
    proof {
        assert(av.take(arg_types@.len() as int) =~= av);
    }
    let ghost m = solved_view(solved@);
    let range = source_map.node_range(inv_node_id);
    let ghost e0 = errors@;
    let mut result: Vec<(Symbol, TypeId)> = Vec::new();
    let mut failed = false;
    let mut j: usize = 0;
    while j < intypes.len()
        invariant
            j <= intypes@.len(),
            m == solved_view(solved@),
            keys_unique(solved@),
            pair_views(result@) == inferred(intypes@.take(j as int), m),
            failed == (uninferred(intypes@.take(j as int), m).len() > 0),
            errors@.subrange(0, e0.len() as int) == e0,
            e0.len() <= errors@.len(),
            range == source_map.spec_node_range(inv_node_id),
            infer_errors_are(
                errors@.subrange(e0.len() as int, errors@.len() as int),
                uninferred(intypes@.take(j as int), m),
                mod_path@,
                file_idx,
                range,
            ),
        decreases intypes@.len() - j,
    {
        let it = &intypes[j];
        let ghost rb = result@;
        let ghost eb = errors@;
        proof {
            assert(intypes@.take(j + 1).drop_last() =~= intypes@.take(j as int));
            assert(intypes@.take(j + 1).last() == intypes@[j as int]);
        }
        match assoc_position(solved.as_slice(), it.name.as_str()) {
            Some(p) => {
                result.push((it.name.dup(), solved[p].1));
                proof {
                    assert(pair_views(result@) =~= pair_views(rb).push((it.name@, m[it.name@])));
                }
            },
            None => {
                match it.default {
                    Some(d) => {
                        result.push((it.name.dup(), d));
                        proof {
                            assert(pair_views(result@) =~= pair_views(rb).push((it.name@, d)));
                        }
                    },
                    None => {
                        let mut msg = str_chars("cannot infer type argument '");
                        push_chars(&mut msg, it.name.as_str());
                        let tail = str_chars("'");
                        push_chars(&mut msg, tail.as_slice());
                        errors.push(LoadError { module: mod_path.dup(), message: msg, file_idx, range });
                        failed = true;
                        proof {
                            let added = errors@.subrange(e0.len() as int, errors@.len() as int);
                            let before = eb.subrange(e0.len() as int, eb.len() as int);
                            assert(added =~= before.push(errors@.last()));
                            assert(errors@.subrange(0, e0.len() as int) =~= eb.subrange(0, e0.len() as int));
                            let names = uninferred(intypes@.take(j + 1), m);
                            assert forall|q: int| 0 <= q < added.len() implies {
                                &&& (#[trigger] added[q]).module@ == mod_path@
                                &&& added[q].message@ == cannot_infer_message(names[q])
                                &&& added[q].file_idx == file_idx
                                &&& added[q].range == range
                            } by {
                                if q < before.len() {
                                    assert(added[q] == before[q]);
                                }
                            }
                        }
                    },
                }
            },
        }
        j = j + 1;
    }
    proof {
        assert(intypes@.take(intypes@.len() as int) =~= intypes@);
        assert(args_rel(r0, *local, pair_views(arg_types@), field_views(fields@), Map::empty(), *reg, m));
    }
    if failed {
        None
    } else {
        Some(result)
    }
}


/// An intype named `name` among `its`.
pub open spec fn has_intype(its: Seq<TypeIntype>, name: Seq<char>) -> bool {
    exists|k: int| 0 <= k < its.len() && (#[trigger] its[k]).name@ == name
}

/// Whether `name` names an intype of the declaration `decl`: looked up in
/// the module being checked (`local`, at `mod_path`) where the declaration
/// is one of its own, else in the declaration's module.
pub open spec fn valid_type_arg_name(r: Registry, local: Module, mod_path: Seq<char>, decl: DeclId, name: Seq<char>) -> bool {
    let entry = r.decls@[decl.0 as int];
    if r.module_paths@[entry.module.0 as int]@ == mod_path && assoc_first(local.decl_index@, entry.name@) is Some {
        match local.spec_declaration(entry.name@) {
            Some(d) => has_intype(d.intypes@, name),
            None => false,
        }
    } else {
        match r.modules@[entry.module.0 as int].spec_declaration(entry.name@) {
            Some(d) => has_intype(d.intypes@, name),
            None => false,
        }
    }
}

fn any_intype_named(its: &[TypeIntype], name: &Symbol) -> (r: bool)
    ensures
        r == has_intype(its@, name@),
{
    let mut k: usize = 0;
    while k < its.len()
        invariant
            k <= its@.len(),
            forall|j: int| 0 <= j < k ==> its@[j].name@ != name@,
        decreases its@.len() - k,
    {
        if its[k].name.eq_sym(name) {
            return true;
        }
        k = k + 1;
    }
    false
}

/// Whether `name` is a type argument the declaration `decl` takes (see
/// `valid_type_arg_name`).
pub fn is_valid_type_arg_name(reg: &Registry, local: &Module, mod_path: &Symbol, decl: DeclId, name: &Symbol) -> (r: bool)
    requires
        reg.wf(),
        reg.valid_decl(decl),
    ensures
        r == valid_type_arg_name(*reg, *local, mod_path@, decl, name@),
{
    proof {
        reveal(Registry::wf);
        assert(reg.decls@[decl.0 as int].module.0 < reg.modules@.len());
    }
    let entry = reg.decl(decl);
    let same_module = reg.path_of_module(entry.module).eq_sym(mod_path);
    if same_module && assoc_position(local.decl_index.as_slice(), entry.name.as_str()).is_some() {
        return match local.get_declaration(entry.name.as_str()) {
            Some(d) => any_intype_named(d.intypes.as_slice(), name),
            None => false,
        };
    }
    match reg.modules[entry.module.0 as usize].get_declaration(entry.name.as_str()) {
        Some(d) => any_intype_named(d.intypes.as_slice(), name),
        None => false,
    }
}

/// Unifying an expected nilable type `T?` against an actual type `A` that is
/// not nilable is unifying `T` against `A` itself; in particular, where `T`
/// is a type parameter not solved yet, it comes out solved as `A` and nothing
/// else changes.
pub proof fn lemma_unify_nilable_against_plain(
    r0: Registry,
    local: Module,
    a: TypeId,
    e: TypeId,
    m0: Map<Seq<char>, TypeId>,
    r1: Registry,
    m1: Map<Seq<char>, TypeId>,
)
    requires
        r0.wf(),
        r0.valid_type(e),
        r0.types@[e.0 as int] is Nilable,
        !(r0.valid_type(a) && r0.types@[a.0 as int] is Nilable),
    ensures
        unify_rel(r0, local, a, e, m0, r1, m1) <==> unify_rel(r0, local, a, r0.types@[e.0 as int]->Nilable_0, m0, r1, m1),
        ({
            let ie = r0.types@[e.0 as int]->Nilable_0;
            unify_rel(r0, local, a, e, m0, r1, m1) && a != r0.error_type && r0.types@[ie.0 as int] is TypeParam
                && !m0.dom().contains(r0.types@[ie.0 as int]->TypeParam_0@)
                ==> r1 == r0 && m1 == m0.insert(r0.types@[ie.0 as int]->TypeParam_0@, a)
        }),
{
    lemma_wf_entry(&r0, e.0 as int);
    let ie = r0.types@[e.0 as int]->Nilable_0;
    assert(ie.0 < e.0);
    if a != r0.error_type {
        assert(unify_rel(r0, local, a, e, m0, r1, m1) == unify_rel(r0, local, a, ie, m0, r1, m1));
    }
}

/// Unifying an expected nilable type `T?` against an actual nilable type
/// `A?` is unifying `T` against `A`.
pub proof fn lemma_unify_nilable_against_nilable(
    r0: Registry,
    local: Module,
    a: TypeId,
    e: TypeId,
    m0: Map<Seq<char>, TypeId>,
    r1: Registry,
    m1: Map<Seq<char>, TypeId>,
)
    requires
        r0.wf(),
        r0.valid_type(e),
        r0.valid_type(a),
        r0.types@[e.0 as int] is Nilable,
        r0.types@[a.0 as int] is Nilable,
    ensures
        unify_rel(r0, local, a, e, m0, r1, m1) <==> unify_rel(
            r0,
            local,
            r0.types@[a.0 as int]->Nilable_0,
            r0.types@[e.0 as int]->Nilable_0,
            m0,
            r1,
            m1,
        ),
{
    super::registry::lemma_wf_basics(&r0);
    lemma_wf_entry(&r0, e.0 as int);
    let ie = r0.types@[e.0 as int]->Nilable_0;
    let ia = r0.types@[a.0 as int]->Nilable_0;
    assert(ie.0 < e.0);
    assert(a != r0.error_type);
    if ia != r0.error_type {
        assert(unify_rel(r0, local, a, e, m0, r1, m1) == unify_rel(r0, local, ia, ie, m0, r1, m1));
    }
}

} // verus!
