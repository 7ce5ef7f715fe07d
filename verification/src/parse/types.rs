use vstd::prelude::*;

use crate::model::symbol::str_chars;
use crate::model::{
    Ident, InvalidNode, NodeId, Symbol, Type, TypeAnon, TypeAnonConstruct, TypeAnonField, TypeAnonFieldModifier,
    TypeArgument, TypeEntityRef, TypeIntrospection, TypeIntrospectionOp, TypeNamed, TypeNilable,
};

use super::basic::{char_at, char_alphanumeric, ident_outcome, lemma_ident_outcome_advances, try_parse_ident};
use super::context::{is_continuation, lead_len, skip_space_bytes, IndentOpener};
use super::source::{at_pos, qualified_result, strict_step, text_at};
use super::trivia::{hash_count, lemma_hash_count_mono, trivia_result};
use super::{ParseContext, ParseError};

verus! {

/// Always true: names the witnesses of the existentials of the type grammar.
pub open spec fn pick<A>(a: A) -> bool {
    true
}

/// How far a parse from `c` can still go: the measure of the type grammar.
pub open spec fn room(c: ParseContext) -> int {
    c.source@.len() - c.pos
}

/// `n` is `c` at the first byte from its position that is not a space.
pub open spec fn spaces_skipped(n: ParseContext, c: ParseContext) -> bool {
    n == at_pos(c, skip_space_bytes(c.source@, c.pos as int, c.source@.len() as int))
}

/// `n` is `c` with one parse error `e` added.
pub open spec fn error_added(n: ParseContext, c: ParseContext, e: ParseError) -> bool {
    &&& n.parse_errors@ == c.parse_errors@.push(e)
    &&& ParseContext { parse_errors: c.parse_errors, ..n } == c
}

/// `n` is `c` with one more node id, spanning `span`.
pub open spec fn node_added(n: ParseContext, c: ParseContext, span: (int, int)) -> bool {
    &&& n.next_node_id == c.next_node_id + 1
    &&& n.node_ranges@ == c.node_ranges@.push((span.0 as usize, span.1 as usize))
    &&& ParseContext { next_node_id: c.next_node_id, node_ranges: c.node_ranges, ..n } == c
}

/// `e` is a plain error over `range` with `msg`.
pub open spec fn plain_err(e: ParseError, range: (int, int), msg: Seq<char>) -> bool {
    &&& e.consumed_range == (range.0 as usize, range.1 as usize)
    &&& e.message@ == msg
    &&& e.error_range is None
    &&& e.cause is None
}

/// The range `ParseContext::spacing_error` gives at `c` for spaces that started at `start`.
pub open spec fn spacing_range(c: ParseContext, start: int) -> (int, int) {
    if c.pos == start {
        (start, start + if c.pos < c.source@.len() { lead_len(c.source@[c.pos as int]) as int } else { 0 })
    } else {
        (start, c.pos as int)
    }
}

/// `e` is the error `ParseContext::error_here` gives at `c` with `msg`.
pub open spec fn here_err(e: ParseError, c: ParseContext, msg: Seq<char>) -> bool {
    let s = c.source@;
    let p = c.pos as int;
    &&& e.message@ == msg
    &&& e.error_range is None
    &&& e.cause is None
    &&& if p < s.len() && s[p] != 10 {
        e.consumed_range == (p as usize, (p + lead_len(s[p])) as usize)
    } else if p > 0 {
        &&& e.consumed_range.1 == p
        &&& e.consumed_range.0 < p
        &&& (e.consumed_range.0 == 0 || !is_continuation(s[e.consumed_range.0 as int]))
        &&& forall|i: int| e.consumed_range.0 < i < p ==> is_continuation(s[i])
    } else {
        e.consumed_range == (0usize, 1usize)
    }
}

/// The keyword `kw` stands at `p`, not followed by a letter, digit or `_`.
pub open spec fn keyword_at(s: Seq<u8>, p: int, kw: Seq<u8>) -> bool {
    &&& text_at(s, p, kw)
    &&& (match char_at(s, p + kw.len()) {
        Some(c) => !char_alphanumeric(c) && c != '_',
        None => p + kw.len() >= s.len(),
    })
}

/// An anonymous construct type starting at `p`: its kind and where its `{` is.
pub open spec fn anon_start(s: Seq<u8>, p: int) -> Option<(TypeAnonConstruct, int)> {
    let len = s.len() as int;
    let head: Option<(TypeAnonConstruct, int)> = if keyword_at(s, p, seq![100u8, 97u8, 116u8, 97u8]) {
        Some((TypeAnonConstruct::Data, p + 4))
    } else if keyword_at(s, p, seq![101u8, 110u8, 116u8, 105u8, 116u8, 121u8]) {
        Some((TypeAnonConstruct::Entity, p + 6))
    } else if keyword_at(s, p, seq![102u8, 117u8, 110u8, 99u8]) {
        Some((TypeAnonConstruct::Func, p + 4))
    } else if keyword_at(s, p, seq![118u8, 105u8, 101u8, 119u8]) {
        let q = skip_space_bytes(s, p + 4, len);
        if keyword_at(s, q, seq![102u8, 117u8, 110u8, 99u8]) { Some((TypeAnonConstruct::FuncView, q + 4)) } else { None }
    } else if keyword_at(s, p, seq![110u8, 111u8, 98u8, 108u8, 111u8, 99u8, 107u8]) {
        let q = skip_space_bytes(s, p + 7, len);
        if keyword_at(s, q, seq![102u8, 117u8, 110u8, 99u8]) { Some((TypeAnonConstruct::FuncNoblock, q + 4)) } else { None }
    } else {
        None
    };
    match head {
        Some((k, e)) => {
            let b = skip_space_bytes(s, e, len);
            if b < len && s[b] == 123 { Some((k, b)) } else { None }
        },
        None => None,
    }
}

/// `a` and `b` are the same identifier (one may be a copy of the other).
pub open spec fn ident_same(a: Ident, b: Ident) -> bool {
    &&& a.node_id == b.node_id
    &&& a.name@ == b.name@
    &&& a.is_raw == b.is_raw
}

pub open spec fn opt_ident_same(a: Option<Ident>, b: Option<Ident>) -> bool {
    match (a, b) {
        (Some(x), Some(y)) => ident_same(x, y),
        (None, None) => true,
        _ => false,
    }
}

/// The name a type argument gets from its type when none is written: the
/// last segment of a named type's path (through `?` and `&`).
pub open spec fn derived_arg_name(t: Type) -> Option<Ident>
    decreases t,
{
    match t {
        Type::Named(nm) => if nm.path@.len() > 0 { Some(nm.path@.last()) } else { None },
        Type::Nilable(n) => derived_arg_name(*n.inner),
        Type::EntityRef(r) => derived_arg_name(*r.inner),
        _ => None,
    }
}

/// A type parsed from `o` (leaving `n`): a type and an optional `?` making it nilable.
pub open spec fn type_rel(o: ParseContext, n: ParseContext, t: Type) -> bool
    decreases room(o), 6nat,
{
    exists|c1: ParseContext, inner: Type| #[trigger] pick((c1, inner)) && type_with(o, n, t, c1, inner)
}

pub open spec fn type_with(o: ParseContext, n: ParseContext, t: Type, c1: ParseContext, inner: Type) -> bool
    decreases room(o), 5nat,
{
    &&& inner_rel(o, c1, inner)
    &&& if text_at(c1.source@, c1.pos as int, seq![63u8]) {
        &&& t matches Type::Nilable(nl) && *nl.inner == inner && nl.node_id == NodeId(c1.next_node_id)
        &&& node_added(n, at_pos(c1, c1.pos + 1), (o.pos as int, c1.pos + 1))
    } else {
        &&& t == inner
        &&& n == c1
    }
}

/// A type without its `?` parsed from `o`: `&type`, an anonymous construct
/// type, or a named type with optional type arguments and introspection.
pub open spec fn inner_rel(o: ParseContext, n: ParseContext, t: Type) -> bool
    decreases room(o), 4nat,
{
    let s = o.source@;
    let p = o.pos as int;
    if text_at(s, p, seq![38u8]) {
        exists|c1: ParseContext, inner: Type| #[trigger] pick((c1, inner)) && entity_ref_with(o, n, t, c1, inner)
    } else if anon_start(s, p) is Some {
        let (k, b) = anon_start(s, p)->0;
        s.len() < usize::MAX && p < b < s.len() && body_rel(at_pos(o, b), n, t, p, k)
    } else {
        exists|c1: ParseContext, r1: Result<Vec<Ident>, ParseError>, c2: ParseContext, args: Seq<TypeArgument>, c3: ParseContext|
            #[trigger] pick((c1, r1, c2, args, c3)) && named_with(o, n, t, c1, r1, c2, args, c3)
    }
}

pub open spec fn entity_ref_with(o: ParseContext, n: ParseContext, t: Type, c1: ParseContext, inner: Type) -> bool
    decreases room(o), 3nat,
{
    let p = o.pos as int;
    &&& text_at(o.source@, p, seq![38u8])
    &&& o.source@.len() < usize::MAX
    &&& inner_rel(at_pos(o, p + 1), c1, inner)
    &&& t matches Type::EntityRef(r) && *r.inner == inner && r.node_id == NodeId(c1.next_node_id)
    &&& node_added(n, c1, (p, c1.pos as int))
}

/// The introspection suffix at `q`, if any, and its length.
pub open spec fn introspection_at(s: Seq<u8>, q: int) -> Option<(TypeIntrospectionOp, int)> {
    if text_at(s, q, seq![64u8, 116u8, 121u8, 112u8, 101u8, 111u8, 117u8, 116u8]) {
        Some((TypeIntrospectionOp::TypeOut, 8))
    } else if text_at(s, q, seq![64u8, 116u8, 121u8, 112u8, 101u8, 105u8, 110u8]) {
        Some((TypeIntrospectionOp::TypeIn, 7))
    } else if text_at(s, q, seq![64u8, 116u8, 121u8, 112u8, 101u8]) {
        Some((TypeIntrospectionOp::Type, 5))
    } else {
        None
    }
}

pub open spec fn named_ok(nm: TypeNamed, id: u32, path: Seq<Ident>, args: Seq<TypeArgument>) -> bool {
    nm.node_id == NodeId(id) && nm.module is None && nm.path@ == path && nm.type_args@ == args
}

pub open spec fn named_with(
    o: ParseContext,
    n: ParseContext,
    t: Type,
    c1: ParseContext,
    r1: Result<Vec<Ident>, ParseError>,
    c2: ParseContext,
    args: Seq<TypeArgument>,
    c3: ParseContext,
) -> bool
    decreases room(o), 3nat,
{
    let s = o.source@;
    let p = o.pos as int;
    &&& qualified_result(o, c1, r1)
    &&& match r1 {
        Err(e) => {
            &&& error_added(c2, c1, e)
            &&& t matches Type::Invalid(iv) && iv.node_id == NodeId(c2.next_node_id)
            &&& node_added(n, c2, (p, c2.pos as int))
        },
        Ok(path) => {
            &&& c1.source == o.source
            &&& p < c1.pos <= s.len()
            &&& if text_at(s, c1.pos as int, seq![91u8]) {
                args_rel(c1, c2, args)
            } else {
                c2 == c1 && args.len() == 0
            }
            &&& node_added(c3, c2, (p, c2.pos as int))
            &&& match introspection_at(s, c3.pos as int) {
                Some((op, k)) => {
                    &&& t matches Type::Introspection(ti) && named_ok(ti.inner, c2.next_node_id, path@, args) && ti.op == op
                        && ti.node_id == NodeId(c3.next_node_id)
                    &&& node_added(n, at_pos(c3, c3.pos + k), (p, c3.pos + k))
                },
                None => t matches Type::Named(nm) && named_ok(nm, c2.next_node_id, path@, args) && n == c3,
            }
        },
    }
}

/// A type argument list parsed from `o` (at its `[`).
pub open spec fn args_rel(o: ParseContext, n: ParseContext, args: Seq<TypeArgument>) -> bool
    decreases room(o), 3nat,
{
    exists|c2: ParseContext, c3: ParseContext, first: Option<TypeArgument>, rest: Seq<TypeArgument>, c4: ParseContext|
        #[trigger] pick((c2, c3, first, rest, c4)) && args_with(o, n, args, c2, c3, first, rest, c4)
}

pub open spec fn args_with(
    o: ParseContext,
    n: ParseContext,
    args: Seq<TypeArgument>,
    c2: ParseContext,
    c3: ParseContext,
    first: Option<TypeArgument>,
    rest: Seq<TypeArgument>,
    c4: ParseContext,
) -> bool
    decreases room(o), 2nat,
{
    let s = o.source@;
    let p = o.pos as int;
    &&& trivia_result(at_pos(o, p + 1), c2)
    &&& c2.source == o.source
    &&& p < c2.pos <= s.len()
    &&& if text_at(s, c2.pos as int, seq![93u8]) {
        args.len() == 0 && n == at_pos(c2, c2.pos + 1)
    } else {
        &&& arg_rel(c2, c3, first)
        &&& c3.source == o.source
        &&& c2.pos <= c3.pos <= s.len()
        &&& args_tail_rel(c3, c4, rest)
        &&& args == (match first {
            Some(a) => seq![a],
            None => Seq::empty(),
        }) + rest
        &&& if text_at(s, c4.pos as int, seq![93u8]) {
            n == at_pos(c4, c4.pos + 1)
        } else {
            exists|e: ParseError| {
                &&& e.consumed_range == (p as usize, c4.pos) && e.message@ == "Expected ']'"@
                &&& e.error_range == Some((p as usize, (p + 1) as usize)) && e.cause is None
                &&& #[trigger] error_added(n, c4, e)
            }
        }
    }
}

/// The arguments after the first, each after a `,`, from `o`.
pub open spec fn args_tail_rel(o: ParseContext, n: ParseContext, rest: Seq<TypeArgument>) -> bool
    decreases room(o), 3nat,
{
    let s = o.source@;
    let len = s.len() as int;
    let q = skip_space_bytes(s, o.pos as int, len);
    if text_at(s, q, seq![93u8]) || q >= len || !text_at(s, q, seq![44u8]) {
        rest.len() == 0 && n == at_pos(o, q)
    } else {
        exists|c3: ParseContext, c4: ParseContext, a: Option<TypeArgument>, more: Seq<TypeArgument>|
            #[trigger] pick((c3, c4, a, more)) && tail_with(o, n, rest, c3, c4, a, more)
    }
}

pub open spec fn tail_with(
    o: ParseContext,
    n: ParseContext,
    rest: Seq<TypeArgument>,
    c3: ParseContext,
    c4: ParseContext,
    a: Option<TypeArgument>,
    more: Seq<TypeArgument>,
) -> bool
    decreases room(o), 2nat,
{
    let s = o.source@;
    let len = s.len() as int;
    let q = skip_space_bytes(s, o.pos as int, len);
    &&& trivia_result(at_pos(o, q + 1), c3)
    &&& c3.source == o.source
    &&& o.pos < c3.pos <= len
    &&& if text_at(s, c3.pos as int, seq![93u8]) || c3.pos >= len {
        rest.len() == 0 && n == c3
    } else {
        &&& arg_rel(c3, c4, a)
        &&& c4.source == o.source
        &&& c3.pos <= c4.pos <= len
        &&& match a {
            Some(x) => args_tail_rel(c4, n, more) && rest == seq![x] + more,
            None => rest.len() == 0 && n == c4,
        }
    }
}

/// One type argument parsed from `o`: `name = type`, or a type whose name
/// is derived from it.
pub open spec fn arg_rel(o: ParseContext, n: ParseContext, a: Option<TypeArgument>) -> bool
    decreases room(o), 8nat,
{
    exists|c1: ParseContext, ty: Type| #[trigger] pick((c1, ty)) && arg_with(o, n, a, c1, ty)
}

/// A type that can name a type argument: a one-segment name without arguments.
pub open spec fn simple_name(ty: Type) -> bool {
    match ty {
        Type::Named(nm) => nm.type_args@.len() == 0 && nm.path@.len() == 1,
        _ => false,
    }
}

pub open spec fn arg_with(o: ParseContext, n: ParseContext, a: Option<TypeArgument>, c1: ParseContext, ty: Type) -> bool
    decreases room(o), 7nat,
{
    let s = o.source@;
    let len = s.len() as int;
    let p = o.pos as int;
    &&& type_rel(o, c1, ty)
    &&& c1.source == o.source
    &&& p <= c1.pos <= len
    &&& {
        let before_eq = c1.pos as int;
        let q = skip_space_bytes(s, before_eq, len);
        if text_at(s, q, seq![61u8]) && !text_at(s, q, seq![61u8, 61u8]) {
            exists|c3: ParseContext, name: Ident, c4: ParseContext, c7: ParseContext, c8: ParseContext, c9: ParseContext, value: Type|
                #[trigger] pick((c3, name, c4, c7, c8, c9, value)) && arg_eq_with(o, n, a, c1, ty, c3, name, c4, c7, c8, c9, value)
        } else {
            match derived_arg_name(ty) {
                Some(nm) => {
                    &&& a matches Some(arg) && arg.node_id == NodeId(c1.next_node_id) && ident_same(arg.name, nm) && arg.value == ty
                    &&& node_added(n, c1, (p, before_eq))
                },
                None => {
                    &&& a is None
                    &&& if ty is Invalid {
                        n == c1
                    } else {
                        exists|e: ParseError| plain_err(e, (p, before_eq), "Could not derive name for type argument"@) && #[trigger] error_added(n, c1, e)
                    }
                },
            }
        }
    }
}

pub open spec fn arg_eq_with(
    o: ParseContext,
    n: ParseContext,
    a: Option<TypeArgument>,
    c1: ParseContext,
    ty: Type,
    c3: ParseContext,
    name: Ident,
    c4: ParseContext,
    c7: ParseContext,
    c8: ParseContext,
    c9: ParseContext,
    value: Type,
) -> bool
    decreases room(o), 6nat,
{
    let s = o.source@;
    let len = s.len() as int;
    let p = o.pos as int;
    let before_eq = c1.pos as int;
    let q = skip_space_bytes(s, before_eq, len);
    let c2 = at_pos(c1, q);
    let after_eq = q + 1;
    let q2 = skip_space_bytes(s, after_eq, len);
    let c6 = at_pos(c4, q2);
    &&& q < len
    &&& (simple_name(ty) ==> ident_same(name, ty->Named_0.path@[0]) && c3 == c2)
    &&& (!simple_name(ty) ==> exists|c2e: ParseContext, e: ParseError| {
        &&& plain_err(e, (p, before_eq), "Type argument name must be a simple identifier"@)
        &&& #[trigger] error_added(c2e, c2, e)
        &&& node_added(c3, c2e, (p, before_eq))
        &&& name.node_id == NodeId(c2e.next_node_id) && name.name@ == "<unknown>"@ && !name.is_raw
    })
    &&& strict_step(c4, c3, q - before_eq != 1, spacing_range(c3, before_eq), "Expected exactly one space before '=' in type argument"@)
    &&& strict_step(c7, c6, q2 - after_eq != 1, spacing_range(c6, after_eq), "Expected exactly one space after '=' in type argument"@)
    &&& trivia_result(c7, c8)
    &&& c8.source == o.source
    &&& p < c8.pos <= len
    &&& type_rel(c8, c9, value)
    &&& a matches Some(arg) && arg.node_id == NodeId(c9.next_node_id) && ident_same(arg.name, name) && arg.value == value
    &&& node_added(n, c9, (p, c9.pos as int))
}

/// The body of an anonymous construct type parsed from its `{` at `o`; the
/// type spans from `start`.
pub open spec fn body_rel(o: ParseContext, n: ParseContext, t: Type, start: int, k: TypeAnonConstruct) -> bool
    decreases room(o), 3nat,
{
    exists|c1: ParseContext, c2: ParseContext, fs: Seq<TypeAnonField>, c3: ParseContext, c4: ParseContext, c5: ParseContext|
        #[trigger] pick((c1, c2, fs, c3, c4, c5)) && body_with(o, n, t, start, k, c1, c2, fs, c3, c4, c5)
}

pub open spec fn body_with(
    o: ParseContext,
    n: ParseContext,
    t: Type,
    start: int,
    k: TypeAnonConstruct,
    c1: ParseContext,
    c2: ParseContext,
    fs: Seq<TypeAnonField>,
    c3: ParseContext,
    c4: ParseContext,
    c5: ParseContext,
) -> bool
    decreases room(o), 2nat,
{
    &&& o.pos < o.source@.len()
    &&& c1.indent_stack@ == o.indent_stack@.push(IndentOpener::Brace)
    &&& ParseContext { indent_stack: o.indent_stack, ..c1 } == at_pos(o, o.pos + 1)
    &&& c1.source == o.source
    &&& c1.pos == o.pos + 1
    &&& fields_rel(c1, c2, fs)
    &&& c3.indent_stack@ == (if c2.indent_stack@.len() > 0 { c2.indent_stack@.drop_last() } else { c2.indent_stack@ })
    &&& ParseContext { indent_stack: c2.indent_stack, ..c3 } == c2
    &&& trivia_result(c3, c4)
    &&& if text_at(c4.source@, c4.pos as int, seq![125u8]) {
        c5 == at_pos(c4, c4.pos + 1)
    } else {
        exists|e: ParseError| here_err(e, c4, "Expected '}'"@) && #[trigger] error_added(c5, c4, e)
    }
    &&& t matches Type::Anon(an) && an.node_id == NodeId(c5.next_node_id) && an.construct == k && an.fields@ == fs
    &&& node_added(n, c5, (start, c5.pos as int))
}

/// The first byte at or after `i` that is not a space, `\n` or `\r`.
pub open spec fn skip_blank_bytes(s: Seq<u8>, i: int) -> int
    decreases s.len() - i,
{
    if 0 <= i < s.len() && (s[i] == 32 || s[i] == 10 || s[i] == 13) {
        skip_blank_bytes(s, i + 1)
    } else {
        i
    }
}

/// The fields of an anonymous construct type parsed from `o`, until its `}`
/// or the end. After content that is no field (reported), the rest of the
/// line is skipped; where that makes no progress, the fields end there.
pub open spec fn fields_rel(o: ParseContext, n: ParseContext, fs: Seq<TypeAnonField>) -> bool
    decreases room(o), 4nat,
{
    let s = o.source@;
    let q = skip_blank_bytes(s, o.pos as int);
    if q >= s.len() || s[q] == 125 {
        fs.len() == 0 && n == o
    } else {
        exists|c1: ParseContext, c2: ParseContext, f: Option<TypeAnonField>, c4: ParseContext, more: Seq<TypeAnonField>|
            #[trigger] pick((c1, c2, f, c4, more)) && fields_with(o, n, fs, c1, c2, f, c4, more)
    }
}

pub open spec fn fields_with(
    o: ParseContext,
    n: ParseContext,
    fs: Seq<TypeAnonField>,
    c1: ParseContext,
    c2: ParseContext,
    f: Option<TypeAnonField>,
    c4: ParseContext,
    more: Seq<TypeAnonField>,
) -> bool
    decreases room(o), 3nat,
{
    let s = o.source@;
    let len = s.len() as int;
    &&& trivia_result(o, c1)
    &&& c1.source == o.source
    &&& o.pos <= c1.pos <= len
    &&& if text_at(s, c1.pos as int, seq![125u8]) || c1.pos >= len {
        fs.len() == 0 && n == c1
    } else {
        &&& field_rel(c1, c2, f)
        &&& c2.source == o.source
        &&& c2.pos <= len
        &&& match f {
            Some(x) => o.pos < c2.pos && fields_rel(c2, n, more) && fs == seq![x] + more,
            None => {
                &&& exists|c3: ParseContext, e: ParseError| {
                    &&& plain_err(e, (c2.pos as int, c2.pos + 1), "Unrecognized content in anonymous type"@)
                    &&& #[trigger] error_added(c3, c2, e)
                    &&& c4.skipped_line(&c3)
                }
                &&& c4.source == o.source
                &&& c4.pos <= len
                &&& if o.pos < c4.pos {
                    fields_rel(c4, n, fs)
                } else {
                    fs.len() == 0 && n == c4
                }
            },
        }
    }
}

/// The field modifier word at `p` (up to the next space) and how many bytes
/// it and its space take.
pub open spec fn field_modifier_at(s: Seq<u8>, p: int) -> (Option<TypeAnonFieldModifier>, int) {
    let e = next_space(s, p);
    let w = s.subrange(p, e);
    if w == seq![105u8, 110u8] {
        (Some(TypeAnonFieldModifier::In), 3)
    } else if w == seq![111u8, 117u8, 116u8, 33u8] {
        (Some(TypeAnonFieldModifier::OutEarly), 5)
    } else if w == seq![111u8, 117u8, 116u8] {
        (Some(TypeAnonFieldModifier::Out), 4)
    } else if w == seq![105u8, 110u8, 111u8, 117u8, 116u8] {
        (Some(TypeAnonFieldModifier::Inout), 6)
    } else {
        (None, 0)
    }
}

/// The first space at or after `p`, or the end.
pub open spec fn next_space(s: Seq<u8>, p: int) -> int
    decreases s.len() - p,
{
    if p < 0 || p >= s.len() {
        s.len() as int
    } else if s[p] == 32 {
        p
    } else {
        next_space(s, p + 1)
    }
}

/// One field of an anonymous construct type parsed from `o`:
/// `[modifier] [name] ":" type ["=" "???"]`; `None`, with the position
/// back where it was, where neither a modifier, a name nor `:` starts one.
pub open spec fn field_rel(o: ParseContext, n: ParseContext, f: Option<TypeAnonField>) -> bool
    decreases room(o), 2nat,
{
    let s = o.source@;
    let p = o.pos as int;
    let (modifier, mlen) = field_modifier_at(s, p);
    if mlen > 0 && !keyword_at(s, p, s.subrange(p, next_space(s, p))) {
        f is None && n == o
    } else {
        exists|c3: ParseContext, c5: ParseContext, name: Option<Ident>| #[trigger] field_head(o, c3, c5, name)
            && field_tail(o, n, f, c5, name)
    }
}

/// The modifier and the name of a field parsed from `o`, leaving `c5`.
pub open spec fn field_head(o: ParseContext, c3: ParseContext, c5: ParseContext, name: Option<Ident>) -> bool {
    let s = o.source@;
    let len = s.len() as int;
    let p = o.pos as int;
    let (modifier, mlen) = field_modifier_at(s, p);
    let c1 = at_pos(o, if p + mlen <= len { p + mlen } else { len });
    &&& (mlen > 0 ==> exists|c2: ParseContext| {
        &&& #[trigger] pick(c2)
        &&& trivia_result(c1, c2)
        &&& strict_step(c3, c2, c2.pos != c1.pos, (c1.pos as int, c2.pos as int), "Expected no additional whitespace after field modifier"@)
    })
    &&& (mlen == 0 ==> c3 == o)
    &&& if !text_at(s, c3.pos as int, seq![58u8]) {
        exists|c4: ParseContext, r4: Result<Option<Ident>, ParseError>| {
            &&& #[trigger] pick((c4, r4))
            &&& ident_outcome(c3, c4, r4)
            &&& name == (match r4 {
                Ok(Some(id)) => Some(id),
                _ => None,
            })
            &&& match r4 {
                Err(e) => error_added(c5, c4, e),
                _ => c5 == c4,
            }
        }
    } else {
        c5 == c3 && name is None
    }
    &&& c5.source == o.source
    &&& p <= c5.pos <= len
}

/// The name a field without one gets from its type.
pub open spec fn field_name(name: Option<Ident>, ty: Type) -> Option<Ident> {
    match name {
        Some(x) => Some(x),
        None => match ty {
            Type::Named(nm) => if nm.type_args@.len() == 0 && nm.path@.len() > 0 { Some(nm.path@.last()) } else { None },
            _ => None,
        },
    }
}

/// The rest of a field, from `c5` after its modifier and name.
pub open spec fn field_tail(o: ParseContext, n: ParseContext, f: Option<TypeAnonField>, c5: ParseContext, name: Option<Ident>) -> bool
    decreases room(o), 1nat,
{
    let s = o.source@;
    let len = s.len() as int;
    let p = o.pos as int;
    let modifier = field_modifier_at(s, p).0;
    let before_colon = c5.pos as int;
    let q = skip_space_bytes(s, before_colon, len);
    let c6 = at_pos(c5, q);
    if !text_at(s, q, seq![58u8]) {
        if modifier is None && name is None {
            f is None && n == at_pos(c6, p)
        } else {
            exists|c7: ParseContext, e: ParseError, c8: ParseContext, c9: ParseContext| {
                &&& here_err(e, c6, "Expected ':' in anonymous type field"@)
                &&& #[trigger] error_added(c7, c6, e)
                &&& c8.skipped_line(&c7)
                &&& #[trigger] node_added(c9, c8, (p, c8.pos as int))
                &&& node_added(n, c9, (c8.pos as int, c8.pos as int))
                &&& f matches Some(fl) && fl.node_id == NodeId(c8.next_node_id) && fl.modifier == modifier
                    && opt_ident_same(fl.name, name) && *fl.ty == Type::Invalid(InvalidNode { node_id: NodeId(c9.next_node_id) })
                    && !fl.has_default
            }
        }
    } else {
        exists|c7: ParseContext, c10: ParseContext, c11: ParseContext, ty: Type, c17: ParseContext, has_default: bool|
            #[trigger] pick((c7, c10, c11, ty, c17, has_default)) && field_typed(o, n, f, c5, name, c7, c10, c11, ty, c17, has_default)
    }
}

pub open spec fn field_typed(
    o: ParseContext,
    n: ParseContext,
    f: Option<TypeAnonField>,
    c5: ParseContext,
    name: Option<Ident>,
    c7: ParseContext,
    c10: ParseContext,
    c11: ParseContext,
    ty: Type,
    c17: ParseContext,
    has_default: bool,
) -> bool
    decreases room(o), 0nat,
{
    let s = o.source@;
    let len = s.len() as int;
    let p = o.pos as int;
    let modifier = field_modifier_at(s, p).0;
    let before_colon = c5.pos as int;
    let q = skip_space_bytes(s, before_colon, len);
    let c6 = at_pos(c5, q);
    let after_colon = q + 1;
    let q2 = skip_space_bytes(s, after_colon, len);
    let c9 = at_pos(c7, q2);
    &&& text_at(s, q, seq![58u8])
    &&& strict_step(c7, c6, name is Some && q != before_colon, (before_colon, q), "Expected no space before ':'"@)
    &&& strict_step(c10, c9, q2 - after_colon != 1, spacing_range(c9, after_colon), "Expected exactly one space after ':'"@)
    &&& c10.source == o.source
    &&& p < c10.pos <= len
    &&& type_rel(c10, c11, ty)
    &&& {
        let before_eq = c11.pos as int;
        let q3 = skip_space_bytes(s, before_eq, len);
        let c12 = at_pos(c11, q3);
        let after_eq = q3 + 1;
        let q4 = skip_space_bytes(s, after_eq, len);
        if text_at(s, q3, seq![61u8]) && !text_at(s, q3, seq![61u8, 61u8]) {
            exists|c13: ParseContext, c16: ParseContext| #[trigger] eq_default(c12, c13, c16, c17, before_eq, q3, q4) && has_default
        } else {
            c17 == c11 && !has_default
        }
    }
    &&& f matches Some(fl) && fl.node_id == NodeId(c17.next_node_id) && fl.modifier == modifier && *fl.ty == ty
        && fl.has_default == has_default && opt_ident_same(fl.name, field_name(name, ty))
    &&& node_added(n, c17, (p, c17.pos as int))
}

/// `= ???` after a field's type, from `c12` (at the `=`), leaving `c17`.
pub open spec fn eq_default(c12: ParseContext, c13: ParseContext, c16: ParseContext, c17: ParseContext, before_eq: int, q3: int, q4: int) -> bool {
    let s = c12.source@;
    let after_eq = q3 + 1;
    &&& strict_step(c13, c12, q3 - before_eq != 1, (before_eq, q3), "Expected exactly one space before '='"@)
    &&& strict_step(c16, at_pos(c13, q4), q4 - after_eq != 1, (after_eq, q4), "Expected exactly one space after '='"@)
    &&& if text_at(s, c16.pos as int, seq![63u8, 63u8, 63u8]) {
        c17 == at_pos(c16, c16.pos + 3)
    } else {
        exists|c16e: ParseContext, e: ParseError| {
            &&& here_err(e, c16, "Expected '???' after '=' in anonymous type field"@)
            &&& #[trigger] error_added(c16e, c16, e)
            &&& c17.skipped_line(&c16e)
        }
    }
}

/// Room for node ids a parse from `c` may still need: a few per byte left.
pub open spec fn id_room(c: ParseContext) -> int {
    c.next_node_id + 4 * room(c)
}

/// Room for indentation levels a parse from `c` may still open.
pub open spec fn indent_room(c: ParseContext) -> int {
    c.indent_stack@.len() + room(c)
}

/// What the type parser asks of the context it starts from.
pub open spec fn type_pre(c: ParseContext) -> bool {
    &&& c.wf()
    &&& c.line_start <= c.pos
    &&& indent_room(c) * 4 < usize::MAX
    &&& id_room(c) + 8 < u32::MAX
}

/// What the type parser keeps: the source and indentation, the position
/// not moving back, and the line start not after it.
pub open spec fn type_post(n: ParseContext, o: ParseContext) -> bool {
    &&& n.wf()
    &&& n.source == o.source
    &&& n.indent_stack@ == o.indent_stack@
    &&& o.pos <= n.pos
    &&& n.line_start <= n.pos
}

pub proof fn lemma_hash_count_bound(s: Seq<u8>, i: int, j: int)
    requires
        0 <= i <= j,
    ensures
        hash_count(s, i) <= hash_count(s, j) + (j - i),
        hash_count(s, i) <= if i < s.len() { s.len() - i } else { 0 },
    decreases s.len() - i,
{
    if i < s.len() {
        if i < j {
            lemma_hash_count_bound(s, i + 1, j);
        } else {
            lemma_hash_count_bound(s, i + 1, i + 1);
        }
    }
}

pub proof fn lemma_skip_space_bytes_is(s: Seq<u8>, p: int, q: int)
    requires
        0 <= p <= q <= s.len(),
        forall|i: int| p <= i < q ==> s[i] == 32,
        q == s.len() || s[q] != 32,
    ensures
        skip_space_bytes(s, p, s.len() as int) == q,
    decreases q - p,
{
    if p < q {
        lemma_skip_space_bytes_is(s, p + 1, q);
    }
}

pub proof fn lemma_skip_space_bytes_bounds(s: Seq<u8>, p: int)
    requires
        0 <= p <= s.len(),
    ensures
        p <= skip_space_bytes(s, p, s.len() as int) <= s.len(),
    decreases s.len() - p,
{
    if p < s.len() && s[p] == 32 {
        lemma_skip_space_bytes_bounds(s, p + 1);
    }
}

/// After trivia, the node-id room has not grown.
pub proof fn lemma_trivia_room(c: ParseContext, n: ParseContext)
    requires
        c.wf(),
        n.source == c.source,
        c.pos <= n.pos <= n.source@.len(),
        n.next_node_id + 2 * hash_count(n.source@, n.pos as int) <= c.next_node_id + 2 * hash_count(c.source@, c.pos as int),
    ensures
        id_room(n) <= id_room(c) - 2 * (n.pos - c.pos),
{
    lemma_hash_count_bound(c.source@, c.pos as int, n.pos as int);
}

/// Where the node-id room allows trivia at `c`.
pub proof fn lemma_trivia_pre(c: ParseContext)
    requires
        c.wf(),
    ensures
        c.next_node_id + 2 * hash_count(c.source@, c.pos as int) <= id_room(c),
{
    lemma_hash_count_bound(c.source@, c.pos as int, c.pos as int);
}

pub proof fn lemma_newline_from_ge(s: Seq<u8>, i: int)
    requires
        0 <= i <= s.len(),
    ensures
        i <= super::context::newline_from(s, i) <= s.len(),
    decreases s.len() - i,
{
    if i < s.len() && s[i] != 10 {
        lemma_newline_from_ge(s, i + 1);
    }
}

/// Skipping the rest of a line moves forward and keeps node ids, the
/// source, the indentation and the line start before the position.
pub proof fn lemma_skipped_line_facts(n: ParseContext, o: ParseContext)
    requires
        o.wf(),
        o.line_start <= o.pos,
        n.skipped_line(&o),
    ensures
        n.source == o.source,
        n.indent_stack == o.indent_stack,
        n.next_node_id == o.next_node_id,
        o.pos <= n.pos <= n.source@.len(),
        n.line_start <= n.pos,
{
    lemma_newline_from_ge(o.source@, o.pos as int);
}

impl ParseContext {
    /// Skip spaces (see `skip_space_bytes`).
    fn skip_sp(&mut self) -> (r: usize)
        requires
            old(self).wf(),
        ensures
            final(self).wf(),
            spaces_skipped(*final(self), *old(self)),
            final(self).pos == old(self).pos + r,
            final(self).pos <= final(self).source@.len(),
            final(self).pos == skip_space_bytes(old(self).source@, old(self).pos as int, old(self).source@.len() as int),
    {
        let ghost o = *self;
        let r = self.skip_spaces();
        proof {
            lemma_skip_space_bytes_is(o.source@, o.pos as int, self.pos as int);
            assert(*self == at_pos(o, self.pos as int));
        }
        r
    }

    /// Whether the bytes `lit` stand at `p`.
    fn text_at_exec(&self, p: usize, lit: &[u8]) -> (r: bool)
        requires
            self.wf(),
        ensures
            r == text_at(self.source@, p as int, lit@),
    {
        let n = self.source.len();
        if p > n || lit.len() > n - p {
            return false;
        }
        let mut i: usize = 0;
        while i < lit.len()
            invariant
                self.wf(),
                n == self.source@.len(),
                p + lit@.len() <= n,
                i <= lit@.len(),
                forall|j: int| 0 <= j < i ==> self.source@[p + j] == lit@[j],
            decreases lit@.len() - i,
        {
            if self.source[p + i] != lit[i] {
                proof {
                    assert(self.source@.subrange(p as int, p + lit@.len())[i as int] != lit@[i as int]);
                }
                return false;
            }
            i = i + 1;
        }
        proof {
            assert(self.source@.subrange(p as int, p + lit@.len()) =~= lit@);
        }
        true
    }
}

impl ParseContext {
    /// Whether byte `b` stands at `p`.
    fn byte_is(&self, p: usize, b: u8) -> (r: bool)
        requires
            self.wf(),
        ensures
            r == text_at(self.source@, p as int, seq![b]),
            r ==> p < self.source@.len(),
    {
        let r = p < self.source.len() && self.source[p] == b;
        proof {
            if p < self.source@.len() {
                assert(self.source@.subrange(p as int, p + 1) =~= seq![self.source@[p as int]]);
                assert(seq![self.source@[p as int]][0] == self.source@[p as int]);
                assert(seq![b][0] == b);
            }
        }
        r
    }

    /// `keyword_at`, computed.
    fn keyword_exec(&self, p: usize, kw: &[u8]) -> (r: bool)
        requires
            self.wf(),
        ensures
            r == keyword_at(self.source@, p as int, kw@),
    {
        if !self.text_at_exec(p, kw) {
            return false;
        }
        let e = p + kw.len();
        match self.char_at_exec(e) {
            Some(c) => !super::basic::is_alphanumeric(c) && c != '_',
            None => e >= self.source.len(),
        }
    }

    /// `anon_start`, computed.
    fn anon_start_exec(&self, p: usize) -> (r: Option<(TypeAnonConstruct, usize)>)
        requires
            self.wf(),
        ensures
            match anon_start(self.source@, p as int) {
                Some((k, b)) => r == Some((k, b as usize)) && p < b < self.source@.len(),
                None => r is None,
            },
    {
        let ghost s = self.source@;
        let n = self.source.len();
        let data: Vec<u8> = vec![100u8, 97u8, 116u8, 97u8];
        let entity: Vec<u8> = vec![101u8, 110u8, 116u8, 105u8, 116u8, 121u8];
        let func: Vec<u8> = vec![102u8, 117u8, 110u8, 99u8];
        let view: Vec<u8> = vec![118u8, 105u8, 101u8, 119u8];
        let noblock: Vec<u8> = vec![110u8, 111u8, 98u8, 108u8, 111u8, 99u8, 107u8];
        proof {
            assert(data@ =~= seq![100u8, 97u8, 116u8, 97u8]);
            assert(entity@ =~= seq![101u8, 110u8, 116u8, 105u8, 116u8, 121u8]);
            assert(func@ =~= seq![102u8, 117u8, 110u8, 99u8]);
            assert(view@ =~= seq![118u8, 105u8, 101u8, 119u8]);
            assert(noblock@ =~= seq![110u8, 111u8, 98u8, 108u8, 111u8, 99u8, 107u8]);
        }
        let head: Option<(TypeAnonConstruct, usize)> = if self.keyword_exec(p, data.as_slice()) {
            Some((TypeAnonConstruct::Data, p + 4))
        } else if self.keyword_exec(p, entity.as_slice()) {
            Some((TypeAnonConstruct::Entity, p + 6))
        } else if self.keyword_exec(p, func.as_slice()) {
            Some((TypeAnonConstruct::Func, p + 4))
        } else if self.keyword_exec(p, view.as_slice()) {
            let q = self.skip_space_from(p + 4);
            if self.keyword_exec(q, func.as_slice()) {
                Some((TypeAnonConstruct::FuncView, q + 4))
            } else {
                return None;
            }
        } else if self.keyword_exec(p, noblock.as_slice()) {
            let q = self.skip_space_from(p + 7);
            if self.keyword_exec(q, func.as_slice()) {
                Some((TypeAnonConstruct::FuncNoblock, q + 4))
            } else {
                return None;
            }
        } else {
            None
        };
        match head {
            Some((k, e)) => {
                let b = self.skip_space_from(e);
                if b < n && self.source[b] == 123u8 {
                    Some((k, b))
                } else {
                    None
                }
            },
            None => None,
        }
    }

    /// `skip_space_bytes` from `p` to the end, computed.
    fn skip_space_from(&self, p: usize) -> (r: usize)
        requires
            self.wf(),
            p <= self.source@.len(),
        ensures
            r == skip_space_bytes(self.source@, p as int, self.source@.len() as int),
            p <= r <= self.source@.len(),
    {
        let n = self.source.len();
        let mut q = p;
        while q < n && self.source[q] == 32u8
            invariant
                self.wf(),
                n == self.source@.len(),
                p <= q <= n,
                skip_space_bytes(self.source@, p as int, n as int) == skip_space_bytes(self.source@, q as int, n as int),
            decreases n - q,
        {
            q = q + 1;
        }
        q
    }
}

/// A copy of an identifier.
fn ident_dup(i: &Ident) -> (r: Ident)
    ensures
        ident_same(r, *i),
{
    Ident { node_id: i.node_id, name: i.name.dup(), is_raw: i.is_raw }
}

/// `derived_arg_name`, computed (a copy of the name).
pub(crate) fn derive_type_arg_name(t: &Type) -> (r: Option<Ident>)
    ensures
        opt_ident_same(r, derived_arg_name(*t)),
    decreases t,
{
    match t {
        Type::Named(nm) => {
            if nm.path.len() > 0 {
                Some(ident_dup(&nm.path[nm.path.len() - 1]))
            } else {
                None
            }
        },
        Type::Nilable(n) => derive_type_arg_name(&n.inner),
        Type::EntityRef(r) => derive_type_arg_name(&r.inner),
        _ => None,
    }
}

/// Parse a type: a type without `?` (see `inner_rel`) and an optional `?`
/// making it nilable. Errors are reported in the context and an invalid
/// type is given where no type starts.
#[verifier::rlimit(40)]
pub fn parse_type(ctx: &mut ParseContext) -> (t: Type)
    requires
        type_pre(*old(ctx)),
    ensures
        type_post(*final(ctx), *old(ctx)),
        type_rel(*old(ctx), *final(ctx), t),
        id_room(*final(ctx)) <= id_room(*old(ctx)) + 1,
        final(ctx).pos > old(ctx).pos ==> id_room(*final(ctx)) <= id_room(*old(ctx)) - 1,
        !(t is Invalid) ==> final(ctx).pos > old(ctx).pos,
    decreases room(*old(ctx)), 6nat,
{
    let ghost o = *ctx;
    let start = ctx.pos;
    let inner = parse_type_inner(ctx);
    let ghost c1 = *ctx;
    let ghost gi = inner;
    if ctx.byte_is(ctx.pos, 63u8) {
        ctx.pos = ctx.pos + 1;
        let id = ctx.alloc_node_id(start, ctx.pos);
        let t = Type::Nilable(TypeNilable { node_id: id, inner: Box::new(inner) });
        proof {
            assert(pick((c1, gi)));
            assert(type_with(o, *ctx, t, c1, gi));
        }
        t
    } else {
        proof {
            assert(pick((c1, gi)));
            assert(type_with(o, *ctx, inner, c1, gi));
        }
        inner
    }
}

#[verifier::rlimit(60)]
fn parse_type_inner(ctx: &mut ParseContext) -> (t: Type)
    requires
        type_pre(*old(ctx)),
    ensures
        type_post(*final(ctx), *old(ctx)),
        inner_rel(*old(ctx), *final(ctx), t),
        id_room(*final(ctx)) <= id_room(*old(ctx)) + 1,
        final(ctx).pos > old(ctx).pos ==> id_room(*final(ctx)) <= id_room(*old(ctx)) - 1,
        !(t is Invalid) ==> final(ctx).pos > old(ctx).pos,
    decreases room(*old(ctx)), 4nat,
{
    let ghost o = *ctx;
    let ghost s = ctx.source@;
    let p = ctx.pos;
    if ctx.byte_is(p, 38u8) {
        ctx.pos = p + 1;
        proof {
            assert(*ctx == at_pos(o, p + 1));
        }
        let inner = parse_type_inner(ctx);
        let ghost c1 = *ctx;
        let ghost gi = inner;
        let id = ctx.alloc_node_id(p, ctx.pos);
        let t = Type::EntityRef(TypeEntityRef { node_id: id, inner: Box::new(inner) });
        proof {
            assert(pick((c1, gi)));
            assert(entity_ref_with(o, *ctx, t, c1, gi));
        }
        return t;
    }
    match ctx.anon_start_exec(p) {
        Some((k, b)) => {
            proof {
                lemma_skip_space_bytes_bounds(s, p as int);
            }
            ctx.pos = b;
            proof {
                assert(*ctx == at_pos(o, b as int));
            }
            let t = parse_anon_body(ctx, p, k);
            return t;
        },
        None => {},
    }
    let r1 = ctx.parse_qualified_ident();
    let ghost c1 = *ctx;
    let ghost gr1 = r1;
    proof {
        reveal(qualified_result);
    }
    match r1 {
        Err(e) => {
            ctx.add_parse_error(e);
            let ghost c2 = *ctx;
            let id = ctx.alloc_node_id(p, ctx.pos);
            let t = Type::Invalid(InvalidNode { node_id: id });
            proof {
                assert(pick((c1, gr1, c2, Seq::<TypeArgument>::empty(), c2)));
                assert(named_with(o, *ctx, t, c1, gr1, c2, Seq::empty(), c2));
            }
            t
        },
        Ok(path) => {
            let ghost gpath = path;
            let args = if ctx.byte_is(ctx.pos, 91u8) {
                parse_type_arguments(ctx)
            } else {
                Vec::new()
            };
            let ghost c2 = *ctx;
            let nid = ctx.alloc_node_id(p, ctx.pos);
            let ghost c3 = *ctx;
            let ghost gargs = args@;
            let named = TypeNamed { node_id: nid, module: None, path, type_args: args };
            let q = ctx.pos;
            let typeout: Vec<u8> = vec![64u8, 116u8, 121u8, 112u8, 101u8, 111u8, 117u8, 116u8];
            let typein: Vec<u8> = vec![64u8, 116u8, 121u8, 112u8, 101u8, 105u8, 110u8];
            let typ: Vec<u8> = vec![64u8, 116u8, 121u8, 112u8, 101u8];
            proof {
                assert(typeout@ =~= seq![64u8, 116u8, 121u8, 112u8, 101u8, 111u8, 117u8, 116u8]);
                assert(typein@ =~= seq![64u8, 116u8, 121u8, 112u8, 101u8, 105u8, 110u8]);
                assert(typ@ =~= seq![64u8, 116u8, 121u8, 112u8, 101u8]);
            }
            let op: Option<(TypeIntrospectionOp, usize)> = if ctx.text_at_exec(q, typeout.as_slice()) {
                Some((TypeIntrospectionOp::TypeOut, 8))
            } else if ctx.text_at_exec(q, typein.as_slice()) {
                Some((TypeIntrospectionOp::TypeIn, 7))
            } else if ctx.text_at_exec(q, typ.as_slice()) {
                Some((TypeIntrospectionOp::Type, 5))
            } else {
                None
            };
            let t = match op {
                Some((o2, k)) => {
                    ctx.pos = q + k;
                    let id2 = ctx.alloc_node_id(p, ctx.pos);
                    Type::Introspection(TypeIntrospection { node_id: id2, inner: named, op: o2 })
                },
                None => Type::Named(named),
            };
            proof {
                assert(pick((c1, gr1, c2, gargs, c3)));
                assert(named_with(o, *ctx, t, c1, gr1, c2, gargs, c3));
            }
            t
        },
    }
}

/// Type arguments from the `[` at the position.
#[verifier::rlimit(60)]
fn parse_type_arguments(ctx: &mut ParseContext) -> (args: Vec<TypeArgument>)
    requires
        type_pre(*old(ctx)),
        old(ctx).pos < old(ctx).source@.len(),
    ensures
        type_post(*final(ctx), *old(ctx)),
        args_rel(*old(ctx), *final(ctx), args@),
        id_room(*final(ctx)) <= id_room(*old(ctx)) - 2,
        final(ctx).pos > old(ctx).pos,
    decreases room(*old(ctx)), 3nat,
{
    let ghost o = *ctx;
    let start = ctx.pos;
    ctx.pos = start + 1;
    let ghost c1 = *ctx;
    proof {
        assert(c1 == at_pos(o, start + 1));
        lemma_trivia_pre(c1);
    }
    ctx.parse_trivia();
    let ghost c2 = *ctx;
    proof {
        lemma_trivia_room(c1, c2);
    }
    if ctx.byte_is(ctx.pos, 93u8) {
        ctx.pos = ctx.pos + 1;
        let v: Vec<TypeArgument> = Vec::new();
        proof {
            assert(pick((c2, c2, None::<TypeArgument>, Seq::<TypeArgument>::empty(), c2)));
            assert(args_with(o, *ctx, v@, c2, c2, None, Seq::empty(), c2));
        }
        return v;
    }
    let first = parse_type_argument(ctx);
    let ghost c3 = *ctx;
    let ghost gfirst = first;
    let mut args: Vec<TypeArgument> = Vec::new();
    match first {
        Some(a) => args.push(a),
        None => {},
    }
    let mut rest = parse_args_tail(ctx);
    let ghost c4 = *ctx;
    let ghost grest = rest@;
    args.append(&mut rest);
    if ctx.byte_is(ctx.pos, 93u8) {
        ctx.pos = ctx.pos + 1;
        proof {
            assert(pick((c2, c3, gfirst, grest, c4)));
            assert(args_with(o, *ctx, args@, c2, c3, gfirst, grest, c4));
        }
    } else {
        let e = ParseError::with_range((start, ctx.pos), str_chars("Expected ']'"), (start, start + 1));
        ctx.add_parse_error(e);
        proof {
            assert(error_added(*ctx, c4, e));
            assert(pick((c2, c3, gfirst, grest, c4)));
            assert(args_with(o, *ctx, args@, c2, c3, gfirst, grest, c4));
        }
    }
    args
}

/// The type arguments after the first, each after a `,`.
#[verifier::rlimit(60)]
fn parse_args_tail(ctx: &mut ParseContext) -> (rest: Vec<TypeArgument>)
    requires
        type_pre(*old(ctx)),
    ensures
        type_post(*final(ctx), *old(ctx)),
        args_tail_rel(*old(ctx), *final(ctx), rest@),
        id_room(*final(ctx)) <= id_room(*old(ctx)),
    decreases room(*old(ctx)), 3nat,
{
    let ghost o = *ctx;
    let ghost s = ctx.source@;
    let n = ctx.source.len();
    ctx.skip_sp();
    let q = ctx.pos;
    if ctx.byte_is(q, 93u8) || q >= n || !ctx.byte_is(q, 44u8) {
        return Vec::new();
    }
    ctx.pos = q + 1;
    let ghost c2 = *ctx;
    proof {
        assert(c2 == at_pos(o, q + 1));
        lemma_trivia_pre(c2);
    }
    ctx.parse_trivia();
    let ghost c3 = *ctx;
    proof {
        lemma_trivia_room(c2, c3);
    }
    if ctx.byte_is(ctx.pos, 93u8) || ctx.pos >= n {
        let v: Vec<TypeArgument> = Vec::new();
        proof {
            assert(q == skip_space_bytes(s, o.pos as int, s.len() as int));
            assert(trivia_result(at_pos(o, q + 1), c3));
            assert(c3.source == o.source);
            assert(o.pos < c3.pos);
            assert(pick((c3, c3, None::<TypeArgument>, Seq::<TypeArgument>::empty())));
            assert(tail_with(o, *ctx, v@, c3, c3, None, Seq::empty()));
        }
        return v;
    }
    let a = parse_type_argument(ctx);
    let ghost c4 = *ctx;
    let ghost ga = a;
    match a {
        Some(x) => {
            let more = parse_args_tail(ctx);
            let ghost gmore = more@;
            let mut v: Vec<TypeArgument> = Vec::new();
            v.push(x);
            let mut more = more;
            v.append(&mut more);
            proof {
                assert(v@ =~= seq![x] + gmore);
                assert(pick((c3, c4, ga, gmore)));
                assert(tail_with(o, *ctx, v@, c3, c4, ga, gmore));
            }
            v
        },
        None => {
            let v: Vec<TypeArgument> = Vec::new();
            proof {
                assert(pick((c3, c4, ga, Seq::<TypeArgument>::empty())));
                assert(tail_with(o, *ctx, v@, c3, c4, ga, Seq::empty()));
            }
            v
        },
    }
}

/// One type argument at the position.
#[verifier::rlimit(100)]
#[verifier::spinoff_prover]
fn parse_type_argument(ctx: &mut ParseContext) -> (a: Option<TypeArgument>)
    requires
        type_pre(*old(ctx)),
    ensures
        type_post(*final(ctx), *old(ctx)),
        arg_rel(*old(ctx), *final(ctx), a),
        id_room(*final(ctx)) <= id_room(*old(ctx)) + 1,
        a is Some ==> id_room(*final(ctx)) <= id_room(*old(ctx)) && final(ctx).pos > old(ctx).pos,
    decreases room(*old(ctx)), 8nat,
{
    let ghost o = *ctx;
    let ghost s = ctx.source@;
    let p = ctx.pos;
    let ty = parse_type(ctx);
    let ghost c1 = *ctx;
    let ghost gty = ty;
    let before_eq = ctx.pos;
    let spaces_before = ctx.skip_sp();
    let ghost c2 = *ctx;
    let q = ctx.pos;
    let eqeq: Vec<u8> = vec![61u8, 61u8];
    proof {
        assert(eqeq@ =~= seq![61u8, 61u8]);
    }
    if ctx.byte_is(q, 61u8) && !ctx.text_at_exec(q, eqeq.as_slice()) {
        let simple = match &ty {
            Type::Named(nm) => nm.type_args.len() == 0 && nm.path.len() == 1,
            _ => false,
        };
        let ghost mut c2e = c2;
        let name = if simple {
            match &ty {
                Type::Named(nm) => ident_dup(&nm.path[0]),
                _ => Ident { node_id: NodeId(0), name: Symbol::from_str("<unknown>"), is_raw: false },
            }
        } else {
            let e = ParseError::new((p, before_eq), str_chars("Type argument name must be a simple identifier"));
            ctx.add_parse_error(e);
            proof {
                c2e = *ctx;
                assert(error_added(c2e, c2, e));
            }
            let id = ctx.alloc_node_id(p, before_eq);
            proof {
                reveal_strlit("<unknown>");
            }
            Ident { node_id: id, name: Symbol::from_str("<unknown>"), is_raw: false }
        };
        let ghost c3 = *ctx;
        let ghost gname = name;
        let sp = ctx.spacing_error(before_eq, str_chars("Expected exactly one space before '=' in type argument"));
        if spaces_before != 1 {
            ctx.add_strict_violation(sp);
        }
        let ghost c4 = *ctx;
        proof {
            assert(c4.strict_mode_violations@.subrange(0, c3.strict_mode_violations@.len() as int) =~= c3.strict_mode_violations@);
        }
        ctx.pos = q + 1;
        let after_eq = q + 1;
        let s2 = ctx.skip_sp();
        let ghost c6 = *ctx;
        let sp2 = ctx.spacing_error(after_eq, str_chars("Expected exactly one space after '=' in type argument"));
        if s2 != 1 {
            ctx.add_strict_violation(sp2);
        }
        let ghost c7 = *ctx;
        proof {
            assert(c7.strict_mode_violations@.subrange(0, c6.strict_mode_violations@.len() as int) =~= c6.strict_mode_violations@);
            lemma_trivia_pre(c7);
        }
        ctx.parse_trivia();
        let ghost c8 = *ctx;
        proof {
            lemma_trivia_room(c7, c8);
        }
        let value = parse_type(ctx);
        let ghost c9 = *ctx;
        let ghost gvalue = value;
        let id = ctx.alloc_node_id(p, ctx.pos);
        let a = Some(TypeArgument { node_id: id, name, value });
        proof {
            assert(pick((c3, gname, c4, c7, c8, c9, gvalue)));
            assert(arg_eq_with(o, *ctx, a, c1, gty, c3, gname, c4, c7, c8, c9, gvalue));
            assert(pick((c1, gty)));
            assert(pick((c1, gty)));
                    assert(arg_with(o, *ctx, a, c1, gty));
        }
        a
    } else {
        ctx.pos = before_eq;
        proof {
            assert(*ctx == c1);
        }
        match derive_type_arg_name(&ty) {
            Some(nm) => {
                let id = ctx.alloc_node_id(p, before_eq);
                let a = Some(TypeArgument { node_id: id, name: nm, value: ty });
                proof {
                    assert(pick((c1, gty)));
                    assert(arg_with(o, *ctx, a, c1, gty));
                }
                a
            },
            None => {
                let is_invalid = match &ty {
                    Type::Invalid(_) => true,
                    _ => false,
                };
                if !is_invalid {
                    let e = ParseError::new((p, ctx.pos), str_chars("Could not derive name for type argument"));
                    ctx.add_parse_error(e);
                    proof {
                        assert(error_added(*ctx, c1, e));
                    }
                }
                proof {
                    assert(pick((c1, gty)));
                    assert(arg_with(o, *ctx, None, c1, gty));
                }
                None
            },
        }
    }
}

impl ParseContext {
    /// `skip_blank_bytes`, computed.
    fn skip_blank_from(&self, p: usize) -> (r: usize)
        requires
            self.wf(),
            p <= self.source@.len(),
        ensures
            r == skip_blank_bytes(self.source@, p as int),
            p <= r <= self.source@.len(),
    {
        let n = self.source.len();
        let mut q = p;
        while q < n && (self.source[q] == 32u8 || self.source[q] == 10u8 || self.source[q] == 13u8)
            invariant
                self.wf(),
                n == self.source@.len(),
                p <= q <= n,
                skip_blank_bytes(self.source@, p as int) == skip_blank_bytes(self.source@, q as int),
            decreases n - q,
        {
            q = q + 1;
        }
        q
    }

    /// `next_space`, computed.
    fn next_space_from(&self, p: usize) -> (r: usize)
        requires
            self.wf(),
            p <= self.source@.len(),
        ensures
            r == next_space(self.source@, p as int),
            p <= r <= self.source@.len(),
    {
        let n = self.source.len();
        let mut q = p;
        while q < n && self.source[q] != 32u8
            invariant
                self.wf(),
                n == self.source@.len(),
                p <= q <= n,
                next_space(self.source@, p as int) == next_space(self.source@, q as int),
            decreases n - q,
        {
            q = q + 1;
        }
        q
    }

    /// Whether the bytes `p..e` are exactly `lit`.
    fn word_is(&self, p: usize, e: usize, lit: &[u8]) -> (r: bool)
        requires
            self.wf(),
            p <= e <= self.source@.len(),
        ensures
            r == (self.source@.subrange(p as int, e as int) == lit@),
    {
        if e - p != lit.len() {
            proof {
                assert(self.source@.subrange(p as int, e as int).len() != lit@.len());
            }
            return false;
        }
        self.text_at_exec(p, lit)
    }
}

/// The body of an anonymous construct type from its `{` at the position.
#[verifier::rlimit(60)]
fn parse_anon_body(ctx: &mut ParseContext, start: usize, k: TypeAnonConstruct) -> (t: Type)
    requires
        type_pre(*old(ctx)),
        old(ctx).pos < old(ctx).source@.len(),
        start < old(ctx).pos,
    ensures
        type_post(*final(ctx), *old(ctx)),
        body_rel(*old(ctx), *final(ctx), t, start as int, k),
        id_room(*final(ctx)) <= id_room(*old(ctx)) - 3,
        final(ctx).pos > old(ctx).pos,
    decreases room(*old(ctx)), 3nat,
{
    let ghost o = *ctx;
    ctx.pos = ctx.pos + 1;
    ctx.indent(IndentOpener::Brace);
    let ghost c1 = *ctx;
    let fields = parse_anon_fields(ctx);
    let ghost c2 = *ctx;
    let ghost gfs = fields@;
    ctx.dedent();
    let ghost c3 = *ctx;
    proof {
        assert(c2.indent_stack@ == o.indent_stack@.push(IndentOpener::Brace));
        assert(c3.indent_stack@ =~= o.indent_stack@);
    }
    proof {
        lemma_trivia_pre(c3);
    }
    ctx.parse_trivia();
    let ghost c4 = *ctx;
    proof {
        lemma_trivia_room(c3, c4);
    }
    if ctx.byte_is(ctx.pos, 125u8) {
        ctx.pos = ctx.pos + 1;
    } else {
        let e = ctx.error_here(str_chars("Expected '}'"));
        ctx.add_parse_error(e);
        proof {
            assert(error_added(*ctx, c4, e));
        }
    }
    let ghost c5 = *ctx;
    let id = ctx.alloc_node_id(start, ctx.pos);
    let t = Type::Anon(TypeAnon { node_id: id, construct: k, fields });
    proof {
        assert(pick((c1, c2, gfs, c3, c4, c5)));
        assert(body_with(o, *ctx, t, start as int, k, c1, c2, gfs, c3, c4, c5));
    }
    t
}

/// The fields of an anonymous construct type, until its `}`.
#[verifier::rlimit(60)]
fn parse_anon_fields(ctx: &mut ParseContext) -> (fs: Vec<TypeAnonField>)
    requires
        type_pre(*old(ctx)),
    ensures
        type_post(*final(ctx), *old(ctx)),
        fields_rel(*old(ctx), *final(ctx), fs@),
        id_room(*final(ctx)) <= id_room(*old(ctx)),
    decreases room(*old(ctx)), 4nat,
{
    let ghost o = *ctx;
    let start = ctx.pos;
    let n = ctx.source.len();
    let q = ctx.skip_blank_from(ctx.pos);
    if q >= n || ctx.source[q] == 125u8 {
        return Vec::new();
    }
    proof {
        lemma_trivia_pre(o);
    }
    ctx.parse_trivia();
    let ghost c1 = *ctx;
    proof {
        lemma_trivia_room(o, c1);
    }
    if ctx.byte_is(ctx.pos, 125u8) || ctx.pos >= n {
        let v: Vec<TypeAnonField> = Vec::new();
        proof {
            assert(pick((c1, c1, None::<TypeAnonField>, c1, Seq::<TypeAnonField>::empty())));
            assert(fields_with(o, *ctx, v@, c1, c1, None, c1, Seq::empty()));
        }
        return v;
    }
    let f = parse_anon_field(ctx);
    let ghost c2 = *ctx;
    let ghost gf = f;
    match f {
        Some(x) => {
            let more = parse_anon_fields(ctx);
            let ghost gmore = more@;
            let mut v: Vec<TypeAnonField> = Vec::new();
            v.push(x);
            let mut more = more;
            v.append(&mut more);
            proof {
                assert(v@ =~= seq![x] + gmore);
                assert(pick((c1, c2, gf, c2, gmore)));
                assert(fields_with(o, *ctx, v@, c1, c2, gf, c2, gmore));
            }
            v
        },
        None => {
            let e = ParseError::new((ctx.pos, ctx.pos + 1), str_chars("Unrecognized content in anonymous type"));
            ctx.add_parse_error(e);
            let ghost c3 = *ctx;
            proof {
                assert(error_added(c3, c2, e));
            }
            ctx.skip_past_end_of_line();
            let ghost c4 = *ctx;
            proof {
                lemma_skipped_line_facts(c4, c3);
            }
            if ctx.pos > start {
                let fs = parse_anon_fields(ctx);
                proof {
                    assert(pick((c1, c2, gf, c4, Seq::<TypeAnonField>::empty())));
                    assert(fields_with(o, *ctx, fs@, c1, c2, gf, c4, Seq::empty()));
                }
                fs
            } else {
                let v: Vec<TypeAnonField> = Vec::new();
                proof {
                    assert(pick((c1, c2, gf, c4, Seq::<TypeAnonField>::empty())));
                    assert(fields_with(o, *ctx, v@, c1, c2, gf, c4, Seq::empty()));
                }
                v
            }
        },
    }
}

/// One field of an anonymous construct type at the position.
#[verifier::rlimit(100)]
fn parse_anon_field(ctx: &mut ParseContext) -> (f: Option<TypeAnonField>)
    requires
        type_pre(*old(ctx)),
    ensures
        type_post(*final(ctx), *old(ctx)),
        field_rel(*old(ctx), *final(ctx), f),
        id_room(*final(ctx)) <= id_room(*old(ctx)),
        f is Some ==> id_room(*final(ctx)) <= id_room(*old(ctx)) - 1 && final(ctx).pos > old(ctx).pos,
    decreases room(*old(ctx)), 2nat,
{
    let ghost o = *ctx;
    let ghost s = ctx.source@;
    let n = ctx.source.len();
    let p = ctx.pos;
    let e = ctx.next_space_from(p);
    let w_in: Vec<u8> = vec![105u8, 110u8];
    let w_outx: Vec<u8> = vec![111u8, 117u8, 116u8, 33u8];
    let w_out: Vec<u8> = vec![111u8, 117u8, 116u8];
    let w_inout: Vec<u8> = vec![105u8, 110u8, 111u8, 117u8, 116u8];
    proof {
        assert(w_in@ =~= seq![105u8, 110u8]);
        assert(w_outx@ =~= seq![111u8, 117u8, 116u8, 33u8]);
        assert(w_out@ =~= seq![111u8, 117u8, 116u8]);
        assert(w_inout@ =~= seq![105u8, 110u8, 111u8, 117u8, 116u8]);
    }
    let (modifier, mlen): (Option<TypeAnonFieldModifier>, usize) = if ctx.word_is(p, e, w_in.as_slice()) {
        (Some(TypeAnonFieldModifier::In), 3)
    } else if ctx.word_is(p, e, w_outx.as_slice()) {
        (Some(TypeAnonFieldModifier::OutEarly), 5)
    } else if ctx.word_is(p, e, w_out.as_slice()) {
        (Some(TypeAnonFieldModifier::Out), 4)
    } else if ctx.word_is(p, e, w_inout.as_slice()) {
        (Some(TypeAnonFieldModifier::Inout), 6)
    } else {
        (None, 0)
    };
    if mlen > 0 {
        let word = slice_subrange_bytes(ctx, p, e);
        if !ctx.keyword_exec(p, word.as_slice()) {
            return None;
        }
    }
    let ghost mut c3 = o;
    let ghost mut c1m = o;
    let ghost mut c2m = o;
    if mlen > 0 {
        let adv = if p + mlen <= n { mlen } else { n - p };
        ctx.pos = p + adv;
        let ghost c1 = *ctx;
        proof {
            c1m = c1;
        }
        let after_modifier = ctx.pos;
        proof {
            lemma_trivia_pre(c1);
        }
        let tr = ctx.parse_trivia();
        let ghost c2 = *ctx;
        proof {
            lemma_trivia_room(c1, c2);
        }
        super::source::strict_if(ctx, tr.len() != 0, (after_modifier, ctx.pos), "Expected no additional whitespace after field modifier");
        proof {
            c3 = *ctx;
            c2m = c2;
            assert(trivia_result(c1, c2));
            assert(tr@.len() == c2.pos - c1.pos);
        }
    }
    let ghost c3g = *ctx;
    let mut name_opt: Option<Ident> = None;
    let ghost mut r4: Result<Option<Ident>, ParseError> = Ok(None);
    let ghost mut c4 = c3g;
    if !ctx.byte_is(ctx.pos, 58u8) {
        let r = try_parse_ident(ctx);
        proof {
            r4 = r;
            c4 = *ctx;
            lemma_ident_outcome_advances(c3g, c4, r);
        }
        match r {
            Ok(Some(id)) => {
                name_opt = Some(id);
            },
            Ok(None) => {},
            Err(err) => {
                ctx.add_parse_error(err);
                proof {
                    assert(error_added(*ctx, c4, err));
                }
            },
        }
    }
    let ghost c5 = *ctx;
    let ghost gname = name_opt;
    proof {
        let (gm, gl) = field_modifier_at(s, p as int);
        assert(gl == mlen);
        assert(gm == modifier);
        assert(mlen == 0 ==> c3g == o);
        assert(c5.source == o.source);
        assert(p <= c5.pos <= s.len());
        if mlen > 0 {
            let pc1 = at_pos(o, if p + mlen <= s.len() { p + mlen } else { s.len() as int });
            assert(c1m == pc1);
            assert(trivia_result(pc1, c2m));
            assert(pick(c2m));
            assert(strict_step(c3g, c2m, c2m.pos != pc1.pos, (pc1.pos as int, c2m.pos as int), "Expected no additional whitespace after field modifier"@));
        }
        if !text_at(s, c3g.pos as int, seq![58u8]) {
            assert(ident_outcome(c3g, c4, r4));
            assert(pick((c4, r4)));
            match r4 {
                Err(e) => assert(error_added(c5, c4, e)),
                _ => assert(c5 == c4),
            }
            assert(gname == (match r4 {
                Ok(Some(id)) => Some(id),
                _ => None,
            }));
        }
        assert(field_head(o, c3g, c5, gname));
    }
    parse_field_tail(ctx, Ghost(o), p, modifier, name_opt)
}

/// The rest of a field after its modifier and name (see `field_tail`).
#[verifier::rlimit(100)]
#[verifier::spinoff_prover]
fn parse_field_tail(
    ctx: &mut ParseContext,
    Ghost(o): Ghost<ParseContext>,
    p: usize,
    modifier: Option<TypeAnonFieldModifier>,
    name_opt: Option<Ident>,
) -> (f: Option<TypeAnonField>)
    requires
        type_pre(*old(ctx)),
        type_pre(o),
        old(ctx).source == o.source,
        p == o.pos,
        p <= old(ctx).pos,
        modifier == field_modifier_at(o.source@, p as int).0,
        id_room(*old(ctx)) <= id_room(o) - (if name_opt is Some || modifier is Some { 3int } else { 0int }),
        modifier is None && name_opt is None ==> old(ctx).next_node_id == o.next_node_id,
        modifier is None && name_opt is None ==> old(ctx).line_start <= p,
        name_opt is Some || modifier is Some ==> old(ctx).pos > p,
    ensures
        final(ctx).wf(),
        final(ctx).source == old(ctx).source,
        final(ctx).indent_stack@ == old(ctx).indent_stack@,
        final(ctx).line_start <= final(ctx).pos,
        p <= final(ctx).pos,
        f is Some ==> old(ctx).pos <= final(ctx).pos,
        field_tail(o, *final(ctx), f, *old(ctx), name_opt),
        f is None ==> final(ctx).pos == p && id_room(*final(ctx)) <= id_room(o),
        f is Some ==> id_room(*final(ctx)) <= id_room(o) - 1 && final(ctx).pos > p,
    decreases room(*old(ctx)), 1nat,
{
    let ghost c5 = *ctx;
    let ghost gname = name_opt;
    let ghost s = ctx.source@;
    let before_colon = ctx.pos;
    let spc = ctx.skip_sp();
    let ghost c6 = *ctx;
    let q = ctx.pos;
    if !ctx.byte_is(q, 58u8) {
        if modifier.is_none() && name_opt.is_none() {
            ctx.pos = p;
            proof {
                assert(field_tail(o, *ctx, None, c5, gname));
            }
            return None;
        }
        let err = ctx.error_here(str_chars("Expected ':' in anonymous type field"));
        ctx.add_parse_error(err);
        let ghost c7 = *ctx;
        ctx.skip_past_end_of_line();
        let ghost c8 = *ctx;
        let nid = ctx.alloc_node_id(p, ctx.pos);
        let ghost c9 = *ctx;
        let iid = ctx.alloc_node_id(ctx.pos, ctx.pos);
        let f = Some(TypeAnonField {
            node_id: nid,
            modifier,
            name: name_opt,
            ty: Box::new(Type::Invalid(InvalidNode { node_id: iid })),
            has_default: false,
        });
        proof {
            lemma_skipped_line_facts(c8, c7);
            assert(error_added(c7, c6, err));
            assert(node_added(c9, c8, (p as int, c8.pos as int)));
            assert(field_tail(o, *ctx, f, c5, gname));
        }
        return f;
    }
    super::source::strict_if(ctx, name_opt.is_some() && spc != 0, (before_colon, q), "Expected no space before ':'");
    let ghost c7 = *ctx;
    ctx.pos = q + 1;
    let after_colon = q + 1;
    let s2 = ctx.skip_sp();
    let ghost c9 = *ctx;
    let sp = ctx.spacing_error(after_colon, str_chars("Expected exactly one space after ':'"));
    if s2 != 1 {
        ctx.add_strict_violation(sp);
    }
    let ghost c10 = *ctx;
    proof {
        assert(c10.strict_mode_violations@.subrange(0, c9.strict_mode_violations@.len() as int) =~= c9.strict_mode_violations@);
    }
    let ty = parse_type(ctx);
    let ghost c11 = *ctx;
    let ghost gty = ty;
    let name = match name_opt {
        Some(x) => Some(x),
        None => match &ty {
            Type::Named(nm) => if nm.type_args.len() == 0 && nm.path.len() > 0 {
                Some(ident_dup(&nm.path[nm.path.len() - 1]))
            } else {
                None
            },
            _ => None,
        },
    };
    let before_eq = ctx.pos;
    let spe = ctx.skip_sp();
    let ghost c12 = *ctx;
    let q3 = ctx.pos;
    let eqeq: Vec<u8> = vec![61u8, 61u8];
    let qqq: Vec<u8> = vec![63u8, 63u8, 63u8];
    proof {
        assert(eqeq@ =~= seq![61u8, 61u8]);
        assert(qqq@ =~= seq![63u8, 63u8, 63u8]);
    }
    let has_default = if ctx.byte_is(q3, 61u8) && !ctx.text_at_exec(q3, eqeq.as_slice()) {
        parse_eq_default(ctx, before_eq);
        true
    } else {
        ctx.pos = before_eq;
        proof {
            assert(*ctx == c11);
        }
        false
    };
    let ghost c17 = *ctx;
    proof {
        assert(id_room(c10) <= id_room(c5) - 4);
        assert(id_room(c11) <= id_room(c10) + 1);
        assert(id_room(c17) <= id_room(c11));
    }
    let nid = ctx.alloc_node_id(p, ctx.pos);
    let f = Some(TypeAnonField { node_id: nid, modifier, name, ty: Box::new(ty), has_default });
    proof {
        assert(pick((c7, c10, c11, gty, c17, has_default)));
        assert(field_typed(o, *ctx, f, c5, gname, c7, c10, c11, gty, c17, has_default));
        assert(field_tail(o, *ctx, f, c5, gname));
    }
    f
}

/// `= ???` after a field's type, from the `=` at the position (see `eq_default`).
#[verifier::rlimit(60)]
fn parse_eq_default(ctx: &mut ParseContext, before_eq: usize)
    requires
        old(ctx).wf(),
        old(ctx).line_start <= old(ctx).pos,
        before_eq <= old(ctx).pos,
        text_at(old(ctx).source@, old(ctx).pos as int, seq![61u8]),
    ensures
        final(ctx).wf(),
        final(ctx).source == old(ctx).source,
        final(ctx).indent_stack == old(ctx).indent_stack,
        final(ctx).next_node_id == old(ctx).next_node_id,
        final(ctx).line_start <= final(ctx).pos,
        old(ctx).pos < final(ctx).pos,
        exists|c13: ParseContext, c16: ParseContext| #[trigger] eq_default(
            *old(ctx),
            c13,
            c16,
            *final(ctx),
            before_eq as int,
            old(ctx).pos as int,
            skip_space_bytes(old(ctx).source@, old(ctx).pos + 1, old(ctx).source@.len() as int),
        ),
{
    let ghost c12 = *ctx;
    let ghost s = ctx.source@;
    let q3 = ctx.pos;
    super::source::strict_if(ctx, q3 - before_eq != 1, (before_eq, q3), "Expected exactly one space before '='");
    let ghost c13 = *ctx;
    ctx.pos = q3 + 1;
    let after_eq = q3 + 1;
    let s4 = ctx.skip_sp();
    let ghost q4 = ctx.pos as int;
    proof {
        assert(*ctx == at_pos(c13, q4));
    }
    super::source::strict_if(ctx, s4 != 1, (after_eq, ctx.pos), "Expected exactly one space after '='");
    let ghost c16 = *ctx;
    let qqq: Vec<u8> = vec![63u8, 63u8, 63u8];
    proof {
        assert(qqq@ =~= seq![63u8, 63u8, 63u8]);
    }
    if ctx.text_at_exec(ctx.pos, qqq.as_slice()) {
        ctx.pos = ctx.pos + 3;
    } else {
        let err = ctx.error_here(str_chars("Expected '???' after '=' in anonymous type field"));
        ctx.add_parse_error(err);
        let ghost c16e = *ctx;
        proof {
            assert(error_added(c16e, c16, err));
        }
        ctx.skip_past_end_of_line();
        proof {
            lemma_skipped_line_facts(*ctx, c16e);
        }
    }
    proof {
        assert(eq_default(c12, c13, c16, *ctx, before_eq as int, q3 as int, q4));
    }
}

/// A copy of the bytes `p..e` of the source.
fn slice_subrange_bytes(ctx: &ParseContext, p: usize, e: usize) -> (r: Vec<u8>)
    requires
        p <= e <= ctx.source@.len(),
    ensures
        r@ == ctx.source@.subrange(p as int, e as int),
{
    let mut r: Vec<u8> = Vec::new();
    let mut i = p;
    while i < e
        invariant
            p <= i <= e <= ctx.source@.len(),
            r@ == ctx.source@.subrange(p as int, i as int),
        decreases e - i,
    {
        r.push(ctx.source[i]);
        proof {
            assert(ctx.source@.subrange(p as int, i + 1) =~= ctx.source@.subrange(p as int, i as int).push(ctx.source@[i as int]));
        }
        i = i + 1;
    }
    r
}

/// The bytes `w` stand at `p` and a space right after them.
pub open spec fn word_then_space(s: Seq<u8>, p: int, w: Seq<u8>) -> bool {
    &&& 0 <= p
    &&& p + w.len() < s.len()
    &&& s.subrange(p, p + w.len()) == w
    &&& s[p + w.len()] == 32
}

/// A space-free run of bytes from `p` to a space at `p + k` ends the word
/// that `next_space` finds.
proof fn lemma_next_space_after_word(s: Seq<u8>, p: int, k: int)
    requires
        0 <= p,
        0 <= k,
        p + k < s.len(),
        s[p + k] == 32,
        forall|i: int| p <= i < p + k ==> s[i] != 32,
    ensures
        next_space(s, p) == p + k,
    decreases k,
{
    if k > 0 {
        lemma_next_space_after_word(s, p + 1, k - 1);
    }
}

/// A parsed field carries the modifier word found where it starts.
proof fn lemma_field_modifier_kept(o: ParseContext, n: ParseContext, f: Option<TypeAnonField>)
    requires
        field_rel(o, n, f),
    ensures
        f matches Some(fl) ==> fl.modifier == field_modifier_at(o.source@, o.pos as int).0,
{
    let s = o.source@;
    let p = o.pos as int;
    let (modifier, mlen) = field_modifier_at(s, p);
    if !(mlen > 0 && !keyword_at(s, p, s.subrange(p, next_space(s, p)))) {
        let (c3, c5, name) = choose|c3: ParseContext, c5: ParseContext, name: Option<Ident>| #[trigger] field_head(o, c3, c5, name)
            && field_tail(o, n, f, c5, name);
        assert(field_tail(o, n, f, c5, name));
        let q = skip_space_bytes(s, c5.pos as int, s.len() as int);
        if text_at(s, q, seq![58u8]) {
            let (c7, c10, c11, ty, c17, has_default) = choose|c7: ParseContext, c10: ParseContext, c11: ParseContext, ty: Type, c17: ParseContext, has_default: bool|
                #[trigger] pick((c7, c10, c11, ty, c17, has_default)) && field_typed(o, n, f, c5, name, c7, c10, c11, ty, c17, has_default);
            assert(field_typed(o, n, f, c5, name, c7, c10, c11, ty, c17, has_default));
        }
    }
}

/// An anonymous-type field whose leading word is `inout`, `in`, `out` or
/// `out!` (followed by a space) comes out with the modifier `Inout`, `In`,
/// `Out` or `OutEarly`.
pub proof fn lemma_anon_field_modifier_words(o: ParseContext, n: ParseContext, f: Option<TypeAnonField>)
    requires
        field_rel(o, n, f),
        f is Some,
    ensures
        word_then_space(o.source@, o.pos as int, seq![105u8, 110u8, 111u8, 117u8, 116u8]) ==> f->0.modifier == Some(TypeAnonFieldModifier::Inout),
        word_then_space(o.source@, o.pos as int, seq![105u8, 110u8]) ==> f->0.modifier == Some(TypeAnonFieldModifier::In),
        word_then_space(o.source@, o.pos as int, seq![111u8, 117u8, 116u8]) ==> f->0.modifier == Some(TypeAnonFieldModifier::Out),
        word_then_space(o.source@, o.pos as int, seq![111u8, 117u8, 116u8, 33u8]) ==> f->0.modifier == Some(TypeAnonFieldModifier::OutEarly),
{
    let s = o.source@;
    let p = o.pos as int;
    lemma_field_modifier_kept(o, n, f);
    let words: Seq<Seq<u8>> = seq![
        seq![105u8, 110u8, 111u8, 117u8, 116u8],
        seq![105u8, 110u8],
        seq![111u8, 117u8, 116u8],
        seq![111u8, 117u8, 116u8, 33u8],
    ];
    assert forall|j: int| 0 <= j < 4 && word_then_space(s, p, #[trigger] words[j]) implies
        next_space(s, p) == p + words[j].len() && s.subrange(p, next_space(s, p)) == words[j] by {
        let w = words[j];
        assert forall|i: int| p <= i < p + w.len() implies s[i] != 32 by {
            assert(s[i] == s.subrange(p, p + w.len())[i - p]);
        }
        lemma_next_space_after_word(s, p, w.len() as int);
    }
    assert(words[0] == seq![105u8, 110u8, 111u8, 117u8, 116u8]);
    assert(words[1] == seq![105u8, 110u8]);
    assert(words[2] == seq![111u8, 117u8, 116u8]);
    assert(words[3] == seq![111u8, 117u8, 116u8, 33u8]);
}

/// A field whose leading word (followed by a space) is none of `in`, `out`,
/// `out!` and `inout` comes out with no modifier.
pub proof fn lemma_anon_field_other_word_no_modifier(o: ParseContext, n: ParseContext, f: Option<TypeAnonField>, w: Seq<u8>)
    requires
        field_rel(o, n, f),
        f is Some,
        word_then_space(o.source@, o.pos as int, w),
        forall|i: int| 0 <= i < w.len() ==> w[i] != 32,
        w != seq![105u8, 110u8],
        w != seq![111u8, 117u8, 116u8],
        w != seq![111u8, 117u8, 116u8, 33u8],
        w != seq![105u8, 110u8, 111u8, 117u8, 116u8],
    ensures
        f->0.modifier is None,
{
    let s = o.source@;
    let p = o.pos as int;
    lemma_field_modifier_kept(o, n, f);
    assert forall|i: int| p <= i < p + w.len() implies s[i] != 32 by {
        assert(s[i] == s.subrange(p, p + w.len())[i - p]);
        assert(w[i - p] != 32);
    }
    lemma_next_space_after_word(s, p, w.len() as int);
}

} // verus!
