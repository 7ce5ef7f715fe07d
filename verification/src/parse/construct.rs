use vstd::prelude::*;

use crate::model::symbol::{push_chars, str_chars};
use crate::model::{Field, FieldKind, FieldVarModifier, Ident, NodeId, Symbol, Type};
use vstd::slice::slice_subrange;
use vstd::utf8::{decode_utf8, encode_utf8_decode_utf8, valid_utf8};

use super::basic::{char_alphanumeric, char_at, char_at_bytes, ident_outcome, is_alphanumeric, lemma_ident_outcome_advances, try_parse_ident};
use super::source::{at_pos, strict_step};
use super::trivia::{hash_count, lemma_pushed_trans, pushed, str_of_utf8, trivia_result};
use super::types::{derived_arg_name, opt_ident_same, error_added, here_err, id_room, lemma_trivia_pre, lemma_trivia_room, next_space, node_added, pick, plain_err};
use super::{ParseContext, ParseError};

verus! {

/// The spans of the modifiers before a construct keyword: `out`, `builtin`,
/// and `view` or `noblock`.
#[derive(Debug, Clone, Copy)]
pub struct ConstructModifiers {
    pub out: Option<(usize, usize)>,
    pub builtin: Option<(usize, usize)>,
    pub view: Option<(usize, usize)>,
    pub noblock: Option<(usize, usize)>,
}

/// The header of a construct: its modifiers, keyword and name, with the
/// errors met parsing them.
#[derive(Debug)]
pub struct ConstructHeader {
    pub modifiers: ConstructModifiers,
    pub keyword: Vec<char>,
    pub keyword_span: (usize, usize),
    pub name: Ident,
    pub errors: Vec<ParseError>,
}

/// What `expect_open_brace` does from `o`, leaving `n` and giving `r`: after
/// spaces, a `{` (a violation unless exactly one space came before it); or
/// an error there, and the rest of the line skipped.
pub open spec fn open_brace_outcome(o: ParseContext, n: ParseContext, r: bool, construct_name: Seq<char>) -> bool {
    let s = o.source@;
    let q = super::context::skip_space_bytes(s, o.pos as int, s.len() as int);
    let c1 = at_pos(o, q);
    if q < s.len() && s[q] == 123 {
        &&& r
        &&& strict_step(n, c1, q - o.pos != 1, (o.pos as int, q), "Expected exactly one space before '{'"@)
    } else {
        &&& !r
        &&& exists|c2: ParseContext, e: ParseError| {
            &&& #[trigger] pick((c2, e))
            &&& here_err(e, c1, "Expected '{' in "@ + construct_name)
            &&& error_added(c2, c1, e)
            &&& n.skipped_line(&c2)
        }
    }
}

/// Expect `{` after spaces on the current line (see `open_brace_outcome`).
pub fn expect_open_brace(ctx: &mut ParseContext, construct_name: &str) -> (r: bool)
    requires
        old(ctx).wf(),
        old(ctx).line_start <= old(ctx).pos,
    ensures
        final(ctx).wf(),
        open_brace_outcome(*old(ctx), *final(ctx), r, construct_name@),
{
    let ghost o = *ctx;
    let after_name = ctx.pos;
    let spaces = ctx.skip_spaces();
    proof {
        super::types::lemma_skip_space_bytes_is(o.source@, o.pos as int, ctx.pos as int);
        assert(*ctx == at_pos(o, ctx.pos as int));
    }
    let ghost c1 = *ctx;
    if ctx.pos < ctx.source.len() && ctx.source[ctx.pos] == 123u8 {
        super::source::strict_if(ctx, spaces != 1, (after_name, ctx.pos), "Expected exactly one space before '{'");
        true
    } else {
        let mut m = str_chars("Expected '{' in ");
        let name = str_chars(construct_name);
        push_chars(&mut m, name.as_slice());
        let e = ctx.error_here(m);
        ctx.add_parse_error(e);
        let ghost c2 = *ctx;
        proof {
            assert(error_added(c2, c1, e));
        }
        ctx.skip_past_end_of_line();
        proof {
            assert(pick((c2, e)));
        }
        false
    }
}

/// The message for a missing space after a construct keyword.
pub open spec fn keyword_space_message(kw: Seq<char>) -> Seq<char> {
    "Expected exactly one space after '"@ + kw + "'"@
}

/// The message for a missing construct name.
pub open spec fn missing_name_message(kw: Seq<char>) -> Seq<char> {
    "Expected identifier after '"@ + kw + "'"@
}

/// What `parse_construct_header` does from `o` (leaving `n`, giving `h`):
/// the keyword (up to the next space), trivia (a violation unless it was one
/// space), then the name; where no name parses, the error is kept in the
/// header and the name is `<unknown>` with an empty span where it was expected.
pub open spec fn header_outcome(o: ParseContext, n: ParseContext, h: ConstructHeader, m: ConstructModifiers) -> bool {
    let s = o.source@;
    let p = o.pos as int;
    let e = next_space(s, p);
    let w = s.subrange(p, e);
    let kw = h.keyword@;
    &&& h.modifiers == m
    &&& h.keyword_span == (p as usize, e as usize)
    &&& (valid_utf8(w) ==> kw == decode_utf8(w))
    &&& exists|c2: ParseContext, c3: ParseContext, c4: ParseContext, r4: Result<Option<Ident>, ParseError>| {
        &&& #[trigger] pick((c2, c3, c4, r4))
        &&& trivia_result(at_pos(o, e), c2)
        &&& strict_step(c3, c2, !(c2.pos == e + 1 && e < s.len() && s[e] == 32), (e, c2.pos as int), keyword_space_message(kw))
        &&& ident_outcome(c3, c4, r4)
        &&& match r4 {
            Ok(Some(id)) => h.name == id && h.errors@.len() == 0 && n == c4,
            _ => {
                &&& h.errors@.len() == 1
                &&& match r4 {
                    Err(er) => h.errors@[0] == er,
                    _ => here_err(h.errors@[0], c4, missing_name_message(kw)),
                }
                &&& h.name.node_id == NodeId(c4.next_node_id) && h.name.name@ == "<unknown>"@ && !h.name.is_raw
                &&& node_added(n, c4, (c4.pos as int, c4.pos as int))
            },
        }
    }
}

/// Parse a construct's keyword and name after its modifiers (see `header_outcome`).
#[verifier::rlimit(60)]
pub fn parse_construct_header(ctx: &mut ParseContext, modifiers: ConstructModifiers) -> (h: ConstructHeader)
    requires
        old(ctx).wf(),
        old(ctx).line_start <= old(ctx).pos,
        old(ctx).indent_stack@.len() * 4 < usize::MAX,
        id_room(*old(ctx)) + 8 < u32::MAX,
    ensures
        final(ctx).wf(),
        header_outcome(*old(ctx), *final(ctx), h, modifiers),
{
    let ghost o = *ctx;
    let ghost s = ctx.source@;
    let keyword_start = ctx.pos;
    let n = ctx.source.len();
    let mut e = keyword_start;
    while e < n && ctx.source[e] != 32u8
        invariant
            ctx.wf(),
            *ctx == o,
            n == s.len(),
            s == ctx.source@,
            keyword_start <= e <= n,
            next_space(s, keyword_start as int) == next_space(s, e as int),
        decreases n - e,
    {
        e = e + 1;
    }
    let bytes = slice_subrange(ctx.source.as_slice(), keyword_start, e);
    let keyword = match str_of_utf8(bytes) {
        Some(st) => {
            proof {
                encode_utf8_decode_utf8(st@);
            }
            str_chars(st)
        },
        None => Vec::new(),
    };
    ctx.pos = e;
    let ghost c1 = *ctx;
    proof {
        assert(c1 == at_pos(o, e as int));
        super::trivia::lemma_hash_count_mono(s, keyword_start as int, e as int);
        lemma_trivia_pre(c1);
    }
    let tr = ctx.parse_trivia();
    let ghost c2 = *ctx;
    proof {
        lemma_trivia_room(c1, c2);
    }
    let one_space = tr.len() == 1 && tr[0] == 32u8;
    proof {
        if tr@.len() == 1 {
            assert(tr@[0] == s[e as int]);
        }
    }
    let mut m = str_chars("Expected exactly one space after '");
    push_chars(&mut m, keyword.as_slice());
    let tail = str_chars("'");
    push_chars(&mut m, tail.as_slice());
    if !one_space {
        let er = ParseError::new((e, ctx.pos), m);
        let ghost before = ctx.strict_mode_violations@;
        ctx.add_strict_violation(er);
        proof {
            assert(ctx.strict_mode_violations@.subrange(0, before.len() as int) =~= before);
        }
    } else {
        proof {
            assert(ctx.strict_mode_violations@.subrange(0, ctx.strict_mode_violations@.len() as int)
                =~= ctx.strict_mode_violations@);
        }
    }
    let ghost c3 = *ctx;
    let r = try_parse_ident(ctx);
    let ghost c4 = *ctx;
    let ghost r4 = r;
    proof {
        lemma_ident_outcome_advances(c3, c4, r);
        reveal_strlit("<unknown>");
    }
    let mut errors: Vec<ParseError> = Vec::new();
    let name = match r {
        Ok(Some(ident)) => ident,
        Ok(None) => {
            let mut msg = str_chars("Expected identifier after '");
            push_chars(&mut msg, keyword.as_slice());
            let tail2 = str_chars("'");
            push_chars(&mut msg, tail2.as_slice());
            errors.push(ctx.error_here(msg));
            let id = ctx.alloc_node_id(ctx.pos, ctx.pos);
            Ident { node_id: id, name: Symbol::from_str("<unknown>"), is_raw: false }
        },
        Err(err) => {
            errors.push(err);
            let id = ctx.alloc_node_id(ctx.pos, ctx.pos);
            Ident { node_id: id, name: Symbol::from_str("<unknown>"), is_raw: false }
        },
    };
    let h = ConstructHeader { modifiers, keyword, keyword_span: (keyword_start, e), name, errors };
    proof {
        assert(pick((c2, c3, c4, r4)));
    }
    h
}


/// `s` starts with the (ASCII) keyword `kw`, and no letter, digit or `_`
/// follows it.
pub open spec fn keyword_at(s: Seq<u8>, kw: Seq<char>) -> bool {
    &&& kw.len() <= s.len()
    &&& forall|i: int| 0 <= i < kw.len() ==> s[i] as char == kw[i]
    &&& match char_at(s, kw.len() as int) {
        None => true,
        Some(c) => !char_alphanumeric(c) && c != '_',
    }
}

/// Whether the keyword `keyword` starts `remaining` as a whole word (see
/// `keyword_at`).
pub fn starts_with_keyword(remaining: &[u8], keyword: &str) -> (r: bool)
    requires
        forall|i: int| 0 <= i < keyword@.len() ==> (keyword@[i] as u32) < 128,
    ensures
        r == keyword_at(remaining@, keyword@),
{
    let kw = str_chars(keyword);
    let k = kw.len();
    if k > remaining.len() {
        return false;
    }
    let mut i: usize = 0;
    while i < k
        invariant
            kw@ == keyword@,
            k == kw@.len(),
            k <= remaining@.len(),
            i <= k,
            forall|j: int| 0 <= j < i ==> remaining@[j] as char == kw@[j],
        decreases k - i,
    {
        if remaining[i] as char != kw[i] {
            return false;
        }
        i = i + 1;
    }
    match char_at_bytes(remaining, k) {
        None => true,
        Some(c) => !is_alphanumeric(c) && c != '_',
    }
}

/// From `o`, trivia that should be exactly one space, leaving `n`: a
/// violation with `msg` over the trivia otherwise.
pub open spec fn spaced_after(o: ParseContext, n: ParseContext, msg: Seq<char>) -> bool {
    let s = o.source@;
    let p = o.pos as int;
    exists|c: ParseContext| {
        &&& #[trigger] pick(c)
        &&& trivia_result(o, c)
        &&& strict_step(n, c, !(c.pos == p + 1 && p < s.len() && s[p] == 32), (p, c.pos as int), msg)
    }
}

/// The message for trivia after a modifier that is not one space.
pub open spec fn modifier_space_message(kw: Seq<char>) -> Seq<char> {
    "Expected exactly one space after '"@ + kw + "'"@
}

/// The optional `out` modifier at `o` (not `out!`, a field modifier).
pub open spec fn out_step(o: ParseContext, n: ParseContext, r: Option<(usize, usize)>) -> bool {
    let s = o.source@;
    let p = o.pos as int;
    if keyword_at(o.rest(), "out"@) && !(p + 3 < s.len() && s[p + 3] == 33) {
        &&& r == Some((p as usize, (p + 3) as usize))
        &&& spaced_after(at_pos(o, p + 3), n, modifier_space_message("out"@))
    } else {
        r is None && n == o
    }
}

/// The message for `builtin` where the project does not allow it.
pub open spec fn builtin_message() -> Seq<char> {
    "'builtin' requires allow_builtin = true in duralade.toml"@
}

/// The optional `builtin` modifier at `o`, an error unless `allow_builtin`.
pub open spec fn builtin_step(o: ParseContext, n: ParseContext, r: Option<(usize, usize)>, allow_builtin: bool) -> bool {
    let p = o.pos as int;
    if keyword_at(o.rest(), "builtin"@) {
        &&& r == Some((p as usize, (p + 7) as usize))
        &&& exists|c: ParseContext| {
            &&& #[trigger] pick(c)
            &&& if allow_builtin {
                c == at_pos(o, p + 7)
            } else {
                &&& c == (ParseContext { parse_errors: c.parse_errors, ..at_pos(o, p + 7) })
                &&& c.parse_errors@.len() == o.parse_errors@.len() + 1
                &&& c.parse_errors@.drop_last() == o.parse_errors@
                &&& plain_err(c.parse_errors@.last(), (p, p + 7), builtin_message())
            }
            &&& spaced_after(c, n, modifier_space_message("builtin"@))
        }
    } else {
        r is None && n == o
    }
}

/// The optional `view` or `noblock` modifier at `o`.
pub open spec fn view_step(o: ParseContext, n: ParseContext, view: Option<(usize, usize)>, noblock: Option<(usize, usize)>) -> bool {
    let p = o.pos as int;
    if keyword_at(o.rest(), "view"@) {
        &&& view == Some((p as usize, (p + 4) as usize))
        &&& noblock is None
        &&& spaced_after(at_pos(o, p + 4), n, modifier_space_message("view"@))
    } else if keyword_at(o.rest(), "noblock"@) {
        &&& view is None
        &&& noblock == Some((p as usize, (p + 7) as usize))
        &&& spaced_after(at_pos(o, p + 7), n, modifier_space_message("noblock"@))
    } else {
        view is None && noblock is None && n == o
    }
}

/// What `parse_modifiers` does from `o`, leaving `n` and giving `m`:
/// `[out] [builtin] [view|noblock]`, each followed by one space.
pub open spec fn modifiers_outcome(o: ParseContext, n: ParseContext, m: ConstructModifiers, allow_builtin: bool) -> bool {
    exists|c1: ParseContext, c2: ParseContext| {
        &&& #[trigger] pick((c1, c2))
        &&& out_step(o, c1, m.out)
        &&& builtin_step(c1, c2, m.builtin, allow_builtin)
        &&& view_step(c2, n, m.view, m.noblock)
    }
}

/// What the modifier parse asks of a context: room for trivia.
pub open spec fn modifier_pre(c: ParseContext) -> bool {
    &&& c.wf()
    &&& c.line_start <= c.pos
    &&& c.indent_stack@.len() * 4 < usize::MAX
    &&& c.next_node_id + 2 * hash_count(c.source@, c.pos as int) + 2 < u32::MAX
}

/// Skip a modifier keyword of `len` bytes and the trivia after it (see `spaced_after`).
fn skip_modifier(ctx: &mut ParseContext, len: usize, msg: &str)
    requires
        modifier_pre(*old(ctx)),
        old(ctx).pos + len <= old(ctx).source@.len(),
    ensures
        modifier_pre(*final(ctx)),
        spaced_after(at_pos(*old(ctx), old(ctx).pos + len), *final(ctx), msg@),
        final(ctx).next_node_id + 2 * hash_count(final(ctx).source@, final(ctx).pos as int)
            <= old(ctx).next_node_id + 2 * hash_count(old(ctx).source@, old(ctx).pos as int),
{
    proof {
        super::trivia::lemma_hash_count_mono(ctx.source@, ctx.pos as int, ctx.pos + len);
    }
    ctx.pos = ctx.pos + len;
    trivia_then_space_check(ctx, msg);
}

/// Trivia that should be one space, from the position (see `spaced_after`).
fn trivia_then_space_check(ctx: &mut ParseContext, msg: &str)
    requires
        modifier_pre(*old(ctx)),
    ensures
        modifier_pre(*final(ctx)),
        spaced_after(*old(ctx), *final(ctx), msg@),
        final(ctx).next_node_id + 2 * hash_count(final(ctx).source@, final(ctx).pos as int)
            <= old(ctx).next_node_id + 2 * hash_count(old(ctx).source@, old(ctx).pos as int),
{
    let ghost o = *ctx;
    let ghost s = ctx.source@;
    let after = ctx.pos;
    let tr = ctx.parse_trivia();
    let ghost c = *ctx;
    let one_space = tr.len() == 1 && tr[0] == 32u8;
    proof {
        if tr@.len() == 1 {
            assert(tr@[0] == s[after as int]);
        }
    }
    super::source::strict_if(ctx, !one_space, (after, ctx.pos), msg);
    proof {
        assert(pick(c));
    }
}

/// Parse the modifiers before a construct keyword: `[out] [builtin]
/// [view|noblock]`, each followed by exactly one space (see
/// `modifiers_outcome`); `builtin` is an error unless `allow_builtin`.
#[verifier::rlimit(60)]
pub fn parse_modifiers(ctx: &mut ParseContext, allow_builtin: bool) -> (m: ConstructModifiers)
    requires
        modifier_pre(*old(ctx)),
    ensures
        modifier_pre(*final(ctx)),
        modifiers_outcome(*old(ctx), *final(ctx), m, allow_builtin),
{
    proof {
        reveal_strlit("out");
        reveal_strlit("builtin");
        reveal_strlit("view");
        reveal_strlit("noblock");
        reveal_strlit("Expected exactly one space after '");
        reveal_strlit("'");
    }
    let ghost o = *ctx;
    let out = if starts_with_keyword(ctx.remaining(), "out")
        && !(ctx.pos + 3 < ctx.source.len() && ctx.source[ctx.pos + 3] == 33u8) {
        let start = ctx.pos;
        skip_modifier(ctx, 3, "Expected exactly one space after 'out'");
        Some((start, start + 3))
    } else {
        None
    };
    let ghost c1 = *ctx;
    proof {
        reveal_strlit("Expected exactly one space after 'out'");
        reveal_strlit("'");
        assert(modifier_space_message("out"@) =~= "Expected exactly one space after 'out'"@);
        assert(out_step(o, c1, out));
    }
    let builtin = if starts_with_keyword(ctx.remaining(), "builtin") {
        let start = ctx.pos;
        proof {
            super::trivia::lemma_hash_count_mono(ctx.source@, ctx.pos as int, ctx.pos + 7);
        }
        ctx.pos = ctx.pos + 7;
        if !allow_builtin {
            let e = ParseError::new((start, start + 7), str_chars("'builtin' requires allow_builtin = true in duralade.toml"));
            ctx.add_parse_error(e);
            proof {
                assert(ctx.parse_errors@.drop_last() =~= c1.parse_errors@);
            }
        }
        let ghost cb = *ctx;
        trivia_then_space_check(ctx, "Expected exactly one space after 'builtin'");
        proof {
            reveal_strlit("Expected exactly one space after 'builtin'");
            assert(modifier_space_message("builtin"@) =~= "Expected exactly one space after 'builtin'"@);
            assert(pick(cb));
        }
        Some((start, start + 7))
    } else {
        None
    };
    let ghost c2 = *ctx;
    proof {
        assert(builtin_step(c1, c2, builtin, allow_builtin));
    }
    let (view, noblock) = if starts_with_keyword(ctx.remaining(), "view") {
        let start = ctx.pos;
        skip_modifier(ctx, 4, "Expected exactly one space after 'view'");
        proof {
            reveal_strlit("Expected exactly one space after 'view'");
            assert(modifier_space_message("view"@) =~= "Expected exactly one space after 'view'"@);
        }
        (Some((start, start + 4)), None)
    } else if starts_with_keyword(ctx.remaining(), "noblock") {
        let start = ctx.pos;
        skip_modifier(ctx, 7, "Expected exactly one space after 'noblock'");
        proof {
            reveal_strlit("Expected exactly one space after 'noblock'");
            assert(modifier_space_message("noblock"@) =~= "Expected exactly one space after 'noblock'"@);
        }
        (None, Some((start, start + 7)))
    } else {
        (None, None)
    };
    let m = ConstructModifiers { out, builtin, view, noblock };
    proof {
        assert(view_step(c2, *ctx, view, noblock));
        assert(pick((c1, c2)));
    }
    m
}


/// The name a shorthand `:type` field takes from its type: the last segment
/// of a named type, through `?` and `&` (see `derived_arg_name`).
pub fn derive_field_name(ty: &Type) -> (r: Option<Ident>)
    ensures
        opt_ident_same(r, derived_arg_name(*ty)),
{
    super::types::derive_type_arg_name(ty)
}


/// The ids a field's checks read spans of: a variable's own and, where it
/// has one, its default's.
pub open spec fn field_ids_known(f: Field, ranges: Seq<(usize, usize)>) -> bool {
    f.kind matches FieldKind::Var(v) ==> {
        &&& (v.node_id.0 as int) < ranges.len()
        &&& (v.default matches Some(d) ==> (d.spec_node_id().0 as int) < ranges.len())
    }
}

/// What an extern or native construct reports of one of its fields: an
/// `implicit` or `value` variable is not allowed, and an `out` one may not
/// have a default.
pub open spec fn extern_field_reports(ranges: Seq<(usize, usize)>, f: Field, name: Seq<char>) -> Seq<((usize, usize), Seq<char>)> {
    match f.kind {
        FieldKind::Var(v) => match v.modifier {
            FieldVarModifier::Implicit => seq![(ranges[v.node_id.0 as int], "'implicit' field is not allowed in "@ + name)],
            FieldVarModifier::Value => seq![(ranges[v.node_id.0 as int], "'value' field is not allowed in "@ + name)],
            FieldVarModifier::Out => match v.default {
                Some(d) => seq![(ranges[d.spec_node_id().0 as int], "'out' field in "@ + name + " cannot have default expression"@)],
                None => Seq::empty(),
            },
            _ => Seq::empty(),
        },
        _ => Seq::empty(),
    }
}

/// What an extern or native construct reports of its fields, in order.
pub open spec fn extern_reports(ranges: Seq<(usize, usize)>, fs: Seq<Field>, name: Seq<char>) -> Seq<((usize, usize), Seq<char>)>
    decreases fs.len(),
{
    if fs.len() == 0 {
        Seq::empty()
    } else {
        extern_reports(ranges, fs.drop_last(), name) + extern_field_reports(ranges, fs.last(), name)
    }
}

/// Check the fields of an extern or native construct named `construct_name`
/// (see `extern_reports`); only errors are added.
pub fn validate_extern_or_native_fields(ctx: &mut ParseContext, fields: &Vec<Field>, construct_name: &str)
    requires
        forall|k: int| 0 <= k < fields@.len() ==> field_ids_known(#[trigger] fields@[k], old(ctx).node_ranges@),
    ensures
        pushed(final(ctx).parse_errors@, old(ctx).parse_errors@, extern_reports(old(ctx).node_ranges@, fields@, construct_name@)),
        *final(ctx) == (ParseContext { parse_errors: final(ctx).parse_errors, ..*old(ctx) }),
{
    let ghost o = *ctx;
    let ghost ranges = ctx.node_ranges@;
    let ghost name = construct_name@;
    proof {
        assert(fields@.take(0) =~= Seq::<Field>::empty());
        assert(o.parse_errors@.subrange(0, o.parse_errors@.len() as int) =~= o.parse_errors@);
    }
    let mut k: usize = 0;
    while k < fields.len()
        invariant
            k <= fields@.len(),
            ranges == o.node_ranges@,
            name == construct_name@,
            forall|j: int| 0 <= j < fields@.len() ==> field_ids_known(#[trigger] fields@[j], ranges),
            *ctx == (ParseContext { parse_errors: ctx.parse_errors, ..o }),
            pushed(ctx.parse_errors@, o.parse_errors@, extern_reports(ranges, fields@.take(k as int), name)),
        decreases fields@.len() - k,
    {
        let ghost before = ctx.parse_errors@;
        let ghost c0 = *ctx;
        let field = &fields[k];
        assert(field_ids_known(fields@[k as int], ranges));
        match &field.kind {
            FieldKind::Var(var) => {
                match var.modifier {
                    FieldVarModifier::Implicit => {
                        let mut m = str_chars("'implicit' field is not allowed in ");
                        let nm = str_chars(construct_name);
                        push_chars(&mut m, nm.as_slice());
                        let e = ParseError::new(ctx.node_span(var.node_id), m);
                        ctx.add_parse_error(e);
                    },
                    FieldVarModifier::Value => {
                        let mut m = str_chars("'value' field is not allowed in ");
                        let nm = str_chars(construct_name);
                        push_chars(&mut m, nm.as_slice());
                        let e = ParseError::new(ctx.node_span(var.node_id), m);
                        ctx.add_parse_error(e);
                    },
                    FieldVarModifier::Out => {
                        match &var.default {
                            Some(default_expr) => {
                                let mut m = str_chars("'out' field in ");
                                let nm = str_chars(construct_name);
                                push_chars(&mut m, nm.as_slice());
                                let tail = str_chars(" cannot have default expression");
                                push_chars(&mut m, tail.as_slice());
                                let id = default_expr.node_id();
                                let e = ParseError::new(ctx.node_span(id), m);
                                ctx.add_parse_error(e);
                            },
                            None => {},
                        }
                    },
                    _ => {},
                }
            },
            _ => {},
        }
        proof {
            let step = extern_field_reports(ranges, fields@[k as int], name);
            assert(fields@.take(k + 1).drop_last() =~= fields@.take(k as int));
            assert(fields@.take(k + 1).last() == fields@[k as int]);
            assert(ctx.parse_errors@.subrange(0, before.len() as int) =~= before);
            if step.len() == 1 {
                assert(ctx.parse_errors@[before.len() as int] == ctx.parse_errors@.last());
            }
            lemma_pushed_trans(o.parse_errors@, before, ctx.parse_errors@, extern_reports(ranges, fields@.take(k as int), name), step);
        }
        k = k + 1;
    }
    proof {
        assert(fields@.take(fields@.len() as int) =~= fields@);
    }
}

} // verus!
