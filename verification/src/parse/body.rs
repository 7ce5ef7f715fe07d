use vstd::prelude::*;

use crate::model::{Field, FieldKind, Ident};

use super::ParseContext;

verus! {

/// The name a field declares: that of a variable or an intype; none for an
/// invalid field.
pub open spec fn declared_name(f: Field) -> Option<Ident> {
    match f.kind {
        FieldKind::Var(v) => Some(v.name),
        FieldKind::Intype(i) => Some(i.name),
        FieldKind::Invalid(_) => None,
    }
}

/// The name a field declares (see `declared_name`).
pub fn field_name(field: &Field) -> (r: Option<&Ident>)
    ensures
        match declared_name(*field) {
            Some(i) => r matches Some(j) && *j == i,
            None => r is None,
        },
{
    match &field.kind {
        FieldKind::Var(v) => Some(&v.name),
        FieldKind::Intype(i) => Some(&i.name),
        FieldKind::Invalid(_) => None,
    }
}

/// The first byte from `q` that is not a space or a line-break byte.
pub open spec fn skip_blank_bytes(s: Seq<u8>, q: int) -> int
    decreases s.len() - q,
{
    if q < 0 || q >= s.len() {
        q
    } else if s[q] == 32 || s[q] == 10 || s[q] == 13 {
        skip_blank_bytes(s, q + 1)
    } else {
        q
    }
}

/// Past spaces and line breaks from `p`: the end of the text or a `}`.
pub open spec fn body_end_at(s: Seq<u8>, p: int) -> bool {
    let q = skip_blank_bytes(s, p);
    q >= s.len() || s[q] == 125
}

/// Whether only spaces and line breaks stand before the end of the text or
/// a `}` (see `body_end_at`); nothing is consumed.
pub fn at_body_end(ctx: &ParseContext) -> (r: bool)
    requires
        ctx.wf(),
    ensures
        r == body_end_at(ctx.source@, ctx.pos as int),
{
    let n = ctx.source.len();
    let mut q = ctx.pos;
    while q < n && (ctx.source[q] == 32u8 || ctx.source[q] == 10u8 || ctx.source[q] == 13u8)
        invariant
            ctx.wf(),
            n == ctx.source@.len(),
            ctx.pos <= q <= n,
            skip_blank_bytes(ctx.source@, ctx.pos as int) == skip_blank_bytes(ctx.source@, q as int),
        decreases n - q,
    {
        q = q + 1;
    }
    q >= n || ctx.source[q] == 125u8
}

} // verus!
