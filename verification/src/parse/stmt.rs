use vstd::prelude::*;

use crate::model::symbol::str_chars;
use crate::model::{Ident, NodeId, Symbol};

use super::basic::{ident_outcome, try_parse_ident};
use super::construct::{keyword_at, starts_with_keyword};
use super::context::skip_space_bytes;
use super::literals::{starts1, starts2};
use super::source::{at_pos, qualified_result, strict_if, strict_step};
use super::types::{error_added, lemma_skip_space_bytes_is, node_added, pick, plain_err};
use super::{ParseContext, ParseError};

verus! {

/// What `parse_label` does from `o`, leaving `n` and giving `r`: a `:` after
/// spaces (a violation if there were any), spaces (a violation if a label
/// follows them) and the label's name; nothing where no `:` follows.
pub open spec fn label_outcome(o: ParseContext, n: ParseContext, r: Option<Ident>) -> bool {
    let s = o.source@;
    let before = o.pos as int;
    let q = skip_space_bytes(s, before, s.len() as int);
    if !(q < s.len() && s[q] == 58) {
        r is None && n == o
    } else {
        let q2 = skip_space_bytes(s, q + 1, s.len() as int);
        exists|c1: ParseContext, c3: ParseContext, r3: Result<Option<Ident>, ParseError>| {
            &&& #[trigger] pick((c1, c3, r3))
            &&& strict_step(c1, at_pos(o, q), q > before, (before, q + 1), "No space allowed before ':' in label"@)
            &&& ident_outcome(at_pos(c1, q2), c3, r3)
            &&& match r3 {
                Ok(Some(id)) => {
                    &&& r == Some(id)
                    &&& strict_step(n, c3, q2 > q + 1, (q, q2), "No space allowed after ':' in label"@)
                },
                Ok(None) => {
                    &&& r is None
                    &&& error_added(n, c3, n.parse_errors@.last())
                    &&& plain_err(n.parse_errors@.last(), (q, q + 1), "Expected label name after ':'"@)
                },
                Err(e) => r is None && error_added(n, c3, e),
            }
        }
    }
}

/// Parse an optional `:label` after `for`, `break` or `continue` (see
/// `label_outcome`): the colon comes right after the keyword and the name
/// right after the colon, in strict mode.
pub fn parse_label(ctx: &mut ParseContext) -> (r: Option<Ident>)
    requires
        old(ctx).wf(),
        old(ctx).next_node_id < u32::MAX,
    ensures
        final(ctx).wf(),
        label_outcome(*old(ctx), *final(ctx), r),
{
    let ghost o = *ctx;
    let ghost s = ctx.source@;
    let before = ctx.pos;
    let spaces = ctx.skip_spaces();
    proof {
        lemma_skip_space_bytes_is(s, before as int, ctx.pos as int);
        assert(*ctx == at_pos(o, ctx.pos as int));
    }
    if !(ctx.pos < ctx.source.len() && ctx.source[ctx.pos] == 58u8) {
        ctx.set_pos(before);
        proof {
            assert(*ctx == o);
        }
        return None;
    }
    let colon_pos = ctx.pos;
    strict_if(ctx, spaces > 0, (before, ctx.pos + 1), "No space allowed before ':' in label");
    let ghost c1 = *ctx;
    ctx.advance(1);
    let spaces_after = ctx.skip_spaces();
    proof {
        lemma_skip_space_bytes_is(s, colon_pos + 1, ctx.pos as int);
        assert(*ctx == at_pos(c1, ctx.pos as int));
    }
    let r3 = try_parse_ident(ctx);
    let ghost c3 = *ctx;
    let ghost g3 = r3;
    let r = match r3 {
        Ok(Some(ident)) => {
            strict_if(ctx, spaces_after > 0, (colon_pos, colon_pos + 1 + spaces_after), "No space allowed after ':' in label");
            Some(ident)
        },
        Ok(None) => {
            ctx.add_parse_error(ParseError::new((colon_pos, colon_pos + 1), str_chars("Expected label name after ':'")));
            None
        },
        Err(err) => {
            ctx.add_parse_error(err);
            None
        },
    };
    proof {
        assert(pick((c1, c3, g3)));
    }
    r
}

/// `s` starts with a `?` that marks nil narrowing: not `?.`, `??` or `?!`.
pub open spec fn nil_marker_at(s: Seq<u8>) -> bool {
    starts1(s, 63) && !starts2(s, 63, 46) && !starts2(s, 63, 63) && !starts2(s, 63, 33)
}

/// Whether `remaining` starts with a nil-narrowing `?` (see `nil_marker_at`).
pub fn is_nil_narrowing_marker(remaining: &[u8]) -> (r: bool)
    ensures
        r == nil_marker_at(remaining@),
{
    remaining.len() >= 1 && remaining[0] == 63u8 && !(remaining.len() >= 2 && (remaining[1] == 46u8
        || remaining[1] == 63u8 || remaining[1] == 33u8))
}

/// What `parse_patch_version` does from `o`: `@default` as a word gives one
/// identifier named so; otherwise a dotted path, whose error is reported
/// and gives no identifiers.
pub open spec fn patch_version_outcome(o: ParseContext, n: ParseContext, r: Seq<Ident>) -> bool {
    let p = o.pos as int;
    if keyword_at(o.rest(), "@default"@) {
        &&& r.len() == 1
        &&& r[0].node_id == NodeId(o.next_node_id)
        &&& r[0].name@ == "@default"@
        &&& !r[0].is_raw
        &&& node_added(n, at_pos(o, p + 8), (p, p + 8))
    } else {
        exists|c: ParseContext, q: Result<Vec<Ident>, ParseError>| {
            &&& #[trigger] pick((c, q))
            &&& qualified_result(o, c, q)
            &&& match q {
                Ok(v) => r == v@ && n == c,
                Err(e) => r.len() == 0 && error_added(n, c, e),
            }
        }
    }
}

/// Parse the version of a patch: `@default` or a dotted path (see
/// `patch_version_outcome`).
pub fn parse_patch_version(ctx: &mut ParseContext) -> (r: Vec<Ident>)
    requires
        old(ctx).wf(),
        old(ctx).next_node_id + old(ctx).source@.len() - old(ctx).pos < u32::MAX,
    ensures
        final(ctx).wf(),
        patch_version_outcome(*old(ctx), *final(ctx), r@),
{
    proof {
        reveal_strlit("@default");
    }
    let ghost o = *ctx;
    if starts_with_keyword(ctx.remaining(), "@default") {
        let start = ctx.pos;
        ctx.advance(8);
        let node_id = ctx.alloc_node_id(start, ctx.pos);
        let mut v: Vec<Ident> = Vec::new();
        v.push(Ident { node_id, name: Symbol::from_str("@default"), is_raw: false });
        proof {
            assert(node_added(*ctx, at_pos(o, start + 8), (start as int, start + 8)));
        }
        v
    } else {
        let q = ctx.parse_qualified_ident();
        proof {
            reveal(qualified_result);
        }
        let ghost c = *ctx;
        let ghost gq = q;
        let r = match q {
            Ok(idents) => idents,
            Err(err) => {
                ctx.add_parse_error(err);
                Vec::new()
            },
        };
        proof {
            assert(pick((c, gq)));
        }
        r
    }
}

} // verus!
