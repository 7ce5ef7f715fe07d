use vstd::prelude::*;

use crate::model::symbol::str_chars;
use crate::model::{Ident, Import, NodeId};

use super::basic::{missing_ident_underline, err_at, ident_outcome, lemma_ident_outcome_advances, qualified_trace, try_parse_ident};
use super::context::{lead_len, starts_newline};
use super::trivia::{err_is, hash_count, lemma_hash_count_mono, pushed, trivia_result};
use super::{ParseContext, ParseError};

verus! {

/// The bytes `lit` stand in `s` at `p`.
pub open spec fn text_at(s: Seq<u8>, p: int, lit: Seq<u8>) -> bool {
    &&& 0 <= p
    &&& p + lit.len() <= s.len()
    &&& s.subrange(p, p + lit.len()) == lit
}

/// `import ` as bytes.
pub open spec fn import_kw() -> Seq<u8> {
    seq![105u8, 109u8, 112u8, 111u8, 114u8, 116u8, 32u8]
}

/// `as ` as bytes.
pub open spec fn as_kw() -> Seq<u8> {
    seq![97u8, 115u8, 32u8]
}

/// The context `o` at position `p`.
pub open spec fn at_pos(o: ParseContext, p: int) -> ParseContext {
    ParseContext { pos: p as usize, ..o }
}

/// `n` is `o` with a strict-mode violation over `range` with `msg` where
/// `cond` holds, and unchanged otherwise.
pub open spec fn strict_step(n: ParseContext, o: ParseContext, cond: bool, range: (int, int), msg: Seq<char>) -> bool {
    &&& pushed(
        n.strict_mode_violations@,
        o.strict_mode_violations@,
        if cond {
            seq![((range.0 as usize, range.1 as usize), msg)]
        } else {
            Seq::empty()
        },
    )
    &&& ParseContext { strict_mode_violations: o.strict_mode_violations, ..n } == o
}

/// What a dotted path parsed from `o` leaves (`n`) and gives (`r`).
#[verifier::opaque]
pub open spec fn qualified_result(o: ParseContext, n: ParseContext, r: Result<Vec<Ident>, ParseError>) -> bool {
    exists|cs: Seq<ParseContext>, ms: Seq<ParseContext>, rs: Seq<Result<Option<Ident>, ParseError>>|
        qualified_trace(o, cs, ms, rs, n, r)
}

/// The byte length of the next character at the position, or 0 at the end.
pub open spec fn next_len(c: ParseContext) -> int {
    if c.pos < c.source@.len() {
        lead_len(c.source@[c.pos as int]) as int
    } else {
        0
    }
}

/// `w` is an "Invalid import" error over `range` whose cause satisfies `cause`.
pub open spec fn invalid_import(w: ParseError, range: (int, int), inner: ParseError) -> bool {
    &&& w.consumed_range == (range.0 as usize, range.1 as usize)
    &&& w.message@ == "Invalid import"@
    &&& w.error_range is None
    &&& w.cause == Some(Box::new(inner))
}

/// The steps of an import declaration parsed from `o`: `import `, trivia
/// (`c2`, with a violation for any: `c3`), the dotted path (`c4`, `p4`),
/// trivia (`c5`); where `as ` follows: a violation unless the trivia was one
/// space (`c6`), `as `, trivia (`c8`, with a violation for any: `c9`) and the
/// alias (`c10`, `r10`). A failure skips the rest of the line (`c11`) and is
/// wrapped as an invalid import; so is anything but a line ending after it.
/// Otherwise the import gets a node id over `import` through its path, or
/// through its alias where there is one.
#[verifier::opaque]
pub open spec fn import_steps(
    o: ParseContext,
    c2: ParseContext,
    c3: ParseContext,
    c4: ParseContext,
    p4: Result<Vec<Ident>, ParseError>,
    c5: ParseContext,
    c6: ParseContext,
    c8: ParseContext,
    c9: ParseContext,
    c10: ParseContext,
    r10: Result<Option<Ident>, ParseError>,
    e10: ParseError,
    c11: ParseContext,
    n: ParseContext,
    r: Result<Option<Import>, ParseError>,
) -> bool {
    let s = o.source@;
    let p0 = o.pos as int;
    let has_as = text_at(s, c5.pos as int, as_kw());
    let alias_failed = has_as && !(r10 matches Ok(Some(_)));
    &&& trivia_result(at_pos(o, p0 + 7), c2)
    &&& strict_step(c3, c2, c2.pos != p0 + 7, (p0 + 7, c2.pos as int), "Expected no additional whitespace after 'import '"@)
    &&& qualified_result(c3, c4, p4)
    &&& trivia_result(c4, c5)
    &&& if has_as {
        &&& strict_step(
            c6,
            c5,
            !(c5.pos == c4.pos + 1 && s[c4.pos as int] == 32),
            (c4.pos as int, c5.pos as int),
            "Expected exactly one space before 'as'"@,
        )
        &&& trivia_result(at_pos(c6, c6.pos + 3), c8)
        &&& strict_step(c9, c8, c8.pos != c6.pos + 3, (c6.pos + 3, c8.pos as int), "Expected no additional whitespace after 'as '"@)
        &&& ident_outcome(c9, c10, r10)
    } else {
        c10 == c5
    }
    &&& if p4 is Err || alias_failed {
        &&& c11.skipped_line(&c10)
        &&& n == c11
        &&& r matches Err(w) && invalid_import(w, (p0, c11.pos as int), e10)
        &&& match p4 {
            Err(e) => e10 == e,
            Ok(_) => match r10 {
                Err(e) => e10 == e,
                _ => {
                    &&& e10.consumed_range == (c4.pos, c10.pos)
                    &&& e10.message@ == "Expected identifier after 'as'"@
                    &&& e10.cause is None
                    &&& e10.error_range matches Some(u) && missing_ident_underline(c10, u)
                },
            },
        }
    } else if !(c10.pos == s.len() || starts_newline(s.subrange(c10.pos as int, s.len() as int)) || c10.pos == 0
        || s[c10.pos - 1] == 10) {
        &&& c11.skipped_line(&c10)
        &&& n == c11
        &&& r matches Err(w) && invalid_import(w, (p0, c11.pos as int), e10)
        &&& err_at(
            e10,
            (p0, c11.pos as int),
            "Unexpected characters after import"@,
            (c11.pos as int, c11.pos + lead_len(s[c10.pos as int])),
        )
    } else {
        &&& r matches Ok(Some(imp)) && imp.node_id == NodeId(c10.next_node_id) && imp.path@ == p4->Ok_0@
            && imp.alias == (if has_as { r10->Ok_0 } else { None })
        &&& n.next_node_id == c10.next_node_id + 1
        &&& n.node_ranges@ == c10.node_ranges@.push((p0 as usize, (if has_as { c10.pos } else { c4.pos }) as usize))
        &&& ParseContext { next_node_id: c10.next_node_id, node_ranges: c10.node_ranges, ..n } == c10
    }
}

/// How much room for node ids a parse from `c` may need.
pub open spec fn id_budget(c: ParseContext) -> int {
    c.next_node_id + 2 * hash_count(c.source@, c.pos as int) + (c.source@.len() - c.pos)
}

pub(crate) fn strict_if(ctx: &mut ParseContext, cond: bool, range: (usize, usize), msg: &str)
    ensures
        strict_step(*final(ctx), *old(ctx), cond, (range.0 as int, range.1 as int), msg@),
{
    if cond {
        let e = ParseError::new(range, str_chars(msg));
        let ghost before = ctx.strict_mode_violations@;
        ctx.add_strict_violation(e);
        proof {
            assert(ctx.strict_mode_violations@.subrange(0, before.len() as int) =~= before);
            assert(seq![((range.0, range.1), msg@)][0] == ((range.0, range.1), msg@));
        }
    } else {
        proof {
            assert(ctx.strict_mode_violations@.subrange(0, ctx.strict_mode_violations@.len() as int)
                =~= ctx.strict_mode_violations@);
        }
    }
}

/// Parse an import declaration: `import`, a dotted module path and an
/// optional `as` alias, alone on its line (see `import_steps`). `None`, with
/// nothing consumed, where the position does not start with `import `.
#[verifier::rlimit(100)]
#[verifier::spinoff_prover]
pub fn try_parse_import(ctx: &mut ParseContext) -> (r: Result<Option<Import>, ParseError>)
    requires
        old(ctx).wf(),
        old(ctx).line_start <= old(ctx).pos,
        old(ctx).indent_stack@.len() * 4 < usize::MAX,
        id_budget(*old(ctx)) + 4 < u32::MAX,
    ensures
        final(ctx).wf(),
        !text_at(old(ctx).source@, old(ctx).pos as int, import_kw()) ==> (r matches Ok(None) && *final(ctx) == *old(ctx)),
        text_at(old(ctx).source@, old(ctx).pos as int, import_kw()) ==> exists|
            c2: ParseContext,
            c3: ParseContext,
            c4: ParseContext,
            p4: Result<Vec<Ident>, ParseError>,
            c5: ParseContext,
            c6: ParseContext,
            c8: ParseContext,
            c9: ParseContext,
            c10: ParseContext,
            r10: Result<Option<Ident>, ParseError>,
            e10: ParseError,
            c11: ParseContext,
        | import_steps(*old(ctx), c2, c3, c4, p4, c5, c6, c8, c9, c10, r10, e10, c11, *final(ctx), r),
{
    let ghost o = *ctx;
    let ghost s = ctx.source@;
    let start = ctx.pos;
    let n = ctx.source.len();
    let is_import = start + 7 <= n && ctx.source[start] == 105u8 && ctx.source[start + 1] == 109u8
        && ctx.source[start + 2] == 112u8 && ctx.source[start + 3] == 111u8 && ctx.source[start + 4] == 114u8
        && ctx.source[start + 5] == 116u8 && ctx.source[start + 6] == 32u8;
    proof {
        if is_import {
            assert(s.subrange(start as int, start + 7) =~= import_kw());
        } else if text_at(s, start as int, import_kw()) {
            assert(s.subrange(start as int, start + 7)[0] == s[start as int]);
            assert(s.subrange(start as int, start + 7)[1] == s[start + 1]);
            assert(s.subrange(start as int, start + 7)[2] == s[start + 2]);
            assert(s.subrange(start as int, start + 7)[3] == s[start + 3]);
            assert(s.subrange(start as int, start + 7)[4] == s[start + 4]);
            assert(s.subrange(start as int, start + 7)[5] == s[start + 5]);
            assert(s.subrange(start as int, start + 7)[6] == s[start + 6]);
        }
    }
    if !is_import {
        return Ok(None);
    }
    ctx.pos = start + 7;
    proof {
        lemma_hash_count_mono(s, start as int, start + 7);
        assert(*ctx == at_pos(o, start + 7));
    }
    let t1 = ctx.parse_trivia();
    let ghost c2 = *ctx;
    strict_if(ctx, t1.len() != 0, (start + 7, ctx.pos), "Expected no additional whitespace after 'import '");
    let ghost c3 = *ctx;
    proof {
        assert(id_budget(c3) <= id_budget(o));
    }
    let pq = ctx.parse_qualified_ident();
    let ghost p4 = pq;
    proof {
        reveal(qualified_result);
    }
    let ghost c4 = *ctx;
    proof {
        lemma_hash_count_mono(s, c3.pos as int, c4.pos as int);
        assert(id_budget(c4) <= id_budget(o));
    }
    let mut error: Option<ParseError> = None;
    let path = match pq {
        Ok(p) => p,
        Err(e) => {
            error = Some(e);
            Vec::new()
        },
    };
    let end_pos = ctx.pos;
    let before_as = ctx.pos;
    let t2 = ctx.parse_trivia();
    let skipped_was_space = t2.len() == 1 && t2[0] == 32u8;
    let ghost c5 = *ctx;
    proof {
        assert(id_budget(c5) <= id_budget(o));
        if t2@.len() == 1 {
            assert(t2@[0] == s[c4.pos as int]);
        }
    }
    let p5 = ctx.pos;
    let has_as = p5 + 3 <= n && ctx.source[p5] == 97u8 && ctx.source[p5 + 1] == 115u8 && ctx.source[p5 + 2] == 32u8;
    proof {
        if has_as {
            assert(s.subrange(p5 as int, p5 + 3) =~= as_kw());
        } else if text_at(s, p5 as int, as_kw()) {
            assert(s.subrange(p5 as int, p5 + 3)[0] == s[p5 as int]);
            assert(s.subrange(p5 as int, p5 + 3)[1] == s[p5 + 1]);
            assert(s.subrange(p5 as int, p5 + 3)[2] == s[p5 + 2]);
        }
    }
    let mut alias: Option<Ident> = None;
    let ghost mut c6 = c5;
    let ghost mut c8 = c5;
    let ghost mut c9 = c5;
    let ghost mut r10: Result<Option<Ident>, ParseError> = Ok(None);
    let ghost mut e10: ParseError = arbitrary();
    if let Some(e) = &error {
        proof {
            e10 = *e;
        }
    }
    if has_as {
        strict_if(ctx, !skipped_was_space, (before_as, ctx.pos), "Expected exactly one space before 'as'");
        proof {
            c6 = *ctx;
        }
        let after_as = ctx.pos + 3;
        ctx.pos = after_as;
        proof {
            assert(*ctx == at_pos(c6, c6.pos + 3));
            lemma_hash_count_mono(s, c6.pos as int, after_as as int);
        }
        let t3 = ctx.parse_trivia();
        proof {
            c8 = *ctx;
        }
        strict_if(ctx, t3.len() != 0, (after_as, ctx.pos), "Expected no additional whitespace after 'as '");
        proof {
            c9 = *ctx;
            assert(id_budget(c9) <= id_budget(o));
        }
        let ra = try_parse_ident(ctx);
        proof {
            r10 = ra;
            lemma_ident_outcome_advances(c9, *ctx, ra);
        }
        match ra {
            Ok(Some(id)) => {
                alias = Some(id);
            },
            Ok(None) => {
                if error.is_none() {
                    let p = ctx.pos;
                    let under = if p < ctx.source.len() {
                        (p, p + ctx.next_char_len())
                    } else {
                        ctx.error_here(Vec::new()).consumed_range
                    };
                    let e = ParseError::with_range((before_as, p), str_chars("Expected identifier after 'as'"), under);
                    proof {
                        e10 = e;
                    }
                    error = Some(e);
                }
            },
            Err(e) => {
                if error.is_none() {
                    proof {
                        e10 = e;
                    }
                    error = Some(e);
                }
            },
        }
    }
    let ghost c10 = *ctx;
    match error {
        Some(err) => {
            ctx.skip_past_end_of_line();
            let w = err.wrap((start, ctx.pos), str_chars("Invalid import"));
            proof {
                assert(import_steps(o, c2, c3, c4, p4, c5, c6, c8, c9, c10, r10, e10, *ctx, *ctx, Err(w))) by {
                    reveal(import_steps);
                }
            }
            return Err(w);
        },
        None => {},
    }
    if !(ctx.pos == n) && !ctx.is_at_newline() && !ctx.is_at_line_start() {
        let l = ctx.next_char_len();
        ctx.skip_past_end_of_line();
        let p = ctx.pos;
        let inner = ParseError::with_range((start, p), str_chars("Unexpected characters after import"), (p, p + l));
        let w = inner.wrap((start, p), str_chars("Invalid import"));
        proof {
            assert(c10.source@.subrange(c10.pos as int, c10.source@.len() as int) == c10.rest());
            assert(import_steps(o, c2, c3, c4, p4, c5, c6, c8, c9, c10, r10, inner, *ctx, *ctx, Err(w))) by {
                reveal(import_steps);
            }
        }
        return Err(w);
    }
    let span_end = if alias.is_some() { ctx.pos } else { end_pos };
    let node_id = ctx.alloc_node_id(start, span_end);
    let imp = Import { node_id, path, alias };
    proof {
        assert(c10.source@.subrange(c10.pos as int, c10.source@.len() as int) == c10.rest());
        assert(import_steps(o, c2, c3, c4, p4, c5, c6, c8, c9, c10, r10, e10, c10, *ctx, Ok(Some(imp)))) by {
            reveal(import_steps);
        }
    }
    Ok(Some(imp))
}

} // verus!
