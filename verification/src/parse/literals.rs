use vstd::prelude::*;

use crate::model::symbol::str_chars;
use crate::model::{Expr, ExprBinaryOp, ExprLiteral, ExprLiteralKind, NodeId};
use vstd::slice::slice_subrange;
use vstd::utf8::{decode_utf8, encode_utf8_decode_utf8, valid_utf8};

use super::basic::{backtick_run, lemma_backtick_run_bound};
use super::context::newline_from;
use super::numbers::{ascii_chars, expected_number, number_grouped, validate_number_underscores};
use super::source::{at_pos, strict_step};
use super::trivia::str_of_utf8;
use super::types::{node_added, pick, plain_err};
use super::{ParseContext, ParseError};

verus! {

/// How tightly a binary operator binds: a higher number binds tighter.
pub open spec fn precedence(op: ExprBinaryOp) -> u8 {
    match op {
        ExprBinaryOp::NilCoalesce => 1,
        ExprBinaryOp::Or => 2,
        ExprBinaryOp::And => 3,
        ExprBinaryOp::Eq | ExprBinaryOp::Ne => 4,
        ExprBinaryOp::Lt | ExprBinaryOp::Le | ExprBinaryOp::Gt | ExprBinaryOp::Ge => 5,
        ExprBinaryOp::Add | ExprBinaryOp::Sub => 6,
        ExprBinaryOp::Mul | ExprBinaryOp::Div | ExprBinaryOp::Mod => 7,
    }
}

/// The precedence of a binary operator (see `precedence`).
pub fn binary_op_precedence(op: &ExprBinaryOp) -> (r: u8)
    ensures
        r == precedence(*op),
{
    match op {
        ExprBinaryOp::NilCoalesce => 1,
        ExprBinaryOp::Or => 2,
        ExprBinaryOp::And => 3,
        ExprBinaryOp::Eq | ExprBinaryOp::Ne => 4,
        ExprBinaryOp::Lt | ExprBinaryOp::Le | ExprBinaryOp::Gt | ExprBinaryOp::Ge => 5,
        ExprBinaryOp::Add | ExprBinaryOp::Sub => 6,
        ExprBinaryOp::Mul | ExprBinaryOp::Div | ExprBinaryOp::Mod => 7,
    }
}

/// `s` starts with the byte `a`.
pub open spec fn starts1(s: Seq<u8>, a: u8) -> bool {
    s.len() >= 1 && s[0] == a
}

/// `s` starts with the bytes `a`, `b`.
pub open spec fn starts2(s: Seq<u8>, a: u8, b: u8) -> bool {
    s.len() >= 2 && s[0] == a && s[1] == b
}

/// The binary operator `s` starts with, and its length: two-byte operators
/// (`==`, `!=`, `<=`, `>=`, `&&`, `||`, `??`) first; then `+ - * / %` where
/// no `=` follows (that would be an assignment), and `<`, `>`.
pub open spec fn binary_op_at(s: Seq<u8>) -> Option<(ExprBinaryOp, usize)> {
    if starts2(s, 61, 61) {
        Some((ExprBinaryOp::Eq, 2))
    } else if starts2(s, 33, 61) {
        Some((ExprBinaryOp::Ne, 2))
    } else if starts2(s, 60, 61) {
        Some((ExprBinaryOp::Le, 2))
    } else if starts2(s, 62, 61) {
        Some((ExprBinaryOp::Ge, 2))
    } else if starts2(s, 38, 38) {
        Some((ExprBinaryOp::And, 2))
    } else if starts2(s, 124, 124) {
        Some((ExprBinaryOp::Or, 2))
    } else if starts2(s, 63, 63) {
        Some((ExprBinaryOp::NilCoalesce, 2))
    } else if starts1(s, 43) && !starts2(s, 43, 61) {
        Some((ExprBinaryOp::Add, 1))
    } else if starts1(s, 45) && !starts2(s, 45, 61) {
        Some((ExprBinaryOp::Sub, 1))
    } else if starts1(s, 42) && !starts2(s, 42, 61) {
        Some((ExprBinaryOp::Mul, 1))
    } else if starts1(s, 47) && !starts2(s, 47, 61) {
        Some((ExprBinaryOp::Div, 1))
    } else if starts1(s, 37) && !starts2(s, 37, 61) {
        Some((ExprBinaryOp::Mod, 1))
    } else if starts1(s, 60) {
        Some((ExprBinaryOp::Lt, 1))
    } else if starts1(s, 62) {
        Some((ExprBinaryOp::Gt, 1))
    } else {
        None
    }
}

fn at2(s: &[u8], a: u8, b: u8) -> (r: bool)
    ensures
        r == starts2(s@, a, b),
{
    s.len() >= 2 && s[0] == a && s[1] == b
}

fn at1(s: &[u8], a: u8) -> (r: bool)
    ensures
        r == starts1(s@, a),
{
    s.len() >= 1 && s[0] == a
}

/// The binary operator at the start of `remaining`, with its byte length
/// (see `binary_op_at`).
pub fn try_parse_binary_op(remaining: &[u8]) -> (r: Option<(ExprBinaryOp, usize)>)
    ensures
        r == binary_op_at(remaining@),
{
    if at2(remaining, 61, 61) {
        Some((ExprBinaryOp::Eq, 2))
    } else if at2(remaining, 33, 61) {
        Some((ExprBinaryOp::Ne, 2))
    } else if at2(remaining, 60, 61) {
        Some((ExprBinaryOp::Le, 2))
    } else if at2(remaining, 62, 61) {
        Some((ExprBinaryOp::Ge, 2))
    } else if at2(remaining, 38, 38) {
        Some((ExprBinaryOp::And, 2))
    } else if at2(remaining, 124, 124) {
        Some((ExprBinaryOp::Or, 2))
    } else if at2(remaining, 63, 63) {
        Some((ExprBinaryOp::NilCoalesce, 2))
    } else if at1(remaining, 43) && !at2(remaining, 43, 61) {
        Some((ExprBinaryOp::Add, 1))
    } else if at1(remaining, 45) && !at2(remaining, 45, 61) {
        Some((ExprBinaryOp::Sub, 1))
    } else if at1(remaining, 42) && !at2(remaining, 42, 61) {
        Some((ExprBinaryOp::Mul, 1))
    } else if at1(remaining, 47) && !at2(remaining, 47, 61) {
        Some((ExprBinaryOp::Div, 1))
    } else if at1(remaining, 37) && !at2(remaining, 37, 61) {
        Some((ExprBinaryOp::Mod, 1))
    } else if at1(remaining, 60) {
        Some((ExprBinaryOp::Lt, 1))
    } else if at1(remaining, 62) {
        Some((ExprBinaryOp::Gt, 1))
    } else {
        None
    }
}

/// An ASCII digit byte.
pub open spec fn digit_byte(b: u8) -> bool {
    48 <= b <= 57
}

/// Scanning a number from `q`: digits and underscores, and one `.` where a
/// digit follows it (a `.` followed by anything else is member access).
/// Gives where the number ends and whether it took a `.`.
pub open spec fn number_end(s: Seq<u8>, q: int, dot: bool) -> (int, bool)
    decreases s.len() - q,
{
    if q < 0 || q >= s.len() {
        (q, dot)
    } else if digit_byte(s[q]) || s[q] == 95 {
        number_end(s, q + 1, dot)
    } else if s[q] == 46 && !dot && q + 1 < s.len() && digit_byte(s[q + 1]) {
        number_end(s, q + 1, true)
    } else {
        (q, dot)
    }
}

proof fn lemma_number_end_bounds(s: Seq<u8>, q: int, dot: bool)
    requires
        0 <= q <= s.len(),
    ensures
        q <= number_end(s, q, dot).0 <= s.len(),
        dot ==> number_end(s, q, dot).1,
    decreases s.len() - q,
{
    if q < s.len() {
        if digit_byte(s[q]) || s[q] == 95 {
            lemma_number_end_bounds(s, q + 1, dot);
        } else if s[q] == 46 && !dot && q + 1 < s.len() && digit_byte(s[q + 1]) {
            lemma_number_end_bounds(s, q + 1, true);
        }
    }
}

/// The literal a number's text makes: a float where it took a `.`.
pub open spec fn number_literal_is(kind: ExprLiteralKind, text: Seq<u8>, is_float: bool) -> bool {
    match kind {
        ExprLiteralKind::Float(t) => is_float && t@ == ascii_chars(text),
        ExprLiteralKind::Int(t) => !is_float && t@ == ascii_chars(text),
        _ => false,
    }
}

/// Parse an integer or float literal at the position (see `number_end`),
/// checking in strict mode that its digits are grouped by three.
pub fn parse_number(ctx: &mut ParseContext) -> (r: Expr)
    requires
        old(ctx).wf(),
        old(ctx).next_node_id < u32::MAX,
    ensures
        final(ctx).wf(),
        ({
            let o = *old(ctx);
            let s = o.source@;
            let p = o.pos as int;
            let (end, is_float) = number_end(s, p, false);
            let text = s.subrange(p, end);
            &&& r matches Expr::Literal(lit) && lit.node_id == NodeId(o.next_node_id)
                && number_literal_is(lit.kind, text, is_float)
            &&& exists|c: ParseContext| {
                &&& strict_step(
                    c,
                    at_pos(o, end),
                    !number_grouped(text),
                    (p, end),
                    "Number should be formatted as "@ + ascii_chars(expected_number(text)),
                )
                &&& #[trigger] node_added(*final(ctx), c, (p, end))
            }
        }),
{
    let ghost o = *ctx;
    let ghost s = ctx.source@;
    let start = ctx.pos;
    let n = ctx.source.len();
    let mut q = start;
    let mut is_float = false;
    proof {
        lemma_number_end_bounds(s, start as int, false);
    }
    loop
        invariant
            ctx.wf(),
            *ctx == o,
            s == ctx.source@,
            n == s.len(),
            start <= q <= n,
            number_end(s, start as int, false) == number_end(s, q as int, is_float),
        ensures
            number_end(s, start as int, false) == (q as int, is_float),
            start <= q <= n,
        decreases n - q,
    {
        if q >= n {
            break;
        }
        let b = ctx.source[q];
        if (48u8 <= b && b <= 57u8) || b == 95u8 {
            q = q + 1;
        } else if b == 46u8 && !is_float && q + 1 < n && 48u8 <= ctx.source[q + 1] && ctx.source[q + 1] <= 57u8 {
            is_float = true;
            q = q + 1;
        } else {
            break;
        }
    }
    let mut bytes: Vec<u8> = Vec::new();
    let mut text: Vec<char> = Vec::new();
    let mut k: usize = start;
    while k < q
        invariant
            ctx.wf(),
            *ctx == o,
            s == ctx.source@,
            start <= k <= q <= n,
            n == s.len(),
            bytes@ == s.subrange(start as int, k as int),
            text@ == ascii_chars(bytes@),
        decreases q - k,
    {
        let b = ctx.source[k];
        bytes.push(b);
        text.push(b as char);
        proof {
            assert(s.subrange(start as int, k + 1) =~= s.subrange(start as int, k as int).push(b));
            assert(ascii_chars(bytes@) =~= ascii_chars(s.subrange(start as int, k as int)).push(b as char));
        }
        k = k + 1;
    }
    ctx.pos = q;
    let ghost c1 = *ctx;
    validate_number_underscores(ctx, bytes.as_slice(), start);
    let ghost c = *ctx;
    proof {
        let msg = "Number should be formatted as "@ + ascii_chars(expected_number(bytes@));
        if !number_grouped(bytes@) {
            assert(c.strict_mode_violations@.subrange(0, c1.strict_mode_violations@.len() as int)
                =~= c1.strict_mode_violations@);
            assert(seq![((start, q), msg)][0] == ((start, q), msg));
        } else {
            assert(c.strict_mode_violations@.subrange(0, c1.strict_mode_violations@.len() as int)
                =~= c1.strict_mode_violations@);
        }
        assert(c1 == at_pos(o, q as int));
    }
    let kind = if is_float {
        ExprLiteralKind::Float(text)
    } else {
        ExprLiteralKind::Int(text)
    };
    let node_id = ctx.alloc_node_id(start, ctx.pos);
    proof {
        assert(node_added(*ctx, c, (start as int, q as int)));
        assert(strict_step(
            c,
            at_pos(o, q as int),
            !number_grouped(bytes@),
            (start as int, q as int),
            "Number should be formatted as "@ + ascii_chars(expected_number(bytes@)),
        ));
    }
    Expr::Literal(ExprLiteral { node_id, kind })
}

/// The first position from `q` where `n` backticks stand in a row.
pub open spec fn find_backticks(s: Seq<u8>, q: int, n: nat) -> Option<int>
    decreases s.len() - q,
{
    if q < 0 || q + n > s.len() {
        None
    } else if backtick_run(s, q) >= n {
        Some(q)
    } else {
        find_backticks(s, q + 1, n)
    }
}

proof fn lemma_find_backticks_bounds(s: Seq<u8>, q: int, n: nat)
    requires
        0 <= q,
    ensures
        find_backticks(s, q, n) matches Some(j) ==> q <= j && j + n <= s.len(),
    decreases s.len() - q,
{
    if q + n <= s.len() && backtick_run(s, q) < n {
        lemma_find_backticks_bounds(s, q + 1, n);
    }
}

/// `n` backticks stand at `q` exactly where the run there is that long.
proof fn lemma_run_at_least(s: Seq<u8>, q: int, n: nat)
    requires
        0 <= q,
        q + n <= s.len(),
    ensures
        backtick_run(s, q) >= n <==> (forall|j: int| q <= j < q + n ==> s[j] == 96),
{
    lemma_backtick_run_bound(s, q);
    if forall|j: int| q <= j < q + n ==> s[j] == 96 {
        if backtick_run(s, q) < n {
            let k = q + backtick_run(s, q);
            assert(s[k] == 96);
        }
    }
}

/// The line start that `sync_line_start` finds at `p`: just after the last
/// line break before `p`, or `old_ls` where there is none.
pub open spec fn line_start_synced(ls: int, s: Seq<u8>, p: int, old_ls: int) -> bool {
    if exists|i: int| 0 <= i < p && s[i] == 10 {
        &&& s[ls - 1] == 10
        &&& ls <= p
        &&& forall|i: int| ls <= i < p ==> s[i] != 10
    } else {
        ls == old_ls
    }
}

/// A literal holding the string `bytes` decodes to.
pub open spec fn str_literal_is(kind: ExprLiteralKind, bytes: Seq<u8>) -> bool {
    kind matches ExprLiteralKind::Str(v) && (valid_utf8(bytes) ==> v@ == decode_utf8(bytes))
}

fn chars_of(bytes: &[u8]) -> (r: Vec<char>)
    ensures
        valid_utf8(bytes@) ==> r@ == decode_utf8(bytes@),
{
    match str_of_utf8(bytes) {
        Some(st) => {
            proof {
                encode_utf8_decode_utf8(st@);
            }
            str_chars(st)
        },
        None => Vec::new(),
    }
}

/// Parse a raw string literal at the position, its first backtick: `n`
/// backticks open it and the next `n` in a row close it, with no escapes and
/// line breaks allowed inside. Unclosed, it runs to the end of the line and
/// is an error.
#[verifier::rlimit(40)]
pub fn parse_string_raw(ctx: &mut ParseContext) -> (r: Expr)
    requires
        old(ctx).wf(),
        old(ctx).next_node_id < u32::MAX,
        old(ctx).pos < old(ctx).source@.len(),
        old(ctx).source@[old(ctx).pos as int] == 96,
    ensures
        final(ctx).wf(),
        ({
            let o = *old(ctx);
            let s = o.source@;
            let p = o.pos as int;
            let n = backtick_run(s, p);
            let a = p + n;
            match find_backticks(s, a, n) {
                Some(j) => {
                    &&& r matches Expr::Literal(lit) && lit.node_id == NodeId(o.next_node_id)
                        && str_literal_is(lit.kind, s.subrange(a, j))
                    &&& line_start_synced(final(ctx).line_start as int, s, j + n, o.line_start as int)
                    &&& node_added(*final(ctx), ParseContext { line_start: final(ctx).line_start, ..at_pos(o, j + n) }, (p, j + n))
                },
                None => {
                    let eol = newline_from(s, a);
                    &&& r matches Expr::Literal(lit) && lit.node_id == NodeId(o.next_node_id)
                        && str_literal_is(lit.kind, s.subrange(a, eol))
                    &&& exists|e: ParseError| {
                        &&& #[trigger] pick(e)
                        &&& plain_err(e, (p, eol), "Unterminated raw string literal"@)
                        &&& node_added(
                            *final(ctx),
                            ParseContext { parse_errors: final(ctx).parse_errors, ..at_pos(o, eol) },
                            (p, eol),
                        )
                        &&& final(ctx).parse_errors@ == o.parse_errors@.push(e)
                    }
                },
            }
        }),
{
    let ghost o = *ctx;
    let ghost s = ctx.source@;
    let start = ctx.pos;
    let len = ctx.source.len();
    proof {
        lemma_backtick_run_bound(s, start as int);
    }
    let mut n: usize = 0;
    while start + n < len && ctx.source[start + n] == 96u8
        invariant
            ctx.wf(),
            *ctx == o,
            s == ctx.source@,
            len == s.len(),
            start < len,
            start + n <= len,
            backtick_run(s, start as int) == n + backtick_run(s, start + n),
        decreases len - (start + n),
    {
        n = n + 1;
    }
    proof {
        assert(backtick_run(s, start as int) == n);
    }
    let a = start + n;
    let ghost found = find_backticks(s, a as int, n as nat);
    proof {
        lemma_find_backticks_bounds(s, a as int, n as nat);
    }
    let mut q = a;
    let mut hit: Option<usize> = None;
    loop
        invariant_except_break
            found == find_backticks(s, q as int, n as nat),
            hit is None,
        invariant
            ctx.wf(),
            *ctx == o,
            s == ctx.source@,
            len == s.len(),
            a <= len,
            a <= q <= len,
            n >= 1,
            a == start + n,
        ensures
            hit matches Some(j) ==> found == Some(j as int),
            hit is None ==> found is None,
        decreases len + 1 - q,
    {
        if q > len - n {
            break;
        }
        let mut k: usize = 0;
        while k < n && ctx.source[q + k] == 96u8
            invariant
                ctx.wf(),
                s == ctx.source@,
                len == s.len(),
                q + n <= len,
                k <= n,
                forall|j: int| q <= j < q + k ==> s[j] == 96,
            decreases n - k,
        {
            k = k + 1;
        }
        proof {
            lemma_run_at_least(s, q as int, n as nat);
        }
        if k == n {
            hit = Some(q);
            break;
        }
        proof {
            assert(s[q + k] != 96);
        }
        q = q + 1;
    }
    match hit {
        Some(j) => {
            let bytes = slice_subrange(ctx.source.as_slice(), a, j);
            let value = chars_of(bytes);
            ctx.pos = j + n;
            ctx.sync_line_start();
            let ghost c = *ctx;
            let node_id = ctx.alloc_node_id(start, j + n);
            proof {
                assert(node_added(*ctx, ParseContext { line_start: ctx.line_start, ..at_pos(o, j + n) }, (start as int, (j + n) as int)));
            }
            Expr::Literal(ExprLiteral { node_id, kind: ExprLiteralKind::Str(value) })
        },
        None => {
            let mut eol = a;
            proof {
                super::types::lemma_newline_from_ge(s, a as int);
            }
            while eol < len && ctx.source[eol] != 10u8
                invariant
                    ctx.wf(),
                    *ctx == o,
                    s == ctx.source@,
                    len == s.len(),
                    a <= eol <= len,
                    newline_from(s, a as int) == newline_from(s, eol as int),
                decreases len - eol,
            {
                eol = eol + 1;
            }
            let bytes = slice_subrange(ctx.source.as_slice(), a, eol);
            let value = chars_of(bytes);
            ctx.pos = eol;
            let e = ParseError::new((start, eol), str_chars("Unterminated raw string literal"));
            ctx.add_parse_error(e);
            let node_id = ctx.alloc_node_id(start, eol);
            proof {
                assert(node_added(
                    *ctx,
                    ParseContext { parse_errors: ctx.parse_errors, ..at_pos(o, eol as int) },
                    (start as int, eol as int),
                ));
                assert(pick(e));
            }
            Expr::Literal(ExprLiteral { node_id, kind: ExprLiteralKind::Str(value) })
        },
    }
}

} // verus!
