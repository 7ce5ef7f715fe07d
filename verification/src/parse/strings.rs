use vstd::prelude::*;

use crate::model::number::{decimal, push_decimal};
use crate::model::symbol::{push_chars, str_chars};
use crate::model::{Expr, ExprLiteral, ExprLiteralKind, NodeId};

use super::basic::{char_at, err_at};
use super::context::lead_len;
use super::trivia::{lemma_pushed_trans, pushed};
use super::types::{node_added, pick};
use super::{ParseContext, ParseError};

verus! {

/// A Unicode scalar value: no surrogate, and at most `0x10FFFF`.
pub open spec fn valid_scalar(code: u32) -> bool {
    code < 0xD800 || (0xE000 <= code <= 0x10FFFF)
}

/// `char::from_u32`: the character with code `code` where that is a Unicode
/// scalar value, else `None`.
#[verifier::external_body]
fn char_from_u32(code: u32) -> (r: Option<char>)
    ensures
        r is Some <==> valid_scalar(code),
        r matches Some(c) ==> c == code as char,
{
    char::from_u32(code)
}

/// An ASCII hexadecimal digit.
pub open spec fn is_hex_byte(b: u8) -> bool {
    (48 <= b <= 57) || (97 <= b <= 102) || (65 <= b <= 70)
}

/// The value of a hexadecimal digit.
pub open spec fn hex_digit_value(b: u8) -> int {
    if 48 <= b <= 57 {
        b - 48
    } else if 97 <= b <= 102 {
        b - 87
    } else {
        b - 55
    }
}

/// The number that the hexadecimal digits `d` spell.
pub open spec fn hex_value(d: Seq<u8>) -> int
    decreases d.len(),
{
    if d.len() == 0 {
        0
    } else {
        hex_value(d.drop_last()) * 16 + hex_digit_value(d.last())
    }
}

/// `16` to the power `n`.
pub open spec fn pow16(n: nat) -> int
    decreases n,
{
    if n == 0 {
        1
    } else {
        16 * pow16((n - 1) as nat)
    }
}

proof fn lemma_hex_value_bound(d: Seq<u8>)
    requires
        forall|i: int| 0 <= i < d.len() ==> is_hex_byte(d[i]),
    ensures
        0 <= hex_value(d) < pow16(d.len()),
    decreases d.len(),
{
    if d.len() > 0 {
        let e = d.drop_last();
        assert forall|i: int| 0 <= i < e.len() implies is_hex_byte(e[i]) by {
            assert(e[i] == d[i]);
        }
        lemma_hex_value_bound(e);
        let h = hex_value(e);
        let v = hex_digit_value(d.last());
        let p = pow16(e.len());
        assert(0 <= v < 16);
        assert(0 <= h * 16 + v < 16 * p) by (nonlinear_arith)
            requires
                0 <= h < p,
                0 <= v < 16,
        ;
    }
}

/// How many hexadecimal digits stand in a row from `q`, before `lim`.
pub open spec fn hex_run(s: Seq<u8>, q: int, lim: int) -> int
    decreases lim - q,
{
    if q < 0 || q >= lim || q >= s.len() {
        0
    } else if is_hex_byte(s[q]) {
        1 + hex_run(s, q + 1, lim)
    } else {
        0
    }
}

pub proof fn lemma_hex_run_bounds(s: Seq<u8>, q: int, lim: int)
    requires
        0 <= q,
    ensures
        0 <= hex_run(s, q, lim),
        q < lim ==> hex_run(s, q, lim) <= lim - q,
        q >= lim ==> hex_run(s, q, lim) == 0,
        hex_run(s, q, lim) > 0 ==> q + hex_run(s, q, lim) <= s.len(),
        forall|j: int| #![trigger s[j]] q <= j < q + hex_run(s, q, lim) ==> is_hex_byte(s[j]),
        q + hex_run(s, q, lim) < lim && q + hex_run(s, q, lim) < s.len() ==> !is_hex_byte(s[q + hex_run(s, q, lim)]),
    decreases lim - q,
{
    if !(q >= lim || q >= s.len()) && is_hex_byte(s[q]) {
        lemma_hex_run_bounds(s, q + 1, lim);
        assert(hex_run(s, q, lim) == 1 + hex_run(s, q + 1, lim));
        assert forall|j: int| q <= j < q + hex_run(s, q, lim) implies is_hex_byte(s[j]) by {
            if j > q {
                assert(q + 1 <= j < q + 1 + hex_run(s, q + 1, lim));
                assert(is_hex_byte(s[j]));
            } else {
                assert(j == q);
            }
        }
    } else {
        assert(hex_run(s, q, lim) == 0);
    }
}

/// An uppercase ASCII letter in `d`.
pub open spec fn has_upper(d: Seq<u8>) -> bool {
    exists|i: int| 0 <= i < d.len() && 65 <= #[trigger] d[i] <= 90
}

/// The uppercase hexadecimal digit for `d` (below 16).
pub open spec fn hex_char(d: int) -> char {
    if d < 10 {
        (48 + d) as char
    } else {
        (55 + d) as char
    }
}

/// `v` in uppercase hexadecimal, without leading zeros.
pub open spec fn hex_upper(v: nat) -> Seq<char>
    decreases v,
{
    if v < 16 {
        seq![hex_char(v as int)]
    } else {
        hex_upper(v / 16).push(hex_char((v % 16) as int))
    }
}

/// `v` in uppercase hexadecimal, padded with zeros to four digits.
pub open spec fn hex4(v: nat) -> Seq<char> {
    let h = hex_upper(v);
    if h.len() < 4 {
        Seq::new((4 - h.len()) as nat, |i: int| '0') + h
    } else {
        h
    }
}

fn hex_char_exec(d: u32) -> (c: char)
    requires
        d < 16,
    ensures
        c == hex_char(d as int),
{
    if d < 10 {
        ((48 + d) as u8) as char
    } else {
        ((55 + d) as u8) as char
    }
}

fn push_hex_upper(out: &mut Vec<char>, v: u32)
    ensures
        final(out)@ == old(out)@ + hex_upper(v as nat),
    decreases v,
{
    if v >= 16 {
        push_hex_upper(out, v / 16);
    }
    out.push(hex_char_exec(v % 16));
    assert(out@ =~= old(out)@ + hex_upper(v as nat));
}

/// A message item: a range and a text.
pub type Report = ((usize, usize), Seq<char>);

/// The message for too few digits in a hex escape.
pub open spec fn hex_count_message(count: nat) -> Seq<char> {
    "Expected "@ + decimal(count) + " hex digits in escape sequence"@
}

/// The message for a code that is no Unicode scalar value.
pub open spec fn bad_code_message(code: nat) -> Seq<char> {
    "Invalid Unicode code point: U+"@ + hex4(code)
}

/// A hex escape of `count` digits whose digits start at `h` (its backslash
/// at `esc`): where it ends, the characters it adds, and the errors and
/// strict-mode violations it reports. Too few digits (the run stops at the
/// end or at `count`) is an error; uppercase digits a violation; a code that
/// is no Unicode scalar value an error.
pub open spec fn hex_step(s: Seq<u8>, esc: int, h: int, count: nat) -> (int, Seq<char>, Seq<Report>, Seq<Report>) {
    let avail = if s.len() - h < count { s.len() - h } else { count as int };
    let actual = hex_run(s, h, h + avail);
    if actual < count {
        let end = h + if actual > 1 { actual } else { 1 };
        (h + actual, Seq::empty(), seq![((esc as usize, end as usize), hex_count_message(count))], Seq::empty())
    } else {
        let d = s.subrange(h, h + count);
        let code = hex_value(d);
        let ss = if has_upper(d) {
            seq![((h as usize, (h + count) as usize), "Hex digits in escape sequences must be lowercase"@)]
        } else {
            Seq::empty()
        };
        if valid_scalar(code as u32) {
            (h + count, seq![(code as u32) as char], Seq::empty(), ss)
        } else {
            (h + count, Seq::empty(), seq![((esc as usize, (h + count) as usize), bad_code_message(code as nat))], ss)
        }
    }
}

/// `n` is `o` but for its position and its two lists of reports.
pub open spec fn lex_frame(n: ParseContext, o: ParseContext) -> bool {
    n == (ParseContext {
        pos: n.pos,
        parse_errors: n.parse_errors,
        strict_mode_violations: n.strict_mode_violations,
        ..o
    })
}

/// Parse the digits of a hex escape (see `hex_step`), its prefix already
/// consumed; the character it gives goes onto `value`.
#[verifier::rlimit(40)]
pub fn parse_hex_escape(ctx: &mut ParseContext, esc_start: usize, count: usize, value: &mut Vec<char>)
    requires
        old(ctx).wf(),
        1 <= count <= 8,
    ensures
        final(ctx).wf(),
        lex_frame(*final(ctx), *old(ctx)),
        ({
            let (next, v, es, ss) = hex_step(old(ctx).source@, esc_start as int, old(ctx).pos as int, count as nat);
            &&& final(ctx).pos == next
            &&& final(value)@ == old(value)@ + v
            &&& pushed(final(ctx).parse_errors@, old(ctx).parse_errors@, es)
            &&& pushed(final(ctx).strict_mode_violations@, old(ctx).strict_mode_violations@, ss)
        }),
{
    let ghost o = *ctx;
    let ghost s = ctx.source@;
    let hex_start = ctx.pos;
    let n = ctx.source.len();
    let available = if n - hex_start < count { n - hex_start } else { count };
    proof {
        lemma_hex_run_bounds(s, hex_start as int, hex_start + available);
    }
    let mut actual: usize = 0;
    while actual < available && (
        (48u8 <= ctx.source[hex_start + actual] && ctx.source[hex_start + actual] <= 57u8)
        || (97u8 <= ctx.source[hex_start + actual] && ctx.source[hex_start + actual] <= 102u8)
        || (65u8 <= ctx.source[hex_start + actual] && ctx.source[hex_start + actual] <= 70u8))
        invariant
            *ctx == o,
            s == ctx.source@,
            n == s.len(),
            hex_start <= n,
            available <= n - hex_start,
            actual <= available,
            hex_run(s, hex_start as int, hex_start + available) == actual + hex_run(s, hex_start + actual, hex_start + available),
        decreases available - actual,
    {
        actual = actual + 1;
    }
    proof {
        lemma_hex_run_bounds(s, hex_start + actual, hex_start + available);
    }
    if actual < count {
        let mut m = str_chars("Expected ");
        push_decimal(&mut m, count);
        let tail = str_chars(" hex digits in escape sequence");
        push_chars(&mut m, tail.as_slice());
        let end = if actual > 1 { hex_start + actual } else { hex_start + 1 };
        let e = ParseError::new((esc_start, end), m);
        ctx.add_parse_error(e);
        ctx.pos = hex_start + actual;
        proof {
            let es = seq![((esc_start, end), hex_count_message(count as nat))];
            assert(ctx.parse_errors@.subrange(0, o.parse_errors@.len() as int) =~= o.parse_errors@);
            assert(es[0] == ((esc_start, end), hex_count_message(count as nat)));
            assert(ctx.strict_mode_violations@.subrange(0, o.strict_mode_violations@.len() as int) =~= o.strict_mode_violations@);
            assert(value@ =~= value@ + Seq::<char>::empty());
        }
        return;
    }
    let ghost d = s.subrange(hex_start as int, hex_start + count);
    proof {
        assert forall|i: int| 0 <= i < d.len() implies is_hex_byte(d[i]) by {
            assert(d[i] == s[hex_start + i]);
        }
        lemma_hex_value_bound(d);
        assert(pow16(count as nat) <= 0x1_0000_0000) by {
            reveal_with_fuel(pow16, 9);
        }
    }
    let mut code: u64 = 0;
    let mut upper = false;
    let mut k: usize = 0;
    while k < count
        invariant
            *ctx == o,
            s == ctx.source@,
            n == s.len(),
            hex_start + count <= n,
            count <= 8,
            k <= count,
            d == s.subrange(hex_start as int, hex_start + count),
            forall|i: int| 0 <= i < d.len() ==> is_hex_byte(d[i]),
            code == hex_value(d.take(k as int)),
            upper == has_upper(d.take(k as int)),
        decreases count - k,
    {
        let b = ctx.source[hex_start + k];
        proof {
            assert(d[k as int] == b);
        }
        let v: u64 = if b <= 57u8 {
            (b - 48u8) as u64
        } else if b >= 97u8 {
            (b - 87u8) as u64
        } else {
            (b - 55u8) as u64
        };
        proof {
            assert(d[k as int] == b);
            assert(d.take(k + 1).drop_last() =~= d.take(k as int));
            assert(d.take(k + 1).last() == b);
            let dk = d.take(k as int);
            assert forall|i: int| 0 <= i < dk.len() implies is_hex_byte(dk[i]) by {
                assert(dk[i] == d[i]);
            }
            lemma_hex_value_bound(dk);
            assert(pow16(k as nat) <= 0x1000_0000) by {
                reveal_with_fuel(pow16, 9);
            }
        }
        code = code * 16 + v;
        if 65u8 <= b && b <= 90u8 {
            upper = true;
        }
        proof {
            let a = d.take(k as int);
            let a2 = d.take(k + 1);
            if has_upper(a) {
                let i = choose|i: int| 0 <= i < a.len() && 65 <= #[trigger] a[i] <= 90;
                assert(a2[i] == a[i]);
            }
            if has_upper(a2) && !(65 <= b <= 90) {
                let i = choose|i: int| 0 <= i < a2.len() && 65 <= #[trigger] a2[i] <= 90;
                assert(i < k);
                assert(a[i] == a2[i]);
            }
            if 65 <= b <= 90 {
                assert(a2[k as int] == b);
            }
        }
        k = k + 1;
    }
    proof {
        assert(d.take(count as int) =~= d);
    }
    let code32 = code as u32;
    ctx.pos = hex_start + count;
    let ghost c1 = *ctx;
    if upper {
        let e = ParseError::new((hex_start, hex_start + count), str_chars("Hex digits in escape sequences must be lowercase"));
        ctx.add_strict_violation(e);
    }
    proof {
        assert(ctx.strict_mode_violations@.subrange(0, o.strict_mode_violations@.len() as int) =~= o.strict_mode_violations@);
    }
    match char_from_u32(code32) {
        Some(c) => {
            value.push(c);
            proof {
                assert(value@ =~= old(value)@ + seq![(code as u32) as char]);
                assert(ctx.parse_errors@.subrange(0, o.parse_errors@.len() as int) =~= o.parse_errors@);
            }
        },
        None => {
            let mut m = str_chars("Invalid Unicode code point: U+");
            let mut h: Vec<char> = Vec::new();
            push_hex_upper(&mut h, code32);
            let mut j = h.len();
            let ghost m0 = m@;
            while j < 4
                invariant
                    h.len() <= j <= 4 || (j == h.len() && j >= 4),
                    m@ == m0 + Seq::new((j - h.len()) as nat, |i: int| '0'),
                decreases 4 - j,
            {
                m.push('0');
                proof {
                    assert(Seq::new((j + 1 - h.len()) as nat, |i: int| '0') =~= Seq::new((j - h.len()) as nat, |i: int| '0').push('0'));
                }
                j = j + 1;
            }
            push_chars(&mut m, h.as_slice());
            proof {
                assert(m@ =~= bad_code_message(code as nat)) by {
                    let hu = hex_upper(code as nat);
                    if hu.len() >= 4 {
                        assert(Seq::new((j - h.len()) as nat, |i: int| '0') =~= Seq::<char>::empty());
                    }
                }
            }
            let e = ParseError::new((esc_start, hex_start + count), m);
            ctx.add_parse_error(e);
            proof {
                assert(ctx.parse_errors@.subrange(0, o.parse_errors@.len() as int) =~= o.parse_errors@);
                assert(value@ =~= value@ + Seq::<char>::empty());
            }
        },
    }
}


/// The message for an escape that is not one of the known ones.
pub open spec fn unknown_escape_message(e: char) -> Seq<char> {
    "Unknown escape sequence '\\"@ + seq![e] + "'"@
}

/// The escape whose backslash is at `q` and whose character `e` follows
/// it: where it ends, the characters it adds and what it reports. `\n \r \t
/// \\ \" \0` stand for themselves, `\x \u \U` take 2, 4 and 8 hex digits,
/// and any other character is an error and stands for itself.
pub open spec fn escape_step(s: Seq<u8>, q: int, e: char) -> (int, Seq<char>, Seq<Report>, Seq<Report>) {
    let q1 = q + 1;
    if e == 'n' {
        (q1 + 1, seq!['\n'], Seq::empty(), Seq::empty())
    } else if e == 'r' {
        (q1 + 1, seq!['\r'], Seq::empty(), Seq::empty())
    } else if e == 't' {
        (q1 + 1, seq!['\t'], Seq::empty(), Seq::empty())
    } else if e == '\\' {
        (q1 + 1, seq!['\\'], Seq::empty(), Seq::empty())
    } else if e == '"' {
        (q1 + 1, seq!['"'], Seq::empty(), Seq::empty())
    } else if e == '0' {
        (q1 + 1, seq!['\0'], Seq::empty(), Seq::empty())
    } else if e == 'x' {
        hex_step(s, q, q1 + 1, 2)
    } else if e == 'u' {
        hex_step(s, q, q1 + 1, 4)
    } else if e == 'U' {
        hex_step(s, q, q1 + 1, 8)
    } else {
        let end = q1 + lead_len(s[q1]);
        (end, seq![e], seq![((q as usize, end as usize), unknown_escape_message(e))], Seq::empty())
    }
}

pub proof fn lemma_escape_step_advances(s: Seq<u8>, q: int, e: char)
    requires
        0 <= q,
        q + 1 < s.len(),
        char_at(s, q + 1) == Some(e),
    ensures
        q < escape_step(s, q, e).0 <= s.len(),
{
    let h = q + 2;
    let avail2 = if s.len() - h < 2 { s.len() - h } else { 2 };
    let avail4 = if s.len() - h < 4 { s.len() - h } else { 4 };
    let avail8 = if s.len() - h < 8 { s.len() - h } else { 8 };
    lemma_hex_run_bounds(s, h, h + avail2);
    lemma_hex_run_bounds(s, h, h + avail4);
    lemma_hex_run_bounds(s, h, h + avail8);
}

/// Scanning a quoted string's contents from `q`: where it ends, whether its
/// closing quote was met, its characters, and the errors and strict-mode
/// violations its escapes report. It ends unclosed at the end of the text,
/// at a line break, after a final backslash, or where no character decodes.
pub open spec fn quoted_scan(s: Seq<u8>, q: int) -> (int, bool, Seq<char>, Seq<Report>, Seq<Report>)
    decreases s.len() - q,
{
    if q < 0 || q >= s.len() {
        (q, false, Seq::empty(), Seq::empty(), Seq::empty())
    } else if s[q] == 34 {
        (q + 1, true, Seq::empty(), Seq::empty(), Seq::empty())
    } else if s[q] == 92 {
        if q + 1 >= s.len() {
            (q + 1, false, Seq::empty(), Seq::empty(), Seq::empty())
        } else {
            match char_at(s, q + 1) {
                None => (q + 1, false, Seq::empty(), Seq::empty(), Seq::empty()),
                Some(e) => {
                    let st = escape_step(s, q, e);
                    proof {
                        lemma_escape_step_advances(s, q, e);
                    }
                    let r = quoted_scan(s, st.0);
                    (r.0, r.1, st.1 + r.2, st.2 + r.3, st.3 + r.4)
                },
            }
        }
    } else if s[q] == 10 || s[q] == 13 {
        (q, false, Seq::empty(), Seq::empty(), Seq::empty())
    } else {
        match char_at(s, q) {
            None => (q, false, Seq::empty(), Seq::empty(), Seq::empty()),
            Some(c) => {
                let r = quoted_scan(s, q + lead_len(s[q]));
                (r.0, r.1, seq![c] + r.2, r.3, r.4)
            },
        }
    }
}

/// What `parse_string_quoted` leaves from `o` (giving the node id `id`):
/// the scan's reports, an error over the whole literal pointing at its
/// opening quote where it was not closed, and a node over the literal.
pub open spec fn quoted_outcome(o: ParseContext, n: ParseContext, value: Seq<char>) -> bool {
    let s = o.source@;
    let p = o.pos as int;
    let (end, closed, v, es, ss) = quoted_scan(s, p + 1);
    &&& value == v
    &&& exists|c: ParseContext| {
        &&& #[trigger] pick(c)
        &&& lex_frame(c, o)
        &&& c.pos == end
        &&& pushed(c.strict_mode_violations@, o.strict_mode_violations@, ss)
        &&& if closed {
            pushed(c.parse_errors@, o.parse_errors@, es)
        } else {
            &&& c.parse_errors@.len() == o.parse_errors@.len() + es.len() + 1
            &&& pushed(c.parse_errors@.drop_last(), o.parse_errors@, es)
            &&& err_at(c.parse_errors@.last(), (p, end), "Unterminated string literal"@, (p, p + 1))
        }
        &&& node_added(n, c, (p, end))
    }
}

proof fn lemma_assoc<A>(a: Seq<A>, b: Seq<A>, c: Seq<A>)
    ensures
        a + (b + c) == (a + b) + c,
{
    assert(a + (b + c) =~= (a + b) + c);
}

/// Parse a quoted string literal at the position, its opening `"` (see
/// `quoted_scan` and `quoted_outcome`).
#[verifier::rlimit(80)]
pub fn parse_string_quoted(ctx: &mut ParseContext) -> (r: Expr)
    requires
        old(ctx).wf(),
        old(ctx).next_node_id < u32::MAX,
        old(ctx).pos < old(ctx).source@.len(),
        old(ctx).source@[old(ctx).pos as int] == 34,
    ensures
        final(ctx).wf(),
        r matches Expr::Literal(lit) && lit.node_id == NodeId(old(ctx).next_node_id)
            && (lit.kind matches ExprLiteralKind::Str(v) && quoted_outcome(*old(ctx), *final(ctx), v@)),
{
    let ghost o = *ctx;
    let ghost s = ctx.source@;
    let start = ctx.pos;
    let n = ctx.source.len();
    ctx.pos = start + 1;
    let ghost full = quoted_scan(s, start + 1);
    let mut value: Vec<char> = Vec::new();
    let ghost mut es: Seq<Report> = Seq::empty();
    let ghost mut ss: Seq<Report> = Seq::empty();
    let mut closed = false;
    proof {
        assert(o.parse_errors@.subrange(0, o.parse_errors@.len() as int) =~= o.parse_errors@);
        assert(o.strict_mode_violations@.subrange(0, o.strict_mode_violations@.len() as int) =~= o.strict_mode_violations@);
        assert(full.2 =~= value@ + full.2);
        assert(full.3 =~= es + full.3);
        assert(full.4 =~= ss + full.4);
    }
    loop
        invariant_except_break
            ({
                let r = quoted_scan(s, ctx.pos as int);
                full == (r.0, r.1, value@ + r.2, es + r.3, ss + r.4)
            }),
            !closed,
        invariant
            ctx.wf(),
            s == ctx.source@,
            n == s.len(),
            start < ctx.pos <= n,
            lex_frame(*ctx, o),
            pushed(ctx.parse_errors@, o.parse_errors@, es),
            pushed(ctx.strict_mode_violations@, o.strict_mode_violations@, ss),
        ensures
            full == (ctx.pos as int, closed, value@, es, ss),
            start < ctx.pos <= n,
        decreases n - ctx.pos,
    {
        let q = ctx.pos;
        if q >= n {
            proof {
                assert(value@ + Seq::<char>::empty() =~= value@);
                assert(es + Seq::<Report>::empty() =~= es);
                assert(ss + Seq::<Report>::empty() =~= ss);
            }
            break;
        }
        let b = ctx.source[q];
        if b == 34u8 {
            ctx.pos = q + 1;
            closed = true;
            proof {
                assert(value@ + Seq::<char>::empty() =~= value@);
                assert(es + Seq::<Report>::empty() =~= es);
                assert(ss + Seq::<Report>::empty() =~= ss);
            }
            break;
        } else if b == 92u8 {
            let q1 = q + 1;
            if q1 >= n {
                ctx.pos = q1;
                proof {
                    assert(value@ + Seq::<char>::empty() =~= value@);
                    assert(es + Seq::<Report>::empty() =~= es);
                    assert(ss + Seq::<Report>::empty() =~= ss);
                }
                break;
            }
            match ctx.char_at_exec(q1) {
                None => {
                    ctx.pos = q1;
                    proof {
                        assert(value@ + Seq::<char>::empty() =~= value@);
                        assert(es + Seq::<Report>::empty() =~= es);
                        assert(ss + Seq::<Report>::empty() =~= ss);
                    }
                    break;
                },
                Some(e) => {
                    let ghost st = escape_step(s, q as int, e);
                    let ghost v0 = value@;
                    let ghost c0 = *ctx;
                    proof {
                        lemma_escape_step_advances(s, q as int, e);
                    }
                    if e == 'n' || e == 'r' || e == 't' || e == '\\' || e == '"' || e == '0' {
                        let ch = if e == 'n' {
                            '\n'
                        } else if e == 'r' {
                            '\r'
                        } else if e == 't' {
                            '\t'
                        } else if e == '0' {
                            '\0'
                        } else {
                            e
                        };
                        value.push(ch);
                        ctx.pos = q1 + 1;
                        proof {
                            assert(value@ =~= v0 + st.1);
                            assert(ctx.parse_errors@ =~= ctx.parse_errors@);
                            assert(es + st.2 =~= es);
                            assert(ss + st.3 =~= ss);
                        }
                    } else if e == 'x' || e == 'u' || e == 'U' {
                        let count: usize = if e == 'x' {
                            2
                        } else if e == 'u' {
                            4
                        } else {
                            8
                        };
                        ctx.pos = q1 + 1;
                        parse_hex_escape(ctx, q, count, &mut value);
                        proof {
                            lemma_pushed_trans(o.parse_errors@, c0.parse_errors@, ctx.parse_errors@, es, st.2);
                            lemma_pushed_trans(o.strict_mode_violations@, c0.strict_mode_violations@, ctx.strict_mode_violations@, ss, st.3);
                        }
                    } else {
                        let l: usize = if ctx.source[q1] < 0x80u8 {
                            1
                        } else if ctx.source[q1] < 0xE0u8 {
                            2
                        } else if ctx.source[q1] < 0xF0u8 {
                            3
                        } else {
                            4
                        };
                        let mut m = str_chars("Unknown escape sequence '\\");
                        m.push(e);
                        let tail = str_chars("'");
                        push_chars(&mut m, tail.as_slice());
                        let er = ParseError::new((q, q1 + l), m);
                        ctx.add_parse_error(er);
                        value.push(e);
                        ctx.pos = q1 + l;
                        proof {
                            assert(m@ =~= unknown_escape_message(e));
                            assert(value@ =~= v0 + st.1);
                            assert(seq![((q, (q1 + l) as usize), unknown_escape_message(e))][0] == ((q, (q1 + l) as usize), unknown_escape_message(e)));
                            assert(ctx.parse_errors@.subrange(0, c0.parse_errors@.len() as int) =~= c0.parse_errors@);
                            lemma_pushed_trans(o.parse_errors@, c0.parse_errors@, ctx.parse_errors@, es, st.2);
                            assert(ss + st.3 =~= ss);
                        }
                    }
                    proof {
                        let r = quoted_scan(s, ctx.pos as int);
                        lemma_assoc(v0, st.1, r.2);
                        lemma_assoc(es, st.2, r.3);
                        lemma_assoc(ss, st.3, r.4);
                        es = es + st.2;
                        ss = ss + st.3;
                    }
                },
            }
        } else if b == 10u8 || b == 13u8 {
            proof {
                assert(value@ + Seq::<char>::empty() =~= value@);
                assert(es + Seq::<Report>::empty() =~= es);
                assert(ss + Seq::<Report>::empty() =~= ss);
            }
            break;
        } else {
            match ctx.char_at_exec(q) {
                None => {
                    proof {
                        assert(value@ + Seq::<char>::empty() =~= value@);
                        assert(es + Seq::<Report>::empty() =~= es);
                        assert(ss + Seq::<Report>::empty() =~= ss);
                    }
                    break;
                },
                Some(c) => {
                    let ghost v0 = value@;
                    let l: usize = if b < 0x80u8 {
                        1
                    } else if b < 0xE0u8 {
                        2
                    } else if b < 0xF0u8 {
                        3
                    } else {
                        4
                    };
                    value.push(c);
                    ctx.pos = q + l;
                    proof {
                        let r = quoted_scan(s, ctx.pos as int);
                        assert(value@ =~= v0 + seq![c]);
                        lemma_assoc(v0, seq![c], r.2);
                    }
                },
            }
        }
    }
    let end = ctx.pos;
    if !closed {
        let e = ParseError::with_range((start, end), str_chars("Unterminated string literal"), (start, start + 1));
        let ghost before = ctx.parse_errors@;
        ctx.add_parse_error(e);
        proof {
            assert(ctx.parse_errors@.drop_last() == before);
        }
    }
    let ghost c = *ctx;
    let node_id = ctx.alloc_node_id(start, end);
    proof {
        assert(pick(c));
    }
    Expr::Literal(ExprLiteral { node_id, kind: ExprLiteralKind::Str(value) })
}


/// The simple escapes of a quoted string: a backslash followed by `n`, `r`,
/// `t`, `\\`, `"` or `0` stands for line feed (U+000A), carriage return
/// (U+000D), tab (U+0009), backslash, quote and NUL (U+0000); it adds that
/// one character, reports nothing, and the string goes on after the escape.
pub proof fn lemma_simple_escape_decodes(s: Seq<u8>, q: int, e: char)
    requires
        0 <= q,
        q + 1 < s.len(),
        s[q] == 92,
        char_at(s, q + 1) == Some(e),
        e == 'n' || e == 'r' || e == 't' || e == '\\' || e == '"' || e == '0',
    ensures
        ({
            let whole = quoted_scan(s, q);
            let rest = quoted_scan(s, q + 2);
            let c = if e == 'n' {
                10u32
            } else if e == 'r' {
                13u32
            } else if e == 't' {
                9u32
            } else if e == '\\' {
                92u32
            } else if e == '"' {
                34u32
            } else {
                0u32
            };
            &&& whole.0 == rest.0
            &&& whole.1 == rest.1
            &&& whole.2.len() == rest.2.len() + 1
            &&& whole.2[0] as u32 == c
            &&& whole.2.drop_first() == rest.2
            &&& whole.3 == rest.3
            &&& whole.4 == rest.4
        }),
{
    lemma_escape_step_advances(s, q, e);
    let rest = quoted_scan(s, q + 2);
    let st = escape_step(s, q, e);
    assert(st.0 == q + 2);
    assert((st.1 + rest.2).drop_first() =~= rest.2);
    assert(st.2 + rest.3 =~= rest.3);
    assert(st.3 + rest.4 =~= rest.4);
}

/// An escape whose character is none of the known ones (`n r t \\ " 0 x u
/// U`) adds that character itself, reports one error over the backslash and
/// the character, and the string goes on after it.
pub proof fn lemma_unknown_escape_kept(s: Seq<u8>, q: int, e: char)
    requires
        0 <= q,
        q + 1 < s.len(),
        s[q] == 92,
        char_at(s, q + 1) == Some(e),
        !(e == 'n' || e == 'r' || e == 't' || e == '\\' || e == '"' || e == '0' || e == 'x' || e == 'u' || e == 'U'),
    ensures
        ({
            let end = q + 1 + lead_len(s[q + 1]);
            let whole = quoted_scan(s, q);
            let rest = quoted_scan(s, end);
            &&& whole.0 == rest.0
            &&& whole.1 == rest.1
            &&& whole.2 == seq![e] + rest.2
            &&& whole.3.len() == rest.3.len() + 1
            &&& whole.3[0].0 == (q as usize, end as usize)
            &&& whole.3[0].1 == unknown_escape_message(e)
            &&& whole.3.drop_first() == rest.3
            &&& whole.4 == rest.4
        }),
{
    lemma_escape_step_advances(s, q, e);
    let end = q + 1 + lead_len(s[q + 1]);
    let rest = quoted_scan(s, end);
    let st = escape_step(s, q, e);
    assert(st.0 == end);
    assert((st.2 + rest.3).drop_first() =~= rest.3);
    assert(st.3 + rest.4 =~= rest.4);
}

/// A character of the text that is not a quote, a backslash or a line break
/// stands for itself in the string, with nothing reported.
pub proof fn lemma_plain_char_kept(s: Seq<u8>, q: int, c: char)
    requires
        0 <= q < s.len(),
        s[q] != 34 && s[q] != 92 && s[q] != 10 && s[q] != 13,
        char_at(s, q) == Some(c),
    ensures
        ({
            let whole = quoted_scan(s, q);
            let rest = quoted_scan(s, q + lead_len(s[q]));
            &&& whole.0 == rest.0
            &&& whole.1 == rest.1
            &&& whole.2 == seq![c] + rest.2
            &&& whole.3 == rest.3
            &&& whole.4 == rest.4
        }),
{
}

} // verus!
