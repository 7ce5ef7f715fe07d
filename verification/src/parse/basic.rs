use vstd::prelude::*;

use crate::model::symbol::{push_chars, str_chars};
use crate::model::{Ident, NodeId, Symbol};
use vstd::slice::slice_subrange;
use vstd::string::StrSliceExecFns;
use vstd::utf8::{decode_utf8, encode_utf8_decode_utf8, valid_utf8};

use super::context::{is_continuation, lead_len};
use super::trivia::str_of_utf8;
use super::{ParseContext, ParseError};

verus! {

/// What `char::is_alphanumeric` gives for `c` (Unicode's letters and numbers).
pub uninterp spec fn char_alphanumeric(c: char) -> bool;

/// What `char::is_lowercase` gives for `c` (Unicode's `Lowercase` property).
pub uninterp spec fn char_lowercase(c: char) -> bool;

/// An ASCII letter or digit.
pub open spec fn ascii_alphanumeric(c: char) -> bool {
    ('a' <= c <= 'z') || ('A' <= c <= 'Z') || ('0' <= c <= '9')
}

/// `char::is_alphanumeric`; on ASCII it holds of the letters and digits.
#[verifier::external_body]
pub(crate) fn is_alphanumeric(c: char) -> (r: bool)
    ensures
        r == char_alphanumeric(c),
        (c as u32) < 128 ==> (r == ascii_alphanumeric(c)),
{
    c.is_alphanumeric()
}

/// `char::is_lowercase`; on ASCII it holds of `a` to `z`.
#[verifier::external_body]
fn is_lowercase(c: char) -> (r: bool)
    ensures
        r == char_lowercase(c),
        (c as u32) < 128 ==> (r == ('a' <= c <= 'z')),
{
    c.is_lowercase()
}

/// An ASCII digit.
pub open spec fn is_digit(c: char) -> bool {
    '0' <= c <= '9'
}

/// A character that may begin an identifier.
pub open spec fn ident_start(c: char) -> bool {
    char_alphanumeric(c) || c == '_'
}

/// A character that may stand in an identifier: lowercase, a digit or `_`.
pub open spec fn ident_allowed(c: char) -> bool {
    char_lowercase(c) || is_digit(c) || c == '_'
}

/// The character whose UTF-8 encoding starts at `p`, if one does.
pub open spec fn char_at(s: Seq<u8>, p: int) -> Option<char> {
    if 0 <= p < s.len() && p + lead_len(s[p]) <= s.len() {
        let t = s.subrange(p, p + lead_len(s[p]));
        if valid_utf8(t) && decode_utf8(t).len() == 1 {
            Some(decode_utf8(t)[0])
        } else {
            None
        }
    } else {
        None
    }
}

/// Scanning an identifier that began at `start`, from `q`: letters, digits
/// and `_` (and, after the first character, `-`, kept to report it). Gives
/// where it ends, the first character not allowed in identifiers, and the
/// characters from `q`.
pub open spec fn ident_scan(s: Seq<u8>, start: int, q: int, fi: Option<int>) -> (int, Option<int>, Seq<char>)
    decreases s.len() - q,
{
    if q < 0 || q >= s.len() {
        (q, fi, Seq::empty())
    } else {
        match char_at(s, q) {
            Some(ch) => if ident_start(ch) {
                let fi2 = if fi is None && !ident_allowed(ch) { Some(q) } else { fi };
                let r = ident_scan(s, start, q + lead_len(s[q]), fi2);
                (r.0, r.1, seq![ch] + r.2)
            } else if ch == '-' && q > start {
                let fi2 = if fi is None { Some(q) } else { fi };
                let r = ident_scan(s, start, q + lead_len(s[q]), fi2);
                (r.0, r.1, seq![ch] + r.2)
            } else {
                (q, fi, Seq::empty())
            },
            None => (q, fi, Seq::empty()),
        }
    }
}

/// The first backtick at or after `q`, or the end.
pub open spec fn next_backtick(s: Seq<u8>, q: int) -> int
    decreases s.len() - q,
{
    if q < 0 || q >= s.len() {
        s.len() as int
    } else if s[q] == 96 {
        q
    } else {
        next_backtick(s, q + 1)
    }
}

pub proof fn lemma_next_backtick_bounds(s: Seq<u8>, q: int)
    requires
        0 <= q <= s.len(),
    ensures
        q <= next_backtick(s, q) <= s.len(),
        next_backtick(s, q) < s.len() ==> s[next_backtick(s, q)] == 96,
        forall|j: int| q <= j < next_backtick(s, q) ==> s[j] != 96,
    decreases s.len() - q,
{
    if q < s.len() && s[q] != 96 {
        lemma_next_backtick_bounds(s, q + 1);
    }
}

/// How many backticks stand in a row from `q`.
pub open spec fn backtick_run(s: Seq<u8>, q: int) -> nat
    decreases s.len() - q,
{
    if 0 <= q < s.len() && s[q] == 96 {
        1 + backtick_run(s, q + 1)
    } else {
        0
    }
}

pub proof fn lemma_backtick_run_bound(s: Seq<u8>, q: int)
    requires
        0 <= q <= s.len(),
    ensures
        q + backtick_run(s, q) <= s.len(),
        forall|j: int| q <= j < q + backtick_run(s, q) ==> s[j] == 96,
        q + backtick_run(s, q) < s.len() ==> s[q + backtick_run(s, q)] != 96,
    decreases s.len() - q,
{
    if q < s.len() && s[q] == 96 {
        lemma_backtick_run_bound(s, q + 1);
    }
}

/// Scanning a raw identifier from `q` (after its opening backtick): text up
/// to a run of backticks, each pair of which stands for one backtick and an
/// odd one more closes it. Gives the name's bytes, where it ends, and
/// whether it was closed.
pub open spec fn raw_scan(s: Seq<u8>, q: int) -> (Seq<u8>, int, bool)
    decreases s.len() - q,
{
    if q < 0 || q > s.len() {
        (Seq::empty(), q, false)
    } else {
        let nb = next_backtick(s, q);
        proof {
            lemma_next_backtick_bounds(s, q);
            lemma_backtick_run_bound(s, nb);
        }
        if nb >= s.len() {
            (s.subrange(q, s.len() as int), s.len() as int, false)
        } else {
            let run = backtick_run(s, nb);
            let piece = s.subrange(q, nb) + Seq::new(run / 2, |i: int| 96u8);
            if run % 2 == 1 || run == 0 {
                (piece, nb + run, run % 2 == 1)
            } else {
                let r = raw_scan(s, nb + run);
                (piece + r.0, r.1, r.2)
            }
        }
    }
}

/// What a failed parse left: only the position moved.
pub open spec fn moved_only(n: ParseContext, o: ParseContext) -> bool {
    &&& n.source == o.source
    &&& n.file_path == o.file_path
    &&& n.next_node_id == o.next_node_id
    &&& n.node_ranges == o.node_ranges
    &&& n.comments == o.comments
    &&& n.parse_errors == o.parse_errors
    &&& n.strict_mode_violations == o.strict_mode_violations
    &&& n.indent_stack == o.indent_stack
    &&& n.suppress_narrowing_postfix == o.suppress_narrowing_postfix
    &&& n.trivia_had_blank_line == o.trivia_had_blank_line
    &&& n.line_start == o.line_start
}

/// What a successful parse left: the position moved and one node id was
/// given the span `(start, end)`.
pub open spec fn moved_with_node(n: ParseContext, o: ParseContext, start: int, end: int) -> bool {
    &&& n.source == o.source
    &&& n.file_path == o.file_path
    &&& n.next_node_id == o.next_node_id + 1
    &&& n.node_ranges@ == o.node_ranges@.push((start as usize, end as usize))
    &&& n.comments == o.comments
    &&& n.parse_errors == o.parse_errors
    &&& n.strict_mode_violations == o.strict_mode_violations
    &&& n.indent_stack == o.indent_stack
    &&& n.suppress_narrowing_postfix == o.suppress_narrowing_postfix
    &&& n.trivia_had_blank_line == o.trivia_had_blank_line
    &&& n.line_start == o.line_start
    &&& n.pos == end
}

/// `e` is an error over `range` with `msg`, underlining `under`.
pub open spec fn err_at(e: ParseError, range: (int, int), msg: Seq<char>, under: (int, int)) -> bool {
    &&& e.consumed_range == (range.0 as usize, range.1 as usize)
    &&& e.message@ == msg
    &&& e.error_range == Some((under.0 as usize, under.1 as usize))
    &&& e.cause is None
}

pub open spec fn digit_start_message(name: Seq<char>) -> Seq<char> {
    "Identifier '"@ + name + "' cannot start with a digit"@
}

pub open spec fn bad_char_message(c: char, name: Seq<char>) -> Seq<char> {
    "Unexpected character '"@ + seq![c] + "' in identifier '"@ + name
        + "' (must be lowercase, digits, or underscore)"@
}

/// What `try_parse_ident` gives from context `o`, leaving `n`.
#[verifier::opaque]
pub open spec fn ident_outcome(o: ParseContext, n: ParseContext, r: Result<Option<Ident>, ParseError>) -> bool {
    let s = o.source@;
    let p0 = o.pos as int;
    let len = s.len() as int;
    if p0 >= len || char_at(s, p0) is None || (s[p0] == 96 && p0 + 1 < len && s[p0 + 1] == 96) {
        r is Ok && r->Ok_0 is None && n == o
    } else if s[p0] == 96 {
        let (bytes, end, closed) = raw_scan(s, p0 + 1);
        if !closed {
            &&& r matches Err(e) && err_at(e, (p0, end), "Unterminated raw identifier"@, (p0, end))
            &&& moved_only(n, o) && n.pos == end
        } else if bytes.len() == 0 {
            &&& r matches Err(e) && err_at(e, (p0, end), "Raw identifier cannot be empty"@, (p0, end))
            &&& moved_only(n, o) && n.pos == end
        } else {
            &&& r matches Ok(Some(id)) && id.is_raw && id.node_id == NodeId(o.next_node_id)
                && (valid_utf8(bytes) ==> id.name@ == decode_utf8(bytes))
            &&& moved_with_node(n, o, p0, end)
        }
    } else if !ident_start(char_at(s, p0)->0) {
        r is Ok && r->Ok_0 is None && n == o
    } else {
        let (end, fi, name) = ident_scan(s, p0, p0, None);
        let first = char_at(s, p0)->0;
        if is_digit(first) {
            &&& r matches Err(e) && err_at(e, (p0, end), digit_start_message(name), (p0, p0 + 1))
            &&& moved_only(n, o) && n.pos == end
        } else if fi is Some {
            let ip = fi->0;
            &&& r matches Err(e) && err_at(
                e,
                (p0, end),
                bad_char_message(char_at(s, ip)->0, name),
                (ip, ip + lead_len(s[ip])),
            )
            &&& moved_only(n, o) && n.pos == end
        } else {
            &&& r matches Ok(Some(id)) && !id.is_raw && id.node_id == NodeId(o.next_node_id) && id.name@ == name
            &&& moved_with_node(n, o, p0, end)
        }
    }
}

/// `char_at` at byte `p` of `s`, computed.
pub fn char_at_bytes(s: &[u8], p: usize) -> (r: Option<char>)
    ensures
        r == char_at(s@, p as int),
{
    let n = s.len();
    if p >= n {
        return None;
    }
    let b = s[p];
    let l: usize = if b < 0x80u8 {
        1
    } else if b < 0xE0u8 {
        2
    } else if b < 0xF0u8 {
        3
    } else {
        4
    };
    if l > n - p {
        return None;
    }
    let bytes = slice_subrange(s, p, p + l);
    match str_of_utf8(bytes) {
        Some(st) => {
            proof {
                encode_utf8_decode_utf8(st@);
                vstd::utf8::encode_utf8_valid_utf8(st@);
            }
            if st.unicode_len() == 1 {
                Some(st.get_char(0))
            } else {
                None
            }
        },
        None => None,
    }
}

impl ParseContext {
    /// `char_at` at byte `p`, computed.
    pub(crate) fn char_at_exec(&self, p: usize) -> (r: Option<char>)
        requires
            self.wf(),
        ensures
            r == char_at(self.source@, p as int),
    {
        let n = self.source.len();
        if p >= n {
            return None;
        }
        let b = self.source[p];
        let l: usize = if b < 0x80u8 {
            1
        } else if b < 0xE0u8 {
            2
        } else if b < 0xF0u8 {
            3
        } else {
            4
        };
        if p + l > n {
            return None;
        }
        let bytes = slice_subrange(self.source.as_slice(), p, p + l);
        match str_of_utf8(bytes) {
            Some(st) => {
                proof {
                    encode_utf8_decode_utf8(st@);
                    vstd::utf8::encode_utf8_valid_utf8(st@);
                }
                if st.unicode_len() == 1 {
                    Some(st.get_char(0))
                } else {
                    None
                }
            },
            None => None,
        }
    }

    /// The byte length of the character starting at `p` (from its first byte).
    fn lead_at(&self, p: usize) -> (r: usize)
        requires
            self.wf(),
            p < self.source@.len(),
        ensures
            r == lead_len(self.source@[p as int]),
            1 <= r <= 4,
    {
        let b = self.source[p];
        if b < 0x80u8 {
            1
        } else if b < 0xE0u8 {
            2
        } else if b < 0xF0u8 {
            3
        } else {
            4
        }
    }
}

proof fn lemma_subrange_push(s: Seq<u8>, a: int, b: int)
    requires
        0 <= a <= b < s.len(),
    ensures
        s.subrange(a, b + 1) == s.subrange(a, b).push(s[b]),
{
    assert(s.subrange(a, b + 1) =~= s.subrange(a, b).push(s[b]));
}

fn digit_start_msg(name: &[char]) -> (r: Vec<char>)
    ensures
        r@ == digit_start_message(name@),
{
    let mut m = str_chars("Identifier '");
    push_chars(&mut m, name);
    let tail = str_chars("' cannot start with a digit");
    push_chars(&mut m, tail.as_slice());
    m
}

fn bad_char_msg(c: char, name: &[char]) -> (r: Vec<char>)
    ensures
        r@ == bad_char_message(c, name@),
{
    let mut m = str_chars("Unexpected character '");
    m.push(c);
    let mid = str_chars("' in identifier '");
    push_chars(&mut m, mid.as_slice());
    push_chars(&mut m, name);
    let tail = str_chars("' (must be lowercase, digits, or underscore)");
    push_chars(&mut m, tail.as_slice());
    m
}

/// The raw identifier whose opening backtick is at the position.
#[verifier::rlimit(40)]
fn parse_raw_ident(ctx: &mut ParseContext) -> (r: Result<Option<Ident>, ParseError>)
    requires
        old(ctx).wf(),
        old(ctx).next_node_id < u32::MAX,
        old(ctx).pos < old(ctx).source@.len(),
        old(ctx).source@[old(ctx).pos as int] == 96,
        !(old(ctx).pos + 1 < old(ctx).source@.len() && old(ctx).source@[old(ctx).pos + 1] == 96),
    ensures
        final(ctx).wf(),
        ({
            let s = old(ctx).source@;
            let p0 = old(ctx).pos as int;
            let (bytes, end, closed) = raw_scan(s, p0 + 1);
            if !closed {
                &&& r matches Err(e) && err_at(e, (p0, end), "Unterminated raw identifier"@, (p0, end))
                &&& moved_only(*final(ctx), *old(ctx)) && final(ctx).pos == end
            } else if bytes.len() == 0 {
                &&& r matches Err(e) && err_at(e, (p0, end), "Raw identifier cannot be empty"@, (p0, end))
                &&& moved_only(*final(ctx), *old(ctx)) && final(ctx).pos == end
            } else {
                &&& r matches Ok(Some(id)) && id.is_raw && id.node_id == NodeId(old(ctx).next_node_id)
                    && (valid_utf8(bytes) ==> id.name@ == decode_utf8(bytes))
                &&& moved_with_node(*final(ctx), *old(ctx), p0, end)
            }
        }),
{
    let ghost s = ctx.source@;
    let p0 = ctx.pos;
    let n = ctx.source.len();
    let ghost full = raw_scan(s, p0 + 1);
    let mut q = p0 + 1;
    let mut bytes: Vec<u8> = Vec::new();
    let mut closed = false;
    loop
        invariant_except_break
            full == (bytes@ + raw_scan(s, q as int).0, raw_scan(s, q as int).1, raw_scan(s, q as int).2),
        invariant
            ctx.wf(),
            *ctx == *old(ctx),
            s == ctx.source@,
            n == s.len(),
            p0 + 1 <= q <= n,
        ensures
            full == (bytes@, q as int, closed),
            p0 + 1 <= q <= n,
        decreases n - q,
    {
        let ghost b0 = bytes@;
        let ghost q0 = q as int;
        proof {
            lemma_next_backtick_bounds(s, q as int);
        }
        let mut nb = q;
        while nb < n && ctx.source[nb] != 96u8
            invariant
                ctx.wf(),
                s == ctx.source@,
                n == s.len(),
                0 <= q0 <= nb <= n,
                next_backtick(s, q0) == next_backtick(s, nb as int),
                bytes@ == b0 + s.subrange(q0, nb as int),
            decreases n - nb,
        {
            let ghost nbi = nb as int;
            assert(q0 <= nbi < s.len());
            bytes.push(ctx.source[nb]);
            proof {
                lemma_subrange_push(s, q0, nbi);
            }
            nb = nb + 1;
        }
        if nb >= n {
            proof {
                assert(next_backtick(s, q0) == s.len());
            }
            q = n;
            closed = false;
            break;
        }
        proof {
            lemma_backtick_run_bound(s, nb as int);
        }
        let mut run: usize = 0;
        while nb + run < n && ctx.source[nb + run] == 96u8
            invariant
                ctx.wf(),
                s == ctx.source@,
                n == s.len(),
                nb < n,
                nb + run <= n,
                backtick_run(s, nb as int) == run + backtick_run(s, nb + run),
            decreases n - (nb + run),
        {
            run = run + 1;
        }
        let ghost b1 = bytes@;
        let half = run / 2;
        let mut k: usize = 0;
        while k < half
            invariant
                k <= half,
                bytes@ == b1 + Seq::new(k as nat, |i: int| 96u8),
            decreases half - k,
        {
            bytes.push(96u8);
            proof {
                assert(Seq::new((k + 1) as nat, |i: int| 96u8) =~= Seq::new(k as nat, |i: int| 96u8).push(96u8));
            }
            k = k + 1;
        }
        proof {
            assert(backtick_run(s, nb as int) == run);
            assert(run >= 1);
            let piece = s.subrange(q0, nb as int) + Seq::new(run as nat / 2, |i: int| 96u8);
            assert(bytes@ =~= b0 + piece);
        }
        q = nb + run;
        if run % 2 == 1 {
            closed = true;
            break;
        }
        proof {
            let rest = raw_scan(s, q as int);
            assert(full.0 =~= bytes@ + rest.0);
        }
    }
    ctx.pos = q;
    if !closed {
        return Err(ParseError::with_range((p0, q), str_chars("Unterminated raw identifier"), (p0, q)));
    }
    if bytes.len() == 0 {
        return Err(ParseError::with_range((p0, q), str_chars("Raw identifier cannot be empty"), (p0, q)));
    }
    let name = match str_of_utf8(bytes.as_slice()) {
        Some(st) => {
            proof {
                encode_utf8_decode_utf8(st@);
            }
            str_chars(st)
        },
        None => Vec::new(),
    };
    let node_id = ctx.alloc_node_id(p0, q);
    Ok(Some(Ident { node_id, name: Symbol { chars: name }, is_raw: true }))
}

/// Parse an identifier at the position: a normal one (lowercase letters,
/// digits and `_`, not starting with a digit) or a raw one between
/// backticks (a doubled backtick inside stands for one). `None`, with
/// nothing consumed, where no identifier starts; an error, with the text
/// consumed, for an unclosed or empty raw identifier, one starting with a
/// digit, or one holding another letter or a `-`.
#[verifier::rlimit(40)]
pub fn try_parse_ident(ctx: &mut ParseContext) -> (r: Result<Option<Ident>, ParseError>)
    requires
        old(ctx).wf(),
        old(ctx).next_node_id < u32::MAX,
    ensures
        final(ctx).wf(),
        ident_outcome(*old(ctx), *final(ctx), r),
{
    reveal(ident_outcome);
    let ghost o = *ctx;
    let ghost s = ctx.source@;
    let n = ctx.source.len();
    let p0 = ctx.pos;
    if p0 >= n {
        return Ok(None);
    }
    let first = match ctx.char_at_exec(p0) {
        Some(c) => c,
        None => {
            return Ok(None);
        },
    };
    if ctx.source[p0] == 96u8 {
        if p0 + 1 < n && ctx.source[p0 + 1] == 96u8 {
            return Ok(None);
        }
        return parse_raw_ident(ctx);
    }
    if !(is_alphanumeric(first) || first == '_') {
        return Ok(None);
    }
    let ghost full = ident_scan(s, p0 as int, p0 as int, None);
    let mut q = p0;
    let mut fi: Option<usize> = None;
    let mut name: Vec<char> = Vec::new();
    loop
        invariant_except_break
            ({
                let rest = ident_scan(s, p0 as int, q as int, match fi { Some(i) => Some(i as int), None => None });
                full == (rest.0, rest.1, name@ + rest.2)
            }),
        invariant
            ctx.wf(),
            *ctx == o,
            s == ctx.source@,
            n == s.len(),
            p0 <= q <= n,
            fi matches Some(ip) ==> p0 <= ip < q && char_at(s, ip as int) is Some,
        ensures
            full == (q as int, match fi { Some(i) => Some(i as int), None => None }, name@),
            p0 <= q <= n,
            fi matches Some(ip) ==> p0 <= ip < q && char_at(s, ip as int) is Some,
        decreases n - q,
    {
        let ghost fg = match fi { Some(i) => Some(i as int), None => None::<int> };
        if q >= n {
            proof {
                assert(name@ + Seq::<char>::empty() =~= name@);
            }
            break;
        }
        match ctx.char_at_exec(q) {
            Some(ch) => {
                let l = ctx.lead_at(q);
                if is_alphanumeric(ch) || ch == '_' {
                    if fi.is_none() && !is_lowercase(ch) && !('0' <= ch && ch <= '9') && ch != '_' {
                        fi = Some(q);
                    }
                    proof {
                        let rest2 = ident_scan(s, p0 as int, q + l, match fi { Some(i) => Some(i as int), None => None });
                        assert(name@ + (seq![ch] + rest2.2) =~= name@.push(ch) + rest2.2);
                    }
                    name.push(ch);
                    q = q + l;
                } else if ch == '-' && q > p0 {
                    if fi.is_none() {
                        fi = Some(q);
                    }
                    proof {
                        let rest2 = ident_scan(s, p0 as int, q + l, match fi { Some(i) => Some(i as int), None => None });
                        assert(name@ + (seq![ch] + rest2.2) =~= name@.push(ch) + rest2.2);
                    }
                    name.push(ch);
                    q = q + l;
                } else {
                    proof {
                        assert(name@ + Seq::<char>::empty() =~= name@);
                    }
                    break;
                }
            },
            None => {
                proof {
                    assert(name@ + Seq::<char>::empty() =~= name@);
                }
                break;
            },
        }
    }
    ctx.pos = q;
    if '0' <= first && first <= '9' {
        return Err(ParseError::with_range((p0, q), digit_start_msg(name.as_slice()), (p0, p0 + 1)));
    }
    match fi {
        Some(ip) => {
            let c = match ctx.char_at_exec(ip) {
                Some(c) => c,
                None => first,
            };
            let l = ctx.lead_at(ip);
            Err(ParseError::with_range((p0, q), bad_char_msg(c, name.as_slice()), (ip, ip + l)))
        },
        None => {
            let node_id = ctx.alloc_node_id(p0, q);
            Ok(Some(Ident { node_id, name: Symbol { chars: name }, is_raw: false }))
        },
    }
}

proof fn lemma_ident_scan_keeps_invalid(s: Seq<u8>, start: int, q: int, fi: Option<int>)
    requires
        fi is Some,
    ensures
        ident_scan(s, start, q, fi).1 is Some,
    decreases s.len() - q,
{
    if 0 <= q < s.len() {
        match char_at(s, q) {
            Some(ch) => {
                if ident_start(ch) || (ch == '-' && q > start) {
                    lemma_ident_scan_keeps_invalid(s, start, q + lead_len(s[q]), fi);
                }
            },
            None => {},
        }
    }
}

proof fn lemma_ident_scan_allowed(s: Seq<u8>, start: int, q: int)
    requires
        ident_scan(s, start, q, None).1 is None,
    ensures
        forall|k: int| 0 <= k < ident_scan(s, start, q, None).2.len() ==> ident_allowed(
            #[trigger] ident_scan(s, start, q, None).2[k],
        ),
    decreases s.len() - q,
{
    if 0 <= q < s.len() {
        match char_at(s, q) {
            Some(ch) => {
                if ident_start(ch) {
                    if !ident_allowed(ch) {
                        lemma_ident_scan_keeps_invalid(s, start, q + lead_len(s[q]), Some(q));
                    } else {
                        lemma_ident_scan_allowed(s, start, q + lead_len(s[q]));
                        let r = ident_scan(s, start, q + lead_len(s[q]), None);
                        assert forall|k: int| 0 <= k < (seq![ch] + r.2).len() implies ident_allowed((seq![ch] + r.2)[k]) by {
                            if k > 0 {
                                assert((seq![ch] + r.2)[k] == r.2[k - 1]);
                            }
                        }
                    }
                } else if ch == '-' && q > start {
                    lemma_ident_scan_keeps_invalid(s, start, q + lead_len(s[q]), Some(q));
                }
            },
            None => {},
        }
    }
}

/// A plain identifier that parses is well formed: not empty, not starting
/// with a digit, and made of lowercase letters, digits and `_` alone.
pub proof fn lemma_parsed_ident_well_formed(o: ParseContext, n: ParseContext, id: Ident)
    requires
        ident_outcome(o, n, Ok(Some(id))),
        !id.is_raw,
    ensures
        id.name@.len() > 0,
        !is_digit(id.name@[0]),
        forall|k: int| 0 <= k < id.name@.len() ==> ident_allowed(#[trigger] id.name@[k]),
{
    reveal(ident_outcome);
    let s = o.source@;
    let p0 = o.pos as int;
    lemma_ident_scan_allowed(s, p0, p0);
    let first = char_at(s, p0)->0;
    let fi2 = if !ident_allowed(first) { Some(p0) } else { None::<int> };
    let r = ident_scan(s, p0, p0 + lead_len(s[p0]), fi2);
    assert(ident_scan(s, p0, p0, None).2 == seq![first] + r.2);
    assert((seq![first] + r.2)[0] == first);
}

pub proof fn lemma_ident_scan_ge(s: Seq<u8>, start: int, q: int, fi: Option<int>)
    ensures
        ident_scan(s, start, q, fi).0 >= q,
    decreases s.len() - q,
{
    if 0 <= q < s.len() {
        match char_at(s, q) {
            Some(ch) => {
                if ident_start(ch) {
                    lemma_ident_scan_ge(s, start, q + lead_len(s[q]), if fi is None && !ident_allowed(ch) { Some(q) } else { fi });
                } else if ch == '-' && q > start {
                    lemma_ident_scan_ge(s, start, q + lead_len(s[q]), if fi is None { Some(q) } else { fi });
                }
            },
            None => {},
        }
    }
}

pub proof fn lemma_raw_scan_ge(s: Seq<u8>, q: int)
    requires
        0 <= q <= s.len(),
    ensures
        q <= raw_scan(s, q).1 <= s.len(),
    decreases s.len() - q,
{
    lemma_next_backtick_bounds(s, q);
    let nb = next_backtick(s, q);
    if nb < s.len() {
        lemma_backtick_run_bound(s, nb);
        let run = backtick_run(s, nb);
        if !(run % 2 == 1 || run == 0) {
            lemma_raw_scan_ge(s, nb + run);
        }
    }
}

/// A successful `try_parse_ident` consumed its identifier; any outcome
/// leaves the position within the source, not before where it was.
pub proof fn lemma_ident_outcome_advances(o: ParseContext, n: ParseContext, r: Result<Option<Ident>, ParseError>)
    requires
        o.wf(),
        ident_outcome(o, n, r),
    ensures
        o.pos <= n.pos <= o.source@.len(),
        r matches Ok(Some(_)) ==> n.pos > o.pos,
        keeps_reports(n, o),
        n.next_node_id <= o.next_node_id + (n.pos - o.pos),
        r matches Ok(None) ==> n == o,
        !(r matches Ok(Some(_))) ==> n.next_node_id == o.next_node_id,
{
    reveal(ident_outcome);
    let s = o.source@;
    let p0 = o.pos as int;
    if p0 < s.len() && char_at(s, p0) is Some && !(s[p0] == 96 && p0 + 1 < s.len() && s[p0 + 1] == 96) {
        if s[p0] == 96 {
            lemma_raw_scan_ge(s, p0 + 1);
        } else if ident_start(char_at(s, p0)->0) {
            let first = char_at(s, p0)->0;
            let fi2 = if !ident_allowed(first) { Some(p0) } else { None::<int> };
            lemma_ident_scan_ge(s, p0, p0 + lead_len(s[p0]), fi2);
            lemma_ident_scan_end(s, p0, p0, None);
        }
    }
}

proof fn lemma_ident_scan_end(s: Seq<u8>, start: int, q: int, fi: Option<int>)
    requires
        0 <= q <= s.len(),
    ensures
        ident_scan(s, start, q, fi).0 <= s.len(),
    decreases s.len() - q,
{
    if 0 <= q < s.len() {
        match char_at(s, q) {
            Some(ch) => {
                if ident_start(ch) {
                    lemma_ident_scan_end(s, start, q + lead_len(s[q]), if fi is None && !ident_allowed(ch) { Some(q) } else { fi });
                } else if ch == '-' && q > start {
                    lemma_ident_scan_end(s, start, q + lead_len(s[q]), if fi is None { Some(q) } else { fi });
                }
            },
            None => {},
        }
    }
}

/// Everything but the position and the node ids is as in `o`.
pub open spec fn keeps_reports(n: ParseContext, o: ParseContext) -> bool {
    &&& n.source == o.source
    &&& n.file_path == o.file_path
    &&& n.comments == o.comments
    &&& n.parse_errors == o.parse_errors
    &&& n.strict_mode_violations == o.strict_mode_violations
    &&& n.indent_stack == o.indent_stack
    &&& n.suppress_narrowing_postfix == o.suppress_narrowing_postfix
    &&& n.trivia_had_blank_line == o.trivia_had_blank_line
    &&& n.line_start == o.line_start
}

/// `n` is `m` moved one byte on (past a `.`).
pub open spec fn past_dot(n: ParseContext, m: ParseContext) -> bool {
    &&& n.same_but_pos(&m)
    &&& n.pos == m.pos + 1
    &&& m.pos < m.source@.len()
    &&& m.source@[m.pos as int] == 46
}

/// Where a missing identifier at `c` is underlined, never zero-width: the
/// character there; at the end of the text, the last character before it
/// (the first byte of an empty text).
pub open spec fn missing_ident_underline(c: ParseContext, u: (usize, usize)) -> bool {
    let s = c.source@;
    let p = c.pos as int;
    if p < s.len() {
        u == (p as usize, (p + lead_len(s[p])) as usize)
    } else if p > 0 {
        &&& u.1 == p
        &&& u.0 < p
        &&& (u.0 == 0 || !is_continuation(s[u.0 as int]))
        &&& forall|i: int| u.0 < i < p ==> is_continuation(s[i])
    } else {
        u == (0usize, 1usize)
    }
}

/// A dotted path parsed from `o` (leaving `n` and giving `r`) in attempts
/// `k`: identifier `k` parsed from `cs[k]` leaving `ms[k]` with `rs[k]`;
/// every attempt but the last gave an identifier followed by a `.`.
pub open spec fn qualified_trace(
    o: ParseContext,
    cs: Seq<ParseContext>,
    ms: Seq<ParseContext>,
    rs: Seq<Result<Option<Ident>, ParseError>>,
    n: ParseContext,
    r: Result<Vec<Ident>, ParseError>,
) -> bool {
    let m = cs.len() - 1;
    &&& cs.len() >= 1
    &&& ms.len() == cs.len()
    &&& rs.len() == cs.len()
    &&& cs[0] == o
    &&& forall|k: int| 0 <= k < cs.len() ==> ident_outcome(#[trigger] cs[k], ms[k], rs[k])
    &&& forall|k: int| 0 <= k < m ==> ((#[trigger] rs[k]) matches Ok(Some(_)) && past_dot(cs[k + 1], ms[k]))
    &&& n == ms[m]
    &&& match rs[m] {
        Ok(Some(_)) => {
            &&& !(ms[m].pos < ms[m].source@.len() && ms[m].source@[ms[m].pos as int] == 46)
            &&& r matches Ok(v) && v@ == rs.map_values(|x: Result<Option<Ident>, ParseError>| x->Ok_0->0)
        },
        Ok(None) => r matches Err(e) && {
            &&& e.consumed_range == (o.pos, cs[m].pos)
            &&& e.message@ == "Expected identifier"@
            &&& e.cause is None
            &&& e.error_range matches Some(u) && missing_ident_underline(cs[m], u)
        },
        Err(e) => r == Err::<Vec<Ident>, ParseError>(e),
    }
}

impl ParseContext {
    /// Parse a dotted path of identifiers (`a.b.c`): an error where an
    /// identifier is missing or bad.
    #[verifier::rlimit(40)]
    pub fn parse_qualified_ident(&mut self) -> (r: Result<Vec<Ident>, ParseError>)
        requires
            old(self).wf(),
            old(self).next_node_id + old(self).source@.len() - old(self).pos < u32::MAX,
        ensures
            final(self).wf(),
            exists|cs: Seq<ParseContext>, ms: Seq<ParseContext>, rs: Seq<Result<Option<Ident>, ParseError>>|
                qualified_trace(*old(self), cs, ms, rs, *final(self), r),
            keeps_reports(*final(self), *old(self)),
            old(self).pos <= final(self).pos <= final(self).source@.len(),
            final(self).next_node_id <= old(self).next_node_id + (final(self).pos - old(self).pos),
            r is Ok ==> final(self).pos > old(self).pos,
    {
        let start = self.pos;
        let mut idents: Vec<Ident> = Vec::new();
        let ghost mut cs: Seq<ParseContext> = seq![*self];
        let ghost mut ms: Seq<ParseContext> = Seq::empty();
        let ghost mut rs: Seq<Result<Option<Ident>, ParseError>> = Seq::empty();
        loop
            invariant
                self.wf(),
                keeps_reports(*self, *old(self)),
                start == old(self).pos,
                old(self).pos <= self.pos <= self.source@.len(),
                self.next_node_id <= old(self).next_node_id + (self.pos - old(self).pos),
                old(self).next_node_id + old(self).source@.len() - old(self).pos < u32::MAX,
                cs.len() == ms.len() + 1,
                rs.len() == ms.len(),
                cs[0] == *old(self),
                cs.last() == *self,
                forall|k: int| 0 <= k < ms.len() ==> ident_outcome(#[trigger] cs[k], ms[k], rs[k]),
                forall|k: int| 0 <= k < ms.len() ==> ((#[trigger] rs[k]) matches Ok(Some(_)) && past_dot(cs[k + 1], ms[k])),
                idents@ == rs.map_values(|x: Result<Option<Ident>, ParseError>| x->Ok_0->0),
            decreases self.source@.len() - self.pos,
        {
            let ghost before = *self;
            let ident_start = self.pos;
            let res = try_parse_ident(self);
            proof {
                lemma_ident_outcome_advances(before, *self, res);
            }
            let ghost after = *self;
            match res {
                Ok(Some(ident)) => {
                    let ghost rv = Ok::<Option<Ident>, ParseError>(Some(ident));
                    idents.push(ident);
                    let n = self.source.len();
                    if !(self.pos < n && self.source[self.pos] == 46u8) {
                        proof {
                            let ms2 = ms.push(after);
                            let rs2 = rs.push(rv);
                            assert(idents@ =~= rs2.map_values(|x: Result<Option<Ident>, ParseError>| x->Ok_0->0));
                            assert(qualified_trace(*old(self), cs, ms2, rs2, *self, Ok::<Vec<Ident>, ParseError>(idents)));
                        }
                        return Ok(idents);
                    }
                    self.pos = self.pos + 1;
                    proof {
                        let ms2 = ms.push(after);
                        let rs2 = rs.push(rv);
                        assert(idents@ =~= rs2.map_values(|x: Result<Option<Ident>, ParseError>| x->Ok_0->0));
                        let cs2 = cs.push(*self);
                        assert forall|k: int| 0 <= k < ms2.len() implies ident_outcome(#[trigger] cs2[k], ms2[k], rs2[k]) by {
                            if k < ms.len() {
                                assert(cs2[k] == cs[k]);
                            }
                        }
                        assert forall|k: int| 0 <= k < ms2.len() implies ((#[trigger] rs2[k]) matches Ok(Some(_)) && past_dot(cs2[k + 1], ms2[k])) by {
                            if k < ms.len() {
                                assert(cs2[k + 1] == cs[k + 1]);
                            }
                        }
                        cs = cs2;
                        ms = ms2;
                        rs = rs2;
                    }
                },
                Ok(None) => {
                    let under = if self.pos < self.source.len() {
                        (ident_start, ident_start + self.next_char_len())
                    } else {
                        self.error_here(Vec::new()).consumed_range
                    };
                    let e = ParseError::with_range((start, self.pos), str_chars("Expected identifier"), under);
                    proof {
                        let ms2 = ms.push(after);
                        let rs2 = rs.push(Ok::<Option<Ident>, ParseError>(None));
                        assert(qualified_trace(*old(self), cs, ms2, rs2, *self, Err::<Vec<Ident>, ParseError>(e)));
                    }
                    return Err(e);
                },
                Err(err) => {
                    proof {
                        let ms2 = ms.push(after);
                        let rs2 = rs.push(Err::<Option<Ident>, ParseError>(err));
                        assert(qualified_trace(*old(self), cs, ms2, rs2, *self, Err::<Vec<Ident>, ParseError>(err)));
                    }
                    return Err(err);
                },
            }
        }
    }
}

} // verus!
