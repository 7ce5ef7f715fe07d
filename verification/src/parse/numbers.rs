use vstd::prelude::*;

use crate::model::symbol::str_chars;

use super::{ParseContext, ParseError};

verus! {

/// Whether `b` holds an underscore.
pub open spec fn has_underscore(b: Seq<u8>) -> bool {
    exists|i: int| 0 <= i < b.len() && b[i] == 95
}

/// Integer digits grouped by three from the right: walking left in steps of
/// four from `i`, each step lands on an underscore, and what is left at the
/// front (one to three bytes) has none.
pub open spec fn int_grouped_from(b: Seq<u8>, i: int) -> bool
    decreases i,
{
    if i < 4 {
        i > 0 && !has_underscore(b.take(i))
    } else if b[i - 4] != 95 {
        false
    } else {
        int_grouped_from(b, i - 4)
    }
}

/// Whether the integer part of a number is well grouped.
pub open spec fn int_grouped(b: Seq<u8>) -> bool {
    if b.len() < 4 {
        !has_underscore(b)
    } else {
        int_grouped_from(b, b.len() as int)
    }
}

/// Fraction digits grouped by three from the left: walking right in steps
/// of four from `i`, the fourth byte of each step is an underscore, and what
/// is left at the end (one to three bytes) has none.
pub open spec fn frac_grouped_from(b: Seq<u8>, i: int) -> bool
    decreases b.len() - i,
{
    if i < 0 {
        false
    } else if i + 4 > b.len() {
        i < b.len() && !has_underscore(b.skip(i))
    } else if b[i + 3] != 95 {
        false
    } else {
        frac_grouped_from(b, i + 4)
    }
}

/// Whether the fractional part of a number is well grouped.
pub open spec fn frac_grouped(b: Seq<u8>) -> bool {
    if b.len() < 4 {
        !has_underscore(b)
    } else {
        frac_grouped_from(b, 0)
    }
}

/// Whether an underscore goes before digit `i` of `len` digits.
pub open spec fn sep_before(i: int, len: int, from_right: bool) -> bool {
    i > 0 && if from_right {
        (len - i) % 3 == 0
    } else {
        i % 3 == 0
    }
}

/// The first `n` of `len` digits with underscores between groups of three.
pub open spec fn grouped_prefix(d: Seq<u8>, n: int, len: int, from_right: bool) -> Seq<u8>
    decreases n,
{
    if n <= 0 {
        Seq::empty()
    } else {
        let rest = grouped_prefix(d, n - 1, len, from_right);
        if sep_before(n - 1, len, from_right) {
            rest.push(95).push(d[n - 1])
        } else {
            rest.push(d[n - 1])
        }
    }
}

/// Digits with underscores between groups of three, counted from the right
/// (integer part) or from the left (fraction); fewer than four digits stay as
/// they are.
pub open spec fn with_underscores(d: Seq<u8>, from_right: bool) -> Seq<u8> {
    if d.len() < 4 {
        d
    } else {
        grouped_prefix(d, d.len() as int, d.len() as int, from_right)
    }
}

/// `b` without its underscores.
pub open spec fn without_underscores(b: Seq<u8>) -> Seq<u8> {
    b.filter(|c: u8| c != 95)
}

/// The first `.` of `b`, if any.
pub open spec fn first_dot(b: Seq<u8>) -> Option<int>
    decreases b.len(),
{
    if b.len() == 0 {
        None
    } else {
        match first_dot(b.drop_last()) {
            Some(i) => Some(i),
            None => if b.last() == 46 {
                Some(b.len() - 1)
            } else {
                None
            },
        }
    }
}

/// The text the number should have had: its digits regrouped.
pub open spec fn expected_number(text: Seq<u8>) -> Seq<u8> {
    match first_dot(text) {
        Some(d) => with_underscores(without_underscores(text.take(d)), true).push(46) + with_underscores(
            without_underscores(text.skip(d + 1)),
            false,
        ),
        None => with_underscores(without_underscores(text), true),
    }
}

/// Whether a number's text is well grouped, in its integer and its
/// fractional part.
pub open spec fn number_grouped(text: Seq<u8>) -> bool {
    match first_dot(text) {
        Some(d) => int_grouped(text.take(d)) && frac_grouped(text.skip(d + 1)),
        None => int_grouped(text),
    }
}

/// Chars of ASCII bytes.
pub open spec fn ascii_chars(b: Seq<u8>) -> Seq<char> {
    b.map_values(|x: u8| x as char)
}

fn no_underscore(b: &[u8], from: usize, to: usize) -> (r: bool)
    requires
        from <= to <= b@.len(),
    ensures
        r == !has_underscore(b@.subrange(from as int, to as int)),
{
    let mut i = from;
    while i < to
        invariant
            from <= i <= to <= b@.len(),
            forall|k: int| from <= k < i ==> b@[k] != 95,
        decreases to - i,
    {
        if b[i] == 95u8 {
            assert(b@.subrange(from as int, to as int)[i - from] == 95);
            return false;
        }
        i = i + 1;
    }
    assert forall|k: int| 0 <= k < to - from implies b@.subrange(from as int, to as int)[k] != 95 by {
        assert(b@.subrange(from as int, to as int)[k] == b@[from + k]);
    }
    true
}

/// Whether the integer part `b` is well grouped.
pub fn int_part_ok(b: &[u8]) -> (r: bool)
    ensures
        r == int_grouped(b@),
{
    if b.len() < 4 {
        let r = no_underscore(b, 0, b.len());
        assert(b@.subrange(0, b@.len() as int) =~= b@);
        return r;
    }
    let mut i = b.len();
    loop
        invariant
            4 <= b@.len(),
            i <= b@.len(),
            int_grouped(b@) == int_grouped_from(b@, i as int),
        decreases i,
    {
        if i < 4 {
            let r = i > 0 && no_underscore(b, 0, i);
            assert(b@.subrange(0, i as int) =~= b@.take(i as int));
            return r;
        }
        if b[i - 4] != 95u8 {
            return false;
        }
        i = i - 4;
    }
}

/// Whether the fractional part `b` is well grouped.
pub fn frac_part_ok(b: &[u8]) -> (r: bool)
    ensures
        r == frac_grouped(b@),
{
    if b.len() < 4 {
        let r = no_underscore(b, 0, b.len());
        assert(b@.subrange(0, b@.len() as int) =~= b@);
        return r;
    }
    let mut i: usize = 0;
    loop
        invariant
            4 <= b@.len(),
            i <= b@.len(),
            frac_grouped(b@) == frac_grouped_from(b@, i as int),
        decreases b@.len() - i,
    {
        if b.len() - i < 4 {
            let r = i < b.len() && no_underscore(b, i, b.len());
            assert(b@.subrange(i as int, b@.len() as int) =~= b@.skip(i as int));
            return r;
        }
        if b[i + 3] != 95u8 {
            return false;
        }
        i = i + 4;
    }
}

/// Digits with underscores between groups of three (see `with_underscores`).
pub fn format_with_underscores(digits: &[u8], from_right: bool) -> (r: Vec<u8>)
    ensures
        r@ == with_underscores(digits@, from_right),
{
    let len = digits.len();
    let mut out: Vec<u8> = Vec::new();
    if len < 4 {
        let mut i: usize = 0;
        while i < len
            invariant
                len == digits@.len(),
                i <= len,
                out@ == digits@.take(i as int),
            decreases len - i,
        {
            out.push(digits[i]);
            assert(digits@.take(i + 1) =~= digits@.take(i as int).push(digits@[i as int]));
            i = i + 1;
        }
        assert(digits@.take(len as int) =~= digits@);
        return out;
    }
    let mut i: usize = 0;
    while i < len
        invariant
            len == digits@.len(),
            i <= len,
            out@ == grouped_prefix(digits@, i as int, len as int, from_right),
        decreases len - i,
    {
        let sep = i > 0 && if from_right {
            (len - i) % 3 == 0
        } else {
            i % 3 == 0
        };
        if sep {
            out.push(95u8);
        }
        out.push(digits[i]);
        i = i + 1;
    }
    out
}

/// The bytes of `b` that are not underscores.
fn strip_underscore_bytes(b: &[u8]) -> (r: Vec<u8>)
    ensures
        r@ == without_underscores(b@),
{
    let mut out: Vec<u8> = Vec::new();
    let mut i: usize = 0;
    while i < b.len()
        invariant
            i <= b@.len(),
            out@ == without_underscores(b@.take(i as int)),
        decreases b@.len() - i,
    {
        if b[i] != 95u8 {
            out.push(b[i]);
        }
        proof {
            reveal(Seq::filter);
            assert(b@.take(i + 1).drop_last() =~= b@.take(i as int));
            assert(b@.take(i + 1).last() == b@[i as int]);
        }
        i = i + 1;
    }
    assert(b@.take(b@.len() as int) =~= b@);
    out
}

/// Position of the first `.`.
fn find_dot(b: &[u8]) -> (r: Option<usize>)
    ensures
        match r {
            Some(i) => first_dot(b@) == Some(i as int) && i < b@.len(),
            None => first_dot(b@) is None,
        },
{
    let mut i: usize = 0;
    while i < b.len()
        invariant
            i <= b@.len(),
            first_dot(b@.take(i as int)) is None,
        decreases b@.len() - i,
    {
        assert(b@.take(i + 1).drop_last() =~= b@.take(i as int));
        if b[i] == 46u8 {
            proof {
                lemma_first_dot_prefix(b@, i as int + 1);
            }
            return Some(i);
        }
        i = i + 1;
    }
    assert(b@.take(b@.len() as int) =~= b@);
    None
}

/// `first_dot` of a prefix that holds a dot is the dot of the whole.
proof fn lemma_first_dot_prefix(b: Seq<u8>, n: int)
    requires
        0 <= n <= b.len(),
        first_dot(b.take(n)) is Some,
    ensures
        first_dot(b) == first_dot(b.take(n)),
    decreases b.len() - n,
{
    if n < b.len() {
        assert(b.take(n + 1).drop_last() =~= b.take(n));
        lemma_first_dot_prefix(b, n + 1);
    } else {
        assert(b.take(n) =~= b);
    }
}

/// Strict mode: a number's digits go in groups of three, with underscores
/// between groups (counted from the dot outwards) or none at all under four
/// digits. A badly grouped number is reported over its text, with the
/// expected form.
pub fn validate_number_underscores(ctx: &mut ParseContext, text: &[u8], start: usize)
    requires
        start + text@.len() <= usize::MAX,
    ensures
        number_grouped(text@) ==> final(ctx).strict_mode_violations == old(ctx).strict_mode_violations,
        !number_grouped(text@) ==> {
            &&& final(ctx).strict_mode_violations@.len() == old(ctx).strict_mode_violations@.len() + 1
            &&& final(ctx).strict_mode_violations@.drop_last() == old(ctx).strict_mode_violations@
            &&& final(ctx).strict_mode_violations@.last().consumed_range == (start, (start + text@.len()) as usize)
            &&& final(ctx).strict_mode_violations@.last().message@ == "Number should be formatted as "@ + ascii_chars(expected_number(text@))
            &&& final(ctx).strict_mode_violations@.last().error_range is None
            &&& final(ctx).strict_mode_violations@.last().cause is None
        },
        final(ctx).file_path == old(ctx).file_path,
        final(ctx).suppress_narrowing_postfix == old(ctx).suppress_narrowing_postfix,
        final(ctx).trivia_had_blank_line == old(ctx).trivia_had_blank_line,
        final(ctx).parse_errors == old(ctx).parse_errors,
        final(ctx).pos == old(ctx).pos,
        final(ctx).source == old(ctx).source,
        final(ctx).node_ranges == old(ctx).node_ranges,
        final(ctx).next_node_id == old(ctx).next_node_id,
        final(ctx).line_start == old(ctx).line_start,
        final(ctx).comments == old(ctx).comments,
        final(ctx).indent_stack == old(ctx).indent_stack,
{
    let dot = find_dot(text);
    let ok = match dot {
        Some(d) => {
            let int_text = &text[0..d];
            let frac_text = &text[d + 1..text.len()];
            assert(int_text@ =~= text@.take(d as int));
            assert(frac_text@ =~= text@.skip(d + 1));
            int_part_ok(int_text) && frac_part_ok(frac_text)
        },
        None => int_part_ok(text),
    };
    if !ok {
        let expected: Vec<u8> = match dot {
            Some(d) => {
                let int_text = &text[0..d];
                let frac_text = &text[d + 1..text.len()];
                assert(int_text@ =~= text@.take(d as int));
                assert(frac_text@ =~= text@.skip(d + 1));
                let mut e = format_with_underscores(strip_underscore_bytes(int_text).as_slice(), true);
                e.push(46u8);
                let f = format_with_underscores(strip_underscore_bytes(frac_text).as_slice(), false);
                let ghost e0 = e@;
                let mut k: usize = 0;
                while k < f.len()
                    invariant
                        k <= f@.len(),
                        e@ == e0 + f@.take(k as int),
                    decreases f@.len() - k,
                {
                    e.push(f[k]);
                    assert(f@.take(k + 1) =~= f@.take(k as int).push(f@[k as int]));
                    k = k + 1;
                }
                assert(f@.take(f@.len() as int) =~= f@);
                e
            },
            None => format_with_underscores(strip_underscore_bytes(text).as_slice(), true),
        };
        let mut m = str_chars("Number should be formatted as ");
        let ghost m0 = m@;
        let mut k: usize = 0;
        while k < expected.len()
            invariant
                k <= expected@.len(),
                m@ == m0 + ascii_chars(expected@.take(k as int)),
            decreases expected@.len() - k,
        {
            m.push(expected[k] as char);
            assert(ascii_chars(expected@.take(k + 1)) =~= ascii_chars(expected@.take(k as int)).push(expected@[k as int] as char));
            k = k + 1;
        }
        assert(expected@.take(expected@.len() as int) =~= expected@);
        ctx.add_strict_violation(ParseError::new((start, start + text.len()), m));
        assert(ctx.strict_mode_violations@.drop_last() =~= old(ctx).strict_mode_violations@);
    }
}

/// `int_grouped_from` looks only at the first `i` bytes.
proof fn lemma_int_grouped_from_prefix(a: Seq<u8>, b: Seq<u8>, i: int)
    requires
        0 <= i <= a.len(),
        i <= b.len(),
        a.take(i) == b.take(i),
    ensures
        int_grouped_from(a, i) == int_grouped_from(b, i),
    decreases i,
{
    if i >= 4 {
        assert(a[i - 4] == a.take(i)[i - 4]);
        assert(b[i - 4] == b.take(i)[i - 4]);
        assert(a.take(i - 4) =~= a.take(i).take(i - 4));
        assert(b.take(i - 4) =~= b.take(i).take(i - 4));
        lemma_int_grouped_from_prefix(a, b, i - 4);
    }
}

/// Grouping from the right, three digits at a time: the prefix of `n` digits
/// (a multiple of three short of `len`) is well grouped.
proof fn lemma_grouped_prefix_right(d: Seq<u8>, n: int, len: int)
    requires
        1 <= n <= len,
        len <= d.len(),
        (len - n) % 3 == 0,
        !has_underscore(d),
    ensures
        int_grouped_from(grouped_prefix(d, n, len, true), grouped_prefix(d, n, len, true).len() as int),
        grouped_prefix(d, n, len, true).len() >= n,
    decreases n,
{
    let o = grouped_prefix(d, n, len, true);
    if n <= 3 {
        lemma_grouped_prefix_plain(d, n, len);
        assert(o.take(o.len() as int) =~= o);
        assert(!has_underscore(o)) by {
            assert forall|k: int| 0 <= k < o.len() implies o[k] != 95 by {
                assert(o[k] == d[k]);
            }
        }
    } else {
        lemma_grouped_prefix_right(d, n - 3, len);
        let p = grouped_prefix(d, n - 3, len, true);
        assert(!sep_before(n - 1, len, true));
        assert(!sep_before(n - 2, len, true));
        assert(sep_before(n - 3, len, true));
        assert(grouped_prefix(d, n - 2, len, true) == p.push(95).push(d[n - 3]));
        assert(grouped_prefix(d, n - 1, len, true) == p.push(95).push(d[n - 3]).push(d[n - 2]));
        assert(o == p.push(95).push(d[n - 3]).push(d[n - 2]).push(d[n - 1]));
        assert(o[o.len() - 4] == 95);
        assert(o.take(p.len() as int) =~= p);
        assert(p.take(p.len() as int) =~= p);
        lemma_int_grouped_from_prefix(o, p, p.len() as int);
    }
}

/// Under four digits (counting from the right within `len`), no underscore
/// is placed: the prefix is the digits themselves.
proof fn lemma_grouped_prefix_plain(d: Seq<u8>, n: int, len: int)
    requires
        0 <= n <= 3,
        n <= len,
        len <= d.len(),
        (len - n) % 3 == 0,
    ensures
        grouped_prefix(d, n, len, true) == d.take(n),
{
    if n >= 1 {
        assert(!sep_before(n - 1, len, true));
        if n >= 2 {
            assert(!sep_before(n - 2, len, true));
            if n >= 3 {
                assert(!sep_before(n - 3, len, true));
            }
        }
    }
    assert(grouped_prefix(d, 0, len, true) =~= d.take(0));
    if n >= 1 {
        assert(grouped_prefix(d, 1, len, true) =~= d.take(1));
    }
    if n >= 2 {
        assert(grouped_prefix(d, 2, len, true) =~= d.take(2));
    }
    if n >= 3 {
        assert(grouped_prefix(d, 3, len, true) =~= d.take(3));
    }
}

/// The integer part that formatting produces is well grouped.
pub proof fn lemma_formatted_int_grouped(d: Seq<u8>)
    requires
        !has_underscore(d),
    ensures
        int_grouped(with_underscores(d, true)),
{
    if d.len() >= 4 {
        lemma_grouped_prefix_right(d, d.len() as int, d.len() as int);
    }
}

/// Grouping from the left: `n` digits take `n + (n - 1) / 3` bytes; every
/// fourth byte is an underscore and the others are the digits in order.
proof fn lemma_grouped_prefix_left_shape(d: Seq<u8>, n: int, len: int)
    requires
        1 <= n <= len,
        len <= d.len(),
    ensures
        grouped_prefix(d, n, len, false).len() == n + (n - 1) / 3,
        forall|p: int|
            0 <= p < grouped_prefix(d, n, len, false).len() ==> #[trigger] grouped_prefix(d, n, len, false)[p]
                == if p % 4 == 3 {
                95u8
            } else {
                d[p - p / 4]
            },
    decreases n,
{
    let o = grouped_prefix(d, n, len, false);
    if n == 1 {
        assert(!sep_before(0, len, false));
        assert(grouped_prefix(d, 0, len, false) =~= Seq::<u8>::empty());
        assert(o =~= seq![d[0]]);
    } else {
        lemma_grouped_prefix_left_shape(d, n - 1, len);
        let q = grouped_prefix(d, n - 1, len, false);
        if sep_before(n - 1, len, false) {
            assert(o == q.push(95).push(d[n - 1]));
            let m = (n - 1) / 3;
            assert(n - 1 == 3 * m);
            assert((n - 2) / 3 == m - 1);
            assert((n - 1) / 3 == m);
            assert forall|p: int| 0 <= p < o.len() implies #[trigger] o[p] == if p % 4 == 3 {
                95u8
            } else {
                d[p - p / 4]
            } by {
                if p < q.len() {
                    assert(o[p] == q[p]);
                } else if p == q.len() {
                    assert(p == 4 * m - 1);
                    assert(p % 4 == 3);
                } else {
                    assert(p == 4 * m);
                    assert(p % 4 == 0);
                    assert(p / 4 == m);
                }
            }
        } else {
            assert(o == q.push(d[n - 1]));
            let m = (n - 1) / 3;
            let r = (n - 1) % 3;
            assert(n - 1 == 3 * m + r);
            assert(r == 1 || r == 2);
            assert((n - 2) / 3 == m);
            assert forall|p: int| 0 <= p < o.len() implies #[trigger] o[p] == if p % 4 == 3 {
                95u8
            } else {
                d[p - p / 4]
            } by {
                if p < q.len() {
                    assert(o[p] == q[p]);
                } else {
                    assert(p == 4 * m + r);
                    assert(p % 4 == r);
                    assert(p / 4 == m);
                }
            }
        }
    }
}

/// From block `k` (at byte `4k`) on, the grouped fraction digits check out.
proof fn lemma_frac_blocks(d: Seq<u8>, k: int)
    requires
        d.len() >= 4,
        !has_underscore(d),
        0 <= k,
        3 * k < d.len(),
    ensures
        frac_grouped_from(grouped_prefix(d, d.len() as int, d.len() as int, false), 4 * k),
    decreases d.len() - 3 * k,
{
    let len = d.len() as int;
    let o = grouped_prefix(d, len, len, false);
    lemma_grouped_prefix_left_shape(d, len, len);
    let i = 4 * k;
    if i + 4 > o.len() {
        assert(!has_underscore(o.skip(i))) by {
            assert forall|j: int| 0 <= j < o.skip(i).len() implies o.skip(i)[j] != 95 by {
                let p = i + j;
                assert(o.skip(i)[j] == o[p]);
                assert(j < 3) by {
                    assert(o.len() == len + (len - 1) / 3);
                }
                assert(p % 4 == j);
                assert(p / 4 == k);
                assert(o[p] == d[p - p / 4]);
                assert(d[3 * k + j] != 95);
            }
        }
        assert(i < o.len()) by {
            assert(o.len() == len + (len - 1) / 3);
        }
    } else {
        assert(o[i + 3] == 95) by {
            assert((i + 3) % 4 == 3);
        }
        assert(3 * (k + 1) < len) by {
            assert(o.len() == len + (len - 1) / 3);
        }
        lemma_frac_blocks(d, k + 1);
    }
}

/// The fraction that formatting produces is well grouped.
pub proof fn lemma_formatted_frac_grouped(d: Seq<u8>)
    requires
        !has_underscore(d),
    ensures
        frac_grouped(with_underscores(d, false)),
{
    if d.len() >= 4 {
        lemma_frac_blocks(d, 0);
        lemma_grouped_prefix_left_shape(d, d.len() as int, d.len() as int);
    }
}

/// No `.` in `s`.
pub open spec fn no_dot(s: Seq<u8>) -> bool {
    forall|i: int| 0 <= i < s.len() ==> s[i] != 46
}

proof fn lemma_first_dot_none(s: Seq<u8>)
    ensures
        first_dot(s) is None <==> no_dot(s),
    decreases s.len(),
{
    if s.len() > 0 {
        lemma_first_dot_none(s.drop_last());
        if no_dot(s) {
            assert(no_dot(s.drop_last()));
        }
        if first_dot(s) is None {
            assert forall|i: int| 0 <= i < s.len() implies s[i] != 46 by {
                if i < s.len() - 1 {
                    assert(s.drop_last()[i] == s[i]);
                }
            }
        }
    }
}

proof fn lemma_first_dot_some(s: Seq<u8>, d: int)
    requires
        first_dot(s) == Some(d),
    ensures
        0 <= d < s.len(),
        s[d] == 46,
        no_dot(s.take(d)),
    decreases s.len(),
{
    if s.len() > 0 {
        match first_dot(s.drop_last()) {
            Some(i) => {
                lemma_first_dot_some(s.drop_last(), d);
                assert(s.take(d) =~= s.drop_last().take(d));
            },
            None => {
                lemma_first_dot_none(s.drop_last());
                assert(s.take(d) =~= s.drop_last());
            },
        }
    }
}

proof fn lemma_first_dot_concat(a: Seq<u8>, b: Seq<u8>)
    requires
        no_dot(a),
    ensures
        first_dot(a.push(46) + b) == Some(a.len() as int),
    decreases b.len(),
{
    let s = a.push(46) + b;
    if b.len() == 0 {
        assert(s =~= a.push(46));
        assert(s.drop_last() =~= a);
        lemma_first_dot_none(a);
    } else {
        lemma_first_dot_concat(a, b.drop_last());
        assert(s.drop_last() =~= a.push(46) + b.drop_last());
    }
}

/// Every byte of grouped digits is a digit byte or an underscore.
proof fn lemma_grouped_prefix_from(d: Seq<u8>, n: int, len: int, from_right: bool)
    requires
        0 <= n <= d.len(),
    ensures
        forall|p: int|
            0 <= p < grouped_prefix(d, n, len, from_right).len() ==> #[trigger] grouped_prefix(d, n, len, from_right)[p]
                == 95 || exists|j: int| 0 <= j < n && grouped_prefix(d, n, len, from_right)[p] == d[j],
    decreases n,
{
    if n > 0 {
        lemma_grouped_prefix_from(d, n - 1, len, from_right);
        let q = grouped_prefix(d, n - 1, len, from_right);
        let o = grouped_prefix(d, n, len, from_right);
        assert forall|p: int| 0 <= p < o.len() implies #[trigger] o[p] == 95 || exists|j: int| 0 <= j < n && o[p] == d[j] by {
            if p < q.len() {
                assert(o[p] == q[p]);
                if q[p] != 95 {
                    let j = choose|j: int| 0 <= j < n - 1 && q[p] == d[j];
                    assert(o[p] == d[j]);
                }
            } else {
                assert(o[p] == 95 || o[p] == d[n - 1]);
            }
        }
    }
}

/// Formatting digits without a dot gives bytes without a dot.
proof fn lemma_formatted_no_dot(d: Seq<u8>, from_right: bool)
    requires
        no_dot(d),
    ensures
        no_dot(with_underscores(d, from_right)),
{
    if d.len() >= 4 {
        lemma_grouped_prefix_from(d, d.len() as int, d.len() as int, from_right);
        let o = with_underscores(d, from_right);
        assert forall|p: int| 0 <= p < o.len() implies o[p] != 46 by {
            if o[p] != 95 {
                let j = choose|j: int| 0 <= j < d.len() && o[p] == d[j];
            }
        }
    }
}

/// What is left of `b` without its underscores: no underscore, and only
/// bytes of `b`.
proof fn lemma_without_underscores_from(b: Seq<u8>)
    ensures
        forall|i: int|
            0 <= i < without_underscores(b).len() ==> #[trigger] without_underscores(b)[i] != 95
                && b.contains(without_underscores(b)[i]),
    decreases b.len(),
{
    reveal(Seq::filter);
    if b.len() > 0 {
        lemma_without_underscores_from(b.drop_last());
        let f = without_underscores(b);
        let g = without_underscores(b.drop_last());
        assert forall|i: int| 0 <= i < f.len() implies #[trigger] f[i] != 95 && b.contains(f[i]) by {
            if i < g.len() {
                assert(f[i] == g[i]);
                let j = choose|j: int| 0 <= j < b.drop_last().len() && b.drop_last()[j] == g[i];
                assert(b[j] == g[i]);
            } else {
                assert(f[i] == b.last());
                assert(b[b.len() - 1] == b.last());
            }
        }
    }
}

proof fn lemma_filtered_clean(b: Seq<u8>)
    ensures
        !has_underscore(without_underscores(b)),
        no_dot(b) ==> no_dot(without_underscores(b)),
{
    let f = without_underscores(b);
    lemma_without_underscores_from(b);
    assert forall|i: int| 0 <= i < f.len() implies f[i] != 95 by {}
    if no_dot(b) {
        assert forall|i: int| 0 <= i < f.len() implies f[i] != 46 by {
            assert(b.contains(f[i]));
        }
    }
}

/// The form that the message suggests is itself well grouped.
pub proof fn lemma_suggestion_grouped(text: Seq<u8>)
    ensures
        number_grouped(expected_number(text)),
{
    match first_dot(text) {
        Some(dd) => {
            lemma_first_dot_some(text, dd);
            let ip = without_underscores(text.take(dd));
            let fp = without_underscores(text.skip(dd + 1));
            lemma_filtered_clean(text.take(dd));
            lemma_filtered_clean(text.skip(dd + 1));
            let i = with_underscores(ip, true);
            let f = with_underscores(fp, false);
            lemma_formatted_no_dot(ip, true);
            lemma_formatted_int_grouped(ip);
            lemma_formatted_frac_grouped(fp);
            let e = expected_number(text);
            assert(e == i.push(46) + f);
            lemma_first_dot_concat(i, f);
            assert(e.take(i.len() as int) =~= i);
            assert(e.skip(i.len() as int + 1) =~= f);
        },
        None => {
            lemma_first_dot_none(text);
            lemma_filtered_clean(text);
            let ip = without_underscores(text);
            lemma_formatted_no_dot(ip, true);
            lemma_formatted_int_grouped(ip);
            lemma_first_dot_none(with_underscores(ip, true));
        },
    }
}

} // verus!
