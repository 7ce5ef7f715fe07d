use vstd::prelude::*;

use super::symbol::{push_chars, str_chars};
use super::ExprLiteralKind;

verus! {

pub open spec fn is_digit(c: char) -> bool {
    '0' <= c && c <= '9'
}

pub open spec fn all_digits(s: Seq<char>) -> bool {
    forall|i: int| 0 <= i < s.len() ==> is_digit(#[trigger] s[i])
}

/// Decimal value of a digit string.
pub open spec fn digits_value(s: Seq<char>) -> int
    decreases s.len(),
{
    if s.len() == 0 {
        0
    } else {
        digits_value(s.drop_last()) * 10 + ((s.last() as u32) - ('0' as u32))
    }
}

/// What `i64`'s `FromStr` accepts: an optional sign, then at least one decimal digit,
/// with the value in range.
pub open spec fn spec_parse_i64(s: Seq<char>) -> Option<int> {
    let neg = s.len() > 0 && s[0] == '-';
    let signed = s.len() > 0 && (s[0] == '-' || s[0] == '+');
    let body = if signed { s.drop_first() } else { s };
    if body.len() == 0 || !all_digits(body) {
        None
    } else {
        let v = if neg { -digits_value(body) } else { digits_value(body) };
        if i64::MIN <= v && v <= i64::MAX { Some(v) } else { None }
    }
}

pub open spec fn not_underscore(c: char) -> bool {
    c != '_'
}

/// `s` with every `_` removed.
pub open spec fn without_underscores(s: Seq<char>) -> Seq<char> {
    s.filter(|c: char| not_underscore(c))
}

/// An integer literal's value: as written, or, when that fails and the text holds
/// underscores, with the underscores removed.
pub open spec fn spec_parse_int(s: Seq<char>) -> Option<int> {
    match spec_parse_i64(s) {
        Some(v) => Some(v),
        None => if s.contains('_') { spec_parse_i64(without_underscores(s)) } else { None },
    }
}

proof fn lemma_digits_value_nonneg(s: Seq<char>)
    requires
        all_digits(s),
    ensures
        digits_value(s) >= 0,
    decreases s.len(),
{
    if s.len() > 0 {
        assert(all_digits(s.drop_last()));
        lemma_digits_value_nonneg(s.drop_last());
        assert(is_digit(s[s.len() - 1]));
    }
}

proof fn lemma_digits_value_mono(s: Seq<char>, k: int)
    requires
        all_digits(s),
        0 <= k <= s.len(),
    ensures
        digits_value(s.take(k)) <= digits_value(s),
    decreases s.len() - k,
{
    if k < s.len() {
        lemma_digits_value_mono(s, k + 1);
        let t = s.take(k + 1);
        assert(t.drop_last() =~= s.take(k));
        assert(all_digits(s.take(k)));
        lemma_digits_value_nonneg(s.take(k));
        assert(is_digit(t[k]));
    } else {
        assert(s.take(k) =~= s);
    }
}

/// Parse an optional sign and decimal digits into an `i64`, as `i64`'s `FromStr` does.
pub fn parse_i64_chars(s: &[char]) -> (r: Option<i64>)
    ensures
        match r {
            Some(v) => spec_parse_i64(s@) == Some(v as int),
            None => spec_parse_i64(s@) is None,
        },
{
    let n = s.len();
    let neg = n > 0 && s[0] == '-';
    let signed = n > 0 && (s[0] == '-' || s[0] == '+');
    let start: usize = if signed { 1 } else { 0 };
    let ghost body = if signed { s@.drop_first() } else { s@ };
    assert(body =~= s@.subrange(start as int, n as int));
    if start == n {
        return None;
    }
    let limit: u64 = 9223372036854775808u64;
    let mut acc: u64 = 0;
    let mut i: usize = start;
    while i < n
        invariant
            start <= i <= n,
            n == s@.len(),
            body == s@.subrange(start as int, n as int),
            body == (if signed { s@.drop_first() } else { s@ }),
            signed == (s@.len() > 0 && (s@[0] == '-' || s@[0] == '+')),
            neg == (s@.len() > 0 && s@[0] == '-'),
            all_digits(body.take((i - start) as int)),
            acc as int == digits_value(body.take((i - start) as int)),
            acc <= limit,
            limit == 9223372036854775808u64,
        decreases n - i,
    {
        let c = s[i];
        if !('0' <= c && c <= '9') {
            assert(body[(i - start) as int] == c);
            assert(!is_digit(body[(i - start) as int]));
            assert(!all_digits(body));
            return None;
        }
        let d = (c as u32 - '0' as u32) as u64;
        proof {
            let t = body.take((i + 1 - start) as int);
            assert(t.drop_last() =~= body.take((i - start) as int));
            assert(t.last() == c);
        }
        if acc > (limit - d) / 10 {
            proof {
                let t = body.take((i + 1 - start) as int);
                assert(all_digits(t));
                assert(digits_value(t) == acc * 10 + d);
                assert(acc * 10 + d > limit) by (nonlinear_arith)
                    requires acc > (limit - d) / 10, d <= 9, limit == 9223372036854775808u64;
                if all_digits(body) {
                    lemma_digits_value_mono(body, (i + 1 - start) as int);
                    assert(digits_value(body) > limit);
                }
            }
            return None;
        }
        acc = acc * 10 + d;
        i = i + 1;
        proof {
            let t = body.take((i - start) as int);
            assert forall|j: int| 0 <= j < t.len() implies is_digit(#[trigger] t[j]) by {
                if j < t.len() - 1 {
                    assert(t[j] == body.take((i - 1 - start) as int)[j]);
                }
            }
        }
    }
    assert(body.take((n - start) as int) =~= body);
    if neg {
        let v: i64 = if acc == limit { -9223372036854775807i64 - 1 } else { -(acc as i64) };
        Some(v)
    } else {
        if acc == limit {
            None
        } else {
            Some(acc as i64)
        }
    }
}


/// Copy `s` leaving out every `_`.
pub fn strip_underscores(s: &[char]) -> (r: Vec<char>)
    ensures
        r@ == without_underscores(s@),
{
    let mut r: Vec<char> = Vec::new();
    let mut i: usize = 0;
    while i < s.len()
        invariant
            i <= s@.len(),
            r@ == without_underscores(s@.take(i as int)),
        decreases s@.len() - i,
    {
        proof {
            reveal_with_fuel(Seq::<_>::filter, 1);
            assert(s@.take(i + 1).drop_last() =~= s@.take(i as int));
        }
        if s[i] != '_' {
            r.push(s[i]);
        }
        i = i + 1;
    }
    assert(s@.take(s@.len() as int) =~= s@);
    r
}

/// Whether `s` holds a `_`.
pub fn has_underscore(s: &[char]) -> (r: bool)
    ensures
        r == s@.contains('_'),
{
    let mut i: usize = 0;
    while i < s.len()
        invariant
            i <= s@.len(),
            forall|j: int| 0 <= j < i ==> s@[j] != '_',
        decreases s@.len() - i,
    {
        if s[i] == '_' {
            assert(s@[i as int] == '_');
            return true;
        }
        i = i + 1;
    }
    false
}

/// The decimal digit for `d`, which is below ten.
pub open spec fn digit_char(d: int) -> char {
    if d == 0 {
        '0'
    } else if d == 1 {
        '1'
    } else if d == 2 {
        '2'
    } else if d == 3 {
        '3'
    } else if d == 4 {
        '4'
    } else if d == 5 {
        '5'
    } else if d == 6 {
        '6'
    } else if d == 7 {
        '7'
    } else if d == 8 {
        '8'
    } else {
        '9'
    }
}

/// The decimal text of `n`, as `{}` formats an unsigned integer.
pub open spec fn decimal(n: nat) -> Seq<char>
    decreases n,
{
    if n < 10 {
        seq![digit_char(n as int)]
    } else {
        decimal(n / 10).push(digit_char((n % 10) as int))
    }
}

fn digit_of(d: usize) -> (c: char)
    requires
        d < 10,
    ensures
        c == digit_char(d as int),
{
    if d == 0 {
        '0'
    } else if d == 1 {
        '1'
    } else if d == 2 {
        '2'
    } else if d == 3 {
        '3'
    } else if d == 4 {
        '4'
    } else if d == 5 {
        '5'
    } else if d == 6 {
        '6'
    } else if d == 7 {
        '7'
    } else if d == 8 {
        '8'
    } else {
        '9'
    }
}

/// Append the decimal text of `n`.
pub fn push_decimal(out: &mut Vec<char>, n: usize)
    ensures
        final(out)@ == old(out)@ + decimal(n as nat),
    decreases n,
{
    if n >= 10 {
        push_decimal(out, n / 10);
    }
    out.push(digit_of(n % 10));
    assert(out@ =~= old(out)@ + decimal(n as nat));
}

impl ExprLiteralKind {
    /// Value of an integer literal's text; underscores are allowed as separators.
    pub fn parse_int(s: &[char]) -> (r: Result<i64, Vec<char>>)
        ensures
            match r {
                Ok(v) => spec_parse_int(s@) == Some(v as int),
                Err(m) => spec_parse_int(s@) is None && m@ == "invalid integer: "@ + s@,
            },
    {
        if let Some(v) = parse_i64_chars(s) {
            return Ok(v);
        }
        if has_underscore(s) {
            let cleaned = strip_underscores(s);
            if let Some(v) = parse_i64_chars(cleaned.as_slice()) {
                return Ok(v);
            }
        }
        let mut m = str_chars("invalid integer: ");
        push_chars(&mut m, s);
        Err(m)
    }
}

} // verus!
