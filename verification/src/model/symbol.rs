use vstd::prelude::*;

verus! {

/// A name: the characters of an identifier, a module path or a qualified name.
#[derive(Debug, Clone)]
pub struct Symbol {
    pub chars: Vec<char>,
}

impl View for Symbol {
    type V = Seq<char>;

    open spec fn view(&self) -> Seq<char> {
        self.chars@
    }
}

/// Result of a three-way comparison.
#[derive(Debug, Clone, Copy, PartialEq, Eq, Structural)]
pub enum Order3 {
    Less,
    Equal,
    Greater,
}

/// Lexicographic order on character sequences (by code point, as `str` orders).
pub open spec fn seq_lt(a: Seq<char>, b: Seq<char>) -> bool
    decreases a.len(),
{
    if a.len() == 0 {
        b.len() > 0
    } else if b.len() == 0 {
        false
    } else if a[0] != b[0] {
        (a[0] as u32) < (b[0] as u32)
    } else {
        seq_lt(a.drop_first(), b.drop_first())
    }
}

/// Three-way lexicographic comparison of character sequences.
pub open spec fn seq_compare(a: Seq<char>, b: Seq<char>) -> Order3 {
    if a == b {
        Order3::Equal
    } else if seq_lt(a, b) {
        Order3::Less
    } else {
        Order3::Greater
    }
}

/// Copy the characters of a string slice into a vector.
pub fn str_chars(s: &str) -> (r: Vec<char>)
    ensures
        r@ == s@,
{
    let n = s.unicode_len();
    let mut r: Vec<char> = Vec::new();
    let mut i: usize = 0;
    while i < n
        invariant
            n == s@.len(),
            i <= n,
            r@ == s@.subrange(0, i as int),
        decreases n - i,
    {
        let c = s.get_char(i);
        r.push(c);
        i = i + 1;
        assert(r@ =~= s@.subrange(0, i as int));
    }
    assert(r@ =~= s@);
    r
}

/// Copy a character slice into a fresh vector.
pub fn copy_chars(s: &[char]) -> (r: Vec<char>)
    ensures
        r@ == s@,
{
    let mut r: Vec<char> = Vec::new();
    let mut i: usize = 0;
    while i < s.len()
        invariant
            i <= s@.len(),
            r@ == s@.subrange(0, i as int),
        decreases s@.len() - i,
    {
        r.push(s[i]);
        i = i + 1;
        assert(r@ =~= s@.subrange(0, i as int));
    }
    assert(r@ =~= s@);
    r
}

/// Append the characters of `b` to `a`.
pub fn push_chars(a: &mut Vec<char>, b: &[char])
    ensures
        final(a)@ == old(a)@ + b@,
{
    let mut i: usize = 0;
    while i < b.len()
        invariant
            i <= b@.len(),
            a@ == old(a)@ + b@.subrange(0, i as int),
        decreases b@.len() - i,
    {
        a.push(b[i]);
        i = i + 1;
        assert(a@ =~= old(a)@ + b@.subrange(0, i as int));
    }
    assert(b@.subrange(0, b@.len() as int) =~= b@);
}

/// Append the characters of a string slice to `a`.
pub fn push_str(a: &mut Vec<char>, s: &str)
    ensures
        final(a)@ == old(a)@ + s@,
{
    let c = str_chars(s);
    push_chars(a, c.as_slice());
}

/// Whether two character slices are equal.
pub fn chars_eq(a: &[char], b: &[char]) -> (r: bool)
    ensures
        r == (a@ == b@),
{
    if a.len() != b.len() {
        return false;
    }
    let mut i: usize = 0;
    while i < a.len()
        invariant
            a@.len() == b@.len(),
            i <= a@.len(),
            forall|j: int| 0 <= j < i ==> a@[j] == b@[j],
        decreases a@.len() - i,
    {
        if a[i] != b[i] {
            return false;
        }
        i = i + 1;
    }
    assert(a@ =~= b@);
    true
}

proof fn lemma_seq_lt_common_prefix(a: Seq<char>, b: Seq<char>, k: int)
    requires
        0 <= k <= a.len(),
        k <= b.len(),
        forall|j: int| 0 <= j < k ==> a[j] == b[j],
    ensures
        seq_lt(a, b) == seq_lt(a.subrange(k, a.len() as int), b.subrange(k, b.len() as int)),
    decreases k,
{
    if k > 0 {
        lemma_seq_lt_common_prefix(a.drop_first(), b.drop_first(), k - 1);
        assert(a.drop_first().subrange(k - 1, a.len() - 1) =~= a.subrange(k, a.len() as int));
        assert(b.drop_first().subrange(k - 1, b.len() - 1) =~= b.subrange(k, b.len() as int));
    } else {
        assert(a.subrange(0, a.len() as int) =~= a);
        assert(b.subrange(0, b.len() as int) =~= b);
    }
}

/// Three-way lexicographic comparison of two character slices.
pub fn chars_compare(a: &[char], b: &[char]) -> (r: Order3)
    ensures
        r == seq_compare(a@, b@),
{
    let mut i: usize = 0;
    while i < a.len() && i < b.len()
        invariant
            i <= a@.len(),
            i <= b@.len(),
            forall|j: int| 0 <= j < i ==> a@[j] == b@[j],
        decreases a@.len() - i,
    {
        if a[i] != b[i] {
            proof {
                lemma_seq_lt_common_prefix(a@, b@, i as int);
                let ra = a@.subrange(i as int, a@.len() as int);
                let rb = b@.subrange(i as int, b@.len() as int);
                assert(ra[0] == a@[i as int]);
                assert(rb[0] == b@[i as int]);
                assert(a@ != b@);
            }
            if (a[i] as u32) < (b[i] as u32) {
                return Order3::Less;
            } else {
                return Order3::Greater;
            }
        }
        i = i + 1;
    }
    proof {
        lemma_seq_lt_common_prefix(a@, b@, i as int);
    }
    if a.len() == b.len() {
        assert(a@ =~= b@);
        Order3::Equal
    } else if a.len() < b.len() {
        assert(a@.subrange(i as int, a@.len() as int).len() == 0);
        assert(a@ != b@);
        Order3::Less
    } else {
        assert(b@.subrange(i as int, b@.len() as int).len() == 0);
        assert(a@ != b@);
        Order3::Greater
    }
}

impl Symbol {
    pub fn new(chars: Vec<char>) -> (r: Symbol)
        ensures
            r@ == chars@,
    {
        Symbol { chars }
    }

    pub fn from_str(s: &str) -> (r: Symbol)
        ensures
            r@ == s@,
    {
        Symbol { chars: str_chars(s) }
    }

    /// The characters of this name.
    pub fn as_str(&self) -> (r: &[char])
        ensures
            r@ == self@,
    {
        self.chars.as_slice()
    }

    /// A copy of this name.
    pub fn dup(&self) -> (r: Symbol)
        ensures
            r@ == self@,
    {
        Symbol { chars: copy_chars(self.chars.as_slice()) }
    }

    pub fn len(&self) -> (r: usize)
        ensures
            r == self@.len(),
    {
        self.chars.len()
    }

    pub fn is_empty(&self) -> (r: bool)
        ensures
            r == (self@.len() == 0),
    {
        self.chars.len() == 0
    }

    pub fn eq_sym(&self, other: &Symbol) -> (r: bool)
        ensures
            r == (self@ == other@),
    {
        chars_eq(self.chars.as_slice(), other.chars.as_slice())
    }

    pub fn eq_chars(&self, other: &[char]) -> (r: bool)
        ensures
            r == (self@ == other@),
    {
        chars_eq(self.chars.as_slice(), other)
    }

    pub fn eq_str(&self, other: &str) -> (r: bool)
        ensures
            r == (self@ == other@),
    {
        let o = str_chars(other);
        chars_eq(self.chars.as_slice(), o.as_slice())
    }

    pub fn compare_sym(&self, other: &Symbol) -> (r: Order3)
        ensures
            r == seq_compare(self@, other@),
    {
        chars_compare(self.chars.as_slice(), other.chars.as_slice())
    }

    pub fn empty() -> (r: Symbol)
        ensures
            r@ == Seq::<char>::empty(),
    {
        Symbol { chars: Vec::new() }
    }
}

} // verus!
