use vstd::prelude::*;

use super::symbol::{chars_eq, Symbol};

verus! {

/// The value of the first entry of `s` whose key is `name`.
pub open spec fn assoc_first<V>(s: Seq<(Symbol, V)>, name: Seq<char>) -> Option<V>
    decreases s.len(),
{
    if s.len() == 0 {
        None
    } else if s[0].0@ == name {
        Some(s[0].1)
    } else {
        assoc_first(s.drop_first(), name)
    }
}

/// No two entries share a key.
pub open spec fn keys_unique<V>(s: Seq<(Symbol, V)>) -> bool {
    forall|a: int, b: int| 0 <= a < b < s.len() ==> s[a].0@ != s[b].0@
}

pub proof fn lemma_assoc_first_at<V>(s: Seq<(Symbol, V)>, i: int, name: Seq<char>)
    requires
        0 <= i < s.len(),
        s[i].0@ == name,
        forall|j: int| 0 <= j < i ==> s[j].0@ != name,
    ensures
        assoc_first(s, name) == Some(s[i].1),
    decreases i,
{
    if i > 0 {
        lemma_assoc_first_at(s.drop_first(), i - 1, name);
    }
}

pub proof fn lemma_assoc_first_absent<V>(s: Seq<(Symbol, V)>, name: Seq<char>)
    requires
        forall|j: int| 0 <= j < s.len() ==> s[j].0@ != name,
    ensures
        assoc_first(s, name) is None,
    decreases s.len(),
{
    if s.len() > 0 {
        lemma_assoc_first_absent(s.drop_first(), name);
    }
}

/// `assoc_first` is `Some` exactly when some entry has the key, and then names such an entry.
pub proof fn lemma_assoc_first_some<V>(s: Seq<(Symbol, V)>, name: Seq<char>)
    ensures
        assoc_first(s, name) is Some <==> exists|j: int| 0 <= j < s.len() && s[j].0@ == name,
        assoc_first(s, name) matches Some(v) ==> exists|j: int|
            0 <= j < s.len() && s[j].0@ == name && s[j].1 == v,
    decreases s.len(),
{
    if s.len() > 0 {
        lemma_assoc_first_some(s.drop_first(), name);
        if s[0].0@ != name {
            if exists|j: int| 0 <= j < s.len() && s[j].0@ == name {
                let j = choose|j: int| 0 <= j < s.len() && s[j].0@ == name;
                assert(s.drop_first()[j - 1].0@ == name);
            }
            if assoc_first(s, name) is Some {
                let v = assoc_first(s, name).unwrap();
                let j = choose|j: int|
                    0 <= j < s.len() - 1 && s.drop_first()[j].0@ == name && s.drop_first()[j].1 == v;
                assert(s[j + 1].0@ == name);
            }
        }
    }
}

/// Appending an entry under a key that was absent makes it the key's entry; other keys keep theirs.
pub proof fn lemma_assoc_first_push<V>(s: Seq<(Symbol, V)>, e: (Symbol, V), name: Seq<char>)
    ensures
        assoc_first(s.push(e), name) == (if assoc_first(s, name) is Some {
            assoc_first(s, name)
        } else if e.0@ == name {
            Some(e.1)
        } else {
            None
        }),
    decreases s.len(),
{
    let t = s.push(e);
    if s.len() > 0 {
        lemma_assoc_first_push(s.drop_first(), e, name);
        assert(t.drop_first() =~= s.drop_first().push(e));
        assert(t[0] == s[0]);
        if s[0].0@ != name {
            assert(assoc_first(t, name) == assoc_first(t.drop_first(), name));
            assert(assoc_first(s, name) == assoc_first(s.drop_first(), name));
        }
    } else {
        assert(t[0] == e);
        assert(t.drop_first().len() == 0);
        assert(assoc_first(t.drop_first(), name) is None);
    }
}

/// Replacing the entry at `p` by one with an equal key changes only that key's value.
pub proof fn lemma_assoc_first_update<V>(s: Seq<(Symbol, V)>, p: int, k: Symbol, v: V, name: Seq<char>)
    requires
        0 <= p < s.len(),
        keys_unique(s),
        k@ == s[p].0@,
    ensures
        assoc_first(s.update(p, (k, v)), name) == (if s[p].0@ == name {
            Some(v)
        } else {
            assoc_first(s, name)
        }),
    decreases s.len(),
{
    let t = s.update(p, (k, v));
    if p == 0 {
        if s[0].0@ != name {
            assert(t.drop_first() =~= s.drop_first());
        }
    } else {
        if s[0].0@ != name {
            assert(t.drop_first() =~= s.drop_first().update(p - 1, (k, v)));
            lemma_assoc_first_update(s.drop_first(), p - 1, k, v, name);
        } else {
            assert(s[p].0@ != name);
        }
    }
}

/// Position of the first entry whose key is `name`.
pub fn assoc_position<V>(s: &[(Symbol, V)], name: &[char]) -> (r: Option<usize>)
    ensures
        match r {
            Some(i) => i < s@.len() && s@[i as int].0@ == name@ && (forall|j: int|
                0 <= j < i ==> s@[j].0@ != name@) && assoc_first(s@, name@) == Some(
                s@[i as int].1,
            ),
            None => (forall|j: int| 0 <= j < s@.len() ==> s@[j].0@ != name@) && assoc_first(
                s@,
                name@,
            ) is None,
        },
{
    let mut i: usize = 0;
    while i < s.len()
        invariant
            i <= s@.len(),
            forall|j: int| 0 <= j < i ==> s@[j].0@ != name@,
        decreases s@.len() - i,
    {
        if chars_eq(s[i].0.chars.as_slice(), name) {
            proof {
                lemma_assoc_first_at(s@, i as int, name@);
            }
            return Some(i);
        }
        i = i + 1;
    }
    proof {
        lemma_assoc_first_absent(s@, name@);
    }
    None
}

/// Store `value` under `key`: replace its entry, or add one at the end.
pub fn assoc_put<V>(s: &mut Vec<(Symbol, V)>, key: Symbol, value: V)
    requires
        keys_unique(old(s)@),
    ensures
        keys_unique(final(s)@),
        forall|k: Seq<char>|
            assoc_first(final(s)@, k) == if k == key@ {
                Some(value)
            } else {
                assoc_first(old(s)@, k)
            },
        assoc_first(old(s)@, key@) is Some ==> final(s)@.len() == old(s)@.len(),
{
    let ghost before = s@;
    match assoc_position(s.as_slice(), key.chars.as_slice()) {
        Some(i) => {
            proof {
                assert forall|k: Seq<char>|
                    assoc_first(before.update(i as int, (key, value)), k) == (if k == key@ {
                        Some(value)
                    } else {
                        assoc_first(before, k)
                    }) by {
                    lemma_assoc_first_update(before, i as int, key, value, k);
                }
                assert(keys_unique(before.update(i as int, (key, value))));
            }
            s.set(i, (key, value));
        },
        None => {
            proof {
                assert forall|k: Seq<char>|
                    assoc_first(before.push((key, value)), k) == (if k == key@ {
                        Some(value)
                    } else {
                        assoc_first(before, k)
                    }) by {
                    lemma_assoc_first_push(before, (key, value), k);
                    if k == key@ {
                        lemma_assoc_first_absent(before, k);
                    }
                }
                assert(keys_unique(before.push((key, value)))) by {
                    assert forall|a: int, b: int| 0 <= a < b < before.len() + 1 implies before.push(
                        (key, value),
                    )[a].0@ != before.push((key, value))[b].0@ by {
                        if b == before.len() {
                            assert(before[a].0@ != key@);
                        }
                    }
                }
            }
            s.push((key, value));
        },
    }
}

} // verus!
