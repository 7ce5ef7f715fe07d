use vstd::prelude::*;

use crate::model::symbol::{push_chars, str_chars};
use crate::model::{Construct, ConstructKind, Field, FieldKind, FieldVarModifier, Import};

verus! {

/// Lexicographic order on keys: the first difference decides, and a proper
/// prefix comes first.
pub open spec fn key_lt(a: Seq<u32>, b: Seq<u32>) -> bool
    decreases a.len(),
{
    if a.len() == 0 {
        b.len() > 0
    } else if b.len() == 0 {
        false
    } else if a[0] != b[0] {
        a[0] < b[0]
    } else {
        key_lt(a.drop_first(), b.drop_first())
    }
}

/// `key_lt`, computed.
pub fn key_less(a: &Vec<u32>, b: &Vec<u32>) -> (r: bool)
    ensures
        r == key_lt(a@, b@),
{
    let mut i: usize = 0;
    assert(a@.subrange(0, a@.len() as int) =~= a@);
    assert(b@.subrange(0, b@.len() as int) =~= b@);
    while i < a.len() && i < b.len()
        invariant
            i <= a@.len(),
            i <= b@.len(),
            a@.subrange(0, i as int) == b@.subrange(0, i as int),
            key_lt(a@, b@) == key_lt(a@.subrange(i as int, a@.len() as int), b@.subrange(i as int, b@.len() as int)),
        decreases a@.len() - i,
    {
        if a[i] != b[i] {
            return a[i] < b[i];
        }
        proof {
            let sa = a@.subrange(i as int, a@.len() as int);
            let sb = b@.subrange(i as int, b@.len() as int);
            assert(sa.drop_first() =~= a@.subrange(i + 1, a@.len() as int));
            assert(sb.drop_first() =~= b@.subrange(i + 1, b@.len() as int));
            assert(a@.subrange(0, i + 1) =~= a@.subrange(0, i as int).push(a@[i as int]));
            assert(b@.subrange(0, i + 1) =~= b@.subrange(0, i as int).push(b@[i as int]));
        }
        i = i + 1;
    }
    i < b.len()
}

/// The first of the earliest valid items `j < i` whose key is the least of
/// those above the key of item `i`: the item that `i` should come before.
pub open spec fn is_target(keys: Seq<Seq<u32>>, valid: Seq<bool>, i: int, j: int) -> bool {
    &&& 0 <= j < i
    &&& valid[j]
    &&& key_lt(keys[i], keys[j])
    &&& forall|k: int|
        0 <= k < i && valid[k] && key_lt(keys[i], keys[k]) ==> !key_lt(keys[k], keys[j]) && (
        k < j ==> key_lt(keys[j], keys[k]))
}

/// Scanning the valid items in order, keeping the one with the greatest key
/// so far: the index kept after the first `n` items (if any), and each item
/// whose key is below the kept one's, with its target.
pub open spec fn scan_order(keys: Seq<Seq<u32>>, valid: Seq<bool>, n: int) -> (Option<int>, Seq<(int, int)>)
    decreases n,
{
    if n <= 0 {
        (None, Seq::empty())
    } else {
        let (m, v) = scan_order(keys, valid, n - 1);
        let i = n - 1;
        if !valid[i] {
            (m, v)
        } else {
            match m {
                Some(mi) => if key_lt(keys[i], keys[mi]) {
                    (m, v.push((i, choose|j: int| is_target(keys, valid, i, j))))
                } else {
                    (Some(i), v)
                },
                None => (Some(i), v),
            }
        }
    }
}

pub proof fn lemma_key_lt_irreflexive(a: Seq<u32>)
    ensures
        !key_lt(a, a),
    decreases a.len(),
{
    if a.len() > 0 {
        lemma_key_lt_irreflexive(a.drop_first());
    }
}

pub proof fn lemma_key_lt_transitive(a: Seq<u32>, b: Seq<u32>, c: Seq<u32>)
    requires
        key_lt(a, b),
        key_lt(b, c),
    ensures
        key_lt(a, c),
    decreases a.len(),
{
    if a.len() > 0 && b.len() > 0 && c.len() > 0 && a[0] == b[0] && b[0] == c[0] {
        lemma_key_lt_transitive(a.drop_first(), b.drop_first(), c.drop_first());
    }
}

pub proof fn lemma_key_lt_total(a: Seq<u32>, b: Seq<u32>)
    ensures
        key_lt(a, b) || key_lt(b, a) || a == b,
    decreases a.len(),
{
    if a.len() > 0 && b.len() > 0 && a[0] == b[0] {
        lemma_key_lt_total(a.drop_first(), b.drop_first());
        if a.drop_first() == b.drop_first() {
            assert(a =~= seq![a[0]] + a.drop_first());
            assert(b =~= seq![b[0]] + b.drop_first());
        }
    } else if a.len() == 0 && b.len() == 0 {
        assert(a =~= b);
    }
}

/// An item has at most one target.
pub proof fn lemma_target_unique(keys: Seq<Seq<u32>>, valid: Seq<bool>, i: int, j1: int, j2: int)
    requires
        is_target(keys, valid, i, j1),
        is_target(keys, valid, i, j2),
    ensures
        j1 == j2,
{
    if j1 < j2 {
        assert(key_lt(keys[j2], keys[j1]));
    } else if j2 < j1 {
        assert(key_lt(keys[j1], keys[j2]));
    }
}

/// Each item `scan_order` reports is valid.
pub proof fn lemma_scan_order_valid(keys: Seq<Seq<u32>>, valid: Seq<bool>, n: int, j: int)
    requires
        0 <= j < scan_order(keys, valid, n).1.len(),
    ensures
        valid[scan_order(keys, valid, n).1[j].0],
    decreases n,
{
    if n > 0 {
        let (m, v) = scan_order(keys, valid, n - 1);
        if j < v.len() {
            lemma_scan_order_valid(keys, valid, n - 1, j);
        }
    }
}

/// The valid items among the first `n` are in order of their keys.
pub open spec fn sorted_keys(keys: Seq<Seq<u32>>, valid: Seq<bool>, n: int) -> bool {
    forall|i: int, j: int| 0 <= i < j < n && valid[i] && valid[j] ==> !key_lt(keys[j], keys[i])
}

/// The item `scan_order` keeps is a valid one with a greatest key so far,
/// and there is one exactly when some item so far is valid.
pub proof fn lemma_scan_order_max(keys: Seq<Seq<u32>>, valid: Seq<bool>, n: int)
    requires
        0 <= n <= keys.len(),
        n <= valid.len(),
    ensures
        match scan_order(keys, valid, n).0 {
            Some(m) => 0 <= m < n && valid[m] && forall|i: int| 0 <= i < n && valid[i] ==> !key_lt(keys[m], keys[i]),
            None => forall|i: int| 0 <= i < n ==> !valid[i],
        },
    decreases n,
{
    if n > 0 {
        lemma_scan_order_max(keys, valid, n - 1);
        let i = n - 1;
        let (m, v) = scan_order(keys, valid, n - 1);
        if valid[i] {
            match m {
                Some(mi) => {
                    if key_lt(keys[i], keys[mi]) {
                        if key_lt(keys[mi], keys[i]) {
                            lemma_key_lt_transitive(keys[mi], keys[i], keys[mi]);
                            lemma_key_lt_irreflexive(keys[mi]);
                        }
                    } else {
                        assert forall|q: int| 0 <= q < n && valid[q] implies !key_lt(keys[i], keys[q]) by {
                            if q < i && key_lt(keys[i], keys[q]) {
                                lemma_key_lt_total(keys[i], keys[mi]);
                                if key_lt(keys[mi], keys[i]) {
                                    lemma_key_lt_transitive(keys[mi], keys[i], keys[q]);
                                }
                            }
                            if q == i {
                                lemma_key_lt_irreflexive(keys[i]);
                            }
                        }
                    }
                },
                None => {
                    lemma_key_lt_irreflexive(keys[i]);
                },
            }
        }
    }
}

/// The ordering check reports nothing exactly when the valid items are in
/// order of their keys.
pub proof fn lemma_no_violations_iff_sorted(keys: Seq<Seq<u32>>, valid: Seq<bool>, n: int)
    requires
        0 <= n <= keys.len(),
        n <= valid.len(),
    ensures
        scan_order(keys, valid, n).1.len() == 0 <==> sorted_keys(keys, valid, n),
    decreases n,
{
    if n > 0 {
        lemma_no_violations_iff_sorted(keys, valid, n - 1);
        lemma_scan_order_max(keys, valid, n - 1);
        let i = n - 1;
        let (m, v) = scan_order(keys, valid, n - 1);
        if v.len() > 0 {
            assert(!sorted_keys(keys, valid, n - 1));
            assert(!sorted_keys(keys, valid, n));
        } else if valid[i] {
            match m {
                Some(mi) => {
                    if key_lt(keys[i], keys[mi]) {
                        assert(!sorted_keys(keys, valid, n));
                    } else {
                        assert forall|a: int, b: int| 0 <= a < b < n && valid[a] && valid[b] implies !key_lt(keys[b], keys[a]) by {
                            if b == i && key_lt(keys[i], keys[a]) {
                                lemma_key_lt_total(keys[i], keys[mi]);
                                if key_lt(keys[mi], keys[i]) {
                                    lemma_key_lt_transitive(keys[mi], keys[i], keys[a]);
                                }
                            }
                        }
                    }
                },
                None => {},
            }
        }
    }
}

pub open spec fn key_views(keys: Seq<Vec<u32>>) -> Seq<Seq<u32>> {
    keys.map_values(|k: Vec<u32>| k@)
}

/// The target of item `i`, which has one.
fn find_target(keys: &Vec<Vec<u32>>, valid: &Vec<bool>, i: usize) -> (r: usize)
    requires
        i < keys@.len(),
        keys@.len() == valid@.len(),
        exists|j: int| 0 <= j < i && valid@[j] && key_lt(keys@[i as int]@, keys@[j]@),
    ensures
        is_target(key_views(keys@), valid@, i as int, r as int),
{
    let ghost kv = key_views(keys@);
    let mut best: Option<usize> = None;
    let mut k: usize = 0;
    while k < i
        invariant
            i < keys@.len(),
            keys@.len() == valid@.len(),
            kv == key_views(keys@),
            k <= i,
            match best {
                Some(b) => {
                    &&& b < k
                    &&& valid@[b as int]
                    &&& key_lt(kv[i as int], kv[b as int])
                    &&& forall|q: int|
                        0 <= q < k && valid@[q] && key_lt(kv[i as int], kv[q]) ==> !key_lt(kv[q], kv[b as int])
                            && (q < b ==> key_lt(kv[b as int], kv[q]))
                },
                None => forall|q: int| 0 <= q < k ==> !(valid@[q] && key_lt(kv[i as int], kv[q])),
            },
        decreases i - k,
    {
        assert(kv[k as int] == keys@[k as int]@);
        assert(kv[i as int] == keys@[i as int]@);
        if valid[k] && key_less(&keys[i], &keys[k]) {
            match best {
                None => {
                    proof {
                        lemma_key_lt_irreflexive(kv[k as int]);
                    }
                    best = Some(k);
                },
                Some(b) => {
                    assert(kv[b as int] == keys@[b as int]@);
                    if key_less(&keys[k], &keys[b]) {
                        proof {
                            assert forall|q: int|
                                0 <= q < k + 1 && valid@[q] && key_lt(kv[i as int], kv[q]) implies !key_lt(kv[q], kv[k as int])
                                    && (q < k ==> key_lt(kv[k as int], kv[q])) by {
                                if q < k {
                                    if key_lt(kv[q], kv[k as int]) {
                                        lemma_key_lt_transitive(kv[q], kv[k as int], kv[b as int]);
                                    }
                                    lemma_key_lt_total(kv[b as int], kv[q]);
                                    if key_lt(kv[b as int], kv[q]) {
                                        lemma_key_lt_transitive(kv[k as int], kv[b as int], kv[q]);
                                    }
                                } else {
                                    lemma_key_lt_irreflexive(kv[k as int]);
                                }
                            }
                        }
                        best = Some(k);
                    }
                },
            }
        }
        k = k + 1;
    }
    match best {
        Some(b) => b,
        None => {
            proof {
                let j = choose|j: int| 0 <= j < i && valid@[j] && key_lt(keys@[i as int]@, keys@[j]@);
                assert(kv[j] == keys@[j]@);
            }
            0
        },
    }
}

/// The items out of order, each with its target: see `scan_order`.
pub fn find_ordering_violations(keys: &Vec<Vec<u32>>, valid: &Vec<bool>) -> (r: Vec<(usize, usize)>)
    requires
        keys@.len() == valid@.len(),
    ensures
        r@.map_values(|p: (usize, usize)| (p.0 as int, p.1 as int)) == scan_order(
            key_views(keys@),
            valid@,
            keys@.len() as int,
        ).1,
        forall|j: int| 0 <= j < r@.len() ==> (#[trigger] r@[j]).1 < r@[j].0 < keys@.len(),
{
    let ghost kv = key_views(keys@);
    let mut out: Vec<(usize, usize)> = Vec::new();
    let mut max: Option<usize> = None;
    let mut i: usize = 0;
    while i < keys.len()
        invariant
            i <= keys@.len(),
            keys@.len() == valid@.len(),
            kv == key_views(keys@),
            out@.map_values(|p: (usize, usize)| (p.0 as int, p.1 as int)) == scan_order(kv, valid@, i as int).1,
            forall|j: int| 0 <= j < out@.len() ==> (#[trigger] out@[j]).1 < out@[j].0 < i,
            match max {
                Some(m) => scan_order(kv, valid@, i as int).0 == Some(m as int) && m < i,
                None => scan_order(kv, valid@, i as int).0 is None,
            },
            forall|q: int| 0 <= q < i && valid@[q] ==> scan_order(kv, valid@, i as int).0 is Some,
            match scan_order(kv, valid@, i as int).0 {
                Some(m) => valid@[m] && forall|q: int| 0 <= q < i && valid@[q] ==> !key_lt(kv[m], kv[q]),
                None => true,
            },
        decreases keys@.len() - i,
    {
        let ghost before = out@.map_values(|p: (usize, usize)| (p.0 as int, p.1 as int));
        if valid[i] {
            match max {
                Some(m) => {
                    assert(kv[i as int] == keys@[i as int]@);
                    assert(kv[m as int] == keys@[m as int]@);
                    if key_less(&keys[i], &keys[m]) {
                        let t = find_target(keys, valid, i);
                        proof {
                            if key_lt(kv[m as int], kv[i as int]) {
                                lemma_key_lt_transitive(kv[m as int], kv[i as int], kv[m as int]);
                                lemma_key_lt_irreflexive(kv[m as int]);
                            }
                            let j = choose|j: int| is_target(kv, valid@, i as int, j);
                            lemma_target_unique(kv, valid@, i as int, j, t as int);
                        }
                        out.push((i, t));
                        assert(out@.map_values(|p: (usize, usize)| (p.0 as int, p.1 as int)) =~= before.push((i as int, t as int)));
                    } else {
                        proof {
                            assert forall|q: int| 0 <= q < i + 1 && valid@[q] implies !key_lt(kv[i as int], kv[q]) by {
                                if q < i {
                                    if key_lt(kv[i as int], kv[q]) {
                                        lemma_key_lt_total(kv[i as int], kv[m as int]);
                                        if key_lt(kv[m as int], kv[i as int]) {
                                            lemma_key_lt_transitive(kv[m as int], kv[i as int], kv[q]);
                                        }
                                    }
                                } else {
                                    lemma_key_lt_irreflexive(kv[i as int]);
                                }
                            }
                        }
                        max = Some(i);
                    }
                },
                None => {
                    proof {
                        assert forall|q: int| 0 <= q < i + 1 && valid@[q] implies !key_lt(kv[i as int], kv[q]) by {
                            lemma_key_lt_irreflexive(kv[i as int]);
                        }
                    }
                    max = Some(i);
                },
            }
        }
        i = i + 1;
    }
    out
}

/// Character codes, each plus one (leaving 0 as a separator).
pub open spec fn codes_plus_one(s: Seq<char>) -> Seq<u32> {
    s.map_values(|c: char| (c as u32 + 1) as u32)
}

/// Character codes.
pub open spec fn codes(s: Seq<char>) -> Seq<u32> {
    s.map_values(|c: char| c as u32)
}

/// The ordering key of a module path: its segments' codes (plus one)
/// separated by 0, which orders paths segment by segment, a path before
/// those it is a prefix of.
pub open spec fn path_key(names: Seq<Seq<char>>) -> Seq<u32>
    decreases names.len(),
{
    if names.len() == 0 {
        Seq::empty()
    } else if names.len() == 1 {
        codes_plus_one(names[0])
    } else {
        path_key(names.drop_last()).push(0) + codes_plus_one(names.last())
    }
}

fn push_codes(out: &mut Vec<u32>, s: &[char], plus_one: bool)
    ensures
        final(out)@ == old(out)@ + (if plus_one {
            codes_plus_one(s@)
        } else {
            codes(s@)
        }),
{
    let mut i: usize = 0;
    while i < s.len()
        invariant
            i <= s@.len(),
            out@ == old(out)@ + (if plus_one {
                codes_plus_one(s@.take(i as int))
            } else {
                codes(s@.take(i as int))
            }),
        decreases s@.len() - i,
    {
        let ch = s[i];
        let c = ch as u32;
        proof {
            vstd::utf8::char_is_scalar(ch);
        }
        if plus_one {
            out.push(c + 1);
        } else {
            out.push(c);
        }
        proof {
            assert(codes_plus_one(s@.take(i + 1)) =~= codes_plus_one(s@.take(i as int)).push((s@[i as int] as u32 + 1) as u32));
            assert(codes(s@.take(i + 1)) =~= codes(s@.take(i as int)).push(s@[i as int] as u32));
        }
        i = i + 1;
    }
    assert(s@.take(s@.len() as int) =~= s@);
}

pub open spec fn import_names(i: Import) -> Seq<Seq<char>> {
    i.path@.map_values(|x: crate::model::Ident| x.name@)
}

/// The ordering key of an import: the key of its module path.
pub fn import_key(imp: &Import) -> (r: Vec<u32>)
    ensures
        r@ == path_key(import_names(*imp)),
{
    let ghost names = import_names(*imp);
    let mut out: Vec<u32> = Vec::new();
    let mut k: usize = 0;
    while k < imp.path.len()
        invariant
            k <= imp.path@.len(),
            names == import_names(*imp),
            out@ == path_key(names.take(k as int)),
        decreases imp.path@.len() - k,
    {
        if k > 0 {
            out.push(0);
        }
        push_codes(&mut out, imp.path[k].name.as_str(), true);
        proof {
            assert(names.take(k + 1).drop_last() =~= names.take(k as int));
            assert(names.take(k + 1).last() == imp.path@[k as int].name@);
            if k == 0 {
                assert(names.take(1)[0] == imp.path@[0].name@);
            }
        }
        k = k + 1;
    }
    assert(names.take(imp.path@.len() as int) =~= names);
    out
}

/// The rank of a construct kind in a file's order.
pub open spec fn kind_rank(k: ConstructKind) -> u32 {
    match k {
        ConstructKind::TypeAlias(_) => 0,
        ConstructKind::Data(_) => 1,
        ConstructKind::Entity(_) => 2,
        ConstructKind::Func(_) => 3,
        ConstructKind::Extern(_) => 4,
        ConstructKind::Native(_) => 5,
        ConstructKind::Invalid(_) => 255,
    }
}

/// The ordering key of a construct: kind, then `out` ones first, then name.
pub open spec fn construct_key_spec(c: Construct) -> Seq<u32> {
    seq![kind_rank(c.kind), if c.out { 0u32 } else { 1u32 }] + codes(c.name.name@)
}

pub fn construct_key(c: &Construct) -> (r: Vec<u32>)
    ensures
        r@ == construct_key_spec(*c),
{
    let rank: u32 = match &c.kind {
        ConstructKind::TypeAlias(_) => 0,
        ConstructKind::Data(_) => 1,
        ConstructKind::Entity(_) => 2,
        ConstructKind::Func(_) => 3,
        ConstructKind::Extern(_) => 4,
        ConstructKind::Native(_) => 5,
        ConstructKind::Invalid(_) => 255,
    };
    let mut out: Vec<u32> = Vec::new();
    out.push(rank);
    out.push(if c.out { 0 } else { 1 });
    push_codes(&mut out, c.name.name.as_str(), false);
    assert(out@ =~= construct_key_spec(*c));
    out
}

/// The rank of a field in a construct body: intype, in without and with a
/// default, inout without and with, out, out!, implicit, value.
pub open spec fn field_rank(k: FieldKind) -> u32 {
    match k {
        FieldKind::Intype(_) => 0,
        FieldKind::Var(fv) => match fv.modifier {
            FieldVarModifier::In => if fv.default is Some { 2 } else { 1 },
            FieldVarModifier::Inout => if fv.default is Some { 4 } else { 3 },
            FieldVarModifier::Out => 5,
            FieldVarModifier::OutEarly => 6,
            FieldVarModifier::Implicit => 7,
            FieldVarModifier::Value => 8,
        },
        FieldKind::Invalid(_) => 0,
    }
}

pub open spec fn field_name_of(k: FieldKind) -> Seq<char> {
    match k {
        FieldKind::Intype(ft) => ft.name.name@,
        FieldKind::Var(fv) => fv.name.name@,
        FieldKind::Invalid(_) => Seq::empty(),
    }
}

/// The ordering key of a field: its rank, then its name.
pub open spec fn field_key_spec(f: Field) -> Seq<u32> {
    seq![field_rank(f.kind)] + codes(field_name_of(f.kind))
}

pub fn field_key(f: &Field) -> (r: Vec<u32>)
    ensures
        r@ == field_key_spec(*f),
{
    let mut out: Vec<u32> = Vec::new();
    match &f.kind {
        FieldKind::Intype(ft) => {
            out.push(0);
            push_codes(&mut out, ft.name.name.as_str(), false);
        },
        FieldKind::Var(fv) => {
            let rank: u32 = match fv.modifier {
                FieldVarModifier::In => if fv.default.is_some() { 2 } else { 1 },
                FieldVarModifier::Inout => if fv.default.is_some() { 4 } else { 3 },
                FieldVarModifier::Out => 5,
                FieldVarModifier::OutEarly => 6,
                FieldVarModifier::Implicit => 7,
                FieldVarModifier::Value => 8,
            };
            out.push(rank);
            push_codes(&mut out, fv.name.name.as_str(), false);
        },
        FieldKind::Invalid(_) => {
            out.push(0);
        },
    }
    assert(out@ =~= field_key_spec(*f));
    out
}

/// How a construct is named in messages: `out`, its keyword, its name.
pub open spec fn construct_label_spec(c: Construct) -> Seq<char> {
    let kw = match c.kind {
        ConstructKind::TypeAlias(_) => "type"@,
        ConstructKind::Data(_) => "data"@,
        ConstructKind::Entity(_) => "entity"@,
        ConstructKind::Func(_) => "func"@,
        ConstructKind::Extern(_) => "extern"@,
        ConstructKind::Native(_) => "native"@,
        ConstructKind::Invalid(_) => "?"@,
    };
    (if c.out { "out "@ } else { Seq::empty() }) + kw + " "@ + c.name.name@
}

pub fn construct_label(c: &Construct) -> (r: Vec<char>)
    ensures
        r@ == construct_label_spec(*c),
{
    let mut out: Vec<char> = if c.out { str_chars("out ") } else { Vec::new() };
    let kw = match &c.kind {
        ConstructKind::TypeAlias(_) => "type",
        ConstructKind::Data(_) => "data",
        ConstructKind::Entity(_) => "entity",
        ConstructKind::Func(_) => "func",
        ConstructKind::Extern(_) => "extern",
        ConstructKind::Native(_) => "native",
        ConstructKind::Invalid(_) => "?",
    };
    let kwc = str_chars(kw);
    push_chars(&mut out, kwc.as_slice());
    out.push(' ');
    push_chars(&mut out, c.name.name.as_str());
    proof {
        reveal_strlit(" ");
    }
    assert(out@ =~= construct_label_spec(*c));
    out
}

/// How a field is named in messages: its modifier and its name.
pub open spec fn field_label_spec(f: Field) -> Seq<char> {
    match f.kind {
        FieldKind::Intype(ft) => "intype "@ + ft.name.name@,
        FieldKind::Var(fv) => (match fv.modifier {
            FieldVarModifier::In => "in"@,
            FieldVarModifier::Inout => "inout"@,
            FieldVarModifier::Out => "out"@,
            FieldVarModifier::OutEarly => "out!"@,
            FieldVarModifier::Implicit => "implicit"@,
            FieldVarModifier::Value => "value"@,
        }) + " "@ + fv.name.name@,
        FieldKind::Invalid(_) => "?"@,
    }
}

pub fn field_label(f: &Field) -> (r: Vec<char>)
    ensures
        r@ == field_label_spec(*f),
{
    proof {
        reveal_strlit(" ");
    }
    match &f.kind {
        FieldKind::Intype(ft) => {
            let mut out = str_chars("intype ");
            push_chars(&mut out, ft.name.name.as_str());
            out
        },
        FieldKind::Var(fv) => {
            let m = match fv.modifier {
                FieldVarModifier::In => "in",
                FieldVarModifier::Inout => "inout",
                FieldVarModifier::Out => "out",
                FieldVarModifier::OutEarly => "out!",
                FieldVarModifier::Implicit => "implicit",
                FieldVarModifier::Value => "value",
            };
            let mut out = str_chars(m);
            out.push(' ');
            push_chars(&mut out, fv.name.name.as_str());
            assert(out@ =~= field_label_spec(*f));
            out
        },
        FieldKind::Invalid(_) => str_chars("?"),
    }
}


/// Constructs of different kinds are ordered by kind alone, whatever their
/// names and `out` marks: type aliases, then data, then entities, then
/// funcs, then externs, then natives.
pub proof fn lemma_construct_kind_order(a: Construct, b: Construct)
    ensures
        a.kind is TypeAlias && (b.kind is Data || b.kind is Entity || b.kind is Func || b.kind is Extern
            || b.kind is Native) ==> key_lt(construct_key_spec(a), construct_key_spec(b)),
        a.kind is Data && (b.kind is Entity || b.kind is Func || b.kind is Extern || b.kind is Native)
            ==> key_lt(construct_key_spec(a), construct_key_spec(b)),
        a.kind is Entity && (b.kind is Func || b.kind is Extern || b.kind is Native) ==> key_lt(
            construct_key_spec(a),
            construct_key_spec(b),
        ),
        a.kind is Func && (b.kind is Extern || b.kind is Native) ==> key_lt(construct_key_spec(a), construct_key_spec(b)),
        a.kind is Extern && b.kind is Native ==> key_lt(construct_key_spec(a), construct_key_spec(b)),
{
    let ka = construct_key_spec(a);
    let kb = construct_key_spec(b);
    assert(ka[0] == kind_rank(a.kind));
    assert(kb[0] == kind_rank(b.kind));
}

/// Two constructs listed in kind order (as `lemma_construct_kind_order`
/// ranks them; say an entity before a func) give no ordering violation.
pub proof fn lemma_kind_ordered_pair_no_violation(a: Construct, b: Construct)
    requires
        key_lt(construct_key_spec(a), construct_key_spec(b)),
    ensures
        scan_order(
            seq![a, b].map_values(|c: Construct| construct_key_spec(c)),
            seq![a, b].map_values(|c: Construct| !(c.kind is Invalid)),
            2,
        ).1.len() == 0,
{
    let keys = seq![a, b].map_values(|c: Construct| construct_key_spec(c));
    let valid = seq![a, b].map_values(|c: Construct| !(c.kind is Invalid));
    lemma_no_violations_iff_sorted(keys, valid, 2);
    assert forall|i: int, j: int| 0 <= i < j < 2 && valid[i] && valid[j] implies !key_lt(keys[j], keys[i]) by {
        assert(i == 0 && j == 1);
        assert(keys[0] == construct_key_spec(a));
        assert(keys[1] == construct_key_spec(b));
        if key_lt(keys[1], keys[0]) {
            lemma_key_lt_transitive(keys[0], keys[1], keys[0]);
            lemma_key_lt_irreflexive(keys[0]);
        }
    }
}

} // verus!
