use vstd::prelude::*;

use super::symbol::{chars_eq, str_chars, Symbol};

verus! {

/// A set of names, kept as a vector without repeats.
#[derive(Debug)]
pub struct SymbolSet {
    pub items: Vec<Symbol>,
}

pub open spec fn sym_set_of(items: Seq<Symbol>) -> Set<Seq<char>> {
    Set::new(|x: Seq<char>| exists|i: int| 0 <= i < items.len() && (#[trigger] items[i])@ == x)
}

impl View for SymbolSet {
    type V = Set<Seq<char>>;

    open spec fn view(&self) -> Set<Seq<char>> {
        sym_set_of(self.items@)
    }
}

impl SymbolSet {
    /// No name occurs twice.
    pub open spec fn wf(&self) -> bool {
        forall|a: int, b: int| 0 <= a < b < self.items@.len() ==> self.items@[a]@ != self.items@[b]@
    }

    pub fn new() -> (r: SymbolSet)
        ensures
            r.wf(),
            r@ == Set::<Seq<char>>::empty(),
            r.items@.len() == 0,
    {
        let r = SymbolSet { items: Vec::new() };
        assert(r@ =~= Set::<Seq<char>>::empty());
        r
    }

    /// Position of `name`.
    fn position(&self, name: &[char]) -> (r: Option<usize>)
        ensures
            match r {
                Some(i) => i < self.items@.len() && self.items@[i as int]@ == name@,
                None => !self@.contains(name@),
            },
    {
        let mut i: usize = 0;
        while i < self.items.len()
            invariant
                i <= self.items@.len(),
                forall|j: int| 0 <= j < i ==> self.items@[j]@ != name@,
            decreases self.items@.len() - i,
        {
            if chars_eq(self.items[i].as_str(), name) {
                return Some(i);
            }
            i = i + 1;
        }
        None
    }

    pub fn contains(&self, name: &[char]) -> (r: bool)
        ensures
            r == self@.contains(name@),
    {
        match self.position(name) {
            Some(i) => {
                assert(self@.contains(self.items@[i as int]@));
                true
            },
            None => false,
        }
    }

    pub fn contains_sym(&self, name: &Symbol) -> (r: bool)
        ensures
            r == self@.contains(name@),
    {
        self.contains(name.as_str())
    }

    pub fn contains_str(&self, name: &str) -> (r: bool)
        ensures
            r == self@.contains(name@),
    {
        let chars = str_chars(name);
        self.contains(chars.as_slice())
    }

    /// Add `name`; returns whether it was absent.
    pub fn insert(&mut self, name: Symbol) -> (r: bool)
        requires
            old(self).wf(),
        ensures
            final(self).wf(),
            final(self)@ == old(self)@.insert(name@),
            r == !old(self)@.contains(name@),
    {
        if self.contains(name.as_str()) {
            assert(self@ =~= old(self)@.insert(name@));
            return false;
        }
        let ghost n = name@;
        self.items.push(name);
        proof {
            assert forall|x: Seq<char>| self@.contains(x) <==> old(self)@.insert(n).contains(x) by {
                if self@.contains(x) {
                    let i = choose|i: int| 0 <= i < self.items@.len() && (#[trigger] self.items@[i])@ == x;
                    if i < old(self).items@.len() {
                        assert(old(self).items@[i] == self.items@[i]);
                    }
                }
                if old(self)@.contains(x) {
                    let i = choose|i: int| 0 <= i < old(self).items@.len() && (#[trigger] old(self).items@[i])@ == x;
                    assert(self.items@[i] == old(self).items@[i]);
                }
                if x == n {
                    assert(self.items@[old(self).items@.len() as int]@ == n);
                }
            }
            assert(self@ =~= old(self)@.insert(n));
            assert forall|a: int, b: int| 0 <= a < b < self.items@.len() implies self.items@[a]@ != self.items@[b]@ by {
                if b < old(self).items@.len() {
                    assert(old(self).items@[a] == self.items@[a]);
                    assert(old(self).items@[b] == self.items@[b]);
                } else {
                    assert(old(self).items@[a] == self.items@[a]);
                    assert(old(self)@.contains(old(self).items@[a]@));
                }
            }
        }
        true
    }

    /// Remove `name` if present.
    pub fn remove(&mut self, name: &[char])
        requires
            old(self).wf(),
        ensures
            final(self).wf(),
            final(self)@ == old(self)@.remove(name@),
    {
        match self.position(name) {
            Some(i) => {
                let ghost before = self.items@;
                self.items.remove(i);
                proof {
                    assert forall|x: Seq<char>| self@.contains(x) <==> old(self)@.remove(name@).contains(x) by {
                        if self@.contains(x) {
                            let k = choose|k: int| 0 <= k < self.items@.len() && (#[trigger] self.items@[k])@ == x;
                            if k < i {
                                assert(self.items@[k] == before[k]);
                                assert(k != i);
                            } else {
                                assert(self.items@[k] == before[k + 1]);
                            }
                        }
                        if old(self)@.remove(name@).contains(x) {
                            let k = choose|k: int| 0 <= k < before.len() && (#[trigger] before[k])@ == x;
                            assert(k != i);
                            if k < i {
                                assert(self.items@[k] == before[k]);
                            } else {
                                assert(self.items@[k - 1] == before[k]);
                            }
                        }
                    }
                    assert(self@ =~= old(self)@.remove(name@));
                    assert forall|a: int, b: int| 0 <= a < b < self.items@.len() implies self.items@[a]@ != self.items@[b]@ by {
                        let a2 = if a < i { a } else { a + 1 };
                        let b2 = if b < i { b } else { b + 1 };
                        assert(self.items@[a] == before[a2]);
                        assert(self.items@[b] == before[b2]);
                    }
                }
            },
            None => {
                assert(self@ =~= old(self)@.remove(name@));
            },
        }
    }

    /// A copy of the set.
    pub fn dup(&self) -> (r: SymbolSet)
        requires
            self.wf(),
        ensures
            r.wf(),
            r@ == self@,
    {
        let mut items: Vec<Symbol> = Vec::new();
        let mut i: usize = 0;
        while i < self.items.len()
            invariant
                self.wf(),
                i <= self.items@.len(),
                items@.len() == i,
                forall|k: int| 0 <= k < i ==> (#[trigger] items@[k])@ == self.items@[k]@,
            decreases self.items@.len() - i,
        {
            items.push(self.items[i].dup());
            i = i + 1;
        }
        let r = SymbolSet { items };
        proof {
            assert forall|x: Seq<char>| r@.contains(x) <==> self@.contains(x) by {
                if r@.contains(x) {
                    let k = choose|k: int| 0 <= k < r.items@.len() && (#[trigger] r.items@[k])@ == x;
                    assert(self.items@[k]@ == x);
                }
                if self@.contains(x) {
                    let k = choose|k: int| 0 <= k < self.items@.len() && (#[trigger] self.items@[k])@ == x;
                    assert(r.items@[k]@ == x);
                }
            }
            assert(r@ =~= self@);
        }
        r
    }

    pub fn len(&self) -> (r: usize)
        ensures
            r == self.items@.len(),
    {
        self.items.len()
    }

    pub fn is_empty(&self) -> (r: bool)
        ensures
            r == (self@ =~= Set::<Seq<char>>::empty()),
    {
        if self.items.len() == 0 {
            assert(self@ =~= Set::<Seq<char>>::empty());
            true
        } else {
            assert(self@.contains(self.items@[0]@));
            false
        }
    }
}

} // verus!
