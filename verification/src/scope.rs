use vstd::prelude::*;

use crate::load::ids::TypeId;
use crate::model::assoc::{assoc_first, assoc_position, assoc_put, keys_unique, lemma_assoc_first_push};
use crate::model::Symbol;

verus! {

/// What a scope belongs to.
#[derive(Debug, Clone, Copy, PartialEq, Eq, Structural)]
pub enum ScopeKind {
    Module,
    File,
    Function,
    Construct,
    Block,
    For,
    Implicitly,
}

impl Default for ScopeKind {
    fn default() -> (r: ScopeKind)
        ensures
            r == ScopeKind::Block,
    {
        ScopeKind::Block
    }
}

/// A single scope level, parameterized over variable values and construct
/// references. Scopes form a chain through their parents; the parent is the
/// definition site, never the call site, so visibility is structural: what is
/// in the parent chain is visible.
#[verifier::reject_recursive_types(Var)]
#[verifier::reject_recursive_types(Construct)]
#[derive(Debug)]
pub struct Scope<Var, Construct> {
    pub kind: ScopeKind,
    pub parent: Option<Box<Scope<Var, Construct>>>,
    pub name: Option<Symbol>,
    /// Variables by name, one entry per name.
    pub vars: Vec<(Symbol, Var)>,
    /// Type parameters by name, one entry per name.
    pub type_params: Vec<(Symbol, TypeId)>,
    pub construct: Option<Construct>,
    /// Which field is the `out!` field (for `return!` resolution).
    pub out_early: Option<Symbol>,
    pub label: Option<Symbol>,
}

/// What `resolve_var` may return: the variable of the innermost scope that
/// has `name`, looking at each scope's variables, then its construct (through
/// `lookup`), then its parent.
pub open spec fn var_resolution<Var: Clone, Construct, F: Fn(&Construct, &Symbol) -> Option<Var>>(
    s: Scope<Var, Construct>,
    name: Symbol,
    lookup: F,
    r: Option<Var>,
) -> bool
    decreases s,
{
    match assoc_first(s.vars@, name@) {
        Some(v) => r matches Some(x) && cloned(v, x),
        None => {
            ||| (s.construct matches Some(c) && r is Some && lookup.ensures((&c, &name), r))
            ||| {
                &&& (s.construct matches Some(c) ==> lookup.ensures((&c, &name), None::<Var>))
                &&& match s.parent {
                    Some(p) => var_resolution(*p, name, lookup, r),
                    None => r is None,
                }
            }
        }
    }
}

/// What `set_var` may do: in the innermost scope that takes `name` (its
/// variables first, then its construct through `store`) the value is
/// stored; every scope keeps its other parts.
pub open spec fn var_assignment<
    Var: Clone,
    Construct,
    F: Fn(&Construct, &Symbol, Var) -> bool,
>(
    old: Scope<Var, Construct>,
    new: Scope<Var, Construct>,
    name: Symbol,
    value: Var,
    store: F,
    r: bool,
) -> bool
    decreases old,
{
    &&& new.kind == old.kind
    &&& new.name == old.name
    &&& new.type_params == old.type_params
    &&& new.construct == old.construct
    &&& new.out_early == old.out_early
    &&& new.label == old.label
    &&& if assoc_first(old.vars@, name@) is Some {
        &&& r
        &&& new.parent == old.parent
        &&& new.vars@.len() == old.vars@.len()
        &&& forall|k: Seq<char>|
            assoc_first(new.vars@, k) == if k == name@ {
                Some(value)
            } else {
                assoc_first(old.vars@, k)
            }
    } else {
        &&& new.vars == old.vars
        &&& {
            ||| (old.construct matches Some(c) && exists|v: Var|
                cloned(value, v) && store.ensures((&c, &name, v), true)) && r && new.parent == old.parent
            ||| {
                &&& (old.construct matches Some(c) ==> exists|v: Var|
                    cloned(value, v) && store.ensures((&c, &name, v), false))
                &&& match old.parent {
                    Some(p) => new.parent matches Some(np) && var_assignment(
                        *p,
                        *np,
                        name,
                        value,
                        store,
                        r,
                    ),
                    None => new.parent is None && !r,
                }
            }
        }
    }
}

/// The type parameter `name` of the innermost scope that has one.
pub open spec fn type_param_resolution<Var, Construct>(s: Scope<Var, Construct>, name: Seq<char>) -> Option<TypeId>
    decreases s,
{
    match assoc_first(s.type_params@, name) {
        Some(t) => Some(t),
        None => match s.parent {
            Some(p) => type_param_resolution(*p, name),
            None => None,
        },
    }
}

/// The nearest enclosing function scope.
pub open spec fn enclosing_function<Var, Construct>(s: Scope<Var, Construct>) -> Option<Scope<Var, Construct>>
    decreases s,
{
    if s.kind == ScopeKind::Function {
        Some(s)
    } else {
        match s.parent {
            Some(p) => enclosing_function(*p),
            None => None,
        }
    }
}

/// Whether `break`/`continue` with `target` reaches an enclosing `for`:
/// function scopes stop the search.
pub open spec fn reaches_loop<Var, Construct>(s: Scope<Var, Construct>, target: Option<Seq<char>>) -> bool
    decreases s,
{
    if s.kind == ScopeKind::For && (match target {
        Some(t) => s.label matches Some(l) && l@ == t,
        None => true,
    }) {
        true
    } else if s.kind == ScopeKind::Function {
        false
    } else {
        match s.parent {
            Some(p) => reaches_loop(*p, target),
            None => false,
        }
    }
}

/// What `enclosing_out_early` gives: the `out!` field of the nearest
/// enclosing function scope and (a clone of) its value there.
pub open spec fn out_early_resolution<Var: Clone, Construct>(s: Scope<Var, Construct>, r: Option<(Symbol, Var)>) -> bool {
    match enclosing_function(s) {
        Some(f) => match f.out_early {
            Some(n) => match assoc_first(f.vars@, n@) {
                Some(v) => r matches Some((rn, rv)) && rn@ == n@ && cloned(v, rv),
                None => r is None,
            },
            None => r is None,
        },
        None => r is None,
    }
}

/// What `set_enclosing_out_early` does: in the nearest enclosing function
/// scope that names an `out!` field, that field takes `value`.
pub open spec fn out_early_assignment<Var, Construct>(
    old: Scope<Var, Construct>,
    new: Scope<Var, Construct>,
    value: Var,
    r: Option<Symbol>,
) -> bool
    decreases old,
{
    &&& new.kind == old.kind
    &&& new.name == old.name
    &&& new.type_params == old.type_params
    &&& new.construct == old.construct
    &&& new.out_early == old.out_early
    &&& new.label == old.label
    &&& if old.kind == ScopeKind::Function {
        &&& new.parent == old.parent
        &&& match old.out_early {
            Some(n) => {
                &&& r matches Some(rn) && rn@ == n@
                &&& forall|k: Seq<char>|
                    assoc_first(new.vars@, k) == if k == n@ {
                        Some(value)
                    } else {
                        assoc_first(old.vars@, k)
                    }
            },
            None => r is None && new.vars == old.vars,
        }
    } else {
        &&& new.vars == old.vars
        &&& match old.parent {
            Some(p) => new.parent matches Some(np) && out_early_assignment(*p, *np, value, r),
            None => new.parent is None && r is None,
        }
    }
}

impl<Var: Clone, Construct> Scope<Var, Construct> {
    /// Resolve a variable through the scope chain: each scope's variables,
    /// then its construct-backed storage (through `construct_lookup`), then
    /// its parent.
    pub fn resolve_var<F: Fn(&Construct, &Symbol) -> Option<Var>>(
        &self,
        name: &Symbol,
        construct_lookup: &F,
    ) -> (r: Option<Var>)
        requires
            forall|c: &Construct, n: &Symbol| construct_lookup.requires((c, n)),
        ensures
            var_resolution(*self, *name, *construct_lookup, r),
        decreases self,
    {
        match assoc_position(self.vars.as_slice(), name.as_str()) {
            Some(i) => {
                return Some(self.vars[i].1.clone());
            },
            None => {},
        }
        if let Some(c) = &self.construct {
            let found = construct_lookup(c, name);
            if found.is_some() {
                return found;
            }
        }
        match &self.parent {
            Some(p) => p.resolve_var(name, construct_lookup),
            None => None,
        }
    }

    /// Update a variable through the scope chain: each scope's variables,
    /// then its construct-backed storage (through `construct_set`), then its
    /// parent. False if no scope takes the name.
    pub fn set_var<F: Fn(&Construct, &Symbol, Var) -> bool>(
        &mut self,
        name: &Symbol,
        value: Var,
        construct_set: &F,
    ) -> (r: bool)
        requires
            old(self).wf(),
            forall|c: &Construct, n: &Symbol, v: Var| construct_set.requires((c, n, v)),
        ensures
            final(self).wf(),
            var_assignment(*old(self), *final(self), *name, value, *construct_set, r),
        decreases *old(self),
    {
        if assoc_position(self.vars.as_slice(), name.as_str()).is_some() {
            assoc_put(&mut self.vars, name.dup(), value);
            return true;
        }
        if let Some(c) = &self.construct {
            let v = value.clone();
            let ghost gv = v;
            let taken = construct_set(c, name, v);
            assert(cloned(value, gv) && construct_set.ensures((c, name, gv), taken));
            if taken {
                return true;
            }
        }
        match self.parent.take() {
            Some(mut p) => {
                let r = p.set_var(name, value, construct_set);
                self.parent = Some(p);
                r
            },
            None => false,
        }
    }

    /// The `out!` field of the nearest enclosing function scope, with its value.
    pub fn enclosing_out_early(&self) -> (r: Option<(Symbol, Var)>)
        ensures
            out_early_resolution(*self, r),
        decreases self,
    {
        if self.kind == ScopeKind::Function {
            if let Some(name) = &self.out_early {
                return match assoc_position(self.vars.as_slice(), name.as_str()) {
                    Some(i) => Some((name.dup(), self.vars[i].1.clone())),
                    None => None,
                };
            }
            return None;
        }
        match &self.parent {
            Some(p) => p.enclosing_out_early(),
            None => None,
        }
    }

    /// Set the `out!` field of the nearest enclosing function scope; gives its name.
    pub fn set_enclosing_out_early(&mut self, value: Var) -> (r: Option<Symbol>)
        requires
            old(self).wf(),
        ensures
            final(self).wf(),
            out_early_assignment(*old(self), *final(self), value, r),
        decreases *old(self),
    {
        if self.kind == ScopeKind::Function {
            if let Some(name) = &self.out_early {
                let n = name.dup();
                assoc_put(&mut self.vars, name.dup(), value);
                return Some(n);
            }
            return None;
        }
        match self.parent.take() {
            Some(mut p) => {
                let r = p.set_enclosing_out_early(value);
                self.parent = Some(p);
                r
            },
            None => None,
        }
    }
}

/// A variable declared in a scope is what resolving its name there gives
/// (a clone of it), whatever the construct storage and the parents hold: the
/// innermost declaration wins.
pub proof fn lemma_declared_var_resolves<Var: Clone, Construct, F: Fn(&Construct, &Symbol) -> Option<Var>>(
    before: Scope<Var, Construct>,
    after: Scope<Var, Construct>,
    name: Symbol,
    value: Var,
    lookup: F,
    r: Option<Var>,
)
    requires
        assoc_first(before.vars@, name@) is None,
        after.vars@ == before.vars@.push((name, value)),
        var_resolution(after, name, lookup, r),
    ensures
        r matches Some(x) && cloned(value, x),
{
    lemma_assoc_first_push(before.vars@, (name, value), name@);
}


/// Setting the `out!` field and then reading it: what `enclosing_out_early`
/// gives after `set_enclosing_out_early` stored `value` is that field with
/// (a clone of) `value`; where the nearest function scope has no `out!`
/// field (the set gave `None`), the read gives `None` as well.
pub proof fn lemma_out_early_set_then_read<Var: Clone, Construct>(
    before: Scope<Var, Construct>,
    after: Scope<Var, Construct>,
    value: Var,
    set_r: Option<Symbol>,
    get_r: Option<(Symbol, Var)>,
)
    requires
        out_early_assignment(before, after, value, set_r),
        out_early_resolution(after, get_r),
    ensures
        match set_r {
            Some(n) => get_r matches Some((rn, rv)) && rn@ == n@ && cloned(value, rv),
            None => get_r is None,
        },
    decreases before,
{
    if before.kind == ScopeKind::Function {
        assert(enclosing_function(after) == Some(after));
        match before.out_early {
            Some(n) => {
                assert(assoc_first(after.vars@, n@) == Some(value));
            },
            None => {},
        }
    } else {
        match before.parent {
            Some(p) => {
                let np = *after.parent->0;
                assert(enclosing_function(after) == enclosing_function(np));
                lemma_out_early_set_then_read(*p, np, value, set_r, get_r);
            },
            None => {},
        }
    }
}

/// A type parameter of a scope is what resolving its name there gives.
pub proof fn lemma_type_param_innermost<Var, Construct>(s: Scope<Var, Construct>, name: Seq<char>, t: TypeId)
    requires
        assoc_first(s.type_params@, name) == Some(t),
    ensures
        type_param_resolution(s, name) == Some(t),
{
}

impl<Var, Construct> Scope<Var, Construct> {
    /// No name occurs twice among the variables or the type parameters of any
    /// scope of the chain.
    pub open spec fn wf(&self) -> bool
        decreases self,
    {
        &&& keys_unique(self.vars@)
        &&& keys_unique(self.type_params@)
        &&& match self.parent {
            Some(p) => p.wf(),
            None => true,
        }
    }

    /// A scope of `kind` with nothing in it.
    pub fn empty(kind: ScopeKind) -> (r: Scope<Var, Construct>)
        ensures
            r.wf(),
            r.kind == kind,
            r.parent is None,
            r.name is None,
            r.vars@.len() == 0,
            r.type_params@.len() == 0,
            r.construct is None,
            r.out_early is None,
            r.label is None,
    {
        Scope {
            kind,
            parent: None,
            name: None,
            vars: Vec::new(),
            type_params: Vec::new(),
            construct: None,
            out_early: None,
            label: None,
        }
    }

    /// Box the scope, to be the parent of another.
    pub fn into_ref(self) -> (r: Box<Scope<Var, Construct>>)
        ensures
            *r == self,
    {
        Box::new(self)
    }

    /// Declare a variable in this scope; false, and nothing changed, if the
    /// name is already declared here.
    pub fn declare_var(&mut self, name: Symbol, value: Var) -> (r: bool)
        requires
            keys_unique(old(self).vars@),
        ensures
            r == (assoc_first(old(self).vars@, name@) is None),
            r ==> final(self).vars@ == old(self).vars@.push((name, value)),
            !r ==> final(self).vars == old(self).vars,
            keys_unique(final(self).vars@),
            final(self).parent == old(self).parent,
            final(self).kind == old(self).kind,
            final(self).name == old(self).name,
            final(self).type_params == old(self).type_params,
            final(self).construct == old(self).construct,
            final(self).out_early == old(self).out_early,
            final(self).label == old(self).label,
    {
        match assoc_position(self.vars.as_slice(), name.as_str()) {
            Some(_) => false,
            None => {
                let ghost before = self.vars@;
                self.vars.push((name, value));
                assert(keys_unique(self.vars@)) by {
                    assert forall|a: int, b: int| 0 <= a < b < self.vars@.len() implies self.vars@[a].0@
                        != self.vars@[b].0@ by {
                        if b == before.len() {
                            assert(before[a].0@ != name@);
                        } else {
                            assert(before[a] == self.vars@[a]);
                            assert(before[b] == self.vars@[b]);
                        }
                    }
                }
                true
            },
        }
    }

    /// Resolve a type parameter through the scope chain.
    pub fn resolve_type_param(&self, name: &Symbol) -> (r: Option<TypeId>)
        ensures
            r == type_param_resolution(*self, name@),
        decreases self,
    {
        match assoc_position(self.type_params.as_slice(), name.as_str()) {
            Some(i) => Some(self.type_params[i].1),
            None => match &self.parent {
                Some(p) => p.resolve_type_param(name),
                None => None,
            },
        }
    }

    /// Whether `break`/`continue` (to `target_label`, if given) can reach an
    /// enclosing `for` loop; it cannot leave a function.
    pub fn can_break_or_continue(&self, target_label: Option<&Symbol>) -> (r: bool)
        ensures
            r == reaches_loop(
                *self,
                match target_label {
                    Some(t) => Some(t@),
                    None => None,
                },
            ),
        decreases self,
    {
        if self.kind == ScopeKind::For {
            match target_label {
                Some(target) => {
                    if let Some(l) = &self.label {
                        if l.eq_sym(target) {
                            return true;
                        }
                    }
                },
                None => return true,
            }
        }
        if self.kind == ScopeKind::Function {
            return false;
        }
        match &self.parent {
            Some(p) => p.can_break_or_continue(target_label),
            None => false,
        }
    }
}

} // verus!
