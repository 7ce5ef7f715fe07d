use vstd::prelude::*;

use std::sync::Arc;

use crate::model::assoc::{
    assoc_first, assoc_position, keys_unique, lemma_assoc_first_push, lemma_assoc_first_update,
};
use crate::model::number::{decimal, push_decimal};
use crate::model::symbol::{copy_chars, push_chars, str_chars};
use crate::model::{spec_line_of, strictly_sorted, Ident, Import, Symbol};
use crate::parse::ParseError;

use super::ids::{DeclId, ModuleIndex, TypeId};
use super::registry::{
    args_below, entity_ref_pred, first_decl, first_path, interned, is_entity_ref_of,
    is_nilable_of, is_plain_named, is_type_param_named, join_chars, join_dotted, nilable_pred,
    plain_named_pred, type_param_pred, anon_fields_below, Registry, RegistryTypeArg, TypeEntry,
};
use super::types::{Module, TypeConstruct};

verus! {

// ---------------------------------------------------------------------------
// Module paths
// ---------------------------------------------------------------------------

/// The pieces of `s` between occurrences of `sep`, as `str::split` yields
/// them: `n` separators give `n + 1` pieces.
pub open spec fn split_on(s: Seq<char>, sep: char) -> Seq<Seq<char>>
    decreases s.len(),
{
    if s.len() == 0 {
        seq![Seq::<char>::empty()]
    } else {
        let rest = split_on(s.drop_last(), sep);
        if s.last() == sep {
            rest.push(Seq::empty())
        } else {
            rest.update(rest.len() - 1, rest.last().push(s.last()))
        }
    }
}

pub proof fn lemma_split_on_nonempty(s: Seq<char>, sep: char)
    ensures
        split_on(s, sep).len() >= 1,
    decreases s.len(),
{
    if s.len() > 0 {
        lemma_split_on_nonempty(s.drop_last(), sep);
    }
}

pub open spec fn char_views(v: Seq<Vec<char>>) -> Seq<Seq<char>> {
    v.map_values(|x: Vec<char>| x@)
}

/// Split `s` at each `sep`.
pub fn split_chars(s: &[char], sep: char) -> (r: Vec<Vec<char>>)
    ensures
        char_views(r@) == split_on(s@, sep),
        r@.len() >= 1,
{
    let mut done: Vec<Vec<char>> = Vec::new();
    let mut cur: Vec<char> = Vec::new();
    let mut i: usize = 0;
    while i < s.len()
        invariant
            i <= s@.len(),
            split_on(s@.take(i as int), sep) == char_views(done@).push(cur@),
        decreases s@.len() - i,
    {
        assert(s@.take(i + 1).drop_last() =~= s@.take(i as int));
        assert(s@.take(i + 1).last() == s@[i as int]);
        let ghost before = char_views(done@);
        let ghost cur_before = cur@;
        if s[i] == sep {
            done.push(cur);
            cur = Vec::new();
            assert(char_views(done@) =~= before.push(cur_before));
        } else {
            cur.push(s[i]);
            assert(before.push(cur_before).update(before.len() as int, cur_before.push(s@[i as int]))
                =~= before.push(cur@));
        }
        i = i + 1;
    }
    assert(s@.take(s@.len() as int) =~= s@);
    let ghost before = char_views(done@);
    done.push(cur);
    assert(char_views(done@) =~= before.push(cur@));
    done
}

/// The project root of a dot-separated module path: its first segment.
pub fn path_root(path: &[char]) -> (r: Vec<char>)
    ensures
        r@ == split_on(path@, '.')[0],
{
    let mut parts = split_chars(path, '.');
    let ghost v = char_views(parts@);
    let r = parts.swap_remove(0);
    assert(v[0] == r@);
    r
}

/// The default alias of a dot-separated module path: its last segment
/// (`duralade.error` gives `error`).
pub fn path_alias(path: &[char]) -> (r: Symbol)
    ensures
        r@ == split_on(path@, '.').last(),
{
    let mut parts = split_chars(path, '.');
    let ghost v = char_views(parts@);
    let last = parts.pop().unwrap();
    assert(v.last() == last@);
    Symbol::new(last)
}

/// The segments of a dot-separated module path after its root
/// (`duralade.admin.roles` gives `admin`, `roles`).
pub fn path_module_segments(path: &[char]) -> (r: Vec<Vec<char>>)
    ensures
        char_views(r@) == split_on(path@, '.').drop_first(),
{
    let mut parts = split_chars(path, '.');
    let ghost v = char_views(parts@);
    parts.remove(0);
    assert(char_views(parts@) =~= v.drop_first());
    parts
}

pub open spec fn ident_names(ids: Seq<Ident>) -> Seq<Seq<char>> {
    ids.map_values(|i: Ident| i.name@)
}

/// The dot-separated module path of an import.
pub fn import_to_path(import: &Import) -> (r: Symbol)
    ensures
        r@ == join_dotted(ident_names(import.path@)),
{
    let mut names: Vec<Vec<char>> = Vec::new();
    let mut i: usize = 0;
    while i < import.path.len()
        invariant
            i <= import.path@.len(),
            char_views(names@) == ident_names(import.path@.take(i as int)),
        decreases import.path@.len() - i,
    {
        let ghost before = char_views(names@);
        names.push(copy_chars(import.path[i].name.as_str()));
        assert(char_views(names@) =~= before.push(import.path@[i as int].name@));
        assert(ident_names(import.path@.take(i + 1)) =~= ident_names(import.path@.take(i as int)).push(
            import.path@[i as int].name@,
        ));
        i = i + 1;
    }
    assert(import.path@.take(import.path@.len() as int) =~= import.path@);
    let joined = join_chars(names.as_slice(), '.');
    assert(names@.map_values(|s: Vec<char>| s@) =~= char_views(names@));
    Symbol::new(joined)
}

/// The name an import is known by: its explicit alias, else the last segment
/// of its path, else the empty name.
pub fn import_alias(import: &Import) -> (r: Symbol)
    ensures
        r@ == (match import.alias {
            Some(a) => a.name@,
            None => if import.path@.len() > 0 {
                import.path@.last().name@
            } else {
                Seq::empty()
            },
        }),
{
    match &import.alias {
        Some(a) => a.name.dup(),
        None => {
            if import.path.len() > 0 {
                import.path[import.path.len() - 1].name.dup()
            } else {
                Symbol::empty()
            }
        },
    }
}

// ---------------------------------------------------------------------------
// Errors
// ---------------------------------------------------------------------------

/// An error met while loading (distinct from parse errors).
#[derive(Debug, Clone)]
pub struct LoadError {
    pub module: Symbol,
    pub message: Vec<char>,
    /// Which file of the module; 0 for module-level errors.
    pub file_idx: usize,
    /// Byte range `(start, end)`, end exclusive; `None` without a location.
    pub range: Option<(usize, usize)>,
}

/// The file path and line where `e` occurred, when the registry knows them.
pub open spec fn load_error_location(e: LoadError, reg: Registry) -> Option<(Seq<char>, nat)> {
    match e.range {
        Some((start, _)) => match first_path(reg.module_paths@, e.module@) {
            Some(mi) => if (e.file_idx as int) < reg.modules@[mi].files@.len() {
                let f = reg.modules@[mi].files@[e.file_idx as int].source_file;
                let offs = f.source_map.line_offsets@;
                if offs.len() > 0 && strictly_sorted(offs) {
                    Some((f.file_path@, spec_line_of(offs, start)))
                } else {
                    None
                }
            } else {
                None
            },
            None => None,
        },
        None => None,
    }
}

/// `path:line: message` where the location is known, else `module: message`.
pub open spec fn load_error_text(e: LoadError, reg: Registry) -> Seq<char> {
    match load_error_location(e, reg) {
        Some((path, line)) => path + seq![':'] + decimal(line) + seq![':', ' '] + e.message@,
        None => e.module@ + seq![':', ' '] + e.message@,
    }
}

impl LoadError {
    /// A copy of the error.
    pub fn dup(&self) -> (r: LoadError)
        ensures
            r.module@ == self.module@,
            r.message@ == self.message@,
            r.file_idx == self.file_idx,
            r.range == self.range,
    {
        LoadError {
            module: self.module.dup(),
            message: copy_chars(self.message.as_slice()),
            file_idx: self.file_idx,
            range: self.range,
        }
    }

    /// Format the error with its file path and line number where known.
    pub fn format_with_registry(&self, registry: &Registry) -> (r: Vec<char>)
        requires
            registry.wf(),
        ensures
            r@ == load_error_text(*self, *registry),
    {
        proof {
            super::registry::lemma_wf_basics(registry);
        }
        if let Some((start, _)) = self.range {
            if let Some(module_idx) = registry.module_index(self.module.as_str()) {
                proof {
                    super::registry::lemma_first_path_bound(registry.module_paths@, self.module@);
                }
                let module = registry.module(module_idx);
                if self.file_idx < module.files.len() {
                    let file = &module.files[self.file_idx].source_file;
                    if file.source_map.has_sorted_lines() {
                        proof {
                            crate::model::source::lemma_count_le_bound(
                                file.source_map.line_offsets@,
                                start,
                            );
                        }
                        if let Some(line) = file.source_map.byte_to_line(start) {
                            let mut out = copy_chars(file.file_path.as_slice());
                            out.push(':');
                            push_decimal(&mut out, line);
                            out.push(':');
                            out.push(' ');
                            push_chars(&mut out, self.message.as_slice());
                            proof {
                                let mi = module_idx.0 as int;
                                assert(first_path(registry.module_paths@, self.module@) == Some(mi));
                                assert(registry.modules@[mi].files@[self.file_idx as int].source_file == *file);
                                let offs = file.source_map.line_offsets@;
                                assert(offs.len() == file.source_map.line_offsets.len());
                                assert(spec_line_of(offs, start) <= offs.len());
                                assert(line as nat == spec_line_of(offs, start));
                                assert(load_error_location(*self, *registry) == Some((file.file_path@, line as nat)));
                            }
                            assert(out@ =~= load_error_text(*self, *registry));
                            return out;
                        }
                    }
                }
            }
        }
        let mut out = copy_chars(self.module.as_str());
        out.push(':');
        out.push(' ');
        push_chars(&mut out, self.message.as_slice());
        assert(out@ =~= load_error_text(*self, *registry));
        out
    }
}

/// The load errors that a list of parse errors of one file becomes.
pub open spec fn errors_from_parse(
    module: Seq<char>,
    file_idx: usize,
    errors: Seq<ParseError>,
    out: Seq<LoadError>,
) -> bool {
    &&& out.len() == errors.len()
    &&& forall|k: int|
        #![trigger out[k]]
        0 <= k < out.len() ==> {
            &&& out[k].module@ == module
            &&& out[k].message@ == errors[k].message@
            &&& out[k].file_idx == file_idx
            &&& out[k].range == Some(errors[k].consumed_range)
        }
}

/// Turn the parse errors of one file into load errors, appended to `dest`.
fn append_parse_errors(
    dest: &mut Vec<LoadError>,
    module: &Symbol,
    file_idx: usize,
    errors: Vec<ParseError>,
)
    ensures
        final(dest)@.subrange(0, old(dest)@.len() as int) == old(dest)@,
        errors_from_parse(
            module@,
            file_idx,
            errors@,
            final(dest)@.subrange(old(dest)@.len() as int, final(dest)@.len() as int),
        ),
{
    let ghost start = dest@.len();
    let mut i: usize = 0;
    while i < errors.len()
        invariant
            i <= errors@.len(),
            dest@.len() == start + i,
            forall|j: int| 0 <= j < start ==> dest@[j] == old(dest)@[j],
            forall|k: int|
                #![trigger errors@[k]]
                0 <= k < i ==> {
                    &&& dest@[start + k].module@ == module@
                    &&& dest@[start + k].message@ == errors@[k].message@
                    &&& dest@[start + k].file_idx == file_idx
                    &&& dest@[start + k].range == Some(errors@[k].consumed_range)
                },
        decreases errors@.len() - i,
    {
        let e = &errors[i];
        dest.push(
            LoadError {
                module: module.dup(),
                message: copy_chars(e.message.as_slice()),
                file_idx,
                range: Some(e.consumed_range),
            },
        );
        i = i + 1;
    }
    assert(dest@.subrange(0, start as int) =~= old(dest)@);
    let ghost tail = dest@.subrange(start as int, dest@.len() as int);
    assert forall|k: int| 0 <= k < tail.len() implies {
        &&& (#[trigger] tail[k]).module@ == module@
        &&& tail[k].message@ == errors@[k].message@
        &&& tail[k].file_idx == file_idx
        &&& tail[k].range == Some(errors@[k].consumed_range)
    } by {
        assert(tail[k] == dest@[start + k]);
        assert(errors@[k] == errors@[k]);
    }
}

// ---------------------------------------------------------------------------
// Load results and settings
// ---------------------------------------------------------------------------

/// The result of a completed load: the registry and the errors met.
pub struct LoadResult {
    pub registry: Registry,
    pub parse_errors: Vec<LoadError>,
    pub load_errors: Vec<LoadError>,
    pub strict_violations: Vec<LoadError>,
}

impl LoadResult {
    /// Whether parsing or loading reported an error (strict-mode violations do not count).
    pub fn has_errors(&self) -> (r: bool)
        ensures
            r == (self.parse_errors@.len() > 0 || self.load_errors@.len() > 0),
    {
        self.parse_errors.len() > 0 || self.load_errors.len() > 0
    }
}

/// Per-project-root settings that affect module loading.
#[derive(Debug, Clone, Copy)]
pub struct RootSettings {
    pub stdlib_prelude: bool,
}

impl Default for RootSettings {
    fn default() -> (r: RootSettings)
        ensures
            !r.stdlib_prelude,
    {
        RootSettings { stdlib_prelude: false }
    }
}

/// The modules available without an explicit import, where a root's settings ask for them.
pub open spec fn default_implicit_module_paths() -> Seq<Seq<char>> {
    seq![
        "duralade.array"@,
        "duralade.bool"@,
        "duralade.error"@,
        "duralade.float"@,
        "duralade.int"@,
        "duralade.map"@,
        "duralade.str"@,
    ]
}

pub open spec fn sym_views(v: Seq<Symbol>) -> Seq<Seq<char>> {
    v.map_values(|s: Symbol| s@)
}

/// The modules available without an explicit import.
pub fn default_implicit_modules() -> (r: Vec<Symbol>)
    ensures
        sym_views(r@) == default_implicit_module_paths(),
{
    let r = vec![
        Symbol::from_str("duralade.array"),
        Symbol::from_str("duralade.bool"),
        Symbol::from_str("duralade.error"),
        Symbol::from_str("duralade.float"),
        Symbol::from_str("duralade.int"),
        Symbol::from_str("duralade.map"),
        Symbol::from_str("duralade.str"),
    ];
    assert(sym_views(r@) =~= default_implicit_module_paths());
    r
}

/// A second pointer to the same module.
#[verifier::external_body]
fn share_module(m: &Arc<Module>) -> (r: Arc<Module>)
    ensures
        r == *m,
{
    Arc::clone(m)
}

// ---------------------------------------------------------------------------
// The load context
// ---------------------------------------------------------------------------

/// State that flows through the loading pipeline.
pub struct LoadContext {
    /// Loaded modules by path.
    pub modules: Vec<(Symbol, Arc<Module>)>,
    pub registry: Registry,
    pub parse_errors: Vec<LoadError>,
    pub load_errors: Vec<LoadError>,
    pub strict_violations: Vec<LoadError>,
    /// The module-loading stack, for cycle awareness.
    pub stack: Vec<Symbol>,
    /// Whether to record expression types that running does not need.
    pub populate_non_required_types: bool,
    /// Settings per project root.
    pub root_settings: Vec<(Symbol, RootSettings)>,
}

impl LoadContext {
    /// The context's consistency: a consistent registry, and one entry per
    /// module path and per root.
    pub open spec fn wf(&self) -> bool {
        &&& self.registry.wf()
        &&& keys_unique(self.modules@)
        &&& keys_unique(self.root_settings@)
    }

    /// All but the stack are as in `o`.
    pub open spec fn same_except_stack(&self, o: &LoadContext) -> bool {
        &&& self.modules == o.modules
        &&& self.registry == o.registry
        &&& self.parse_errors == o.parse_errors
        &&& self.load_errors == o.load_errors
        &&& self.strict_violations == o.strict_violations
        &&& self.populate_non_required_types == o.populate_non_required_types
        &&& self.root_settings == o.root_settings
    }

    /// All but the error lists are as in `o`.
    pub open spec fn same_except_errors(&self, o: &LoadContext) -> bool {
        &&& self.modules == o.modules
        &&& self.registry == o.registry
        &&& self.stack == o.stack
        &&& self.populate_non_required_types == o.populate_non_required_types
        &&& self.root_settings == o.root_settings
    }

    /// All but the registry are as in `o`.
    pub open spec fn same_except_registry(&self, o: &LoadContext) -> bool {
        &&& self.modules == o.modules
        &&& self.parse_errors == o.parse_errors
        &&& self.load_errors == o.load_errors
        &&& self.strict_violations == o.strict_violations
        &&& self.stack == o.stack
        &&& self.populate_non_required_types == o.populate_non_required_types
        &&& self.root_settings == o.root_settings
    }

    /// A fresh context with the given settings per project root.
    pub fn new(root_settings: Vec<(Symbol, RootSettings)>) -> (r: LoadContext)
        requires
            keys_unique(root_settings@),
        ensures
            r.wf(),
            r.registry.is_initial(),
            r.modules@.len() == 0,
            r.parse_errors@.len() == 0,
            r.load_errors@.len() == 0,
            r.strict_violations@.len() == 0,
            r.stack@.len() == 0,
            !r.populate_non_required_types,
            r.root_settings == root_settings,
    {
        let r = LoadContext {
            modules: Vec::new(),
            registry: Registry::new(),
            parse_errors: Vec::new(),
            load_errors: Vec::new(),
            strict_violations: Vec::new(),
            stack: Vec::new(),
            populate_non_required_types: false,
            root_settings,
        };
        assert(keys_unique(r.modules@));
        r
    }

    /// The modules available without import to the module at `mod_path`:
    /// the default ones where the settings of its root ask for them, else none.
    pub fn implicit_modules_for(&self, mod_path: &[char]) -> (r: Vec<Symbol>)
        ensures
            sym_views(r@) == (if (match assoc_first(self.root_settings@, split_on(mod_path@, '.')[0]) {
                Some(s) => s.stdlib_prelude,
                None => false,
            }) {
                default_implicit_module_paths()
            } else {
                Seq::empty()
            }),
    {
        let root = path_root(mod_path);
        match assoc_position(self.root_settings.as_slice(), root.as_slice()) {
            Some(i) => {
                if self.root_settings[i].1.stdlib_prelude {
                    default_implicit_modules()
                } else {
                    let r: Vec<Symbol> = Vec::new();
                    assert(sym_views(r@) =~= Seq::empty());
                    r
                }
            },
            None => {
                let r: Vec<Symbol> = Vec::new();
                assert(sym_views(r@) =~= Seq::empty());
                r
            },
        }
    }

    /// Whether the module at `path` is being loaded.
    pub fn is_on_stack(&self, path: &[char]) -> (r: bool)
        ensures
            r == exists|i: int| 0 <= i < self.stack@.len() && self.stack@[i]@ == path@,
    {
        let mut i: usize = 0;
        while i < self.stack.len()
            invariant
                i <= self.stack@.len(),
                forall|j: int| 0 <= j < i ==> self.stack@[j]@ != path@,
            decreases self.stack@.len() - i,
        {
            if self.stack[i].eq_chars(path) {
                return true;
            }
            i = i + 1;
        }
        false
    }

    pub fn push_stack(&mut self, path: Symbol)
        ensures
            final(self).stack@ == old(self).stack@.push(path),
            final(self).same_except_stack(old(self)),
    {
        self.stack.push(path);
    }

    pub fn pop_stack(&mut self)
        ensures
            final(self).stack@ == (if old(self).stack@.len() > 0 {
                old(self).stack@.drop_last()
            } else {
                old(self).stack@
            }),
            final(self).same_except_stack(old(self)),
    {
        self.stack.pop();
    }

    /// Record the parse errors of file `file_idx` of `module`.
    pub fn add_parse_errors(&mut self, module: &Symbol, file_idx: usize, errors: Vec<ParseError>)
        ensures
            final(self).parse_errors@.subrange(0, old(self).parse_errors@.len() as int)
                == old(self).parse_errors@,
            errors_from_parse(
                module@,
                file_idx,
                errors@,
                final(self).parse_errors@.subrange(
                    old(self).parse_errors@.len() as int,
                    final(self).parse_errors@.len() as int,
                ),
            ),
            final(self).load_errors == old(self).load_errors,
            final(self).strict_violations == old(self).strict_violations,
            final(self).same_except_errors(old(self)),
    {
        append_parse_errors(&mut self.parse_errors, module, file_idx, errors);
    }

    /// Record the strict-mode violations of file `file_idx` of `module`.
    pub fn add_strict_violations(
        &mut self,
        module: &Symbol,
        file_idx: usize,
        violations: Vec<ParseError>,
    )
        ensures
            final(self).strict_violations@.subrange(0, old(self).strict_violations@.len() as int)
                == old(self).strict_violations@,
            errors_from_parse(
                module@,
                file_idx,
                violations@,
                final(self).strict_violations@.subrange(
                    old(self).strict_violations@.len() as int,
                    final(self).strict_violations@.len() as int,
                ),
            ),
            final(self).load_errors == old(self).load_errors,
            final(self).parse_errors == old(self).parse_errors,
            final(self).same_except_errors(old(self)),
    {
        append_parse_errors(&mut self.strict_violations, module, file_idx, violations);
    }

    pub fn add_strict_violation(&mut self, error: LoadError)
        ensures
            final(self).strict_violations@ == old(self).strict_violations@.push(error),
            final(self).load_errors == old(self).load_errors,
            final(self).parse_errors == old(self).parse_errors,
            final(self).same_except_errors(old(self)),
    {
        self.strict_violations.push(error);
    }

    pub fn add_load_error(&mut self, error: LoadError)
        ensures
            final(self).load_errors@ == old(self).load_errors@.push(error),
            final(self).strict_violations == old(self).strict_violations,
            final(self).parse_errors == old(self).parse_errors,
            final(self).same_except_errors(old(self)),
    {
        self.load_errors.push(error);
    }

    /// Record a load error and give the error type.
    pub fn add_type_error(
        &mut self,
        module: Symbol,
        message: Vec<char>,
        file_idx: usize,
        range: Option<(usize, usize)>,
    ) -> (r: TypeId)
        ensures
            final(self).load_errors@ == old(self).load_errors@.push(
                (LoadError { module, message, file_idx, range }),
            ),
            final(self).strict_violations == old(self).strict_violations,
            final(self).parse_errors == old(self).parse_errors,
            final(self).same_except_errors(old(self)),
            r == old(self).registry.error_type,
    {
        self.add_load_error(LoadError { module, message, file_idx, range });
        self.error_type()
    }

    /// The loaded module at `path`.
    pub fn get_module(&self, path: &[char]) -> (r: Option<Arc<Module>>)
        ensures
            r == assoc_first(self.modules@, path@),
    {
        match assoc_position(self.modules.as_slice(), path) {
            Some(i) => Some(share_module(&self.modules[i].1)),
            None => None,
        }
    }

    /// Record a loaded module under `path`, in the registry too.
    pub fn insert_module(&mut self, path: Symbol, module: Arc<Module>)
        requires
            old(self).wf(),
            old(self).registry.modules@.len() + 1 < u32::MAX,
        ensures
            final(self).wf(),
            forall|k: Seq<char>|
                assoc_first(final(self).modules@, k) == (if k == path@ {
                    Some(module)
                } else {
                    assoc_first(old(self).modules@, k)
                }),
            final(self).registry.decls@ == old(self).registry.decls@,
            final(self).registry.types@ == old(self).registry.types@,
            match first_path(old(self).registry.module_paths@, path@) {
                Some(i) => final(self).registry.module_paths@ == old(self).registry.module_paths@
                    && final(self).registry.modules@ == old(self).registry.modules@.update(
                    i,
                    module,
                ),
                None => final(self).registry.module_paths@ == old(self).registry.module_paths@.push(
                    path,
                ) && final(self).registry.modules@ == old(self).registry.modules@.push(module),
            },
            final(self).parse_errors == old(self).parse_errors,
            final(self).load_errors == old(self).load_errors,
            final(self).strict_violations == old(self).strict_violations,
            final(self).stack == old(self).stack,
            final(self).populate_non_required_types == old(self).populate_non_required_types,
            final(self).root_settings == old(self).root_settings,
    {
        let shared = share_module(&module);
        let key = path.dup();
        self.registry.register_module(path, shared);
        let path = key;
        let ghost before = self.modules@;
        match assoc_position(self.modules.as_slice(), path.as_str()) {
            Some(i) => {
                proof {
                    assert forall|k: Seq<char>|
                        assoc_first(before.update(i as int, (path, module)), k) == (if k == path@ {
                            Some(module)
                        } else {
                            assoc_first(before, k)
                        }) by {
                        lemma_assoc_first_update(before, i as int, path, module, k);
                    }
                    assert(keys_unique(before.update(i as int, (path, module))));
                }
                self.modules.set(i, (path, module));
            },
            None => {
                proof {
                    assert forall|k: Seq<char>|
                        assoc_first(before.push((path, module)), k) == (if k == path@ {
                            Some(module)
                        } else {
                            assoc_first(before, k)
                        }) by {
                        lemma_assoc_first_push(before, (path, module), k);
                        if k == path@ {
                            crate::model::assoc::lemma_assoc_first_absent(before, k);
                        }
                    }
                    assert(keys_unique(before.push((path, module))));
                }
                self.modules.push((path, module));
            },
        }
    }

    /// Read the registry through `f`.
    pub fn with_registry<R, F: FnOnce(&Registry) -> R>(&self, f: F) -> (r: R)
        requires
            f.requires((&self.registry,)),
        ensures
            f.ensures((&self.registry,), r),
    {
        f(&self.registry)
    }

    pub fn decl_id_in_module(&self, module_idx: ModuleIndex, name: &[char]) -> (r: Option<DeclId>)
        requires
            self.registry.wf(),
        ensures
            match first_decl(self.registry.decls@, module_idx, name@) {
                Some(d) => r == Some(DeclId(d as u32)),
                None => r is None,
            },
    {
        proof {
            super::registry::lemma_wf_basics(&self.registry);
        }
        self.registry.decl_id_in_module(module_idx, name)
    }

    pub fn module_index(&self, path: &[char]) -> (r: Option<ModuleIndex>)
        requires
            self.registry.wf(),
        ensures
            match first_path(self.registry.module_paths@, path@) {
                Some(i) => r == Some(ModuleIndex(i as u32)),
                None => r is None,
            },
    {
        proof {
            super::registry::lemma_wf_basics(&self.registry);
        }
        self.registry.module_index(path)
    }

    pub fn array_decl(&self) -> (r: DeclId)
        ensures
            r == self.registry.array_decl,
    {
        self.registry.array_decl
    }

    pub fn bool_decl(&self) -> (r: DeclId)
        ensures
            r == self.registry.bool_decl,
    {
        self.registry.bool_decl
    }

    pub fn float_decl(&self) -> (r: DeclId)
        ensures
            r == self.registry.float_decl,
    {
        self.registry.float_decl
    }

    pub fn int_decl(&self) -> (r: DeclId)
        ensures
            r == self.registry.int_decl,
    {
        self.registry.int_decl
    }

    pub fn map_decl(&self) -> (r: DeclId)
        ensures
            r == self.registry.map_decl,
    {
        self.registry.map_decl
    }

    pub fn str_decl(&self) -> (r: DeclId)
        ensures
            r == self.registry.str_decl,
    {
        self.registry.str_decl
    }

    pub fn any_type(&self) -> (r: TypeId)
        ensures
            r == self.registry.any_type,
    {
        self.registry.any_type
    }

    pub fn anylocal_type(&self) -> (r: TypeId)
        ensures
            r == self.registry.anylocal_type,
    {
        self.registry.anylocal_type
    }

    pub fn array_type(&self) -> (r: TypeId)
        ensures
            r == self.registry.array_type,
    {
        self.registry.array_type
    }

    pub fn bool_type(&self) -> (r: TypeId)
        ensures
            r == self.registry.bool_type,
    {
        self.registry.bool_type
    }

    pub fn error_type(&self) -> (r: TypeId)
        ensures
            r == self.registry.error_type,
    {
        self.registry.error_type
    }

    pub fn float_type(&self) -> (r: TypeId)
        ensures
            r == self.registry.float_type,
    {
        self.registry.float_type
    }

    pub fn int_type(&self) -> (r: TypeId)
        ensures
            r == self.registry.int_type,
    {
        self.registry.int_type
    }

    pub fn map_type(&self) -> (r: TypeId)
        ensures
            r == self.registry.map_type,
    {
        self.registry.map_type
    }

    pub fn str_type(&self) -> (r: TypeId)
        ensures
            r == self.registry.str_type,
    {
        self.registry.str_type
    }

    /// Register declaration `name` of module `module_idx`; see `Registry::register_decl`.
    pub fn register_decl(&mut self, module_idx: ModuleIndex, name: &Symbol) -> (r: DeclId)
        requires
            old(self).registry.wf(),
            (module_idx.0 as int) < old(self).registry.modules@.len(),
            old(self).registry.decls@.len() + 1 < u32::MAX,
            old(self).registry.types@.len() + 2 < u32::MAX,
        ensures
            final(self).registry.wf(),
            final(self).registry.extends(&old(self).registry),
            final(self).registry.modules@ == old(self).registry.modules@,
            final(self).registry.module_paths@ == old(self).registry.module_paths@,
            match first_decl(old(self).registry.decls@, module_idx, name@) {
                Some(d) => r.0 == d && final(self).registry.decls@ == old(self).registry.decls@
                    && final(self).registry.types@ == old(self).registry.types@,
                None => r.0 == old(self).registry.decls@.len() && final(self).registry.decls@.len()
                    == old(self).registry.decls@.len() + 1 && final(self).registry.decls@[r.0 as int].module
                    == module_idx && final(self).registry.decls@[r.0 as int].name@ == name@
                    && exists|t: int|
                    interned(
                        old(self).registry.types@,
                        plain_named_pred(r),
                        t,
                        final(self).registry.types@,
                    ),
            },
            final(self).same_except_registry(old(self)),
    {
        self.registry.register_decl(module_idx, name)
    }

    /// The plain named type of `decl`; see `Registry::intern_named`.
    pub fn intern_named_type(&mut self, decl: DeclId) -> (r: TypeId)
        requires
            old(self).registry.wf(),
            old(self).registry.valid_decl(decl),
            old(self).registry.types@.len() + 1 < u32::MAX,
        ensures
            final(self).registry.wf(),
            final(self).registry.extends(&old(self).registry),
            final(self).registry.same_except_types(&old(self).registry),
            interned(old(self).registry.types@, plain_named_pred(decl), r.0 as int, final(self).registry.types@),
            is_plain_named(final(self).registry.types@[r.0 as int], decl),
            final(self).same_except_registry(old(self)),
    {
        self.registry.intern_named(decl)
    }

    /// A named type with type arguments; see `Registry::intern_named_with_args`.
    pub fn intern_named_type_with_args(&mut self, decl: DeclId, type_args: Vec<RegistryTypeArg>) -> (r: TypeId)
        requires
            old(self).registry.wf(),
            old(self).registry.valid_decl(decl),
            args_below(type_args@, old(self).registry.types@.len() as int),
            old(self).registry.types@.len() + 1 < u32::MAX,
        ensures
            final(self).registry.wf(),
            final(self).registry.extends(&old(self).registry),
            final(self).registry.same_except_types(&old(self).registry),
            final(self).registry.valid_type(r),
            type_args@.len() == 0 ==> interned(old(self).registry.types@, plain_named_pred(decl), r.0 as int, final(self).registry.types@),
            type_args@.len() > 0 ==> r.0 == old(self).registry.types@.len()
                && final(self).registry.types@.len() == old(self).registry.types@.len() + 1
                && match final(self).registry.types@[r.0 as int] {
                    TypeEntry::Named { decl: d, type_args: a } => d == decl && a@ == type_args@,
                    _ => false,
                },
            final(self).same_except_registry(old(self)),
    {
        self.registry.intern_named_with_args(decl, type_args)
    }

    /// A member function type; see `Registry::intern_member_func`.
    pub fn intern_member_func_type(&mut self, decl: DeclId, member: Symbol, type_args: Vec<RegistryTypeArg>) -> (r: TypeId)
        requires
            old(self).registry.wf(),
            old(self).registry.valid_decl(decl),
            args_below(type_args@, old(self).registry.types@.len() as int),
            old(self).registry.types@.len() + 1 < u32::MAX,
        ensures
            final(self).registry.wf(),
            final(self).registry.extends(&old(self).registry),
            final(self).registry.same_except_types(&old(self).registry),
            r.0 == old(self).registry.types@.len(),
            final(self).registry.types@.len() == old(self).registry.types@.len() + 1,
            match final(self).registry.types@[r.0 as int] {
                TypeEntry::MemberFunc { decl: d, member: m, type_args: a } => d == decl && m@ == member@ && a@ == type_args@,
                _ => false,
            },
            final(self).same_except_registry(old(self)),
    {
        self.registry.intern_member_func(decl, member, type_args)
    }

    /// The nilable type over `inner`; see `Registry::intern_nilable`.
    pub fn intern_nilable_type(&mut self, inner: TypeId) -> (r: TypeId)
        requires
            old(self).registry.wf(),
            old(self).registry.valid_type(inner),
            old(self).registry.types@.len() + 1 < u32::MAX,
        ensures
            final(self).registry.wf(),
            final(self).registry.extends(&old(self).registry),
            final(self).registry.same_except_types(&old(self).registry),
            interned(old(self).registry.types@, nilable_pred(inner), r.0 as int, final(self).registry.types@),
            is_nilable_of(final(self).registry.types@[r.0 as int], inner),
            final(self).same_except_registry(old(self)),
    {
        self.registry.intern_nilable(inner)
    }

    /// The entity reference type to `inner`; see `Registry::intern_entity_ref`.
    pub fn intern_entity_ref_type(&mut self, inner: TypeId) -> (r: TypeId)
        requires
            old(self).registry.wf(),
            old(self).registry.valid_type(inner),
            old(self).registry.types@.len() + 1 < u32::MAX,
        ensures
            final(self).registry.wf(),
            final(self).registry.extends(&old(self).registry),
            final(self).registry.same_except_types(&old(self).registry),
            interned(old(self).registry.types@, entity_ref_pred(inner), r.0 as int, final(self).registry.types@),
            is_entity_ref_of(final(self).registry.types@[r.0 as int], inner),
            final(self).same_except_registry(old(self)),
    {
        self.registry.intern_entity_ref(inner)
    }

    /// An anonymous construct type; see `Registry::intern_anonymous`.
    pub fn intern_anonymous_type(&mut self, anon: TypeConstruct) -> (r: TypeId)
        requires
            old(self).registry.wf(),
            anon_fields_below(anon, old(self).registry.types@.len() as int),
            old(self).registry.types@.len() + 1 < u32::MAX,
        ensures
            final(self).registry.wf(),
            final(self).registry.extends(&old(self).registry),
            final(self).registry.same_except_types(&old(self).registry),
            r.0 == old(self).registry.types@.len(),
            final(self).registry.types@.len() == old(self).registry.types@.len() + 1,
            match final(self).registry.types@[r.0 as int] {
                TypeEntry::Anonymous(tc) => *tc == anon,
                _ => false,
            },
            final(self).same_except_registry(old(self)),
    {
        self.registry.intern_anonymous(anon)
    }

    /// The type parameter type `name`; see `Registry::intern_type_param`.
    pub fn intern_type_param_type(&mut self, name: &Symbol) -> (r: TypeId)
        requires
            old(self).registry.wf(),
            old(self).registry.types@.len() + 1 < u32::MAX,
        ensures
            final(self).registry.wf(),
            final(self).registry.extends(&old(self).registry),
            final(self).registry.same_except_types(&old(self).registry),
            interned(old(self).registry.types@, type_param_pred(name@), r.0 as int, final(self).registry.types@),
            is_type_param_named(final(self).registry.types@[r.0 as int], name@),
            final(self).same_except_registry(old(self)),
    {
        self.registry.intern_type_param(name)
    }

    /// Give back what was loaded and the errors met.
    pub fn into_result(self) -> (r: Result<LoadResult, LoadContext>)
        ensures
            r matches Ok(res) && res.registry == self.registry && res.parse_errors
                == self.parse_errors && res.load_errors == self.load_errors
                && res.strict_violations == self.strict_violations,
    {
        Ok(
            LoadResult {
                registry: self.registry,
                parse_errors: self.parse_errors,
                load_errors: self.load_errors,
                strict_violations: self.strict_violations,
            },
        )
    }
}

} // verus!
