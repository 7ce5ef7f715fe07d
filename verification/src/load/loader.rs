use vstd::prelude::*;

use crate::model::symbol::{copy_chars, push_chars, str_chars};
use crate::model::{Construct, ConstructKind, Import, SourceFile, SourceMap, Symbol};

use super::context::{
    char_views, ident_names, import_alias, import_to_path, path_alias, path_module_segments,
    path_root, split_on, sym_views, LoadContext, LoadError,
};
use super::types::{TypeTable, TypedFile};
use crate::model::assoc::{assoc_first, assoc_position, assoc_put, keys_unique};
use super::registry::join_dotted;

use super::types::{FuncModifiers, TypeConstruct, TypeConstructKind, Visibility};

verus! {

/// The declaration kind and function modifiers of a construct; `None` for an
/// invalid one.
pub open spec fn stub_shape(c: Construct) -> Option<(TypeConstructKind, bool, bool)> {
    match c.kind {
        ConstructKind::TypeAlias(_) => Some((TypeConstructKind::TypeAlias, false, false)),
        ConstructKind::Data(_) => Some((TypeConstructKind::Data, false, false)),
        ConstructKind::Entity(_) => Some((TypeConstructKind::Entity, false, false)),
        ConstructKind::Func(f) => Some(
            (
                if c.builtin {
                    TypeConstructKind::Native
                } else {
                    TypeConstructKind::Func
                },
                f.view,
                f.noblock,
            ),
        ),
        ConstructKind::Extern(_) => Some((TypeConstructKind::Extern, false, false)),
        ConstructKind::Native(n) => Some((TypeConstructKind::Native, n.view, n.noblock)),
        ConstructKind::Invalid(_) => None,
    }
}

/// `d` is the declaration stub of construct `c`: its name, kind, visibility,
/// modifiers and builtin flag, the stubs of its valid member functions, and
/// nothing resolved yet.
pub open spec fn is_stub_of(d: TypeConstruct, c: Construct) -> bool
    decreases c,
{
    match stub_shape(c) {
        Some((kind, view, noblock)) => {
            &&& d.name matches Some(n) && n@ == c.name.name@
            &&& d.kind == kind
            &&& d.func_modifiers == (FuncModifiers { view, noblock })
            &&& d.visibility == (if c.out {
                Visibility::Public
            } else {
                Visibility::Private
            })
            &&& d.annotations@.len() == 0
            &&& d.intypes@.len() == 0
            &&& d.fields@.len() == 0
            &&& d.type_alias_target is None
            &&& d.is_builtin == c.builtin
            &&& !d.non_serializable
            &&& d.decl_id is None
            &&& d.node_id == c.node_id
            &&& d.ast_field_eval_order@.len() == 0
            &&& d.metadata_ok()
            &&& match c.kind {
                ConstructKind::Data(dd) => stubs_of(d.members@, dd.funcs@),
                ConstructKind::Entity(e) => stubs_of(d.members@, e.funcs@),
                _ => d.members@.len() == 0,
            }
        },
        None => false,
    }
}

/// `ds` are the stubs of the valid constructs among `cs`, in order.
pub open spec fn stubs_of(ds: Seq<TypeConstruct>, cs: Seq<Construct>) -> bool
    decreases cs,
{
    if cs.len() == 0 {
        ds.len() == 0
    } else {
        let last = cs[cs.len() - 1];
        let pre = cs.subrange(0, cs.len() - 1);
        if last.kind is Invalid {
            stubs_of(ds, pre)
        } else {
            &&& ds.len() > 0
            &&& is_stub_of(ds[ds.len() - 1], last)
            &&& stubs_of(ds.subrange(0, ds.len() - 1), pre)
        }
    }
}

/// The stubs of the valid constructs among `cs`.
fn stubs_of_constructs(cs: &Vec<Construct>) -> (r: Vec<TypeConstruct>)
    ensures
        stubs_of(r@, cs@),
    decreases cs,
{
    let mut r: Vec<TypeConstruct> = Vec::new();
    let mut i: usize = 0;
    while i < cs.len()
        invariant
            i <= cs@.len(),
            stubs_of(r@, cs@.subrange(0, i as int)),
        decreases cs@.len() - i,
    {
        assert(cs@.subrange(0, i + 1).subrange(0, i as int) =~= cs@.subrange(0, i as int));
        let ghost before = r@;
        match construct_to_declaration(&cs[i]) {
            Some(d) => {
                r.push(d);
                assert(r@.subrange(0, r@.len() - 1) =~= before);
            },
            None => {},
        }
        i = i + 1;
    }
    assert(cs@.subrange(0, cs@.len() as int) =~= cs@);
    r
}

/// The declaration stub of a construct: its signature is left to be filled in
/// by type resolution. `None` for an invalid construct.
pub fn construct_to_declaration(construct: &Construct) -> (r: Option<TypeConstruct>)
    ensures
        match r {
            Some(d) => is_stub_of(d, *construct),
            None => construct.kind is Invalid,
        },
    decreases construct,
{
    let (kind, func_modifiers, members) = match &construct.kind {
        ConstructKind::TypeAlias(_) => (TypeConstructKind::TypeAlias, FuncModifiers::default(), Vec::new()),
        ConstructKind::Data(data) => (TypeConstructKind::Data, FuncModifiers::default(), stubs_of_constructs(&data.funcs)),
        ConstructKind::Entity(entity) => (TypeConstructKind::Entity, FuncModifiers::default(), stubs_of_constructs(&entity.funcs)),
        ConstructKind::Func(func) => {
            let kind = if construct.builtin {
                TypeConstructKind::Native
            } else {
                TypeConstructKind::Func
            };
            (kind, FuncModifiers { view: func.view, noblock: func.noblock }, Vec::new())
        },
        ConstructKind::Extern(_) => (TypeConstructKind::Extern, FuncModifiers::default(), Vec::new()),
        ConstructKind::Native(native) => (
            TypeConstructKind::Native,
            FuncModifiers { view: native.view, noblock: native.noblock },
            Vec::new(),
        ),
        ConstructKind::Invalid(_) => {
            return None;
        },
    };
    let visibility = if construct.out {
        Visibility::Public
    } else {
        Visibility::Private
    };
    let mut decl = TypeConstruct {
        name: Some(construct.name.name.dup()),
        kind,
        visibility,
        annotations: Vec::new(),
        intypes: Vec::new(),
        fields: Vec::new(),
        out_early_name: None,
        out_field_names: Vec::new(),
        func_modifiers,
        type_alias_target: None,
        members,
        member_index: Vec::new(),
        is_builtin: construct.builtin,
        non_serializable: false,
        decl_id: None,
        node_id: construct.node_id,
        ast_field_eval_order: Vec::new(),
    };
    decl.rebuild_metadata();
    Some(decl)
}

// ---------------------------------------------------------------------------
// Imports
// ---------------------------------------------------------------------------

/// The dot-separated module path of an import.
pub open spec fn import_path_of(i: Import) -> Seq<char> {
    join_dotted(ident_names(i.path@))
}

/// An import of a module of another project root whose path has a segment
/// (after the root) starting with `_`: such modules are private to their project.
pub open spec fn is_private_import(cur_root: Seq<char>, p: Seq<char>) -> bool {
    let segs = split_on(p, '.');
    &&& segs[0] != cur_root
    &&& exists|k: int| 1 <= k < segs.len() && segs[k].len() > 0 && segs[k][0] == '_'
}

pub open spec fn private_import_message(p: Seq<char>) -> Seq<char> {
    "cannot import '"@ + p + "': underscore-prefixed modules are project-private"@
}

/// The source range of node `id`, when recorded.
pub open spec fn node_range_of(m: SourceMap, id: crate::model::NodeId) -> Option<(usize, usize)> {
    if (id.0 as int) < m.node_ranges@.len() {
        Some(m.node_ranges@[id.0 as int])
    } else {
        None
    }
}

/// A load error as plain values: message, file index, range.
pub type ErrorInfo = (Seq<char>, usize, Option<(usize, usize)>);

/// The errors for the private imports among `imps` of file `fi`.
pub open spec fn import_errors(
    imps: Seq<Import>,
    m: SourceMap,
    fi: usize,
    cur_root: Seq<char>,
) -> Seq<ErrorInfo>
    decreases imps.len(),
{
    if imps.len() == 0 {
        Seq::empty()
    } else {
        let rest = import_errors(imps.drop_last(), m, fi, cur_root);
        let p = import_path_of(imps.last());
        if is_private_import(cur_root, p) {
            rest.push((private_import_message(p), fi, node_range_of(m, imps.last().node_id)))
        } else {
            rest
        }
    }
}

/// The errors for the private imports of the files, file by file.
pub open spec fn files_import_errors(files: Seq<SourceFile>, cur_root: Seq<char>) -> Seq<ErrorInfo>
    decreases files.len(),
{
    if files.len() == 0 {
        Seq::empty()
    } else {
        files_import_errors(files.drop_last(), cur_root) + import_errors(
            files.last().imports@,
            files.last().source_map,
            (files.len() - 1) as usize,
            cur_root,
        )
    }
}

/// The import paths of the files, in order, repeats included.
pub open spec fn files_import_paths(files: Seq<SourceFile>) -> Seq<Seq<char>>
    decreases files.len(),
{
    if files.len() == 0 {
        Seq::empty()
    } else {
        files_import_paths(files.drop_last()) + files.last().imports@.map_values(
            |i: Import| import_path_of(i),
        )
    }
}

/// `s` without repeats, each kept where it first occurs.
pub open spec fn distinct_in_order(s: Seq<Seq<char>>) -> Seq<Seq<char>>
    decreases s.len(),
{
    if s.len() == 0 {
        Seq::empty()
    } else {
        let rest = distinct_in_order(s.drop_last());
        if rest.contains(s.last()) {
            rest
        } else {
            rest.push(s.last())
        }
    }
}

/// `errs` are load errors of `module` carrying the given plain values.
pub open spec fn errors_match(errs: Seq<LoadError>, module: Seq<char>, info: Seq<ErrorInfo>) -> bool {
    &&& errs.len() == info.len()
    &&& forall|k: int|
        #![trigger errs[k]]
        0 <= k < errs.len() ==> {
            &&& errs[k].module@ == module
            &&& errs[k].message@ == info[k].0
            &&& errs[k].file_idx == info[k].1
            &&& errs[k].range == info[k].2
        }
}

/// Whether the path has a segment after its root that starts with `_`.
fn has_private_segment(p: &[char]) -> (r: bool)
    ensures
        r == exists|k: int|
            1 <= k < split_on(p@, '.').len() && split_on(p@, '.')[k].len() > 0 && split_on(
                p@,
                '.',
            )[k][0] == '_',
{
    let segs = path_module_segments(p);
    let ghost all = split_on(p@, '.');
    proof {
        super::context::lemma_split_on_nonempty(p@, '.');
        assert(char_views(segs@).len() == segs@.len());
    }
    let mut i: usize = 0;
    while i < segs.len()
        invariant
            i <= segs@.len(),
            all == split_on(p@, '.'),
            all.len() == segs@.len() + 1,
            char_views(segs@) == all.drop_first(),
            forall|k: int| 1 <= k < i + 1 ==> !(all[k].len() > 0 && all[k][0] == '_'),
        decreases segs@.len() - i,
    {
        assert(char_views(segs@)[i as int] == segs@[i as int]@);
        assert(all[i + 1] == all.drop_first()[i as int]);
        if segs[i].len() > 0 && segs[i][0] == '_' {
            assert(all[i + 1] == segs@[i as int]@);
            assert(1 <= i + 1 < all.len() && all[i + 1].len() > 0 && all[i + 1][0] == '_');
            return true;
        }
        i = i + 1;
    }
    false
}

/// Add the path to `seen` unless it is there.
fn add_distinct(seen: &mut Vec<Symbol>, p: Symbol)
    ensures
        sym_views(final(seen)@) == (if sym_views(old(seen)@).contains(p@) {
            sym_views(old(seen)@)
        } else {
            sym_views(old(seen)@).push(p@)
        }),
{
    let mut i: usize = 0;
    while i < seen.len()
        invariant
            i <= seen@.len(),
            seen@ == old(seen)@,
            forall|k: int| 0 <= k < i ==> seen@[k]@ != p@,
        decreases seen@.len() - i,
    {
        if seen[i].eq_sym(&p) {
            assert(sym_views(seen@)[i as int] == p@);
            return;
        }
        i = i + 1;
    }
    let ghost before = sym_views(seen@);
    seen.push(p);
    assert(sym_views(seen@) =~= before.push(p@));
}

/// The distinct import paths of the files of module `path`, each where it
/// first occurs. An import of a project-private module of another root is
/// reported as a load error.
pub fn collect_import_paths(ctx: &mut LoadContext, path: &Symbol, source_files: &Vec<SourceFile>) -> (r: Vec<Symbol>)
    ensures
        sym_views(r@) == distinct_in_order(files_import_paths(source_files@)),
        final(ctx).load_errors@.subrange(0, old(ctx).load_errors@.len() as int) == old(ctx).load_errors@,
        errors_match(
            final(ctx).load_errors@.subrange(old(ctx).load_errors@.len() as int, final(ctx).load_errors@.len() as int),
            path@,
            files_import_errors(source_files@, split_on(path@, '.')[0]),
        ),
        final(ctx).parse_errors == old(ctx).parse_errors,
        final(ctx).strict_violations == old(ctx).strict_violations,
        final(ctx).same_except_errors(old(ctx)),
{
    let cur_root = path_root(path.as_str());
    let ghost root = cur_root@;
    let ghost start = ctx.load_errors@.len();
    let mut seen: Vec<Symbol> = Vec::new();
    let mut fi: usize = 0;
    while fi < source_files.len()
        invariant
            fi <= source_files@.len(),
            root == split_on(path@, '.')[0],
            cur_root@ == root,
            start == old(ctx).load_errors@.len(),
            ctx.load_errors@.len() >= start,
            ctx.load_errors@.subrange(0, start as int) == old(ctx).load_errors@,
            errors_match(
                ctx.load_errors@.subrange(start as int, ctx.load_errors@.len() as int),
                path@,
                files_import_errors(source_files@.take(fi as int), root),
            ),
            sym_views(seen@) == distinct_in_order(files_import_paths(source_files@.take(fi as int))),
            ctx.parse_errors == old(ctx).parse_errors,
            ctx.strict_violations == old(ctx).strict_violations,
            ctx.same_except_errors(old(ctx)),
        decreases source_files@.len() - fi,
    {
        let file = &source_files[fi];
        let ghost pre_files = source_files@.take(fi as int);
        let ghost errs_before = ctx.load_errors@;
        let ghost seen_before = sym_views(seen@);
        let mut j: usize = 0;
        while j < file.imports.len()
            invariant
                fi < source_files@.len(),
                *file == source_files@[fi as int],
                j <= file.imports@.len(),
                cur_root@ == root,
                ctx.load_errors@.len() >= errs_before.len(),
                ctx.load_errors@.subrange(0, errs_before.len() as int) == errs_before,
                errors_match(
                    ctx.load_errors@.subrange(errs_before.len() as int, ctx.load_errors@.len() as int),
                    path@,
                    import_errors(file.imports@.take(j as int), file.source_map, fi, root),
                ),
                sym_views(seen@) == distinct_in_order(seen_paths_then(pre_files, file.imports@.take(j as int))),
                ctx.parse_errors == old(ctx).parse_errors,
                ctx.strict_violations == old(ctx).strict_violations,
                ctx.same_except_errors(old(ctx)),
                seen_before == distinct_in_order(files_import_paths(pre_files)),
            decreases file.imports@.len() - j,
        {
            let import = &file.imports[j];
            let p = import_to_path(import);
            let p_root = path_root(p.as_str());
            let ghost errs_mid = ctx.load_errors@;
            assert(file.imports@.take(j + 1).drop_last() =~= file.imports@.take(j as int));
            if !crate::model::symbol::chars_eq(cur_root.as_slice(), p_root.as_slice()) && has_private_segment(p.as_str()) {
                let mut message = str_chars("cannot import '");
                push_chars(&mut message, p.as_str());
                let tail = str_chars("': underscore-prefixed modules are project-private");
                push_chars(&mut message, tail.as_slice());
                ctx.add_load_error(
                    LoadError {
                        module: path.dup(),
                        message,
                        file_idx: fi,
                        range: file.source_map.node_range(import.node_id),
                    },
                );
                proof {
                    let tail_s = ctx.load_errors@.subrange(errs_before.len() as int, ctx.load_errors@.len() as int);
                    let mid_s = errs_mid.subrange(errs_before.len() as int, errs_mid.len() as int);
                    assert(tail_s =~= mid_s.push(ctx.load_errors@.last()));
                    assert(ctx.load_errors@.subrange(0, errs_before.len() as int) =~= errs_mid.subrange(0, errs_before.len() as int));
                }
            }
            add_distinct(&mut seen, p);
            proof {
                lemma_seen_paths_step(pre_files, file.imports@, j as int);
            }
            j = j + 1;
        }
        proof {
            assert(file.imports@.take(file.imports@.len() as int) =~= file.imports@);
            assert(source_files@.take(fi + 1).drop_last() =~= pre_files);
            lemma_seen_paths_file(pre_files, *file);
            let whole = ctx.load_errors@.subrange(start as int, ctx.load_errors@.len() as int);
            let a = errs_before.subrange(start as int, errs_before.len() as int);
            let b = ctx.load_errors@.subrange(errs_before.len() as int, ctx.load_errors@.len() as int);
            assert(whole =~= a + b);
            assert(ctx.load_errors@.subrange(0, start as int) =~= errs_before.subrange(0, start as int));
        }
        fi = fi + 1;
    }
    assert(source_files@.take(source_files@.len() as int) =~= source_files@);
    seen
}

/// The import paths of `files`, then those of `imps`.
pub open spec fn seen_paths_then(files: Seq<SourceFile>, imps: Seq<Import>) -> Seq<Seq<char>> {
    files_import_paths(files) + imps.map_values(|i: Import| import_path_of(i))
}

proof fn lemma_seen_paths_step(files: Seq<SourceFile>, imps: Seq<Import>, j: int)
    requires
        0 <= j < imps.len(),
    ensures
        seen_paths_then(files, imps.take(j + 1)).drop_last() == seen_paths_then(files, imps.take(j)),
        seen_paths_then(files, imps.take(j + 1)).last() == import_path_of(imps[j]),
{
    assert(seen_paths_then(files, imps.take(j + 1)).drop_last() =~= seen_paths_then(files, imps.take(j)));
}

proof fn lemma_seen_paths_file(files: Seq<SourceFile>, f: SourceFile)
    ensures
        seen_paths_then(files, f.imports@) == files_import_paths(files.push(f)),
{
    assert(files.push(f).drop_last() =~= files);
}

// ---------------------------------------------------------------------------
// Declarations
// ---------------------------------------------------------------------------

pub open spec fn duplicate_message(name: Seq<char>) -> Seq<char> {
    "Duplicate declaration '"@ + name + "'"@
}

/// Scanning the constructs `cs` of file `fi` after the names `seen`: the
/// positions of the constructs kept, the names they add, and the errors for
/// names declared again. Invalid constructs are skipped.
pub open spec fn scan_constructs(
    cs: Seq<Construct>,
    m: SourceMap,
    fi: usize,
    seen: Seq<Seq<char>>,
) -> (Seq<int>, Seq<Seq<char>>, Seq<ErrorInfo>)
    decreases cs.len(),
{
    if cs.len() == 0 {
        (Seq::empty(), Seq::empty(), Seq::empty())
    } else {
        let (k, n, e) = scan_constructs(cs.drop_last(), m, fi, seen);
        let c = cs.last();
        if c.kind is Invalid {
            (k, n, e)
        } else if (seen + n).contains(c.name.name@) {
            (k, n, e.push((duplicate_message(c.name.name@), fi, node_range_of(m, c.node_id))))
        } else {
            (k.push(cs.len() - 1), n.push(c.name.name@), e)
        }
    }
}

/// Scanning the files in order: per file the constructs kept, all names
/// kept, and all errors.
pub open spec fn scan_files(files: Seq<SourceFile>) -> (Seq<Seq<int>>, Seq<Seq<char>>, Seq<ErrorInfo>)
    decreases files.len(),
{
    if files.len() == 0 {
        (Seq::empty(), Seq::empty(), Seq::empty())
    } else {
        let (ks, names, errs) = scan_files(files.drop_last());
        let f = files.last();
        let (k, n, e) = scan_constructs(f.constructs@, f.source_map, (files.len() - 1) as usize, names);
        (ks.push(k), names + n, errs + e)
    }
}

/// The positions of the constructs of file `q` that are kept.
pub open spec fn kept_of(files: Seq<SourceFile>, q: int) -> Seq<int> {
    scan_constructs(files[q].constructs@, files[q].source_map, q as usize, scan_files(files.take(q)).1).0
}

/// The declaration index: each name kept, with its file and its position
/// among the declarations of that file.
pub open spec fn index_entries(files: Seq<SourceFile>) -> Seq<(Seq<char>, (usize, usize))>
    decreases files.len(),
{
    if files.len() == 0 {
        Seq::empty()
    } else {
        let (ks, names, errs) = scan_files(files.drop_last());
        let f = files.last();
        let (k, n, e) = scan_constructs(f.constructs@, f.source_map, (files.len() - 1) as usize, names);
        index_entries(files.drop_last()) + n.map(|j: int, nm: Seq<char>| (nm, ((files.len() - 1) as usize, j as usize)))
    }
}

/// The name an import is known by.
pub open spec fn import_alias_of(i: Import) -> Seq<char> {
    match i.alias {
        Some(a) => a.name@,
        None => if i.path@.len() > 0 {
            i.path@.last().name@
        } else {
            Seq::empty()
        },
    }
}

/// The writes that build a file's import map: the implicit modules under
/// their last segment, then the explicit imports under their alias.
pub open spec fn import_writes(implicit: Seq<Seq<char>>, imps: Seq<Import>) -> Seq<(Seq<char>, Seq<char>)> {
    implicit.map_values(|m: Seq<char>| (split_on(m, '.').last(), m)) + imps.map_values(
        |i: Import| (import_alias_of(i), import_path_of(i)),
    )
}

/// The value of the last write to `k`.
pub open spec fn last_write(ws: Seq<(Seq<char>, Seq<char>)>, k: Seq<char>) -> Option<Seq<char>>
    decreases ws.len(),
{
    if ws.len() == 0 {
        None
    } else if ws.last().0 == k {
        Some(ws.last().1)
    } else {
        last_write(ws.drop_last(), k)
    }
}

/// `map` holds, for each key, the value last written to it.
pub open spec fn map_of_writes(map: Seq<(Symbol, Symbol)>, ws: Seq<(Seq<char>, Seq<char>)>) -> bool {
    &&& keys_unique(map)
    &&& forall|k: Seq<char>|
        #![trigger assoc_first(map, k)]
        match assoc_first(map, k) {
            Some(v) => last_write(ws, k) == Some(v@),
            None => last_write(ws, k) is None,
        }
}

/// The import map of a file: alias to module path, explicit imports
/// shadowing implicit modules.
fn build_import_map(implicit: &[Symbol], imports: &Vec<Import>) -> (r: Vec<(Symbol, Symbol)>)
    ensures
        map_of_writes(r@, import_writes(sym_views(implicit@), imports@)),
{
    let ghost ws = import_writes(sym_views(implicit@), imports@);
    let mut map: Vec<(Symbol, Symbol)> = Vec::new();
    let mut i: usize = 0;
    while i < implicit.len()
        invariant
            i <= implicit@.len(),
            ws == import_writes(sym_views(implicit@), imports@),
            map_of_writes(map@, ws.take(i as int)),
        decreases implicit@.len() - i,
    {
        let alias = path_alias(implicit[i].as_str());
        let ghost before = map@;
        assoc_put(&mut map, alias, implicit[i].dup());
        proof {
            assert(ws.take(i + 1).drop_last() =~= ws.take(i as int));
            assert(ws[i as int] == (split_on(implicit@[i as int]@, '.').last(), implicit@[i as int]@));
        }
        i = i + 1;
    }
    let n = implicit.len();
    let mut j: usize = 0;
    while j < imports.len()
        invariant
            j <= imports@.len(),
            n == implicit@.len(),
            ws == import_writes(sym_views(implicit@), imports@),
            ws.len() == n + imports@.len(),
            map_of_writes(map@, ws.take(n + j)),
        decreases imports@.len() - j,
    {
        let alias = import_alias(&imports[j]);
        let p = import_to_path(&imports[j]);
        assoc_put(&mut map, alias, p);
        proof {
            assert(ws.take(n + j + 1).drop_last() =~= ws.take(n + j));
            assert(ws[n + j] == (import_alias_of(imports@[j as int]), import_path_of(imports@[j as int])));
        }
        j = j + 1;
    }
    assert(ws.take(n + imports@.len()) =~= ws);
    map
}

/// Build the typed files of a module from its parsed files: each file gets
/// the stubs of its constructs and its import map. A name declared again (in
/// the same file or another) is reported, and only its first declaration is
/// kept. Gives the files and the index from name to (file, declaration).
pub fn collect_declarations(
    source_files: Vec<SourceFile>,
    ctx: &mut LoadContext,
    path: &Symbol,
    implicit_modules: &[Symbol],
) -> (r: (Vec<TypedFile>, Vec<(Symbol, (usize, usize))>))
    ensures
        r.0@.len() == source_files@.len(),
        forall|fi: int|
            #![trigger r.0@[fi]]
            0 <= fi < r.0@.len() ==> {
                let kept = kept_of(source_files@, fi);
                &&& r.0@[fi].source_file == source_files@[fi]
                &&& r.0@[fi].type_table.node_types@.len() == 0
                &&& r.0@[fi].annotations@.len() == 0
                &&& r.0@[fi].declarations@.len() == kept.len()
                &&& forall|j: int|
                    0 <= j < kept.len() ==> is_stub_of(
                        #[trigger] r.0@[fi].declarations@[j],
                        source_files@[fi].constructs@[kept[j]],
                    )
                &&& map_of_writes(
                    r.0@[fi].import_map@,
                    import_writes(sym_views(implicit_modules@), source_files@[fi].imports@),
                )
            },
        keys_unique(r.1@),
        r.1@.map_values(|e: (Symbol, (usize, usize))| (e.0@, e.1)) == index_entries(source_files@),
        final(ctx).load_errors@.subrange(0, old(ctx).load_errors@.len() as int) == old(ctx).load_errors@,
        errors_match(
            final(ctx).load_errors@.subrange(old(ctx).load_errors@.len() as int, final(ctx).load_errors@.len() as int),
            path@,
            scan_files(source_files@).2,
        ),
        final(ctx).parse_errors == old(ctx).parse_errors,
        final(ctx).strict_violations == old(ctx).strict_violations,
        final(ctx).same_except_errors(old(ctx)),
{
    let ghost all = source_files@;
    let ghost start = ctx.load_errors@.len();
    let mut rest = source_files;
    assert(rest@ =~= all.subrange(0, all.len() as int));
    assert(all.len() == rest.len());
    let mut files: Vec<TypedFile> = Vec::new();
    let mut decl_index: Vec<(Symbol, (usize, usize))> = Vec::new();
    let mut fi: usize = 0;
    while rest.len() > 0
        invariant
            fi <= all.len(),
            all.len() <= usize::MAX,
            rest@ == all.subrange(fi as int, all.len() as int),
            files@.len() == fi,
            start == old(ctx).load_errors@.len(),
            ctx.load_errors@.len() >= start,
            ctx.load_errors@.subrange(0, start as int) == old(ctx).load_errors@,
            errors_match(ctx.load_errors@.subrange(start as int, ctx.load_errors@.len() as int), path@, scan_files(all.take(fi as int)).2),
            keys_unique(decl_index@),
            decl_index@.map_values(|e: (Symbol, (usize, usize))| (e.0@, e.1)) == index_entries(all.take(fi as int)),
            forall|k: Seq<char>|
                #![trigger assoc_first(decl_index@, k)]
                assoc_first(decl_index@, k) is Some <==> scan_files(all.take(fi as int)).1.contains(k),
            forall|q: int|
                #![trigger files@[q]]
                0 <= q < fi ==> {
                    let kept = kept_of(all, q);
                    &&& files@[q].source_file == all[q]
                    &&& files@[q].type_table.node_types@.len() == 0
                    &&& files@[q].annotations@.len() == 0
                    &&& files@[q].declarations@.len() == kept.len()
                    &&& forall|j: int|
                        0 <= j < kept.len() ==> is_stub_of(
                            #[trigger] files@[q].declarations@[j],
                            all[q].constructs@[kept[j]],
                        )
                    &&& map_of_writes(files@[q].import_map@, import_writes(sym_views(implicit_modules@), all[q].imports@))
                },
            ctx.parse_errors == old(ctx).parse_errors,
            ctx.strict_violations == old(ctx).strict_violations,
            ctx.same_except_errors(old(ctx)),
        decreases rest@.len(),
    {
        let source_file = rest.remove(0);
        assert(source_file == all[fi as int]);
        let ghost names_before = scan_files(all.take(fi as int)).1;
        let ghost errs_before = ctx.load_errors@;
        let ghost index_before = decl_index@;
        let mut declarations: Vec<TypeConstruct> = Vec::new();
        assert(names_before + Seq::<Seq<char>>::empty() =~= names_before);
        let mut ci: usize = 0;
        while ci < source_file.constructs.len()
            invariant
                ci <= source_file.constructs@.len(),
                ctx.load_errors@.len() >= errs_before.len(),
                ctx.load_errors@.subrange(0, errs_before.len() as int) == errs_before,
                errors_match(
                    ctx.load_errors@.subrange(errs_before.len() as int, ctx.load_errors@.len() as int),
                    path@,
                    scan_constructs(source_file.constructs@.take(ci as int), source_file.source_map, fi, names_before).2,
                ),
                keys_unique(decl_index@),
                decl_index@.len() == index_before.len() + declarations@.len(),
                decl_index@.subrange(0, index_before.len() as int) == index_before,
                forall|k: Seq<char>|
                    #![trigger assoc_first(decl_index@, k)]
                    assoc_first(decl_index@, k) is Some <==> (names_before + scan_constructs(source_file.constructs@.take(ci as int), source_file.source_map, fi, names_before).1).contains(k),
                forall|j: int|
                    0 <= j < declarations@.len() ==> (#[trigger] decl_index@[index_before.len() + j]).0@ == scan_constructs(source_file.constructs@.take(ci as int), source_file.source_map, fi, names_before).1[j]
                        && decl_index@[index_before.len() + j].1 == (fi, j as usize),
                declarations@.len() == scan_constructs(source_file.constructs@.take(ci as int), source_file.source_map, fi, names_before).0.len(),
                declarations@.len() == scan_constructs(source_file.constructs@.take(ci as int), source_file.source_map, fi, names_before).1.len(),
                forall|j: int|
                    0 <= j < declarations@.len() ==> is_stub_of(
                        #[trigger] declarations@[j],
                        source_file.constructs@[scan_constructs(source_file.constructs@.take(ci as int), source_file.source_map, fi, names_before).0[j]],
                    ),
                ctx.parse_errors == old(ctx).parse_errors,
                ctx.strict_violations == old(ctx).strict_violations,
                ctx.same_except_errors(old(ctx)),
            decreases source_file.constructs@.len() - ci,
        {
            let c = &source_file.constructs[ci];
            let ghost pre = source_file.constructs@.take(ci as int);
            let ghost sc = scan_constructs(pre, source_file.source_map, fi, names_before);
            let ghost errs_mid = ctx.load_errors@;
            let ghost index_mid = decl_index@;
            assert(source_file.constructs@.take(ci + 1).drop_last() =~= pre);
            assert(source_file.constructs@.take(ci + 1).last() == *c);
            match construct_to_declaration(c) {
                None => {},
                Some(decl) => {
                    match assoc_position(decl_index.as_slice(), c.name.name.as_str()) {
                        Some(_) => {
                            let mut message = str_chars("Duplicate declaration '");
                            push_chars(&mut message, c.name.name.as_str());
                            message.push('\'');
                            proof {
                                reveal_strlit("Duplicate declaration '");
                                reveal_strlit("'");
                                assert(message@ =~= duplicate_message(c.name.name@));
                            }
                            ctx.add_load_error(
                                LoadError {
                                    module: path.dup(),
                                    message,
                                    file_idx: fi,
                                    range: source_file.source_map.node_range(decl.node_id),
                                },
                            );
                            proof {
                                let tail = ctx.load_errors@.subrange(errs_before.len() as int, ctx.load_errors@.len() as int);
                                let mid = errs_mid.subrange(errs_before.len() as int, errs_mid.len() as int);
                                assert(tail =~= mid.push(ctx.load_errors@.last()));
                                assert(ctx.load_errors@.subrange(0, errs_before.len() as int) =~= errs_mid.subrange(0, errs_before.len() as int));
                            }
                        },
                        None => {
                            let ghost k0 = declarations@.len();
                            decl_index.push((c.name.name.dup(), (fi, declarations.len())));
                            declarations.push(decl);
                            proof {
                                assert forall|k: Seq<char>| #[trigger] assoc_first(decl_index@, k) is Some <==> (names_before + sc.1.push(c.name.name@)).contains(k) by {
                                    crate::model::assoc::lemma_assoc_first_push(index_mid, decl_index@.last(), k);
                                    assert(decl_index@ =~= index_mid.push(decl_index@.last()));
                                    vstd::seq_lib::lemma_seq_contains_after_push(names_before + sc.1, c.name.name@, k);
                                    assert((names_before + sc.1.push(c.name.name@)) =~= (names_before + sc.1).push(c.name.name@));
                                }
                                assert(keys_unique(decl_index@)) by {
                                    assert forall|a: int, b: int| 0 <= a < b < decl_index@.len() implies decl_index@[a].0@ != decl_index@[b].0@ by {
                                        if b == decl_index@.len() - 1 {
                                            assert(index_mid[a] == decl_index@[a]);
                                            if decl_index@[a].0@ == c.name.name@ {
                                                crate::model::assoc::lemma_assoc_first_some(index_mid, c.name.name@);
                                            }
                                        } else {
                                            assert(index_mid[a] == decl_index@[a]);
                                            assert(index_mid[b] == decl_index@[b]);
                                        }
                                    }
                                }
                                assert(decl_index@.subrange(0, index_before.len() as int) =~= index_mid.subrange(0, index_before.len() as int));
                                assert forall|j: int| 0 <= j < declarations@.len() implies (#[trigger] decl_index@[index_before.len() + j]).0@ == sc.1.push(c.name.name@)[j]
                                    && decl_index@[index_before.len() + j].1 == (fi, j as usize) by {
                                    if j < k0 {
                                        assert(decl_index@[index_before.len() + j] == index_mid[index_before.len() + j]);
                                    }
                                }
                            }
                        },
                    }
                },
            }
            ci = ci + 1;
        }
        assert(source_file.constructs@.take(source_file.constructs@.len() as int) =~= source_file.constructs@);
        let import_map = build_import_map(implicit_modules, &source_file.imports);
        files.push(
            TypedFile {
                source_file,
                type_table: TypeTable::new(),
                annotations: Vec::new(),
                declarations,
                import_map,
            },
        );
        proof {
            let sc = scan_constructs(all[fi as int].constructs@, all[fi as int].source_map, fi, names_before);
            assert(all.take(fi + 1).drop_last() =~= all.take(fi as int));
            assert(all.take(fi + 1).last() == all[fi as int]);
            let whole = ctx.load_errors@.subrange(start as int, ctx.load_errors@.len() as int);
            let a = errs_before.subrange(start as int, errs_before.len() as int);
            let b = ctx.load_errors@.subrange(errs_before.len() as int, ctx.load_errors@.len() as int);
            assert(whole =~= a + b);
            assert(ctx.load_errors@.subrange(0, start as int) =~= errs_before.subrange(0, start as int));
            let newer = sc.1.map(|j: int, nm: Seq<char>| (nm, (fi, j as usize)));
            assert(source_file.constructs@.take(source_file.constructs@.len() as int) =~= all[fi as int].constructs@);
            assert forall|k: Seq<char>| #[trigger] assoc_first(decl_index@, k) is Some <==> scan_files(all.take(fi + 1)).1.contains(k) by {
                assert(scan_files(all.take(fi + 1)).1 == names_before + sc.1);
            }
            let mapped = decl_index@.map_values(|e: (Symbol, (usize, usize))| (e.0@, e.1));
            let expected = index_before.map_values(|e: (Symbol, (usize, usize))| (e.0@, e.1)) + newer;
            assert(mapped.len() == expected.len());
            assert forall|q: int| 0 <= q < mapped.len() implies mapped[q] == expected[q] by {
                let ib = index_before.len() as int;
                if q < ib {
                    assert(decl_index@.subrange(0, ib)[q] == decl_index@[q]);
                } else {
                    let j = q - ib;
                    assert(decl_index@[index_before.len() + j] == decl_index@[q]);
                    assert(newer[j] == (sc.1[j], (fi, j as usize)));
                }
            }
            assert(mapped =~= expected);
            assert(rest@ =~= all.subrange(fi + 1, all.len() as int));
        }
        fi = fi + 1;
    }
    assert(all.take(all.len() as int) =~= all);
    (files, decl_index)
}

} // verus!
