use vstd::prelude::*;

use crate::load::context::{LoadResult, RootSettings};
use crate::load::registry::{join_chars, join_with};
use crate::model::assoc::{assoc_first, keys_unique, lemma_assoc_first_at};
use crate::model::symbol::{chars_eq, copy_chars, str_chars};
use crate::model::Symbol;

verus! {

/// The root name of a project found by its directory alone (no `duralade.toml`).
pub const IMPLICIT_ROOT: &'static str = "_";

/// The `[project]` table of `duralade.toml`.
#[derive(Debug, Clone)]
pub struct ProjectConfig {
    pub name: String,
    pub source_root: Option<String>,
    pub tests_root: Option<String>,
    pub allow_builtin: bool,
    pub stdlib_prelude: bool,
}

/// A loaded project: its configuration, what loading gave, and its test modules.
pub struct ProjectLoadResult {
    pub config: ProjectConfig,
    pub load_result: LoadResult,
    pub test_modules: Vec<String>,
}

impl ProjectConfig {
    /// The source directory, relative to the project: `src` unless set.
    pub fn effective_source_root(&self) -> (r: String)
        ensures
            r@ == (match self.source_root {
                Some(s) => s@,
                None => "src"@,
            }),
    {
        match &self.source_root {
            Some(s) => s.clone(),
            None => "src".to_owned(),
        }
    }

    /// The test directory, relative to the project: `test` unless set.
    pub fn effective_test_root(&self) -> (r: String)
        ensures
            r@ == (match self.tests_root {
                Some(s) => s@,
                None => "test"@,
            }),
    {
        match &self.tests_root {
            Some(s) => s.clone(),
            None => "test".to_owned(),
        }
    }

    /// The configuration of a directory without `duralade.toml`: root `_`,
    /// sources in the directory itself, the standard prelude on.
    pub fn implicit() -> (r: ProjectConfig)
        ensures
            r.name@ == "_"@,
            r.source_root matches Some(s) && s@ == "."@,
            r.tests_root is None,
            !r.allow_builtin,
            r.stdlib_prelude,
    {
        ProjectConfig {
            name: IMPLICIT_ROOT.to_owned(),
            source_root: Some(".".to_owned()),
            tests_root: None,
            allow_builtin: false,
            stdlib_prelude: true,
        }
    }

    /// The settings per root for loading the project: the project's own
    /// root and `test` both follow its prelude setting.
    pub fn root_settings(&self) -> (r: Vec<(Symbol, RootSettings)>)
        ensures
            keys_unique(r@),
            assoc_first(r@, self.name@) == Some((RootSettings { stdlib_prelude: self.stdlib_prelude })),
            assoc_first(r@, "test"@) == Some((RootSettings { stdlib_prelude: self.stdlib_prelude })),
            forall|k: int| 0 <= k < r@.len() ==> (#[trigger] r@[k]).0@ == self.name@ || r@[k].0@ == "test"@,
    {
        let prelude = RootSettings { stdlib_prelude: self.stdlib_prelude };
        let name = Symbol { chars: str_chars(self.name.as_str()) };
        let test = Symbol::from_str("test");
        if chars_eq(name.as_str(), test.as_str()) {
            let r = vec![(name, prelude)];
            proof {
                assert(r@[0].0@ == self.name@);
            }
            r
        } else {
            let r = vec![(name, prelude), (test, prelude)];
            proof {
                assert(r@[0].0@ == self.name@);
                assert(r@[1].0@ == "test"@);
                lemma_assoc_first_at(r@, 1, "test"@);
            }
            r
        }
    }
}

/// The views of a list of names.
pub open spec fn name_views(v: Seq<Vec<char>>) -> Seq<Seq<char>> {
    v.map_values(|s: Vec<char>| s@)
}

/// The module segments of a `.dl` file: the directories between the base
/// and the file, then the file's module name (its stem up to the first `.`).
pub fn module_file_segments(dirs: &Vec<Vec<char>>, stem: &[char]) -> (r: Vec<Vec<char>>)
    ensures
        name_views(r@) == name_views(dirs@).push(first_piece(stem@)),
{
    let mut out: Vec<Vec<char>> = Vec::new();
    let mut i: usize = 0;
    while i < dirs.len()
        invariant
            i <= dirs@.len(),
            name_views(out@) == name_views(dirs@.take(i as int)),
        decreases dirs@.len() - i,
    {
        out.push(copy_chars(dirs[i].as_slice()));
        proof {
            assert(name_views(dirs@.take(i + 1)) =~= name_views(dirs@.take(i as int)).push(dirs@[i as int]@));
        }
        i = i + 1;
    }
    let mut k: usize = 0;
    while k < stem.len() && stem[k] != '.'
        invariant
            k <= stem@.len(),
            forall|j: int| 0 <= j < k ==> stem@[j] != '.',
        decreases stem@.len() - k,
    {
        k = k + 1;
    }
    let piece = copy_chars(&stem[0..k]);
    proof {
        lemma_first_piece(stem@, k as int);
        assert(dirs@.take(dirs@.len() as int) =~= dirs@);
    }
    out.push(piece);
    proof {
        assert(name_views(out@) =~= name_views(dirs@).push(first_piece(stem@)));
    }
    out
}

/// The characters before the first `.` (all of them where there is none).
pub open spec fn first_piece(s: Seq<char>) -> Seq<char>
    decreases s.len(),
{
    if s.len() == 0 || s[0] == '.' {
        Seq::empty()
    } else {
        seq![s[0]] + first_piece(s.drop_first())
    }
}

pub proof fn lemma_first_piece(s: Seq<char>, k: int)
    requires
        0 <= k <= s.len(),
        forall|j: int| 0 <= j < k ==> s[j] != '.',
        k == s.len() || s[k] == '.',
    ensures
        first_piece(s) == s.take(k),
    decreases k,
{
    if k == 0 {
        assert(s.take(0) =~= Seq::<char>::empty());
    } else {
        lemma_first_piece(s.drop_first(), k - 1);
        assert(s.take(k) =~= seq![s[0]] + s.drop_first().take(k - 1));
    }
}

/// The dotted module path of `segments` under `root`.
pub open spec fn module_path_text(root: Seq<char>, segments: Seq<Seq<char>>) -> Seq<char> {
    join_with(seq![root] + segments, '.')
}

/// The module path of `segments` under `root`, as `root.a.b`.
pub fn module_path_of(root: &[char], segments: &Vec<Vec<char>>) -> (r: Vec<char>)
    ensures
        r@ == module_path_text(root@, name_views(segments@)),
{
    let mut parts: Vec<Vec<char>> = Vec::new();
    parts.push(copy_chars(root));
    let mut i: usize = 0;
    while i < segments.len()
        invariant
            i <= segments@.len(),
            name_views(parts@) == seq![root@] + name_views(segments@.take(i as int)),
        decreases segments@.len() - i,
    {
        parts.push(copy_chars(segments[i].as_slice()));
        proof {
            assert(name_views(segments@.take(i + 1)) =~= name_views(segments@.take(i as int)).push(segments@[i as int]@));
            assert(seq![root@] + name_views(segments@.take(i + 1)) =~= (seq![root@] + name_views(segments@.take(i as int))).push(segments@[i as int]@));
        }
        i = i + 1;
    }
    proof {
        assert(segments@.take(segments@.len() as int) =~= segments@);
    }
    join_chars(parts.as_slice(), '.')
}

/// The views of a list of segment lists.
pub open spec fn seen_views(v: Seq<Vec<Vec<char>>>) -> Seq<Seq<Seq<char>>> {
    v.map_values(|s: Vec<Vec<char>>| name_views(s@))
}

fn segments_eq(a: &Vec<Vec<char>>, b: &Vec<Vec<char>>) -> (r: bool)
    ensures
        r == (name_views(a@) == name_views(b@)),
{
    if a.len() != b.len() {
        proof {
            assert(name_views(a@).len() != name_views(b@).len());
        }
        return false;
    }
    let mut i: usize = 0;
    while i < a.len()
        invariant
            a@.len() == b@.len(),
            i <= a@.len(),
            forall|j: int| 0 <= j < i ==> a@[j]@ == b@[j]@,
        decreases a@.len() - i,
    {
        if !chars_eq(a[i].as_slice(), b[i].as_slice()) {
            proof {
                assert(name_views(a@)[i as int] != name_views(b@)[i as int]);
            }
            return false;
        }
        i = i + 1;
    }
    proof {
        assert(name_views(a@) =~= name_views(b@));
    }
    true
}

/// Record the module of `segments` under `root` unless the same segments
/// were seen before: each module is listed once, in the order first met.
pub fn record_module(
    seen: &mut Vec<Vec<Vec<char>>>,
    modules: &mut Vec<Vec<char>>,
    root: &[char],
    segments: Vec<Vec<char>>,
) -> (r: bool)
    ensures
        r == !seen_views(old(seen)@).contains(name_views(segments@)),
        r ==> seen_views(final(seen)@) == seen_views(old(seen)@).push(name_views(segments@)),
        r ==> name_views(final(modules)@) == name_views(old(modules)@).push(module_path_text(root@, name_views(segments@))),
        !r ==> final(seen)@ == old(seen)@,
        !r ==> final(modules)@ == old(modules)@,
{
    let ghost sv = seen_views(seen@);
    let mut i: usize = 0;
    while i < seen.len()
        invariant
            i <= seen@.len(),
            sv == seen_views(seen@),
            forall|j: int| 0 <= j < i ==> sv[j] != name_views(segments@),
        decreases seen@.len() - i,
    {
        if segments_eq(&seen[i], &segments) {
            proof {
                assert(sv[i as int] == name_views(segments@));
            }
            return false;
        }
        i = i + 1;
    }
    proof {
        assert(!sv.contains(name_views(segments@)));
    }
    let path = module_path_of(root, &segments);
    modules.push(path);
    seen.push(segments);
    proof {
        assert(seen_views(seen@) =~= sv.push(name_views(segments@)));
        assert(name_views(modules@) =~= name_views(old(modules)@).push(path@));
    }
    true
}


/// `base` is a leading part of `comps`, component by component.
pub open spec fn components_prefix(base: Seq<Seq<char>>, comps: Seq<Seq<char>>) -> bool {
    base.len() <= comps.len() && comps.take(base.len() as int) == base
}

/// The module segments of a `.dl` file, given the components of the base
/// directory, of the file's own directory and the file's stem (`None` where
/// it has none as text): the directories below the base, then the stem up to
/// its first `.`. `None` for a file that is not below the base.
pub open spec fn file_module_segments(base: Seq<Seq<char>>, parent: Seq<Seq<char>>, stem: Option<Seq<char>>) -> Option<Seq<Seq<char>>> {
    if components_prefix(base, parent) {
        match stem {
            Some(st) => Some(parent.skip(base.len() as int).push(first_piece(st))),
            None => None,
        }
    } else {
        None
    }
}

/// The module segments of the `.dl` file in the directory with components
/// `parent` and with stem `stem`, relative to the base directory with
/// components `base` (see `file_module_segments`).
pub fn file_to_module_segments(base: &Vec<Vec<char>>, parent: &Vec<Vec<char>>, stem: Option<&[char]>) -> (r: Option<Vec<Vec<char>>>)
    ensures
        match r {
            Some(v) => file_module_segments(name_views(base@), name_views(parent@), match stem {
                Some(st) => Some(st@),
                None => None,
            }) == Some(name_views(v@)),
            None => file_module_segments(name_views(base@), name_views(parent@), match stem {
                Some(st) => Some(st@),
                None => None,
            }) is None,
        },
{
    if base.len() > parent.len() {
        return None;
    }
    let mut i: usize = 0;
    while i < base.len()
        invariant
            i <= base@.len(),
            base@.len() <= parent@.len(),
            forall|j: int| 0 <= j < i ==> base@[j]@ == parent@[j]@,
        decreases base@.len() - i,
    {
        if !chars_eq(base[i].as_slice(), parent[i].as_slice()) {
            proof {
                assert(name_views(parent@).take(base@.len() as int)[i as int] == parent@[i as int]@);
                assert(name_views(base@)[i as int] == base@[i as int]@);
            }
            return None;
        }
        i = i + 1;
    }
    proof {
        assert(name_views(parent@).take(base@.len() as int) =~= name_views(base@));
    }
    let st = match stem {
        Some(st) => st,
        None => {
            return None;
        },
    };
    let mut dirs: Vec<Vec<char>> = Vec::new();
    let mut k: usize = base.len();
    while k < parent.len()
        invariant
            base@.len() <= k <= parent@.len(),
            name_views(dirs@) == name_views(parent@).subrange(base@.len() as int, k as int),
        decreases parent@.len() - k,
    {
        let ghost before = dirs@;
        dirs.push(copy_chars(parent[k].as_slice()));
        proof {
            assert(dirs@ == before.push(dirs@.last()));
            assert(name_views(dirs@) =~= name_views(before).push(parent@[k as int]@));
            assert(name_views(parent@).subrange(base@.len() as int, k + 1) =~= name_views(parent@).subrange(base@.len() as int, k as int).push(parent@[k as int]@));
        }
        k = k + 1;
    }
    let v = module_file_segments(&dirs, st);
    proof {
        assert(name_views(parent@).skip(base@.len() as int) =~= name_views(parent@).subrange(base@.len() as int, parent@.len() as int));
    }
    Some(v)
}

} // verus!
