use vstd::prelude::*;

use crate::load::context::{char_views, path_module_segments, path_root, split_on};
use crate::load::fetch::FetchError;
use crate::load::registry::{join_chars, join_with};
use crate::model::assoc::{assoc_first, assoc_position, assoc_put, keys_unique};
use crate::model::symbol::{chars_eq, copy_chars, push_chars, str_chars};
use crate::model::Symbol;

verus! {

/// Where module files are read from: a source directory for each project
/// root, and the roots whose modules may use `builtin` (the standard
/// library's). A module path's segments but the last name directories under
/// its root's directory; the last names the files `<segment>.dl` or
/// `<segment>.<any>.dl`.
pub struct DiskFetcher {
    /// Root name and directory, one entry per root.
    pub roots: Vec<(Symbol, Vec<char>)>,
    /// Roots where `builtin` is allowed, each once.
    pub builtin_roots: Vec<Symbol>,
}

/// Where `fetch` looks for a module: the root's directory, the directories
/// under it, the module's own name, and whether `builtin` is allowed.
pub struct FetchPlan {
    pub base: Vec<char>,
    pub dirs: Vec<Vec<char>>,
    pub module_name: Vec<char>,
    pub allow_builtin: bool,
}

pub open spec fn names_unique(s: Seq<Symbol>) -> bool {
    forall|a: int, b: int| 0 <= a < b < s.len() ==> s[a]@ != s[b]@
}

impl DiskFetcher {
    pub open spec fn wf(&self) -> bool {
        &&& keys_unique(self.roots@)
        &&& names_unique(self.builtin_roots@)
    }

    /// The directory of root `name`, if it has one.
    pub open spec fn root_dir(&self, name: Seq<char>) -> Option<Seq<char>> {
        match assoc_first(self.roots@, name) {
            Some(p) => Some(p@),
            None => None,
        }
    }

    /// Whether modules of root `name` may use `builtin`.
    pub open spec fn allows_builtin(&self, name: Seq<char>) -> bool {
        exists|i: int| 0 <= i < self.builtin_roots@.len() && self.builtin_roots@[i]@ == name
    }

    /// A fetcher with no roots.
    pub fn new() -> (r: DiskFetcher)
        ensures
            r.wf(),
            r.roots@.len() == 0,
            r.builtin_roots@.len() == 0,
    {
        DiskFetcher { roots: Vec::new(), builtin_roots: Vec::new() }
    }

    /// Read the modules of root `name` from the directory `path` (replacing
    /// any directory given before).
    pub fn add_root(&mut self, name: &[char], path: Vec<char>)
        requires
            old(self).wf(),
        ensures
            final(self).wf(),
            forall|k: Seq<char>| #[trigger] final(self).root_dir(k) == if k == name@ {
                Some(path@)
            } else {
                old(self).root_dir(k)
            },
            final(self).builtin_roots == old(self).builtin_roots,
    {
        let ghost pv = path@;
        assoc_put(&mut self.roots, Symbol { chars: copy_chars(name) }, path);
        assert forall|k: Seq<char>| #[trigger] self.root_dir(k) == if k == name@ {
            Some(pv)
        } else {
            old(self).root_dir(k)
        } by {
            let a = assoc_first(self.roots@, k);
        }
    }

    /// Allow `builtin` in the modules of root `name`.
    pub fn set_allow_builtin(&mut self, name: &[char])
        requires
            old(self).wf(),
        ensures
            final(self).wf(),
            forall|k: Seq<char>| #[trigger] final(self).allows_builtin(k) == (k == name@ || old(self).allows_builtin(k)),
            final(self).roots == old(self).roots,
    {
        let mut i: usize = 0;
        while i < self.builtin_roots.len()
            invariant
                *self == *old(self),
                old(self).wf(),
                i <= self.builtin_roots@.len(),
                forall|j: int| 0 <= j < i ==> self.builtin_roots@[j]@ != name@,
            decreases self.builtin_roots@.len() - i,
        {
            if chars_eq(self.builtin_roots[i].as_str(), name) {
                assert forall|k: Seq<char>| #[trigger] self.allows_builtin(k) == (k == name@ || old(self).allows_builtin(k)) by {
                    if k == name@ {
                        assert(self.builtin_roots@[i as int]@ == k);
                    }
                }
                return;
            }
            i = i + 1;
        }
        let ghost before = self.builtin_roots@;
        self.builtin_roots.push(Symbol { chars: copy_chars(name) });
        assert forall|k: Seq<char>| #[trigger] self.allows_builtin(k) == (k == name@ || old(self).allows_builtin(k)) by {
            if k == name@ {
                assert(self.builtin_roots@[before.len() as int]@ == k);
            }
            if old(self).allows_builtin(k) {
                let j = choose|j: int| 0 <= j < before.len() && before[j]@ == k;
                assert(self.builtin_roots@[j] == before[j]);
            }
            if self.allows_builtin(k) && k != name@ {
                let j = choose|j: int| 0 <= j < self.builtin_roots@.len() && self.builtin_roots@[j]@ == k;
                assert(j < before.len());
                assert(self.builtin_roots@[j] == before[j]);
            }
        }
        assert(names_unique(self.builtin_roots@)) by {
            assert forall|a: int, b: int| 0 <= a < b < self.builtin_roots@.len() implies self.builtin_roots@[a]@
                != self.builtin_roots@[b]@ by {
                assert(self.builtin_roots@[a] == before[a]);
                if b < before.len() {
                    assert(self.builtin_roots@[b] == before[b]);
                }
            }
        }
    }

    /// Where the module at the dotted `path` is read from: an error for a
    /// root without a directory, or for a path of the root alone.
    pub fn locate(&self, path: &[char]) -> (r: Result<FetchPlan, FetchError>)
        ensures
            ({
                let root = split_on(path@, '.')[0];
                let segs = split_on(path@, '.').drop_first();
                match r {
                    Ok(p) => {
                        &&& self.root_dir(root) == Some(p.base@)
                        &&& segs.len() > 0
                        &&& char_views(p.dirs@) == segs.drop_last()
                        &&& p.module_name@ == segs.last()
                        &&& p.allow_builtin == self.allows_builtin(root)
                    },
                    Err(e) => if self.root_dir(root) is None {
                        e.message@ == "unknown project root: '"@ + root + "'"@
                    } else {
                        segs.len() == 0 && e.message@ == "empty module path"@
                    },
                }
            }),
    {
        let root = path_root(path);
        let mut segments = path_module_segments(path);
        let base = match assoc_position(self.roots.as_slice(), root.as_slice()) {
            Some(i) => copy_chars(self.roots[i].1.as_slice()),
            None => {
                let mut m = str_chars("unknown project root: '");
                push_chars(&mut m, root.as_slice());
                let tail = str_chars("'");
                push_chars(&mut m, tail.as_slice());
                return Err(FetchError { message: m });
            },
        };
        if segments.len() == 0 {
            return Err(FetchError { message: str_chars("empty module path") });
        }
        let ghost sv = char_views(segments@);
        let module_name = segments.pop().unwrap();
        proof {
            assert(char_views(segments@) =~= sv.drop_last());
        }
        let mut allow_builtin = false;
        let mut i: usize = 0;
        while i < self.builtin_roots.len()
            invariant
                i <= self.builtin_roots@.len(),
                allow_builtin == exists|j: int| 0 <= j < i && self.builtin_roots@[j]@ == root@,
            decreases self.builtin_roots@.len() - i,
        {
            if chars_eq(self.builtin_roots[i].as_str(), root.as_slice()) {
                allow_builtin = true;
            }
            i = i + 1;
        }
        Ok(FetchPlan { base, dirs: segments, module_name, allow_builtin })
    }
}

/// Whether a file stem belongs to module `name`: `name` itself, or `name.` and more.
pub open spec fn stem_of_module(stem: Seq<char>, name: Seq<char>) -> bool {
    stem == name || (stem.len() > name.len() && stem.take(name.len() as int) == name && stem[name.len() as int] == '.')
}

/// `stem_of_module`, computed.
pub fn stem_matches(stem: &[char], name: &[char]) -> (r: bool)
    ensures
        r == stem_of_module(stem@, name@),
{
    if chars_eq(stem, name) {
        return true;
    }
    if stem.len() <= name.len() {
        return false;
    }
    let mut i: usize = 0;
    while i < name.len()
        invariant
            name@.len() < stem@.len(),
            i <= name@.len(),
            forall|j: int| 0 <= j < i ==> stem@[j] == name@[j],
        decreases name@.len() - i,
    {
        if stem[i] != name[i] {
            proof {
                assert(stem@.take(name@.len() as int)[i as int] != name@[i as int]);
            }
            return false;
        }
        i = i + 1;
    }
    proof {
        assert(stem@.take(name@.len() as int) =~= name@);
    }
    stem[name.len()] == '.'
}

/// The message when no file of a module was found: the module's segments,
/// the directory searched (as shown to the user) and the root's directory.
pub fn not_found_message(segments: &Vec<Vec<char>>, dir: &[char], module_name: &[char], base: &[char]) -> (r: Vec<char>)
    ensures
        r@ == "module not found: '"@ + join_with(char_views(segments@), '.') + "' (looked for "@ + dir@ + "/"@
            + module_name@ + ".dl in "@ + base@ + ")"@,
{
    let mut m = str_chars("module not found: '");
    let joined = join_chars(segments.as_slice(), '.');
    proof {
        assert(segments@.map_values(|s: Vec<char>| s@) =~= char_views(segments@));
    }
    push_chars(&mut m, joined.as_slice());
    let a = str_chars("' (looked for ");
    push_chars(&mut m, a.as_slice());
    push_chars(&mut m, dir);
    let b = str_chars("/");
    push_chars(&mut m, b.as_slice());
    push_chars(&mut m, module_name);
    let c = str_chars(".dl in ");
    push_chars(&mut m, c.as_slice());
    push_chars(&mut m, base);
    let d = str_chars(")");
    push_chars(&mut m, d.as_slice());
    m
}


/// The positions, in order, of the directory entries that are files of the
/// module `name`: `.dl` files (those with a stem here) whose stem is the name
/// or starts with the name and a `.` (see `stem_of_module`).
pub open spec fn module_file_positions(stems: Seq<Option<Vec<char>>>, name: Seq<char>) -> Seq<usize>
    decreases stems.len(),
{
    if stems.len() == 0 {
        Seq::empty()
    } else {
        let rest = module_file_positions(stems.drop_last(), name);
        match stems.last() {
            Some(st) => if stem_of_module(st@, name) {
                rest.push((stems.len() - 1) as usize)
            } else {
                rest
            },
            None => rest,
        }
    }
}

/// Pick the files of the module `module_name` from a directory listing,
/// given as the stem of each entry that is a `.dl` file (`None` for other
/// entries): their positions in the listing (see `module_file_positions`).
pub fn select_module_files(dl_stems: &Vec<Option<Vec<char>>>, module_name: &[char]) -> (r: Vec<usize>)
    ensures
        r@ == module_file_positions(dl_stems@, module_name@),
{
    let mut out: Vec<usize> = Vec::new();
    let mut k: usize = 0;
    while k < dl_stems.len()
        invariant
            k <= dl_stems@.len(),
            out@ == module_file_positions(dl_stems@.take(k as int), module_name@),
        decreases dl_stems@.len() - k,
    {
        proof {
            assert(dl_stems@.take(k + 1).drop_last() =~= dl_stems@.take(k as int));
            assert(dl_stems@.take(k + 1).last() == dl_stems@[k as int]);
        }
        match &dl_stems[k] {
            Some(st) => {
                if stem_matches(st.as_slice(), module_name) {
                    out.push(k);
                }
            },
            None => {},
        }
        k = k + 1;
    }
    proof {
        assert(dl_stems@.take(dl_stems@.len() as int) =~= dl_stems@);
    }
    out
}

} // verus!
