//! The walk's decisions and the merging of what it found.
//!
//! The walk itself (directory enumeration, canonicalization, existence
//! checks) is done by the caller; every decision it needs is made here.
use vstd::prelude::*;

use crate::exclude::{any_glob_matches, excluded_by, ExcludePattern};
use crate::files::{strip_dot_prefix, without_dot};
use crate::path::{
    has_prefix, lemma_path_lt_irreflexive, lemma_sorted_insert, locate,
    path_lt, path_text, path_views, strictly_sorted, PathName,
};

verus! {

/// A discovered file, and whether it is excluded from the output.
#[derive(Clone, Debug, PartialEq, Eq, Hash)]
pub struct DiscoveredFile {
    pub path: PathName,
    pub excluded: bool,
}

impl DiscoveredFile {
    /// A copy of this entry.
    pub fn clone_entry(&self) -> (r: DiscoveredFile)
        ensures
            r.path@ == self.path@,
            r.excluded == self.excluded,
    {
        DiscoveredFile { path: self.path.duplicate(), excluded: self.excluded }
    }
}

/// Why discovery stopped.
#[derive(Debug)]
pub enum DiscoveryError {
    /// A supplied root path does not exist.
    MissingPath(PathName),
    /// Reading a directory failed during the walk.
    Walk(String),
}

impl DiscoveryError {
    /// A sentence for the user.
    pub fn message(&self) -> (r: String)
        ensures
            self matches DiscoveryError::MissingPath(p) ==> r@ == "Path '"@ + path_text(p@)
                + "' does not exist. If you're using a glob pattern like '*.go', note that this tool expects actual file or directory paths. Use the --exclude flag with glob patterns to filter files instead."@,
            self matches DiscoveryError::Walk(reason) ==> r@ == "Error reading file: "@ + reason@,
    {
        match self {
            DiscoveryError::MissingPath(path) => {
                let mut text = String::from_str("Path '");
                text.append(path.to_text().as_str());
                text.append(
                    "' does not exist. If you're using a glob pattern like '*.go', note that this tool expects actual file or directory paths. Use the --exclude flag with glob patterns to filter files instead.",
                );
                text
            },
            DiscoveryError::Walk(reason) => {
                let mut text = String::from_str("Error reading file: ");
                text.append(reason.as_str());
                text
            },
        }
    }
}

/// The first root, in the order given, that does not exist.
pub open spec fn first_missing(exists: Seq<bool>) -> Option<int>
    decreases exists.len(),
{
    if exists.len() == 0 {
        None
    } else {
        match first_missing(exists.drop_last()) {
            Some(i) => Some(i),
            None => if !exists.last() {
                Some(exists.len() - 1)
            } else {
                None
            },
        }
    }
}

proof fn lemma_first_missing(exists: Seq<bool>)
    ensures
        first_missing(exists) is None <==> forall|i: int| 0 <= i < exists.len() ==> #[trigger] exists[i],
        first_missing(exists) matches Some(k) ==> 0 <= k < exists.len() && !exists[k] && forall|i: int|
            0 <= i < k ==> #[trigger] exists[i],
    decreases exists.len(),
{
    if exists.len() > 0 {
        lemma_first_missing(exists.drop_last());
        assert forall|i: int| 0 <= i < exists.len() - 1 implies exists.drop_last()[i] == #[trigger] exists[i] by {}
    }
}

/// Checks, before anything is walked, that every root exists: the error
/// names the first root that does not.
pub fn check_roots(roots: &Vec<PathName>, exists: &Vec<bool>) -> (r: Result<(), DiscoveryError>)
    requires
        exists.len() == roots.len(),
    ensures
        r is Ok <==> forall|i: int| 0 <= i < exists.len() ==> #[trigger] exists@[i],
        r matches Err(e) ==> first_missing(exists@) matches Some(k) && e matches DiscoveryError::MissingPath(p)
            && p@ == roots@[k]@,
{
    proof {
        lemma_first_missing(exists@);
    }
    let mut i: usize = 0;
    while i < exists.len()
        invariant
            i <= exists.len() == roots.len(),
            forall|j: int| 0 <= j < i ==> #[trigger] exists@[j],
        decreases exists.len() - i,
    {
        if !exists[i] {
            proof {
                lemma_first_missing(exists@);
                assert(!exists@[i as int]);
                assert(first_missing(exists@) is Some);
                let k = first_missing(exists@)->0;
                if k < i {
                    assert(exists@[k]);
                } else if k > i {
                    assert(exists@[i as int]);
                }
            }
            return Err(DiscoveryError::MissingPath(roots[i].duplicate()));
        }
        i += 1;
    }
    Ok(())
}

/// The paths held by the entries that are present, in order.
pub open spec fn present_paths(v: Seq<Option<PathName>>) -> Seq<Seq<Seq<char>>>
    decreases v.len(),
{
    if v.len() == 0 {
        Seq::empty()
    } else {
        match v.last() {
            Some(p) => present_paths(v.drop_last()).push(p@),
            None => present_paths(v.drop_last()),
        }
    }
}

/// The paths that walked paths are matched relative to: the roots as given,
/// then the canonical form of each root that could be canonicalized.
pub fn match_bases(roots: &Vec<PathName>, canonical: &Vec<Option<PathName>>) -> (r: Vec<PathName>)
    ensures
        path_views(r@) == path_views(roots@) + present_paths(canonical@),
{
    let mut out: Vec<PathName> = Vec::new();
    let mut i: usize = 0;
    while i < roots.len()
        invariant
            i <= roots.len(),
            path_views(out@) == path_views(roots@).subrange(0, i as int),
        decreases roots.len() - i,
    {
        let p = roots[i].duplicate();
        let ghost before = out@;
        out.push(p);
        assert(path_views(out@) =~= path_views(before).push(p@));
        assert(path_views(roots@).subrange(0, i + 1) =~= path_views(roots@).subrange(0, i as int).push(roots@[i as int]@));
        i += 1;
    }
    assert(path_views(roots@).subrange(0, roots.len() as int) =~= path_views(roots@));
    let mut j: usize = 0;
    while j < canonical.len()
        invariant
            j <= canonical.len(),
            path_views(out@) == path_views(roots@) + present_paths(canonical@.subrange(0, j as int)),
        decreases canonical.len() - j,
    {
        assert(canonical@.subrange(0, j + 1).drop_last() =~= canonical@.subrange(0, j as int));
        match &canonical[j] {
            Some(c) => {
                let p = c.duplicate();
                let ghost before = out@;
                out.push(p);
                assert(path_views(out@) =~= path_views(before).push(p@));
                assert(path_views(out@) =~= path_views(roots@) + present_paths(canonical@.subrange(0, j + 1)));
            },
            None => {},
        }
        j += 1;
    }
    assert(canonical@.subrange(0, canonical.len() as int) =~= canonical@);
    out
}

/// The directory that bounds the upward search for `.promptignore` files of
/// a root: the root itself where it is a directory, else its parent.
pub fn promptignore_root(canonical: &PathName, is_dir: bool) -> (r: Option<PathName>)
    ensures
        is_dir ==> (r matches Some(p) && p@ == canonical@),
        !is_dir ==> (r is Some <==> (canonical@.len() > 0 && canonical@.last()
            != crate::path::root_part())),
        !is_dir ==> (r matches Some(p) ==> p@ == canonical@.drop_last()),
{
    if is_dir {
        Some(canonical.duplicate())
    } else {
        canonical.parent()
    }
}

/// The number of walker threads: the available parallelism, at least one
/// and at most twelve; one where it is unknown.
pub fn worker_count(available: Option<usize>) -> (r: usize)
    ensures
        available is None ==> r == 1,
        available matches Some(n) ==> r == if n < 1 {
            1
        } else if n > 12 {
            12
        } else {
            n
        },
{
    match available {
        None => 1,
        Some(n) => if n < 1 {
            1
        } else if n > 12 {
            12
        } else {
            n
        },
    }
}

/// How the walk is set up.
pub struct WalkSettings {
    /// Hidden entries are walked too.
    pub hidden: bool,
    /// The number of walker threads.
    pub threads: usize,
    /// Honor `.gitignore` files.
    pub git_ignore: bool,
    /// Honor the global git ignore file.
    pub git_global: bool,
    /// Honor `.git/info/exclude`.
    pub git_exclude: bool,
}

/// The walk's settings: hidden entries included, and the version-control
/// ignore rules honored unless ignored files are asked for.
pub fn walk_settings(include_vcs_ignored: bool, available: Option<usize>) -> (r: WalkSettings)
    ensures
        r.hidden,
        r.git_ignore == !include_vcs_ignored,
        r.git_global == !include_vcs_ignored,
        r.git_exclude == !include_vcs_ignored,
        1 <= r.threads <= 12,
        available matches Some(n) ==> (1 <= n <= 12 ==> r.threads == n),
{
    WalkSettings {
        hidden: true,
        threads: worker_count(available),
        git_ignore: !include_vcs_ignored,
        git_global: !include_vcs_ignored,
        git_exclude: !include_vcs_ignored,
    }
}

/// The fragment of `p` that exclude globs are matched against: `p` with the
/// first base that it begins with taken off, or `p` itself where none
/// does; then without a leading `.`.
pub open spec fn match_fragment(p: Seq<Seq<char>>, bases: Seq<Seq<Seq<char>>>) -> Seq<Seq<char>>
    decreases bases.len(),
{
    if bases.len() == 0 {
        without_dot(p)
    } else if has_prefix(p, bases[0]) {
        without_dot(p.subrange(bases[0].len() as int, p.len() as int))
    } else {
        match_fragment(p, bases.drop_first())
    }
}

/// The fragment of `path` that exclude globs are matched against.
pub fn relativize_for_match(path: &PathName, bases: &Vec<PathName>) -> (r: PathName)
    ensures
        r@ == match_fragment(path@, path_views(bases@)),
{
    let mut i: usize = 0;
    assert(path_views(bases@).subrange(0, bases.len() as int) =~= path_views(bases@));
    while i < bases.len()
        invariant
            i <= bases.len(),
            match_fragment(path@, path_views(bases@)) == match_fragment(
                path@,
                path_views(bases@).subrange(i as int, bases.len() as int),
            ),
        decreases bases.len() - i,
    {
        let ghost rest = path_views(bases@).subrange(i as int, bases.len() as int);
        assert(rest[0] == bases@[i as int]@);
        match path.strip_prefix(&bases[i]) {
            Some(stripped) => {
                return strip_dot_prefix(&stripped);
            },
            None => {},
        }
        assert(rest.drop_first() =~= path_views(bases@).subrange(i + 1, bases.len() as int));
        i += 1;
    }
    assert(path_views(bases@).subrange(bases.len() as int, bases.len() as int) =~= Seq::<
        Seq<Seq<char>>,
    >::empty());
    strip_dot_prefix(path)
}

/// What the walk found at a path.
#[derive(Clone, Copy, Debug, PartialEq, Eq, Structural)]
pub enum EntryKind {
    Directory,
    Symlink,
    File,
}

/// What the walk does with an entry.
#[derive(Debug)]
pub enum WalkStep {
    /// Walk into the directory.
    Descend,
    /// Do not record the entry, nor walk into it.
    Skip,
    /// Record the file.
    Record(DiscoveredFile),
}

/// The name of the version-control directory.
pub open spec fn git_part() -> Seq<char> {
    seq!['.', 'g', 'i', 't']
}

fn is_git_part(s: &String) -> (r: bool)
    ensures
        r == (s@ == git_part()),
{
    let t = s.as_str();
    if t.unicode_len() != 4 {
        return false;
    }
    let r = t.get_char(0) == '.' && t.get_char(1) == 'g' && t.get_char(2) == 'i' && t.get_char(3)
        == 't';
    if r {
        assert(s@ =~= git_part());
    }
    r
}

/// Whether some component of the path is `.git`.
pub fn has_git_part(path: &PathName) -> (r: bool)
    ensures
        r == path@.contains(git_part()),
{
    let mut i: usize = 0;
    while i < path.parts.len()
        invariant
            i <= path.parts.len(),
            forall|j: int| 0 <= j < i ==> path@[j] != git_part(),
        decreases path.parts.len() - i,
    {
        if is_git_part(&path.parts[i]) {
            assert(path@[i as int] == git_part());
            return true;
        }
        i += 1;
    }
    false
}

/// The record of a walked file: its path without a leading `./`, excluded
/// where an exclude glob matches its match fragment.
pub open spec fn recorded(
    path: Seq<Seq<char>>,
    bases: Seq<Seq<Seq<char>>>,
    excludes: Seq<ExcludePattern>,
    f: DiscoveredFile,
) -> bool {
    &&& f.path@ == without_dot(path)
    &&& f.excluded == any_glob_matches(excludes, path_text(match_fragment(path, bases)))
}

/// Decides what the walk does with an entry: a directory named `.git`
/// anywhere in its path is pruned, other directories are walked into,
/// symbolic links are skipped, and every other file is recorded.
pub fn visit_entry(
    kind: EntryKind,
    path: &PathName,
    bases: &Vec<PathName>,
    excludes: &Vec<ExcludePattern>,
) -> (r: WalkStep)
    ensures
        kind == EntryKind::Directory ==> (if path@.contains(git_part()) {
            r is Skip
        } else {
            r is Descend
        }),
        kind == EntryKind::Symlink ==> r is Skip,
        kind == EntryKind::File ==> (r matches WalkStep::Record(f) && recorded(
            path@,
            path_views(bases@),
            excludes@,
            f,
        )),
{
    match kind {
        EntryKind::Directory => {
            if has_git_part(path) {
                WalkStep::Skip
            } else {
                WalkStep::Descend
            }
        },
        EntryKind::Symlink => WalkStep::Skip,
        EntryKind::File => {
            let fragment = relativize_for_match(path, bases);
            let text = fragment.to_text();
            let excluded = excluded_by(excludes, text.as_str());
            WalkStep::Record(DiscoveredFile { path: strip_dot_prefix(path), excluded })
        },
    }
}

/// The paths of a list of discovered files.
pub open spec fn file_paths(v: Seq<DiscoveredFile>) -> Seq<Seq<Seq<char>>> {
    v.map_values(|f: DiscoveredFile| f.path@)
}

/// Some entry of `found` has the path `p`.
pub open spec fn found_path(found: Seq<DiscoveredFile>, p: Seq<Seq<char>>) -> bool {
    exists|j: int| 0 <= j < found.len() && (#[trigger] found[j]).path@ == p
}

/// Some entry of `found` with the path `p` is excluded.
pub open spec fn found_excluded(found: Seq<DiscoveredFile>, p: Seq<Seq<char>>) -> bool {
    exists|j: int| 0 <= j < found.len() && (#[trigger] found[j]).path@ == p && found[j].excluded
}

/// `merged` holds one entry per path of `found`, sorted by path, each
/// excluded where some entry of `found` with its path is.
pub open spec fn is_merge_of(merged: Seq<DiscoveredFile>, found: Seq<DiscoveredFile>) -> bool {
    &&& strictly_sorted(file_paths(merged))
    &&& forall|i: int| 0 <= i < merged.len() ==> found_path(found, (#[trigger] merged[i]).path@)
    &&& forall|j: int| 0 <= j < found.len() ==> found_path(merged, (#[trigger] found[j]).path@)
    &&& forall|i: int|
        0 <= i < merged.len() ==> (#[trigger] merged[i]).excluded == found_excluded(
            found,
            merged[i].path@,
        )
}

/// Merges what the walk recorded into one entry per path, sorted by path.
///
/// The same file can be recorded twice when roots overlap, with a
/// different verdict from each root's excludes; the merged entry is
/// excluded when any of its records is.
pub fn merge_discovered(found: &Vec<DiscoveredFile>) -> (r: Vec<DiscoveredFile>)
    ensures
        is_merge_of(r@, found@),
{
    let mut paths: Vec<PathName> = Vec::new();
    let mut flags: Vec<bool> = Vec::new();
    let mut j: usize = 0;
    while j < found.len()
        invariant
            j <= found.len(),
            paths.len() == flags.len(),
            strictly_sorted(path_views(paths@)),
            forall|i: int| 0 <= i < paths.len() ==> found_path(found@.subrange(0, j as int), (#[trigger] paths@[i])@),
            forall|k: int| 0 <= k < j ==> exists|i: int|
                0 <= i < paths.len() && (#[trigger] paths@[i])@ == (#[trigger] found@[k]).path@,
            forall|i: int|
                0 <= i < paths.len() ==> #[trigger] flags@[i] == found_excluded(
                    found@.subrange(0, j as int),
                    paths@[i]@,
                ),
        decreases found.len() - j,
    {
        let ghost old_paths = paths@;
        let ghost old_flags = flags@;
        let ghost seen = found@.subrange(0, j as int);
        let ghost next = found@.subrange(0, j + 1);
        let f = &found[j];
        assert(next[j as int] == *f);
        assert forall|p: Seq<Seq<char>>| found_path(seen, p) implies found_path(next, p) by {
            let k = choose|k: int| 0 <= k < seen.len() && (#[trigger] seen[k]).path@ == p;
            assert(next[k] == seen[k]);
        }
        assert forall|p: Seq<Seq<char>>| p != f.path@ implies found_excluded(next, p)
            == found_excluded(seen, p) by {
            if found_excluded(next, p) {
                let k = choose|k: int| 0 <= k < next.len() && (#[trigger] next[k]).path@ == p && next[k].excluded;
                assert(seen[k] == next[k]);
            }
            if found_excluded(seen, p) {
                let k = choose|k: int| 0 <= k < seen.len() && (#[trigger] seen[k]).path@ == p && seen[k].excluded;
                assert(seen[k] == next[k]);
            }
        }
        assert(found_excluded(next, f.path@) == (found_excluded(seen, f.path@) || f.excluded)) by {
            if found_excluded(next, f.path@) && !f.excluded {
                let k = choose|k: int| 0 <= k < next.len() && (#[trigger] next[k]).path@ == f.path@ && next[k].excluded;
                assert(k != j);
                assert(seen[k] == next[k]);
            }
            if found_excluded(seen, f.path@) {
                let k = choose|k: int| 0 <= k < seen.len() && (#[trigger] seen[k]).path@ == f.path@ && seen[k].excluded;
                assert(seen[k] == next[k]);
            }
        }
        match locate(&paths, &f.path) {
            Ok(k) => {
                proof {
                    assert forall|i: int| 0 <= i < paths.len() && i != k implies paths@[i]@ != f.path@ by {
                        assert(path_views(paths@)[i] == paths@[i]@);
                        assert(path_views(paths@)[k as int] == paths@[k as int]@);
                        if i < k {
                            assert(path_lt(path_views(paths@)[i], path_views(paths@)[k as int]));
                        } else {
                            assert(path_lt(path_views(paths@)[k as int], path_views(paths@)[i]));
                        }
                        lemma_path_lt_irreflexive(paths@[i]@);
                    }
                }
                let merged = flags[k] || f.excluded;
                flags.set(k, merged);
                proof {
                    assert forall|i: int| 0 <= i < paths.len() implies #[trigger] flags@[i]
                        == found_excluded(next, paths@[i]@) by {
                        if i != k {
                            assert(flags@[i] == old_flags[i]);
                        }
                    }
                    assert forall|m: int| 0 <= m < j + 1 implies exists|i: int|
                        0 <= i < paths.len() && (#[trigger] paths@[i])@ == (#[trigger] found@[m]).path@ by {
                        if m == j {
                            assert(paths@[k as int]@ == found@[m].path@);
                        }
                    }
                }
            },
            Err(k) => {
                let p = f.path.duplicate();
                proof {
                    assert forall|i: int| 0 <= i < k implies path_lt(#[trigger] path_views(paths@)[i], p@) by {
                        assert(path_views(paths@)[i] == paths@[i]@);
                    }
                    assert forall|i: int| k <= i < path_views(paths@).len() implies path_lt(p@, #[trigger] path_views(paths@)[i]) by {
                        assert(path_views(paths@)[i] == paths@[i]@);
                    }
                    lemma_sorted_insert(path_views(paths@), k as int, p@);
                    assert(path_views(paths@).insert(k as int, p@) =~= path_views(paths@.insert(k as int, p)));
                    assert forall|i: int| 0 <= i < paths.len() implies paths@[i]@ != f.path@ by {
                        lemma_path_lt_irreflexive(paths@[i]@);
                    }
                    assert(!found_excluded(seen, f.path@)) by {
                        if found_excluded(seen, f.path@) {
                            let m = choose|m: int| 0 <= m < seen.len() && (#[trigger] seen[m]).path@ == f.path@ && seen[m].excluded;
                            assert(seen[m] == found@[m]);
                            let i = choose|i: int| 0 <= i < old_paths.len() && (#[trigger] old_paths[i])@ == (#[trigger] found@[m]).path@;
                        }
                    }
                }
                paths.insert(k, p);
                flags.insert(k, f.excluded);
                proof {
                    assert forall|i: int| 0 <= i < paths.len() implies #[trigger] flags@[i]
                        == found_excluded(next, paths@[i]@) && found_path(next, paths@[i]@) by {
                        if i < k {
                            assert(paths@[i] == old_paths[i] && flags@[i] == old_flags[i]);
                        } else if i == k {
                            assert(next[j as int].path@ == f.path@);
                        } else {
                            assert(paths@[i] == old_paths[i - 1] && flags@[i] == old_flags[i - 1]);
                        }
                    }
                    assert forall|m: int| 0 <= m < j + 1 implies exists|i: int|
                        0 <= i < paths.len() && (#[trigger] paths@[i])@ == (#[trigger] found@[m]).path@ by {
                        if m == j {
                            assert(paths@[k as int]@ == found@[m].path@);
                        } else {
                            let i = choose|i: int| 0 <= i < old_paths.len() && (#[trigger] old_paths[i])@ == (#[trigger] found@[m]).path@;
                            if i < k {
                                assert(paths@[i] == old_paths[i]);
                            } else {
                                assert(paths@[i + 1] == old_paths[i]);
                            }
                        }
                    }
                }
            },
        }
        assert forall|i: int| 0 <= i < paths.len() implies found_path(next, (#[trigger] paths@[i])@) by {
            if paths@[i]@ == f.path@ {
                assert(next[j as int].path@ == f.path@);
            }
        }
        j += 1;
    }
    assert(found@.subrange(0, found.len() as int) =~= found@);
    let mut out: Vec<DiscoveredFile> = Vec::new();
    let mut i: usize = 0;
    let n = paths.len();
    while i < n
        invariant
            i <= n == paths.len() == flags.len(),
            out.len() == i,
            forall|m: int| 0 <= m < i ==> (#[trigger] out@[m]).path@ == paths@[m]@ && out@[m].excluded == flags@[m],
        decreases n - i,
    {
        out.push(DiscoveredFile { path: paths[i].duplicate(), excluded: flags[i] });
        i += 1;
    }
    assert(file_paths(out@) =~= path_views(paths@));
    assert forall|m: int| 0 <= m < found.len() implies found_path(out@, (#[trigger] found@[m]).path@) by {
        let i = choose|i: int| 0 <= i < paths.len() && (#[trigger] paths@[i])@ == (#[trigger] found@[m]).path@;
        assert(out@[i].path@ == paths@[i]@);
    }
    assert forall|i: int| 0 <= i < out.len() implies found_path(found@, (#[trigger] out@[i]).path@) && out@[i].excluded == found_excluded(found@, out@[i].path@) by {
        assert(out@[i].path@ == paths@[i]@);
    }
    out
}

/// Two lists hold the same records: the same paths, each with the same
/// exclusion verdicts, in any order and with any repetition.
pub open spec fn same_records(a: Seq<DiscoveredFile>, b: Seq<DiscoveredFile>) -> bool {
    &&& forall|p: Seq<Seq<char>>| found_path(a, p) <==> found_path(b, p)
    &&& forall|p: Seq<Seq<char>>| found_excluded(a, p) <==> found_excluded(b, p)
}

/// Two strictly sorted lists with the same elements are the same list.
pub proof fn lemma_sorted_same_elements(a: Seq<Seq<Seq<char>>>, b: Seq<Seq<Seq<char>>>)
    requires
        strictly_sorted(a),
        strictly_sorted(b),
        forall|x: Seq<Seq<char>>| a.contains(x) <==> b.contains(x),
    ensures
        a == b,
    decreases a.len(),
{
    if a.len() == 0 {
        if b.len() > 0 {
            assert(b.contains(b[0]));
        }
        assert(a =~= b);
    } else {
        assert(a.contains(a[0]));
        assert(b.len() > 0);
        assert(b.contains(b[0]));
        let ia = choose|k: int| 0 <= k < b.len() && b[k] == a[0];
        let ib = choose|k: int| 0 <= k < a.len() && a[k] == b[0];
        if a[0] != b[0] {
            assert(ia > 0 && ib > 0);
            assert(path_lt(b[0], b[ia]));
            assert(path_lt(a[0], a[ib]));
            crate::path::lemma_path_lt_asymmetric(b[0], a[0]);
        }
        let ra = a.drop_first();
        let rb = b.drop_first();
        assert forall|x: Seq<Seq<char>>| ra.contains(x) <==> rb.contains(x) by {
            if ra.contains(x) {
                let k = choose|k: int| 0 <= k < ra.len() && ra[k] == x;
                assert(a[k + 1] == x);
                assert(path_lt(a[0], a[k + 1]));
                lemma_path_lt_irreflexive(x);
                assert(b.contains(x));
                let m = choose|m: int| 0 <= m < b.len() && b[m] == x;
                assert(m != 0);
                assert(rb[m - 1] == x);
            }
            if rb.contains(x) {
                let k = choose|k: int| 0 <= k < rb.len() && rb[k] == x;
                assert(b[k + 1] == x);
                assert(path_lt(b[0], b[k + 1]));
                lemma_path_lt_irreflexive(x);
                assert(a.contains(x));
                let m = choose|m: int| 0 <= m < a.len() && a[m] == x;
                assert(m != 0);
                assert(ra[m - 1] == x);
            }
        }
        assert forall|i: int, j: int| 0 <= i < j < ra.len() implies path_lt(#[trigger] ra[i], #[trigger] ra[j]) by {
            assert(path_lt(a[i + 1], a[j + 1]));
        }
        assert forall|i: int, j: int| 0 <= i < j < rb.len() implies path_lt(#[trigger] rb[i], #[trigger] rb[j]) by {
            assert(path_lt(b[i + 1], b[j + 1]));
        }
        lemma_sorted_same_elements(ra, rb);
        assert(a =~= seq![a[0]] + ra);
        assert(b =~= seq![b[0]] + rb);
    }
}

/// Merging does not depend on the order in which the walk recorded its
/// files, nor on repeated records: two walks that record the same files
/// with the same verdicts merge into the same list.
pub proof fn merge_is_order_independent(
    found1: Seq<DiscoveredFile>,
    found2: Seq<DiscoveredFile>,
    merged1: Seq<DiscoveredFile>,
    merged2: Seq<DiscoveredFile>,
)
    requires
        same_records(found1, found2),
        is_merge_of(merged1, found1),
        is_merge_of(merged2, found2),
    ensures
        file_paths(merged1) == file_paths(merged2),
        forall|i: int| 0 <= i < merged1.len() ==> (#[trigger] merged1[i]).excluded == merged2[i].excluded,
{
    let a = file_paths(merged1);
    let b = file_paths(merged2);
    assert forall|x: Seq<Seq<char>>| a.contains(x) <==> b.contains(x) by {
        if a.contains(x) {
            let i = choose|i: int| 0 <= i < a.len() && a[i] == x;
            assert(merged1[i].path@ == x);
            assert(found_path(found1, x));
            assert(found_path(found2, x));
            let j = choose|j: int| 0 <= j < found2.len() && (#[trigger] found2[j]).path@ == x;
            assert(found_path(merged2, found2[j].path@));
            let k = choose|k: int| 0 <= k < merged2.len() && (#[trigger] merged2[k]).path@ == x;
            assert(b[k] == x);
        }
        if b.contains(x) {
            let i = choose|i: int| 0 <= i < b.len() && b[i] == x;
            assert(merged2[i].path@ == x);
            assert(found_path(found2, x));
            assert(found_path(found1, x));
            let j = choose|j: int| 0 <= j < found1.len() && (#[trigger] found1[j]).path@ == x;
            assert(found_path(merged1, found1[j].path@));
            let k = choose|k: int| 0 <= k < merged1.len() && (#[trigger] merged1[k]).path@ == x;
            assert(a[k] == x);
        }
    }
    lemma_sorted_same_elements(a, b);
    assert forall|i: int| 0 <= i < merged1.len() implies (#[trigger] merged1[i]).excluded == merged2[i].excluded by {
        assert(a[i] == b[i]);
        assert(merged1[i].path@ == merged2[i].path@);
    }
}

} // verus!
