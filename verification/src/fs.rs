//! Filesystem snapshots.
//!
//! The library never touches the filesystem. A caller walks the content
//! tree once and hands over an [`Fs`]: every regular file strictly under the
//! root, as a root-relative [`IPath`] plus its content bytes. Directories
//! are implied: a path is a directory in the snapshot exactly when some file
//! lies strictly under it (a directory that holds no files is
//! indistinguishable from an absent one). All queries here are pure
//! computations over the snapshot, so their results are deterministic for a
//! fixed snapshot.

use vstd::prelude::*;

use crate::path::spec_path_id;
use crate::path::IPath;
use crate::path::path_id;

verus! {

/// The views of a sequence of paths.
pub open spec fn ipath_views(s: Seq<IPath>) -> Seq<Seq<Seq<u8>>> {
    Seq::new(s.len(), |i: int| s[i]@)
}

/// Whether `d` is a strict (proper) prefix of `f`.
pub open spec fn strict_prefix(d: Seq<Seq<u8>>, f: Seq<Seq<u8>>) -> bool {
    d.len() < f.len() && d.is_prefix_of(f)
}

/// A snapshot of a content tree: each regular file strictly under the root,
/// as a root-relative path and its content bytes.
pub struct Fs {
    pub files: Vec<(IPath, String)>,
}

/// The views of a list of files: each path view paired with its content view.
pub open spec fn files_view(s: Seq<(IPath, String)>) -> Seq<(Seq<Seq<u8>>, Seq<char>)> {
    Seq::new(s.len(), |i: int| (s[i].0@, s[i].1@))
}

impl View for Fs {
    type V = Seq<(Seq<Seq<u8>>, Seq<char>)>;

    open spec fn view(&self) -> Seq<(Seq<Seq<u8>>, Seq<char>)> {
        files_view(self.files@)
    }
}

/// The file paths of a snapshot, in snapshot order.
pub open spec fn snapshot_paths(fsv: Seq<(Seq<Seq<u8>>, Seq<char>)>) -> Seq<Seq<Seq<u8>>> {
    Seq::new(fsv.len(), |i: int| fsv[i].0)
}

/// A well-formed snapshot: every file lies strictly under the root, every
/// segment is non-empty, and no file path is a prefix of another (so no two
/// are equal, and nothing is both a file and a directory).
pub open spec fn snapshot_wf(fsv: Seq<(Seq<Seq<u8>>, Seq<char>)>) -> bool {
    &&& forall|i: int| 0 <= i < fsv.len() ==> (#[trigger] fsv[i].0).len() > 0
    &&& forall|i: int, k: int|
        0 <= i < fsv.len() && 0 <= k < fsv[i].0.len() ==> (#[trigger] fsv[i].0[k]).len() > 0
    &&& forall|i: int, j: int|
        0 <= i < fsv.len() && 0 <= j < fsv.len() && i != j ==> !(#[trigger] fsv[i].0.is_prefix_of(
            fsv[j].0,
        ))
}

/// Whether `d` is a directory of the snapshot: some file lies strictly under it.
pub open spec fn spec_is_dir(paths: Seq<Seq<Seq<u8>>>, d: Seq<Seq<u8>>) -> bool {
    exists|i: int| 0 <= i < paths.len() && strict_prefix(d, #[trigger] paths[i])
}

/// Whether `a` is a (not necessarily strict) prefix of `b`.
pub fn is_prefix(a: &IPath, b: &IPath) -> (r: bool)
    ensures
        r == a@.is_prefix_of(b@),
{
    if a.segs.len() > b.segs.len() {
        return false;
    }
    let mut i: usize = 0;
    while i < a.segs.len()
        invariant
            i <= a.segs@.len(),
            a@.len() <= b@.len(),
            a.segs@.len() == a@.len(),
            b.segs@.len() == b@.len(),
            forall|j: int| 0 <= j < i ==> a@[j] == b@[j],
        decreases a.segs@.len() - i,
    {
        if !crate::bytes_eq(a.segs[i].as_slice(), b.segs[i].as_slice()) {
            proof {
                assert(a@[i as int] != b@[i as int]);
                assert(!a@.is_prefix_of(b@)) by {
                    if a@.is_prefix_of(b@) {
                        assert(a@[i as int] == b@.subrange(0, a@.len() as int)[i as int]);
                    }
                }
            }
            return false;
        }
        i += 1;
    }
    proof {
        assert(a@ =~= b@.subrange(0, a@.len() as int));
    }
    true
}

impl Fs {
    /// Take a snapshot from a list of files. Yields `None` when the list is
    /// not a possible walk of a content tree: a duplicated path, a path that
    /// is a prefix of another, an empty path or an empty segment.
    pub fn new(files: Vec<(IPath, String)>) -> (r: Option<Fs>)
        ensures
            match r {
                Some(fs) => fs.files == files && snapshot_wf(fs@),
                None => !snapshot_wf(files_view(files@)),
            },
    {
        let ghost fsv = files_view(files@);
        let n = files.len();
        let mut i: usize = 0;
        while i < n
            invariant
                i <= n,
                n == files@.len(),
                fsv == files_view(files@),
                forall|q: int| 0 <= q < i ==> (#[trigger] fsv[q].0).len() > 0,
                forall|q: int, k: int|
                    0 <= q < i && 0 <= k < fsv[q].0.len() ==> (#[trigger] fsv[q].0[k]).len() > 0,
                forall|q: int, j: int|
                    0 <= q < i && 0 <= j < i && q != j ==> !(#[trigger] fsv[q].0.is_prefix_of(
                        fsv[j].0,
                    )),
            decreases n - i,
        {
            let p = &files[i].0;
            if p.segs.len() == 0 {
                proof {
                    assert(fsv[i as int].0.len() == 0);
                }
                return None;
            }
            let mut k: usize = 0;
            while k < p.segs.len()
                invariant
                    k <= p.segs@.len(),
                    i < n == files@.len(),
                    fsv == files_view(files@),
                    fsv[i as int].0 == p@,
                    p.segs@.len() == p@.len(),
                    forall|t: int| 0 <= t < k ==> (#[trigger] p@[t]).len() > 0,
                decreases p.segs@.len() - k,
            {
                if p.segs[k].len() == 0 {
                    proof {
                        assert(fsv[i as int].0[k as int].len() == 0);
                    }
                    return None;
                }
                k += 1;
            }
            let mut j: usize = 0;
            while j < i
                invariant
                    j <= i < n,
                    n == files@.len(),
                    fsv == files_view(files@),
                    forall|t: int|
                        0 <= t < j ==> !(#[trigger] fsv[t].0.is_prefix_of(fsv[i as int].0)),
                    forall|t: int|
                        0 <= t < j ==> !(#[trigger] fsv[i as int].0.is_prefix_of(fsv[t].0)),
                decreases i - j,
            {
                if is_prefix(&files[j].0, &files[i].0) || is_prefix(&files[i].0, &files[j].0) {
                    proof {
                        assert(fsv[j as int].0 == files@[j as int].0@);
                        assert(fsv[i as int].0 == files@[i as int].0@);
                    }
                    return None;
                }
                proof {
                    assert(fsv[j as int].0 == files@[j as int].0@);
                    assert(fsv[i as int].0 == files@[i as int].0@);
                    assert(!fsv[j as int].0.is_prefix_of(fsv[i as int].0));
                    assert(!fsv[i as int].0.is_prefix_of(fsv[j as int].0));
                }
                j += 1;
            }
            proof {
                assert forall|q: int, t: int|
                    0 <= q < i + 1 && 0 <= t < i + 1 && q != t implies !(
                #[trigger] fsv[q].0.is_prefix_of(fsv[t].0)) by {
                    if t == i {
                        assert(!fsv[q].0.is_prefix_of(fsv[i as int].0));
                    } else if q == i {
                        assert(!fsv[i as int].0.is_prefix_of(fsv[t].0));
                    }
                }
            }
            i += 1;
        }
        Some(Fs { files })
    }

    /// How many files the snapshot holds.
    pub fn file_count(&self) -> (r: usize)
        ensures
            r == self@.len(),
    {
        self.files.len()
    }

    /// Whether `d` is a directory in the snapshot: some file lies strictly
    /// under it. The root (the empty path) also counts once it holds a file.
    pub fn is_dir(&self, d: &IPath) -> (r: bool)
        ensures
            r == spec_is_dir(snapshot_paths(self@), d@),
    {
        let ghost paths = snapshot_paths(self@);
        let mut i: usize = 0;
        while i < self.files.len()
            invariant
                i <= self.files@.len(),
                self.files@.len() == self@.len(),
                paths == snapshot_paths(self@),
                forall|j: int| 0 <= j < i ==> !strict_prefix(d@, #[trigger] paths[j]),
            decreases self.files@.len() - i,
        {
            let f = &self.files[i].0;
            if d.segs.len() < f.segs.len() && is_prefix(d, f) {
                proof {
                    assert(strict_prefix(d@, paths[i as int]));
                }
                return true;
            }
            proof {
                assert(paths[i as int] == self@[i as int].0);
            }
            i += 1;
        }
        proof {
            if spec_is_dir(paths, d@) {
                let j = choose|j: int| 0 <= j < paths.len() && strict_prefix(d@, paths[j]);
                assert(!strict_prefix(d@, paths[j]));
            }
        }
        false
    }

    /// The content of the file at `path`, or `None` when the snapshot holds
    /// no file there.
    pub fn content(&self, path: &IPath) -> (r: Option<&String>)
        ensures
            match r {
                Some(c) => crate::utils::spec_assoc_get(self@, path@) == Some(c@),
                None => crate::utils::spec_assoc_get(self@, path@) is None,
            },
    {
        let mut i: usize = 0;
        while i < self.files.len()
            invariant
                i <= self.files@.len(),
                self.files@.len() == self@.len(),
                forall|j: int| 0 <= j < i ==> (#[trigger] self@[j]).0 != path@,
            decreases self.files@.len() - i,
        {
            if self.files[i].0.equals(path) {
                proof {
                    assert(self@[i as int].0 == path@ && self@[i as int].1
                        == self.files@[i as int].1@);
                    crate::utils::lemma_assoc_get_found(self@, path@, i as int);
                }
                return Some(&self.files[i].1);
            }
            proof {
                assert(self@[i as int].0 == self.files@[i as int].0@);
            }
            i += 1;
        }
        proof {
            crate::utils::lemma_assoc_get_absent(self@, path@);
        }
        None
    }
}

/// The direct children of `d` implied by the snapshot, each once, in
/// snapshot order of first appearance: files directly in `d`, and
/// directories directly in `d` that hold files.
pub open spec fn spec_children(paths: Seq<Seq<Seq<u8>>>, d: Seq<Seq<u8>>) -> Seq<Seq<Seq<u8>>>
    decreases paths.len(),
{
    if paths.len() == 0 {
        Seq::empty()
    } else {
        let rest = spec_children(paths.drop_last(), d);
        if strict_prefix(d, paths.last()) {
            let q = d.push(paths.last()[d.len() as int]);
            if rest.contains(q) {
                rest
            } else {
                rest.push(q)
            }
        } else {
            rest
        }
    }
}

impl IPath {
    /// List the direct children of this path in the snapshot, each once.
    /// The root (the empty path) can always be listed; any other path that
    /// is no directory of the snapshot cannot, which is an error.
    pub fn read_dir(&self, fs: &Fs) -> (r: Result<Vec<IPath>, crate::error::LoadError>)
        ensures
            match r {
                Ok(v) => (self@.len() == 0 || spec_is_dir(snapshot_paths(fs@), self@))
                    && ipath_views(v@) == spec_children(snapshot_paths(fs@), self@),
                Err(e) => {
                    &&& self@.len() > 0
                    &&& !spec_is_dir(snapshot_paths(fs@), self@)
                    &&& e matches crate::error::LoadError::Io { path } && path@ == self@
                },
            },
    {
        let ghost paths = snapshot_paths(fs@);
        if !(self.segs.len() == 0 || fs.is_dir(self)) {
            return Err(crate::error::LoadError::Io { path: self.clone() });
        }
        let mut out: Vec<IPath> = Vec::new();
        let mut i: usize = 0;
        proof {
            assert(paths.take(0) =~= Seq::<Seq<Seq<u8>>>::empty());
            assert(ipath_views(out@) =~= spec_children(paths.take(0), self@));
        }
        while i < fs.files.len()
            invariant
                i <= fs.files@.len(),
                fs.files@.len() == paths.len(),
                paths == snapshot_paths(fs@),
                ipath_views(out@) == spec_children(paths.take(i as int), self@),
            decreases fs.files@.len() - i,
        {
            let f = &fs.files[i].0;
            proof {
                assert(paths.take(i + 1).drop_last() =~= paths.take(i as int));
                assert(paths.take(i + 1).last() == paths[i as int]);
                assert(paths[i as int] == f@);
            }
            if f.segs.len() > self.segs.len() && is_prefix(self, f) {
                let child = &f.segs[self.segs.len()];
                proof {
                    assert(child@ == f@[self@.len() as int]);
                }
                let q = self.push_seg(child);
                if !contains_path(&out, &q) {
                    out.push(q);
                }
                proof {
                    assert(ipath_views(out@) =~= spec_children(paths.take(i + 1), self@));
                }
            } else {
                proof {
                    assert(ipath_views(out@) =~= spec_children(paths.take(i + 1), self@));
                }
            }
            i += 1;
        }
        proof {
            assert(paths.take(paths.len() as int) =~= paths);
        }
        Ok(out)
    }
}

/// Every file of the snapshot lying strictly under `d`, in snapshot order.
pub open spec fn spec_files_under(paths: Seq<Seq<Seq<u8>>>, d: Seq<Seq<u8>>) -> Seq<Seq<Seq<u8>>>
    decreases paths.len(),
{
    if paths.len() == 0 {
        Seq::empty()
    } else {
        let rest = spec_files_under(paths.drop_last(), d);
        if strict_prefix(d, paths.last()) {
            rest.push(paths.last())
        } else {
            rest
        }
    }
}

/// All files of the snapshot strictly under the directory `dir`, with their
/// snapshot-relative paths, in snapshot order. Directories themselves are
/// not listed. A `dir` that is no directory of the snapshot yields nothing.
pub fn iter_deep(fs: &Fs, dir: &IPath) -> (r: Vec<IPath>)
    ensures
        ipath_views(r@) == spec_files_under(snapshot_paths(fs@), dir@),
{
    let ghost paths = snapshot_paths(fs@);
    let mut out: Vec<IPath> = Vec::new();
    let mut i: usize = 0;
    proof {
        assert(paths.take(0) =~= Seq::<Seq<Seq<u8>>>::empty());
        assert(ipath_views(out@) =~= spec_files_under(paths.take(0), dir@));
    }
    while i < fs.files.len()
        invariant
            i <= fs.files@.len(),
            fs.files@.len() == paths.len(),
            paths == snapshot_paths(fs@),
            ipath_views(out@) == spec_files_under(paths.take(i as int), dir@),
        decreases fs.files@.len() - i,
    {
        let f = &fs.files[i].0;
        proof {
            assert(paths.take(i + 1).drop_last() =~= paths.take(i as int));
            assert(paths.take(i + 1).last() == paths[i as int]);
            assert(paths[i as int] == f@);
        }
        if f.segs.len() > dir.segs.len() && is_prefix(dir, f) {
            out.push(f.clone());
            proof {
                assert(ipath_views(out@) =~= spec_files_under(paths.take(i + 1), dir@));
            }
        } else {
            proof {
                assert(ipath_views(out@) =~= spec_files_under(paths.take(i + 1), dir@));
            }
        }
        i += 1;
    }
    proof {
        assert(paths.take(paths.len() as int) =~= paths);
    }
    out
}

/// The unique canonical logical paths of all files strictly under `dir`,
/// relative to `dir`, each kept at its first occurrence in snapshot order.
pub open spec fn spec_all_path_ids(paths: Seq<Seq<Seq<u8>>>, d: Seq<Seq<u8>>) -> Seq<Seq<Seq<u8>>>
    decreases paths.len(),
{
    if paths.len() == 0 {
        Seq::empty()
    } else {
        let rest = spec_all_path_ids(paths.drop_last(), d);
        if strict_prefix(d, paths.last()) {
            let pid = spec_path_id(paths.last().skip(d.len() as int));
            if rest.contains(pid) {
                rest
            } else {
                rest.push(pid)
            }
        } else {
            rest
        }
    }
}

/// Whether `views(s)` already holds the path view `x`.
pub fn contains_path(s: &Vec<IPath>, x: &IPath) -> (r: bool)
    ensures
        r == ipath_views(s@).contains(x@),
{
    let mut i: usize = 0;
    while i < s.len()
        invariant
            i <= s@.len(),
            forall|j: int| 0 <= j < i ==> ipath_views(s@)[j] != x@,
        decreases s@.len() - i,
    {
        if s[i].equals(x) {
            proof {
                assert(ipath_views(s@)[i as int] == x@);
            }
            return true;
        }
        i += 1;
    }
    proof {
        if ipath_views(s@).contains(x@) {
            let j = choose|j: int| 0 <= j < ipath_views(s@).len() && ipath_views(s@)[j] == x@;
            assert(ipath_views(s@)[j] != x@);
        }
    }
    false
}

/// Gets all unique canonical logical paths like `a/b/c` from files
/// `a/b/c.d.*` and `a/b/c/index.d.*` strictly under `dir`, de-duplicated:
/// raw paths that normalize to the same canonical path contribute one entry.
/// The resulting paths are relative to `dir`.
pub fn all_path_ids(fs: &Fs, dir: &IPath) -> (r: Vec<IPath>)
    ensures
        ipath_views(r@) == spec_all_path_ids(snapshot_paths(fs@), dir@),
{
    let ghost paths = snapshot_paths(fs@);
    let mut out: Vec<IPath> = Vec::new();
    let mut i: usize = 0;
    proof {
        assert(paths.take(0) =~= Seq::<Seq<Seq<u8>>>::empty());
        assert(ipath_views(out@) =~= spec_all_path_ids(paths.take(0), dir@));
    }
    while i < fs.files.len()
        invariant
            i <= fs.files@.len(),
            fs.files@.len() == paths.len(),
            paths == snapshot_paths(fs@),
            ipath_views(out@) == spec_all_path_ids(paths.take(i as int), dir@),
        decreases fs.files@.len() - i,
    {
        let f = &fs.files[i].0;
        proof {
            assert(paths.take(i + 1).drop_last() =~= paths.take(i as int));
            assert(paths.take(i + 1).last() == paths[i as int]);
            assert(paths[i as int] == f@);
        }
        if f.segs.len() > dir.segs.len() && is_prefix(dir, f) {
            let rel = match f.strip_prefix(dir) {
                Ok(rel) => rel,
                Err(_) => {
                    proof {
                        assert(false);
                    }
                    IPath::empty()
                },
            };
            let pid = path_id(&rel);
            if !contains_path(&out, &pid) {
                out.push(pid);
            }
            proof {
                assert(ipath_views(out@) =~= spec_all_path_ids(paths.take(i + 1), dir@));
            }
        } else {
            proof {
                assert(ipath_views(out@) =~= spec_all_path_ids(paths.take(i + 1), dir@));
            }
        }
        i += 1;
    }
    proof {
        assert(paths.take(paths.len() as int) =~= paths);
    }
    out
}

/// The enumerator counts each canonical logical path once: its result holds
/// no duplicates, and it holds a canonical path exactly when some file
/// strictly under `dir` normalizes to it.
pub proof fn lemma_all_path_ids_unique(paths: Seq<Seq<Seq<u8>>>, d: Seq<Seq<u8>>)
    ensures
        forall|i: int, j: int|
            0 <= i < spec_all_path_ids(paths, d).len() && 0 <= j < spec_all_path_ids(paths, d).len()
                && i != j ==> spec_all_path_ids(paths, d)[i] != spec_all_path_ids(paths, d)[j],
        forall|x: Seq<Seq<u8>>|
            spec_all_path_ids(paths, d).contains(x) <==> exists|i: int|
                0 <= i < paths.len() && strict_prefix(d, #[trigger] paths[i]) && x == spec_path_id(
                    paths[i].skip(d.len() as int),
                ),
    decreases paths.len(),
{
    if paths.len() > 0 {
        lemma_all_path_ids_unique(paths.drop_last(), d);
        let rest = spec_all_path_ids(paths.drop_last(), d);
        let whole = spec_all_path_ids(paths, d);
        assert forall|x: Seq<Seq<u8>>| whole.contains(x) implies exists|i: int|
            0 <= i < paths.len() && strict_prefix(d, #[trigger] paths[i]) && x == spec_path_id(
                paths[i].skip(d.len() as int),
            ) by {
            if rest.contains(x) {
                let i = choose|i: int|
                    0 <= i < paths.drop_last().len() && strict_prefix(
                        d,
                        #[trigger] paths.drop_last()[i],
                    ) && x == spec_path_id(paths.drop_last()[i].skip(d.len() as int));
                assert(paths[i] == paths.drop_last()[i]);
                assert(strict_prefix(d, paths[i]) && x == spec_path_id(
                    paths[i].skip(d.len() as int),
                ));
            } else {
                assert(strict_prefix(d, paths.last()) && x == spec_path_id(
                    paths.last().skip(d.len() as int),
                ));
                assert(paths[paths.len() - 1] == paths.last());
            }
        }
        assert forall|x: Seq<Seq<u8>>|
            (exists|i: int|
                0 <= i < paths.len() && strict_prefix(d, #[trigger] paths[i]) && x == spec_path_id(
                    paths[i].skip(d.len() as int),
                )) implies whole.contains(x) by {
            let i = choose|i: int|
                0 <= i < paths.len() && strict_prefix(d, #[trigger] paths[i]) && x == spec_path_id(
                    paths[i].skip(d.len() as int),
                );
            if i < paths.len() - 1 {
                assert(paths.drop_last()[i] == paths[i]);
                assert(rest.contains(x));
                if strict_prefix(d, paths.last()) && !rest.contains(
                    spec_path_id(paths.last().skip(d.len() as int)),
                ) {
                    let j = choose|j: int| 0 <= j < rest.len() && rest[j] == x;
                    assert(whole[j] == x);
                } else {
                    assert(whole.contains(x));
                }
            } else {
                if rest.contains(x) {
                    assert(whole.contains(x));
                } else {
                    assert(whole.last() == x);
                }
            }
        }
    }
}

} // verus!
