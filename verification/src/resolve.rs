//! The variant resolver.
//!
//! Given a canonical logical path and a required pre-extension part (a
//! language id, or a fixed marker such as `meta`), find every concrete file
//! of the snapshot that answers it. Two searches are joined:
//!
//! 1. **Index search**: when the path names a directory of the snapshot (or
//!    is empty, in which case the root qualifies), its direct children whose
//!    decomposed name is exactly `index` and whose pre-extension part is the
//!    required one.
//! 2. **Sibling search**: the direct children of the path's parent directory
//!    whose decomposed name equals the path's last segment and whose
//!    pre-extension part is the required one. A parent directory missing
//!    from the snapshot cannot be listed and is an error; an absent index
//!    directory is merely an empty first search.
//!
//! Callers then apply a cardinality policy: exactly one match, or at most
//! one.

use vstd::prelude::*;

use crate::error::LoadError;
use crate::fs::ipath_views;
use crate::fs::is_prefix;
use crate::fs::snapshot_paths;
use crate::fs::spec_is_dir;
use crate::fs::strict_prefix;
use crate::fs::Fs;
use crate::name::spec_decompose;
use crate::name::split_into_name_pre_ext;
use crate::path::index_name;
use crate::path::path_to_parts_and_first;
use crate::path::spec_first;
use crate::path::spec_parts;
use crate::path::IPath;

verus! {

/// Whether a filename decomposes into exactly the wanted name and
/// pre-extension part (the extension is free).
pub open spec fn spec_name_match(filename: Seq<u8>, want_name: Seq<u8>, want_pre: Seq<u8>) -> bool {
    spec_decompose(filename).0 == want_name && spec_decompose(filename).1 == want_pre
}

/// A logical path reassembled from its parts and decomposed name: the
/// directory the index search looks into.
pub open spec fn spec_reassembled(pid: Seq<Seq<u8>>) -> Seq<Seq<u8>> {
    if spec_first(pid).len() == 0 {
        spec_parts(pid)
    } else {
        spec_parts(pid).push(spec_first(pid))
    }
}

/// The direct children of `d` whose filename decomposes into `want_name`
/// and `want_pre`, each listed once, in snapshot order of first appearance.
/// A child here is any entry of `d`: a file, or a directory implied by the
/// files under it.
pub open spec fn spec_matching_children(
    paths: Seq<Seq<Seq<u8>>>,
    d: Seq<Seq<u8>>,
    want_name: Seq<u8>,
    want_pre: Seq<u8>,
) -> Seq<Seq<Seq<u8>>>
    decreases paths.len(),
{
    if paths.len() == 0 {
        Seq::empty()
    } else {
        let rest = spec_matching_children(paths.drop_last(), d, want_name, want_pre);
        let f = paths.last();
        if strict_prefix(d, f) && spec_name_match(f[d.len() as int], want_name, want_pre) {
            let q = d.push(f[d.len() as int]);
            if rest.contains(q) {
                rest
            } else {
                rest.push(q)
            }
        } else {
            rest
        }
    }
}

/// Whether the sibling search can run: the parent directory of the logical
/// path is the root, or is a directory of the snapshot.
pub open spec fn spec_sibling_readable(paths: Seq<Seq<Seq<u8>>>, pid: Seq<Seq<u8>>) -> bool {
    spec_parts(pid).len() == 0 || spec_is_dir(paths, spec_parts(pid))
}

/// Everything the resolver yields for `pid` and `pre`: the index-search
/// matches followed by the sibling-search matches.
pub open spec fn spec_resolve(
    paths: Seq<Seq<Seq<u8>>>,
    pid: Seq<Seq<u8>>,
    pre: Seq<u8>,
) -> Seq<Seq<Seq<u8>>> {
    let d = spec_reassembled(pid);
    let idx = if d.len() == 0 || spec_is_dir(paths, d) {
        spec_matching_children(paths, d, index_name(), pre)
    } else {
        Seq::empty()
    };
    idx + spec_matching_children(paths, spec_parts(pid), spec_first(pid), pre)
}

/// A path `q` is among the matching children of `d` exactly when it is a
/// direct entry of `d` (a file there, or a directory implied by the files
/// under it) whose filename decomposes into the wanted name and
/// pre-extension part; and no child is listed twice.
pub proof fn lemma_matching_children_membership(
    paths: Seq<Seq<Seq<u8>>>,
    d: Seq<Seq<u8>>,
    want_name: Seq<u8>,
    want_pre: Seq<u8>,
)
    ensures
        forall|q: Seq<Seq<u8>>|
            spec_matching_children(paths, d, want_name, want_pre).contains(q) <==> exists|i: int|
                0 <= i < paths.len() && strict_prefix(d, #[trigger] paths[i]) && q == d.push(
                    paths[i][d.len() as int],
                ) && spec_name_match(paths[i][d.len() as int], want_name, want_pre),
        forall|i: int, j: int|
            0 <= i < spec_matching_children(paths, d, want_name, want_pre).len() && 0 <= j
                < spec_matching_children(paths, d, want_name, want_pre).len() && i != j
                ==> spec_matching_children(paths, d, want_name, want_pre)[i]
                != spec_matching_children(paths, d, want_name, want_pre)[j],
    decreases paths.len(),
{
    if paths.len() > 0 {
        lemma_matching_children_membership(paths.drop_last(), d, want_name, want_pre);
        let rest = spec_matching_children(paths.drop_last(), d, want_name, want_pre);
        let whole = spec_matching_children(paths, d, want_name, want_pre);
        assert forall|q: Seq<Seq<u8>>| whole.contains(q) implies exists|i: int|
            0 <= i < paths.len() && strict_prefix(d, #[trigger] paths[i]) && q == d.push(
                paths[i][d.len() as int],
            ) && spec_name_match(paths[i][d.len() as int], want_name, want_pre) by {
            if rest.contains(q) {
                let i = choose|i: int|
                    0 <= i < paths.drop_last().len() && strict_prefix(
                        d,
                        #[trigger] paths.drop_last()[i],
                    ) && q == d.push(paths.drop_last()[i][d.len() as int]) && spec_name_match(
                        paths.drop_last()[i][d.len() as int],
                        want_name,
                        want_pre,
                    );
                assert(paths[i] == paths.drop_last()[i]);
                assert(strict_prefix(d, paths[i]) && q == d.push(paths[i][d.len() as int])
                    && spec_name_match(paths[i][d.len() as int], want_name, want_pre));
            } else {
                assert(paths[paths.len() - 1] == paths.last());
                assert(strict_prefix(d, paths[paths.len() - 1]) && q == d.push(
                    paths[paths.len() - 1][d.len() as int],
                ) && spec_name_match(
                    paths[paths.len() - 1][d.len() as int],
                    want_name,
                    want_pre,
                ));
            }
        }
        assert forall|q: Seq<Seq<u8>>|
            (exists|i: int|
                0 <= i < paths.len() && strict_prefix(d, #[trigger] paths[i]) && q == d.push(
                    paths[i][d.len() as int],
                ) && spec_name_match(
                    paths[i][d.len() as int],
                    want_name,
                    want_pre,
                )) implies whole.contains(q) by {
            let i = choose|i: int|
                0 <= i < paths.len() && strict_prefix(d, #[trigger] paths[i]) && q == d.push(
                    paths[i][d.len() as int],
                ) && spec_name_match(paths[i][d.len() as int], want_name, want_pre);
            if i < paths.len() - 1 {
                assert(paths.drop_last()[i] == paths[i]);
                assert(rest.contains(q));
                if whole != rest {
                    let j = choose|j: int| 0 <= j < rest.len() && rest[j] == q;
                    assert(whole[j] == q);
                } else {
                    assert(whole.contains(q));
                }
            } else {
                if rest.contains(q) {
                    let j = choose|j: int| 0 <= j < rest.len() && rest[j] == q;
                    assert(whole[j] == q);
                } else {
                    assert(whole.last() == q);
                }
            }
        }
    }
}

/// The direct children of `d` whose filename decomposes into `want_name`
/// and `want_pre`, as full paths, in snapshot order of first appearance.
fn matching_children(fs: &Fs, d: &IPath, want_name: &[u8], want_pre: &[u8]) -> (r: Vec<IPath>)
    ensures
        ipath_views(r@) == spec_matching_children(snapshot_paths(fs@), d@, want_name@, want_pre@),
{
    let ghost paths = snapshot_paths(fs@);
    let mut out: Vec<IPath> = Vec::new();
    let mut i: usize = 0;
    proof {
        assert(paths.take(0) =~= Seq::<Seq<Seq<u8>>>::empty());
        assert(ipath_views(out@) =~= spec_matching_children(
            paths.take(0),
            d@,
            want_name@,
            want_pre@,
        ));
    }
    while i < fs.files.len()
        invariant
            i <= fs.files@.len(),
            fs.files@.len() == paths.len(),
            paths == snapshot_paths(fs@),
            ipath_views(out@) == spec_matching_children(
                paths.take(i as int),
                d@,
                want_name@,
                want_pre@,
            ),
        decreases fs.files@.len() - i,
    {
        let f = &fs.files[i].0;
        proof {
            assert(paths.take(i + 1).drop_last() =~= paths.take(i as int));
            assert(paths.take(i + 1).last() == paths[i as int]);
            assert(paths[i as int] == f@);
        }
        if f.segs.len() > d.segs.len() && is_prefix(d, f) {
            let child = &f.segs[d.segs.len()];
            let (name, pre, _ext) = split_into_name_pre_ext(child.as_slice());
            proof {
                assert(child@ == f@[d@.len() as int]);
            }
            if crate::bytes_eq(name.as_slice(), want_name) && crate::bytes_eq(
                pre.as_slice(),
                want_pre,
            ) {
                let q = d.push_seg(child);
                if !crate::fs::contains_path(&out, &q) {
                    out.push(q);
                }
            }
            proof {
                assert(ipath_views(out@) =~= spec_matching_children(
                    paths.take(i + 1),
                    d@,
                    want_name@,
                    want_pre@,
                ));
            }
        } else {
            proof {
                assert(ipath_views(out@) =~= spec_matching_children(
                    paths.take(i + 1),
                    d@,
                    want_name@,
                    want_pre@,
                ));
            }
        }
        i += 1;
    }
    proof {
        assert(paths.take(paths.len() as int) =~= paths);
    }
    out
}

/// The resolver yields exactly the union of its two searches: a path is
/// among the results for `pid` and `pre` precisely when it is an
/// `index.pre.*` entry of the reassembled directory (when that directory
/// exists, or is the root), or a sibling entry named like the logical
/// path's last segment with pre-extension part `pre`.
pub proof fn lemma_resolve_membership(paths: Seq<Seq<Seq<u8>>>, pid: Seq<Seq<u8>>, pre: Seq<u8>)
    ensures
        forall|q: Seq<Seq<u8>>|
            #[trigger] spec_resolve(paths, pid, pre).contains(q) <==> {
                let d = spec_reassembled(pid);
                ||| ((d.len() == 0 || spec_is_dir(paths, d)) && exists|i: int|
                    0 <= i < paths.len() && strict_prefix(d, #[trigger] paths[i]) && q == d.push(
                        paths[i][d.len() as int],
                    ) && spec_name_match(paths[i][d.len() as int], index_name(), pre))
                ||| (exists|i: int|
                    0 <= i < paths.len() && strict_prefix(spec_parts(pid), #[trigger] paths[i])
                        && q == spec_parts(pid).push(paths[i][spec_parts(pid).len() as int])
                        && spec_name_match(
                        paths[i][spec_parts(pid).len() as int],
                        spec_first(pid),
                        pre,
                    ))
            },
{
    let d = spec_reassembled(pid);
    let idx = if d.len() == 0 || spec_is_dir(paths, d) {
        spec_matching_children(paths, d, index_name(), pre)
    } else {
        Seq::empty()
    };
    let sib = spec_matching_children(paths, spec_parts(pid), spec_first(pid), pre);
    lemma_matching_children_membership(paths, d, index_name(), pre);
    lemma_matching_children_membership(paths, spec_parts(pid), spec_first(pid), pre);
    assert forall|q: Seq<Seq<u8>>| #[trigger] (idx + sib).contains(q) implies idx.contains(q)
        || sib.contains(q) by {
        let j = choose|j: int| 0 <= j < (idx + sib).len() && (idx + sib)[j] == q;
        if j < idx.len() {
            assert(idx[j] == q);
        } else {
            assert(sib[j - idx.len()] == q);
        }
    }
    assert forall|q: Seq<Seq<u8>>| idx.contains(q) || sib.contains(q) implies #[trigger] (idx
        + sib).contains(q) by {
        if idx.contains(q) {
            let j = choose|j: int| 0 <= j < idx.len() && idx[j] == q;
            assert((idx + sib)[j] == q);
        } else {
            let j = choose|j: int| 0 <= j < sib.len() && sib[j] == q;
            assert((idx + sib)[idx.len() + j] == q);
        }
    }
}

/// Get all filepaths of the snapshot that can define the logical path
/// `path_id` under the pre-extension part `pre`: first every
/// `path_id/index.pre.*`, then every sibling `path_id.pre.*`. Multiple
/// results may later count as clashing, under the caller's cardinality
/// policy. A parent directory missing from the snapshot is an error; an
/// absent index directory only empties the first search.
pub fn all_possible_indices(fs: &Fs, path_id: &IPath, pre: &[u8]) -> (r: Result<
    Vec<IPath>,
    LoadError,
>)
    ensures
        match r {
            Ok(v) => spec_sibling_readable(snapshot_paths(fs@), path_id@) && ipath_views(v@)
                == spec_resolve(snapshot_paths(fs@), path_id@, pre@),
            Err(e) => !spec_sibling_readable(snapshot_paths(fs@), path_id@) && (e matches
            LoadError::Io { path } && path@ == spec_parts(path_id@)),
        },
{
    let ghost paths = snapshot_paths(fs@);
    let (parts, first) = path_to_parts_and_first(path_id);
    let reassembled = if first.len() == 0 {
        parts.clone()
    } else {
        parts.push_seg(&first)
    };
    let mut out: Vec<IPath>;
    if reassembled.segs.len() == 0 || fs.is_dir(&reassembled) {
        out = matching_children(fs, &reassembled, &[105u8, 110u8, 100u8, 101u8, 120u8], pre);
        proof {
            assert([105u8, 110u8, 100u8, 101u8, 120u8]@ =~= index_name());
        }
    } else {
        out = Vec::new();
        proof {
            assert(ipath_views(out@) =~= Seq::<Seq<Seq<u8>>>::empty());
        }
    }
    if !(parts.segs.len() == 0 || fs.is_dir(&parts)) {
        return Err(LoadError::Io { path: parts });
    }
    let sib = matching_children(fs, &parts, first.as_slice(), pre);
    let ghost idx_views = ipath_views(out@);
    let ghost sib_views = ipath_views(sib@);
    let mut k: usize = 0;
    while k < sib.len()
        invariant
            k <= sib@.len(),
            sib_views == ipath_views(sib@),
            sib_views.len() == sib@.len(),
            ipath_views(out@) == idx_views + sib_views.take(k as int),
        decreases sib@.len() - k,
    {
        let ghost prev = out@;
        let x = sib[k].clone();
        let ghost xv = x@;
        proof {
            assert(xv == sib_views[k as int]);
        }
        out.push(x);
        proof {
            assert(out@.len() == prev.len() + 1);
            assert(ipath_views(prev).len() == prev.len());
            assert(prev.len() == idx_views.len() + k);
            assert forall|j: int| 0 <= j < out@.len() implies ipath_views(out@)[j] == (idx_views
                + sib_views.take(k + 1))[j] by {
                assert(sib_views.take(k + 1).len() == k + 1);
                if j < prev.len() {
                    assert(out@[j] == prev[j]);
                    assert(ipath_views(out@)[j] == prev[j]@);
                    assert(ipath_views(prev)[j] == (idx_views + sib_views.take(k as int))[j]);
                    if j < idx_views.len() {
                        assert((idx_views + sib_views.take(k as int))[j] == idx_views[j]);
                        assert((idx_views + sib_views.take(k + 1))[j] == idx_views[j]);
                    } else {
                        assert((idx_views + sib_views.take(k as int))[j] == sib_views.take(
                            k as int,
                        )[j - idx_views.len()]);
                        assert(sib_views.take(k as int)[j - idx_views.len()] == sib_views[j
                            - idx_views.len()]);
                        assert((idx_views + sib_views.take(k + 1))[j] == sib_views.take(k + 1)[j
                            - idx_views.len()]);
                        assert(sib_views.take(k + 1)[j - idx_views.len()] == sib_views[j
                            - idx_views.len()]);
                    }
                } else {
                    assert(j == prev.len());
                    assert(out@[j]@ == xv);
                    assert((idx_views + sib_views.take(k + 1))[j] == sib_views.take(k + 1)[
                        k as int]);
                    assert(sib_views.take(k + 1)[k as int] == sib_views[k as int]);
                }
            }
            assert(ipath_views(out@) =~= idx_views + sib_views.take(k + 1));
        }
        k += 1;
    }
    proof {
        assert(sib_views.take(sib_views.len() as int) =~= sib_views);
        assert(ipath_views(out@) =~= spec_resolve(paths, path_id@, pre@));
    }
    Ok(out)
}

/// Resolve a logical path that must have exactly one concrete file: zero
/// matches are missing content, more than one is an ambiguity naming all
/// matched files.
pub fn resolve_exactly_one(fs: &Fs, path_id: &IPath, pre: &[u8]) -> (r: Result<IPath, LoadError>)
    ensures
        match r {
            Ok(p) => {
                &&& spec_sibling_readable(snapshot_paths(fs@), path_id@)
                &&& spec_resolve(snapshot_paths(fs@), path_id@, pre@).len() == 1
                &&& p@ == spec_resolve(snapshot_paths(fs@), path_id@, pre@)[0]
            },
            Err(e) => match e {
                LoadError::Io { path } => !spec_sibling_readable(snapshot_paths(fs@), path_id@)
                    && path@ == spec_parts(path_id@),
                LoadError::MissingContent { path } => {
                    &&& spec_sibling_readable(snapshot_paths(fs@), path_id@)
                    &&& spec_resolve(snapshot_paths(fs@), path_id@, pre@).len() == 0
                    &&& path@ == path_id@
                },
                LoadError::AmbiguousContent { path, matches } => {
                    &&& spec_sibling_readable(snapshot_paths(fs@), path_id@)
                    &&& spec_resolve(snapshot_paths(fs@), path_id@, pre@).len() > 1
                    &&& ipath_views(matches@) == spec_resolve(snapshot_paths(fs@), path_id@, pre@)
                    &&& path@ == path_id@
                },
                _ => false,
            },
        },
{
    let found = match all_possible_indices(fs, path_id, pre) {
        Ok(v) => v,
        Err(e) => {
            return Err(e);
        },
    };
    if found.len() == 0 {
        Err(LoadError::MissingContent { path: path_id.clone() })
    } else if found.len() == 1 {
        let p = found[0].clone();
        proof {
            assert(p@ == ipath_views(found@)[0]);
        }
        Ok(p)
    } else {
        Err(LoadError::AmbiguousContent { path: path_id.clone(), matches: found })
    }
}

/// Resolve a logical path that may be absent under `pre` (a page may not
/// exist in a given language): zero matches are no error, more than one is
/// an ambiguity naming all matched files.
pub fn resolve_at_most_one(fs: &Fs, path_id: &IPath, pre: &[u8]) -> (r: Result<
    Option<IPath>,
    LoadError,
>)
    ensures
        match r {
            Ok(found) => {
                &&& spec_sibling_readable(snapshot_paths(fs@), path_id@)
                &&& match found {
                    Some(p) => spec_resolve(snapshot_paths(fs@), path_id@, pre@).len() == 1 && p@
                        == spec_resolve(snapshot_paths(fs@), path_id@, pre@)[0],
                    None => spec_resolve(snapshot_paths(fs@), path_id@, pre@).len() == 0,
                }
            },
            Err(e) => match e {
                LoadError::Io { path } => !spec_sibling_readable(snapshot_paths(fs@), path_id@)
                    && path@ == spec_parts(path_id@),
                LoadError::AmbiguousContent { path, matches } => {
                    &&& spec_sibling_readable(snapshot_paths(fs@), path_id@)
                    &&& spec_resolve(snapshot_paths(fs@), path_id@, pre@).len() > 1
                    &&& ipath_views(matches@) == spec_resolve(snapshot_paths(fs@), path_id@, pre@)
                    &&& path@ == path_id@
                },
                _ => false,
            },
        },
{
    let found = match all_possible_indices(fs, path_id, pre) {
        Ok(v) => v,
        Err(e) => {
            return Err(e);
        },
    };
    if found.len() == 0 {
        Ok(None)
    } else if found.len() == 1 {
        let p = found[0].clone();
        proof {
            assert(p@ == ipath_views(found@)[0]);
        }
        Ok(Some(p))
    } else {
        Err(LoadError::AmbiguousContent { path: path_id.clone(), matches: found })
    }
}

} // verus!
