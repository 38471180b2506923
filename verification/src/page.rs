//! Page content files.
//!
//! For every canonical logical path and every declared language, at most
//! one content file may answer the path under that language's id (a page
//! may simply not exist in a language — that is no error, the page is
//! absent there). Every enumerated path must have metadata. The store maps
//! each canonical path that has content in at least one language to its
//! per-language content files.

use vstd::prelude::*;

use crate::error::LoadError;
use crate::fs::all_path_ids;
use crate::fs::ipath_views;
use crate::fs::snapshot_paths;
use crate::fs::spec_all_path_ids;
use crate::fs::Fs;
use crate::language::Language;
use crate::language::LanguageStore;
use crate::language::LanguageView;
use crate::meta::MetaStore;
use crate::meta::MetaView;
use crate::path::IPath;
use crate::resolve::resolve_at_most_one;
use crate::resolve::spec_resolve;
use crate::resolve::spec_sibling_readable;
use crate::utils::spec_assoc_get;

verus! {

/// The views of one page's per-language content files.
pub open spec fn page_langs_view(s: Seq<(Language, IPath)>) -> Seq<(LanguageView, Seq<Seq<u8>>)> {
    Seq::new(s.len(), |i: int| (s[i].0@, s[i].1@))
}

/// The views of page entries.
pub open spec fn page_entries_view(s: Seq<(IPath, Vec<(Language, IPath)>)>) -> Seq<
    (Seq<Seq<u8>>, Seq<(LanguageView, Seq<Seq<u8>>)>),
> {
    Seq::new(s.len(), |i: int| (s[i].0@, page_langs_view(s[i].1@)))
}

/// The pages store: each canonical path with content in at least one
/// language, mapped to its content files by language.
pub struct PageStore {
    pub pages: Vec<(IPath, Vec<(Language, IPath)>)>,
}

impl View for PageStore {
    type V = Seq<(Seq<Seq<u8>>, Seq<(LanguageView, Seq<Seq<u8>>)>)>;

    open spec fn view(&self) -> Seq<(Seq<Seq<u8>>, Seq<(LanguageView, Seq<Seq<u8>>)>)> {
        page_entries_view(self.pages@)
    }
}

impl PageStore {
    /// All pages with their per-language content files, in store order.
    pub fn iter(&self) -> (r: &Vec<(IPath, Vec<(Language, IPath)>)>)
        ensures
            page_entries_view(r@) == self@,
    {
        &self.pages
    }

    /// The per-language content files of the page at `path`, or `None` when
    /// no language has content for it.
    pub fn get(&self, path: &IPath) -> (r: Option<&Vec<(Language, IPath)>>)
        ensures
            match r {
                Some(langs) => spec_assoc_get(self@, path@) == Some(page_langs_view(langs@)),
                None => spec_assoc_get(self@, path@) is None,
            },
    {
        let mut i: usize = 0;
        while i < self.pages.len()
            invariant
                i <= self.pages@.len(),
                forall|j: int| 0 <= j < i ==> (#[trigger] self@[j]).0 != path@,
            decreases self.pages@.len() - i,
        {
            if self.pages[i].0.equals(path) {
                proof {
                    crate::utils::lemma_assoc_get_found(self@, path@, i as int);
                }
                return Some(&self.pages[i].1);
            }
            proof {
                assert(self@[i as int].0 == self.pages@[i as int].0@);
            }
            i += 1;
        }
        proof {
            crate::utils::lemma_assoc_get_absent(self@, path@);
        }
        None
    }
}

/// The per-language content files of one canonical path: for each declared
/// language, in declaration order, the single file that answers the path
/// under that language's id, when one does.
pub open spec fn spec_page_langs(
    paths: Seq<Seq<Seq<u8>>>,
    langs: Seq<(Seq<u8>, LanguageView)>,
    pid: Seq<Seq<u8>>,
) -> Seq<(LanguageView, Seq<Seq<u8>>)>
    decreases langs.len(),
{
    if langs.len() == 0 {
        Seq::empty()
    } else {
        let rest = spec_page_langs(paths, langs.drop_last(), pid);
        let l = langs.last().1;
        if spec_resolve(paths, pid, l.id).len() == 1 {
            rest.push((l, spec_resolve(paths, pid, l.id)[0]))
        } else {
            rest
        }
    }
}

/// Whether one canonical path loads cleanly: its parent directory is
/// listable, no language has more than one content file for it, and it has
/// metadata.
pub open spec fn page_ok_at(
    paths: Seq<Seq<Seq<u8>>>,
    langs: Seq<(Seq<u8>, LanguageView)>,
    metas: Seq<(Seq<Seq<u8>>, MetaView)>,
    pid: Seq<Seq<u8>>,
) -> bool {
    &&& spec_assoc_get(metas, pid) is Some
    &&& langs.len() > 0 ==> spec_sibling_readable(paths, pid)
    &&& forall|j: int|
        0 <= j < langs.len() ==> spec_resolve(paths, pid, (#[trigger] langs[j]).1.id).len() <= 1
}

/// Whether every canonical path of the snapshot loads cleanly.
pub open spec fn pages_ok(
    fsv: Seq<(Seq<Seq<u8>>, Seq<char>)>,
    langs: Seq<(Seq<u8>, LanguageView)>,
    metas: Seq<(Seq<Seq<u8>>, MetaView)>,
) -> bool {
    let pids = spec_all_path_ids(snapshot_paths(fsv), Seq::empty());
    forall|k: int|
        0 <= k < pids.len() ==> page_ok_at(snapshot_paths(fsv), langs, metas, #[trigger] pids[k])
}

/// The page entries the enumerated paths produce: each path that has
/// content in at least one language, in enumeration order.
pub open spec fn spec_page_entries(
    paths: Seq<Seq<Seq<u8>>>,
    langs: Seq<(Seq<u8>, LanguageView)>,
    pids: Seq<Seq<Seq<u8>>>,
) -> Seq<(Seq<Seq<u8>>, Seq<(LanguageView, Seq<Seq<u8>>)>)>
    decreases pids.len(),
{
    if pids.len() == 0 {
        Seq::empty()
    } else {
        let rest = spec_page_entries(paths, langs, pids.drop_last());
        let pl = spec_page_langs(paths, langs, pids.last());
        if pl.len() > 0 {
            rest.push((pids.last(), pl))
        } else {
            rest
        }
    }
}

/// The exact condition under which the pages loader returns each fatal
/// error, always tied to an enumerated canonical path: a path without
/// metadata for `MissingContent`; more than one content file under some
/// declared language's id, all enumerated, for `AmbiguousContent`; an
/// unlistable parent directory for `Io`.
pub open spec fn spec_pages_error(
    e: LoadError,
    fsv: Seq<(Seq<Seq<u8>>, Seq<char>)>,
    langs: Seq<(Seq<u8>, LanguageView)>,
    metas: Seq<(Seq<Seq<u8>>, MetaView)>,
) -> bool {
    let paths = snapshot_paths(fsv);
    let pids = spec_all_path_ids(paths, Seq::empty());
    match e {
        LoadError::MissingContent { path } => exists|k: int|
            0 <= k < pids.len() && #[trigger] pids[k] == path@ && spec_assoc_get(
                metas,
                path@,
            ) is None,
        LoadError::AmbiguousContent { path, matches } => exists|k: int|
            0 <= k < pids.len() && #[trigger] pids[k] == path@ && exists|j: int|
                0 <= j < langs.len() && spec_resolve(
                    paths,
                    path@,
                    (#[trigger] langs[j]).1.id,
                ).len() > 1 && ipath_views(matches@) == spec_resolve(paths, path@, langs[j].1.id),
        LoadError::Io { path } => exists|k: int|
            0 <= k < pids.len() && !spec_sibling_readable(paths, #[trigger] pids[k]) && langs.len()
                > 0 && path@ == crate::path::spec_parts(pids[k]),
        _ => false,
    }
}

/// Load the pages store from a snapshot of the pages tree: every canonical
/// path must have metadata, and at most one content file per language.
pub fn process_pages(fs: &Fs, languages: &LanguageStore, metas: &MetaStore) -> (r: Result<
    PageStore,
    LoadError,
>)
    ensures
        match r {
            Ok(store) => pages_ok(fs@, languages@.languages, metas@) && store@ == spec_page_entries(
                snapshot_paths(fs@),
                languages@.languages,
                spec_all_path_ids(snapshot_paths(fs@), Seq::empty()),
            ),
            Err(e) => !pages_ok(fs@, languages@.languages, metas@) && spec_pages_error(
                e,
                fs@,
                languages@.languages,
                metas@,
            ),
        },
{
    let ghost fsv = fs@;
    let ghost paths = snapshot_paths(fs@);
    let ghost langs = languages@.languages;
    let ghost metasv = metas@;
    let ghost pidsv = spec_all_path_ids(paths, Seq::<Seq<u8>>::empty());
    let empty = IPath::empty();
    let pids = all_path_ids(fs, &empty);
    let mut pages: Vec<(IPath, Vec<(Language, IPath)>)> = Vec::new();
    let mut k: usize = 0;
    proof {
        assert(ipath_views(pids@) == pidsv);
        assert(pidsv.take(0) =~= Seq::<Seq<Seq<u8>>>::empty());
        assert(page_entries_view(pages@) =~= spec_page_entries(paths, langs, pidsv.take(0)));
    }
    while k < pids.len()
        invariant
            k <= pids@.len(),
            fsv == fs@,
            paths == snapshot_paths(fs@),
            langs == languages@.languages,
            metasv == metas@,
            pidsv == spec_all_path_ids(paths, Seq::<Seq<u8>>::empty()),
            ipath_views(pids@) == pidsv,
            pids@.len() == pidsv.len(),
            page_entries_view(pages@) == spec_page_entries(paths, langs, pidsv.take(k as int)),
            forall|j: int| 0 <= j < k ==> page_ok_at(paths, langs, metasv, #[trigger] pidsv[j]),
        decreases pids@.len() - k,
    {
        let pid = &pids[k];
        proof {
            assert(pid@ == ipath_views(pids@)[k as int]);
            assert(pidsv.take(k + 1).drop_last() =~= pidsv.take(k as int));
            assert(pidsv.take(k + 1).last() == pidsv[k as int]);
        }
        if metas.get(pid).is_none() {
            let bad = LoadError::MissingContent { path: pid.clone() };
            proof {
                assert(!page_ok_at(paths, langs, metasv, pidsv[k as int]));
                assert(spec_pages_error(bad, fsv, langs, metasv)) by {
                    assert(pidsv[k as int] == pid@);
                }
            }
            return Err(bad);
        }
        let lang_list = languages.iter();
        let mut found: Vec<(Language, IPath)> = Vec::new();
        let mut j: usize = 0;
        proof {
            assert(langs.take(0) =~= Seq::<(Seq<u8>, LanguageView)>::empty());
            assert(page_langs_view(found@) =~= spec_page_langs(paths, langs.take(0), pid@));
        }
        while j < lang_list.len()
            invariant
                j <= lang_list@.len(),
                fsv == fs@,
                paths == snapshot_paths(fs@),
                langs == languages@.languages,
                k < pids@.len(),
                pid == &pids[k as int],
                pid@ == pidsv[k as int],
                lang_list@.len() == langs.len(),
                metasv == metas@,
                pids@.len() == pidsv.len(),
                spec_assoc_get(metasv, pid@) is Some,
                pidsv == spec_all_path_ids(paths, Seq::<Seq<u8>>::empty()),
                j > 0 ==> spec_sibling_readable(paths, pid@),
                forall|t: int| 0 <= t < langs.len() ==> (#[trigger] lang_list@[t]@) == langs[t].1,
                page_langs_view(found@) == spec_page_langs(paths, langs.take(j as int), pid@),
                forall|t: int|
                    0 <= t < j ==> spec_resolve(paths, pid@, (#[trigger] langs[t]).1.id).len()
                        <= 1,
            decreases lang_list@.len() - j,
        {
            proof {
                assert(langs.take(j + 1).drop_last() =~= langs.take(j as int));
                assert(langs.take(j + 1).last() == langs[j as int]);
                assert(lang_list@[j as int]@ == langs[j as int].1);
            }
            let lang = &lang_list[j];
            match resolve_at_most_one(fs, pid, lang.id.as_slice()) {
                Ok(Some(file)) => {
                    let ghost prev = found@;
                    let lang_copy = lang.clone();
                    let ghost fv = file@;
                    found.push((lang_copy, file));
                    proof {
                        assert forall|t: int|
                            0 <= t < found@.len() implies (#[trigger] page_langs_view(found@)[t])
                            == spec_page_langs(paths, langs.take(j + 1), pid@)[t] by {
                            if t < prev.len() {
                                assert(found@[t] == prev[t]);
                                assert(page_langs_view(prev)[t] == spec_page_langs(
                                    paths,
                                    langs.take(j as int),
                                    pid@,
                                )[t]);
                            } else {
                                assert(found@[t].0@ == langs[j as int].1 && found@[t].1@ == fv);
                            }
                        }
                        assert(page_langs_view(found@) =~= spec_page_langs(
                            paths,
                            langs.take(j + 1),
                            pid@,
                        ));
                    }
                },
                Ok(None) => {
                    proof {
                        assert(page_langs_view(found@) =~= spec_page_langs(
                            paths,
                            langs.take(j + 1),
                            pid@,
                        ));
                    }
                },
                Err(e) => {
                    proof {
                        assert(!page_ok_at(paths, langs, metasv, pidsv[k as int])) by {
                            match e {
                                LoadError::AmbiguousContent { .. } => {
                                    assert(spec_resolve(paths, pid@, langs[j as int].1.id).len()
                                        > 1);
                                },
                                _ => {},
                            }
                        }
                        assert(spec_pages_error(e, fsv, langs, metasv)) by {
                            assert(pidsv[k as int] == pid@);
                            match e {
                                LoadError::AmbiguousContent { .. } => {
                                    assert(spec_resolve(paths, pid@, langs[j as int].1.id).len()
                                        > 1);
                                },
                                _ => {},
                            }
                        }
                    }
                    return Err(e);
                },
            }
            j += 1;
        }
        proof {
            assert(langs.take(langs.len() as int) =~= langs);
            assert(page_ok_at(paths, langs, metasv, pidsv[k as int]));
        }
        if found.len() > 0 {
            let ghost prev = pages@;
            let ghost flv = page_langs_view(found@);
            let pid_copy = pid.clone();
            pages.push((pid_copy, found));
            proof {
                assert forall|t: int|
                    0 <= t < pages@.len() implies (#[trigger] page_entries_view(pages@)[t])
                    == spec_page_entries(paths, langs, pidsv.take(k + 1))[t] by {
                    if t < prev.len() {
                        assert(pages@[t] == prev[t]);
                        assert(page_entries_view(prev)[t] == spec_page_entries(
                            paths,
                            langs,
                            pidsv.take(k as int),
                        )[t]);
                    } else {
                        assert(pages@[t].0@ == pidsv[k as int]);
                        assert(page_langs_view(pages@[t].1@) == flv);
                    }
                }
                assert(page_entries_view(pages@) =~= spec_page_entries(
                    paths,
                    langs,
                    pidsv.take(k + 1),
                ));
            }
        } else {
            proof {
                assert(page_entries_view(pages@) =~= spec_page_entries(
                    paths,
                    langs,
                    pidsv.take(k + 1),
                ));
            }
        }
        k += 1;
    }
    proof {
        assert(pidsv.take(pidsv.len() as int) =~= pidsv);
    }
    Ok(PageStore { pages })
}

} // verus!
