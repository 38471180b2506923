//! Shared loading of `title`/`description` records.
//!
//! Tag files and page meta files share one shape: required default `title`
//! and `description` strings at the top level, and, under every key that is
//! not one of the file kind's fixed keys, a per-language sub-table with
//! optional `title`/`description` override strings. The language key must
//! be declared; unknown keys inside a sub-table are ignored.

use vstd::prelude::*;

use crate::doc::leaf_entries_view;
use crate::doc::Doc;
use crate::doc::Item;
use crate::doc::ItemView;
use crate::doc::Leaf;
use crate::doc::LeafView;
use crate::doc::leaf_table_get;
use crate::error::LoadError;
use crate::language::Language;
use crate::language::LanguageStore;
use crate::language::LanguageView;
use crate::path::bytes_views;
use crate::path::clone_bytes;
use crate::path::IPath;
use crate::utils::description_key;
use crate::utils::description_key_bytes;
use crate::utils::spec_assoc_get;
use crate::utils::title_key;
use crate::utils::title_key_bytes;
use crate::utils::Info;

verus! {

/// The views of per-language info entries.
pub open spec fn infos_view(s: Seq<(Language, Info<Option<Vec<u8>>>)>) -> Seq<
    (LanguageView, Info<Option<Seq<u8>>>),
> {
    Seq::new(s.len(), |i: int| (s[i].0@, s[i].1@))
}

/// Whether `key` is one of the byte strings in `skip`.
pub fn contains_bytes(skip: &Vec<Vec<u8>>, key: &[u8]) -> (r: bool)
    ensures
        r == bytes_views(skip@).contains(key@),
{
    let mut i: usize = 0;
    while i < skip.len()
        invariant
            i <= skip@.len(),
            forall|j: int| 0 <= j < i ==> bytes_views(skip@)[j] != key@,
        decreases skip@.len() - i,
    {
        if crate::bytes_eq(skip[i].as_slice(), key) {
            proof {
                assert(bytes_views(skip@)[i as int] == key@);
            }
            return true;
        }
        proof {
            assert(bytes_views(skip@)[i as int] == skip@[i as int]@);
        }
        i += 1;
    }
    proof {
        if bytes_views(skip@).contains(key@) {
            let j = choose|j: int|
                0 <= j < bytes_views(skip@).len() && bytes_views(skip@)[j] == key@;
            assert(bytes_views(skip@)[j] != key@);
        }
    }
    false
}

/// Whether a per-language sub-table is well-formed: its `title` and
/// `description`, where present, are strings.
pub open spec fn lang_info_ok(t: Seq<(Seq<u8>, LeafView)>) -> bool {
    &&& (spec_assoc_get(t, title_key()) matches Some(v) ==> v is Str)
    &&& (spec_assoc_get(t, description_key()) matches Some(v) ==> v is Str)
}

/// The overrides a per-language sub-table declares: its `title` and
/// `description` strings, absent keys staying absent.
pub open spec fn spec_info_entry(t: Seq<(Seq<u8>, LeafView)>) -> Info<Option<Seq<u8>>> {
    Info {
        title: match spec_assoc_get(t, title_key()) {
            Some(LeafView::Str(s)) => Some(s),
            _ => None,
        },
        description: match spec_assoc_get(t, description_key()) {
            Some(LeafView::Str(s)) => Some(s),
            _ => None,
        },
    }
}

/// Whether every non-fixed key of a document is a well-formed per-language
/// sub-table under a declared language id.
pub open spec fn lang_infos_ok(
    d: Seq<(Seq<u8>, ItemView)>,
    langs: Seq<(Seq<u8>, LanguageView)>,
    skip: Seq<Seq<u8>>,
) -> bool {
    forall|j: int|
        0 <= j < d.len() && !skip.contains((#[trigger] d[j]).0) ==> d[j].1 is Table && lang_info_ok(
            d[j].1->Table_0,
        ) && spec_assoc_get(langs, d[j].0) is Some
}

/// Whether some non-fixed key of a document maps to anything other than a
/// well-formed per-language sub-table: the shape violations that make a
/// document unparseable as this file kind.
pub open spec fn lang_infos_shape_bad(d: Seq<(Seq<u8>, ItemView)>, skip: Seq<Seq<u8>>) -> bool {
    exists|j: int|
        0 <= j < d.len() && !skip.contains((#[trigger] d[j]).0) && (!(d[j].1 is Table)
            || !lang_info_ok(d[j].1->Table_0))
}

/// Whether a document uses `id` as a non-fixed (language) key.
pub open spec fn lang_key_used(d: Seq<(Seq<u8>, ItemView)>, skip: Seq<Seq<u8>>, id: Seq<u8>) -> bool {
    !skip.contains(id) && exists|j: int| 0 <= j < d.len() && (#[trigger] d[j]).0 == id
}

/// A shape violation under some non-fixed key makes the document ill-formed.
pub proof fn lemma_shape_bad_not_ok(
    d: Seq<(Seq<u8>, ItemView)>,
    langs: Seq<(Seq<u8>, LanguageView)>,
    skip: Seq<Seq<u8>>,
)
    requires
        lang_infos_shape_bad(d, skip),
    ensures
        !lang_infos_ok(d, langs, skip),
{
    let j = choose|j: int|
        0 <= j < d.len() && !skip.contains((#[trigger] d[j]).0) && (!(d[j].1 is Table)
            || !lang_info_ok(d[j].1->Table_0));
    assert(!(d[j].1 is Table && lang_info_ok(d[j].1->Table_0) && spec_assoc_get(
        langs,
        d[j].0,
    ) is Some));
}

/// An undeclared language id under some non-fixed key makes the document
/// ill-formed.
pub proof fn lemma_unknown_key_not_ok(
    d: Seq<(Seq<u8>, ItemView)>,
    langs: Seq<(Seq<u8>, LanguageView)>,
    skip: Seq<Seq<u8>>,
    id: Seq<u8>,
)
    requires
        lang_key_used(d, skip, id),
        spec_assoc_get(langs, id) is None,
    ensures
        !lang_infos_ok(d, langs, skip),
{
    let j = choose|j: int| 0 <= j < d.len() && (#[trigger] d[j]).0 == id;
    assert(!(d[j].1 is Table && lang_info_ok(d[j].1->Table_0) && spec_assoc_get(
        langs,
        d[j].0,
    ) is Some));
}

/// The per-language overrides a document declares under its non-fixed keys,
/// in document order.
pub open spec fn spec_lang_infos(
    d: Seq<(Seq<u8>, ItemView)>,
    langs: Seq<(Seq<u8>, LanguageView)>,
    skip: Seq<Seq<u8>>,
) -> Seq<(LanguageView, Info<Option<Seq<u8>>>)>
    decreases d.len(),
{
    if d.len() == 0 {
        Seq::empty()
    } else {
        let rest = spec_lang_infos(d.drop_last(), langs, skip);
        let kv = d.last();
        if skip.contains(kv.0) {
            rest
        } else {
            match (spec_assoc_get(langs, kv.0), kv.1) {
                (Some(l), ItemView::Table(t)) => rest.push((l, spec_info_entry(t))),
                _ => rest,
            }
        }
    }
}

/// Read the optional `title`/`description` overrides out of one
/// per-language sub-table.
fn info_from_table(path: &IPath, t: &Vec<(Vec<u8>, Leaf)>) -> (r: Result<
    Info<Option<Vec<u8>>>,
    LoadError,
>)
    ensures
        match r {
            Ok(v) => lang_info_ok(leaf_entries_view(t@)) && v@ == spec_info_entry(
                leaf_entries_view(t@),
            ),
            Err(e) => e matches LoadError::Parse { path: p } && p@ == path@ && !lang_info_ok(
                leaf_entries_view(t@),
            ),
        },
{
    let tk = title_key_bytes();
    let dk = description_key_bytes();
    let title = match leaf_table_get(t, tk.as_slice()) {
        None => None,
        Some(Leaf::Str(s)) => Some(clone_bytes(s)),
        Some(_) => {
            return Err(LoadError::Parse { path: path.clone() });
        },
    };
    let description = match leaf_table_get(t, dk.as_slice()) {
        None => None,
        Some(Leaf::Str(s)) => Some(clone_bytes(s)),
        Some(_) => {
            return Err(LoadError::Parse { path: path.clone() });
        },
    };
    Ok(Info { title, description })
}

/// Read the per-language overrides out of a document: every key not in
/// `skip` must be a declared language id mapping to a well-formed sub-table.
pub fn lang_infos_from_doc(
    path: &IPath,
    doc: &Doc,
    languages: &LanguageStore,
    skip: &Vec<Vec<u8>>,
) -> (r: Result<Vec<(Language, Info<Option<Vec<u8>>>)>, LoadError>)
    ensures
        match r {
            Ok(v) => lang_infos_ok(doc@, languages@.languages, bytes_views(skip@)) && infos_view(
                v@,
            ) == spec_lang_infos(doc@, languages@.languages, bytes_views(skip@)),
            Err(e) => match e {
                LoadError::Parse { path: p } => p@ == path@ && lang_infos_shape_bad(
                    doc@,
                    bytes_views(skip@),
                ),
                LoadError::UnknownReference { path: p, id } => {
                    &&& p@ == path@
                    &&& spec_assoc_get(languages@.languages, id@) is None
                    &&& lang_key_used(doc@, bytes_views(skip@), id@)
                },
                _ => false,
            },
        },
{
    let ghost d = doc@;
    let ghost langs = languages@.languages;
    let ghost skipv = bytes_views(skip@);
    let mut out: Vec<(Language, Info<Option<Vec<u8>>>)> = Vec::new();
    let mut i: usize = 0;
    proof {
        assert(d.take(0) =~= Seq::<(Seq<u8>, ItemView)>::empty());
        assert(infos_view(out@) =~= spec_lang_infos(d.take(0), langs, skipv));
    }
    while i < doc.entries.len()
        invariant
            i <= doc.entries@.len(),
            doc.entries@.len() == d.len(),
            d == doc@,
            langs == languages@.languages,
            skipv == bytes_views(skip@),
            infos_view(out@) == spec_lang_infos(d.take(i as int), langs, skipv),
            forall|j: int|
                0 <= j < i && !skipv.contains((#[trigger] d[j]).0) ==> d[j].1 is Table
                    && lang_info_ok(d[j].1->Table_0) && spec_assoc_get(langs, d[j].0) is Some,
        decreases doc.entries@.len() - i,
    {
        proof {
            assert(d.take(i + 1).drop_last() =~= d.take(i as int));
            assert(d.take(i + 1).last() == d[i as int]);
            assert(d[i as int] == (doc.entries@[i as int].0@, doc.entries@[i as int].1@));
        }
        let key = &doc.entries[i].0;
        if !contains_bytes(skip, key.as_slice()) {
            let lang = match languages.get(key.as_slice()) {
                Ok(lang) => lang,
                Err(_) => {
                    proof {
                        assert(!skipv.contains(d[i as int].0));
                        assert(d[i as int].0 == key@);
                        assert(lang_key_used(d, skipv, key@));
                    }
                    return Err(
                        LoadError::UnknownReference { path: path.clone(), id: clone_bytes(key) },
                    );
                },
            };
            match &doc.entries[i].1 {
                Item::Table(t) => {
                    let info = match info_from_table(path, t) {
                        Ok(info) => info,
                        Err(e) => {
                            proof {
                                assert(d[i as int].1->Table_0 == leaf_entries_view(t@));
                                assert(!skipv.contains(d[i as int].0));
                                assert(lang_infos_shape_bad(d, skipv));
                            }
                            return Err(e);
                        },
                    };
                    out.push((lang, info));
                },
                _ => {
                    proof {
                        assert(!skipv.contains(d[i as int].0));
                        assert(!(d[i as int].1 is Table));
                        assert(lang_infos_shape_bad(d, skipv));
                    }
                    return Err(LoadError::Parse { path: path.clone() });
                },
            }
        }
        proof {
            assert(infos_view(out@) =~= spec_lang_infos(d.take(i + 1), langs, skipv));
        }
        i += 1;
    }
    proof {
        assert(d.take(d.len() as int) =~= d);
    }
    Ok(out)
}

/// Whether a document carries its required default `title` and
/// `description` strings.
pub open spec fn default_info_ok(d: Seq<(Seq<u8>, ItemView)>) -> bool {
    &&& spec_assoc_get(d, title_key()) matches Some(ItemView::Str(t))
    &&& spec_assoc_get(d, description_key()) matches Some(ItemView::Str(s))
}

/// The default `title`/`description` record a document declares.
pub open spec fn spec_default_info(d: Seq<(Seq<u8>, ItemView)>) -> Info<Seq<u8>> {
    Info {
        title: spec_assoc_get(d, title_key())->Some_0->Str_0,
        description: spec_assoc_get(d, description_key())->Some_0->Str_0,
    }
}

/// Whether a document lacks its required default `title` or `description`.
pub open spec fn default_info_missing(d: Seq<(Seq<u8>, ItemView)>) -> bool {
    spec_assoc_get(d, title_key()) is None || spec_assoc_get(d, description_key()) is None
}

/// Whether `title` and `description` are both present but at least one is
/// no string.
pub open spec fn default_info_shape_bad(d: Seq<(Seq<u8>, ItemView)>) -> bool {
    &&& spec_assoc_get(d, title_key()) is Some
    &&& spec_assoc_get(d, description_key()) is Some
    &&& !default_info_ok(d)
}

/// Read the required default `title` and `description` strings out of a
/// document.
pub fn default_info_from_doc(path: &IPath, doc: &Doc) -> (r: Result<Info<Vec<u8>>, LoadError>)
    ensures
        match r {
            Ok(v) => default_info_ok(doc@) && v@ == spec_default_info(doc@),
            Err(e) => match e {
                LoadError::Parse { path: p } => p@ == path@ && default_info_shape_bad(doc@),
                LoadError::MissingContent { path: p } => p@ == path@ && default_info_missing(doc@),
                _ => false,
            },
        },
{
    let tk = title_key_bytes();
    let dk = description_key_bytes();
    let title = match doc.get(tk.as_slice()) {
        None => {
            return Err(LoadError::MissingContent { path: path.clone() });
        },
        Some(Item::Str(s)) => clone_bytes(s),
        Some(_) => {
            if doc.get(dk.as_slice()).is_none() {
                return Err(LoadError::MissingContent { path: path.clone() });
            }
            return Err(LoadError::Parse { path: path.clone() });
        },
    };
    let description = match doc.get(dk.as_slice()) {
        None => {
            return Err(LoadError::MissingContent { path: path.clone() });
        },
        Some(Item::Str(s)) => clone_bytes(s),
        Some(_) => {
            return Err(LoadError::Parse { path: path.clone() });
        },
    };
    Ok(Info { title, description })
}

} // verus!
