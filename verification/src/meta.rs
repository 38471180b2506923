//! Page metadata.
//!
//! For every canonical logical path under the pages tree there must be
//! exactly one `*.meta.*` file: required `title` and `description` strings,
//! an optional `tags` key (a string, or an array of strings) referencing
//! declared tags, and per-language override sub-tables under every other
//! key. Zero meta files for a path is missing content; more than one is an
//! ambiguity naming all matched files.

use vstd::prelude::*;

use crate::doc::parse_toml;
use crate::doc::toml_doc_of;
use crate::doc::Doc;
use crate::doc::Item;
use crate::doc::ItemView;
use crate::doc::Leaf;
use crate::doc::LeafView;
use crate::doc::leafs_view;
use crate::error::LoadError;
use crate::fs::all_path_ids;
use crate::fs::ipath_views;
use crate::fs::snapshot_paths;
use crate::fs::spec_all_path_ids;
use crate::fs::Fs;
use crate::path::bytes_views;
use crate::infos::default_info_from_doc;
use crate::infos::default_info_ok;
use crate::infos::infos_view;
use crate::infos::lang_infos_from_doc;
use crate::infos::lang_infos_ok;
use crate::infos::spec_default_info;
use crate::infos::spec_lang_infos;
use crate::language::Language;
use crate::language::LanguageStore;
use crate::language::LanguageView;
use crate::path::clone_bytes;
use crate::path::IPath;
use crate::resolve::resolve_exactly_one;
use crate::resolve::spec_resolve;
use crate::resolve::spec_sibling_readable;

use crate::tag::Tag;
use crate::tag::TagStore;
use crate::tag::TagView;
use crate::utils::description_key;
use crate::utils::lemma_assoc_get_absent;
use crate::utils::lemma_assoc_get_found;
use crate::utils::spec_assoc_get;
use crate::utils::title_key;
use crate::utils::Info;

verus! {

/// The key `tags`, as bytes.
pub open spec fn tags_key() -> Seq<u8> {
    seq![116u8, 97u8, 103u8, 115u8]
}

/// The key `tags`, as a byte string.
pub fn tags_key_bytes() -> (r: Vec<u8>)
    ensures
        r@ == tags_key(),
{
    let mut v: Vec<u8> = Vec::new();
    v.push(116u8);
    v.push(97u8);
    v.push(103u8);
    v.push(115u8);
    proof {
        assert(v@ =~= tags_key());
    }
    v
}

/// The pre-extension marker of metadata files, `meta`, as bytes.
pub open spec fn meta_marker() -> Seq<u8> {
    seq![109u8, 101u8, 116u8, 97u8]
}

/// The pre-extension marker of metadata files, `meta`, as a byte string.
pub fn meta_marker_bytes() -> (r: Vec<u8>)
    ensures
        r@ == meta_marker(),
{
    let mut v: Vec<u8> = Vec::new();
    v.push(109u8);
    v.push(101u8);
    v.push(116u8);
    v.push(97u8);
    proof {
        assert(v@ =~= meta_marker());
    }
    v
}

/// The fixed keys of a meta file; every other key is a language id.
pub open spec fn meta_skip_keys() -> Seq<Seq<u8>> {
    seq![tags_key(), title_key(), description_key()]
}

/// The fixed keys of a meta file, as byte strings.
pub fn meta_skip_keys_bytes() -> (r: Vec<Vec<u8>>)
    ensures
        bytes_views(r@) == meta_skip_keys(),
{
    let mut v: Vec<Vec<u8>> = Vec::new();
    v.push(tags_key_bytes());
    v.push(crate::utils::title_key_bytes());
    v.push(crate::utils::description_key_bytes());
    proof {
        assert(bytes_views(v@) =~= meta_skip_keys());
    }
    v
}

/// The views of a list of tags.
pub open spec fn tags_list_view(s: Seq<Tag>) -> Seq<TagView> {
    Seq::new(s.len(), |i: int| s[i]@)
}

/// One page's metadata: its canonical path, the tags it references (each
/// resolved to its declared tag), and its default and per-language
/// `title`/`description`.
pub struct Meta {
    pub path: IPath,
    pub tags: Vec<Tag>,
    pub default_info: Info<Vec<u8>>,
    pub infos: Vec<(Language, Info<Option<Vec<u8>>>)>,
}

/// The view of a [`Meta`].
pub struct MetaView {
    pub path: Seq<Seq<u8>>,
    pub tags: Seq<TagView>,
    pub default_info: Info<Seq<u8>>,
    pub infos: Seq<(LanguageView, Info<Option<Seq<u8>>>)>,
}

impl View for Meta {
    type V = MetaView;

    open spec fn view(&self) -> MetaView {
        MetaView {
            path: self.path@,
            tags: tags_list_view(self.tags@),
            default_info: self.default_info@,
            infos: infos_view(self.infos@),
        }
    }
}

/// Copy a list of tags.
fn clone_tags(v: &Vec<Tag>) -> (r: Vec<Tag>)
    ensures
        tags_list_view(r@) == tags_list_view(v@),
{
    let mut out: Vec<Tag> = Vec::new();
    let mut i: usize = 0;
    while i < v.len()
        invariant
            i <= v@.len(),
            out@.len() == i,
            forall|j: int| 0 <= j < i ==> (#[trigger] out@[j]@) == v@[j]@,
        decreases v@.len() - i,
    {
        out.push(v[i].clone());
        i += 1;
    }
    proof {
        assert(tags_list_view(out@) =~= tags_list_view(v@));
    }
    out
}

impl Clone for Meta {
    fn clone(&self) -> (r: Self)
        ensures
            r@ == self@,
    {
        let r = Meta {
            path: self.path.clone(),
            tags: clone_tags(&self.tags),
            default_info: Info {
                title: clone_bytes(&self.default_info.title),
                description: clone_bytes(&self.default_info.description),
            },
            infos: crate::tag::clone_infos(&self.infos),
        };
        r
    }
}

/// The title a page shows in a language: its override there, or its default.
pub open spec fn spec_meta_title(m: MetaView, lang: LanguageView) -> Seq<u8> {
    match spec_assoc_get(m.infos, lang) {
        Some(info) => match info.title {
            Some(s) => s,
            None => m.default_info.title,
        },
        None => m.default_info.title,
    }
}

/// The description a page shows in a language: its override there, or its
/// default.
pub open spec fn spec_meta_description(m: MetaView, lang: LanguageView) -> Seq<u8> {
    match spec_assoc_get(m.infos, lang) {
        Some(info) => match info.description {
            Some(s) => s,
            None => m.default_info.description,
        },
        None => m.default_info.description,
    }
}

impl Meta {
    /// Find this page's override entry for a language, if any.
    fn info_entry(&self, lang: &Language) -> (r: Option<&Info<Option<Vec<u8>>>>)
        ensures
            match r {
                Some(info) => spec_assoc_get(self@.infos, lang@) == Some(info@),
                None => spec_assoc_get(self@.infos, lang@) is None,
            },
    {
        let mut i: usize = 0;
        while i < self.infos.len()
            invariant
                i <= self.infos@.len(),
                forall|j: int| 0 <= j < i ==> (#[trigger] infos_view(self.infos@)[j]).0 != lang@,
            decreases self.infos@.len() - i,
        {
            if self.infos[i].0.equals(lang) {
                proof {
                    lemma_assoc_get_found(infos_view(self.infos@), lang@, i as int);
                }
                return Some(&self.infos[i].1);
            }
            proof {
                assert(infos_view(self.infos@)[i as int].0 == self.infos@[i as int].0@);
            }
            i += 1;
        }
        proof {
            lemma_assoc_get_absent(infos_view(self.infos@), lang@);
        }
        None
    }

    /// The title this page shows in `lang`.
    pub fn title(&self, lang: &Language) -> (r: Vec<u8>)
        ensures
            r@ == spec_meta_title(self@, lang@),
    {
        match self.info_entry(lang) {
            Some(info) => match &info.title {
                Some(s) => clone_bytes(s),
                None => clone_bytes(&self.default_info.title),
            },
            None => clone_bytes(&self.default_info.title),
        }
    }

    /// The description this page shows in `lang`.
    pub fn description(&self, lang: &Language) -> (r: Vec<u8>)
        ensures
            r@ == spec_meta_description(self@, lang@),
    {
        match self.info_entry(lang) {
            Some(info) => match &info.description {
                Some(s) => clone_bytes(s),
                None => clone_bytes(&self.default_info.description),
            },
            None => clone_bytes(&self.default_info.description),
        }
    }

    /// The full `title`/`description` record this page shows in `lang`.
    pub fn info(&self, lang: &Language) -> (r: Info<Vec<u8>>)
        ensures
            r@.title == spec_meta_title(self@, lang@),
            r@.description == spec_meta_description(self@, lang@),
    {
        Info { title: self.title(lang), description: self.description(lang) }
    }
}

/// Whether a meta file's `tags` value has an accepted shape: absent, one
/// string, or an array of strings.
pub open spec fn tags_value_ok(d: Seq<(Seq<u8>, ItemView)>) -> bool {
    match spec_assoc_get(d, tags_key()) {
        None => true,
        Some(ItemView::Str(s)) => true,
        Some(ItemView::Arr(a)) => forall|j: int| 0 <= j < a.len() ==> (#[trigger] a[j]) is Str,
        Some(_) => false,
    }
}

/// The tag ids a meta file references: none, the one `tags` string, or the
/// strings of the `tags` array.
pub open spec fn spec_tag_ids(d: Seq<(Seq<u8>, ItemView)>) -> Seq<Seq<u8>> {
    match spec_assoc_get(d, tags_key()) {
        None => Seq::empty(),
        Some(ItemView::Str(s)) => seq![s],
        Some(ItemView::Arr(a)) => crate::tag::strs_of(a),
        Some(_) => Seq::empty(),
    }
}

/// Whether every referenced tag id is declared in the tag store.
pub open spec fn tag_refs_ok(d: Seq<(Seq<u8>, ItemView)>, tags: Seq<(Seq<u8>, TagView)>) -> bool {
    forall|j: int|
        0 <= j < spec_tag_ids(d).len() ==> spec_assoc_get(tags, #[trigger] spec_tag_ids(d)[j]) is Some
}

/// The declared tags a meta file references, in reference order.
pub open spec fn spec_meta_tags(
    d: Seq<(Seq<u8>, ItemView)>,
    tags: Seq<(Seq<u8>, TagView)>,
) -> Seq<TagView> {
    Seq::new(spec_tag_ids(d).len(), |i: int| spec_assoc_get(tags, spec_tag_ids(d)[i])->Some_0)
}

/// Whether a meta file has a shape violation: a present but non-string
/// `title` or `description`, a `tags` value that is neither a string nor an
/// array of strings, or a language key not mapping to a well-formed
/// sub-table.
pub open spec fn meta_shape_bad(d: Seq<(Seq<u8>, ItemView)>) -> bool {
    ||| crate::infos::default_info_shape_bad(d)
    ||| !tags_value_ok(d)
    ||| crate::infos::lang_infos_shape_bad(d, meta_skip_keys())
}

/// Whether a meta file is well-formed against the declared languages and
/// tags.
pub open spec fn meta_table_ok(
    d: Seq<(Seq<u8>, ItemView)>,
    langs: Seq<(Seq<u8>, LanguageView)>,
    tags: Seq<(Seq<u8>, TagView)>,
) -> bool {
    &&& default_info_ok(d)
    &&& tags_value_ok(d)
    &&& tag_refs_ok(d, tags)
    &&& lang_infos_ok(d, langs, meta_skip_keys())
}

/// The metadata a well-formed meta file declares for the canonical path
/// `pid`.
pub open spec fn spec_meta_of(
    pid: Seq<Seq<u8>>,
    d: Seq<(Seq<u8>, ItemView)>,
    langs: Seq<(Seq<u8>, LanguageView)>,
    tags: Seq<(Seq<u8>, TagView)>,
) -> MetaView {
    MetaView {
        path: pid,
        tags: spec_meta_tags(d, tags),
        default_info: spec_default_info(d),
        infos: spec_lang_infos(d, langs, meta_skip_keys()),
    }
}

/// Build one page's metadata from its parsed meta file.
fn meta_from_doc(
    path: &IPath,
    pid: &IPath,
    doc: &Doc,
    languages: &LanguageStore,
    tags: &TagStore,
) -> (r: Result<Meta, LoadError>)
    ensures
        match r {
            Ok(meta) => meta_table_ok(doc@, languages@.languages, tags@) && meta@ == spec_meta_of(
                pid@,
                doc@,
                languages@.languages,
                tags@,
            ),
            Err(e) => !meta_table_ok(doc@, languages@.languages, tags@) && match e {
                LoadError::Parse { path: p } => p@ == path@ && meta_shape_bad(doc@),
                LoadError::MissingContent { path: p } => p@ == path@
                    && crate::infos::default_info_missing(doc@),
                LoadError::UnknownReference { path: p, id } => p@ == path@ && ((spec_assoc_get(
                    tags@,
                    id@,
                ) is None && spec_tag_ids(doc@).contains(id@)) || (spec_assoc_get(
                    languages@.languages,
                    id@,
                ) is None && crate::infos::lang_key_used(doc@, meta_skip_keys(), id@))),
                _ => false,
            },
        },
{
    let ghost d = doc@;
    let ghost langs = languages@.languages;
    let ghost storev = tags@;
    let default_info = match default_info_from_doc(path, doc) {
        Ok(v) => v,
        Err(e) => {
            return Err(e);
        },
    };
    let tk = tags_key_bytes();
    let tag_ids: Vec<Vec<u8>> = match doc.get(tk.as_slice()) {
        None => {
            let v: Vec<Vec<u8>> = Vec::new();
            proof {
                assert(bytes_views(v@) =~= spec_tag_ids(doc@));
            }
            v
        },
        Some(Item::Str(s)) => {
            let mut v: Vec<Vec<u8>> = Vec::new();
            v.push(clone_bytes(s));
            proof {
                assert(bytes_views(v@) =~= spec_tag_ids(doc@));
            }
            v
        },
        Some(Item::Arr(a)) => {
            let ghost av = leafs_view(a@);
            let mut v: Vec<Vec<u8>> = Vec::new();
            let mut i: usize = 0;
            proof {
                assert(av.take(0) =~= Seq::<LeafView>::empty());
                assert(bytes_views(v@) =~= crate::tag::strs_of(av.take(0)));
            }
            while i < a.len()
                invariant
                    i <= a@.len(),
                    a@.len() == av.len(),
                    av == leafs_view(a@),
                    d == doc@,
                    spec_assoc_get(d, tags_key()) == Some(ItemView::Arr(av)),
                    bytes_views(v@) == crate::tag::strs_of(av.take(i as int)),
                    forall|j: int| 0 <= j < i ==> (#[trigger] av[j]) is Str,
                decreases a@.len() - i,
            {
                proof {
                    assert(av.take(i + 1).drop_last() =~= av.take(i as int));
                    assert(av.take(i + 1).last() == av[i as int]);
                    assert(av[i as int] == a@[i as int]@);
                }
                match &a[i] {
                    Leaf::Str(s) => {
                        v.push(clone_bytes(s));
                        proof {
                            assert(bytes_views(v@) =~= crate::tag::strs_of(av.take(i + 1)));
                        }
                    },
                    Leaf::Other => {
                        proof {
                            assert(!tags_value_ok(d));
                        }
                        return Err(LoadError::Parse { path: path.clone() });
                    },
                }
                i += 1;
            }
            proof {
                assert(av.take(av.len() as int) =~= av);
                assert(bytes_views(v@) == spec_tag_ids(d));
            }
            v
        },
        Some(_) => {
            proof {
                assert(!tags_value_ok(d));
            }
            return Err(LoadError::Parse { path: path.clone() });
        },
    };
    let mut tag_list: Vec<Tag> = Vec::new();
    let mut i: usize = 0;
    while i < tag_ids.len()
        invariant
            i <= tag_ids@.len(),
            bytes_views(tag_ids@) == spec_tag_ids(d),
            d == doc@,
            storev == tags@,
            tag_list@.len() == i,
            forall|j: int|
                0 <= j < i ==> spec_assoc_get(storev, #[trigger] spec_tag_ids(d)[j]) is Some,
            forall|j: int|
                0 <= j < i ==> (#[trigger] tags_list_view(tag_list@)[j]) == spec_assoc_get(
                    storev,
                    spec_tag_ids(d)[j],
                )->Some_0,
        decreases tag_ids@.len() - i,
    {
        proof {
            assert(bytes_views(tag_ids@)[i as int] == tag_ids@[i as int]@);
        }
        match tags.get(tag_ids[i].as_slice()) {
            Some(tag) => {
                let ghost tv = tag@;
                let ghost prev = tag_list@;
                tag_list.push(tag);
                proof {
                    assert(spec_assoc_get(storev, spec_tag_ids(d)[i as int]) == Some(tv));
                    assert forall|j: int|
                        0 <= j < i + 1 implies (#[trigger] tags_list_view(tag_list@)[j])
                        == spec_assoc_get(storev, spec_tag_ids(d)[j])->Some_0 by {
                        if j < i {
                            assert(tag_list@[j] == prev[j]);
                            assert(tags_list_view(prev)[j] == spec_assoc_get(
                                storev,
                                spec_tag_ids(d)[j],
                            )->Some_0);
                        } else {
                            assert(tag_list@[j] == tag);
                        }
                    }
                }
            },
            None => {
                proof {
                    assert(spec_assoc_get(storev, spec_tag_ids(d)[i as int]) is None);
                    assert(spec_tag_ids(d).contains(tag_ids@[i as int]@)) by {
                        assert(spec_tag_ids(d)[i as int] == tag_ids@[i as int]@);
                    }
                }
                return Err(
                    LoadError::UnknownReference {
                        path: path.clone(),
                        id: clone_bytes(&tag_ids[i]),
                    },
                );
            },
        }
        i += 1;
    }
    proof {
        assert(tags_list_view(tag_list@) =~= spec_meta_tags(d, storev));
    }
    let skip = meta_skip_keys_bytes();
    let infos = match lang_infos_from_doc(path, doc, languages, &skip) {
        Ok(v) => v,
        Err(e) => {
            proof {
                match &e {
                    LoadError::Parse { .. } => {
                        crate::infos::lemma_shape_bad_not_ok(d, langs, meta_skip_keys());
                    },
                    LoadError::UnknownReference { path: _, id } => {
                        crate::infos::lemma_unknown_key_not_ok(d, langs, meta_skip_keys(), id@);
                    },
                    _ => {},
                }
            }
            return Err(e);
        },
    };
    let r = Meta { path: pid.clone(), tags: tag_list, default_info, infos };
    Ok(r)
}

/// The page metadata store, keyed by canonical logical path.
pub struct MetaStore {
    pub metas: Vec<(IPath, Meta)>,
}

/// The views of meta entries.
pub open spec fn meta_entries_view(s: Seq<(IPath, Meta)>) -> Seq<(Seq<Seq<u8>>, MetaView)> {
    Seq::new(s.len(), |i: int| (s[i].0@, s[i].1@))
}

impl View for MetaStore {
    type V = Seq<(Seq<Seq<u8>>, MetaView)>;

    open spec fn view(&self) -> Seq<(Seq<Seq<u8>>, MetaView)> {
        meta_entries_view(self.metas@)
    }
}

impl MetaStore {
    /// The metadata of the page at `path`, or `None`.
    pub fn get(&self, path: &IPath) -> (r: Option<Meta>)
        ensures
            match r {
                Some(meta) => spec_assoc_get(self@, path@) == Some(meta@),
                None => spec_assoc_get(self@, path@) is None,
            },
    {
        let mut i: usize = 0;
        while i < self.metas.len()
            invariant
                i <= self.metas@.len(),
                forall|j: int| 0 <= j < i ==> (#[trigger] self@[j]).0 != path@,
            decreases self.metas@.len() - i,
        {
            if self.metas[i].0.equals(path) {
                proof {
                    lemma_assoc_get_found(self@, path@, i as int);
                }
                return Some(self.metas[i].1.clone());
            }
            proof {
                assert(self@[i as int].0 == self.metas@[i as int].0@);
            }
            i += 1;
        }
        proof {
            lemma_assoc_get_absent(self@, path@);
        }
        None
    }

    /// All pages' metadata, in store order.
    pub fn iter(&self) -> (r: Vec<Meta>)
        ensures
            r@.len() == self@.len(),
            forall|i: int| 0 <= i < r@.len() ==> (#[trigger] r@[i]@) == self@[i].1,
    {
        let mut out: Vec<Meta> = Vec::new();
        let mut i: usize = 0;
        while i < self.metas.len()
            invariant
                i <= self.metas@.len(),
                self.metas@.len() == self@.len(),
                out@.len() == i,
                forall|j: int| 0 <= j < i ==> (#[trigger] out@[j]@) == self@[j].1,
            decreases self.metas@.len() - i,
        {
            out.push(self.metas[i].1.clone());
            i += 1;
        }
        out
    }

    /// All canonical paths with metadata, in store order.
    pub fn iter_ids(&self) -> (r: Vec<IPath>)
        ensures
            r@.len() == self@.len(),
            forall|i: int| 0 <= i < r@.len() ==> (#[trigger] r@[i]@) == self@[i].0,
    {
        let mut out: Vec<IPath> = Vec::new();
        let mut i: usize = 0;
        while i < self.metas.len()
            invariant
                i <= self.metas@.len(),
                self.metas@.len() == self@.len(),
                out@.len() == i,
                forall|j: int| 0 <= j < i ==> (#[trigger] out@[j]@) == self@[j].0,
            decreases self.metas@.len() - i,
        {
            out.push(self.metas[i].0.clone());
            i += 1;
        }
        out
    }

    /// The pages referencing `tag`, in store order.
    pub fn iter_by_tag(&self, tag: &Tag) -> (r: Vec<Meta>)
        ensures
            tags_of_metas(r@) == spec_metas_with_tag(self@, tag@),
    {
        let mut out: Vec<Meta> = Vec::new();
        let mut i: usize = 0;
        proof {
            assert(self@.take(0) =~= Seq::<(Seq<Seq<u8>>, MetaView)>::empty());
            assert(tags_of_metas(out@) =~= spec_metas_with_tag(self@.take(0), tag@));
        }
        while i < self.metas.len()
            invariant
                i <= self.metas@.len(),
                self.metas@.len() == self@.len(),
                tags_of_metas(out@) == spec_metas_with_tag(self@.take(i as int), tag@),
            decreases self.metas@.len() - i,
        {
            proof {
                assert(self@.take(i + 1).drop_last() =~= self@.take(i as int));
                assert(self@.take(i + 1).last() == self@[i as int]);
                assert(self@[i as int].1 == self.metas@[i as int].1@);
            }
            let meta = &self.metas[i].1;
            let mut found = false;
            let mut k: usize = 0;
            while k < meta.tags.len()
                invariant
                    k <= meta.tags@.len(),
                    found == exists|j: int|
                        0 <= j < k && (#[trigger] tags_list_view(meta.tags@)[j]) == tag@,
                decreases meta.tags@.len() - k,
            {
                if meta.tags[k].equals(tag) {
                    proof {
                        assert(tags_list_view(meta.tags@)[k as int] == tag@);
                    }
                    found = true;
                }
                proof {
                    assert(tags_list_view(meta.tags@)[k as int] == meta.tags@[k as int]@);
                }
                k += 1;
            }
            proof {
                if found {
                    assert(meta@.tags.contains(tag@));
                } else {
                    if meta@.tags.contains(tag@) {
                        let j = choose|j: int|
                            0 <= j < meta@.tags.len() && meta@.tags[j] == tag@;
                        assert(tags_list_view(meta.tags@)[j] == tag@);
                    }
                }
            }
            if found {
                out.push(meta.clone());
            }
            proof {
                assert(tags_of_metas(out@) =~= spec_metas_with_tag(self@.take(i + 1), tag@));
            }
            i += 1;
        }
        proof {
            assert(self@.take(self@.len() as int) =~= self@);
        }
        out
    }

    /// The title the page at `path` shows in `lang`, or `None` for an
    /// unknown path.
    pub fn title(&self, path: &IPath, lang: &Language) -> (r: Option<Vec<u8>>)
        ensures
            match r {
                Some(s) => spec_assoc_get(self@, path@) matches Some(m) && s@ == spec_meta_title(
                    m,
                    lang@,
                ),
                None => spec_assoc_get(self@, path@) is None,
            },
    {
        match self.get(path) {
            Some(meta) => Some(meta.title(lang)),
            None => None,
        }
    }

    /// The description the page at `path` shows in `lang`, or `None` for an
    /// unknown path.
    pub fn description(&self, path: &IPath, lang: &Language) -> (r: Option<Vec<u8>>)
        ensures
            match r {
                Some(s) => spec_assoc_get(self@, path@) matches Some(m) && s@
                    == spec_meta_description(m, lang@),
                None => spec_assoc_get(self@, path@) is None,
            },
    {
        match self.get(path) {
            Some(meta) => Some(meta.description(lang)),
            None => None,
        }
    }
}

/// The views of a list of metadata values.
pub open spec fn tags_of_metas(s: Seq<Meta>) -> Seq<MetaView> {
    Seq::new(s.len(), |i: int| s[i]@)
}

/// The metadata entries whose tag list holds `t`, in store order.
pub open spec fn spec_metas_with_tag(entries: Seq<(Seq<Seq<u8>>, MetaView)>, t: TagView) -> Seq<
    MetaView,
>
    decreases entries.len(),
{
    if entries.len() == 0 {
        Seq::empty()
    } else {
        let rest = spec_metas_with_tag(entries.drop_last(), t);
        if entries.last().1.tags.contains(t) {
            rest.push(entries.last().1)
        } else {
            rest
        }
    }
}

/// Whether one canonical path loads cleanly: its resolution names exactly
/// one meta file, the snapshot holds that file's content, the content
/// parses, and the parsed table is well-formed.
pub open spec fn meta_ok_at(
    fsv: Seq<(Seq<Seq<u8>>, Seq<char>)>,
    langs: Seq<(Seq<u8>, LanguageView)>,
    tags: Seq<(Seq<u8>, TagView)>,
    pid: Seq<Seq<u8>>,
) -> bool {
    let paths = snapshot_paths(fsv);
    &&& spec_sibling_readable(paths, pid)
    &&& spec_resolve(paths, pid, meta_marker()).len() == 1
    &&& spec_assoc_get(fsv, spec_resolve(paths, pid, meta_marker())[0]) is Some
    &&& toml_doc_of(spec_assoc_get(fsv, spec_resolve(paths, pid, meta_marker())[0])->Some_0) is Some
    &&& meta_table_ok(
        toml_doc_of(spec_assoc_get(fsv, spec_resolve(paths, pid, meta_marker())[0])->Some_0)->Some_0,
        langs,
        tags,
    )
}

/// The metadata one canonical path loads to.
pub open spec fn spec_meta_view_at(
    fsv: Seq<(Seq<Seq<u8>>, Seq<char>)>,
    langs: Seq<(Seq<u8>, LanguageView)>,
    tags: Seq<(Seq<u8>, TagView)>,
    pid: Seq<Seq<u8>>,
) -> MetaView {
    spec_meta_of(
        pid,
        toml_doc_of(
            spec_assoc_get(fsv, spec_resolve(snapshot_paths(fsv), pid, meta_marker())[0])->Some_0,
        )->Some_0,
        langs,
        tags,
    )
}

/// Whether every canonical path of the snapshot loads cleanly.
pub open spec fn metas_ok(
    fsv: Seq<(Seq<Seq<u8>>, Seq<char>)>,
    langs: Seq<(Seq<u8>, LanguageView)>,
    tags: Seq<(Seq<u8>, TagView)>,
) -> bool {
    let pids = spec_all_path_ids(snapshot_paths(fsv), Seq::empty());
    forall|k: int| 0 <= k < pids.len() ==> meta_ok_at(fsv, langs, tags, #[trigger] pids[k])
}

/// The full metadata store a snapshot loads to, keyed by canonical path in
/// enumeration order.
pub open spec fn spec_meta_store(
    fsv: Seq<(Seq<Seq<u8>>, Seq<char>)>,
    langs: Seq<(Seq<u8>, LanguageView)>,
    tags: Seq<(Seq<u8>, TagView)>,
) -> Seq<(Seq<Seq<u8>>, MetaView)> {
    let pids = spec_all_path_ids(snapshot_paths(fsv), Seq::empty());
    Seq::new(pids.len(), |k: int| (pids[k], spec_meta_view_at(fsv, langs, tags, pids[k])))
}

/// The exact condition under which the metadata loader returns each fatal
/// error, always tied to an enumerated canonical path: an unlistable parent
/// directory or an unreadable resolved file for `Io`; an unparseable or
/// ill-shaped resolved file for `Parse`; zero meta files for a path, or a
/// resolved file without its default `title`/`description`, for
/// `MissingContent`; more than one meta file, all enumerated, for
/// `AmbiguousContent`; an undeclared tag or language id, named together
/// with the offending resolved file, for `UnknownReference`.
pub open spec fn spec_metas_error(
    e: LoadError,
    fsv: Seq<(Seq<Seq<u8>>, Seq<char>)>,
    langs: Seq<(Seq<u8>, LanguageView)>,
    tags: Seq<(Seq<u8>, TagView)>,
) -> bool {
    let paths = snapshot_paths(fsv);
    let pids = spec_all_path_ids(paths, Seq::empty());
    match e {
        LoadError::Io { path } => exists|k: int|
            0 <= k < pids.len() && ((!spec_sibling_readable(paths, #[trigger] pids[k]) && path@
                == crate::path::spec_parts(pids[k])) || (spec_resolve(
                paths,
                pids[k],
                meta_marker(),
            ).len() == 1 && path@ == spec_resolve(paths, pids[k], meta_marker())[0]
                && spec_assoc_get(fsv, path@) is None)),
        LoadError::Parse { path } => exists|k: int|
            0 <= k < pids.len() && spec_resolve(paths, #[trigger] pids[k], meta_marker()).len()
                == 1 && path@ == spec_resolve(paths, pids[k], meta_marker())[0] && (spec_assoc_get(
                fsv,
                path@,
            ) matches Some(c) && (toml_doc_of(c) is None || (toml_doc_of(c) matches Some(dd)
                && meta_shape_bad(dd)))),
        LoadError::MissingContent { path } => exists|k: int|
            0 <= k < pids.len() && ((spec_sibling_readable(paths, #[trigger] pids[k])
                && spec_resolve(paths, pids[k], meta_marker()).len() == 0 && path@ == pids[k]) || (
            spec_resolve(paths, pids[k], meta_marker()).len() == 1 && path@ == spec_resolve(
                paths,
                pids[k],
                meta_marker(),
            )[0] && (spec_assoc_get(fsv, path@) matches Some(c) && (toml_doc_of(c) matches Some(dd)
                && crate::infos::default_info_missing(dd))))),
        LoadError::AmbiguousContent { path, matches } => exists|k: int|
            0 <= k < pids.len() && #[trigger] pids[k] == path@ && spec_resolve(
                paths,
                path@,
                meta_marker(),
            ).len() > 1 && ipath_views(matches@) == spec_resolve(paths, path@, meta_marker()),
        LoadError::UnknownReference { path, id } => exists|k: int|
            0 <= k < pids.len() && spec_resolve(paths, #[trigger] pids[k], meta_marker()).len()
                == 1 && path@ == spec_resolve(paths, pids[k], meta_marker())[0] && (spec_assoc_get(
                fsv,
                path@,
            ) matches Some(c) && (toml_doc_of(c) matches Some(dd) && ((spec_assoc_get(
                tags,
                id@,
            ) is None && spec_tag_ids(dd).contains(id@)) || (spec_assoc_get(langs, id@) is None
                && crate::infos::lang_key_used(dd, meta_skip_keys(), id@))))),
    }
}

/// Load the page metadata store from a snapshot of the pages tree: for
/// every canonical logical path, resolve exactly one meta file and read it.
pub fn process_metas(fs: &Fs, languages: &LanguageStore, tags: &TagStore) -> (r: Result<
    MetaStore,
    LoadError,
>)
    ensures
        match r {
            Ok(store) => metas_ok(fs@, languages@.languages, tags@) && store@ == spec_meta_store(
                fs@,
                languages@.languages,
                tags@,
            ),
            Err(e) => !metas_ok(fs@, languages@.languages, tags@) && spec_metas_error(
                e,
                fs@,
                languages@.languages,
                tags@,
            ),
        },
{
    let ghost fsv = fs@;
    let ghost langs = languages@.languages;
    let ghost storev = tags@;
    let ghost pidsv = spec_all_path_ids(snapshot_paths(fsv), Seq::<Seq<u8>>::empty());
    let empty = IPath::empty();
    let pids = all_path_ids(fs, &empty);
    let marker = meta_marker_bytes();
    let mut metas: Vec<(IPath, Meta)> = Vec::new();
    let mut k: usize = 0;
    proof {
        assert(ipath_views(pids@) == pidsv);
    }
    while k < pids.len()
        invariant
            k <= pids@.len(),
            fsv == fs@,
            langs == languages@.languages,
            storev == tags@,
            marker@ == meta_marker(),
            pidsv == spec_all_path_ids(snapshot_paths(fsv), Seq::<Seq<u8>>::empty()),
            ipath_views(pids@) == pidsv,
            pids@.len() == pidsv.len(),
            metas@.len() == k,
            forall|j: int| 0 <= j < k ==> meta_ok_at(fsv, langs, storev, #[trigger] pidsv[j]),
            forall|j: int|
                0 <= j < k ==> (#[trigger] meta_entries_view(metas@)[j]) == (
                pidsv[j],
                spec_meta_view_at(fsv, langs, storev, pidsv[j]),
                ),
        decreases pids@.len() - k,
    {
        let pid = &pids[k];
        proof {
            assert(pid@ == ipath_views(pids@)[k as int]);
        }
        let file = match resolve_exactly_one(fs, pid, marker.as_slice()) {
            Ok(file) => file,
            Err(e) => {
                proof {
                    assert(!meta_ok_at(fsv, langs, storev, pidsv[k as int]));
                    assert(spec_metas_error(e, fsv, langs, storev)) by {
                        assert(pidsv[k as int] == pid@);
                    }
                }
                return Err(e);
            },
        };
        let text = match fs.content(&file) {
            Some(text) => text,
            None => {
                proof {
                    assert(!meta_ok_at(fsv, langs, storev, pidsv[k as int]));
                }
                let ghost bad = LoadError::Io { path: file };
                proof {
                    assert(spec_metas_error(bad, fsv, langs, storev)) by {
                        assert(pidsv[k as int] == pid@);
                    }
                }
                return Err(LoadError::Io { path: file });
            },
        };
        let doc = match parse_toml(text.as_str()) {
            Some(doc) => doc,
            None => {
                proof {
                    assert(!meta_ok_at(fsv, langs, storev, pidsv[k as int]));
                }
                let ghost bad = LoadError::Parse { path: file };
                proof {
                    assert(spec_metas_error(bad, fsv, langs, storev)) by {
                        assert(pidsv[k as int] == pid@);
                        assert(spec_assoc_get(fsv, file@) == Some(text@));
                    }
                }
                return Err(LoadError::Parse { path: file });
            },
        };
        let meta = match meta_from_doc(&file, pid, &doc, languages, tags) {
            Ok(meta) => meta,
            Err(e) => {
                proof {
                    assert(!meta_ok_at(fsv, langs, storev, pidsv[k as int]));
                    assert(spec_metas_error(e, fsv, langs, storev)) by {
                        assert(pidsv[k as int] == pid@);
                        assert(spec_assoc_get(fsv, file@) == Some(text@));
                        assert(toml_doc_of(text@) == Some(doc@));
                    }
                }
                return Err(e);
            },
        };
        proof {
            assert(meta_ok_at(fsv, langs, storev, pidsv[k as int]));
            assert(meta@ == spec_meta_view_at(fsv, langs, storev, pidsv[k as int]));
        }
        let ghost mv = meta@;
        let ghost prev = metas@;
        let pid_copy = pid.clone();
        metas.push((pid_copy, meta));
        proof {
            assert forall|j: int|
                0 <= j < k + 1 implies (#[trigger] meta_entries_view(metas@)[j]) == (
            pidsv[j],
            spec_meta_view_at(fsv, langs, storev, pidsv[j]),
            ) by {
                if j < k {
                    assert(metas@[j] == prev[j]);
                    assert(meta_entries_view(prev)[j] == (
                        pidsv[j],
                        spec_meta_view_at(fsv, langs, storev, pidsv[j]),
                    ));
                } else {
                    assert(metas@[j].0@ == pidsv[j] && metas@[j].1@ == mv);
                }
            }
        }
        k += 1;
    }
    proof {
        assert(meta_entries_view(metas@) =~= spec_meta_store(fsv, langs, storev));
        assert(metas_ok(fsv, langs, storev));
    }
    Ok(MetaStore { metas })
}

} // verus!
