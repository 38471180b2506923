//! Tags.
//!
//! Each file under the tags tree declares one tag: its canonical id is the
//! decomposed name of the filename, its required `title` and `description`
//! are the defaults, an optional `alt` key (a string, or an array of
//! strings) declares additional ids aliasing the tag, and every other key
//! is a declared language id mapping to optional `title`/`description`
//! overrides. The store keys each tag under its canonical id and under
//! every alias; all of them yield the tag with the canonical id.

use vstd::prelude::*;

use crate::doc::leafs_view;
use crate::doc::parse_toml;
use crate::doc::toml_doc_of;
use crate::doc::Doc;
use crate::doc::Item;
use crate::doc::ItemView;
use crate::doc::Leaf;
use crate::doc::LeafView;
use crate::error::LoadError;
use crate::fs::Fs;
use crate::path::bytes_views;
use crate::path::clone_bytes_list;
use crate::infos::default_info_from_doc;
use crate::infos::default_info_ok;
use crate::infos::infos_view;
use crate::infos::lang_infos_from_doc;
use crate::infos::lang_infos_ok;
use crate::infos::spec_default_info;
use crate::infos::spec_lang_infos;
use crate::language::Language;
use crate::language::LanguageStore;
use crate::language::LanguageView;
use crate::path::clone_bytes;
use crate::path::path_to_parts_and_first;
use crate::path::spec_first;
use crate::path::IPath;
use crate::utils::description_key;
use crate::utils::lemma_assoc_get_absent;
use crate::utils::lemma_assoc_get_append;
use crate::utils::lemma_assoc_get_found;
use crate::utils::lemma_assoc_get_uniform;
use crate::utils::spec_assoc_get;
use crate::utils::title_key;
use crate::utils::Info;

verus! {

/// The key `alt`, as bytes.
pub open spec fn alt_key() -> Seq<u8> {
    seq![97u8, 108u8, 116u8]
}

/// The key `alt`, as a byte string.
pub fn alt_key_bytes() -> (r: Vec<u8>)
    ensures
        r@ == alt_key(),
{
    let mut v: Vec<u8> = Vec::new();
    v.push(97u8);
    v.push(108u8);
    v.push(116u8);
    proof {
        assert(v@ =~= alt_key());
    }
    v
}

/// The fixed keys of a tag file; every other key is a language id.
pub open spec fn tag_skip_keys() -> Seq<Seq<u8>> {
    seq![alt_key(), title_key(), description_key()]
}

/// The fixed keys of a tag file, as byte strings.
pub fn tag_skip_keys_bytes() -> (r: Vec<Vec<u8>>)
    ensures
        bytes_views(r@) == tag_skip_keys(),
{
    let mut v: Vec<Vec<u8>> = Vec::new();
    v.push(alt_key_bytes());
    v.push(crate::utils::title_key_bytes());
    v.push(crate::utils::description_key_bytes());
    proof {
        assert(bytes_views(v@) =~= tag_skip_keys());
    }
    v
}

/// A tag: its canonical id, its aliasing ids, its default
/// `title`/`description`, and its per-language overrides.
pub struct Tag {
    pub id: Vec<u8>,
    pub alt_ids: Vec<Vec<u8>>,
    pub default_info: Info<Vec<u8>>,
    pub infos: Vec<(Language, Info<Option<Vec<u8>>>)>,
}

/// The view of a [`Tag`].
pub struct TagView {
    pub id: Seq<u8>,
    pub alt_ids: Seq<Seq<u8>>,
    pub default_info: Info<Seq<u8>>,
    pub infos: Seq<(LanguageView, Info<Option<Seq<u8>>>)>,
}

impl View for Tag {
    type V = TagView;

    open spec fn view(&self) -> TagView {
        TagView {
            id: self.id@,
            alt_ids: bytes_views(self.alt_ids@),
            default_info: self.default_info@,
            infos: infos_view(self.infos@),
        }
    }
}

/// Copy a list of per-language info entries.
pub fn clone_infos(v: &Vec<(Language, Info<Option<Vec<u8>>>)>) -> (r: Vec<
    (Language, Info<Option<Vec<u8>>>),
>)
    ensures
        infos_view(r@) == infos_view(v@),
{
    let mut out: Vec<(Language, Info<Option<Vec<u8>>>)> = Vec::new();
    let mut i: usize = 0;
    while i < v.len()
        invariant
            i <= v@.len(),
            out@.len() == i,
            forall|j: int|
                0 <= j < i ==> (#[trigger] out@[j].0@) == v@[j].0@ && out@[j].1@ == v@[j].1@,
        decreases v@.len() - i,
    {
        let lang = v[i].0.clone();
        let info = Info {
            title: crate::utils::clone_opt_bytes(&v[i].1.title),
            description: crate::utils::clone_opt_bytes(&v[i].1.description),
        };
        out.push((lang, info));
        i += 1;
    }
    proof {
        assert(infos_view(out@) =~= infos_view(v@));
    }
    out
}

impl Clone for Tag {
    fn clone(&self) -> (r: Self)
        ensures
            r@ == self@,
    {
        let r = Tag {
            id: clone_bytes(&self.id),
            alt_ids: clone_bytes_list(&self.alt_ids),
            default_info: Info {
                title: clone_bytes(&self.default_info.title),
                description: clone_bytes(&self.default_info.description),
            },
            infos: clone_infos(&self.infos),
        };
        r
    }
}

/// Whether two byte-string lists are equal.
pub fn bytes_list_eq(a: &Vec<Vec<u8>>, b: &Vec<Vec<u8>>) -> (r: bool)
    ensures
        r == (bytes_views(a@) == bytes_views(b@)),
{
    if a.len() != b.len() {
        proof {
            assert(bytes_views(a@).len() != bytes_views(b@).len());
        }
        return false;
    }
    let mut i: usize = 0;
    while i < a.len()
        invariant
            i <= a@.len(),
            a@.len() == b@.len(),
            forall|j: int| 0 <= j < i ==> bytes_views(a@)[j] == bytes_views(b@)[j],
        decreases a@.len() - i,
    {
        if !crate::bytes_eq(a[i].as_slice(), b[i].as_slice()) {
            proof {
                assert(bytes_views(a@)[i as int] != bytes_views(b@)[i as int]);
            }
            return false;
        }
        proof {
            assert(bytes_views(a@)[i as int] == a@[i as int]@);
            assert(bytes_views(b@)[i as int] == b@[i as int]@);
        }
        i += 1;
    }
    proof {
        assert(bytes_views(a@) =~= bytes_views(b@));
    }
    true
}

/// Whether two optional byte strings are equal.
pub fn opt_bytes_eq(a: &Option<Vec<u8>>, b: &Option<Vec<u8>>) -> (r: bool)
    ensures
        r == (crate::utils::opt_bytes_view(*a) == crate::utils::opt_bytes_view(*b)),
{
    match (a, b) {
        (Some(x), Some(y)) => crate::bytes_eq(x.as_slice(), y.as_slice()),
        (None, None) => true,
        _ => false,
    }
}

/// Whether two per-language info lists are equal.
pub fn infos_eq(
    a: &Vec<(Language, Info<Option<Vec<u8>>>)>,
    b: &Vec<(Language, Info<Option<Vec<u8>>>)>,
) -> (r: bool)
    ensures
        r == (infos_view(a@) == infos_view(b@)),
{
    if a.len() != b.len() {
        proof {
            assert(infos_view(a@).len() != infos_view(b@).len());
        }
        return false;
    }
    let mut i: usize = 0;
    while i < a.len()
        invariant
            i <= a@.len(),
            a@.len() == b@.len(),
            forall|j: int| 0 <= j < i ==> infos_view(a@)[j] == infos_view(b@)[j],
        decreases a@.len() - i,
    {
        let same = a[i].0.equals(&b[i].0) && opt_bytes_eq(&a[i].1.title, &b[i].1.title)
            && opt_bytes_eq(&a[i].1.description, &b[i].1.description);
        proof {
            assert(infos_view(a@)[i as int] == (a@[i as int].0@, a@[i as int].1@));
            assert(infos_view(b@)[i as int] == (b@[i as int].0@, b@[i as int].1@));
        }
        if !same {
            return false;
        }
        i += 1;
    }
    proof {
        assert(infos_view(a@) =~= infos_view(b@));
    }
    true
}

impl Tag {
    /// Whether two tags are the same in every field.
    pub fn equals(&self, other: &Tag) -> (r: bool)
        ensures
            r == (self@ == other@),
    {
        let r = crate::bytes_eq(self.id.as_slice(), other.id.as_slice()) && bytes_list_eq(
            &self.alt_ids,
            &other.alt_ids,
        ) && crate::bytes_eq(
            self.default_info.title.as_slice(),
            other.default_info.title.as_slice(),
        ) && crate::bytes_eq(
            self.default_info.description.as_slice(),
            other.default_info.description.as_slice(),
        ) && infos_eq(&self.infos, &other.infos);
        r
    }
}

/// The title a tag shows in a language: its override there, or its default.
pub open spec fn spec_tag_title(t: TagView, lang: LanguageView) -> Seq<u8> {
    match spec_assoc_get(t.infos, lang) {
        Some(info) => match info.title {
            Some(s) => s,
            None => t.default_info.title,
        },
        None => t.default_info.title,
    }
}

/// The description a tag shows in a language: its override there, or its
/// default.
pub open spec fn spec_tag_description(t: TagView, lang: LanguageView) -> Seq<u8> {
    match spec_assoc_get(t.infos, lang) {
        Some(info) => match info.description {
            Some(s) => s,
            None => t.default_info.description,
        },
        None => t.default_info.description,
    }
}

impl Tag {
    /// Find this tag's override entry for a language, if any.
    fn info_entry(&self, lang: &Language) -> (r: Option<&Info<Option<Vec<u8>>>>)
        ensures
            match r {
                Some(info) => spec_assoc_get(self@.infos, lang@) == Some(info@),
                None => spec_assoc_get(self@.infos, lang@) is None,
            },
    {
        let mut i: usize = 0;
        while i < self.infos.len()
            invariant
                i <= self.infos@.len(),
                forall|j: int| 0 <= j < i ==> (#[trigger] infos_view(self.infos@)[j]).0 != lang@,
            decreases self.infos@.len() - i,
        {
            if self.infos[i].0.equals(lang) {
                proof {
                    lemma_assoc_get_found(infos_view(self.infos@), lang@, i as int);
                }
                return Some(&self.infos[i].1);
            }
            proof {
                assert(infos_view(self.infos@)[i as int].0 == self.infos@[i as int].0@);
            }
            i += 1;
        }
        proof {
            lemma_assoc_get_absent(infos_view(self.infos@), lang@);
        }
        None
    }

    /// The title this tag shows in `lang`.
    pub fn title(&self, lang: &Language) -> (r: Vec<u8>)
        ensures
            r@ == spec_tag_title(self@, lang@),
    {
        match self.info_entry(lang) {
            Some(info) => match &info.title {
                Some(s) => clone_bytes(s),
                None => clone_bytes(&self.default_info.title),
            },
            None => clone_bytes(&self.default_info.title),
        }
    }

    /// The description this tag shows in `lang`.
    pub fn description(&self, lang: &Language) -> (r: Vec<u8>)
        ensures
            r@ == spec_tag_description(self@, lang@),
    {
        match self.info_entry(lang) {
            Some(info) => match &info.description {
                Some(s) => clone_bytes(s),
                None => clone_bytes(&self.default_info.description),
            },
            None => clone_bytes(&self.default_info.description),
        }
    }

    /// The full `title`/`description` record this tag shows in `lang`.
    pub fn info(&self, lang: &Language) -> (r: Info<Vec<u8>>)
        ensures
            r@.title == spec_tag_title(self@, lang@),
            r@.description == spec_tag_description(self@, lang@),
    {
        Info { title: self.title(lang), description: self.description(lang) }
    }
}

/// The strings of an array of leaves, in order.
pub open spec fn strs_of(a: Seq<LeafView>) -> Seq<Seq<u8>>
    decreases a.len(),
{
    if a.len() == 0 {
        Seq::empty()
    } else {
        let rest = strs_of(a.drop_last());
        match a.last() {
            LeafView::Str(s) => rest.push(s),
            _ => rest,
        }
    }
}

/// Whether a tag file's `alt` value has an accepted shape: absent, one
/// string, or an array of strings.
pub open spec fn alt_ok(d: Seq<(Seq<u8>, ItemView)>) -> bool {
    match spec_assoc_get(d, alt_key()) {
        None => true,
        Some(ItemView::Str(s)) => true,
        Some(ItemView::Arr(a)) => forall|j: int| 0 <= j < a.len() ==> (#[trigger] a[j]) is Str,
        Some(_) => false,
    }
}

/// The aliasing ids a tag file declares: none, the one `alt` string, or the
/// strings of the `alt` array.
pub open spec fn spec_alt_ids(d: Seq<(Seq<u8>, ItemView)>) -> Seq<Seq<u8>> {
    match spec_assoc_get(d, alt_key()) {
        None => Seq::empty(),
        Some(ItemView::Str(s)) => seq![s],
        Some(ItemView::Arr(a)) => strs_of(a),
        Some(_) => Seq::empty(),
    }
}

/// Whether a tag file has a shape violation: a present but non-string
/// `title` or `description`, an `alt` value that is neither a string nor an
/// array of strings, or a language key not mapping to a well-formed
/// sub-table.
pub open spec fn tag_shape_bad(d: Seq<(Seq<u8>, ItemView)>) -> bool {
    ||| crate::infos::default_info_shape_bad(d)
    ||| !alt_ok(d)
    ||| crate::infos::lang_infos_shape_bad(d, tag_skip_keys())
}

/// Whether a tag file is well-formed against the declared languages.
pub open spec fn tag_table_ok(
    d: Seq<(Seq<u8>, ItemView)>,
    langs: Seq<(Seq<u8>, LanguageView)>,
) -> bool {
    &&& default_info_ok(d)
    &&& alt_ok(d)
    &&& lang_infos_ok(d, langs, tag_skip_keys())
}

/// The tag a well-formed tag file with canonical id `id` declares.
pub open spec fn spec_tag_of(
    id: Seq<u8>,
    d: Seq<(Seq<u8>, ItemView)>,
    langs: Seq<(Seq<u8>, LanguageView)>,
) -> TagView {
    TagView {
        id,
        alt_ids: spec_alt_ids(d),
        default_info: spec_default_info(d),
        infos: spec_lang_infos(d, langs, tag_skip_keys()),
    }
}

/// Build one tag from its parsed file.
fn tag_from_doc(path: &IPath, id: Vec<u8>, doc: &Doc, languages: &LanguageStore) -> (r: Result<
    Tag,
    LoadError,
>)
    ensures
        match r {
            Ok(tag) => tag_table_ok(doc@, languages@.languages) && tag@ == spec_tag_of(
                id@,
                doc@,
                languages@.languages,
            ),
            Err(e) => !tag_table_ok(doc@, languages@.languages) && match e {
                LoadError::Parse { path: p } => p@ == path@ && tag_shape_bad(doc@),
                LoadError::MissingContent { path: p } => p@ == path@
                    && crate::infos::default_info_missing(doc@),
                LoadError::UnknownReference { path: p, id: bad } => {
                    &&& p@ == path@
                    &&& spec_assoc_get(languages@.languages, bad@) is None
                    &&& crate::infos::lang_key_used(doc@, tag_skip_keys(), bad@)
                },
                _ => false,
            },
        },
{
    let default_info = match default_info_from_doc(path, doc) {
        Ok(v) => v,
        Err(e) => {
            return Err(e);
        },
    };
    let ak = alt_key_bytes();
    let alt_ids: Vec<Vec<u8>> = match doc.get(ak.as_slice()) {
        None => {
            let v: Vec<Vec<u8>> = Vec::new();
            proof {
                assert(bytes_views(v@) =~= spec_alt_ids(doc@));
            }
            v
        },
        Some(Item::Str(s)) => {
            let mut v: Vec<Vec<u8>> = Vec::new();
            v.push(clone_bytes(s));
            proof {
                assert(bytes_views(v@) =~= spec_alt_ids(doc@));
            }
            v
        },
        Some(Item::Arr(a)) => {
            let ghost av = leafs_view(a@);
            let mut v: Vec<Vec<u8>> = Vec::new();
            let mut i: usize = 0;
            proof {
                assert(av.take(0) =~= Seq::<LeafView>::empty());
                assert(bytes_views(v@) =~= strs_of(av.take(0)));
            }
            while i < a.len()
                invariant
                    i <= a@.len(),
                    a@.len() == av.len(),
                    av == leafs_view(a@),
                    spec_assoc_get(doc@, alt_key()) == Some(ItemView::Arr(av)),
                    bytes_views(v@) == strs_of(av.take(i as int)),
                    forall|j: int| 0 <= j < i ==> (#[trigger] av[j]) is Str,
                decreases a@.len() - i,
            {
                proof {
                    assert(av.take(i + 1).drop_last() =~= av.take(i as int));
                    assert(av.take(i + 1).last() == av[i as int]);
                    assert(av[i as int] == a@[i as int]@);
                }
                match &a[i] {
                    Leaf::Str(s) => {
                        v.push(clone_bytes(s));
                        proof {
                            assert(bytes_views(v@) =~= strs_of(av.take(i + 1)));
                        }
                    },
                    Leaf::Other => {
                        proof {
                            assert(!alt_ok(doc@));
                        }
                        return Err(LoadError::Parse { path: path.clone() });
                    },
                }
                i += 1;
            }
            proof {
                assert(av.take(av.len() as int) =~= av);
                assert(bytes_views(v@) == spec_alt_ids(doc@));
            }
            v
        },
        Some(_) => {
            return Err(LoadError::Parse { path: path.clone() });
        },
    };
    let skip = tag_skip_keys_bytes();
    let infos = match lang_infos_from_doc(path, doc, languages, &skip) {
        Ok(v) => v,
        Err(e) => {
            proof {
                match &e {
                    LoadError::Parse { .. } => {
                        crate::infos::lemma_shape_bad_not_ok(
                            doc@,
                            languages@.languages,
                            tag_skip_keys(),
                        );
                    },
                    LoadError::UnknownReference { path: _, id: bad } => {
                        crate::infos::lemma_unknown_key_not_ok(
                            doc@,
                            languages@.languages,
                            tag_skip_keys(),
                            bad@,
                        );
                    },
                    _ => {},
                }
            }
            return Err(e);
        },
    };
    let r = Tag { id, alt_ids, default_info, infos };
    proof {
        assert(r@.alt_ids == spec_alt_ids(doc@));
    }
    Ok(r)
}

/// The tags store: each tag under its canonical id and under each of its
/// aliasing ids.
pub struct TagStore {
    pub tags: Vec<(Vec<u8>, Tag)>,
}

/// The views of tag entries.
pub open spec fn tag_entries_view(s: Seq<(Vec<u8>, Tag)>) -> Seq<(Seq<u8>, TagView)> {
    Seq::new(s.len(), |i: int| (s[i].0@, s[i].1@))
}

impl View for TagStore {
    type V = Seq<(Seq<u8>, TagView)>;

    open spec fn view(&self) -> Seq<(Seq<u8>, TagView)> {
        tag_entries_view(self.tags@)
    }
}

impl TagStore {
    /// The tag known under `id` (a canonical id or an alias), or `None`.
    pub fn get(&self, id: &[u8]) -> (r: Option<Tag>)
        ensures
            match r {
                Some(tag) => spec_assoc_get(self@, id@) == Some(tag@),
                None => spec_assoc_get(self@, id@) is None,
            },
    {
        let mut i: usize = 0;
        while i < self.tags.len()
            invariant
                i <= self.tags@.len(),
                forall|j: int| 0 <= j < i ==> (#[trigger] self@[j]).0 != id@,
            decreases self.tags@.len() - i,
        {
            if crate::bytes_eq(self.tags[i].0.as_slice(), id) {
                proof {
                    lemma_assoc_get_found(self@, id@, i as int);
                }
                return Some(self.tags[i].1.clone());
            }
            proof {
                assert(self@[i as int].0 == self.tags@[i as int].0@);
            }
            i += 1;
        }
        proof {
            lemma_assoc_get_absent(self@, id@);
        }
        None
    }

    /// The title the tag under `id` shows in `lang`, or `None` for an
    /// unknown id.
    pub fn title(&self, id: &[u8], lang: &Language) -> (r: Option<Vec<u8>>)
        ensures
            match r {
                Some(s) => spec_assoc_get(self@, id@) matches Some(tag) && s@ == spec_tag_title(
                    tag,
                    lang@,
                ),
                None => spec_assoc_get(self@, id@) is None,
            },
    {
        match self.get(id) {
            Some(tag) => Some(tag.title(lang)),
            None => None,
        }
    }

    /// The description the tag under `id` shows in `lang`, or `None` for an
    /// unknown id.
    pub fn description(&self, id: &[u8], lang: &Language) -> (r: Option<Vec<u8>>)
        ensures
            match r {
                Some(s) => spec_assoc_get(self@, id@) matches Some(tag) && s@
                    == spec_tag_description(tag, lang@),
                None => spec_assoc_get(self@, id@) is None,
            },
    {
        match self.get(id) {
            Some(tag) => Some(tag.description(lang)),
            None => None,
        }
    }

    /// The full record the tag under `id` shows in `lang`, or `None` for an
    /// unknown id.
    pub fn info(&self, id: &[u8], lang: &Language) -> (r: Option<Info<Vec<u8>>>)
        ensures
            match r {
                Some(info) => spec_assoc_get(self@, id@) matches Some(tag) && info@.title
                    == spec_tag_title(tag, lang@) && info@.description == spec_tag_description(
                    tag,
                    lang@,
                ),
                None => spec_assoc_get(self@, id@) is None,
            },
    {
        match self.get(id) {
            Some(tag) => Some(tag.info(lang)),
            None => None,
        }
    }

    /// All store entries' tags, in store order (a tag appears once per id
    /// it is known under).
    pub fn iter(&self) -> (r: Vec<Tag>)
        ensures
            r@.len() == self@.len(),
            forall|i: int| 0 <= i < r@.len() ==> (#[trigger] r@[i]@) == self@[i].1,
    {
        let mut out: Vec<Tag> = Vec::new();
        let mut i: usize = 0;
        while i < self.tags.len()
            invariant
                i <= self.tags@.len(),
                self.tags@.len() == self@.len(),
                out@.len() == i,
                forall|j: int| 0 <= j < i ==> (#[trigger] out@[j]@) == self@[j].1,
            decreases self.tags@.len() - i,
        {
            out.push(self.tags[i].1.clone());
            i += 1;
        }
        out
    }

    /// All ids the store knows, in store order.
    pub fn iter_ids(&self) -> (r: Vec<Vec<u8>>)
        ensures
            r@.len() == self@.len(),
            forall|i: int| 0 <= i < r@.len() ==> (#[trigger] r@[i]@) == self@[i].0,
    {
        let mut out: Vec<Vec<u8>> = Vec::new();
        let mut i: usize = 0;
        while i < self.tags.len()
            invariant
                i <= self.tags@.len(),
                self.tags@.len() == self@.len(),
                out@.len() == i,
                forall|j: int| 0 <= j < i ==> (#[trigger] out@[j]@) == self@[j].0,
            decreases self.tags@.len() - i,
        {
            out.push(clone_bytes(&self.tags[i].0));
            i += 1;
        }
        out
    }
}

/// The store entries one tag contributes: itself under its canonical id,
/// then under each aliasing id.
pub open spec fn spec_tag_aliases(tag: TagView) -> Seq<(Seq<u8>, TagView)> {
    seq![(tag.id, tag)] + Seq::new(tag.alt_ids.len(), |i: int| (tag.alt_ids[i], tag))
}

/// The tag a snapshot file declares: its canonical id is the decomposed
/// name of its filename, its content parses as a tag file.
pub open spec fn spec_file_tag(
    f: (Seq<Seq<u8>>, Seq<char>),
    langs: Seq<(Seq<u8>, LanguageView)>,
) -> TagView {
    spec_tag_of(spec_first(f.0), toml_doc_of(f.1)->Some_0, langs)
}

/// Whether every file of a tags snapshot parses as a well-formed tag file.
pub open spec fn tags_fs_ok(
    fsv: Seq<(Seq<Seq<u8>>, Seq<char>)>,
    langs: Seq<(Seq<u8>, LanguageView)>,
) -> bool {
    forall|i: int|
        0 <= i < fsv.len() ==> toml_doc_of((#[trigger] fsv[i]).1) is Some && tag_table_ok(
            toml_doc_of(fsv[i].1)->Some_0,
            langs,
        )
}

/// The tag store a tags snapshot declares: each file's tag under its
/// canonical id and its aliases, files in snapshot order.
pub open spec fn spec_tag_store(
    fsv: Seq<(Seq<Seq<u8>>, Seq<char>)>,
    langs: Seq<(Seq<u8>, LanguageView)>,
) -> Seq<(Seq<u8>, TagView)>
    decreases fsv.len(),
{
    if fsv.len() == 0 {
        Seq::empty()
    } else {
        spec_tag_store(fsv.drop_last(), langs) + spec_tag_aliases(
            spec_file_tag(fsv.last(), langs),
        )
    }
}

/// Load the tag store from a snapshot of the tags tree: every file is one
/// tag, keyed under its canonical id and each of its aliasing ids.
pub fn process_tags(fs: &Fs, languages: &LanguageStore) -> (r: Result<TagStore, LoadError>)
    ensures
        match r {
            Ok(store) => tags_fs_ok(fs@, languages@.languages) && store@ == spec_tag_store(
                fs@,
                languages@.languages,
            ),
            Err(e) => !tags_fs_ok(fs@, languages@.languages) && match e {
                LoadError::Parse { path: p } => exists|i: int|
                    0 <= i < fs@.len() && (#[trigger] fs@[i]).0 == p@ && (toml_doc_of(
                        fs@[i].1,
                    ) is None || tag_shape_bad(toml_doc_of(fs@[i].1)->Some_0)),
                LoadError::MissingContent { path: p } => exists|i: int|
                    0 <= i < fs@.len() && (#[trigger] fs@[i]).0 == p@ && toml_doc_of(
                        fs@[i].1,
                    ) is Some && crate::infos::default_info_missing(
                        toml_doc_of(fs@[i].1)->Some_0,
                    ),
                LoadError::UnknownReference { path: p, id } => spec_assoc_get(
                    languages@.languages,
                    id@,
                ) is None && exists|i: int|
                    0 <= i < fs@.len() && (#[trigger] fs@[i]).0 == p@ && toml_doc_of(
                        fs@[i].1,
                    ) is Some && crate::infos::lang_key_used(
                        toml_doc_of(fs@[i].1)->Some_0,
                        tag_skip_keys(),
                        id@,
                    ),
                _ => false,
            },
        },
{
    let ghost fsv = fs@;
    let ghost langs = languages@.languages;
    let mut tags: Vec<(Vec<u8>, Tag)> = Vec::new();
    let mut i: usize = 0;
    proof {
        assert(fsv.take(0) =~= Seq::<(Seq<Seq<u8>>, Seq<char>)>::empty());
        assert(tag_entries_view(tags@) =~= spec_tag_store(fsv.take(0), langs));
    }
    while i < fs.files.len()
        invariant
            i <= fs.files@.len(),
            fs.files@.len() == fsv.len(),
            fsv == fs@,
            langs == languages@.languages,
            tag_entries_view(tags@) == spec_tag_store(fsv.take(i as int), langs),
            forall|j: int|
                0 <= j < i ==> toml_doc_of((#[trigger] fsv[j]).1) is Some && tag_table_ok(
                    toml_doc_of(fsv[j].1)->Some_0,
                    langs,
                ),
        decreases fs.files@.len() - i,
    {
        proof {
            assert(fsv.take(i + 1).drop_last() =~= fsv.take(i as int));
            assert(fsv.take(i + 1).last() == fsv[i as int]);
            assert(fsv[i as int] == (fs.files@[i as int].0@, fs.files@[i as int].1@));
        }
        let path = &fs.files[i].0;
        let doc = match parse_toml(fs.files[i].1.as_str()) {
            Some(doc) => doc,
            None => {
                return Err(LoadError::Parse { path: path.clone() });
            },
        };
        let (_parts, id) = path_to_parts_and_first(path);
        let tag = match tag_from_doc(path, id, &doc, languages) {
            Ok(tag) => tag,
            Err(e) => {
                return Err(e);
            },
        };
        let ghost tagv = tag@;
        let ghost target = spec_tag_aliases(tagv);
        let ghost prev = tag_entries_view(tags@);
        proof {
            assert(tagv == spec_file_tag(fsv[i as int], langs));
            assert(target[0] == (tagv.id, tagv));
        }
        tags.push((clone_bytes(&tag.id), tag.clone()));
        proof {
            assert(tag_entries_view(tags@) =~= prev + target.take(1));
        }
        let mut k: usize = 0;
        while k < tag.alt_ids.len()
            invariant
                k <= tag.alt_ids@.len(),
                tag.alt_ids@.len() == tagv.alt_ids.len(),
                tagv == tag@,
                target == spec_tag_aliases(tagv),
                target.len() == 1 + tagv.alt_ids.len(),
                tag_entries_view(tags@) == prev + target.take(1 + k),
            decreases tag.alt_ids@.len() - k,
        {
            proof {
                assert(target[1 + k] == (tagv.alt_ids[k as int], tagv));
                assert(tag.alt_ids@[k as int]@ == tagv.alt_ids[k as int]);
            }
            let ghost before = tags@;
            let alt = clone_bytes(&tag.alt_ids[k]);
            let copy = tag.clone();
            let ghost pairv = (alt@, copy@);
            tags.push((alt, copy));
            proof {
                assert(tag_entries_view(tags@) =~= tag_entries_view(before).push(pairv));
                assert(pairv == target[1 + k]);
                assert(prev + target.take(2 + k) =~= (prev + target.take(1 + k)).push(
                    target[1 + k],
                ));
            }
            k += 1;
        }
        proof {
            assert(target.take(target.len() as int) =~= target);
            assert(tag_entries_view(tags@) =~= spec_tag_store(fsv.take(i + 1), langs));
        }
        i += 1;
    }
    proof {
        assert(fsv.take(fsv.len() as int) =~= fsv);
    }
    Ok(TagStore { tags })
}

/// No entry of one tag's alias list carries a foreign key: looking up an
/// id that is not the tag's canonical id nor one of its aliases finds
/// nothing there.
proof fn lemma_alias_absent(tag: TagView, a: Seq<u8>)
    requires
        a != tag.id,
        !tag.alt_ids.contains(a),
    ensures
        spec_assoc_get(spec_tag_aliases(tag), a) == None::<TagView>,
{
    let entries = spec_tag_aliases(tag);
    assert forall|j: int| 0 <= j < entries.len() implies (#[trigger] entries[j]).0 != a by {
        if j > 0 {
            assert(entries[j] == (tag.alt_ids[j - 1], tag));
            assert(tag.alt_ids[j - 1] != a);
        }
    }
    lemma_assoc_get_absent(entries, a);
}

/// Every entry of one tag's alias list carries the tag itself: looking up
/// its canonical id or any of its aliases yields the tag.
proof fn lemma_alias_found(tag: TagView, a: Seq<u8>)
    requires
        a == tag.id || tag.alt_ids.contains(a),
    ensures
        spec_assoc_get(spec_tag_aliases(tag), a) == Some(tag),
{
    let entries = spec_tag_aliases(tag);
    if a == tag.id {
        assert(entries[0].0 == a);
    } else {
        let j = choose|j: int| 0 <= j < tag.alt_ids.len() && tag.alt_ids[j] == a;
        assert(entries[j + 1] == (tag.alt_ids[j], tag));
        assert(entries[j + 1].0 == a);
    }
    assert forall|j: int|
        0 <= j < entries.len() && (#[trigger] entries[j]).0 == a implies entries[j].1 == tag by {
        if j == 0 {
        } else {
            assert(entries[j] == (tag.alt_ids[j - 1], tag));
        }
    }
    lemma_assoc_get_uniform(entries, a, tag);
}

/// An id that no file of the snapshot declares, canonically or as an alias,
/// is not in the store.
proof fn lemma_tag_store_absent(
    fsv: Seq<(Seq<Seq<u8>>, Seq<char>)>,
    langs: Seq<(Seq<u8>, LanguageView)>,
    a: Seq<u8>,
)
    requires
        forall|j: int|
            0 <= j < fsv.len() ==> {
                let t = spec_file_tag(#[trigger] fsv[j], langs);
                a != t.id && !t.alt_ids.contains(a)
            },
    ensures
        spec_assoc_get(spec_tag_store(fsv, langs), a) == None::<TagView>,
    decreases fsv.len(),
{
    if fsv.len() > 0 {
        assert forall|j: int|
            0 <= j < fsv.drop_last().len() implies {
            let t = spec_file_tag(#[trigger] fsv.drop_last()[j], langs);
            a != t.id && !t.alt_ids.contains(a)
        } by {
            assert(fsv.drop_last()[j] == fsv[j]);
        }
        lemma_tag_store_absent(fsv.drop_last(), langs, a);
        assert(fsv[fsv.len() - 1] == fsv.last());
        lemma_alias_absent(spec_file_tag(fsv.last(), langs), a);
        lemma_assoc_get_append(
            spec_tag_store(fsv.drop_last(), langs),
            spec_tag_aliases(spec_file_tag(fsv.last(), langs)),
            a,
        );
    }
}

/// A tag declared with aliasing ids is retrievable under its canonical id
/// and under every alias, always yielding the tag whose id is the canonical
/// one — provided no other file of the snapshot claims the same id.
pub proof fn lemma_tag_retrievable(
    fsv: Seq<(Seq<Seq<u8>>, Seq<char>)>,
    langs: Seq<(Seq<u8>, LanguageView)>,
    i: int,
    a: Seq<u8>,
)
    requires
        0 <= i < fsv.len(),
        ({
            let t = spec_file_tag(fsv[i], langs);
            a == t.id || t.alt_ids.contains(a)
        }),
        forall|j: int|
            0 <= j < fsv.len() && j != i ==> {
                let t = spec_file_tag(#[trigger] fsv[j], langs);
                a != t.id && !t.alt_ids.contains(a)
            },
    ensures
        spec_assoc_get(spec_tag_store(fsv, langs), a) == Some(spec_file_tag(fsv[i], langs)),
        spec_file_tag(fsv[i], langs).id == spec_first(fsv[i].0),
    decreases fsv.len(),
{
    let tag = spec_file_tag(fsv[i], langs);
    if i == fsv.len() - 1 {
        assert(fsv[i] == fsv.last());
        assert forall|j: int|
            0 <= j < fsv.drop_last().len() implies {
            let t = spec_file_tag(#[trigger] fsv.drop_last()[j], langs);
            a != t.id && !t.alt_ids.contains(a)
        } by {
            assert(fsv.drop_last()[j] == fsv[j]);
        }
        lemma_tag_store_absent(fsv.drop_last(), langs, a);
        lemma_alias_found(tag, a);
    } else {
        assert forall|j: int|
            0 <= j < fsv.drop_last().len() && j != i implies {
            let t = spec_file_tag(#[trigger] fsv.drop_last()[j], langs);
            a != t.id && !t.alt_ids.contains(a)
        } by {
            assert(fsv.drop_last()[j] == fsv[j]);
        }
        assert(fsv.drop_last()[i] == fsv[i]);
        lemma_tag_retrievable(fsv.drop_last(), langs, i, a);
        assert(fsv[fsv.len() - 1] == fsv.last());
        lemma_alias_absent(spec_file_tag(fsv.last(), langs), a);
    }
    lemma_assoc_get_append(
        spec_tag_store(fsv.drop_last(), langs),
        spec_tag_aliases(spec_file_tag(fsv.last(), langs)),
        a,
    );
}

} // verus!
