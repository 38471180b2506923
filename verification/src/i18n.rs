//! Translation strings.
//!
//! The i18n file is a table keyed by string id; each entry is a sub-table
//! with a required `default` display string and optional per-language-id
//! override strings. Every language key must be declared in the language
//! store.

use vstd::prelude::*;

use crate::doc::leaf_entries_view;
use crate::doc::parse_toml;
use crate::doc::toml_doc_of;
use crate::doc::Item;
use crate::doc::ItemView;
use crate::doc::Leaf;
use crate::doc::LeafView;
use crate::doc::leaf_table_get;
use crate::error::LoadError;
use crate::language::default_key;
use crate::language::default_key_bytes;
use crate::language::Language;
use crate::language::LanguageStore;
use crate::language::LanguageView;
use crate::path::clone_bytes;
use crate::path::IPath;
use crate::utils::lemma_assoc_get_absent;
use crate::utils::lemma_assoc_get_found;
use crate::utils::lemma_assoc_get_some_index;
use crate::utils::spec_assoc_get;

verus! {

/// One translatable string: its default display and its per-language
/// overrides, in file order.
pub struct I18n {
    pub default_display: Vec<u8>,
    pub displays: Vec<(Language, Vec<u8>)>,
}

/// The view of an [`I18n`].
pub struct I18nView {
    pub default_display: Seq<u8>,
    pub displays: Seq<(LanguageView, Seq<u8>)>,
}

/// The views of display entries.
pub open spec fn displays_view(s: Seq<(Language, Vec<u8>)>) -> Seq<(LanguageView, Seq<u8>)> {
    Seq::new(s.len(), |i: int| (s[i].0@, s[i].1@))
}

impl View for I18n {
    type V = I18nView;

    open spec fn view(&self) -> I18nView {
        I18nView { default_display: self.default_display@, displays: displays_view(self.displays@) }
    }
}

/// The display string an i18n entry gives for a language: its override for
/// that language, or its default display.
pub open spec fn spec_display_of(i: I18nView, lang: LanguageView) -> Seq<u8> {
    match spec_assoc_get(i.displays, lang) {
        Some(s) => s,
        None => i.default_display,
    }
}

/// The translatable strings, keyed by id in file order.
pub struct I18nStore {
    pub i18ns: Vec<(Vec<u8>, I18n)>,
}

/// The views of i18n entries.
pub open spec fn i18n_entries_view(s: Seq<(Vec<u8>, I18n)>) -> Seq<(Seq<u8>, I18nView)> {
    Seq::new(s.len(), |i: int| (s[i].0@, s[i].1@))
}

impl View for I18nStore {
    type V = Seq<(Seq<u8>, I18nView)>;

    open spec fn view(&self) -> Seq<(Seq<u8>, I18nView)> {
        i18n_entries_view(self.i18ns@)
    }
}

impl I18nStore {
    /// The display string for `key` in `lang`: the entry's override for the
    /// language, or its default display; `None` when the key is unknown.
    pub fn display(&self, key: &[u8], lang: &Language) -> (r: Option<Vec<u8>>)
        ensures
            match r {
                Some(s) => spec_assoc_get(self@, key@) matches Some(i) && s@ == spec_display_of(
                    i,
                    lang@,
                ),
                None => spec_assoc_get(self@, key@) is None,
            },
    {
        let mut i: usize = 0;
        while i < self.i18ns.len()
            invariant
                i <= self.i18ns@.len(),
                self.i18ns@.len() == self@.len(),
                forall|j: int| 0 <= j < i ==> (#[trigger] self@[j]).0 != key@,
            decreases self.i18ns@.len() - i,
        {
            if crate::bytes_eq(self.i18ns[i].0.as_slice(), key) {
                proof {
                    lemma_assoc_get_found(self@, key@, i as int);
                }
                let entry = &self.i18ns[i].1;
                let mut k: usize = 0;
                while k < entry.displays.len()
                    invariant
                        k <= entry.displays@.len(),
                        spec_assoc_get(self@, key@) == Some(entry@),
                        forall|j: int|
                            0 <= j < k ==> (#[trigger] displays_view(entry.displays@)[j]).0
                                != lang@,
                    decreases entry.displays@.len() - k,
                {
                    if entry.displays[k].0.equals(lang) {
                        proof {
                            lemma_assoc_get_found(displays_view(entry.displays@), lang@, k as int);
                        }
                        return Some(clone_bytes(&entry.displays[k].1));
                    }
                    proof {
                        assert(displays_view(entry.displays@)[k as int].0
                            == entry.displays@[k as int].0@);
                    }
                    k += 1;
                }
                proof {
                    lemma_assoc_get_absent(displays_view(entry.displays@), lang@);
                }
                return Some(clone_bytes(&entry.default_display));
            }
            proof {
                assert(self@[i as int].0 == self.i18ns@[i as int].0@);
            }
            i += 1;
        }
        proof {
            lemma_assoc_get_absent(self@, key@);
        }
        None
    }

    /// All declared string ids, in file order.
    pub fn iter_ids(&self) -> (r: Vec<Vec<u8>>)
        ensures
            r@.len() == self@.len(),
            forall|i: int| 0 <= i < r@.len() ==> (#[trigger] r@[i]@) == self@[i].0,
    {
        let mut out: Vec<Vec<u8>> = Vec::new();
        let mut i: usize = 0;
        while i < self.i18ns.len()
            invariant
                i <= self.i18ns@.len(),
                self.i18ns@.len() == self@.len(),
                out@.len() == i,
                forall|j: int| 0 <= j < i ==> (#[trigger] out@[j]@) == self@[j].0,
            decreases self.i18ns@.len() - i,
        {
            out.push(clone_bytes(&self.i18ns[i].0));
            i += 1;
        }
        out
    }
}

/// Whether one i18n sub-table is well-formed against the declared
/// languages: a string under `default`, strings everywhere else, and every
/// non-`default` key a declared language id.
pub open spec fn i18n_table_ok(
    t: Seq<(Seq<u8>, LeafView)>,
    langs: Seq<(Seq<u8>, LanguageView)>,
) -> bool {
    &&& spec_assoc_get(t, default_key()) matches Some(LeafView::Str(s))
    &&& forall|j: int| 0 <= j < t.len() && (#[trigger] t[j]).0 != default_key() ==> t[j].1 is Str
    &&& forall|j: int|
        0 <= j < t.len() && (#[trigger] t[j]).0 != default_key() ==> spec_assoc_get(
            langs,
            t[j].0,
        ) is Some
}

/// The per-language overrides an i18n sub-table declares, in table order.
pub open spec fn spec_displays(
    t: Seq<(Seq<u8>, LeafView)>,
    langs: Seq<(Seq<u8>, LanguageView)>,
) -> Seq<(LanguageView, Seq<u8>)>
    decreases t.len(),
{
    if t.len() == 0 {
        Seq::empty()
    } else {
        let rest = spec_displays(t.drop_last(), langs);
        let kv = t.last();
        if kv.0 == default_key() {
            rest
        } else {
            match (spec_assoc_get(langs, kv.0), kv.1) {
                (Some(l), LeafView::Str(s)) => rest.push((l, s)),
                _ => rest,
            }
        }
    }
}

/// The i18n entry an i18n sub-table declares.
pub open spec fn spec_i18n_view(
    t: Seq<(Seq<u8>, LeafView)>,
    langs: Seq<(Seq<u8>, LanguageView)>,
) -> I18nView {
    I18nView {
        default_display: spec_assoc_get(t, default_key())->Some_0->Str_0,
        displays: spec_displays(t, langs),
    }
}

/// Whether an i18n sub-table has a shape violation: a present but
/// non-string `default`, or a non-string value under any other key.
pub open spec fn i18n_table_shape_bad(t: Seq<(Seq<u8>, LeafView)>) -> bool {
    ||| (spec_assoc_get(t, default_key()) matches Some(v) && !(v is Str))
    ||| (exists|k: int|
        0 <= k < t.len() && (#[trigger] t[k]).0 != default_key() && !(t[k].1 is Str))
}

/// Whether an i18n sub-table uses `id` as a language key.
pub open spec fn i18n_key_used(t: Seq<(Seq<u8>, LeafView)>, id: Seq<u8>) -> bool {
    id != default_key() && exists|k: int| 0 <= k < t.len() && (#[trigger] t[k]).0 == id
}

/// A shape violation makes the sub-table ill-formed.
proof fn lemma_i18n_shape_bad_not_ok(t: Seq<(Seq<u8>, LeafView)>, langs: Seq<(Seq<u8>, LanguageView)>)
    requires
        i18n_table_shape_bad(t),
    ensures
        !i18n_table_ok(t, langs),
{
    if exists|k: int| 0 <= k < t.len() && (#[trigger] t[k]).0 != default_key() && !(t[k].1 is Str) {
        let k = choose|k: int|
            0 <= k < t.len() && (#[trigger] t[k]).0 != default_key() && !(t[k].1 is Str);
        assert(!(t[k].1 is Str));
    }
}

/// An undeclared language key makes the sub-table ill-formed.
proof fn lemma_i18n_unknown_not_ok(
    t: Seq<(Seq<u8>, LeafView)>,
    langs: Seq<(Seq<u8>, LanguageView)>,
    id: Seq<u8>,
)
    requires
        i18n_key_used(t, id),
        spec_assoc_get(langs, id) is None,
    ensures
        !i18n_table_ok(t, langs),
{
    let k = choose|k: int| 0 <= k < t.len() && (#[trigger] t[k]).0 == id;
    assert(!(spec_assoc_get(langs, t[k].0) is Some));
}

/// Build one i18n entry from its sub-table.
fn i18n_from_table(path: &IPath, t: &Vec<(Vec<u8>, Leaf)>, languages: &LanguageStore) -> (r: Result<
    I18n,
    LoadError,
>)
    ensures
        match r {
            Ok(v) => i18n_table_ok(leaf_entries_view(t@), languages@.languages) && v@
                == spec_i18n_view(leaf_entries_view(t@), languages@.languages),
            Err(e) => match e {
                LoadError::Parse { path: p } => p@ == path@ && i18n_table_shape_bad(
                    leaf_entries_view(t@),
                ),
                LoadError::MissingContent { path: p } => p@ == path@ && spec_assoc_get(
                    leaf_entries_view(t@),
                    default_key(),
                ) is None,
                LoadError::UnknownReference { path: p, id } => {
                    &&& p@ == path@
                    &&& spec_assoc_get(languages@.languages, id@) is None
                    &&& i18n_key_used(leaf_entries_view(t@), id@)
                },
                _ => false,
            },
        },
{
    let ghost tv = leaf_entries_view(t@);
    let ghost langs = languages@.languages;
    let dk = default_key_bytes();
    let default_display = match leaf_table_get(t, dk.as_slice()) {
        None => {
            return Err(LoadError::MissingContent { path: path.clone() });
        },
        Some(Leaf::Str(s)) => clone_bytes(s),
        Some(leaf) => {
            proof {
                lemma_assoc_get_some_index(tv, default_key(), leaf@);
            }
            return Err(LoadError::Parse { path: path.clone() });
        },
    };
    let mut displays: Vec<(Language, Vec<u8>)> = Vec::new();
    let mut k: usize = 0;
    proof {
        assert(tv.take(0) =~= Seq::<(Seq<u8>, LeafView)>::empty());
        assert(displays_view(displays@) =~= spec_displays(tv.take(0), langs));
    }
    while k < t.len()
        invariant
            k <= t@.len(),
            t@.len() == tv.len(),
            tv == leaf_entries_view(t@),
            langs == languages@.languages,
            dk@ == default_key(),
            spec_assoc_get(tv, default_key()) matches Some(LeafView::Str(s)),
            displays_view(displays@) == spec_displays(tv.take(k as int), langs),
            forall|j: int| 0 <= j < k && (#[trigger] tv[j]).0 != default_key() ==> tv[j].1 is Str,
            forall|j: int|
                0 <= j < k && (#[trigger] tv[j]).0 != default_key() ==> spec_assoc_get(
                    langs,
                    tv[j].0,
                ) is Some,
        decreases t@.len() - k,
    {
        proof {
            assert(tv.take(k + 1).drop_last() =~= tv.take(k as int));
            assert(tv.take(k + 1).last() == tv[k as int]);
            assert(tv[k as int] == (t@[k as int].0@, t@[k as int].1@));
        }
        let key = &t[k].0;
        if !crate::bytes_eq(key.as_slice(), dk.as_slice()) {
            let lang = match languages.get(key.as_slice()) {
                Ok(lang) => lang,
                Err(_) => {
                    return Err(
                        LoadError::UnknownReference { path: path.clone(), id: clone_bytes(key) },
                    );
                },
            };
            match &t[k].1 {
                Leaf::Str(s) => {
                    displays.push((lang, clone_bytes(s)));
                },
                Leaf::Other => {
                    return Err(LoadError::Parse { path: path.clone() });
                },
            }
        }
        proof {
            assert(displays_view(displays@) =~= spec_displays(tv.take(k + 1), langs));
        }
        k += 1;
    }
    proof {
        assert(tv.take(tv.len() as int) =~= tv);
    }
    Ok(I18n { default_display, displays })
}

/// Whether the whole i18n document is well-formed against the declared
/// languages: every entry a sub-table that is itself well-formed.
pub open spec fn i18n_doc_ok(
    d: Seq<(Seq<u8>, ItemView)>,
    langs: Seq<(Seq<u8>, LanguageView)>,
) -> bool {
    forall|j: int|
        0 <= j < d.len() ==> (#[trigger] d[j]).1 is Table && i18n_table_ok(d[j].1->Table_0, langs)
}

/// The i18n entries a document declares, in document order.
pub open spec fn spec_i18n_entries(
    d: Seq<(Seq<u8>, ItemView)>,
    langs: Seq<(Seq<u8>, LanguageView)>,
) -> Seq<(Seq<u8>, I18nView)>
    decreases d.len(),
{
    if d.len() == 0 {
        Seq::empty()
    } else {
        let rest = spec_i18n_entries(d.drop_last(), langs);
        let kv = d.last();
        match kv.1 {
            ItemView::Table(t) => rest.push((kv.0, spec_i18n_view(t, langs))),
            _ => rest,
        }
    }
}

/// The exact condition under which the i18n loader returns each fatal
/// error: a parse failure or shape violation for `Parse`, an entry without
/// its `default` display for `MissingContent`, an undeclared language key
/// for `UnknownReference` — each tied to the offending file path `p0`.
pub open spec fn spec_i18n_error(
    e: LoadError,
    p0: Seq<Seq<u8>>,
    text: Seq<char>,
    langs: Seq<(Seq<u8>, LanguageView)>,
) -> bool {
    match e {
        LoadError::Parse { path } => path@ == p0 && (toml_doc_of(text) is None || (toml_doc_of(
            text,
        ) matches Some(d) && exists|j: int|
            0 <= j < d.len() && (!((#[trigger] d[j]).1 is Table) || i18n_table_shape_bad(
                d[j].1->Table_0,
            )))),
        LoadError::MissingContent { path } => {
            &&& path@ == p0
            &&& toml_doc_of(text) matches Some(d)
            &&& exists|j: int|
                0 <= j < d.len() && (#[trigger] d[j]).1 is Table && spec_assoc_get(
                    d[j].1->Table_0,
                    default_key(),
                ) is None
        },
        LoadError::UnknownReference { path, id } => {
            &&& path@ == p0
            &&& spec_assoc_get(langs, id@) is None
            &&& toml_doc_of(text) matches Some(d)
            &&& exists|j: int|
                0 <= j < d.len() && (#[trigger] d[j]).1 is Table && i18n_key_used(
                    d[j].1->Table_0,
                    id@,
                )
        },
        _ => false,
    }
}

/// Load the i18n store from the text of the i18n file.
///
/// The text must parse as a table of sub-tables, each holding a string
/// under `default` and strings under declared language ids; each failure is
/// its own fatal error, carrying `path` as the offending file.
pub fn process_i18n(path: &IPath, text: &str, languages: &LanguageStore) -> (r: Result<
    I18nStore,
    LoadError,
>)
    ensures
        match r {
            Ok(store) => {
                &&& toml_doc_of(text@) matches Some(d)
                &&& i18n_doc_ok(toml_doc_of(text@)->Some_0, languages@.languages)
                &&& store@ == spec_i18n_entries(toml_doc_of(text@)->Some_0, languages@.languages)
            },
            Err(e) => spec_i18n_error(e, path@, text@, languages@.languages),
        },
{
    let doc = match parse_toml(text) {
        Some(doc) => doc,
        None => {
            return Err(LoadError::Parse { path: path.clone() });
        },
    };
    let ghost d = doc@;
    let ghost langs = languages@.languages;
    let mut i18ns: Vec<(Vec<u8>, I18n)> = Vec::new();
    let mut i: usize = 0;
    proof {
        assert(d.take(0) =~= Seq::<(Seq<u8>, ItemView)>::empty());
        assert(i18n_entries_view(i18ns@) =~= spec_i18n_entries(d.take(0), langs));
    }
    while i < doc.entries.len()
        invariant
            i <= doc.entries@.len(),
            doc.entries@.len() == d.len(),
            d == doc@,
            langs == languages@.languages,
            toml_doc_of(text@) == Some(d),
            i18n_entries_view(i18ns@) == spec_i18n_entries(d.take(i as int), langs),
            forall|j: int|
                0 <= j < i ==> (#[trigger] d[j]).1 is Table && i18n_table_ok(
                    d[j].1->Table_0,
                    langs,
                ),
        decreases doc.entries@.len() - i,
    {
        proof {
            assert(d.take(i + 1).drop_last() =~= d.take(i as int));
            assert(d.take(i + 1).last() == d[i as int]);
            assert(d[i as int] == (doc.entries@[i as int].0@, doc.entries@[i as int].1@));
        }
        let key = &doc.entries[i].0;
        match &doc.entries[i].1 {
            Item::Table(t) => {
                let entry = match i18n_from_table(path, t, languages) {
                    Ok(entry) => entry,
                    Err(e) => {
                        proof {
                            assert(d[i as int].1->Table_0 == leaf_entries_view(t@));
                            assert(d[i as int].1 is Table);
                            match &e {
                                LoadError::Parse { .. } => {
                                    assert(i18n_table_shape_bad(d[i as int].1->Table_0));
                                },
                                LoadError::MissingContent { .. } => {
                                    assert(spec_assoc_get(
                                        d[i as int].1->Table_0,
                                        default_key(),
                                    ) is None);
                                },
                                LoadError::UnknownReference { path: _, id } => {
                                    assert(i18n_key_used(d[i as int].1->Table_0, id@));
                                },
                                _ => {},
                            }
                            assert(spec_i18n_error(e, path@, text@, langs));
                        }
                        return Err(e);
                    },
                };
                i18ns.push((clone_bytes(key), entry));
                proof {
                    assert(i18n_entries_view(i18ns@) =~= spec_i18n_entries(d.take(i + 1), langs));
                }
            },
            _ => {
                let bad = LoadError::Parse { path: path.clone() };
                proof {
                    assert(!(d[i as int].1 is Table));
                    assert(exists|j: int|
                        0 <= j < d.len() && (!((#[trigger] d[j]).1 is Table)
                            || i18n_table_shape_bad(d[j].1->Table_0)));
                    assert(spec_i18n_error(bad, path@, text@, langs));
                }
                return Err(bad);
            },
        }
        i += 1;
    }
    proof {
        assert(d.take(d.len() as int) =~= d);
    }
    Ok(I18nStore { i18ns })
}

} // verus!
