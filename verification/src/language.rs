//! Languages.
//!
//! The languages file is a table whose `default` key names the default
//! language id and whose every other key maps a language id to its display
//! name. The store is built once and read-only afterwards.

use vstd::prelude::*;

use crate::doc::parse_toml;
use crate::doc::toml_doc_of;
use crate::doc::ItemView;
use crate::error::LoadError;
use crate::path::IPath;
use crate::utils::lemma_assoc_get_absent;
use crate::utils::lemma_assoc_get_found;
use crate::utils::lemma_assoc_get_some_index;
use crate::utils::spec_assoc_get;

verus! {

/// The key `default`, as bytes.
pub open spec fn default_key() -> Seq<u8> {
    seq![100u8, 101u8, 102u8, 97u8, 117u8, 108u8, 116u8]
}

/// The key `default`, as a byte string.
pub fn default_key_bytes() -> (r: Vec<u8>)
    ensures
        r@ == default_key(),
{
    let mut v: Vec<u8> = Vec::new();
    v.push(100u8);
    v.push(101u8);
    v.push(102u8);
    v.push(97u8);
    v.push(117u8);
    v.push(108u8);
    v.push(116u8);
    proof {
        assert(v@ =~= default_key());
    }
    v
}

/// A language: its id (as used in filenames and table keys) and its display
/// name.
#[derive(Debug)]
pub struct Language {
    pub id: Vec<u8>,
    pub display: Vec<u8>,
}

/// The view of a [`Language`].
pub struct LanguageView {
    pub id: Seq<u8>,
    pub display: Seq<u8>,
}

impl View for Language {
    type V = LanguageView;

    open spec fn view(&self) -> LanguageView {
        LanguageView { id: self.id@, display: self.display@ }
    }
}

impl Clone for Language {
    fn clone(&self) -> (r: Self)
        ensures
            r@ == self@,
    {
        Language {
            id: crate::path::clone_bytes(&self.id),
            display: crate::path::clone_bytes(&self.display),
        }
    }
}

impl Language {
    /// Whether two languages have the same id and display name.
    pub fn equals(&self, other: &Language) -> (r: bool)
        ensures
            r == (self@ == other@),
    {
        let r = crate::bytes_eq(self.id.as_slice(), other.id.as_slice()) && crate::bytes_eq(
            self.display.as_slice(),
            other.display.as_slice(),
        );
        r
    }
}

/// The declared languages, keyed by id in file order, with the default
/// language singled out.
pub struct LanguageStore {
    pub default: Language,
    pub languages: Vec<(Vec<u8>, Language)>,
}

/// The view of a [`LanguageStore`].
pub struct LanguageStoreView {
    pub default: LanguageView,
    pub languages: Seq<(Seq<u8>, LanguageView)>,
}

/// The views of language entries.
pub open spec fn lang_entries_view(s: Seq<(Vec<u8>, Language)>) -> Seq<(Seq<u8>, LanguageView)> {
    Seq::new(s.len(), |i: int| (s[i].0@, s[i].1@))
}

impl View for LanguageStore {
    type V = LanguageStoreView;

    open spec fn view(&self) -> LanguageStoreView {
        LanguageStoreView {
            default: self.default@,
            languages: lang_entries_view(self.languages@),
        }
    }
}

impl LanguageStore {
    /// The language with the given id; an unknown id yields the default
    /// language as the error value.
    pub fn get(&self, id: &[u8]) -> (r: Result<Language, Language>)
        ensures
            match r {
                Ok(l) => spec_assoc_get(self@.languages, id@) == Some(l@),
                Err(d) => spec_assoc_get(self@.languages, id@) == None::<LanguageView> && d@
                    == self@.default,
            },
    {
        let mut i: usize = 0;
        while i < self.languages.len()
            invariant
                i <= self.languages@.len(),
                self.languages@.len() == self@.languages.len(),
                forall|j: int| 0 <= j < i ==> (#[trigger] self@.languages[j]).0 != id@,
            decreases self.languages@.len() - i,
        {
            if crate::bytes_eq(self.languages[i].0.as_slice(), id) {
                proof {
                    lemma_assoc_get_found(self@.languages, id@, i as int);
                }
                return Ok(self.languages[i].1.clone());
            }
            proof {
                assert(self@.languages[i as int].0 == self.languages@[i as int].0@);
            }
            i += 1;
        }
        proof {
            lemma_assoc_get_absent(self@.languages, id@);
        }
        Err(self.default.clone())
    }

    /// All declared languages, in file order.
    pub fn iter(&self) -> (r: Vec<Language>)
        ensures
            r@.len() == self@.languages.len(),
            forall|i: int| 0 <= i < r@.len() ==> (#[trigger] r@[i]@) == self@.languages[i].1,
    {
        let mut out: Vec<Language> = Vec::new();
        let mut i: usize = 0;
        while i < self.languages.len()
            invariant
                i <= self.languages@.len(),
                self.languages@.len() == self@.languages.len(),
                out@.len() == i,
                forall|j: int| 0 <= j < i ==> (#[trigger] out@[j]@) == self@.languages[j].1,
            decreases self.languages@.len() - i,
        {
            out.push(self.languages[i].1.clone());
            i += 1;
        }
        out
    }

    /// All declared language ids, in file order.
    pub fn iter_ids(&self) -> (r: Vec<Vec<u8>>)
        ensures
            r@.len() == self@.languages.len(),
            forall|i: int| 0 <= i < r@.len() ==> (#[trigger] r@[i]@) == self@.languages[i].0,
    {
        let mut out: Vec<Vec<u8>> = Vec::new();
        let mut i: usize = 0;
        while i < self.languages.len()
            invariant
                i <= self.languages@.len(),
                self.languages@.len() == self@.languages.len(),
                out@.len() == i,
                forall|j: int| 0 <= j < i ==> (#[trigger] out@[j]@) == self@.languages[j].0,
            decreases self.languages@.len() - i,
        {
            out.push(crate::path::clone_bytes(&self.languages[i].0));
            i += 1;
        }
        out
    }
}

/// Whether every top-level value of the languages document is a string.
pub open spec fn lang_values_ok(d: Seq<(Seq<u8>, ItemView)>) -> bool {
    forall|j: int| 0 <= j < d.len() ==> (#[trigger] d[j]).1 is Str
}

/// The language entries a document declares: every key but `default`, in
/// document order, each naming the language whose id is the key and whose
/// display name is the string value. Entries without a string value carry
/// no language.
pub open spec fn spec_lang_pairs(d: Seq<(Seq<u8>, ItemView)>) -> Seq<(Seq<u8>, LanguageView)>
    decreases d.len(),
{
    if d.len() == 0 {
        Seq::empty()
    } else {
        let rest = spec_lang_pairs(d.drop_last());
        let kv = d.last();
        if kv.0 == default_key() {
            rest
        } else {
            match kv.1 {
                ItemView::Str(s) => rest.push((kv.0, LanguageView { id: kv.0, display: s })),
                _ => rest,
            }
        }
    }
}

/// Load the language store from the text of the languages file.
///
/// The text must parse as a table whose values are all strings and whose
/// `default` key names one of the other keys; each failure is its own
/// fatal error, carrying `path` as the offending file.
pub fn process_languages(path: &IPath, text: &str) -> (r: Result<LanguageStore, LoadError>)
    ensures
        match r {
            Ok(store) => {
                &&& toml_doc_of(text@) matches Some(d)
                &&& lang_values_ok(toml_doc_of(text@)->Some_0)
                &&& spec_assoc_get(toml_doc_of(text@)->Some_0, default_key()) matches Some(
                    ItemView::Str(did),
                )
                &&& store@.languages == spec_lang_pairs(toml_doc_of(text@)->Some_0)
                &&& spec_assoc_get(
                    spec_lang_pairs(toml_doc_of(text@)->Some_0),
                    spec_assoc_get(toml_doc_of(text@)->Some_0, default_key())->Some_0->Str_0,
                ) == Some(store@.default)
            },
            Err(e) => match e {
                LoadError::Parse { path: p } => p@ == path@ && (toml_doc_of(text@) is None || (
                spec_assoc_get(toml_doc_of(text@)->Some_0, default_key()) is Some
                    && !lang_values_ok(toml_doc_of(text@)->Some_0))),
                LoadError::MissingContent { path: p } => {
                    &&& p@ == path@
                    &&& toml_doc_of(text@) matches Some(d)
                    &&& spec_assoc_get(d, default_key()) is None
                },
                LoadError::UnknownReference { path: p, id } => {
                    &&& p@ == path@
                    &&& toml_doc_of(text@) matches Some(d)
                    &&& lang_values_ok(d)
                    &&& spec_assoc_get(d, default_key()) matches Some(ItemView::Str(did))
                    &&& id@ == did
                    &&& spec_assoc_get(spec_lang_pairs(d), did) is None
                },
                _ => false,
            },
        },
{
    let doc = match parse_toml(text) {
        Some(doc) => doc,
        None => {
            return Err(LoadError::Parse { path: path.clone() });
        },
    };
    let ghost d = doc@;
    let default_key_v = default_key_bytes();
    let default_id = match doc.get(default_key_v.as_slice()) {
        None => {
            return Err(LoadError::MissingContent { path: path.clone() });
        },
        Some(crate::doc::Item::Str(s)) => crate::path::clone_bytes(s),
        Some(item) => {
            proof {
                lemma_assoc_get_some_index(d, default_key(), item@);
                let j = choose|j: int|
                    0 <= j < d.len() && (#[trigger] d[j]).0 == default_key() && d[j].1 == item@;
                assert(!(d[j].1 is Str));
            }
            return Err(LoadError::Parse { path: path.clone() });
        },
    };
    let ghost did = default_id@;
    let mut languages: Vec<(Vec<u8>, Language)> = Vec::new();
    let mut i: usize = 0;
    proof {
        assert(d.take(0) =~= Seq::<(Seq<u8>, ItemView)>::empty());
        assert(lang_entries_view(languages@) =~= spec_lang_pairs(d.take(0)));
    }
    while i < doc.entries.len()
        invariant
            i <= doc.entries@.len(),
            doc.entries@.len() == d.len(),
            d == doc@,
            toml_doc_of(text@) == Some(d),
            default_key_v@ == default_key(),
            did == default_id@,
            spec_assoc_get(d, default_key()) == Some(ItemView::Str(did)),
            lang_entries_view(languages@) == spec_lang_pairs(d.take(i as int)),
            forall|j: int| 0 <= j < i ==> (#[trigger] d[j]).1 is Str,
        decreases doc.entries@.len() - i,
    {
        proof {
            assert(d.take(i + 1).drop_last() =~= d.take(i as int));
            assert(d.take(i + 1).last() == d[i as int]);
            assert(d[i as int] == (doc.entries@[i as int].0@, doc.entries@[i as int].1@));
        }
        let key = &doc.entries[i].0;
        match &doc.entries[i].1 {
            crate::doc::Item::Str(s) => {
                if !crate::bytes_eq(key.as_slice(), default_key_v.as_slice()) {
                    let lang = Language {
                        id: crate::path::clone_bytes(key),
                        display: crate::path::clone_bytes(s),
                    };
                    languages.push((crate::path::clone_bytes(key), lang));
                }
                proof {
                    assert(lang_entries_view(languages@) =~= spec_lang_pairs(d.take(i + 1)));
                }
            },
            _ => {
                proof {
                    assert(!(d[i as int].1 is Str));
                }
                return Err(LoadError::Parse { path: path.clone() });
            },
        }
        i += 1;
    }
    proof {
        assert(d.take(d.len() as int) =~= d);
    }
    let mut k: usize = 0;
    while k < languages.len()
        invariant
            k <= languages@.len(),
            d == doc@,
            toml_doc_of(text@) == Some(d),
            did == default_id@,
            spec_assoc_get(d, default_key()) == Some(ItemView::Str(did)),
            lang_values_ok(d),
            forall|j: int|
                0 <= j < k ==> (#[trigger] lang_entries_view(languages@)[j]).0 != default_id@,
            lang_entries_view(languages@) == spec_lang_pairs(d),
        decreases languages@.len() - k,
    {
        if crate::bytes_eq(languages[k].0.as_slice(), default_id.as_slice()) {
            let default = languages[k].1.clone();
            proof {
                lemma_assoc_get_found(lang_entries_view(languages@), default_id@, k as int);
            }
            return Ok(LanguageStore { default, languages });
        }
        proof {
            assert(lang_entries_view(languages@)[k as int].0 == languages@[k as int].0@);
        }
        k += 1;
    }
    proof {
        lemma_assoc_get_absent(lang_entries_view(languages@), default_id@);
    }
    Err(LoadError::UnknownReference { path: path.clone(), id: default_id })
}

} // verus!
