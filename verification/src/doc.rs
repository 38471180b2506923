//! Parsed configuration documents.
//!
//! The content files are TOML tables whose shape is shallow: a top-level
//! table maps keys to strings, to arrays of strings, or to one level of
//! sub-table with string values. [`Doc`] models exactly that shape with
//! plain values; whatever lies outside it (numbers, dates, deeper nesting)
//! is kept as an opaque leaf that the loaders reject as unparseable where a
//! string is required. Parsing itself is entrusted to the `toml` crate; all
//! reading of the parsed document is verified.

use vstd::prelude::*;

use crate::utils::spec_assoc_get;

verus! {

/// A terminal value of a document: a string, or anything else.
pub enum Leaf {
    Str(Vec<u8>),
    Other,
}

/// The view of a [`Leaf`].
pub enum LeafView {
    Str(Seq<u8>),
    Other,
}

impl View for Leaf {
    type V = LeafView;

    open spec fn view(&self) -> LeafView {
        match self {
            Leaf::Str(s) => LeafView::Str(s@),
            Leaf::Other => LeafView::Other,
        }
    }
}

/// A top-level value of a document.
pub enum Item {
    /// A string.
    Str(Vec<u8>),
    /// An array.
    Arr(Vec<Leaf>),
    /// A sub-table, in document order.
    Table(Vec<(Vec<u8>, Leaf)>),
    /// Anything else.
    Other,
}

/// The view of an [`Item`].
pub enum ItemView {
    Str(Seq<u8>),
    Arr(Seq<LeafView>),
    Table(Seq<(Seq<u8>, LeafView)>),
    Other,
}

/// The views of an array of leaves.
pub open spec fn leafs_view(s: Seq<Leaf>) -> Seq<LeafView> {
    Seq::new(s.len(), |i: int| s[i]@)
}

/// The views of the entries of a sub-table.
pub open spec fn leaf_entries_view(s: Seq<(Vec<u8>, Leaf)>) -> Seq<(Seq<u8>, LeafView)> {
    Seq::new(s.len(), |i: int| (s[i].0@, s[i].1@))
}

impl View for Item {
    type V = ItemView;

    open spec fn view(&self) -> ItemView {
        match self {
            Item::Str(s) => ItemView::Str(s@),
            Item::Arr(a) => ItemView::Arr(leafs_view(a@)),
            Item::Table(t) => ItemView::Table(leaf_entries_view(t@)),
            Item::Other => ItemView::Other,
        }
    }
}

/// A parsed top-level table, in document order.
pub struct Doc {
    pub entries: Vec<(Vec<u8>, Item)>,
}

impl View for Doc {
    type V = Seq<(Seq<u8>, ItemView)>;

    open spec fn view(&self) -> Seq<(Seq<u8>, ItemView)> {
        Seq::new(self.entries@.len(), |i: int| (self.entries@[i].0@, self.entries@[i].1@))
    }
}

/// What the TOML parser makes of a text: `None` when the text is not a
/// valid TOML table, otherwise the table folded into the document shape.
/// The result depends on the text alone.
pub uninterp spec fn toml_doc_of(text: Seq<char>) -> Option<Seq<(Seq<u8>, ItemView)>>;

#[verifier::external_type_specification]
#[verifier::external_body]
pub struct ExTomlValue(toml::Value);

/// Relies on toml::Value: tells a string apart from every other value,
/// moving the string's bytes out.
#[verifier::external_body]
fn leaf_of_value(v: toml::Value) -> Leaf {
    match v {
        toml::Value::String(s) => Leaf::Str(s.into_bytes()),
        _ => Leaf::Other,
    }
}

/// Relies on toml::Value: keeps a string, an array as leaves, and one level
/// of sub-table as leaves; every other value becomes an opaque leaf.
#[verifier::external_body]
fn item_of_value(v: toml::Value) -> Item {
    match v {
        toml::Value::String(s) => Item::Str(s.into_bytes()),
        toml::Value::Array(a) => Item::Arr(a.into_iter().map(leaf_of_value).collect()),
        toml::Value::Table(t) => Item::Table(
            t.into_iter().map(|(k, x)| (k.into_bytes(), leaf_of_value(x))).collect(),
        ),
        _ => Item::Other,
    }
}

/// Relies on toml::from_str: whether and how a text parses as a TOML table
/// depends on the text alone, and parsing the same text twice gives the
/// same table.
#[verifier::external_body]
pub fn parse_toml(text: &str) -> (r: Option<Doc>)
    ensures
        match r {
            Some(d) => toml_doc_of(text@) == Some(d@),
            None => toml_doc_of(text@) == None::<Seq<(Seq<u8>, ItemView)>>,
        },
{
    let t: toml::Table = match toml::from_str(text) {
        Ok(t) => t,
        Err(_) => {
            return None;
        },
    };
    Some(Doc { entries: t.into_iter().map(|(k, v)| (k.into_bytes(), item_of_value(v))).collect() })
}

/// The leaf under `key` in a sub-table, or `None` when there is no such key.
pub fn leaf_table_get<'a>(t: &'a Vec<(Vec<u8>, Leaf)>, key: &[u8]) -> (r: Option<&'a Leaf>)
    ensures
        match r {
            Some(leaf) => spec_assoc_get(leaf_entries_view(t@), key@) == Some(leaf@),
            None => spec_assoc_get(leaf_entries_view(t@), key@) == None::<LeafView>,
        },
{
    let mut i: usize = 0;
    while i < t.len()
        invariant
            i <= t@.len(),
            forall|j: int| 0 <= j < i ==> (#[trigger] leaf_entries_view(t@)[j]).0 != key@,
        decreases t@.len() - i,
    {
        if crate::bytes_eq(t[i].0.as_slice(), key) {
            proof {
                crate::utils::lemma_assoc_get_found(leaf_entries_view(t@), key@, i as int);
            }
            return Some(&t[i].1);
        }
        proof {
            assert(leaf_entries_view(t@)[i as int].0 == t@[i as int].0@);
        }
        i += 1;
    }
    proof {
        crate::utils::lemma_assoc_get_absent(leaf_entries_view(t@), key@);
    }
    None
}

impl Doc {
    /// The value under `key`, or `None` when the document has no such key.
    pub fn get(&self, key: &[u8]) -> (r: Option<&Item>)
        ensures
            match r {
                Some(item) => spec_assoc_get(self@, key@) == Some(item@),
                None => spec_assoc_get(self@, key@) == None::<ItemView>,
            },
    {
        let mut i: usize = 0;
        while i < self.entries.len()
            invariant
                i <= self.entries@.len(),
                self.entries@.len() == self@.len(),
                forall|j: int| 0 <= j < i ==> (#[trigger] self@[j]).0 != key@,
            decreases self.entries@.len() - i,
        {
            if crate::bytes_eq(self.entries[i].0.as_slice(), key) {
                proof {
                    crate::utils::lemma_assoc_get_found(self@, key@, i as int);
                }
                return Some(&self.entries[i].1);
            }
            proof {
                assert(self@[i as int].0 == self.entries@[i as int].0@);
            }
            i += 1;
        }
        proof {
            crate::utils::lemma_assoc_get_absent(self@, key@);
        }
        None
    }
}

} // verus!
