//! Small shared pieces: association-list lookup, the `title`/`description`
//! record, and checked unwrapping.

use vstd::prelude::*;

verus! {

/// First-match lookup in an association list.
pub open spec fn spec_assoc_get<K, V>(entries: Seq<(K, V)>, key: K) -> Option<V>
    decreases entries.len(),
{
    if entries.len() == 0 {
        None
    } else if entries[0].0 == key {
        Some(entries[0].1)
    } else {
        spec_assoc_get(entries.drop_first(), key)
    }
}

/// A key found at `i`, with no earlier match, is what lookup yields.
pub proof fn lemma_assoc_get_found<K, V>(entries: Seq<(K, V)>, key: K, i: int)
    requires
        0 <= i < entries.len(),
        entries[i].0 == key,
        forall|j: int| 0 <= j < i ==> (#[trigger] entries[j]).0 != key,
    ensures
        spec_assoc_get(entries, key) == Some(entries[i].1),
    decreases entries.len(),
{
    if i > 0 {
        lemma_assoc_get_found(entries.drop_first(), key, i - 1);
        assert forall|j: int| 0 <= j < i - 1 implies (#[trigger] entries.drop_first()[j]).0
            != key by {
            assert(entries.drop_first()[j] == entries[j + 1]);
        }
        assert(entries.drop_first()[i - 1] == entries[i]);
    }
}

/// A successful lookup comes from some entry with that key and value.
pub proof fn lemma_assoc_get_some_index<K, V>(entries: Seq<(K, V)>, key: K, v: V)
    requires
        spec_assoc_get(entries, key) == Some(v),
    ensures
        exists|j: int|
            0 <= j < entries.len() && (#[trigger] entries[j]).0 == key && entries[j].1 == v,
    decreases entries.len(),
{
    if entries.len() > 0 && entries[0].0 != key {
        lemma_assoc_get_some_index(entries.drop_first(), key, v);
        let j = choose|j: int|
            0 <= j < entries.drop_first().len() && (#[trigger] entries.drop_first()[j]).0 == key
                && entries.drop_first()[j].1 == v;
        assert(entries[j + 1] == entries.drop_first()[j]);
    }
}

/// A key that matches no entry is not found.
pub proof fn lemma_assoc_get_absent<K, V>(entries: Seq<(K, V)>, key: K)
    requires
        forall|j: int| 0 <= j < entries.len() ==> (#[trigger] entries[j]).0 != key,
    ensures
        spec_assoc_get(entries, key) == None::<V>,
    decreases entries.len(),
{
    if entries.len() > 0 {
        assert forall|j: int|
            0 <= j < entries.drop_first().len() implies (#[trigger] entries.drop_first()[j]).0
            != key by {
            assert(entries.drop_first()[j] == entries[j + 1]);
        }
        lemma_assoc_get_absent(entries.drop_first(), key);
    }
}

/// Lookup in a concatenation: the front list wins, the back list answers
/// what the front does not hold.
pub proof fn lemma_assoc_get_append<K, V>(xs: Seq<(K, V)>, ys: Seq<(K, V)>, key: K)
    ensures
        spec_assoc_get(xs + ys, key) == if spec_assoc_get(xs, key) is Some {
            spec_assoc_get(xs, key)
        } else {
            spec_assoc_get(ys, key)
        },
    decreases xs.len(),
{
    if xs.len() == 0 {
        assert(xs + ys =~= ys);
    } else {
        assert((xs + ys)[0] == xs[0]);
        if xs[0].0 != key {
            assert((xs + ys).drop_first() =~= xs.drop_first() + ys);
            lemma_assoc_get_append(xs.drop_first(), ys, key);
        }
    }
}

/// When every entry under `key` carries the same value, and some entry
/// does, lookup yields that value.
pub proof fn lemma_assoc_get_uniform<K, V>(entries: Seq<(K, V)>, key: K, v: V)
    requires
        exists|j: int| 0 <= j < entries.len() && (#[trigger] entries[j]).0 == key,
        forall|j: int|
            0 <= j < entries.len() && (#[trigger] entries[j]).0 == key ==> entries[j].1 == v,
    ensures
        spec_assoc_get(entries, key) == Some(v),
    decreases entries.len(),
{
    if entries[0].0 != key {
        let j = choose|j: int| 0 <= j < entries.len() && (#[trigger] entries[j]).0 == key;
        assert(entries.drop_first()[j - 1] == entries[j]);
        assert forall|t: int|
            0 <= t < entries.drop_first().len() && (#[trigger] entries.drop_first()[t]).0
                == key implies entries.drop_first()[t].1 == v by {
            assert(entries.drop_first()[t] == entries[t + 1]);
        }
        lemma_assoc_get_uniform(entries.drop_first(), key, v);
    }
}

/// The key `title`, as bytes.
pub open spec fn title_key() -> Seq<u8> {
    seq![116u8, 105u8, 116u8, 108u8, 101u8]
}

/// The key `title`, as a byte string.
pub fn title_key_bytes() -> (r: Vec<u8>)
    ensures
        r@ == title_key(),
{
    let mut v: Vec<u8> = Vec::new();
    v.push(116u8);
    v.push(105u8);
    v.push(116u8);
    v.push(108u8);
    v.push(101u8);
    proof {
        assert(v@ =~= title_key());
    }
    v
}

/// The key `description`, as bytes.
pub open spec fn description_key() -> Seq<u8> {
    seq![100u8, 101u8, 115u8, 99u8, 114u8, 105u8, 112u8, 116u8, 105u8, 111u8, 110u8]
}

/// The key `description`, as a byte string.
pub fn description_key_bytes() -> (r: Vec<u8>)
    ensures
        r@ == description_key(),
{
    let mut v: Vec<u8> = Vec::new();
    v.push(100u8);
    v.push(101u8);
    v.push(115u8);
    v.push(99u8);
    v.push(114u8);
    v.push(105u8);
    v.push(112u8);
    v.push(116u8);
    v.push(105u8);
    v.push(111u8);
    v.push(110u8);
    proof {
        assert(v@ =~= description_key());
    }
    v
}

/// The view of an optional byte string.
pub open spec fn opt_bytes_view(v: Option<Vec<u8>>) -> Option<Seq<u8>> {
    match v {
        Some(s) => Some(s@),
        None => None,
    }
}

/// Copy an optional byte string.
pub fn clone_opt_bytes(v: &Option<Vec<u8>>) -> (r: Option<Vec<u8>>)
    ensures
        opt_bytes_view(r) == opt_bytes_view(*v),
{
    match v {
        Some(s) => Some(crate::path::clone_bytes(s)),
        None => None,
    }
}

/// `title` and `description` of any part that may carry them (a tag, a
/// page). `T` is the byte string itself for required defaults, or an
/// optional byte string for per-language overrides.
pub struct Info<T> {
    pub title: T,
    pub description: T,
}

impl View for Info<Vec<u8>> {
    type V = Info<Seq<u8>>;

    open spec fn view(&self) -> Info<Seq<u8>> {
        Info { title: self.title@, description: self.description@ }
    }
}

impl View for Info<Option<Vec<u8>>> {
    type V = Info<Option<Seq<u8>>>;

    open spec fn view(&self) -> Info<Option<Seq<u8>>> {
        Info { title: opt_bytes_view(self.title), description: opt_bytes_view(self.description) }
    }
}

impl<T: Clone> Clone for Info<T> {
    fn clone(&self) -> (r: Self)
        ensures
            cloned(self.title, r.title),
            cloned(self.description, r.description),
    {
        Info { title: self.title.clone(), description: self.description.clone() }
    }
}

/// A container whose value can be taken out, once it is known to be there.
pub trait Unwrap: Sized {
    type Output;

    /// Whether a value is there to take.
    spec fn has_value(&self) -> bool;

    /// The value it holds.
    spec fn the_value(self) -> Self::Output;

    /// Take the value out.
    fn unwrap(self) -> (r: Self::Output)
        requires
            self.has_value(),
        ensures
            r == self.the_value(),
    ;
}

impl<T> Unwrap for Option<T> {
    type Output = T;

    open spec fn has_value(&self) -> bool {
        self is Some
    }

    open spec fn the_value(self) -> T {
        self->Some_0
    }

    fn unwrap(self) -> (r: T) {
        match self {
            Some(v) => v,
            None => vstd::pervasive::unreached(),
        }
    }
}

impl<T, E> Unwrap for Result<T, E> {
    type Output = T;

    open spec fn has_value(&self) -> bool {
        self is Ok
    }

    open spec fn the_value(self) -> T {
        self->Ok_0
    }

    fn unwrap(self) -> (r: T) {
        match self {
            Ok(v) => v,
            Err(_) => vstd::pervasive::unreached(),
        }
    }
}

} // verus!
