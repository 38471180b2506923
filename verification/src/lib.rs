//! A multi-language static-site engine: content discovery and resolution.
//!
//! The library derives canonical logical paths from on-disk filename
//! conventions (dotted variant/extension parts, `index` folding), enumerates
//! the unique logical paths under a content root, and resolves which concrete
//! file answers a given logical path for a given variant tag. On top of that
//! it builds the immutable stores (languages, i18n strings, tags, page
//! metadata, page content files) that rendering consumes.
//!
//! All filesystem access happens outside the library: callers take one
//! snapshot of the content tree (relative paths and file contents) and every
//! function here is a pure computation over that snapshot.

use vstd::prelude::*;

pub mod name;
pub mod path;
pub mod doc;
pub mod error;
pub mod fs;
pub mod i18n;
pub mod infos;
pub mod language;
pub mod meta;
pub mod page;
pub mod resolve;
pub mod tag;
pub mod utils;

verus! {

/// Compare two byte strings for equality.
pub fn bytes_eq(a: &[u8], b: &[u8]) -> (r: bool)
    ensures
        r == (a@ == b@),
{
    if a.len() != b.len() {
        return false;
    }
    let mut i: usize = 0;
    while i < a.len()
        invariant
            i <= a.len(),
            a@.len() == b@.len(),
            forall|j: int| 0 <= j < i ==> a@[j] == b@[j],
        decreases a.len() - i,
    {
        if a[i] != b[i] {
            return false;
        }
        i += 1;
    }
    proof {
        assert(a@ =~= b@);
    }
    true
}

} // verus!
