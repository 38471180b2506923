//! The load-time error taxonomy.
//!
//! Every error here is fatal to the whole build: the loader either fully
//! succeeds or fails fast. Each variant carries the path (and, where it
//! helps, the offending id or the clashing matches) that a top-level handler
//! reports before aborting.

use vstd::prelude::*;

use crate::path::IPath;

verus! {

/// A fatal load-time error.
#[derive(Debug)]
pub enum LoadError {
    /// A directory that must be readable is missing from the snapshot.
    Io { path: IPath },
    /// A configuration or content table does not parse.
    Parse { path: IPath },
    /// Required unique content (a meta file, a default language, a default
    /// display string) is absent.
    MissingContent { path: IPath },
    /// More files answer a logical path than the cardinality policy allows;
    /// `matches` names them all.
    AmbiguousContent { path: IPath, matches: Vec<IPath> },
    /// A tag or language id is referenced but not declared in its
    /// authoritative store.
    UnknownReference { path: IPath, id: Vec<u8> },
}

} // verus!
