//! A single hardware attribute: a readable/writable text value at a known
//! filesystem path.
//!
//! The endpoint is stateless: it holds only its path and caches nothing.
//! Reading and writing the underlying file is real I/O and is left to the
//! unverified surroundings; the library only models the path and the
//! existence check that construction depends on.

use vstd::prelude::*;

verus! {

/// One named hardware attribute, identified by its path.
pub struct Endpoint {
    pub path: String,
}

impl Endpoint {
    /// Wraps a path; no I/O happens until the endpoint is used.
    pub fn new(path: String) -> (r: Endpoint)
        ensures
            r.path@ == path@,
    {
        Endpoint { path }
    }

    /// Relies on std::path::Path::is_file: true exactly when the path names
    /// an existing regular file the process can query. The answer depends on
    /// the state of the filesystem, so nothing is promised of the result;
    /// callers treat either outcome as valid.
    #[verifier::external_body]
    pub fn is_present(&self) -> bool {
        std::path::Path::new(self.path.as_str()).is_file()
    }
}

} // verus!
