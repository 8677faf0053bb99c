//! Resolving a [`Corpus`] by version. There is no remote host: a request
//! is served by the bundled corpus when it names that corpus's version or
//! `latest`, and is refused with [`ResolveError::VersionUnavailable`]
//! otherwise.

use vstd::prelude::*;

use crate::corpus::Corpus;
use crate::error::ResolveError;
use crate::text::{owned, same_text};

verus! {

impl Corpus {
    /// Serve `version` from `bundled`: the bundled corpus itself when the
    /// version is its own or `latest`, otherwise the error naming both the
    /// requested and the bundled version.
    pub fn from_version(bundled: Corpus, version: &str) -> (r: Result<Corpus, ResolveError>)
        ensures
            (version@ == bundled.spec_version() || version@ == "latest"@) ==> r == Ok::<Corpus, ResolveError>(bundled),
            !(version@ == bundled.spec_version() || version@ == "latest"@) ==> (r matches Err(
                ResolveError::VersionUnavailable { requested, bundled: b },
            ) && requested@ == version@ && b@ == bundled.spec_version()),
    {
        if same_text(version, bundled.version()) || same_text(version, "latest") {
            return Ok(bundled);
        }
        let requested = owned(version);
        let b = owned(bundled.version());
        Err(ResolveError::VersionUnavailable { requested, bundled: b })
    }
}

} // verus!
