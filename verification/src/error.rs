use vstd::prelude::*;

verus! {

/// The two failures that the search subsystem surfaces to its caller.
/// Per-file and persistence failures are swallowed and never reach here.
#[derive(Clone, Copy, PartialEq, Eq, Structural, Debug)]
pub enum Error {
    /// The article directory could not be listed.
    NotFound,
    /// The index cache file could not be opened or created.
    IoError,
}

} // verus!
