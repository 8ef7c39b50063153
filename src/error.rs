use vstd::prelude::*;

verus! {

/// The ways in which a visualisation can fail.
#[derive(Debug, PartialEq, Eq)]
pub enum VisError {
    /// The root path does not exist.
    PathNotFound,
    /// Reading an entry or its metadata failed; holds the cause.
    ScanIo(String),
    /// No direct child of the root has a nonzero size.
    EmptyDirectory,
    /// The drawing backend failed; holds the cause.
    Render(String),
    /// The sum of the file lengths does not fit in 64 bits.
    SizeOverflow,
}

} // verus!
