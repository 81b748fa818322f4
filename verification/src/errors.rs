//! The errors the segment layer surfaces to its callers.

use vstd::prelude::*;

verus! {

/// What can go wrong inside the segment layer itself.
///
/// I/O failures belong to the unverified shell around the library; the
/// in-memory core only ever reports these conditions.
#[derive(Clone, Copy, PartialEq, Eq, Structural, Debug)]
pub enum SegmentError {
    /// A read or resolve addressed a logical path that does not exist.
    NotFound,
    /// A write, read or export arrived after the writer was finalised.
    Finalised,
    /// Metadata bytes could not be decoded.
    Serialization,
}

impl SegmentError {
    /// A short description, in place of a `Display` implementation.
    pub fn message(&self) -> (r: &'static str)
        ensures
            r@.len() > 0,
    {
        let r = match self {
            SegmentError::NotFound => "File not found",
            SegmentError::Finalised => "Writer has already been finalised.",
            SegmentError::Serialization => "Could not decode segment metadata",
        };
        proof {
            reveal_strlit("File not found");
            reveal_strlit("Writer has already been finalised.");
            reveal_strlit("Could not decode segment metadata");
        }
        r
    }
}

} // verus!
