use vstd::prelude::*;

verus! {

/// A malformed input. Every variant names the load stage that rejected the
/// buffer; a load never silently recovers from any of these.
#[derive(Clone, Copy, Debug, PartialEq, Eq, Structural)]
pub enum FormatError {
    /// The buffer is shorter than the 12-byte header.
    TooShort,
    /// The first four bytes are not a recognized container tag.
    BadTag,
    /// A directory entry lies outside the buffer.
    DirectoryOutOfBounds,
    /// A lump's byte range lies outside the buffer.
    LumpOutOfBounds,
    /// A fixed-width text field holds a byte outside the ASCII range.
    InvalidText,
    /// The lump list ended before the sentinel lump was reached.
    MissingSentinel,
    /// Fewer than the fixed number of lumps follow a level marker.
    IncompleteLevel,
    /// An index field of a decoded record does not resolve within its level.
    BadReference,
}

} // verus!
