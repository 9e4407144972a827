use vstd::prelude::*;

verus! {

/// Why the bytes do not follow the layout of the format.
#[derive(Debug, Clone, Copy, PartialEq, Eq, Structural)]
pub enum FormatError {
    /// The first four bytes are not the magic `qoif`.
    Magic,
    /// The leading byte does not carry the tag that was asked for.
    Tag,
    /// The input ended inside a header or a chunk, or before the end marker.
    Truncated,
}

/// A failed decode: the first point at which the input was found wrong.
#[derive(Debug, Clone, Copy, PartialEq, Eq, Structural)]
pub enum DecodeError {
    /// The input is not laid out as the format requires.
    Format(FormatError),
    /// An index chunk refers to a cache slot that no earlier chunk wrote.
    Reconstruction { index: u8 },
}

} // verus!
