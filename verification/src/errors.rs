use vstd::prelude::*;

verus! {

/// The ways a decode can fail.
///
/// Decoding a file, a track or an event is all-or-nothing: on failure no
/// partial result is returned, only one of these values.
#[derive(Clone, Copy, Debug, PartialEq, Eq, Structural)]
pub enum DecodeError {
    /// Structural violation of the file format: a wrong magic tag, or a
    /// premature end of input where more bytes were mandatory (a truncated
    /// variable-length quantity, event, or chunk payload).
    BrokenFileFormat,
    /// Reserved for recognized but unsupported features; no current decoding
    /// path produces it.
    Nyi,
}

} // verus!
