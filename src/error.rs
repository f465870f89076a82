use vstd::prelude::*;

verus! {

/// What went wrong while encoding or decoding.
#[derive(Debug, PartialEq, Eq)]
pub enum Error {
    /// A message from the value model, such as a rejected field conversion.
    Msg(String),
    /// A sequence or a map was opened without a known element count.
    LenNotKnown,
    /// Writing to the output failed.
    Io,
    /// Bytes that had to be UTF-8 text were not.
    Utf8,
    /// The input ended where a frame was expected.
    Eof,
    /// A frame began with a byte that is none of `+`, `:`, `$`, `*`, `-`.
    BadTag,
    /// A frame of another kind than the requested shape calls for.
    ShapeMismatch,
    /// An integer frame is malformed or does not fit the requested type.
    BadInteger,
    /// A frame is malformed: a bad length, a missing terminator, stray bytes.
    BadFrame,
    /// An array declares more elements than the rest of the input can hold.
    Truncated,
    /// An optional is encoded as an array of neither zero nor one element.
    BadOptional,
    /// A variant name is not among the known variants.
    UnknownVariant,
    /// An array holds another count of elements than the requested shape has.
    ArityMismatch,
}

/// Whether `c` opens a frame of some kind.
pub open spec fn is_tag(c: u8) -> bool {
    c == 43 || c == 58 || c == 36 || c == 42 || c == 45
}

impl Error {
    /// A short description of the error: the same general text for every kind.
    pub fn as_str(&self) -> (r: &'static str)
        ensures
            r@ == error_text(*self),
    {
        "other error"
    }
}

/// The description of each error.
pub open spec fn error_text(e: Error) -> Seq<char> {
    "other error"@
}

} // verus!
