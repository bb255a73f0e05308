use vstd::prelude::*;

verus! {

/// Why a decode stopped.
#[derive(Clone, Copy, Debug, PartialEq, Eq, Structural)]
pub enum DecodeError {
    /// Fewer bytes were left than a fixed-width read needs.
    TruncatedInput,
    /// A section name was opened with `[` and never closed with `]`.
    UnterminatedHeader,
    /// A chunk record declared a length below the eight header bytes it counts.
    InvalidRecordLength,
    /// An empty chunk record declared payload bytes.
    InvalidChunkType0Length,
    /// A run-length payload did not end on a four-byte entry boundary.
    InvalidRunLengthPayload,
    /// A chunk record carried a type tag that the format does not define.
    UnknownChunkType(u8),
    /// A chunk record was not followed by a line feed, or the line feed was
    /// followed by something other than the continuation marker.
    MalformedChunkTerminator,
}

} // verus!
