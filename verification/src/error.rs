//! The ways in which decoding or encoding can fail.
use vstd::prelude::*;

verus! {

/// Why a decode or an encode was refused. Every failure is final for the call
/// that reports it.
#[derive(Debug, Clone, Copy, PartialEq, Eq, Structural)]
pub enum CodecError {
    /// Fewer bytes are left than a field, a length prefix, a count or a
    /// compressed stream demands. `offset` is the position of the first
    /// byte of what was cut short.
    Truncated { offset: usize },
    /// A text does not end in the zero that its length prefix points at.
    /// `offset` is the position where the terminator was looked for.
    BadTerminator { offset: usize },
    /// The container does not start with the expected magic tag.
    InvalidMagic,
    /// The container names a compression tier that is not known.
    UnknownCompressionTier,
    /// What the property reader or writer gave does not fit the bytes it was
    /// given: it rejected them, or it claims more than they hold.
    MalformedProperty,
    /// A length cannot be written: it does not fit its 32-bit field.
    ImplausibleLength,
    /// The zlib layer failed: a compressed payload is not a zlib stream, or
    /// the compressor reported an error.
    Compression,
}

} // verus!
