//! The error taxonomy of the protocol core.

use vstd::prelude::*;

verus! {

/// Failure to decode a frame from bytes. Local and recoverable: callers
/// buffer more bytes (or drop the connection); no data is silently dropped.
#[derive(PartialEq, Eq, Structural, Clone, Copy, Debug)]
pub enum DecodeError {
    /// The frame kind tag names no frame kind.
    UnknownKind,
    /// The buffer does not hold the byte count the frame kind expects.
    WrongLength,
    /// A length field inside the frame disagrees with the bytes present.
    LengthMismatch,
}

/// Failure above the codec level.
#[derive(PartialEq, Eq, Structural, Clone, Copy, Debug)]
pub enum ProtocolError {
    /// Magic token or version incompatible at handshake; fatal to the
    /// channel, not to the participant.
    ProtocolMismatch,
    /// Secret mismatch on reconnection; fatal to the channel attempt.
    AuthenticationFailure,
    /// A frame referencing an unknown or closed stream or message, or a
    /// fragment exceeding its declared length; the frame is dropped, the
    /// channel survives.
    ProtocolViolation,
    /// An integrity check failed after reassembly; the message is discarded
    /// and, under GUARANTEED_DELIVERY, a retry is required. Surfaced at the
    /// reassembly boundary as a discard outcome distinguishable from a
    /// successful decode.
    IntegrityFailure,
    /// The underlying transport failed; surfaced once per channel.
    ChannelLost,
}

} // verus!
