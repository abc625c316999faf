use vstd::prelude::*;

verus! {

/// Why a byte buffer failed to decode as a packet or a fragment.
///
/// `Incomplete` is kept distinct from the framing errors so that a streaming
/// caller can buffer more input and retry instead of discarding the buffer.
#[derive(Clone, Copy, Debug, PartialEq, Eq, Structural)]
pub enum DecodeError {
    /// The buffer does not begin with the expected start marker.
    InvalidStartByte,
    /// The type byte is none of the three known tag values.
    UnknownPacketType,
    /// Fewer bytes are available than the declared layout requires.
    Incomplete,
    /// The byte after the payload is not the end marker.
    InvalidEndByte,
    /// A fragment's declared frame size is smaller than its fixed
    /// two bytes of sequencing overhead.
    InvalidFrameSize,
    /// A fragment's declared frame size does not match the number of
    /// payload bytes actually present before the end marker.
    FrameSizeMismatch,
}

/// Why a packet could not be split into fragments.
#[derive(Clone, Copy, Debug, PartialEq, Eq, Structural)]
pub enum FragmentError {
    /// The requested fragment payload bound is unusable for this packet:
    /// it is zero, it would take more fragments than a one-byte count can
    /// number, or a single fragment would overflow the frame-size field.
    InvalidFragmentSize,
}

/// Why a fully collected message was discarded instead of yielding a packet.
#[derive(Clone, Copy, Debug, PartialEq, Eq, Structural)]
pub enum ReassemblyError {
    /// The reconstructed packet's encoded length exceeds the configured
    /// maximum assembled size.
    ReassemblyTooLarge,
    /// The concatenated fragment payloads do not decode as exactly one packet.
    CorruptReassembly,
}

} // verus!
