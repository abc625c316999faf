use vstd::prelude::*;

use crate::error::DecodeError;

verus! {

/// The three framing roles a packet can carry. Each variant maps
/// bijectively to a single wire byte; every other byte value is a decode
/// error, never a default.
#[derive(Clone, Copy, Debug, PartialEq, Eq, Structural)]
pub enum PacketType {
    DataFrame,
    Command,
    RequestedResponse,
}

/// The wire byte of each packet type.
pub open spec fn spec_type_byte(t: PacketType) -> u8 {
    match t {
        PacketType::DataFrame => 0xDA,
        PacketType::Command => 0xC0,
        PacketType::RequestedResponse => 0xAA,
    }
}

/// Whether a byte is one of the three known tag values.
pub open spec fn known_type_byte(b: u8) -> bool {
    b == 0xDA || b == 0xC0 || b == 0xAA
}

/// The packet type a known tag byte stands for.
pub open spec fn spec_type_of_byte(b: u8) -> PacketType
    recommends
        known_type_byte(b),
{
    if b == 0xDA {
        PacketType::DataFrame
    } else if b == 0xC0 {
        PacketType::Command
    } else {
        PacketType::RequestedResponse
    }
}

impl PacketType {
    /// The single wire byte for this type.
    pub fn to_byte(self) -> (r: u8)
        ensures
            r == spec_type_byte(self),
    {
        match self {
            PacketType::DataFrame => 0xDA,
            PacketType::Command => 0xC0,
            PacketType::RequestedResponse => 0xAA,
        }
    }

    /// Decodes a tag byte; fails with `UnknownPacketType` for any byte
    /// outside the three known values.
    pub fn from_byte(b: u8) -> (r: Result<PacketType, DecodeError>)
        ensures
            known_type_byte(b) ==> r == Ok::<PacketType, DecodeError>(spec_type_of_byte(b)),
            !known_type_byte(b) ==> r == Err::<PacketType, DecodeError>(
                DecodeError::UnknownPacketType,
            ),
    {
        if b == 0xDA {
            Ok(PacketType::DataFrame)
        } else if b == 0xC0 {
            Ok(PacketType::Command)
        } else if b == 0xAA {
            Ok(PacketType::RequestedResponse)
        } else {
            Err(DecodeError::UnknownPacketType)
        }
    }

    /// Reads the tag byte at the front of a buffer.
    pub fn parse(input: &[u8]) -> (r: Result<PacketType, DecodeError>)
        ensures
            input@.len() == 0 ==> r == Err::<PacketType, DecodeError>(DecodeError::Incomplete),
            input@.len() > 0 && known_type_byte(input@[0]) ==> r == Ok::<
                PacketType,
                DecodeError,
            >(spec_type_of_byte(input@[0])),
            input@.len() > 0 && !known_type_byte(input@[0]) ==> r == Err::<
                PacketType,
                DecodeError,
            >(DecodeError::UnknownPacketType),
    {
        if input.len() == 0 {
            Err(DecodeError::Incomplete)
        } else {
            PacketType::from_byte(*vstd::slice::slice_index_get(input, 0))
        }
    }
}

/// The tag byte of every packet type decodes back to that type.
pub proof fn lemma_type_byte_roundtrip(t: PacketType)
    ensures
        known_type_byte(spec_type_byte(t)),
        spec_type_of_byte(spec_type_byte(t)) == t,
{
}

} // verus!
