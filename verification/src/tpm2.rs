use vstd::prelude::*;

use crate::error::DecodeError;
use crate::packet_type::{known_type_byte, spec_type_byte, spec_type_of_byte, PacketType};
use vstd::slice::{slice_index_get, slice_subrange, slice_to_vec};

verus! {

/// Start marker of an encoded packet.
pub const PACKET_START_BYTE: u8 = 0xC9;

/// End marker of an encoded packet.
pub const PACKET_END_BYTE: u8 = 0x36;

/// The byte-exact wire layout of a packet:
/// `0xC9 | type(1) | length(2, big-endian) | payload(length) | 0x36`.
pub open spec fn spec_encode(t: PacketType, payload: Seq<u8>) -> Seq<u8>
    recommends
        payload.len() <= 0xFFFF,
{
    seq![
        0xC9u8,
        spec_type_byte(t),
        (payload.len() / 256) as u8,
        (payload.len() % 256) as u8,
    ] + payload + seq![0x36u8]
}

/// The payload length a buffer declares in its two big-endian length bytes.
pub open spec fn spec_declared_len(s: Seq<u8>) -> int
    recommends
        s.len() >= 4,
{
    s[2] * 256 + s[3]
}

/// Whether a buffer starts with one well-formed encoded packet.
pub open spec fn parse_ok(s: Seq<u8>) -> bool {
    &&& s.len() >= 1 && s[0] == 0xC9
    &&& s.len() >= 2 && known_type_byte(s[1])
    &&& s.len() >= 4
    &&& s.len() >= 5 + spec_declared_len(s)
    &&& s[4 + spec_declared_len(s)] == 0x36
}

/// The error a buffer fails to decode with, checked in this order: start
/// marker, type byte, declared length and payload availability, end marker.
/// Meaningful only when `!parse_ok(s)`.
pub open spec fn parse_err(s: Seq<u8>) -> DecodeError
    recommends
        !parse_ok(s),
{
    if s.len() == 0 {
        DecodeError::Incomplete
    } else if s[0] != 0xC9 {
        DecodeError::InvalidStartByte
    } else if s.len() < 2 {
        DecodeError::Incomplete
    } else if !known_type_byte(s[1]) {
        DecodeError::UnknownPacketType
    } else if s.len() < 4 {
        DecodeError::Incomplete
    } else if s.len() < 5 + spec_declared_len(s) {
        DecodeError::Incomplete
    } else {
        DecodeError::InvalidEndByte
    }
}

/// The packet type a well-formed buffer carries.
pub open spec fn parsed_type(s: Seq<u8>) -> PacketType
    recommends
        parse_ok(s),
{
    spec_type_of_byte(s[1])
}

/// The payload bytes a well-formed buffer carries.
pub open spec fn parsed_payload(s: Seq<u8>) -> Seq<u8>
    recommends
        parse_ok(s),
{
    s.subrange(4, 4 + spec_declared_len(s))
}

/// The unconsumed bytes after the first encoded packet in a buffer.
pub open spec fn parsed_rest(s: Seq<u8>) -> Seq<u8>
    recommends
        parse_ok(s),
{
    s.subrange(5 + spec_declared_len(s), s.len() as int)
}

/// The complete, unfragmented protocol unit: a framing role plus an opaque
/// payload of at most 65535 bytes. The length field of the wire layout is
/// always re-derived from the payload and never stored, so the two cannot
/// fall out of sync.
#[derive(Debug)]
pub struct Tpm2Packet {
    packet_type: PacketType,
    user_data: Vec<u8>,
}

impl Tpm2Packet {
    /// The framing role this packet carries.
    pub closed spec fn spec_type(self) -> PacketType {
        self.packet_type
    }

    /// The payload bytes this packet carries.
    pub closed spec fn spec_payload(self) -> Seq<u8> {
        self.user_data@
    }

    /// A packet is well formed when its payload length fits the two-byte
    /// length field.
    pub open spec fn wf(self) -> bool {
        self.spec_payload().len() <= 0xFFFF
    }

    /// This packet's wire bytes.
    pub open spec fn spec_bytes(self) -> Seq<u8> {
        spec_encode(self.spec_type(), self.spec_payload())
    }

    /// Builds a packet from a framing role and a payload whose length has
    /// already been checked to fit the two-byte length field.
    pub fn new(packet_type: PacketType, user_data: Vec<u8>) -> (r: Tpm2Packet)
        requires
            user_data@.len() <= 0xFFFF,
        ensures
            r.wf(),
            r.spec_type() == packet_type,
            r.spec_payload() == user_data@,
    {
        Tpm2Packet { packet_type, user_data }
    }

    /// Replaces the payload; the derived length field follows atomically,
    /// since it is never stored.
    pub fn update_payload(&mut self, new_payload: Vec<u8>)
        requires
            new_payload@.len() <= 0xFFFF,
        ensures
            final(self).wf(),
            final(self).spec_type() == old(self).spec_type(),
            final(self).spec_payload() == new_payload@,
    {
        self.user_data = new_payload;
    }

    /// The framing role, as a value.
    pub fn packet_type(&self) -> (r: PacketType)
        ensures
            r == self.spec_type(),
    {
        self.packet_type
    }

    /// The payload bytes, borrowed.
    pub fn payload(&self) -> (r: &Vec<u8>)
        ensures
            r@ == self.spec_payload(),
    {
        &self.user_data
    }

    /// Encodes this packet into its wire bytes.
    pub fn bytes(&self) -> (r: Vec<u8>)
        requires
            self.wf(),
        ensures
            r@ == self.spec_bytes(),
            r@.len() == self.spec_payload().len() + 5,
    {
        let n: usize = self.user_data.len();
        let mut out: Vec<u8> = Vec::new();
        out.push(PACKET_START_BYTE);
        out.push(self.packet_type.to_byte());
        out.push((n / 256) as u8);
        out.push((n % 256) as u8);
        let mut i: usize = 0;
        while i < n
            invariant
                n == self.spec_payload().len() <= 0xFFFF,
                0 <= i <= n,
                out@.len() == 4 + i,
                out@ == seq![
                    0xC9u8,
                    spec_type_byte(self.spec_type()),
                    (n / 256) as u8,
                    (n % 256) as u8,
                ] + self.spec_payload().take(i as int),
            decreases n - i,
        {
            out.push(self.user_data[i]);
            proof {
                assert(self.spec_payload().take(i + 1) == self.spec_payload().take(i as int).push(
                    self.spec_payload()[i as int],
                ));
            }
            i = i + 1;
        }
        out.push(PACKET_END_BYTE);
        proof {
            assert(self.spec_payload().take(n as int) == self.spec_payload());
            assert(out@ =~= self.spec_bytes());
        }
        out
    }

    /// Decodes one packet from the front of a buffer, returning it together
    /// with the unconsumed trailing bytes (both copied into owned buffers).
    /// Succeeds exactly on buffers that start with a well-formed encoding;
    /// otherwise reports the first framing defect in parse order, with
    /// `Incomplete` kept distinct so a streaming caller can wait for more
    /// bytes.
    pub fn parse(input: &[u8]) -> (r: Result<(Tpm2Packet, Vec<u8>), DecodeError>)
        ensures
            r is Ok <==> parse_ok(input@),
            r matches Ok(pr) ==> {
                &&& pr.0.wf()
                &&& pr.0.spec_type() == parsed_type(input@)
                &&& pr.0.spec_payload() == parsed_payload(input@)
                &&& pr.1@ == parsed_rest(input@)
            },
            r matches Err(e) ==> e == parse_err(input@),
    {
        let n: usize = input.len();
        if n == 0 {
            return Err(DecodeError::Incomplete);
        }
        if *slice_index_get(input, 0) != PACKET_START_BYTE {
            return Err(DecodeError::InvalidStartByte);
        }
        if n < 2 {
            return Err(DecodeError::Incomplete);
        }
        let packet_type = match PacketType::from_byte(*slice_index_get(input, 1)) {
            Ok(t) => t,
            Err(e) => {
                return Err(e);
            },
        };
        if n < 4 {
            return Err(DecodeError::Incomplete);
        }
        let hi: usize = *slice_index_get(input, 2) as usize;
        let lo: usize = *slice_index_get(input, 3) as usize;
        let declared: usize = hi * 256 + lo;
        if n < 5 + declared {
            return Err(DecodeError::Incomplete);
        }
        if *slice_index_get(input, 4 + declared) != PACKET_END_BYTE {
            return Err(DecodeError::InvalidEndByte);
        }
        let user_data = slice_to_vec(slice_subrange(input, 4, 4 + declared));
        let rest = slice_to_vec(slice_subrange(input, 5 + declared, n));
        Ok((Tpm2Packet { packet_type, user_data }, rest))
    }
}

impl PartialEq for Tpm2Packet {
    /// Two packets are equal when they carry the same framing role and the
    /// same payload bytes.
    fn eq(&self, other: &Tpm2Packet) -> (r: bool) {
        if !(self.packet_type == other.packet_type) {
            return false;
        }
        if self.user_data.len() != other.user_data.len() {
            return false;
        }
        let n: usize = self.user_data.len();
        let mut i: usize = 0;
        while i < n
            invariant
                n == self.user_data@.len() == other.user_data@.len(),
                0 <= i <= n,
                forall|j: int| 0 <= j < i ==> self.user_data@[j] == other.user_data@[j],
            decreases n - i,
        {
            if self.user_data[i] != other.user_data[i] {
                return false;
            }
            i = i + 1;
        }
        proof {
            assert(self.user_data@ =~= other.user_data@);
        }
        true
    }
}

impl vstd::std_specs::cmp::PartialEqSpecImpl for Tpm2Packet {
    open spec fn obeys_eq_spec() -> bool {
        true
    }

    open spec fn eq_spec(&self, other: &Tpm2Packet) -> bool {
        self.spec_type() == other.spec_type() && self.spec_payload() == other.spec_payload()
    }
}

/// Round-trip: decoding the encoding of any valid `(type, payload)` pair
/// yields that same type and payload, with no trailing bytes left over.
pub proof fn lemma_encode_parse_roundtrip(t: PacketType, payload: Seq<u8>)
    requires
        payload.len() <= 0xFFFF,
    ensures
        parse_ok(spec_encode(t, payload)),
        parsed_type(spec_encode(t, payload)) == t,
        parsed_payload(spec_encode(t, payload)) == payload,
        parsed_rest(spec_encode(t, payload)) == Seq::<u8>::empty(),
{
    let s = spec_encode(t, payload);
    let len = payload.len() as int;
    crate::packet_type::lemma_type_byte_roundtrip(t);
    vstd::arithmetic::div_mod::lemma_fundamental_div_mod(len, 256);
    assert(spec_declared_len(s) == len);
    assert(s[4 + len] == 0x36);
    assert(parsed_payload(s) =~= payload);
    assert(parsed_rest(s) =~= Seq::<u8>::empty());
}

/// Unknown type rejection: a buffer whose framing starts correctly but whose
/// type byte is none of the three known values fails with
/// `UnknownPacketType`, whatever the rest of the buffer holds.
pub proof fn lemma_unknown_type_rejected(s: Seq<u8>)
    requires
        s.len() >= 2,
        s[0] == 0xC9,
        !known_type_byte(s[1]),
    ensures
        !parse_ok(s),
        parse_err(s) == DecodeError::UnknownPacketType,
{
}

} // verus!
