use vstd::prelude::*;

use crate::error::{DecodeError, FragmentError};
use crate::packet_type::{known_type_byte, spec_type_byte, spec_type_of_byte, PacketType};
use crate::tpm2::Tpm2Packet;
use vstd::slice::{slice_index_get, slice_subrange, slice_to_vec};

verus! {

/// Start marker of an encoded fragment.
pub const NET_PACKET_START_BYTE: u8 = 0x9C;

/// End marker of an encoded fragment.
pub const NET_PACKET_END_BYTE: u8 = 0x36;

/// The byte-exact wire layout of a fragment:
/// `0x9C | type(1) | frame_size(2, big-endian) | packet_number(1) |
/// packet_count(1) | payload(frame_size - 2) | 0x36`.
pub open spec fn spec_net_encode(
    t: PacketType,
    frame_size: u16,
    packet_number: u8,
    packet_count: u8,
    payload: Seq<u8>,
) -> Seq<u8> {
    seq![
        0x9Cu8,
        spec_type_byte(t),
        (frame_size / 256) as u8,
        (frame_size % 256) as u8,
        packet_number,
        packet_count,
    ] + payload + seq![0x36u8]
}

/// The frame size a buffer declares in its two big-endian size bytes.
pub open spec fn spec_frame_size(s: Seq<u8>) -> int
    recommends
        s.len() >= 4,
{
    s[2] * 256 + s[3]
}

/// Whether a whole datagram is one well-formed encoded fragment.
pub open spec fn net_parse_ok(s: Seq<u8>) -> bool {
    &&& s.len() >= 1 && s[0] == 0x9C
    &&& s.len() >= 2 && known_type_byte(s[1])
    &&& s.len() >= 7
    &&& spec_frame_size(s) >= 2
    &&& s[s.len() - 1] == 0x36
    &&& s.len() == 5 + spec_frame_size(s)
}

/// The error a datagram fails to decode with, checked in this order: start
/// marker, type byte, header availability, declared frame size (rejected
/// below 2 before any payload length is derived from it), end marker, and
/// finally agreement of the declared size with the payload bytes actually
/// present before the end marker.
pub open spec fn net_parse_err(s: Seq<u8>) -> DecodeError
    recommends
        !net_parse_ok(s),
{
    if s.len() == 0 {
        DecodeError::Incomplete
    } else if s[0] != 0x9C {
        DecodeError::InvalidStartByte
    } else if s.len() < 2 {
        DecodeError::Incomplete
    } else if !known_type_byte(s[1]) {
        DecodeError::UnknownPacketType
    } else if s.len() < 7 {
        DecodeError::Incomplete
    } else if spec_frame_size(s) < 2 {
        DecodeError::InvalidFrameSize
    } else if s[s.len() - 1] != 0x36 {
        DecodeError::InvalidEndByte
    } else {
        DecodeError::FrameSizeMismatch
    }
}

/// One wire datagram carrying a contiguous slice of a (possibly split)
/// packet's serialized bytes, plus sequencing metadata: this fragment's
/// 1-based index and the total number of fragments in its message.
#[derive(Debug)]
pub struct NetPacket {
    pub packet_type: PacketType,
    pub frame_size: u16,
    pub packet_number: u8,
    pub packet_count: u8,
    pub payload: Vec<u8>,
}

impl NetPacket {
    /// A fragment is well formed when its declared frame size covers exactly
    /// its two sequencing bytes plus its payload.
    pub open spec fn wf(self) -> bool {
        self.frame_size == self.payload@.len() + 2
    }

    /// Encodes this fragment into its wire bytes.
    pub fn bytes(&self) -> (r: Vec<u8>)
        ensures
            r@ == spec_net_encode(
                self.packet_type,
                self.frame_size,
                self.packet_number,
                self.packet_count,
                self.payload@,
            ),
            r@.len() == self.payload@.len() + 7,
    {
        let mut out: Vec<u8> = Vec::new();
        out.push(NET_PACKET_START_BYTE);
        out.push(self.packet_type.to_byte());
        out.push((self.frame_size / 256) as u8);
        out.push((self.frame_size % 256) as u8);
        out.push(self.packet_number);
        out.push(self.packet_count);
        let n: usize = self.payload.len();
        let mut i: usize = 0;
        while i < n
            invariant
                n == self.payload@.len(),
                0 <= i <= n,
                out@.len() == 6 + i,
                out@ == seq![
                    0x9Cu8,
                    spec_type_byte(self.packet_type),
                    (self.frame_size / 256) as u8,
                    (self.frame_size % 256) as u8,
                    self.packet_number,
                    self.packet_count,
                ] + self.payload@.take(i as int),
            decreases n - i,
        {
            out.push(self.payload[i]);
            proof {
                assert(self.payload@.take(i + 1) == self.payload@.take(i as int).push(
                    self.payload@[i as int],
                ));
            }
            i = i + 1;
        }
        out.push(NET_PACKET_END_BYTE);
        proof {
            assert(self.payload@.take(n as int) == self.payload@);
            assert(out@ =~= spec_net_encode(
                self.packet_type,
                self.frame_size,
                self.packet_number,
                self.packet_count,
                self.payload@,
            ));
        }
        out
    }

    /// Decodes one whole datagram as a fragment. Succeeds exactly on
    /// well-formed datagrams; otherwise reports the first defect in parse
    /// order.
    pub fn parse(input: &[u8]) -> (r: Result<NetPacket, DecodeError>)
        ensures
            r is Ok <==> net_parse_ok(input@),
            r matches Ok(f) ==> {
                &&& f.wf()
                &&& f.packet_type == spec_type_of_byte(input@[1])
                &&& f.frame_size == spec_frame_size(input@)
                &&& f.packet_number == input@[4]
                &&& f.packet_count == input@[5]
                &&& f.payload@ == input@.subrange(6, input@.len() - 1)
            },
            r matches Err(e) ==> e == net_parse_err(input@),
    {
        let n: usize = input.len();
        if n == 0 {
            return Err(DecodeError::Incomplete);
        }
        if *slice_index_get(input, 0) != NET_PACKET_START_BYTE {
            return Err(DecodeError::InvalidStartByte);
        }
        if n < 2 {
            return Err(DecodeError::Incomplete);
        }
        let packet_type = match PacketType::from_byte(*slice_index_get(input, 1)) {
            Ok(t) => t,
            Err(e) => {
                return Err(e);
            },
        };
        if n < 7 {
            return Err(DecodeError::Incomplete);
        }
        let hi: usize = *slice_index_get(input, 2) as usize;
        let lo: usize = *slice_index_get(input, 3) as usize;
        let frame_size: usize = hi * 256 + lo;
        if frame_size < 2 {
            return Err(DecodeError::InvalidFrameSize);
        }
        if *slice_index_get(input, n - 1) != NET_PACKET_END_BYTE {
            return Err(DecodeError::InvalidEndByte);
        }
        if n != 5 + frame_size {
            return Err(DecodeError::FrameSizeMismatch);
        }
        let packet_number = *slice_index_get(input, 4);
        let packet_count = *slice_index_get(input, 5);
        let payload = slice_to_vec(slice_subrange(input, 6, n - 1));
        Ok(
            NetPacket {
                packet_type,
                frame_size: frame_size as u16,
                packet_number,
                packet_count,
                payload,
            },
        )
    }
}

impl PartialEq for NetPacket {
    /// Two fragments are equal when all their fields agree.
    fn eq(&self, other: &NetPacket) -> (r: bool) {
        if !(self.packet_type == other.packet_type) {
            return false;
        }
        if self.frame_size != other.frame_size {
            return false;
        }
        if self.packet_number != other.packet_number {
            return false;
        }
        if self.packet_count != other.packet_count {
            return false;
        }
        if self.payload.len() != other.payload.len() {
            return false;
        }
        let n: usize = self.payload.len();
        let mut i: usize = 0;
        while i < n
            invariant
                n == self.payload@.len() == other.payload@.len(),
                0 <= i <= n,
                forall|j: int| 0 <= j < i ==> self.payload@[j] == other.payload@[j],
            decreases n - i,
        {
            if self.payload[i] != other.payload[i] {
                return false;
            }
            i = i + 1;
        }
        proof {
            assert(self.payload@ =~= other.payload@);
        }
        true
    }
}

impl vstd::std_specs::cmp::PartialEqSpecImpl for NetPacket {
    open spec fn obeys_eq_spec() -> bool {
        true
    }

    open spec fn eq_spec(&self, other: &NetPacket) -> bool {
        &&& self.packet_type == other.packet_type
        &&& self.frame_size == other.frame_size
        &&& self.packet_number == other.packet_number
        &&& self.packet_count == other.packet_count
        &&& self.payload@ == other.payload@
    }
}

/// Round-trip for the fragment layout: decoding the encoding of any
/// well-sized fragment yields the same fields.
pub proof fn lemma_net_encode_parse_roundtrip(
    t: PacketType,
    packet_number: u8,
    packet_count: u8,
    payload: Seq<u8>,
)
    requires
        payload.len() <= 0xFFFD,
    ensures
        ({
            let s = spec_net_encode(
                t,
                (payload.len() + 2) as u16,
                packet_number,
                packet_count,
                payload,
            );
            &&& net_parse_ok(s)
            &&& spec_type_of_byte(s[1]) == t
            &&& spec_frame_size(s) == payload.len() + 2
            &&& s[4] == packet_number
            &&& s[5] == packet_count
            &&& s.subrange(6, s.len() - 1) == payload
        }),
{
    let fs = (payload.len() + 2) as u16;
    let s = spec_net_encode(t, fs, packet_number, packet_count, payload);
    crate::packet_type::lemma_type_byte_roundtrip(t);
    vstd::arithmetic::div_mod::lemma_fundamental_div_mod(fs as int, 256);
    assert(spec_frame_size(s) == fs);
    assert(s[s.len() - 1] == 0x36);
    assert(s.subrange(6, s.len() - 1) =~= payload);
}

/// How many fragments a byte sequence of length `len` splits into under a
/// per-fragment payload bound of `max`: the least number of chunks of at
/// most `max` bytes each that cover it.
pub open spec fn spec_num_fragments(len: int, max: int) -> int
    recommends
        max >= 1,
{
    len / max + if len % max == 0 {
        0int
    } else {
        1int
    }
}

/// The `i`-th (0-based) chunk of a byte sequence split at `max`-byte
/// boundaries.
pub open spec fn spec_chunk(bytes: Seq<u8>, max: int, i: int) -> Seq<u8>
    recommends
        max >= 1,
        0 <= i < spec_num_fragments(bytes.len() as int, max),
{
    bytes.subrange(
        i * max,
        if (i + 1) * max <= bytes.len() {
            (i + 1) * max
        } else {
            bytes.len() as int
        },
    )
}

/// Whether a packet whose encoding is `len` bytes long can be split under
/// the bound `max`: the bound is positive, the fragment count fits the
/// one-byte `packet_count` field, and no fragment payload overflows the
/// two-byte `frame_size` field.
pub open spec fn spec_can_split(len: int, max: int) -> bool {
    &&& max >= 1
    &&& spec_num_fragments(len, max) <= 255
    &&& (if max <= len {
        max
    } else {
        len
    }) <= 0xFFFD
}

/// Splits a packet's serialized bytes into consecutive fragments of at most
/// `max_fragment_payload` bytes each, numbered 1-based in ascending order,
/// all carrying the source packet's type and the total fragment count.
/// Fails with `InvalidFragmentSize` exactly when the bound is zero, the
/// split would take more fragments than a one-byte count can number, or a
/// single fragment would overflow the frame-size field.
pub fn split_packet(packet: &Tpm2Packet, max_fragment_payload: usize) -> (r: Result<
    Vec<NetPacket>,
    FragmentError,
>)
    requires
        packet.wf(),
    ensures
        r is Ok <==> spec_can_split(
            packet.spec_bytes().len() as int,
            max_fragment_payload as int,
        ),
        r matches Ok(frags) ==> ({
            let bytes = packet.spec_bytes();
            let m = max_fragment_payload as int;
            let cnt = spec_num_fragments(bytes.len() as int, m);
            &&& frags@.len() == cnt
            &&& forall|i: int|
                0 <= i < cnt ==> {
                    let f = #[trigger] frags@[i];
                    &&& f.wf()
                    &&& f.packet_type == packet.spec_type()
                    &&& f.packet_number == i + 1
                    &&& f.packet_count == cnt
                    &&& f.payload@ == spec_chunk(bytes, m, i)
                }
        }),
        r matches Err(e) ==> e == FragmentError::InvalidFragmentSize,
{
    let bytes = packet.bytes();
    let total: usize = bytes.len();
    let max = max_fragment_payload;
    if max == 0 {
        return Err(FragmentError::InvalidFragmentSize);
    }
    let count: usize = total / max + if total % max == 0 {
        0
    } else {
        1
    };
    if count > 255 {
        return Err(FragmentError::InvalidFragmentSize);
    }
    let largest: usize = if max <= total {
        max
    } else {
        total
    };
    if largest > 0xFFFD {
        return Err(FragmentError::InvalidFragmentSize);
    }
    let ghost gbytes = packet.spec_bytes();
    let ghost m = max as int;
    let mut frags: Vec<NetPacket> = Vec::new();
    let mut pos: usize = 0;
    let mut i: usize = 0;
    while i < count
        invariant
            packet.wf(),
            gbytes == packet.spec_bytes(),
            bytes@ == gbytes,
            m == max as int,
            max >= 1,
            total == gbytes.len(),
            count == spec_num_fragments(total as int, m),
            count <= 255,
            (if max <= total {
                max as int
            } else {
                total as int
            }) <= 0xFFFD,
            0 <= i <= count,
            pos == (if i * m <= total as int {
                i * m
            } else {
                total as int
            }),
            pos <= total,
            frags@.len() == i,
            forall|j: int|
                0 <= j < i ==> {
                    let f = #[trigger] frags@[j];
                    &&& f.wf()
                    &&& f.packet_type == packet.spec_type()
                    &&& f.packet_number == j + 1
                    &&& f.packet_count == count
                    &&& f.payload@ == spec_chunk(gbytes, m, j)
                },
        decreases count - i,
    {
        proof {
            assert(i * m < total) by (nonlinear_arith)
                requires
                    0 <= i < count,
                    m >= 1,
                    count == total as int / m + if total as int % m == 0 {
                        0int
                    } else {
                        1int
                    },
                    total == gbytes.len(),
            {
                vstd::arithmetic::div_mod::lemma_fundamental_div_mod(total as int, m);
            }
        }
        let remaining: usize = total - pos;
        let take: usize = if max < remaining {
            max
        } else {
            remaining
        };
        let end: usize = pos + take;
        let chunk = slice_to_vec(slice_subrange(bytes.as_slice(), pos, end));
        proof {
            assert((i + 1) * m == i * m + m) by (nonlinear_arith);
            assert(chunk@ == spec_chunk(gbytes, m, i as int));
        }
        let fragment = NetPacket {
            packet_type: packet.packet_type(),
            frame_size: (take + 2) as u16,
            packet_number: (i + 1) as u8,
            packet_count: count as u8,
            payload: chunk,
        };
        frags.push(fragment);
        pos = end;
        i = i + 1;
    }
    Ok(frags)
}

} // verus!
