//! A verified implementation of the TPM2 binary framing protocol and its
//! datagram-transport companion ("TPM2-Net"): fixed-layout packet framing,
//! fragmentation of oversized packets into bounded datagrams, and stateful
//! reassembly of out-of-order fragments back into a byte-exact packet.

pub mod assembler;
pub mod error;
pub mod packet_type;
pub mod tpm2;
pub mod tpm2net;

pub use assembler::PacketAssembler;
pub use assembler::ReassemblyResult;
pub use error::DecodeError;
pub use error::FragmentError;
pub use error::ReassemblyError;
pub use packet_type::PacketType;
pub use tpm2::Tpm2Packet;
/// The packet codec existed under this shorter name as well; kept so that
/// callers of either name find the same unified type.
pub use tpm2::Tpm2Packet as Packet;
pub use tpm2net::split_packet;
pub use tpm2net::NetPacket;
