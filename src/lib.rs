//! A small framed packet protocol: a message is cut into packets of a
//! chosen capacity, each framed as version, length, payload and a
//! big-endian additive checksum, and a stream of frames is read back into
//! the message with corruption, truncation and version checks.
pub mod error;
pub mod wire;
pub mod packet;
pub mod message;
pub mod laws;

pub use error::PacketError;
pub use message::{PacketSerializer, Packetable};
pub use packet::Packet;
