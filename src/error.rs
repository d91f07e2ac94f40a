use vstd::prelude::*;

verus! {

/// Why a stream of frames could not be read back into a message.
#[derive(Debug, Clone, Copy, PartialEq, Eq, Structural)]
pub enum PacketError {
    /// The header cannot be read, or the frame is shorter than its length byte says.
    InvalidPacket,
    /// The checksum on the wire disagrees with the sum of the payload bytes.
    InvalidChecksum,
    /// The version byte is not the one this protocol speaks.
    UnknownProtocolVersion,
    /// Every frame is sound, but the payloads together do not form a message.
    CorruptedMessage,
}

impl PacketError {
    /// The name of the error kind.
    pub fn name(&self) -> (r: &'static str)
        ensures
            r@ == match self {
                PacketError::InvalidPacket => "InvalidPacket"@,
                PacketError::InvalidChecksum => "InvalidChecksum"@,
                PacketError::UnknownProtocolVersion => "UnknownProtocolVersion"@,
                PacketError::CorruptedMessage => "CorruptedMessage"@,
            },
    {
        match self {
            PacketError::InvalidPacket => "InvalidPacket",
            PacketError::InvalidChecksum => "InvalidChecksum",
            PacketError::UnknownProtocolVersion => "UnknownProtocolVersion",
            PacketError::CorruptedMessage => "CorruptedMessage",
        }
    }
}

} // verus!
