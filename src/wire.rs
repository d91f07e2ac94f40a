//! The wire format as mathematics: what a frame is, how one frame and a
//! stream of frames are read, and how a message is cut and written.
use crate::error::PacketError;
use vstd::prelude::*;

verus! {

/// The one protocol version spoken here.
pub const PROTOCOL_VERSION: u8 = 1;

/// The largest payload one packet can carry: its length fits in one byte.
pub const MAX_PAYLOAD: usize = 255;

/// Bytes of a frame that are not payload: version, length and four checksum bytes.
pub const FRAME_OVERHEAD: usize = 6;

/// The sum of the byte values.
pub open spec fn byte_sum(s: Seq<u8>) -> nat
    decreases s.len(),
{
    if s.len() == 0 {
        0
    } else {
        (byte_sum(s.drop_last()) + s.last()) as nat
    }
}

/// The four big-endian bytes of `x`.
pub open spec fn be_bytes(x: u32) -> Seq<u8> {
    seq![
        (x / 0x100_0000) as u8,
        (x / 0x1_0000 % 0x100) as u8,
        (x / 0x100 % 0x100) as u8,
        (x % 0x100) as u8,
    ]
}

/// The number that four bytes spell in big-endian order.
pub open spec fn be_value(b: Seq<u8>) -> int {
    b[0] * 0x100_0000 + b[1] * 0x1_0000 + b[2] * 0x100 + b[3]
}

/// What a packet holds.
pub struct PacketModel {
    pub version: u8,
    pub length: u8,
    pub payload: Seq<u8>,
    pub checksum: u32,
}

impl PacketModel {
    /// The packet's fields agree: current version, true length, true checksum.
    pub open spec fn wf(self) -> bool {
        &&& self.version == PROTOCOL_VERSION
        &&& self.payload.len() <= MAX_PAYLOAD
        &&& self.length == self.payload.len()
        &&& self.checksum == byte_sum(self.payload)
    }
}

/// The packet that carries `payload`.
pub open spec fn packet_of(payload: Seq<u8>) -> PacketModel {
    PacketModel {
        version: PROTOCOL_VERSION,
        length: payload.len() as u8,
        payload,
        checksum: byte_sum(payload) as u32,
    }
}

/// The frame of a packet: version, length, payload, checksum big-endian.
pub open spec fn frame(p: PacketModel) -> Seq<u8> {
    seq![p.version, p.length] + p.payload + be_bytes(p.checksum)
}

/// Reads the frame at the start of `b`: its payload and the bytes after it,
/// or the first check that fails.
pub open spec fn decode_frame(b: Seq<u8>) -> Result<(Seq<u8>, Seq<u8>), PacketError> {
    if b.len() < 2 {
        Err(PacketError::InvalidPacket)
    } else if b[0] != PROTOCOL_VERSION {
        Err(PacketError::UnknownProtocolVersion)
    } else if b.len() < FRAME_OVERHEAD + b[1] {
        Err(PacketError::InvalidPacket)
    } else {
        let n = b[1] as int;
        let payload = b.subrange(2, 2 + n);
        if be_value(b.subrange(2 + n, 6 + n)) != byte_sum(payload) {
            Err(PacketError::InvalidChecksum)
        } else {
            Ok((payload, b.subrange(6 + n, b.len() as int)))
        }
    }
}

/// Reads frames one after another until no byte is left, and joins their
/// payloads; no bytes at all are no frames, and the first failure ends the
/// reading.
pub open spec fn decode_frames(b: Seq<u8>) -> Result<Seq<u8>, PacketError>
    decreases b.len(),
{
    if b.len() == 0 {
        Ok(Seq::empty())
    } else {
        match decode_frame(b) {
            Err(e) => Err(e),
            Ok((payload, rest)) => after_payload(payload, decode_frames(rest)),
        }
    }
}

/// The result of reading frames, with `acc` put before the payloads read.
pub open spec fn after_payload(acc: Seq<u8>, r: Result<Seq<u8>, PacketError>) -> Result<
    Seq<u8>,
    PacketError,
> {
    match r {
        Ok(more) => Ok(acc + more),
        Err(e) => Err(e),
    }
}

/// A message cut into pieces of `size` bytes; the last may be shorter, and
/// an empty message is one empty piece.
pub open spec fn chunks(m: Seq<u8>, size: nat) -> Seq<Seq<u8>>
    decreases m.len(),
    when size > 0
{
    if m.len() <= size {
        seq![m]
    } else {
        seq![m.take(size as int)] + chunks(m.skip(size as int), size)
    }
}

/// The packets that carry a message in pieces of `size` bytes.
pub open spec fn packets_of(m: Seq<u8>, size: nat) -> Seq<PacketModel> {
    chunks(m, size).map_values(|c: Seq<u8>| packet_of(c))
}

/// The frames of some packets, one after another.
pub open spec fn frames(ps: Seq<PacketModel>) -> Seq<u8>
    decreases ps.len(),
{
    if ps.len() == 0 {
        Seq::empty()
    } else {
        frame(ps[0]) + frames(ps.drop_first())
    }
}

/// The payloads of some packets, one after another.
pub open spec fn payloads(ps: Seq<PacketModel>) -> Seq<u8>
    decreases ps.len(),
{
    if ps.len() == 0 {
        Seq::empty()
    } else {
        ps[0].payload + payloads(ps.drop_first())
    }
}

/// Every packet of `ps` is well formed.
pub open spec fn all_wf(ps: Seq<PacketModel>) -> bool {
    forall|i: int| 0 <= i < ps.len() ==> #[trigger] ps[i].wf()
}

/// The wire bytes of a message sent in pieces of `size` bytes.
pub open spec fn encode_message(m: Seq<u8>, size: nat) -> Seq<u8> {
    frames(packets_of(m, size))
}

} // verus!

verus! {

/// Each byte adds at most 255 to the sum.
pub proof fn lemma_byte_sum_bound(s: Seq<u8>)
    ensures
        byte_sum(s) <= 255 * s.len(),
    decreases s.len(),
{
    if s.len() > 0 {
        lemma_byte_sum_bound(s.drop_last());
    }
}

/// Reading back the big-endian bytes of a number gives the number.
pub proof fn lemma_be_round_trip(x: u32)
    ensures
        be_value(be_bytes(x)) == x,
{
}

} // verus!

verus! {

/// One step of cutting: the first piece, then the pieces of what is left
/// (none when nothing is left).
pub proof fn lemma_chunks_step(m: Seq<u8>, size: nat)
    requires
        size > 0,
    ensures
        ({
            let n = if m.len() < size { m.len() as int } else { size as int };
            chunks(m, size) == seq![m.take(n)] + (if m.skip(n).len() == 0 {
                Seq::<Seq<u8>>::empty()
            } else {
                chunks(m.skip(n), size)
            })
        }),
{
    if m.len() <= size {
        assert(m.take(m.len() as int) =~= m);
        assert(chunks(m, size) =~= seq![m] + Seq::<Seq<u8>>::empty());
    }
}

} // verus!
