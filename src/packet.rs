//! One packet: built from the front of a byte source, written as a frame,
//! and read back from a frame with every check of the protocol.
use crate::error::PacketError;
use crate::wire::{
    byte_sum, decode_frame, frame, lemma_byte_sum_bound, packet_of, PacketModel, MAX_PAYLOAD,
    PROTOCOL_VERSION,
};
use vstd::prelude::*;
use vstd::slice::{slice_subrange, slice_to_vec};

verus! {

/// One framed unit of the protocol. Its fields always agree (see
/// [`PacketModel::wf`]): only this module builds one.
#[derive(Debug)]
pub struct Packet {
    version: u8,
    length: u8,
    payload: Vec<u8>,
    checksum: u32,
}

impl Packet {
    /// Every packet's fields agree.
    #[verifier::type_invariant]
    spec fn inv(&self) -> bool {
        self@.wf()
    }
}

impl View for Packet {
    type V = PacketModel;

    closed spec fn view(&self) -> PacketModel {
        PacketModel {
            version: self.version,
            length: self.length,
            payload: self.payload@,
            checksum: self.checksum,
        }
    }
}

/// The sum of the bytes, which for a payload never passes 255 * 255.
fn sum_bytes(bytes: &[u8]) -> (r: u32)
    requires
        bytes@.len() <= MAX_PAYLOAD,
    ensures
        r == byte_sum(bytes@),
{
    let mut sum: u32 = 0;
    let mut i: usize = 0;
    while i < bytes.len()
        invariant
            i <= bytes@.len() <= MAX_PAYLOAD,
            sum == byte_sum(bytes@.take(i as int)),
        decreases bytes@.len() - i,
    {
        proof {
            assert(bytes@.take(i + 1).drop_last() =~= bytes@.take(i as int));
            lemma_byte_sum_bound(bytes@.take(i as int));
        }
        sum = sum + bytes[i] as u32;
        i = i + 1;
    }
    proof {
        assert(bytes@.take(i as int) =~= bytes@);
    }
    sum
}

impl Clone for Packet {
    fn clone(&self) -> (r: Self)
        ensures
            r@ == self@,
    {
        proof {
            use_type_invariant(self);
        }
        Packet {
            version: self.version,
            length: self.length,
            payload: slice_to_vec(self.payload.as_slice()),
            checksum: self.checksum,
        }
    }
}

impl PartialEq for Packet {
    fn eq(&self, other: &Packet) -> (r: bool) {
        let same_payload = self.payload == other.payload;
        proof {
            if same_payload {
                assert(self.payload@ =~= other.payload@);
            }
        }
        same_payload && self.version == other.version && self.length == other.length
            && self.checksum == other.checksum
    }
}

impl vstd::std_specs::cmp::PartialEqSpecImpl for Packet {
    open spec fn obeys_eq_spec() -> bool {
        true
    }

    open spec fn eq_spec(&self, other: &Packet) -> bool {
        self@ == other@
    }
}

impl Packet {
    /// Takes the first `size` bytes of `source` (all of them when fewer) as
    /// the payload of a new packet, and returns it with the bytes left over.
    /// A size of zero is a caller's mistake and is not admitted.
    pub fn from_source(source: &[u8], size: u8) -> (r: (Self, &[u8]))
        requires
            size >= 1,
        ensures
            ({
                let n = if source@.len() < size { source@.len() as int } else { size as int };
                &&& r.0@ == packet_of(source@.take(n))
                &&& r.1@ == source@.skip(n)
            }),
            r.0@.wf(),
    {
        let len: usize = source.len();
        let mut end: usize = size as usize;
        if end > len {
            end = len;
        }
        let taken = slice_subrange(source, 0, end);
        let rest = slice_subrange(source, end, len);
        let checksum = sum_bytes(taken);
        let packet = Packet {
            version: PROTOCOL_VERSION,
            length: end as u8,
            payload: slice_to_vec(taken),
            checksum,
        };
        proof {
            assert(taken@ =~= source@.take(end as int));
            assert(rest@ =~= source@.skip(end as int));
        }
        (packet, rest)
    }

    /// The payload bytes.
    pub fn payload(&self) -> (r: &[u8])
        ensures
            r@ == self@.payload,
            self@.wf(),
    {
        proof {
            use_type_invariant(self);
        }
        self.payload.as_slice()
    }

    /// The protocol version the packet was made with.
    pub fn version(&self) -> (r: u8)
        ensures
            r == self@.version,
            self@.wf(),
    {
        proof {
            use_type_invariant(self);
        }
        self.version
    }

    /// The number of payload bytes, as written in the frame.
    pub fn length(&self) -> (r: u8)
        ensures
            r == self@.length,
            self@.wf(),
    {
        proof {
            use_type_invariant(self);
        }
        self.length
    }

    /// The checksum: the sum of the payload bytes.
    pub fn checksum(&self) -> (r: u32)
        ensures
            r == self@.checksum,
            self@.wf(),
    {
        proof {
            use_type_invariant(self);
        }
        self.checksum
    }

    /// The frame of the packet: version, length, payload, then the
    /// checksum in four big-endian bytes.
    pub fn serialize(&self) -> (r: Vec<u8>)
        ensures
            r@ == frame(self@),
            self@.wf(),
            r@.len() == 6 + self@.length,
    {
        proof {
            use_type_invariant(self);
        }
        let mut out: Vec<u8> = Vec::new();
        out.push(self.version);
        out.push(self.length);
        let mut i: usize = 0;
        while i < self.payload.len()
            invariant
                i <= self.payload@.len(),
                out@ == seq![self.version, self.length] + self.payload@.take(i as int),
            decreases self.payload@.len() - i,
        {
            out.push(self.payload[i]);
            i = i + 1;
            proof {
                assert(out@ =~= seq![self.version, self.length] + self.payload@.take(i as int));
            }
        }
        let c = self.checksum;
        out.push((c / 0x100_0000) as u8);
        out.push((c / 0x1_0000 % 0x100) as u8);
        out.push((c / 0x100 % 0x100) as u8);
        out.push((c % 0x100) as u8);
        proof {
            assert(self.payload@.take(i as int) =~= self.payload@);
            assert(out@ =~= frame(self@));
        }
        out
    }

    /// Reads the frame at the start of `bytes`, checking in turn that the
    /// header is there, the version is known, the frame is whole and the
    /// checksum agrees; returns the packet and the bytes after the frame.
    pub fn deserialize(bytes: &[u8]) -> (r: Result<(Packet, &[u8]), PacketError>)
        ensures
            match r {
                Ok((p, rest)) => {
                    &&& decode_frame(bytes@) == Ok::<(Seq<u8>, Seq<u8>), PacketError>(
                        (p@.payload, rest@),
                    )
                    &&& p@ == packet_of(p@.payload)
                    &&& p@.wf()
                },
                Err(e) => decode_frame(bytes@) == Err::<(Seq<u8>, Seq<u8>), PacketError>(e),
            },
    {
        let byte_len: usize = bytes.len();
        if byte_len < 2 {
            return Err(PacketError::InvalidPacket);
        }
        let version: u8 = bytes[0];
        let length: u8 = bytes[1];
        if version != PROTOCOL_VERSION {
            return Err(PacketError::UnknownProtocolVersion);
        }
        let pay_end: usize = 2 + length as usize;
        if byte_len < pay_end + 4 {
            return Err(PacketError::InvalidPacket);
        }
        let payload = slice_subrange(bytes, 2, pay_end);
        let sum = sum_bytes(payload);
        let wire: u32 = bytes[pay_end] as u32 * 0x100_0000 + bytes[pay_end + 1] as u32 * 0x1_0000
            + bytes[pay_end + 2] as u32 * 0x100 + bytes[pay_end + 3] as u32;
        proof {
            assert(bytes@.subrange(pay_end as int, pay_end + 4)[0] == bytes@[pay_end as int]);
            assert(bytes@.subrange(pay_end as int, pay_end + 4)[1] == bytes@[pay_end + 1]);
            assert(bytes@.subrange(pay_end as int, pay_end + 4)[2] == bytes@[pay_end + 2]);
            assert(bytes@.subrange(pay_end as int, pay_end + 4)[3] == bytes@[pay_end + 3]);
        }
        if wire != sum {
            return Err(PacketError::InvalidChecksum);
        }
        let rest = slice_subrange(bytes, pay_end + 4, byte_len);
        let packet = Packet { version, length, payload: slice_to_vec(payload), checksum: sum };
        Ok((packet, rest))
    }
}

} // verus!
