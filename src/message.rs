//! Messages as packets: cutting a message into packets, writing them as one
//! stream of frames, and reading such a stream back into a message.
use crate::error::PacketError;
use crate::packet::Packet;
use crate::wire::{
    after_payload, chunks, decode_frames, encode_message, frame, frames, lemma_chunks_step, packet_of, packets_of,
    PacketModel,
};
use vstd::prelude::*;
use vstd::slice::slice_to_vec;
use vstd::utf8::{decode_utf8, encode_utf8, valid_utf8};

verus! {

/// The packets of a message, handed out in order.
#[derive(Debug)]
pub struct PacketSerializer {
    packets: Vec<Packet>,
    index: usize,
}

impl View for PacketSerializer {
    /// The packets not handed out yet.
    type V = Seq<PacketModel>;

    closed spec fn view(&self) -> Seq<PacketModel> {
        if self.index <= self.packets@.len() {
            self.packets@.map_values(|p: Packet| p@).skip(self.index as int)
        } else {
            Seq::empty()
        }
    }
}

impl PacketSerializer {
    /// Hands out the next packet, if one is left.
    pub fn next(&mut self) -> (r: Option<Packet>)
        ensures
            old(self)@.len() == 0 ==> r is None && final(self)@ == old(self)@,
            old(self)@.len() > 0 ==> (r matches Some(p) && p@ == old(self)@[0]),
            old(self)@.len() > 0 ==> final(self)@ == old(self)@.drop_first(),
    {
        if self.index < self.packets.len() {
            let p = self.packets[self.index].clone();
            self.index = self.index + 1;
            proof {
                assert(self@ =~= old(self)@.drop_first());
            }
            Some(p)
        } else {
            None
        }
    }
}

/// Relies on `String::from_utf8`: it accepts exactly the valid UTF-8 byte
/// sequences, and the text it returns is the one those bytes encode.
#[verifier::external_body]
fn text_from_utf8(bytes: Vec<u8>) -> (r: Option<String>)
    ensures
        r is Some <==> valid_utf8(bytes@),
        r matches Some(s) ==> s@ == decode_utf8(bytes@),
{
    match String::from_utf8(bytes) {
        Ok(s) => Some(s),
        Err(_) => None,
    }
}

/// Cuts `bytes` into packets of at most `size` payload bytes each.
fn packets_of_bytes(bytes: &[u8], size: u8) -> (r: PacketSerializer)
    requires
        size >= 1,
    ensures
        r@ == packets_of(bytes@, size as nat),
{
    let ghost c = size as nat;
    let mut packets: Vec<Packet> = Vec::new();
    let (first, mut rest) = Packet::from_source(bytes, size);
    packets.push(first);
    let ghost mut done: Seq<Seq<u8>> = seq![first@.payload];
    proof {
        lemma_chunks_step(bytes@, c);
    }
    while rest.len() > 0
        invariant
            size >= 1,
            c == size as nat,
            packets@.len() == done.len(),
            forall|i: int| 0 <= i < done.len() ==> #[trigger] packets@[i]@ == packet_of(done[i]),
            chunks(bytes@, c) == done + (if rest@.len() == 0 {
                Seq::<Seq<u8>>::empty()
            } else {
                chunks(rest@, c)
            }),
        decreases rest@.len(),
    {
        let (p, rem) = Packet::from_source(rest, size);
        proof {
            lemma_chunks_step(rest@, c);
            done = done.push(p@.payload);
        }
        packets.push(p);
        rest = rem;
        proof {
            assert(chunks(bytes@, c) =~= done + (if rest@.len() == 0 {
                Seq::<Seq<u8>>::empty()
            } else {
                chunks(rest@, c)
            }));
        }
    }
    let r = PacketSerializer { packets, index: 0 };
    proof {
        assert(chunks(bytes@, c) =~= done);
        assert(r@ =~= packets_of(bytes@, c));
    }
    r
}

/// The frames of the packets that `packets` has yet to hand out, one after
/// another.
fn frames_of_packets(packets: PacketSerializer) -> (r: Vec<u8>)
    ensures
        r@ == frames(packets@),
{
    let mut packets = packets;
    let ghost all = packets@;
    let mut out: Vec<u8> = Vec::new();
    loop
        invariant_except_break
            out@ + frames(packets@) == frames(all),
        ensures
            out@ == frames(all),
        decreases packets@.len(),
    {
        let ghost before = packets@;
        match packets.next() {
            Some(p) => {
                let mut f = p.serialize();
                proof {
                    assert(frames(before) == frame(before[0]) + frames(before.drop_first()));
                    assert(out@ + f@ + frames(packets@) =~= out@ + frames(before));
                }
                out.append(&mut f);
            },
            None => {
                proof {
                    assert(out@ + frames(packets@) =~= out@);
                }
                break;
            },
        }
    }
    out
}

/// Reads a stream of frames until no byte is left and joins their payloads,
/// stopping at the first frame that fails.
fn payloads_of_frames(data: &[u8]) -> (r: Result<Vec<u8>, PacketError>)
    ensures
        match r {
            Ok(b) => decode_frames(data@) == Ok::<Seq<u8>, PacketError>(b@),
            Err(e) => decode_frames(data@) == Err::<Seq<u8>, PacketError>(e),
        },
{
    let mut acc: Vec<u8> = Vec::new();
    let mut bytes: &[u8] = data;
    proof {
        match decode_frames(data@) {
            Ok(more) => assert(Seq::<u8>::empty() + more =~= more),
            Err(_) => {},
        }
    }
    while bytes.len() > 0
        invariant
            decode_frames(data@) == after_payload(acc@, decode_frames(bytes@)),
        decreases bytes@.len(),
    {
        match Packet::deserialize(bytes) {
            Ok((packet, rem)) => {
                let mut piece = slice_to_vec(packet.payload());
                proof {
                    match decode_frames(rem@) {
                        Ok(more) => assert(acc@ + (piece@ + more) =~= acc@ + piece@ + more),
                        Err(_) => {},
                    }
                }
                acc.append(&mut piece);
                bytes = rem;
            },
            Err(e) => {
                return Err(e);
            },
        }
    }
    proof {
        assert(acc@ + Seq::<u8>::empty() =~= acc@);
    }
    Ok(acc)
}

/// Messages that travel as packets: a message has bytes, is sent as the
/// frames of those bytes cut into packets, and is read back from frames.
pub trait Packetable: Sized {
    /// The bytes that carry this message.
    spec fn message_bytes(&self) -> Seq<u8>;

    /// Whether `bytes` are the bytes of some message of this type.
    spec fn is_message_bytes(bytes: Seq<u8>) -> bool;

    /// The packets of the message, in pieces of `packet_size` bytes.
    /// A size of zero is a caller's mistake and is not admitted.
    fn to_packets(&self, packet_size: u8) -> (r: PacketSerializer)
        requires
            packet_size >= 1,
        ensures
            r@ == packets_of(self.message_bytes(), packet_size as nat),
    ;

    /// The frames of the message's packets, one after another.
    fn to_packet_data(&self, packet_size: u8) -> (r: Vec<u8>)
        requires
            packet_size >= 1,
        ensures
            r@ == encode_message(self.message_bytes(), packet_size as nat),
    ;

    /// Reads frames until no byte is left (no bytes are no frames, whose
    /// payloads are empty) and rebuilds the message from their payloads;
    /// the first failing frame gives the error, and payloads that are no
    /// message give `CorruptedMessage`.
    fn from_packet_data(packet_data: &[u8]) -> (r: Result<Self, PacketError>)
        ensures
            match decode_frames(packet_data@) {
                Err(e) => r == Err::<Self, PacketError>(e),
                Ok(b) => if Self::is_message_bytes(b) {
                    r matches Ok(m) && m.message_bytes() == b
                } else {
                    r == Err::<Self, PacketError>(PacketError::CorruptedMessage)
                },
            },
    ;
}

impl Packetable for String {
    /// The UTF-8 encoding of the text.
    open spec fn message_bytes(&self) -> Seq<u8> {
        encode_utf8(self@)
    }

    open spec fn is_message_bytes(bytes: Seq<u8>) -> bool {
        valid_utf8(bytes)
    }

    fn to_packets(&self, packet_size: u8) -> (r: PacketSerializer) {
        packets_of_bytes(self.as_str().as_bytes(), packet_size)
    }

    fn to_packet_data(&self, packet_size: u8) -> (r: Vec<u8>) {
        frames_of_packets(self.to_packets(packet_size))
    }

    fn from_packet_data(packet_data: &[u8]) -> (r: Result<String, PacketError>) {
        match payloads_of_frames(packet_data) {
            Ok(bytes) => {
                let ghost b = bytes@;
                match text_from_utf8(bytes) {
                    Some(text) => {
                        proof {
                            vstd::utf8::decode_utf8_encode_utf8(b);
                        }
                        Ok(text)
                    },
                    None => Err(PacketError::CorruptedMessage),
                }
            },
            Err(e) => Err(e),
        }
    }
}

} // verus!
