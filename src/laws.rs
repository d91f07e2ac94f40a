//! What holds of the protocol as a whole: messages survive the trip through
//! frames, and damaged, truncated or foreign frames are caught.
use crate::error::PacketError;
use crate::message::Packetable;
use crate::wire::{
    after_payload, all_wf, be_bytes, be_value, byte_sum, decode_frame, decode_frames,
    encode_message, frame, frames, lemma_be_round_trip, lemma_byte_sum_bound, lemma_chunks_step,
    packet_of, packets_of, payloads, PacketModel, FRAME_OVERHEAD, MAX_PAYLOAD, PROTOCOL_VERSION,
};
use vstd::prelude::*;
use vstd::utf8::{encode_utf8_decode_utf8, encode_utf8_valid_utf8, valid_utf8};

verus! {

/// Changing one byte changes the sum by the difference of the two values.
pub proof fn lemma_byte_sum_update(s: Seq<u8>, i: int, v: u8)
    requires
        0 <= i < s.len(),
    ensures
        byte_sum(s.update(i, v)) == byte_sum(s) - s[i] + v,
    decreases s.len(),
{
    let t = s.update(i, v);
    if i == s.len() - 1 {
        assert(t.drop_last() =~= s.drop_last());
    } else {
        assert(t.drop_last() =~= s.drop_last().update(i, v));
        lemma_byte_sum_update(s.drop_last(), i, v);
    }
}

/// The frame of a packet, followed by any bytes, reads back as the
/// packet's payload followed by those bytes.
pub proof fn lemma_decode_frame_of_packet(payload: Seq<u8>, tail: Seq<u8>)
    requires
        payload.len() <= MAX_PAYLOAD,
    ensures
        decode_frame(frame(packet_of(payload)) + tail) == Ok::<(Seq<u8>, Seq<u8>), PacketError>(
            (payload, tail),
        ),
{
    let n = payload.len() as int;
    let p = packet_of(payload);
    let b = frame(p) + tail;
    lemma_byte_sum_bound(payload);
    lemma_be_round_trip(p.checksum);
    assert(b.subrange(2, 2 + n) =~= payload);
    assert(b.subrange(2 + n, 6 + n) =~= be_bytes(p.checksum));
    assert(b.subrange(6 + n, b.len() as int) =~= tail);
}

/// A well-formed packet is the packet of its payload.
pub proof fn lemma_wf_is_packet_of(p: PacketModel)
    requires
        p.wf(),
    ensures
        p == packet_of(p.payload),
{
    lemma_byte_sum_bound(p.payload);
}

/// Sound frames followed by any bytes read as the frames' payloads
/// followed by whatever those bytes give.
pub proof fn lemma_decode_sound_frames(ps: Seq<PacketModel>, rest: Seq<u8>)
    requires
        all_wf(ps),
    ensures
        decode_frames(frames(ps) + rest) == after_payload(payloads(ps), decode_frames(rest)),
    decreases ps.len(),
{
    if ps.len() == 0 {
        assert(frames(ps) + rest =~= rest);
        match decode_frames(rest) {
            Ok(more) => assert(payloads(ps) + more =~= more),
            Err(_) => {},
        }
    } else {
        let p = ps[0];
        let others = ps.drop_first();
        assert(p.wf());
        assert forall|i: int| 0 <= i < others.len() implies #[trigger] others[i].wf() by {
            assert(others[i] == ps[i + 1]);
        }
        lemma_wf_is_packet_of(p);
        let tail = frames(others) + rest;
        assert(frames(ps) + rest =~= frame(p) + tail);
        lemma_decode_frame_of_packet(p.payload, tail);
        lemma_decode_sound_frames(others, rest);
        match decode_frames(rest) {
            Ok(more) => assert(p.payload + (payloads(others) + more) =~= payloads(ps) + more),
            Err(_) => {},
        }
    }
}

/// The frames of well-formed packets read back as their payloads, one
/// after another.
pub proof fn lemma_decode_frames_of_packets(ps: Seq<PacketModel>)
    requires
        all_wf(ps),
    ensures
        decode_frames(frames(ps)) == Ok::<Seq<u8>, PacketError>(payloads(ps)),
{
    lemma_decode_sound_frames(ps, Seq::empty());
    assert(frames(ps) + Seq::<u8>::empty() =~= frames(ps));
    assert(payloads(ps) + Seq::<u8>::empty() =~= payloads(ps));
}

/// The packets of a message are well formed, and their payloads, one after
/// another, are the message.
pub proof fn lemma_packets_of_message(m: Seq<u8>, packet_size: u8)
    requires
        packet_size >= 1,
    ensures
        all_wf(packets_of(m, packet_size as nat)),
        payloads(packets_of(m, packet_size as nat)) == m,
    decreases m.len(),
{
    let c = packet_size as nat;
    let n = if m.len() < c { m.len() as int } else { c as int };
    let piece = m.take(n);
    let rest = m.skip(n);
    let ps = packets_of(m, c);
    lemma_chunks_step(m, c);
    lemma_byte_sum_bound(piece);
    assert(ps[0] == packet_of(piece));
    assert(ps[0].wf());
    if rest.len() == 0 {
        assert(ps.drop_first() =~= Seq::empty());
        assert(piece =~= m);
        assert(payloads(ps) == piece + payloads(ps.drop_first()));
        assert(piece + Seq::<u8>::empty() =~= m);
    } else {
        lemma_packets_of_message(rest, packet_size);
        assert(ps.drop_first() =~= packets_of(rest, c));
        assert forall|i: int| 0 <= i < ps.len() implies #[trigger] ps[i].wf() by {
            if i > 0 {
                assert(ps[i] == packets_of(rest, c)[i - 1]);
            }
        }
        assert(payloads(ps) == piece + payloads(ps.drop_first()));
        assert(piece + rest =~= m);
    }
}

/// Cutting a message into packets and writing their frames, then reading
/// the frames back, gives the message's bytes, for every packet size from
/// 1 to 255.
pub proof fn lemma_frames_round_trip(m: Seq<u8>, packet_size: u8)
    requires
        packet_size >= 1,
    ensures
        decode_frames(encode_message(m, packet_size as nat)) == Ok::<Seq<u8>, PacketError>(m),
{
    lemma_packets_of_message(m, packet_size);
    lemma_decode_frames_of_packets(packets_of(m, packet_size as nat));
}

/// Every text comes back whole from its packet data, for every packet
/// size from 1 to 255: the frames read back as the text's bytes, those
/// bytes are text, and no other text has them. By the contracts of
/// `to_packet_data` and `from_packet_data`, reading the packet data of a
/// text therefore gives the same text.
pub proof fn lemma_text_round_trip(m: String, packet_size: u8)
    requires
        packet_size >= 1,
    ensures
        decode_frames(encode_message(m.message_bytes(), packet_size as nat)) == Ok::<
            Seq<u8>,
            PacketError,
        >(m.message_bytes()),
        String::is_message_bytes(m.message_bytes()),
        forall|t: String| #[trigger] t.message_bytes() == m.message_bytes() ==> t@ == m@,
{
    lemma_frames_round_trip(m.message_bytes(), packet_size);
    encode_utf8_valid_utf8(m@);
    assert forall|t: String| #[trigger] t.message_bytes() == m.message_bytes() implies t@ == m@ by {
        encode_utf8_decode_utf8(t@);
        encode_utf8_decode_utf8(m@);
    }
}

/// The frames of some packets are the frames of the first `j` of them
/// followed by the frames of the others.
pub proof fn lemma_frames_split(ps: Seq<PacketModel>, j: int)
    requires
        0 <= j <= ps.len(),
    ensures
        frames(ps) == frames(ps.take(j)) + frames(ps.skip(j)),
    decreases j,
{
    if j == 0 {
        assert(ps.take(0) =~= Seq::<PacketModel>::empty());
        assert(ps.skip(0) =~= ps);
        assert(frames(ps) =~= Seq::<u8>::empty() + frames(ps));
    } else {
        let others = ps.drop_first();
        lemma_frames_split(others, j - 1);
        assert(ps.take(j).drop_first() =~= others.take(j - 1));
        assert(ps.take(j)[0] == ps[0]);
        assert(ps.skip(j) =~= others.skip(j - 1));
        assert(frames(ps) =~= frames(ps.take(j)) + frames(ps.skip(j)));
    }
}

/// The frames of well-formed packets are those before index `j`, the
/// frame at `j`, and those after it.
proof fn lemma_frames_around(ps: Seq<PacketModel>, j: int)
    requires
        all_wf(ps),
        0 <= j < ps.len(),
    ensures
        frames(ps) == frames(ps.take(j)) + frame(ps[j]) + frames(ps.skip(j + 1)),
        all_wf(ps.take(j)),
        ps[j].wf(),
        ps[j] == packet_of(ps[j].payload),
{
    lemma_frames_split(ps, j);
    let later = ps.skip(j);
    assert(later[0] == ps[j]);
    assert(later.drop_first() =~= ps.skip(j + 1));
    assert(frames(later) == frame(ps[j]) + frames(ps.skip(j + 1)));
    assert(frames(ps) =~= frames(ps.take(j)) + frame(ps[j]) + frames(ps.skip(j + 1)));
    assert forall|i: int| 0 <= i < ps.take(j).len() implies #[trigger] ps.take(j)[i].wf() by {
        assert(ps.take(j)[i] == ps[i]);
    }
    assert(ps[j].wf());
    lemma_wf_is_packet_of(ps[j]);
}

/// Sound frames followed by bytes whose first frame fails: the stream
/// fails the same way.
proof fn lemma_fails_after_sound_frames(ps: Seq<PacketModel>, bad: Seq<u8>, e: PacketError)
    requires
        all_wf(ps),
        bad.len() > 0,
        decode_frame(bad) == Err::<(Seq<u8>, Seq<u8>), PacketError>(e),
    ensures
        decode_frames(frames(ps) + bad) == Err::<Seq<u8>, PacketError>(e),
{
    lemma_decode_sound_frames(ps, bad);
}

/// Changing any one payload byte of any frame in a stream of sound frames
/// (such as the packet data of a message) makes the stream fail its
/// checksum.
pub proof fn lemma_changed_payload_byte_fails_checksum(
    ps: Seq<PacketModel>,
    j: int,
    i: int,
    v: u8,
)
    requires
        all_wf(ps),
        0 <= j < ps.len(),
        0 <= i < ps[j].payload.len(),
        v != ps[j].payload[i],
    ensures
        decode_frames(frames(ps).update(frames(ps.take(j)).len() + 2 + i, v)) == Err::<
            Seq<u8>,
            PacketError,
        >(PacketError::InvalidChecksum),
{
    lemma_frames_around(ps, j);
    let pre = frames(ps.take(j));
    let p = ps[j];
    let post = frames(ps.skip(j + 1));
    let payload = p.payload;
    let n = payload.len() as int;
    let bad = frame(p).update(2 + i, v) + post;
    assert(frames(ps).update(pre.len() + 2 + i, v) =~= pre + bad);
    lemma_byte_sum_bound(payload);
    lemma_byte_sum_update(payload, i, v);
    lemma_be_round_trip(p.checksum);
    assert(bad.subrange(2, 2 + n) =~= payload.update(i, v));
    assert(bad.subrange(2 + n, 6 + n) =~= be_bytes(p.checksum));
    assert(be_value(bad.subrange(2 + n, 6 + n)) == byte_sum(payload));
    lemma_fails_after_sound_frames(ps.take(j), bad, PacketError::InvalidChecksum);
}

/// Overwriting the version byte of any frame in a stream of sound frames
/// with anything but the protocol version makes the stream fail as of an
/// unknown version.
pub proof fn lemma_wrong_version_refused(ps: Seq<PacketModel>, j: int, v: u8)
    requires
        all_wf(ps),
        0 <= j < ps.len(),
        v != PROTOCOL_VERSION,
    ensures
        decode_frames(frames(ps).update(frames(ps.take(j)).len() as int, v)) == Err::<
            Seq<u8>,
            PacketError,
        >(PacketError::UnknownProtocolVersion),
{
    lemma_frames_around(ps, j);
    let pre = frames(ps.take(j));
    let post = frames(ps.skip(j + 1));
    let bad = frame(ps[j]).update(0, v) + post;
    assert(frames(ps).update(pre.len() as int, v) =~= pre + bad);
    lemma_fails_after_sound_frames(ps.take(j), bad, PacketError::UnknownProtocolVersion);
}

/// Cutting a stream of sound frames inside one of its frames (after at
/// least one byte of it, before its end) makes the stream fail as an
/// invalid packet.
pub proof fn lemma_truncated_frame_refused(ps: Seq<PacketModel>, j: int, k: int)
    requires
        all_wf(ps),
        0 <= j < ps.len(),
        0 < k < FRAME_OVERHEAD + ps[j].payload.len(),
    ensures
        decode_frames(frames(ps).take(frames(ps.take(j)).len() + k)) == Err::<
            Seq<u8>,
            PacketError,
        >(PacketError::InvalidPacket),
{
    lemma_frames_around(ps, j);
    let pre = frames(ps.take(j));
    let bad = frame(ps[j]).take(k);
    assert(frames(ps).take(pre.len() + k) =~= pre + bad);
    lemma_fails_after_sound_frames(ps.take(j), bad, PacketError::InvalidPacket);
}

/// Sound frames whose payloads together are not UTF-8 pass every check of
/// the frames, yet are no text: reading them back as a text gives
/// `CorruptedMessage`.
pub proof fn lemma_non_utf8_payloads_are_not_text(ps: Seq<PacketModel>)
    requires
        all_wf(ps),
        !valid_utf8(payloads(ps)),
    ensures
        decode_frames(frames(ps)) == Ok::<Seq<u8>, PacketError>(payloads(ps)),
        !String::is_message_bytes(payloads(ps)),
{
    lemma_decode_frames_of_packets(ps);
}

/// A payload that opens with a UTF-8 continuation byte (such as the single
/// byte 0x80) is not UTF-8, so its frame, sound as it is, reads back as no
/// text.
pub proof fn lemma_stray_continuation_byte_is_not_text(payload: Seq<u8>)
    requires
        payload.len() <= MAX_PAYLOAD,
        payload.len() > 0,
        0x80 <= payload[0] <= 0xbf,
    ensures
        decode_frames(frame(packet_of(payload))) == Ok::<Seq<u8>, PacketError>(payload),
        !String::is_message_bytes(payload),
{
    lemma_byte_sum_bound(payload);
    let ps = seq![packet_of(payload)];
    assert(ps[0].wf());
    assert(!valid_utf8(payload));
    assert(ps.drop_first() =~= Seq::<PacketModel>::empty());
    assert(payloads(ps.drop_first()) == Seq::<u8>::empty());
    assert(frames(ps.drop_first()) == Seq::<u8>::empty());
    assert(payloads(ps) =~= payload + Seq::<u8>::empty());
    assert(frames(ps) =~= frame(packet_of(payload)) + Seq::<u8>::empty());
    assert(payload + Seq::<u8>::empty() =~= payload);
    assert(frame(packet_of(payload)) + Seq::<u8>::empty() =~= frame(packet_of(payload)));
    lemma_non_utf8_payloads_are_not_text(ps);
}

} // verus!
