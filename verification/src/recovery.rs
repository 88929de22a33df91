//! Rebuilding a lost media packet from a FEC packet and the media packets that did arrive.

use crate::fec::{FecHeader, FecHeaderError};
use crate::geometry::FecGeometryError;
use crate::packet::{zeroes, Packet};
use crate::parity::{
    lemma_xor_lengths_cancels, lemma_xor_lengths_of_xor, lemma_xor_lengths_remove,
    lemma_xor_packets_cancels, lemma_xor_packets_len,
    lemma_xor_packets_of_xor, lemma_xor_packets_payload, lemma_xor_packets_remove,
    lemma_xor_timestamps_remove, payloads, xor, xor_bytes, xor_lengths, xor_packets,
    xor_timestamps,
};
use crate::rtp::{
    law_header_fields_read_back, rtp_csrc_end, rtp_error, rtp_extended, rtp_sequence, rtp_timestamp, rtp_version,
    with_sequence, with_stream, with_timestamp, with_version, RtpHeaderError, RtpHeaderMut,
    RtpReader, MIN_HEADER_LEN,
};
use vstd::prelude::*;

verus! {

/// Input that the decoder has no way of dealing with.
#[derive(Debug, Clone, Copy, PartialEq, Eq, Structural)]
pub enum Refusal {
    /// A sequence number lies about half a turn away from the window it should go into, so that
    /// the window would outgrow its limit.
    WindowOverrun,
    /// A packet of a FEC stream has no proper FEC header.
    Fec(FecHeaderError),
    /// A packet of a FEC stream is too short to tell whether it has a proper FEC header.
    FecTruncated,
    /// The geometry of the FEC streams changed to one that is not allowed, or that the packet
    /// announcing the change does not give.
    Geometry(FecGeometryError),
    /// The packets of the buffer pool are too small to hold the recovered packet.
    BufferTooSmall,
    /// A FEC packet and a media packet that it protects differ in length.
    LengthMismatch,
    /// A media packet used for recovery is not an RTP packet.
    MalformedPacket(RtpHeaderError),
    /// The recovered packet is not an RTP packet.
    MalformedRecovery(RtpHeaderError),
    /// The recovered packet is longer than the FEC packet allows for.
    RecoveredTooLong,
}

/// What keeps `packet` from being combined with `len` bytes of protected data, if anything.
pub open spec fn packet_obstacle(packet: Seq<u8>, len: nat) -> Option<Refusal> {
    if packet.len() != len {
        Some(Refusal::LengthMismatch)
    } else {
        match rtp_error(packet) {
            Some(error) => Some(Refusal::MalformedPacket(error)),
            None => None,
        }
    }
}

/// The first obstacle among `packets`.
pub open spec fn packets_obstacle(packets: Seq<Seq<u8>>, len: nat) -> Option<Refusal>
    decreases packets.len(),
{
    if packets.len() == 0 {
        None
    } else {
        match packets_obstacle(packets.drop_last(), len) {
            Some(refusal) => Some(refusal),
            None => packet_obstacle(packets.last(), len),
        }
    }
}

/// The recovery of one lost packet: the header and payload of a FEC packet, the other packets that
/// the FEC packet protects, and the sequence number of the lost packet.
pub struct Recovery {
    pub header: FecHeader,
    pub fec_payload: Seq<u8>,
    pub present: Seq<Seq<u8>>,
    pub seq: u16,
}

impl Recovery {
    /// The length of what follows the header of the recovered packet.
    pub open spec fn payload_len(self) -> u16 {
        xor_lengths(self.header.length_recovery, self.present)
    }

    /// The length of the recovered packet.
    pub open spec fn len(self) -> int {
        self.payload_len() + 12
    }

    /// The timestamp of the recovered packet.
    pub open spec fn timestamp(self) -> u32 {
        xor_timestamps(self.header.ts_recovery, self.present)
    }

    /// The exclusive-or of the FEC packet's payload with the packets that are present.  The payload
    /// of the FEC packet protects the payload of the media packets, but not the headers, so that
    /// the place of the header is taken by the first bytes of a `fresh` buffer.
    pub open spec fn combined(self, fresh: Seq<u8>) -> Seq<u8> {
        xor_packets(fresh.take(12) + self.fec_payload, self.present)
    }

    /// The combined packets with those header fields that all packets of a stream have in common
    /// taken from the first packet that is present.
    pub open spec fn headed(self, fresh: Seq<u8>) -> Seq<u8> {
        if self.present.len() > 0 {
            with_stream(self.combined(fresh), self.present[0])
        } else {
            self.combined(fresh)
        }
    }

    /// The combined packets with the header fields of the recovered packet.
    pub open spec fn patched(self, fresh: Seq<u8>) -> Seq<u8> {
        with_sequence(
            with_timestamp(with_version(self.headed(fresh), 2), self.timestamp()),
            self.seq,
        )
    }

    /// Whether the recovered packet would have any payload.
    pub open spec fn fruitful(self) -> bool {
        self.len() > MIN_HEADER_LEN
    }

    /// The recovered packet.
    pub open spec fn packet(self, fresh: Seq<u8>) -> Seq<u8> {
        self.patched(fresh).take(self.len())
    }

    /// What keeps the recovery into the buffer `fresh` from working out, if anything.
    pub open spec fn obstacle(self, fresh: Seq<u8>) -> Option<Refusal> {
        let len = self.fec_payload.len() + 12;
        if len > fresh.len() {
            Some(Refusal::BufferTooSmall)
        } else if packets_obstacle(self.present, len) is Some {
            packets_obstacle(self.present, len)
        } else if !self.fruitful() {
            None
        } else if rtp_error(self.patched(fresh)) is Some {
            Some(Refusal::MalformedRecovery(rtp_error(self.patched(fresh))->0))
        } else if self.len() > len {
            Some(Refusal::RecoveredTooLong)
        } else {
            None
        }
    }

    /// Whether a recovery into the buffer `fresh` may come out as `outcome`.
    pub open spec fn comes_out<P: Packet>(
        self,
        fresh: Seq<u8>,
        outcome: Result<Option<P>, Refusal>,
    ) -> bool {
        match outcome {
            Ok(Some(packet)) => {
                &&& self.obstacle(fresh) is None
                &&& self.fruitful()
                &&& packet.bytes() == self.packet(fresh)
            },
            Ok(None) => self.obstacle(fresh) is None && !self.fruitful(),
            Err(refusal) => self.obstacle(fresh) == Some(refusal),
        }
    }
}

/// The bytes of each packet.
pub open spec fn bytes_of<P: Packet>(packets: Seq<&P>) -> Seq<Seq<u8>> {
    Seq::new(packets.len(), |i: int| packets[i].bytes())
}

/// Copies `src` into `dst`, from index `at` on.
fn copy_at(dst: &mut [u8], at: usize, src: &[u8])
    requires
        old(dst)@.len() == at + src@.len(),
    ensures
        final(dst)@ == old(dst)@.take(at as int) + src@,
{
    let ghost before = dst@;
    let len: usize = dst.len();
    let mut i: usize = 0;
    while i < src.len()
        invariant
            i <= src@.len(),
            len == at + src@.len(),
            before.len() == len,
            dst@.len() == before.len(),
            forall|j: int| 0 <= j < at ==> dst@[j] == before[j],
            forall|j: int| 0 <= j < i ==> dst@[at + j] == src@[j],
        decreases src@.len() - i,
    {
        dst[at + i] = src[i];
        i += 1;
    }
    assert(dst@ =~= before.take(at as int) + src@);
}

/// The payload length and timestamp that result from combining `present` into `payload`, or the
/// first obstacle.
fn combine<P: Packet>(
    payload: &mut [u8],
    len_recovery: u16,
    ts_recovery: u32,
    present: &Vec<&P>,
) -> (res: Result<(u16, u32), Refusal>)
    requires
        old(payload)@.len() >= MIN_HEADER_LEN,
    ensures
        match res {
            Ok((len, ts)) => {
                &&& packets_obstacle(bytes_of(present@), old(payload)@.len()) is None
                &&& final(payload)@ == xor_packets(old(payload)@, bytes_of(present@))
                &&& len == xor_lengths(len_recovery, bytes_of(present@))
                &&& ts == xor_timestamps(ts_recovery, bytes_of(present@))
            },
            Err(refusal) => packets_obstacle(bytes_of(present@), old(payload)@.len()) == Some(
                refusal,
            ),
        },
{
    let ghost before = payload@;
    let ghost packets = bytes_of(present@);
    let mut len_recover: u16 = len_recovery;
    let mut ts_recover: u32 = ts_recovery;
    let mut i: usize = 0;
    while i < present.len()
        invariant
            i <= present@.len(),
            before == old(payload)@,
            before.len() >= MIN_HEADER_LEN,
            packets == bytes_of(present@),
            payload@.len() == before.len(),
            packets_obstacle(packets.take(i as int), before.len()) is None,
            payload@ == xor_packets(before, packets.take(i as int)),
            len_recover == xor_lengths(len_recovery, packets.take(i as int)),
            ts_recover == xor_timestamps(ts_recovery, packets.take(i as int)),
        decreases present@.len() - i,
    {
        let pk = present[i].payload();
        proof {
            assert(packets.take(i + 1).drop_last() =~= packets.take(i as int));
            assert(packets.take(i + 1).last() == pk@);
            if packets_obstacle(packets.take(i + 1), before.len()) is Some {
                lemma_packets_obstacle_prefix(packets, before.len(), i + 1);
            }
        }
        if pk.len() != payload.len() {
            return Err(Refusal::LengthMismatch);
        }
        xor(payload, pk);
        len_recover = len_recover ^ ((pk.len() - MIN_HEADER_LEN) as u16);
        match RtpReader::new(pk) {
            Ok(rtp) => {
                ts_recover = ts_recover ^ rtp.timestamp;
            },
            Err(error) => {
                return Err(Refusal::MalformedPacket(error));
            },
        }
        i += 1;
    }
    assert(packets.take(present@.len() as int) =~= packets);
    Ok((len_recover, ts_recover))
}

/// An obstacle among the first packets is the first among all of them.
proof fn lemma_packets_obstacle_prefix(packets: Seq<Seq<u8>>, len: nat, n: int)
    requires
        0 <= n <= packets.len(),
        packets_obstacle(packets.take(n), len) is Some,
    ensures
        packets_obstacle(packets, len) == packets_obstacle(packets.take(n), len),
    decreases packets.len() - n,
{
    if n == packets.len() {
        assert(packets.take(n) =~= packets);
    } else {
        assert(packets.take(n + 1).drop_last() =~= packets.take(n));
        lemma_packets_obstacle_prefix(packets, len, n + 1);
    }
}

/// Where there is no obstacle, every packet is an RTP packet of the right length.
proof fn lemma_obstacle_free(packets: Seq<Seq<u8>>, len: nat, i: int)
    requires
        packets_obstacle(packets, len) is None,
        0 <= i < packets.len(),
    ensures
        packets[i].len() == len,
        rtp_error(packets[i]) is None,
    decreases packets.len(),
{
    if i < packets.len() - 1 {
        lemma_obstacle_free(packets.drop_last(), len, i);
    }
}

/// Rebuilds the packet with sequence number `seq` in the buffer `fresh`.
pub fn rebuild<P: Packet, Q: Packet>(
    fresh: P,
    header: &FecHeader,
    fec_payload: &[u8],
    present: &Vec<&Q>,
    seq: u16,
) -> (res: Result<Option<P>, Refusal>)
    ensures
        (Recovery {
            header: *header,
            fec_payload: fec_payload@,
            present: bytes_of(present@),
            seq,
        }).comes_out(fresh.bytes(), res),
{
    let ghost recovery = Recovery {
        header: *header,
        fec_payload: fec_payload@,
        present: bytes_of(present@),
        seq,
    };
    let mut recovered = fresh;
    let size: usize = recovered.payload().len();
    if size < MIN_HEADER_LEN || fec_payload.len() > size - MIN_HEADER_LEN {
        return Err(Refusal::BufferTooSmall);
    }
    recovered.truncate(fec_payload.len() + MIN_HEADER_LEN);
    let ghost payload_len = fec_payload@.len() + 12;
    let payload = recovered.payload_mut();
    // the 'payload' of the FEC packet protects the payload of the media packets, but
    // not the headers, also prompeg disallows CSRC
    copy_at(payload, MIN_HEADER_LEN, fec_payload);
    assert(payload@ =~= fresh.bytes().take(12) + fec_payload@);
    let (len_recover, ts_recover): (u16, u32) = match combine(
        payload,
        header.length_recovery,
        header.ts_recovery,
        present,
    ) {
        Ok(res) => res,
        Err(refusal) => {
            return Err(refusal);
        },
    };
    let len: usize = len_recover as usize + MIN_HEADER_LEN;
    if len <= MIN_HEADER_LEN {
        return Ok(None);
    }
    proof {
        lemma_xor_packets_len(fresh.bytes().take(12) + fec_payload@, recovery.present);
    }
    let mut rtp = RtpHeaderMut::new(payload);
    // what the FEC packet does not protect is the same in all packets of the stream
    if present.len() > 0 {
        proof {
            lemma_obstacle_free(recovery.present, payload_len, 0);
        }
        rtp.set_stream(present[0].payload());
    }
    // Pretend that the RTP version is '2' in the recovered packet, since we can't recover
    // that field per se, and downstream code should be allowed to check the version within
    // packets without needing to know if they were subject to recovery,
    rtp.set_version(2);
    rtp.set_timestamp(ts_recover);
    rtp.set_sequence(seq);
    if let Err(error) = RtpReader::new(recovered.payload()) {
        return Err(Refusal::MalformedRecovery(error));
    }
    if len > recovered.payload().len() {
        return Err(Refusal::RecoveredTooLong);
    }
    recovered.truncate(len);
    Ok(Some(recovered))
}

/// Whether `header` and `fec_payload` protect `packets`: the FEC packet combines, by exclusive-or,
/// what follows the header of each packet, the lengths of that, and the timestamps.
pub open spec fn protects(header: FecHeader, fec_payload: Seq<u8>, packets: Seq<Seq<u8>>) -> bool {
    &&& forall|i: int|
        0 <= i < packets.len() ==> (#[trigger] packets[i]).len() == fec_payload.len() + 12
    &&& fec_payload == xor_packets(zeroes(fec_payload.len()), payloads(packets))
    &&& header.length_recovery == xor_lengths(0, packets)
    &&& header.ts_recovery == xor_timestamps(0, packets)
}

/// Whether two packets agree in all header fields but the sequence number and the timestamp.
pub open spec fn same_stream(a: Seq<u8>, b: Seq<u8>) -> bool {
    &&& a[0] == b[0]
    &&& a[1] == b[1]
    &&& forall|i: int| 8 <= i < 12 ==> #[trigger] a[i] == b[i]
}

/// Whether `packets` are RTP packets that agree in all header fields but the sequence number and
/// the timestamp.
pub open spec fn is_stream(packets: Seq<Seq<u8>>) -> bool {
    &&& forall|i: int| 0 <= i < packets.len() ==> rtp_error(#[trigger] packets[i]) is None
    &&& forall|i: int, j: int|
        0 <= i < packets.len() && 0 <= j < packets.len() ==> same_stream(
            #[trigger] packets[i],
            #[trigger] packets[j],
        )
}

/// The packets that are present are among those that are protected.
proof fn lemma_present(packets: Seq<Seq<u8>>, lost: int)
    requires
        0 <= lost < packets.len(),
    ensures
        forall|i: int|
            0 <= i < packets.len() - 1 ==> #[trigger] packets.remove(lost)[i] == packets[if i
                < lost {
                i
            } else {
                i + 1
            }],
{
}

/// The recovery of a packet from the FEC packet that protects it, and all the other packets that
/// the FEC packet protects, restores the length of the packet and everything that follows its
/// header.
pub proof fn law_recovery_restores_payload(
    recovery: Recovery,
    packets: Seq<Seq<u8>>,
    lost: int,
    fresh: Seq<u8>,
)
    requires
        protects(recovery.header, recovery.fec_payload, packets),
        0 <= lost < packets.len(),
        recovery.present == packets.remove(lost),
        packets[lost].len() - 12 <= u16::MAX,
        fresh.len() >= packets[lost].len(),
    ensures
        recovery.len() == packets[lost].len(),
        recovery.packet(fresh).len() == packets[lost].len(),
        recovery.packet(fresh).skip(12) == packets[lost].skip(12),
{
    let payload = recovery.fec_payload;
    let zero = zeroes(payload.len());
    let head = fresh.take(12);
    let present = recovery.present;
    lemma_xor_lengths_remove(packets, lost);
    lemma_present(packets, lost);
    assert(packets[lost].len() == payload.len() + 12);
    lemma_xor_packets_payload(head, payload, present);
    lemma_xor_packets_remove(zero, payloads(packets), lost);
    assert(payloads(packets).remove(lost) =~= payloads(present));
    lemma_xor_packets_of_xor(
        xor_packets(zero, payloads(present)),
        packets[lost].skip(12),
        payloads(present),
    );
    lemma_xor_packets_cancels(zero, payloads(present));
    let restored = xor_bytes(zero, packets[lost].skip(12));
    assert forall|i: int| 0 <= i < restored.len() implies restored[i] == packets[lost].skip(
        12,
    )[i] by {
        let b = packets[lost].skip(12)[i];
        assert(0u8 ^ b == b) by (bit_vector);
    }
    assert(restored =~= packets[lost].skip(12));
    lemma_xor_packets_len(head + payload, present);
    assert(recovery.packet(fresh).skip(12) =~= recovery.combined(fresh).skip(12));
}

/// Where a FEC packet combines the timestamps of the packets that it protects, the recovery of one
/// of them from all the others restores its timestamp.
pub proof fn law_recovered_timestamp(recovery: Recovery, packets: Seq<Seq<u8>>, lost: int)
    requires
        recovery.header.ts_recovery == xor_timestamps(0, packets),
        0 <= lost < packets.len(),
        recovery.present == packets.remove(lost),
    ensures
        recovery.timestamp() == rtp_timestamp(packets[lost]),
{
    lemma_xor_timestamps_remove(packets, lost);
}

/// A recovered packet is an RTP packet, or at least has the header of one, with the sequence number
/// that was aimed for; it has the recovered length and timestamp.
pub proof fn law_recovered_header(recovery: Recovery, fresh: Seq<u8>)
    requires
        recovery.obstacle(fresh) is None,
        recovery.fruitful(),
    ensures
        recovery.packet(fresh).len() == recovery.len(),
        rtp_version(recovery.packet(fresh)) == 2,
        rtp_sequence(recovery.packet(fresh)) == recovery.seq,
        rtp_timestamp(recovery.packet(fresh)) == recovery.timestamp(),
{
    lemma_xor_packets_len(fresh.take(12) + recovery.fec_payload, recovery.present);
    law_header_fields_read_back(recovery.headed(fresh), 2, recovery.timestamp(), recovery.seq);
}

/// No obstacle arises from RTP packets of the right length.
proof fn lemma_packets_no_obstacle(packets: Seq<Seq<u8>>, len: nat)
    requires
        forall|i: int|
            0 <= i < packets.len() ==> rtp_error(#[trigger] packets[i]) is None && packets[i].len()
                == len,
    ensures
        packets_obstacle(packets, len) is None,
    decreases packets.len(),
{
    if packets.len() > 0 {
        lemma_packets_no_obstacle(packets.drop_last(), len);
        assert(rtp_error(packets[packets.len() - 1]) is None);
    }
}

/// A packet is determined by the fields of its header, and what follows the header.
proof fn lemma_same_packet(a: Seq<u8>, b: Seq<u8>)
    requires
        a.len() == b.len() >= 12,
        same_stream(a, b),
        rtp_sequence(a) == rtp_sequence(b),
        rtp_timestamp(a) == rtp_timestamp(b),
        a.skip(12) == b.skip(12),
    ensures
        a == b,
{
    assert forall|i: int| 0 <= i < a.len() implies a[i] == b[i] by {
        if i >= 12 {
            assert(a.skip(12)[i - 12] == b.skip(12)[i - 12]);
        }
    }
    assert(a =~= b);
}

/// Correction undoes the loss of a packet: where just one is lost of the packets that a FEC packet
/// protects, and these belong to one stream, the recovery into a buffer of sufficient size works
/// out, and gives back the lost packet byte for byte.
pub proof fn law_lost_packet_is_recovered(
    recovery: Recovery,
    packets: Seq<Seq<u8>>,
    lost: int,
    fresh: Seq<u8>,
)
    requires
        protects(recovery.header, recovery.fec_payload, packets),
        is_stream(packets),
        2 <= packets.len(),
        0 <= lost < packets.len(),
        recovery.present == packets.remove(lost),
        recovery.seq == rtp_sequence(packets[lost]),
        packets[lost].len() - 12 <= u16::MAX,
        fresh.len() >= packets[lost].len(),
    ensures
        recovery.obstacle(fresh) is None,
        recovery.fruitful(),
        recovery.packet(fresh) == packets[lost],
{
    let present = recovery.present;
    let packet = packets[lost];
    let len = recovery.fec_payload.len() + 12;
    lemma_present(packets, lost);
    lemma_xor_packets_len(fresh.take(12) + recovery.fec_payload, present);
    lemma_packets_no_obstacle(present, len);
    law_recovery_restores_payload(recovery, packets, lost, fresh);
    law_recovered_timestamp(recovery, packets, lost);
    law_header_fields_read_back(recovery.headed(fresh), 2, recovery.timestamp(), recovery.seq);
    let patched = recovery.patched(fresh);
    assert(rtp_error(packet) is None);
    assert(patched.take(len as int) =~= patched);
    assert(same_stream(patched, packet)) by {
        let other = present[0];
        let k = if 0 < lost {
            0
        } else {
            1int
        };
        assert(other == packets[k]);
        assert(same_stream(packets[k], packets[lost]));
        assert(rtp_error(packets[k]) is None);
        assert(patched[0] == other[0]);
        assert forall|i: int| 8 <= i < 12 implies #[trigger] patched[i] == packet[i] by {
            assert(patched[i] == patched.skip(8)[i - 8]);
            assert(recovery.headed(fresh)[i] == recovery.headed(fresh).skip(8)[i - 8]);
        }
    }
    lemma_same_packet(patched, packet);
}

/// A lost packet that is shorter than the others that a FEC packet protects, and was filled up to their
/// length with other bytes to be combined with them, is recovered at its own length.
pub proof fn law_shorter_packet_is_recovered(
    recovery: Recovery,
    packets: Seq<Seq<u8>>,
    lost: int,
    len: int,
    fresh: Seq<u8>,
)
    requires
        protects(
            FecHeader { length_recovery: xor_lengths(0, packets), ..recovery.header },
            recovery.fec_payload,
            packets,
        ),
        recovery.header.length_recovery == xor_lengths(0, packets.remove(lost)) ^ ((len
            - 12) as u16),
        is_stream(packets),
        2 <= packets.len(),
        0 <= lost < packets.len(),
        12 < len <= packets[lost].len(),
        recovery.present == packets.remove(lost),
        recovery.seq == rtp_sequence(packets[lost]),
        packets[lost].len() - 12 <= u16::MAX,
        fresh.len() >= packets[lost].len(),
    ensures
        recovery.obstacle(fresh) is None,
        recovery.fruitful(),
        recovery.packet(fresh) == packets[lost].take(len),
{
    let full = Recovery {
        header: FecHeader { length_recovery: xor_lengths(0, packets), ..recovery.header },
        ..recovery
    };
    let present = recovery.present;
    law_lost_packet_is_recovered(full, packets, lost, fresh);
    lemma_present(packets, lost);
    lemma_packets_no_obstacle(present, recovery.fec_payload.len() + 12);
    lemma_xor_packets_len(fresh.take(12) + recovery.fec_payload, present);
    law_recovery_restores_payload(full, packets, lost, fresh);
    assert(full.patched(fresh).take(full.len()) =~= full.patched(fresh));
    let short = (len - 12) as u16;
    let rest = xor_lengths(0, present);
    lemma_xor_lengths_of_xor(rest, short, present);
    lemma_xor_lengths_cancels(present);
    assert(0u16 ^ short == short) by (bit_vector);
    assert(recovery.payload_len() == short);
}

/// Whether a packet is an RTP packet does not depend on the header fields but those in its first byte.
proof fn lemma_still_rtp(a: Seq<u8>, b: Seq<u8>)
    requires
        a.len() == b.len(),
        rtp_error(b) is None,
        a[0] == b[0],
        a.skip(12) == b.skip(12),
    ensures
        rtp_error(a) is None,
{
    let len = a.len() as int;
    assert(a.last() == a.skip(12)[len - 13]);
    assert(b.last() == b.skip(12)[len - 13]);
    if rtp_extended(b) {
        let end = rtp_csrc_end(b);
        assert(a[end + 2] == a.skip(12)[end - 10]);
        assert(b[end + 2] == b.skip(12)[end - 10]);
        assert(a[end + 3] == a.skip(12)[end - 9]);
        assert(b[end + 3] == b.skip(12)[end - 9]);
    }
}

/// What recovery makes of a packet whose header fields differ from those of the others that a FEC
/// packet protects: it works out where the packets begin with the same byte, and the recovered packet
/// has its own length, timestamp and sequence number, and what follows its header; what a FEC packet
/// does not protect is taken from the first packet that is present.
pub proof fn law_unprotected_fields_come_from_first_packet(
    recovery: Recovery,
    packets: Seq<Seq<u8>>,
    lost: int,
    fresh: Seq<u8>,
)
    requires
        protects(recovery.header, recovery.fec_payload, packets),
        forall|i: int| 0 <= i < packets.len() ==> rtp_error(#[trigger] packets[i]) is None,
        2 <= packets.len(),
        0 <= lost < packets.len(),
        recovery.present == packets.remove(lost),
        recovery.present[0][0] == packets[lost][0],
        packets[lost].len() - 12 <= u16::MAX,
        fresh.len() >= packets[lost].len(),
    ensures
        recovery.obstacle(fresh) is None,
        recovery.fruitful(),
        ({
            let packet = recovery.packet(fresh);
            let first = recovery.present[0];
            &&& packet.len() == packets[lost].len()
            &&& packet.skip(12) == packets[lost].skip(12)
            &&& rtp_timestamp(packet) == rtp_timestamp(packets[lost])
            &&& rtp_sequence(packet) == recovery.seq
            &&& packet[0] == first[0]
            &&& packet[1] == first[1]
            &&& forall|i: int| 8 <= i < 12 ==> #[trigger] packet[i] == first[i]
        }),
{
    let present = recovery.present;
    let packet = packets[lost];
    let len = recovery.fec_payload.len() + 12;
    lemma_present(packets, lost);
    lemma_xor_packets_len(fresh.take(12) + recovery.fec_payload, present);
    lemma_packets_no_obstacle(present, len);
    law_recovery_restores_payload(recovery, packets, lost, fresh);
    law_recovered_timestamp(recovery, packets, lost);
    law_header_fields_read_back(recovery.headed(fresh), 2, recovery.timestamp(), recovery.seq);
    let patched = recovery.patched(fresh);
    let first = present[0];
    let k = if 0 < lost {
        0
    } else {
        1int
    };
    assert(first == packets[k]);
    assert(rtp_error(packets[k]) is None);
    assert(rtp_error(packets[lost]) is None);
    assert(patched.take(len as int) =~= patched);
    assert(patched[0] == first[0]);
    assert forall|i: int| 8 <= i < 12 implies #[trigger] patched[i] == first[i] by {
        assert(patched[i] == patched.skip(8)[i - 8]);
        assert(recovery.headed(fresh)[i] == recovery.headed(fresh).skip(8)[i - 8]);
    }
    lemma_still_rtp(patched, packet);
}

/// What a FEC packet does not protect stays as it is in the buffer where no other packet is protected,
/// but for the version.
pub proof fn law_lone_packet_keeps_buffer(recovery: Recovery, fresh: Seq<u8>, i: int)
    requires
        recovery.present.len() == 0,
        recovery.fruitful(),
        recovery.obstacle(fresh) is None,
        i == 1 || 8 <= i < 12,
    ensures
        recovery.packet(fresh)[i] == fresh[i],
        recovery.packet(fresh)[0] % 64 == fresh[0] % 64,
        recovery.packet(fresh).skip(12) == recovery.fec_payload.take(recovery.len() - 12),
{
    let combined = recovery.combined(fresh);
    assert(combined =~= fresh.take(12) + recovery.fec_payload);
    law_header_fields_read_back(combined, 2, recovery.timestamp(), recovery.seq);
    let patched = recovery.patched(fresh);
    assert forall|k: int| 8 <= k < combined.len() implies patched[k] == combined[k] by {
        assert(patched.skip(8)[k - 8] == combined.skip(8)[k - 8]);
    }
    assert(recovery.packet(fresh).skip(12) =~= recovery.fec_payload.take(recovery.len() - 12));
}

/// What keeps a recovery from working out: a buffer that is too small for it, and otherwise the first
/// packet that is present but has another length or is no RTP packet.  With neither, an empty payload
/// is not an obstacle, but nothing is recovered; with a payload, what is put together has to be an RTP
/// packet, and no longer than the FEC packet allows for.
pub proof fn law_obstacles(recovery: Recovery, fresh: Seq<u8>, i: int)
    ensures
        recovery.fec_payload.len() + 12 > fresh.len() <==> recovery.obstacle(fresh) == Some(
            Refusal::BufferTooSmall,
        ),
        recovery.fec_payload.len() + 12 <= fresh.len() && 0 <= i < recovery.present.len() && (
        forall|k: int|
            0 <= k < i ==> (#[trigger] recovery.present[k]).len() == recovery.fec_payload.len() + 12
                && rtp_error(recovery.present[k]) is None) ==> {
            &&& recovery.present[i].len() != recovery.fec_payload.len() + 12
                ==> recovery.obstacle(fresh) == Some(Refusal::LengthMismatch)
            &&& recovery.present[i].len() == recovery.fec_payload.len() + 12
                ==> match rtp_error(recovery.present[i]) {
                Some(error) => recovery.obstacle(fresh) == Some(Refusal::MalformedPacket(error)),
                None => true,
            }
        },
        recovery.fec_payload.len() + 12 <= fresh.len() && (forall|k: int|
            0 <= k < recovery.present.len() ==> (#[trigger] recovery.present[k]).len()
                == recovery.fec_payload.len() + 12 && rtp_error(recovery.present[k]) is None) ==> {
            &&& recovery.payload_len() == 0 ==> recovery.obstacle(fresh) is None
                && !recovery.fruitful()
            &&& recovery.payload_len() > 0 ==> recovery.fruitful()
            &&& recovery.payload_len() > 0 ==> recovery.obstacle(fresh) == match rtp_error(
                recovery.patched(fresh),
            ) {
                Some(error) => Some(Refusal::MalformedRecovery(error)),
                None => if recovery.payload_len() > recovery.fec_payload.len() {
                    Some(Refusal::RecoveredTooLong)
                } else {
                    None
                },
            }
        },
{
    let len = recovery.fec_payload.len() + 12;
    let present = recovery.present;
    if packets_obstacle(present, len) is Some {
        lemma_packets_obstacle_kind(present, len);
    }
    if 0 <= i < present.len() && forall|k: int|
        0 <= k < i ==> (#[trigger] present[k]).len() == len && rtp_error(present[k]) is None {
        let front = present.take(i);
        assert forall|k: int| 0 <= k < front.len() implies rtp_error(#[trigger] front[k]) is None
            && front[k].len() == len by {
            assert(front[k] == present[k]);
        }
        lemma_packets_no_obstacle(front, len);
        assert(present.take(i + 1).drop_last() =~= front);
        if packet_obstacle(present[i], len) is Some {
            lemma_packets_obstacle_prefix(present, len, i + 1);
        }
    }
    if forall|k: int|
        0 <= k < present.len() ==> (#[trigger] present[k]).len() == len && rtp_error(present[k]) is None {
        assert forall|k: int| 0 <= k < present.len() implies rtp_error(#[trigger] present[k]) is None
            && present[k].len() == len by {}
        lemma_packets_no_obstacle(present, len);
    }
}

/// The obstacles that packets can be.
proof fn lemma_packets_obstacle_kind(packets: Seq<Seq<u8>>, len: nat)
    ensures
        packets_obstacle(packets, len) matches Some(refusal) ==> refusal is LengthMismatch
            || refusal is MalformedPacket,
    decreases packets.len(),
{
    if packets.len() > 0 {
        lemma_packets_obstacle_kind(packets.drop_last(), len);
    }
}

/// Whether `packet` is an RTP packet with the plainest of headers: no padding, no extension and no
/// contributing sources.
pub open spec fn is_plain(packet: Seq<u8>) -> bool {
    packet.len() > 12 && packet[0] == 0x80
}

/// What is put together from plain packets in a zeroed buffer is a plain packet.
pub proof fn law_plain_packets_stay_plain(recovery: Recovery, size: nat)
    requires
        recovery.fec_payload.len() > 0,
        size >= 12,
        forall|i: int|
            0 <= i < recovery.present.len() ==> is_plain(#[trigger] recovery.present[i]),
    ensures
        is_plain(recovery.patched(zeroes(size))),
        rtp_error(recovery.patched(zeroes(size))) is None,
{
    let fresh = zeroes(size);
    lemma_xor_packets_len(fresh.take(12) + recovery.fec_payload, recovery.present);
    if recovery.present.len() > 0 {
        assert(is_plain(recovery.present[0]));
        assert(recovery.headed(fresh)[0] == 0x80);
    } else {
        assert(recovery.headed(fresh)[0] == 0);
    }
    law_header_fields_read_back(recovery.headed(fresh), 2, recovery.timestamp(), recovery.seq);
    assert(recovery.patched(fresh)[0] == 0x80);
}

} // verus!
