//! Streams of plain packets of one length, none of which is refused.

use crate::correction::{
    fec_in, first_covering, inserts, inserts_fec, present_among, recovers, takes_up, yields,
    Corrections, MatrixView,
};
use crate::decoding::{
    corrected, fec_packet, fits_geometry, law_inserts_fec_packet_frame, law_inserts_main_frame,
    law_merged_agrees, proceeds, queued, queues, valid_matrix, DecoderView, Outcome,
    Stream,
};
use crate::error::FecDecodeError;
use crate::fec::{fec_header, Orientation};
use crate::geometry::FecGeometry;
use crate::packet::{zeroes, BufferPool, Packet, PacketStatus, Receiver};
use crate::parity::{lemma_xor_packets_len, xor_lengths};
use crate::progress::Progress;
use crate::recovery::{
    is_plain, law_plain_packets_stay_plain, packets_obstacle, Recovery, Refusal,
};
use crate::rtp::{rtp_payload, rtp_sequence};
use crate::window::{lemma_insert_every, packets_in, Window};
use vstd::prelude::*;

verus! {

/// Whether `packet` is a plain media packet of the given length.
pub open spec fn is_media(packet: Seq<u8>, len: nat) -> bool {
    is_plain(packet) && packet.len() == len
}

/// Whether `packet` is a FEC packet that may protect plain media packets of the given length.
pub open spec fn protects_media(packet: Seq<u8>, len: nat) -> bool {
    let data = rtp_payload(packet);
    &&& data.len() == len + 4
    &&& fec_header(data).length_recovery == 0 || fec_header(data).length_recovery == len - 12
}

/// Whether the pool hands out zeroed packets that have room for media packets of the given length.
pub open spec fn supplies<BP: BufferPool>(pool: BP, len: nat) -> bool {
    &&& 12 < len <= u16::MAX + 12
    &&& len <= pool.packet_size()
    &&& forall|fresh: BP::P| #[trigger]
        pool.may_allocate(Some(fresh)) ==> fresh.bytes() == zeroes(pool.packet_size())
}

/// Whether a matrix holds plain media packets of the given length, and FEC packets that may protect
/// them.
pub open spec fn is_uniform_matrix<P: Packet>(matrix: MatrixView<P>, len: nat) -> bool {
    &&& matrix.main.every(|bytes: Seq<u8>| is_media(bytes, len))
    &&& matrix.row.every(|pk: P| protects_media(pk.bytes(), len))
    &&& matrix.col.every(|pk: P| protects_media(pk.bytes(), len))
}

/// Whether a decoder has taken plain media packets of the given length, and FEC packets that may
/// protect them.
pub open spec fn is_uniform<BP: BufferPool, Recv: Receiver<BP::P>>(
    decoder: DecoderView<BP, Recv>,
    len: nat,
) -> bool {
    &&& supplies(decoder.pool, len)
    &&& decoder.valid()
    &&& decoder.running matches Some((_, matrix)) ==> is_uniform_matrix(matrix, len)
}

/// Whether a packet of the given stream is a plain media packet of the given length, or a FEC packet
/// that may protect such packets and does not make the decoder change to a geometry that is not
/// allowed; and whether it lies less than about half a turn away from the window that it goes into.
pub open spec fn is_uniform_packet<BP: BufferPool, Recv: Receiver<BP::P>>(
    decoder: DecoderView<BP, Recv>,
    stream: Stream,
    packet: BP::P,
    len: nat,
) -> bool {
    let seq = rtp_sequence(packet.bytes());
    match stream {
        Stream::Main => {
            &&& is_media(packet.bytes(), len)
            &&& decoder.running matches Some((_, matrix)) ==> matrix.main.admits(seq)
        },
        Stream::Fec(orientation) => {
            &&& protects_media(packet.bytes(), len)
            &&& fec_packet(orientation, packet.bytes()) matches Ok(Ok(header))
            &&& decoder.merged(header) matches Ok(merged)
            &&& merged.running matches Some((_, matrix)) ==> matrix.fec_packets(orientation).admits(
                seq,
            )
        },
    }
}

/// The combined payload length of packets of one length is that length, or nothing.
proof fn lemma_xor_equal_lengths(start: u16, packets: Seq<Seq<u8>>, len: u16)
    requires
        start == 0 || start == len,
        forall|i: int| 0 <= i < packets.len() ==> (#[trigger] packets[i]).len() == len + 12,
    ensures
        xor_lengths(start, packets) == 0 || xor_lengths(start, packets) == len,
    decreases packets.len(),
{
    if packets.len() > 0 {
        lemma_xor_equal_lengths(start, packets.drop_last(), len);
        assert(packets[packets.len() - 1].len() == len + 12);
        assert(0u16 ^ len == len) by (bit_vector);
        assert(len ^ len == 0u16) by (bit_vector);
    }
}

/// No obstacle arises from media packets of the right length.
proof fn lemma_no_obstacle(packets: Seq<Seq<u8>>, len: nat)
    requires
        forall|i: int| 0 <= i < packets.len() ==> is_media(#[trigger] packets[i], len),
    ensures
        packets_obstacle(packets, len) is None,
    decreases packets.len(),
{
    if packets.len() > 0 {
        lemma_no_obstacle(packets.drop_last(), len);
        assert(is_media(packets[packets.len() - 1], len));
    }
}

/// A recovery from media packets of one length is not refused, and gives another one.
proof fn lemma_recovers_uniformly<BP: BufferPool>(
    pool: BP,
    recovery: Recovery,
    len: nat,
    outcome: Result<Option<BP::P>, Refusal>,
)
    requires
        supplies(pool, len),
        recovery.fec_payload.len() == len - 12,
        recovery.header.length_recovery == 0 || recovery.header.length_recovery == len - 12,
        forall|i: int|
            0 <= i < recovery.present.len() ==> is_media(#[trigger] recovery.present[i], len),
        recovers(pool, recovery, outcome),
    ensures
        outcome is Ok,
        outcome matches Ok(Some(packet)) ==> is_media(packet.bytes(), len),
{
    let allocated = choose|allocated: Option<BP::P>|
        {
            &&& #[trigger] pool.may_allocate(allocated)
            &&& match allocated {
                Some(fresh) => {
                    &&& fresh.bytes().len() == pool.packet_size()
                    &&& recovery.comes_out(fresh.bytes(), outcome)
                },
                None => outcome == Ok::<Option<BP::P>, Refusal>(None),
            }
        };
    if let Some(fresh) = allocated {
        lemma_xor_equal_lengths(
            recovery.header.length_recovery,
            recovery.present,
            (len - 12) as u16,
        );
        lemma_no_obstacle(recovery.present, len);
        law_plain_packets_stay_plain(recovery, pool.packet_size());
        lemma_xor_packets_len(
            fresh.bytes().take(12) + recovery.fec_payload,
            recovery.present,
        );
        assert(recovery.patched(fresh.bytes()).len() == len);
        assert(recovery.patched(fresh.bytes()).take(len as int) =~= recovery.patched(
            fresh.bytes(),
        ));
    }
}

/// What holds of every packet among some entries holds of the packets in them.
proof fn lemma_packets_in_every<P>(
    slots: Seq<Option<(P, PacketStatus)>>,
    f: spec_fn(P) -> bool,
)
    requires
        forall|i: int| 0 <= i < slots.len() ==> match #[trigger] slots[i] {
            Some((packet, _)) => f(packet),
            None => true,
        },
    ensures
        forall|i: int| 0 <= i < packets_in(slots).len() ==> f((#[trigger] packets_in(slots)[i]).0),
    decreases slots.len(),
{
    if slots.len() > 0 {
        let rest = slots.drop_last();
        assert forall|i: int| 0 <= i < rest.len() implies match #[trigger] rest[i] {
            Some((packet, _)) => f(packet),
            None => true,
        } by {
            assert(rest[i] == slots[i]);
        }
        lemma_packets_in_every(rest, f);
        assert(slots[slots.len() - 1] == slots.last());
        assert forall|i: int| 0 <= i < packets_in(slots).len() implies f(
            (#[trigger] packets_in(slots)[i]).0,
        ) by {
            if i < packets_in(rest).len() {
                assert(packets_in(slots)[i] == packets_in(rest)[i]);
            }
        }
    }
}

/// The media packets that are present are of the given length.
proof fn lemma_present_uniform(window: Window<Seq<u8>>, seqs: Seq<u16>, len: nat)
    requires
        window.every(|bytes: Seq<u8>| is_media(bytes, len)),
    ensures
        forall|i: int|
            0 <= i < present_among(window, seqs).len() ==> is_media(
                #[trigger] present_among(window, seqs)[i],
                len,
            ),
{
    let f = |bytes: Seq<u8>| is_media(bytes, len);
    let slots = Seq::new(seqs.len(), |i: int| window.get(seqs[i]));
    assert forall|i: int| 0 <= i < slots.len() implies match #[trigger] slots[i] {
        Some((packet, _)) => f(packet),
        None => true,
    } by {
        if let Some(index) = window.index_of(seqs[i]) {
            assert(slots[i] == window.slots[index]);
        }
    }
    lemma_packets_in_every(slots, f);
}

/// In a valid matrix every FEC packet has a proper FEC header.
proof fn lemma_fec_in<P: Packet>(
    geometry: FecGeometry,
    matrix: MatrixView<P>,
    orientation: Orientation,
    index: int,
)
    requires
        valid_matrix(geometry, matrix),
        0 <= index < matrix.fec_packets(orientation).slots.len(),
    ensures
        matrix.fec_packets(orientation).slots[index] matches Some((packet, _)) ==> fec_in(
            packet.bytes(),
        ) == Ok::<Option<Seq<u8>>, Refusal>(Some(rtp_payload(packet.bytes()))),
{
    reveal(valid_matrix);
    if let Some((packet, _)) = matrix.fec_packets(orientation).slots[index] {
        match orientation {
            Orientation::Row => {
                let f = |pk: P| fits_geometry(geometry, Orientation::Row, pk.bytes());
                assert(matrix.row.every(f));
                assert(f(packet));
            },
            Orientation::Column => {
                let f = |pk: P| fits_geometry(geometry, Orientation::Column, pk.bytes());
                assert(matrix.col.every(f));
                assert(f(packet));
            },
        }
    }
}

/// The search for a FEC packet is not refused where all have proper FEC headers.
proof fn lemma_search_succeeds<P: Packet>(slots: Seq<Option<(P, PacketStatus)>>, seq: u16)
    requires
        forall|i: int| 0 <= i < slots.len() ==> match #[trigger] slots[i] {
            Some((packet, _)) => fec_in(packet.bytes()) is Ok,
            None => true,
        },
    ensures
        first_covering(slots, seq) is Ok,
    decreases slots.len(),
{
    if slots.len() > 0 {
        let rest = slots.drop_last();
        assert forall|i: int| 0 <= i < rest.len() implies match #[trigger] rest[i] {
            Some((packet, _)) => fec_in(packet.bytes()) is Ok,
            None => true,
        } by {
            assert(rest[i] == slots[i]);
        }
        lemma_search_succeeds(rest, seq);
        assert(slots[slots.len() - 1] == slots.last());
    }
}

/// Taking up an opportunity among packets of one length is not refused, and gives another one.
proof fn lemma_takes_up_uniformly<BP: BufferPool>(
    pool: BP,
    geometry: FecGeometry,
    matrix: MatrixView<BP::P>,
    orientation: Orientation,
    fec_seq: u16,
    len: nat,
    outcome: Result<Option<BP::P>, Refusal>,
)
    requires
        supplies(pool, len),
        valid_matrix(geometry, matrix),
        is_uniform_matrix(matrix, len),
        takes_up(pool, matrix.opportunity(orientation, fec_seq), outcome),
    ensures
        outcome is Ok,
        outcome matches Ok(Some(packet)) ==> is_media(packet.bytes(), len),
{
    let fec_packets = matrix.fec_packets(orientation);
    if let Some(index) = fec_packets.index_of(fec_seq) {
        lemma_fec_in(geometry, matrix, orientation, index);
        if let Some((packet, _)) = fec_packets.slots[index] {
            let f = |pk: BP::P| protects_media(pk.bytes(), len);
            assert(matrix.row.every(f));
            assert(matrix.col.every(f));
            assert(f(packet));
            let data = rtp_payload(packet.bytes());
            if let Some(seq) = matrix.single_missing(fec_header(data)) {
                lemma_present_uniform(matrix.main, fec_header(data).associated(), len);
                lemma_recovers_uniformly(pool, matrix.recovery(data, seq), len, outcome);
            }
        }
    }
}

/// Looking for corrections among packets of one length is not refused, and gives others.
proof fn lemma_takes_up_around_uniformly<BP: BufferPool>(
    pool: BP,
    geometry: FecGeometry,
    matrix: MatrixView<BP::P>,
    orientation: Orientation,
    seq: u16,
    len: nat,
    outcome: Result<Option<BP::P>, Refusal>,
)
    requires
        supplies(pool, len),
        valid_matrix(geometry, matrix),
        is_uniform_matrix(matrix, len),
        takes_up(pool, matrix.opportunity_around(orientation, seq), outcome),
    ensures
        outcome is Ok,
        outcome matches Ok(Some(packet)) ==> is_media(packet.bytes(), len),
{
    let slots = matrix.fec_packets(orientation).slots;
    assert forall|i: int| 0 <= i < slots.len() implies match #[trigger] slots[i] {
        Some((packet, _)) => fec_in(packet.bytes()) is Ok,
        None => true,
    } by {
        lemma_fec_in(geometry, matrix, orientation, i);
    }
    lemma_search_succeeds(slots, seq);
    if let Ok(Some(fec_seq)) = matrix.covering(orientation, seq) {
        lemma_takes_up_uniformly(pool, geometry, matrix, orientation, fec_seq, len, outcome);
    }
}

/// Whether all of `packets` are plain media packets of the given length.
pub open spec fn all_media<P: Packet>(packets: Seq<P>, len: nat) -> bool {
    forall|i: int| 0 <= i < packets.len() ==> is_media((#[trigger] packets[i]).bytes(), len)
}

/// The corrections found among packets of one length.
#[verifier::rlimit(30)]
proof fn lemma_yields_uniformly<BP: BufferPool>(
    pool: BP,
    geometry: FecGeometry,
    matrix: MatrixView<BP::P>,
    seq: u16,
    len: nat,
    outcome: Result<Corrections<BP::P>, Refusal>,
)
    requires
        supplies(pool, len),
        valid_matrix(geometry, matrix),
        is_uniform_matrix(matrix, len),
        yields(pool, matrix, seq, outcome),
    ensures
        outcome matches Ok(corrections) && all_media(corrected(corrections), len),
{
    reveal(yields);
    assert forall|res: Result<Option<BP::P>, Refusal>| #[trigger]
        takes_up(pool, matrix.opportunity_around(Orientation::Column, seq), res) implies res is Ok
        && (res matches Ok(Some(packet)) ==> is_media(packet.bytes(), len)) by {
        lemma_takes_up_around_uniformly(
            pool,
            geometry,
            matrix,
            Orientation::Column,
            seq,
            len,
            res,
        );
    }
    assert forall|res: Result<Option<BP::P>, Refusal>| #[trigger]
        takes_up(pool, matrix.opportunity_around(Orientation::Row, seq), res) implies res is Ok && (
    res matches Ok(Some(packet)) ==> is_media(packet.bytes(), len)) by {
        lemma_takes_up_around_uniformly(pool, geometry, matrix, Orientation::Row, seq, len, res);
    }
}

/// Inserting a media packet of the given length is not refused, and leads to others.
proof fn lemma_inserts_uniformly<BP: BufferPool, Recv: Receiver<BP::P>>(
    pool: BP,
    geometry: FecGeometry,
    matrix: MatrixView<BP::P>,
    recv: Recv,
    seq: u16,
    packet: (BP::P, PacketStatus),
    len: nat,
    matrix2: MatrixView<BP::P>,
    recv2: Recv,
    outcome: Result<Corrections<BP::P>, Refusal>,
)
    requires
        supplies(pool, len),
        valid_matrix(geometry, matrix),
        valid_matrix(geometry, matrix2),
        is_uniform_matrix(matrix, len),
        is_media(packet.0.bytes(), len),
        matrix.main.admits(seq),
        inserts(pool, matrix, recv, seq, packet, matrix2, recv2, outcome),
    ensures
        is_uniform_matrix(matrix2, len),
        outcome matches Ok(corrections) && all_media(corrected(corrections), len),
{
    reveal(inserts);
    let f = |bytes: Seq<u8>| is_media(bytes, len);
    lemma_insert_every(matrix.main, seq, (packet.0.bytes(), packet.1), f);
    lemma_yields_uniformly(pool, geometry, matrix2, seq, len, outcome);
}

/// Whether a packet has been processed, or rejected because too many others could be recovered at
/// once.
pub open spec fn is_processed(outcome: Outcome) -> bool {
    outcome == Ok::<_, Refusal>(Ok::<(), FecDecodeError>(())) || outcome == Ok::<_, Refusal>(
        Err::<(), _>(FecDecodeError::NoSpaceForRecovered),
    )
}

/// Queueing media packets leaves media packets in the backlog.
proof fn lemma_queued_uniformly<P: Packet>(backlog: Seq<P>, packets: Seq<P>, len: nat)
    requires
        backlog.len() <= 10,
        all_media(backlog, len),
        all_media(packets, len),
    ensures
        all_media(queued(backlog, packets), len),
        queued(backlog, packets).len() <= 10,
{
    let after = queued(backlog, packets);
    assert forall|i: int| 0 <= i < after.len() implies is_media(
        (#[trigger] after[i]).bytes(),
        len,
    ) by {
        if i < backlog.len() {
            assert(after[i] == backlog[i]);
        } else {
            assert(after[i] == packets[i - backlog.len()]);
        }
    }
}

/// Inserting a media packet of the given length is not refused.
proof fn lemma_inserts_main_uniformly<BP: BufferPool, Recv: Receiver<BP::P>>(
    decoder: DecoderView<BP, Recv>,
    seq: u16,
    packet: (BP::P, PacketStatus),
    backlog: Seq<BP::P>,
    after: DecoderView<BP, Recv>,
    backlog2: Seq<BP::P>,
    outcome: Outcome,
    len: nat,
)
    requires
        is_uniform(decoder, len),
        is_media(packet.0.bytes(), len),
        seq == rtp_sequence(packet.0.bytes()),
        decoder.running matches Some((_, matrix)) ==> matrix.main.admits(seq),
        backlog.len() <= 10,
        all_media(backlog, len),
        decoder.inserts_main(seq, packet, backlog, after, backlog2, outcome),
    ensures
        is_uniform(after, len),
        all_media(backlog2, len),
        is_processed(outcome),
{
    law_inserts_main_frame(decoder, seq, packet, backlog, after, backlog2, outcome);
    if let Some((geometry, matrix)) = decoder.running {
        let (matrix2, recv2, res) = choose|
            matrix2: MatrixView<BP::P>,
            recv2: Recv,
            res: Result<Corrections<BP::P>, Refusal>,
        |
            {
                &&& #[trigger] inserts(
                    decoder.pool,
                    matrix,
                    decoder.recv,
                    seq,
                    packet,
                    matrix2,
                    recv2,
                    res,
                )
                &&& after == decoder.with_matrix(matrix2, recv2)
                &&& match res {
                    Ok(corrections) => {
                        &&& backlog2 == queued(backlog, corrected(corrections))
                        &&& outcome == Ok::<_, Refusal>(queues(backlog, corrected(corrections)))
                    },
                    Err(refusal) => backlog2 == backlog && outcome == Err::<
                        Result<(), FecDecodeError>,
                        _,
                    >(refusal),
                }
            };
        lemma_inserts_uniformly(
            decoder.pool,
            geometry,
            matrix,
            decoder.recv,
            seq,
            packet,
            len,
            matrix2,
            recv2,
            res,
        );
        lemma_queued_uniformly(backlog, corrected(res->Ok_0), len);
    }
}

/// Inserting a FEC packet for media packets of the given length is not refused.
proof fn lemma_inserts_fec_uniformly<BP: BufferPool, Recv: Receiver<BP::P>>(
    decoder: DecoderView<BP, Recv>,
    orientation: Orientation,
    seq: u16,
    packet: BP::P,
    after: DecoderView<BP, Recv>,
    backlog: Seq<BP::P>,
    outcome: Outcome,
    len: nat,
)
    requires
        is_uniform(decoder, len),
        protects_media(packet.bytes(), len),
        decoder.running matches Some((geometry, matrix)) ==> {
            &&& fits_geometry(geometry, orientation, packet.bytes())
            &&& matrix.fec_packets(orientation).admits(seq)
        },
        decoder.inserts_fec(orientation, seq, packet, Seq::empty(), after, backlog, outcome),
    ensures
        is_uniform(after, len),
        all_media(backlog, len),
        is_processed(outcome),
{
    let none = Seq::<BP::P>::empty();
    law_inserts_fec_packet_frame(
        decoder,
        orientation,
        seq,
        packet,
        none,
        after,
        backlog,
        outcome,
    );
    if let Some((geometry, matrix)) = decoder.running {
        reveal(inserts_fec);
        let (matrix2, res) = choose|
            matrix2: MatrixView<BP::P>,
            res: Result<Option<BP::P>, Refusal>,
        |
            {
                &&& #[trigger] inserts_fec(
                    decoder.pool,
                    matrix,
                    orientation,
                    seq,
                    packet,
                    matrix2,
                    res,
                )
                &&& after == decoder.with_matrix(matrix2, decoder.recv)
                &&& match res {
                    Ok(Some(correction)) => {
                        &&& backlog == queued(none, seq![correction])
                        &&& outcome == Ok::<_, Refusal>(queues(none, seq![correction]))
                    },
                    Ok(None) => {
                        &&& backlog == none
                        &&& outcome == Ok::<_, Refusal>(Ok::<(), FecDecodeError>(()))
                    },
                    Err(refusal) => backlog == none && outcome == Err::<
                        Result<(), FecDecodeError>,
                        _,
                    >(refusal),
                }
            };
        let f = |pk: BP::P| protects_media(pk.bytes(), len);
        assert(matrix.row.every(f));
        assert(matrix.col.every(f));
        lemma_insert_every(
            matrix.fec_packets(orientation),
            seq,
            (packet, PacketStatus::Received),
            f,
        );
        lemma_takes_up_uniformly(decoder.pool, geometry, matrix2, orientation, seq, len, res);
        if let Some(correction) = res->Ok_0 {
            lemma_queued_uniformly(none, seq![correction], len);
        }
    }
}

/// Inserting recovered packets of the given length is not refused.
proof fn lemma_settles_uniformly<BP: BufferPool, Recv: Receiver<BP::P>>(
    decoder: DecoderView<BP, Recv>,
    progress: Progress,
    n: nat,
    backlog: Seq<BP::P>,
    after: DecoderView<BP, Recv>,
    outcome: Outcome,
    len: nat,
)
    requires
        is_uniform(decoder, len),
        progress.on_track(decoder, backlog),
        backlog.len() <= 10,
        all_media(backlog, len),
        decoder.settles_within(n, backlog, after, outcome),
    ensures
        is_uniform(after, len),
        is_processed(outcome),
    decreases n,
{
    if backlog.len() > 0 {
        let packet = backlog.last();
        let rest = backlog.drop_last();
        let seq = rtp_sequence(packet.bytes());
        let item = (packet, PacketStatus::Recovered);
        assert(is_media(backlog[backlog.len() - 1].bytes(), len));
        assert(all_media(rest, len)) by {
            assert forall|i: int| 0 <= i < rest.len() implies is_media(
                (#[trigger] rest[i]).bytes(),
                len,
            ) by {
                assert(rest[i] == backlog[i]);
            }
        }
        progress.lemma_admitted(decoder, backlog);
        if decoder.holds(seq) {
            let next = progress.lemma_skip(decoder, backlog);
            lemma_settles_uniformly(decoder, next, (n - 1) as nat, rest, after, outcome, len);
        } else {
            let (after1, backlog1, outcome1) = choose|
                after1: DecoderView<BP, Recv>,
                backlog1: Seq<BP::P>,
                outcome1: Outcome,
            |
                {
                    &&& #[trigger] decoder.inserts_main(seq, item, rest, after1, backlog1, outcome1)
                    &&& if proceeds(outcome1) {
                        after1.settles_within((n - 1) as nat, backlog1, after, outcome)
                    } else {
                        after == after1 && outcome == outcome1
                    }
                };
            lemma_inserts_main_uniformly(
                decoder,
                seq,
                item,
                rest,
                after1,
                backlog1,
                outcome1,
                len,
            );
            if proceeds(outcome1) {
                let next = progress.lemma_advance(decoder, backlog, after1, backlog1);
                next.lemma_on_track(after1, backlog1);
                lemma_settles_uniformly(
                    after1,
                    next,
                    (n - 1) as nat,
                    backlog1,
                    after,
                    outcome,
                    len,
                );
            }
        }
    }
}

/// Packets of uniform streams are not refused: a plain media packet of a given length, or a FEC
/// packet for such packets, is processed by a decoder that has taken no others so far, or rejected
/// because too many packets could be recovered at once.  Afterwards the same holds again.
pub proof fn law_uniform_packet_is_not_refused<BP: BufferPool, Recv: Receiver<BP::P>>(
    decoder: DecoderView<BP, Recv>,
    stream: Stream,
    packet: BP::P,
    len: nat,
    after: DecoderView<BP, Recv>,
    outcome: Outcome,
)
    requires
        is_uniform(decoder, len),
        is_uniform_packet(decoder, stream, packet, len),
        decoder.takes(stream, packet, after, outcome),
    ensures
        is_uniform(after, len),
        is_processed(outcome),
{
    let seq = rtp_sequence(packet.bytes());
    let none = Seq::<BP::P>::empty();
    match stream {
        Stream::Main => {
            let item = (packet, PacketStatus::Received);
            let (after1, backlog, outcome1) = choose|
                after1: DecoderView<BP, Recv>,
                backlog: Seq<BP::P>,
                outcome1: Outcome,
            |
                {
                    &&& #[trigger] decoder.inserts_main(
                        seq,
                        item,
                        none,
                        after1,
                        backlog,
                        outcome1,
                    )
                    &&& if proceeds(outcome1) {
                        after1.settles(backlog, after, outcome)
                    } else {
                        after == after1 && outcome == outcome1
                    }
                };
            lemma_inserts_main_uniformly(
                decoder,
                seq,
                item,
                none,
                after1,
                backlog,
                outcome1,
                len,
            );
            if proceeds(outcome1) {
                Progress::lemma_begun_by_media(decoder, seq, item, after1, backlog);
                Progress::Launched.lemma_on_track(after1, backlog);
                let n = choose|n: nat| #[trigger]
                    after1.settles_within(n, backlog, after, outcome);
                lemma_settles_uniformly(
                    after1,
                    Progress::Launched,
                    n,
                    backlog,
                    after,
                    outcome,
                    len,
                );
            }
        },
        Stream::Fec(orientation) => {
            let header = fec_packet(orientation, packet.bytes())->Ok_0->Ok_0;
            let merged = decoder.merged(header)->Ok_0;
            law_merged_agrees(decoder, header);
            let (after1, backlog, outcome1) = choose|
                after1: DecoderView<BP, Recv>,
                backlog: Seq<BP::P>,
                outcome1: Outcome,
            |
                {
                    &&& #[trigger] merged.inserts_fec(
                        orientation,
                        seq,
                        packet,
                        none,
                        after1,
                        backlog,
                        outcome1,
                    )
                    &&& if proceeds(outcome1) {
                        after1.settles(backlog, after, outcome)
                    } else {
                        after == after1 && outcome == outcome1
                    }
                };
            lemma_inserts_fec_uniformly(
                merged,
                orientation,
                seq,
                packet,
                after1,
                backlog,
                outcome1,
                len,
            );
            if proceeds(outcome1) {
                Progress::lemma_begun_by_fec(merged, orientation, seq, packet, after1, backlog);
                Progress::Launched.lemma_on_track(after1, backlog);
                let n = choose|n: nat| #[trigger]
                    after1.settles_within(n, backlog, after, outcome);
                lemma_settles_uniformly(
                    after1,
                    Progress::Launched,
                    n,
                    backlog,
                    after,
                    outcome,
                    len,
                );
            }
        },
    }
}

/// A packet of uniform streams can be added to the decoder.
pub proof fn law_uniform_packet_is_accepted<BP: BufferPool, Recv: Receiver<BP::P>>(
    decoder: DecoderView<BP, Recv>,
    stream: Stream,
    packet: BP::P,
    len: nat,
)
    requires
        is_uniform(decoder, len),
        is_uniform_packet(decoder, stream, packet, len),
    ensures
        decoder.accepts_all(stream, seq![packet]),
{
    let packets = seq![packet];
    assert forall|after: DecoderView<BP, Recv>, outcome: Outcome| #[trigger]
        decoder.takes_all(stream, packets, after, outcome) implies outcome is Ok by {
        let (after1, outcome1) = choose|after1: DecoderView<BP, Recv>, outcome1: Outcome|
            {
                &&& #[trigger] decoder.takes(stream, packets[0], after1, outcome1)
                &&& if proceeds(outcome1) {
                    after1.takes_all(stream, packets.drop_first(), after, outcome)
                } else {
                    after == after1 && outcome == outcome1
                }
            };
        law_uniform_packet_is_not_refused(decoder, stream, packet, len, after1, outcome1);
    }
}

} // verus!
