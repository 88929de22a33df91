//! What becomes of a lost packet when the decoder gets hold of a FEC packet that protects it.

use crate::backlog::BACKLOG_LIMIT;
use crate::correction::{
    fec_in, inserts, inserts_fec, lacks_one, law_recovery_will_be_accepted,
    law_single_loss_is_corrected, lemma_recovered_sequence, lemma_yields, takes_up, yields,
    Corrections, MatrixView,
};
use crate::decoding::{
    corrected, fits_geometry, law_inserts_fec_packet_frame, law_inserts_main_frame, lemma_limits,
    proceeds, queued, queues, valid_matrix, DecoderView, Outcome, Stream,
};
use crate::delivery::{
    handed_on, lemma_inserts_main_delivers, lemma_passes_on_all, lemma_passes_on_one,
    lemma_settles_delivers, passes_on,
};
use crate::error::FecDecodeError;
use crate::fec::{fec_header, law_associated_packets, protected_seq, Orientation};
use crate::geometry::FecGeometry;
use crate::packet::{BufferPool, Packet, PacketStatus, Receiver};
use crate::recovery::Refusal;
use crate::rtp::{rtp_error, rtp_payload, rtp_sequence};
use crate::sequence::{seq_add, seq_diff};
use crate::window::{
    law_admits, law_insert_keeps_others, law_insert_reads_back, lemma_rest, Window,
};
use vstd::prelude::*;

verus! {

/// What a FEC packet that fits the geometry makes of a single loss: the lost packet is left to be
/// inserted next, restored byte for byte; or nothing where the buffer pool is exhausted.
proof fn lemma_fec_packet_corrects<BP: BufferPool, Recv: Receiver<BP::P>>(
    decoder: DecoderView<BP, Recv>,
    orientation: Orientation,
    seq: u16,
    packet: BP::P,
    packets: Seq<Seq<u8>>,
    lost: int,
    after: DecoderView<BP, Recv>,
    backlog: Seq<BP::P>,
    outcome: Outcome,
)
    requires
        loses_one(decoder, orientation, seq, packet, packets, lost),
        decoder.inserts_fec(orientation, seq, packet, Seq::empty(), after, backlog, outcome),
    ensures
        proceeds(outcome),
        after == decoder.with_matrix(
            (decoder.running->0).1.with_fec(orientation, seq, packet),
            decoder.recv,
        ),
        backlog.len() == 0 && decoder.pool.may_allocate(None) || backlog.len() == 1
            && backlog[0].bytes() == packets[lost],
{
    reveal(inserts_fec);
    let matrix = (decoder.running->0).1;
    let (matrix2, res) = choose|matrix2: MatrixView<BP::P>, res: Result<Option<BP::P>, Refusal>|
        {
            &&& #[trigger] inserts_fec(
                decoder.pool,
                matrix,
                orientation,
                seq,
                packet,
                matrix2,
                res,
            )
            &&& after == decoder.with_matrix(matrix2, decoder.recv)
            &&& match res {
                Ok(Some(correction)) => {
                    &&& backlog == queued(Seq::empty(), seq![correction])
                    &&& outcome == Ok::<_, Refusal>(queues(Seq::empty(), seq![correction]))
                },
                Ok(None) => {
                    &&& backlog == Seq::<BP::P>::empty()
                    &&& outcome == Ok::<_, Refusal>(Ok::<(), FecDecodeError>(()))
                },
                Err(refusal) => backlog == Seq::<BP::P>::empty() && outcome == Err::<
                    Result<(), FecDecodeError>,
                    _,
                >(refusal),
            }
        };
    law_single_loss_is_corrected(
        decoder.pool,
        matrix2,
        orientation,
        seq,
        packets,
        lost,
        res,
    );
}

/// Whether the FEC packet `packet`, which would get the sequence number `seq`, and the media packets
/// that the decoder holds are all that is needed to recover `packets[lost]`.
pub open spec fn loses_one<BP: BufferPool, Recv: Receiver<BP::P>>(
    decoder: DecoderView<BP, Recv>,
    orientation: Orientation,
    seq: u16,
    packet: BP::P,
    packets: Seq<Seq<u8>>,
    lost: int,
) -> bool {
    &&& decoder.running matches Some((_, matrix))
    &&& matrix.fec_packets(orientation).admits(seq)
    &&& lacks_one(matrix.with_fec(orientation, seq, packet), orientation, seq, packets, lost)
    &&& packets[lost].len() - 12 <= u16::MAX
    &&& packets[lost].len() <= decoder.pool.packet_size()
}

/// The first step of what a FEC packet that makes up for a single loss sets off.
proof fn lemma_recovered_first<BP: BufferPool, Recv: Receiver<BP::P>>(
    decoder: DecoderView<BP, Recv>,
    orientation: Orientation,
    packet: BP::P,
    packets: Seq<Seq<u8>>,
    lost: int,
    after: DecoderView<BP, Recv>,
    outcome: Outcome,
) -> (res: Option<(BP::P, DecoderView<BP, Recv>, Seq<BP::P>, Outcome)>)
    requires
        decoder.valid(),
        fits_geometry((decoder.running->0).0, orientation, packet.bytes()),
        loses_one(
            decoder,
            orientation,
            rtp_sequence(packet.bytes()),
            packet,
            packets,
            lost,
        ),
        decoder.takes(Stream::Fec(orientation), packet, after, outcome),
    ensures
        ({
            let seq = rtp_sequence(packet.bytes());
            let matrix = (decoder.running->0).1.with_fec(orientation, seq, packet);
            let begun = decoder.with_matrix(matrix, decoder.recv);
            match res {
                Some((recovered, after1, backlog1, outcome1)) => {
                    &&& recovered.bytes() == packets[lost]
                    &&& begun.valid()
                    &&& begun.inserts_main(
                        rtp_sequence(packets[lost]),
                        (recovered, PacketStatus::Recovered),
                        Seq::empty(),
                        after1,
                        backlog1,
                        outcome1,
                    )
                    &&& if proceeds(outcome1) {
                        after1.settles(backlog1, after, outcome)
                    } else {
                        after == after1 && outcome == outcome1
                    }
                },
                None => {
                    &&& decoder.pool.may_allocate(None)
                    &&& after == begun
                    &&& outcome == Ok::<_, Refusal>(Ok::<(), FecDecodeError>(()))
                },
            }
        }),
{
    let seq = rtp_sequence(packet.bytes());
    let none = Seq::<BP::P>::empty();
    let (begun, backlog, outcome0) = choose|
        begun: DecoderView<BP, Recv>,
        backlog: Seq<BP::P>,
        outcome0: Outcome,
    |
        {
            &&& #[trigger] decoder.inserts_fec(
                orientation,
                seq,
                packet,
                none,
                begun,
                backlog,
                outcome0,
            )
            &&& if proceeds(outcome0) {
                begun.settles(backlog, after, outcome)
            } else {
                after == begun && outcome == outcome0
            }
        };
    lemma_fec_packet_corrects(
        decoder,
        orientation,
        seq,
        packet,
        packets,
        lost,
        begun,
        backlog,
        outcome0,
    );
    law_inserts_fec_packet_frame(
        decoder,
        orientation,
        seq,
        packet,
        none,
        begun,
        backlog,
        outcome0,
    );
    let n = choose|n: nat| #[trigger] begun.settles_within(n, backlog, after, outcome);
    if backlog.len() == 0 {
        None
    } else {
        let recovered = backlog[0];
        assert(backlog.last() == recovered);
        assert(backlog.drop_last() =~= none);
        assert(rtp_error(packets[lost]) is None);
        let (after1, backlog1, outcome1) = choose|
            after1: DecoderView<BP, Recv>,
            backlog1: Seq<BP::P>,
            outcome1: Outcome,
        |
            {
                &&& #[trigger] begun.inserts_main(
                    rtp_sequence(recovered.bytes()),
                    (recovered, PacketStatus::Recovered),
                    none,
                    after1,
                    backlog1,
                    outcome1,
                )
                &&& if proceeds(outcome1) {
                    after1.settles_within((n - 1) as nat, backlog1, after, outcome)
                } else {
                    after == after1 && outcome == outcome1
                }
            };
        Some((recovered, after1, backlog1, outcome1))
    }
}

/// A FEC packet that arrives when all the media packets that it protects are at hand but one makes
/// up for the loss of that one: the receiver gets it, restored byte for byte, and before any other
/// packet whose recovery it makes possible in turn.  Only an exhausted buffer pool can keep that
/// from happening.
pub proof fn law_fec_packet_corrects_single_loss<BP: BufferPool, Recv: Receiver<BP::P>>(
    decoder: DecoderView<BP, Recv>,
    orientation: Orientation,
    packet: BP::P,
    packets: Seq<Seq<u8>>,
    lost: int,
    after: DecoderView<BP, Recv>,
    outcome: Outcome,
)
    requires
        decoder.valid(),
        fits_geometry((decoder.running->0).0, orientation, packet.bytes()),
        loses_one(
            decoder,
            orientation,
            rtp_sequence(packet.bytes()),
            packet,
            packets,
            lost,
        ),
        decoder.takes(Stream::Fec(orientation), packet, after, outcome),
    ensures
        decoder.pool.may_allocate(None) && after.recv == decoder.recv || exists|
            recovered: Seq<BP::P>,
        |
            {
                &&& recovered.len() > 0
                &&& recovered[0].bytes() == packets[lost]
                &&& #[trigger] passes_on(
                    decoder.recv,
                    handed_on(Seq::empty(), recovered),
                    after.recv,
                )
            },
{
    let none = Seq::<BP::P>::empty();
    let first = lemma_recovered_first(
        decoder,
        orientation,
        packet,
        packets,
        lost,
        after,
        outcome,
    );
    if let Some((recovered, after1, backlog1, outcome1)) = first {
        let matrix = (decoder.running->0).1.with_fec(
            orientation,
            rtp_sequence(packet.bytes()),
            packet,
        );
        let begun = decoder.with_matrix(matrix, decoder.recv);
        let seq = rtp_sequence(packets[lost]);
        let item = (recovered, PacketStatus::Recovered);
        lemma_limits((decoder.running->0).0, matrix);
        law_admits(matrix.main, seq);
        lemma_inserts_main_delivers(begun, seq, item, none, after1, backlog1, outcome1);
        lemma_passes_on_one(decoder.recv, item, after1.recv);
        assert(handed_on(none, none) =~= Seq::empty());
        let rest = if proceeds(outcome1) {
            let n = choose|n: nat| #[trigger] after1.settles_within(n, backlog1, after, outcome);
            lemma_settles_delivers(after1, n, backlog1, after, outcome)
        } else {
            none
        };
        lemma_passes_on_all(
            decoder.recv,
            seq![item],
            after1.recv,
            handed_on(none, rest),
            after.recv,
        );
        let all = seq![recovered] + rest;
        assert(handed_on(none, all) =~= seq![item] + handed_on(none, rest));
        assert(passes_on(decoder.recv, handed_on(none, all), after.recv));
    }
}

/// Whether the FEC packet in `packet` protects no media packet that lies so far after `start` that a
/// window of the given size could not hold both.
pub open spec fn stays_within(start: u16, limit: nat, packet: Seq<u8>) -> bool {
    fec_in(packet) matches Ok(Some(data)) ==> forall|i: int|
        0 <= i < fec_header(data).associated().len() ==> seq_diff(
            #[trigger] fec_header(data).associated()[i],
            start,
        ) < limit
}

/// Whether none of the FEC packets in the matrix protects a media packet that could only be held
/// were the window to move on.
pub open spec fn is_settled<P: Packet>(matrix: MatrixView<P>) -> bool {
    let f = |pk: P| stays_within(matrix.main.start, matrix.main.limit, pk.bytes());
    matrix.row.every(f) && matrix.col.every(f)
}

/// Whether a packet with the sequence number `seq` can be held without the window moving on, and
/// other than in the place of the packet `held`.
pub open spec fn joins(window: Window<Seq<u8>>, held: u16, seq: u16) -> bool {
    0 <= seq_diff(seq, window.start) < window.limit && seq != held
}

/// A packet that is recovered has a place beside the packets that are held.
pub(crate) proof fn lemma_recovered_joins<BP: BufferPool>(
    pool: BP,
    geometry: FecGeometry,
    matrix: MatrixView<BP::P>,
    orientation: Orientation,
    seq: u16,
    held: u16,
    packet: BP::P,
)
    requires
        valid_matrix(geometry, matrix),
        is_settled(matrix),
        matrix.main.get(held) is Some,
        takes_up(pool, matrix.opportunity_around(orientation, seq), Ok(Some(packet))),
    ensures
        joins(matrix.main, held, rtp_sequence(packet.bytes())),
{
    lemma_limits(geometry, matrix);
    let fec_seq = matrix.covering(orientation, seq)->Ok_0->0;
    let recovery = matrix.opportunity(orientation, fec_seq)->Ok_0->0;
    let fec_packets = matrix.fec_packets(orientation);
    let index = fec_packets.index_of(fec_seq)->0;
    let f = |pk: BP::P| stays_within(matrix.main.start, matrix.main.limit, pk.bytes());
    assert(fec_packets.every(f));
    assert(f((fec_packets.slots[index]->0).0));
    law_recovery_will_be_accepted(
        matrix,
        orientation,
        fec_seq,
        (packet.bytes(), PacketStatus::Recovered),
    );
    lemma_recovered_sequence(pool, recovery, packet);
    let seqs = recovery.header.associated();
    let i = choose|i: int| 0 <= i < seqs.len() && seqs[i] == recovery.seq;
    assert(seq_diff(seqs[i], matrix.main.start) < matrix.main.limit);
    assert(!matrix.main.too_early(seqs[i]));
}

/// Storing a packet where the window need not move on.
proof fn lemma_joined(
    window: Window<Seq<u8>>,
    held: u16,
    seq: u16,
    packet: (Seq<u8>, PacketStatus),
)
    requires
        window.valid(),
        0 < window.limit <= 200,
        window.slots.len() > 0,
        0 <= seq_diff(seq, window.start) < window.limit,
    ensures
        window.admits(seq),
        window.insert(seq, packet).start == window.start,
        window.insert(seq, packet).limit == window.limit,
        held != seq ==> window.insert(seq, packet).get(held) == window.get(held),
{
    law_admits(window, seq);
    lemma_rest(window, seq);
    assert(seq_add(window.start, 0) == window.start);
    if held != seq {
        law_insert_keeps_others(window, seq, packet, held);
    }
}

/// While recovered packets are inserted that have a place beside those that are held, the latter
/// stay.
pub(crate) proof fn lemma_settles_holds<BP: BufferPool, Recv: Receiver<BP::P>>(
    decoder: DecoderView<BP, Recv>,
    n: nat,
    backlog: Seq<BP::P>,
    after: DecoderView<BP, Recv>,
    outcome: Outcome,
    held: u16,
)
    requires
        decoder.valid(),
        backlog.len() <= BACKLOG_LIMIT,
        decoder.running matches Some((_, matrix)) && {
            &&& is_settled(matrix)
            &&& matrix.main.get(held) is Some
            &&& forall|i: int|
                0 <= i < backlog.len() ==> joins(
                    matrix.main,
                    held,
                    rtp_sequence((#[trigger] backlog[i]).bytes()),
                )
        },
        decoder.settles_within(n, backlog, after, outcome),
    ensures
        after.running matches Some((_, matrix)) && matrix.main.get(held) == (
        decoder.running->0).1.main.get(held),
    decreases n,
{
    if backlog.len() == 0 || rtp_error(backlog.last().bytes()) is Some {
    } else if decoder.holds(rtp_sequence(backlog.last().bytes())) {
        lemma_settles_holds(decoder, (n - 1) as nat, backlog.drop_last(), after, outcome, held);
    } else {
        let packet = backlog.last();
        let seq = rtp_sequence(packet.bytes());
        let item = (packet, PacketStatus::Recovered);
        let rest = backlog.drop_last();
        let (geometry, matrix) = decoder.running->0;
        let (after1, backlog1, outcome1) = choose|
            after1: DecoderView<BP, Recv>,
            backlog1: Seq<BP::P>,
            outcome1: Outcome,
        |
            {
                &&& #[trigger] decoder.inserts_main(seq, item, rest, after1, backlog1, outcome1)
                &&& if proceeds(outcome1) {
                    after1.settles_within((n - 1) as nat, backlog1, after, outcome)
                } else {
                    after == after1 && outcome == outcome1
                }
            };
        assert(joins(matrix.main, held, rtp_sequence(backlog[backlog.len() - 1].bytes())));
        lemma_insert_holds(decoder, seq, item, rest, after1, backlog1, outcome1, held);
        if proceeds(outcome1) {
            law_inserts_main_frame(decoder, seq, item, rest, after1, backlog1, outcome1);
            lemma_settles_holds(after1, (n - 1) as nat, backlog1, after, outcome, held);
        }
    }
}

/// Inserting one recovered packet that has a place beside those that are held, or is itself to be
/// held.
proof fn lemma_insert_holds<BP: BufferPool, Recv: Receiver<BP::P>>(
    decoder: DecoderView<BP, Recv>,
    seq: u16,
    packet: (BP::P, PacketStatus),
    backlog: Seq<BP::P>,
    after: DecoderView<BP, Recv>,
    backlog2: Seq<BP::P>,
    outcome: Outcome,
    held: u16,
)
    requires
        decoder.valid(),
        backlog.len() <= BACKLOG_LIMIT,
        seq == rtp_sequence(packet.0.bytes()),
        decoder.running matches Some((_, matrix)) && {
            &&& is_settled(matrix)
            &&& matrix.main.slots.len() > 0
            &&& 0 <= seq_diff(seq, matrix.main.start) < matrix.main.limit
            &&& seq == held || matrix.main.get(held) is Some
            &&& forall|i: int|
                0 <= i < backlog.len() ==> joins(
                    matrix.main,
                    held,
                    rtp_sequence((#[trigger] backlog[i]).bytes()),
                )
        },
        decoder.inserts_main(seq, packet, backlog, after, backlog2, outcome),
    ensures
        backlog2.len() <= BACKLOG_LIMIT,
        after.running matches Some((_, matrix)) && {
            &&& is_settled(matrix)
            &&& matrix.main.get(held) == if seq == held {
                Some((packet.0.bytes(), packet.1))
            } else {
                (decoder.running->0).1.main.get(held)
            }
            &&& forall|i: int|
                0 <= i < backlog2.len() ==> joins(
                    matrix.main,
                    held,
                    rtp_sequence((#[trigger] backlog2[i]).bytes()),
                )
        },
{
    let (geometry, matrix) = decoder.running->0;
    let (matrix2, recv2, res) = choose|
        matrix2: MatrixView<BP::P>,
        recv2: Recv,
        res: Result<Corrections<BP::P>, Refusal>,
    |
        {
            &&& #[trigger] inserts(
                decoder.pool,
                matrix,
                decoder.recv,
                seq,
                packet,
                matrix2,
                recv2,
                res,
            )
            &&& after == decoder.with_matrix(matrix2, recv2)
            &&& match res {
                Ok(corrections) => backlog2 == queued(backlog, corrected(corrections)),
                Err(_) => backlog2 == backlog,
            }
        };
    law_inserts_main_frame(decoder, seq, packet, backlog, after, backlog2, outcome);
    lemma_matrix_holds(
        decoder.pool,
        geometry,
        matrix,
        decoder.recv,
        seq,
        packet,
        matrix2,
        recv2,
        res,
        held,
    );
    let fresh = match res {
        Ok(corrections) => corrected(corrections),
        Err(_) => Seq::empty(),
    };
    assert forall|i: int| 0 <= i < backlog2.len() implies joins(
        matrix2.main,
        held,
        rtp_sequence((#[trigger] backlog2[i]).bytes()),
    ) by {
        if i < backlog.len() {
            assert(backlog2[i] == backlog[i]);
        } else {
            assert(backlog2[i] == fresh[i - backlog.len()]);
        }
    }
}

/// Inserting one recovered packet into the matrix that has a place beside those that are held, or is
/// itself to be held.
proof fn lemma_matrix_holds<BP: BufferPool, Recv: Receiver<BP::P>>(
    pool: BP,
    geometry: FecGeometry,
    matrix: MatrixView<BP::P>,
    recv: Recv,
    seq: u16,
    packet: (BP::P, PacketStatus),
    matrix2: MatrixView<BP::P>,
    recv2: Recv,
    res: Result<Corrections<BP::P>, Refusal>,
    held: u16,
)
    requires
        valid_matrix(geometry, matrix),
        valid_matrix(geometry, matrix2),
        is_settled(matrix),
        matrix.main.slots.len() > 0,
        0 <= seq_diff(seq, matrix.main.start) < matrix.main.limit,
        seq == held || matrix.main.get(held) is Some,
        inserts(pool, matrix, recv, seq, packet, matrix2, recv2, res),
    ensures
        is_settled(matrix2),
        matrix2.main.start == matrix.main.start,
        matrix2.main.limit == matrix.main.limit,
        matrix2.main.get(held) == if seq == held {
            Some((packet.0.bytes(), packet.1))
        } else {
            matrix.main.get(held)
        },
        res matches Ok(corrections) ==> forall|i: int|
            0 <= i < corrected(corrections).len() ==> joins(
                matrix2.main,
                held,
                rtp_sequence((#[trigger] corrected(corrections)[i]).bytes()),
            ),
{
    let item = (packet.0.bytes(), packet.1);
    lemma_limits(geometry, matrix);
    lemma_joined(matrix.main, held, seq, item);
    law_insert_reads_back(matrix.main, seq, item);
    assert(matrix2 == matrix.with_main(seq, packet) && yields(pool, matrix2, seq, res)) by {
        reveal(inserts);
    }
    let f = |pk: BP::P| stays_within(matrix.main.start, matrix.main.limit, pk.bytes());
    assert(matrix2.row.every(f) && matrix2.col.every(f));
    let (column, row) = lemma_yields(pool, matrix2, seq, res);
    if let Ok(Some(a)) = column {
        lemma_recovered_joins(pool, geometry, matrix2, Orientation::Column, seq, held, a);
    }
    if let (Ok(_), Ok(Some(b))) = (column, row) {
        lemma_recovered_joins(pool, geometry, matrix2, Orientation::Row, seq, held, b);
    }
}

/// Where a FEC packet makes up for the loss of a media packet, the decoder then holds the lost packet
/// under its sequence number, as a recovered packet.  Further recoveries that this makes possible
/// leave it alone, unless they make the window move on.
pub proof fn law_recovered_packet_is_held<BP: BufferPool, Recv: Receiver<BP::P>>(
    decoder: DecoderView<BP, Recv>,
    orientation: Orientation,
    packet: BP::P,
    packets: Seq<Seq<u8>>,
    lost: int,
    after: DecoderView<BP, Recv>,
    outcome: Outcome,
)
    requires
        decoder.valid(),
        fits_geometry((decoder.running->0).0, orientation, packet.bytes()),
        loses_one(
            decoder,
            orientation,
            rtp_sequence(packet.bytes()),
            packet,
            packets,
            lost,
        ),
        is_settled(
            (decoder.running->0).1.with_fec(orientation, rtp_sequence(packet.bytes()), packet),
        ),
        decoder.takes(Stream::Fec(orientation), packet, after, outcome),
    ensures
        decoder.pool.may_allocate(None) || (after.running matches Some((_, matrix))
            && matrix.main.get(rtp_sequence(packets[lost])) == Some(
            (packets[lost], PacketStatus::Recovered),
        )),
{
    let none = Seq::<BP::P>::empty();
    let first = lemma_recovered_first(
        decoder,
        orientation,
        packet,
        packets,
        lost,
        after,
        outcome,
    );
    if let Some((recovered, after1, backlog1, outcome1)) = first {
        let matrix = (decoder.running->0).1.with_fec(
            orientation,
            rtp_sequence(packet.bytes()),
            packet,
        );
        let begun = decoder.with_matrix(matrix, decoder.recv);
        let seq = rtp_sequence(packets[lost]);
        let item = (recovered, PacketStatus::Recovered);
        lemma_lost_within(matrix, orientation, rtp_sequence(packet.bytes()), packets, lost);
        lemma_insert_holds(begun, seq, item, none, after1, backlog1, outcome1, seq);
        if proceeds(outcome1) {
            law_inserts_main_frame(begun, seq, item, none, after1, backlog1, outcome1);
            let n = choose|n: nat| #[trigger] after1.settles_within(n, backlog1, after, outcome);
            lemma_settles_holds(after1, n, backlog1, after, outcome, seq);
        }
    }
}

/// Where the FEC packets protect no media packet beyond the window, the one that is lost belongs
/// into the window.
proof fn lemma_lost_within<P: Packet>(
    matrix: MatrixView<P>,
    orientation: Orientation,
    fec_seq: u16,
    packets: Seq<Seq<u8>>,
    lost: int,
)
    requires
        is_settled(matrix),
        lacks_one(matrix, orientation, fec_seq, packets, lost),
    ensures
        0 <= seq_diff(rtp_sequence(packets[lost]), matrix.main.start) < matrix.main.limit,
{
    let fec_packets = matrix.fec_packets(orientation);
    let index = fec_packets.index_of(fec_seq)->0;
    let f = |pk: P| stays_within(matrix.main.start, matrix.main.limit, pk.bytes());
    assert(fec_packets.every(f));
    assert(f((fec_packets.slots[index]->0).0));
    let header = fec_header(rtp_payload((fec_packets.get(fec_seq)->0).0.bytes()));
    law_associated_packets(header);
    assert(header.associated()[lost] == protected_seq(header, lost));
}

} // verus!
