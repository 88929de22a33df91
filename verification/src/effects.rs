//! What a packet does to a decoder that knows the geometry.

use crate::correction::{
    covers_first, inserts, inserts_fec, is_fec_packet, is_legible, is_legible_entry,
    is_only_missing, is_uncovered, lacks_one, law_insert_without_fec,
    law_one_missing_packet_can_be_recovered, law_search_finds_first_cover,
    law_single_loss_is_corrected, lemma_yields, yields, Corrections, MatrixView,
};
use crate::decoding::{
    corrected, fits_geometry, law_allowed_column_header_is_adopted, law_fec_packets_are_read,
    law_inserts_fec_packet_frame, law_inserts_main_frame, law_merged_agrees,
    law_other_headers_are_not_adopted, law_settles_frame, lemma_limits, proceeds, queued, queues,
    valid_matrix, DecoderView, Outcome, Stream,
};
use crate::delivery::{
    handed_on, lemma_inserts_main_delivers, lemma_passes_on_all, lemma_passes_on_one,
    lemma_settles_delivers, passes_on,
};
use crate::error::FecDecodeError;
use crate::fec::{fec_header, law_fec_data_is_readable, FecHeader, Orientation};
use crate::geometry::FecGeometry;
use crate::packet::{BufferPool, Packet, PacketStatus, Receiver};
use crate::recovery::{Recovery, Refusal};
use crate::repair::{is_settled, joins, lemma_recovered_joins, lemma_settles_holds};
use crate::rtp::{rtp_error, rtp_payload, rtp_sequence};
use crate::sequence::seq_diff;
use crate::window::{
    law_admits, law_early_packets_are_counted, law_insert_reads_back,
    law_window_holds_the_most_recent, law_window_spans, Window,
};
use vstd::prelude::*;

verus! {

/// Whether a packet with the sequence number `seq` does not come before the first entry.
pub open spec fn is_in_time<P>(window: Window<P>, seq: u16) -> bool {
    window.slots.len() == 0 || seq_diff(seq, window.start) >= 0
}

/// Whether a packet with the sequence number `seq` is less than half a turn away from any entry.
pub open spec fn is_near<P>(window: Window<P>, seq: u16) -> bool {
    window.slots.len() == 0 || window.slots.len() - seq_diff(seq, window.start) < 0x8000
}

/// All the FEC packets of a decoder have FEC headers.
proof fn lemma_legible<P: Packet>(geometry: FecGeometry, matrix: MatrixView<P>)
    requires
        valid_matrix(geometry, matrix),
    ensures
        is_legible(matrix.row),
        is_legible(matrix.col),
{
    reveal(valid_matrix);
    let f = |pk: P| fits_geometry(geometry, Orientation::Row, pk.bytes());
    assert(matrix.row.every(f));
    assert forall|k: int| 0 <= k < matrix.row.slots.len() implies is_legible_entry(
        #[trigger] matrix.row.slots[k],
    ) by {
        if let Some((packet, _)) = matrix.row.slots[k] {
            assert(f(packet));
        }
    }
    let g = |pk: P| fits_geometry(geometry, Orientation::Column, pk.bytes());
    assert(matrix.col.every(g));
    assert forall|k: int| 0 <= k < matrix.col.slots.len() implies is_legible_entry(
        #[trigger] matrix.col.slots[k],
    ) by {
        if let Some((packet, _)) = matrix.col.slots[k] {
            assert(g(packet));
        }
    }
}

/// Whatever comes of it, a media packet that is inserted in time is stored under its number and
/// handed to the receiver, be it received or recovered, and changes nothing else.
pub proof fn law_inserted_media_packet_is_stored<BP: BufferPool, Recv: Receiver<BP::P>>(
    decoder: DecoderView<BP, Recv>,
    seq: u16,
    packet: (BP::P, PacketStatus),
    backlog: Seq<BP::P>,
    after: DecoderView<BP, Recv>,
    backlog2: Seq<BP::P>,
    outcome: Outcome,
)
    requires
        decoder.valid(),
        decoder.running matches Some((_, matrix)) && is_in_time(matrix.main, seq),
        decoder.inserts_main(seq, packet, backlog, after, backlog2, outcome),
    ensures
        after == decoder.with_matrix((decoder.running->0).1.with_main(seq, packet), after.recv),
        after.running matches Some((_, matrix)) && matrix.main.get(seq) == Some(
            (packet.0.bytes(), packet.1),
        ),
        Recv::received(decoder.recv, seq![packet], after.recv),
{
    let (geometry, matrix) = decoder.running->0;
    lemma_limits(geometry, matrix);
    law_admits(matrix.main, seq);
    law_insert_reads_back(matrix.main, seq, (packet.0.bytes(), packet.1));
    reveal(inserts);
}

/// A media packet that comes too late to be stored is handed to the receiver all the same, and the
/// packets that are held stay, unless so many have come too late in a row that the sender is taken
/// to have restarted.  One that is half a turn away is refused, and changes nothing.
pub proof fn law_late_media_packet_is_not_stored<BP: BufferPool, Recv: Receiver<BP::P>>(
    decoder: DecoderView<BP, Recv>,
    seq: u16,
    packet: (BP::P, PacketStatus),
    backlog: Seq<BP::P>,
    after: DecoderView<BP, Recv>,
    backlog2: Seq<BP::P>,
    outcome: Outcome,
    held: u16,
)
    requires
        decoder.valid(),
        decoder.running matches Some((_, matrix)) && !is_in_time(matrix.main, seq),
        decoder.inserts_main(seq, packet, backlog, after, backlog2, outcome),
    ensures
        is_near((decoder.running->0).1.main, seq) ==> {
            let before = (decoder.running->0).1.main;
            &&& after == decoder.with_matrix(
                (decoder.running->0).1.with_main(seq, packet),
                after.recv,
            )
            &&& Recv::received(decoder.recv, seq![packet], after.recv)
            &&& after.running matches Some((_, matrix))
            &&& matrix.main.get(seq) is None
            &&& before.early < 63 ==> matrix.main.get(held) == before.get(held)
                && matrix.main.early == before.early + 1
            &&& before.early >= 63 ==> matrix.main == Window::<Seq<u8>>::with_limit(before.limit)
        },
        (decoder.running->0).1.main.slots.len() - seq_diff(
            seq,
            (decoder.running->0).1.main.start,
        ) > 0x8000 ==> after == decoder && backlog2 == backlog && outcome == Err::<
            Result<(), FecDecodeError>,
            _,
        >(Refusal::WindowOverrun),
{
    let (geometry, matrix) = decoder.running->0;
    let item = (packet.0.bytes(), packet.1);
    lemma_limits(geometry, matrix);
    law_admits(matrix.main, seq);
    if is_near(matrix.main, seq) {
        law_insert_reads_back(matrix.main, seq, item);
        law_early_packets_are_counted(matrix.main, seq, item);
        law_window_spans(matrix.main, seq, item);
        if held != seq {
            law_window_holds_the_most_recent(matrix.main, seq, item, held);
        }
    }
    reveal(inserts);
}

/// A FEC packet that fits the geometry but comes too late to be stored makes no difference but to
/// the window, which counts those that come too late in a row.
pub proof fn law_late_fec_packet_is_not_stored<BP: BufferPool, Recv: Receiver<BP::P>>(
    decoder: DecoderView<BP, Recv>,
    orientation: Orientation,
    packet: BP::P,
    after: DecoderView<BP, Recv>,
    outcome: Outcome,
)
    requires
        decoder.valid(),
        decoder.running matches Some((geometry, matrix)) && {
            let window = matrix.fec_packets(orientation);
            &&& fits_geometry(geometry, orientation, packet.bytes())
            &&& !is_in_time(window, rtp_sequence(packet.bytes()))
            &&& is_near(window, rtp_sequence(packet.bytes()))
        },
    ensures
        decoder.takes(Stream::Fec(orientation), packet, after, outcome) <==> {
            &&& after == decoder.with_matrix(
                (decoder.running->0).1.with_fec(
                    orientation,
                    rtp_sequence(packet.bytes()),
                    packet,
                ),
                decoder.recv,
            )
            &&& outcome == Ok::<_, Refusal>(Ok::<(), FecDecodeError>(()))
        },
{
    let seq = rtp_sequence(packet.bytes());
    let (geometry, matrix) = decoder.running->0;
    lemma_limits(geometry, matrix);
    let window = matrix.fec_packets(orientation);
    law_admits(window, seq);
    law_insert_reads_back(window, seq, (packet, PacketStatus::Received));
    lemma_fec_packet_just_stored(decoder, orientation, packet, after, outcome);
}

/// A FEC packet that fits the geometry and comes in time is stored under its number, and takes
/// nothing from the FEC packets for the other direction.
pub proof fn law_fec_packet_is_held<BP: BufferPool, Recv: Receiver<BP::P>>(
    decoder: DecoderView<BP, Recv>,
    orientation: Orientation,
    packet: BP::P,
    after: DecoderView<BP, Recv>,
    outcome: Outcome,
)
    requires
        decoder.valid(),
        decoder.running matches Some((geometry, matrix)) && {
            &&& fits_geometry(geometry, orientation, packet.bytes())
            &&& is_in_time(matrix.fec_packets(orientation), rtp_sequence(packet.bytes()))
        },
        decoder.takes(Stream::Fec(orientation), packet, after, outcome),
    ensures
        after.running matches Some((geometry, matrix)) && {
            let seq = rtp_sequence(packet.bytes());
            let before = (decoder.running->0).1;
            &&& geometry == (decoder.running->0).0
            &&& matrix.fec_packets(orientation).get(seq) == Some((packet, PacketStatus::Received))
            &&& matrix.fec_packets(orientation) == before.fec_packets(orientation).insert(
                seq,
                (packet, PacketStatus::Received),
            )
            &&& orientation == Orientation::Row ==> matrix.col == before.col
            &&& orientation == Orientation::Column ==> matrix.row == before.row
        },
{
    let seq = rtp_sequence(packet.bytes());
    let none = Seq::<BP::P>::empty();
    let (geometry, matrix) = decoder.running->0;
    let (begun, backlog, outcome0) = choose|
        begun: DecoderView<BP, Recv>,
        backlog: Seq<BP::P>,
        outcome0: Outcome,
    |
        {
            &&& #[trigger] decoder.inserts_fec(
                orientation,
                seq,
                packet,
                none,
                begun,
                backlog,
                outcome0,
            )
            &&& if proceeds(outcome0) {
                begun.settles(backlog, after, outcome)
            } else {
                after == begun && outcome == outcome0
            }
        };
    law_inserts_fec_packet_frame(
        decoder,
        orientation,
        seq,
        packet,
        none,
        begun,
        backlog,
        outcome0,
    );
    lemma_limits(geometry, matrix);
    let window = matrix.fec_packets(orientation);
    law_admits(window, seq);
    law_insert_reads_back(window, seq, (packet, PacketStatus::Received));
    assert(begun.running == Some((geometry, matrix.with_fec(orientation, seq, packet)))) by {
        reveal(inserts_fec);
    }
    if proceeds(outcome0) {
        let n = choose|n: nat| #[trigger] begun.settles_within(n, backlog, after, outcome);
        law_settles_frame(begun, n, backlog, after, outcome);
    }
}

/// A media packet that comes in time is held under its number, and those that are held beside it
/// stay, whatever is recovered by means of it, unless the FEC packets at hand protect packets so
/// far ahead that their recovery makes the window move on.
pub proof fn law_media_packet_is_held<BP: BufferPool, Recv: Receiver<BP::P>>(
    decoder: DecoderView<BP, Recv>,
    packet: BP::P,
    after: DecoderView<BP, Recv>,
    outcome: Outcome,
    held: u16,
)
    requires
        decoder.valid(),
        rtp_error(packet.bytes()) is None,
        decoder.running matches Some((_, matrix)) && {
            let seq = rtp_sequence(packet.bytes());
            let stored = matrix.with_main(seq, (packet, PacketStatus::Received));
            &&& is_in_time(matrix.main, seq)
            &&& is_settled(stored)
            &&& stored.main.get(held) is Some
        },
        decoder.takes(Stream::Main, packet, after, outcome),
    ensures
        after.running matches Some((_, matrix)) && {
            let seq = rtp_sequence(packet.bytes());
            &&& held == seq ==> matrix.main.get(held) == Some(
                (packet.bytes(), PacketStatus::Received),
            )
            &&& held != seq ==> matrix.main.get(held) == (decoder.running->0).1.main.get(held)
        },
{
    let seq = rtp_sequence(packet.bytes());
    let item = (packet, PacketStatus::Received);
    let none = Seq::<BP::P>::empty();
    let (geometry, matrix) = decoder.running->0;
    let (begun, backlog, outcome0) = lemma_main_begins(decoder, packet, after, outcome);
    law_inserted_media_packet_is_stored(decoder, seq, item, none, begun, backlog, outcome0);
    law_inserts_main_frame(decoder, seq, item, none, begun, backlog, outcome0);
    lemma_limits(geometry, matrix);
    law_admits(matrix.main, seq);
    if held != seq {
        law_window_holds_the_most_recent(matrix.main, seq, (packet.bytes(), item.1), held);
    }
    if proceeds(outcome0) {
        let stored = matrix.with_main(seq, item);
        let res = lemma_main_yields(decoder, seq, item, none, begun, backlog, outcome0);
        let (column, row) = lemma_yields(decoder.pool, stored, seq, res);
        if let Ok(Some(a)) = column {
            lemma_recovered_joins(
                decoder.pool,
                geometry,
                stored,
                Orientation::Column,
                seq,
                held,
                a,
            );
        }
        if let (Ok(_), Ok(Some(b))) = (column, row) {
            lemma_recovered_joins(decoder.pool, geometry, stored, Orientation::Row, seq, held, b);
        }
        assert forall|i: int| 0 <= i < backlog.len() implies joins(
            stored.main,
            held,
            rtp_sequence((#[trigger] backlog[i]).bytes()),
        ) by {}
        let n = choose|n: nat| #[trigger] begun.settles_within(n, backlog, after, outcome);
        lemma_settles_holds(begun, n, backlog, after, outcome, held);
    }
}

/// The first step of what a media packet sets off.
proof fn lemma_main_begins<BP: BufferPool, Recv: Receiver<BP::P>>(
    decoder: DecoderView<BP, Recv>,
    packet: BP::P,
    after: DecoderView<BP, Recv>,
    outcome: Outcome,
) -> (res: (DecoderView<BP, Recv>, Seq<BP::P>, Outcome))
    requires
        rtp_error(packet.bytes()) is None,
        decoder.takes(Stream::Main, packet, after, outcome),
    ensures
        decoder.inserts_main(
            rtp_sequence(packet.bytes()),
            (packet, PacketStatus::Received),
            Seq::empty(),
            res.0,
            res.1,
            res.2,
        ),
        if proceeds(res.2) {
            res.0.settles(res.1, after, outcome)
        } else {
            after == res.0 && outcome == res.2
        },
{
    choose|begun: DecoderView<BP, Recv>, backlog: Seq<BP::P>, outcome0: Outcome|
        {
            &&& #[trigger] decoder.inserts_main(
                rtp_sequence(packet.bytes()),
                (packet, PacketStatus::Received),
                Seq::empty(),
                begun,
                backlog,
                outcome0,
            )
            &&& if proceeds(outcome0) {
                begun.settles(backlog, after, outcome)
            } else {
                after == begun && outcome == outcome0
            }
        }
}

/// What came of inserting a media packet in time.
proof fn lemma_main_yields<BP: BufferPool, Recv: Receiver<BP::P>>(
    decoder: DecoderView<BP, Recv>,
    seq: u16,
    packet: (BP::P, PacketStatus),
    backlog: Seq<BP::P>,
    after: DecoderView<BP, Recv>,
    backlog2: Seq<BP::P>,
    outcome: Outcome,
) -> (res: Result<Corrections<BP::P>, Refusal>)
    requires
        decoder.valid(),
        decoder.running matches Some((_, matrix)) && is_in_time(matrix.main, seq),
        decoder.inserts_main(seq, packet, backlog, after, backlog2, outcome),
    ensures
        yields(decoder.pool, (decoder.running->0).1.with_main(seq, packet), seq, res),
        match res {
            Ok(corrections) => {
                &&& backlog2 == queued(backlog, corrected(corrections))
                &&& outcome == Ok::<_, Refusal>(queues(backlog, corrected(corrections)))
            },
            Err(refusal) => backlog2 == backlog && outcome == Err::<
                Result<(), FecDecodeError>,
                _,
            >(refusal),
        },
{
    let (geometry, matrix) = decoder.running->0;
    lemma_limits(geometry, matrix);
    law_admits(matrix.main, seq);
    reveal(inserts);
    let (matrix2, recv2, res) = choose|
        matrix2: MatrixView<BP::P>,
        recv2: Recv,
        res: Result<Corrections<BP::P>, Refusal>,
    |
        {
            &&& #[trigger] inserts(
                decoder.pool,
                matrix,
                decoder.recv,
                seq,
                packet,
                matrix2,
                recv2,
                res,
            )
            &&& after == decoder.with_matrix(matrix2, recv2)
            &&& match res {
                Ok(corrections) => {
                    &&& backlog2 == queued(backlog, corrected(corrections))
                    &&& outcome == Ok::<_, Refusal>(queues(backlog, corrected(corrections)))
                },
                Err(refusal) => backlog2 == backlog && outcome == Err::<
                    Result<(), FecDecodeError>,
                    _,
                >(refusal),
            }
        };
    res
}

/// What is recovered where just one packet is missing.
proof fn lemma_yields_recovery<BP: BufferPool>(
    pool: BP,
    matrix: MatrixView<BP::P>,
    orientation: Orientation,
    seq: u16,
    fec_seq: u16,
    packets: Seq<Seq<u8>>,
    lost: int,
    res: Result<Corrections<BP::P>, Refusal>,
)
    requires
        is_legible(matrix.row),
        covers_first(matrix.fec_packets(orientation), fec_seq, seq),
        lacks_one(matrix, orientation, fec_seq, packets, lost),
        packets[lost].len() - 12 <= u16::MAX,
        packets[lost].len() <= pool.packet_size(),
        yields(pool, matrix, seq, res),
    ensures
        res matches Ok(corrections) ==> pool.may_allocate(None) || {
            let fresh = corrected(corrections);
            &&& fresh.len() > 0
            &&& orientation == Orientation::Row ==> fresh.last().bytes() == packets[lost]
            &&& orientation == Orientation::Column ==> fresh[0].bytes() == packets[lost]
            &&& is_uncovered(matrix.row, seq) ==> fresh.last().bytes() == packets[lost]
        },
{
    assert(matrix.covering(orientation, seq) == Ok::<Option<u16>, Refusal>(Some(fec_seq))) by {
        law_search_finds_first_cover(matrix, orientation, seq);
    }
    if is_uncovered(matrix.row, seq) {
        assert(matrix.covering(Orientation::Row, seq) == Ok::<Option<u16>, Refusal>(None)) by {
            law_search_finds_first_cover(matrix, Orientation::Row, seq);
        }
    }
    lemma_found_recovery(pool, matrix, orientation, seq, fec_seq, packets, lost, res);
}

/// What is recovered where just one packet is missing, and a FEC packet for it has been found.
proof fn lemma_found_recovery<BP: BufferPool>(
    pool: BP,
    matrix: MatrixView<BP::P>,
    orientation: Orientation,
    seq: u16,
    fec_seq: u16,
    packets: Seq<Seq<u8>>,
    lost: int,
    res: Result<Corrections<BP::P>, Refusal>,
)
    requires
        matrix.covering(orientation, seq) == Ok::<Option<u16>, Refusal>(Some(fec_seq)),
        lacks_one(matrix, orientation, fec_seq, packets, lost),
        packets[lost].len() - 12 <= u16::MAX,
        packets[lost].len() <= pool.packet_size(),
        yields(pool, matrix, seq, res),
    ensures
        res matches Ok(corrections) ==> pool.may_allocate(None) || {
            let fresh = corrected(corrections);
            &&& fresh.len() > 0
            &&& orientation == Orientation::Row ==> fresh.last().bytes() == packets[lost]
            &&& orientation == Orientation::Column ==> fresh[0].bytes() == packets[lost]
            &&& matrix.covering(Orientation::Row, seq) == Ok::<Option<u16>, Refusal>(None)
                ==> fresh.last().bytes() == packets[lost]
        },
{
    let (column, row) = lemma_yields(pool, matrix, seq, res);
    match orientation {
        Orientation::Row => {
            if column is Ok {
                law_single_loss_is_corrected(
                    pool,
                    matrix,
                    orientation,
                    fec_seq,
                    packets,
                    lost,
                    row,
                );
            }
        },
        Orientation::Column => {
            law_single_loss_is_corrected(
                pool,
                matrix,
                orientation,
                fec_seq,
                packets,
                lost,
                column,
            );
        },
    }
}

/// A media packet, received or recovered, that leaves just one packet missing of those that a FEC
/// packet for its row or column protects, brings about the recovery of that one: it is left to be
/// inserted, restored byte for byte, after what was waiting before.  Only an exhausted buffer pool
/// can keep that from happening.
pub proof fn law_inserted_packet_brings_recovery<BP: BufferPool, Recv: Receiver<BP::P>>(
    decoder: DecoderView<BP, Recv>,
    orientation: Orientation,
    seq: u16,
    packet: (BP::P, PacketStatus),
    fec_seq: u16,
    packets: Seq<Seq<u8>>,
    lost: int,
    backlog: Seq<BP::P>,
    after: DecoderView<BP, Recv>,
    backlog2: Seq<BP::P>,
    outcome: Outcome,
)
    requires
        decoder.valid(),
        decoder.running matches Some((_, matrix)) && {
            &&& is_in_time(matrix.main, seq)
            &&& covers_first(matrix.fec_packets(orientation), fec_seq, seq)
            &&& lacks_one(matrix.with_main(seq, packet), orientation, fec_seq, packets, lost)
        },
        packets[lost].len() - 12 <= u16::MAX,
        packets[lost].len() <= decoder.pool.packet_size(),
        backlog.len() <= 8,
        decoder.inserts_main(seq, packet, backlog, after, backlog2, outcome),
        outcome is Ok,
    ensures
        proceeds(outcome),
        backlog.len() <= backlog2.len() <= backlog.len() + 2,
        forall|i: int| 0 <= i < backlog.len() ==> #[trigger] backlog2[i] == backlog[i],
        decoder.pool.may_allocate(None) || {
            &&& backlog2.len() > backlog.len()
            &&& orientation == Orientation::Row ==> backlog2.last().bytes() == packets[lost]
            &&& orientation == Orientation::Column ==> backlog2[backlog.len() as int].bytes()
                == packets[lost]
            &&& is_uncovered((decoder.running->0).1.row, seq) ==> backlog2.last().bytes()
                == packets[lost]
        },
{
    let (geometry, matrix) = decoder.running->0;
    let stored = matrix.with_main(seq, packet);
    let res = lemma_main_yields(decoder, seq, packet, backlog, after, backlog2, outcome);
    lemma_legible(geometry, matrix);
    lemma_yields_recovery(decoder.pool, stored, orientation, seq, fec_seq, packets, lost, res);
    let fresh = corrected(res->Ok_0);
    assert(backlog2 =~= backlog + fresh);
    assert(fresh.len() > 0 ==> backlog2[backlog.len() as int] == fresh[0]);
}

/// Of the packets that wait to be inserted, the last is passed on first.
proof fn lemma_last_is_passed_on<BP: BufferPool, Recv: Receiver<BP::P>>(
    decoder: DecoderView<BP, Recv>,
    backlog: Seq<BP::P>,
    after: DecoderView<BP, Recv>,
    outcome: Outcome,
) -> (recovered: Seq<BP::P>)
    requires
        decoder.valid(),
        backlog.len() > 0,
        rtp_error(backlog.last().bytes()) is None,
        !decoder.holds(rtp_sequence(backlog.last().bytes())),
        decoder.running matches Some((_, matrix)) && is_in_time(
            matrix.main,
            rtp_sequence(backlog.last().bytes()),
        ),
        decoder.settles(backlog, after, outcome),
    ensures
        recovered.len() > 0,
        recovered[0] == backlog.last(),
        passes_on(decoder.recv, handed_on(Seq::empty(), recovered), after.recv),
{
    let none = Seq::<BP::P>::empty();
    let packet = backlog.last();
    let seq = rtp_sequence(packet.bytes());
    let item = (packet, PacketStatus::Recovered);
    let n = choose|n: nat| #[trigger] decoder.settles_within(n, backlog, after, outcome);
    let (after1, backlog1, outcome1) = choose|
        after1: DecoderView<BP, Recv>,
        backlog1: Seq<BP::P>,
        outcome1: Outcome,
    |
        {
            &&& #[trigger] decoder.inserts_main(
                seq,
                item,
                backlog.drop_last(),
                after1,
                backlog1,
                outcome1,
            )
            &&& if proceeds(outcome1) {
                after1.settles_within((n - 1) as nat, backlog1, after, outcome)
            } else {
                after == after1 && outcome == outcome1
            }
        };
    law_inserted_media_packet_is_stored(
        decoder,
        seq,
        item,
        backlog.drop_last(),
        after1,
        backlog1,
        outcome1,
    );
    lemma_passes_on_one(decoder.recv, item, after1.recv);
    assert(handed_on(none, none) =~= Seq::empty());
    let rest = if proceeds(outcome1) {
        lemma_settles_delivers(after1, (n - 1) as nat, backlog1, after, outcome)
    } else {
        none
    };
    lemma_passes_on_all(decoder.recv, seq![item], after1.recv, handed_on(none, rest), after.recv);
    let recovered = seq![packet] + rest;
    assert(handed_on(none, recovered) =~= seq![item] + handed_on(none, rest));
    recovered
}

/// A media packet that arrives when all the others that a FEC packet for its row protects are at
/// hand but one makes up for the loss of that one, and so does one for a column where no FEC packet
/// for its row covers it: the receiver gets the lost packet, restored byte for byte, right after
/// the one that arrived.  Only an exhausted buffer pool can keep that from happening.
pub proof fn law_media_packet_corrects_single_loss<BP: BufferPool, Recv: Receiver<BP::P>>(
    decoder: DecoderView<BP, Recv>,
    orientation: Orientation,
    packet: BP::P,
    fec_seq: u16,
    packets: Seq<Seq<u8>>,
    lost: int,
    after: DecoderView<BP, Recv>,
    outcome: Outcome,
)
    requires
        decoder.valid(),
        rtp_error(packet.bytes()) is None,
        decoder.running matches Some((_, matrix)) && {
            let seq = rtp_sequence(packet.bytes());
            let stored = matrix.with_main(seq, (packet, PacketStatus::Received));
            &&& is_in_time(matrix.main, seq)
            &&& covers_first(matrix.fec_packets(orientation), fec_seq, seq)
            &&& orientation == Orientation::Column ==> is_uncovered(matrix.row, seq)
            &&& lacks_one(stored, orientation, fec_seq, packets, lost)
        },
        packets[lost].len() - 12 <= u16::MAX,
        packets[lost].len() <= decoder.pool.packet_size(),
        decoder.takes(Stream::Main, packet, after, outcome),
        outcome is Ok,
    ensures
        decoder.pool.may_allocate(None) || exists|recovered: Seq<BP::P>|
            {
                &&& recovered.len() > 0
                &&& recovered[0].bytes() == packets[lost]
                &&& #[trigger] passes_on(
                    decoder.recv,
                    handed_on(seq![packet], recovered),
                    after.recv,
                )
            },
{
    let seq = rtp_sequence(packet.bytes());
    let item = (packet, PacketStatus::Received);
    let none = Seq::<BP::P>::empty();
    let (begun, backlog, outcome0) = lemma_main_begins(decoder, packet, after, outcome);
    law_inserted_media_packet_is_stored(decoder, seq, item, none, begun, backlog, outcome0);
    law_inserts_main_frame(decoder, seq, item, none, begun, backlog, outcome0);
    law_inserted_packet_brings_recovery(
        decoder,
        orientation,
        seq,
        item,
        fec_seq,
        packets,
        lost,
        none,
        begun,
        backlog,
        outcome0,
    );
    if !decoder.pool.may_allocate(None) {
        assert(rtp_error(packets[lost]) is None);
        let recovered = lemma_last_is_passed_on(begun, backlog, after, outcome);
        lemma_passes_on_one(decoder.recv, item, begun.recv);
        lemma_passes_on_all(
            decoder.recv,
            seq![item],
            begun.recv,
            handed_on(none, recovered),
            after.recv,
        );
        assert(handed_on(seq![packet], recovered) =~= seq![item] + handed_on(none, recovered));
        assert(passes_on(decoder.recv, handed_on(seq![packet], recovered), after.recv));
    }
}

/// A media packet that no FEC packet covers is stored and passed on, and that is all.
pub proof fn law_uncovered_media_packet<BP: BufferPool, Recv: Receiver<BP::P>>(
    decoder: DecoderView<BP, Recv>,
    packet: BP::P,
    after: DecoderView<BP, Recv>,
    outcome: Outcome,
)
    requires
        decoder.valid(),
        rtp_error(packet.bytes()) is None,
        decoder.running matches Some((_, matrix)) && {
            let seq = rtp_sequence(packet.bytes());
            &&& is_near(matrix.main, seq)
            &&& is_uncovered(matrix.row, seq)
            &&& is_uncovered(matrix.col, seq)
        },
    ensures
        decoder.takes(Stream::Main, packet, after, outcome) <==> {
            let item = (packet, PacketStatus::Received);
            &&& Recv::received(decoder.recv, seq![item], after.recv)
            &&& after == decoder.with_matrix(
                (decoder.running->0).1.with_main(rtp_sequence(packet.bytes()), item),
                after.recv,
            )
            &&& outcome == Ok::<_, Refusal>(Ok::<(), FecDecodeError>(()))
        },
{
    let seq = rtp_sequence(packet.bytes());
    let item = (packet, PacketStatus::Received);
    let none = Seq::<BP::P>::empty();
    let (geometry, matrix) = decoder.running->0;
    let stored = matrix.with_main(seq, item);
    let zero = Ok::<Corrections<BP::P>, Refusal>(Corrections::Zero);
    lemma_legible(geometry, matrix);
    lemma_limits(geometry, matrix);
    law_admits(matrix.main, seq);
    assert(queued(none, corrected(Corrections::<BP::P>::Zero)) =~= none);
    assert forall|
        matrix2: MatrixView<BP::P>,
        recv2: Recv,
        res: Result<Corrections<BP::P>, Refusal>,
    | #[trigger]
        inserts(decoder.pool, matrix, decoder.recv, seq, item, matrix2, recv2, res) <==> {
            &&& matrix2 == stored
            &&& Recv::received(decoder.recv, seq![item], recv2)
            &&& res == zero
        } by {
        law_insert_without_fec(
            decoder.pool,
            matrix,
            decoder.recv,
            seq,
            item,
            matrix2,
            recv2,
            res,
        );
    }
    if Recv::received(decoder.recv, seq![item], after.recv) && after == decoder.with_matrix(
        stored,
        after.recv,
    ) && proceeds(outcome) {
        assert(inserts(
            decoder.pool,
            matrix,
            decoder.recv,
            seq,
            item,
            stored,
            after.recv,
            zero,
        ));
        assert(decoder.inserts_main(seq, item, none, after, none, Ok(Ok(()))));
        assert(after.settles_within(0, none, after, Ok(Ok(()))));
    }
}

/// A FEC packet protects few media packets.
proof fn lemma_few_are_protected(geometry: FecGeometry, header: FecHeader)
    requires
        geometry.wf(),
        geometry.agrees_with(header),
    ensures
        header.number_associated * header.offset <= 0x8000,
{
    assert(header.number_associated * header.offset <= 20 * 255) by (nonlinear_arith)
        requires
            header.number_associated <= 20,
            header.offset <= 255,
    ;
}

/// A FEC packet that fits the geometry, but finds none or more than one missing of the media
/// packets that it protects, is stored, and that is all.
pub proof fn law_fec_packet_without_single_loss<BP: BufferPool, Recv: Receiver<BP::P>>(
    decoder: DecoderView<BP, Recv>,
    orientation: Orientation,
    packet: BP::P,
    after: DecoderView<BP, Recv>,
    outcome: Outcome,
)
    requires
        decoder.valid(),
        decoder.running matches Some((geometry, matrix)) && {
            let seq = rtp_sequence(packet.bytes());
            &&& fits_geometry(geometry, orientation, packet.bytes())
            &&& is_in_time(matrix.fec_packets(orientation), seq)
            &&& forall|lost: int|
                !is_only_missing(
                    matrix.with_fec(orientation, seq, packet),
                    fec_header(rtp_payload(packet.bytes())),
                    lost,
                )
        },
    ensures
        decoder.takes(Stream::Fec(orientation), packet, after, outcome) <==> {
            &&& after == decoder.with_matrix(
                (decoder.running->0).1.with_fec(
                    orientation,
                    rtp_sequence(packet.bytes()),
                    packet,
                ),
                decoder.recv,
            )
            &&& outcome == Ok::<_, Refusal>(Ok::<(), FecDecodeError>(()))
        },
{
    let seq = rtp_sequence(packet.bytes());
    let (geometry, matrix) = decoder.running->0;
    let stored = matrix.with_fec(orientation, seq, packet);
    let header = fec_header(rtp_payload(packet.bytes()));
    lemma_limits(geometry, matrix);
    law_fec_packets_are_read(orientation, packet.bytes());
    law_fec_data_is_readable(rtp_payload(packet.bytes()));
    assert(geometry.wf()) by {
        reveal(valid_matrix);
    }
    lemma_few_are_protected(geometry, header);
    let window = matrix.fec_packets(orientation);
    law_admits(window, seq);
    law_insert_reads_back(window, seq, (packet, PacketStatus::Received));
    law_one_missing_packet_can_be_recovered(stored, orientation, seq, packet);
    lemma_fec_packet_just_stored(decoder, orientation, packet, after, outcome);
}

/// A FEC packet that makes no recovery possible is stored, and that is all.
proof fn lemma_fec_packet_just_stored<BP: BufferPool, Recv: Receiver<BP::P>>(
    decoder: DecoderView<BP, Recv>,
    orientation: Orientation,
    packet: BP::P,
    after: DecoderView<BP, Recv>,
    outcome: Outcome,
)
    requires
        decoder.running matches Some((geometry, matrix)) && {
            let seq = rtp_sequence(packet.bytes());
            &&& fits_geometry(geometry, orientation, packet.bytes())
            &&& matrix.fec_packets(orientation).admits(seq)
            &&& matrix.with_fec(orientation, seq, packet).opportunity(orientation, seq) == Ok::<
                Option<Recovery>,
                Refusal,
            >(None)
        },
    ensures
        decoder.takes(Stream::Fec(orientation), packet, after, outcome) <==> {
            &&& after == decoder.with_matrix(
                (decoder.running->0).1.with_fec(
                    orientation,
                    rtp_sequence(packet.bytes()),
                    packet,
                ),
                decoder.recv,
            )
            &&& outcome == Ok::<_, Refusal>(Ok::<(), FecDecodeError>(()))
        },
{
    let seq = rtp_sequence(packet.bytes());
    let none = Seq::<BP::P>::empty();
    let (geometry, matrix) = decoder.running->0;
    let stored = matrix.with_fec(orientation, seq, packet);
    let nothing = Ok::<Option<BP::P>, Refusal>(None);
    assert forall|matrix2: MatrixView<BP::P>, res: Result<Option<BP::P>, Refusal>| #[trigger]
        inserts_fec(decoder.pool, matrix, orientation, seq, packet, matrix2, res) <==> {
            &&& matrix2 == stored
            &&& res == nothing
        } by {
        reveal(inserts_fec);
    }
    let begun = decoder.with_matrix(stored, decoder.recv);
    assert(inserts_fec(decoder.pool, matrix, orientation, seq, packet, stored, nothing));
    assert(decoder.inserts_fec(orientation, seq, packet, none, begun, none, Ok(Ok(()))));
    assert(begun.settles_within(0, none, begun, Ok(Ok(()))));
}

/// A packet that is recovered although the decoder holds it already, because there were two ways to
/// recover it, is left out: the receiver does not get it twice.
pub proof fn law_held_packets_are_left_out<BP: BufferPool, Recv: Receiver<BP::P>>(
    decoder: DecoderView<BP, Recv>,
    backlog: Seq<BP::P>,
    packet: BP::P,
    after: DecoderView<BP, Recv>,
    outcome: Outcome,
)
    requires
        rtp_error(packet.bytes()) is None,
        is_at_hand(decoder, rtp_sequence(packet.bytes())),
    ensures
        decoder.settles(backlog.push(packet), after, outcome) <==> decoder.settles(
            backlog,
            after,
            outcome,
        ),
{
    let more = backlog.push(packet);
    assert(more.drop_last() =~= backlog);
    if decoder.settles(more, after, outcome) {
        let n = choose|n: nat| #[trigger] decoder.settles_within(n, more, after, outcome);
        assert(decoder.settles_within((n - 1) as nat, backlog, after, outcome));
    }
    if decoder.settles(backlog, after, outcome) {
        let n = choose|n: nat| #[trigger] decoder.settles_within(n, backlog, after, outcome);
        assert(decoder.settles_within(n + 1, more, after, outcome));
    }
}

/// As long as no geometry is known, a FEC packet whose header does not give one that is allowed
/// changes nothing.
pub proof fn law_fec_packets_need_geometry<BP: BufferPool, Recv: Receiver<BP::P>>(
    decoder: DecoderView<BP, Recv>,
    orientation: Orientation,
    packet: BP::P,
    after: DecoderView<BP, Recv>,
    outcome: Outcome,
)
    requires
        decoder.running is None,
        is_fec_packet(packet.bytes()),
        ({
            let header = fec_header(rtp_payload(packet.bytes()));
            &&& header.orientation == orientation
            &&& !{
                &&& header.orientation == Orientation::Column
                &&& 4 <= header.offset <= 20
                &&& 4 <= header.number_associated <= 20
                &&& header.number_associated * header.offset <= 100
            }
        }),
    ensures
        decoder.takes(Stream::Fec(orientation), packet, after, outcome) <==> {
            &&& after == decoder
            &&& outcome == Ok::<_, Refusal>(Ok::<(), FecDecodeError>(()))
        },
{
    let none = Seq::<BP::P>::empty();
    let seq = rtp_sequence(packet.bytes());
    law_fec_packets_are_read(orientation, packet.bytes());
    law_other_headers_are_not_adopted(decoder, fec_header(rtp_payload(packet.bytes())));
    assert(decoder.inserts_fec(orientation, seq, packet, none, decoder, none, Ok(Ok(()))));
    assert(decoder.settles_within(0, none, decoder, Ok(Ok(()))));
}

/// A FEC packet for a column with an allowed geometry that the decoder does not have yet makes it
/// start anew: after that, the FEC packet is the only packet that it holds, and nothing has been
/// passed on.
pub proof fn law_column_packet_changes_geometry<BP: BufferPool, Recv: Receiver<BP::P>>(
    decoder: DecoderView<BP, Recv>,
    packet: BP::P,
    after: DecoderView<BP, Recv>,
    outcome: Outcome,
)
    requires
        decoder.valid(),
        is_fec_packet(packet.bytes()),
        ({
            let header = fec_header(rtp_payload(packet.bytes()));
            &&& header.orientation == Orientation::Column
            &&& 4 <= header.offset <= 20
            &&& 4 <= header.number_associated <= 20
            &&& header.number_associated * header.offset <= 100
            &&& decoder.running matches Some((geometry, _)) ==> geometry.l != header.offset
                || geometry.d != header.number_associated || geometry.fec_type
                != header.fec_type
        }),
        decoder.takes(Stream::Fec(Orientation::Column), packet, after, outcome),
    ensures
        outcome == Ok::<_, Refusal>(Ok::<(), FecDecodeError>(())),
        after.pool == decoder.pool,
        after.recv == decoder.recv,
        after.running matches Some((geometry, matrix)) && {
            let header = fec_header(rtp_payload(packet.bytes()));
            &&& geometry.l == header.offset
            &&& geometry.d == header.number_associated
            &&& geometry.fec_type == header.fec_type
            &&& matrix.main.limit == 2 * (header.number_associated * header.offset)
            &&& matrix.row.limit == header.number_associated
            &&& matrix.col.limit == header.offset
            &&& matrix.main.slots.len() == 0
            &&& matrix.row.slots.len() == 0
            &&& matrix.col.start == rtp_sequence(packet.bytes())
            &&& matrix.col.slots == seq![Some((packet, PacketStatus::Received))]
        },
{
    let seq = rtp_sequence(packet.bytes());
    let header = fec_header(rtp_payload(packet.bytes()));
    law_fec_packets_are_read(Orientation::Column, packet.bytes());
    law_allowed_column_header_is_adopted(decoder, header);
    law_merged_agrees(decoder, header);
    let merged = decoder.merged(header)->Ok_0;
    let (geometry, matrix) = merged.running->0;
    let stored = matrix.with_fec(Orientation::Column, seq, packet);
    assert forall|lost: int| !is_only_missing(stored, header, lost) by {}
    law_allowed_column_header_is_adopted(merged, header);
    assert(merged.takes(Stream::Fec(Orientation::Column), packet, after, outcome));
    law_fec_packet_without_single_loss(merged, Orientation::Column, packet, after, outcome);
    assert(stored.col.slots =~= seq![Some((packet, PacketStatus::Received))]);
}

/// A packet is inserted where it belongs, a FEC packet after its header has been taken into
/// account; then those that it makes it possible to recover are.  The first that cannot be
/// processed ends that, and is what comes out.
pub proof fn law_recovered_packets_follow<BP: BufferPool, Recv: Receiver<BP::P>>(
    decoder: DecoderView<BP, Recv>,
    orientation: Orientation,
    packet: BP::P,
    after: DecoderView<BP, Recv>,
    outcome: Outcome,
)
    requires
        rtp_error(packet.bytes()) is None,
    ensures
        decoder.takes(Stream::Main, packet, after, outcome) <==> exists|
            begun: DecoderView<BP, Recv>,
            backlog: Seq<BP::P>,
            outcome0: Outcome,
        |
            {
                &&& #[trigger] decoder.inserts_main(
                    rtp_sequence(packet.bytes()),
                    (packet, PacketStatus::Received),
                    Seq::empty(),
                    begun,
                    backlog,
                    outcome0,
                )
                &&& if proceeds(outcome0) {
                    begun.settles(backlog, after, outcome)
                } else {
                    after == begun && outcome == outcome0
                }
            },
        is_fec_packet(packet.bytes()) && fec_header(rtp_payload(packet.bytes())).orientation
            == orientation ==> match decoder.merged(fec_header(rtp_payload(packet.bytes()))) {
            Ok(merged) => decoder.takes(Stream::Fec(orientation), packet, after, outcome)
                <==> exists|
                begun: DecoderView<BP, Recv>,
                backlog: Seq<BP::P>,
                outcome0: Outcome,
            |
                {
                    &&& #[trigger] merged.inserts_fec(
                        orientation,
                        rtp_sequence(packet.bytes()),
                        packet,
                        Seq::empty(),
                        begun,
                        backlog,
                        outcome0,
                    )
                    &&& if proceeds(outcome0) {
                        begun.settles(backlog, after, outcome)
                    } else {
                        after == begun && outcome == outcome0
                    }
                },
            Err(refusal) => decoder.takes(Stream::Fec(orientation), packet, after, outcome) <==> {
                &&& after == decoder
                &&& outcome == Err::<Result<(), FecDecodeError>, _>(refusal)
            },
        },
{
    law_fec_packets_are_read(orientation, packet.bytes());
}

/// Recovered packets are inserted one after the other, the last that was recovered first, until
/// none is left; the first that cannot be processed ends that, and is what comes out.
pub proof fn law_recovered_packets_take_turns<BP: BufferPool, Recv: Receiver<BP::P>>(
    decoder: DecoderView<BP, Recv>,
    backlog: Seq<BP::P>,
    packet: BP::P,
    after: DecoderView<BP, Recv>,
    outcome: Outcome,
)
    ensures
        decoder.settles(Seq::empty(), after, outcome) <==> {
            &&& after == decoder
            &&& outcome == Ok::<_, Refusal>(Ok::<(), FecDecodeError>(()))
        },
        rtp_error(packet.bytes()) matches Some(error) ==> (decoder.settles(
            backlog.push(packet),
            after,
            outcome,
        ) <==> {
            &&& after == decoder
            &&& outcome == Ok::<_, Refusal>(Err::<(), _>(FecDecodeError::Rtp(error)))
        }),
        rtp_error(packet.bytes()) is None && !is_at_hand(
            decoder,
            rtp_sequence(packet.bytes()),
        ) ==> (decoder.settles(backlog.push(packet), after, outcome) <==> exists|
            after1: DecoderView<BP, Recv>,
            backlog1: Seq<BP::P>,
            outcome1: Outcome,
        |
            {
                &&& #[trigger] decoder.inserts_main(
                    rtp_sequence(packet.bytes()),
                    (packet, PacketStatus::Recovered),
                    backlog,
                    after1,
                    backlog1,
                    outcome1,
                )
                &&& if proceeds(outcome1) {
                    after1.settles(backlog1, after, outcome)
                } else {
                    after == after1 && outcome == outcome1
                }
            }),
{
    let none = Seq::<BP::P>::empty();
    let more = backlog.push(packet);
    assert(more.drop_last() =~= backlog);
    assert(more.last() == packet);
    if after == decoder && proceeds(outcome) {
        assert(decoder.settles_within(0, none, decoder, Ok(Ok(()))));
    }
    if let Some(error) = rtp_error(packet.bytes()) {
        assert(decoder.settles_within(0, more, decoder, Ok(Err(FecDecodeError::Rtp(error)))));
    } else if !decoder.holds(rtp_sequence(packet.bytes())) {
        if decoder.settles(more, after, outcome) {
            let n = choose|n: nat| #[trigger] decoder.settles_within(n, more, after, outcome);
            let (after1, backlog1, outcome1) = choose|
                after1: DecoderView<BP, Recv>,
                backlog1: Seq<BP::P>,
                outcome1: Outcome,
            |
                {
                    &&& #[trigger] decoder.inserts_main(
                        rtp_sequence(packet.bytes()),
                        (packet, PacketStatus::Recovered),
                        backlog,
                        after1,
                        backlog1,
                        outcome1,
                    )
                    &&& if proceeds(outcome1) {
                        after1.settles_within((n - 1) as nat, backlog1, after, outcome)
                    } else {
                        after == after1 && outcome == outcome1
                    }
                };
            if proceeds(outcome1) {
                assert(after1.settles(backlog1, after, outcome));
            }
        }
        if exists|after1: DecoderView<BP, Recv>, backlog1: Seq<BP::P>, outcome1: Outcome|
            {
                &&& #[trigger] decoder.inserts_main(
                    rtp_sequence(packet.bytes()),
                    (packet, PacketStatus::Recovered),
                    backlog,
                    after1,
                    backlog1,
                    outcome1,
                )
                &&& if proceeds(outcome1) {
                    after1.settles(backlog1, after, outcome)
                } else {
                    after == after1 && outcome == outcome1
                }
            } {
            let (after1, backlog1, outcome1) = choose|
                after1: DecoderView<BP, Recv>,
                backlog1: Seq<BP::P>,
                outcome1: Outcome,
            |
                {
                    &&& #[trigger] decoder.inserts_main(
                        rtp_sequence(packet.bytes()),
                        (packet, PacketStatus::Recovered),
                        backlog,
                        after1,
                        backlog1,
                        outcome1,
                    )
                    &&& if proceeds(outcome1) {
                        after1.settles(backlog1, after, outcome)
                    } else {
                        after == after1 && outcome == outcome1
                    }
                };
            if proceeds(outcome1) {
                let n = choose|n: nat| #[trigger]
                    after1.settles_within(n, backlog1, after, outcome);
                assert(decoder.settles_within(n + 1, more, after, outcome));
            } else {
                assert(decoder.settles_within(1, more, after, outcome));
            }
        }
    }
}

/// What the decoder holds after a packet has been inserted, it held before, but for that packet.
proof fn lemma_holds_no_more<BP: BufferPool, Recv: Receiver<BP::P>>(
    decoder: DecoderView<BP, Recv>,
    seq: u16,
    packet: (BP::P, PacketStatus),
    backlog: Seq<BP::P>,
    after: DecoderView<BP, Recv>,
    backlog2: Seq<BP::P>,
    outcome: Outcome,
    other: u16,
)
    requires
        decoder.valid(),
        decoder.inserts_main(seq, packet, backlog, after, backlog2, outcome),
        after.holds(other),
        other != seq,
    ensures
        decoder.holds(other),
{
    if let Some((geometry, matrix)) = decoder.running {
        lemma_limits(geometry, matrix);
        reveal(inserts);
        if matrix.main.admits(seq) {
            law_window_holds_the_most_recent(
                matrix.main,
                seq,
                (packet.0.bytes(), packet.1),
                other,
            );
        }
    }
}

/// The packets that are passed on while those in the backlog are inserted without an error.
proof fn lemma_waiting_are_passed_on<BP: BufferPool, Recv: Receiver<BP::P>>(
    decoder: DecoderView<BP, Recv>,
    n: nat,
    backlog: Seq<BP::P>,
    after: DecoderView<BP, Recv>,
    outcome: Outcome,
) -> (recovered: Seq<BP::P>)
    requires
        decoder.valid(),
        decoder.settles_within(n, backlog, after, outcome),
        proceeds(outcome),
    ensures
        passes_on(decoder.recv, handed_on(Seq::empty(), recovered), after.recv),
        forall|i: int|
            0 <= i < backlog.len() ==> decoder.holds(rtp_sequence((#[trigger] backlog[i]).bytes()))
                || has_number(recovered, rtp_sequence(backlog[i].bytes())),
    decreases n,
{
    let none = Seq::<BP::P>::empty();
    assert(handed_on(none, none) =~= Seq::empty());
    if backlog.len() == 0 || rtp_error(backlog.last().bytes()) is Some {
        none
    } else if decoder.holds(rtp_sequence(backlog.last().bytes())) {
        let rest = backlog.drop_last();
        let recovered = lemma_waiting_are_passed_on(
            decoder,
            (n - 1) as nat,
            rest,
            after,
            outcome,
        );
        assert forall|i: int| 0 <= i < backlog.len() implies decoder.holds(
            rtp_sequence((#[trigger] backlog[i]).bytes()),
        ) || has_number(recovered, rtp_sequence(backlog[i].bytes())) by {
            if i < rest.len() {
                assert(rest[i] == backlog[i]);
            }
        }
        recovered
    } else {
        let packet = backlog.last();
        let seq = rtp_sequence(packet.bytes());
        let item = (packet, PacketStatus::Recovered);
        let waiting = backlog.drop_last();
        let (after1, backlog1, outcome1) = choose|
            after1: DecoderView<BP, Recv>,
            backlog1: Seq<BP::P>,
            outcome1: Outcome,
        |
            {
                &&& #[trigger] decoder.inserts_main(
                    seq,
                    item,
                    waiting,
                    after1,
                    backlog1,
                    outcome1,
                )
                &&& if proceeds(outcome1) {
                    after1.settles_within((n - 1) as nat, backlog1, after, outcome)
                } else {
                    after == after1 && outcome == outcome1
                }
            };
        lemma_inserts_main_delivers(decoder, seq, item, waiting, after1, backlog1, outcome1);
        law_inserts_main_frame(decoder, seq, item, waiting, after1, backlog1, outcome1);
        lemma_passes_on_one(decoder.recv, item, after1.recv);
        let rest = lemma_waiting_are_passed_on(
            after1,
            (n - 1) as nat,
            backlog1,
            after,
            outcome,
        );
        lemma_passes_on_all(
            decoder.recv,
            seq![item],
            after1.recv,
            handed_on(none, rest),
            after.recv,
        );
        let recovered = seq![packet] + rest;
        assert(handed_on(none, recovered) =~= seq![item] + handed_on(none, rest));
        assert forall|i: int| 0 <= i < backlog.len() implies decoder.holds(
            rtp_sequence((#[trigger] backlog[i]).bytes()),
        ) || has_number(recovered, rtp_sequence(backlog[i].bytes())) by {
            let number = rtp_sequence(backlog[i].bytes());
            if number == seq {
                assert(rtp_sequence(recovered[0].bytes()) == number);
            } else {
                assert(backlog1[i] == backlog[i]);
                if after1.holds(number) {
                    lemma_holds_no_more(
                        decoder,
                        seq,
                        item,
                        waiting,
                        after1,
                        backlog1,
                        outcome1,
                        number,
                    );
                } else {
                    let j = choose|j: int|
                        0 <= j < rest.len() && rtp_sequence((#[trigger] rest[j]).bytes()) == number;
                    assert(recovered[j + 1] == rest[j]);
                }
            }
        }
        recovered
    }
}

/// Whether the decoder has an entry for the given sequence number that is not a placeholder.
pub open spec fn is_at_hand<BP: BufferPool, Recv: Receiver<BP::P>>(
    decoder: DecoderView<BP, Recv>,
    seq: u16,
) -> bool {
    &&& decoder.running matches Some((_, matrix))
    &&& 0 <= seq_diff(seq, matrix.main.start) < matrix.main.slots.len()
    &&& matrix.main.slots[seq_diff(seq, matrix.main.start)] is Some
}

/// Whether there is a packet with the given sequence number among `packets`.
pub open spec fn has_number<P: Packet>(packets: Seq<P>, number: u16) -> bool {
    exists|j: int|
        0 <= j < packets.len() && rtp_sequence((#[trigger] packets[j]).bytes()) == number
}

/// No recovered packet gets lost on the way: unless the decoder reports an error, all those that
/// wait to be inserted are passed on, but for those that the decoder holds already or that another
/// packet with the same number makes superfluous.
pub proof fn law_waiting_packets_are_passed_on<BP: BufferPool, Recv: Receiver<BP::P>>(
    decoder: DecoderView<BP, Recv>,
    backlog: Seq<BP::P>,
    after: DecoderView<BP, Recv>,
    outcome: Outcome,
)
    requires
        decoder.valid(),
        decoder.settles(backlog, after, outcome),
        proceeds(outcome),
    ensures
        exists|recovered: Seq<BP::P>|
            {
                &&& #[trigger] passes_on(
                    decoder.recv,
                    handed_on(Seq::empty(), recovered),
                    after.recv,
                )
                &&& forall|i: int|
                    0 <= i < backlog.len() ==> is_at_hand(
                        decoder,
                        rtp_sequence((#[trigger] backlog[i]).bytes()),
                    ) || has_number(recovered, rtp_sequence(backlog[i].bytes()))
            },
{
    let n = choose|n: nat| #[trigger] decoder.settles_within(n, backlog, after, outcome);
    let recovered = lemma_waiting_are_passed_on(decoder, n, backlog, after, outcome);
    assert(passes_on(decoder.recv, handed_on(Seq::empty(), recovered), after.recv));
}

} // verus!
