//! Why the recoveries that recovered packets make possible come to an end.
//!
//! Each recovered packet may make the recovery of up to two others possible, so that it is not
//! obvious that no more are left at some time.  The reasons are these.
//!
//!  - The packet that has been recovered last is inserted first, while nothing has changed since its
//!    recovery.  So it is stored, and the FEC packet by means of which it was recovered is *closed*:
//!    none of the media packets that it protects is missing any more, other than such as come before
//!    the first entry of the window.
//!  - A closed FEC packet stays closed.  This depends on sequence numbers not wrapping around.  A FEC
//!    packet protects at most 20 media packets, at most 255 apart, that is a span of 5100.  Media
//!    packets are counted by their *place*, which is their distance from some origin, and no place
//!    in use ever exceeds [`FARTHEST`], so that together with the spans on either side less than
//!    half a turn is in use.
//!  - A packet that is recovered by means of a FEC packet for a row lies at most 454 places after the
//!    first entry of the window: 200 entries at most, and another 255 places after the last of them
//!    to the next one protected.  So the window moves on by less than 455 places with each of at most
//!    20 FEC packets for rows that gets closed, and likewise by less than 21 places with each of at
//!    most 20 FEC packets for columns.  This makes 9520 places in all.
//!  - Packets that wait while others are inserted may by then come before the first entry of the
//!    window.  They are dropped, and may even make the window start anew, which opens FEC packets
//!    again.  But all that can be waiting by then lies within 9520 places, and it takes more dropped
//!    packets than can still turn up to make the window start anew a second time.
//!
//! What is inserted first of all may lie anywhere in the sequence, but then the only other packet
//! waiting is less than 5200 places away from it, and from the first entry of the window, which has
//! at most 200, less than 5400.

use crate::correction::{
    corrections_of, fec_in, first_covering, inserts, inserts_fec, lemma_missing_among,
    lemma_recovered_sequence, missing_among, takes_up, yields, Corrections, MatrixView,
};
use crate::decoding::{
    corrected, fec_packet, fits_geometry, law_inserts_fec_packet_frame, law_inserts_main_frame,
    law_merged_agrees, lemma_limits, queued, queues, valid_matrix, DecoderView, Outcome, Stream,
};
use crate::error::FecDecodeError;
use crate::fec::{fec_header, FecHeader, Orientation};
use crate::geometry::FecGeometry;
use crate::packet::{BufferPool, Packet, PacketStatus, Receiver};
use crate::recovery::Refusal;
use crate::rtp::{rtp_payload, rtp_sequence};
use crate::sequence::{lemma_seq_add_add, seq_add, seq_diff, seq_lt};
use crate::window::{
    law_admits, law_insert_keeps_others, law_insert_reads_back, lemma_early, lemma_rest, Window,
    SEQ_GONE_BACKWARDS_LIMIT,
};
use vstd::prelude::*;

verus! {

/// Whether there is a FEC packet in the given place.
spec fn has_fec<P: Packet>(matrix: MatrixView<P>, orientation: Orientation, index: int) -> bool {
    let slots = matrix.fec_packets(orientation).slots;
    0 <= index < slots.len() && slots[index] is Some
}

/// The header of the FEC packet in the given place.
spec fn header_at<P: Packet>(
    matrix: MatrixView<P>,
    orientation: Orientation,
    index: int,
) -> FecHeader {
    fec_header(rtp_payload((matrix.fec_packets(orientation).slots[index]->0).0.bytes()))
}

/// Whether the FEC packet in the given place makes the recovery of `seq` possible.
spec fn aims_at<P: Packet>(
    matrix: MatrixView<P>,
    orientation: Orientation,
    index: int,
    seq: u16,
) -> bool {
    &&& has_fec(matrix, orientation, index)
    &&& matrix.main.slots.len() > 0
    &&& missing_among(matrix.main, header_at(matrix, orientation, index).associated()) == seq![seq]
}

/// Whether a header protects no more media packets than those of a matrix can.
spec fn is_fair(header: FecHeader) -> bool {
    &&& header.offset > 0
    &&& 4 <= header.number_associated <= 20
    &&& 0 < header.number_associated * header.offset <= 5100
}

/// What is known of the headers of the FEC packets in a matrix.
proof fn lemma_header<P: Packet>(
    geometry: FecGeometry,
    matrix: MatrixView<P>,
    orientation: Orientation,
    index: int,
)
    requires
        valid_matrix(geometry, matrix),
        has_fec(matrix, orientation, index),
    ensures
        ({
            let header = header_at(matrix, orientation, index);
            let packet = (matrix.fec_packets(orientation).slots[index]->0).0.bytes();
            &&& fec_in(packet) == Ok::<Option<Seq<u8>>, Refusal>(Some(rtp_payload(packet)))
            &&& is_fair(header)
            &&& orientation == Orientation::Column ==> {
                &&& header.offset == geometry.l
                &&& header.number_associated * header.offset <= 100
            }
        }),
{
    reveal(valid_matrix);
    let header = header_at(matrix, orientation, index);
    let packet = (matrix.fec_packets(orientation).slots[index]->0).0;
    match orientation {
        Orientation::Row => {
            let f = |pk: P| fits_geometry(geometry, Orientation::Row, pk.bytes());
            assert(matrix.row.every(f));
            assert(f(packet));
        },
        Orientation::Column => {
            let f = |pk: P| fits_geometry(geometry, Orientation::Column, pk.bytes());
            assert(matrix.col.every(f));
            assert(f(packet));
        },
    }
    let (n, offset) = (header.number_associated, header.offset);
    assert(0 < n * offset <= 5100) by (nonlinear_arith)
        requires
            4 <= n <= 20,
            0 < offset <= 255,
    ;
    if orientation == Orientation::Column {
        assert(n * offset == geometry.l * geometry.d) by (nonlinear_arith)
            requires
                n == geometry.d,
                offset == geometry.l,
        ;
    }
}

/// The FEC packet found first does cover what was looked for.
proof fn lemma_first_covering<P: Packet>(slots: Seq<Option<(P, PacketStatus)>>, seq: u16)
    ensures
        first_covering(slots, seq) matches Ok(Some(index)) ==> {
            &&& 0 <= index < slots.len()
            &&& slots[index] matches Some((packet, _))
            &&& fec_in(packet.bytes()) matches Ok(Some(data)) && fec_header(data).covers(seq)
        },
    decreases slots.len(),
{
    if slots.len() > 0 {
        lemma_first_covering(slots.drop_last(), seq);
    }
}

/// An entry is found under its own sequence number.
proof fn lemma_get_at<P>(window: Window<P>, index: int)
    requires
        0 <= index < window.slots.len() <= 0x8000,
    ensures
        window.get(window.seq_at(index)) == window.slots[index],
{
}

/// Where a packet is recovered around `seq`, a FEC packet that covers `seq` makes its recovery
/// possible.
proof fn lemma_recovered_around<BP: BufferPool>(
    pool: BP,
    geometry: FecGeometry,
    matrix: MatrixView<BP::P>,
    orientation: Orientation,
    seq: u16,
    packet: BP::P,
) -> (index: int)
    requires
        valid_matrix(geometry, matrix),
        takes_up(pool, matrix.opportunity_around(orientation, seq), Ok(Some(packet))),
    ensures
        aims_at(matrix, orientation, index, rtp_sequence(packet.bytes())),
        header_at(matrix, orientation, index).covers(seq),
{
    let fec_packets = matrix.fec_packets(orientation);
    lemma_limits(geometry, matrix);
    lemma_first_covering(fec_packets.slots, seq);
    let index = first_covering(fec_packets.slots, seq)->Ok_0->0;
    lemma_get_at(fec_packets, index);
    let recovery = matrix.opportunity_around(orientation, seq)->Ok_0->0;
    lemma_recovered_sequence(pool, recovery, packet);
    let data = fec_in((fec_packets.slots[index]->0).0.bytes())->Ok_0->0;
    let missing = missing_among(matrix.main, fec_header(data).associated());
    assert(missing =~= seq![missing[0]]);
    index
}

/// How far `seq` lies after `origin`, or before it where that is at most a quarter of a turn.
spec fn place(origin: u16, seq: u16) -> int {
    let ahead = (seq - origin) % 0x1_0000;
    if ahead < 0xc000 {
        ahead
    } else {
        ahead - 0x1_0000
    }
}

/// The farthest place that is reached while recovered packets are inserted.
const FARTHEST: u16 = 25000;

/// Whether the media packets that a FEC packet protects lie so near to the places in use that they
/// are told apart by their places.
#[verifier::opaque]
spec fn near(origin: u16, header: FecHeader) -> bool {
    forall|i: int|
        0 <= i < header.associated().len() ==> -5100 <= place(
            origin,
            #[trigger] header.associated()[i],
        ) <= FARTHEST + 5100
}

/// What a FEC packet covers lies within its span.
proof fn lemma_covered(header: FecHeader, seq: u16)
    requires
        is_fair(header),
        header.covers(seq),
    ensures
        header.associated().len() == header.number_associated,
        forall|i: int|
            0 <= i < header.associated().len() ==> -(header.number_associated * header.offset)
                < seq_diff(#[trigger] header.associated()[i], seq) < header.number_associated
                * header.offset,
{
    let n = header.number_associated as int;
    let offset = header.offset as int;
    let span = n * offset;
    let ahead = -seq_diff(header.sn_start(), seq);
    assert(0 <= ahead < span);
    assert forall|i: int| 0 <= i < header.associated().len() implies -span < seq_diff(
        #[trigger] header.associated()[i],
        seq,
    ) < span by {
        assert(0 <= i * offset < span) by (nonlinear_arith)
            requires
                0 <= i < n,
                offset > 0,
                span == n * offset,
        ;
        assert(seq_diff(header.associated()[i], seq) == i * offset - ahead);
    }
}

/// Moving a little from one of the places in use moves the place as much.
proof fn lemma_place_moves(origin: u16, a: u16, b: u16)
    requires
        -5100 < seq_diff(a, b) < 5100,
        0 <= place(origin, b) <= FARTHEST,
    ensures
        place(origin, a) == place(origin, b) + seq_diff(a, b),
{
}

/// A FEC packet that covers one of the places in use protects media packets that are near.
proof fn lemma_covering_is_near(origin: u16, header: FecHeader, seq: u16)
    requires
        is_fair(header),
        header.covers(seq),
        0 <= place(origin, seq) <= FARTHEST,
    ensures
        near(origin, header),
{
    reveal(near);
    lemma_covered(header, seq);
    assert forall|i: int| 0 <= i < header.associated().len() implies -5100 <= place(
        origin,
        #[trigger] header.associated()[i],
    ) <= FARTHEST + 5100 by {
        lemma_place_moves(origin, header.associated()[i], seq);
    }
}

/// Places tell which of two sequence numbers comes first.
proof fn lemma_places_ordered(origin: u16, a: u16, b: u16)
    requires
        -5100 <= place(origin, a) <= FARTHEST + 5100,
        0 <= place(origin, b) <= FARTHEST,
    ensures
        seq_diff(a, b) == place(origin, a) - place(origin, b),
{
}

/// Moving a little between places moves the place as much.
proof fn lemma_place_step(origin: u16, seq: u16, step: int)
    requires
        -5100 <= place(origin, seq) <= FARTHEST + 5100,
        0 <= step <= 255,
    ensures
        place(origin, seq_add(seq, step)) == place(origin, seq) + step,
{
}

/// The neighbour of a media packet among those that a FEC packet protects.
proof fn lemma_neighbour(origin: u16, header: FecHeader, i: int)
    requires
        is_fair(header),
        near(origin, header),
        0 <= i < header.associated().len() - 1,
    ensures
        place(origin, header.associated()[i + 1]) == place(origin, header.associated()[i])
            + header.offset,
{
    reveal(near);
    let offset = header.offset as int;
    let a = header.associated()[i];
    let b = header.associated()[i + 1];
    assert((i + 1) * offset == i * offset + offset) by (nonlinear_arith);
    lemma_seq_add_add(header.sn_start(), i * offset, offset);
    lemma_place_step(origin, a, offset);
}

/// A packet whose recovery becomes possible is not far from the entries of the window.
proof fn lemma_aim<P>(origin: u16, window: Window<P>, header: FecHeader, seq: u16)
    requires
        is_fair(header),
        near(origin, header),
        window.slots.len() > 0,
        missing_among(window, header.associated()) == seq![seq],
        0 <= place(origin, window.start) <= FARTHEST,
    ensures
        place(origin, window.start) <= place(origin, seq),
        place(origin, seq) < place(origin, window.start) + window.slots.len() + header.offset,
        !window.too_early(seq),
{
    reveal(near);
    let seqs = header.associated();
    let missing = missing_among(window, seqs);
    lemma_missing_among(window, seqs);
    assert(missing[0] == seq);
    assert(missing.contains(seq));
    let i = choose|i: int| 0 <= i < seqs.len() && seqs[i] == seq;
    lemma_places_ordered(origin, seqs[i], window.start);
    let k = if i > 0 {
        i - 1
    } else {
        1
    };
    if i > 0 {
        lemma_neighbour(origin, header, i - 1);
    } else {
        lemma_neighbour(origin, header, 0);
    }
    let other = seqs[k];
    assert(seqs.contains(other));
    assert(!missing.contains(other));
    lemma_places_ordered(origin, other, window.start);
}

/// How a packet that does not come before the first entry is stored.
proof fn lemma_stored<P>(origin: u16, window: Window<P>, seq: u16, packet: (P, PacketStatus))
    requires
        window.valid(),
        window.limit <= 200,
        window.slots.len() > 0,
        0 <= place(origin, window.start) <= place(origin, seq) <= FARTHEST,
    ensures
        ({
            let after = window.insert(seq, packet);
            let ahead = place(origin, seq) - place(origin, window.start);
            &&& !window.too_early(seq)
            &&& window.admits(seq)
            &&& !window.restarts(seq)
            &&& after.valid()
            &&& after.limit == window.limit
            &&& after.slots.len() > 0
            &&& after.get(seq) == Some(packet)
            &&& after.early <= window.early
            &&& place(origin, window.start) <= place(origin, after.start) <= place(origin, seq)
            &&& ahead < window.limit + window.slots.len() - 1 ==> {
                &&& after.early == 0
                &&& place(origin, after.start) == place(origin, window.start) || place(
                    origin,
                    after.start,
                ) <= place(origin, seq) - window.limit + 1
            }
        }),
{
    lemma_places_ordered(origin, seq, window.start);
    law_admits(window, seq);
    lemma_rest(window, seq);
    law_insert_reads_back(window, seq, packet);
    let n = window.outdated(seq);
    let rest = window.skip(n);
    if rest.slots.len() > 0 {
        lemma_place_advances(origin, window.start, n);
    }
}

/// Moving on to another of the places in use.
proof fn lemma_place_advances(origin: u16, seq: u16, n: int)
    requires
        0 <= place(origin, seq) <= place(origin, seq) + n <= FARTHEST,
        n >= 0,
    ensures
        place(origin, seq_add(seq, n)) == place(origin, seq) + n,
{
}

/// How a packet that comes before the first entry is dropped.
proof fn lemma_dropped<P>(origin: u16, window: Window<P>, seq: u16, packet: (P, PacketStatus))
    requires
        window.valid(),
        window.limit <= 200,
        window.slots.len() > 0,
        0 <= place(origin, seq) < place(origin, window.start) <= FARTHEST,
    ensures
        window.too_early(seq),
        window.admits(seq),
        window.insert(seq, packet) == if window.early + 1 >= SEQ_GONE_BACKWARDS_LIMIT {
            window.cleared()
        } else {
            Window { early: window.early + 1, ..window }
        },
{
    lemma_places_ordered(origin, seq, window.start);
    law_admits(window, seq);
    lemma_early(window, seq);
}

/// Whether any of the media packets that a FEC packet protects are missing.
spec fn is_open<P>(window: Window<P>, header: FecHeader) -> bool {
    missing_among(window, header.associated()).len() > 0
}

/// Once none of the media packets that a FEC packet protects are missing, that stays so.
proof fn lemma_stays_closed<P>(
    origin: u16,
    window: Window<P>,
    header: FecHeader,
    seq: u16,
    packet: (P, PacketStatus),
)
    requires
        near(origin, header),
        window.valid(),
        window.limit <= 200,
        window.slots.len() > 0,
        0 <= place(origin, window.start) <= place(origin, seq) <= FARTHEST,
        !is_open(window, header) || missing_among(window, header.associated()) == seq![seq],
    ensures
        !is_open(window.insert(seq, packet), header),
{
    reveal(near);
    let after = window.insert(seq, packet);
    let seqs = header.associated();
    lemma_stored(origin, window, seq, packet);
    lemma_missing_among(window, seqs);
    lemma_missing_among(after, seqs);
    let before_missing = missing_among(window, seqs);
    let missing = missing_among(after, seqs);
    if missing.len() > 0 {
        let other = missing[0];
        assert(missing.contains(other));
        let i = choose|i: int| 0 <= i < seqs.len() && seqs[i] == other;
        assert(-5100 <= place(origin, seqs[i]) <= FARTHEST + 5100);
        lemma_places_ordered(origin, other, after.start);
        lemma_places_ordered(origin, other, window.start);
        if before_missing.contains(other) {
            assert(before_missing[0] == seq);
            assert(other == seq);
        }
        lemma_rest(window, seq);
        lemma_places_ordered(origin, seq, window.start);
        law_insert_keeps_others(window, seq, packet, other);
        let n = window.outdated(seq);
        if n < window.slots.len() {
            lemma_place_advances(origin, window.start, n);
        }
    }
}

/// What is missing depends on the entries alone.
proof fn lemma_missing_same<P>(a: Window<P>, b: Window<P>, seqs: Seq<u16>)
    requires
        a.start == b.start,
        a.slots == b.slots,
    ensures
        missing_among(a, seqs) == missing_among(b, seqs),
    decreases seqs.len(),
{
    if seqs.len() > 0 {
        lemma_missing_same(a, b, seqs.drop_last());
    }
}

/// Whether a slot holds a FEC packet near the places in use that protects missing media packets.
spec fn counts<P: Packet>(
    origin: u16,
    window: Window<Seq<u8>>,
    slot: Option<(P, PacketStatus)>,
) -> bool {
    &&& slot matches Some((packet, _))
    &&& near(origin, fec_header(rtp_payload(packet.bytes())))
    &&& is_open(window, fec_header(rtp_payload(packet.bytes())))
}

/// The number of FEC packets near the places in use that protect missing media packets.
spec fn open_count<P: Packet>(
    origin: u16,
    window: Window<Seq<u8>>,
    slots: Seq<Option<(P, PacketStatus)>>,
) -> nat
    decreases slots.len(),
{
    if slots.len() == 0 {
        0
    } else {
        open_count(origin, window, slots.drop_last()) + if counts(origin, window, slots.last()) {
            1nat
        } else {
            0
        }
    }
}

/// There are no more FEC packets of a kind than there are FEC packets.
proof fn lemma_open_count_bound<P: Packet>(
    origin: u16,
    window: Window<Seq<u8>>,
    slots: Seq<Option<(P, PacketStatus)>>,
)
    ensures
        open_count(origin, window, slots) <= slots.len(),
    decreases slots.len(),
{
    if slots.len() > 0 {
        lemma_open_count_bound(origin, window, slots.drop_last());
    }
}

/// A FEC packet of a kind is one of that kind.
proof fn lemma_open_count_positive<P: Packet>(
    origin: u16,
    window: Window<Seq<u8>>,
    slots: Seq<Option<(P, PacketStatus)>>,
    index: int,
)
    requires
        0 <= index < slots.len(),
        counts(origin, window, slots[index]),
    ensures
        open_count(origin, window, slots) > 0,
    decreases slots.len(),
{
    if index < slots.len() - 1 {
        lemma_open_count_positive(origin, window, slots.drop_last(), index);
    }
}

/// Where every FEC packet that counts has counted before, there are no more than before; and fewer
/// where one has stopped to count.
proof fn lemma_open_count_falls<P: Packet>(
    origin: u16,
    window: Window<Seq<u8>>,
    after: Window<Seq<u8>>,
    slots: Seq<Option<(P, PacketStatus)>>,
    index: int,
)
    requires
        forall|i: int|
            0 <= i < slots.len() && #[trigger] counts(origin, after, slots[i]) ==> counts(
                origin,
                window,
                slots[i],
            ),
    ensures
        open_count(origin, after, slots) <= open_count(origin, window, slots),
        0 <= index < slots.len() && counts(origin, window, slots[index]) && !counts(
            origin,
            after,
            slots[index],
        ) ==> open_count(origin, after, slots) < open_count(origin, window, slots),
    decreases slots.len(),
{
    if slots.len() > 0 {
        let rest = slots.drop_last();
        assert forall|i: int| 0 <= i < rest.len() && #[trigger] counts(
            origin,
            after,
            rest[i],
        ) implies counts(origin, window, rest[i]) by {
            assert(rest[i] == slots[i]);
        }
        lemma_open_count_falls(origin, window, after, rest, index);
        assert(slots[slots.len() - 1] == slots.last());
        assert(counts(origin, after, slots[slots.len() - 1]) ==> counts(
            origin,
            window,
            slots.last(),
        ));
    }
}

/// How many FEC packets for the given direction protect missing media packets; the most there can
/// be where there are no media packets at all.
spec fn unfinished<P: Packet>(
    origin: u16,
    matrix: MatrixView<P>,
    orientation: Orientation,
) -> nat {
    if matrix.main.slots.len() == 0 {
        20
    } else {
        open_count(origin, matrix.main, matrix.fec_packets(orientation).slots)
    }
}

/// How far a packet recovered by means of a FEC packet can make the window move on.
spec fn stride(orientation: Orientation) -> nat {
    match orientation {
        Orientation::Row => 455,
        Orientation::Column => 21,
    }
}

/// How far the packets that are still to be recovered can make the window move on.
spec fn remaining<P: Packet>(origin: u16, matrix: MatrixView<P>) -> nat {
    455 * unfinished(origin, matrix, Orientation::Row) + 21 * unfinished(
        origin,
        matrix,
        Orientation::Column,
    )
}

/// There are at most 20 FEC packets for each direction.
proof fn lemma_remaining_bound<P: Packet>(
    geometry: FecGeometry,
    origin: u16,
    matrix: MatrixView<P>,
)
    requires
        valid_matrix(geometry, matrix),
    ensures
        unfinished(origin, matrix, Orientation::Row) <= 20,
        unfinished(origin, matrix, Orientation::Column) <= 20,
        remaining(origin, matrix) <= 9520,
{
    lemma_limits(geometry, matrix);
    lemma_open_count_bound(origin, matrix.main, matrix.row.slots);
    lemma_open_count_bound(origin, matrix.main, matrix.col.slots);
}

/// Storing a packet leaves no more FEC packets unfinished than before, and fewer where one of them
/// made the recovery of the packet possible.
proof fn lemma_unfinished_stored<P: Packet>(
    origin: u16,
    matrix: MatrixView<P>,
    seq: u16,
    packet: (P, PacketStatus),
    orientation: Orientation,
    index: int,
)
    requires
        matrix.main.valid(),
        matrix.main.limit <= 200,
        matrix.main.slots.len() > 0,
        0 <= place(origin, matrix.main.start) <= place(origin, seq) <= FARTHEST,
    ensures
        ({
            let after = matrix.with_main(seq, packet);
            &&& unfinished(origin, after, Orientation::Row) <= unfinished(
                origin,
                matrix,
                Orientation::Row,
            )
            &&& unfinished(origin, after, Orientation::Column) <= unfinished(
                origin,
                matrix,
                Orientation::Column,
            )
            &&& aims_at(matrix, orientation, index, seq) && near(
                origin,
                header_at(matrix, orientation, index),
            ) ==> unfinished(origin, after, orientation) < unfinished(origin, matrix, orientation)
        }),
{
    let window = matrix.main;
    let after = matrix.with_main(seq, packet);
    let item = (packet.0.bytes(), packet.1);
    lemma_stored(origin, window, seq, item);
    lemma_falls(origin, window, seq, item, matrix.row.slots, index);
    lemma_falls(origin, window, seq, item, matrix.col.slots, index);
    if aims_at(matrix, orientation, index, seq) && near(
        origin,
        header_at(matrix, orientation, index),
    ) {
        let slots = matrix.fec_packets(orientation).slots;
        assert(counts(origin, window, slots[index]));
        lemma_stays_closed(origin, window, header_at(matrix, orientation, index), seq, item);
        assert(!counts(origin, after.main, slots[index]));
    }
}

/// Storing a packet opens none of the given FEC packets.
proof fn lemma_falls<P: Packet>(
    origin: u16,
    window: Window<Seq<u8>>,
    seq: u16,
    packet: (Seq<u8>, PacketStatus),
    slots: Seq<Option<(P, PacketStatus)>>,
    index: int,
)
    requires
        window.valid(),
        window.limit <= 200,
        window.slots.len() > 0,
        0 <= place(origin, window.start) <= place(origin, seq) <= FARTHEST,
    ensures
        ({
            let after = window.insert(seq, packet);
            &&& open_count(origin, after, slots) <= open_count(origin, window, slots)
            &&& 0 <= index < slots.len() && counts(origin, window, slots[index]) && !counts(
                origin,
                after,
                slots[index],
            ) ==> open_count(origin, after, slots) < open_count(origin, window, slots)
        }),
{
    let after = window.insert(seq, packet);
    assert forall|i: int| 0 <= i < slots.len() && #[trigger] counts(
        origin,
        after,
        slots[i],
    ) implies counts(origin, window, slots[i]) by {
        let header = fec_header(rtp_payload((slots[i]->0).0.bytes()));
        if !is_open(window, header) {
            lemma_stays_closed(origin, window, header, seq, packet);
        }
    }
    lemma_open_count_falls(origin, window, after, slots, index);
}

/// FEC packets are as unfinished as before where the entries are the same.
proof fn lemma_unfinished_same<P: Packet>(
    origin: u16,
    matrix: MatrixView<P>,
    after: MatrixView<P>,
)
    requires
        after.row == matrix.row,
        after.col == matrix.col,
        after.main.start == matrix.main.start,
        after.main.slots == matrix.main.slots,
    ensures
        unfinished(origin, after, Orientation::Row) == unfinished(
            origin,
            matrix,
            Orientation::Row,
        ),
        unfinished(origin, after, Orientation::Column) == unfinished(
            origin,
            matrix,
            Orientation::Column,
        ),
{
    assert forall|slots: Seq<Option<(P, PacketStatus)>>| #[trigger]
        open_count(origin, after.main, slots) == open_count(origin, matrix.main, slots) by {
        lemma_open_count_same(origin, matrix.main, after.main, slots);
    }
}

/// Whether a FEC packet counts depends on the entries alone.
proof fn lemma_open_count_same<P: Packet>(
    origin: u16,
    window: Window<Seq<u8>>,
    after: Window<Seq<u8>>,
    slots: Seq<Option<(P, PacketStatus)>>,
)
    requires
        after.start == window.start,
        after.slots == window.slots,
    ensures
        open_count(origin, after, slots) == open_count(origin, window, slots),
    decreases slots.len(),
{
    if slots.len() > 0 {
        lemma_open_count_same(origin, window, after, slots.drop_last());
        if let Some((packet, _)) = slots.last() {
            lemma_missing_same(
                window,
                after,
                fec_header(rtp_payload(packet.bytes())).associated(),
            );
        }
    }
}

/// What a media packet that was not refused has done: it was stored, and its column and row were
/// searched.
proof fn lemma_inserted<BP: BufferPool, Recv: Receiver<BP::P>>(
    pool: BP,
    matrix: MatrixView<BP::P>,
    recv: Recv,
    seq: u16,
    packet: (BP::P, PacketStatus),
    matrix2: MatrixView<BP::P>,
    recv2: Recv,
    corrections: Corrections<BP::P>,
)
    requires
        inserts(pool, matrix, recv, seq, packet, matrix2, recv2, Ok(corrections)),
    ensures
        matrix.main.admits(seq),
        matrix2 == matrix.with_main(seq, packet),
        yields(pool, matrix2, seq, Ok(corrections)),
{
    reveal(inserts);
}

/// The packets recovered in the column and in the row.
proof fn lemma_yielded<BP: BufferPool>(
    pool: BP,
    matrix: MatrixView<BP::P>,
    seq: u16,
    corrections: Corrections<BP::P>,
) -> (res: (Option<BP::P>, Option<BP::P>))
    requires
        yields(pool, matrix, seq, Ok(corrections)),
    ensures
        corrections == corrections_of(res.0, res.1),
        takes_up(pool, matrix.opportunity_around(Orientation::Column, seq), Ok(res.0)),
        takes_up(pool, matrix.opportunity_around(Orientation::Row, seq), Ok(res.1)),
{
    reveal(yields);
    let outcome = Ok::<Corrections<BP::P>, Refusal>(corrections);
    let column = choose|column: Result<Option<BP::P>, Refusal>|
        {
            &&& #[trigger] takes_up(
                pool,
                matrix.opportunity_around(Orientation::Column, seq),
                column,
            )
            &&& match column {
                Ok(a) => exists|row: Result<Option<BP::P>, Refusal>|
                    {
                        &&& #[trigger] takes_up(
                            pool,
                            matrix.opportunity_around(Orientation::Row, seq),
                            row,
                        )
                        &&& match row {
                            Ok(b) => outcome == Ok::<Corrections<BP::P>, Refusal>(
                                corrections_of(a, b),
                            ),
                            Err(refusal) => outcome == Err::<Corrections<BP::P>, Refusal>(refusal),
                        }
                    },
                Err(refusal) => outcome == Err::<Corrections<BP::P>, Refusal>(refusal),
            }
        };
    let a = column->Ok_0;
    let row = choose|row: Result<Option<BP::P>, Refusal>|
        {
            &&& #[trigger] takes_up(pool, matrix.opportunity_around(Orientation::Row, seq), row)
            &&& match row {
                Ok(b) => outcome == Ok::<Corrections<BP::P>, Refusal>(corrections_of(a, b)),
                Err(refusal) => outcome == Err::<Corrections<BP::P>, Refusal>(refusal),
            }
        };
    (a, row->Ok_0)
}

/// How a packet that does not come before the first entry is stored, and what that does to the FEC
/// packets that are unfinished.
proof fn lemma_stored_in<P: Packet>(
    origin: u16,
    matrix: MatrixView<P>,
    seq: u16,
    packet: (P, PacketStatus),
    orientation: Orientation,
    index: int,
)
    requires
        matrix.main.valid(),
        matrix.main.limit <= 200,
        matrix.main.slots.len() > 0,
        0 <= place(origin, matrix.main.start) <= place(origin, seq) <= FARTHEST,
    ensures
        ({
            let main = matrix.main;
            let matrix2 = matrix.with_main(seq, packet);
            let after = matrix2.main;
            let ahead = place(origin, seq) - place(origin, main.start);
            &&& after.slots.len() > 0
            &&& after.early <= main.early
            &&& place(origin, main.start) <= place(origin, after.start) <= place(origin, seq)
            &&& ahead < main.limit + main.slots.len() - 1 ==> {
                &&& after.early == 0
                &&& place(origin, after.start) == place(origin, main.start) || place(
                    origin,
                    after.start,
                ) <= place(origin, seq) - main.limit + 1
            }
            &&& unfinished(origin, matrix2, Orientation::Row) <= unfinished(
                origin,
                matrix,
                Orientation::Row,
            )
            &&& unfinished(origin, matrix2, Orientation::Column) <= unfinished(
                origin,
                matrix,
                Orientation::Column,
            )
            &&& aims_at(matrix, orientation, index, seq) && near(
                origin,
                header_at(matrix, orientation, index),
            ) ==> unfinished(origin, matrix2, orientation) < unfinished(
                origin,
                matrix,
                orientation,
            )
        }),
{
    lemma_stored(origin, matrix.main, seq, (packet.0.bytes(), packet.1));
    lemma_unfinished_stored(origin, matrix, seq, packet, orientation, index);
}

/// How a packet that comes before the first entry is dropped, and what that does to the FEC packets
/// that are unfinished.
proof fn lemma_dropped_from<P: Packet>(
    origin: u16,
    matrix: MatrixView<P>,
    seq: u16,
    packet: (P, PacketStatus),
)
    requires
        matrix.main.valid(),
        matrix.main.limit <= 200,
        matrix.main.slots.len() > 0,
        0 <= place(origin, seq) < place(origin, matrix.main.start) <= FARTHEST,
    ensures
        ({
            let main = matrix.main;
            let matrix2 = matrix.with_main(seq, packet);
            let after = matrix2.main;
            ||| {
                &&& after.slots.len() == 0
                &&& after.early == 0
                &&& main.early + 1 >= SEQ_GONE_BACKWARDS_LIMIT
            }
            ||| {
                &&& after.start == main.start
                &&& after.slots == main.slots
                &&& after.early == main.early + 1
                &&& unfinished(origin, matrix2, Orientation::Row) == unfinished(
                    origin,
                    matrix,
                    Orientation::Row,
                )
                &&& unfinished(origin, matrix2, Orientation::Column) == unfinished(
                    origin,
                    matrix,
                    Orientation::Column,
                )
            }
        }),
{
    let matrix2 = matrix.with_main(seq, packet);
    lemma_dropped(origin, matrix.main, seq, (packet.0.bytes(), packet.1));
    if matrix2.main.slots.len() > 0 {
        lemma_unfinished_same(origin, matrix, matrix2);
    }
}

/// The sequence number of a packet.
spec fn seq_of<P: Packet>(packet: P) -> u16 {
    rtp_sequence(packet.bytes())
}

/// Whether the packets in `backlog` have places from 0 up to `limit`.
spec fn in_reach<P: Packet>(origin: u16, backlog: Seq<P>, limit: int) -> bool {
    forall|i: int|
        0 <= i < backlog.len() ==> 0 <= place(origin, seq_of(#[trigger] backlog[i])) <= limit
}

/// The farthest place that packets may have by now.  Places are counted from 5400 on at first, and
/// from where these can have led to once the window has started anew.
spec fn reach<P: Packet>(origin: u16, restarted: bool, matrix: MatrixView<P>) -> int {
    (if restarted {
        14920int
    } else {
        5400int
    }) + 9520 - remaining(origin, matrix)
}

/// The places in use while the packets in `backlog` are waiting to be inserted.
///
/// The window does not start anew a second time: for that it would take more packets that come
/// before the first entry than can be waiting or still be recovered.
spec fn is_waiting<P: Packet>(
    origin: u16,
    restarted: bool,
    matrix: MatrixView<P>,
    backlog: Seq<P>,
) -> bool {
    let main = matrix.main;
    let rows = unfinished(origin, matrix, Orientation::Row);
    &&& main.slots.len() == 0 ==> restarted
    &&& main.slots.len() > 0 ==> 0 <= place(origin, main.start) <= reach(origin, restarted, matrix)
    &&& in_reach(origin, backlog, reach(origin, restarted, matrix))
    &&& restarted ==> main.early == 0 || main.early + backlog.len() + rows <= 30
}

/// The places in use while the packets in `backlog` are waiting to be inserted, the last of which
/// has just been recovered by means of a FEC packet.
spec fn is_fresh<P: Packet>(
    origin: u16,
    restarted: bool,
    orientation: Orientation,
    index: int,
    matrix: MatrixView<P>,
    backlog: Seq<P>,
) -> bool {
    let main = matrix.main;
    let rows = unfinished(origin, matrix, Orientation::Row);
    &&& backlog.len() > 0
    &&& aims_at(matrix, orientation, index, seq_of(backlog.last()))
    &&& near(origin, header_at(matrix, orientation, index))
    &&& 0 <= place(origin, main.start) <= reach(origin, restarted, matrix)
    &&& match orientation {
        Orientation::Row => {
            &&& in_reach(
                origin,
                backlog.drop_last(),
                reach(origin, restarted, matrix) + 454,
            )
            &&& restarted ==> main.early == 0 || main.early + (backlog.len() - 1) + (rows - 1)
                <= 30
        },
        Orientation::Column => in_reach(
            origin,
            backlog.drop_last(),
            reach(origin, restarted, matrix),
        ),
    }
}

/// Inserting a packet that was waiting.
proof fn lemma_insert_waiting<P: Packet>(
    geometry: FecGeometry,
    origin: u16,
    restarted: bool,
    matrix: MatrixView<P>,
    backlog: Seq<P>,
) -> (restarted2: bool)
    requires
        valid_matrix(geometry, matrix),
        0 < backlog.len() <= 10,
        is_waiting(origin, restarted, matrix, backlog),
    ensures
        ({
            let packet = backlog.last();
            let matrix2 = matrix.with_main(seq_of(packet), (packet, PacketStatus::Recovered));
            &&& is_waiting(origin, restarted2, matrix2, backlog.drop_last())
            &&& 0 <= place(origin, seq_of(packet)) <= FARTHEST
            &&& restarted ==> restarted2
            &&& restarted2 == restarted ==> remaining(origin, matrix2) <= remaining(
                origin,
                matrix,
            )
        }),
{
    let packet = backlog.last();
    let seq = seq_of(packet);
    let main = matrix.main;
    let item = (packet, PacketStatus::Recovered);
    let matrix2 = matrix.with_main(seq, item);
    let rest = backlog.drop_last();
    lemma_limits(geometry, matrix);
    lemma_remaining_bound(geometry, origin, matrix);
    assert(backlog[backlog.len() - 1] == packet);
    assert(0 <= place(origin, seq) <= reach(origin, restarted, matrix));
    lemma_open_count_bound(origin, matrix2.main, matrix.row.slots);
    lemma_open_count_bound(origin, matrix2.main, matrix.col.slots);
    let restarted2 = if main.slots.len() == 0 {
        assert(main.skip(0).slots.len() == 0);
        restarted
    } else if place(origin, seq) < place(origin, main.start) {
        lemma_dropped_from(origin, matrix, seq, item);
        restarted || matrix2.main.slots.len() == 0
    } else {
        lemma_stored_in(origin, matrix, seq, item, Orientation::Row, 0);
        restarted
    };
    assert(remaining(origin, matrix2) <= 9520);
    assert forall|i: int| 0 <= i < rest.len() implies 0 <= place(
        origin,
        seq_of(#[trigger] rest[i]),
    ) <= reach(origin, restarted2, matrix2) by {
        assert(rest[i] == backlog[i]);
    }
    restarted2
}

/// Inserting a packet that has just been recovered.
proof fn lemma_insert_fresh<P: Packet>(
    geometry: FecGeometry,
    origin: u16,
    restarted: bool,
    orientation: Orientation,
    index: int,
    matrix: MatrixView<P>,
    backlog: Seq<P>,
)
    requires
        valid_matrix(geometry, matrix),
        backlog.len() <= 10,
        is_fresh(origin, restarted, orientation, index, matrix, backlog),
    ensures
        ({
            let packet = backlog.last();
            let matrix2 = matrix.with_main(seq_of(packet), (packet, PacketStatus::Recovered));
            &&& is_waiting(origin, restarted, matrix2, backlog.drop_last())
            &&& 0 <= place(origin, seq_of(packet)) <= FARTHEST
            &&& remaining(origin, matrix2) + stride(orientation) <= remaining(origin, matrix)
        }),
{
    let packet = backlog.last();
    let seq = seq_of(packet);
    let main = matrix.main;
    let header = header_at(matrix, orientation, index);
    let item = (packet, PacketStatus::Recovered);
    let matrix2 = matrix.with_main(seq, item);
    let rest = backlog.drop_last();
    lemma_limits(geometry, matrix);
    lemma_remaining_bound(geometry, origin, matrix);
    lemma_header(geometry, matrix, orientation, index);
    lemma_open_count_positive(
        origin,
        main,
        matrix.fec_packets(orientation).slots,
        index,
    );
    lemma_aim(origin, main, header, seq);
    lemma_stored_in(origin, matrix, seq, item, orientation, index);
    assert forall|i: int| 0 <= i < rest.len() implies 0 <= place(
        origin,
        seq_of(#[trigger] rest[i]),
    ) <= reach(origin, restarted, matrix2) by {}
}

/// By means of which FEC packet a packet has just been recovered, and how far it is from the
/// entries of the window.
proof fn lemma_just_recovered<BP: BufferPool>(
    pool: BP,
    geometry: FecGeometry,
    origin: u16,
    matrix: MatrixView<BP::P>,
    orientation: Orientation,
    seq: u16,
    packet: BP::P,
) -> (index: int)
    requires
        valid_matrix(geometry, matrix),
        0 <= place(origin, seq) <= FARTHEST,
        takes_up(pool, matrix.opportunity_around(orientation, seq), Ok(Some(packet))),
    ensures
        aims_at(matrix, orientation, index, seq_of(packet)),
        near(origin, header_at(matrix, orientation, index)),
        unfinished(origin, matrix, orientation) > 0,
        0 <= place(origin, matrix.main.start) <= FARTHEST ==> place(origin, matrix.main.start)
            <= place(origin, seq_of(packet)) <= place(origin, matrix.main.start) + 454,
{
    let index = lemma_recovered_around(pool, geometry, matrix, orientation, seq, packet);
    let header = header_at(matrix, orientation, index);
    lemma_limits(geometry, matrix);
    lemma_header(geometry, matrix, orientation, index);
    lemma_covering_is_near(origin, header, seq);
    lemma_open_count_positive(
        origin,
        matrix.main,
        matrix.fec_packets(orientation).slots,
        index,
    );
    if 0 <= place(origin, matrix.main.start) <= FARTHEST {
        lemma_aim(origin, matrix.main, header, seq_of(packet));
    }
    index
}

/// Queueing a packet recovered in a column.
proof fn lemma_queue_column<P: Packet>(
    origin: u16,
    restarted: bool,
    matrix: MatrixView<P>,
    backlog: Seq<P>,
    packet: P,
    index: int,
)
    requires
        is_waiting(origin, restarted, matrix, backlog),
        aims_at(matrix, Orientation::Column, index, seq_of(packet)),
        near(origin, header_at(matrix, Orientation::Column, index)),
    ensures
        is_fresh(
            origin,
            restarted,
            Orientation::Column,
            index,
            matrix,
            backlog.push(packet),
        ),
{
    assert(backlog.push(packet).drop_last() =~= backlog);
}

/// Queueing a packet recovered in a row, and perhaps one recovered in a column before it.
proof fn lemma_queue_row<P: Packet>(
    origin: u16,
    restarted: bool,
    matrix: MatrixView<P>,
    backlog: Seq<P>,
    column: Option<P>,
    packet: P,
    index: int,
)
    requires
        is_waiting(origin, restarted, matrix, backlog),
        unfinished(origin, matrix, Orientation::Row) <= 20,
        aims_at(matrix, Orientation::Row, index, seq_of(packet)),
        near(origin, header_at(matrix, Orientation::Row, index)),
        column matches Some(other) ==> place(origin, matrix.main.start) <= place(
            origin,
            seq_of(other),
        ) <= place(origin, matrix.main.start) + 454,
        backlog.len() <= if column is Some {
            8int
        } else {
            9
        },
    ensures
        is_fresh(
            origin,
            restarted,
            Orientation::Row,
            index,
            matrix,
            match column {
                Some(other) => backlog.push(other).push(packet),
                None => backlog.push(packet),
            },
        ),
{
    let before = match column {
        Some(other) => backlog.push(other),
        None => backlog,
    };
    assert(before.push(packet).drop_last() =~= before);
}

/// By means of which FEC packets packets have just been recovered in the column and in the row.
proof fn lemma_all_recovered<BP: BufferPool>(
    pool: BP,
    geometry: FecGeometry,
    origin: u16,
    matrix: MatrixView<BP::P>,
    seq: u16,
    corrections: Corrections<BP::P>,
) -> (res: (Option<(BP::P, int)>, Option<(BP::P, int)>))
    requires
        valid_matrix(geometry, matrix),
        0 <= place(origin, seq) <= FARTHEST,
        yields(pool, matrix, seq, Ok(corrections)),
    ensures
        corrected(corrections) == match res {
            (None, None) => Seq::empty(),
            (Some((a, _)), None) => seq![a],
            (None, Some((b, _))) => seq![b],
            (Some((a, _)), Some((b, _))) => seq![a, b],
        },
        res.0 matches Some((packet, index)) ==> {
            &&& aims_at(matrix, Orientation::Column, index, seq_of(packet))
            &&& near(origin, header_at(matrix, Orientation::Column, index))
            &&& unfinished(origin, matrix, Orientation::Column) > 0
            &&& 0 <= place(origin, matrix.main.start) <= FARTHEST ==> place(
                origin,
                matrix.main.start,
            ) <= place(origin, seq_of(packet)) <= place(origin, matrix.main.start) + 454
        },
        res.1 matches Some((packet, index)) ==> {
            &&& aims_at(matrix, Orientation::Row, index, seq_of(packet))
            &&& near(origin, header_at(matrix, Orientation::Row, index))
            &&& unfinished(origin, matrix, Orientation::Row) > 0
        },
{
    let (column, row) = lemma_yielded(pool, matrix, seq, corrections);
    (
        match column {
            Some(packet) => Some(
                (
                    packet,
                    lemma_just_recovered(
                        pool,
                        geometry,
                        origin,
                        matrix,
                        Orientation::Column,
                        seq,
                        packet,
                    ),
                ),
            ),
            None => None,
        },
        match row {
            Some(packet) => Some(
                (
                    packet,
                    lemma_just_recovered(
                        pool,
                        geometry,
                        origin,
                        matrix,
                        Orientation::Row,
                        seq,
                        packet,
                    ),
                ),
            ),
            None => None,
        },
    )
}

/// Queueing the packets whose recovery an inserted packet makes possible.
proof fn lemma_queue_recovered<BP: BufferPool>(
    pool: BP,
    geometry: FecGeometry,
    origin: u16,
    restarted: bool,
    matrix: MatrixView<BP::P>,
    backlog: Seq<BP::P>,
    seq: u16,
    corrections: Corrections<BP::P>,
) -> (fresh: Option<(Orientation, int)>)
    requires
        valid_matrix(geometry, matrix),
        is_waiting(origin, restarted, matrix, backlog),
        0 <= place(origin, seq) <= FARTHEST,
        yields(pool, matrix, seq, Ok(corrections)),
        backlog.len() + corrected(corrections).len() <= 10,
    ensures
        match fresh {
            Some((orientation, index)) => {
                &&& is_fresh(
                    origin,
                    restarted,
                    orientation,
                    index,
                    matrix,
                    backlog + corrected(corrections),
                )
                &&& stride(orientation) <= remaining(origin, matrix)
            },
            None => backlog + corrected(corrections) == backlog,
        },
{
    let (column, row) = lemma_all_recovered(pool, geometry, origin, matrix, seq, corrections);
    let backlog2 = backlog + corrected(corrections);
    lemma_remaining_bound(geometry, origin, matrix);
    match (column, row) {
        (Some((a, _)), Some((b, index))) => {
            lemma_queue_row(origin, restarted, matrix, backlog, Some(a), b, index);
            assert(backlog2 =~= backlog.push(a).push(b));
            Some((Orientation::Row, index))
        },
        (None, Some((b, index))) => {
            lemma_queue_row(origin, restarted, matrix, backlog, None, b, index);
            assert(backlog2 =~= backlog.push(b));
            Some((Orientation::Row, index))
        },
        (Some((a, index)), None) => {
            lemma_queue_column(origin, restarted, matrix, backlog, a, index);
            assert(backlog2 =~= backlog.push(a));
            Some((Orientation::Column, index))
        },
        (None, None) => {
            assert(backlog2 =~= backlog);
            None
        },
    }
}

/// What is known of the packets that the first packet leaves to be inserted: the last is missing, and
/// does not come before the first entry, and another one is not far from it.
spec fn is_launched<P: Packet>(matrix: MatrixView<P>, backlog: Seq<P>) -> bool {
    &&& backlog.len() <= 2
    &&& backlog.len() > 0 ==> {
        &&& matrix.main.slots.len() > 0
        &&& !matrix.main.too_early(seq_of(backlog.last()))
        &&& matrix.main.get(seq_of(backlog.last())) is None
    }
    &&& backlog.len() == 2 ==> -5200 <= seq_diff(seq_of(backlog[0]), seq_of(backlog[1])) <= 5200
}

/// A packet in the window has its place among the entries.
proof fn lemma_found<P>(window: Window<P>, seq: u16)
    requires
        window.get(seq) is Some,
    ensures
        0 <= seq_diff(seq, window.start) < window.slots.len(),
{
}

/// Where the window is after the first of the recovered packets has been stored.
proof fn lemma_launch_window<P: Packet>(
    matrix: MatrixView<P>,
    seq: u16,
    packet: (P, PacketStatus),
)
    requires
        matrix.main.valid(),
        0 < matrix.main.limit <= 200,
        !matrix.main.too_early(seq),
    ensures
        ({
            let after = matrix.with_main(seq, packet).main;
            &&& after.slots.len() > 0
            &&& 0 <= seq_diff(seq, after.start) < 200
        }),
{
    law_admits(matrix.main, seq);
    law_insert_reads_back(matrix.main, seq, (packet.0.bytes(), packet.1));
    lemma_found(matrix.with_main(seq, packet).main, seq);
}

/// From where to count places, so that those of the first entry and of another packet are small.
proof fn lemma_launch_origin(start: u16, seq: u16, other: u16) -> (origin: u16)
    requires
        0 <= seq_diff(seq, start) < 200,
        -5200 <= seq_diff(other, seq) <= 5200,
    ensures
        0 <= place(origin, start) <= 5400,
        0 <= place(origin, other) <= 5400,
        0 <= place(origin, seq) <= 5600,
{
    assert(seq_diff(other, start) == seq_diff(other, seq) + seq_diff(seq, start));
    if seq_lt(other, start) {
        assert(seq_diff(start, other) == -seq_diff(other, start));
        other
    } else {
        start
    }
}

/// Inserting the first of the recovered packets.
proof fn lemma_insert_launched<P: Packet>(
    geometry: FecGeometry,
    matrix: MatrixView<P>,
    backlog: Seq<P>,
) -> (origin: u16)
    requires
        valid_matrix(geometry, matrix),
        backlog.len() > 0,
        is_launched(matrix, backlog),
        valid_matrix(
            geometry,
            matrix.with_main(
                seq_of(backlog.last()),
                (backlog.last(), PacketStatus::Recovered),
            ),
        ),
    ensures
        is_waiting(
            origin,
            false,
            matrix.with_main(
                seq_of(backlog.last()),
                (backlog.last(), PacketStatus::Recovered),
            ),
            backlog.drop_last(),
        ),
        0 <= place(origin, seq_of(backlog.last())) <= FARTHEST,
{
    let packet = backlog.last();
    let seq = seq_of(packet);
    let item = (packet, PacketStatus::Recovered);
    let matrix2 = matrix.with_main(seq, item);
    let rest = backlog.drop_last();
    let other = if backlog.len() == 2 {
        seq_of(backlog[0])
    } else {
        seq
    };
    lemma_limits(geometry, matrix);
    lemma_launch_window(matrix, seq, item);
    let origin = lemma_launch_origin(matrix2.main.start, seq, other);
    lemma_remaining_bound(geometry, origin, matrix2);
    assert forall|i: int| 0 <= i < rest.len() implies 0 <= place(
        origin,
        seq_of(#[trigger] rest[i]),
    ) <= reach(origin, false, matrix2) by {
        assert(rest[i] == backlog[0]);
    }
    origin
}

/// A packet whose recovery becomes possible is missing, and does not come before the first entry.
proof fn lemma_aim_is_not_early<P: Packet>(
    matrix: MatrixView<P>,
    orientation: Orientation,
    index: int,
    seq: u16,
)
    requires
        aims_at(matrix, orientation, index, seq),
    ensures
        !matrix.main.too_early(seq),
        matrix.main.get(seq) is None,
        header_at(matrix, orientation, index).associated().contains(seq),
{
    let seqs = header_at(matrix, orientation, index).associated();
    let missing = missing_among(matrix.main, seqs);
    lemma_missing_among(matrix.main, seqs);
    assert(missing[0] == seq);
    assert(missing.contains(seq));
}

/// How far from an inserted packet the packets are whose recovery it makes possible.
proof fn lemma_recovered_nearby<BP: BufferPool>(
    pool: BP,
    geometry: FecGeometry,
    matrix: MatrixView<BP::P>,
    orientation: Orientation,
    seq: u16,
    packet: BP::P,
)
    requires
        valid_matrix(geometry, matrix),
        takes_up(pool, matrix.opportunity_around(orientation, seq), Ok(Some(packet))),
    ensures
        matrix.main.slots.len() > 0,
        !matrix.main.too_early(seq_of(packet)),
        matrix.main.get(seq_of(packet)) is None,
        -5100 < seq_diff(seq_of(packet), seq) < 5100,
        orientation == Orientation::Column ==> -100 < seq_diff(seq_of(packet), seq) < 100,
{
    let index = lemma_recovered_around(pool, geometry, matrix, orientation, seq, packet);
    let header = header_at(matrix, orientation, index);
    lemma_header(geometry, matrix, orientation, index);
    lemma_covered(header, seq);
    lemma_aim_is_not_early(matrix, orientation, index, seq_of(packet));
    let i = choose|i: int|
        0 <= i < header.associated().len() && header.associated()[i] == seq_of(packet);
    assert(seq_diff(header.associated()[i], seq) == seq_diff(seq_of(packet), seq));
}

/// Two sequence numbers not far from a third are not far from each other.
proof fn lemma_close_together(a: u16, b: u16, seq: u16)
    requires
        -100 < seq_diff(a, seq) < 100,
        -5100 < seq_diff(b, seq) < 5100,
    ensures
        -5200 <= seq_diff(a, b) <= 5200,
{
}

/// Which packets have been recovered in the column and in the row, and how far they are from the
/// inserted packet.
proof fn lemma_all_nearby<BP: BufferPool>(
    pool: BP,
    geometry: FecGeometry,
    matrix: MatrixView<BP::P>,
    seq: u16,
    corrections: Corrections<BP::P>,
) -> (res: (Option<BP::P>, Option<BP::P>))
    requires
        valid_matrix(geometry, matrix),
        yields(pool, matrix, seq, Ok(corrections)),
    ensures
        corrections == corrections_of(res.0, res.1),
        res.0 matches Some(packet) ==> {
            &&& matrix.main.slots.len() > 0
            &&& !matrix.main.too_early(seq_of(packet))
            &&& matrix.main.get(seq_of(packet)) is None
            &&& -100 < seq_diff(seq_of(packet), seq) < 100
        },
        res.1 matches Some(packet) ==> {
            &&& matrix.main.slots.len() > 0
            &&& !matrix.main.too_early(seq_of(packet))
            &&& matrix.main.get(seq_of(packet)) is None
            &&& -5100 < seq_diff(seq_of(packet), seq) < 5100
        },
{
    let (column, row) = lemma_yielded(pool, matrix, seq, corrections);
    if let Some(packet) = column {
        lemma_recovered_nearby(pool, geometry, matrix, Orientation::Column, seq, packet);
    }
    if let Some(packet) = row {
        lemma_recovered_nearby(pool, geometry, matrix, Orientation::Row, seq, packet);
    }
    (column, row)
}

/// What a packet of the media stream leaves to be inserted.
proof fn lemma_launched_by_media<BP: BufferPool>(
    pool: BP,
    geometry: FecGeometry,
    matrix: MatrixView<BP::P>,
    seq: u16,
    corrections: Corrections<BP::P>,
)
    requires
        valid_matrix(geometry, matrix),
        yields(pool, matrix, seq, Ok(corrections)),
    ensures
        is_launched(matrix, corrected(corrections)),
{
    let (column, row) = lemma_all_nearby(pool, geometry, matrix, seq, corrections);
    if let (Some(a), Some(b)) = (column, row) {
        lemma_close_together(seq_of(a), seq_of(b), seq);
    }
}

/// What a FEC packet leaves to be inserted.
proof fn lemma_launched_by_fec<BP: BufferPool>(
    pool: BP,
    matrix: MatrixView<BP::P>,
    orientation: Orientation,
    seq: u16,
    packet: BP::P,
)
    requires
        takes_up(pool, matrix.opportunity(orientation, seq), Ok(Some(packet))),
    ensures
        is_launched(matrix, seq![packet]),
{
    let recovery = matrix.opportunity(orientation, seq)->Ok_0->0;
    lemma_recovered_sequence(pool, recovery, packet);
    let seqs = recovery.header.associated();
    let missing = missing_among(matrix.main, seqs);
    lemma_missing_among(matrix.main, seqs);
    assert(missing.contains(missing[0]));
}

/// What a media packet that went through has done to the matrix and the backlog.
proof fn lemma_inserted_main<BP: BufferPool, Recv: Receiver<BP::P>>(
    decoder: DecoderView<BP, Recv>,
    seq: u16,
    packet: (BP::P, PacketStatus),
    backlog: Seq<BP::P>,
    after: DecoderView<BP, Recv>,
    backlog2: Seq<BP::P>,
) -> (res: (MatrixView<BP::P>, Recv, Corrections<BP::P>))
    requires
        decoder.running is Some,
        backlog.len() <= 10,
        decoder.inserts_main(seq, packet, backlog, after, backlog2, Ok(Ok(()))),
    ensures
        inserts(
            decoder.pool,
            (decoder.running->0).1,
            decoder.recv,
            seq,
            packet,
            res.0,
            res.1,
            Ok(res.2),
        ),
        after == decoder.with_matrix(res.0, res.1),
        backlog2 == backlog + corrected(res.2),
        backlog2.len() <= 10,
{
    let matrix = (decoder.running->0).1;
    let outcome: Outcome = Ok(Ok(()));
    let (matrix2, recv2, res) = choose|
        matrix2: MatrixView<BP::P>,
        recv2: Recv,
        res: Result<Corrections<BP::P>, Refusal>,
    |
        {
            &&& #[trigger] inserts(
                decoder.pool,
                matrix,
                decoder.recv,
                seq,
                packet,
                matrix2,
                recv2,
                res,
            )
            &&& after == decoder.with_matrix(matrix2, recv2)
            &&& match res {
                Ok(corrections) => {
                    &&& backlog2 == queued(backlog, corrected(corrections))
                    &&& outcome == Ok::<_, Refusal>(queues(backlog, corrected(corrections)))
                },
                Err(refusal) => backlog2 == backlog && outcome == Err::<
                    Result<(), FecDecodeError>,
                    _,
                >(refusal),
            }
        };
    let corrections = res->Ok_0;
    assert(res == Ok::<Corrections<BP::P>, Refusal>(corrections));
    (matrix2, recv2, corrections)
}

/// How far the insertion of recovered packets has come.
pub(crate) enum Progress {
    /// None has been inserted yet.
    Launched,
    /// Some are waiting.
    Waiting { origin: u16, restarted: bool },
    /// Some are waiting, the last of which has just been recovered.
    Fresh { origin: u16, restarted: bool, orientation: Orientation, index: int },
}

impl Progress {
    /// Whether `backlog` may be waiting in `decoder`.
    pub(crate) closed spec fn on_track<BP: BufferPool, Recv: Receiver<BP::P>>(
        self,
        decoder: DecoderView<BP, Recv>,
        backlog: Seq<BP::P>,
    ) -> bool {
        &&& backlog.len() <= 10
        &&& match decoder.running {
            Some((geometry, matrix)) => {
                &&& valid_matrix(geometry, matrix)
                &&& self.describes(matrix, backlog)
            },
            None => backlog.len() == 0,
        }
    }

    /// Whether `backlog` may be waiting beside `matrix`.
    spec fn describes<P: Packet>(self, matrix: MatrixView<P>, backlog: Seq<P>) -> bool {
        match self {
            Progress::Launched => is_launched(matrix, backlog),
            Progress::Waiting { origin, restarted } => is_waiting(
                origin,
                restarted,
                matrix,
                backlog,
            ),
            Progress::Fresh { origin, restarted, orientation, index } => {
                &&& is_fresh(origin, restarted, orientation, index, matrix, backlog)
                &&& stride(orientation) <= remaining(origin, matrix)
            },
        }
    }

    /// How often the window may still start anew, counting places from elsewhere.
    spec fn stages(self) -> nat {
        match self {
            Progress::Launched => 2,
            Progress::Waiting { restarted, .. } | Progress::Fresh { restarted, .. } => if restarted {
                0
            } else {
                1
            },
        }
    }

    /// How far the packets that are still to be recovered can make the window move on.
    spec fn effort<P: Packet>(self, matrix: MatrixView<P>) -> int {
        match self {
            Progress::Launched => 0,
            Progress::Waiting { origin, .. } => remaining(origin, matrix) as int,
            Progress::Fresh { origin, orientation, .. } => remaining(origin, matrix) - stride(
                orientation,
            ),
        }
    }

    /// A bound on the number of packets that are still to be inserted.
    pub(crate) closed spec fn rank<BP: BufferPool, Recv: Receiver<BP::P>>(
        self,
        decoder: DecoderView<BP, Recv>,
        backlog: Seq<BP::P>,
    ) -> int {
        match decoder.running {
            Some((_, matrix)) => self.stages() * 104_731 + self.effort(matrix) * 11
                + backlog.len(),
            None => 0,
        }
    }

    /// The backlog is short.
    pub(crate) proof fn lemma_on_track<BP: BufferPool, Recv: Receiver<BP::P>>(
        self,
        decoder: DecoderView<BP, Recv>,
        backlog: Seq<BP::P>,
    )
        requires
            self.on_track(decoder, backlog),
        ensures
            backlog.len() <= 10,
    {
    }

    /// The packet that is inserted next does not make the window outgrow its limit.
    pub(crate) proof fn lemma_admitted<BP: BufferPool, Recv: Receiver<BP::P>>(
        self,
        decoder: DecoderView<BP, Recv>,
        backlog: Seq<BP::P>,
    )
        requires
            self.on_track(decoder, backlog),
            backlog.len() > 0,
        ensures
            decoder.running matches Some((_, matrix)) && matrix.main.admits(
                rtp_sequence(backlog.last().bytes()),
            ),
    {
        let (geometry, matrix) = decoder.running->0;
        let main = matrix.main;
        let packet = backlog.last();
        let seq = seq_of(packet);
        let item = (packet.bytes(), PacketStatus::Recovered);
        lemma_limits(geometry, matrix);
        match self {
            Progress::Launched => {
                law_admits(main, seq);
            },
            Progress::Waiting { origin, restarted } => {
                lemma_remaining_bound(geometry, origin, matrix);
                assert(backlog[backlog.len() - 1] == packet);
                assert(0 <= place(origin, seq) <= reach(origin, restarted, matrix));
                if main.slots.len() == 0 {
                    law_admits(main, seq);
                } else if place(origin, seq) < place(origin, main.start) {
                    lemma_dropped(origin, main, seq, item);
                } else {
                    lemma_stored(origin, main, seq, item);
                }
            },
            Progress::Fresh { .. } => {
                let (orientation, index) = (self->Fresh_orientation, self->Fresh_index);
                lemma_aim_is_not_early(matrix, orientation, index, seq);
                law_admits(main, seq);
            },
        }
    }

    /// There is always a number of packets that is not exceeded.
    pub(crate) proof fn lemma_rank<BP: BufferPool, Recv: Receiver<BP::P>>(
        self,
        decoder: DecoderView<BP, Recv>,
        backlog: Seq<BP::P>,
    )
        requires
            self.on_track(decoder, backlog),
        ensures
            backlog.len() <= self.rank(decoder, backlog) <= 209_482,
    {
        if let Some((geometry, matrix)) = decoder.running {
            match self {
                Progress::Launched => {},
                Progress::Waiting { origin, .. } | Progress::Fresh { origin, .. } => {
                    lemma_remaining_bound(geometry, origin, matrix);
                },
            }
        }
    }

    /// How a packet that is inserted changes the places in use.
    proof fn lemma_insert<P: Packet>(
        self,
        geometry: FecGeometry,
        matrix: MatrixView<P>,
        backlog: Seq<P>,
        matrix2: MatrixView<P>,
    ) -> (res: (u16, bool))
        requires
            valid_matrix(geometry, matrix),
            valid_matrix(geometry, matrix2),
            0 < backlog.len() <= 10,
            self.describes(matrix, backlog),
            matrix2 == matrix.with_main(
                seq_of(backlog.last()),
                (backlog.last(), PacketStatus::Recovered),
            ),
        ensures
            is_waiting(res.0, res.1, matrix2, backlog.drop_last()),
            0 <= place(res.0, seq_of(backlog.last())) <= FARTHEST,
            (Progress::Waiting { origin: res.0, restarted: res.1 }).stages() <= self.stages(),
            (Progress::Waiting { origin: res.0, restarted: res.1 }).stages() == self.stages()
                ==> remaining(res.0, matrix2) <= self.effort(matrix),
    {
        match self {
            Progress::Launched => (lemma_insert_launched(geometry, matrix, backlog), false),
            Progress::Waiting { origin, restarted } => (
                origin,
                lemma_insert_waiting(geometry, origin, restarted, matrix, backlog),
            ),
            Progress::Fresh { origin, restarted, orientation, index } => {
                lemma_insert_fresh(
                    geometry,
                    origin,
                    restarted,
                    orientation,
                    index,
                    matrix,
                    backlog,
                );
                (origin, restarted)
            },
        }
    }

    /// With each packet that is inserted fewer remain to be inserted, even though others may have
    /// been recovered.
    pub(crate) proof fn lemma_advance<BP: BufferPool, Recv: Receiver<BP::P>>(
        self,
        decoder: DecoderView<BP, Recv>,
        backlog: Seq<BP::P>,
        after: DecoderView<BP, Recv>,
        backlog2: Seq<BP::P>,
    ) -> (next: Progress)
        requires
            self.on_track(decoder, backlog),
            decoder.valid(),
            backlog.len() > 0,
            decoder.inserts_main(
                rtp_sequence(backlog.last().bytes()),
                (backlog.last(), PacketStatus::Recovered),
                backlog.drop_last(),
                after,
                backlog2,
                Ok(Ok(())),
            ),
        ensures
            next.on_track(after, backlog2),
            next.rank(after, backlog2) < self.rank(decoder, backlog),
    {
        let (geometry, matrix) = decoder.running->0;
        let seq = seq_of(backlog.last());
        let item = (backlog.last(), PacketStatus::Recovered);
        let rest = backlog.drop_last();
        let (matrix2, recv2, corrections) = lemma_inserted_main(
            decoder,
            seq,
            item,
            rest,
            after,
            backlog2,
        );
        law_inserts_main_frame(decoder, seq, item, rest, after, backlog2, Ok(Ok(())));
        lemma_inserted(
            decoder.pool,
            matrix,
            decoder.recv,
            seq,
            item,
            matrix2,
            recv2,
            corrections,
        );
        let (origin, restarted) = self.lemma_insert(geometry, matrix, backlog, matrix2);
        let fresh = lemma_queue_recovered(
            decoder.pool,
            geometry,
            origin,
            restarted,
            matrix2,
            rest,
            seq,
            corrections,
        );
        lemma_remaining_bound(geometry, origin, matrix2);
        match fresh {
            Some((orientation, index)) => Progress::Fresh { origin, restarted, orientation, index },
            None => Progress::Waiting { origin, restarted },
        }
    }

    /// A packet that is left out, because the decoder holds it already, is one fewer to be inserted.
    pub(crate) proof fn lemma_skip<BP: BufferPool, Recv: Receiver<BP::P>>(
        self,
        decoder: DecoderView<BP, Recv>,
        backlog: Seq<BP::P>,
    ) -> (next: Progress)
        requires
            self.on_track(decoder, backlog),
            backlog.len() > 0,
            decoder.holds(rtp_sequence(backlog.last().bytes())),
        ensures
            next.on_track(decoder, backlog.drop_last()),
            next.rank(decoder, backlog.drop_last()) < self.rank(decoder, backlog),
    {
        let matrix = (decoder.running->0).1;
        if let Progress::Fresh { orientation, index, .. } = self {
            lemma_aim_is_not_early(matrix, orientation, index, seq_of(backlog.last()));
        }
        self
    }

    /// What a packet of the media stream leaves to be inserted.
    pub(crate) proof fn lemma_begun_by_media<BP: BufferPool, Recv: Receiver<BP::P>>(
        decoder: DecoderView<BP, Recv>,
        seq: u16,
        packet: (BP::P, PacketStatus),
        after: DecoderView<BP, Recv>,
        backlog: Seq<BP::P>,
    )
        requires
            decoder.valid(),
            seq == rtp_sequence(packet.0.bytes()),
            decoder.inserts_main(seq, packet, Seq::empty(), after, backlog, Ok(Ok(()))),
        ensures
            Progress::Launched.on_track(after, backlog),
    {
        if let Some((geometry, matrix)) = decoder.running {
            let none = Seq::<BP::P>::empty();
            let (matrix2, recv2, corrections) = lemma_inserted_main(
                decoder,
                seq,
                packet,
                none,
                after,
                backlog,
            );
            law_inserts_main_frame(decoder, seq, packet, none, after, backlog, Ok(Ok(())));
            lemma_inserted(
                decoder.pool,
                matrix,
                decoder.recv,
                seq,
                packet,
                matrix2,
                recv2,
                corrections,
            );
            lemma_launched_by_media(decoder.pool, geometry, matrix2, seq, corrections);
            assert(backlog =~= corrected(corrections));
        }
    }

    /// What a FEC packet leaves to be inserted.
    pub(crate) proof fn lemma_begun_by_fec<BP: BufferPool, Recv: Receiver<BP::P>>(
        decoder: DecoderView<BP, Recv>,
        orientation: Orientation,
        seq: u16,
        packet: BP::P,
        after: DecoderView<BP, Recv>,
        backlog: Seq<BP::P>,
    )
        requires
            decoder.valid(),
            decoder.running matches Some((geometry, _)) ==> fits_geometry(
                geometry,
                orientation,
                packet.bytes(),
            ),
            decoder.inserts_fec(orientation, seq, packet, Seq::empty(), after, backlog, Ok(Ok(()))),
        ensures
            Progress::Launched.on_track(after, backlog),
    {
        if let Some((geometry, matrix)) = decoder.running {
            reveal(inserts_fec);
            let none = Seq::<BP::P>::empty();
            let outcome: Outcome = Ok(Ok(()));
            let (matrix2, res) = choose|
                matrix2: MatrixView<BP::P>,
                res: Result<Option<BP::P>, Refusal>,
            |
                {
                    &&& #[trigger] inserts_fec(
                        decoder.pool,
                        matrix,
                        orientation,
                        seq,
                        packet,
                        matrix2,
                        res,
                    )
                    &&& after == decoder.with_matrix(matrix2, decoder.recv)
                    &&& match res {
                        Ok(Some(correction)) => {
                            &&& backlog == queued(none, seq![correction])
                            &&& outcome == Ok::<_, Refusal>(queues(none, seq![correction]))
                        },
                        Ok(None) => {
                            &&& backlog == none
                            &&& outcome == Ok::<_, Refusal>(Ok::<(), FecDecodeError>(()))
                        },
                        Err(refusal) => backlog == none && outcome == Err::<
                            Result<(), FecDecodeError>,
                            _,
                        >(refusal),
                    }
                };
            law_inserts_fec_packet_frame(
                decoder,
                orientation,
                seq,
                packet,
                none,
                after,
                backlog,
                outcome,
            );
            if let Some(correction) = res->Ok_0 {
                lemma_launched_by_fec(decoder.pool, matrix2, orientation, seq, correction);
                assert(backlog =~= seq![correction]);
            }
        }
    }

    /// No more rounds follow than packets may remain to be inserted.
    proof fn lemma_rounds<BP: BufferPool, Recv: Receiver<BP::P>>(
        self,
        decoder: DecoderView<BP, Recv>,
        backlog: Seq<BP::P>,
        n: nat,
        after: DecoderView<BP, Recv>,
        backlog2: Seq<BP::P>,
    )
        requires
            decoder.valid(),
            self.on_track(decoder, backlog),
            decoder.rounds(n, backlog, after, backlog2),
        ensures
            n <= self.rank(decoder, backlog),
        decreases n,
    {
        self.lemma_rank(decoder, backlog);
        if n == 0 {
        } else if decoder.holds(rtp_sequence(backlog.last().bytes())) {
            let next = self.lemma_skip(decoder, backlog);
            next.lemma_rounds(decoder, backlog.drop_last(), (n - 1) as nat, after, backlog2);
        } else {
            let packet = backlog.last();
            let (after1, backlog1) = choose|
                after1: DecoderView<BP, Recv>,
                backlog1: Seq<BP::P>,
            |
                {
                    &&& #[trigger] decoder.inserts_main(
                        rtp_sequence(packet.bytes()),
                        (packet, PacketStatus::Recovered),
                        backlog.drop_last(),
                        after1,
                        backlog1,
                        Ok(Ok(())),
                    )
                    &&& after1.rounds((n - 1) as nat, backlog1, after, backlog2)
                };
            let next = self.lemma_advance(decoder, backlog, after1, backlog1);
            law_inserts_main_frame(
                decoder,
                rtp_sequence(packet.bytes()),
                (packet, PacketStatus::Recovered),
                backlog.drop_last(),
                after1,
                backlog1,
                Ok(Ok(())),
            );
            next.lemma_rounds(after1, backlog1, (n - 1) as nat, after, backlog2);
        }
    }
}

/// Recovered packets may make further recoveries possible, but not without end: a packet that the
/// decoder takes never leads to more than 209482 rounds of insertion, whatever FEC packets the decoder
/// holds.
pub proof fn law_recoveries_end<BP: BufferPool, Recv: Receiver<BP::P>>(
    decoder: DecoderView<BP, Recv>,
    stream: Stream,
    packet: BP::P,
    after1: DecoderView<BP, Recv>,
    backlog1: Seq<BP::P>,
    n: nat,
    after: DecoderView<BP, Recv>,
    backlog: Seq<BP::P>,
)
    requires
        decoder.valid(),
        decoder.begins(stream, packet, after1, backlog1),
        after1.rounds(n, backlog1, after, backlog),
    ensures
        n <= 209_482,
{
    let seq = rtp_sequence(packet.bytes());
    let none = Seq::<BP::P>::empty();
    match stream {
        Stream::Main => {
            let item = (packet, PacketStatus::Received);
            Progress::lemma_begun_by_media(decoder, seq, item, after1, backlog1);
            law_inserts_main_frame(decoder, seq, item, none, after1, backlog1, Ok(Ok(())));
        },
        Stream::Fec(orientation) => {
            let header = fec_packet(orientation, packet.bytes())->Ok_0->Ok_0;
            law_merged_agrees(decoder, header);
            let merged = decoder.merged(header)->Ok_0;
            Progress::lemma_begun_by_fec(merged, orientation, seq, packet, after1, backlog1);
            law_inserts_fec_packet_frame(
                merged,
                orientation,
                seq,
                packet,
                none,
                after1,
                backlog1,
                Ok(Ok(())),
            );
        },
    }
    Progress::Launched.lemma_rank(after1, backlog1);
    Progress::Launched.lemma_rounds(after1, backlog1, n, after, backlog);
}

} // verus!
