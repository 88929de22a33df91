//! What the matrix of media packets and FEC packets holds, and how packets inserted into it lead to
//! corrections.

use crate::fec::{
    fec_error, fec_header, fec_readable, law_associated_packets, law_fec_data_is_readable,
    protected_seq, FecHeader, Orientation,
};
use crate::packet::{BufferPool, Packet, PacketStatus, Receiver};
use crate::recovery::{
    is_stream, law_lost_packet_is_recovered, law_recovered_header, protects, Recovery, Refusal,
};
use crate::rtp::{rtp_error, rtp_payload, rtp_sequence};
use crate::sequence::{seq_diff, seq_lt};
use crate::window::{
    law_admits, law_insert_reads_back, lemma_insert_every, packets_in, Window,
};
use vstd::prelude::*;

verus! {

/// The media packets that became available through error correction.
pub enum Corrections<P> {
    Zero,
    One(P),
    Two(P, P),
}

/// What a [`FecMatrix`] holds: the bytes of the media packets, and the FEC packets.
#[verifier::ext_equal]
pub struct MatrixView<P> {
    pub main: Window<Seq<u8>>,
    pub row: Window<P>,
    pub col: Window<P>,
}

/// The FEC data in `packet`: the payload of the RTP packet that it is, where that begins with a FEC
/// header.
pub open spec fn fec_in(packet: Seq<u8>) -> Result<Option<Seq<u8>>, Refusal> {
    if rtp_error(packet) is Some {
        Ok(None)
    } else if !fec_readable(rtp_payload(packet)) {
        Err(Refusal::FecTruncated)
    } else if fec_error(rtp_payload(packet)) is Some {
        Ok(None)
    } else {
        Ok(Some(rtp_payload(packet)))
    }
}

/// Whether `packet` is a FEC packet: an RTP packet whose payload begins with a FEC header.
pub open spec fn is_fec_packet(packet: Seq<u8>) -> bool {
    rtp_error(packet) is None && fec_error(rtp_payload(packet)) is None
}

/// Whether there is a FEC packet in the entry that covers the media packet `seq`.
pub open spec fn covers_media<P: Packet>(slot: Option<(P, PacketStatus)>, seq: u16) -> bool {
    &&& slot matches Some((packet, _))
    &&& is_fec_packet(packet.bytes())
    &&& fec_header(rtp_payload(packet.bytes())).covers(seq)
}

/// Whether the entry at index `i` is the first with a FEC packet that covers the media packet `seq`.
pub open spec fn is_first_cover<P: Packet>(window: Window<P>, i: int, seq: u16) -> bool {
    &&& 0 <= i < window.slots.len()
    &&& covers_media(window.slots[i], seq)
    &&& forall|k: int| 0 <= k < i ==> !covers_media(#[trigger] window.slots[k], seq)
}

/// Whether it can be told of the packet in the entry, if any, whether it is a FEC packet.
pub open spec fn is_legible_entry<P: Packet>(slot: Option<(P, PacketStatus)>) -> bool {
    slot matches Some((packet, _)) ==> rtp_error(packet.bytes()) is Some || fec_readable(
        rtp_payload(packet.bytes()),
    )
}

/// Whether the entry for `fec_seq` is the first with a FEC packet that covers the media packet `seq`,
/// and there is no entry before it of which that could not be told.
pub open spec fn covers_first<P: Packet>(window: Window<P>, fec_seq: u16, seq: u16) -> bool {
    exists|i: int|
        {
            &&& #[trigger] is_first_cover(window, i, seq)
            &&& fec_seq == (window.start + i) % 0x1_0000
            &&& forall|k: int| 0 <= k < i ==> is_legible_entry(#[trigger] window.slots[k])
        }
}

/// Whether there is no FEC packet in the window that covers the media packet `seq`.
pub open spec fn is_uncovered<P: Packet>(window: Window<P>, seq: u16) -> bool {
    forall|k: int| 0 <= k < window.slots.len() ==> !covers_media(#[trigger] window.slots[k], seq)
}

/// Whether it can be told of every packet in the window whether it is a FEC packet.
pub open spec fn is_legible<P: Packet>(window: Window<P>) -> bool {
    forall|k: int| 0 <= k < window.slots.len() ==> is_legible_entry(#[trigger] window.slots[k])
}

/// The index of the first FEC packet in `slots` that covers the media packet `seq`.
pub open spec fn first_covering<P: Packet>(
    slots: Seq<Option<(P, PacketStatus)>>,
    seq: u16,
) -> Result<Option<int>, Refusal>
    decreases slots.len(),
{
    if slots.len() == 0 {
        Ok(None)
    } else {
        match first_covering(slots.drop_last(), seq) {
            Ok(None) => match slots.last() {
                Some((packet, _)) => match fec_in(packet.bytes()) {
                    Ok(Some(data)) => if fec_header(data).covers(seq) {
                        Ok(Some(slots.len() - 1))
                    } else {
                        Ok(None)
                    },
                    Ok(None) => Ok(None),
                    Err(refusal) => Err(refusal),
                },
                None => Ok(None),
            },
            other => other,
        }
    }
}

/// Those of `seqs` for which `window` has no packet, leaving out any that come before the start of
/// the window.
pub open spec fn missing_among<P>(window: Window<P>, seqs: Seq<u16>) -> Seq<u16>
    decreases seqs.len(),
{
    if seqs.len() == 0 {
        Seq::empty()
    } else {
        let missing = missing_among(window, seqs.drop_last());
        if !seq_lt(seqs.last(), window.start) && window.get(seqs.last()) is None {
            missing.push(seqs.last())
        } else {
            missing
        }
    }
}

/// The packets of `window` that are present among `seqs`.
pub open spec fn present_among(window: Window<Seq<u8>>, seqs: Seq<u16>) -> Seq<Seq<u8>> {
    let packets = packets_in(Seq::new(seqs.len(), |i: int| window.get(seqs[i])));
    Seq::new(packets.len(), |i: int| packets[i].0)
}

impl<P: Packet> MatrixView<P> {
    /// Whether the matrix could have come about.
    pub open spec fn valid(self) -> bool {
        &&& self.main.valid()
        &&& self.row.valid()
        &&& self.col.valid()
    }

    pub open spec fn fec_packets(self, orientation: Orientation) -> Window<P> {
        match orientation {
            Orientation::Row => self.row,
            Orientation::Column => self.col,
        }
    }

    /// The sequence number of the first FEC packet that covers the media packet `seq`.
    pub open spec fn covering(self, orientation: Orientation, seq: u16) -> Result<
        Option<u16>,
        Refusal,
    > {
        let fec_packets = self.fec_packets(orientation);
        match first_covering(fec_packets.slots, seq) {
            Ok(Some(index)) => Ok(Some(fec_packets.seq_at(index))),
            Ok(None) => Ok(None),
            Err(refusal) => Err(refusal),
        }
    }

    /// Whether all the media packets associated with a FEC packet belong into the window, or after
    /// it, and none before its first entry.
    pub open spec fn in_range(self, header: FecHeader) -> bool {
        &&& self.main.slots.len() > 0
        &&& forall|i: int|
            0 <= i < header.associated().len() ==> !self.main.too_early(
                #[trigger] header.associated()[i],
            )
    }

    /// The one media packet that is missing among those associated with a FEC packet, where it is
    /// just one, and none of them comes before the first entry of the window.
    pub open spec fn single_missing(self, header: FecHeader) -> Option<u16> {
        let missing = missing_among(self.main, header.associated());
        if self.in_range(header) && missing.len() == 1 {
            Some(missing[0])
        } else {
            None
        }
    }

    /// Recovery of the media packet `seq` by means of a FEC packet with the payload `data`.
    pub open spec fn recovery(self, data: Seq<u8>, seq: u16) -> Recovery {
        Recovery {
            header: fec_header(data),
            fec_payload: data.skip(16),
            present: present_among(self.main, fec_header(data).associated()),
            seq,
        }
    }

    /// The recovery that the FEC packet with the sequence number `seq` makes possible, if any.
    pub open spec fn opportunity(self, orientation: Orientation, seq: u16) -> Result<
        Option<Recovery>,
        Refusal,
    > {
        match self.fec_packets(orientation).get(seq) {
            Some((packet, _)) => match fec_in(packet.bytes()) {
                Ok(Some(data)) => match self.single_missing(fec_header(data)) {
                    Some(missing) => Ok(Some(self.recovery(data, missing))),
                    None => Ok(None),
                },
                Ok(None) => Ok(None),
                Err(refusal) => Err(refusal),
            },
            None => Ok(None),
        }
    }

    /// The recovery made possible by the first FEC packet that covers the media packet `seq`, if
    /// any.
    pub open spec fn opportunity_around(self, orientation: Orientation, seq: u16) -> Result<
        Option<Recovery>,
        Refusal,
    > {
        match self.covering(orientation, seq) {
            Ok(Some(fec_seq)) => self.opportunity(orientation, fec_seq),
            Ok(None) => Ok(None),
            Err(refusal) => Err(refusal),
        }
    }

    /// The matrix with `packet` inserted among the media packets.
    pub open spec fn with_main(self, seq: u16, packet: (P, PacketStatus)) -> MatrixView<P> {
        MatrixView { main: self.main.insert(seq, (packet.0.bytes(), packet.1)), ..self }
    }

    /// The matrix with `packet` inserted among the FEC packets.
    pub open spec fn with_fec(
        self,
        orientation: Orientation,
        seq: u16,
        packet: P,
    ) -> MatrixView<P> {
        match orientation {
            Orientation::Row => MatrixView {
                row: self.row.insert(seq, (packet, PacketStatus::Received)),
                ..self
            },
            Orientation::Column => MatrixView {
                col: self.col.insert(seq, (packet, PacketStatus::Received)),
                ..self
            },
        }
    }
}

/// Whether `recovery`, with a packet from `pool`, may come out as `outcome`.  Nothing is recovered
/// where the pool is exhausted.
pub open spec fn recovers<BP: BufferPool>(
    pool: BP,
    recovery: Recovery,
    outcome: Result<Option<BP::P>, Refusal>,
) -> bool {
    exists|allocated: Option<BP::P>|
        {
            &&& #[trigger] pool.may_allocate(allocated)
            &&& match allocated {
                Some(fresh) => {
                    &&& fresh.bytes().len() == pool.packet_size()
                    &&& recovery.comes_out(fresh.bytes(), outcome)
                },
                None => outcome == Ok::<Option<BP::P>, Refusal>(None),
            }
        }
}

/// Whether taking up `opportunity` may come out as `outcome`.
pub open spec fn takes_up<BP: BufferPool>(
    pool: BP,
    opportunity: Result<Option<Recovery>, Refusal>,
    outcome: Result<Option<BP::P>, Refusal>,
) -> bool {
    match opportunity {
        Ok(Some(recovery)) => recovers(pool, recovery, outcome),
        Ok(None) => outcome == Ok::<Option<BP::P>, Refusal>(None),
        Err(refusal) => outcome == Err::<Option<BP::P>, Refusal>(refusal),
    }
}

/// The corrections that a column and a row give.
pub open spec fn corrections_of<P>(column: Option<P>, row: Option<P>) -> Corrections<P> {
    match (column, row) {
        (None, None) => Corrections::Zero,
        (Some(a), None) => Corrections::One(a),
        (None, Some(b)) => Corrections::One(b),
        (Some(a), Some(b)) => Corrections::Two(a, b),
    }
}

/// Whether looking for corrections in the column, and then in the row, of the media packet `seq`
/// may come out as `outcome`.
#[verifier::opaque]
pub open spec fn yields<BP: BufferPool>(
    pool: BP,
    matrix: MatrixView<BP::P>,
    seq: u16,
    outcome: Result<Corrections<BP::P>, Refusal>,
) -> bool {
    exists|column: Result<Option<BP::P>, Refusal>|
        {
            &&& #[trigger] takes_up(
                pool,
                matrix.opportunity_around(Orientation::Column, seq),
                column,
            )
            &&& match column {
                Ok(a) => exists|row: Result<Option<BP::P>, Refusal>|
                    {
                        &&& #[trigger] takes_up(
                            pool,
                            matrix.opportunity_around(Orientation::Row, seq),
                            row,
                        )
                        &&& match row {
                            Ok(b) => outcome == Ok::<Corrections<BP::P>, Refusal>(
                                corrections_of(a, b),
                            ),
                            Err(refusal) => outcome == Err::<Corrections<BP::P>, Refusal>(refusal),
                        }
                    },
                Err(refusal) => outcome == Err::<Corrections<BP::P>, Refusal>(refusal),
            }
        }
}

/// Whether inserting a media packet into `matrix` may leave `matrix2`, and its receiver `recv2`,
/// and come out as `outcome`.  The packet is stored and handed to the receiver at once; then its
/// column and its row are searched for corrections.
#[verifier::opaque]
pub open spec fn inserts<BP: BufferPool, Recv: Receiver<BP::P>>(
    pool: BP,
    matrix: MatrixView<BP::P>,
    recv: Recv,
    seq: u16,
    packet: (BP::P, PacketStatus),
    matrix2: MatrixView<BP::P>,
    recv2: Recv,
    outcome: Result<Corrections<BP::P>, Refusal>,
) -> bool {
    if matrix.main.admits(seq) {
        &&& matrix2 == matrix.with_main(seq, packet)
        &&& Recv::received(recv, seq![packet], recv2)
        &&& yields(pool, matrix2, seq, outcome)
    } else {
        &&& matrix2 == matrix
        &&& recv2 == recv
        &&& outcome == Err::<Corrections<BP::P>, Refusal>(Refusal::WindowOverrun)
    }
}

/// Whether inserting a FEC packet into `matrix` may leave `matrix2`, and come out as `outcome`.
#[verifier::opaque]
pub open spec fn inserts_fec<BP: BufferPool>(
    pool: BP,
    matrix: MatrixView<BP::P>,
    orientation: Orientation,
    seq: u16,
    packet: BP::P,
    matrix2: MatrixView<BP::P>,
    outcome: Result<Option<BP::P>, Refusal>,
) -> bool {
    if matrix.fec_packets(orientation).admits(seq) {
        &&& matrix2 == matrix.with_fec(orientation, seq, packet)
        &&& takes_up(pool, matrix2.opportunity(orientation, seq), outcome)
    } else {
        &&& matrix2 == matrix
        &&& outcome == Err::<Option<BP::P>, Refusal>(Refusal::WindowOverrun)
    }
}

/// The matrix without packets.
pub open spec fn empty_matrix<P>(cols: nat, rows: nat) -> MatrixView<P> {
    MatrixView {
        main: Window::with_limit(cols * rows * 2),
        row: Window::with_limit(rows),
        col: Window::with_limit(cols),
    }
}

/// Whether a media packet can be inserted into `matrix` without being refused.
pub open spec fn accepts<BP: BufferPool, Recv: Receiver<BP::P>>(
    pool: BP,
    matrix: MatrixView<BP::P>,
    recv: Recv,
    seq: u16,
    packet: (BP::P, PacketStatus),
) -> bool {
    forall|matrix2: MatrixView<BP::P>, recv2: Recv, outcome: Result<Corrections<BP::P>, Refusal>|
        #[trigger] inserts(pool, matrix, recv, seq, packet, matrix2, recv2, outcome) ==> outcome
            is Ok
}

/// Whether a FEC packet can be inserted into `matrix` without being refused.
pub open spec fn accepts_fec<BP: BufferPool>(
    pool: BP,
    matrix: MatrixView<BP::P>,
    orientation: Orientation,
    seq: u16,
    packet: BP::P,
) -> bool {
    forall|matrix2: MatrixView<BP::P>, outcome: Result<Option<BP::P>, Refusal>|
        #[trigger] inserts_fec(pool, matrix, orientation, seq, packet, matrix2, outcome) ==> outcome
            is Ok
}

/// What is found first among some of the FEC packets is found first among all of them.
pub(crate) proof fn lemma_first_covering_prefix<P: Packet>(
    slots: Seq<Option<(P, PacketStatus)>>,
    seq: u16,
    n: int,
)
    requires
        0 <= n <= slots.len(),
        first_covering(slots.take(n), seq) != Ok::<Option<int>, Refusal>(None),
    ensures
        first_covering(slots, seq) == first_covering(slots.take(n), seq),
    decreases slots.len() - n,
{
    if n == slots.len() {
        assert(slots.take(n) =~= slots);
    } else {
        assert(slots.take(n + 1).drop_last() =~= slots.take(n));
        lemma_first_covering_prefix(slots, seq, n + 1);
    }
}

/// What the search for a FEC packet finds.
pub(crate) proof fn lemma_search<P: Packet>(slots: Seq<Option<(P, PacketStatus)>>, seq: u16)
    ensures
        match first_covering(slots, seq) {
            Ok(Some(i)) => {
                &&& 0 <= i < slots.len()
                &&& covers_media(slots[i], seq)
                &&& forall|k: int|
                    0 <= k < i ==> !covers_media(#[trigger] slots[k], seq) && is_legible_entry(
                        slots[k],
                    )
            },
            Ok(None) => forall|k: int|
                0 <= k < slots.len() ==> !covers_media(#[trigger] slots[k], seq)
                    && is_legible_entry(slots[k]),
            Err(refusal) => {
                &&& refusal == Refusal::FecTruncated
                &&& exists|i: int|
                    {
                        &&& 0 <= i < slots.len()
                        &&& !is_legible_entry(#[trigger] slots[i])
                        &&& forall|k: int|
                            0 <= k < i ==> !covers_media(#[trigger] slots[k], seq)
                    }
            },
        },
    decreases slots.len(),
{
    if slots.len() > 0 {
        let rest = slots.drop_last();
        lemma_search(rest, seq);
        assert forall|k: int| 0 <= k < rest.len() implies rest[k] == #[trigger] slots[k] by {}
        assert(slots[slots.len() - 1] == slots.last());
    }
}

/// What the search for FEC packets is for: where there is a FEC packet that covers a media packet,
/// the search gives the sequence number of one, namely the first; and it gives none only where no
/// FEC packet covers the media packet.
pub proof fn law_search_finds_first_cover<P: Packet>(
    matrix: MatrixView<P>,
    orientation: Orientation,
    seq: u16,
)
    ensures
        is_legible(matrix.fec_packets(orientation)) ==> match matrix.covering(orientation, seq) {
            Ok(Some(fec_seq)) => exists|i: int|
                {
                    &&& #[trigger] is_first_cover(matrix.fec_packets(orientation), i, seq)
                    &&& fec_seq == (matrix.fec_packets(orientation).start + i) % 0x1_0000
                },
            Ok(None) => is_uncovered(matrix.fec_packets(orientation), seq),
            Err(_) => false,
        },
        forall|fec_seq: u16| #[trigger]
            covers_first(matrix.fec_packets(orientation), fec_seq, seq) <==> matrix.covering(
                orientation,
                seq,
            ) == Ok::<Option<u16>, Refusal>(Some(fec_seq)),
        is_legible(matrix.fec_packets(orientation)) && is_uncovered(
            matrix.fec_packets(orientation),
            seq,
        ) <==> matrix.covering(orientation, seq) == Ok::<Option<u16>, Refusal>(None),
        matrix.covering(orientation, seq) is Err ==> matrix.covering(orientation, seq) == Err::<
            Option<u16>,
            Refusal,
        >(Refusal::FecTruncated),
{
    let window = matrix.fec_packets(orientation);
    lemma_search(window.slots, seq);
    if let Ok(Some(i)) = first_covering(window.slots, seq) {
        assert(is_first_cover(window, i, seq));
        assert(covers_first(window, window.seq_at(i), seq));
    }
    assert forall|fec_seq: u16| #[trigger] covers_first(window, fec_seq, seq) implies matrix.covering(
        orientation,
        seq,
    ) == Ok::<Option<u16>, Refusal>(Some(fec_seq)) by {
        let i = choose|i: int|
            {
                &&& #[trigger] is_first_cover(window, i, seq)
                &&& fec_seq == (window.start + i) % 0x1_0000
                &&& forall|k: int| 0 <= k < i ==> is_legible_entry(#[trigger] window.slots[k])
            };
        assert(covers_media(window.slots[i], seq));
        assert(is_legible_entry(window.slots[i]));
        assert(first_covering(window.slots, seq) == Ok::<Option<int>, Refusal>(Some(i)));
    }
}

/// Where a FEC packet covers a media packet, the search does not depend on what stands behind it,
/// nor on which media packet is asked for among those that the FEC packet covers and that no FEC
/// packet before it covers.
pub proof fn law_search_treats_covered_packets_alike<P: Packet>(
    matrix: MatrixView<P>,
    orientation: Orientation,
    i: int,
    seq: u16,
    other: u16,
)
    requires
        is_legible(matrix.fec_packets(orientation)),
        is_first_cover(matrix.fec_packets(orientation), i, seq),
        is_first_cover(matrix.fec_packets(orientation), i, other),
    ensures
        matrix.covering(orientation, seq) == matrix.covering(orientation, other),
        matrix.opportunity_around(orientation, seq) == matrix.opportunity_around(
            orientation,
            other,
        ),
        matrix.covering(orientation, seq) matches Ok(Some(_)),
{
    law_search_finds_first_cover(matrix, orientation, seq);
    law_search_finds_first_cover(matrix, orientation, other);
    let window = matrix.fec_packets(orientation);
    let fec_seq = window.seq_at(i);
    assert(is_first_cover(window, i, seq) && is_first_cover(window, i, other));
    assert(covers_first(window, fec_seq, seq));
    assert(covers_first(window, fec_seq, other));
}

/// No fewer packets are missing among all of `seqs` than among some.
pub(crate) proof fn lemma_missing_among_grows<P>(window: Window<P>, seqs: Seq<u16>, n: int)
    requires
        0 <= n <= seqs.len(),
    ensures
        missing_among(window, seqs.take(n)).len() <= missing_among(window, seqs).len(),
    decreases seqs.len() - n,
{
    if n == seqs.len() {
        assert(seqs.take(n) =~= seqs);
    } else {
        assert(seqs.take(n + 1).drop_last() =~= seqs.take(n));
        lemma_missing_among_grows(window, seqs, n + 1);
    }
}

/// Inserting a media packet leaves the FEC packets alone, and keeps the matrix valid.  The packet
/// stays at its own number, even where it makes the recovery of others possible, unless it comes
/// before the first entry of the window.
pub proof fn law_inserts_frame<BP: BufferPool, Recv: Receiver<BP::P>>(
    pool: BP,
    matrix: MatrixView<BP::P>,
    recv: Recv,
    seq: u16,
    packet: (BP::P, PacketStatus),
    matrix2: MatrixView<BP::P>,
    recv2: Recv,
    outcome: Result<Corrections<BP::P>, Refusal>,
)
    requires
        matrix.valid(),
        matrix.main.limit < 0x8000,
        inserts(pool, matrix, recv, seq, packet, matrix2, recv2, outcome),
    ensures
        matrix2.valid(),
        matrix2.main.limit == matrix.main.limit,
        matrix2.row == matrix.row,
        matrix2.col == matrix.col,
        0 < matrix.main.limit && !matrix.main.too_early(seq) ==> matrix2.main.get(seq) == Some(
            (packet.0.bytes(), packet.1),
        ),
{
    reveal(inserts);
    if 0 < matrix.main.limit {
        law_admits(matrix.main, seq);
    }
    if matrix.main.admits(seq) {
        law_insert_reads_back(matrix.main, seq, (packet.0.bytes(), packet.1));
    }
}

/// Inserting a FEC packet leaves the media packets and the FEC packets for the other direction
/// alone, and keeps the matrix valid.
pub proof fn law_inserts_fec_frame<BP: BufferPool>(
    pool: BP,
    matrix: MatrixView<BP::P>,
    orientation: Orientation,
    seq: u16,
    packet: BP::P,
    matrix2: MatrixView<BP::P>,
    outcome: Result<Option<BP::P>, Refusal>,
)
    requires
        matrix.valid(),
        matrix.row.limit < 0x8000,
        matrix.col.limit < 0x8000,
        inserts_fec(pool, matrix, orientation, seq, packet, matrix2, outcome),
    ensures
        matrix2.valid(),
        matrix2.main == matrix.main,
        orientation == Orientation::Row ==> matrix2.col == matrix.col && matrix2.row.limit
            == matrix.row.limit,
        orientation == Orientation::Column ==> matrix2.row == matrix.row && matrix2.col.limit
            == matrix.col.limit,
        forall|f: spec_fn(BP::P) -> bool| #[trigger]
            matrix.fec_packets(orientation).every(f) && f(packet) ==> matrix2.fec_packets(
                orientation,
            ).every(f),
{
    reveal(inserts_fec);
    let window = matrix.fec_packets(orientation);
    if window.admits(seq) {
        law_insert_reads_back(window, seq, (packet, PacketStatus::Received));
        assert forall|f: spec_fn(BP::P) -> bool| #[trigger]
            window.every(f) && f(packet) implies matrix2.fec_packets(orientation).every(f) by {
            lemma_insert_every(window, seq, (packet, PacketStatus::Received), f);
        }
    }
}

/// What is missing is among those looked for, not present, and not too early; and everything of
/// that kind is missing.
pub(crate) proof fn lemma_missing_among<P>(window: Window<P>, seqs: Seq<u16>)
    ensures
        forall|seq: u16| #[trigger]
            missing_among(window, seqs).contains(seq) <==> {
                &&& seqs.contains(seq)
                &&& !seq_lt(seq, window.start)
                &&& window.get(seq) is None
            },
    decreases seqs.len(),
{
    let missing = missing_among(window, seqs);
    if seqs.len() > 0 {
        let rest = seqs.drop_last();
        let before = missing_among(window, rest);
        lemma_missing_among(window, rest);
        assert(seqs =~= rest.push(seqs.last()));
        assert forall|seq: u16| #[trigger] missing.contains(seq) <==> {
            &&& seqs.contains(seq)
            &&& !seq_lt(seq, window.start)
            &&& window.get(seq) is None
        } by {
            if seqs.contains(seq) {
                let i = choose|i: int| 0 <= i < seqs.len() && seqs[i] == seq;
                if i < rest.len() {
                    assert(rest[i] == seq);
                }
            }
            if rest.contains(seq) {
                let i = choose|i: int| 0 <= i < rest.len() && rest[i] == seq;
                assert(seqs[i] == seq);
            }
            if before.contains(seq) {
                let i = choose|i: int| 0 <= i < before.len() && before[i] == seq;
                assert(missing[i] == seq);
            }
            if missing.contains(seq) {
                let i = choose|i: int| 0 <= i < missing.len() && missing[i] == seq;
                if i < before.len() {
                    assert(before[i] == seq);
                }
            }
            if missing.len() > before.len() {
                assert(missing[before.len() as int] == seqs.last());
            }
            assert(seqs[seqs.len() - 1] == seqs.last());
        }
    }
}

/// A recovery is only ever attempted for a packet that the window then takes up: it is one of those
/// that the FEC packet protects, it is missing, and it does not come before the first entry.  All
/// the others that the FEC packet protects are present.
pub proof fn law_recovery_will_be_accepted<P: Packet>(
    matrix: MatrixView<P>,
    orientation: Orientation,
    fec_seq: u16,
    packet: (Seq<u8>, PacketStatus),
)
    requires
        matrix.valid(),
        matrix.main.limit < 0x8000,
        matrix.opportunity(orientation, fec_seq) matches Ok(Some(_)),
    ensures
        ({
            let recovery = (matrix.opportunity(orientation, fec_seq)->Ok_0)->0;
            &&& recovery.header.associated().contains(recovery.seq)
            &&& matrix.main.get(recovery.seq) is None
            &&& forall|seq: u16| #[trigger]
                recovery.header.associated().contains(seq) && seq != recovery.seq
                    ==> matrix.main.get(seq) is Some
            &&& matrix.main.admits(recovery.seq)
            &&& matrix.main.insert(recovery.seq, packet).get(recovery.seq) == Some(packet)
        }),
{
    let recovery = (matrix.opportunity(orientation, fec_seq)->Ok_0)->0;
    let seqs = recovery.header.associated();
    let missing = missing_among(matrix.main, seqs);
    lemma_missing_among(matrix.main, seqs);
    assert(missing.contains(missing[0]));
    assert forall|seq: u16| #[trigger]
        seqs.contains(seq) && seq != recovery.seq implies matrix.main.get(seq) is Some by {
        let i = choose|i: int| 0 <= i < seqs.len() && seqs[i] == seq;
        assert(!matrix.main.too_early(seqs[i]));
        assert(!missing.contains(seq));
    }
    law_admits(matrix.main, recovery.seq);
    law_insert_reads_back(matrix.main, recovery.seq, packet);
}

/// A recovered packet has the sequence number that was aimed for.
pub(crate) proof fn lemma_recovered_sequence<BP: BufferPool>(pool: BP, recovery: Recovery, packet: BP::P)
    requires
        recovers(pool, recovery, Ok(Some(packet))),
    ensures
        rtp_sequence(packet.bytes()) == recovery.seq,
{
    let outcome = Ok::<Option<BP::P>, Refusal>(Some(packet));
    let allocated = choose|allocated: Option<BP::P>|
        {
            &&& #[trigger] pool.may_allocate(allocated)
            &&& match allocated {
                Some(fresh) => {
                    &&& fresh.bytes().len() == pool.packet_size()
                    &&& recovery.comes_out(fresh.bytes(), outcome)
                },
                None => outcome == Ok::<Option<BP::P>, Refusal>(None),
            }
        };
    law_recovered_header(recovery, (allocated->0).bytes());
}

/// What is present among entries of which only one is a placeholder.
proof fn lemma_packets_in_remove<T>(slots: Seq<Option<T>>, k: int)
    requires
        0 <= k < slots.len(),
        forall|i: int| 0 <= i < slots.len() ==> (#[trigger] slots[i] is None <==> i == k),
    ensures
        packets_in(slots) == Seq::new((slots.len() - 1) as nat, |i: int| slots.remove(k)[i]->0),
    decreases slots.len(),
{
    let rest = slots.drop_last();
    let removed = slots.remove(k);
    if k == slots.len() - 1 {
        assert(removed =~= rest);
        lemma_packets_in_all(rest);
        assert(packets_in(slots) =~= Seq::new(
            (slots.len() - 1) as nat,
            |i: int| slots.remove(k)[i]->0,
        ));
    } else {
        lemma_packets_in_remove(rest, k);
        assert(removed.drop_last() =~= rest.remove(k));
        assert(slots[slots.len() - 1] is Some);
        assert(packets_in(slots) =~= Seq::new(
            (slots.len() - 1) as nat,
            |i: int| slots.remove(k)[i]->0,
        ));
    }
}

/// What is present among entries without placeholders.
proof fn lemma_packets_in_all<T>(slots: Seq<Option<T>>)
    requires
        forall|i: int| 0 <= i < slots.len() ==> #[trigger] slots[i] is Some,
    ensures
        packets_in(slots) == Seq::new(slots.len(), |i: int| slots[i]->0),
    decreases slots.len(),
{
    if slots.len() > 0 {
        lemma_packets_in_all(slots.drop_last());
        assert(slots[slots.len() - 1] is Some);
    }
    assert(packets_in(slots) =~= Seq::new(slots.len(), |i: int| slots[i]->0));
}

/// Where just one is missing, that one is all that is missing.
proof fn lemma_missing_one<P>(window: Window<P>, seqs: Seq<u16>, k: int)
    requires
        0 <= k < seqs.len(),
        forall|i: int|
            0 <= i < seqs.len() ==> (window.get(#[trigger] seqs[i]) is None <==> i == k),
        !seq_lt(seqs[k], window.start),
    ensures
        missing_among(window, seqs) == seq![seqs[k]],
    decreases seqs.len(),
{
    let rest = seqs.drop_last();
    if k == seqs.len() - 1 {
        lemma_missing_among(window, rest);
        let missing = missing_among(window, rest);
        if missing.len() > 0 {
            assert(missing.contains(missing[0]));
            let i = choose|i: int| 0 <= i < rest.len() && rest[i] == missing[0];
            assert(seqs[i] == missing[0]);
        }
        assert(missing_among(window, seqs) =~= seq![seqs[k]]);
    } else {
        lemma_missing_one(window, rest, k);
        assert(window.get(seqs[seqs.len() - 1]) is Some);
    }
}

/// Whether the media packets `packets` are those of one stream that the FEC packet `fec_seq`
/// protects, and all of them but the one at index `lost` are in the matrix.
pub open spec fn lacks_one<P: Packet>(
    matrix: MatrixView<P>,
    orientation: Orientation,
    fec_seq: u16,
    packets: Seq<Seq<u8>>,
    lost: int,
) -> bool {
    &&& matrix.fec_packets(orientation).get(fec_seq) matches Some((packet, _))
    &&& is_fec_packet(packet.bytes())
    &&& {
        let data = rtp_payload(packet.bytes());
        let header = fec_header(data);
        &&& protects(header, data.skip(16), packets)
        &&& is_stream(packets)
        &&& 2 <= packets.len() == header.number_associated
        &&& header.number_associated * header.offset <= 0x8000
        &&& 0 <= lost < packets.len()
        &&& forall|i: int|
            0 <= i < packets.len() && i != lost ==> {
                &&& matrix.main.get(protected_seq(header, i)) matches Some((present, _))
                &&& present == #[trigger] packets[i]
            }
        &&& rtp_sequence(packets[lost]) == protected_seq(header, lost)
        &&& matrix.main.get(rtp_sequence(packets[lost])) is None
        &&& matrix.main.slots.len() > 0
        &&& seq_diff(rtp_sequence(packets[lost]), matrix.main.start) >= 0
    }
}

/// Whether the media packet at index `lost` is the only one that is missing among those that a FEC
/// packet protects, and none of them comes before the first entry of the window.
pub open spec fn is_only_missing<P: Packet>(
    matrix: MatrixView<P>,
    header: FecHeader,
    lost: int,
) -> bool {
    &&& 0 <= lost < header.number_associated
    &&& matrix.main.slots.len() > 0
    &&& forall|i: int|
        0 <= i < header.number_associated ==> {
            &&& seq_diff(#[trigger] protected_seq(header, i), matrix.main.start) >= 0
            &&& matrix.main.get(protected_seq(header, i)) is None <==> i == lost
        }
}

/// The media packets that a FEC packet protects are different ones.
proof fn lemma_protected_are_distinct(header: FecHeader, i: int, j: int)
    requires
        header.offset > 0,
        header.number_associated * header.offset <= 0x8000,
        0 <= i < header.number_associated,
        0 <= j < header.number_associated,
        protected_seq(header, i) == protected_seq(header, j),
    ensures
        i == j,
{
    let na = header.number_associated as int;
    let offset = header.offset as int;
    if i < j {
        assert(0 < j * offset - i * offset <= na * offset) by (nonlinear_arith)
            requires
                0 <= i < j < na,
                0 < offset,
        ;
    } else if j < i {
        assert(0 < i * offset - j * offset <= na * offset) by (nonlinear_arith)
            requires
                0 <= j < i < na,
                0 < offset,
        ;
    }
}

/// What a FEC packet is good for: it makes a recovery possible where just one of the media packets
/// that it protects is missing, namely of that one, from the FEC packet and all the others; and
/// where none or more than one is missing, or some come before the first entry of the window, none.
pub proof fn law_one_missing_packet_can_be_recovered<P: Packet>(
    matrix: MatrixView<P>,
    orientation: Orientation,
    fec_seq: u16,
    packet: P,
)
    requires
        matrix.fec_packets(orientation).get(fec_seq) matches Some((held, _)) && held == packet,
        is_fec_packet(packet.bytes()),
        fec_header(rtp_payload(packet.bytes())).number_associated * fec_header(
            rtp_payload(packet.bytes()),
        ).offset <= 0x8000,
    ensures
        ({
            let data = rtp_payload(packet.bytes());
            let header = fec_header(data);
            &&& forall|lost: int| #[trigger]
                is_only_missing(matrix, header, lost) ==> {
                    &&& matrix.opportunity(orientation, fec_seq) matches Ok(Some(recovery))
                    &&& recovery.header == header
                    &&& recovery.fec_payload == data.skip(16)
                    &&& recovery.seq == protected_seq(header, lost)
                    &&& recovery.present.len() == header.number_associated - 1
                    &&& forall|k: int|
                        0 <= k < recovery.present.len() ==> #[trigger] recovery.present[k] == (
                        matrix.main.get(
                            protected_seq(
                                header,
                                if k < lost {
                                    k
                                } else {
                                    k + 1
                                },
                            ),
                        )->0).0
                }
            &&& (forall|lost: int| !is_only_missing(matrix, header, lost))
                ==> matrix.opportunity(orientation, fec_seq) == Ok::<Option<Recovery>, Refusal>(
                None,
            )
        }),
{
    let data = rtp_payload(packet.bytes());
    assert(fec_in(packet.bytes()) == Ok::<Option<Seq<u8>>, Refusal>(Some(data)));
    let header = fec_header(data);
    let seqs = header.associated();
    let main = matrix.main;
    law_associated_packets(header);
    assert forall|lost: int| #[trigger] is_only_missing(matrix, header, lost) implies {
        &&& matrix.opportunity(orientation, fec_seq) matches Ok(Some(recovery))
        &&& recovery == matrix.recovery(data, seqs[lost])
        &&& recovery.present.len() == header.number_associated - 1
        &&& forall|k: int|
            0 <= k < recovery.present.len() ==> #[trigger] recovery.present[k] == (main.get(
                protected_seq(
                    header,
                    if k < lost {
                        k
                    } else {
                        k + 1
                    },
                ),
            )->0).0
    } by {
        lemma_only_missing(matrix, data, lost);
    }
    if matrix.opportunity(orientation, fec_seq) matches Ok(Some(_)) {
        let missing = missing_among(main, seqs);
        lemma_missing_among(main, seqs);
        assert(missing.contains(missing[0]));
        let lost = choose|i: int| 0 <= i < seqs.len() && seqs[i] == missing[0];
        assert forall|i: int| 0 <= i < header.number_associated implies {
            &&& seq_diff(#[trigger] protected_seq(header, i), main.start) >= 0
            &&& main.get(protected_seq(header, i)) is None <==> i == lost
        } by {
            assert(seqs[i] == protected_seq(header, i));
            assert(!main.too_early(seqs[i]));
            assert(seqs.contains(seqs[i]));
            if main.get(seqs[i]) is None {
                assert(missing.contains(seqs[i]));
                lemma_protected_are_distinct(header, i, lost);
            }
        }
        assert(is_only_missing(matrix, header, lost));
    }
}

/// The recovery of the only packet that is missing.
proof fn lemma_only_missing<P: Packet>(matrix: MatrixView<P>, data: Seq<u8>, lost: int)
    requires
        fec_error(data) is None,
        fec_header(data).number_associated * fec_header(data).offset <= 0x8000,
        is_only_missing(matrix, fec_header(data), lost),
    ensures
        matrix.single_missing(fec_header(data)) == Some(protected_seq(fec_header(data), lost)),
        fec_header(data).associated()[lost] == protected_seq(fec_header(data), lost),
        ({
            let present = present_among(matrix.main, fec_header(data).associated());
            &&& present.len() == fec_header(data).number_associated - 1
            &&& forall|k: int|
                0 <= k < present.len() ==> #[trigger] present[k] == (matrix.main.get(
                    protected_seq(
                        fec_header(data),
                        if k < lost {
                            k
                        } else {
                            k + 1
                        },
                    ),
                )->0).0
        }),
{
    let header = fec_header(data);
    let seqs = header.associated();
    let main = matrix.main;
    law_associated_packets(header);
    assert forall|i: int| 0 <= i < seqs.len() implies (main.get(#[trigger] seqs[i]) is None <==> i
        == lost) && !main.too_early(seqs[i]) by {
        assert(seqs[i] == protected_seq(header, i));
    }
    lemma_missing_one(main, seqs, lost);
    let slots = Seq::new(seqs.len(), |i: int| main.get(seqs[i]));
    assert forall|i: int| 0 <= i < slots.len() implies (#[trigger] slots[i] is None <==> i
        == lost) by {
        assert(main.get(seqs[i]) is None <==> i == lost);
    }
    lemma_packets_in_remove(slots, lost);
    let present = present_among(main, seqs);
    assert forall|k: int| 0 <= k < present.len() implies #[trigger] present[k] == (main.get(
        protected_seq(
            header,
            if k < lost {
                k
            } else {
                k + 1
            },
        ),
    )->0).0 by {
        let j = if k < lost {
            k
        } else {
            k + 1
        };
        assert(slots.remove(lost)[k] == slots[j]);
        assert(seqs[j] == protected_seq(header, j));
    }
}

/// What becomes possible where just one of the packets that a FEC packet protects is missing.
proof fn lemma_lacks_one<P: Packet>(
    matrix: MatrixView<P>,
    orientation: Orientation,
    fec_seq: u16,
    packets: Seq<Seq<u8>>,
    lost: int,
)
    requires
        lacks_one(matrix, orientation, fec_seq, packets, lost),
    ensures
        matrix.opportunity(orientation, fec_seq) matches Ok(Some(recovery)) && {
            &&& recovery.present == packets.remove(lost)
            &&& recovery.seq == rtp_sequence(packets[lost])
            &&& protects(recovery.header, recovery.fec_payload, packets)
        },
{
    let packet = (matrix.fec_packets(orientation).get(fec_seq)->0).0;
    let header = fec_header(rtp_payload(packet.bytes()));
    assert forall|i: int| 0 <= i < header.number_associated implies {
        &&& seq_diff(#[trigger] protected_seq(header, i), matrix.main.start) >= 0
        &&& matrix.main.get(protected_seq(header, i)) is None <==> i == lost
    } by {
        assert(packets[i] == packets[i]);
    }
    assert(is_only_missing(matrix, header, lost));
    law_one_missing_packet_can_be_recovered(matrix, orientation, fec_seq, packet);
    let present = (matrix.opportunity(orientation, fec_seq)->Ok_0->0).present;
    assert forall|k: int| 0 <= k < present.len() implies #[trigger] present[k]
        == packets.remove(lost)[k] by {
        assert(packets.remove(lost)[k] == packets[if k < lost {
            k
        } else {
            k + 1
        }]);
    }
    assert(present =~= packets.remove(lost));
}

/// Where a FEC packet is at hand, and all the media packets that it protects but one, that one is
/// recovered byte for byte.  Only an exhausted pool can keep that from happening.
pub proof fn law_single_loss_is_corrected<BP: BufferPool>(
    pool: BP,
    matrix: MatrixView<BP::P>,
    orientation: Orientation,
    fec_seq: u16,
    packets: Seq<Seq<u8>>,
    lost: int,
    outcome: Result<Option<BP::P>, Refusal>,
)
    requires
        lacks_one(matrix, orientation, fec_seq, packets, lost),
        packets[lost].len() - 12 <= u16::MAX,
        packets[lost].len() <= pool.packet_size(),
        takes_up(pool, matrix.opportunity(orientation, fec_seq), outcome),
    ensures
        match outcome {
            Ok(Some(packet)) => packet.bytes() == packets[lost],
            Ok(None) => pool.may_allocate(None),
            Err(_) => false,
        },
{
    lemma_lacks_one(matrix, orientation, fec_seq, packets, lost);
    let recovery = matrix.opportunity(orientation, fec_seq)->Ok_0->0;
    let allocated = choose|allocated: Option<BP::P>|
        {
            &&& #[trigger] pool.may_allocate(allocated)
            &&& match allocated {
                Some(fresh) => {
                    &&& fresh.bytes().len() == pool.packet_size()
                    &&& recovery.comes_out(fresh.bytes(), outcome)
                },
                None => outcome == Ok::<Option<BP::P>, Refusal>(None),
            }
        };
    if let Some(fresh) = allocated {
        law_lost_packet_is_recovered(recovery, packets, lost, fresh.bytes());
    }
}

/// Where a media packet leaves just one packet missing of those that a FEC packet for its row
/// protects, and no FEC packet for its column covers it, that one is recovered byte for byte.  Only
/// an exhausted pool can keep that from happening.
pub proof fn law_media_packet_corrects_row<BP: BufferPool, Recv: Receiver<BP::P>>(
    pool: BP,
    matrix: MatrixView<BP::P>,
    recv: Recv,
    seq: u16,
    packet: (BP::P, PacketStatus),
    fec_seq: u16,
    packets: Seq<Seq<u8>>,
    lost: int,
    matrix2: MatrixView<BP::P>,
    recv2: Recv,
    outcome: Result<Corrections<BP::P>, Refusal>,
)
    requires
        matrix.main.admits(seq),
        is_legible(matrix.col),
        is_uncovered(matrix.col, seq),
        covers_first(matrix.row, fec_seq, seq),
        lacks_one(matrix.with_main(seq, packet), Orientation::Row, fec_seq, packets, lost),
        packets[lost].len() - 12 <= u16::MAX,
        packets[lost].len() <= pool.packet_size(),
        inserts(pool, matrix, recv, seq, packet, matrix2, recv2, outcome),
    ensures
        matrix2 == matrix.with_main(seq, packet),
        match outcome {
            Ok(Corrections::One(recovered)) => recovered.bytes() == packets[lost],
            Ok(Corrections::Zero) => pool.may_allocate(None),
            _ => false,
        },
{
    reveal(inserts);
    law_search_finds_first_cover(matrix2, Orientation::Column, seq);
    law_search_finds_first_cover(matrix2, Orientation::Row, seq);
    let (column, row) = lemma_yields(pool, matrix2, seq, outcome);
    assert(matrix2.opportunity_around(Orientation::Column, seq) == Ok::<
        Option<Recovery>,
        Refusal,
    >(None));
    law_single_loss_is_corrected(
        pool,
        matrix2,
        Orientation::Row,
        fec_seq,
        packets,
        lost,
        row,
    );
}

/// Where a media packet leaves just one packet missing of those that a FEC packet for its column
/// protects, and no FEC packet for its row covers it, that one is recovered byte for byte.  Only an
/// exhausted pool can keep that from happening.
pub proof fn law_media_packet_corrects_column<BP: BufferPool, Recv: Receiver<BP::P>>(
    pool: BP,
    matrix: MatrixView<BP::P>,
    recv: Recv,
    seq: u16,
    packet: (BP::P, PacketStatus),
    fec_seq: u16,
    packets: Seq<Seq<u8>>,
    lost: int,
    matrix2: MatrixView<BP::P>,
    recv2: Recv,
    outcome: Result<Corrections<BP::P>, Refusal>,
)
    requires
        matrix.main.admits(seq),
        covers_first(matrix.col, fec_seq, seq),
        is_legible(matrix.row),
        is_uncovered(matrix.row, seq),
        lacks_one(matrix.with_main(seq, packet), Orientation::Column, fec_seq, packets, lost),
        packets[lost].len() - 12 <= u16::MAX,
        packets[lost].len() <= pool.packet_size(),
        inserts(pool, matrix, recv, seq, packet, matrix2, recv2, outcome),
    ensures
        matrix2 == matrix.with_main(seq, packet),
        match outcome {
            Ok(Corrections::One(recovered)) => recovered.bytes() == packets[lost],
            Ok(Corrections::Zero) => pool.may_allocate(None),
            _ => false,
        },
{
    reveal(inserts);
    law_search_finds_first_cover(matrix2, Orientation::Column, seq);
    law_search_finds_first_cover(matrix2, Orientation::Row, seq);
    let (column, row) = lemma_yields(pool, matrix2, seq, outcome);
    assert(matrix2.opportunity_around(Orientation::Row, seq) == Ok::<Option<Recovery>, Refusal>(
        None,
    ));
    law_single_loss_is_corrected(
        pool,
        matrix2,
        Orientation::Column,
        fec_seq,
        packets,
        lost,
        column,
    );
}

/// Where a media packet leaves just one packet missing of those that a FEC packet for its column
/// protects, and just one of those that a FEC packet for its row protects, both are recovered byte
/// for byte.  Only an exhausted pool can keep that from happening.
pub proof fn law_media_packet_corrects_both<BP: BufferPool, Recv: Receiver<BP::P>>(
    pool: BP,
    matrix: MatrixView<BP::P>,
    recv: Recv,
    seq: u16,
    packet: (BP::P, PacketStatus),
    fec_seqs: (u16, u16),
    column: (Seq<Seq<u8>>, int),
    row: (Seq<Seq<u8>>, int),
    matrix2: MatrixView<BP::P>,
    recv2: Recv,
    outcome: Result<Corrections<BP::P>, Refusal>,
)
    requires
        matrix.main.admits(seq),
        covers_first(matrix.col, fec_seqs.0, seq),
        covers_first(matrix.row, fec_seqs.1, seq),
        lacks_one(
            matrix.with_main(seq, packet),
            Orientation::Column,
            fec_seqs.0,
            column.0,
            column.1,
        ),
        lacks_one(matrix.with_main(seq, packet), Orientation::Row, fec_seqs.1, row.0, row.1),
        column.0[column.1].len() - 12 <= u16::MAX,
        column.0[column.1].len() <= pool.packet_size(),
        row.0[row.1].len() - 12 <= u16::MAX,
        row.0[row.1].len() <= pool.packet_size(),
        inserts(pool, matrix, recv, seq, packet, matrix2, recv2, outcome),
    ensures
        matrix2 == matrix.with_main(seq, packet),
        match outcome {
            Ok(Corrections::Two(a, b)) => {
                &&& a.bytes() == column.0[column.1]
                &&& b.bytes() == row.0[row.1]
            },
            Ok(Corrections::One(a)) => {
                &&& pool.may_allocate(None)
                &&& a.bytes() == column.0[column.1] || a.bytes() == row.0[row.1]
            },
            Ok(Corrections::Zero) => pool.may_allocate(None),
            Err(_) => false,
        },
{
    reveal(inserts);
    law_search_finds_first_cover(matrix2, Orientation::Column, seq);
    law_search_finds_first_cover(matrix2, Orientation::Row, seq);
    let (a, b) = lemma_yields(pool, matrix2, seq, outcome);
    law_single_loss_is_corrected(
        pool,
        matrix2,
        Orientation::Column,
        fec_seqs.0,
        column.0,
        column.1,
        a,
    );
    law_single_loss_is_corrected(
        pool,
        matrix2,
        Orientation::Row,
        fec_seqs.1,
        row.0,
        row.1,
        b,
    );
}

/// A FEC packet that finds just one of the media packets missing that it protects is stored, and the
/// missing one is recovered byte for byte.  Only an exhausted pool can keep that from happening.
pub proof fn law_fec_packet_corrects<BP: BufferPool>(
    pool: BP,
    matrix: MatrixView<BP::P>,
    orientation: Orientation,
    seq: u16,
    packet: BP::P,
    packets: Seq<Seq<u8>>,
    lost: int,
    matrix2: MatrixView<BP::P>,
    outcome: Result<Option<BP::P>, Refusal>,
)
    requires
        matrix.fec_packets(orientation).admits(seq),
        lacks_one(matrix.with_fec(orientation, seq, packet), orientation, seq, packets, lost),
        packets[lost].len() - 12 <= u16::MAX,
        packets[lost].len() <= pool.packet_size(),
        inserts_fec(pool, matrix, orientation, seq, packet, matrix2, outcome),
    ensures
        matrix2 == matrix.with_fec(orientation, seq, packet),
        match outcome {
            Ok(Some(recovered)) => recovered.bytes() == packets[lost],
            Ok(None) => pool.may_allocate(None),
            Err(_) => false,
        },
{
    reveal(inserts_fec);
    law_single_loss_is_corrected(pool, matrix2, orientation, seq, packets, lost, outcome);
}

/// Whether `packet` is a FEC packet, and finds none or more than one of the media packets missing that
/// it protects, or some that come before the first entry of the window.
pub open spec fn finds_no_single_loss<P: Packet>(matrix: MatrixView<P>, packet: P) -> bool {
    let header = fec_header(rtp_payload(packet.bytes()));
    &&& is_fec_packet(packet.bytes())
    &&& header.number_associated * header.offset <= 0x8000
    &&& forall|lost: int| !is_only_missing(matrix, header, lost)
}

/// A FEC packet that finds none or more than one of the media packets missing that it protects is
/// stored, and that is all.
pub proof fn law_fec_packet_corrects_nothing_else<BP: BufferPool>(
    pool: BP,
    matrix: MatrixView<BP::P>,
    orientation: Orientation,
    seq: u16,
    packet: BP::P,
    matrix2: MatrixView<BP::P>,
    outcome: Result<Option<BP::P>, Refusal>,
)
    requires
        matrix.fec_packets(orientation).admits(seq),
        matrix.with_fec(orientation, seq, packet).fec_packets(orientation).get(seq) == Some(
            (packet, PacketStatus::Received),
        ),
        finds_no_single_loss(matrix.with_fec(orientation, seq, packet), packet),
    ensures
        accepts_fec(pool, matrix, orientation, seq, packet),
        inserts_fec(pool, matrix, orientation, seq, packet, matrix2, outcome) <==> {
            &&& matrix2 == matrix.with_fec(orientation, seq, packet)
            &&& outcome == Ok::<Option<BP::P>, Refusal>(None)
        },
{
    reveal(inserts_fec);
    law_one_missing_packet_can_be_recovered(
        matrix.with_fec(orientation, seq, packet),
        orientation,
        seq,
        packet,
    );
}

/// A media packet after which the first FEC packet that covers it, for its row and for its column,
/// finds none or more than one of the media packets missing that it protects, is stored and handed to
/// the receiver, and that is all.
pub proof fn law_media_packet_corrects_nothing_else<BP: BufferPool, Recv: Receiver<BP::P>>(
    pool: BP,
    matrix: MatrixView<BP::P>,
    recv: Recv,
    seq: u16,
    packet: (BP::P, PacketStatus),
    fec_seqs: (u16, u16),
    fec_packets: (BP::P, BP::P),
    matrix2: MatrixView<BP::P>,
    recv2: Recv,
    outcome: Result<Corrections<BP::P>, Refusal>,
)
    requires
        matrix.main.admits(seq),
        covers_first(matrix.col, fec_seqs.0, seq),
        covers_first(matrix.row, fec_seqs.1, seq),
        matrix.col.get(fec_seqs.0) matches Some((held, _)) && held == fec_packets.0,
        matrix.row.get(fec_seqs.1) matches Some((held, _)) && held == fec_packets.1,
        finds_no_single_loss(matrix.with_main(seq, packet), fec_packets.0),
        finds_no_single_loss(matrix.with_main(seq, packet), fec_packets.1),
    ensures
        accepts(pool, matrix, recv, seq, packet),
        inserts(pool, matrix, recv, seq, packet, matrix2, recv2, outcome) <==> {
            &&& matrix2 == matrix.with_main(seq, packet)
            &&& Recv::received(recv, seq![packet], recv2)
            &&& outcome == Ok::<Corrections<BP::P>, Refusal>(Corrections::Zero)
        },
{
    let stored = matrix.with_main(seq, packet);
    let nothing = Ok::<Option<Recovery>, Refusal>(None);
    assert(stored.opportunity_around(Orientation::Column, seq) == nothing) by {
        law_search_finds_first_cover(stored, Orientation::Column, seq);
        law_one_missing_packet_can_be_recovered(
            stored,
            Orientation::Column,
            fec_seqs.0,
            fec_packets.0,
        );
    }
    assert(stored.opportunity_around(Orientation::Row, seq) == nothing) by {
        law_search_finds_first_cover(stored, Orientation::Row, seq);
        law_one_missing_packet_can_be_recovered(
            stored,
            Orientation::Row,
            fec_seqs.1,
            fec_packets.1,
        );
    }
    reveal(inserts);
    reveal(yields);
    assert(takes_up(pool, nothing, Ok(None)));
    assert(yields(pool, stored, seq, Ok(Corrections::Zero)));
}

/// No recovery is possible without a FEC packet, or with one that protects more media packets than
/// span half a turn; and a packet that is too short to tell is refused.
pub proof fn law_other_packets_recover_nothing<P: Packet>(
    matrix: MatrixView<P>,
    orientation: Orientation,
    fec_seq: u16,
)
    ensures
        match matrix.fec_packets(orientation).get(fec_seq) {
            Some((packet, _)) => {
                let header = fec_header(rtp_payload(packet.bytes()));
                let opportunity = matrix.opportunity(orientation, fec_seq);
                &&& is_legible_entry(Some((packet, PacketStatus::Received))) && !is_fec_packet(
                    packet.bytes(),
                ) ==> opportunity == Ok::<Option<Recovery>, Refusal>(None)
                &&& !is_legible_entry(Some((packet, PacketStatus::Received))) ==> opportunity
                    == Err::<Option<Recovery>, Refusal>(Refusal::FecTruncated)
                &&& is_fec_packet(packet.bytes()) && header.number_associated * header.offset
                    > 0x8000 ==> opportunity == Ok::<Option<Recovery>, Refusal>(None)
            },
            None => matrix.opportunity(orientation, fec_seq) == Ok::<Option<Recovery>, Refusal>(
                None,
            ),
        },
{
    if let Some((packet, _)) = matrix.fec_packets(orientation).get(fec_seq) {
        law_fec_data_is_readable(rtp_payload(packet.bytes()));
    }
}

/// A packet that cannot be told to be a FEC packet or not, among those for the columns before the first
/// that covers a media packet, leads to the refusal of the media packet, after it has been stored and
/// handed to the receiver; so does one among those for the rows, if nothing is wrong with the columns.
pub proof fn law_illegible_packets_are_refused<BP: BufferPool, Recv: Receiver<BP::P>>(
    pool: BP,
    matrix: MatrixView<BP::P>,
    recv: Recv,
    seq: u16,
    packet: (BP::P, PacketStatus),
    matrix2: MatrixView<BP::P>,
    recv2: Recv,
    outcome: Result<Corrections<BP::P>, Refusal>,
)
    requires
        matrix.main.admits(seq),
        !is_legible(matrix.col) && is_uncovered(matrix.col, seq) || is_legible(matrix.col)
            && is_uncovered(matrix.col, seq) && !is_legible(matrix.row) && is_uncovered(
            matrix.row,
            seq,
        ),
        inserts(pool, matrix, recv, seq, packet, matrix2, recv2, outcome),
    ensures
        matrix2 == matrix.with_main(seq, packet),
        Recv::received(recv, seq![packet], recv2),
        outcome == Err::<Corrections<BP::P>, Refusal>(Refusal::FecTruncated),
{
    reveal(inserts);
    law_search_finds_first_cover(matrix2, Orientation::Column, seq);
    law_search_finds_first_cover(matrix2, Orientation::Row, seq);
    lemma_search(matrix.col.slots, seq);
    lemma_search(matrix.row.slots, seq);
    let (column, row) = lemma_yields(pool, matrix2, seq, outcome);
}

/// An exhausted pool keeps packets from being recovered, and that is no error.
pub proof fn law_exhausted_pool_recovers_nothing<BP: BufferPool>(
    pool: BP,
    matrix: MatrixView<BP::P>,
    orientation: Orientation,
    fec_seq: u16,
    outcome: Result<Option<BP::P>, Refusal>,
)
    requires
        forall|res: Option<BP::P>| #[trigger] pool.may_allocate(res) ==> res is None,
        matrix.opportunity(orientation, fec_seq) is Ok,
        takes_up(pool, matrix.opportunity(orientation, fec_seq), outcome),
    ensures
        outcome == Ok::<Option<BP::P>, Refusal>(None),
{
}

/// What a column and a row recover is put down in that order.
pub proof fn law_column_comes_before_row<P>(a: P, b: P)
    ensures
        corrections_of(Some(a), Some(b)) == Corrections::Two(a, b),
        corrections_of(Some(a), None) == Corrections::One(a),
        corrections_of(None, Some(b)) == Corrections::One(b),
        corrections_of(None::<P>, None) == Corrections::<P>::Zero,
{
}

/// What came of the column and of the row.
pub(crate) proof fn lemma_yields<BP: BufferPool>(
    pool: BP,
    matrix: MatrixView<BP::P>,
    seq: u16,
    outcome: Result<Corrections<BP::P>, Refusal>,
) -> (res: (Result<Option<BP::P>, Refusal>, Result<Option<BP::P>, Refusal>))
    requires
        yields(pool, matrix, seq, outcome),
    ensures
        takes_up(pool, matrix.opportunity_around(Orientation::Column, seq), res.0),
        match res {
            (Ok(a), Ok(b)) => outcome == Ok::<Corrections<BP::P>, Refusal>(corrections_of(a, b)),
            (Ok(_), Err(refusal)) => outcome == Err::<Corrections<BP::P>, Refusal>(refusal),
            (Err(refusal), _) => outcome == Err::<Corrections<BP::P>, Refusal>(refusal),
        },
        res.0 is Ok ==> takes_up(
            pool,
            matrix.opportunity_around(Orientation::Row, seq),
            res.1,
        ),
{
    reveal(yields);
    let column = choose|column: Result<Option<BP::P>, Refusal>|
        {
            &&& #[trigger] takes_up(
                pool,
                matrix.opportunity_around(Orientation::Column, seq),
                column,
            )
            &&& match column {
                Ok(a) => exists|row: Result<Option<BP::P>, Refusal>|
                    {
                        &&& #[trigger] takes_up(
                            pool,
                            matrix.opportunity_around(Orientation::Row, seq),
                            row,
                        )
                        &&& match row {
                            Ok(b) => outcome == Ok::<Corrections<BP::P>, Refusal>(
                                corrections_of(a, b),
                            ),
                            Err(refusal) => outcome == Err::<Corrections<BP::P>, Refusal>(refusal),
                        }
                    },
                Err(refusal) => outcome == Err::<Corrections<BP::P>, Refusal>(refusal),
            }
        };
    let row = choose|row: Result<Option<BP::P>, Refusal>|
        {
            &&& #[trigger] takes_up(pool, matrix.opportunity_around(Orientation::Row, seq), row)
            &&& match row {
                Ok(b) => outcome == Ok::<Corrections<BP::P>, Refusal>(
                    corrections_of(column->Ok_0, b),
                ),
                Err(refusal) => outcome == Err::<Corrections<BP::P>, Refusal>(refusal),
            }
        };
    (column, row)
}

/// A media packet that no FEC packet covers is stored and handed to the receiver, and that is all.
pub proof fn law_insert_without_fec<BP: BufferPool, Recv: Receiver<BP::P>>(
    pool: BP,
    matrix: MatrixView<BP::P>,
    recv: Recv,
    seq: u16,
    packet: (BP::P, PacketStatus),
    matrix2: MatrixView<BP::P>,
    recv2: Recv,
    outcome: Result<Corrections<BP::P>, Refusal>,
)
    requires
        matrix.main.admits(seq),
        is_legible(matrix.col),
        is_legible(matrix.row),
        is_uncovered(matrix.col, seq),
        is_uncovered(matrix.row, seq),
    ensures
        accepts(pool, matrix, recv, seq, packet),
        inserts(pool, matrix, recv, seq, packet, matrix2, recv2, outcome) <==> {
            &&& matrix2 == matrix.with_main(seq, packet)
            &&& Recv::received(recv, seq![packet], recv2)
            &&& outcome == Ok::<Corrections<BP::P>, Refusal>(Corrections::Zero)
        },
{
    reveal(inserts);
    reveal(yields);
    let stored = matrix.with_main(seq, packet);
    law_search_finds_first_cover(stored, Orientation::Column, seq);
    law_search_finds_first_cover(stored, Orientation::Row, seq);
    let column = stored.opportunity_around(Orientation::Column, seq);
    let row = stored.opportunity_around(Orientation::Row, seq);
    assert(column == Ok::<Option<Recovery>, Refusal>(None));
    assert(row == Ok::<Option<Recovery>, Refusal>(None));
    assert(takes_up(pool, column, Ok(None)));
    assert(takes_up(pool, row, Ok(None)));
    assert(yields(pool, stored, seq, Ok(Corrections::Zero)));
}

} // verus!
