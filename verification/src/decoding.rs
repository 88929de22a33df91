//! What the decoder holds, and how it changes with the packets that it takes.

use crate::backlog::BACKLOG_LIMIT;
use crate::correction::{
    empty_matrix, inserts, inserts_fec, is_fec_packet, law_inserts_fec_frame, law_inserts_frame,
    Corrections, MatrixView,
};
use crate::error::FecDecodeError;
use crate::fec::{
    fec_error, fec_header, fec_readable, law_fec_data_is_readable, FecHeader, Orientation,
};
use crate::geometry::{geometry_of, law_allowed_geometries, FecGeometry, FecGeometryError};
use crate::packet::{BufferPool, Packet, PacketStatus, Receiver};
use crate::recovery::Refusal;
use crate::rtp::{rtp_error, rtp_payload, rtp_sequence};
use crate::window::{law_insert_keeps_numbers, Window};
use vstd::prelude::*;

verus! {

/// What becomes of a packet handed to the decoder: processed, rejected with an error, or refused.
pub type Outcome = Result<Result<(), FecDecodeError>, Refusal>;

/// Whether the decoder goes on after `outcome`.
pub open spec fn proceeds(outcome: Outcome) -> bool {
    outcome matches Ok(Ok(()))
}

/// The streams that a decoder takes packets from.
#[derive(Debug, Clone, Copy, PartialEq, Eq, Structural)]
pub enum Stream {
    /// The media packets.
    Main,
    /// The FEC packets protecting the rows, or the columns, of the matrix of media packets.
    Fec(Orientation),
}

/// The FEC header in `packet`, which should protect the given direction, or what is wrong with it.
pub open spec fn fec_packet(orientation: Orientation, packet: Seq<u8>) -> Result<
    Result<FecHeader, FecDecodeError>,
    Refusal,
> {
    let data = rtp_payload(packet);
    if rtp_error(packet) is Some {
        Ok(Err(FecDecodeError::Rtp(rtp_error(packet)->0)))
    } else if !fec_readable(data) {
        Err(Refusal::FecTruncated)
    } else if fec_error(data) is Some {
        Err(Refusal::Fec(fec_error(data)->0))
    } else if fec_header(data).orientation != orientation {
        Ok(
            Err(
                FecDecodeError::Orientation {
                    expected: orientation,
                    actual: fec_header(data).orientation,
                },
            ),
        )
    } else {
        Ok(Ok(fec_header(data)))
    }
}

/// What a [`Decoder`] holds.
#[verifier::ext_equal]
#[verifier::reject_recursive_types(BP)]
#[verifier::reject_recursive_types(Recv)]
pub struct DecoderView<BP: BufferPool, Recv: Receiver<BP::P>> {
    pub pool: BP,
    pub recv: Recv,
    /// The geometry and the matrix, once a FEC packet has made the geometry known.
    pub running: Option<(FecGeometry, MatrixView<BP::P>)>,
}

/// The packets in `corrections`, in order.
pub open spec fn corrected<P>(corrections: Corrections<P>) -> Seq<P> {
    match corrections {
        Corrections::Zero => Seq::empty(),
        Corrections::One(a) => seq![a],
        Corrections::Two(a, b) => seq![a, b],
    }
}

/// The backlog with as many of `packets` added as there is room for.
pub open spec fn queued<P>(backlog: Seq<P>, packets: Seq<P>) -> Seq<P> {
    if backlog.len() + packets.len() <= BACKLOG_LIMIT {
        backlog + packets
    } else {
        backlog + packets.take(BACKLOG_LIMIT - backlog.len())
    }
}

/// Whether all of `packets` can be added to the backlog.
pub open spec fn queues<P>(backlog: Seq<P>, packets: Seq<P>) -> Result<(), FecDecodeError> {
    if packets.len() == 0 || backlog.len() + packets.len() <= BACKLOG_LIMIT {
        Ok(())
    } else {
        Err(FecDecodeError::NoSpaceForRecovered)
    }
}

/// Whether `packet` is a FEC packet for the given direction of a matrix of the given geometry.
pub open spec fn fits_geometry(
    geometry: FecGeometry,
    orientation: Orientation,
    packet: Seq<u8>,
) -> bool {
    fec_packet(orientation, packet) matches Ok(Ok(header)) && geometry.agrees_with(header)
}

/// Whether every media packet in the window stands under the sequence number in its header.
pub open spec fn in_place(window: Window<Seq<u8>>) -> bool {
    window.aligned(|bytes: Seq<u8>| rtp_sequence(bytes))
}

/// Whether a matrix could have come about in a decoder with the given geometry: there is room for
/// two matrices of media packets, and for one FEC packet to each row and to each column; every media
/// packet is in its place, and all the FEC packets fit the geometry.
#[verifier::opaque]
pub open spec fn valid_matrix<P: Packet>(geometry: FecGeometry, matrix: MatrixView<P>) -> bool {
    &&& geometry.wf()
    &&& matrix.valid()
    &&& matrix.main.limit == geometry.l * geometry.d * 2
    &&& matrix.row.limit == geometry.d
    &&& matrix.col.limit == geometry.l
    &&& in_place(matrix.main)
    &&& matrix.row.every(|pk: P| fits_geometry(geometry, Orientation::Row, pk.bytes()))
    &&& matrix.col.every(|pk: P| fits_geometry(geometry, Orientation::Column, pk.bytes()))
}

impl<BP: BufferPool, Recv: Receiver<BP::P>> DecoderView<BP, Recv> {
    /// Whether the decoder could have come about.
    pub open spec fn valid(self) -> bool {
        self.running matches Some((geometry, matrix)) ==> valid_matrix(geometry, matrix)
    }

    /// Whether `after` has the same buffer pool, geometry and FEC packets.
    pub open spec fn keeps_fec(self, after: Self) -> bool {
        &&& after.pool == self.pool
        &&& match (self.running, after.running) {
            (Some((geometry, matrix)), Some((geometry2, matrix2))) => {
                &&& geometry2 == geometry
                &&& matrix2.row == matrix.row
                &&& matrix2.col == matrix.col
            },
            (None, None) => true,
            _ => false,
        }
    }

    pub open spec fn with_matrix(self, matrix: MatrixView<BP::P>, recv: Recv) -> Self {
        DecoderView { recv, running: Some(((self.running->0).0, matrix)), ..self }
    }

    pub open spec fn with_receiver(self, recv: Recv) -> Self {
        DecoderView { recv, ..self }
    }

    /// The decoder with an empty matrix of the given geometry.
    pub open spec fn configured(self, geometry: FecGeometry) -> Self {
        DecoderView {
            running: Some((geometry, empty_matrix(geometry.l as nat, geometry.d as nat))),
            ..self
        }
    }

    /// Whether inserting a media packet may leave the decoder as `after` and the backlog as
    /// `backlog2`, and come out as `outcome`.  Before the geometry is known, the packet is just
    /// handed to the receiver.
    pub open spec fn inserts_main(
        self,
        seq: u16,
        packet: (BP::P, PacketStatus),
        backlog: Seq<BP::P>,
        after: Self,
        backlog2: Seq<BP::P>,
        outcome: Outcome,
    ) -> bool {
        match self.running {
            Some((geometry, matrix)) => exists|
                matrix2: MatrixView<BP::P>,
                recv2: Recv,
                res: Result<Corrections<BP::P>, Refusal>,
            |
                {
                    &&& #[trigger] inserts(
                        self.pool,
                        matrix,
                        self.recv,
                        seq,
                        packet,
                        matrix2,
                        recv2,
                        res,
                    )
                    &&& after == self.with_matrix(matrix2, recv2)
                    &&& match res {
                        Ok(corrections) => {
                            &&& backlog2 == queued(backlog, corrected(corrections))
                            &&& outcome == Ok::<_, Refusal>(
                                queues(backlog, corrected(corrections)),
                            )
                        },
                        Err(refusal) => backlog2 == backlog && outcome == Err::<
                            Result<(), FecDecodeError>,
                            _,
                        >(refusal),
                    }
                },
            None => {
                &&& Recv::received(self.recv, seq![packet], after.recv)
                &&& after == self.with_receiver(after.recv)
                &&& backlog2 == backlog
                &&& outcome == Ok::<_, Refusal>(Ok::<(), FecDecodeError>(()))
            },
        }
    }

    /// Whether inserting a FEC packet may leave the decoder as `after` and the backlog as
    /// `backlog2`, and come out as `outcome`.
    pub open spec fn inserts_fec(
        self,
        orientation: Orientation,
        seq: u16,
        packet: BP::P,
        backlog: Seq<BP::P>,
        after: Self,
        backlog2: Seq<BP::P>,
        outcome: Outcome,
    ) -> bool {
        match self.running {
            Some((geometry, matrix)) => exists|
                matrix2: MatrixView<BP::P>,
                res: Result<Option<BP::P>, Refusal>,
            |
                {
                    &&& #[trigger] inserts_fec(
                        self.pool,
                        matrix,
                        orientation,
                        seq,
                        packet,
                        matrix2,
                        res,
                    )
                    &&& after == self.with_matrix(matrix2, self.recv)
                    &&& match res {
                        Ok(Some(correction)) => {
                            &&& backlog2 == queued(backlog, seq![correction])
                            &&& outcome == Ok::<_, Refusal>(queues(backlog, seq![correction]))
                        },
                        Ok(None) => {
                            &&& backlog2 == backlog
                            &&& outcome == Ok::<_, Refusal>(Ok::<(), FecDecodeError>(()))
                        },
                        Err(refusal) => backlog2 == backlog && outcome == Err::<
                            Result<(), FecDecodeError>,
                            _,
                        >(refusal),
                    }
                },
            None => {
                &&& after == self
                &&& backlog2 == backlog
                &&& outcome == Ok::<_, Refusal>(Ok::<(), FecDecodeError>(()))
            },
        }
    }

    /// The decoder after it has seen a FEC header, or why the header is refused.
    pub open spec fn merged(self, header: FecHeader) -> Result<Self, Refusal> {
        match self.running {
            Some((geometry, _)) => if geometry.agrees_with(header) {
                Ok(self)
            } else {
                match geometry_of(header) {
                    Ok(geometry) => Ok(self.configured(geometry)),
                    Err(error) => Err(Refusal::Geometry(error)),
                }
            },
            None => match geometry_of(header) {
                Ok(geometry) => Ok(self.configured(geometry)),
                Err(_) => Ok(self),
            },
        }
    }

    /// Whether the decoder holds the media packet with the given sequence number.
    pub open spec fn holds(self, seq: u16) -> bool {
        self.running matches Some((_, matrix)) && matrix.main.get(seq) is Some
    }

    /// Whether inserting the recovered packets of `backlog`, and those whose recovery they make
    /// possible, the most recent first, may leave the decoder as `after` and come out as `outcome`
    /// without taking more than `n` rounds.  A packet that the decoder holds by then, because it has
    /// been recovered in two ways, is left out.
    pub open spec fn settles_within(
        self,
        n: nat,
        backlog: Seq<BP::P>,
        after: Self,
        outcome: Outcome,
    ) -> bool
        decreases n,
    {
        if backlog.len() == 0 {
            &&& after == self
            &&& outcome == Ok::<_, Refusal>(Ok::<(), FecDecodeError>(()))
        } else {
            let packet = backlog.last();
            match rtp_error(packet.bytes()) {
                Some(error) => {
                    &&& after == self
                    &&& outcome == Ok::<_, Refusal>(Err::<(), _>(FecDecodeError::Rtp(error)))
                },
                None => if n == 0 {
                    false
                } else if self.holds(rtp_sequence(packet.bytes())) {
                    self.settles_within((n - 1) as nat, backlog.drop_last(), after, outcome)
                } else {
                    exists|after1: Self, backlog1: Seq<BP::P>, outcome1: Outcome|
                        {
                            &&& #[trigger] self.inserts_main(
                                rtp_sequence(packet.bytes()),
                                (packet, PacketStatus::Recovered),
                                backlog.drop_last(),
                                after1,
                                backlog1,
                                outcome1,
                            )
                            &&& if proceeds(outcome1) {
                                after1.settles_within((n - 1) as nat, backlog1, after, outcome)
                            } else {
                                after == after1 && outcome == outcome1
                            }
                        }
                },
            }
        }
    }

    /// Whether inserting the recovered packets of `backlog`, and those whose recovery they make
    /// possible, may leave the decoder as `after` and come out as `outcome`.
    pub open spec fn settles(self, backlog: Seq<BP::P>, after: Self, outcome: Outcome) -> bool {
        exists|n: nat| #[trigger] self.settles_within(n, backlog, after, outcome)
    }

    /// Whether a packet of the media stream may leave the decoder as `after` and come out as
    /// `outcome`.
    pub open spec fn takes_main(self, packet: BP::P, after: Self, outcome: Outcome) -> bool {
        match rtp_error(packet.bytes()) {
            Some(error) => {
                &&& after == self
                &&& outcome == Ok::<_, Refusal>(Err::<(), _>(FecDecodeError::Rtp(error)))
            },
            None => exists|after1: Self, backlog: Seq<BP::P>, outcome1: Outcome|
                {
                    &&& #[trigger] self.inserts_main(
                        rtp_sequence(packet.bytes()),
                        (packet, PacketStatus::Received),
                        Seq::empty(),
                        after1,
                        backlog,
                        outcome1,
                    )
                    &&& if proceeds(outcome1) {
                        after1.settles(backlog, after, outcome)
                    } else {
                        after == after1 && outcome == outcome1
                    }
                },
        }
    }

    /// Whether a packet of the FEC stream for rows or columns may leave the decoder as `after` and
    /// come out as `outcome`.
    pub open spec fn takes_fec(
        self,
        orientation: Orientation,
        packet: BP::P,
        after: Self,
        outcome: Outcome,
    ) -> bool {
        match fec_packet(orientation, packet.bytes()) {
            Ok(Ok(header)) => match self.merged(header) {
                Ok(merged) => exists|after1: Self, backlog: Seq<BP::P>, outcome1: Outcome|
                    {
                        &&& #[trigger] merged.inserts_fec(
                            orientation,
                            rtp_sequence(packet.bytes()),
                            packet,
                            Seq::empty(),
                            after1,
                            backlog,
                            outcome1,
                        )
                        &&& if proceeds(outcome1) {
                            after1.settles(backlog, after, outcome)
                        } else {
                            after == after1 && outcome == outcome1
                        }
                    },
                Err(refusal) => after == self && outcome == Err::<Result<(), FecDecodeError>, _>(
                    refusal,
                ),
            },
            Ok(Err(error)) => after == self && outcome == Ok::<_, Refusal>(Err::<(), _>(error)),
            Err(refusal) => after == self && outcome == Err::<Result<(), FecDecodeError>, _>(
                refusal,
            ),
        }
    }

    /// Whether inserting a packet of the given stream may leave the decoder as `after`, with the
    /// recovered packets of `backlog` to be inserted next.
    pub open spec fn begins(
        self,
        stream: Stream,
        packet: BP::P,
        after: Self,
        backlog: Seq<BP::P>,
    ) -> bool {
        let seq = rtp_sequence(packet.bytes());
        match stream {
            Stream::Main => {
                &&& rtp_error(packet.bytes()) is None
                &&& self.inserts_main(
                    seq,
                    (packet, PacketStatus::Received),
                    Seq::empty(),
                    after,
                    backlog,
                    Ok(Ok(())),
                )
            },
            Stream::Fec(orientation) => {
                &&& fec_packet(orientation, packet.bytes()) matches Ok(Ok(header))
                &&& self.merged(header) matches Ok(merged)
                &&& merged.inserts_fec(
                    orientation,
                    seq,
                    packet,
                    Seq::empty(),
                    after,
                    backlog,
                    Ok(Ok(())),
                )
            },
        }
    }

    /// Whether `n` rounds, in each of which the most recently recovered packet is inserted unless the
    /// decoder holds it already, may lead from `backlog` to the decoder `after` with `backlog2` still
    /// to be inserted.
    pub open spec fn rounds(
        self,
        n: nat,
        backlog: Seq<BP::P>,
        after: Self,
        backlog2: Seq<BP::P>,
    ) -> bool
        decreases n,
    {
        if n == 0 {
            after == self && backlog2 == backlog
        } else {
            let packet = backlog.last();
            &&& backlog.len() > 0
            &&& if self.holds(rtp_sequence(packet.bytes())) {
                self.rounds((n - 1) as nat, backlog.drop_last(), after, backlog2)
            } else {
                exists|after1: Self, backlog1: Seq<BP::P>|
                    {
                        &&& #[trigger] self.inserts_main(
                            rtp_sequence(packet.bytes()),
                            (packet, PacketStatus::Recovered),
                            backlog.drop_last(),
                            after1,
                            backlog1,
                            Ok(Ok(())),
                        )
                        &&& after1.rounds((n - 1) as nat, backlog1, after, backlog2)
                    }
            }
        }
    }

    /// Whether a packet of the given stream may leave the decoder as `after` and come out as
    /// `outcome`.
    pub open spec fn takes(
        self,
        stream: Stream,
        packet: BP::P,
        after: Self,
        outcome: Outcome,
    ) -> bool {
        match stream {
            Stream::Main => self.takes_main(packet, after, outcome),
            Stream::Fec(orientation) => self.takes_fec(orientation, packet, after, outcome),
        }
    }

    /// Whether packets of the given stream, taken one by one until one is not processed, may leave
    /// the decoder as `after` and come out as `outcome`.
    pub open spec fn takes_all(
        self,
        stream: Stream,
        packets: Seq<BP::P>,
        after: Self,
        outcome: Outcome,
    ) -> bool
        decreases packets.len(),
    {
        if packets.len() == 0 {
            &&& after == self
            &&& outcome == Ok::<_, Refusal>(Ok::<(), FecDecodeError>(()))
        } else {
            exists|after1: Self, outcome1: Outcome|
                {
                    &&& #[trigger] self.takes(stream, packets[0], after1, outcome1)
                    &&& if proceeds(outcome1) {
                        after1.takes_all(stream, packets.drop_first(), after, outcome)
                    } else {
                        after == after1 && outcome == outcome1
                    }
                }
        }
    }

    /// Whether none of `packets` can be refused.
    pub open spec fn accepts_all(self, stream: Stream, packets: Seq<BP::P>) -> bool {
        forall|after: Self, outcome: Outcome|
            #[trigger] self.takes_all(stream, packets, after, outcome) ==> outcome is Ok
    }
}

/// The windows of a matrix are small, but there is some room in each of them.
pub(crate) proof fn lemma_limits<P: Packet>(geometry: FecGeometry, matrix: MatrixView<P>)
    requires
        valid_matrix(geometry, matrix),
    ensures
        matrix.valid(),
        32 <= matrix.main.limit <= 200,
        4 <= geometry.l <= 20,
        geometry.l < matrix.main.limit,
        4 <= matrix.row.limit <= 20,
        4 <= matrix.col.limit <= 20,
{
    reveal(valid_matrix);
    assert(4 * 4 <= geometry.l * geometry.d) by (nonlinear_arith)
        requires
            4 <= geometry.d,
            4 <= geometry.l,
    ;
    assert(geometry.l < geometry.l * geometry.d * 2) by (nonlinear_arith)
        requires
            4 <= geometry.d,
            4 <= geometry.l,
    ;
}

/// A decoder with an empty matrix of an allowed geometry is valid.
pub(crate) proof fn lemma_configured_valid<BP: BufferPool, Recv: Receiver<BP::P>>(
    decoder: DecoderView<BP, Recv>,
    geometry: FecGeometry,
)
    requires
        geometry.wf(),
    ensures
        decoder.configured(geometry).valid(),
{
    reveal(valid_matrix);
}

/// Inserting a media packet keeps the decoder valid, and leaves its buffer pool, its geometry and
/// the FEC packets alone.
pub proof fn law_inserts_main_frame<BP: BufferPool, Recv: Receiver<BP::P>>(
    decoder: DecoderView<BP, Recv>,
    seq: u16,
    packet: (BP::P, PacketStatus),
    backlog: Seq<BP::P>,
    after: DecoderView<BP, Recv>,
    backlog2: Seq<BP::P>,
    outcome: Outcome,
)
    requires
        decoder.valid(),
        seq == rtp_sequence(packet.0.bytes()),
        decoder.inserts_main(seq, packet, backlog, after, backlog2, outcome),
    ensures
        after.valid(),
        decoder.keeps_fec(after),
{
    if let Some((geometry, matrix)) = decoder.running {
        lemma_limits(geometry, matrix);
        reveal(valid_matrix);
        let (matrix2, recv2, res) = choose|
            matrix2: MatrixView<BP::P>,
            recv2: Recv,
            res: Result<Corrections<BP::P>, Refusal>,
        |
            {
                &&& #[trigger] inserts(
                    decoder.pool,
                    matrix,
                    decoder.recv,
                    seq,
                    packet,
                    matrix2,
                    recv2,
                    res,
                )
                &&& after == decoder.with_matrix(matrix2, recv2)
            };
        law_inserts_frame(
            decoder.pool,
            matrix,
            decoder.recv,
            seq,
            packet,
            matrix2,
            recv2,
            res,
        );
        reveal(inserts);
        if matrix.main.admits(seq) {
            law_insert_keeps_numbers(
                matrix.main,
                seq,
                (packet.0.bytes(), packet.1),
                |bytes: Seq<u8>| rtp_sequence(bytes),
            );
        }
    }
}

/// Inserting a FEC packet that fits the geometry keeps the decoder valid, and leaves its buffer
/// pool, its receiver, its geometry and the media packets alone.
pub proof fn law_inserts_fec_packet_frame<BP: BufferPool, Recv: Receiver<BP::P>>(
    decoder: DecoderView<BP, Recv>,
    orientation: Orientation,
    seq: u16,
    packet: BP::P,
    backlog: Seq<BP::P>,
    after: DecoderView<BP, Recv>,
    backlog2: Seq<BP::P>,
    outcome: Outcome,
)
    requires
        decoder.valid(),
        decoder.running matches Some((geometry, _)) ==> fits_geometry(
            geometry,
            orientation,
            packet.bytes(),
        ),
        decoder.inserts_fec(orientation, seq, packet, backlog, after, backlog2, outcome),
    ensures
        after.valid(),
        after.pool == decoder.pool,
        after.recv == decoder.recv,
        match (decoder.running, after.running) {
            (Some((geometry, matrix)), Some((geometry2, matrix2))) => {
                &&& geometry2 == geometry
                &&& matrix2.main == matrix.main
            },
            (None, None) => true,
            _ => false,
        },
{
    if let Some((geometry, matrix)) = decoder.running {
        reveal(valid_matrix);
        let (matrix2, res) = choose|
            matrix2: MatrixView<BP::P>,
            res: Result<Option<BP::P>, Refusal>,
        |
            {
                &&& #[trigger] inserts_fec(
                    decoder.pool,
                    matrix,
                    orientation,
                    seq,
                    packet,
                    matrix2,
                    res,
                )
                &&& after == decoder.with_matrix(matrix2, decoder.recv)
            };
        law_inserts_fec_frame(decoder.pool, matrix, orientation, seq, packet, matrix2, res);
        let f = |pk: BP::P| fits_geometry(geometry, orientation, pk.bytes());
        assert(matrix.fec_packets(orientation).every(f));
        assert(f(packet));
    }
}

/// Inserting recovered packets keeps the decoder valid, and leaves its buffer pool, its geometry and
/// the FEC packets alone.
pub proof fn law_settles_frame<BP: BufferPool, Recv: Receiver<BP::P>>(
    decoder: DecoderView<BP, Recv>,
    n: nat,
    backlog: Seq<BP::P>,
    after: DecoderView<BP, Recv>,
    outcome: Outcome,
)
    requires
        decoder.valid(),
        decoder.settles_within(n, backlog, after, outcome),
    ensures
        after.valid(),
        decoder.keeps_fec(after),
    decreases n,
{
    if backlog.len() == 0 || rtp_error(backlog.last().bytes()) is Some {
    } else if decoder.holds(rtp_sequence(backlog.last().bytes())) {
        law_settles_frame(decoder, (n - 1) as nat, backlog.drop_last(), after, outcome);
    } else {
        let packet = backlog.last();
        let (after1, backlog1, outcome1) = choose|
            after1: DecoderView<BP, Recv>,
            backlog1: Seq<BP::P>,
            outcome1: Outcome,
        |
            {
                &&& #[trigger] decoder.inserts_main(
                    rtp_sequence(packet.bytes()),
                    (packet, PacketStatus::Recovered),
                    backlog.drop_last(),
                    after1,
                    backlog1,
                    outcome1,
                )
                &&& if proceeds(outcome1) {
                    after1.settles_within((n - 1) as nat, backlog1, after, outcome)
                } else {
                    after == after1 && outcome == outcome1
                }
            };
        law_inserts_main_frame(
            decoder,
            rtp_sequence(packet.bytes()),
            (packet, PacketStatus::Recovered),
            backlog.drop_last(),
            after1,
            backlog1,
            outcome1,
        );
        if proceeds(outcome1) {
            law_settles_frame(after1, (n - 1) as nat, backlog1, after, outcome);
        }
    }
}

/// After a FEC header has been taken into account, the decoder either has a geometry that agrees
/// with the header, or none yet.
pub proof fn law_merged_agrees<BP: BufferPool, Recv: Receiver<BP::P>>(
    decoder: DecoderView<BP, Recv>,
    header: FecHeader,
)
    requires
        decoder.valid(),
    ensures
        decoder.merged(header) matches Ok(after) ==> {
            &&& after.valid()
            &&& after.pool == decoder.pool
            &&& after.recv == decoder.recv
            &&& match after.running {
                Some((geometry, _)) => geometry.agrees_with(header),
                None => decoder.running is None && geometry_of(header) is Err,
            }
        },
{
    assert(header.number_associated * header.offset == header.offset * header.number_associated)
        by (nonlinear_arith);
    if let Ok(geometry) = geometry_of(header) {
        lemma_configured_valid(decoder, geometry);
    }
}

/// Whatever packet the decoder takes, it stays valid, and keeps its buffer pool.
pub proof fn law_takes_frame<BP: BufferPool, Recv: Receiver<BP::P>>(
    decoder: DecoderView<BP, Recv>,
    stream: Stream,
    packet: BP::P,
    after: DecoderView<BP, Recv>,
    outcome: Outcome,
)
    requires
        decoder.valid(),
        decoder.takes(stream, packet, after, outcome),
    ensures
        after.valid(),
        after.pool == decoder.pool,
{
    let seq = rtp_sequence(packet.bytes());
    let none = Seq::<BP::P>::empty();
    match stream {
        Stream::Main => {
            if rtp_error(packet.bytes()) is None {
                let (after1, backlog, outcome1) = choose|
                    after1: DecoderView<BP, Recv>,
                    backlog: Seq<BP::P>,
                    outcome1: Outcome,
                |
                    {
                        &&& #[trigger] decoder.inserts_main(
                            seq,
                            (packet, PacketStatus::Received),
                            none,
                            after1,
                            backlog,
                            outcome1,
                        )
                        &&& if proceeds(outcome1) {
                            after1.settles(backlog, after, outcome)
                        } else {
                            after == after1 && outcome == outcome1
                        }
                    };
                law_inserts_main_frame(
                    decoder,
                    seq,
                    (packet, PacketStatus::Received),
                    none,
                    after1,
                    backlog,
                    outcome1,
                );
                if proceeds(outcome1) {
                    let n = choose|n: nat| #[trigger]
                        after1.settles_within(n, backlog, after, outcome);
                    law_settles_frame(after1, n, backlog, after, outcome);
                }
            }
        },
        Stream::Fec(orientation) => {
            if let Ok(Ok(header)) = fec_packet(orientation, packet.bytes()) {
                law_merged_agrees(decoder, header);
                if let Ok(merged) = decoder.merged(header) {
                    let (after1, backlog, outcome1) = choose|
                        after1: DecoderView<BP, Recv>,
                        backlog: Seq<BP::P>,
                        outcome1: Outcome,
                    |
                        {
                            &&& #[trigger] merged.inserts_fec(
                                orientation,
                                seq,
                                packet,
                                none,
                                after1,
                                backlog,
                                outcome1,
                            )
                            &&& if proceeds(outcome1) {
                                after1.settles(backlog, after, outcome)
                            } else {
                                after == after1 && outcome == outcome1
                            }
                        };
                    law_inserts_fec_packet_frame(
                        merged,
                        orientation,
                        seq,
                        packet,
                        none,
                        after1,
                        backlog,
                        outcome1,
                    );
                    if proceeds(outcome1) {
                        let n = choose|n: nat| #[trigger]
                        after1.settles_within(n, backlog, after, outcome);
                    law_settles_frame(after1, n, backlog, after, outcome);
                    }
                }
            }
        },
    }
}

/// Whatever packets the decoder takes, it stays valid, and keeps its buffer pool.
pub proof fn law_takes_all_frame<BP: BufferPool, Recv: Receiver<BP::P>>(
    decoder: DecoderView<BP, Recv>,
    stream: Stream,
    packets: Seq<BP::P>,
    after: DecoderView<BP, Recv>,
    outcome: Outcome,
)
    requires
        decoder.valid(),
        decoder.takes_all(stream, packets, after, outcome),
    ensures
        after.valid(),
        after.pool == decoder.pool,
    decreases packets.len(),
{
    if packets.len() > 0 {
        let (after1, outcome1) = choose|after1: DecoderView<BP, Recv>, outcome1: Outcome|
            {
                &&& #[trigger] decoder.takes(stream, packets[0], after1, outcome1)
                &&& if proceeds(outcome1) {
                    after1.takes_all(stream, packets.drop_first(), after, outcome)
                } else {
                    after == after1 && outcome == outcome1
                }
            };
        law_takes_frame(decoder, stream, packets[0], after1, outcome1);
        if proceeds(outcome1) {
            law_takes_all_frame(after1, stream, packets.drop_first(), after, outcome);
        }
    }
}

/// An empty batch is processed, and changes nothing.
pub proof fn law_empty_batch_changes_nothing<BP: BufferPool, Recv: Receiver<BP::P>>(
    decoder: DecoderView<BP, Recv>,
    stream: Stream,
    after: DecoderView<BP, Recv>,
    outcome: Outcome,
)
    ensures
        decoder.accepts_all(stream, Seq::empty()),
        decoder.takes_all(stream, Seq::empty(), after, outcome) <==> {
            &&& after == decoder
            &&& outcome == Ok::<_, Refusal>(Ok::<(), FecDecodeError>(()))
        },
{
}

/// Two batches can be added in one exactly where they can be added one after the other.
pub proof fn law_batches_are_accepted<BP: BufferPool, Recv: Receiver<BP::P>>(
    decoder: DecoderView<BP, Recv>,
    stream: Stream,
    first: Seq<BP::P>,
    second: Seq<BP::P>,
)
    ensures
        decoder.accepts_all(stream, first + second) <==> {
            &&& decoder.accepts_all(stream, first)
            &&& forall|after1: DecoderView<BP, Recv>, outcome1: Outcome| #[trigger]
                decoder.takes_all(stream, first, after1, outcome1) && proceeds(outcome1)
                    ==> after1.accepts_all(stream, second)
        },
{
    if decoder.accepts_all(stream, first + second) {
        assert forall|after1: DecoderView<BP, Recv>, outcome1: Outcome| #[trigger]
            decoder.takes_all(stream, first, after1, outcome1) implies outcome1 is Ok by {
            law_batches(decoder, stream, first, second, after1, outcome1);
        }
        assert forall|after1: DecoderView<BP, Recv>, outcome1: Outcome| #[trigger]
            decoder.takes_all(stream, first, after1, outcome1) && proceeds(
                outcome1,
            ) implies after1.accepts_all(stream, second) by {
            assert forall|after: DecoderView<BP, Recv>, outcome: Outcome| #[trigger]
                after1.takes_all(stream, second, after, outcome) implies outcome is Ok by {
                law_batches(decoder, stream, first, second, after, outcome);
            }
        }
    } else {
        let (after, outcome) = choose|after: DecoderView<BP, Recv>, outcome: Outcome| #[trigger]
            decoder.takes_all(stream, first + second, after, outcome) && outcome is Err;
        law_batches(decoder, stream, first, second, after, outcome);
        let (after1, outcome1) = choose|after1: DecoderView<BP, Recv>, outcome1: Outcome|
            {
                &&& #[trigger] decoder.takes_all(stream, first, after1, outcome1)
                &&& if proceeds(outcome1) {
                    after1.takes_all(stream, second, after, outcome)
                } else {
                    after == after1 && outcome == outcome1
                }
            };
        if proceeds(outcome1) {
            assert(!after1.accepts_all(stream, second));
        }
    }
}

/// It makes no difference whether packets arrive in one batch or in two: what they lead to, and what
/// the receiver gets, is the same.
pub proof fn law_batches<BP: BufferPool, Recv: Receiver<BP::P>>(
    decoder: DecoderView<BP, Recv>,
    stream: Stream,
    first: Seq<BP::P>,
    second: Seq<BP::P>,
    after: DecoderView<BP, Recv>,
    outcome: Outcome,
)
    ensures
        decoder.takes_all(stream, first + second, after, outcome) <==> exists|
            after1: DecoderView<BP, Recv>,
            outcome1: Outcome,
        |
            {
                &&& #[trigger] decoder.takes_all(stream, first, after1, outcome1)
                &&& if proceeds(outcome1) {
                    after1.takes_all(stream, second, after, outcome)
                } else {
                    after == after1 && outcome == outcome1
                }
            },
    decreases first.len(),
{
    let both = first + second;
    if first.len() == 0 {
        assert(both =~= second);
        assert(decoder.takes_all(stream, first, decoder, Ok(Ok(()))));
    } else {
        assert(both.drop_first() =~= first.drop_first() + second);
        assert forall|mid: DecoderView<BP, Recv>, outcome0: Outcome| #[trigger]
            decoder.takes(stream, first[0], mid, outcome0) && proceeds(outcome0) implies (
        mid.takes_all(stream, both.drop_first(), after, outcome) <==> exists|
            after1: DecoderView<BP, Recv>,
            outcome1: Outcome,
        |
            {
                &&& #[trigger] mid.takes_all(stream, first.drop_first(), after1, outcome1)
                &&& if proceeds(outcome1) {
                    after1.takes_all(stream, second, after, outcome)
                } else {
                    after == after1 && outcome == outcome1
                }
            }) by {
            law_batches(mid, stream, first.drop_first(), second, after, outcome);
        }
        if decoder.takes_all(stream, both, after, outcome) {
            let (mid, outcome0) = choose|mid: DecoderView<BP, Recv>, outcome0: Outcome|
                {
                    &&& #[trigger] decoder.takes(stream, both[0], mid, outcome0)
                    &&& if proceeds(outcome0) {
                        mid.takes_all(stream, both.drop_first(), after, outcome)
                    } else {
                        after == mid && outcome == outcome0
                    }
                };
            if proceeds(outcome0) {
                let (after1, outcome1) = choose|
                    after1: DecoderView<BP, Recv>,
                    outcome1: Outcome,
                |
                    {
                        &&& #[trigger] mid.takes_all(stream, first.drop_first(), after1, outcome1)
                        &&& if proceeds(outcome1) {
                            after1.takes_all(stream, second, after, outcome)
                        } else {
                            after == after1 && outcome == outcome1
                        }
                    };
                assert(decoder.takes_all(stream, first, after1, outcome1));
            } else {
                assert(decoder.takes_all(stream, first, after, outcome));
            }
        }
        if exists|after1: DecoderView<BP, Recv>, outcome1: Outcome|
            {
                &&& #[trigger] decoder.takes_all(stream, first, after1, outcome1)
                &&& if proceeds(outcome1) {
                    after1.takes_all(stream, second, after, outcome)
                } else {
                    after == after1 && outcome == outcome1
                }
            } {
            let (after1, outcome1) = choose|after1: DecoderView<BP, Recv>, outcome1: Outcome|
                {
                    &&& #[trigger] decoder.takes_all(stream, first, after1, outcome1)
                    &&& if proceeds(outcome1) {
                        after1.takes_all(stream, second, after, outcome)
                    } else {
                        after == after1 && outcome == outcome1
                    }
                };
            let (mid, outcome0) = choose|mid: DecoderView<BP, Recv>, outcome0: Outcome|
                {
                    &&& #[trigger] decoder.takes(stream, first[0], mid, outcome0)
                    &&& if proceeds(outcome0) {
                        mid.takes_all(stream, first.drop_first(), after1, outcome1)
                    } else {
                        after1 == mid && outcome1 == outcome0
                    }
                };
            assert(decoder.takes(stream, both[0], mid, outcome0));
            if proceeds(outcome0) {
                assert(mid.takes_all(stream, both.drop_first(), after, outcome));
            }
        }
    }
}

/// Before a FEC packet has made the geometry known, media packets are handed to the receiver, and
/// that is all.  They come out as processed, or rejected where they are no RTP packets.
pub proof fn law_media_packets_pass_through<BP: BufferPool, Recv: Receiver<BP::P>>(
    decoder: DecoderView<BP, Recv>,
    packet: BP::P,
    after: DecoderView<BP, Recv>,
    outcome: Outcome,
)
    requires
        decoder.running is None,
    ensures
        decoder.takes(Stream::Main, packet, after, outcome) <==> match rtp_error(packet.bytes()) {
            Some(error) => {
                &&& after == decoder
                &&& outcome == Ok::<_, Refusal>(Err::<(), _>(FecDecodeError::Rtp(error)))
            },
            None => {
                &&& Recv::received(
                    decoder.recv,
                    seq![(packet, PacketStatus::Received)],
                    after.recv,
                )
                &&& after == decoder.with_receiver(after.recv)
                &&& outcome == Ok::<_, Refusal>(Ok::<(), FecDecodeError>(()))
            },
        },
{
    let none = Seq::<BP::P>::empty();
    if rtp_error(packet.bytes()) is None {
        if Recv::received(decoder.recv, seq![(packet, PacketStatus::Received)], after.recv) && after
            == decoder.with_receiver(after.recv) {
            assert(decoder.inserts_main(
                rtp_sequence(packet.bytes()),
                (packet, PacketStatus::Received),
                none,
                after,
                none,
                Ok(Ok(())),
            ));
            assert(after.settles_within(0, none, after, Ok(Ok(()))));
        }
    }
}

/// The geometry cannot be told from the FEC packets that protect rows, so that these change nothing
/// before one that protects a column has made it known.
pub proof fn law_row_packets_need_geometry<BP: BufferPool, Recv: Receiver<BP::P>>(
    decoder: DecoderView<BP, Recv>,
    packet: BP::P,
    after: DecoderView<BP, Recv>,
    outcome: Outcome,
)
    requires
        decoder.running is None,
    ensures
        decoder.takes(Stream::Fec(Orientation::Row), packet, after, outcome) <==> {
            &&& after == decoder
            &&& outcome == match fec_packet(Orientation::Row, packet.bytes()) {
                Ok(Ok(_)) => Ok::<_, Refusal>(Ok::<(), FecDecodeError>(())),
                Ok(Err(error)) => Ok(Err(error)),
                Err(refusal) => Err(refusal),
            }
        },
{
    let none = Seq::<BP::P>::empty();
    assert(decoder.inserts_fec(
        Orientation::Row,
        rtp_sequence(packet.bytes()),
        packet,
        none,
        decoder,
        none,
        Ok(Ok(())),
    ));
    assert(decoder.settles_within(0, none, decoder, Ok(Ok(()))));
}

/// What a packet of a FEC stream is taken for: an RTP packet whose payload begins with a FEC header
/// for the direction of the stream is read, and nothing else is.
pub proof fn law_fec_packets_are_read(orientation: Orientation, packet: Seq<u8>)
    ensures
        is_fec_packet(packet) && fec_header(rtp_payload(packet)).orientation == orientation
            ==> fec_packet(orientation, packet) == Ok::<_, Refusal>(
            Ok::<_, FecDecodeError>(fec_header(rtp_payload(packet))),
        ),
        is_fec_packet(packet) && fec_header(rtp_payload(packet)).orientation != orientation
            ==> fec_packet(orientation, packet) == Ok::<_, Refusal>(
            Err::<FecHeader, _>(
                FecDecodeError::Orientation {
                    expected: orientation,
                    actual: fec_header(rtp_payload(packet)).orientation,
                },
            ),
        ),
        rtp_error(packet) matches Some(error) ==> fec_packet(orientation, packet) == Ok::<
            _,
            Refusal,
        >(Err::<FecHeader, _>(FecDecodeError::Rtp(error))),
        rtp_error(packet) is None && !is_fec_packet(packet) ==> fec_packet(orientation, packet)
            == Err::<Result<FecHeader, FecDecodeError>, _>(
            if fec_readable(rtp_payload(packet)) {
                Refusal::Fec(fec_error(rtp_payload(packet))->0)
            } else {
                Refusal::FecTruncated
            },
        ),
{
    law_fec_data_is_readable(rtp_payload(packet));
}

/// A packet that is no RTP packet is rejected for that, whatever stream it came from, and so is a FEC
/// packet for the other direction; a packet of a FEC stream without a FEC header is refused.  None of
/// these changes anything.
pub proof fn law_unsuitable_packets_change_nothing<BP: BufferPool, Recv: Receiver<BP::P>>(
    decoder: DecoderView<BP, Recv>,
    stream: Stream,
    packet: BP::P,
    after: DecoderView<BP, Recv>,
    outcome: Outcome,
)
    requires
        decoder.takes(stream, packet, after, outcome),
    ensures
        rtp_error(packet.bytes()) matches Some(error) ==> after == decoder && outcome == Ok::<
            _,
            Refusal,
        >(Err::<(), _>(FecDecodeError::Rtp(error))),
        stream matches Stream::Fec(orientation) ==> {
            let data = rtp_payload(packet.bytes());
            &&& is_fec_packet(packet.bytes()) && fec_header(data).orientation != orientation ==> {
                &&& after == decoder
                &&& outcome == Ok::<_, Refusal>(
                    Err::<(), _>(
                        FecDecodeError::Orientation {
                            expected: orientation,
                            actual: fec_header(data).orientation,
                        },
                    ),
                )
            }
            &&& rtp_error(packet.bytes()) is None && !is_fec_packet(packet.bytes()) ==> {
                &&& after == decoder
                &&& outcome is Err
            }
        },
{
    if let Stream::Fec(orientation) = stream {
        law_fec_packets_are_read(orientation, packet.bytes());
    }
}

/// There is room for ten recovered packets at a time.  Up to there, all that are recovered have to
/// wait for their turn; beyond that, the first ones do, and the shortage is reported.
pub proof fn law_ten_packets_may_wait<P>(backlog: Seq<P>, corrections: Corrections<P>)
    requires
        backlog.len() <= 10,
    ensures
        ({
            let all = backlog + match corrections {
                Corrections::Zero => Seq::empty(),
                Corrections::One(a) => seq![a],
                Corrections::Two(a, b) => seq![a, b],
            };
            let waiting = queued(backlog, corrected(corrections));
            if all.len() <= 10 {
                &&& waiting == all
                &&& queues(backlog, corrected(corrections)) == Ok::<(), FecDecodeError>(())
            } else {
                &&& waiting.len() == 10
                &&& forall|i: int| 0 <= i < 10 ==> #[trigger] waiting[i] == all[i]
                &&& queues(backlog, corrected(corrections)) == Err::<(), _>(
                    FecDecodeError::NoSpaceForRecovered,
                )
            }
        }),
{
    let all = backlog + corrected(corrections);
    let waiting = queued(backlog, corrected(corrections));
    if all.len() > 10 {
        assert(waiting =~= all.take(10));
    }
}

/// A batch of one packet is that packet.
pub proof fn law_batch_of_one<BP: BufferPool, Recv: Receiver<BP::P>>(
    decoder: DecoderView<BP, Recv>,
    stream: Stream,
    packet: BP::P,
    after: DecoderView<BP, Recv>,
    outcome: Outcome,
)
    ensures
        decoder.takes_all(stream, seq![packet], after, outcome) <==> decoder.takes(
            stream,
            packet,
            after,
            outcome,
        ),
{
    let packets = seq![packet];
    assert(packets.drop_first() =~= Seq::empty());
    if decoder.takes(stream, packet, after, outcome) {
        assert(decoder.takes(stream, packets[0], after, outcome));
        if let Ok(Ok(done)) = outcome {
            assert(done == ());
            assert(outcome == Ok::<_, Refusal>(Ok::<(), FecDecodeError>(done)));
            assert(after.takes_all(stream, packets.drop_first(), after, outcome));
        }
    }
    if decoder.takes_all(stream, packets, after, outcome) {
        let (after1, outcome1) = choose|after1: DecoderView<BP, Recv>, outcome1: Outcome|
            {
                &&& #[trigger] decoder.takes(stream, packets[0], after1, outcome1)
                &&& if proceeds(outcome1) {
                    after1.takes_all(stream, packets.drop_first(), after, outcome)
                } else {
                    after == after1 && outcome == outcome1
                }
            };
        if let Ok(Ok(done)) = outcome1 {
            assert(done == ());
            assert(outcome1 == Ok::<_, Refusal>(Ok::<(), FecDecodeError>(done)));
            assert(outcome == outcome1);
        }
    }
}

/// What the decoder makes of the FEC header of a column that is within what is allowed, from 4 to 20
/// columns and rows and no more than 100 packets: it goes on as it is where that is the geometry it
/// has, and otherwise starts anew with that geometry, with room for two matrices of media packets, and
/// for one FEC packet to each row and to each column.
pub proof fn law_allowed_column_header_is_adopted<BP: BufferPool, Recv: Receiver<BP::P>>(
    decoder: DecoderView<BP, Recv>,
    header: FecHeader,
)
    requires
        header.orientation == Orientation::Column,
        4 <= header.offset <= 20,
        4 <= header.number_associated <= 20,
        header.number_associated * header.offset <= 100,
    ensures
        match decoder.running {
            Some((geometry, _)) if geometry.l == header.offset && geometry.d
                == header.number_associated && geometry.fec_type == header.fec_type =>
                decoder.merged(header) == Ok::<_, Refusal>(decoder),
            _ => {
                &&& decoder.merged(header) matches Ok(after)
                &&& after.pool == decoder.pool
                &&& after.recv == decoder.recv
                &&& after.running matches Some((geometry, matrix))
                &&& geometry.l == header.offset
                &&& geometry.d == header.number_associated
                &&& geometry.fec_type == header.fec_type
                &&& matrix.main.limit == 2 * (header.number_associated * header.offset)
                &&& matrix.row.limit == header.number_associated
                &&& matrix.col.limit == header.offset
                &&& matrix.main.slots.len() == 0
                &&& matrix.row.slots.len() == 0
                &&& matrix.col.slots.len() == 0
            },
        },
{
    law_allowed_geometries(header);
    assert(header.number_associated * header.offset == header.offset * header.number_associated)
        by (nonlinear_arith);
    assert(header.offset * header.number_associated * 2 == 2 * (header.number_associated
        * header.offset)) by (nonlinear_arith);
}

/// What the decoder makes of any other FEC header: where it is one for the rows of the geometry that
/// the decoder has, the decoder goes on as it is; where there is no geometry yet, nothing changes; and
/// otherwise the header is refused.
pub proof fn law_other_headers_are_not_adopted<BP: BufferPool, Recv: Receiver<BP::P>>(
    decoder: DecoderView<BP, Recv>,
    header: FecHeader,
)
    requires
        decoder.valid(),
        !{
            &&& header.orientation == Orientation::Column
            &&& 4 <= header.offset <= 20
            &&& 4 <= header.number_associated <= 20
            &&& header.number_associated * header.offset <= 100
        },
    ensures
        match decoder.running {
            None => decoder.merged(header) == Ok::<_, Refusal>(decoder),
            Some((geometry, _)) => if header.orientation == Orientation::Row && geometry.l
                == header.number_associated && geometry.fec_type == header.fec_type {
                decoder.merged(header) == Ok::<_, Refusal>(decoder)
            } else {
                decoder.merged(header) matches Err(Refusal::Geometry(_))
            },
        },
{
    law_allowed_geometries(header);
    if let Some((geometry, matrix)) = decoder.running {
        reveal(valid_matrix);
        assert(header.number_associated * header.offset == header.offset
            * header.number_associated) by (nonlinear_arith);
    }
}

/// A FEC packet that protects a column makes the geometry known: the decoder goes on with the
/// geometry that it had if that agrees with the packet, and otherwise with the one that the packet
/// gives, and an empty matrix.
pub proof fn law_column_packets_give_geometry<BP: BufferPool, Recv: Receiver<BP::P>>(
    decoder: DecoderView<BP, Recv>,
    packet: BP::P,
    header: FecHeader,
    geometry: FecGeometry,
    after: DecoderView<BP, Recv>,
    outcome: Outcome,
)
    requires
        decoder.valid(),
        fec_packet(Orientation::Column, packet.bytes()) == Ok::<_, Refusal>(
            Ok::<_, FecDecodeError>(header),
        ),
        geometry_of(header) == Ok::<_, FecGeometryError>(geometry),
        decoder.takes(Stream::Fec(Orientation::Column), packet, after, outcome),
    ensures
        after.running matches Some((geometry2, _)) && geometry2 == geometry,
        decoder.merged(header) == Ok::<_, Refusal>(
            match decoder.running {
                Some((before, _)) if before == geometry => decoder,
                _ => decoder.configured(geometry),
            },
        ),
{
    law_merged_agrees(decoder, header);
    let merged = decoder.merged(header)->Ok_0;
    let seq = rtp_sequence(packet.bytes());
    let none = Seq::<BP::P>::empty();
    let (after1, backlog, outcome1) = choose|
        after1: DecoderView<BP, Recv>,
        backlog: Seq<BP::P>,
        outcome1: Outcome,
    |
        {
            &&& #[trigger] merged.inserts_fec(
                Orientation::Column,
                seq,
                packet,
                none,
                after1,
                backlog,
                outcome1,
            )
            &&& if proceeds(outcome1) {
                after1.settles(backlog, after, outcome)
            } else {
                after == after1 && outcome == outcome1
            }
        };
    law_inserts_fec_packet_frame(
        merged,
        Orientation::Column,
        seq,
        packet,
        none,
        after1,
        backlog,
        outcome1,
    );
    if proceeds(outcome1) {
        let n = choose|n: nat| #[trigger] after1.settles_within(n, backlog, after, outcome);
        law_settles_frame(after1, n, backlog, after, outcome);
    }
}

} // verus!
