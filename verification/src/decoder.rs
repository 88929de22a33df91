//! The decoder state-machine.

use crate::backlog::{Backlog, BACKLOG_LIMIT};
use crate::correction::{inserts, inserts_fec, Corrections};
use crate::decoding::{
    corrected, fec_packet, fits_geometry, law_inserts_fec_packet_frame, law_inserts_main_frame,
    law_merged_agrees, lemma_configured_valid, queued, queues, DecoderView, Outcome, Stream,
};
use crate::error::FecDecodeError;
use crate::fec::{is_readable, FecHeader, Orientation};
use crate::geometry::FecGeometry;
use crate::matrix::FecMatrix;
use crate::packet::{BufferPool, Packet, PacketStatus, Receiver};
use crate::progress::Progress;
use crate::recovery::Refusal;
use crate::rtp::{rtp_sequence, RtpReader};
use vstd::pervasive::unreached;
use vstd::prelude::*;
use vstd::std_specs::iter::IteratorSpec;

verus! {

/// What the decoder is up to.
enum State<BP: BufferPool, Recv: Receiver<BP::P>> {
    /// This state just exists so that it can overwrite some other state during the transition from
    /// one state to another.
    Init,
    Start(BP, Recv),
    Running { geometry: FecGeometry, matrix: FecMatrix<BP, Recv> },
}

impl<BP: BufferPool, Recv: Receiver<BP::P>> State<BP, Recv> {
    spec fn wf(self) -> bool {
        &&& match self {
            State::Init => false,
            State::Start(_, _) => true,
            State::Running { matrix, .. } => matrix.wf(),
        }
        &&& self@.valid()
    }

    spec fn view(self) -> DecoderView<BP, Recv> {
        match self {
            State::Init => arbitrary(),
            State::Start(pool, recv) => DecoderView { pool, recv, running: None },
            State::Running { geometry, matrix } => DecoderView {
                pool: matrix.pool(),
                recv: matrix.receiver(),
                running: Some((geometry, matrix@)),
            },
        }
    }

    /// Goes from the first state to one with a matrix.
    fn running(&mut self, width: u8, height: u8, geometry: FecGeometry)
        requires
            old(self).wf(),
            old(self)@.running is None,
            geometry.wf(),
            width == geometry.l,
            height == geometry.d,
        ensures
            final(self).wf(),
            final(self)@ == old(self)@.configured(geometry),
    {
        proof {
            lemma_configured_valid(old(self)@, geometry);
        }
        let mut state = State::Init;
        std::mem::swap(self, &mut state);
        assert(width * height == geometry.l * geometry.d) by (nonlinear_arith)
            requires
                width == geometry.l,
                height == geometry.d,
        ;
        *self = match state {
            State::Start(buffer_pool, receiver) => State::Running {
                geometry,
                matrix: FecMatrix::new(buffer_pool, width, height, receiver),
            },
            _ => unreached(),
        };
    }

    /// Goes on with an empty matrix of another geometry.
    fn reconfigure(&mut self, geometry: FecGeometry)
        requires
            old(self).wf(),
            old(self)@.running is Some,
            geometry.wf(),
        ensures
            final(self).wf(),
            final(self)@ == old(self)@.configured(geometry),
    {
        proof {
            lemma_configured_valid(old(self)@, geometry);
        }
        let width: u8 = geometry.l;
        let height: u8 = geometry.d;
        assert(width * height == geometry.l * geometry.d) by (nonlinear_arith)
            requires
                width == geometry.l,
                height == geometry.d,
        ;
        let mut state = State::Init;
        std::mem::swap(self, &mut state);
        *self = match state {
            State::Running { matrix, .. } => {
                let (buffer_pool, receiver) = matrix.dispose();
                State::Running {
                    geometry,
                    matrix: FecMatrix::new(buffer_pool, width, height, receiver),
                }
            },
            _ => unreached(),
        };
    }

    /// Whether the media packet `seq` is at hand.
    fn holds(&self, seq: u16) -> (res: bool)
        requires
            self.wf(),
        ensures
            res == self@.holds(seq),
    {
        match self {
            State::Running { matrix, .. } => matrix.holds(seq),
            _ => false,
        }
    }

    /// Inserts a media packet, which passes it on to the receiver, and queues the packets that it
    /// makes it possible to recover.
    fn insert_main_packet(
        &mut self,
        seq: u16,
        pk: BP::P,
        recovered: &mut Backlog<BP::P>,
        pk_status: PacketStatus,
    ) -> (res: Outcome)
        requires
            old(self).wf(),
            seq == rtp_sequence(pk.bytes()),
            old(recovered)@.len() <= BACKLOG_LIMIT,
        ensures
            final(self).wf(),
            final(recovered)@.len() <= BACKLOG_LIMIT,
            old(self)@.inserts_main(
                seq,
                (pk, pk_status),
                old(recovered)@,
                final(self)@,
                final(recovered)@,
                res,
            ),
    {
        // if not Running, there's nothing to do but forward the packet on to the receiver
        let outcome = match self {
            State::Running { geometry: _, matrix } => {
                let res = matrix.try_insert(seq, pk, pk_status);
                assert(inserts(
                    old(self)@.pool,
                    (old(self)@.running->0).1,
                    old(self)@.recv,
                    seq,
                    (pk, pk_status),
                    matrix@,
                    matrix.receiver(),
                    res,
                ));
                match res {
                    Ok(corrections) => Ok(queue(recovered, corrections)),
                    Err(refusal) => Err(refusal),
                }
            },
            State::Start(_, receiver) => {
                let arrived = vec![(pk, pk_status)];
                assert(arrived@ =~= seq![(pk, pk_status)]);
                receiver.receive(arrived.into_iter());
                Ok(Ok(()))
            },
            State::Init => unreached(),
        };
        proof {
            law_inserts_main_frame(
                old(self)@,
                seq,
                (pk, pk_status),
                old(recovered)@,
                self@,
                recovered@,
                outcome,
            );
        }
        outcome
    }

    /// Inserts a FEC packet for a column, and queues the packet that it makes it possible to
    /// recover.
    fn insert_column_packet(
        &mut self,
        seq: u16,
        pk: BP::P,
        recovered: &mut Backlog<BP::P>,
    ) -> (res: Outcome)
        requires
            old(self).wf(),
            old(self)@.running matches Some((geometry, _)) ==> fits_geometry(
                geometry,
                Orientation::Column,
                pk.bytes(),
            ),
            old(recovered)@.len() <= BACKLOG_LIMIT,
        ensures
            final(self).wf(),
            final(recovered)@.len() <= BACKLOG_LIMIT,
            old(self)@.inserts_fec(
                Orientation::Column,
                seq,
                pk,
                old(recovered)@,
                final(self)@,
                final(recovered)@,
                res,
            ),
    {
        // if not Running, there's nothing to do
        let outcome = match self {
            State::Running { geometry: _, matrix } => {
                let res = matrix.try_insert_column(seq, pk);
                assert(inserts_fec(
                    old(self)@.pool,
                    (old(self)@.running->0).1,
                    Orientation::Column,
                    seq,
                    pk,
                    matrix@,
                    res,
                ));
                match res {
                    Ok(Some(correction)) => Ok(queue(recovered, Corrections::One(correction))),
                    Ok(None) => Ok(Ok(())),
                    Err(refusal) => Err(refusal),
                }
            },
            _ => Ok(Ok(())),
        };
        proof {
            law_inserts_fec_packet_frame(
                old(self)@,
                Orientation::Column,
                seq,
                pk,
                old(recovered)@,
                self@,
                recovered@,
                outcome,
            );
        }
        outcome
    }

    /// Inserts a FEC packet for a row, and queues the packet that it makes it possible to recover.
    fn insert_row_packet(
        &mut self,
        seq: u16,
        pk: BP::P,
        recovered: &mut Backlog<BP::P>,
    ) -> (res: Outcome)
        requires
            old(self).wf(),
            old(self)@.running matches Some((geometry, _)) ==> fits_geometry(
                geometry,
                Orientation::Row,
                pk.bytes(),
            ),
            old(recovered)@.len() <= BACKLOG_LIMIT,
        ensures
            final(self).wf(),
            final(recovered)@.len() <= BACKLOG_LIMIT,
            old(self)@.inserts_fec(
                Orientation::Row,
                seq,
                pk,
                old(recovered)@,
                final(self)@,
                final(recovered)@,
                res,
            ),
    {
        // if not Running, there's nothing to do
        let outcome = match self {
            State::Running { geometry: _, matrix } => {
                let res = matrix.try_insert_row(seq, pk);
                assert(inserts_fec(
                    old(self)@.pool,
                    (old(self)@.running->0).1,
                    Orientation::Row,
                    seq,
                    pk,
                    matrix@,
                    res,
                ));
                match res {
                    Ok(Some(correction)) => Ok(queue(recovered, Corrections::One(correction))),
                    Ok(None) => Ok(Ok(())),
                    Err(refusal) => Err(refusal),
                }
            },
            _ => Ok(Ok(())),
        };
        proof {
            law_inserts_fec_packet_frame(
                old(self)@,
                Orientation::Row,
                seq,
                pk,
                old(recovered)@,
                self@,
                recovered@,
                outcome,
            );
        }
        outcome
    }
}

/// Adds packets to the backlog, as far as there is room.
fn queue<P>(recovered: &mut Backlog<P>, corrections: Corrections<P>) -> (res: Result<
    (),
    FecDecodeError,
>)
    requires
        old(recovered)@.len() <= BACKLOG_LIMIT,
    ensures
        final(recovered)@.len() <= BACKLOG_LIMIT,
        final(recovered)@ == queued(old(recovered)@, corrected(corrections)),
        res == queues(old(recovered)@, corrected(corrections)),
{
    let ghost before = recovered@;
    match corrections {
        Corrections::Zero => {
            assert(queued(before, corrected(corrections)) =~= before);
            Ok(())
        },
        Corrections::One(a) => {
            let res = recovered.try_push(a);
            assert(recovered@ =~= queued(before, corrected(corrections)));
            match res {
                Ok(()) => Ok(()),
                Err(_) => Err(FecDecodeError::NoSpaceForRecovered),
            }
        },
        Corrections::Two(a, b) => {
            if let Err(_) = recovered.try_push(a) {
                assert(recovered@ =~= queued(before, corrected(corrections)));
                return Err(FecDecodeError::NoSpaceForRecovered);
            }
            let res = recovered.try_push(b);
            assert(recovered@ =~= queued(before, corrected(corrections)));
            match res {
                Ok(()) => Ok(()),
                Err(_) => Err(FecDecodeError::NoSpaceForRecovered),
            }
        },
    }
}

/// The header and the sequence number of a FEC packet that should protect the given direction.
fn read_fec_packet<P: Packet>(packet: &P, orientation: Orientation) -> (res: Result<
    Result<(FecHeader, u16), FecDecodeError>,
    Refusal,
>)
    ensures
        match res {
            Ok(Ok((header, seq))) => {
                &&& fec_packet(orientation, packet.bytes()) == Ok::<
                    Result<FecHeader, FecDecodeError>,
                    Refusal,
                >(Ok(header))
                &&& seq == rtp_sequence(packet.bytes())
            },
            Ok(Err(error)) => fec_packet(orientation, packet.bytes()) == Ok::<
                Result<FecHeader, FecDecodeError>,
                Refusal,
            >(Err(error)),
            Err(refusal) => fec_packet(orientation, packet.bytes()) == Err::<
                Result<FecHeader, FecDecodeError>,
                Refusal,
            >(refusal),
        },
{
    let rtp_header = match RtpReader::new(packet.payload()) {
        Ok(rtp_header) => rtp_header,
        Err(error) => {
            return Ok(Err(FecDecodeError::from(error)));
        },
    };
    if !is_readable(rtp_header.payload) {
        return Err(Refusal::FecTruncated);
    }
    let fec_header = match FecHeader::split_from_bytes(rtp_header.payload) {
        Ok((fec_header, _)) => fec_header,
        Err(error) => {
            return Err(Refusal::Fec(error));
        },
    };
    if fec_header.orientation != orientation {
        return Ok(
            Err(
                FecDecodeError::Orientation {
                    expected: orientation,
                    actual: fec_header.orientation,
                },
            ),
        );
    }
    Ok(Ok((fec_header, rtp_header.sequence_number)))
}

/// Decoder state-machine for _SMPTE 2022-1_ FEC.
///
/// An application receiving data from the network will take buffers from the buffer pool, arrange
/// for UDP packet payloads to be written into these, and add them to the decoder.  Media packets,
/// received or recovered, are passed on to the receiver; for error correction the decoder keeps
/// copies of the most recent ones.
///
/// Note that this does not try to solve the following problems,
///  - Reordering
///    - Out-of-order packets on the main stream are passed on to the application still out-of-order
///    - Recovery of lost packets may occur after packets with later sequence numbers have already
///      been passed to the application
///  - Pacing
///    - Packets are passed to the application as soon as possible, without regard for the
///      timestamps on the packets
pub struct Decoder<BP: BufferPool, Recv: Receiver<BP::P>> {
    state: State<BP, Recv>,
}

impl<BP: BufferPool, Recv: Receiver<BP::P>> View for Decoder<BP, Recv> {
    type V = DecoderView<BP, Recv>;

    closed spec fn view(&self) -> DecoderView<BP, Recv> {
        self.state@
    }
}

impl<BP: BufferPool, Recv: Receiver<BP::P>> Decoder<BP, Recv> {
    pub closed spec fn wf(self) -> bool {
        self.state.wf()
    }

    /// The geometry of the decoder is one that is allowed, and its matrix is of that geometry.
    pub proof fn law_valid(self)
        requires
            self.wf(),
        ensures
            self@.valid(),
    {
    }

    /// A decoder that takes buffers for recovered packets from `buffer_pool`, and passes media
    /// packets on to `receiver`.
    pub fn new(buffer_pool: BP, receiver: Recv) -> (res: Decoder<BP, Recv>)
        ensures
            res.wf(),
            res@ == (DecoderView { pool: buffer_pool, recv: receiver, running: None }),
    {
        Decoder { state: State::Start(buffer_pool, receiver) }
    }

    /// Adopts the geometry that a FEC header gives.
    fn merge_fec_parameters(&mut self, header: &FecHeader) -> (res: Result<(), Refusal>)
        requires
            old(self).wf(),
        ensures
            final(self).wf(),
            match res {
                Ok(()) => old(self)@.merged(*header) == Ok::<_, Refusal>(final(self)@),
                Err(refusal) => {
                    &&& old(self)@.merged(*header) == Err::<DecoderView<BP, Recv>, _>(refusal)
                    &&& final(self)@ == old(self)@
                },
            },
    {
        let agrees: Option<bool> = match &self.state {
            State::Init => unreached(),
            State::Start(_, _) => None,
            State::Running { geometry, .. } => Some(geometry.matches(header)),
        };
        match agrees {
            None => {
                if let Ok(geometry) = FecGeometry::from_header(header) {
                    let width: u8 = geometry.l;
                    let height: u8 = geometry.d;
                    self.state.running(width, height, geometry);
                }
                Ok(())
            },
            Some(true) => Ok(()),
            Some(false) => match FecGeometry::from_header(header) {
                Ok(geometry) => {
                    self.state.reconfigure(geometry);
                    Ok(())
                },
                Err(error) => Err(Refusal::Geometry(error)),
            },
        }
    }

    /// Inserts recovered packets, the most recent first, until none are left.  One that is at hand by
    /// then is left out.
    fn settle(&mut self, recovered: Backlog<BP::P>) -> (res: Outcome)
        requires
            old(self).wf(),
            recovered@.len() <= BACKLOG_LIMIT,
            Progress::Launched.on_track(old(self)@, recovered@),
        ensures
            final(self).wf(),
            old(self)@.settles(recovered@, final(self)@, res),
    {
        let mut backlog = recovered;
        let ghost mut progress = Progress::Launched;
        loop
            invariant
                self.wf(),
                backlog@.len() <= BACKLOG_LIMIT,
                progress.on_track(self@, backlog@),
                forall|after: DecoderView<BP, Recv>, outcome: Outcome| #[trigger]
                    self@.settles(backlog@, after, outcome) ==> old(self)@.settles(
                        recovered@,
                        after,
                        outcome,
                    ),
            decreases progress.rank(self@, backlog@),
        {
            let ghost before = self@;
            let ghost waiting = backlog@;
            let pk = match backlog.pop() {
                Some(pk) => pk,
                None => {
                    assert(before.settles_within(0, waiting, self@, Ok(Ok(()))));
                    assert(before.settles(waiting, self@, Ok(Ok(()))));
                    return Ok(Ok(()));
                },
            };
            let seq: u16 = match RtpReader::new(pk.payload()) {
                Ok(rtp_header) => rtp_header.sequence_number,
                Err(error) => {
                    let outcome: Outcome = Ok(Err(FecDecodeError::from(error)));
                    assert(before.settles_within(0, waiting, self@, outcome));
                    assert(before.settles(waiting, self@, outcome));
                    return outcome;
                },
            };
            // a packet that has been recovered in two ways is passed on just once
            if self.state.holds(seq) {
                proof {
                    progress.lemma_rank(before, waiting);
                    progress = progress.lemma_skip(before, waiting);
                    progress.lemma_rank(before, backlog@);
                    assert forall|after: DecoderView<BP, Recv>, last: Outcome| #[trigger]
                        self@.settles(backlog@, after, last) implies old(self)@.settles(
                        recovered@,
                        after,
                        last,
                    ) by {
                        let n = choose|n: nat| #[trigger]
                            self@.settles_within(n, backlog@, after, last);
                        assert(before.settles_within(n + 1, waiting, after, last));
                        assert(before.settles(waiting, after, last));
                    }
                }
                continue ;
            }
            let outcome = self.state.insert_main_packet(
                seq,
                pk,
                &mut backlog,
                PacketStatus::Recovered,
            );
            match outcome {
                Ok(Ok(())) => {},
                _ => {
                    assert(before.settles_within(1, waiting, self@, outcome));
                    assert(before.settles(waiting, self@, outcome));
                    return outcome;
                },
            }
            proof {
                progress.lemma_rank(before, waiting);
                let next = progress.lemma_advance(before, waiting, self@, backlog@);
                next.lemma_rank(self@, backlog@);
                progress = next;
                assert forall|after: DecoderView<BP, Recv>, last: Outcome| #[trigger]
                    self@.settles(backlog@, after, last) implies old(self)@.settles(
                    recovered@,
                    after,
                    last,
                ) by {
                    let n = choose|n: nat| #[trigger]
                        self@.settles_within(n, backlog@, after, last);
                    assert(before.settles_within(n + 1, waiting, after, last));
                    assert(before.settles(waiting, after, last));
                }
            }
        }
    }

    /// Takes a packet of the media stream.
    fn take_main_packet(&mut self, p: BP::P) -> (res: Outcome)
        requires
            old(self).wf(),
        ensures
            final(self).wf(),
            old(self)@.takes_main(p, final(self)@, res),
    {
        let seq: u16 = match RtpReader::new(p.payload()) {
            Ok(rtp_header) => rtp_header.sequence_number,
            Err(error) => {
                return Ok(Err(FecDecodeError::from(error)));
            },
        };
        let mut recovered = Backlog::new();
        let outcome = self.state.insert_main_packet(seq, p, &mut recovered, PacketStatus::Received);
        match outcome {
            Ok(Ok(())) => {
                proof {
                    Progress::lemma_begun_by_media(
                        old(self)@,
                        seq,
                        (p, PacketStatus::Received),
                        self@,
                        recovered@,
                    );
                }
                self.settle(recovered)
            },
            _ => outcome,
        }
    }

    /// Takes a packet of the FEC stream for rows or columns.
    fn take_fec_packet(&mut self, orientation: Orientation, p: BP::P) -> (res: Outcome)
        requires
            old(self).wf(),
        ensures
            final(self).wf(),
            old(self)@.takes_fec(orientation, p, final(self)@, res),
    {
        let (header, seq): (FecHeader, u16) = match read_fec_packet(&p, orientation) {
            Ok(Ok(header)) => header,
            Ok(Err(error)) => {
                return Ok(Err(error));
            },
            Err(refusal) => {
                return Err(refusal);
            },
        };
        proof {
            law_merged_agrees(self@, header);
        }
        if let Err(refusal) = self.merge_fec_parameters(&header) {
            return Err(refusal);
        }
        let mut recovered = Backlog::new();
        let ghost merged = self@;
        let outcome = match orientation {
            Orientation::Row => self.state.insert_row_packet(seq, p, &mut recovered),
            Orientation::Column => self.state.insert_column_packet(seq, p, &mut recovered),
        };
        match outcome {
            Ok(Ok(())) => {
                proof {
                    Progress::lemma_begun_by_fec(
                        merged,
                        orientation,
                        seq,
                        p,
                        self@,
                        recovered@,
                    );
                }
                self.settle(recovered)
            },
            _ => outcome,
        }
    }

    /// Takes a packet of the given stream.
    fn take_packet(&mut self, stream: Stream, p: BP::P) -> (res: Outcome)
        requires
            old(self).wf(),
        ensures
            final(self).wf(),
            old(self)@.takes(stream, p, final(self)@, res),
    {
        match stream {
            Stream::Main => self.take_main_packet(p),
            Stream::Fec(orientation) => self.take_fec_packet(orientation, p),
        }
    }

    /// Takes packets of the given stream, one by one until one is rejected or refused.
    fn take_packets<T: Iterator<Item = BP::P>>(&mut self, stream: Stream, pk: T) -> (res: Outcome)
        requires
            old(self).wf(),
            pk.obeys_prophetic_iter_laws(),
            pk.decrease() is Some,
        ensures
            final(self).wf(),
            old(self)@.takes_all(stream, pk.remaining(), final(self)@, res),
    {
        let mut packets = pk;
        loop
            invariant
                self.wf(),
                packets.obeys_prophetic_iter_laws(),
                packets.decrease() is Some,
                forall|after: DecoderView<BP, Recv>, outcome: Outcome| #[trigger]
                    self@.takes_all(stream, packets.remaining(), after, outcome)
                        ==> old(self)@.takes_all(stream, pk.remaining(), after, outcome),
            decreases packets.decrease()->0,
        {
            let ghost before = self@;
            let ghost waiting = packets;
            let p = match packets.next() {
                Some(p) => p,
                None => {
                    assert(before.takes_all(stream, waiting.remaining(), before, Ok(Ok(()))));
                    return Ok(Ok(()));
                },
            };
            let outcome = self.take_packet(stream, p);
            match outcome {
                Ok(Ok(())) => {},
                _ => {
                    assert(before.takes_all(stream, waiting.remaining(), self@, outcome));
                    return outcome;
                },
            }
            assert forall|after: DecoderView<BP, Recv>, last: Outcome| #[trigger]
                self@.takes_all(stream, packets.remaining(), after, last) implies old(
                self,
            )@.takes_all(stream, pk.remaining(), after, last) by {
                assert(before.takes_all(stream, waiting.remaining(), after, last));
            }
        }
    }

    /// Adds packets of the media stream, one by one until one is rejected with an error, or refused
    /// because the decoder has no way of dealing with it.
    pub fn try_add_main_packets<T: Iterator<Item = BP::P>>(&mut self, pk: T) -> (res: Outcome)
        requires
            old(self).wf(),
            pk.obeys_prophetic_iter_laws(),
            pk.decrease() is Some,
        ensures
            final(self).wf(),
            old(self)@.takes_all(Stream::Main, pk.remaining(), final(self)@, res),
    {
        self.take_packets(Stream::Main, pk)
    }

    /// Adds packets of the media stream, one by one until one is rejected with an error.
    ///
    /// None of the packets may be one that [`Decoder::try_add_main_packets`] could refuse.
    pub fn add_main_packets<T: Iterator<Item = BP::P>>(&mut self, pk: T) -> (res: Result<
        (),
        FecDecodeError,
    >)
        requires
            old(self).wf(),
            pk.obeys_prophetic_iter_laws(),
            pk.decrease() is Some,
            old(self)@.accepts_all(Stream::Main, pk.remaining()),
        ensures
            final(self).wf(),
            old(self)@.takes_all(Stream::Main, pk.remaining(), final(self)@, Ok(res)),
    {
        match self.take_packets(Stream::Main, pk) {
            Ok(res) => res,
            Err(_) => unreached(),
        }
    }

    /// Adds packets of the FEC stream for rows, one by one until one is rejected with an error, or
    /// refused because the decoder has no way of dealing with it.
    pub fn try_add_row_packets<T: Iterator<Item = BP::P>>(&mut self, pk: T) -> (res: Outcome)
        requires
            old(self).wf(),
            pk.obeys_prophetic_iter_laws(),
            pk.decrease() is Some,
        ensures
            final(self).wf(),
            old(self)@.takes_all(Stream::Fec(Orientation::Row), pk.remaining(), final(self)@, res),
    {
        self.take_packets(Stream::Fec(Orientation::Row), pk)
    }

    /// Adds packets of the FEC stream for rows, one by one until one is rejected with an error.
    ///
    /// None of the packets may be one that [`Decoder::try_add_row_packets`] could refuse.
    pub fn add_row_packets<T: Iterator<Item = BP::P>>(&mut self, pk: T) -> (res: Result<
        (),
        FecDecodeError,
    >)
        requires
            old(self).wf(),
            pk.obeys_prophetic_iter_laws(),
            pk.decrease() is Some,
            old(self)@.accepts_all(Stream::Fec(Orientation::Row), pk.remaining()),
        ensures
            final(self).wf(),
            old(self)@.takes_all(
                Stream::Fec(Orientation::Row),
                pk.remaining(),
                final(self)@,
                Ok(res),
            ),
    {
        match self.take_packets(Stream::Fec(Orientation::Row), pk) {
            Ok(res) => res,
            Err(_) => unreached(),
        }
    }

    /// Adds packets of the FEC stream for columns, one by one until one is rejected with an error, or
    /// refused because the decoder has no way of dealing with it.
    pub fn try_add_column_packets<T: Iterator<Item = BP::P>>(&mut self, pk: T) -> (res: Outcome)
        requires
            old(self).wf(),
            pk.obeys_prophetic_iter_laws(),
            pk.decrease() is Some,
        ensures
            final(self).wf(),
            old(self)@.takes_all(
                Stream::Fec(Orientation::Column),
                pk.remaining(),
                final(self)@,
                res,
            ),
    {
        self.take_packets(Stream::Fec(Orientation::Column), pk)
    }

    /// Adds packets of the FEC stream for columns, one by one until one is rejected with an error.
    ///
    /// None of the packets may be one that [`Decoder::try_add_column_packets`] could refuse.
    pub fn add_column_packets<T: Iterator<Item = BP::P>>(&mut self, pk: T) -> (res: Result<
        (),
        FecDecodeError,
    >)
        requires
            old(self).wf(),
            pk.obeys_prophetic_iter_laws(),
            pk.decrease() is Some,
            old(self)@.accepts_all(Stream::Fec(Orientation::Column), pk.remaining()),
        ensures
            final(self).wf(),
            old(self)@.takes_all(
                Stream::Fec(Orientation::Column),
                pk.remaining(),
                final(self)@,
                Ok(res),
            ),
    {
        match self.take_packets(Stream::Fec(Orientation::Column), pk) {
            Ok(res) => res,
            Err(_) => unreached(),
        }
    }
}

} // verus!
