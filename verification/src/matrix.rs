//! The matrix of media packets, and the FEC packets protecting its rows and columns.

use crate::correction::{
    accepts, accepts_fec, covers_first, empty_matrix, fec_in, first_covering, inserts,
    inserts_fec, is_first_cover, is_legible, is_uncovered, lemma_first_covering_prefix,
    lemma_search, lemma_missing_among_grows, missing_among, present_among,
    recovers, takes_up, yields, Corrections, MatrixView,
};
use crate::error::FecDecodeError;
use crate::fec::{is_readable, FecHeader, Orientation};
use crate::packet::{BufferPool, NilReceiver, Packet, PacketStatus, Receiver};
use crate::packet_sequence::PacketSequence;
use crate::recovery::{bytes_of, rebuild, Recovery, Refusal};
use crate::rtp::RtpReader;
use crate::sequence::before;
use crate::window::{lemma_contents_insert, packets_in};
use vstd::pervasive::unreached;
use vstd::prelude::*;
use vstd::slice::slice_to_vec;

verus! {

/// Tracks the current state of the Forward Error Correction process, holding a rolling window of
/// packets already acquired, and using the opportunity of new packets becoming available to
/// reconstruct any missing packets within the rolling window.
///
/// Media packets go to the receiver as they are inserted, so that what the window holds of them is
/// a copy.
///
/// ```plain
///  main packet descriptors
///  |
///  v            v--- row packet descriptors
///  P  P  P  P | R
///             |
///  P  P  P  P | R
///             |
///  P  P  P  P | R
///             |
///  P  P  P  P | R
///  -----------+
///  C  C  C  C     <-- column FEC descriptors
/// ```
pub struct FecMatrix<BP: BufferPool, Recv: Receiver<BP::P>> {
    buffer_pool: BP,
    receiver: Recv,
    main_descriptors: PacketSequence<Vec<u8>, NilReceiver<Vec<u8>>>,
    row_descriptors: PacketSequence<BP::P, NilReceiver<BP::P>>,
    col_descriptors: PacketSequence<BP::P, NilReceiver<BP::P>>,
}

impl<BP: BufferPool, Recv: Receiver<BP::P>> View for FecMatrix<BP, Recv> {
    type V = MatrixView<BP::P>;

    closed spec fn view(&self) -> MatrixView<BP::P> {
        MatrixView {
            main: self.main_descriptors@.contents(),
            row: self.row_descriptors@,
            col: self.col_descriptors@,
        }
    }
}

/// The FEC data in `packet`, if any.
fn fec_data<P: Packet>(packet: &P) -> (res: Result<Option<&[u8]>, Refusal>)
    ensures
        match res {
            Ok(Some(data)) => fec_in(packet.bytes()) == Ok::<Option<Seq<u8>>, Refusal>(Some(data@)),
            Ok(None) => fec_in(packet.bytes()) == Ok::<Option<Seq<u8>>, Refusal>(None),
            Err(refusal) => fec_in(packet.bytes()) == Err::<Option<Seq<u8>>, Refusal>(refusal),
        },
{
    let rtp = match RtpReader::new(packet.payload()) {
        Ok(rtp) => rtp,
        Err(_) => {
            return Ok(None);
        },
    };
    if !is_readable(rtp.payload) {
        return Err(Refusal::FecTruncated);
    }
    match FecHeader::split_from_bytes(rtp.payload) {
        Ok(_) => Ok(Some(rtp.payload)),
        Err(_) => Ok(None),
    }
}

impl<BP: BufferPool, Recv: Receiver<BP::P>> FecMatrix<BP, Recv> {
    pub closed spec fn wf(self) -> bool {
        &&& self.main_descriptors.wf()
        &&& self.row_descriptors.wf()
        &&& self.col_descriptors.wf()
    }

    /// The pool that recovered packets come from.
    pub closed spec fn pool(self) -> BP {
        self.buffer_pool
    }

    /// The receiver of the media packets.
    pub closed spec fn receiver(self) -> Recv {
        self.receiver
    }

    /// Each of the windows of the matrix keeps to its limit.
    pub proof fn law_valid(self)
        requires
            self.wf(),
        ensures
            self@.valid(),
    {
        self.main_descriptors.law_valid();
        self.row_descriptors.law_valid();
        self.col_descriptors.law_valid();
    }

    /// A matrix without packets.  There is room for the media packets of two matrices.
    pub fn new(buffer_pool: BP, cols: u8, rows: u8, receiver: Recv) -> (res: FecMatrix<BP, Recv>)
        requires
            cols * rows <= 100,
        ensures
            res.wf(),
            res@ == empty_matrix::<BP::P>(cols as nat, rows as nat),
            res@.main.limit == 2 * (cols * rows),
            res@.row.limit == rows,
            res@.col.limit == cols,
            res@.main.slots.len() == 0 && res@.row.slots.len() == 0 && res@.col.slots.len() == 0,
            res@.main.early == 0 && res@.row.early == 0 && res@.col.early == 0,
            res.pool() == buffer_pool,
            res.receiver() == receiver,
    {
        let matrix_size: usize = cols as usize * rows as usize * 2;
        FecMatrix {
            buffer_pool,
            receiver,
            main_descriptors: PacketSequence::new(matrix_size),
            row_descriptors: PacketSequence::new(rows as usize),
            col_descriptors: PacketSequence::new(cols as usize),
        }
    }

    /// Whether the media packet `seq` is in the window.
    pub fn holds(&self, seq: u16) -> (res: bool)
        requires
            self.wf(),
        ensures
            res == self@.main.get(seq) is Some,
    {
        self.main_descriptors.get_by_seq(seq).is_some()
    }

    /// Gives the buffer pool and the receiver back.
    pub fn dispose(self) -> (res: (BP, Recv))
        ensures
            res == (self.pool(), self.receiver()),
    {
        (self.buffer_pool, self.receiver)
    }

    /// The sequence number of the first FEC packet that covers the media packet `media_seq`.
    fn find_associated_fec_packet(
        fec_descriptors: &PacketSequence<BP::P, NilReceiver<BP::P>>,
        media_seq: u16,
    ) -> (res: Result<Option<u16>, Refusal>)
        requires
            fec_descriptors.wf(),
        ensures
            match first_covering(fec_descriptors@.slots, media_seq) {
                Ok(Some(index)) => res == Ok::<Option<u16>, Refusal>(
                    Some(fec_descriptors@.seq_at(index)),
                ),
                Ok(None) => res == Ok::<Option<u16>, Refusal>(None),
                Err(refusal) => res == Err::<Option<u16>, Refusal>(refusal),
            },
            match res {
                Ok(Some(fec_seq)) => covers_first(fec_descriptors@, fec_seq, media_seq),
                Ok(None) => is_uncovered(fec_descriptors@, media_seq),
                Err(_) => !is_legible(fec_descriptors@),
            },
    {
        proof {
            lemma_search(fec_descriptors@.slots, media_seq);
        }
        let ghost slots = fec_descriptors@.slots;
        let mut i: usize = 0;
        while i < fec_descriptors.len()
            invariant
                fec_descriptors.wf(),
                slots == fec_descriptors@.slots,
                i <= slots.len(),
                first_covering(slots.take(i as int), media_seq) == Ok::<Option<int>, Refusal>(None),
            decreases slots.len() - i,
        {
            proof {
                assert(slots.take(i + 1).drop_last() =~= slots.take(i as int));
                assert(slots.take(i + 1).last() == slots[i as int]);
                if first_covering(slots.take(i + 1), media_seq) != Ok::<Option<int>, Refusal>(
                    None,
                ) {
                    lemma_first_covering_prefix(slots, media_seq, i + 1);
                    lemma_search(slots, media_seq);
                    if first_covering(slots, media_seq) is Ok {
                        assert(is_first_cover(fec_descriptors@, i as int, media_seq));
                    }
                }
            }
            let (seq, slot) = fec_descriptors.entry(i);
            if let Some((packet, _)) = slot {
                match fec_data(packet) {
                    Ok(Some(data)) => {
                        if FecHeader::associates_with(data, media_seq) {
                            return Ok(Some(seq));
                        }
                    },
                    Ok(None) => {},
                    Err(refusal) => {
                        return Err(refusal);
                    },
                }
            }
            i += 1;
        }
        assert(slots.take(slots.len() as int) =~= slots);
        Ok(None)
    }

    /// returns the main packets associated with the given FEC packet
    fn iter_associated(&self, fec_header: &FecHeader) -> (res: Vec<(u16, Option<&Vec<u8>>)>)
        requires
            self.wf(),
            fec_header.offset > 0,
        ensures
            res@.len() == fec_header.associated().len(),
            forall|i: int|
                0 <= i < res@.len() ==> {
                    &&& (#[trigger] res@[i]).0 == fec_header.associated()[i]
                    &&& match res@[i].1 {
                        Some(packet) => self@.main.get(res@[i].0) matches Some((pk, _)) && pk
                            == packet@,
                        None => self@.main.get(res@[i].0) is None,
                    }
                },
    {
        let seqs = fec_header.associated_seqs();
        let mut res: Vec<(u16, Option<&Vec<u8>>)> = Vec::new();
        let mut i: usize = 0;
        while i < seqs.len()
            invariant
                self.wf(),
                seqs@ == fec_header.associated(),
                i <= seqs@.len(),
                res@.len() == i,
                forall|k: int|
                    0 <= k < i ==> {
                        &&& (#[trigger] res@[k]).0 == fec_header.associated()[k]
                        &&& match res@[k].1 {
                            Some(packet) => self@.main.get(res@[k].0) matches Some((pk, _)) && pk
                                == packet@,
                            None => self@.main.get(res@[k].0) is None,
                        }
                    },
            decreases seqs@.len() - i,
        {
            let packet = match self.main_descriptors.get_by_seq(seqs[i]) {
                Some((pk, _)) => Some(pk),
                None => None,
            };
            res.push((seqs[i], packet));
            i += 1;
        }
        res
    }

    /// The one media packet that is missing of those associated with a FEC packet, where it is just
    /// one.
    fn find_single_missing_associated(&self, fec_header: &FecHeader) -> (res: Option<u16>)
        requires
            self.wf(),
            fec_header.offset > 0,
        ensures
            res == self@.single_missing(*fec_header),
    {
        let front_seq: u16 = match self.main_descriptors.front_seq() {
            Some(front_seq) => front_seq,
            None => {
                return None;
            },
        };
        let ghost seqs = fec_header.associated();
        let ghost main = self@.main;
        let packets = self.iter_associated(fec_header);
        let mut missing_seq: Option<u16> = None;
        let mut i: usize = 0;
        while i < packets.len()
            invariant
                seqs == fec_header.associated(),
                main == self@.main,
                main.front() == Some(front_seq),
                packets@.len() == seqs.len(),
                i <= seqs.len(),
                forall|k: int|
                    0 <= k < packets@.len() ==> {
                        &&& (#[trigger] packets@[k]).0 == seqs[k]
                        &&& packets@[k].1 is None == main.get(seqs[k]) is None
                    },
                forall|k: int| 0 <= k < i ==> !main.too_early(#[trigger] seqs[k]),
                match missing_seq {
                    Some(seq) => missing_among(main, seqs.take(i as int)) == seq![seq],
                    None => missing_among(main, seqs.take(i as int)) == Seq::<u16>::empty(),
                },
            decreases seqs.len() - i,
        {
            proof {
                assert(seqs.take(i + 1).drop_last() =~= seqs.take(i as int));
                assert(seqs.take(i + 1).last() == seqs[i as int]);
            }
            let seq: u16 = packets[i].0;
            if before(seq, front_seq) {
                // if the FEC packet we are considering covers packets earlier than the earliest
                // packet in the matrix, then we mustn't try to recover, since we will not insert
                // packets earlier than the first packet (either a proper packet, or a placeholder)
                // if we let this happen, it can cause an infinite loop trying to recover this
                // packet that we never actually accept.
                assert(main.too_early(seqs[i as int]));
                return None;
            }
            if packets[i].1.is_none() {
                match missing_seq {
                    Some(_) => {
                        // can't recover if more than 1 missing
                        proof {
                            lemma_missing_among_grows(main, seqs, i + 1);
                        }
                        return None;
                    },
                    None => {
                        missing_seq = Some(seq);
                    },
                }
            }
            i += 1;
        }
        assert(seqs.take(seqs.len() as int) =~= seqs);
        missing_seq
    }

    /// The main packets associated with the given FEC packet that are present.
    fn present_associated(&self, fec_header: &FecHeader) -> (res: Vec<&Vec<u8>>)
        requires
            self.wf(),
            fec_header.offset > 0,
        ensures
            bytes_of(res@) == present_among(self@.main, fec_header.associated()),
    {
        let ghost seqs = fec_header.associated();
        let ghost slots = Seq::new(seqs.len(), |i: int| self@.main.get(seqs[i]));
        let packets = self.iter_associated(fec_header);
        let mut res: Vec<&Vec<u8>> = Vec::new();
        let mut i: usize = 0;
        while i < packets.len()
            invariant
                seqs == fec_header.associated(),
                slots == Seq::new(seqs.len(), |i: int| self@.main.get(seqs[i])),
                packets@.len() == seqs.len(),
                i <= seqs.len(),
                forall|k: int|
                    0 <= k < packets@.len() ==> match (#[trigger] packets@[k]).1 {
                        Some(packet) => slots[k] matches Some((pk, _)) && pk == packet@,
                        None => slots[k] is None,
                    },
                res@.len() == packets_in(slots.take(i as int)).len(),
                forall|k: int|
                    0 <= k < res@.len() ==> (#[trigger] res@[k])@ == packets_in(
                        slots.take(i as int),
                    )[k].0,
            decreases seqs.len() - i,
        {
            proof {
                assert(slots.take(i + 1).drop_last() =~= slots.take(i as int));
                assert(slots.take(i + 1).last() == slots[i as int]);
            }
            if let Some(packet) = packets[i].1 {
                res.push(packet);
            }
            i += 1;
        }
        assert(slots.take(slots.len() as int) =~= slots);
        assert(bytes_of(res@) =~= present_among(self@.main, fec_header.associated()));
        res
    }

    /// Recovers the packet `seq`, the only one missing of those associated with a FEC packet.
    fn perform_correction(
        &self,
        fec_header: &FecHeader,
        fec_payload: &[u8],
        seq: u16,
    ) -> (res: Result<Option<BP::P>, Refusal>)
        requires
            self.wf(),
            fec_header.offset > 0,
        ensures
            recovers(
                self.pool(),
                Recovery {
                    header: *fec_header,
                    fec_payload: fec_payload@,
                    present: present_among(self@.main, fec_header.associated()),
                    seq,
                },
                res,
            ),
    {
        match self.buffer_pool.allocate() {
            Some(fresh) => {
                let present = self.present_associated(fec_header);
                rebuild(fresh, fec_header, fec_payload, &present, seq)
            },
            None => Ok(None),
        }
    }

    /// Recovers a packet by means of the FEC packet `seq`, where that is possible.
    fn maybe_correct(&self, orientation: Orientation, seq: u16) -> (res: Result<
        Option<BP::P>,
        Refusal,
    >)
        requires
            self.wf(),
        ensures
            takes_up(self.pool(), self@.opportunity(orientation, seq), res),
    {
        let packet = match orientation {
            Orientation::Row => self.row_descriptors.get_by_seq(seq),
            Orientation::Column => self.col_descriptors.get_by_seq(seq),
        };
        let udp_pk = match packet {
            Some((udp_pk, _)) => udp_pk,
            None => {
                return Ok(None);
            },
        };
        let data = match fec_data(udp_pk) {
            Ok(Some(data)) => data,
            Ok(None) => {
                return Ok(None);
            },
            Err(refusal) => {
                return Err(refusal);
            },
        };
        let (fec_header, fec_payload) = match FecHeader::split_from_bytes(data) {
            Ok(res) => res,
            Err(_) => {
                return Ok(None);
            },
        };
        match self.find_single_missing_associated(&fec_header) {
            Some(missing) => self.perform_correction(&fec_header, fec_payload, missing),
            None => Ok(None),
        }
    }

    /// Recovers a packet in the column of the media packet `seq`, where that is possible.
    fn look_for_col_correction(&self, seq: u16) -> (res: Result<Option<BP::P>, Refusal>)
        requires
            self.wf(),
        ensures
            takes_up(self.pool(), self@.opportunity_around(Orientation::Column, seq), res),
    {
        match Self::find_associated_fec_packet(&self.col_descriptors, seq) {
            Ok(Some(fec_seq)) => self.maybe_correct(Orientation::Column, fec_seq),
            Ok(None) => Ok(None),
            Err(refusal) => Err(refusal),
        }
    }

    /// Recovers a packet in the row of the media packet `seq`, where that is possible.
    fn look_for_row_correction(&self, seq: u16) -> (res: Result<Option<BP::P>, Refusal>)
        requires
            self.wf(),
        ensures
            takes_up(self.pool(), self@.opportunity_around(Orientation::Row, seq), res),
    {
        match Self::find_associated_fec_packet(&self.row_descriptors, seq) {
            Ok(Some(fec_seq)) => self.maybe_correct(Orientation::Row, fec_seq),
            Ok(None) => Ok(None),
            Err(refusal) => Err(refusal),
        }
    }

    /// The corrections found in the column and the row of the media packet `seq`.
    fn look_for_corrections(&self, seq: u16) -> (res: Result<Corrections<BP::P>, Refusal>)
        requires
            self.wf(),
        ensures
            yields(self.pool(), self@, seq, res),
    {
        reveal(yields);
        let column = match self.look_for_col_correction(seq) {
            Ok(column) => column,
            Err(refusal) => {
                assert(takes_up(
                    self.pool(),
                    self@.opportunity_around(Orientation::Column, seq),
                    Err(refusal),
                ));
                return Err(refusal);
            },
        };
        let row = match self.look_for_row_correction(seq) {
            Ok(row) => row,
            Err(refusal) => {
                assert(takes_up(
                    self.pool(),
                    self@.opportunity_around(Orientation::Column, seq),
                    Ok(column),
                ));
                assert(takes_up(
                    self.pool(),
                    self@.opportunity_around(Orientation::Row, seq),
                    Err(refusal),
                ));
                return Err(refusal);
            },
        };
        assert(takes_up(
            self.pool(),
            self@.opportunity_around(Orientation::Column, seq),
            Ok(column),
        ));
        assert(takes_up(self.pool(), self@.opportunity_around(Orientation::Row, seq), Ok(row)));
        Ok(
            match (column, row) {
                (None, None) => Corrections::Zero,
                (Some(a), None) => Corrections::One(a),
                (None, Some(b)) => Corrections::One(b),
                (Some(a), Some(b)) => Corrections::Two(a, b),
            },
        )
    }

    /// Inserts a media packet, passes it on to the receiver, and gives the corrections that it makes
    /// possible in its column and row.
    pub fn try_insert(&mut self, seq: u16, pk: BP::P, pk_status: PacketStatus) -> (res: Result<
        Corrections<BP::P>,
        Refusal,
    >)
        requires
            old(self).wf(),
        ensures
            final(self).wf(),
            final(self).pool() == old(self).pool(),
            inserts(
                old(self).pool(),
                old(self)@,
                old(self).receiver(),
                seq,
                (pk, pk_status),
                final(self)@,
                final(self).receiver(),
                res,
            ),
    {
        reveal(inserts);
        let copy = slice_to_vec(pk.payload());
        proof {
            lemma_contents_insert(self.main_descriptors@, seq, (copy, pk_status));
        }
        if !self.main_descriptors.fits(seq) {
            return Err(Refusal::WindowOverrun);
        }
        self.main_descriptors.insert(seq, copy, pk_status);
        let arrived = vec![(pk, pk_status)];
        assert(arrived@ =~= seq![(pk, pk_status)]);
        self.receiver.receive(arrived.into_iter());

        // if we already have FEC packets covering this media packet (because things arrived out
        // of sequence) then the arrival of this packet may now make it possible to apply a
        // correction, so search for those opportunities in the row + column to which the packet
        // belongs,
        self.look_for_corrections(seq)
    }

    /// Inserts a FEC packet protecting a column, and applies the correction that it makes possible.
    pub fn try_insert_column(&mut self, seq: u16, pk: BP::P) -> (res: Result<
        Option<BP::P>,
        Refusal,
    >)
        requires
            old(self).wf(),
        ensures
            final(self).wf(),
            final(self).pool() == old(self).pool(),
            final(self).receiver() == old(self).receiver(),
            inserts_fec(
                old(self).pool(),
                old(self)@,
                Orientation::Column,
                seq,
                pk,
                final(self)@,
                res,
            ),
    {
        reveal(inserts_fec);
        if !self.col_descriptors.fits(seq) {
            return Err(Refusal::WindowOverrun);
        }
        self.col_descriptors.insert(seq, pk, PacketStatus::Received);
        self.maybe_correct(Orientation::Column, seq)
    }

    /// Inserts a FEC packet protecting a row, and applies the correction that it makes possible.
    pub fn try_insert_row(&mut self, seq: u16, pk: BP::P) -> (res: Result<Option<BP::P>, Refusal>)
        requires
            old(self).wf(),
        ensures
            final(self).wf(),
            final(self).pool() == old(self).pool(),
            final(self).receiver() == old(self).receiver(),
            inserts_fec(
                old(self).pool(),
                old(self)@,
                Orientation::Row,
                seq,
                pk,
                final(self)@,
                res,
            ),
    {
        reveal(inserts_fec);
        if !self.row_descriptors.fits(seq) {
            return Err(Refusal::WindowOverrun);
        }
        self.row_descriptors.insert(seq, pk, PacketStatus::Received);
        self.maybe_correct(Orientation::Row, seq)
    }

    /// Like [`FecMatrix::try_insert`], for packets that are not refused.
    pub fn insert(&mut self, seq: u16, pk: BP::P, pk_status: PacketStatus) -> (res: Result<
        Corrections<BP::P>,
        FecDecodeError,
    >)
        requires
            old(self).wf(),
            accepts(
                old(self).pool(),
                old(self)@,
                old(self).receiver(),
                seq,
                (pk, pk_status),
            ),
        ensures
            final(self).wf(),
            final(self).pool() == old(self).pool(),
            res matches Ok(corrections) && inserts(
                old(self).pool(),
                old(self)@,
                old(self).receiver(),
                seq,
                (pk, pk_status),
                final(self)@,
                final(self).receiver(),
                Ok(corrections),
            ),
    {
        let res = self.try_insert(seq, pk, pk_status);
        match res {
            Ok(corrections) => {
                assert(res == Ok::<Corrections<BP::P>, Refusal>(corrections));
                Ok(corrections)
            },
            Err(_) => unreached(),
        }
    }

    /// Like [`FecMatrix::try_insert_column`], for packets that are not refused.
    pub fn insert_column(&mut self, seq: u16, pk: BP::P) -> (res: Result<
        Option<BP::P>,
        FecDecodeError,
    >)
        requires
            old(self).wf(),
            accepts_fec(old(self).pool(), old(self)@, Orientation::Column, seq, pk),
        ensures
            final(self).wf(),
            final(self).pool() == old(self).pool(),
            final(self).receiver() == old(self).receiver(),
            res matches Ok(correction) && inserts_fec(
                old(self).pool(),
                old(self)@,
                Orientation::Column,
                seq,
                pk,
                final(self)@,
                Ok(correction),
            ),
    {
        let res = self.try_insert_column(seq, pk);
        match res {
            Ok(correction) => {
                assert(res == Ok::<Option<BP::P>, Refusal>(correction));
                Ok(correction)
            },
            Err(_) => unreached(),
        }
    }

    /// Like [`FecMatrix::try_insert_row`], for packets that are not refused.
    pub fn insert_row(&mut self, seq: u16, pk: BP::P) -> (res: Result<
        Option<BP::P>,
        FecDecodeError,
    >)
        requires
            old(self).wf(),
            accepts_fec(old(self).pool(), old(self)@, Orientation::Row, seq, pk),
        ensures
            final(self).wf(),
            final(self).pool() == old(self).pool(),
            final(self).receiver() == old(self).receiver(),
            res matches Ok(correction) && inserts_fec(
                old(self).pool(),
                old(self)@,
                Orientation::Row,
                seq,
                pk,
                final(self)@,
                Ok(correction),
            ),
    {
        let res = self.try_insert_row(seq, pk);
        match res {
            Ok(correction) => {
                assert(res == Ok::<Option<BP::P>, Refusal>(correction));
                Ok(correction)
            },
            Err(_) => unreached(),
        }
    }
}

} // verus!
