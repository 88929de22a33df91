//! SMPTE 2022-1 FEC packet headers.

use crate::sequence::{advance, range, seq_add, seq_diff, seq_range};
use vstd::arithmetic::div_mod::{lemma_mod_equivalence, lemma_mod_multiples_basic};
use vstd::prelude::*;

verus! {

/// Identifies whether a FEC packet is associated with a 'row' or a 'column' of media packets.
#[derive(Debug, Clone, Copy, PartialEq, Eq, Structural)]
pub enum Orientation {
    /// FEC packet protects a row
    Row,
    /// FEC packet protects a column
    Column,
}

/// Why a buffer does not begin with a FEC header.
#[derive(Debug, Clone, Copy, PartialEq, Eq, Structural)]
pub enum FecHeaderError {
    /// The given buffer is too short to contain FEC headers (16 bytes, for SMPTE 2022-1)
    BufferTooShort(usize),
    /// The `e` (extended) flag is set to `0` (SMPTE 2022-1 requires that it is set to `1`).
    ExtendedFlagNotSet,
    /// the `offset` field unexpectedly had the value `0`
    OffsetValueZero,
    /// the `NA` field unexpectedly had the value `0`
    NumberAssociatedValueZero,
}

/// The fields of a FEC header that the decoder uses.
#[derive(Debug, Clone, Copy, PartialEq, Eq, Structural)]
pub struct FecHeader {
    /// 24 bit value of the minimum sequence number of media packets associated with this FEC packet
    pub sn_base: u32,
    /// The lengths of the associated media packets, combined by exclusive-or
    pub length_recovery: u16,
    /// Used to recover the _timestamp_ field of any packets associated with this FEC packet
    pub ts_recovery: u32,
    pub orientation: Orientation,
    /// 3-bit value indicating which error-correcting code is chosen
    pub fec_type: u8,
    /// The distance between the sequence numbers of associated media packets
    pub offset: u8,
    /// The number of media packets associated with this FEC packet
    pub number_associated: u8,
}

/// What keeps `buf` from beginning with a FEC header, if anything.
pub open spec fn fec_error(buf: Seq<u8>) -> Option<FecHeaderError> {
    if buf.len() < 12 {
        Some(FecHeaderError::BufferTooShort(buf.len() as usize))
    } else if buf[4] < 128 {
        Some(FecHeaderError::ExtendedFlagNotSet)
    } else if buf[13] == 0 {
        Some(FecHeaderError::OffsetValueZero)
    } else if buf[14] == 0 {
        Some(FecHeaderError::NumberAssociatedValueZero)
    } else if buf.len() < 16 {
        Some(FecHeaderError::BufferTooShort(buf.len() as usize))
    } else {
        None
    }
}

/// Whether `buf` either is long enough for the fields that tell a FEC header from other data, or
/// is rejected before these are looked at.
pub open spec fn fec_readable(buf: Seq<u8>) -> bool {
    ||| buf.len() < 12
    ||| buf[4] < 128
    ||| buf.len() >= 15
    ||| buf.len() == 14 && buf[13] == 0
}

/// The header that `buf` begins with.
pub open spec fn fec_header(buf: Seq<u8>) -> FecHeader {
    FecHeader {
        sn_base: (buf[15] * 0x1_0000 + buf[0] * 0x100 + buf[1]) as u32,
        length_recovery: (buf[2] * 0x100 + buf[3]) as u16,
        ts_recovery: (buf[8] * 0x100_0000 + buf[9] * 0x1_0000 + buf[10] * 0x100 + buf[11]) as u32,
        orientation: if buf[12] / 64 % 2 == 1 {
            Orientation::Row
        } else {
            Orientation::Column
        },
        fec_type: (buf[12] / 8 % 8) as u8,
        offset: buf[13],
        number_associated: buf[14],
    }
}

/// Whether a FEC header can be looked for in `buf`.
pub fn is_readable(buf: &[u8]) -> (res: bool)
    ensures
        res == fec_readable(buf@),
{
    buf.len() < 12 || buf[4] < 128 || buf.len() >= 15 || (buf.len() == 14 && buf[13] == 0)
}

impl FecHeader {
    /// The sequence number of the first media packet associated with this FEC packet.
    pub open spec fn sn_start(self) -> u16 {
        (self.sn_base % 0x1_0000) as u16
    }

    /// Whether a media packet with the given sequence number lies in the range that this FEC packet
    /// covers, and agrees with its start modulo the offset.
    pub open spec fn covers(self, seq: u16) -> bool {
        let end = seq_add(self.sn_start(), self.number_associated * self.offset);
        &&& seq_diff(self.sn_start(), seq) <= 0
        &&& seq_diff(seq, end) < 0
        &&& seq % (self.offset as u16) == self.sn_start() % (self.offset as u16)
    }

    /// The sequence numbers of the media packets associated with this FEC packet; none where they
    /// would span more than half a turn.
    pub open spec fn associated(self) -> Seq<u16> {
        if self.number_associated * self.offset <= 0x8000 {
            Seq::new(
                self.number_associated as nat,
                |i: int| seq_add(self.sn_start(), i * self.offset),
            )
        } else {
            Seq::empty()
        }
    }

    /// The sequence numbers of the media packets associated with this FEC packet.
    pub fn associated_seqs(&self) -> (res: Vec<u16>)
        requires
            self.offset > 0,
        ensures
            res@ == self.associated(),
            self.number_associated * self.offset <= 0x8000 ==> {
                &&& res@.len() == self.number_associated
                &&& forall|i: int|
                    0 <= i < res@.len() ==> #[trigger] res@[i] == (self.sn_base + i * self.offset)
                        % 0x1_0000
            },
            self.number_associated * self.offset > 0x8000 ==> res@.len() == 0,
    {
        let n: u16 = self.number_associated as u16;
        let offset: u16 = self.offset as u16;
        let sn_base: u32 = self.sn_base;
        assert(sn_base & 0xffff == sn_base % 0x1_0000) by (bit_vector);
        let sn_start: u16 = (sn_base & 0xffff) as u16;
        assert(n * offset <= 255 * 255) by (nonlinear_arith)
            requires
                n <= 255,
                offset <= 255,
        ;
        let sn_end: u16 = advance(sn_start, n * offset);
        let all = range(sn_start, sn_end);
        assert(all@.len() == if n * offset <= 0x8000 {
            n * offset
        } else {
            0
        });
        let mut res: Vec<u16> = Vec::new();
        let mut i: usize = 0;
        assert(res@.len() * offset == 0) by (nonlinear_arith)
            requires
                res@.len() == 0,
        ;
        while i < all.len()
            invariant
                all@ == seq_range(sn_start, sn_end),
                sn_start == self.sn_start(),
                n == self.number_associated,
                offset == self.offset,
                offset > 0,
                all@.len() == if n * offset <= 0x8000 {
                    n * offset
                } else {
                    0
                },
                i == res@.len() * offset,
                n * offset > 0x8000 ==> res@.len() == 0,
                n * offset <= 0x8000 ==> res@ == self.associated().take(res@.len() as int),
                res@.len() <= n,
            decreases all@.len() - i,
        {
            let ghost k = res@.len() as int;
            assert(k < n) by (nonlinear_arith)
                requires
                    k * offset < n * offset,
                    offset > 0,
            ;
            assert((k + 1) * offset == k * offset + offset) by (nonlinear_arith);
            assert(k * offset + offset <= n * offset) by (nonlinear_arith)
                requires
                    k < n,
                    offset > 0,
            ;
            res.push(all[i]);
            assert(res@ =~= self.associated().take(k + 1));
            i += offset as usize;
        }
        proof {
            let k = res@.len() as int;
            if n * offset <= 0x8000 {
                assert(k >= n) by (nonlinear_arith)
                    requires
                        k * offset >= n * offset,
                        offset > 0,
                ;
            }
            assert(res@ =~= self.associated());
        }
        res
    }

    /// `smpte2022_1_packet::FecHeader::split_from_bytes`, and the accessors of the header it gives:
    /// splits a FEC packet's payload into its header of 16 bytes, which [`fec_header`] lays out, and
    /// the data that protects the media packets.  That succeeds exactly where nothing is wrong with
    /// the header in the sense of [`fec_error`], and otherwise says what is.
    #[verifier::external_body]
    pub(crate) fn split_from_bytes(buf: &[u8]) -> (res: Result<(FecHeader, &[u8]), FecHeaderError>)
        requires
            fec_readable(buf@),
        ensures
            match res {
                Ok((header, tail)) => {
                    &&& fec_error(buf@) is None
                    &&& header == fec_header(buf@)
                    &&& tail@ == buf@.skip(16)
                },
                Err(error) => fec_error(buf@) == Some(error),
            },
    {
        match smpte2022_1_packet::FecHeader::split_from_bytes(buf) {
            Ok((h, tail)) => Ok((FecHeader {
                sn_base: h.sn_base(), length_recovery: h.length_recovery(),
                ts_recovery: h.ts_recovery(), fec_type: h.fec_type(), offset: h.offset(),
                number_associated: h.number_associated(),
                orientation: match h.orientation() {
                    smpte2022_1_packet::Orientation::Row => Orientation::Row,
                    smpte2022_1_packet::Orientation::Column => Orientation::Column,
                },
            }, tail)),
            Err(smpte2022_1_packet::FecHeaderError::BufferTooShort(n)) => Err(FecHeaderError::BufferTooShort(n)),
            Err(smpte2022_1_packet::FecHeaderError::ExtendedFlagNotSet) => Err(FecHeaderError::ExtendedFlagNotSet),
            Err(smpte2022_1_packet::FecHeaderError::OffsetValueZero) => Err(FecHeaderError::OffsetValueZero),
            Err(smpte2022_1_packet::FecHeaderError::NumberAssociatedValueZero) => Err(FecHeaderError::NumberAssociatedValueZero),
        }
    }

    /// `smpte2022_1_packet::FecHeader::from_bytes` and `associates_with`: whether a media packet lies
    /// in the range that the FEC packet covers, which is as many times the offset long as packets
    /// are associated, and leaves the same remainder by the offset as the start of the range.
    #[verifier::external_body]
    pub(crate) fn associates_with(buf: &[u8], seq: u16) -> (res: bool)
        requires
            fec_error(buf@) is None,
        ensures
            res == fec_header(buf@).covers(seq),
    {
        match smpte2022_1_packet::FecHeader::from_bytes(buf) {
            Ok(header) => header.associates_with(rtp_rs::Seq::from(seq)),
            Err(_) => false,
        }
    }
}

/// The number under which the media packet at index `i` of those that a FEC packet protects is sent:
/// the numbers are as far apart as the offset says.
pub open spec fn protected_seq(header: FecHeader, i: int) -> u16 {
    ((header.sn_base + i * header.offset) % 0x1_0000) as u16
}

/// The media packets associated with a FEC packet are as many as its header says, and follow each
/// other at the distance that its header gives, from the base number on.  There are none only where
/// they would span more than half a turn.
pub proof fn law_associated_packets(header: FecHeader)
    ensures
        header.number_associated * header.offset <= 0x8000 ==> {
            &&& header.associated().len() == header.number_associated
            &&& forall|i: int|
                0 <= i < header.number_associated ==> #[trigger] header.associated()[i]
                    == protected_seq(header, i)
        },
        header.number_associated * header.offset > 0x8000 ==> header.associated().len() == 0,
{
    assert forall|i: int|
        0 <= i < header.number_associated && header.number_associated * header.offset
            <= 0x8000 implies #[trigger] header.associated()[i] == protected_seq(header, i) by {
        assert(seq_add(header.sn_start(), i * header.offset) == protected_seq(header, i));
    }
}

/// The media packets associated with a FEC packet are those that it covers, at least where their
/// numbers do not wrap around.
pub proof fn law_associated_packets_are_covered(header: FecHeader, seq: u16)
    requires
        header.offset > 0,
        header.number_associated > 0,
        header.number_associated * header.offset < 0x8000,
        header.sn_start() + header.number_associated * header.offset <= 0x1_0000,
    ensures
        header.associated().contains(seq) <==> header.covers(seq),
{
    let n = header.number_associated as int;
    let offset = header.offset as int;
    let start = header.sn_start() as int;
    let span = n * offset;
    if header.associated().contains(seq) {
        let i = choose|i: int|
            0 <= i < header.associated().len() && header.associated()[i] == seq;
        assert(0 <= i * offset <= span - offset) by (nonlinear_arith)
            requires
                0 <= i < n,
                offset > 0,
                span == n * offset,
        ;
        assert(seq == start + i * offset);
        lemma_mod_multiples_basic(i, offset);
        lemma_mod_equivalence(start + i * offset, start, offset);
    }
    if header.covers(seq) {
        let ahead = if seq >= start {
            seq - start
        } else {
            seq - start + 0x1_0000
        };
        assert(-seq_diff(header.sn_start(), seq) == ahead);
        let end = seq_add(header.sn_start(), span);
        assert(span > 0) by (nonlinear_arith)
            requires
                span == n * offset,
                n > 0,
                offset > 0,
        ;
        assert(seq_diff(seq, end) == ahead - span);
        assert(seq == start + ahead);
        let i = ahead / offset;
        lemma_mod_equivalence(seq as int, start, offset);
        assert(ahead == i * offset && 0 <= i < n) by (nonlinear_arith)
            requires
                offset > 0,
                ahead % offset == 0,
                i == ahead / offset,
                0 <= ahead < n * offset,
        ;
        assert(header.associated()[i] == seq);
    }
}

/// Only data that breaks off within the header, or right after the flags that announce it, is too
/// short to tell whether it begins with a FEC header; so all that has a FEC header can be told.
pub proof fn law_fec_data_is_readable(buf: Seq<u8>)
    ensures
        !fec_readable(buf) <==> 12 <= buf.len() < 15 && buf[4] >= 128 && (buf.len() == 14
            ==> buf[13] != 0),
        buf.len() >= 16 ==> fec_readable(buf),
        fec_readable(buf) && fec_error(buf) is None ==> buf.len() >= 16,
        buf.len() >= 16 && buf[4] >= 128 && buf[13] > 0 && buf[14] > 0 ==> fec_error(buf) is None,
{
}

} // verus!
