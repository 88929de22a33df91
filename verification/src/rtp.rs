//! RTP packet headers.

use vstd::prelude::*;

verus! {

/// An RTP packet header is no fewer than 12 bytes long.
pub const MIN_HEADER_LEN: usize = 12;

/// Why a buffer does not hold an RTP packet.
#[derive(Debug, Clone, Copy, PartialEq, Eq, Structural)]
pub enum RtpHeaderError {
    /// Buffer too short to be valid RTP packet
    BufferTooShort(usize),
    /// Only RTP version 2 supported
    UnsupportedVersion(u8),
    /// RTP headers truncated before end of buffer
    HeadersTruncated {
        /// The amount of data which was expected to be present (which may vary depending on flags
        /// in the RTP header)
        header_len: usize,
        /// The actual amount of data that was available, which was found to be smaller than
        /// `header_len`
        buffer_len: usize,
    },
    /// The padding header at the end of the packet, if present, specifies the number of padding
    /// bytes, including itself, and therefore cannot be less than `1`, or greater than the
    /// available space.
    PaddingLengthInvalid(u8),
}

/// The RTP version: the top two bits of the first byte.
pub open spec fn rtp_version(buf: Seq<u8>) -> u8 {
    (buf[0] / 64) as u8
}

/// Whether the packet ends in padding.
pub open spec fn rtp_padded(buf: Seq<u8>) -> bool {
    buf[0] / 32 % 2 == 1
}

/// Whether the header is followed by an extension.
pub open spec fn rtp_extended(buf: Seq<u8>) -> bool {
    buf[0] / 16 % 2 == 1
}

/// Where the list of contributing sources ends, of which the low four bits of the first byte give
/// the number.
pub open spec fn rtp_csrc_end(buf: Seq<u8>) -> int {
    12 + 4 * (buf[0] % 16)
}

/// Where the payload begins: after the contributing sources and the extension, which has a header
/// of four bytes that gives its length in units of four bytes.
pub open spec fn rtp_payload_start(buf: Seq<u8>) -> int {
    let end = rtp_csrc_end(buf);
    if rtp_extended(buf) {
        end + 4 + 4 * (buf[end + 2] * 256 + buf[end + 3])
    } else {
        end
    }
}

/// What keeps `buf` from being an RTP packet, if anything.
pub open spec fn rtp_error(buf: Seq<u8>) -> Option<RtpHeaderError> {
    let len = buf.len() as int;
    let start = rtp_payload_start(buf);
    if len <= 12 {
        Some(RtpHeaderError::BufferTooShort(len as usize))
    } else if rtp_version(buf) != 2 {
        Some(RtpHeaderError::UnsupportedVersion(rtp_version(buf)))
    } else if rtp_extended(buf) && rtp_csrc_end(buf) + 4 > len {
        Some(
            RtpHeaderError::HeadersTruncated {
                header_len: (rtp_csrc_end(buf) + 4) as usize,
                buffer_len: len as usize,
            },
        )
    } else if start > len {
        Some(
            RtpHeaderError::HeadersTruncated {
                header_len: start as usize,
                buffer_len: len as usize,
            },
        )
    } else if rtp_padded(buf) && start > len - 1 {
        Some(
            RtpHeaderError::HeadersTruncated {
                header_len: start as usize,
                buffer_len: (len - 1) as usize,
            },
        )
    } else if rtp_padded(buf) && (buf.last() == 0 || start + buf.last() > len) {
        Some(RtpHeaderError::PaddingLengthInvalid(buf.last()))
    } else {
        None
    }
}

pub open spec fn rtp_sequence(buf: Seq<u8>) -> u16 {
    (buf[2] * 256 + buf[3]) as u16
}

pub open spec fn rtp_timestamp(buf: Seq<u8>) -> u32 {
    (buf[4] * 0x100_0000 + buf[5] * 0x1_0000 + buf[6] * 0x100 + buf[7]) as u32
}

/// The payload, without the padding at its end, of which the last byte gives the length.
pub open spec fn rtp_payload(buf: Seq<u8>) -> Seq<u8> {
    buf.subrange(
        rtp_payload_start(buf),
        buf.len() - if rtp_padded(buf) {
            buf.last() as int
        } else {
            0
        },
    )
}

/// The parts of an RTP packet that the decoder looks at.
pub struct RtpReader<'a> {
    pub sequence_number: u16,
    pub timestamp: u32,
    pub payload: &'a [u8],
}

impl<'a> RtpReader<'a> {
    /// Reads the header of an RTP packet with `rtp_rs::RtpReader`: `new` accepts the packet
    /// exactly where nothing is wrong with it in the sense of [`rtp_error`], and otherwise says
    /// what is; `sequence_number`, `timestamp` and `payload` then give the fields.
    #[verifier::external_body]
    pub(crate) fn new(buf: &'a [u8]) -> (res: Result<RtpReader<'a>, RtpHeaderError>)
        ensures
            match res {
                Ok(rtp) => {
                    &&& rtp_error(buf@) is None
                    &&& rtp.sequence_number == rtp_sequence(buf@)
                    &&& rtp.timestamp == rtp_timestamp(buf@)
                    &&& rtp.payload@ == rtp_payload(buf@)
                },
                Err(error) => rtp_error(buf@) == Some(error),
            },
    {
        match rtp_rs::RtpReader::new(buf) {
            Ok(r) => Ok(RtpReader {
                sequence_number: u16::from(r.sequence_number()),
                timestamp: r.timestamp(),
                payload: r.payload(),
            }),
            Err(rtp_rs::RtpHeaderError::BufferTooShort(n)) => Err(RtpHeaderError::BufferTooShort(n)),
            Err(rtp_rs::RtpHeaderError::UnsupportedVersion(v)) => Err(RtpHeaderError::UnsupportedVersion(v)),
            Err(rtp_rs::RtpHeaderError::HeadersTruncated { header_len, buffer_len }) => {
                Err(RtpHeaderError::HeadersTruncated { header_len, buffer_len })
            },
            Err(rtp_rs::RtpHeaderError::PaddingLengthInvalid(n)) => Err(RtpHeaderError::PaddingLengthInvalid(n)),
        }
    }
}

/// `buf` with the RTP version set to `version`.
pub open spec fn with_version(buf: Seq<u8>, version: u8) -> Seq<u8> {
    buf.update(0, (buf[0] % 64 + version * 64) as u8)
}

/// `buf` with the sequence number set to `seq`.
pub open spec fn with_sequence(buf: Seq<u8>, seq: u16) -> Seq<u8> {
    buf.update(2, (seq / 256) as u8).update(3, (seq % 256) as u8)
}

/// `buf` with the timestamp set to `ts`.
pub open spec fn with_timestamp(buf: Seq<u8>, ts: u32) -> Seq<u8> {
    buf.update(4, (ts / 0x100_0000) as u8).update(5, (ts / 0x1_0000 % 256) as u8).update(
        6,
        (ts / 0x100 % 256) as u8,
    ).update(7, (ts % 256) as u8)
}

/// `buf` with the first two bytes and the source identifier of `other`, that is with all the header
/// fields but the sequence number and the timestamp.
pub open spec fn with_stream(buf: Seq<u8>, other: Seq<u8>) -> Seq<u8> {
    buf.update(0, other[0]).update(1, other[1]).update(8, other[8]).update(9, other[9]).update(
        10,
        other[10],
    ).update(11, other[11])
}

/// Write access to the fixed part of an RTP header.
pub struct RtpHeaderMut<'buf>(pub &'buf mut [u8]);

impl<'buf> RtpHeaderMut<'buf> {
    /// Write access to the header that `buf` begins with.
    pub fn new(buf: &'buf mut [u8]) -> (res: RtpHeaderMut<'buf>)
        requires
            old(buf)@.len() >= MIN_HEADER_LEN,
        ensures
            res.0@ == old(buf)@,
            final(res.0)@ == final(buf)@,
    {
        RtpHeaderMut(buf)
    }

    /// Sets the RTP version.
    pub fn set_version(&mut self, v: u8)
        requires
            old(self).0@.len() >= MIN_HEADER_LEN,
            v <= 0b11,
        ensures
            final(self).0@ == with_version(old(self).0@, v),
            final(final(self).0)@ == final(old(self).0)@,
    {
        let b: u8 = self.0[0];
        assert(b & 0b0011_1111 | (v << 6) == b % 64 + v * 64) by (bit_vector)
            requires
                v <= 0b11,
        ;
        self.0[0] = b & 0b0011_1111 | (v << 6);
    }

    /// Sets the sequence number.
    pub fn set_sequence(&mut self, seq: u16)
        requires
            old(self).0@.len() >= MIN_HEADER_LEN,
        ensures
            final(self).0@ == with_sequence(old(self).0@, seq),
            final(final(self).0)@ == final(old(self).0)@,
    {
        assert((seq >> 8) as u8 == seq / 256) by (bit_vector);
        assert((seq & 0xff) as u8 == seq % 256) by (bit_vector);
        self.0[2] = (seq >> 8) as u8;
        self.0[3] = (seq & 0xff) as u8;
    }

    /// Takes over all the header fields of `other` but the sequence number and the timestamp.
    pub fn set_stream(&mut self, other: &[u8])
        requires
            old(self).0@.len() >= MIN_HEADER_LEN,
            other@.len() >= MIN_HEADER_LEN,
        ensures
            final(self).0@ == with_stream(old(self).0@, other@),
            final(final(self).0)@ == final(old(self).0)@,
    {
        self.0[0] = other[0];
        self.0[1] = other[1];
        self.0[8] = other[8];
        self.0[9] = other[9];
        self.0[10] = other[10];
        self.0[11] = other[11];
    }

    /// Sets the timestamp.
    pub fn set_timestamp(&mut self, ts: u32)
        requires
            old(self).0@.len() >= MIN_HEADER_LEN,
        ensures
            final(self).0@ == with_timestamp(old(self).0@, ts),
            final(final(self).0)@ == final(old(self).0)@,
    {
        assert((ts >> 24) as u8 == ts / 0x100_0000) by (bit_vector);
        assert((ts >> 16 & 0xff) as u8 == ts / 0x1_0000 % 256) by (bit_vector);
        assert((ts >> 8 & 0xff) as u8 == ts / 0x100 % 256) by (bit_vector);
        assert((ts & 0xff) as u8 == ts % 256) by (bit_vector);
        self.0[4] = (ts >> 24) as u8;
        self.0[5] = (ts >> 16 & 0xff) as u8;
        self.0[6] = (ts >> 8 & 0xff) as u8;
        self.0[7] = (ts & 0xff) as u8;
    }
}

/// Every field of an RTP header can be written without a change to the others.
pub proof fn law_each_field_is_written_alone(
    buf: Seq<u8>,
    other: Seq<u8>,
    version: u8,
    ts: u32,
    seq: u16,
    i: int,
)
    requires
        buf.len() >= MIN_HEADER_LEN,
        other.len() >= MIN_HEADER_LEN,
        version <= 0b11,
        0 <= i < buf.len(),
    ensures
        with_version(buf, version).len() == buf.len(),
        rtp_version(with_version(buf, version)) == version,
        with_version(buf, version)[0] % 64 == buf[0] % 64,
        i != 0 ==> with_version(buf, version)[i] == buf[i],
        with_sequence(buf, seq).len() == buf.len(),
        rtp_sequence(with_sequence(buf, seq)) == seq,
        i != 2 && i != 3 ==> with_sequence(buf, seq)[i] == buf[i],
        with_timestamp(buf, ts).len() == buf.len(),
        rtp_timestamp(with_timestamp(buf, ts)) == ts,
        i < 4 || i >= 8 ==> with_timestamp(buf, ts)[i] == buf[i],
        with_stream(buf, other).len() == buf.len(),
        with_stream(buf, other)[i] == if i < 2 || 8 <= i < 12 {
            other[i]
        } else {
            buf[i]
        },
{
}

/// What is written to the fields of an RTP header is read back from them, and nothing else of the
/// packet changes.
#[verifier::rlimit(30)]
pub proof fn law_header_fields_read_back(buf: Seq<u8>, version: u8, ts: u32, seq: u16)
    requires
        buf.len() >= MIN_HEADER_LEN,
        version <= 0b11,
    ensures
        ({
            let written = with_sequence(with_timestamp(with_version(buf, version), ts), seq);
            &&& rtp_version(written) == version
            &&& rtp_timestamp(written) == ts
            &&& rtp_sequence(written) == seq
            &&& written.len() == buf.len()
            &&& written[0] % 64 == buf[0] % 64
            &&& written[1] == buf[1]
            &&& written.skip(8) == buf.skip(8)
        }),
{
    let written = with_sequence(with_timestamp(with_version(buf, version), ts), seq);
    assert(written.skip(8) =~= buf.skip(8));
}

} // verus!
