use smpte2022_1_fec::error::FecDecodeError;
use smpte2022_1_fec::fec::FecHeaderError;
use smpte2022_1_fec::rtp::{RtpHeaderError, RtpHeaderMut};

#[test]
fn header_fields_are_written_in_network_order() {
    let mut buf = [0xffu8; 14];
    {
        let mut rtp = RtpHeaderMut::new(&mut buf);
        rtp.set_version(2);
        rtp.set_sequence(0x1234);
        rtp.set_timestamp(0x5678_9abc);
    }
    assert_eq!(
        buf,
        [
            0xbf, 0xff, 0x12, 0x34, 0x56, 0x78, 0x9a, 0xbc, 0xff, 0xff, 0xff, 0xff, 0xff, 0xff
        ]
    );
    let reader = rtp_rs::RtpReader::new(&[0x80, 0xff, 0x12, 0x34, 0x56, 0x78, 0x9a, 0xbc, 0, 0, 0, 0, 1])
        .map(|rtp| (u16::from(rtp.sequence_number()), rtp.timestamp()));
    assert_eq!(reader.unwrap(), (0x1234, 0x5678_9abc));
}

#[test]
fn setting_the_version_keeps_the_other_bits() {
    for (version, first) in [(0, 0x15), (1, 0x55), (2, 0x95), (3, 0xd5)] {
        let mut buf = [0xd5u8; 12];
        RtpHeaderMut::new(&mut buf).set_version(version);
        assert_eq!(buf[0], first);
    }
}

#[test]
fn header_errors_become_decoding_errors() {
    assert_eq!(
        FecDecodeError::from(RtpHeaderError::BufferTooShort(3)),
        FecDecodeError::Rtp(RtpHeaderError::BufferTooShort(3))
    );
    assert_eq!(
        FecDecodeError::from(FecHeaderError::OffsetValueZero),
        FecDecodeError::Fec(FecHeaderError::OffsetValueZero)
    );
}
