use smpte2022_1_fec::fec::{FecHeader, Orientation};
use smpte2022_1_fec::heap_pool::{HeapPacket, HeapPool};
use smpte2022_1_fec::parity::xor;
use smpte2022_1_fec::recovery::{rebuild, Refusal};
use smpte2022_1_fec::rtp::RtpHeaderError;
use smpte2022_1_fec::{BufferPool, Packet};

fn media(seq: u16, ts: u32, payload: &[u8]) -> Vec<u8> {
    let mut bytes = vec![0x80, 33];
    bytes.extend_from_slice(&seq.to_be_bytes());
    bytes.extend_from_slice(&ts.to_be_bytes());
    bytes.extend_from_slice(&[0, 0, 0, 1]);
    bytes.extend_from_slice(payload);
    bytes
}

fn packet(pool: &HeapPool, bytes: &[u8]) -> HeapPacket {
    let mut pk = pool.allocate().unwrap();
    pk.payload_mut()[..bytes.len()].copy_from_slice(bytes);
    pk.truncate(bytes.len());
    pk
}

/// The header and payload of a FEC packet that protects `packets`.
fn protect(packets: &[Vec<u8>]) -> (FecHeader, Vec<u8>) {
    let mut header = FecHeader {
        sn_base: 0,
        length_recovery: 0,
        ts_recovery: 0,
        orientation: Orientation::Row,
        fec_type: 0,
        offset: 1,
        number_associated: packets.len() as u8,
    };
    let mut payload = vec![0; packets[0].len() - 12];
    for bytes in packets {
        header.length_recovery ^= (bytes.len() - 12) as u16;
        header.ts_recovery ^= u32::from_be_bytes([bytes[4], bytes[5], bytes[6], bytes[7]]);
        for (combined, byte) in payload.iter_mut().zip(&bytes[12..]) {
            *combined ^= byte;
        }
    }
    (header, payload)
}

struct Fixture {
    pool: HeapPool,
    packets: Vec<Vec<u8>>,
    header: FecHeader,
    payload: Vec<u8>,
}

impl Fixture {
    fn new() -> Fixture {
        let packets = vec![
            media(7, 1000, &[1, 2, 3]),
            media(8, 1001, &[40, 50, 60]),
            media(9, 1002, &[7, 8, 9]),
        ];
        let (header, payload) = protect(&packets);
        Fixture { pool: HeapPool::new(10, 20), packets, header, payload }
    }

    /// Rebuilds the packet with sequence number 8 from the others.
    fn rebuild(&self) -> Result<Option<Vec<u8>>, Refusal> {
        let first = packet(&self.pool, &self.packets[0]);
        let last = packet(&self.pool, &self.packets[2]);
        let fresh = self.pool.allocate().unwrap();
        rebuild(fresh, &self.header, &self.payload, &vec![&first, &last], 8)
            .map(|res| res.map(|pk| pk.payload().to_vec()))
    }
}

#[test]
fn every_byte_is_combined_with_its_counterpart() {
    let mut dst = [0b1100, 0xff, 0];
    xor(&mut dst, &[0b1010, 0xff, 7]);
    assert_eq!(dst, [0b0110, 0, 7]);
    xor(&mut dst, &[0b1010, 0xff, 7]);
    assert_eq!(dst, [0b1100, 0xff, 0]);
}

#[test]
fn a_lost_packet_is_restored_byte_for_byte() {
    let f = Fixture::new();
    assert_eq!(f.header.length_recovery, 3);
    assert_eq!(f.header.ts_recovery, 1000 ^ 1001 ^ 1002);
    let recovered = f.rebuild().unwrap().unwrap();
    assert_eq!(
        recovered,
        [0x80, 33, 0, 8, 0, 0, 0x03, 0xe9, 0, 0, 0, 1, 40, 50, 60]
    );
    assert_eq!(recovered, f.packets[1]);
}

#[test]
fn it_makes_no_difference_how_many_packets_are_protected() {
    for count in 2..21u16 {
        let packets: Vec<Vec<u8>> = (0..count)
            .map(|i| media(65530u16.wrapping_add(i), 90000 + 1000 * u32::from(i), &[i as u8, 7, 0xff]))
            .collect();
        let (header, payload) = protect(&packets);
        let pool = HeapPool::new(1, 100);
        for lost in 0..packets.len() {
            let mut present: Vec<&Vec<u8>> = packets.iter().collect();
            present.remove(lost);
            let seq = 65530u16.wrapping_add(lost as u16);
            let fresh = pool.allocate().unwrap();
            let recovered = rebuild(fresh, &header, &payload, &present, seq).unwrap().unwrap();
            assert_eq!(recovered.payload(), &packets[lost][..]);
        }
    }
}

#[test]
fn nothing_of_what_was_in_the_buffer_remains() {
    let f = Fixture::new();
    let mut fresh = f.pool.allocate().unwrap();
    for byte in fresh.payload_mut() {
        *byte = 0xee;
    }
    let present = vec![&f.packets[0], &f.packets[2]];
    let recovered = rebuild(fresh, &f.header, &f.payload, &present, 8).unwrap().unwrap();
    assert_eq!(recovered.payload(), &f.packets[1][..]);
}

#[test]
fn the_timestamp_is_combined_from_all_of_its_bits() {
    let packets = vec![
        media(1, 0xffff_ffff, &[1]),
        media(2, 0xffff_fff0, &[2]),
        media(3, 0x8000_0001, &[3]),
        media(4, 0x7fff_fffe, &[4]),
    ];
    let (header, payload) = protect(&packets);
    let pool = HeapPool::new(1, 20);
    let present = vec![&packets[0], &packets[2], &packets[3]];
    let fresh = pool.allocate().unwrap();
    let recovered = rebuild(fresh, &header, &payload, &present, 2).unwrap().unwrap();
    assert_eq!(recovered.payload()[4..8], [0xff, 0xff, 0xff, 0xf0]);
}

#[test]
fn nothing_is_recovered_where_there_would_be_no_payload() {
    let mut f = Fixture::new();
    f.header.length_recovery = 0;
    assert_eq!(f.rebuild(), Ok(None));
    f.header.length_recovery = 1;
    assert_eq!(f.rebuild().unwrap().unwrap().len(), 13);
}

#[test]
fn the_buffer_must_be_large_enough() {
    let mut f = Fixture::new();
    f.pool = HeapPool::new(10, 15);
    assert!(f.rebuild().unwrap().is_some());
    f.payload.push(0);
    assert_eq!(f.rebuild(), Err(Refusal::BufferTooSmall));
}

#[test]
fn all_packets_must_have_the_same_length() {
    let mut f = Fixture::new();
    f.packets[2].push(1);
    assert_eq!(f.rebuild(), Err(Refusal::LengthMismatch));
}

#[test]
fn the_packets_that_are_present_must_be_rtp_packets() {
    let mut f = Fixture::new();
    f.packets[0][0] = 0x40;
    assert_eq!(
        f.rebuild(),
        Err(Refusal::MalformedPacket(RtpHeaderError::UnsupportedVersion(1)))
    );
}

#[test]
fn the_recovered_packet_must_be_an_rtp_packet() {
    let mut f = Fixture::new();
    // the last byte of a padded packet is the length of the padding
    f.packets[0][0] = 0xa0;
    assert_eq!(
        f.rebuild(),
        Err(Refusal::MalformedRecovery(RtpHeaderError::PaddingLengthInvalid(60)))
    );
    f.payload[2] ^= 60 ^ 2;
    assert_eq!(f.rebuild().unwrap().unwrap()[0], 0xa0);
}

#[test]
fn the_recovered_packet_must_not_be_longer_than_what_protects_it() {
    let mut f = Fixture::new();
    f.header.length_recovery = 4;
    assert_eq!(f.rebuild(), Err(Refusal::RecoveredTooLong));
}
