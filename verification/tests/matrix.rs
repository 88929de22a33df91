use smpte2022_1_fec::correction::Corrections;
use smpte2022_1_fec::fec::Orientation;
use smpte2022_1_fec::heap_pool::{HeapPacket, HeapPool};
use smpte2022_1_fec::matrix::FecMatrix;
use smpte2022_1_fec::packet::NilReceiver;
use smpte2022_1_fec::recovery::Refusal;
use smpte2022_1_fec::{BufferPool, Packet, PacketStatus, Receiver};

/// A media packet with a payload of two bytes that tell its sequence number.
fn media_bytes(seq: u16) -> Vec<u8> {
    let mut bytes = vec![0x80, 33];
    bytes.extend_from_slice(&seq.to_be_bytes());
    bytes.extend_from_slice(&[0, 0, 0, 0, 0, 0, 0, 1]);
    bytes.extend_from_slice(&payload_of(seq));
    bytes
}

fn payload_of(seq: u16) -> [u8; 2] {
    [(seq % 256) as u8, (seq % 256) as u8 ^ 0xa5]
}

/// A FEC packet that protects the media packets `sn_base`, `sn_base + offset`, and so on.
fn fec_bytes(orientation: Orientation, seq: u16, sn_base: u16, offset: u8, count: u8) -> Vec<u8> {
    let mut bytes = vec![0x80, 96];
    bytes.extend_from_slice(&seq.to_be_bytes());
    bytes.extend_from_slice(&[0, 0, 0, 0, 0, 0, 0, 0]);
    let mut length = 0u16;
    let mut payload = [0u8; 2];
    for i in 0..u16::from(count) {
        let protected = sn_base.wrapping_add(i * u16::from(offset));
        length ^= 2;
        payload[0] ^= payload_of(protected)[0];
        payload[1] ^= payload_of(protected)[1];
    }
    bytes.extend_from_slice(&sn_base.to_be_bytes());
    bytes.extend_from_slice(&length.to_be_bytes());
    bytes.extend_from_slice(&[0x80, 0, 0, 0, 0, 0, 0, 0]);
    bytes.push(match orientation {
        Orientation::Row => 0x40,
        Orientation::Column => 0,
    });
    bytes.extend_from_slice(&[offset, count, 0]);
    bytes.extend_from_slice(&payload);
    bytes
}

fn packet(pool: &HeapPool, bytes: &[u8]) -> HeapPacket {
    let mut pk = pool.allocate().unwrap();
    pk.payload_mut()[..bytes.len()].copy_from_slice(bytes);
    pk.truncate(bytes.len());
    pk
}

fn seq_of(pk: &HeapPacket) -> u16 {
    u16::from_be_bytes([pk.payload()[2], pk.payload()[3]])
}

struct Fixture {
    pool: HeapPool,
    matrix: FecMatrix<HeapPool, NilReceiver<HeapPacket>>,
}

impl Fixture {
    /// A matrix of four columns and four rows.
    fn new() -> Fixture {
        let pool = HeapPool::new(100, 60);
        let matrix = FecMatrix::new(pool.clone(), 4, 4, NilReceiver::new());
        Fixture { pool, matrix }
    }

    fn insert(&mut self, seq: u16) -> Vec<(u16, [u8; 2])> {
        let pk = packet(&self.pool, &media_bytes(seq));
        let corrections = self.matrix.insert(seq, pk, PacketStatus::Received).unwrap();
        describe(match corrections {
            Corrections::Zero => vec![],
            Corrections::One(a) => vec![a],
            Corrections::Two(a, b) => vec![a, b],
        })
    }

    fn insert_column(&mut self, seq: u16, sn_base: u16) -> Vec<(u16, [u8; 2])> {
        let pk = packet(&self.pool, &fec_bytes(Orientation::Column, seq, sn_base, 4, 4));
        describe(self.matrix.insert_column(seq, pk).unwrap().into_iter().collect())
    }

    fn insert_row(&mut self, seq: u16, sn_base: u16) -> Vec<(u16, [u8; 2])> {
        let pk = packet(&self.pool, &fec_bytes(Orientation::Row, seq, sn_base, 1, 4));
        describe(self.matrix.insert_row(seq, pk).unwrap().into_iter().collect())
    }
}

/// The sequence numbers and payloads of packets.
fn describe(packets: Vec<HeapPacket>) -> Vec<(u16, [u8; 2])> {
    packets.iter().map(|pk| (seq_of(pk), [pk.payload()[12], pk.payload()[13]])).collect()
}

#[test]
fn a_column_packet_corrects_a_single_loss() {
    let mut f = Fixture::new();
    for seq in [100, 101, 102, 103, 104, 106, 107, 108, 109, 110, 111, 112, 113] {
        assert_eq!(f.insert(seq), vec![]);
    }
    assert_eq!(f.insert_column(0, 101), vec![(105, payload_of(105))]);
}

#[test]
fn a_row_packet_corrects_a_single_loss() {
    let mut f = Fixture::new();
    for seq in [100, 101, 103] {
        assert_eq!(f.insert(seq), vec![]);
    }
    assert_eq!(f.insert_row(0, 100), vec![(102, payload_of(102))]);
}

#[test]
fn two_losses_cannot_be_corrected() {
    let mut f = Fixture::new();
    for seq in [100, 103] {
        assert_eq!(f.insert(seq), vec![]);
    }
    assert_eq!(f.insert_row(0, 100), vec![]);
    // until one of them turns up
    assert_eq!(f.insert(101), vec![(102, payload_of(102))]);
}

#[test]
fn nothing_is_corrected_without_a_loss() {
    let mut f = Fixture::new();
    for seq in [100, 101, 102, 103] {
        assert_eq!(f.insert(seq), vec![]);
    }
    assert_eq!(f.insert_row(0, 100), vec![]);
}

#[test]
fn nothing_is_corrected_without_media_packets() {
    let mut f = Fixture::new();
    assert_eq!(f.insert_row(0, 100), vec![]);
    assert_eq!(f.insert_column(0, 100), vec![]);
}

#[test]
fn packets_before_the_first_are_not_corrected() {
    let mut f = Fixture::new();
    for seq in [101, 102, 103] {
        assert_eq!(f.insert(seq), vec![]);
    }
    assert_eq!(f.insert_row(0, 100), vec![]);
}

#[test]
fn nothing_is_corrected_by_what_also_protects_packets_before_the_first() {
    let mut f = Fixture::new();
    // 100 and 101 are not at hand, so that 103 could not be told from the others
    assert_eq!(f.insert(102), vec![]);
    assert_eq!(f.insert_row(0, 100), vec![]);
    assert_eq!(f.insert(104), vec![]);
    assert_eq!(f.insert_row(0, 100), vec![]);
}

#[test]
fn a_packet_stays_at_its_number_when_it_makes_a_correction_possible() {
    let mut f = Fixture::new();
    assert_eq!(f.insert_column(0, 100), vec![]);
    assert_eq!(f.insert(100), vec![]);
    assert_eq!(f.insert(104), vec![]);
    assert_eq!(f.insert(108), vec![(112, payload_of(112))]);
    // had 108 lost its place, this could not be corrected
    for seq in [109, 110] {
        assert_eq!(f.insert(seq), vec![]);
    }
    assert_eq!(f.insert_row(0, 108), vec![(111, payload_of(111))]);
}

#[test]
fn a_media_packet_may_make_two_corrections_possible() {
    let mut f = Fixture::new();
    for seq in [100, 102, 104, 105, 110] {
        assert_eq!(f.insert(seq), vec![]);
    }
    assert_eq!(f.insert_row(0, 104), vec![]);
    assert_eq!(f.insert_column(0, 102), vec![]);
    assert_eq!(f.insert(106), vec![(114, payload_of(114)), (107, payload_of(107))]);
}

#[test]
fn a_column_packet_restores_every_byte_of_a_lost_packet() {
    let pool = HeapPool::new(5, 44);
    let mut matrix = FecMatrix::new(pool.clone(), 4, 4, NilReceiver::new());
    let media = |seq: u8, ts: u8, payload: [u8; 4]| {
        let mut bytes = vec![0x80, 0x21, 0, seq, 0, 0, 0, ts, 0, 0, 0, 7];
        bytes.extend_from_slice(&payload);
        bytes
    };
    let lost = media(108, 0x30, [0xaa, 0xbb, 0xcc, 0xdd]);
    for bytes in [
        media(100, 0x10, [1, 2, 3, 4]),
        media(104, 0x20, [0x10, 0x20, 0x30, 0x40]),
        media(112, 0x40, [5, 6, 7, 8]),
    ] {
        let pk = packet(&pool, &bytes);
        matrix.insert(u16::from(bytes[3]), pk, PacketStatus::Received).unwrap();
    }
    let mut fec = vec![0x80, 96, 0, 0, 0, 0, 0, 0, 0, 0, 0, 0];
    fec.extend_from_slice(&[0, 100, 0, 0, 0x80, 0, 0, 0, 0, 0, 0, 0x40, 0, 4, 4, 0]);
    fec.extend_from_slice(&[0xbe, 0x9f, 0xf8, 0x91]);
    let pk = packet(&pool, &fec);
    let recovered = matrix.insert_column(0, pk).unwrap().unwrap();
    assert_eq!(recovered.payload(), &lost[..]);
}

#[test]
fn an_exhausted_pool_corrects_nothing() {
    let pool = HeapPool::new(1, 60);
    let mut matrix = FecMatrix::new(pool.clone(), 4, 4, NilReceiver::new());
    for seq in [100, 101, 103] {
        let pk = packet(&pool, &media_bytes(seq));
        matrix.insert(seq, pk, PacketStatus::Received).unwrap();
    }
    let pk = packet(&pool, &fec_bytes(Orientation::Row, 0, 100, 1, 4));
    assert!(matrix.insert_row(0, pk).unwrap().is_none());
}

#[test]
fn a_sequence_number_half_a_turn_away_is_refused() {
    let mut f = Fixture::new();
    f.insert(0);
    let pk = packet(&f.pool, &media_bytes(0x8000));
    assert_eq!(
        f.matrix.try_insert(0x8000, pk, PacketStatus::Received).err(),
        Some(Refusal::WindowOverrun)
    );
    f.insert_row(0, 100);
    let pk = packet(&f.pool, &fec_bytes(Orientation::Row, 0x8000, 100, 1, 4));
    assert_eq!(f.matrix.try_insert_row(0x8000, pk).err(), Some(Refusal::WindowOverrun));
    f.insert_column(0, 100);
    let pk = packet(&f.pool, &fec_bytes(Orientation::Column, 0x8000, 100, 4, 4));
    assert_eq!(f.matrix.try_insert_column(0x8000, pk).err(), Some(Refusal::WindowOverrun));
}

#[test]
fn a_truncated_fec_packet_is_refused() {
    let mut f = Fixture::new();
    let bytes = fec_bytes(Orientation::Row, 0, 100, 1, 4);
    let pk = packet(&f.pool, &bytes[..26]);
    assert_eq!(f.matrix.try_insert_row(0, pk).err(), Some(Refusal::FecTruncated));
}

#[test]
fn what_is_no_fec_packet_is_of_no_use() {
    let mut f = Fixture::new();
    for seq in [100, 101, 103] {
        f.insert(seq);
    }
    let pk = packet(&f.pool, &[0x40; 40]);
    assert!(f.matrix.try_insert_row(0, pk).unwrap().is_none());
    let mut bytes = fec_bytes(Orientation::Row, 1, 100, 1, 4);
    bytes[16] = 0;
    let pk = packet(&f.pool, &bytes);
    assert!(f.matrix.try_insert_row(1, pk).unwrap().is_none());
}

#[test]
fn disposing_of_the_matrix_gives_the_pool_back() {
    let f = Fixture::new();
    let (pool, _receiver) = f.matrix.dispose();
    assert!(pool.allocate().is_some());
}

/// Keeps the sequence numbers of the packets that it receives.
struct Numbers(Vec<(u16, PacketStatus)>);

impl Receiver<HeapPacket> for Numbers {
    fn receive<I: Iterator<Item = (HeapPacket, PacketStatus)>>(&mut self, packets: I) {
        for (pk, status) in packets {
            self.0.push((seq_of(&pk), status));
        }
    }
}

#[test]
fn media_packets_go_to_the_receiver_as_they_are_inserted() {
    let pool = HeapPool::new(1, 60);
    let mut matrix = FecMatrix::new(pool.clone(), 4, 4, Numbers(vec![]));
    for seq in [9, 11, 10, 5, 11] {
        let pk = packet(&pool, &media_bytes(seq));
        matrix.insert(seq, pk, PacketStatus::Received).unwrap();
    }
    let pk = packet(&pool, &media_bytes(12));
    matrix.insert(12, pk, PacketStatus::Recovered).unwrap();
    let (_pool, receiver) = matrix.dispose();
    let received = |seq: u16| (seq, PacketStatus::Received);
    assert_eq!(
        receiver.0,
        vec![
            received(9),
            received(11),
            received(10),
            received(5),
            received(11),
            (12, PacketStatus::Recovered)
        ]
    );
}
