use smpte2022_1_fec::fec::{FecHeaderError, Orientation};
use smpte2022_1_fec::geometry::FecGeometryError;
use smpte2022_1_fec::heap_pool::HeapPacket;
use smpte2022_1_fec::heap_pool::HeapPool;
use smpte2022_1_fec::recovery::Refusal;
use smpte2022_1_fec::rtp::RtpHeaderError;
use smpte2022_1_fec::{BufferPool, Decoder, FecDecodeError, Packet, PacketStatus, Receiver};
use std::cell::RefCell;
use std::io::Write;
use std::rc::Rc;

struct TestReceiver;

impl Receiver<HeapPacket> for TestReceiver {
    fn receive<I: Iterator<Item = (HeapPacket, PacketStatus)>>(&mut self, _packets: I) {
        panic!("nothing should be received")
    }
}

/// The bytes given by pairs of hexadecimal digits.
fn hex(digits: &str) -> Vec<u8> {
    (0..digits.len() / 2)
        .map(|i| u8::from_str_radix(&digits[2 * i..2 * i + 2], 16).unwrap())
        .collect()
}

const ROW_PACKET: &str = "\
    80607bc30d5c28f1000000007e6100008000000000000d6640011400001efe0b97249db8582ac143b90e9b\
    3975a18c703817a6b1ef1035dc70edc70b67e407f57b0db156065f95baabaeeaab82d3b6a869b117c327c8\
    f91e3b521c78a63e24bafe955d907258815b273fcc14a7d05ad3844139bb41bab400654e3e94fa36092345\
    32e126c18a525154f0fcc52347e2c1a842d667de613fc0c79b475daffd50e0a4270df99310ed69ef211a1f\
    2c7cdb0cda7dace687a34fb125ca480f3636764c01c42ed3bacb2e8d5eecbf11332056d0e670f380d77abb\
    b3001eff0e5e42da393c535a3025e40cab385fd1059cc67337f9871b8823742999391d72404e65db85426e\
    cfd34ea30e8d4850440903a7fe4c6dc0f6494153e08e2d880cd54d8f5e76afeaaee17257af357fe28404f7\
    88851369dc93b384c437620664692a9a835d2a54b191d18354e433b5955e41a15621acf0ee0b8813c8db09\
    e4148f6c8069c4618319169c663f5d7907c15855c491c340f6ce1708e7afb99d778fd18714caba17411734\
    f69069134964aa7210041a4a7f9619dac8001efd2740d92f5846c3222be733cdb938489ca0d0a927e4f8db\
    bc116da9999581b9fc757427c2d6aa7c967f10972e147b51928cd9b375c12eaac8c43740ee8e3b9da85183\
    a9b61e23e969f6e00fac6e92d5c821c4a29cf0500608c6b539c96266c188b9f2b1f3a04f827b763a75cf6b\
    5c659b63afcb58000b330b12325a1df557c0f636d3c2504b46327713da56f68ea5e233c634a3f566800b0d\
    38f2ff9b5a1ba0712f45f43209a4742608fc68ede9c33ff6a37b1531c07dd66cc8005efd0de4fdea3f0196\
    1dbb0d5f138a06d241c582942ef929fd59bb0dfb4d0a15c04c0c4a2623056a7ba8000663f314fc9bc4a60c\
    46fb314d665e074aa6124bde35d23393f951e1ebf02429f5ccce4da6b312fb31840b11f54d825f77504dcd\
    4d4a0fbfa343c110baa3dda2f5ca1e0a3d31fda1edda34d946009c78a86780f8be8c9cb4423a6d2c452cbd\
    9c9ddaf567836c2154cdbe7f781a4a5e6e042d8715a514962c38436885bfd632b728c8404ea2b56ecf2f09\
    5d4d98b84ee50000012e0739f29e76c8c6efd1603ebe9aa00179624fe383a56b562fb893d4ec9bad6eae1d\
    0206ba6557543530e109a866afbaf50c9671ccb3daaf0f62fe44ae30ee33fc72dac60bd3f9f7c2d6638ebb\
    a1a8a1528acff6f278902caa09060e84a3fb64cd403de93318d0a8724b1bb266ebf6fc456b2f643b8a81f7\
    b898599485349c40eae783217f030a37c7f01c100260932514c8060fe41437364d1aedf8b554077df6de7f\
    8d147040ead501d28e613273b51b1e632932b92b5a860000000ac26f8e44befa5b6b1b1cd5a60da71a8a53\
    4fa3f34fb580c9634d3609493318efb796df9b61ae1437363dc74e01896c7eca291d9d1cac3db85a57c041\
    924f55ff74e756570000000c4941f7a9ce78b76e8a7b6a400a26b96c482bdd077f4f1f4433e3ca4faee623\
    17f2a0b663d6be0f8cbce3e292470382d738d50a07de61188b217f4d57b6ea7b830f7154bfd60e3a74c0f2\
    030b1873afa27ceffa597744a583831a563852647cf1051b8967d6e6f41d552637512c69fd0b001eff0f7f\
    663d7cf5a87ab377056df8517b89a45abee3553a8ff4c3c448ddff1e4cb32d401d5ee2b95e3615f050e7e4\
    eeda4e76ca667840e3acb10a9b627a4b251fa28d23c7c40dc486c50e878914ea844ccc55069d948543dd01\
    d5640db169090fd5ea411dfa796f818438b93ae53f2f3e7b15413868044fd717d4c4c8356023d470898d5d\
    72ae72ba2a8887f8af4ab4dd5167126f47d98b91284108e64e886073ad31173abd2f06f762e29a2bd8ce34\
    a323e7cc9027c7faeecd9d\
";

#[test]
fn lib_it_works() {
    let buffer_pool = HeapPool::new(1, 1500);
    let mut decoder = Decoder::new(buffer_pool.clone(), TestReceiver);

    let row_pk = {
        let mut row_pk = buffer_pool.allocate().unwrap();
        let data = hex(ROW_PACKET);
        row_pk.payload_mut().write(&data[..]).unwrap();
        row_pk
    };
    decoder.add_row_packets(vec![row_pk].into_iter()).unwrap();
}

/// Keeps the packets that it receives.
#[derive(Clone)]
struct Log(Rc<RefCell<Vec<(Vec<u8>, PacketStatus)>>>);

impl Receiver<HeapPacket> for Log {
    fn receive<I: Iterator<Item = (HeapPacket, PacketStatus)>>(&mut self, packets: I) {
        for (pk, status) in packets {
            self.0.borrow_mut().push((pk.payload().to_vec(), status));
        }
    }
}

/// A media packet with a payload of two bytes that tell its sequence number.
fn media_bytes(seq: u16) -> Vec<u8> {
    let mut bytes = vec![0x80, 33];
    bytes.extend_from_slice(&seq.to_be_bytes());
    bytes.extend_from_slice(&[0, 0, 0, 0, 0, 0, 0, 1]);
    bytes.extend_from_slice(&payload_of(seq));
    bytes
}

fn payload_of(seq: u16) -> [u8; 2] {
    [(seq % 256) as u8, (seq % 256) as u8 ^ 0xa5]
}

/// A FEC packet that protects the media packets `sn_base`, `sn_base + offset`, and so on.
fn fec_bytes(orientation: Orientation, seq: u16, sn_base: u16, offset: u8, count: u8) -> Vec<u8> {
    let mut bytes = vec![0x80, 96];
    bytes.extend_from_slice(&seq.to_be_bytes());
    bytes.extend_from_slice(&[0, 0, 0, 0, 0, 0, 0, 0]);
    let mut length = 0u16;
    let mut payload = [0u8; 2];
    for i in 0..u16::from(count) {
        let protected = sn_base.wrapping_add(i * u16::from(offset));
        length ^= 2;
        payload[0] ^= payload_of(protected)[0];
        payload[1] ^= payload_of(protected)[1];
    }
    bytes.extend_from_slice(&sn_base.to_be_bytes());
    bytes.extend_from_slice(&length.to_be_bytes());
    bytes.extend_from_slice(&[0x80, 0, 0, 0, 0, 0, 0, 0]);
    bytes.push(match orientation {
        Orientation::Row => 0x40,
        Orientation::Column => 0,
    });
    bytes.extend_from_slice(&[offset, count, 0]);
    bytes.extend_from_slice(&payload);
    bytes
}

fn column(seq: u16, sn_base: u16) -> Vec<u8> {
    fec_bytes(Orientation::Column, seq, sn_base, 4, 4)
}

fn row(seq: u16, sn_base: u16) -> Vec<u8> {
    fec_bytes(Orientation::Row, seq, sn_base, 1, 4)
}

struct Fixture {
    pool: HeapPool,
    log: Log,
    decoder: Decoder<HeapPool, Log>,
}

impl Fixture {
    fn new() -> Fixture {
        let pool = HeapPool::new(200, 60);
        let log = Log(Rc::new(RefCell::new(Vec::new())));
        Fixture { decoder: Decoder::new(pool.clone(), log.clone()), pool, log }
    }

    /// A decoder that has learnt the geometry of four columns and rows from a FEC packet that
    /// protects packets far away.
    fn running() -> Fixture {
        let mut f = Fixture::new();
        f.add_columns(&[column(0, 20000)]);
        f
    }

    fn packets(&self, all: &[Vec<u8>]) -> std::vec::IntoIter<HeapPacket> {
        let packets: Vec<HeapPacket> = all
            .iter()
            .map(|bytes| {
                let mut pk = self.pool.allocate().unwrap();
                pk.payload_mut()[..bytes.len()].copy_from_slice(bytes);
                pk.truncate(bytes.len());
                pk
            })
            .collect();
        packets.into_iter()
    }

    fn add_media<I: Iterator<Item = u16>>(&mut self, seqs: I) {
        let all: Vec<Vec<u8>> = seqs.map(media_bytes).collect();
        self.decoder.add_main_packets(self.packets(&all)).unwrap();
    }

    fn add_columns(&mut self, all: &[Vec<u8>]) {
        self.decoder.add_column_packets(self.packets(all)).unwrap();
    }

    fn add_rows(&mut self, all: &[Vec<u8>]) {
        self.decoder.add_row_packets(self.packets(all)).unwrap();
    }

    /// The sequence number, status and payload of every packet received so far.
    fn received(&self) -> Vec<(u16, PacketStatus, [u8; 2])> {
        self.log
            .0
            .borrow()
            .iter()
            .map(|(bytes, status)| {
                let seq = u16::from_be_bytes([bytes[2], bytes[3]]);
                (seq, *status, [bytes[12], bytes[13]])
            })
            .collect()
    }
}

fn expected<I: Iterator<Item = u16>>(seqs: I, recovered: &[u16]) -> Vec<(u16, PacketStatus, [u8; 2])> {
    seqs.map(|seq| {
        let status = if recovered.contains(&seq) {
            PacketStatus::Recovered
        } else {
            PacketStatus::Received
        };
        (seq, status, payload_of(seq))
    })
    .collect()
}

#[test]
fn media_packets_are_passed_on_as_soon_as_they_are_added() {
    let mut f = Fixture::running();
    for seq in 100..300 {
        f.add_media(seq..seq + 1);
        assert_eq!(f.received(), expected(100..seq + 1, &[]));
    }
}

#[test]
fn media_packets_are_passed_on_still_out_of_order() {
    let mut f = Fixture::running();
    f.add_media([9, 11, 10, 10, 500, 7].iter().copied());
    assert_eq!(f.received(), expected([9, 11, 10, 10, 500, 7].iter().copied(), &[]));
}

#[test]
fn a_lost_packet_is_recovered_by_its_column() {
    let mut f = Fixture::running();
    let others = || (100..116).filter(|seq| *seq != 105);
    f.add_media(others());
    f.add_columns(&[column(1, 101)]);
    assert_eq!(f.received(), expected(others().chain(105..106), &[105]));
    assert_eq!(f.log.0.borrow()[15].0, media_bytes(105));
}

#[test]
fn a_lost_packet_is_recovered_by_its_row() {
    let mut f = Fixture::running();
    let others = || (100..116).filter(|seq| *seq != 105);
    f.add_media(others());
    f.add_rows(&[row(1, 104)]);
    assert_eq!(f.received(), expected(others().chain(105..106), &[105]));
    assert_eq!(f.log.0.borrow()[15].0, media_bytes(105));
}

#[test]
fn recovered_packets_make_further_recoveries_possible() {
    let mut f = Fixture::running();
    // 105 and 106 of the row 104..=107 are lost, and 110 in the column of 106
    let others = || (100..116).filter(|seq| ![105, 106, 110].contains(seq));
    f.add_media(others());
    f.add_rows(&[row(1, 104)]);
    f.add_columns(&[column(2, 102)]);
    assert_eq!(f.received(), expected(others(), &[]));
    // once 105 is there, 106 can be recovered in the row, and then 110 in the column
    f.add_columns(&[column(1, 101)]);
    let recovered = [105, 106, 110];
    assert_eq!(f.received(), expected(others().chain(recovered), &recovered));
}

#[test]
fn a_packet_that_is_recovered_in_two_ways_is_passed_on_once() {
    let mut f = Fixture::running();
    let others = || (99..116).filter(|seq| ![100, 101, 104, 105].contains(seq));
    f.add_media(others());
    f.add_rows(&[row(1, 100), row(2, 104)]);
    f.add_columns(&[column(1, 100), column(2, 101)]);
    assert_eq!(f.received(), expected(others(), &[]));
    // 100 makes it possible to recover 104 in its column and 101 in its row; 101 then leads to 105,
    // and 105 to 104 once more
    f.add_media(100..101);
    assert_eq!(
        f.received()[13..],
        expected([100, 101, 105, 104].iter().copied(), &[101, 105, 104])
    );
}

#[test]
fn a_packet_that_cannot_be_recovered_is_skipped() {
    let mut f = Fixture::running();
    let others = || (100..116).filter(|seq| ![105, 106].contains(seq));
    f.add_media(others());
    f.add_rows(&[row(1, 104)]);
    f.add_media(116..148);
    assert_eq!(f.received(), expected(others().chain(116..148), &[]));
}

#[test]
fn media_packets_are_passed_on_before_the_geometry_is_known() {
    let mut f = Fixture::new();
    f.add_media(0..100);
    assert_eq!(f.received(), expected(0..100, &[]));
    f.add_columns(&[column(0, 20000)]);
    f.add_media(100..133);
    assert_eq!(f.received(), expected(0..133, &[]));
    // but they are not used for error correction
    f.add_rows(&[row(1, 96)]);
    f.add_media(134..136);
    f.add_rows(&[row(2, 132)]);
    assert_eq!(f.received()[133..], expected([134, 135, 133].iter().copied(), &[133]));
}

#[test]
fn row_packets_do_not_make_the_geometry_known() {
    let mut f = Fixture::new();
    f.add_rows(&[row(0, 100)]);
    f.add_media((100..104).filter(|seq| *seq != 101));
    f.add_rows(&[row(1, 100)]);
    assert_eq!(f.received(), expected([100, 102, 103].iter().copied(), &[]));
}

#[test]
fn column_packets_of_a_geometry_that_is_not_allowed_do_not_make_it_known() {
    let mut f = Fixture::new();
    f.add_columns(&[fec_bytes(Orientation::Column, 0, 100, 4, 3)]);
    f.add_media((100..104).filter(|seq| *seq != 101));
    f.add_rows(&[row(1, 100)]);
    assert_eq!(f.received(), expected([100, 102, 103].iter().copied(), &[]));
}

#[test]
fn a_change_of_geometry_empties_the_matrix() {
    let mut f = Fixture::running();
    f.add_media((100..116).filter(|seq| *seq != 101));
    f.add_columns(&[fec_bytes(Orientation::Column, 1, 20000, 5, 4)]);
    f.add_rows(&[fec_bytes(Orientation::Row, 1, 100, 1, 5)]);
    assert_eq!(f.received(), expected((100..116).filter(|seq| *seq != 101), &[]));
}

/// All the FEC packets for the columns of a matrix arrive before the media packets, of which just
/// one of each column is lost.
fn recovers_all_columns(columns: u8, rows: u8) {
    let mut f = Fixture::new();
    f.pool = HeapPool::new(400, 60);
    f.decoder = Decoder::new(f.pool.clone(), f.log.clone());
    let size = u16::from(columns) * u16::from(rows);
    for i in 0..u16::from(columns) {
        f.add_columns(&[fec_bytes(Orientation::Column, i, 100 + i, columns, rows)]);
    }
    let lost = 100 + size - u16::from(columns)..100 + size;
    f.add_media(100..lost.start);
    let mut received: Vec<u16> = f.received().iter().map(|(seq, _, _)| *seq).collect();
    received.sort();
    assert_eq!(received, (100..100 + size).collect::<Vec<u16>>());
    for (seq, status, payload) in f.received() {
        assert_eq!(status == PacketStatus::Recovered, lost.contains(&seq));
        assert_eq!(payload, payload_of(seq));
    }
}

#[test]
fn there_is_room_for_the_fec_packets_of_all_columns() {
    recovers_all_columns(20, 5);
    recovers_all_columns(5, 20);
    recovers_all_columns(4, 4);
}

#[test]
fn there_is_room_for_the_fec_packets_of_all_rows() {
    let mut f = Fixture::new();
    f.pool = HeapPool::new(400, 60);
    f.decoder = Decoder::new(f.pool.clone(), f.log.clone());
    f.add_columns(&[fec_bytes(Orientation::Column, 0, 20000, 5, 20)]);
    for i in 0..20 {
        f.add_rows(&[fec_bytes(Orientation::Row, i, 100 + 5 * i, 1, 5)]);
    }
    f.add_media((100..200).filter(|seq| seq % 5 != 4));
    let recovered: Vec<u16> = (100..200).filter(|seq| seq % 5 == 4).collect();
    // the last packet of a row is recovered as soon as the others are there
    assert_eq!(f.received(), expected(100..200, &recovered));
}

#[test]
fn it_makes_no_difference_how_packets_are_batched() {
    let mut one = Fixture::running();
    one.add_media(100..140);
    let mut many = Fixture::running();
    for seq in 100..140 {
        many.add_media(seq..seq + 1);
    }
    assert_eq!(one.received(), many.received());
    many.add_media(0..0);
    assert_eq!(one.received(), many.received());
}

#[test]
fn what_is_no_rtp_packet_is_rejected() {
    let mut f = Fixture::running();
    let bad = vec![0x80; 12];
    let all = [media_bytes(100), bad, media_bytes(101)];
    let packets = f.packets(&all);
    assert_eq!(
        f.decoder.add_main_packets(packets),
        Err(FecDecodeError::Rtp(RtpHeaderError::BufferTooShort(12)))
    );
    // packets after the rejected one are not looked at
    assert_eq!(f.received(), expected(100..101, &[]));
    let packets = f.packets(&all[1..2]);
    assert_eq!(
        f.decoder.add_row_packets(packets),
        Err(FecDecodeError::Rtp(RtpHeaderError::BufferTooShort(12)))
    );
    let packets = f.packets(&[vec![0x40; 20]]);
    assert_eq!(
        f.decoder.add_column_packets(packets),
        Err(FecDecodeError::Rtp(RtpHeaderError::UnsupportedVersion(1)))
    );
}

#[test]
fn the_other_reasons_to_reject_an_rtp_packet() {
    let mut f = Fixture::new();
    let mut reject = |first: u8, last: u8| {
        let mut bytes = media_bytes(1);
        bytes[0] = first;
        bytes[13] = last;
        let packets = f.packets(&[bytes]);
        f.decoder.add_main_packets(packets)
    };
    assert_eq!(reject(0x80, 0), Ok(()));
    assert_eq!(
        reject(0x81, 0),
        Err(FecDecodeError::Rtp(RtpHeaderError::HeadersTruncated {
            header_len: 16,
            buffer_len: 14
        }))
    );
    assert_eq!(
        reject(0x90, 0),
        Err(FecDecodeError::Rtp(RtpHeaderError::HeadersTruncated {
            header_len: 16,
            buffer_len: 14
        }))
    );
    assert_eq!(reject(0xa0, 2), Ok(()));
    assert_eq!(
        reject(0xa0, 0),
        Err(FecDecodeError::Rtp(RtpHeaderError::PaddingLengthInvalid(0)))
    );
    assert_eq!(
        reject(0xa0, 3),
        Err(FecDecodeError::Rtp(RtpHeaderError::PaddingLengthInvalid(3)))
    );
}

#[test]
fn fec_packets_of_the_wrong_stream_are_rejected() {
    let mut f = Fixture::running();
    let packets = f.packets(&[column(1, 100)]);
    assert_eq!(
        f.decoder.add_row_packets(packets),
        Err(FecDecodeError::Orientation {
            expected: Orientation::Row,
            actual: Orientation::Column
        })
    );
    let packets = f.packets(&[row(1, 100)]);
    assert_eq!(
        f.decoder.add_column_packets(packets),
        Err(FecDecodeError::Orientation {
            expected: Orientation::Column,
            actual: Orientation::Row
        })
    );
}

#[test]
fn what_is_no_fec_packet_is_refused() {
    let mut f = Fixture::new();
    let mut refuse = |change: fn(&mut Vec<u8>)| {
        let mut bytes = row(1, 100);
        change(&mut bytes);
        let packets = f.packets(&[bytes]);
        f.decoder.try_add_row_packets(packets)
    };
    assert_eq!(refuse(|_| ()), Ok(Ok(())));
    assert_eq!(
        refuse(|bytes| bytes[16] = 0),
        Err(Refusal::Fec(FecHeaderError::ExtendedFlagNotSet))
    );
    assert_eq!(
        refuse(|bytes| bytes[25] = 0),
        Err(Refusal::Fec(FecHeaderError::OffsetValueZero))
    );
    assert_eq!(
        refuse(|bytes| bytes[26] = 0),
        Err(Refusal::Fec(FecHeaderError::NumberAssociatedValueZero))
    );
    assert_eq!(
        refuse(|bytes| bytes.truncate(27)),
        Err(Refusal::Fec(FecHeaderError::BufferTooShort(15)))
    );
    assert_eq!(
        refuse(|bytes| bytes.truncate(20)),
        Err(Refusal::Fec(FecHeaderError::BufferTooShort(8)))
    );
    assert_eq!(refuse(|bytes| bytes.truncate(26)), Err(Refusal::FecTruncated));
}

#[test]
fn a_change_to_a_geometry_that_is_not_allowed_is_refused() {
    let mut f = Fixture::running();
    let packets = f.packets(&[fec_bytes(Orientation::Column, 1, 100, 4, 3)]);
    assert_eq!(
        f.decoder.try_add_column_packets(packets),
        Err(Refusal::Geometry(FecGeometryError::BadNumberOfRows(3)))
    );
    let packets = f.packets(&[fec_bytes(Orientation::Row, 1, 100, 1, 5)]);
    assert_eq!(
        f.decoder.try_add_row_packets(packets),
        Err(Refusal::Geometry(FecGeometryError::ColumnPacketRequired))
    );
}

#[test]
fn a_media_packet_half_a_turn_away_is_refused() {
    let mut f = Fixture::running();
    f.add_media(0..1);
    let packets = f.packets(&[media_bytes(0x8000)]);
    assert_eq!(f.decoder.try_add_main_packets(packets), Err(Refusal::WindowOverrun));
}

#[test]
fn packets_of_different_length_are_refused_once_they_are_needed() {
    let mut f = Fixture::running();
    let mut long = media_bytes(101);
    long.push(0);
    let packets = f.packets(&[media_bytes(100), long, media_bytes(103)]);
    assert_eq!(f.decoder.try_add_main_packets(packets), Ok(Ok(())));
    let packets = f.packets(&[row(0, 100)]);
    assert_eq!(f.decoder.try_add_row_packets(packets), Err(Refusal::LengthMismatch));
}

#[test]
fn a_recovered_packet_that_is_no_rtp_packet_any_more_is_rejected() {
    let mut f = Fixture::running();
    let first = |seq: u16| {
        let mut bytes = media_bytes(seq);
        bytes[0] = 0x81;
        bytes.extend_from_slice(&[0; 2]);
        bytes
    };
    let packets = f.packets(&[first(100), first(101), first(103)]);
    assert_eq!(f.decoder.try_add_main_packets(packets), Ok(Ok(())));
    // the recovered length leaves no room for the contributing source
    let mut fec = row(0, 100);
    fec.extend_from_slice(&[0; 2]);
    fec[15] = 2 ^ 4;
    let packets = f.packets(&[fec]);
    assert_eq!(
        f.decoder.try_add_row_packets(packets),
        Ok(Err(FecDecodeError::Rtp(RtpHeaderError::HeadersTruncated {
            header_len: 16,
            buffer_len: 14
        })))
    );
}

#[test]
fn the_window_starts_anew_when_the_sender_restarts() {
    let mut f = Fixture::running();
    f.add_media(1000..1004);
    f.add_media(0..64);
    f.add_media((64..68).filter(|seq| *seq != 65));
    f.add_rows(&[row(1, 64)]);
    assert_eq!(f.received()[71..], expected(65..66, &[65]));
}

#[test]
fn too_many_recovered_packets_at_once_are_an_error() {
    let mut f = Fixture::new();
    f.pool = HeapPool::new(400, 60);
    f.decoder = Decoder::new(f.pool.clone(), f.log.clone());
    f.add_columns(&[fec_bytes(Orientation::Column, 0, 20000, 10, 10)]);
    // each of these can be recovered once the one before it is there
    let chain: Vec<u16> = (0..11).map(|i| 1000 + 9 * i).collect();
    // and each of these at the same time as the next of the chain
    let branches: Vec<u16> = chain[..10].iter().map(|seq| seq - 90).collect();
    f.add_media((909..1092).filter(|seq| !chain.contains(seq) && !branches.contains(seq)));
    for (i, seq) in branches.iter().enumerate() {
        f.add_columns(&[fec_bytes(Orientation::Column, i as u16 + 1, *seq, 10, 10)]);
    }
    for (i, seq) in chain[..10].iter().rev().enumerate() {
        f.add_rows(&[fec_bytes(Orientation::Row, i as u16, *seq, 1, 10)]);
    }
    let packets = f.packets(&[media_bytes(chain[0])]);
    assert_eq!(
        f.decoder.add_main_packets(packets),
        Err(FecDecodeError::NoSpaceForRecovered)
    );
}
