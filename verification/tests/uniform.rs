use smpte2022_1_fec::heap_pool::{HeapPacket, HeapPool};
use smpte2022_1_fec::{BufferPool, Decoder, FecDecodeError, Packet, PacketStatus, Receiver};
use std::cell::RefCell;
use std::rc::Rc;

/// Keeps the packets that it receives.
#[derive(Clone)]
struct Log(Rc<RefCell<Vec<(Vec<u8>, PacketStatus)>>>);

impl Receiver<HeapPacket> for Log {
    fn receive<I: Iterator<Item = (HeapPacket, PacketStatus)>>(&mut self, packets: I) {
        for (pk, status) in packets {
            self.0.borrow_mut().push((pk.payload().to_vec(), status));
        }
    }
}

/// A simple generator of pseudo-random numbers.
struct Random(u32);

impl Random {
    fn below(&mut self, n: u32) -> u32 {
        self.0 = self.0.wrapping_mul(1_103_515_245).wrapping_add(12345);
        (self.0 >> 16) % n
    }
}

fn payload_of(seq: u16) -> [u8; 4] {
    let mixed = u32::from(seq).wrapping_mul(0x9e37_79b1);
    mixed.to_be_bytes()
}

fn media_bytes(seq: u16) -> Vec<u8> {
    let mut bytes = vec![0x80, 33];
    bytes.extend_from_slice(&seq.to_be_bytes());
    bytes.extend_from_slice(&timestamp_of(seq).to_be_bytes());
    bytes.extend_from_slice(&[0, 0, 0, 1]);
    bytes.extend_from_slice(&payload_of(seq));
    bytes
}

fn timestamp_of(seq: u16) -> u32 {
    u32::from(seq).wrapping_mul(0x0123_4567)
}

fn fec_bytes(row: bool, seq: u16, sn_base: u16, offset: u8, count: u8) -> Vec<u8> {
    let mut bytes = vec![0x80, 96];
    bytes.extend_from_slice(&seq.to_be_bytes());
    bytes.extend_from_slice(&[0, 0, 0, 0, 0, 0, 0, 0]);
    let mut length = 0u16;
    let mut ts = 0u32;
    let mut payload = [0u8; 4];
    for i in 0..u16::from(count) {
        let seq = sn_base.wrapping_add(i * u16::from(offset));
        length ^= 4;
        ts ^= timestamp_of(seq);
        for (combined, byte) in payload.iter_mut().zip(payload_of(seq).iter()) {
            *combined ^= byte;
        }
    }
    bytes.extend_from_slice(&sn_base.to_be_bytes());
    bytes.extend_from_slice(&length.to_be_bytes());
    bytes.extend_from_slice(&[0x80, 0, 0, 0]);
    bytes.extend_from_slice(&ts.to_be_bytes());
    bytes.push(if row { 0x40 } else { 0 });
    bytes.extend_from_slice(&[offset, count, 0]);
    bytes.extend_from_slice(&payload);
    bytes
}

fn packet(pool: &HeapPool, bytes: &[u8]) -> HeapPacket {
    let mut pk = pool.allocate().unwrap();
    pk.payload_mut()[..bytes.len()].copy_from_slice(bytes);
    pk.truncate(bytes.len());
    pk
}

/// Sends matrices of the given size through a decoder, losing and reordering packets.
fn run(seed: u32, l: u16, d: u16, loss: u32) -> Vec<(Vec<u8>, PacketStatus)> {
    let mut random = Random(seed);
    let pool = HeapPool::new(1000, 60);
    let log = Log(Rc::new(RefCell::new(Vec::new())));
    let mut decoder = Decoder::new(pool.clone(), log.clone());
    let mut base = 65000u16;
    for matrix in 0..12u16 {
        // 0 for media packets, 1 for columns, 2 for rows
        let mut packets: Vec<(u32, Vec<u8>)> = Vec::new();
        for i in 0..l * d {
            packets.push((0, media_bytes(base.wrapping_add(i))));
        }
        for i in 0..l {
            let seq = (matrix * l).wrapping_add(i);
            packets.push((1, fec_bytes(false, seq, base.wrapping_add(i), l as u8, d as u8)));
        }
        for i in 0..d {
            let seq = (matrix * d).wrapping_add(i);
            packets.push((2, fec_bytes(true, seq, base.wrapping_add(i * l), 1, l as u8)));
        }
        packets.retain(|_| random.below(100) >= loss);
        for i in 1..packets.len() {
            let back = random.below(12).min(i as u32) as usize;
            packets.swap(i, i - back);
        }
        for (stream, bytes) in packets {
            let pk = vec![packet(&pool, &bytes)].into_iter();
            let outcome = match stream {
                0 => decoder.try_add_main_packets(pk),
                1 => decoder.try_add_column_packets(pk),
                _ => decoder.try_add_row_packets(pk),
            };
            assert!(
                outcome == Ok(Ok(())) || outcome == Ok(Err(FecDecodeError::NoSpaceForRecovered)),
                "{:?}",
                outcome
            );
        }
        base = base.wrapping_add(l * d);
    }
    let received = log.0.borrow().clone();
    received
}

fn seq_of(bytes: &[u8]) -> u16 {
    u16::from_be_bytes([bytes[2], bytes[3]])
}

#[test]
fn packets_of_uniform_streams_are_not_refused() {
    let mut recovered = 0;
    for seed in 0..40 {
        for (l, d) in [(4, 4), (5, 20), (20, 5), (10, 10), (4, 20), (7, 9)] {
            for loss in [0, 5, 30] {
                let received = run(seed, l, d, loss);
                assert!(!received.is_empty());
                for (_, status) in received {
                    if status == PacketStatus::Recovered {
                        recovered += 1;
                    }
                }
            }
        }
    }
    assert!(recovered > 0);
}

#[test]
fn all_packets_are_passed_on_as_they_were_sent() {
    for seed in 0..20 {
        for (l, d) in [(4, 4), (5, 20), (20, 5), (10, 10), (7, 9)] {
            let mut seqs = Vec::new();
            for (bytes, status) in run(seed, l, d, 10) {
                assert_eq!(bytes, media_bytes(seq_of(&bytes)));
                if status == PacketStatus::Received {
                    seqs.push(seq_of(&bytes));
                }
            }
            let count = seqs.len();
            seqs.sort();
            seqs.dedup();
            assert_eq!(seqs.len(), count);
        }
    }
}
