use smpte2022_1_fec::heap_pool::{HeapPacket, HeapPool};
use smpte2022_1_fec::packet_sequence::PacketSequence;
use smpte2022_1_fec::window::SEQ_GONE_BACKWARDS_LIMIT;
use smpte2022_1_fec::{BufferPool, Packet, PacketStatus, Receiver};
use std::cell::RefCell;
use std::rc::Rc;

/// Keeps the batches of packets that it receives, each packet by its first byte.
#[derive(Clone)]
struct Log(Rc<RefCell<Vec<Vec<(u8, PacketStatus)>>>>);

impl Log {
    fn new() -> Log {
        Log(Rc::new(RefCell::new(Vec::new())))
    }

    fn batches(&self) -> Vec<Vec<(u8, PacketStatus)>> {
        self.0.borrow().clone()
    }
}

impl Receiver<HeapPacket> for Log {
    fn receive<I: Iterator<Item = (HeapPacket, PacketStatus)>>(&mut self, packets: I) {
        let batch = packets.map(|(pk, status)| (pk.payload()[0], status)).collect();
        self.0.borrow_mut().push(batch);
    }
}

fn packet(pool: &HeapPool, mark: u8) -> HeapPacket {
    let mut pk = pool.allocate().unwrap();
    pk.payload_mut()[0] = mark;
    pk
}

fn received(marks: &[u8]) -> Vec<(u8, PacketStatus)> {
    marks.iter().map(|mark| (*mark, PacketStatus::Received)).collect()
}

fn mark_at(sequence: &PacketSequence<HeapPacket, Log>, seq: u16) -> Option<u8> {
    sequence.get_by_seq(seq).map(|(pk, _)| pk.payload()[0])
}

struct Fixture {
    pool: HeapPool,
    log: Log,
    sequence: PacketSequence<HeapPacket, Log>,
}

impl Fixture {
    fn new(limit: usize) -> Fixture {
        let log = Log::new();
        Fixture {
            pool: HeapPool::new(200, 4),
            sequence: PacketSequence::new_with_receiver(limit, log.clone()),
            log,
        }
    }

    fn insert(&mut self, seq: u16, mark: u8) {
        assert!(self.sequence.fits(seq));
        self.sequence.insert(seq, packet(&self.pool, mark), PacketStatus::Received);
    }
}

#[test]
fn a_packet_can_be_read_back() {
    let mut f = Fixture::new(4);
    assert_eq!(f.sequence.front_seq(), None);
    f.insert(10, 1);
    assert_eq!(f.sequence.front_seq(), Some(10));
    assert_eq!(mark_at(&f.sequence, 10), Some(1));
    assert_eq!(mark_at(&f.sequence, 11), None);
    assert_eq!(mark_at(&f.sequence, 9), None);
}

#[test]
fn gaps_are_filled_with_placeholders() {
    let mut f = Fixture::new(4);
    f.insert(10, 1);
    f.insert(13, 4);
    assert_eq!(f.sequence.len(), 4);
    assert_eq!(mark_at(&f.sequence, 11), None);
    let (seq, entry) = f.sequence.entry(2);
    assert_eq!(seq, 12);
    assert!(entry.is_none());
    // a packet that arrives late takes the place that was kept for it
    f.insert(12, 3);
    assert_eq!(mark_at(&f.sequence, 12), Some(3));
    assert_eq!(f.sequence.len(), 4);
    assert!(f.log.batches().is_empty());
}

#[test]
fn the_oldest_packets_make_room_and_reach_the_receiver_in_order() {
    let mut f = Fixture::new(3);
    f.insert(10, 1);
    f.insert(12, 3);
    f.insert(11, 2);
    f.insert(14, 5);
    assert_eq!(f.log.batches(), vec![received(&[1, 2])]);
    assert_eq!(f.sequence.front_seq(), Some(12));
    assert_eq!(f.sequence.len(), 3);
    assert_eq!(mark_at(&f.sequence, 12), Some(3));
    assert_eq!(mark_at(&f.sequence, 13), None);
    assert_eq!(mark_at(&f.sequence, 14), Some(5));
}

#[test]
fn the_receiver_is_called_even_if_only_placeholders_make_room() {
    let mut f = Fixture::new(3);
    f.insert(10, 1);
    f.insert(12, 3);
    f.insert(13, 4);
    f.insert(14, 5);
    assert_eq!(f.log.batches(), vec![received(&[1]), received(&[])]);
}

#[test]
fn a_large_jump_empties_the_window() {
    let mut f = Fixture::new(3);
    f.insert(10, 1);
    f.insert(11, 2);
    f.insert(1000, 3);
    assert_eq!(f.log.batches(), vec![received(&[1, 2])]);
    assert_eq!(f.sequence.front_seq(), Some(1000));
    assert_eq!(f.sequence.len(), 1);
}

#[test]
fn sequence_numbers_wrap_around() {
    let mut f = Fixture::new(4);
    f.insert(0xfffe, 1);
    f.insert(1, 4);
    assert_eq!(f.sequence.len(), 4);
    assert_eq!(f.sequence.entry(1).0, 0xffff);
    assert_eq!(f.sequence.entry(2).0, 0);
    assert_eq!(mark_at(&f.sequence, 1), Some(4));
    f.insert(2, 5);
    assert_eq!(f.sequence.front_seq(), Some(0xffff));
}

#[test]
fn a_repeated_packet_replaces_the_first() {
    let mut f = Fixture::new(3);
    f.insert(10, 1);
    f.insert(10, 2);
    assert_eq!(f.sequence.len(), 1);
    assert_eq!(mark_at(&f.sequence, 10), Some(2));
}

#[test]
fn packets_that_are_too_early_are_dropped() {
    let mut f = Fixture::new(3);
    f.insert(10, 1);
    f.insert(9, 2);
    assert_eq!(f.sequence.front_seq(), Some(10));
    assert_eq!(f.sequence.len(), 1);
    assert_eq!(mark_at(&f.sequence, 9), None);
    assert!(f.log.batches().is_empty());
}

#[test]
fn too_many_early_packets_in_a_row_restart_the_window() {
    let mut f = Fixture::new(3);
    f.insert(1000, 1);
    f.insert(1001, 2);
    for i in 0..SEQ_GONE_BACKWARDS_LIMIT - 1 {
        f.insert(i as u16, 3);
    }
    assert_eq!(f.sequence.front_seq(), Some(1000));
    assert!(f.log.batches().is_empty());
    f.insert(63, 3);
    assert_eq!(f.sequence.front_seq(), None);
    assert_eq!(f.log.batches(), vec![received(&[1, 2])]);
    // the new sequence starts with the next packet
    f.insert(64, 4);
    assert_eq!(f.sequence.front_seq(), Some(64));
}

#[test]
fn a_packet_that_is_stored_ends_a_row_of_early_packets() {
    let mut f = Fixture::new(3);
    f.insert(1000, 1);
    for i in 0..SEQ_GONE_BACKWARDS_LIMIT - 1 {
        f.insert(i as u16, 3);
    }
    f.insert(1001, 2);
    f.insert(0, 3);
    assert_eq!(f.sequence.front_seq(), Some(1000));
    assert!(f.log.batches().is_empty());
}

#[test]
fn what_lies_half_a_turn_away_does_not_fit() {
    let mut f = Fixture::new(4);
    f.insert(0, 1);
    f.insert(1, 2);
    // up to half a turn after the first entry
    assert!(f.sequence.fits(0x7fff));
    // it might come after the last entry, but not after the first
    assert!(!f.sequence.fits(0x8000));
    assert!(!f.sequence.fits(0x8001));
    assert!(!f.sequence.fits(0x8002));
    assert!(f.sequence.fits(0x8003));
    assert!(f.sequence.fits(0xffff));
}

#[test]
fn nothing_fits_into_a_window_without_entries_to_spare() {
    let sequence: PacketSequence<HeapPacket, Log> =
        PacketSequence::new_with_receiver(0, Log::new());
    assert!(!sequence.fits(7));
}

#[test]
fn disposing_of_the_window_gives_the_receiver_back() {
    let mut f = Fixture::new(1);
    f.insert(1, 1);
    f.insert(2, 2);
    let log = f.sequence.dispose();
    assert_eq!(log.batches(), vec![received(&[1])]);
}

#[test]
fn a_window_without_receiver_discards_what_leaves_it() {
    let pool = HeapPool::new(2, 4);
    let mut sequence: PacketSequence<HeapPacket, _> = PacketSequence::new(1);
    sequence.insert(1, packet(&pool, 1), PacketStatus::Received);
    sequence.insert(2, packet(&pool, 2), PacketStatus::Received);
    assert_eq!(sequence.front_seq(), Some(2));
    assert!(pool.allocate().is_some());
}

#[test]
fn a_run_is_passed_on_in_ascending_order() {
    let mut f = Fixture::new(4);
    // 13 comes too late, and 15 replaces another
    for (seq, mark) in [(10, 0), (12, 2), (11, 1), (15, 99), (15, 5), (18, 8), (13, 3), (30, 20)] {
        f.insert(seq, mark);
    }
    let all: Vec<(u8, PacketStatus)> = f.log.batches().concat();
    assert_eq!(all, received(&[0, 1, 2, 5, 8]));
    assert_eq!(f.sequence.len(), 1);
    assert_eq!(mark_at(&f.sequence, 30), Some(20));
}

#[test]
fn packets_that_look_alike_keep_their_numbers() {
    let mut f = Fixture::new(4);
    for seq in [10, 12, 11, 15] {
        f.insert(seq, 7);
    }
    assert_eq!(f.log.batches(), vec![received(&[7, 7])]);
    assert_eq!(f.sequence.front_seq(), Some(12));
    assert_eq!(mark_at(&f.sequence, 12), Some(7));
    assert_eq!(mark_at(&f.sequence, 13), None);
    assert_eq!(mark_at(&f.sequence, 15), Some(7));
}
