use smpte2022_1_fec::heap_pool::{first_free, HeapPool};
use smpte2022_1_fec::BufferPool;
use smpte2022_1_fec::Packet;
use smpte2022_1_fec::PacketRef;
use smpte2022_1_fec::PacketRefMut;

#[test]
fn heap_pool_it_works() {
    let pool = HeapPool::new(2, 1500);
    {
        let one = pool.allocate().unwrap();
        let two = pool.allocate().unwrap();
        assert!(pool.allocate().is_none());
        let one_ref = one.into_ref();
        // now ref_b has been dropped, try_into_packet() should succeed
        assert!(one_ref.try_into_packet().is_ok());

        let mut two_ref = two.into_ref_mut();
        {
            let data = two_ref.payload();
            data[0] = 123;
        }
        let two = two_ref.into_packet();
        let two_ref = two.into_ref();
        assert_eq!(123, two_ref.payload()[0]);
    }
    // Now all the above pool usage is done, the allocations should have returned to the pool
    let _one = pool.allocate().unwrap();
    let _two = pool.allocate().unwrap();
    assert!(pool.allocate().is_none());
}

#[test]
fn clones_share_the_packets_of_the_pool() {
    let pool = HeapPool::new(1, 20);
    let clone = pool.clone();
    let packet = clone.allocate().unwrap();
    assert!(pool.allocate().is_none());
    drop(packet);
    assert!(pool.allocate().is_some());
}

#[test]
fn packets_from_the_pool_are_zeroed() {
    let pool = HeapPool::new(1, 4);
    let mut packet = pool.allocate().unwrap();
    packet.payload_mut().copy_from_slice(&[1, 2, 3, 4]);
    drop(packet);
    assert_eq!(pool.allocate().unwrap().payload(), &[0, 0, 0, 0]);
}

#[test]
fn truncating_keeps_the_first_bytes() {
    let pool = HeapPool::new(1, 4);
    let mut packet = pool.allocate().unwrap();
    packet.payload_mut().copy_from_slice(&[1, 2, 3, 4]);
    packet.truncate(3);
    assert_eq!(packet.payload(), &[1, 2, 3]);
    let mut packet_ref = packet.into_ref_mut();
    packet_ref.truncate(2);
    assert_eq!(packet_ref.into_packet().payload(), &[1, 2]);
}

#[test]
fn an_empty_pool_has_no_packets() {
    assert!(HeapPool::new(0, 1500).allocate().is_none());
}

#[test]
fn the_first_permit_without_other_owners_is_free() {
    assert_eq!(first_free(&vec![2, 1, 1]), Some(1));
    assert_eq!(first_free(&vec![2, 2]), None);
    assert_eq!(first_free(&vec![]), None);
}

#[test]
fn a_pool_gives_out_as_many_packets_as_it_was_made_for() {
    let pool = HeapPool::new(3, 20);
    let first = pool.allocate().unwrap();
    let mut second = pool.allocate().unwrap();
    let third = pool.allocate().unwrap();
    assert!(pool.allocate().is_none());
    // neither writing to a packet nor shortening it gives it back
    second.payload_mut()[0] = 1;
    second.truncate(10);
    let second = second.into_ref();
    let mut third = third.into_ref_mut();
    third.payload()[0] = 2;
    third.truncate(5);
    assert!(pool.allocate().is_none());
    drop(second);
    let fourth = pool.allocate().unwrap();
    assert!(pool.allocate().is_none());
    drop(first);
    drop(third);
    drop(fourth);
    let again: Vec<_> = (0..3).map(|_| pool.allocate().unwrap()).collect();
    assert!(pool.allocate().is_none());
    assert_eq!(again.len(), 3);
}
