//! A pool of packets on the heap.

use crate::packet::{zeroes, BufferPool, Packet, PacketRef, PacketRefMut};
use crate::permit::Permit;
use std::rc::Rc;
use vstd::prelude::*;

verus! {

/// `Rc::strong_count`: how many own the permit, of which the pool always is one.  How many packets
/// hold it besides is a matter of which packets have been dropped by now, and left unsaid.
#[verifier::external_body]
fn owners(permit: &Rc<Permit>) -> (count: usize)
    ensures
        count >= 1,
{
    Rc::strong_count(permit)
}

/// Whether `count` is an answer that was given when it was asked how many own the permit.  The only
/// way to come by one is to ask.
pub closed spec fn is_reported(permit: Rc<Permit>, count: usize) -> bool {
    call_ensures(owners, (&permit,), count)
}

/// Puts the question `ask` about a permit.
fn answer<F: Fn(&Rc<Permit>) -> usize>(ask: F, permit: &Rc<Permit>) -> (count: usize)
    requires
        call_requires(ask, (permit,)),
    ensures
        call_ensures(ask, (permit,), count),
{
    ask(permit)
}

/// How many own the permit, as far as can be told by asking.
fn reported_owners(permit: &Rc<Permit>) -> (count: usize)
    ensures
        is_reported(*permit, count),
        count >= 1,
{
    answer(owners, permit)
}

/// Whether nobody but the pool owns the permit at index `i`, given how many own each.
pub open spec fn is_free(owners: Seq<usize>, i: int) -> bool {
    0 <= i < owners.len() && owners[i] == 1
}

/// Whether the permit at index `i` is the first that nobody but the pool owns.
pub open spec fn is_first_free(owners: Seq<usize>, i: int) -> bool {
    is_free(owners, i) && forall|k: int| 0 <= k < i ==> !is_free(owners, k)
}

/// The first place at which nobody but the pool owns a permit, given how many own each.
pub fn first_free(owners: &Vec<usize>) -> (res: Option<usize>)
    ensures
        match res {
            Some(index) => is_first_free(owners@, index as int),
            None => forall|i: int| !is_free(owners@, i),
        },
{
    let mut i: usize = 0;
    while i < owners.len()
        invariant
            i <= owners@.len(),
            forall|k: int| 0 <= k < i ==> !is_free(owners@, k),
        decreases owners@.len() - i,
    {
        if owners[i] == 1 {
            return Some(i);
        }
        i += 1;
    }
    None
}

/// A pool that hands out a limited number of packets at a time.
///
/// Every packet takes along one of the permits of the pool, and gives it back by being dropped.
pub struct HeapPool {
    permits: Rc<Vec<Rc<Permit>>>,
    packet_size: usize,
}

impl HeapPool {
    /// The permits of the pool, of which each packet in use holds one.
    pub closed spec fn permits(self) -> Seq<Rc<Permit>> {
        self.permits@
    }

    /// How many packets may be in use at a time.
    pub open spec fn packet_count(self) -> nat {
        self.permits().len()
    }

    /// The length in bytes of a packet from the pool.
    pub closed spec fn size(self) -> nat {
        self.packet_size as nat
    }

    /// Whether `owners` are answers to how many own each permit of the pool, every one of which was
    /// asked about.
    pub open spec fn reports(self, owners: Seq<usize>) -> bool {
        &&& owners.len() == self.packet_count()
        &&& forall|i: int|
            0 <= i < owners.len() ==> is_reported(self.permits()[i], #[trigger] owners[i])
    }

    /// Whether `res` is the answer to a request for a packet where `owners` own the permits: a packet
    /// of zeroes that holds the first permit nobody but the pool owns, and nothing exactly where
    /// there is no such permit.
    pub open spec fn grants(self, owners: Seq<usize>, res: Option<HeapPacket>) -> bool {
        match res {
            Some(packet) => {
                &&& exists|i: int| #[trigger]
                    is_first_free(owners, i) && packet.permit() == self.permits()[i]
                &&& packet.bytes() == zeroes(self.size())
            },
            None => forall|i: int| !is_free(owners, i),
        }
    }

    /// A pool of `packet_count` packets of `packet_size` bytes each.
    pub fn new(packet_count: usize, packet_size: usize) -> (pool: HeapPool)
        ensures
            pool.packet_count() == packet_count,
            forall|k: int|
                0 <= k < packet_count ==> (#[trigger] pool.permits()[k]).number() == k,
            pool.permits().no_duplicates(),
            pool.size() == packet_size,
    {
        HeapPool { permits: Rc::new(Self::mk_permits(packet_count)), packet_size }
    }

    /// As many permits as packets may be in use, each with a number of its own.
    fn mk_permits(packet_count: usize) -> (permits: Vec<Rc<Permit>>)
        ensures
            permits@.len() == packet_count,
            forall|k: int| 0 <= k < packet_count ==> (#[trigger] permits@[k]).number() == k,
    {
        let mut permits: Vec<Rc<Permit>> = Vec::new();
        let mut i: usize = 0;
        while i < packet_count
            invariant
                i <= packet_count,
                permits@.len() == i,
                forall|k: int| 0 <= k < i ==> (#[trigger] permits@[k]).number() == k,
            decreases packet_count - i,
        {
            permits.push(Rc::new(Permit::new(i)));
            i += 1;
        }
        permits
    }

    /// How many own each permit.
    fn permit_owners(&self) -> (res: Vec<usize>)
        ensures
            self.reports(res@),
            forall|i: int|
                0 <= i < res@.len() ==> call_ensures(
                    owners,
                    (&self.permits@[i],),
                    #[trigger] res@[i],
                ),
            forall|i: int| 0 <= i < res@.len() ==> res@[i] >= 1,
    {
        let mut res: Vec<usize> = Vec::new();
        let mut i: usize = 0;
        while i < self.permits.len()
            invariant
                i <= self.permits@.len(),
                res@.len() == i,
                forall|k: int|
                    0 <= k < res@.len() ==> is_reported(self.permits@[k], #[trigger] res@[k]),
                forall|k: int| 0 <= k < res@.len() ==> res@[k] >= 1,
            decreases self.permits@.len() - i,
        {
            res.push(reported_owners(&self.permits[i]));
            i += 1;
        }
        res
    }

    /// A packet of zeroes that holds the first permit nobody but the pool owns, given how many own
    /// each; nothing exactly where there is no such permit.
    fn packet_for(&self, owners: &Vec<usize>) -> (res: Option<HeapPacket>)
        requires
            owners@.len() == self.packet_count(),
        ensures
            self.grants(owners@, res),
    {
        match first_free(owners) {
            Some(index) => {
                let permit = self.permits[index].clone();
                let buf: Vec<u8> = vec![0u8; self.packet_size];
                assert(buf@ =~= zeroes(self.size()));
                Some(HeapPacket { permit, buf })
            },
            None => None,
        }
    }
}

impl BufferPool for HeapPool {
    type P = HeapPacket;

    open spec fn packet_size(&self) -> nat {
        self.size()
    }

    open spec fn may_allocate(&self, res: Option<HeapPacket>) -> bool {
        &&& res matches Some(packet) ==> {
            &&& self.permits().contains(packet.permit())
            &&& packet.bytes() == zeroes(self.size())
        }
        &&& exists|owners: Seq<usize>| #[trigger] self.reports(owners) && self.grants(owners, res)
    }

    /// Takes a packet of zeroes from the pool.  Whether one is left is a matter of which packets
    /// have been dropped by now: of that only the permits' counts of owners tell, all of which are
    /// asked for.
    fn allocate(&self) -> (res: Option<HeapPacket>) {
        let owners = self.permit_owners();
        assert(self.reports(owners@));
        self.packet_for(&owners)
    }
}

impl Clone for HeapPool {
    fn clone(&self) -> (pool: Self)
        ensures
            pool == *self,
    {
        HeapPool { permits: self.permits.clone(), packet_size: self.packet_size }
    }
}

/// Whether packets that hold the permits `in_use` can be in use at the same time: the permits are
/// ones of the pool, and no two packets hold the same.
pub open spec fn may_be_in_use(pool: HeapPool, in_use: Seq<Rc<Permit>>) -> bool {
    &&& in_use.no_duplicates()
    &&& forall|k: int| 0 <= k < in_use.len() ==> pool.permits().contains(#[trigger] in_use[k])
}

/// Whether `owners` says how many own each permit of the pool while packets that hold the permits
/// `in_use` are in use: the pool, and perhaps a packet.
pub open spec fn counts_owners(
    pool: HeapPool,
    in_use: Seq<Rc<Permit>>,
    owners: Seq<usize>,
) -> bool {
    &&& owners.len() == pool.packet_count()
    &&& forall|i: int|
        0 <= i < owners.len() ==> #[trigger] owners[i] == if in_use.contains(pool.permits()[i]) {
            2int
        } else {
            1
        }
}

/// A pool has packets left exactly while fewer are in use than it was made for.  The permit that the
/// next packet takes along is none of those in use, so that there is one fewer left afterwards.
pub proof fn law_pool_gives_out_what_is_left(
    pool: HeapPool,
    in_use: Seq<Rc<Permit>>,
    owners: Seq<usize>,
)
    requires
        pool.permits().no_duplicates(),
        may_be_in_use(pool, in_use),
        counts_owners(pool, in_use, owners),
    ensures
        (exists|i: int| is_free(owners, i)) <==> in_use.len() < pool.packet_count(),
        forall|i: int| #[trigger]
            is_free(owners, i) ==> may_be_in_use(pool, in_use.push(pool.permits()[i])),
{
    let permits = pool.permits();
    let held = in_use.to_set();
    permits.unique_seq_to_set();
    in_use.unique_seq_to_set();
    assert forall|permit: Rc<Permit>| held.contains(permit) implies permits.to_set().contains(
        permit,
    ) by {
        let k = choose|k: int| 0 <= k < in_use.len() && in_use[k] == permit;
        assert(permits.contains(in_use[k]));
    }
    if in_use.len() < permits.len() {
        if forall|i: int| 0 <= i < permits.len() ==> in_use.contains(#[trigger] permits[i]) {
            assert(permits.to_set() =~= held);
        } else {
            let i = choose|i: int|
                0 <= i < permits.len() && !in_use.contains(#[trigger] permits[i]);
            assert(owners[i] == 1);
            assert(is_free(owners, i));
        }
    }
    if exists|i: int| is_free(owners, i) {
        let i = choose|i: int| is_free(owners, i);
        assert(permits.to_set().contains(permits[i]));
        vstd::set_lib::lemma_len_subset(held, permits.to_set().remove(permits[i]));
    }
    assert forall|i: int| #[trigger] is_free(owners, i) implies may_be_in_use(
        pool,
        in_use.push(permits[i]),
    ) by {
        let more = in_use.push(permits[i]);
        assert(owners[i] == 1);
        assert forall|k: int| 0 <= k < more.len() implies permits.contains(#[trigger] more[k]) by {
            if k < in_use.len() {
                assert(more[k] == in_use[k]);
            }
        }
    }
}

/// Where the answers to how many own a permit are true, a request for a packet is answered with
/// nothing only where every permit of the pool is held by a packet in use; as long as fewer packets
/// are in use than the pool was made for, it is answered with a packet, whose permit none of those in
/// use holds.
pub proof fn law_requests_are_granted_while_packets_are_left(
    pool: HeapPool,
    in_use: Seq<Rc<Permit>>,
    res: Option<HeapPacket>,
)
    requires
        pool.permits().no_duplicates(),
        may_be_in_use(pool, in_use),
        forall|i: int, count: usize|
            0 <= i < pool.packet_count() && #[trigger] is_reported(pool.permits()[i], count)
                ==> count == if in_use.contains(pool.permits()[i]) {
                2int
            } else {
                1
            },
        pool.may_allocate(res),
    ensures
        res is Some <==> in_use.len() < pool.packet_count(),
        res is None <==> forall|i: int|
            0 <= i < pool.packet_count() ==> in_use.contains(#[trigger] pool.permits()[i]),
        res matches Some(packet) ==> {
            &&& !in_use.contains(packet.permit())
            &&& may_be_in_use(pool, in_use.push(packet.permit()))
            &&& packet.bytes().len() == pool.size()
            &&& forall|k: int| 0 <= k < pool.size() ==> #[trigger] packet.bytes()[k] == 0
        },
{
    let owners = choose|owners: Seq<usize>| #[trigger]
        pool.reports(owners) && pool.grants(owners, res);
    assert(counts_owners(pool, in_use, owners));
    law_pool_gives_out_what_is_left(pool, in_use, owners);
    if res is None {
        assert forall|i: int| 0 <= i < pool.packet_count() implies in_use.contains(
            #[trigger] pool.permits()[i],
        ) by {
            assert(!is_free(owners, i));
            assert(owners[i] != 1);
        }
    } else {
        let i = choose|i: int| #[trigger]
            is_first_free(owners, i) && res->0.permit() == pool.permits()[i];
        assert(is_free(owners, i));
        assert(owners[i] == 1);
    }
}

/// A packet from a [`HeapPool`].
pub struct HeapPacket {
    permit: Rc<Permit>,
    buf: Vec<u8>,
}

impl Packet for HeapPacket {
    closed spec fn bytes(&self) -> Seq<u8> {
        self.buf@
    }

    fn payload(&self) -> (payload: &[u8]) {
        self.buf.as_slice()
    }

    fn payload_mut(&mut self) -> (payload: &mut [u8])
        ensures
            final(self).permit() == old(self).permit(),
    {
        self.buf.as_mut_slice()
    }

    fn truncate(&mut self, size: usize)
        ensures
            final(self).permit() == old(self).permit(),
    {
        self.buf.truncate(size);
        assert(self.buf@ =~= old(self).buf@.take(size as int));
    }
}

impl HeapPacket {
    /// The permit that the packet holds.
    pub closed spec fn permit(self) -> Rc<Permit> {
        self.permit
    }

    /// Gives up exclusive access to the packet.
    pub fn into_ref(self) -> (res: HeapPacketRef)
        ensures
            res.packet() == self,
    {
        HeapPacketRef { pk: self }
    }

    /// Keeps exclusive access to the packet.
    pub fn into_ref_mut(self) -> (res: HeapPacketRefMut)
        ensures
            res.packet() == self,
    {
        HeapPacketRefMut { pk: self }
    }
}

/// Shared access to a [`HeapPacket`].
pub struct HeapPacketRef {
    pk: HeapPacket,
}

impl PacketRef for HeapPacketRef {
    type P = HeapPacket;

    closed spec fn packet(&self) -> HeapPacket {
        self.pk
    }

    fn payload(&self) -> (payload: &[u8]) {
        self.pk.payload()
    }

    fn try_into_packet(self) -> (res: Result<HeapPacket, HeapPacketRef>)
        ensures
            res is Ok,
    {
        Ok(self.pk)
    }
}

/// Exclusive access to a [`HeapPacket`].
pub struct HeapPacketRefMut {
    pk: HeapPacket,
}

impl PacketRefMut for HeapPacketRefMut {
    type P = HeapPacket;

    closed spec fn packet(&self) -> HeapPacket {
        self.pk
    }

    fn payload(&mut self) -> (payload: &mut [u8])
        ensures
            final(self).packet().permit() == old(self).packet().permit(),
    {
        self.pk.payload_mut()
    }

    fn into_packet(self) -> (packet: HeapPacket) {
        self.pk
    }

    fn truncate(&mut self, size: usize)
        ensures
            final(self).packet().permit() == old(self).packet().permit(),
    {
        self.pk.truncate(size)
    }
}

} // verus!
