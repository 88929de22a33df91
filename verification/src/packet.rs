//! The traits through which the decoder reaches its packets, the pool they come from and the
//! application they are handed to.

use vstd::prelude::*;
use vstd::std_specs::iter::IteratorSpec;

verus! {

/// How the decoder came by a packet.
#[derive(Debug, Clone, Copy, PartialEq, Eq, Structural)]
pub enum PacketStatus {
    /// The packet arrived from the network.
    Received,
    /// The packet was lost, and rebuilt from the packets that did arrive.
    Recovered,
}

/// `n` zero bytes.
pub open spec fn zeroes(n: nat) -> Seq<u8> {
    Seq::new(n, |i: int| 0u8)
}

/// A buffer holding one UDP payload.
pub trait Packet: Sized {
    /// The bytes of the packet.
    spec fn bytes(&self) -> Seq<u8>;

    /// The bytes of the packet.
    fn payload(&self) -> (payload: &[u8])
        ensures
            payload@ == self.bytes(),
    ;

    /// The bytes of the packet, for writing.
    fn payload_mut(&mut self) -> (payload: &mut [u8])
        ensures
            payload@ == old(self).bytes(),
            final(self).bytes() == final(payload)@,
    ;

    /// Shortens the packet to its first `size` bytes.
    fn truncate(&mut self, size: usize)
        requires
            0 < size <= old(self).bytes().len(),
        ensures
            final(self).bytes() == old(self).bytes().take(size as int),
    ;
}

/// The bytes alone.
impl Packet for Vec<u8> {
    open spec fn bytes(&self) -> Seq<u8> {
        self@
    }

    fn payload(&self) -> (payload: &[u8]) {
        self.as_slice()
    }

    fn payload_mut(&mut self) -> (payload: &mut [u8]) {
        self.as_mut_slice()
    }

    fn truncate(&mut self, size: usize) {
        Vec::truncate(self, size);
        assert(self@ =~= old(self)@.take(size as int));
    }
}

/// Shared access to a packet that can be turned back into the packet.
pub trait PacketRef: Sized {
    type P: Packet;

    /// The packet behind this reference.
    spec fn packet(&self) -> Self::P;

    /// The bytes of the packet.
    fn payload(&self) -> (payload: &[u8])
        ensures
            payload@ == self.packet().bytes(),
    ;

    /// Gives the packet back, or this reference where the packet is still in use elsewhere.
    fn try_into_packet(self) -> (res: Result<Self::P, Self>)
        ensures
            match res {
                Ok(packet) => packet == self.packet(),
                Err(same) => same == self,
            },
    ;
}

/// Exclusive access to a packet.
pub trait PacketRefMut: Sized {
    type P: Packet;

    /// The packet behind this reference.
    spec fn packet(&self) -> Self::P;

    /// The bytes of the packet, for writing.
    fn payload(&mut self) -> (payload: &mut [u8])
        ensures
            payload@ == old(self).packet().bytes(),
            final(self).packet().bytes() == final(payload)@,
    ;

    /// Gives the packet back.
    fn into_packet(self) -> (packet: Self::P)
        ensures
            packet == self.packet(),
    ;

    /// Shortens the packet to its first `size` bytes.
    fn truncate(&mut self, size: usize)
        requires
            0 < size <= old(self).packet().bytes().len(),
        ensures
            final(self).packet().bytes() == old(self).packet().bytes().take(size as int),
    ;
}

/// A supply of packets of one size.
pub trait BufferPool: Sized {
    type P: Packet;

    /// The length in bytes of every packet that the pool hands out.
    spec fn packet_size(&self) -> nat;

    /// Whether the pool may answer a request for a packet with `res`.
    spec fn may_allocate(&self, res: Option<Self::P>) -> bool;

    /// Takes a packet from the pool, or nothing where the pool is exhausted.
    fn allocate(&self) -> (res: Option<Self::P>)
        ensures
            self.may_allocate(res),
            res matches Some(packet) ==> packet.bytes().len() == self.packet_size(),
    ;
}

/// The application's end of the decoder.
pub trait Receiver<P: Packet>: Sized {
    /// Whether handing `packets` to the receiver in state `before` may leave it in state `after`.
    /// An application that has no use for this can leave it open.
    open spec fn received(before: Self, packets: Seq<(P, PacketStatus)>, after: Self) -> bool {
        true
    }

    /// Takes packets.
    fn receive<I: Iterator<Item = (P, PacketStatus)>>(&mut self, packets: I)
        requires
            packets.obeys_prophetic_iter_laws(),
        ensures
            Self::received(*old(self), packets.remaining(), *final(self)),
    ;
}

/// What a receiver in state `before` becomes when it is given `batch`, or is not called at all.
pub open spec fn handed_over<P: Packet, Recv: Receiver<P>>(
    before: Recv,
    batch: Option<Seq<(P, PacketStatus)>>,
    after: Recv,
) -> bool {
    match batch {
        Some(packets) => Recv::received(before, packets, after),
        None => after == before,
    }
}

/// A receiver that discards what it is given.
pub struct NilReceiver<P: Packet> {
    phantom: std::marker::PhantomData<P>,
}

impl<P: Packet> NilReceiver<P> {
    pub fn new() -> (receiver: NilReceiver<P>) {
        NilReceiver { phantom: std::marker::PhantomData }
    }
}

impl<P: Packet> Receiver<P> for NilReceiver<P> {
    open spec fn received(before: Self, packets: Seq<(P, PacketStatus)>, after: Self) -> bool {
        after == before
    }

    fn receive<I: Iterator<Item = (P, PacketStatus)>>(&mut self, _packets: I) {
    }
}

} // verus!
