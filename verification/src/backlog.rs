//! Recovered packets that are waiting to be inserted.

use vstd::prelude::*;

verus! {

/// The most packets that may be waiting.
///
/// This is an arbitrary upper-limit on the backlog of recovered packets that can be created due to
/// insertion of one media packet causing two additional media packets to be recovered.
pub const BACKLOG_LIMIT: usize = 10;

/// An `arrayvec::ArrayVec` of packets.
#[verifier::external_body]
#[verifier::reject_recursive_types(P)]
struct PacketStack<P> {
    packets: arrayvec::ArrayVec<[P; 10]>,
}

/// A stack of at most [`BACKLOG_LIMIT`] recovered packets.
#[verifier::reject_recursive_types(P)]
pub struct Backlog<P> {
    stack: PacketStack<P>,
    contents: Ghost<Seq<P>>,
}

impl<P> View for Backlog<P> {
    type V = Seq<P>;

    closed spec fn view(&self) -> Seq<P> {
        self.contents@
    }
}

impl<P> Backlog<P> {
    /// `arrayvec::ArrayVec::new`: nothing is on the stack.
    #[verifier::external_body]
    pub(crate) fn new() -> (res: Backlog<P>)
        ensures
            res@ == Seq::<P>::empty(),
    {
        Backlog { stack: PacketStack { packets: arrayvec::ArrayVec::new() }, contents: Ghost(Seq::empty()) }
    }

    /// `arrayvec::ArrayVec::try_push`: puts `packet` on top of the stack, or gives it back where
    /// the stack is full.
    #[verifier::external_body]
    pub(crate) fn try_push(&mut self, packet: P) -> (res: Result<(), P>)
        ensures
            match res {
                Ok(()) => old(self)@.len() < BACKLOG_LIMIT && final(self)@ == old(self)@.push(
                    packet,
                ),
                Err(same) => old(self)@.len() >= BACKLOG_LIMIT && final(self)@ == old(self)@ && same
                    == packet,
            },
    {
        self.stack.packets.try_push(packet).map_err(|full| full.element())
    }

    /// `arrayvec::ArrayVec::pop`: takes the packet on top off the stack.
    #[verifier::external_body]
    pub(crate) fn pop(&mut self) -> (res: Option<P>)
        ensures
            match res {
                Some(packet) => {
                    &&& old(self)@.len() > 0
                    &&& packet == old(self)@.last()
                    &&& final(self)@ == old(self)@.drop_last()
                },
                None => old(self)@.len() == 0 && final(self)@ == old(self)@,
            },
    {
        self.stack.packets.pop()
    }
}

} // verus!
