//! A rolling window of packets with consecutive sequence numbers.

use crate::packet::{handed_over, NilReceiver, Packet, PacketStatus, Receiver};
use crate::sequence::{before, diff, next, range};
use crate::sequence::{lemma_seq_add_add, lemma_seq_add_diff, seq_add, seq_range};
use crate::window::{
    lemma_packets_in_placeholders, lemma_push_seq, lemma_pushes_out_ahead, packets_in, Window,
    SEQ_GONE_BACKWARDS_LIMIT,
};
use std::collections::VecDeque;
use vstd::prelude::*;

verus! {

/// Indexing a `VecDeque` mutably: an exclusive reference to the element at `index`, through which
/// that element alone changes.
#[verifier::external_body]
fn element_mut<T>(deque: &mut VecDeque<T>, index: usize) -> (element: &mut T)
    requires
        index < old(deque)@.len(),
    ensures
        *element == old(deque)@[index as int],
        final(deque)@ == old(deque)@.update(index as int, *final(element)),
{
    &mut deque[index]
}

/// An entry of the window.
pub struct SeqEntry<P: Packet> {
    seq: u16,
    pk: Option<(P, PacketStatus)>,
}

/// The most recent packets of a stream, in order, with placeholders for those that are missing.
/// Packets that leave the window go to the receiver.
pub struct PacketSequence<P: Packet, Recv: Receiver<P>> {
    size_limit: usize,
    packets: VecDeque<SeqEntry<P>>,
    recv: Recv,
    seq_gone_backwards_count: usize,
}

impl<P: Packet> PacketSequence<P, NilReceiver<P>> {
    /// A window without entries, and without a receiver.
    pub fn new(size_limit: usize) -> (res: PacketSequence<P, NilReceiver<P>>)
        ensures
            res.wf(),
            res@ == Window::<P>::with_limit(size_limit as nat),
            res@.limit == size_limit && res@.slots.len() == 0 && res@.early == 0,
    {
        Self::new_with_receiver(size_limit, NilReceiver::new())
    }
}

impl<P: Packet, Recv: Receiver<P>> View for PacketSequence<P, Recv> {
    type V = Window<P>;

    closed spec fn view(&self) -> Window<P> {
        Window {
            limit: self.size_limit as nat,
            start: if self.packets@.len() > 0 {
                self.packets@[0].seq
            } else {
                0
            },
            slots: Seq::new(self.packets@.len(), |i: int| self.packets@[i].pk),
            early: self.seq_gone_backwards_count as nat,
        }
    }
}

impl<P: Packet, Recv: Receiver<P>> PacketSequence<P, Recv> {
    /// The receiver that packets leaving the window are given to.
    pub closed spec fn receiver(self) -> Recv {
        self.recv
    }

    /// Every entry carries the sequence number that follows the one before it, the window keeps to
    /// its limit, and a restart of the sender is noticed in time.
    pub closed spec fn wf(self) -> bool {
        &&& self.consecutive()
        &&& self.packets@.len() <= self.size_limit
        &&& self.seq_gone_backwards_count < SEQ_GONE_BACKWARDS_LIMIT
        &&& self.packets@.len() == 0 ==> self.seq_gone_backwards_count == 0
    }

    spec fn consecutive(self) -> bool {
        forall|i: int|
            0 <= i < self.packets@.len() ==> (#[trigger] self.packets@[i]).seq == seq_add(
                self.packets@[0].seq,
                i,
            )
    }

    /// The window keeps to its limit.
    pub proof fn law_valid(self)
        requires
            self.wf(),
        ensures
            self@.valid(),
    {
    }

    /// A window without entries, which may have up to `size_limit`.
    pub fn new_with_receiver(size_limit: usize, recv: Recv) -> (res: PacketSequence<P, Recv>)
        ensures
            res.wf(),
            res@ == Window::<P>::with_limit(size_limit as nat),
            res@.limit == size_limit && res@.slots.len() == 0 && res@.early == 0,
            res.receiver() == recv,
    {
        let res = PacketSequence {
            size_limit,
            packets: VecDeque::new(),
            recv,
            seq_gone_backwards_count: 0,
        };
        assert(res@.slots =~= Seq::<Option<(P, PacketStatus)>>::empty());
        res
    }

    /// Gives the receiver back.
    pub fn dispose(self) -> (recv: Recv)
        ensures
            recv == self.receiver(),
    {
        self.recv
    }

    /// The sequence number of the first entry.
    pub fn front_seq(&self) -> (res: Option<u16>)
        ensures
            res == self@.front(),
            res is Some <==> self@.slots.len() > 0,
            res matches Some(seq) ==> seq == self@.start,
    {
        if self.packets.len() == 0 {
            None
        } else {
            Some(self.packets[0].seq)
        }
    }

    /// The sequence number of the last entry.
    fn back_seq(&self) -> (res: Option<u16>)
        requires
            self.consecutive(),
        ensures
            res == self@.back(),
    {
        let len: usize = self.packets.len();
        if len == 0 {
            None
        } else {
            Some(self.packets[len - 1].seq)
        }
    }

    /// The number of entries, placeholders included.
    pub fn len(&self) -> (len: usize)
        ensures
            len == self@.slots.len(),
    {
        self.packets.len()
    }

    /// The sequence number of the entry at `index`, and its packet where that is present.
    pub fn entry(&self, index: usize) -> (res: (u16, Option<&(P, PacketStatus)>))
        requires
            self.wf(),
            index < self@.slots.len(),
        ensures
            res.0 == self@.seq_at(index as int),
            res.0 == (self@.start + index) % 0x1_0000,
            match res.1 {
                Some(packet) => self@.slots[index as int] == Some(*packet),
                None => self@.slots[index as int] is None,
            },
    {
        let entry = &self.packets[index];
        (entry.seq, entry.pk.as_ref())
    }

    /// The index of the entry for a sequence number.
    fn index_of(&self, seq: u16) -> (res: Option<usize>)
        requires
            self.consecutive(),
        ensures
            match res {
                Some(index) => self@.index_of(seq) == Some(index as int),
                None => self@.index_of(seq) is None,
            },
    {
        let base: u16 = match self.front_seq() {
            Some(base) => base,
            None => {
                return None;
            },
        };
        let delta: i32 = diff(seq, base);
        if delta >= 0 && (delta as usize) < self.packets.len() {
            Some(delta as usize)
        } else {
            None
        }
    }

    /// The packet with the given sequence number, where it is present.
    pub fn get_by_seq(&self, seq: u16) -> (res: Option<&(P, PacketStatus)>)
        requires
            self.wf(),
        ensures
            match res {
                Some(packet) => self@.get(seq) == Some(*packet),
                None => self@.get(seq) is None,
            },
    {
        if let Some(index) = self.index_of(seq) {
            self.packets[index].pk.as_ref()
        } else {
            None
        }
    }

    /// The entry for the given sequence number.
    fn get_mut_by_seq(&mut self, seq: u16) -> (res: Option<&mut SeqEntry<P>>)
        requires
            old(self).consecutive(),
        ensures
            match res {
                Some(entry) => {
                    &&& old(self)@.index_of(seq) matches Some(index)
                    &&& *entry == old(self).packets@[index]
                    &&& entry.seq == seq
                    &&& final(self).packets@ == old(self).packets@.update(index, *final(entry))
                },
                None => {
                    &&& old(self)@.index_of(seq) is None
                    &&& final(self).packets@ == old(self).packets@
                },
            },
            final(self).size_limit == old(self).size_limit,
            final(self).recv == old(self).recv,
            final(self).seq_gone_backwards_count == old(self).seq_gone_backwards_count,
    {
        if let Some(index) = self.index_of(seq) {
            proof {
                lemma_seq_add_diff(seq, self.packets@[0].seq);
            }
            Some(element_mut(&mut self.packets, index))
        } else {
            None
        }
    }

    /// Takes the first `count` entries off the window, and returns the packets among them.
    fn drain_front(&mut self, count: usize) -> (res: Vec<(P, PacketStatus)>)
        requires
            old(self).consecutive(),
            count <= old(self).packets@.len(),
        ensures
            final(self).consecutive(),
            final(self)@ == old(self)@.skip(count as int),
            final(self).recv == old(self).recv,
            res@ == packets_in(old(self)@.slots.take(count as int)),
    {
        let mut drained: Vec<(P, PacketStatus)> = Vec::new();
        let ghost entries = self.packets@;
        let ghost slots = self@.slots;
        let mut i: usize = 0;
        while i < count
            invariant
                i <= count <= entries.len(),
                entries == old(self).packets@,
                slots == old(self)@.slots,
                self.packets@ == entries.skip(i as int),
                self.recv == old(self).recv,
                self.size_limit == old(self).size_limit,
                self.seq_gone_backwards_count == old(self).seq_gone_backwards_count,
                drained@ == packets_in(slots.take(i as int)),
            decreases count - i,
        {
            let front = self.packets.pop_front();
            assert(slots.take(i + 1).drop_last() =~= slots.take(i as int));
            assert(slots.take(i + 1).last() == slots[i as int]);
            assert(slots[i as int] == entries[i as int].pk);
            assert(self.packets@ =~= entries.skip(i + 1));
            if let Some(entry) = front {
                assert(entry == entries[i as int]);
                if let Some(packet) = entry.pk {
                    drained.push(packet);
                }
            }
            i += 1;
        }
        proof {
            assert(self@.slots =~= old(self)@.slots.skip(count as int));
            assert forall|k: int| 0 <= k < self.packets@.len() implies (
            #[trigger] self.packets@[k]).seq == seq_add(self.packets@[0].seq, k) by {
                assert(self.packets@[k] == entries[count + k]);
                assert(self.packets@[0] == entries[count as int]);
                lemma_seq_add_add(entries[0].seq, count as int, k);
            }
        }
        drained
    }

    /// Hands all packets over, so that the window can start anew.
    fn reset(&mut self)
        requires
            old(self).consecutive(),
        ensures
            final(self).consecutive(),
            final(self)@ == old(self)@.cleared(),
            handed_over(old(self).recv, Some(packets_in(old(self)@.slots)), final(self).recv),
    {
        let count: usize = self.packets.len();
        assert(self@.slots.take(count as int) =~= self@.slots);
        let drained = self.drain_front(count);
        self.seq_gone_backwards_count = 0;
        self.recv.receive(drained.into_iter());
        assert(self@ =~= old(self)@.cleared());
    }

    /// Hands over the packets that have become too old now that `seq_new` has arrived.
    fn remove_outdated(&mut self, seq_new: u16, seq_base: u16)
        requires
            old(self).consecutive(),
            old(self)@.front() == Some(seq_base),
        ensures
            final(self).consecutive(),
            final(self)@ == old(self)@.skip(old(self)@.outdated(seq_new)),
            handed_over(
                old(self).recv,
                if old(self)@.pushes_out(seq_new) {
                    Some(packets_in(old(self)@.slots.take(old(self)@.outdated(seq_new))))
                } else {
                    None
                },
                final(self).recv,
            ),
    {
        let seq_delta: i32 = diff(seq_new, seq_base);
        if seq_delta > 0 && seq_delta as usize >= self.size_limit {
            // last index inclusive to be removed (so '0' means just remove the first item)
            let to_remove: usize = seq_delta as usize - self.size_limit;
            let count: usize = if to_remove >= self.packets.len() {
                self.packets.len()
            } else {
                to_remove + 1
            };
            let drained = self.drain_front(count);
            self.recv.receive(drained.into_iter());
        } else {
            assert(self@ =~= self@.skip(0));
        }
    }

    /// Adds placeholders for the sequence numbers between the last entry and `seq`.
    fn fill_gap(&mut self, last_seq: u16, seq: u16)
        requires
            old(self).consecutive(),
            old(self)@.back() == Some(last_seq),
        ensures
            final(self).consecutive(),
            final(self)@ == old(self)@.fill(seq),
            final(self).recv == old(self).recv,
    {
        let missing = range(next(last_seq), seq);
        let ghost entries = self.packets@;
        let mut i: usize = 0;
        while i < missing.len()
            invariant
                i <= missing@.len(),
                missing@ == seq_range(seq_add(last_seq, 1), seq),
                entries == old(self).packets@,
                entries.len() > 0,
                old(self).consecutive(),
                last_seq == seq_add(entries[0].seq, entries.len() - 1),
                self.consecutive(),
                self.packets@.len() == entries.len() + i,
                forall|k: int| 0 <= k < entries.len() ==> self.packets@[k] == entries[k],
                forall|k: int|
                    entries.len() <= k < self.packets@.len() ==> (#[trigger] self.packets@[k]).pk
                        is None,
                self.recv == old(self).recv,
                self.size_limit == old(self).size_limit,
                self.seq_gone_backwards_count == old(self).seq_gone_backwards_count,
            decreases missing@.len() - i,
        {
            proof {
                lemma_seq_add_add(last_seq, 1, i as int);
                lemma_seq_add_add(entries[0].seq, entries.len() - 1, 1 + i as int);
            }
            self.packets.push_back(SeqEntry { seq: missing[i], pk: None });
            i += 1;
        }
        assert(self@ =~= old(self)@.fill(seq));
    }

    /// Whether the window keeps to its limit when a packet with the given sequence number is
    /// inserted.
    pub fn fits(&self, seq: u16) -> (res: bool)
        requires
            self.wf(),
        ensures
            res == self@.admits(seq),
    {
        let len: usize = self.packets.len();
        let (base, last): (u16, u16) = match (self.front_seq(), self.back_seq()) {
            (Some(base), Some(last)) => (base, last),
            _ => {
                assert(self@.skip(0).slots.len() == 0);
                return 1 <= self.size_limit;
            },
        };
        let delta: i32 = diff(seq, base);
        let room: usize = if delta > 0 && delta as usize >= self.size_limit {
            let to_remove: usize = delta as usize - self.size_limit;
            if to_remove >= len {
                len
            } else {
                to_remove + 1
            }
        } else {
            0
        };
        let ghost rest = self@.skip(self@.outdated(seq));
        let left: usize = len - room;
        if left == 0 {
            return 1 <= self.size_limit;
        }
        let expected: u16 = next(last);
        let gap: usize = if before(expected, seq) {
            (-diff(expected, seq)) as usize
        } else {
            0
        };
        proof {
            lemma_seq_add_add(base, room as int, left - 1);
            if self@.pushes_out(seq) {
                lemma_pushes_out_ahead(self@, seq);
            }
            assert(rest.back() == Some(last));
            assert(rest.fill(seq).slots.len() == left + gap);
        }
        if before(last, seq) {
            gap < self.size_limit - left
        } else if delta < 0 || (delta as usize >= left && delta as usize - left >= gap) {
            assert(rest.start == base);
            self.seq_gone_backwards_count + 1 >= SEQ_GONE_BACKWARDS_LIMIT || gap <= self.size_limit
                - left
        } else {
            gap <= self.size_limit - left
        }
    }

    /// Inserts a packet.
    ///
    /// Gaps before it are filled with placeholders, and entries that have become too old leave the
    /// window for the receiver.  A packet with a sequence number that is 'too early' is dropped.
    /// That alone could mean that if the sequence numbers are reset by the sender (e.g. the sender
    /// is restarted), then all packets would be dropped until the sender gets to this point in the
    /// sequence again.  Therefore, after `SEQ_GONE_BACKWARDS_LIMIT` packets in a row that were too
    /// early, the sender is assumed to have restarted and the whole window is handed over, so that
    /// the new sequence can start with the next packet.
    pub fn insert(&mut self, seq: u16, pk: P, pk_status: PacketStatus)
        requires
            old(self).wf(),
            old(self)@.admits(seq),
        ensures
            final(self).wf(),
            final(self)@ == old(self)@.insert(seq, (pk, pk_status)),
            handed_over(
                old(self).receiver(),
                old(self)@.hands_over(seq),
                final(self).receiver(),
            ),
    {
        if let Some(base_seq) = self.front_seq() {
            self.remove_outdated(seq, base_seq);
        } else {
            assert(self@ =~= self@.skip(0));
        }
        let ghost rest = self@;
        proof {
            if old(self)@.pushes_out(seq) && rest.slots.len() > 0 {
                lemma_pushes_out_ahead(old(self)@, seq);
            }
            if rest.slots.len() > 0 {
                lemma_packets_in_placeholders(
                    rest.slots,
                    seq_range(seq_add(rest.back()->0, 1), seq).len(),
                );
            }
            if !old(self)@.pushes_out(seq) {
                assert(old(self)@.slots.skip(0) =~= old(self)@.slots);
            }
        }
        if let Some(last_seq) = self.back_seq() {
            // fill any gaps in the sequence with placeholders,
            self.fill_gap(last_seq, seq);
            let ghost filled = self@;
            if before(last_seq, seq) {
                self.seq_gone_backwards_count = 0;
                let entry = SeqEntry { seq, pk: Some((pk, pk_status)) };
                proof {
                    lemma_push_seq(rest, seq);
                }
                self.packets.push_back(entry);
                assert(self@ =~= old(self)@.insert(seq, (pk, pk_status)));
            } else if let Some(p) = self.get_mut_by_seq(seq) {
                p.pk = Some((pk, pk_status));
                self.seq_gone_backwards_count = 0;
                assert(self@ =~= old(self)@.insert(seq, (pk, pk_status)));
            } else {
                self.seq_gone_backwards_count += 1;
                if self.seq_gone_backwards_count >= SEQ_GONE_BACKWARDS_LIMIT {
                    self.reset();
                }
                assert(self@ =~= old(self)@.insert(seq, (pk, pk_status)));
            }
        } else {
            self.packets.push_back(SeqEntry { seq, pk: Some((pk, pk_status)) });
            assert(self@ =~= old(self)@.insert(seq, (pk, pk_status)));
        }
    }
}

} // verus!
