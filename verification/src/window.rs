//! What a rolling window of packets with consecutive sequence numbers holds, and how it changes.

use crate::packet::{Packet, PacketStatus};
use crate::sequence::{
    lemma_seq_add_add, lemma_seq_add_diff, seq_add, seq_diff, seq_lt, seq_range,
};
use vstd::prelude::*;

verus! {

/// How many packets in a row may be too early for the window before the sender is taken to have
/// restarted.
pub const SEQ_GONE_BACKWARDS_LIMIT: usize = 64;

/// The packets in `slots`, in order, leaving out the placeholders.
pub open spec fn packets_in<T>(slots: Seq<Option<T>>) -> Seq<T>
    decreases slots.len(),
{
    if slots.len() == 0 {
        Seq::empty()
    } else {
        match slots.last() {
            Some(packet) => packets_in(slots.drop_last()).push(packet),
            None => packets_in(slots.drop_last()),
        }
    }
}

/// What a [`PacketSequence`] holds.
#[verifier::ext_equal]
pub struct Window<P> {
    /// The most entries that the window may have.
    pub limit: nat,
    /// The sequence number of the first entry; `0` where there is none.
    pub start: u16,
    /// The entries, of which the one at index `i` belongs to the sequence number `i` places after
    /// `start`.  `None` is a placeholder for a packet that is missing.
    pub slots: Seq<Option<(P, PacketStatus)>>,
    /// How many packets in a row have been too early for the window.
    pub early: nat,
}

impl<P> Window<P> {
    /// The window without entries that may have up to `limit`.
    pub open spec fn with_limit(limit: nat) -> Window<P> {
        Window { limit, start: 0, slots: Seq::empty(), early: 0 }
    }

    /// The sequence number of the entry at index `i`.
    pub open spec fn seq_at(self, i: int) -> u16 {
        seq_add(self.start, i)
    }

    pub open spec fn front(self) -> Option<u16> {
        if self.slots.len() > 0 {
            Some(self.start)
        } else {
            None
        }
    }

    pub open spec fn back(self) -> Option<u16> {
        if self.slots.len() > 0 {
            Some(self.seq_at(self.slots.len() - 1))
        } else {
            None
        }
    }

    /// The index of the entry for `seq`, looked for at most half a turn after the first entry.
    pub open spec fn index_of(self, seq: u16) -> Option<int> {
        let index = seq_diff(seq, self.start);
        if 0 <= index < self.slots.len() {
            Some(index)
        } else {
            None
        }
    }

    /// The packet with the given sequence number, where it is present.
    pub open spec fn get(self, seq: u16) -> Option<(P, PacketStatus)> {
        match self.index_of(seq) {
            Some(index) => self.slots[index],
            None => None,
        }
    }

    /// Whether `seq` lies so far ahead that the oldest entries have to make room for it.
    pub open spec fn pushes_out(self, seq: u16) -> bool {
        &&& self.slots.len() > 0
        &&& seq_diff(seq, self.start) > 0
        &&& seq_diff(seq, self.start) >= self.limit
    }

    /// How many of the oldest entries make room for `seq`.
    pub open spec fn outdated(self, seq: u16) -> int {
        let count = seq_diff(seq, self.start) - self.limit + 1;
        if !self.pushes_out(seq) {
            0
        } else if count > self.slots.len() {
            self.slots.len() as int
        } else {
            count
        }
    }

    /// The window without its first `n` entries.
    pub open spec fn skip(self, n: int) -> Window<P> {
        Window {
            start: if n < self.slots.len() {
                seq_add(self.start, n)
            } else {
                0
            },
            slots: self.slots.skip(n),
            ..self
        }
    }

    /// The window with placeholders added for the sequence numbers between its last entry and
    /// `seq`.
    pub open spec fn fill(self, seq: u16) -> Window<P> {
        let gap = seq_range(seq_add(self.back()->0, 1), seq);
        Window { slots: self.slots + Seq::new(gap.len(), |i: int| None), ..self }
    }

    /// The window without entries.
    pub open spec fn cleared(self) -> Window<P> {
        Window { start: 0, slots: Seq::empty(), early: 0, ..self }
    }

    /// Whether inserting `seq` makes the window conclude that the sender has restarted.
    pub open spec fn restarts(self, seq: u16) -> bool {
        let rest = self.skip(self.outdated(seq));
        &&& rest.slots.len() > 0
        &&& !seq_lt(rest.back()->0, seq)
        &&& rest.fill(seq).index_of(seq) is None
        &&& rest.early + 1 >= SEQ_GONE_BACKWARDS_LIMIT
    }

    /// The window after `packet` has arrived with the sequence number `seq`.
    pub open spec fn insert(self, seq: u16, packet: (P, PacketStatus)) -> Window<P> {
        let rest = self.skip(self.outdated(seq));
        if rest.slots.len() == 0 {
            Window { start: seq, slots: seq![Some(packet)], ..rest }
        } else {
            let filled = rest.fill(seq);
            if seq_lt(rest.back()->0, seq) {
                Window { slots: filled.slots.push(Some(packet)), early: 0, ..filled }
            } else {
                match filled.index_of(seq) {
                    Some(index) => Window {
                        slots: filled.slots.update(index, Some(packet)),
                        early: 0,
                        ..filled
                    },
                    None => if self.restarts(seq) {
                        filled.cleared()
                    } else {
                        Window { early: rest.early + 1, ..filled }
                    },
                }
            }
        }
    }

    /// The packets that leave the window for the receiver when `seq` is inserted; `None` where the
    /// receiver is not called.
    pub open spec fn hands_over(self, seq: u16) -> Option<Seq<(P, PacketStatus)>> {
        if self.pushes_out(seq) {
            Some(packets_in(self.slots.take(self.outdated(seq))))
        } else if self.restarts(seq) {
            Some(packets_in(self.slots))
        } else {
            None
        }
    }

    /// Whether the window could have come about: it keeps to its limit, and a restart of the sender
    /// is noticed in time.
    pub open spec fn valid(self) -> bool {
        &&& self.slots.len() <= self.limit
        &&& self.early < SEQ_GONE_BACKWARDS_LIMIT
        &&& self.slots.len() == 0 ==> self.start == 0 && self.early == 0
    }

    /// Whether `f` holds of every packet in the window.
    pub open spec fn every(self, f: spec_fn(P) -> bool) -> bool {
        forall|i: int| 0 <= i < self.slots.len() ==> match #[trigger] self.slots[i] {
            Some((packet, _)) => f(packet),
            None => true,
        }
    }

    /// Whether every packet in the window stands under its own number.
    pub open spec fn aligned(self, number: spec_fn(P) -> u16) -> bool {
        forall|i: int| 0 <= i < self.slots.len() ==> match #[trigger] self.slots[i] {
            Some((packet, _)) => number(packet) == self.seq_at(i),
            None => true,
        }
    }

    /// Whether `seq` comes before the first entry.
    pub open spec fn too_early(self, seq: u16) -> bool {
        self.slots.len() > 0 && seq_lt(seq, self.start)
    }

    /// Where a packet with the sequence number `seq` belongs among the entries; the end of the
    /// entries where it comes after all of them.
    pub open spec fn position(self, seq: u16) -> int {
        match self.index_of(seq) {
            Some(index) => index,
            None => self.slots.len() as int,
        }
    }

    /// The packets that the receiver gets when `seq` is inserted.
    pub open spec fn released(self, seq: u16) -> Seq<(P, PacketStatus)> {
        match self.hands_over(seq) {
            Some(packets) => packets,
            None => Seq::empty(),
        }
    }

    /// The window after the `arrivals`, one after the other.
    pub open spec fn insert_all(self, arrivals: Seq<(u16, (P, PacketStatus))>) -> Window<P>
        decreases arrivals.len(),
    {
        if arrivals.len() == 0 {
            self
        } else {
            self.insert_all(arrivals.drop_last()).insert(arrivals.last().0, arrivals.last().1)
        }
    }

    /// The packets that the receiver gets over the `arrivals`.
    pub open spec fn released_all(self, arrivals: Seq<(u16, (P, PacketStatus))>) -> Seq<
        (P, PacketStatus),
    >
        decreases arrivals.len(),
    {
        if arrivals.len() == 0 {
            Seq::empty()
        } else {
            let before = arrivals.drop_last();
            self.released_all(before) + self.insert_all(before).released(arrivals.last().0)
        }
    }

    /// The packets that the receiver gets over the `arrivals`, and then those that are left in the
    /// window.
    pub open spec fn gathered(self, arrivals: Seq<(u16, (P, PacketStatus))>) -> Seq<
        (P, PacketStatus),
    > {
        self.released_all(arrivals) + packets_in(self.insert_all(arrivals).slots)
    }

    /// Whether the window does not drop the packet at index `k` of the `arrivals`.
    pub open spec fn keeps(self, arrivals: Seq<(u16, (P, PacketStatus))>, k: int) -> bool {
        !self.insert_all(arrivals.take(k)).too_early(arrivals[k].0)
    }

    /// Whether the window does not conclude that the sender has restarted while the `arrivals` are
    /// inserted.
    pub open spec fn goes_on(self, arrivals: Seq<(u16, (P, PacketStatus))>) -> bool {
        forall|k: int|
            0 <= k < arrivals.len() ==> !self.insert_all(#[trigger] arrivals.take(k)).restarts(
                arrivals[k].0,
            )
    }

    /// Whether the window keeps to its limit when `seq` is inserted.
    pub open spec fn admits(self, seq: u16) -> bool {
        let rest = self.skip(self.outdated(seq));
        if rest.slots.len() == 0 {
            1 <= self.limit
        } else if seq_lt(rest.back()->0, seq) {
            rest.fill(seq).slots.len() + 1 <= self.limit
        } else {
            self.restarts(seq) || rest.fill(seq).slots.len() <= self.limit
        }
    }
}

/// An entry with the bytes of its packet in place of the packet.
pub open spec fn slot_contents<P: Packet>(slot: Option<(P, PacketStatus)>) -> Option<
    (Seq<u8>, PacketStatus),
> {
    match slot {
        Some((packet, status)) => Some((packet.bytes(), status)),
        None => None,
    }
}

impl<P: Packet> Window<P> {
    /// The window with the bytes of the packets in place of the packets.
    pub open spec fn contents(self) -> Window<Seq<u8>> {
        Window {
            limit: self.limit,
            start: self.start,
            slots: Seq::new(self.slots.len(), |i: int| slot_contents(self.slots[i])),
            early: self.early,
        }
    }
}

/// What a window holds can be told from the bytes of the packets alone.
pub(crate) proof fn lemma_contents_insert<P: Packet>(
    window: Window<P>,
    seq: u16,
    packet: (P, PacketStatus),
)
    ensures
        window.contents().admits(seq) == window.admits(seq),
        window.insert(seq, packet).contents() == window.contents().insert(
            seq,
            (packet.0.bytes(), packet.1),
        ),
{
    let n = window.outdated(seq);
    let rest = window.skip(n);
    let contents = window.contents();
    assert(rest.contents() =~= contents.skip(n));
    if rest.slots.len() > 0 {
        assert(rest.fill(seq).contents() =~= contents.skip(n).fill(seq));
    }
    assert(window.insert(seq, packet).contents() =~= contents.insert(
        seq,
        (packet.0.bytes(), packet.1),
    ));
}

/// Where entries have made room for `seq`, it comes after all that are left.
pub(crate) proof fn lemma_pushes_out_ahead<P>(window: Window<P>, seq: u16)
    requires
        window.slots.len() <= window.limit,
        window.pushes_out(seq),
        window.outdated(seq) < window.slots.len(),
    ensures
        seq_lt(window.skip(window.outdated(seq)).back()->0, seq),
{
    let len = window.slots.len() as int;
    let n = window.outdated(seq);
    let delta = seq_diff(seq, window.start);
    lemma_seq_add_diff(seq, window.start);
    lemma_seq_add_add(window.start, n, len - n - 1);
    assert(0 < delta - (len - 1) < 0x8000);
    assert(seq_add(window.start, len - 1) == window.skip(n).back()->0);
}

/// Placeholders contribute no packets.
pub(crate) proof fn lemma_packets_in_placeholders<T>(slots: Seq<Option<T>>, n: nat)
    ensures
        packets_in(slots + Seq::new(n, |i: int| None)) == packets_in(slots),
    decreases n,
{
    let filled = slots + Seq::new(n, |i: int| None::<T>);
    if n == 0 {
        assert(filled =~= slots);
    } else {
        lemma_packets_in_placeholders(slots, (n - 1) as nat);
        assert(filled.drop_last() =~= slots + Seq::new((n - 1) as nat, |i: int| None::<T>));
    }
}

/// The entry that follows a gap filled up to `seq` is the one for `seq`.
pub(crate) proof fn lemma_push_seq<P>(rest: Window<P>, seq: u16)
    requires
        rest.slots.len() > 0,
        seq_lt(rest.back()->0, seq),
    ensures
        rest.fill(seq).seq_at(rest.fill(seq).slots.len() as int) == seq,
{
}

/// What the entries that are left start with when some make room for `seq`, and whether `seq`
/// comes after them.
#[verifier::rlimit(30)]
pub(crate) proof fn lemma_rest<P>(window: Window<P>, seq: u16)
    requires
        window.valid(),
        window.limit < 0x8000,
        window.slots.len() > 0,
        !window.too_early(seq),
    ensures
        ({
            let delta = seq_diff(seq, window.start);
            let n = window.outdated(seq);
            let rest = window.skip(n);
            &&& 0 <= n <= window.slots.len()
            &&& delta < window.slots.len() ==> n == 0
            &&& rest.slots.len() > 0 ==> {
                &&& rest.start == seq_add(window.start, n)
                &&& seq_diff(seq, rest.start) == delta - n
                &&& seq_lt(rest.back()->0, seq) <==> delta >= window.slots.len()
                &&& rest.fill(seq).slots.len() == if delta >= window.slots.len() {
                    delta - n
                } else {
                    window.slots.len() as int
                }
            }
        }),
{
    let len = window.slots.len() as int;
    let delta = seq_diff(seq, window.start);
    let n = window.outdated(seq);
    let rest = window.skip(n);
    lemma_seq_add_diff(seq, window.start);
    if n < len {
        lemma_seq_add_add(window.start, n, len - n - 1);
        lemma_seq_add_add(window.start, len - 1, 1);
        assert(rest.back() == Some(seq_add(window.start, len - 1)));
        assert(seq_diff(seq_add(window.start, len - 1), seq) == len - 1 - delta);
        assert(seq_diff(seq_add(window.start, len), seq) == len - delta);
    }
}

/// A packet is stored unless it comes before the first entry, and can then be read back.  Whatever
/// is inserted, the window keeps to its limit.
pub proof fn law_insert_reads_back<P>(window: Window<P>, seq: u16, packet: (P, PacketStatus))
    requires
        window.valid(),
        window.limit < 0x8000,
        window.admits(seq),
    ensures
        window.insert(seq, packet).valid(),
        window.insert(seq, packet).get(seq) == if window.too_early(seq) {
            None
        } else {
            Some(packet)
        },
{
    if window.slots.len() > 0 && !window.too_early(seq) {
        lemma_rest(window, seq);
    }
}

/// What the window makes of a sequence number that comes before its first entry.
pub(crate) proof fn lemma_early<P>(window: Window<P>, seq: u16)
    requires
        window.valid(),
        window.limit < 0x8000,
        window.too_early(seq),
        window.slots.len() - seq_diff(seq, window.start) <= 0x8000,
    ensures
        window.outdated(seq) == 0,
        window.skip(0) == window,
        !seq_lt(window.back()->0, seq),
        window.fill(seq).index_of(seq) is None,
        window.fill(seq).slots.len() == if window.slots.len() - seq_diff(seq, window.start)
            == 0x8000 {
            window.slots.len() + 0x8000
        } else {
            window.slots.len()
        },
        window.slots.len() - seq_diff(seq, window.start) < 0x8000 ==> window.fill(seq) == window,
{
    let len = window.slots.len() as int;
    lemma_seq_add_diff(seq, window.start);
    lemma_seq_add_add(window.start, len - 1, 1);
    assert(window.slots.skip(0) =~= window.slots);
    assert(seq_add(window.start, 0) == window.start);
    if len - seq_diff(seq, window.start) < 0x8000 {
        assert(window.fill(seq).slots =~= window.slots);
    }
}

/// The window is in danger of outgrowing its limit only where a sequence number comes about half a
/// turn before its first entry, so that it might as well come after the last.
pub proof fn law_admits<P>(window: Window<P>, seq: u16)
    requires
        window.valid(),
        0 < window.limit < 0x8000,
    ensures
        window.admits(seq) <==> {
            let ahead = window.slots.len() - seq_diff(seq, window.start);
            ||| !window.too_early(seq)
            ||| ahead < 0x8000
            ||| ahead == 0x8000 && window.early + 1 >= SEQ_GONE_BACKWARDS_LIMIT
        },
{
    let len = window.slots.len() as int;
    let delta = seq_diff(seq, window.start);
    if len > 0 {
        if !window.too_early(seq) {
            lemma_rest(window, seq);
        } else if len - delta <= 0x8000 {
            lemma_early(window, seq);
        } else {
            lemma_seq_add_diff(seq, window.start);
            lemma_seq_add_add(window.start, len - 1, 1);
            assert(window.slots.skip(0) =~= window.slots);
            assert(seq_add(window.start, 0) == window.start);
            assert(seq_diff(window.back()->0, seq) == len - 1 - delta - 0x1_0000);
        }
    }
}

/// Inserting a packet leaves the other packets in their places, except for those that leave the
/// window.
#[verifier::rlimit(30)]
pub proof fn law_insert_keeps_others<P>(
    window: Window<P>,
    seq: u16,
    packet: (P, PacketStatus),
    other: u16,
)
    requires
        window.valid(),
        window.limit < 0x8000,
        window.admits(seq),
        other != seq,
    ensures
        window.insert(seq, packet).get(other) == if window.restarts(seq) || window.position(other)
            < window.outdated(seq) {
            None
        } else {
            window.get(other)
        },
{
    law_admits(window, seq);
    let len = window.slots.len() as int;
    let n = window.outdated(seq);
    lemma_seq_add_diff(other, window.start);
    lemma_seq_add_diff(seq, window.start);
    if len > 0 {
        if !window.too_early(seq) {
            lemma_rest(window, seq);
            let after = window.insert(seq, packet);
            if n < len {
                assert(after.start == seq_add(window.start, n));
            }
        } else {
            lemma_early(window, seq);
        }
    }
}

/// What a window is for: it holds the packets with the most recent numbers, as many numbers as its
/// limit says.  A packet in it stays while packets are inserted whose numbers lie less than the
/// limit after its own, and leaves with the first that lies farther after it.  Packets that come
/// before the first entry leave it alone, but for the sixty-fourth in a row.
pub proof fn law_window_holds_the_most_recent<P>(
    window: Window<P>,
    seq: u16,
    packet: (P, PacketStatus),
    other: u16,
)
    requires
        window.valid(),
        0 < window.limit < 0x8000,
        window.admits(seq),
        other != seq,
    ensures
        window.insert(seq, packet).get(other) == match window.get(other) {
            Some(held) => if seq_diff(seq, window.start) < 0 {
                if window.early >= 63 {
                    None
                } else {
                    Some(held)
                }
            } else if seq_diff(seq, other) < window.limit {
                Some(held)
            } else {
                None
            },
            None => None,
        },
        window.insert(seq, packet).limit == window.limit,
{
    law_admits(window, seq);
    law_insert_keeps_others(window, seq, packet, other);
    let len = window.slots.len() as int;
    if len > 0 {
        if window.too_early(seq) {
            lemma_early(window, seq);
        } else {
            lemma_rest(window, seq);
            if window.get(other) is Some {
                assert(seq_diff(seq, other) == seq_diff(seq, window.start) - seq_diff(
                    other,
                    window.start,
                ));
            }
        }
    }
}

/// What is counted towards a restart of the sender: packets in a row that come before the first
/// entry.  Any other packet that finds entries left in the window ends the row.
pub proof fn law_early_packets_are_counted<P>(window: Window<P>, seq: u16, packet: (P, PacketStatus))
    requires
        window.valid(),
        0 < window.limit < 0x8000,
        window.admits(seq),
        window.slots.len() > 0,
    ensures
        ({
            let after = window.insert(seq, packet);
            if seq_diff(seq, window.start) < 0 {
                &&& window.early < 63 ==> after.early == window.early + 1
                &&& window.early >= 63 ==> after.early == 0 && after.slots.len() == 0
            } else if seq_diff(seq, window.start) < window.limit + window.slots.len() - 1 {
                after.early == 0
            } else {
                after.early == window.early
            }
        }),
{
    law_admits(window, seq);
    if window.too_early(seq) {
        lemma_early(window, seq);
    } else {
        lemma_rest(window, seq);
    }
}

/// Which sequence numbers there are entries for: all from that of the first entry to the highest one
/// that has been inserted, as many as the limit allows, or that one alone where no earlier entry
/// is left.  Packets that come before the first entry change nothing about that, unless the sender is
/// taken to have restarted.
pub proof fn law_window_spans<P>(window: Window<P>, seq: u16, packet: (P, PacketStatus))
    requires
        window.valid(),
        0 < window.limit < 0x8000,
        window.admits(seq),
    ensures
        ({
            let after = window.insert(seq, packet);
            let len = window.slots.len();
            let ahead = seq_diff(seq, window.start);
            if len == 0 || ahead >= window.limit + len - 1 {
                after.start == seq && after.slots.len() == 1
            } else if ahead >= 0 {
                let gone = if ahead >= window.limit {
                    ahead - window.limit + 1
                } else {
                    0
                };
                let end = if ahead >= len {
                    ahead + 1
                } else {
                    len as int
                };
                &&& after.start == (window.start + gone) % 0x1_0000
                &&& after.slots.len() == end - gone
            } else if window.early >= 63 {
                after == Window::<P>::with_limit(window.limit)
            } else {
                &&& after.start == window.start
                &&& after.slots == window.slots
            }
        }),
{
    law_admits(window, seq);
    let after = window.insert(seq, packet);
    if window.slots.len() > 0 {
        if window.too_early(seq) {
            lemma_early(window, seq);
            if window.early >= 63 {
                assert(after =~= Window::<P>::with_limit(window.limit));
            }
        } else {
            lemma_rest(window, seq);
        }
    }
}

/// When the receiver of a window is called, and with what: where a number lies so far ahead that the
/// limit leaves no room for the oldest entries, with the packets in these; where the sender is taken to
/// have restarted, with all packets; and otherwise not at all.
pub proof fn law_receiver_gets_what_leaves<P>(window: Window<P>, seq: u16)
    requires
        window.valid(),
        0 < window.limit < 0x8000,
        window.admits(seq),
    ensures
        ({
            let len = window.slots.len() as int;
            let ahead = seq_diff(seq, window.start);
            window.hands_over(seq) == if len > 0 && ahead >= window.limit {
                Some(
                    packets_in(
                        window.slots.take(
                            if ahead - window.limit + 1 < len {
                                ahead - window.limit + 1
                            } else {
                                len
                            },
                        ),
                    ),
                )
            } else if len > 0 && ahead < 0 && window.early >= 63 {
                Some(packets_in(window.slots))
            } else {
                None
            }
        }),
{
    law_admits(window, seq);
    if window.slots.len() > 0 {
        if window.too_early(seq) {
            lemma_early(window, seq);
        } else {
            lemma_rest(window, seq);
        }
    }
}

/// How a sequence number lies to a window that never has to make room.
proof fn lemma_wide<P>(window: Window<P>, seq: u16)
    requires
        window.valid(),
        window.limit >= 0x8000,
        0 < window.slots.len() < 0x8000,
        window.slots.len() - seq_diff(seq, window.start) < 0x8000,
    ensures
        window.outdated(seq) == 0,
        window.skip(0) == window,
        seq_lt(window.back()->0, seq) <==> seq_diff(seq, window.start) >= window.slots.len(),
        window.fill(seq).slots.len() == if seq_diff(seq, window.start) >= window.slots.len() {
            seq_diff(seq, window.start)
        } else {
            window.slots.len() as int
        },
        seq_diff(seq, window.start) < window.slots.len() ==> window.fill(seq) == window,
{
    let len = window.slots.len() as int;
    let delta = seq_diff(seq, window.start);
    lemma_seq_add_diff(seq, window.start);
    assert(window.slots.skip(0) =~= window.slots);
    assert(seq_add(window.start, 0) == window.start);
    lemma_seq_add_add(window.start, len - 1, 1);
    assert(seq_diff(seq_add(window.start, len - 1), seq) == len - 1 - delta);
    assert(seq_diff(seq_add(window.start, len), seq) == len - delta);
    if delta < len {
        assert(window.fill(seq).slots =~= window.slots);
    }
}

/// A window with a limit of half a turn or more never has to make room; what is inserted in time is
/// stored, and everything else stays, unless the sender is taken to have restarted.
#[verifier::rlimit(30)]
pub proof fn law_wide_window_keeps_everything<P>(
    window: Window<P>,
    seq: u16,
    packet: (P, PacketStatus),
    other: u16,
)
    requires
        window.valid(),
        window.limit >= 0x8000,
        window.slots.len() < 0x8000,
        window.slots.len() == 0 || window.slots.len() - seq_diff(seq, window.start) < 0x8000,
    ensures
        window.admits(seq),
        window.slots.len() == 0 || seq_diff(seq, window.start) >= 0 ==> window.insert(
            seq,
            packet,
        ).get(seq) == Some(packet),
        other != seq && (window.slots.len() == 0 || seq_diff(seq, window.start) >= 0
            || window.early < 63) ==> window.insert(seq, packet).get(other) == window.get(other),
        window.slots.len() > 0 && seq_diff(seq, window.start) < 0 && window.early >= 63
            ==> window.insert(seq, packet).slots.len() == 0,
{
    lemma_seq_add_diff(seq, window.start);
    lemma_seq_add_diff(other, window.start);
    if window.slots.len() > 0 {
        lemma_wide(window, seq);
    } else {
        assert(window.skip(0).slots.len() == 0);
    }
}

/// The packets in some entries are those that are not placeholders, in the order of the entries.
pub proof fn law_packets_of_entries<T>(a: Seq<Option<T>>, packet: T, b: Seq<Option<T>>)
    ensures
        packets_in(Seq::<Option<T>>::empty()) == Seq::<T>::empty(),
        packets_in(a.push(Some(packet)) + b) == packets_in(a) + seq![packet] + packets_in(b),
        packets_in(a.push(None) + b) == packets_in(a) + packets_in(b),
{
    lemma_packets_in_add(a.push(Some(packet)), b);
    lemma_packets_in_add(a.push(None), b);
    assert(a.push(Some(packet)).drop_last() =~= a);
    assert(a.push(None::<T>).drop_last() =~= a);
    assert(packets_in(a.push(Some(packet))) =~= packets_in(a) + seq![packet]);
}

/// Every entry is found under its number, and nothing is found under other numbers.
pub proof fn law_entries_are_found<P>(window: Window<P>, seq: u16)
    requires
        window.slots.len() <= 0x8000,
    ensures
        forall|i: int|
            0 <= i < window.slots.len() ==> window.get(((window.start + i) % 0x1_0000) as u16)
                == #[trigger] window.slots[i],
        window.get(seq) is Some ==> exists|i: int|
            0 <= i < window.slots.len() && seq == (window.start + i) % 0x1_0000
                && #[trigger] window.slots[i] == window.get(seq),
{
    assert forall|i: int| 0 <= i < window.slots.len() implies window.get(
        ((window.start + i) % 0x1_0000) as u16,
    ) == #[trigger] window.slots[i] by {
        assert(seq_diff(seq_add(window.start, i), window.start) == i);
    }
    if window.get(seq) is Some {
        let i = seq_diff(seq, window.start);
        lemma_seq_add_diff(seq, window.start);
        assert(window.slots[i] == window.get(seq));
    }
}

/// The packets in two runs of entries are those in the first, followed by those in the second.
proof fn lemma_packets_in_add<T>(a: Seq<Option<T>>, b: Seq<Option<T>>)
    ensures
        packets_in(a + b) == packets_in(a) + packets_in(b),
    decreases b.len(),
{
    if b.len() == 0 {
        assert(a + b =~= a);
        assert(packets_in(a) + packets_in(b) =~= packets_in(a));
    } else {
        lemma_packets_in_add(a, b.drop_last());
        assert((a + b).drop_last() =~= a + b.drop_last());
        assert((a + b).last() == b.last());
        assert(packets_in(a + b) =~= packets_in(a) + packets_in(b));
    }
}

/// Packets reach the receiver in the order of their sequence numbers, and none is lost on the way
/// but one that another replaces: what the receiver gets, followed by what stays in the window, is
/// what was in the window with the packet put in its place.
pub proof fn law_insert_conserves_packets<P>(window: Window<P>, seq: u16, packet: (P, PacketStatus))
    requires
        window.valid(),
        window.limit < 0x8000,
        window.admits(seq),
        !window.too_early(seq),
    ensures
        ({
            let i = window.position(seq);
            let replaced = if i < window.slots.len() {
                i + 1
            } else {
                i
            };
            window.released(seq) + packets_in(window.insert(seq, packet).slots) == packets_in(
                window.slots.take(i),
            ).push(packet) + packets_in(window.slots.skip(replaced))
        }),
{
    let len = window.slots.len() as int;
    let slots = window.slots;
    let n = window.outdated(seq);
    let after = window.insert(seq, packet);
    let single = seq![Some(packet)];
    assert(packets_in(single) =~= seq![packet]) by {
        assert(single.drop_last() =~= Seq::empty());
        assert(packets_in(single.drop_last()) =~= Seq::empty());
    }
    if len == 0 {
        assert(slots.take(0) =~= Seq::empty());
        assert(slots.skip(0) =~= Seq::empty());
        assert(after.slots =~= single);
        assert(window.released(seq) + packets_in(after.slots) =~= packets_in(slots.take(0)).push(
            packet,
        ) + packets_in(slots.skip(0)));
    } else {
        lemma_rest(window, seq);
        let i = window.position(seq);
        let rest = slots.skip(n);
        assert(slots =~= slots.take(n) + rest);
        lemma_packets_in_add(slots.take(n), rest);
        if i < len {
            assert(rest =~= slots);
            assert(after.slots =~= slots.take(i) + single + slots.skip(i + 1));
            lemma_packets_in_add(slots.take(i) + single, slots.skip(i + 1));
            lemma_packets_in_add(slots.take(i), single);
            assert(window.released(seq) + packets_in(after.slots) =~= packets_in(
                slots.take(i),
            ).push(packet) + packets_in(slots.skip(i + 1)));
        } else {
            assert(slots.take(len) =~= slots);
            assert(slots.skip(len) =~= Seq::empty());
            if n < len {
                let filled = window.skip(n).fill(seq).slots;
                let gap = (filled.len() - rest.len()) as nat;
                assert(filled =~= rest + Seq::new(gap, |i: int| None));
                lemma_packets_in_placeholders(rest, gap);
                assert(after.slots =~= filled + single);
                lemma_packets_in_add(filled, single);
            } else {
                assert(after.slots =~= single);
                assert(rest =~= Seq::empty());
            }
            assert(window.released(seq) =~= packets_in(slots.take(n))) by {
                if !window.pushes_out(seq) {
                    assert(slots.take(0) =~= Seq::empty());
                }
            }
            assert(window.released(seq) + packets_in(after.slots) =~= packets_in(slots).push(
                packet,
            ));
            assert(packets_in(slots).push(packet) + packets_in(slots.skip(len)) =~= packets_in(
                slots,
            ).push(packet));
        }
    }
}

/// Packets that come before the first entry are dropped, until there have been
/// [`SEQ_GONE_BACKWARDS_LIMIT`] of them in a row.  Then the receiver gets all the packets in the
/// window, and the window is empty, so that it starts anew with the next packet.
pub proof fn law_restart<P>(window: Window<P>, arrivals: Seq<(u16, (P, PacketStatus))>)
    requires
        window.valid(),
        window.limit < 0x8000,
        0 < arrivals.len() <= SEQ_GONE_BACKWARDS_LIMIT - window.early,
        forall|i: int|
            0 <= i < arrivals.len() ==> {
                &&& window.too_early((#[trigger] arrivals[i]).0)
                &&& window.slots.len() - seq_diff(arrivals[i].0, window.start) < 0x8000
            },
    ensures
        arrivals.len() < SEQ_GONE_BACKWARDS_LIMIT - window.early ==> {
            &&& window.insert_all(arrivals) == (Window {
                early: window.early + arrivals.len(),
                ..window
            })
            &&& window.insert_all(arrivals.drop_last()).hands_over(arrivals.last().0) is None
        },
        arrivals.len() == SEQ_GONE_BACKWARDS_LIMIT - window.early ==> {
            &&& window.insert_all(arrivals) == window.cleared()
            &&& window.insert_all(arrivals.drop_last()).hands_over(arrivals.last().0) == Some(
                packets_in(window.slots),
            )
        },
    decreases arrivals.len(),
{
    let before = window.insert_all(arrivals.drop_last());
    if arrivals.len() > 1 {
        law_restart(window, arrivals.drop_last());
    }
    assert(arrivals[arrivals.len() - 1] == arrivals.last());
    assert(before == (Window { early: (window.early + arrivals.len() - 1) as nat, ..window }));
    lemma_early(before, arrivals.last().0);
    assert(before.skip(before.outdated(arrivals.last().0)) == before);
}

/// Where every packet in the window stands under its own number, and one more is inserted under its
/// own number, that stays so.
pub proof fn law_insert_keeps_numbers<P>(
    window: Window<P>,
    seq: u16,
    packet: (P, PacketStatus),
    number: spec_fn(P) -> u16,
)
    requires
        window.valid(),
        window.limit < 0x8000,
        window.admits(seq),
        window.aligned(number),
        number(packet.0) == seq,
    ensures
        window.insert(seq, packet).aligned(number),
{
    let n = window.outdated(seq);
    let after = window.insert(seq, packet);
    law_admits(window, seq);
    if window.slots.len() > 0 {
        if window.too_early(seq) {
            lemma_early(window, seq);
        } else {
            lemma_rest(window, seq);
            lemma_seq_add_diff(seq, window.start);
            assert forall|i: int| 0 <= i < after.slots.len() implies match #[trigger] after.slots[i] {
                Some((packet, _)) => number(packet) == after.seq_at(i),
                None => true,
            } by {
                if n < window.slots.len() {
                    lemma_seq_add_add(window.start, n, i);
                    if n + i < window.slots.len() {
                        assert(window.skip(n).slots[i] == window.slots[n + i]);
                    }
                }
            }
        }
    }
}

/// How far `seq` lies after `origin`.
pub open spec fn distance(origin: u16, seq: u16) -> int {
    (seq - origin) % 0x1_0000
}

/// Whether the numbers of `packets` lie from `low` up to, but not including, `high` after `origin`,
/// and ascend strictly.
pub open spec fn ascends<P>(
    packets: Seq<(P, PacketStatus)>,
    number: spec_fn(P) -> u16,
    origin: u16,
    low: int,
    high: int,
) -> bool {
    &&& forall|i: int|
        0 <= i < packets.len() ==> low <= distance(origin, number((#[trigger] packets[i]).0))
            < high
    &&& forall|i: int, j: int|
        0 <= i < j < packets.len() ==> distance(origin, number((#[trigger] packets[i]).0))
            < distance(origin, number((#[trigger] packets[j]).0))
}

/// One ascent after another is an ascent.
proof fn lemma_ascends_on<P>(
    first: Seq<(P, PacketStatus)>,
    second: Seq<(P, PacketStatus)>,
    number: spec_fn(P) -> u16,
    origin: u16,
    low: int,
    middle: int,
    high: int,
)
    requires
        low <= middle <= high,
        ascends(first, number, origin, low, middle),
        ascends(second, number, origin, middle, high),
    ensures
        ascends(first + second, number, origin, low, high),
{
}

/// The packets among entries that stand under their own numbers ascend.
proof fn lemma_packets_in_ascend<P>(
    slots: Seq<Option<(P, PacketStatus)>>,
    number: spec_fn(P) -> u16,
    origin: u16,
    low: int,
)
    requires
        forall|i: int| 0 <= i < slots.len() ==> match #[trigger] slots[i] {
            Some((packet, _)) => distance(origin, number(packet)) == low + i,
            None => true,
        },
    ensures
        ascends(packets_in(slots), number, origin, low, low + slots.len()),
    decreases slots.len(),
{
    if slots.len() > 0 {
        let rest = slots.drop_last();
        assert forall|i: int| 0 <= i < rest.len() implies match #[trigger] rest[i] {
            Some((packet, _)) => distance(origin, number(packet)) == low + i,
            None => true,
        } by {
            assert(rest[i] == slots[i]);
        }
        lemma_packets_in_ascend(rest, number, origin, low);
        assert(slots[slots.len() - 1] == slots.last());
    }
}

/// What is known of a window, and of what the receiver has got, after a run of arrivals.
spec fn is_orderly<P>(
    window: Window<P>,
    released: Seq<(P, PacketStatus)>,
    number: spec_fn(P) -> u16,
    origin: u16,
) -> bool {
    &&& window.valid()
    &&& window.aligned(number)
    &&& window.slots.len() == 0 ==> released.len() == 0
    &&& window.slots.len() > 0 ==> {
        &&& distance(origin, window.start) + window.slots.len() <= 0x7fff
        &&& ascends(released, number, origin, 0, distance(origin, window.start))
    }
}

/// The packets in an orderly window ascend.
proof fn lemma_orderly_ascends<P>(
    window: Window<P>,
    released: Seq<(P, PacketStatus)>,
    number: spec_fn(P) -> u16,
    origin: u16,
    n: int,
)
    requires
        is_orderly(window, released, number, origin),
        0 <= n <= window.slots.len(),
        window.slots.len() > 0,
    ensures
        ascends(
            released + packets_in(window.slots.take(n)),
            number,
            origin,
            0,
            distance(origin, window.start) + n,
        ),
{
    let slots = window.slots.take(n);
    let low = distance(origin, window.start);
    assert forall|i: int| 0 <= i < slots.len() implies match #[trigger] slots[i] {
        Some((packet, _)) => distance(origin, number(packet)) == low + i,
        None => true,
    } by {
        assert(slots[i] == window.slots[i]);
    }
    lemma_packets_in_ascend(slots, number, origin, low);
    lemma_ascends_on(released, packets_in(slots), number, origin, 0, low, low + n);
}

/// Which of two numbers comes first is told by their distances.
proof fn lemma_distances(origin: u16, a: u16, b: u16)
    requires
        distance(origin, a) < 0x7fff,
        distance(origin, b) < 0x7fff,
    ensures
        seq_diff(a, b) == distance(origin, a) - distance(origin, b),
{
}

/// Inserting one more packet leaves the window orderly.
#[verifier::rlimit(30)]
proof fn lemma_orderly_insert<P>(
    window: Window<P>,
    released: Seq<(P, PacketStatus)>,
    seq: u16,
    packet: (P, PacketStatus),
    number: spec_fn(P) -> u16,
    origin: u16,
)
    requires
        is_orderly(window, released, number, origin),
        0 < window.limit < 0x8000,
        !window.restarts(seq),
        number(packet.0) == seq,
        distance(origin, seq) < 0x7fff,
    ensures
        window.admits(seq),
        is_orderly(window.insert(seq, packet), released + window.released(seq), number, origin),
        window.too_early(seq) ==> {
            &&& window.insert(seq, packet).slots == window.slots
            &&& window.released(seq).len() == 0
        },
{
    let after = window.insert(seq, packet);
    let len = window.slots.len() as int;
    let n = window.outdated(seq);
    law_admits(window, seq);
    if len == 0 {
        assert(window.released(seq) =~= Seq::empty());
        assert(after.slots =~= seq![Some(packet)]);
        assert(released + window.released(seq) =~= released);
    } else {
        lemma_distances(origin, seq, window.start);
        if window.too_early(seq) {
            lemma_early(window, seq);
            assert(released + window.released(seq) =~= released);
        } else {
            lemma_rest(window, seq);
            law_insert_reads_back(window, seq, packet);
            lemma_orderly_ascends(window, released, number, origin, n);
            assert(released + window.released(seq) =~= released + packets_in(
                window.slots.take(n),
            )) by {
                if !window.pushes_out(seq) {
                    assert(window.slots.take(0) =~= Seq::empty());
                }
            }
            if n < len {
                assert(distance(origin, after.start) == distance(origin, window.start) + n);
            }
        }
    }
    if window.admits(seq) {
        law_insert_keeps_numbers(window, seq, packet, number);
    }
}

/// What is gathered stays so, unless a packet with the same number replaces it; and what is added is
/// the packet that has arrived, unless it is dropped.
proof fn lemma_gathered<P>(
    window: Window<P>,
    released: Seq<(P, PacketStatus)>,
    seq: u16,
    packet: (P, PacketStatus),
    number: spec_fn(P) -> u16,
    origin: u16,
)
    requires
        is_orderly(window, released, number, origin),
        0 < window.limit < 0x8000,
        !window.restarts(seq),
        number(packet.0) == seq,
        distance(origin, seq) < 0x7fff,
    ensures
        ({
            let before = released + packets_in(window.slots);
            let after = released + window.released(seq) + packets_in(
                window.insert(seq, packet).slots,
            );
            &&& forall|other: (P, PacketStatus)| #[trigger]
                after.contains(other) ==> before.contains(other) || other == packet
            &&& forall|other: (P, PacketStatus)| #[trigger]
                before.contains(other) && (window.too_early(seq) || number(other.0) != seq)
                    ==> after.contains(other)
            &&& !window.too_early(seq) ==> after.contains(packet)
        }),
{
    lemma_orderly_insert(window, released, seq, packet, number, origin);
    let slots = window.slots;
    let before = released + packets_in(slots);
    let left = packets_in(window.insert(seq, packet).slots);
    let after = released + window.released(seq) + left;
    if window.too_early(seq) {
        assert(after =~= before);
    } else {
        let i = window.position(seq);
        let k = if i < slots.len() {
            i + 1
        } else {
            i
        };
        let head = packets_in(slots.take(i));
        let tail = packets_in(slots.skip(k));
        let gone = packets_in(slots.subrange(i, k));
        law_insert_conserves_packets(window, seq, packet);
        assert(after =~= released + (window.released(seq) + left));
        assert(after =~= released + head + seq![packet] + tail);
        assert(slots =~= slots.take(i) + slots.subrange(i, k) + slots.skip(k));
        lemma_packets_in_add(slots.take(i) + slots.subrange(i, k), slots.skip(k));
        lemma_packets_in_add(slots.take(i), slots.subrange(i, k));
        assert(before =~= released + head + gone + tail);
        assert forall|x: int| 0 <= x < gone.len() implies number((#[trigger] gone[x]).0) == seq by {
            let slot = slots.subrange(i, k);
            assert(slot.drop_last() =~= Seq::empty());
            assert(packets_in(slot.drop_last()) =~= Seq::empty());
            assert(slot.last() == slots[i]);
            lemma_seq_add_diff(seq, window.start);
        }
        let kept = released + head;
        assert(after[kept.len() as int] == packet);
        assert forall|other: (P, PacketStatus)| #[trigger]
            before.contains(other) && number(other.0) != seq implies after.contains(other) by {
            let x = choose|x: int| 0 <= x < before.len() && before[x] == other;
            if x < kept.len() {
                assert(after[x] == other);
            } else if x < kept.len() + gone.len() {
                assert(gone[x - kept.len()] == other);
            } else {
                assert(after[x - gone.len() + 1] == other);
            }
        }
        assert forall|other: (P, PacketStatus)| #[trigger]
            after.contains(other) implies before.contains(other) || other == packet by {
            let x = choose|x: int| 0 <= x < after.len() && after[x] == other;
            if x < kept.len() {
                assert(before[x] == other);
            } else if x > kept.len() {
                assert(before[x - 1 + gone.len()] == other);
            }
        }
    }
}

/// The window is orderly after any run of arrivals.
proof fn lemma_run_is_orderly<P>(
    limit: nat,
    arrivals: Seq<(u16, (P, PacketStatus))>,
    number: spec_fn(P) -> u16,
    origin: u16,
)
    requires
        0 < limit < 0x8000,
        is_run(arrivals, number, origin),
        Window::with_limit(limit).goes_on(arrivals),
    ensures
        is_orderly(
            Window::with_limit(limit).insert_all(arrivals),
            Window::with_limit(limit).released_all(arrivals),
            number,
            origin,
        ),
        Window::with_limit(limit).insert_all(arrivals).limit == limit,
    decreases arrivals.len(),
{
    let fresh = Window::<P>::with_limit(limit);
    if arrivals.len() > 0 {
        let before = arrivals.drop_last();
        lemma_run_shortened(limit, arrivals, number, origin);
        lemma_run_is_orderly(limit, before, number, origin);
        let window = fresh.insert_all(before);
        let (seq, packet) = arrivals.last();
        assert(arrivals[arrivals.len() - 1] == (seq, packet));
        assert(arrivals.take(arrivals.len() - 1) =~= before);
        lemma_orderly_insert(window, fresh.released_all(before), seq, packet, number, origin);
    }
}

/// All but the last of a run of arrivals are a run of arrivals.
proof fn lemma_run_shortened<P>(
    limit: nat,
    arrivals: Seq<(u16, (P, PacketStatus))>,
    number: spec_fn(P) -> u16,
    origin: u16,
)
    requires
        arrivals.len() > 0,
        is_run(arrivals, number, origin),
        Window::with_limit(limit).goes_on(arrivals),
    ensures
        is_run(arrivals.drop_last(), number, origin),
        Window::with_limit(limit).goes_on(arrivals.drop_last()),
        forall|k: int|
            0 <= k < arrivals.len() - 1 ==> Window::with_limit(limit).keeps(arrivals, k)
                == Window::with_limit(limit).keeps(#[trigger] arrivals.drop_last(), k),
{
    let before = arrivals.drop_last();
    let fresh = Window::<P>::with_limit(limit);
    assert forall|k: int| 0 <= k < before.len() implies before[k] == arrivals[k] && #[trigger]
        before.take(k) == arrivals.take(k) by {
        assert(before.take(k) =~= arrivals.take(k));
    }
    assert forall|k: int| 0 <= k < before.len() implies (#[trigger] before[k]).0 == number(
        before[k].1.0,
    ) && distance(origin, before[k].0) < 0x7fff by {
        assert(before[k] == arrivals[k]);
    }
    assert forall|k: int| 0 <= k < arrivals.len() - 1 implies fresh.keeps(arrivals, k)
        == fresh.keeps(#[trigger] arrivals.drop_last(), k) by {
        assert(before.take(k) == arrivals.take(k));
    }
}

/// Whether the `arrivals` come under the numbers of their packets, all of which lie less than half a
/// turn after `origin`.
spec fn is_run<P>(
    arrivals: Seq<(u16, (P, PacketStatus))>,
    number: spec_fn(P) -> u16,
    origin: u16,
) -> bool {
    forall|k: int|
        0 <= k < arrivals.len() ==> {
            &&& (#[trigger] arrivals[k]).0 == number(arrivals[k].1.0)
            &&& distance(origin, arrivals[k].0) < 0x7fff
        }
}

/// Whether a packet that is kept takes the place of the one at index `k` of the `arrivals` later on.
pub open spec fn is_replaced<P>(
    window: Window<P>,
    arrivals: Seq<(u16, (P, PacketStatus))>,
    k: int,
) -> bool {
    exists|j: int|
        k < j < arrivals.len() && arrivals[j].0 == arrivals[k].0 && #[trigger] window.keeps(
            arrivals,
            j,
        )
}

/// What a run of arrivals leads to where the number that a packet comes under can be told from the
/// packet.
proof fn lemma_run_is_passed_on_in_order<P>(
    limit: nat,
    arrivals: Seq<(u16, (P, PacketStatus))>,
    number: spec_fn(P) -> u16,
    origin: u16,
)
    requires
        0 < limit < 0x8000,
        is_run(arrivals, number, origin),
        Window::with_limit(limit).goes_on(arrivals),
    ensures
        ascends(Window::with_limit(limit).gathered(arrivals), number, origin, 0, 0x7fff),
        forall|packet: (P, PacketStatus)| #[trigger]
            Window::with_limit(limit).gathered(arrivals).contains(packet) ==> exists|k: int|
                0 <= k < arrivals.len() && (#[trigger] arrivals[k]).1 == packet,
        forall|k: int|
            0 <= k < arrivals.len() && #[trigger] Window::with_limit(limit).keeps(arrivals, k)
                && !is_replaced(Window::with_limit(limit), arrivals, k) ==> Window::with_limit(
                limit,
            ).gathered(arrivals).contains(arrivals[k].1),
    decreases arrivals.len(),
{
    let fresh = Window::<P>::with_limit(limit);
    let window = fresh.insert_all(arrivals);
    let released = fresh.released_all(arrivals);
    let all = fresh.gathered(arrivals);
    lemma_run_is_orderly(limit, arrivals, number, origin);
    if window.slots.len() > 0 {
        lemma_orderly_ascends(window, released, number, origin, window.slots.len() as int);
        assert(window.slots.take(window.slots.len() as int) =~= window.slots);
    } else {
        assert(all =~= Seq::empty());
    }
    if arrivals.len() > 0 {
        let before = arrivals.drop_last();
        let last = arrivals.len() - 1;
        let (seq, packet) = arrivals[last];
        assert(arrivals.take(last) =~= before);
        lemma_run_shortened(limit, arrivals, number, origin);
        lemma_run_is_orderly(limit, before, number, origin);
        lemma_run_is_passed_on_in_order(limit, before, number, origin);
        let earlier = fresh.gathered(before);
        lemma_gathered(
            fresh.insert_all(before),
            fresh.released_all(before),
            seq,
            packet,
            number,
            origin,
        );
        assert forall|other: (P, PacketStatus)| #[trigger] all.contains(other) implies exists|
            k: int,
        | 0 <= k < arrivals.len() && (#[trigger] arrivals[k]).1 == other by {
            if earlier.contains(other) {
                let k = choose|k: int| 0 <= k < before.len() && (#[trigger] before[k]).1 == other;
                assert(arrivals[k].1 == other);
            } else {
                assert(arrivals[last].1 == other);
            }
        }
        assert forall|k: int|
            0 <= k < arrivals.len() && #[trigger] fresh.keeps(arrivals, k) && !is_replaced(
                fresh,
                arrivals,
                k,
            ) implies all.contains(arrivals[k].1) by {
            if k < last {
                assert(before[k] == arrivals[k]);
                assert(fresh.keeps(before, k));
                assert(!is_replaced(fresh, before, k)) by {
                    if is_replaced(fresh, before, k) {
                        let j = choose|j: int|
                            k < j < before.len() && before[j].0 == before[k].0
                                && #[trigger] fresh.keeps(before, j);
                        assert(arrivals[j] == before[j]);
                        assert(fresh.keeps(arrivals, j));
                    }
                }
                assert(earlier.contains(before[k].1));
                if !fresh.insert_all(before).too_early(seq) {
                    assert(fresh.keeps(arrivals, last));
                    assert(arrivals[last].0 != arrivals[k].0);
                }
            }
        }
    }
}

/// The `arrivals` with each packet carrying along the number that it comes under.
pub open spec fn numbered<P>(arrivals: Seq<(u16, (P, PacketStatus))>) -> Seq<
    (u16, ((u16, P), PacketStatus)),
> {
    Seq::new(
        arrivals.len(),
        |k: int| (arrivals[k].0, ((arrivals[k].0, arrivals[k].1.0), arrivals[k].1.1)),
    )
}

/// A packet without the number that it carries along.
pub open spec fn unnumbered<P>(packet: ((u16, P), PacketStatus)) -> (P, PacketStatus) {
    (packet.0.1, packet.1)
}

/// Packets without the numbers that they carry along.
pub open spec fn all_unnumbered<P>(packets: Seq<((u16, P), PacketStatus)>) -> Seq<
    (P, PacketStatus),
> {
    Seq::new(packets.len(), |i: int| unnumbered(packets[i]))
}

/// A window without the numbers that the packets in it carry along.
pub open spec fn window_unnumbered<P>(window: Window<(u16, P)>) -> Window<P> {
    Window {
        limit: window.limit,
        start: window.start,
        slots: Seq::new(
            window.slots.len(),
            |i: int|
                match window.slots[i] {
                    Some(packet) => Some(unnumbered(packet)),
                    None => None,
                },
        ),
        early: window.early,
    }
}

/// The packets in entries without numbers are the packets in the entries, without numbers.
proof fn lemma_packets_in_unnumbered<P>(
    slots: Seq<Option<((u16, P), PacketStatus)>>,
    plain: Seq<Option<(P, PacketStatus)>>,
)
    requires
        plain.len() == slots.len(),
        forall|i: int|
            0 <= i < slots.len() ==> #[trigger] plain[i] == match slots[i] {
                Some(packet) => Some(unnumbered(packet)),
                None => None,
            },
    ensures
        packets_in(plain) == all_unnumbered(packets_in(slots)),
    decreases slots.len(),
{
    if slots.len() > 0 {
        let rest = plain.drop_last();
        assert forall|i: int| 0 <= i < rest.len() implies #[trigger] rest[i]
            == match slots.drop_last()[i] {
            Some(packet) => Some(unnumbered(packet)),
            None => None,
        } by {
            assert(rest[i] == plain[i]);
        }
        lemma_packets_in_unnumbered(slots.drop_last(), rest);
        assert(plain[plain.len() - 1] == plain.last());
    }
    assert(packets_in(plain) =~= all_unnumbered(packets_in(slots)));
}

/// The numbers that packets carry along make no difference to a window.
proof fn lemma_unnumbered_insert<P>(
    window: Window<(u16, P)>,
    seq: u16,
    packet: ((u16, P), PacketStatus),
)
    ensures
        window_unnumbered(window.insert(seq, packet)) == window_unnumbered(window).insert(
            seq,
            unnumbered(packet),
        ),
        all_unnumbered(window.released(seq)) == window_unnumbered(window).released(seq),
        window_unnumbered(window).restarts(seq) == window.restarts(seq),
        window_unnumbered(window).too_early(seq) == window.too_early(seq),
{
    let n = window.outdated(seq);
    let rest = window.skip(n);
    let plain = window_unnumbered(window);
    assert(window_unnumbered(rest) =~= plain.skip(n));
    if rest.slots.len() > 0 {
        assert(window_unnumbered(rest.fill(seq)) =~= plain.skip(n).fill(seq));
    }
    assert(window_unnumbered(window.insert(seq, packet)) =~= plain.insert(
        seq,
        unnumbered(packet),
    ));
    lemma_packets_in_unnumbered(window.slots.take(n), plain.slots.take(n));
    lemma_packets_in_unnumbered(window.slots, plain.slots);
    assert(all_unnumbered(window.released(seq)) =~= plain.released(seq));
}

/// The numbers that packets carry along make no difference over a run of arrivals.
proof fn lemma_unnumbered_run<P>(limit: nat, arrivals: Seq<(u16, (P, PacketStatus))>)
    ensures
        ({
            let fresh = Window::<(u16, P)>::with_limit(limit);
            let plain = Window::<P>::with_limit(limit);
            &&& window_unnumbered(fresh.insert_all(numbered(arrivals))) == plain.insert_all(
                arrivals,
            )
            &&& all_unnumbered(fresh.released_all(numbered(arrivals))) == plain.released_all(
                arrivals,
            )
        }),
    decreases arrivals.len(),
{
    let fresh = Window::<(u16, P)>::with_limit(limit);
    let plain = Window::<P>::with_limit(limit);
    let run = numbered(arrivals);
    if arrivals.len() == 0 {
        assert(window_unnumbered(fresh) =~= plain);
        assert(all_unnumbered(fresh.released_all(run)) =~= plain.released_all(arrivals));
    } else {
        let before = arrivals.drop_last();
        lemma_unnumbered_run(limit, before);
        assert(run.drop_last() =~= numbered(before));
        lemma_unnumbered_insert(fresh.insert_all(numbered(before)), run.last().0, run.last().1);
        assert(unnumbered(run.last().1) == arrivals.last().1);
        assert(all_unnumbered(fresh.released_all(run)) =~= plain.released_all(arrivals));
    }
}

/// Over any run of arrivals whose numbers span less than half a turn, and during which the sender is
/// not taken to have restarted, the receiver gets packets in strictly ascending order of the numbers
/// that they came under, hence none twice, and those that are left in the window come after them.
/// All of these are among the arrivals, with their statuses; and all of the arrivals are among
/// these, except for those that are dropped because they come before the first entry, and those that
/// another packet with the same number replaces.
///
/// The numbers are told by a window whose packets carry them along, and which is otherwise the same.
pub proof fn law_run_is_passed_on_in_order<P>(
    limit: nat,
    arrivals: Seq<(u16, (P, PacketStatus))>,
    origin: u16,
)
    requires
        0 < limit < 0x8000,
        forall|k: int|
            0 <= k < arrivals.len() ==> distance(origin, (#[trigger] arrivals[k]).0) < 0x7fff,
        Window::with_limit(limit).goes_on(arrivals),
    ensures
        ({
            let window = Window::<P>::with_limit(limit);
            let fresh = Window::<(u16, P)>::with_limit(limit);
            let run = numbered(arrivals);
            &&& all_unnumbered(fresh.released_all(run)) == window.released_all(arrivals)
            &&& window_unnumbered(fresh.insert_all(run)) == window.insert_all(arrivals)
            &&& ascends(fresh.gathered(run), |packet: (u16, P)| packet.0, origin, 0, 0x7fff)
            &&& forall|packet: ((u16, P), PacketStatus)| #[trigger]
                fresh.gathered(run).contains(packet) ==> exists|k: int|
                    0 <= k < run.len() && (#[trigger] run[k]).1 == packet
            &&& forall|k: int|
                0 <= k < arrivals.len() && #[trigger] window.keeps(arrivals, k) && !is_replaced(
                    window,
                    arrivals,
                    k,
                ) ==> fresh.gathered(run).contains(run[k].1)
        }),
{
    let window = Window::<P>::with_limit(limit);
    let fresh = Window::<(u16, P)>::with_limit(limit);
    let run = numbered(arrivals);
    let number = |packet: (u16, P)| packet.0;
    lemma_unnumbered_run(limit, arrivals);
    assert forall|k: int| 0 <= k < arrivals.len() implies run.take(k) == numbered(
        #[trigger] arrivals.take(k),
    ) && fresh.keeps(run, k) == window.keeps(arrivals, k) && !fresh.insert_all(
        run.take(k),
    ).restarts(run[k].0) by {
        assert(run.take(k) =~= numbered(arrivals.take(k)));
        lemma_unnumbered_run(limit, arrivals.take(k));
        lemma_unnumbered_insert(fresh.insert_all(run.take(k)), run[k].0, run[k].1);
    }
    assert forall|k: int| 0 <= k < run.len() implies !fresh.insert_all(
        #[trigger] run.take(k),
    ).restarts(run[k].0) by {
        assert(run.take(k) == numbered(arrivals.take(k)));
    }
    lemma_run_is_passed_on_in_order(limit, run, number, origin);
    assert forall|k: int|
        0 <= k < arrivals.len() && #[trigger] window.keeps(arrivals, k) && !is_replaced(
            window,
            arrivals,
            k,
        ) implies fresh.gathered(run).contains(run[k].1) by {
        assert(run.take(k) == numbered(arrivals.take(k)));
        if is_replaced(fresh, run, k) {
            let j = choose|j: int|
                k < j < run.len() && run[j].0 == run[k].0 && #[trigger] fresh.keeps(run, j);
            assert(run.take(j) == numbered(arrivals.take(j)));
            assert(window.keeps(arrivals, j));
        }
        assert(fresh.keeps(run, k));
    }
}

/// Every packet in the window was there before, or has just been inserted.
pub(crate) proof fn lemma_insert_every<P>(
    window: Window<P>,
    seq: u16,
    packet: (P, PacketStatus),
    f: spec_fn(P) -> bool,
)
    requires
        window.every(f),
        f(packet.0),
    ensures
        window.insert(seq, packet).every(f),
{
    let n = window.outdated(seq);
    let rest = window.skip(n);
    let after = window.insert(seq, packet);
    assert forall|i: int| 0 <= i < after.slots.len() implies match #[trigger] after.slots[i] {
        Some((packet, _)) => f(packet),
        None => true,
    } by {
        if 0 <= i < rest.slots.len() {
            assert(rest.slots[i] == window.slots[n + i]);
        }
    }
}

} // verus!
