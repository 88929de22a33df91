//! What reaches the receiver, and when.

use crate::correction::inserts;
use crate::decoding::{
    fec_packet, law_media_packets_pass_through, law_merged_agrees, law_takes_frame, proceeds,
    DecoderView, Outcome, Stream,
};
use crate::error::FecDecodeError;
use crate::packet::{BufferPool, Packet, PacketStatus, Receiver};
use crate::recovery::Refusal;
use crate::rtp::{rtp_error, rtp_sequence};
use vstd::prelude::*;

verus! {

/// Whether handing over `packets`, one at a time, may lead from the receiver `before` to `after`.
pub open spec fn passes_on<P: Packet, Recv: Receiver<P>>(
    before: Recv,
    packets: Seq<(P, PacketStatus)>,
    after: Recv,
) -> bool
    decreases packets.len(),
{
    if packets.len() == 0 {
        after == before
    } else {
        exists|mid: Recv|
            {
                &&& #[trigger] Recv::received(before, seq![packets[0]], mid)
                &&& passes_on(mid, packets.drop_first(), after)
            }
    }
}

/// Those of `packets` that have been received from the network, and not recovered.
pub open spec fn arrivals_in<P>(packets: Seq<(P, PacketStatus)>) -> Seq<P>
    decreases packets.len(),
{
    if packets.len() == 0 {
        Seq::empty()
    } else {
        let (packet, status) = packets[0];
        let rest = arrivals_in(packets.drop_first());
        match status {
            PacketStatus::Received => seq![packet] + rest,
            PacketStatus::Recovered => rest,
        }
    }
}

/// The given packets as they are handed over: the ones that `arrived`, and then the ones that have
/// been `recovered`.
pub open spec fn handed_on<P>(arrived: Seq<P>, recovered: Seq<P>) -> Seq<(P, PacketStatus)> {
    Seq::new(arrived.len(), |i: int| (arrived[i], PacketStatus::Received)) + Seq::new(
        recovered.len(),
        |i: int| (recovered[i], PacketStatus::Recovered),
    )
}

/// Handing over some packets, and then others, is handing over all of them.
pub(crate) proof fn lemma_passes_on_all<P: Packet, Recv: Receiver<P>>(
    before: Recv,
    first: Seq<(P, PacketStatus)>,
    mid: Recv,
    second: Seq<(P, PacketStatus)>,
    after: Recv,
)
    requires
        passes_on(before, first, mid),
        passes_on(mid, second, after),
    ensures
        passes_on(before, first + second, after),
    decreases first.len(),
{
    let both = first + second;
    if first.len() == 0 {
        assert(both =~= second);
    } else {
        let next = choose|next: Recv|
            {
                &&& #[trigger] Recv::received(before, seq![first[0]], next)
                &&& passes_on(next, first.drop_first(), mid)
            };
        lemma_passes_on_all(next, first.drop_first(), mid, second, after);
        assert(both.drop_first() =~= first.drop_first() + second);
        assert(Recv::received(before, seq![both[0]], next));
    }
}

/// Handing over a single packet.
pub(crate) proof fn lemma_passes_on_one<P: Packet, Recv: Receiver<P>>(
    before: Recv,
    packet: (P, PacketStatus),
    after: Recv,
)
    requires
        Recv::received(before, seq![packet], after),
    ensures
        passes_on(before, seq![packet], after),
{
    let packets = seq![packet];
    assert(Recv::received(before, seq![packets[0]], after));
    assert(passes_on(after, packets.drop_first(), after));
}

/// What arrived among some packets, and then others, is what arrived among all of them.
proof fn lemma_arrivals_in_all<P>(first: Seq<(P, PacketStatus)>, second: Seq<(P, PacketStatus)>)
    ensures
        arrivals_in(first + second) == arrivals_in(first) + arrivals_in(second),
    decreases first.len(),
{
    let both = first + second;
    if first.len() == 0 {
        assert(both =~= second);
        assert(arrivals_in(both) =~= arrivals_in(first) + arrivals_in(second));
    } else {
        lemma_arrivals_in_all(first.drop_first(), second);
        assert(both.drop_first() =~= first.drop_first() + second);
        assert(both[0] == first[0]);
        assert(arrivals_in(both) =~= arrivals_in(first) + arrivals_in(second));
    }
}

/// What arrived among the packets that are handed over.
proof fn lemma_arrivals_handed_on<P>(arrived: Seq<P>, recovered: Seq<P>)
    ensures
        arrivals_in(handed_on(arrived, recovered)) == arrived,
    decreases arrived.len() + recovered.len(),
{
    let packets = handed_on(arrived, recovered);
    let rest = packets.drop_first();
    if arrived.len() > 0 {
        lemma_arrivals_handed_on(arrived.drop_first(), recovered);
        assert(rest =~= handed_on(arrived.drop_first(), recovered));
        assert(seq![arrived[0]] + arrived.drop_first() =~= arrived);
    } else if recovered.len() > 0 {
        lemma_arrivals_handed_on(arrived, recovered.drop_first());
        assert(rest =~= handed_on(arrived, recovered.drop_first()));
        assert(arrivals_in(packets) =~= arrived);
    } else {
        assert(arrivals_in(packets) =~= arrived);
    }
}

/// Inserting a media packet hands it to the receiver, unless it is refused.
pub(crate) proof fn lemma_inserts_main_delivers<BP: BufferPool, Recv: Receiver<BP::P>>(
    decoder: DecoderView<BP, Recv>,
    seq: u16,
    packet: (BP::P, PacketStatus),
    backlog: Seq<BP::P>,
    after: DecoderView<BP, Recv>,
    backlog2: Seq<BP::P>,
    outcome: Outcome,
)
    requires
        decoder.inserts_main(seq, packet, backlog, after, backlog2, outcome),
    ensures
        Recv::received(decoder.recv, seq![packet], after.recv) || outcome is Err && after.recv
            == decoder.recv,
        decoder.running matches Some((_, matrix)) && !matrix.main.admits(seq)
            || Recv::received(decoder.recv, seq![packet], after.recv),
{
    reveal(inserts);
}

/// The packets that are handed over while recovered packets are inserted.
pub(crate) proof fn lemma_settles_delivers<BP: BufferPool, Recv: Receiver<BP::P>>(
    decoder: DecoderView<BP, Recv>,
    n: nat,
    backlog: Seq<BP::P>,
    after: DecoderView<BP, Recv>,
    outcome: Outcome,
) -> (recovered: Seq<BP::P>)
    requires
        decoder.settles_within(n, backlog, after, outcome),
    ensures
        passes_on(decoder.recv, handed_on(Seq::empty(), recovered), after.recv),
    decreases n,
{
    let none = Seq::<BP::P>::empty();
    assert(handed_on(none, none) =~= Seq::empty());
    if backlog.len() == 0 || rtp_error(backlog.last().bytes()) is Some {
        none
    } else if decoder.holds(rtp_sequence(backlog.last().bytes())) {
        lemma_settles_delivers(decoder, (n - 1) as nat, backlog.drop_last(), after, outcome)
    } else {
        let packet = backlog.last();
        let item = (packet, PacketStatus::Recovered);
        let (after1, backlog1, outcome1) = choose|
            after1: DecoderView<BP, Recv>,
            backlog1: Seq<BP::P>,
            outcome1: Outcome,
        |
            {
                &&& #[trigger] decoder.inserts_main(
                    rtp_sequence(packet.bytes()),
                    item,
                    backlog.drop_last(),
                    after1,
                    backlog1,
                    outcome1,
                )
                &&& if proceeds(outcome1) {
                    after1.settles_within((n - 1) as nat, backlog1, after, outcome)
                } else {
                    after == after1 && outcome == outcome1
                }
            };
        lemma_inserts_main_delivers(
            decoder,
            rtp_sequence(packet.bytes()),
            item,
            backlog.drop_last(),
            after1,
            backlog1,
            outcome1,
        );
        if Recv::received(decoder.recv, seq![item], after1.recv) {
            lemma_passes_on_one(decoder.recv, item, after1.recv);
            let rest = if proceeds(outcome1) {
                lemma_settles_delivers(after1, (n - 1) as nat, backlog1, after, outcome)
            } else {
                none
            };
            lemma_passes_on_all(
                decoder.recv,
                seq![item],
                after1.recv,
                handed_on(none, rest),
                after.recv,
            );
            let recovered = seq![packet] + rest;
            assert(handed_on(none, recovered) =~= seq![item] + handed_on(none, rest));
            recovered
        } else {
            none
        }
    }
}

/// What a packet of the given stream brings to the receiver by itself.
pub open spec fn brings<P: Packet>(stream: Stream, packet: P) -> Seq<P> {
    if stream == Stream::Main && rtp_error(packet.bytes()) is None {
        seq![packet]
    } else {
        Seq::empty()
    }
}

/// The packets that are handed over when the decoder takes a packet that it does not refuse.
proof fn lemma_takes_delivers<BP: BufferPool, Recv: Receiver<BP::P>>(
    decoder: DecoderView<BP, Recv>,
    stream: Stream,
    packet: BP::P,
    after: DecoderView<BP, Recv>,
    outcome: Outcome,
) -> (recovered: Seq<BP::P>)
    requires
        decoder.valid(),
        decoder.takes(stream, packet, after, outcome),
        outcome is Ok,
    ensures
        passes_on(decoder.recv, handed_on(brings(stream, packet), recovered), after.recv),
{
    let seq = rtp_sequence(packet.bytes());
    let none = Seq::<BP::P>::empty();
    assert(handed_on(none, none) =~= Seq::empty());
    match stream {
        Stream::Main => {
            if rtp_error(packet.bytes()) is None {
                let item = (packet, PacketStatus::Received);
                let (after1, backlog, outcome1) = choose|
                    after1: DecoderView<BP, Recv>,
                    backlog: Seq<BP::P>,
                    outcome1: Outcome,
                |
                    {
                        &&& #[trigger] decoder.inserts_main(
                            seq,
                            item,
                            none,
                            after1,
                            backlog,
                            outcome1,
                        )
                        &&& if proceeds(outcome1) {
                            after1.settles(backlog, after, outcome)
                        } else {
                            after == after1 && outcome == outcome1
                        }
                    };
                lemma_inserts_main_delivers(decoder, seq, item, none, after1, backlog, outcome1);
                lemma_passes_on_one(decoder.recv, item, after1.recv);
                let rest = if proceeds(outcome1) {
                    let n = choose|n: nat| #[trigger]
                        after1.settles_within(n, backlog, after, outcome);
                    lemma_settles_delivers(after1, n, backlog, after, outcome)
                } else {
                    none
                };
                lemma_passes_on_all(
                    decoder.recv,
                    seq![item],
                    after1.recv,
                    handed_on(none, rest),
                    after.recv,
                );
                assert(handed_on(seq![packet], rest) =~= seq![item] + handed_on(none, rest));
                rest
            } else {
                none
            }
        },
        Stream::Fec(orientation) => {
            if let Ok(Ok(header)) = fec_packet(orientation, packet.bytes()) {
                law_merged_agrees(decoder, header);
                let merged = decoder.merged(header)->Ok_0;
                let (after1, backlog, outcome1) = choose|
                    after1: DecoderView<BP, Recv>,
                    backlog: Seq<BP::P>,
                    outcome1: Outcome,
                |
                    {
                        &&& #[trigger] merged.inserts_fec(
                            orientation,
                            seq,
                            packet,
                            none,
                            after1,
                            backlog,
                            outcome1,
                        )
                        &&& if proceeds(outcome1) {
                            after1.settles(backlog, after, outcome)
                        } else {
                            after == after1 && outcome == outcome1
                        }
                    };
                assert(after1.recv == decoder.recv);
                if proceeds(outcome1) {
                    let n = choose|n: nat| #[trigger]
                        after1.settles_within(n, backlog, after, outcome);
                    lemma_settles_delivers(after1, n, backlog, after, outcome)
                } else {
                    none
                }
            } else {
                none
            }
        },
    }
}

/// Packets are passed on as soon as possible: a media packet reaches the receiver in the call that
/// adds it to the decoder, whatever its sequence number, and before any packet that it makes it
/// possible to recover.  Other than that, only recovered packets reach the receiver.
pub proof fn law_packets_are_passed_on_at_once<BP: BufferPool, Recv: Receiver<BP::P>>(
    decoder: DecoderView<BP, Recv>,
    stream: Stream,
    packet: BP::P,
    after: DecoderView<BP, Recv>,
    outcome: Outcome,
)
    requires
        decoder.valid(),
        decoder.takes(stream, packet, after, outcome),
        outcome is Ok,
    ensures
        exists|recovered: Seq<BP::P>| #[trigger]
            passes_on(decoder.recv, handed_on(brings(stream, packet), recovered), after.recv),
{
    let recovered = lemma_takes_delivers(decoder, stream, packet, after, outcome);
    assert(passes_on(decoder.recv, handed_on(brings(stream, packet), recovered), after.recv));
}

/// Media packets are passed on in the order of their arrival, even where that is not the order of
/// their sequence numbers; recovered packets may come in between.
pub proof fn law_packets_are_passed_on_in_order_of_arrival<BP: BufferPool, Recv: Receiver<BP::P>>(
    decoder: DecoderView<BP, Recv>,
    packets: Seq<BP::P>,
    after: DecoderView<BP, Recv>,
)
    requires
        decoder.valid(),
        decoder.takes_all(Stream::Main, packets, after, Ok(Ok(()))),
    ensures
        exists|handed: Seq<(BP::P, PacketStatus)>|
            {
                &&& #[trigger] passes_on(decoder.recv, handed, after.recv)
                &&& arrivals_in(handed) == packets
            },
    decreases packets.len(),
{
    let outcome: Outcome = Ok(Ok(()));
    if packets.len() == 0 {
        let handed = Seq::<(BP::P, PacketStatus)>::empty();
        assert(passes_on(decoder.recv, handed, after.recv));
        assert(arrivals_in(handed) =~= packets);
    } else {
        let packet = packets[0];
        let (after1, outcome1) = choose|after1: DecoderView<BP, Recv>, outcome1: Outcome|
            {
                &&& #[trigger] decoder.takes(Stream::Main, packet, after1, outcome1)
                &&& if proceeds(outcome1) {
                    after1.takes_all(Stream::Main, packets.drop_first(), after, outcome)
                } else {
                    after == after1 && outcome == outcome1
                }
            };
        law_takes_frame(decoder, Stream::Main, packet, after1, outcome1);
        law_packets_are_passed_on_in_order_of_arrival(after1, packets.drop_first(), after);
        let recovered = lemma_takes_delivers(decoder, Stream::Main, packet, after1, outcome1);
        let first = handed_on(seq![packet], recovered);
        let rest = choose|rest: Seq<(BP::P, PacketStatus)>|
            {
                &&& #[trigger] passes_on(after1.recv, rest, after.recv)
                &&& arrivals_in(rest) == packets.drop_first()
            };
        lemma_passes_on_all(decoder.recv, first, after1.recv, rest, after.recv);
        lemma_arrivals_in_all(first, rest);
        lemma_arrivals_handed_on(seq![packet], recovered);
        assert(seq![packet] + packets.drop_first() =~= packets);
        assert(passes_on(decoder.recv, first + rest, after.recv));
    }
}

/// Before a FEC packet has made the geometry known, no batch of media packets is refused, or changes
/// anything but the receiver; it is processed where all are RTP packets, and whatever the receiver
/// makes of them.
pub proof fn law_media_batches_pass_through<BP: BufferPool, Recv: Receiver<BP::P>>(
    decoder: DecoderView<BP, Recv>,
    packets: Seq<BP::P>,
    after: DecoderView<BP, Recv>,
    outcome: Outcome,
)
    requires
        decoder.running is None,
    ensures
        decoder.accepts_all(Stream::Main, packets),
        decoder.takes_all(Stream::Main, packets, after, outcome) ==> after
            == decoder.with_receiver(after.recv),
        (forall|i: int| 0 <= i < packets.len() ==> rtp_error(#[trigger] packets[i].bytes()) is None)
            ==> (decoder.takes_all(Stream::Main, packets, after, outcome) <==> {
            &&& passes_on(decoder.recv, handed_on(packets, Seq::empty()), after.recv)
            &&& after == decoder.with_receiver(after.recv)
            &&& outcome == Ok::<_, Refusal>(Ok::<(), FecDecodeError>(()))
        }),
    decreases packets.len(),
{
    let none = Seq::<BP::P>::empty();
    let handed = handed_on(packets, none);
    if packets.len() == 0 {
        assert(handed =~= Seq::empty());
        assert(after == decoder ==> after == decoder.with_receiver(after.recv));
    } else {
        let rest = packets.drop_first();
        let packet = packets[0];
        assert(handed.drop_first() =~= handed_on(rest, none));
        assert(handed[0] == (packet, PacketStatus::Received));
        assert forall|after1: DecoderView<BP, Recv>, outcome1: Outcome| #[trigger]
            decoder.takes(Stream::Main, packet, after1, outcome1) implies outcome1 is Ok && after1
            == decoder.with_receiver(after1.recv) by {
            law_media_packets_pass_through(decoder, packet, after1, outcome1);
        }
        assert forall|after2: DecoderView<BP, Recv>, outcome2: Outcome| #[trigger]
            decoder.takes_all(Stream::Main, packets, after2, outcome2) implies outcome2 is Ok
            && after2 == decoder.with_receiver(after2.recv) by {
            let (after1, outcome1) = choose|after1: DecoderView<BP, Recv>, outcome1: Outcome|
                {
                    &&& #[trigger] decoder.takes(Stream::Main, packet, after1, outcome1)
                    &&& if proceeds(outcome1) {
                        after1.takes_all(Stream::Main, rest, after2, outcome2)
                    } else {
                        after2 == after1 && outcome2 == outcome1
                    }
                };
            if proceeds(outcome1) {
                law_media_batches_pass_through(after1, rest, after2, outcome2);
            }
        }
        if forall|i: int|
            0 <= i < packets.len() ==> rtp_error(#[trigger] packets[i].bytes()) is None {
            assert forall|i: int| 0 <= i < rest.len() implies rtp_error(
                #[trigger] rest[i].bytes(),
            ) is None by {
                assert(rest[i] == packets[i + 1]);
            }
            assert(rtp_error(packets[0].bytes()) is None);
            if decoder.takes_all(Stream::Main, packets, after, outcome) {
                let (after1, outcome1) = choose|after1: DecoderView<BP, Recv>, outcome1: Outcome|
                    {
                        &&& #[trigger] decoder.takes(Stream::Main, packet, after1, outcome1)
                        &&& if proceeds(outcome1) {
                            after1.takes_all(Stream::Main, rest, after, outcome)
                        } else {
                            after == after1 && outcome == outcome1
                        }
                    };
                law_media_packets_pass_through(decoder, packet, after1, outcome1);
                law_media_batches_pass_through(after1, rest, after, outcome);
                assert(Recv::received(decoder.recv, seq![handed[0]], after1.recv));
            }
            if passes_on(decoder.recv, handed, after.recv) && after == decoder.with_receiver(
                after.recv,
            ) && proceeds(outcome) {
                let mid = choose|mid: Recv|
                    {
                        &&& #[trigger] Recv::received(decoder.recv, seq![handed[0]], mid)
                        &&& passes_on(mid, handed.drop_first(), after.recv)
                    };
                let after1 = decoder.with_receiver(mid);
                law_media_packets_pass_through(decoder, packet, after1, Ok(Ok(())));
                law_media_batches_pass_through(after1, rest, after, outcome);
                assert(decoder.takes(Stream::Main, packets[0], after1, Ok(Ok(()))));
            }
        }
    }
}

} // verus!
