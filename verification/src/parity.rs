//! Combining packets by exclusive-or.

use crate::rtp::rtp_timestamp;
use vstd::prelude::*;

verus! {

/// The bytewise exclusive-or of `a` with the corresponding bytes of `b`.
pub open spec fn xor_bytes(a: Seq<u8>, b: Seq<u8>) -> Seq<u8> {
    Seq::new(a.len(), |i: int| a[i] ^ b[i])
}

/// The bytewise exclusive-or of `bytes` with every one of `packets`.
pub open spec fn xor_packets(bytes: Seq<u8>, packets: Seq<Seq<u8>>) -> Seq<u8>
    decreases packets.len(),
{
    if packets.len() == 0 {
        bytes
    } else {
        xor_bytes(xor_packets(bytes, packets.drop_last()), packets.last())
    }
}

/// The exclusive-or of `len` with the length of what follows the header in every one of `packets`,
/// modulo 2^16.
pub open spec fn xor_lengths(len: u16, packets: Seq<Seq<u8>>) -> u16
    decreases packets.len(),
{
    if packets.len() == 0 {
        len
    } else {
        xor_lengths(len, packets.drop_last()) ^ ((packets.last().len() - 12) as u16)
    }
}

/// The exclusive-or of `ts` with the RTP timestamp of every one of `packets`.
pub open spec fn xor_timestamps(ts: u32, packets: Seq<Seq<u8>>) -> u32
    decreases packets.len(),
{
    if packets.len() == 0 {
        ts
    } else {
        xor_timestamps(ts, packets.drop_last()) ^ rtp_timestamp(packets.last())
    }
}

/// What follows the header in each of `packets`.
pub open spec fn payloads(packets: Seq<Seq<u8>>) -> Seq<Seq<u8>> {
    Seq::new(packets.len(), |i: int| packets[i].skip(12))
}

/// Performs exclusive-or of every byte in `src` with the corresponding byte in `dst`, placing
/// the result in `dst`.
pub fn xor(dst: &mut [u8], src: &[u8])
    requires
        old(dst)@.len() == src@.len(),
    ensures
        final(dst)@ == xor_bytes(old(dst)@, src@),
        final(dst)@.len() == old(dst)@.len(),
        forall|i: int|
            0 <= i < src@.len() ==> #[trigger] final(dst)@[i] == old(dst)@[i] ^ src@[i],
{
    let ghost before = dst@;
    let mut i: usize = 0;
    while i < src.len()
        invariant
            i <= src@.len(),
            before.len() == src@.len(),
            dst@.len() == src@.len(),
            forall|j: int| 0 <= j < i ==> dst@[j] == before[j] ^ src@[j],
            forall|j: int| i <= j < src@.len() ==> dst@[j] == before[j],
        decreases src@.len() - i,
    {
        dst[i] = dst[i] ^ src[i];
        i += 1;
    }
    assert(dst@ =~= xor_bytes(before, src@));
}

/// What it means to combine packets: one more packet flips just those bits that are set in it, in
/// every byte, in the length of what follows its header and in the timestamp.  It makes no difference
/// which of two packets comes first.
pub proof fn law_packets_are_combined_bitwise(
    bytes: Seq<u8>,
    len: u16,
    ts: u32,
    packets: Seq<Seq<u8>>,
    a: Seq<u8>,
    b: Seq<u8>,
)
    ensures
        xor_packets(bytes, Seq::empty()) == bytes,
        xor_lengths(len, Seq::empty()) == len,
        xor_timestamps(ts, Seq::empty()) == ts,
        xor_packets(bytes, packets.push(a)).len() == bytes.len(),
        forall|i: int|
            0 <= i < bytes.len() ==> #[trigger] xor_packets(bytes, packets.push(a))[i]
                == xor_packets(bytes, packets)[i] ^ a[i],
        xor_lengths(len, packets.push(a)) == xor_lengths(len, packets) ^ ((a.len() - 12) as u16),
        xor_timestamps(ts, packets.push(a)) == xor_timestamps(ts, packets) ^ rtp_timestamp(a),
        xor_packets(bytes, packets.push(a).push(b)) == xor_packets(bytes, packets.push(b).push(a)),
        xor_lengths(len, packets.push(a).push(b)) == xor_lengths(len, packets.push(b).push(a)),
        xor_timestamps(ts, packets.push(a).push(b)) == xor_timestamps(
            ts,
            packets.push(b).push(a),
        ),
{
    lemma_xor_packets_len(bytes, packets);
    assert(packets.push(a).drop_last() =~= packets);
    assert(packets.push(b).drop_last() =~= packets);
    assert(packets.push(a).push(b).drop_last() =~= packets.push(a));
    assert(packets.push(b).push(a).drop_last() =~= packets.push(b));
    reveal_with_fuel(xor_packets, 3);
    reveal_with_fuel(xor_lengths, 3);
    reveal_with_fuel(xor_timestamps, 3);
    lemma_xor_commutes(xor_packets(bytes, packets), a, b);
    let x = xor_lengths(len, packets);
    let y = (a.len() - 12) as u16;
    let z = (b.len() - 12) as u16;
    assert((x ^ y) ^ z == (x ^ z) ^ y) by (bit_vector);
    let t = xor_timestamps(ts, packets);
    let u = rtp_timestamp(a);
    let v = rtp_timestamp(b);
    assert((t ^ u) ^ v == (t ^ v) ^ u) by (bit_vector);
}

/// Combining packets keeps the length.
pub(crate) proof fn lemma_xor_packets_len(bytes: Seq<u8>, packets: Seq<Seq<u8>>)
    ensures
        xor_packets(bytes, packets).len() == bytes.len(),
    decreases packets.len(),
{
    if packets.len() > 0 {
        lemma_xor_packets_len(bytes, packets.drop_last());
    }
}

/// Combining bytes with the same packet once more cancels out.
pub(crate) proof fn lemma_xor_cancels(bytes: Seq<u8>, packet: Seq<u8>)
    ensures
        xor_bytes(xor_bytes(bytes, packet), packet) == bytes,
{
    assert forall|i: int| 0 <= i < bytes.len() implies xor_bytes(
        xor_bytes(bytes, packet),
        packet,
    )[i] == bytes[i] by {
        let a = bytes[i];
        let b = packet[i];
        assert((a ^ b) ^ b == a) by (bit_vector);
    }
    assert(xor_bytes(xor_bytes(bytes, packet), packet) =~= bytes);
}

/// The order in which packets are combined does not matter.
pub(crate) proof fn lemma_xor_commutes(bytes: Seq<u8>, a: Seq<u8>, b: Seq<u8>)
    ensures
        xor_bytes(xor_bytes(bytes, a), b) == xor_bytes(xor_bytes(bytes, b), a),
{
    assert forall|i: int| 0 <= i < bytes.len() implies xor_bytes(xor_bytes(bytes, a), b)[i]
        == xor_bytes(xor_bytes(bytes, b), a)[i] by {
        let x = bytes[i];
        let y = a[i];
        let z = b[i];
        assert((x ^ y) ^ z == (x ^ z) ^ y) by (bit_vector);
    }
    assert(xor_bytes(xor_bytes(bytes, a), b) =~= xor_bytes(xor_bytes(bytes, b), a));
}

/// A packet can be left for last in the combination.
pub(crate) proof fn lemma_xor_packets_remove(bytes: Seq<u8>, packets: Seq<Seq<u8>>, k: int)
    requires
        0 <= k < packets.len(),
    ensures
        xor_packets(bytes, packets) == xor_bytes(
            xor_packets(bytes, packets.remove(k)),
            packets[k],
        ),
    decreases packets.len(),
{
    let rest = packets.drop_last();
    if k == packets.len() - 1 {
        assert(packets.remove(k) =~= rest);
    } else {
        lemma_xor_packets_remove(bytes, rest, k);
        assert(packets.remove(k).drop_last() =~= rest.remove(k));
        assert(packets.remove(k).last() == packets.last());
        lemma_xor_commutes(xor_packets(bytes, rest.remove(k)), packets[k], packets.last());
    }
}

/// Bytes combined with one more packet beforehand could as well be combined with it afterwards.
pub(crate) proof fn lemma_xor_packets_of_xor(bytes: Seq<u8>, packet: Seq<u8>, packets: Seq<Seq<u8>>)
    ensures
        xor_packets(xor_bytes(bytes, packet), packets) == xor_bytes(
            xor_packets(bytes, packets),
            packet,
        ),
    decreases packets.len(),
{
    if packets.len() > 0 {
        let rest = packets.drop_last();
        lemma_xor_packets_of_xor(bytes, packet, rest);
        lemma_xor_commutes(xor_packets(bytes, rest), packet, packets.last());
    }
}

/// Combining bytes with the same packets once more cancels out.
pub(crate) proof fn lemma_xor_packets_cancels(bytes: Seq<u8>, packets: Seq<Seq<u8>>)
    ensures
        xor_packets(xor_packets(bytes, packets), packets) == bytes,
    decreases packets.len(),
{
    if packets.len() > 0 {
        let rest = packets.drop_last();
        lemma_xor_packets_of_xor(xor_packets(bytes, rest), packets.last(), rest);
        lemma_xor_packets_cancels(bytes, rest);
        lemma_xor_cancels(bytes, packets.last());
    }
}

/// What follows the header is combined on its own.
pub(crate) proof fn lemma_xor_packets_payload(head: Seq<u8>, bytes: Seq<u8>, packets: Seq<Seq<u8>>)
    requires
        head.len() == 12,
        forall|i: int|
            0 <= i < packets.len() ==> (#[trigger] packets[i]).len() == bytes.len() + 12,
    ensures
        xor_packets(head + bytes, packets).skip(12) == xor_packets(bytes, payloads(packets)),
    decreases packets.len(),
{
    lemma_xor_packets_len(head + bytes, packets);
    lemma_xor_packets_len(bytes, payloads(packets));
    if packets.len() == 0 {
        assert((head + bytes).skip(12) =~= bytes);
    } else {
        let rest = packets.drop_last();
        lemma_xor_packets_payload(head, bytes, rest);
        lemma_xor_packets_len(head + bytes, rest);
        lemma_xor_packets_len(bytes, payloads(rest));
        assert(payloads(packets).drop_last() =~= payloads(rest));
        assert(payloads(packets).last() == packets.last().skip(12));
        let combined = xor_packets(head + bytes, rest);
        assert forall|i: int| 0 <= i < bytes.len() implies xor_bytes(
            combined,
            packets.last(),
        ).skip(12)[i] == xor_bytes(combined.skip(12), packets.last().skip(12))[i] by {}
        assert(xor_packets(head + bytes, packets).skip(12) =~= xor_packets(
            bytes,
            payloads(packets),
        ));
    }
}

/// A length combined beforehand could as well be combined afterwards.
pub(crate) proof fn lemma_xor_lengths_of_xor(a: u16, b: u16, packets: Seq<Seq<u8>>)
    ensures
        xor_lengths(a ^ b, packets) == xor_lengths(a, packets) ^ b,
    decreases packets.len(),
{
    if packets.len() > 0 {
        lemma_xor_lengths_of_xor(a, b, packets.drop_last());
        let x = xor_lengths(a, packets.drop_last());
        let y = (packets.last().len() - 12) as u16;
        assert((x ^ b) ^ y == (x ^ y) ^ b) by (bit_vector);
    }
}

/// Combining all lengths with those of all packets but one gives the length of that one.
pub(crate) proof fn lemma_xor_lengths_remove(packets: Seq<Seq<u8>>, k: int)
    requires
        0 <= k < packets.len(),
    ensures
        xor_lengths(xor_lengths(0, packets), packets.remove(k)) == (packets[k].len() - 12) as u16,
    decreases packets.len(),
{
    let rest = packets.drop_last();
    let x = xor_lengths(0, rest);
    let y = (packets.last().len() - 12) as u16;
    if k == packets.len() - 1 {
        assert(packets.remove(k) =~= rest);
        lemma_xor_lengths_cancels(rest);
        lemma_xor_lengths_of_xor(x, y, rest);
        assert(0u16 ^ y == y) by (bit_vector);
    } else {
        let z = (packets[k].len() - 12) as u16;
        lemma_xor_lengths_remove(rest, k);
        assert(packets.remove(k).drop_last() =~= rest.remove(k));
        assert(packets.remove(k).last() == packets.last());
        lemma_xor_lengths_of_xor(x, y, rest.remove(k));
        assert((z ^ y) ^ y == z) by (bit_vector);
    }
}

/// Combining the same lengths once more cancels out.
pub(crate) proof fn lemma_xor_lengths_cancels(packets: Seq<Seq<u8>>)
    ensures
        xor_lengths(xor_lengths(0, packets), packets) == 0,
    decreases packets.len(),
{
    if packets.len() > 0 {
        let rest = packets.drop_last();
        let x = xor_lengths(0, rest);
        let y = (packets.last().len() - 12) as u16;
        lemma_xor_lengths_cancels(rest);
        lemma_xor_lengths_of_xor(x, y, rest);
        assert((0u16 ^ y) ^ y == 0) by (bit_vector);
    }
}

/// A timestamp combined beforehand could as well be combined afterwards.
pub(crate) proof fn lemma_xor_timestamps_of_xor(a: u32, b: u32, packets: Seq<Seq<u8>>)
    ensures
        xor_timestamps(a ^ b, packets) == xor_timestamps(a, packets) ^ b,
    decreases packets.len(),
{
    if packets.len() > 0 {
        lemma_xor_timestamps_of_xor(a, b, packets.drop_last());
        let x = xor_timestamps(a, packets.drop_last());
        let y = rtp_timestamp(packets.last());
        assert((x ^ b) ^ y == (x ^ y) ^ b) by (bit_vector);
    }
}

/// Combining all timestamps with those of all packets but one gives the timestamp of that one.
pub(crate) proof fn lemma_xor_timestamps_remove(packets: Seq<Seq<u8>>, k: int)
    requires
        0 <= k < packets.len(),
    ensures
        xor_timestamps(xor_timestamps(0, packets), packets.remove(k)) == rtp_timestamp(packets[k]),
    decreases packets.len(),
{
    let rest = packets.drop_last();
    let x = xor_timestamps(0, rest);
    let y = rtp_timestamp(packets.last());
    if k == packets.len() - 1 {
        assert(packets.remove(k) =~= rest);
        lemma_xor_timestamps_cancels(rest);
        lemma_xor_timestamps_of_xor(x, y, rest);
        assert(0u32 ^ y == y) by (bit_vector);
    } else {
        let z = rtp_timestamp(packets[k]);
        lemma_xor_timestamps_remove(rest, k);
        assert(packets.remove(k).drop_last() =~= rest.remove(k));
        assert(packets.remove(k).last() == packets.last());
        lemma_xor_timestamps_of_xor(x, y, rest.remove(k));
        assert((z ^ y) ^ y == z) by (bit_vector);
    }
}

/// Combining the same timestamps once more cancels out.
pub(crate) proof fn lemma_xor_timestamps_cancels(packets: Seq<Seq<u8>>)
    ensures
        xor_timestamps(xor_timestamps(0, packets), packets) == 0,
    decreases packets.len(),
{
    if packets.len() > 0 {
        let rest = packets.drop_last();
        let x = xor_timestamps(0, rest);
        let y = rtp_timestamp(packets.last());
        lemma_xor_timestamps_cancels(rest);
        lemma_xor_timestamps_of_xor(x, y, rest);
        assert((0u32 ^ y) ^ y == 0) by (bit_vector);
    }
}

} // verus!
