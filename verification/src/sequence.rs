//! Arithmetic on 16-bit RTP sequence numbers, which wrap from `0xffff` back to `0`.

use rtp_rs::IntoSeqIterator;
use vstd::prelude::*;

verus! {

/// The sequence number `n` places after `seq`.
pub open spec fn seq_add(seq: u16, n: int) -> u16 {
    ((seq + n) % 0x1_0000) as u16
}

/// How far `a` lies after `b`, going the shorter way around: at least `-0x8000` and less than
/// `0x8000`.
pub open spec fn seq_diff(a: u16, b: u16) -> int {
    let delta = a - b;
    if delta < -0x8000 {
        delta + 0x1_0000
    } else if delta >= 0x8000 {
        delta - 0x1_0000
    } else {
        delta
    }
}

/// Whether `a` comes before `b`.
pub open spec fn seq_lt(a: u16, b: u16) -> bool {
    seq_diff(a, b) < 0
}

/// The sequence numbers from `start` up to, but not including, `end`; none where `end` does not
/// come after `start`.
pub open spec fn seq_range(start: u16, end: u16) -> Seq<u16> {
    if seq_lt(start, end) {
        Seq::new((-seq_diff(start, end)) as nat, |i: int| seq_add(start, i))
    } else {
        Seq::empty()
    }
}

/// Subtraction of `rtp_rs::Seq`: wraps around, so that `0x0000 - 0xffff` is `1`.
#[verifier::external_body]
pub(crate) fn diff(a: u16, b: u16) -> (res: i32)
    ensures
        res == seq_diff(a, b),
{
    rtp_rs::Seq::from(a) - rtp_rs::Seq::from(b)
}

/// The `<` of `rtp_rs::Seq`: the sign of the wrapped difference.
#[verifier::external_body]
pub(crate) fn before(a: u16, b: u16) -> (res: bool)
    ensures
        res == seq_lt(a, b),
{
    rtp_rs::Seq::from(a) < rtp_rs::Seq::from(b)
}

/// `rtp_rs::Seq::next`: the following number, with `0` after `0xffff`.
#[verifier::external_body]
pub(crate) fn next(seq: u16) -> (res: u16)
    ensures
        res == seq_add(seq, 1),
{
    u16::from(rtp_rs::Seq::from(seq).next())
}

/// Addition of a `u16` to an `rtp_rs::Seq`, wrapping around.
#[verifier::external_body]
pub(crate) fn advance(seq: u16, n: u16) -> (res: u16)
    ensures
        res == seq_add(seq, n as int),
{
    u16::from(rtp_rs::Seq::from(seq) + n)
}

/// `rtp_rs::IntoSeqIterator::seq_iter` on a range of `rtp_rs::Seq`: every number from the start of
/// the range up to its end, exclusive, in order, and none where the start is not before the end.
#[verifier::external_body]
pub(crate) fn range(start: u16, end: u16) -> (res: Vec<u16>)
    ensures
        res@ == seq_range(start, end),
{
    (rtp_rs::Seq::from(start)..rtp_rs::Seq::from(end)).seq_iter().map(u16::from).collect()
}

/// Moving twice is moving once by the sum.
pub(crate) proof fn lemma_seq_add_add(seq: u16, i: int, j: int)
    ensures
        seq_add(seq_add(seq, i), j) == seq_add(seq, i + j),
{
}

/// Moving by the difference leads from the one number to the other.
pub(crate) proof fn lemma_seq_add_diff(a: u16, b: u16)
    ensures
        seq_add(b, seq_diff(a, b)) == a,
{
}

} // verus!
