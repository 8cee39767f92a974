//! Sequence-space arithmetic over the 32-bit wrapping TCP sequence space,
//! and the segment acceptability test built on it.

use vstd::prelude::*;

verus! {

/// `x` lies strictly after `start` and strictly before `end` when the
/// sequence space is viewed as a circle rotated so that `start` is the origin.
pub open spec fn is_between_wrapped_spec(start: u32, x: u32, end: u32) -> bool {
    x != start && end.wrapping_sub(start) > x.wrapping_sub(start)
}

pub fn is_between_wrapped(start: u32, x: u32, end: u32) -> (r: bool)
    ensures
        r == is_between_wrapped_spec(start, x, end),
{
    x != start && end.wrapping_sub(start) > x.wrapping_sub(start)
}

/// Inclusive-of-start variant: `start <= val < end` in wrapping order.
pub open spec fn seq_in_window_spec(start: u32, end: u32, val: u32) -> bool {
    is_between_wrapped_spec(start.wrapping_sub(1), val, end)
}

pub fn seq_in_window(start: u32, end: u32, val: u32) -> (r: bool)
    ensures
        r == seq_in_window_spec(start, end, val),
{
    is_between_wrapped(start.wrapping_sub(1), val, end)
}

/// Acceptability of a segment with sequence number `seqn` and
/// sequence-consuming length `slen` against a receive window
/// `[recv_nxt, recv_nxt + recv_wnd)`:
/// an empty segment must sit exactly at `recv_nxt` when the window is
/// closed and inside the window otherwise; a non-empty segment is never
/// acceptable into a closed window, and otherwise must have its first or
/// its last byte inside the window.
pub open spec fn segment_valid_spec(recv_nxt: u32, recv_wnd: u16, seqn: u32, slen: u32) -> bool {
    let wend = recv_nxt.wrapping_add(recv_wnd as u32);
    if slen == 0 {
        if recv_wnd == 0 {
            seqn == recv_nxt
        } else {
            seq_in_window_spec(recv_nxt, wend, seqn)
        }
    } else {
        if recv_wnd == 0 {
            false
        } else {
            seq_in_window_spec(recv_nxt, wend, seqn)
                || seq_in_window_spec(recv_nxt, wend, seqn.wrapping_add(slen.wrapping_sub(1)))
        }
    }
}

pub fn segment_valid(recv_nxt: u32, recv_wnd: u16, seqn: u32, slen: u32) -> (r: bool)
    ensures
        r == segment_valid_spec(recv_nxt, recv_wnd, seqn, slen),
{
    let wend = recv_nxt.wrapping_add(recv_wnd as u32);
    if slen == 0 {
        if recv_wnd == 0 {
            seqn == recv_nxt
        } else {
            seq_in_window(recv_nxt, wend, seqn)
        }
    } else {
        if recv_wnd == 0 {
            false
        } else {
            seq_in_window(recv_nxt, wend, seqn)
                || seq_in_window(recv_nxt, wend, seqn.wrapping_add(slen.wrapping_sub(1)))
        }
    }
}

/// Rotation consistency of `is_between_wrapped`: from any `start`, the
/// point one past `start` lies between `start` and `start + k` for every
/// offset `2 <= k < 2^31`, and never when `k == 0` (for `k == 1` the
/// interval is empty above `start`, since its upper end is exclusive).
pub proof fn lemma_is_between_wrapped_rotation(start: u32, k: u32)
    ensures
        2 <= k < 0x8000_0000 ==> is_between_wrapped_spec(
            start,
            start.wrapping_add(1),
            start.wrapping_add(k),
        ),
        k == 0 ==> !is_between_wrapped_spec(start, start.wrapping_add(1), start.wrapping_add(k)),
{
}

/// The acceptability table on segments at characteristic offsets from
/// `recv_nxt`: an empty segment at exactly `recv_nxt` is acceptable into a
/// closed window but one past it is not; into a window of 100, an empty
/// segment 50 ahead is acceptable and one 150 ahead is not; a non-empty
/// segment is never acceptable into a closed window.
pub proof fn lemma_segment_valid_table(n: u32)
    ensures
        segment_valid_spec(n, 0, n, 0),
        !segment_valid_spec(n, 0, n.wrapping_add(1), 0),
        segment_valid_spec(n, 100, n.wrapping_add(50), 0),
        !segment_valid_spec(n, 100, n.wrapping_add(150), 0),
        !segment_valid_spec(n, 0, n, 5),
{
}

} // verus!
