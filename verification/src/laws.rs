//! The protocol-wide guarantees, stated and proved over the abstract model:
//! alignment, counter ordering, wrap correctness, where `latest` leads a
//! receiver, what a late joiner sees, and that committed records never
//! change.

use vstd::prelude::*;

verus! {

use crate::broadcast::{
    align_up, consumed_len, frames_layout, is_frame_start, is_pow2, lemma_starts_increase,
    region_extends, start_index, target_frame, target_index, transmit_consumed, BroadcastRx,
    Frame, Region,
};

/// Alignment: every counter and every record start offset is a multiple of
/// 8, and so is the aligned length every frame consumes. (The raw header
/// `length` of a data record is its payload size plus 8 and need not itself
/// be a multiple of 8; the ring advances by its aligned length.)
pub proof fn lemma_alignment(r: Region)
    requires
        r.inv(),
    ensures
        r.tail_spec() % 8 == 0,
        r.tail_intent_spec() % 8 == 0,
        r.latest_spec() % 8 == 0,
        forall|i: int|
            0 <= i < r.frames_spec().len() ==> (#[trigger] r.frames_spec()[i]).start % 8 == 0
                && consumed_len(r.frames_spec()[i]) % 8 == 0,
{
    assert forall|i: int|
        0 <= i < r.frames_spec().len() implies (#[trigger] r.frames_spec()[i]).start % 8 == 0
        && consumed_len(r.frames_spec()[i]) % 8 == 0 by {
        crate::broadcast::lemma_align8(r.frames_spec()[i].length);
    };
}

/// Ordering of counters: at every quiescent point
/// `latest <= tail <= tail_intent`.
pub proof fn lemma_counter_order(r: Region)
    requires
        r.inv(),
    ensures
        r.latest_spec() <= r.tail_spec() <= r.tail_intent_spec(),
{
}

/// Wrap correctness: for any starting tail, either the new frame fits before
/// the ring end and the tail advances by its aligned length alone, or a
/// padding frame of exactly `C - (tail mod C)` bytes is inserted first and
/// the record itself starts at ring offset zero; in both cases the tail
/// advances by the full consumed byte count, which `transmit` returns.
pub proof fn lemma_wrap_correctness(t: int, c: int, msg_size: int)
    requires
        is_pow2(c),
        32 <= c,
        0 <= t,
        1 <= msg_size <= c / 8,
    ensures
        ({
            let off = t % c;
            let aligned = align_up(msg_size + 8, 8);
            &&& off + aligned <= c ==> transmit_consumed(t, c, msg_size) == aligned
            &&& off + aligned > c ==> transmit_consumed(t, c, msg_size) == aligned + (c - off)
            &&& off + aligned > c ==> (t + (c - off)) % c == 0
        }),
{
    crate::broadcast::lemma_wrap_lands_on_zero(t, c);
}

/// Padding is never the target: a receiver that stands where `latest` points
/// always delivers a data record. When the last transmit did not wrap,
/// `latest` is the start of that data record itself; when it wrapped,
/// `latest` is the start of the padding record whose immediate successor is
/// the data record, and the receiver steps over the padding.
pub proof fn lemma_latest_targets_data(r: Region)
    requires
        r.inv(),
        r.frames_spec().len() > 0,
    ensures
        target_frame(r, r.latest_spec()).type_id != 0,
        target_index(r, r.latest_spec()) == r.frames_spec().len() - 1,
        is_frame_start(r.frames_spec(), r.latest_spec()),
        r.latest_spec() == r.frames_spec().last().start ==> r.frames_spec()[start_index(
            r.frames_spec(),
            r.latest_spec(),
        )].type_id != 0,
{
    let fs = r.frames_spec();
    let n = fs.len() as int;
    let c = r.cap_spec();
    let t = r.tail_spec();
    if r.latest_spec() == fs[n - 1].start {
        assert(is_frame_start(fs, r.latest_spec()));
        let i = start_index(fs, r.latest_spec());
        if i < n - 1 {
            lemma_starts_increase(fs, c, t, i, n - 1);
        }
        assert(i == n - 1);
    } else {
        assert(fs[n - 2].start == r.latest_spec());
        assert(is_frame_start(fs, r.latest_spec()));
        let i = start_index(fs, r.latest_spec());
        if i < n - 2 {
            lemma_starts_increase(fs, c, t, i, n - 2);
        }
        if i == n - 1 {
            lemma_starts_increase(fs, c, t, n - 2, n - 1);
        }
        assert(i == n - 2);
        assert(target_index(r, r.latest_spec()) == n - 1);
    }
}

/// Late joiner: while at least one record has been committed, `latest` lies
/// strictly behind `tail` yet within one ring turn of it, and the record a
/// receiver standing at `latest` delivers is the newest committed record,
/// whose end is exactly `tail`. So a receiver constructed after `k`
/// transmissions receives the most recent record on its first call and finds
/// no further record at its second.
pub proof fn lemma_late_joiner(r: Region)
    requires
        r.inv(),
        r.frames_spec().len() > 0,
    ensures
        r.latest_spec() < r.tail_spec(),
        r.latest_spec() + r.cap_spec() > r.tail_intent_spec(),
        target_frame(r, r.latest_spec()) == r.frames_spec().last(),
        target_frame(r, r.latest_spec()).type_id != 0,
        target_frame(r, r.latest_spec()).start + consumed_len(target_frame(r, r.latest_spec()))
            == r.tail_spec(),
{
    let fs = r.frames_spec();
    let n = fs.len() as int;
    let c = r.cap_spec();
    let t = r.tail_spec();
    lemma_latest_targets_data(r);
    crate::broadcast::lemma_align8(fs[n - 1].length);
    if r.latest_spec() != fs[n - 1].start {
        assert(fs[(n - 2) + 1].start == fs[n - 2].start + consumed_len(fs[n - 2]));
        crate::broadcast::lemma_align8(fs[n - 2].length);
    }
}

/// A committed record never changes as the log grows: the payload a receiver
/// copies out of a record is byte for byte the payload the transmitter wrote
/// when it committed that record, however many transmits happened since.
pub proof fn lemma_log_stable(r1: Region, r2: Region, i: int)
    requires
        region_extends(r1, r2),
        0 <= i < r1.frames_spec().len(),
    ensures
        r2.frames_spec()[i] == r1.frames_spec()[i],
{
    assert(r1.frames_spec() =~= r2.frames_spec().subrange(0, r1.frames_spec().len() as int));
}

/// A receiver stays on a committed frame boundary as the transmitter appends
/// further records: its view of the region only ever grows.
pub proof fn lemma_rx_wf_extends(rx: BroadcastRx, r1: Region, r2: Region)
    requires
        rx.wf(r1),
        r1.inv(),
        r2.inv(),
        region_extends(r1, r2),
    ensures
        rx.wf(r2),
{
    lemma_boundary_extends(r1, r2, rx.cursor_spec());
}

/// A record boundary of an earlier region state is still a record boundary
/// after the transmitter has appended further records; this is what lets a
/// caller split a receive into `receive_begin` and a later `commit_read`
/// over the newer state.
pub proof fn lemma_boundary_extends(r1: Region, r2: Region, pos: int)
    requires
        r1.inv(),
        r2.inv(),
        region_extends(r1, r2),
        pos == r1.tail_spec() || is_frame_start(r1.frames_spec(), pos),
        pos <= r1.tail_spec(),
    ensures
        pos == r2.tail_spec() || is_frame_start(r2.frames_spec(), pos),
        pos <= r2.tail_spec(),
{
    let fs1 = r1.frames_spec();
    let fs2 = r2.frames_spec();
    assert(fs1 =~= fs2.subrange(0, fs1.len() as int));
    if pos == r1.tail_spec() {
        if fs2.len() > fs1.len() {
            assert(fs2[fs1.len() as int].start == r1.tail_spec());
            assert(is_frame_start(fs2, pos));
        } else {
            assert(fs1 =~= fs2);
            if fs1.len() == 0 {
                assert(r2.tail_spec() == 0);
            } else {
                assert(r2.tail_spec() == fs2[fs2.len() - 1].start + consumed_len(
                    fs2[fs2.len() - 1],
                ));
            }
            assert(pos == r2.tail_spec());
        }
    } else {
        let i = start_index(fs1, pos);
        assert(0 <= i < fs1.len() && fs1[i].start == pos);
        assert(fs2[i] == fs1[i]);
        assert(is_frame_start(fs2, pos));
    }
}


/// Extension chains: a region reached through any number of transmits still
/// extends every earlier state, so `lemma_rx_wf_extends` carries a receiver
/// across a whole burst.
pub proof fn lemma_extends_trans(r1: Region, r2: Region, r3: Region)
    requires
        r1.inv(),
        r2.inv(),
        region_extends(r1, r2),
        region_extends(r2, r3),
    ensures
        region_extends(r1, r3),
{
    let fs1 = r1.frames_spec();
    let fs2 = r2.frames_spec();
    let fs3 = r3.frames_spec();
    assert(fs1 =~= fs2.subrange(0, fs1.len() as int));
    assert(fs2 =~= fs3.subrange(0, fs2.len() as int));
    assert(fs1 =~= fs3.subrange(0, fs1.len() as int));
    if fs3.len() > fs1.len() {
        if fs2.len() > fs1.len() {
            assert(fs3[fs1.len() as int] == fs2[fs1.len() as int]);
        } else {
            assert(fs1 =~= fs2);
            if fs1.len() == 0 {
                assert(r2.tail_spec() == 0);
            } else {
                assert(r2.tail_spec() == fs2[fs2.len() - 1].start + consumed_len(
                    fs2[fs2.len() - 1],
                ));
            }
            assert(r2.tail_spec() == r1.tail_spec());
        }
    }
}

} // verus!
