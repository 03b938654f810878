//! The broadcast protocol: framed records in a power-of-two ring, three
//! monotone counters, a single transmitter and independent receivers.

use vstd::prelude::*;

verus! {

use crate::bytes::{copy_into, lemma_u32_at_unchanged, load_u32, read_range, store_u32, u32_at, Bytes};
use vstd::arithmetic::div_mod::{
    lemma_add_mod_noop, lemma_fundamental_div_mod, lemma_mod_bound, lemma_mod_multiples_basic,
    lemma_small_mod,
};

/// Number of trailing bytes of a shared region that hold the counters block.
pub const TRAILER_SIZE: usize = 128;

/// Bytes of the record header: a 32-bit length and a 32-bit type id.
pub const HEADER_SIZE: u32 = 8;

/// Every record starts on a multiple of this many bytes within the ring.
pub const RECORD_ALIGNMENT: u32 = 8;

/// `v` rounded up to the next multiple of `a`.
pub open spec fn align_up(v: int, a: int) -> int
    recommends
        a > 0,
{
    ((v + a - 1) / a) * a
}

/// Rounds `val` up to the next multiple of `alignment`.
pub fn align(val: u32, alignment: u32) -> (r: u32)
    requires
        alignment >= 1,
        val + alignment <= u32::MAX,
    ensures
        r == align_up(val as int, alignment as int),
        val <= r,
{
    proof {
        let x = val as int + alignment as int - 1;
        let a = alignment as int;
        lemma_fundamental_div_mod(x, a);
        lemma_mod_bound(x, a);
        assert((x / a) * a == x - x % a);
    }
    ((val + alignment - 1) / alignment) * alignment
}

/// Tells whether `val` is a multiple of 8.
pub fn is_aligned8(val: u64) -> (r: bool)
    ensures
        r == (val % 8 == 0),
{
    val % 8 == 0
}

/// Identifies the kind of a record; `0` is reserved for padding records.
#[derive(Copy, Clone, Debug, Eq, PartialEq, Structural)]
pub struct MsgTypeId(pub u32);

impl MsgTypeId {
    pub fn inner(&self) -> (v: u32)
        ensures
            v == self.0,
    {
        self.0
    }
}

/// Errors a transmit can report; both are caller errors.
#[derive(Copy, Clone, Debug, Eq, PartialEq, Structural)]
pub enum TxErr {
    /// The reserved padding type id `0` was passed.
    InvalidMsgType,
    /// The payload exceeds an eighth of the ring capacity.
    MsgTooLarge(u32),
}

/// Tells whether `n` is a power of two.
pub open spec fn is_pow2(n: int) -> bool
    decreases n,
{
    if n <= 0 {
        false
    } else if n == 1 {
        true
    } else {
        n % 2 == 0 && is_pow2(n / 2)
    }
}

/// Outcomes of a receive that carry no record.
#[derive(Copy, Clone, Debug, Eq, PartialEq, Structural)]
pub enum RxErr {
    /// No new record is available; the caller may poll again.
    NoElement,
    /// The transmitter lapped this receiver; the cursor was moved to the
    /// newest committed record and the caller may immediately retry.
    Overwritten,
    /// A record carried the reserved type id.
    InvalidMsgType,
}

/// The abstract description of one committed record: its absolute start
/// offset, its header fields, and the payload bytes that were written for it.
/// Padding records have `type_id == 0` and an empty payload; their `length` is
/// the number of ring bytes they consume.
pub ghost struct Frame {
    pub start: int,
    pub length: int,
    pub type_id: u32,
    pub payload: Seq<u8>,
}

/// Ring bytes a frame consumes: its length rounded up to the record alignment.
pub open spec fn consumed_len(f: Frame) -> int {
    align_up(f.length, 8)
}

/// A frame that can sit in a ring of capacity `c`: it starts on an 8-byte
/// boundary, fits between its start and the ring end without wrapping, and is
/// either a data record carrying `length - 8` payload bytes or a padding
/// record running exactly to the ring end.
pub open spec fn frame_wf(f: Frame, c: int) -> bool {
    &&& 8 <= f.length
    &&& 0 <= f.start
    &&& f.start % 8 == 0
    &&& f.start % c + consumed_len(f) <= c
    &&& 2 * consumed_len(f) <= c
    &&& if f.type_id == 0 {
        &&& f.length % 8 == 0
        &&& f.payload.len() == 0
        &&& f.start % c + f.length == c
    } else {
        f.payload.len() == f.length - 8
    }
}

/// The bytes a frame owns in the ring: its header at the frame's ring offset
/// and, for a data record, its payload right after the header.
pub open spec fn frame_in_ring(ring: Seq<u8>, f: Frame, c: int) -> bool {
    let off = f.start % c;
    &&& u32_at(ring, off) == f.length
    &&& u32_at(ring, off + 4) == f.type_id
    &&& f.type_id != 0 ==> forall|j: int|
        0 <= j < f.length - 8 ==> ring[off + 8 + j] == f.payload[j]
}

/// The committed frames tile the byte interval `[0, t)` without gaps: each
/// starts where its predecessor ends, padding is never followed by padding,
/// and the newest frame is a data record ending exactly at `t`.
pub open spec fn frames_layout(fs: Seq<Frame>, c: int, t: int) -> bool {
    &&& forall|i: int| 0 <= i < fs.len() ==> frame_wf(#[trigger] fs[i], c)
    &&& fs.len() > 0 ==> fs[0].start == 0
    &&& forall|i: int|
        #![trigger fs[i], fs[i + 1]]
        0 <= i < fs.len() - 1 ==> fs[i + 1].start == fs[i].start + consumed_len(fs[i])
    &&& forall|i: int|
        #![trigger fs[i], fs[i + 1]]
        0 <= i < fs.len() - 1 ==> !(fs[i].type_id == 0 && fs[i + 1].type_id == 0)
    &&& if fs.len() == 0 {
        t == 0
    } else {
        &&& fs[fs.len() - 1].start + consumed_len(fs[fs.len() - 1]) == t
        &&& fs[fs.len() - 1].type_id != 0
    }
}

/// Every frame whose bytes cannot have been overwritten yet (its start is
/// less than one full ring turn behind `t`) still owns its bytes in the ring.
pub open spec fn frames_live_in_ring(ring: Seq<u8>, fs: Seq<Frame>, c: int, t: int) -> bool {
    forall|i: int|
        0 <= i < fs.len() && (#[trigger] fs[i]).start + c > t ==> frame_in_ring(ring, fs[i], c)
}

/// The three monotone 64-bit counters that publish the state of the ring.
pub struct Counters {
    pub(crate) tail_intent: u64,
    pub(crate) tail: u64,
    pub(crate) latest: u64,
}

impl Counters {
    pub closed spec fn tail_intent_spec(&self) -> int {
        self.tail_intent as int
    }

    pub closed spec fn tail_spec(&self) -> int {
        self.tail as int
    }

    pub closed spec fn latest_spec(&self) -> int {
        self.latest as int
    }

    /// The counter invariants: ordered and all multiples of 8.
    pub open spec fn wf(&self) -> bool {
        &&& self.latest_spec() <= self.tail_spec() <= self.tail_intent_spec()
        &&& self.latest_spec() % 8 == 0
        &&& self.tail_spec() % 8 == 0
        &&& self.tail_intent_spec() % 8 == 0
    }

    /// Publishes a committed record: `latest` first, then `tail`. The
    /// transmitter must already have published the matching `tail_intent`.
    pub fn commit_record(&mut self, latest_value_counter: u64, tail_counter: u64)
        requires
            latest_value_counter <= tail_counter,
            old(self).tail_intent_spec() == tail_counter,
        ensures
            final(self).latest_spec() == latest_value_counter,
            final(self).tail_spec() == tail_counter,
            final(self).tail_intent_spec() == old(self).tail_intent_spec(),
    {
        self.latest = latest_value_counter;
        self.tail = tail_counter;
    }
}

/// One broadcast region: the ring bytes, the counters block that in the byte
/// layout trails them, and the history of committed frames.
pub struct Region {
    pub(crate) ring: Vec<u8>,
    pub(crate) counters: Counters,
    pub(crate) frames: Ghost<Seq<Frame>>,
}

impl Region {
    /// The data capacity `C`: the power-of-two number of ring bytes.
    pub closed spec fn cap_spec(&self) -> int {
        self.ring@.len() as int
    }

    pub closed spec fn ring_spec(&self) -> Seq<u8> {
        self.ring@
    }

    /// The full log of committed frames, paddings included, oldest first.
    pub closed spec fn frames_spec(&self) -> Seq<Frame> {
        self.frames@
    }

    pub closed spec fn counters_spec(&self) -> Counters {
        self.counters
    }

    pub open spec fn tail_spec(&self) -> int {
        self.counters_spec().tail_spec()
    }

    pub open spec fn tail_intent_spec(&self) -> int {
        self.counters_spec().tail_intent_spec()
    }

    pub open spec fn latest_spec(&self) -> int {
        self.counters_spec().latest_spec()
    }

    /// `latest` designates the first frame the last transmit wrote: the data
    /// record itself or, when that transmit wrapped, the padding record that
    /// precedes it at the far end of the ring.
    pub open spec fn latest_ok(&self) -> bool {
        let fs = self.frames_spec();
        if fs.len() == 0 {
            self.latest_spec() == 0
        } else {
            ||| self.latest_spec() == fs[fs.len() - 1].start
            ||| (fs.len() >= 2 && self.latest_spec() == fs[fs.len() - 2].start && fs[fs.len()
                - 2].type_id == 0)
        }
    }

    /// The region invariant, restored at every quiescent point.
    pub open spec fn inv(&self) -> bool {
        &&& is_pow2(self.cap_spec())
        &&& 32 <= self.cap_spec() <= 0x4000_0000
        &&& self.counters_spec().wf()
        &&& self.tail_spec() == self.tail_intent_spec()
        &&& self.tail_spec() < self.latest_spec() + self.cap_spec()
        &&& frames_layout(self.frames_spec(), self.cap_spec(), self.tail_spec())
        &&& self.latest_ok()
        &&& frames_live_in_ring(
            self.ring_spec(),
            self.frames_spec(),
            self.cap_spec(),
            self.tail_spec(),
        )
    }

    pub fn capacity(&self) -> (c: usize)
        ensures
            c == self.cap_spec(),
    {
        self.ring.len()
    }

    pub fn tail(&self) -> (t: u64)
        ensures
            t == self.tail_spec(),
    {
        self.counters.tail
    }

    pub fn tail_intent(&self) -> (t: u64)
        ensures
            t == self.tail_intent_spec(),
    {
        self.counters.tail_intent
    }

    pub fn latest(&self) -> (t: u64)
        ensures
            t == self.latest_spec(),
    {
        self.counters.latest
    }
}

/// The second region carries the first one's history forward: same capacity,
/// the same committed frames plus possibly newer ones, and any first new
/// frame starts exactly at the first region's `tail`.
pub open spec fn region_extends(r1: Region, r2: Region) -> bool {
    &&& r2.cap_spec() == r1.cap_spec()
    &&& r1.frames_spec().is_prefix_of(r2.frames_spec())
    &&& r1.tail_spec() <= r2.tail_spec()
    &&& r2.frames_spec().len() > r1.frames_spec().len() ==> r2.frames_spec()[r1.frames_spec().len() as int].start == r1.tail_spec()
}

proof fn lemma_pow2_mult8(c: int)
    requires
        is_pow2(c),
        c >= 8,
    ensures
        c % 8 == 0,
    decreases c,
{
    if c == 8 {
    } else if c < 16 {
        reveal_with_fuel(is_pow2, 5);
        assert(false);
    } else {
        lemma_fundamental_div_mod(c, 2);
        lemma_pow2_mult8(c / 2);
        let k = (c / 2) / 8;
        lemma_fundamental_div_mod(c / 2, 8);
        assert(c == 2 * (c / 2));
        assert(c == (2 * k) * 8) by (nonlinear_arith)
            requires
                c == 2 * (c / 2),
                c / 2 == 8 * k,
        {}
        lemma_mod_multiples_basic(2 * k, 8);
    }
}

/// Rounding up to a multiple of 8 moves a nonnegative value by less than 8,
/// lands on a multiple of 8, and leaves multiples of 8 where they are.
pub proof fn lemma_align8(v: int)
    requires
        v >= 0,
    ensures
        v <= align_up(v, 8) < v + 8,
        align_up(v, 8) % 8 == 0,
        v % 8 == 0 ==> align_up(v, 8) == v,
{
    let x = v + 7;
    lemma_fundamental_div_mod(x, 8);
    lemma_mod_bound(x, 8);
    assert(align_up(v, 8) == x - x % 8);
    lemma_mod_multiples_basic(x / 8, 8);
    assert((8 * (x / 8)) % 8 == 0);
    if v % 8 == 0 {
        lemma_add_mod_noop(v, 7, 8);
        lemma_small_mod(7nat, 8nat);
        lemma_small_mod((v % 8 + 7int % 8) as nat, 8nat);
        assert(x % 8 == 7);
    }
}

/// Two absolute byte positions less than one ring turn apart occupy
/// different ring offsets.
proof fn lemma_mod_distinct(p: int, q: int, c: int)
    requires
        0 <= p,
        0 < c,
        p < q,
        q - p < c,
    ensures
        p % c != q % c,
{
    lemma_fundamental_div_mod(p, c);
    lemma_fundamental_div_mod(q, c);
    if p % c == q % c {
        assert(false) by (nonlinear_arith)
            requires
                p == c * (p / c) + p % c,
                q == c * (q / c) + q % c,
                p % c == q % c,
                0 < q - p < c,
        {}
    }
}

/// Within a chunk that does not wrap, ring offsets advance with absolute
/// positions.
proof fn lemma_mod_in_chunk(a: int, j: int, c: int)
    requires
        0 <= a,
        0 < c,
        0 <= j,
        a % c + j < c,
    ensures
        (a + j) % c == a % c + j,
{
    lemma_mod_bound(a, c);
    lemma_add_mod_noop(a, j, c);
    lemma_small_mod(j as nat, c as nat);
    lemma_small_mod((a % c + j) as nat, c as nat);
}

/// Bytes of a frame that ended at or before `wa` are disjoint, in ring
/// offsets, from a later chunk of `wn` bytes at `wa` that stays within one
/// ring turn of the frame's start; so a write of that chunk leaves the frame's
/// bytes in the ring untouched.
proof fn lemma_frame_untouched(
    ring0: Seq<u8>,
    ring1: Seq<u8>,
    f: Frame,
    c: int,
    wa: int,
    wn: int,
)
    requires
        frame_wf(f, c),
        frame_in_ring(ring0, f, c),
        ring0.len() == c,
        ring1.len() == c,
        0 < c,
        0 <= wa,
        0 <= wn,
        wa % c + wn <= c,
        f.start + consumed_len(f) <= wa,
        wa + wn <= f.start + c,
        forall|o: int| 0 <= o < c && !(wa % c <= o < wa % c + wn) ==> ring1[o] == ring0[o],
    ensures
        frame_in_ring(ring1, f, c),
{
    let off = f.start % c;
    let claim = if f.type_id == 0 {
        8
    } else {
        f.length
    };
    lemma_align8(f.length);
    assert(claim <= consumed_len(f));
    lemma_mod_bound(f.start, c);
    lemma_mod_bound(wa, c);
    assert forall|o: int| off <= o < off + claim implies ring1[o] == ring0[o] by {
        if wa % c <= o < wa % c + wn {
            lemma_offsets_distinct(f.start, o - off, wa, o - wa % c, c);
            assert(false);
        }
    };
    lemma_u32_at_unchanged(ring0, ring1, off);
    lemma_u32_at_unchanged(ring0, ring1, off + 4);
}

/// A position inside a frame and a position inside a later chunk within one
/// ring turn never map to the same ring offset.
proof fn lemma_offsets_distinct(s: int, j1: int, w: int, j2: int, c: int)
    requires
        0 <= s,
        0 <= w,
        0 < c,
        0 <= j1,
        s % c + j1 < c,
        0 <= j2,
        w % c + j2 < c,
        s + j1 < w + j2,
        (w + j2) - (s + j1) < c,
    ensures
        s % c + j1 != w % c + j2,
{
    lemma_mod_in_chunk(s, j1, c);
    lemma_mod_in_chunk(w, j2, c);
    lemma_mod_distinct(s + j1, w + j2, c);
}

/// Every frame of a tiled log ends at or before `t`, and starts at or after 0.
proof fn lemma_frame_end_le(fs: Seq<Frame>, c: int, t: int, i: int)
    requires
        frames_layout(fs, c, t),
        0 <= i < fs.len(),
    ensures
        fs[i].start + consumed_len(fs[i]) <= t,
    decreases fs.len() - i,
{
    lemma_align8(fs[i].length);
    if i == fs.len() - 1 {
    } else {
        lemma_frame_end_le(fs, c, t, i + 1);
        lemma_align8(fs[i + 1].length);
    }
}

/// A frame of up to an eighth of the ring capacity in payload consumes at
/// most half of the ring.
proof fn lemma_msg_fits(msg: int, c: int)
    requires
        is_pow2(c),
        32 <= c,
        0 <= msg,
        msg <= c / 8,
    ensures
        8 <= msg + 8 <= align_up(msg + 8, 8),
        2 * align_up(msg + 8, 8) <= c,
        align_up(msg + 8, 8) % 8 == 0,
{
    lemma_align8(msg + 8);
    lemma_pow2_mult8(c);
    let m = c / 8;
    lemma_fundamental_div_mod(c, 8);
    assert(c == 8 * m);
    assert(2 * align_up(msg + 8, 8) <= 2 * (m + 15));
    if c >= 40 {
        assert(2 * (m + 15) <= 8 * m);
    } else if c > 32 {
        reveal_with_fuel(is_pow2, 5);
        assert(false);
    } else {
        assert(m == 4);
        assert(align_up(msg + 8, 8) <= 16);
    }
}

/// The difference of two multiples of 8 is a positive multiple of 8 when the
/// first exceeds the second.
proof fn lemma_diff_aligned8(a: int, b: int)
    requires
        a % 8 == 0,
        b % 8 == 0,
        b < a,
        0 <= b,
    ensures
        (a - b) % 8 == 0,
        a - b >= 8,
{
    lemma_fundamental_div_mod(a, 8);
    lemma_fundamental_div_mod(b, 8);
    assert(a - b == 8 * (a / 8 - b / 8));
    lemma_mod_multiples_basic(a / 8 - b / 8, 8);
    assert(a / 8 - b / 8 >= 1) by (nonlinear_arith)
        requires
            a - b == 8 * (a / 8 - b / 8),
            a - b > 0,
    {}
}

/// The ring offset of a multiple of 8 is a multiple of 8 when the capacity is.
proof fn lemma_off_aligned(t: int, c: int)
    requires
        t % 8 == 0,
        c % 8 == 0,
        0 < c,
        0 <= t,
    ensures
        (t % c) % 8 == 0,
{
    lemma_fundamental_div_mod(t, c);
    lemma_fundamental_div_mod(t, 8);
    lemma_fundamental_div_mod(c, 8);
    let d = t / c;
    assert(c * d == 8 * ((c / 8) * d)) by (nonlinear_arith)
        requires
            c == 8 * (c / 8),
    {}
    assert(t % c == 8 * (t / 8 - (c / 8) * d));
    lemma_mod_multiples_basic(t / 8 - (c / 8) * d, 8);
}

/// Advancing from `t` by the distance to the ring end lands on offset zero.
pub proof fn lemma_wrap_lands_on_zero(t: int, c: int)
    requires
        0 <= t,
        0 < c,
    ensures
        (t + (c - t % c)) % c == 0,
{
    lemma_fundamental_div_mod(t, c);
    assert(t + (c - t % c) == c * (t / c + 1)) by (nonlinear_arith)
        requires
            t == c * (t / c) + t % c,
    {}
    lemma_mod_multiples_basic(t / c + 1, c);
    assert(((t / c + 1) * c) % c == 0);
    assert(c * (t / c + 1) == (t / c + 1) * c);
}

/// Extending by nothing is an extension.
proof fn lemma_extends_refl(r: Region)
    ensures
        region_extends(r, r),
{
    assert(r.frames_spec() =~= r.frames_spec().subrange(0, r.frames_spec().len() as int));
}


/// Writes one record header: the length field then the type id.
fn write_header(ring: &mut Vec<u8>, off: usize, record_len: u32, type_id: u32)
    requires
        off + 8 <= old(ring)@.len(),
    ensures
        final(ring)@.len() == old(ring)@.len(),
        u32_at(final(ring)@, off as int) == record_len,
        u32_at(final(ring)@, off as int + 4) == type_id,
        forall|i: int|
            0 <= i < old(ring)@.len() && !(off <= i < off + 8) ==> final(ring)@[i] == old(ring)@[i],
{
    let len = ring.len();
    store_u32(ring, off, record_len);
    let ghost mid = ring@;
    store_u32(ring, off + 4, type_id);
    proof {
        lemma_u32_at_unchanged(mid, ring@, off as int);
    }
}

/// Writes one whole data record: header, then the payload bytes.
fn write_record(ring: &mut Vec<u8>, off: usize, record_len: u32, type_id: u32, payload: &[u8])
    requires
        off + 8 + payload@.len() <= old(ring)@.len(),
    ensures
        final(ring)@.len() == old(ring)@.len(),
        u32_at(final(ring)@, off as int) == record_len,
        u32_at(final(ring)@, off as int + 4) == type_id,
        forall|j: int| 0 <= j < payload@.len() ==> final(ring)@[off + 8 + j] == payload@[j],
        forall|i: int|
            0 <= i < old(ring)@.len() && !(off <= i < off + 8 + payload@.len())
                ==> final(ring)@[i] == old(ring)@[i],
{
    let len = ring.len();
    write_header(ring, off, record_len, type_id);
    let ghost mid = ring@;
    copy_into(ring, off + 8, payload);
    proof {
        lemma_u32_at_unchanged(mid, ring@, off as int);
        lemma_u32_at_unchanged(mid, ring@, off as int + 4);
    }
}

/// One chunk of bytes written at or past the old tail, within one ring turn
/// of every frame still live at the new tail, leaves all those frames' bytes
/// in place.
proof fn lemma_live_preserved(
    ring0: Seq<u8>,
    ring1: Seq<u8>,
    fs: Seq<Frame>,
    c: int,
    t0: int,
    live0: int,
    t1: int,
    wa: int,
    wn: int,
)
    requires
        frames_layout(fs, c, t0),
        frames_live_in_ring(ring0, fs, c, live0),
        ring0.len() == c,
        ring1.len() == c,
        0 < c,
        0 <= t0 <= wa,
        live0 <= t1,
        0 <= wn,
        wa % c + wn <= c,
        wa + wn <= t1,
        forall|o: int| 0 <= o < c && !(wa % c <= o < wa % c + wn) ==> ring1[o] == ring0[o],
    ensures
        frames_live_in_ring(ring1, fs, c, t1),
{
    assert forall|i: int|
        0 <= i < fs.len() && (#[trigger] fs[i]).start + c > t1 implies frame_in_ring(
        ring1,
        fs[i],
        c,
    ) by {
        lemma_frame_end_le(fs, c, t0, i);
        assert(frame_in_ring(ring0, fs[i], c));
        lemma_frame_untouched(ring0, ring1, fs[i], c, wa, wn);
    };
}

/// Appending a data frame that starts exactly at the old tail keeps the log
/// tiled up to the new tail.
proof fn lemma_layout_push(fs: Seq<Frame>, c: int, t0: int, f: Frame)
    requires
        frames_layout(fs, c, t0),
        frame_wf(f, c),
        f.start == t0,
        f.type_id != 0,
    ensures
        frames_layout(fs.push(f), c, t0 + consumed_len(f)),
{
    let fs1 = fs.push(f);
    assert forall|i: int| 0 <= i < fs1.len() implies frame_wf(#[trigger] fs1[i], c) by {
        if i < fs.len() {
            assert(fs1[i] == fs[i]);
        }
    };
    assert forall|i: int| 0 <= i < fs1.len() - 1 implies fs1[i + 1].start == (
    #[trigger] fs1[i]).start + consumed_len(fs1[i]) by {
        if i < fs.len() - 1 {
            assert(fs1[i] == fs[i] && fs1[i + 1] == fs[i + 1]);
        }
    };
}

/// Appending a padding frame at the old tail and the data frame right after
/// it keeps the log tiled up to the new tail.
proof fn lemma_layout_push_pad(fs: Seq<Frame>, c: int, t0: int, fpad: Frame, fdat: Frame)
    requires
        frames_layout(fs, c, t0),
        frame_wf(fpad, c),
        frame_wf(fdat, c),
        fpad.start == t0,
        fpad.type_id == 0,
        fdat.type_id != 0,
        fdat.start == t0 + consumed_len(fpad),
    ensures
        frames_layout(fs.push(fpad).push(fdat), c, fdat.start + consumed_len(fdat)),
{
    let fs1 = fs.push(fpad).push(fdat);
    assert forall|i: int| 0 <= i < fs1.len() implies frame_wf(#[trigger] fs1[i], c) by {
        if i < fs.len() {
            assert(fs1[i] == fs[i]);
        }
    };
    assert forall|i: int| 0 <= i < fs1.len() - 1 implies fs1[i + 1].start == (
    #[trigger] fs1[i]).start + consumed_len(fs1[i]) by {
        if i < fs.len() - 1 {
            assert(fs1[i] == fs[i] && fs1[i + 1] == fs[i + 1]);
        }
    };
    assert forall|i: int|
        0 <= i < fs1.len() - 1 implies !((#[trigger] fs1[i]).type_id == 0 && fs1[i
        + 1].type_id == 0) by {
        if i < fs.len() - 1 {
            assert(fs1[i] == fs[i] && fs1[i + 1] == fs[i + 1]);
        }
    };
}

/// A frame that owns its bytes may join the set of live frames.
proof fn lemma_live_push(ring: Seq<u8>, fs: Seq<Frame>, c: int, t: int, f: Frame)
    requires
        frames_live_in_ring(ring, fs, c, t),
        frame_in_ring(ring, f, c),
    ensures
        frames_live_in_ring(ring, fs.push(f), c, t),
{
    let fs1 = fs.push(f);
    assert forall|i: int|
        0 <= i < fs1.len() && (#[trigger] fs1[i]).start + c > t implies frame_in_ring(
        ring,
        fs1[i],
        c,
    ) by {
        if i < fs.len() {
            assert(fs1[i] == fs[i]);
        }
    };
}

/// A log is a prefix of itself extended by new frames.
proof fn lemma_prefix_push(fs: Seq<Frame>, tail1: Seq<Frame>)
    ensures
        fs.is_prefix_of(fs + tail1),
{
    assert(fs =~= (fs + tail1).subrange(0, fs.len() as int));
}

/// The frames one successful transmit starting at tail `t` appends: the data
/// record and, when it would straddle the ring end, the padding record
/// committed in front of it.
pub open spec fn transmit_frames(
    t: int,
    c: int,
    msg_size: int,
    type_id: u32,
    payload: Seq<u8>,
) -> Seq<Frame> {
    let off = t % c;
    let aligned = align_up(msg_size + 8, 8);
    let data = Frame {
        start: if off + aligned > c {
            t + (c - off)
        } else {
            t
        },
        length: msg_size + 8,
        type_id,
        payload,
    };
    if off + aligned > c {
        seq![Frame { start: t, length: c - off, type_id: 0, payload: Seq::empty() }, data]
    } else {
        seq![data]
    }
}

/// The ring bytes one successful transmit starting at tail `t` consumes.
pub open spec fn transmit_consumed(t: int, c: int, msg_size: int) -> int {
    let off = t % c;
    let aligned = align_up(msg_size + 8, 8);
    if off + aligned > c {
        aligned + (c - off)
    } else {
        aligned
    }
}

/// Committing a non-wrapping record: with the record's bytes in the ring and
/// every still-live older frame untouched, the region invariant holds again
/// and the region extends its old state by exactly the one data frame.
proof fn lemma_commit_straight(r0: Region, r1: Region, msg_size: int, id: u32, payload: Seq<u8>)
    requires
        r0.inv(),
        id != 0,
        0 <= msg_size <= r0.cap_spec() / 8,
        payload.len() == msg_size,
        r0.tail_spec() % r0.cap_spec() + align_up(msg_size + 8, 8) <= r0.cap_spec(),
        r1.cap_spec() == r0.cap_spec(),
        frames_live_in_ring(
            r1.ring_spec(),
            r0.frames_spec(),
            r0.cap_spec(),
            r0.tail_spec() + align_up(msg_size + 8, 8),
        ),
        frame_in_ring(
            r1.ring_spec(),
            Frame { start: r0.tail_spec(), length: msg_size + 8, type_id: id, payload },
            r0.cap_spec(),
        ),
        r1.frames_spec() == r0.frames_spec().push(
            Frame { start: r0.tail_spec(), length: msg_size + 8, type_id: id, payload },
        ),
        r1.tail_spec() == r0.tail_spec() + align_up(msg_size + 8, 8),
        r1.tail_intent_spec() == r1.tail_spec(),
        r1.latest_spec() == r0.tail_spec(),
    ensures
        r1.inv(),
        region_extends(r0, r1),
        r1.frames_spec() == r0.frames_spec() + transmit_frames(
            r0.tail_spec(),
            r0.cap_spec(),
            msg_size,
            id,
            payload,
        ),
{
    let c = r0.cap_spec();
    let t0 = r0.tail_spec();
    let aligned = align_up(msg_size + 8, 8);
    let fdat = Frame { start: t0, length: msg_size + 8, type_id: id, payload };
    let fs0 = r0.frames_spec();
    lemma_msg_fits(msg_size, c);
    lemma_align8(msg_size + 8);
    lemma_pow2_mult8(c);
    lemma_mod_bound(t0, c);
    lemma_off_aligned(t0, c);
    assert(frame_wf(fdat, c));
    assert(consumed_len(fdat) == aligned);
    lemma_layout_push(fs0, c, t0, fdat);
    lemma_live_push(r1.ring_spec(), fs0, c, t0 + aligned, fdat);
    assert(r1.frames_spec() =~= fs0 + transmit_frames(t0, c, msg_size, id, payload));
    lemma_prefix_push(fs0, transmit_frames(t0, c, msg_size, id, payload));
}

/// Committing a wrapping record: padding to the ring end plus the record at
/// offset zero restore the region invariant, and the region extends its old
/// state by exactly those two frames.
proof fn lemma_commit_wrap(r0: Region, r1: Region, msg_size: int, id: u32, payload: Seq<u8>)
    requires
        r0.inv(),
        id != 0,
        0 <= msg_size <= r0.cap_spec() / 8,
        payload.len() == msg_size,
        r0.tail_spec() % r0.cap_spec() + align_up(msg_size + 8, 8) > r0.cap_spec(),
        r1.cap_spec() == r0.cap_spec(),
        frames_live_in_ring(
            r1.ring_spec(),
            r0.frames_spec(),
            r0.cap_spec(),
            r0.tail_spec() + (r0.cap_spec() - r0.tail_spec() % r0.cap_spec()) + align_up(
                msg_size + 8,
                8,
            ),
        ),
        frame_in_ring(
            r1.ring_spec(),
            Frame {
                start: r0.tail_spec(),
                length: r0.cap_spec() - r0.tail_spec() % r0.cap_spec(),
                type_id: 0,
                payload: Seq::empty(),
            },
            r0.cap_spec(),
        ),
        frame_in_ring(
            r1.ring_spec(),
            Frame {
                start: r0.tail_spec() + (r0.cap_spec() - r0.tail_spec() % r0.cap_spec()),
                length: msg_size + 8,
                type_id: id,
                payload,
            },
            r0.cap_spec(),
        ),
        r1.frames_spec() == r0.frames_spec().push(
            Frame {
                start: r0.tail_spec(),
                length: r0.cap_spec() - r0.tail_spec() % r0.cap_spec(),
                type_id: 0,
                payload: Seq::empty(),
            },
        ).push(
            Frame {
                start: r0.tail_spec() + (r0.cap_spec() - r0.tail_spec() % r0.cap_spec()),
                length: msg_size + 8,
                type_id: id,
                payload,
            },
        ),
        r1.tail_spec() == r0.tail_spec() + (r0.cap_spec() - r0.tail_spec() % r0.cap_spec())
            + align_up(msg_size + 8, 8),
        r1.tail_intent_spec() == r1.tail_spec(),
        r1.latest_spec() == r0.tail_spec(),
    ensures
        r1.inv(),
        region_extends(r0, r1),
        r1.frames_spec() == r0.frames_spec() + transmit_frames(
            r0.tail_spec(),
            r0.cap_spec(),
            msg_size,
            id,
            payload,
        ),
{
    let c = r0.cap_spec();
    let t0 = r0.tail_spec();
    let aligned = align_up(msg_size + 8, 8);
    let pad = c - t0 % c;
    let fpad = Frame { start: t0, length: pad, type_id: 0, payload: Seq::empty() };
    let fdat = Frame { start: t0 + pad, length: msg_size + 8, type_id: id, payload };
    let fs0 = r0.frames_spec();
    lemma_msg_fits(msg_size, c);
    lemma_align8(msg_size + 8);
    lemma_pow2_mult8(c);
    lemma_mod_bound(t0, c);
    lemma_off_aligned(t0, c);
    lemma_diff_aligned8(c, t0 % c);
    lemma_wrap_lands_on_zero(t0, c);
    lemma_align8(pad);
    assert(frame_wf(fpad, c));
    assert(frame_wf(fdat, c));
    assert(consumed_len(fpad) == pad);
    assert(consumed_len(fdat) == aligned);
    lemma_layout_push_pad(fs0, c, t0, fpad, fdat);
    lemma_live_push(r1.ring_spec(), fs0, c, t0 + pad + aligned, fpad);
    lemma_live_push(r1.ring_spec(), fs0.push(fpad), c, t0 + pad + aligned, fdat);
    assert(r1.frames_spec() =~= fs0 + transmit_frames(t0, c, msg_size, id, payload));
    lemma_prefix_push(fs0, transmit_frames(t0, c, msg_size, id, payload));
}

/// The single transmitter over a broadcast region; it owns the region.
pub struct BroadcastTx {
    pub(crate) region: Region,
}

impl BroadcastTx {
    pub closed spec fn region_spec(&self) -> Region {
        self.region
    }

    pub open spec fn inv(&self) -> bool {
        self.region_spec().inv()
    }

    /// Takes over a fresh zero-initialized byte region of `C + 128` bytes,
    /// with `C` a power of two, and splits off the counters trailer.
    pub fn new(buffer: Bytes) -> (tx: BroadcastTx)
        requires
            buffer@.len() >= TRAILER_SIZE + 32,
            buffer@.len() <= TRAILER_SIZE + 0x4000_0000,
            is_pow2(buffer@.len() - TRAILER_SIZE),
            forall|i: int| 0 <= i < buffer@.len() ==> buffer@[i] == 0,
        ensures
            tx.inv(),
            tx.region_spec().cap_spec() == buffer@.len() - TRAILER_SIZE,
            tx.region_spec().tail_spec() == 0,
            tx.region_spec().tail_intent_spec() == 0,
            tx.region_spec().latest_spec() == 0,
            tx.region_spec().frames_spec().len() == 0,
    {
        let capacity = buffer.capacity() - TRAILER_SIZE;
        let mut data = buffer.into_vec();
        data.truncate(capacity);
        let region = Region {
            ring: data,
            counters: Counters { tail_intent: 0, tail: 0, latest: 0 },
            frames: Ghost(Seq::empty()),
        };
        BroadcastTx { region }
    }

    /// Accesses the shared region, for constructing receivers over it and for
    /// observing the counters.
    pub fn region(&self) -> (r: &Region)
        ensures
            r == self.region_spec(),
    {
        &self.region
    }

    /// Appends one framed record carrying `payload`. When the frame would
    /// straddle the ring end, a padding record filling the rest of the ring
    /// is committed in front of it and the record itself starts at offset
    /// zero. Returns the number of ring bytes consumed.
    pub fn transmit(&mut self, msg_size: u32, id: MsgTypeId, payload: &[u8]) -> (res: Result<
        u32,
        TxErr,
    >)
        requires
            old(self).inv(),
            payload@.len() == msg_size as int,
            old(self).region_spec().tail_spec() + 2 * old(self).region_spec().cap_spec()
                <= u64::MAX,
        ensures
            final(self).inv(),
            region_extends(old(self).region_spec(), final(self).region_spec()),
            id.0 == 0 ==> res == Err::<u32, TxErr>(TxErr::InvalidMsgType) && *final(self) == *old(self),
            id.0 != 0 && msg_size > old(self).region_spec().cap_spec() / 8 ==> res == Err::<
                u32,
                TxErr,
            >(TxErr::MsgTooLarge(msg_size)) && *final(self) == *old(self),
            id.0 != 0 && msg_size <= old(self).region_spec().cap_spec() / 8 ==> ({
                let r0 = old(self).region_spec();
                let r1 = final(self).region_spec();
                let n = transmit_consumed(r0.tail_spec(), r0.cap_spec(), msg_size as int);
                &&& res == Ok::<u32, TxErr>(n as u32)
                &&& r1.tail_spec() == r0.tail_spec() + n
                &&& r1.tail_intent_spec() == r1.tail_spec()
                &&& r1.latest_spec() == r0.tail_spec()
                &&& r1.frames_spec() == r0.frames_spec() + transmit_frames(
                    r0.tail_spec(),
                    r0.cap_spec(),
                    msg_size as int,
                    id.0,
                    payload@,
                )
            }),
    {
        if id.inner() == 0 {
            proof {
                lemma_extends_refl(self.region);
            }
            return Err(TxErr::InvalidMsgType);
        }
        if msg_size > self.max_msg_size() {
            proof {
                lemma_extends_refl(self.region);
            }
            return Err(TxErr::MsgTooLarge(msg_size));
        }
        let ghost c = self.region.cap_spec();
        let ghost t0 = self.region.tail_spec();
        let capacity = self.region.ring.len();
        let current_tail: u64 = self.region.counters.tail;
        let record_offset = (current_tail % (capacity as u64)) as usize;
        let record_len = msg_size + HEADER_SIZE;
        proof {
            lemma_msg_fits(msg_size as int, c);
            lemma_mod_bound(t0, c);
        }
        let aligned_record_len = align(record_len, RECORD_ALIGNMENT);
        if capacity < record_offset + aligned_record_len as usize {
            Ok(self.transmit_wrap(msg_size, id, payload))
        } else {
            Ok(self.transmit_straight(msg_size, id, payload))
        }
    }

    /// The transmit path for a record that fits between the current ring
    /// offset and the ring end.
    #[verifier::rlimit(100)]
    fn transmit_straight(&mut self, msg_size: u32, id: MsgTypeId, payload: &[u8]) -> (res: u32)
        requires
            old(self).inv(),
            id.0 != 0,
            payload@.len() == msg_size as int,
            msg_size as int <= old(self).region_spec().cap_spec() / 8,
            old(self).region_spec().tail_spec() + 2 * old(self).region_spec().cap_spec()
                <= u64::MAX,
            old(self).region_spec().tail_spec() % old(self).region_spec().cap_spec() + align_up(
                msg_size as int + 8,
                8,
            ) <= old(self).region_spec().cap_spec(),
        ensures
            final(self).inv(),
            region_extends(old(self).region_spec(), final(self).region_spec()),
            ({
                let r0 = old(self).region_spec();
                let r1 = final(self).region_spec();
                let n = transmit_consumed(r0.tail_spec(), r0.cap_spec(), msg_size as int);
                &&& res == n
                &&& r1.tail_spec() == r0.tail_spec() + n
                &&& r1.tail_intent_spec() == r1.tail_spec()
                &&& r1.latest_spec() == r0.tail_spec()
                &&& r1.frames_spec() == r0.frames_spec() + transmit_frames(
                    r0.tail_spec(),
                    r0.cap_spec(),
                    msg_size as int,
                    id.0,
                    payload@,
                )
            }),
    {
        let ghost r0 = self.region;
        let ghost c = self.region.cap_spec();
        let ghost t0 = self.region.tail_spec();
        let ghost fs0 = self.region.frames_spec();
        let capacity = self.region.ring.len();
        let current_tail: u64 = self.region.counters.tail;
        let record_offset = (current_tail % (capacity as u64)) as usize;
        let record_len = msg_size + HEADER_SIZE;
        proof {
            lemma_msg_fits(msg_size as int, c);
            lemma_align8(record_len as int);
            lemma_pow2_mult8(c);
            lemma_mod_bound(t0, c);
            lemma_off_aligned(t0, c);
        }
        let aligned_record_len = align(record_len, RECORD_ALIGNMENT);
        let new_tail = current_tail + aligned_record_len as u64;
        let ghost aligned = aligned_record_len as int;
        self.region.counters.tail_intent = new_tail;
        write_record(&mut self.region.ring, record_offset, record_len, id.inner(), payload);
        let ghost ring1 = self.region.ring@;
        let ghost fdat = Frame {
            start: t0,
            length: record_len as int,
            type_id: id.0,
            payload: payload@,
        };
        proof {
            assert(frame_wf(fdat, c));
            assert(consumed_len(fdat) == aligned);
            assert(frame_in_ring(ring1, fdat, c));
            lemma_live_preserved(
                r0.ring_spec(),
                ring1,
                fs0,
                c,
                t0,
                t0,
                t0 + aligned,
                t0,
                8 + msg_size as int,
            );
        }
        self.region.frames = Ghost(self.region.frames@.push(fdat));
        self.region.counters.commit_record(current_tail, new_tail);
        proof {
            let fs1 = self.region.frames_spec();
            assert(fs1 =~= fs0 + transmit_frames(t0, c, msg_size as int, id.0, payload@));
            lemma_prefix_push(fs0, transmit_frames(t0, c, msg_size as int, id.0, payload@));
            lemma_layout_push(fs0, c, t0, fdat);
            lemma_live_push(ring1, fs0, c, t0 + aligned, fdat);
            assert(frames_layout(fs1, c, t0 + aligned));
            assert(frames_live_in_ring(self.region.ring_spec(), fs1, c, t0 + aligned));
        }
        aligned_record_len
    }

    /// The transmit path for a record that would straddle the ring end: a
    /// padding record fills the rest of the ring first.
    #[verifier::rlimit(100)]
    fn transmit_wrap(&mut self, msg_size: u32, id: MsgTypeId, payload: &[u8]) -> (res: u32)
        requires
            old(self).inv(),
            id.0 != 0,
            payload@.len() == msg_size as int,
            msg_size as int <= old(self).region_spec().cap_spec() / 8,
            old(self).region_spec().tail_spec() + 2 * old(self).region_spec().cap_spec()
                <= u64::MAX,
            old(self).region_spec().tail_spec() % old(self).region_spec().cap_spec() + align_up(
                msg_size as int + 8,
                8,
            ) > old(self).region_spec().cap_spec(),
        ensures
            final(self).inv(),
            region_extends(old(self).region_spec(), final(self).region_spec()),
            ({
                let r0 = old(self).region_spec();
                let r1 = final(self).region_spec();
                let n = transmit_consumed(r0.tail_spec(), r0.cap_spec(), msg_size as int);
                &&& res == n
                &&& r1.tail_spec() == r0.tail_spec() + n
                &&& r1.tail_intent_spec() == r1.tail_spec()
                &&& r1.latest_spec() == r0.tail_spec()
                &&& r1.frames_spec() == r0.frames_spec() + transmit_frames(
                    r0.tail_spec(),
                    r0.cap_spec(),
                    msg_size as int,
                    id.0,
                    payload@,
                )
            }),
    {
        let ghost r0 = self.region;
        let ghost c = self.region.cap_spec();
        let ghost t0 = self.region.tail_spec();
        let ghost fs0 = self.region.frames_spec();
        let capacity = self.region.ring.len();
        let current_tail: u64 = self.region.counters.tail;
        let record_offset = (current_tail % (capacity as u64)) as usize;
        let record_len = msg_size + HEADER_SIZE;
        proof {
            lemma_msg_fits(msg_size as int, c);
            lemma_align8(record_len as int);
            lemma_pow2_mult8(c);
            lemma_mod_bound(t0, c);
            lemma_off_aligned(t0, c);
            lemma_diff_aligned8(c, t0 % c);
            lemma_wrap_lands_on_zero(t0, c);
        }
        let aligned_record_len = align(record_len, RECORD_ALIGNMENT);
        let new_tail = current_tail + aligned_record_len as u64;
        let ghost aligned = aligned_record_len as int;
        let padding_size = (capacity - record_offset) as u32;
        let tail_intent = new_tail + padding_size as u64;
        let ghost pad = padding_size as int;
        let ghost t1 = t0 + pad + aligned;
        self.region.counters.tail_intent = tail_intent;
        write_header(&mut self.region.ring, record_offset, padding_size, 0);
        let ghost ring_mid = self.region.ring@;
        write_record(&mut self.region.ring, 0, record_len, id.inner(), payload);
        let ghost ring1 = self.region.ring@;
        let ghost fpad = Frame { start: t0, length: pad, type_id: 0, payload: Seq::empty() };
        let ghost fdat = Frame {
            start: t0 + pad,
            length: record_len as int,
            type_id: id.0,
            payload: payload@,
        };
        proof {
            lemma_align8(pad);
            assert(frame_wf(fpad, c));
            assert(consumed_len(fpad) == pad);
            // The padding header survives the record written at offset zero,
            // which stays below it in the ring.
            assert(frame_in_ring(ring_mid, fpad, c));
            lemma_frame_untouched(ring_mid, ring1, fpad, c, t0 + pad, 8 + msg_size as int);
            assert(frame_in_ring(ring1, fdat, c));
            // Frames still within one ring turn of the new tail kept their
            // bytes through both write chunks.
            lemma_live_preserved(r0.ring_spec(), ring_mid, fs0, c, t0, t0, t0 + pad, t0, 8);
            lemma_live_preserved(ring_mid, ring1, fs0, c, t0, t0 + pad, t1, t0 + pad, 8 + msg_size as int);
        }
        self.region.frames = Ghost(self.region.frames@.push(fpad).push(fdat));
        self.region.counters.commit_record(current_tail, tail_intent);
        proof {
            lemma_commit_wrap(r0, self.region, msg_size as int, id.0, payload@);
        }
        aligned_record_len + padding_size
    }

    fn max_msg_size(&self) -> (m: u32)
        requires
            self.inv(),
        ensures
            m == self.region_spec().cap_spec() / 8,
    {
        (self.region.ring.len() / 8) as u32
    }
}


/// Some committed frame starts at absolute position `pos`.
pub open spec fn is_frame_start(fs: Seq<Frame>, pos: int) -> bool {
    exists|i: int| 0 <= i < fs.len() && (#[trigger] fs[i]).start == pos
}

/// The index of the frame starting at `pos`.
pub open spec fn start_index(fs: Seq<Frame>, pos: int) -> int {
    choose|i: int| 0 <= i < fs.len() && (#[trigger] fs[i]).start == pos
}

/// The index of the record a receiver standing at `pos` delivers: the frame
/// at `pos` itself, or its successor when the frame at `pos` is padding.
pub open spec fn target_index(r: Region, pos: int) -> int {
    let i = start_index(r.frames_spec(), pos);
    if r.frames_spec()[i].type_id == 0 {
        i + 1
    } else {
        i
    }
}

/// The record a receiver standing at `pos` delivers.
pub open spec fn target_frame(r: Region, pos: int) -> Frame {
    r.frames_spec()[target_index(r, pos)]
}

/// Frame starts increase strictly along the log.
pub proof fn lemma_starts_increase(fs: Seq<Frame>, c: int, t: int, i: int, j: int)
    requires
        frames_layout(fs, c, t),
        0 <= i < j < fs.len(),
    ensures
        fs[i].start < fs[j].start,
    decreases j - i,
{
    lemma_align8(fs[i].length);
    assert(fs[i + 1].start == fs[i].start + consumed_len(fs[i]));
    if i + 1 < j {
        lemma_starts_increase(fs, c, t, i + 1, j);
    }
}

/// At most one frame starts at any given position.
proof fn lemma_start_unique(fs: Seq<Frame>, c: int, t: int, i: int, j: int)
    requires
        frames_layout(fs, c, t),
        0 <= i < fs.len(),
        0 <= j < fs.len(),
        fs[i].start == fs[j].start,
    ensures
        i == j,
{
    if i < j {
        lemma_starts_increase(fs, c, t, i, j);
    } else if j < i {
        lemma_starts_increase(fs, c, t, j, i);
    }
}

/// One record as a receiver hands it out: the header fields, a copy of the
/// payload bytes, and the absolute position of the next record slot.
pub struct ReceivedRecord {
    pub msg_id: MsgTypeId,
    pub payload: Vec<u8>,
    pub record_size: u32,
    pub next_position: u64,
}

/// One receiver over a broadcast region: a private cursor and the count of
/// times it was lapped by the transmitter.
pub struct BroadcastRx {
    pub(crate) cursor: u64,
    pub(crate) lapped_count: u64,
}

impl BroadcastRx {
    pub closed spec fn cursor_spec(&self) -> int {
        self.cursor as int
    }

    pub closed spec fn lapped_spec(&self) -> int {
        self.lapped_count as int
    }

    /// A receiver is well formed over a region when its cursor sits on a
    /// committed frame boundary: at the start of some frame or at the tail.
    pub open spec fn wf(&self, r: Region) -> bool {
        &&& self.cursor_spec() % 8 == 0
        &&& self.cursor_spec() <= r.tail_spec()
        &&& (self.cursor_spec() == r.tail_spec() || is_frame_start(
            r.frames_spec(),
            self.cursor_spec(),
        ))
    }

    /// Joins the broadcast: the cursor starts at `latest`, so a late joiner
    /// reads the newest committed record first rather than stale history.
    pub fn new(region: &Region) -> (rx: BroadcastRx)
        requires
            region.inv(),
        ensures
            rx.wf(*region),
            rx.cursor_spec() == region.latest_spec(),
            rx.lapped_spec() == 0,
    {
        let start_position = region.latest();
        BroadcastRx { cursor: start_position, lapped_count: 0 }
    }

    /// How many times this receiver has detected that it was lapped.
    pub fn lapped_count(&self) -> (n: u64)
        ensures
            n == self.lapped_spec(),
    {
        self.lapped_count
    }
}

impl BroadcastRx {
    /// The inspection half of a receive: finds the next committed record,
    /// steps over a padding record if one sits at the cursor, and copies the
    /// record out. The cursor does not move yet; `commit_read` validates the
    /// read and moves it.
    #[verifier::rlimit(100)]
    pub fn receive_begin(&mut self, region: &Region) -> (res: Result<ReceivedRecord, RxErr>)
        requires
            region.inv(),
            old(self).wf(*region),
            region.tail_spec() + region.cap_spec() <= u64::MAX,
            old(self).lapped_spec() < u64::MAX,
        ensures
            final(self).wf(*region),
            region.tail_spec() == old(self).cursor_spec() ==> res == Err::<ReceivedRecord, RxErr>(
                RxErr::NoElement,
            ) && *final(self) == *old(self),
            region.tail_spec() != old(self).cursor_spec() && old(self).cursor_spec()
                + region.cap_spec() <= region.tail_intent_spec() ==> ({
                &&& res == Err::<ReceivedRecord, RxErr>(RxErr::Overwritten)
                &&& final(self).cursor_spec() == region.latest_spec()
                &&& final(self).lapped_spec() == old(self).lapped_spec() + 1
            }),
            region.tail_spec() != old(self).cursor_spec() && old(self).cursor_spec()
                + region.cap_spec() > region.tail_intent_spec() ==> ({
                let f = target_frame(*region, old(self).cursor_spec());
                &&& *final(self) == *old(self)
                &&& f.type_id != 0
                &&& res matches Ok(rec) && ({
                    &&& rec.msg_id.0 == f.type_id
                    &&& rec.record_size == f.length
                    &&& rec.payload@ == f.payload
                    &&& rec.next_position == f.start + consumed_len(f)
                    &&& rec.next_position % 8 == 0
                    &&& rec.next_position <= region.tail_spec()
                    &&& (rec.next_position == region.tail_spec() || is_frame_start(
                        region.frames_spec(),
                        rec.next_position as int,
                    ))
                })
            }),
    {
        let ghost c = region.cap_spec();
        let ghost fs = region.frames_spec();
        let tail = region.tail();
        if tail == self.cursor {
            return Err(RxErr::NoElement);
        }
        let tail_intent_position = region.tail_intent();
        let capacity = region.capacity();
        let is_valid = self.cursor + capacity as u64 > tail_intent_position;
        if !is_valid {
            self.lapped_count = self.lapped_count + 1;
            self.cursor = region.latest();
            return Err(RxErr::Overwritten);
        }
        let ghost cur = self.cursor as int;
        let ghost i0 = start_index(fs, cur);
        proof {
            assert(is_frame_start(fs, cur));
            assert(0 <= i0 < fs.len() && fs[i0].start == cur);
            lemma_frame_end_le(fs, c, region.tail_spec(), i0);
            lemma_align8(fs[i0].length);
            assert(frame_in_ring(region.ring_spec(), fs[i0], c));
            lemma_mod_bound(cur, c);
        }
        let record_offset = (self.cursor % capacity as u64) as usize;
        let record_size = load_u32(&region.ring, record_offset);
        let msg_id = load_u32(&region.ring, record_offset + 4);
        let aligned_record_size = align(record_size, RECORD_ALIGNMENT);
        let next_record_position = self.cursor + aligned_record_size as u64;
        if msg_id == 0 {
            // The cursor stands on the padding record at the far end of the
            // ring; the record it announces starts at offset zero. Two
            // consecutive paddings are impossible by construction.
            proof {
                assert(fs[i0].type_id == 0);
                assert(i0 < fs.len() - 1);
                assert(fs[i0 + 1].start == cur + consumed_len(fs[i0]));
                lemma_wrap_lands_on_zero(cur, c);
                assert(fs[i0 + 1].start % c == 0) by {
                    assert(cur % c + fs[i0].length == c);
                };
                lemma_frame_end_le(fs, c, region.tail_spec(), i0 + 1);
                lemma_align8(fs[i0 + 1].length);
                assert(frame_in_ring(region.ring_spec(), fs[i0 + 1], c));
                assert(fs[i0 + 1].type_id != 0);
                lemma_start_unique(fs, c, region.tail_spec(), i0, start_index(fs, cur));
            }
            let record_offset2 = (next_record_position % capacity as u64) as usize;
            let record_size2 = load_u32(&region.ring, record_offset2);
            let msg_id2 = load_u32(&region.ring, record_offset2 + 4);
            let aligned2 = align(record_size2, RECORD_ALIGNMENT);
            let next2 = next_record_position + aligned2 as u64;
            let payload = read_range(&region.ring, record_offset2 + 8, (record_size2 - 8) as usize);
            proof {
                let f = fs[i0 + 1];
                assert(payload@ =~= f.payload);
                if i0 + 1 < fs.len() - 1 {
                    let k = i0 + 1;
                    assert(fs[k + 1].start == fs[k].start + consumed_len(fs[k]));
                    assert(is_frame_start(fs, next2 as int));
                }
            }
            Ok(
                ReceivedRecord {
                    msg_id: MsgTypeId(msg_id2),
                    payload,
                    record_size: record_size2,
                    next_position: next2,
                },
            )
        } else {
            proof {
                let f = fs[i0];
                assert(f.type_id != 0);
                lemma_start_unique(fs, c, region.tail_spec(), i0, start_index(fs, cur));
                if i0 < fs.len() - 1 {
                    assert(fs[i0 + 1].start == f.start + consumed_len(f));
                    assert(is_frame_start(fs, next_record_position as int));
                }
            }
            let payload = read_range(&region.ring, record_offset + 8, (record_size - 8) as usize);
            proof {
                assert(payload@ =~= fs[i0].payload);
            }
            Ok(
                ReceivedRecord {
                    msg_id: MsgTypeId(msg_id),
                    payload,
                    record_size,
                    next_position: next_record_position,
                },
            )
        }
    }

    /// The validation half of a receive: confirms that the bytes just read
    /// were not overwritten while they were being read, then either advances
    /// the cursor past the record or resynchronizes it to `latest`.
    pub fn commit_read(&mut self, region: &Region, record_size: u32, next_record_position: u64) -> (res: Result<u32, RxErr>)
        requires
            region.inv(),
            old(self).wf(*region),
            region.tail_spec() + region.cap_spec() <= u64::MAX,
            old(self).lapped_spec() < u64::MAX,
            next_record_position % 8 == 0,
            next_record_position <= region.tail_spec(),
            next_record_position == region.tail_spec() || is_frame_start(
                region.frames_spec(),
                next_record_position as int,
            ),
        ensures
            final(self).wf(*region),
            old(self).cursor_spec() + region.cap_spec() > region.tail_intent_spec() ==> ({
                &&& res == Ok::<u32, RxErr>(record_size)
                &&& final(self).cursor_spec() == next_record_position
                &&& final(self).lapped_spec() == old(self).lapped_spec()
            }),
            old(self).cursor_spec() + region.cap_spec() <= region.tail_intent_spec() ==> ({
                &&& res == Err::<u32, RxErr>(RxErr::Overwritten)
                &&& final(self).cursor_spec() == region.latest_spec()
                &&& final(self).lapped_spec() == old(self).lapped_spec() + 1
            }),
    {
        let tail_intent_position = region.tail_intent();
        let capacity = region.capacity();
        let read_ok = self.cursor + capacity as u64 > tail_intent_position;
        if read_ok {
            self.cursor = next_record_position;
            Ok(record_size)
        } else {
            self.cursor = region.latest();
            self.lapped_count = self.lapped_count + 1;
            Err(RxErr::Overwritten)
        }
    }

    /// Receives the next committed record, if any: inspection, payload copy,
    /// and validation in one step. With no transmitter running in between,
    /// the validation cannot fail.
    pub fn receive_next(&mut self, region: &Region) -> (res: Result<ReceivedRecord, RxErr>)
        requires
            region.inv(),
            old(self).wf(*region),
            region.tail_spec() + region.cap_spec() <= u64::MAX,
            old(self).lapped_spec() < u64::MAX,
        ensures
            final(self).wf(*region),
            region.tail_spec() == old(self).cursor_spec() ==> res == Err::<ReceivedRecord, RxErr>(
                RxErr::NoElement,
            ) && *final(self) == *old(self),
            region.tail_spec() != old(self).cursor_spec() && old(self).cursor_spec()
                + region.cap_spec() <= region.tail_intent_spec() ==> ({
                &&& res == Err::<ReceivedRecord, RxErr>(RxErr::Overwritten)
                &&& final(self).cursor_spec() == region.latest_spec()
                &&& final(self).lapped_spec() == old(self).lapped_spec() + 1
            }),
            region.tail_spec() != old(self).cursor_spec() && old(self).cursor_spec()
                + region.cap_spec() > region.tail_intent_spec() ==> ({
                let f = target_frame(*region, old(self).cursor_spec());
                &&& f.type_id != 0
                &&& res matches Ok(rec) && ({
                    &&& rec.msg_id.0 == f.type_id
                    &&& rec.record_size == f.length
                    &&& rec.payload@ == f.payload
                    &&& rec.next_position == f.start + consumed_len(f)
                })
                &&& final(self).cursor_spec() == f.start + consumed_len(f)
                &&& final(self).lapped_spec() == old(self).lapped_spec()
            }),
    {
        match self.receive_begin(region) {
            Ok(rec) => {
                let next = rec.next_position;
                let size = rec.record_size;
                match self.commit_read(region, size, next) {
                    Ok(_) => Ok(rec),
                    Err(e) => Err(e),
                }
            },
            Err(e) => Err(e),
        }
    }
}

} // verus!
