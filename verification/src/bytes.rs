//! Owned byte storage and little-endian word access.
//!
//! The shared region of the broadcast protocol is a flat byte buffer. This
//! module owns such a buffer (`Bytes`) and provides the word-granular reads
//! and writes that the protocol performs on it: a 32-bit header field is four
//! consecutive little-endian bytes.

use vstd::prelude::*;

verus! {

use vstd::arithmetic::div_mod::{lemma_div_denominator, lemma_fundamental_div_mod};
use vstd::pervasive::VecAdditionalExecFns;

/// The 32-bit value stored little-endian in the four bytes at `off`.
#[verifier::opaque]
pub open spec fn u32_at(bytes: Seq<u8>, off: int) -> int {
    bytes[off] as int + bytes[off + 1] as int * 0x100 + bytes[off + 2] as int * 0x1_0000
        + bytes[off + 3] as int * 0x100_0000
}

/// A 32-bit field only depends on its own four bytes.
pub proof fn lemma_u32_at_unchanged(r0: Seq<u8>, r1: Seq<u8>, off: int)
    requires
        forall|i: int| off <= i < off + 4 ==> r1[i] == r0[i],
    ensures
        u32_at(r1, off) == u32_at(r0, off),
{
    reveal(u32_at);
}

/// A contiguous, uniquely owned byte buffer backing one broadcast region.
pub struct Bytes {
    pub(crate) data: Vec<u8>,
}

impl View for Bytes {
    type V = Seq<u8>;

    closed spec fn view(&self) -> Seq<u8> {
        self.data@
    }
}

impl Bytes {
    /// Allocates a zero-initialized buffer of `size` bytes, the state a fresh
    /// shared region must be in before its first use.
    pub fn heap_allocate(size: usize) -> (b: Bytes)
        ensures
            b@.len() == size,
            forall|i: int| 0 <= i < size ==> b@[i] == 0,
    {
        let mut data: Vec<u8> = Vec::new();
        while data.len() < size
            invariant
                data@.len() <= size,
                forall|i: int| 0 <= i < data@.len() ==> data@[i] == 0,
            decreases size - data@.len(),
        {
            data.push(0);
        }
        Bytes { data }
    }

    pub fn capacity(&self) -> (n: usize)
        ensures
            n == self@.len(),
    {
        self.data.len()
    }

    /// Surrenders the owned storage.
    pub(crate) fn into_vec(self) -> (v: Vec<u8>)
        ensures
            v@ == self@,
    {
        self.data
    }
}

/// Reads the little-endian 32-bit value at `off`.
pub fn load_u32(data: &Vec<u8>, off: usize) -> (v: u32)
    requires
        off + 4 <= data@.len(),
    ensures
        v == u32_at(data@, off as int),
{
    proof {
        reveal(u32_at);
    }
    let len = data.len();
    let b0 = data[off] as u32;
    let b1 = data[off + 1] as u32;
    let b2 = data[off + 2] as u32;
    let b3 = data[off + 3] as u32;
    b0 + b1 * 0x100 + b2 * 0x1_0000 + b3 * 0x100_0000
}

proof fn lemma_u32_le_split(v: u32)
    ensures
        v == (v as int) % 0x100 + ((v as int) / 0x100) % 0x100 * 0x100 + ((v as int) / 0x1_0000)
            % 0x100 * 0x1_0000 + ((v as int) / 0x100_0000) * 0x100_0000,
        (v as int) / 0x100_0000 < 0x100,
{
    let x = v as int;
    lemma_fundamental_div_mod(x, 0x100);
    lemma_fundamental_div_mod(x / 0x100, 0x100);
    lemma_fundamental_div_mod(x / 0x1_0000, 0x100);
    lemma_div_denominator(x, 0x100, 0x100);
    lemma_div_denominator(x, 0x1_0000, 0x100);
}

/// Writes `v` as four little-endian bytes at `off`; no other byte moves.
pub fn store_u32(data: &mut Vec<u8>, off: usize, v: u32)
    requires
        off + 4 <= old(data)@.len(),
    ensures
        final(data)@.len() == old(data)@.len(),
        u32_at(final(data)@, off as int) == v,
        forall|i: int|
            0 <= i < old(data)@.len() && !(off <= i < off + 4) ==> final(data)@[i] == old(
                data,
            )@[i],
{
    proof {
        reveal(u32_at);
        lemma_u32_le_split(v);
    }
    let len = data.len();
    let b0 = (v % 0x100) as u8;
    let b1 = ((v / 0x100) % 0x100) as u8;
    let b2 = ((v / 0x1_0000) % 0x100) as u8;
    let b3 = (v / 0x100_0000) as u8;
    data.set(off, b0);
    data.set(off + 1, b1);
    data.set(off + 2, b2);
    data.set(off + 3, b3);
}

/// Copies `src` into the buffer at `off`; no other byte moves.
pub fn copy_into(data: &mut Vec<u8>, off: usize, src: &[u8])
    requires
        off + src@.len() <= old(data)@.len(),
    ensures
        final(data)@.len() == old(data)@.len(),
        forall|j: int| 0 <= j < src@.len() ==> final(data)@[off + j] == src@[j],
        forall|i: int|
            0 <= i < old(data)@.len() && !(off <= i < off + src@.len()) ==> final(data)@[i] == old(
                data,
            )@[i],
{
    let n = src.len();
    let dlen = data.len();
    let mut j: usize = 0;
    while j < n
        invariant
            n == src@.len(),
            dlen == data@.len(),
            off + n <= data@.len(),
            j <= n,
            data@.len() == old(data)@.len(),
            forall|k: int| 0 <= k < j ==> data@[off + k] == src@[k],
            forall|i: int|
                0 <= i < old(data)@.len() && !(off <= i < off + n) ==> data@[i] == old(data)@[i],
        decreases n - j,
    {
        data.set(off + j, src[j]);
        j = j + 1;
    }
}

/// Copies the `n` bytes at `off` out of the buffer.
pub fn read_range(data: &Vec<u8>, off: usize, n: usize) -> (out: Vec<u8>)
    requires
        off + n <= data@.len(),
    ensures
        out@ == data@.subrange(off as int, off + n),
{
    let mut out: Vec<u8> = Vec::new();
    let dlen = data.len();
    let mut j: usize = 0;
    while j < n
        invariant
            dlen == data@.len(),
            off + n <= data@.len(),
            j <= n,
            out@ =~= data@.subrange(off as int, off + j),
        decreases n - j,
    {
        out.push(data[off + j]);
        j = j + 1;
    }
    proof {
        assert(out@ =~= data@.subrange(off as int, off + n));
    }
    out
}

} // verus!
