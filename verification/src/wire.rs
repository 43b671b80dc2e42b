//! Big-endian field access on byte buffers.
//!
//! Every multi-byte integer in the on-disk format is stored big-endian at a
//! fixed offset. These helpers read and write such fields and relate the
//! executable code to the spec-level byte definitions used by the codecs.
use vstd::prelude::*;

verus! {

/// Byte `j` (0 = most significant) of a big-endian 16-bit value.
pub open spec fn be16_byte(v: u16, j: int) -> u8 {
    if j == 0 {
        (v >> 8) as u8
    } else {
        v as u8
    }
}

/// Byte `j` (0 = most significant) of a big-endian 32-bit value.
pub open spec fn be32_byte(v: u32, j: int) -> u8 {
    if j == 0 {
        (v >> 24) as u8
    } else if j == 1 {
        (v >> 16) as u8
    } else if j == 2 {
        (v >> 8) as u8
    } else {
        v as u8
    }
}

/// The 16-bit value stored big-endian at offset `off` of `b`.
pub open spec fn read16(b: Seq<u8>, off: int) -> u16 {
    (((b[off] as u16) << 8) | (b[off + 1] as u16)) as u16
}

/// The 32-bit value stored big-endian at offset `off` of `b`.
pub open spec fn read32(b: Seq<u8>, off: int) -> u32 {
    (((b[off] as u32) << 24) | ((b[off + 1] as u32) << 16) | ((b[off + 2] as u32) << 8) | (b[off
        + 3] as u32)) as u32
}

/// Reassembling the two big-endian bytes of a 16-bit value gives it back.
pub proof fn lemma_be16_round(v: u16)
    ensures
        (((be16_byte(v, 0) as u16) << 8) | (be16_byte(v, 1) as u16)) as u16 == v,
{
    assert((((((v >> 8) as u8) as u16) << 8) | ((v as u8) as u16)) as u16 == v) by (bit_vector);
}

/// Reassembling the four big-endian bytes of a 32-bit value gives it back.
pub proof fn lemma_be32_round(v: u32)
    ensures
        ((((be32_byte(v, 0) as u32) << 24) | ((be32_byte(v, 1) as u32) << 16) | ((be32_byte(
            v,
            2,
        ) as u32) << 8) | (be32_byte(v, 3) as u32)) as u32) == v,
{
    assert(((((((v >> 24) as u8) as u32) << 24) | ((((v >> 16) as u8) as u32) << 16) | ((((v
        >> 8) as u8) as u32) << 8) | ((v as u8) as u32)) as u32) == v) by (bit_vector);
}

/// Reads the big-endian 16-bit field at `off`.
pub fn get_be16(b: &[u8], off: usize) -> (r: u16)
    requires
        off + 2 <= b@.len(),
    ensures
        r == read16(b@, off as int),
{
    let n = b.len();
    let hi = *vstd::slice::slice_index_get(b, off);
    let lo = *vstd::slice::slice_index_get(b, off + 1);
    ((hi as u16) << 8) | (lo as u16)
}

/// Reads the big-endian 32-bit field at `off`.
pub fn get_be32(b: &[u8], off: usize) -> (r: u32)
    requires
        off + 4 <= b@.len(),
    ensures
        r == read32(b@, off as int),
{
    let n = b.len();
    let b0 = *vstd::slice::slice_index_get(b, off);
    let b1 = *vstd::slice::slice_index_get(b, off + 1);
    let b2 = *vstd::slice::slice_index_get(b, off + 2);
    let b3 = *vstd::slice::slice_index_get(b, off + 3);
    ((b0 as u32) << 24) | ((b1 as u32) << 16) | ((b2 as u32) << 8) | (b3 as u32)
}

/// Writes `v` big-endian into `buf[off .. off + 2]`, leaving the rest alone.
pub fn put_be16(buf: &mut Vec<u8>, off: usize, v: u16)
    requires
        off + 2 <= old(buf)@.len(),
    ensures
        final(buf)@.len() == old(buf)@.len(),
        forall|k: int|
            0 <= k < old(buf)@.len() && !(off <= k < off + 2) ==> final(buf)@[k] == old(buf)@[k],
        forall|j: int| 0 <= j < 2 ==> final(buf)@[off + j] == be16_byte(v, j),
{
    let n = buf.len();
    buf[off] = (v >> 8) as u8;
    buf[off + 1] = #[verifier::truncate] (v as u8);
}

/// Writes `v` big-endian into `buf[off .. off + 4]`, leaving the rest alone.
pub fn put_be32(buf: &mut Vec<u8>, off: usize, v: u32)
    requires
        off + 4 <= old(buf)@.len(),
    ensures
        final(buf)@.len() == old(buf)@.len(),
        forall|k: int|
            0 <= k < old(buf)@.len() && !(off <= k < off + 4) ==> final(buf)@[k] == old(buf)@[k],
        forall|j: int| 0 <= j < 4 ==> final(buf)@[off + j] == be32_byte(v, j),
{
    let n = buf.len();
    buf[off] = (v >> 24) as u8;
    buf[off + 1] = #[verifier::truncate] ((v >> 16) as u8);
    buf[off + 2] = #[verifier::truncate] ((v >> 8) as u8);
    buf[off + 3] = #[verifier::truncate] (v as u8);
}

/// Zero-fills `buf[off .. off + n]`, leaving the rest alone.
pub fn put_zeros(buf: &mut Vec<u8>, off: usize, n: usize)
    requires
        off + n <= old(buf)@.len(),
    ensures
        final(buf)@.len() == old(buf)@.len(),
        forall|k: int|
            0 <= k < old(buf)@.len() && !(off <= k < off + n) ==> final(buf)@[k] == old(buf)@[k],
        forall|k: int| off <= k < off + n ==> final(buf)@[k] == 0u8,
{
    let len = buf.len();
    let mut i: usize = 0;
    while i < n
        invariant
            i <= n,
            off + n <= buf@.len() && buf@.len() <= usize::MAX,
            buf@.len() == old(buf)@.len(),
            forall|k: int|
                0 <= k < old(buf)@.len() && !(off <= k < off + i) ==> buf@[k] == old(buf)@[k],
            forall|k: int| off <= k < off + i ==> buf@[k] == 0u8,
        decreases n - i,
    {
        buf[off + i] = 0u8;
        i = i + 1;
    }
}

} // verus!
