//! Block checksum: bytes are added into a 16-bit accumulator which is
//! rotated left one bit after each addition; a final value of zero is
//! replaced by the sentinel `0xffff`.
use vstd::prelude::*;

verus! {

/// One checksum step: add the byte, wrapping, then rotate left one bit.
pub open spec fn sum_step(acc: u16, b: u8) -> u16 {
    let s = ((acc as int + b as int) % 0x10000) as u16;
    ((s << 1) | (s >> 15)) as u16
}

/// The accumulator after folding `b` into `acc`, front to back.
pub open spec fn sum_fold(b: Seq<u8>, acc: u16) -> u16
    decreases b.len(),
{
    if b.len() == 0 {
        acc
    } else {
        sum_fold(b.drop_first(), sum_step(acc, b[0]))
    }
}

/// The checksum of `b`: the folded accumulator, with zero replaced by the
/// sentinel.
pub open spec fn apple_sum(b: Seq<u8>) -> u16 {
    let v = sum_fold(b, 0);
    if v == 0 {
        0xffff
    } else {
        v
    }
}

/// Computes the block checksum of `data`.
pub fn apple_checksum(data: &[u8]) -> (r: u16)
    ensures
        r == apple_sum(data@),
{
    let n = data.len();
    let mut acc: u16 = 0;
    let mut i: usize = 0;
    proof {
        assert(data@.skip(0) =~= data@);
    }
    while i < n
        invariant
            i <= n,
            n == data@.len(),
            sum_fold(data@, 0) == sum_fold(data@.skip(i as int), acc),
        decreases n - i,
    {
        let b = *vstd::slice::slice_index_get(data, i);
        proof {
            assert(data@.skip(i as int)[0] == data@[i as int]);
            assert(data@.skip(i as int).drop_first() =~= data@.skip(i + 1));
        }
        let wide: u32 = (acc as u32) + (b as u32);
        proof {
            assert(wide & 0xffff == wide % 0x10000) by (bit_vector);
        }
        let s: u16 = (wide & 0xffff) as u16;
        acc = (s << 1) | (s >> 15);
        i = i + 1;
    }
    proof {
        assert(data@.skip(n as int) =~= Seq::empty());
    }
    if acc == 0 {
        0xffff
    } else {
        acc
    }
}

} // verus!
