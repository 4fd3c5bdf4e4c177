//! Little-endian integers read from and written to byte buffers at any offset.
use vstd::prelude::*;

verus! {

/// The 16-bit little-endian integer at byte `i`.
pub open spec fn u16_le(b: Seq<u8>, i: int) -> u16 {
    (b[i] as int + 0x100 * b[i + 1] as int) as u16
}

/// The 32-bit little-endian integer at byte `i`.
pub open spec fn u32_le(b: Seq<u8>, i: int) -> u32 {
    (b[i] as int + 0x100 * b[i + 1] as int + 0x10000 * b[i + 2] as int + 0x1000000
        * b[i + 3] as int) as u32
}

/// The 64-bit little-endian integer at byte `i`.
pub open spec fn u64_le(b: Seq<u8>, i: int) -> u64 {
    (u32_le(b, i) as int + 0x1_0000_0000 * u32_le(b, i + 4) as int) as u64
}

/// Reads the 16-bit little-endian integer at byte `i`.
pub fn read_u16(b: &[u8], i: usize) -> (r: u16)
    requires
        i + 2 <= b@.len(),
    ensures
        r == u16_le(b@, i as int),
{
    b[i] as u16 + 0x100 * b[i + 1] as u16
}

/// Reads the 32-bit little-endian integer at byte `i`.
pub fn read_u32(b: &[u8], i: usize) -> (r: u32)
    requires
        i + 4 <= b@.len(),
    ensures
        r == u32_le(b@, i as int),
{
    b[i] as u32 + 0x100 * b[i + 1] as u32 + 0x10000 * b[i + 2] as u32 + 0x1000000 * b[i + 3] as u32
}

/// Reads the 64-bit little-endian integer at byte `i`.
pub fn read_u64(b: &[u8], i: usize) -> (r: u64)
    requires
        i + 8 <= b@.len(),
    ensures
        r == u64_le(b@, i as int),
{
    let n = b.len();
    let lo = read_u32(b, i);
    let hi = read_u32(b, i + 4);
    lo as u64 + 0x1_0000_0000 * hi as u64
}

/// Writes `x` as a 32-bit little-endian integer at byte `i`.
pub fn write_u32(b: &mut Vec<u8>, i: usize, x: u32)
    requires
        i + 4 <= old(b)@.len(),
    ensures
        final(b)@.len() == old(b)@.len(),
        u32_le(final(b)@, i as int) == x,
        forall|k: int| 0 <= k < old(b)@.len() && !(i <= k < i + 4) ==> final(b)@[k] == old(b)@[k],
{
    let n = b.len();
    let b0 = (x % 0x100) as u8;
    let b1 = (x / 0x100 % 0x100) as u8;
    let b2 = (x / 0x10000 % 0x100) as u8;
    let b3 = (x / 0x1000000) as u8;
    b.set(i, b0);
    b.set(i + 1, b1);
    b.set(i + 2, b2);
    b.set(i + 3, b3);
    proof {
        assert(x % 0x100 + 0x100 * (x / 0x100 % 0x100) + 0x10000 * (x / 0x10000 % 0x100) + 0x1000000
            * (x / 0x1000000) == x) by (bit_vector);
        assert(x / 0x1000000 < 0x100) by (bit_vector);
    }
}

} // verus!
