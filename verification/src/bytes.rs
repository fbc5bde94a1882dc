//! Little-endian integers in a byte buffer.

use vstd::prelude::*;

verus! {

/// The unsigned 32-bit integer at `at`.
pub open spec fn u32_at(b: Seq<u8>, at: int) -> int {
    b[at] + 0x100 * b[at + 1] + 0x1_0000 * b[at + 2] + 0x100_0000 * b[at + 3]
}

/// The two's complement 32-bit integer at `at`.
pub open spec fn i32_at(b: Seq<u8>, at: int) -> int {
    if u32_at(b, at) < 0x8000_0000 {
        u32_at(b, at)
    } else {
        u32_at(b, at) - 0x1_0000_0000
    }
}

/// The unsigned 64-bit integer at `at`.
pub open spec fn u64_at(b: Seq<u8>, at: int) -> int {
    u32_at(b, at) + 0x1_0000_0000 * u32_at(b, at + 4)
}

/// The unsigned 32-bit integer at `offset`.
pub fn read_u32(bytes: &[u8], offset: usize) -> (r: u32)
    requires
        offset + 4 <= bytes.len(),
    ensures
        r == u32_at(bytes@, offset as int),
{
    bytes[offset] as u32 + 0x100 * (bytes[offset + 1] as u32) + 0x1_0000 * (bytes[offset
        + 2] as u32) + 0x100_0000 * (bytes[offset + 3] as u32)
}

/// The signed 32-bit integer at `offset`.
pub fn read_i32(bytes: &[u8], offset: usize) -> (r: i32)
    requires
        offset + 4 <= bytes.len(),
    ensures
        r == i32_at(bytes@, offset as int),
{
    let u: u32 = read_u32(bytes, offset);
    if u < 0x8000_0000 {
        u as i32
    } else {
        (u as i64 - 0x1_0000_0000) as i32
    }
}

/// The unsigned 64-bit integer at `offset`.
pub fn read_u64(bytes: &[u8], offset: usize) -> (r: u64)
    requires
        offset + 8 <= bytes.len(),
    ensures
        r == u64_at(bytes@, offset as int),
{
    read_u32(bytes, offset) as u64 + 0x1_0000_0000 * (read_u32(bytes, offset + 4) as u64)
}

/// The bytes of `bytes[from..to]`.
pub fn copy_range(bytes: &[u8], from: usize, to: usize) -> (r: Vec<u8>)
    requires
        from <= to <= bytes.len(),
    ensures
        r@ == bytes@.subrange(from as int, to as int),
{
    let mut r: Vec<u8> = Vec::new();
    let mut i: usize = from;
    while i < to
        invariant
            from <= i <= to <= bytes.len(),
            r@ == bytes@.subrange(from as int, i as int),
        decreases to - i,
    {
        r.push(bytes[i]);
        i += 1;
    }
    r
}

} // verus!
