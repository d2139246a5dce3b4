//! Little-endian integer (de)serialization helpers.

use vstd::prelude::*;

verus! {

/// Decodes four bytes as a little-endian 32-bit unsigned integer.
pub fn deserialize_u32_le(buf: &[u8]) -> (r: u32)
    requires
        buf@.len() == 4,
    ensures
        r == vstd::bytes::spec_u32_from_le_bytes(buf@),
{
    vstd::bytes::u32_from_le_bytes(buf)
}

/// Writes the little-endian encoding of `value` over `buf[0..4]`, leaving
/// the rest of the buffer untouched.
pub fn serialize_u32_le(value: u32, buf: &mut Vec<u8>)
    requires
        old(buf)@.len() >= 4,
    ensures
        final(buf)@.len() == old(buf)@.len(),
        final(buf)@.subrange(0, 4) == vstd::bytes::spec_u32_to_le_bytes(value),
        final(buf)@.skip(4) == old(buf)@.skip(4),
{
    let bytes = vstd::bytes::u32_to_le_bytes(value);
    let mut i: usize = 0;
    while i < 4
        invariant
            i <= 4,
            bytes@ == vstd::bytes::spec_u32_to_le_bytes(value),
            bytes@.len() == 4,
            buf@.len() == old(buf)@.len(),
            buf@.len() >= 4,
            forall|j: int| 0 <= j < i ==> buf@[j] == bytes@[j],
            forall|j: int| i <= j < buf@.len() ==> buf@[j] == old(buf)@[j],
        decreases 4 - i,
    {
        buf.set(i, bytes[i]);
        i = i + 1;
    }
    proof {
        assert(buf@.subrange(0, 4) =~= vstd::bytes::spec_u32_to_le_bytes(value));
        assert(buf@.skip(4) =~= old(buf)@.skip(4));
    }
}

/// Decodes eight bytes as a little-endian 64-bit unsigned integer.
pub fn deserialize_u64_le(buf: &[u8]) -> (r: u64)
    requires
        buf@.len() == 8,
    ensures
        r == vstd::bytes::spec_u64_from_le_bytes(buf@),
{
    vstd::bytes::u64_from_le_bytes(buf)
}

/// Writes the little-endian encoding of `value` over `buf[0..8]`, leaving
/// the rest of the buffer untouched.
pub fn serialize_u64_le(value: u64, buf: &mut Vec<u8>)
    requires
        old(buf)@.len() >= 8,
    ensures
        final(buf)@.len() == old(buf)@.len(),
        final(buf)@.subrange(0, 8) == vstd::bytes::spec_u64_to_le_bytes(value),
        final(buf)@.skip(8) == old(buf)@.skip(8),
{
    let bytes = vstd::bytes::u64_to_le_bytes(value);
    let mut i: usize = 0;
    while i < 8
        invariant
            i <= 8,
            bytes@ == vstd::bytes::spec_u64_to_le_bytes(value),
            bytes@.len() == 8,
            buf@.len() == old(buf)@.len(),
            buf@.len() >= 8,
            forall|j: int| 0 <= j < i ==> buf@[j] == bytes@[j],
            forall|j: int| i <= j < buf@.len() ==> buf@[j] == old(buf)@[j],
        decreases 8 - i,
    {
        buf.set(i, bytes[i]);
        i = i + 1;
    }
    proof {
        assert(buf@.subrange(0, 8) =~= vstd::bytes::spec_u64_to_le_bytes(value));
        assert(buf@.skip(8) =~= old(buf)@.skip(8));
    }
}

} // verus!
