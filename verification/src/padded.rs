//! Padded LEB128 integers, written in place so that they can be patched later
//! (relocations).
use vstd::prelude::*;
use crate::leb128::{padded_groups, padded_leb128, patched};
use crate::MAX_SIZE_ENCODED_U32;

verus! {

/// Writes `value` as five-byte padded signed LEB128 over the first five bytes
/// of `buffer`, leaving the rest of it as it was.
pub fn overwrite_padded_i32(buffer: &mut [u8], value: i32)
    requires
        old(buffer)@.len() >= MAX_SIZE_ENCODED_U32,
    ensures
        final(buffer)@ == patched(old(buffer)@, 0, padded_leb128(value as int)),
{
    let mut x = value;
    let mut i: usize = 0;
    while i < 4
        invariant
            i <= 4,
            buffer@.len() == old(buffer)@.len(),
            buffer@.len() >= MAX_SIZE_ENCODED_U32,
            padded_leb128(value as int) == buffer@.subrange(0, i as int) + padded_groups(
                x as int,
                (4 - i) as nat,
            ),
            forall|j: int| i <= j < buffer@.len() ==> buffer@[j] == old(buffer)@[j],
        decreases 4 - i,
    {
        let ghost before = buffer@;
        let ghost byte = (128 + (x as int) % 128) as u8;
        assert(0x80 | ((x & 0x7f) as u8) == byte) by (bit_vector)
            requires
                byte == (128 + (x as int) % 128) as u8,
        ;
        assert(x >> 7u32 == x / 128) by (bit_vector);
        buffer[i] = 0x80 | ((x & 0x7f) as u8);
        x >>= 7;
        proof {
            assert(buffer@.subrange(0, i + 1) =~= before.subrange(0, i as int).push(byte));
        }
        i += 1;
    }
    assert((x & 0x7f) as int == (x as int) % 128) by (bit_vector);
    buffer[4] = (x & 0x7f) as u8;
    proof {
        let p = padded_leb128(value as int);
        assert(p.len() == 5);
        assert(buffer@.subrange(0, 5) =~= p);
        assert(buffer@ =~= patched(old(buffer)@, 0, p));
    }
}

/// Writes `value` as five-byte padded unsigned LEB128 over the first five
/// bytes of `buffer`, leaving the rest of it as it was.
pub fn overwrite_padded_u32(buffer: &mut [u8], value: u32)
    requires
        old(buffer)@.len() >= MAX_SIZE_ENCODED_U32,
    ensures
        final(buffer)@ == patched(old(buffer)@, 0, padded_leb128(value as int)),
{
    let mut x = value;
    let mut i: usize = 0;
    while i < 4
        invariant
            i <= 4,
            buffer@.len() == old(buffer)@.len(),
            buffer@.len() >= MAX_SIZE_ENCODED_U32,
            padded_leb128(value as int) == buffer@.subrange(0, i as int) + padded_groups(
                x as int,
                (4 - i) as nat,
            ),
            forall|j: int| i <= j < buffer@.len() ==> buffer@[j] == old(buffer)@[j],
            i >= 4 ==> x < 16,
            i >= 3 ==> x < 0x800,
            i >= 2 ==> x < 0x4_0000,
            i >= 1 ==> x < 0x200_0000,
        decreases 4 - i,
    {
        let ghost before = buffer@;
        let ghost byte = (128 + x % 128) as u8;
        assert(0x80 | ((x & 0x7f) as u8) == byte) by (bit_vector)
            requires
                byte == (128 + x % 128) as u8,
        ;
        assert(x >> 7u32 == x / 128) by (bit_vector);
        buffer[i] = 0x80 | ((x & 0x7f) as u8);
        x >>= 7;
        proof {
            assert(buffer@.subrange(0, i + 1) =~= before.subrange(0, i as int).push(byte));
        }
        i += 1;
    }
    buffer[4] = x as u8;
    proof {
        let p = padded_leb128(value as int);
        assert(p.len() == 5);
        assert(buffer@.subrange(0, 5) =~= p);
        assert(buffer@ =~= patched(old(buffer)@, 0, p));
    }
}

} // verus!
