//! Byte buffers that receive the encoded module, and the integer encodings
//! written into them.
use vstd::prelude::*;
use crate::leb128::{
    le_bytes, lemma_padded_leb128_decodes, lemma_sleb128_max_size, lemma_uleb128_max_size,
    padded_leb128, patched, sleb128, sleb128_done, uleb128,
};
use crate::padded::overwrite_padded_u32;
use crate::{MAX_SIZE_ENCODED_U32, MAX_SIZE_ENCODED_U64};

verus! {

broadcast use vstd::layout::layout_of_primitives;

/// Five bytes of `0xff`: the placeholder a padded integer is reserved with.
pub open spec fn padding_placeholder() -> Seq<u8> {
    Seq::new(MAX_SIZE_ENCODED_U32 as nat, |_k: int| 0xffu8)
}

/// Reserving a padded slot and then overwriting it with `value` leaves the
/// buffer as encoding `value` padded in one step does.
pub proof fn lemma_reserve_then_overwrite_padded(before: Seq<u8>, value: u32)
    ensures
        patched(before + padding_placeholder(), before.len() as int, padded_leb128(value as int))
            == before + padded_leb128(value as int),
{
    lemma_padded_leb128_decodes(value as int);
    assert(patched(before + padding_placeholder(), before.len() as int, padded_leb128(value as int))
        =~= before + padded_leb128(value as int));
}

/// Overwriting a padded slot twice leaves only the second value.
pub proof fn lemma_overwrite_padded_twice(s: Seq<u8>, index: int, first: u32, second: u32)
    requires
        0 <= index,
        index + MAX_SIZE_ENCODED_U32 <= s.len(),
    ensures
        patched(patched(s, index, padded_leb128(first as int)), index, padded_leb128(second as int))
            == patched(s, index, padded_leb128(second as int)),
{
    lemma_padded_leb128_decodes(first as int);
    lemma_padded_leb128_decodes(second as int);
    assert(patched(patched(s, index, padded_leb128(first as int)), index, padded_leb128(second as int))
        =~= patched(s, index, padded_leb128(second as int)));
}

/// A growable byte buffer the WebAssembly binary format is written into.
///
/// Implementors give the byte-level operations and the padded slots; the
/// LEB128 and little-endian encodings are provided on top of them.
pub trait SerialBuffer: Sized {
    /// The bytes the buffer holds.
    spec fn bytes(&self) -> Seq<u8>;

    /// Appends one byte.
    fn append_u8(&mut self, b: u8)
        ensures
            final(self).bytes() == old(self).bytes().push(b),
    ;

    /// Replaces the byte at `index`.
    fn overwrite_u8(&mut self, index: usize, b: u8)
        requires
            index < old(self).bytes().len(),
        ensures
            final(self).bytes() == old(self).bytes().update(index as int, b),
    ;

    /// Appends a run of bytes.
    fn append_slice(&mut self, b: &[u8])
        ensures
            final(self).bytes() == old(self).bytes() + b@,
    ;

    /// The number of bytes held.
    fn size(&self) -> (n: usize)
        ensures
            n == self.bytes().len(),
    ;

    /// Appends `value` as unsigned LEB128 and returns the number of bytes
    /// written.
    fn encode_u32(&mut self, value: u32) -> (n: usize)
        ensures
            final(self).bytes() == old(self).bytes() + uleb128(value as nat),
            n == uleb128(value as nat).len(),
            n <= MAX_SIZE_ENCODED_U32,
    {
        proof {
            lemma_uleb128_max_size(value as nat);
        }
        let mut x = value;
        let start_len = self.size();
        let ghost start = self.bytes();
        let ghost mut prefix: Seq<u8> = Seq::empty();
        while x >= 0x80
            invariant
                start.len() == start_len,
                self.bytes() == start + prefix,
                prefix + uleb128(x as nat) == uleb128(value as nat),
            decreases x,
        {
            let ghost byte = (128 + x % 128) as u8;
            assert(0x80 | ((x & 0x7f) as u8) == byte) by (bit_vector)
                requires
                    byte == (128 + x % 128) as u8,
            ;
            assert(x >> 7u32 == x / 128) by (bit_vector);
            assert(uleb128(x as nat) == seq![byte] + uleb128((x / 128) as nat));
            self.append_u8(0x80 | ((x & 0x7f) as u8));
            x >>= 7;
            proof {
                assert(prefix.push(byte) + uleb128(x as nat) =~= prefix + (seq![byte] + uleb128(
                    x as nat,
                )));
                prefix = prefix.push(byte);
            }
        }
        self.append_u8(x as u8);
        assert(prefix.push(x as u8) =~= prefix + uleb128(x as nat));
        self.size() - start_len
    }

    /// Appends `value` as unsigned LEB128 and returns the number of bytes
    /// written.
    fn encode_u64(&mut self, value: u64) -> (n: usize)
        ensures
            final(self).bytes() == old(self).bytes() + uleb128(value as nat),
            n == uleb128(value as nat).len(),
            n <= MAX_SIZE_ENCODED_U64,
    {
        proof {
            lemma_uleb128_max_size(value as nat);
        }
        let mut x = value;
        let start_len = self.size();
        let ghost start = self.bytes();
        let ghost mut prefix: Seq<u8> = Seq::empty();
        while x >= 0x80
            invariant
                start.len() == start_len,
                self.bytes() == start + prefix,
                prefix + uleb128(x as nat) == uleb128(value as nat),
            decreases x,
        {
            let ghost byte = (128 + x % 128) as u8;
            assert(0x80 | ((x & 0x7f) as u8) == byte) by (bit_vector)
                requires
                    byte == (128 + x % 128) as u8,
            ;
            assert(x >> 7u64 == x / 128) by (bit_vector);
            assert(uleb128(x as nat) == seq![byte] + uleb128((x / 128) as nat));
            self.append_u8(0x80 | ((x & 0x7f) as u8));
            x >>= 7;
            proof {
                assert(prefix.push(byte) + uleb128(x as nat) =~= prefix + (seq![byte] + uleb128(
                    x as nat,
                )));
                prefix = prefix.push(byte);
            }
        }
        self.append_u8(x as u8);
        assert(prefix.push(x as u8) =~= prefix + uleb128(x as nat));
        self.size() - start_len
    }

    /// Appends `value` as signed LEB128 and returns the number of bytes
    /// written.
    fn encode_i32(&mut self, value: i32) -> (n: usize)
        ensures
            final(self).bytes() == old(self).bytes() + sleb128(value as int),
            n == sleb128(value as int).len(),
            n <= MAX_SIZE_ENCODED_U32,
    {
        proof {
            lemma_sleb128_max_size(value as int);
        }
        let mut x = value;
        let start_len = self.size();
        let ghost start = self.bytes();
        let ghost mut prefix: Seq<u8> = Seq::empty();
        loop
            invariant_except_break
                start.len() == start_len,
                self.bytes() == start + prefix,
                prefix + sleb128(x as int) == sleb128(value as int),
            ensures
                start.len() == start_len,
                self.bytes() == start + sleb128(value as int),
            decreases (if x >= 0 { x as int } else { -(x as int) }),
        {
            let ghost before = x as int;
            assert((x & 0x7f) as int == (x as int) % 128) by (bit_vector);
            assert(x >> 7u32 == x / 128) by (bit_vector);
            let byte = (x & 0x7f) as u8;
            x >>= 7;
            assert(((byte & 0x40) != 0) == (byte >= 64)) by (bit_vector)
                requires
                    byte < 128,
            ;
            let byte_is_negative = (byte & 0x40) != 0;
            if (x == 0 && !byte_is_negative) || (x == -1 && byte_is_negative) {
                self.append_u8(byte);
                proof {
                    assert(sleb128_done(before % 128, before / 128));
                    assert(sleb128(before) == seq![byte]);
                    assert(prefix.push(byte) =~= prefix + sleb128(before));
                }
                break;
            }
            assert(byte | 0x80 == byte + 128) by (bit_vector)
                requires
                    byte < 128,
            ;
            self.append_u8(byte | 0x80);
            proof {
                let b = (byte + 128) as u8;
                assert(!sleb128_done(before % 128, before / 128));
                assert(sleb128(before) == seq![b] + sleb128(x as int));
                assert(prefix.push(b) + sleb128(x as int) =~= prefix + (seq![b] + sleb128(
                    x as int,
                )));
                prefix = prefix.push(b);
            }
        }
        self.size() - start_len
    }

    /// Appends `value` as signed LEB128 and returns the number of bytes
    /// written.
    fn encode_i64(&mut self, value: i64) -> (n: usize)
        ensures
            final(self).bytes() == old(self).bytes() + sleb128(value as int),
            n == sleb128(value as int).len(),
            n <= MAX_SIZE_ENCODED_U64,
    {
        proof {
            lemma_sleb128_max_size(value as int);
        }
        let mut x = value;
        let start_len = self.size();
        let ghost start = self.bytes();
        let ghost mut prefix: Seq<u8> = Seq::empty();
        loop
            invariant_except_break
                start.len() == start_len,
                self.bytes() == start + prefix,
                prefix + sleb128(x as int) == sleb128(value as int),
            ensures
                start.len() == start_len,
                self.bytes() == start + sleb128(value as int),
            decreases (if x >= 0 { x as int } else { -(x as int) }),
        {
            let ghost before = x as int;
            assert((x & 0x7f) as int == (x as int) % 128) by (bit_vector);
            assert(x >> 7u64 == x / 128) by (bit_vector);
            let byte = (x & 0x7f) as u8;
            x >>= 7;
            assert(((byte & 0x40) != 0) == (byte >= 64)) by (bit_vector)
                requires
                    byte < 128,
            ;
            let byte_is_negative = (byte & 0x40) != 0;
            if (x == 0 && !byte_is_negative) || (x == -1 && byte_is_negative) {
                self.append_u8(byte);
                proof {
                    assert(sleb128_done(before % 128, before / 128));
                    assert(sleb128(before) == seq![byte]);
                    assert(prefix.push(byte) =~= prefix + sleb128(before));
                }
                break;
            }
            assert(byte | 0x80 == byte + 128) by (bit_vector)
                requires
                    byte < 128,
            ;
            self.append_u8(byte | 0x80);
            proof {
                let b = (byte + 128) as u8;
                assert(!sleb128_done(before % 128, before / 128));
                assert(sleb128(before) == seq![b] + sleb128(x as int));
                assert(prefix.push(b) + sleb128(x as int) =~= prefix + (seq![b] + sleb128(
                    x as int,
                )));
                prefix = prefix.push(b);
            }
        }
        self.size() - start_len
    }


    /// Appends five placeholder bytes for a padded `u32` that will be
    /// written later, and returns where they start.
    fn reserve_padded_u32(&mut self) -> (index: usize)
        requires
            old(self).bytes().len() + MAX_SIZE_ENCODED_U32 <= usize::MAX,
        ensures
            index == old(self).bytes().len(),
            final(self).bytes() == old(self).bytes() + padding_placeholder(),
    ;

    /// Appends `value` as five-byte padded LEB128 and returns where it
    /// starts.
    fn encode_padded_u32(&mut self, value: u32) -> (index: usize)
        requires
            old(self).bytes().len() + MAX_SIZE_ENCODED_U32 <= usize::MAX,
        ensures
            index == old(self).bytes().len(),
            final(self).bytes() == old(self).bytes() + padded_leb128(value as int),
    ;

    /// Writes `value` as five-byte padded LEB128 over the five bytes that
    /// start at `index`.
    fn overwrite_padded_u32(&mut self, index: usize, value: u32)
        requires
            index + MAX_SIZE_ENCODED_U32 <= old(self).bytes().len(),
        ensures
            final(self).bytes() == patched(old(self).bytes(), index as int, padded_leb128(value as int)),
    ;

    /// Appends the bytes of `value` unencoded, least significant first (used
    /// in relocations).
    fn write_unencoded_u32(&mut self, value: u32)
        ensures
            final(self).bytes() == old(self).bytes() + le_bytes(value as nat, 4),
    {
        let mut x = value;
        let size = core::mem::size_of::<u32>();
        let ghost start = self.bytes();
        let ghost mut prefix: Seq<u8> = Seq::empty();
        for k in 0..size
            invariant
                size == 4,
                self.bytes() == start + prefix,
                prefix + le_bytes(x as nat, (size - k) as nat) == le_bytes(value as nat, 4),
        {
            assert((x & 0xff) as int == x % 256) by (bit_vector);
            assert(x >> 8u32 == x / 256) by (bit_vector);
            let ghost byte = (x % 256) as u8;
            assert(le_bytes(x as nat, (size - k) as nat) == seq![byte] + le_bytes(
                (x / 256) as nat,
                (size - k - 1) as nat,
            ));
            self.append_u8((x & 0xff) as u8);
            x >>= 8;
            proof {
                assert(prefix.push(byte) + le_bytes(x as nat, (size - k - 1) as nat) =~= prefix + (
                seq![byte] + le_bytes(x as nat, (size - k - 1) as nat)));
                prefix = prefix.push(byte);
            }
        }
        assert(prefix + le_bytes(x as nat, 0) =~= prefix);
    }

    /// Appends the bytes of `value` unencoded, least significant first (used
    /// in relocations).
    fn write_unencoded_u64(&mut self, value: u64)
        ensures
            final(self).bytes() == old(self).bytes() + le_bytes(value as nat, 8),
    {
        let mut x = value;
        let size = core::mem::size_of::<u64>();
        let ghost start = self.bytes();
        let ghost mut prefix: Seq<u8> = Seq::empty();
        for k in 0..size
            invariant
                size == 8,
                self.bytes() == start + prefix,
                prefix + le_bytes(x as nat, (size - k) as nat) == le_bytes(value as nat, 8),
        {
            assert((x & 0xff) as int == x % 256) by (bit_vector);
            assert(x >> 8u64 == x / 256) by (bit_vector);
            let ghost byte = (x % 256) as u8;
            assert(le_bytes(x as nat, (size - k) as nat) == seq![byte] + le_bytes(
                (x / 256) as nat,
                (size - k - 1) as nat,
            ));
            self.append_u8((x & 0xff) as u8);
            x >>= 8;
            proof {
                assert(prefix.push(byte) + le_bytes(x as nat, (size - k - 1) as nat) =~= prefix + (
                seq![byte] + le_bytes(x as nat, (size - k - 1) as nat)));
                prefix = prefix.push(byte);
            }
        }
        assert(prefix + le_bytes(x as nat, 0) =~= prefix);
    }

}


impl SerialBuffer for Vec<u8> {
    open spec fn bytes(&self) -> Seq<u8> {
        self@
    }

    fn append_u8(&mut self, b: u8) {
        self.push(b);
    }

    fn overwrite_u8(&mut self, index: usize, b: u8) {
        self[index] = b;
    }

    fn append_slice(&mut self, b: &[u8]) {
        self.extend_from_slice(b);
        assert(self@ =~= old(self)@ + b@);
    }

    fn size(&self) -> (n: usize) {
        self.len()
    }

    fn reserve_padded_u32(&mut self) -> (index: usize) {
        let index = self.len();
        self.resize(index + MAX_SIZE_ENCODED_U32, 0xff);
        assert(self@ =~= old(self)@ + padding_placeholder());
        index
    }

    fn encode_padded_u32(&mut self, value: u32) -> (index: usize) {
        let index = self.len();
        let new_len = index + MAX_SIZE_ENCODED_U32;
        self.resize(new_len, 0);
        let (head, window) = self.as_mut_slice().split_at_mut(index);
        overwrite_padded_u32(window, value);
        proof {
            lemma_padded_leb128_decodes(value as int);
        }
        assert(window@ =~= padded_leb128(value as int));
        assert(self@ == head@ + window@);
        assert(self@ =~= old(self)@ + padded_leb128(value as int));
        index
    }

    fn overwrite_padded_u32(&mut self, index: usize, value: u32) {
        proof {
            lemma_padded_leb128_decodes(value as int);
        }
        let (head, tail) = self.as_mut_slice().split_at_mut(index);
        let (window, rest) = tail.split_at_mut(MAX_SIZE_ENCODED_U32);
        overwrite_padded_u32(window, value);
        assert(window@ =~= padded_leb128(value as int));
        assert(self@ == head@ + (window@ + rest@));
        assert(self@ =~= patched(old(self)@, index as int, padded_leb128(value as int)));
    }
}

} // verus!
