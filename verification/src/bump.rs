//! Buffers allocated in a `bumpalo` arena.
use vstd::prelude::*;
use bumpalo::collections::Vec as BumpVec;
use crate::buffer::{padding_placeholder, SerialBuffer};
use crate::leb128::{lemma_padded_leb128_decodes, padded_leb128, patched};
use crate::padded::overwrite_padded_u32;
use crate::leb128::read_uleb128;
use crate::serialize::{length_prefix, lemma_length_prefix_reads_back, Serialize};
use crate::MAX_SIZE_ENCODED_U32;

verus! {

#[verifier::external_type_specification]
#[verifier::external_body]
#[verifier::reject_recursive_types(T)]
pub struct ExBumpVec<'bump, T>(bumpalo::collections::Vec<'bump, T>);

/// The bytes an arena-allocated vector holds, first to last.
pub uninterp spec fn bump_vec_bytes(v: BumpVec<'_, u8>) -> Seq<u8>;

/// `bumpalo::collections::Vec::push`: the byte is appended after the others.
/// Whether the arena can grow the vector (it panics or aborts when it cannot
/// allocate) depends on the arena, not on the bytes, and is left unsaid.
#[verifier::external_body]
fn bump_push(v: &mut BumpVec<'_, u8>, b: u8)
    ensures
        bump_vec_bytes(*final(v)) == bump_vec_bytes(*old(v)).push(b),
{
    v.push(b);
}

/// `bumpalo::collections::Vec::len`: the number of bytes held.
#[verifier::external_body]
fn bump_len(v: &BumpVec<'_, u8>) -> (n: usize)
    ensures
        n == bump_vec_bytes(*v).len(),
{
    v.len()
}

/// `bumpalo::collections::Vec::extend_from_slice`: the bytes of `other` are
/// appended in order. Allocation failure is left unsaid, as for `push`.
#[verifier::external_body]
fn bump_extend_from_slice(v: &mut BumpVec<'_, u8>, other: &[u8])
    ensures
        bump_vec_bytes(*final(v)) == bump_vec_bytes(*old(v)) + other@,
{
    v.extend_from_slice(other);
}

/// `bumpalo::collections::Vec::resize`: truncates to `new_len` bytes, or
/// extends to it with copies of `value`. Allocation failure is left unsaid,
/// as for `push`.
#[verifier::external_body]
fn bump_resize(v: &mut BumpVec<'_, u8>, new_len: usize, value: u8)
    ensures
        new_len <= bump_vec_bytes(*old(v)).len() ==> bump_vec_bytes(*final(v)) == bump_vec_bytes(
            *old(v),
        ).subrange(0, new_len as int),
        new_len > bump_vec_bytes(*old(v)).len() ==> bump_vec_bytes(*final(v)) == bump_vec_bytes(
            *old(v),
        ) + Seq::new((new_len - bump_vec_bytes(*old(v)).len()) as nat, |_k: int| value),
{
    v.resize(new_len, value);
}

/// `bumpalo::collections::Vec::as_slice`: a view of the bytes held.
#[verifier::external_body]
fn bump_as_slice<'a>(v: &'a BumpVec<'_, u8>) -> (s: &'a [u8])
    ensures
        s@ == bump_vec_bytes(*v),
{
    v.as_slice()
}

/// `bumpalo::collections::Vec::as_mut_slice`: a mutable view of the bytes
/// held; what is written through it is what the vector holds afterwards.
#[verifier::external_body]
fn bump_as_mut_slice<'a>(v: &'a mut BumpVec<'_, u8>) -> (s: &'a mut [u8])
    ensures
        s@ == bump_vec_bytes(*old(v)),
        bump_vec_bytes(*final(v)) == final(s)@,
{
    v.as_mut_slice()
}

impl<'a> SerialBuffer for BumpVec<'a, u8> {
    open spec fn bytes(&self) -> Seq<u8> {
        bump_vec_bytes(*self)
    }

    fn append_u8(&mut self, b: u8) {
        bump_push(self, b);
    }

    fn overwrite_u8(&mut self, index: usize, b: u8) {
        let s = bump_as_mut_slice(self);
        s[index] = b;
    }

    fn append_slice(&mut self, b: &[u8]) {
        bump_extend_from_slice(self, b);
    }

    fn size(&self) -> (n: usize) {
        bump_len(self)
    }

    fn reserve_padded_u32(&mut self) -> (index: usize) {
        let index = bump_len(self);
        bump_resize(self, index + MAX_SIZE_ENCODED_U32, 0xff);
        assert(self.bytes() =~= old(self).bytes() + padding_placeholder());
        index
    }

    fn encode_padded_u32(&mut self, value: u32) -> (index: usize) {
        proof {
            lemma_padded_leb128_decodes(value as int);
        }
        let index = bump_len(self);
        let new_len = index + MAX_SIZE_ENCODED_U32;
        bump_resize(self, new_len, 0);
        let (head, window) = bump_as_mut_slice(self).split_at_mut(index);
        overwrite_padded_u32(window, value);
        assert(window@ =~= padded_leb128(value as int));
        assert(self.bytes() == head@ + window@);
        assert(self.bytes() =~= old(self).bytes() + padded_leb128(value as int));
        index
    }

    fn overwrite_padded_u32(&mut self, index: usize, value: u32) {
        proof {
            lemma_padded_leb128_decodes(value as int);
        }
        let (head, tail) = bump_as_mut_slice(self).split_at_mut(index);
        let (window, rest) = tail.split_at_mut(MAX_SIZE_ENCODED_U32);
        overwrite_padded_u32(window, value);
        assert(window@ =~= padded_leb128(value as int));
        assert(self.bytes() == head@ + (window@ + rest@));
        assert(self.bytes() =~= patched(old(self).bytes(), index as int, padded_leb128(value as int)));
    }
}


impl<'a> Serialize for BumpVec<'a, u8> {
    /// A byte vector: its length, then its bytes.
    open spec fn serialized(&self) -> Seq<u8> {
        length_prefix(bump_vec_bytes(*self).len()) + bump_vec_bytes(*self)
    }

    fn serialize<T: SerialBuffer>(&self, buffer: &mut T) {
        buffer.encode_u32(#[verifier::truncate] (bump_len(self) as u32));
        buffer.append_slice(bump_as_slice(self));
        assert(buffer.bytes() =~= old(buffer).bytes() + self.serialized());
    }
}


/// An arena byte vector is written as a LEB128 frame holding its length (cut
/// to 32 bits), followed by exactly its bytes.
pub proof fn lemma_byte_vector_is_length_then_bytes(v: &BumpVec<'_, u8>)
    ensures
        ({
            let out = <BumpVec<u8> as Serialize>::serialized(v);
            let bytes = bump_vec_bytes(*v);
            &&& read_uleb128(out) matches Some((count, k)) && {
                &&& count == (bytes.len() as u32) as nat
                &&& bytes.len() <= u32::MAX ==> count == bytes.len()
                &&& out.skip(k as int) == bytes
            }
        }),
{
    let bytes = bump_vec_bytes(*v);
    lemma_length_prefix_reads_back(bytes.len(), bytes);
    let out = <BumpVec<u8> as Serialize>::serialized(v);
    assert(out.skip(length_prefix(bytes.len()).len() as int) =~= bytes);
}

} // verus!
