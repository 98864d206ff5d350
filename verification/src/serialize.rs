//! Values that know how to write themselves into a `SerialBuffer`.
use vstd::prelude::*;
use crate::buffer::SerialBuffer;
use crate::leb128::{lemma_read_uleb128_prefix, lemma_uleb128_max_size, read_uleb128, uleb128};
use crate::MAX_SIZE_ENCODED_U32;
use vstd::string::StringSliceAdditionalSpecFns;

verus! {

/// A value with a WebAssembly binary encoding.
pub trait Serialize {
    /// The bytes the value is written as.
    spec fn serialized(&self) -> Seq<u8>;

    /// Appends the value's encoding to `buffer`.
    fn serialize<T: SerialBuffer>(&self, buffer: &mut T)
        ensures
            final(buffer).bytes() == old(buffer).bytes() + self.serialized(),
    ;
}

/// A vector's length prefix: its length as a `u32` (the length is cut to 32
/// bits, as the format has no room for more), in unsigned LEB128.
pub open spec fn length_prefix(len: nat) -> Seq<u8> {
    uleb128((len as u32) as nat)
}

/// The encodings of `items`, one after another.
pub open spec fn serialized_items<S: Serialize>(items: Seq<S>) -> Seq<u8>
    decreases items.len(),
{
    if items.len() == 0 {
        Seq::empty()
    } else {
        serialized_items(items.drop_last()) + items.last().serialized()
    }
}

impl Serialize for str {
    /// A name: its byte length, then its UTF-8 bytes.
    open spec fn serialized(&self) -> Seq<u8> {
        length_prefix(self.spec_bytes().len()) + self.spec_bytes()
    }

    fn serialize<T: SerialBuffer>(&self, buffer: &mut T) {
        let bytes = self.as_bytes();
        assert(bytes@.len() == bytes.len());
        buffer.encode_u32(#[verifier::truncate] (self.len() as u32));
        buffer.append_slice(bytes);
        assert(buffer.bytes() =~= old(buffer).bytes() + self.serialized());
    }
}

impl Serialize for &str {
    /// A name: its byte length, then its UTF-8 bytes.
    open spec fn serialized(&self) -> Seq<u8> {
        length_prefix(self.spec_bytes().len()) + self.spec_bytes()
    }

    fn serialize<T: SerialBuffer>(&self, buffer: &mut T) {
        let bytes = self.as_bytes();
        assert(bytes@.len() == bytes.len());
        buffer.encode_u32(#[verifier::truncate] (self.len() as u32));
        buffer.append_slice(bytes);
        assert(buffer.bytes() =~= old(buffer).bytes() + self.serialized());
    }
}

impl Serialize for u8 {
    /// A byte is written as itself.
    open spec fn serialized(&self) -> Seq<u8> {
        seq![*self]
    }

    fn serialize<T: SerialBuffer>(&self, buffer: &mut T) {
        buffer.append_u8(*self);
    }
}

impl Serialize for u32 {
    /// Unsigned LEB128.
    open spec fn serialized(&self) -> Seq<u8> {
        uleb128(*self as nat)
    }

    fn serialize<T: SerialBuffer>(&self, buffer: &mut T) {
        buffer.encode_u32(*self);
    }
}

impl Serialize for () {
    /// Nothing: a placeholder for parts of the format that are not used.
    open spec fn serialized(&self) -> Seq<u8> {
        Seq::empty()
    }

    #[inline(always)]
    fn serialize<T: SerialBuffer>(&self, _buffer: &mut T) {
        assert(_buffer.bytes() =~= _buffer.bytes() + Seq::<u8>::empty());
    }
}

impl<S: Serialize> Serialize for [S] {
    /// A vector: the number of items, then each item in turn.
    open spec fn serialized(&self) -> Seq<u8> {
        length_prefix(self@.len()) + serialized_items(self@)
    }

    fn serialize<T: SerialBuffer>(&self, buffer: &mut T) {
        buffer.encode_u32(#[verifier::truncate] (self.len() as u32));
        let ghost start = buffer.bytes();
        for i in 0..self.len()
            invariant
                buffer.bytes() == start + serialized_items(self@.take(i as int)),
        {
            self[i].serialize(buffer);
            proof {
                assert(self@.take(i + 1).drop_last() =~= self@.take(i as int));
                assert(start + serialized_items(self@.take(i + 1)) =~= start + serialized_items(
                    self@.take(i as int),
                ) + self[i as int].serialized());
            }
        }
        assert(self@.take(self@.len() as int) =~= self@);
    }
}

impl<S: Serialize> Serialize for Option<S> {
    /// An option is written as a vector of length 1 or 0.
    open spec fn serialized(&self) -> Seq<u8> {
        match self {
            Some(x) => seq![1u8] + x.serialized(),
            None => seq![0u8],
        }
    }

    fn serialize<T: SerialBuffer>(&self, buffer: &mut T) {
        match self {
            Some(x) => {
                buffer.append_u8(1);
                x.serialize(buffer);
                assert(buffer.bytes() =~= old(buffer).bytes() + self.serialized());
            },
            None => {
                buffer.append_u8(0);
            },
        }
    }
}

impl<A: Serialize, B: Serialize> Serialize for (A, B) {
    /// The two parts one after the other.
    open spec fn serialized(&self) -> Seq<u8> {
        self.0.serialized() + self.1.serialized()
    }

    fn serialize<T: SerialBuffer>(&self, buffer: &mut T) {
        self.0.serialize(buffer);
        self.1.serialize(buffer);
        assert(buffer.bytes() =~= old(buffer).bytes() + self.serialized());
    }
}


/// The items an option holds: one or none.
pub open spec fn option_items<S>(x: Option<S>) -> Seq<S> {
    match x {
        Some(v) => seq![v],
        None => Seq::empty(),
    }
}

/// An option is written exactly as a vector of its items: `Some(v)` as the
/// vector of length 1 holding `v`, `None` as the vector of length 0.
pub proof fn lemma_option_is_short_vector<S: Serialize>(x: Option<S>)
    ensures
        x.serialized() == length_prefix(option_items(x).len()) + serialized_items(option_items(x)),
{
    let items = option_items(x);
    assert(uleb128(0) == seq![0u8]);
    assert(uleb128(1) == seq![1u8]);
    if let Some(v) = x {
        assert(items.drop_last() =~= Seq::<S>::empty());
        assert(items.last() == v);
        assert(serialized_items(items.drop_last()) =~= Seq::<u8>::empty());
        assert(serialized_items(items) == serialized_items(items.drop_last()) + v.serialized());
        assert(serialized_items(items) =~= v.serialized());
    } else {
        assert(serialized_items(items) =~= Seq::<u8>::empty());
    }
    assert(x.serialized() =~= length_prefix(items.len()) + serialized_items(items));
}


/// The length prefix of a vector of `len` items reads back, whatever follows
/// it, as `len` cut to 32 bits (so `len` itself when it fits), and takes the
/// bytes of its unsigned LEB128 frame.
pub proof fn lemma_length_prefix_reads_back(len: nat, rest: Seq<u8>)
    ensures
        read_uleb128(length_prefix(len) + rest) == Some(
            (((len as u32) as nat), length_prefix(len).len()),
        ),
        len <= u32::MAX ==> (len as u32) as nat == len,
{
    lemma_read_uleb128_prefix((len as u32) as nat, rest);
}

/// A name is written as a LEB128 frame holding the number of its UTF-8 bytes
/// (cut to 32 bits), followed by exactly those bytes; `str` and `&str` write
/// the same.
pub proof fn lemma_name_is_byte_count_then_bytes(s: &str)
    ensures
        ({
            let out = <str as Serialize>::serialized(s);
            &&& read_uleb128(out) matches Some((count, k)) && {
                &&& count == (s.spec_bytes().len() as u32) as nat
                &&& s.spec_bytes().len() <= u32::MAX ==> count == s.spec_bytes().len()
                &&& out.skip(k as int) == s.spec_bytes()
            }
        }),
        <&str as Serialize>::serialized(&s) == <str as Serialize>::serialized(s),
{
    let len = s.spec_bytes().len();
    lemma_length_prefix_reads_back(len, s.spec_bytes());
    let out = <str as Serialize>::serialized(s);
    assert(out.skip(length_prefix(len).len() as int) =~= s.spec_bytes());
}

/// The items' encodings are laid end to end: a run of items is written as
/// the first part of the run followed by the rest, and one item as itself.
pub proof fn lemma_items_concatenate<S: Serialize>(a: Seq<S>, b: Seq<S>)
    ensures
        serialized_items(a + b) == serialized_items(a) + serialized_items(b),
    decreases b.len(),
{
    if b.len() == 0 {
        assert(a + b =~= a);
        assert(serialized_items(a) + serialized_items(b) =~= serialized_items(a));
    } else {
        lemma_items_concatenate(a, b.drop_last());
        assert((a + b).drop_last() =~= a + b.drop_last());
        assert((a + b).last() == b.last());
        assert(serialized_items(a + b) =~= serialized_items(a) + serialized_items(b));
    }
}

/// A single item is written as its own encoding.
pub proof fn lemma_one_item<S: Serialize>(x: S)
    ensures
        serialized_items(seq![x]) == x.serialized(),
{
    let items = seq![x];
    assert(items.drop_last() =~= Seq::<S>::empty());
    assert(items.last() == x);
    assert(serialized_items(items.drop_last()) =~= Seq::<u8>::empty());
    assert(serialized_items(items) == serialized_items(items.drop_last()) + x.serialized());
    assert(serialized_items(items) =~= x.serialized());
}

/// A vector is written as a LEB128 frame holding its item count (cut to 32
/// bits), followed by exactly the items' encodings in order.
pub proof fn lemma_vector_is_count_then_items<S: Serialize>(v: &[S])
    ensures
        ({
            let out = <[S] as Serialize>::serialized(v);
            &&& read_uleb128(out) matches Some((count, k)) && {
                &&& count == (v@.len() as u32) as nat
                &&& v@.len() <= u32::MAX ==> count == v@.len()
                &&& out.skip(k as int) == serialized_items(v@)
            }
        }),
{
    let len = v@.len();
    lemma_length_prefix_reads_back(len, serialized_items(v@));
    let out = <[S] as Serialize>::serialized(v);
    assert(out.skip(length_prefix(len).len() as int) =~= serialized_items(v@));
}

/// A byte is written as exactly one byte: itself, whatever its value.
pub proof fn lemma_byte_is_itself(b: u8)
    ensures
        <u8 as Serialize>::serialized(&b).len() == 1,
        <u8 as Serialize>::serialized(&b)[0] == b,
{
}

/// A `u32` is written as a LEB128 frame of at most five bytes that reads back
/// as the number, whatever follows it.
pub proof fn lemma_u32_reads_back(x: u32, rest: Seq<u8>)
    ensures
        read_uleb128(<u32 as Serialize>::serialized(&x) + rest) == Some(
            (x as nat, <u32 as Serialize>::serialized(&x).len()),
        ),
        <u32 as Serialize>::serialized(&x).len() <= MAX_SIZE_ENCODED_U32,
{
    lemma_read_uleb128_prefix(x as nat, rest);
    lemma_uleb128_max_size(x as nat);
}

/// A pair is written as its first part's encoding followed by its second
/// part's: the output starts with the first and ends with the second.
pub proof fn lemma_pair_is_first_then_second<A: Serialize, B: Serialize>(p: (A, B))
    ensures
        ({
            let out = <(A, B) as Serialize>::serialized(&p);
            &&& out.len() == p.0.serialized().len() + p.1.serialized().len()
            &&& out.take(p.0.serialized().len() as int) == p.0.serialized()
            &&& out.skip(p.0.serialized().len() as int) == p.1.serialized()
        }),
{
    let out = <(A, B) as Serialize>::serialized(&p);
    assert(out.take(p.0.serialized().len() as int) =~= p.0.serialized());
    assert(out.skip(p.0.serialized().len() as int) =~= p.1.serialized());
}

} // verus!
