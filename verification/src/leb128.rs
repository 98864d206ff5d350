//! The byte-level model of the encodings, and what holds of it.
use vstd::prelude::*;
use vstd::arithmetic::div_mod::{lemma_fundamental_div_mod, lemma_fundamental_div_mod_converse};

verus! {

/// `128` raised to the power `k`.
pub open spec fn pow128(k: nat) -> nat
    decreases k,
{
    if k == 0 {
        1
    } else {
        128 * pow128((k - 1) as nat)
    }
}

/// `256` raised to the power `k`.
pub open spec fn pow256(k: nat) -> nat
    decreases k,
{
    if k == 0 {
        1
    } else {
        256 * pow256((k - 1) as nat)
    }
}

/// Unsigned LEB128: the value in groups of 7 bits, least significant group
/// first; every byte but the last has its high bit set.
pub open spec fn uleb128(n: nat) -> Seq<u8>
    decreases n,
{
    if n < 128 {
        seq![n as u8]
    } else {
        seq![(128 + n % 128) as u8] + uleb128(n / 128)
    }
}

/// Whether signed LEB128 stops after the group `low`, given the value `rest`
/// that remains once that group is shifted out: the rest must be pure sign
/// extension of bit 6 of the group.
pub open spec fn sleb128_done(low: int, rest: int) -> bool {
    (rest == 0 && low < 64) || (rest == -1 && low >= 64)
}

/// Signed LEB128: two's-complement groups of 7 bits, least significant first,
/// up to and including the first group whose bit 6 carries the sign of what
/// is left.
pub open spec fn sleb128(i: int) -> Seq<u8>
    decreases (if i >= 0 { i } else { -i }),
{
    let low = i % 128;
    let rest = i / 128;
    if sleb128_done(low, rest) {
        seq![low as u8]
    } else {
        seq![(128 + low) as u8] + sleb128(rest)
    }
}

/// The LEB128 form of `v` stretched to `count + 1` bytes: `count` groups with
/// the high bit set, then a final group without it. Used for values that are
/// patched in place later, so their width must not depend on the value.
pub open spec fn padded_groups(v: int, count: nat) -> Seq<u8>
    decreases count,
{
    if count == 0 {
        seq![(v % 128) as u8]
    } else {
        seq![(128 + v % 128) as u8] + padded_groups(v / 128, (count - 1) as nat)
    }
}

/// The five-byte padded LEB128 form used for relocatable 32-bit values.
pub open spec fn padded_leb128(v: int) -> Seq<u8> {
    padded_groups(v, 4)
}

/// The `width` low-order bytes of `v`, least significant first.
pub open spec fn le_bytes(v: nat, width: nat) -> Seq<u8>
    decreases width,
{
    if width == 0 {
        Seq::empty()
    } else {
        seq![(v % 256) as u8] + le_bytes(v / 256, (width - 1) as nat)
    }
}

/// `s` with the bytes from `index` on replaced by `patch`, length unchanged.
pub open spec fn patched(s: Seq<u8>, index: int, patch: Seq<u8>) -> Seq<u8> {
    s.subrange(0, index) + patch + s.subrange(index + patch.len(), s.len() as int)
}

// ---------------------------------------------------------------------------
// Reading the bytes back: the format as the WebAssembly specification states it.
// ---------------------------------------------------------------------------

/// A LEB128 frame: at least one byte; the high bit ("more bytes follow") is
/// set on every byte but the last, and clear on the last.
pub open spec fn is_leb128_frame(s: Seq<u8>) -> bool {
    &&& s.len() > 0
    &&& forall|i: int| 0 <= i < s.len() - 1 ==> #[trigger] s[i] >= 0x80
    &&& s[s.len() - 1] < 0x80
}

/// The number carried by the low 7 bits of each byte, least significant
/// group first.
pub open spec fn leb128_payload(s: Seq<u8>) -> nat
    decreases s.len(),
{
    if s.len() == 0 {
        0
    } else {
        (s[0] % 128) as nat + 128 * leb128_payload(s.drop_first())
    }
}

/// The signed number a frame carries: the payload, sign-extended from bit 6
/// of the last byte.
pub open spec fn sleb128_value(s: Seq<u8>) -> int {
    leb128_payload(s) - (if s[s.len() - 1] % 128 >= 64 { pow128(s.len()) as int } else { 0 })
}

/// Reads one unsigned LEB128 number off the front of `s`, as a decoder does:
/// groups are taken until a byte without the continuation bit. Gives the
/// number and how many bytes it took, or nothing if the frame never ends.
pub open spec fn read_uleb128(s: Seq<u8>) -> Option<(nat, nat)>
    decreases s.len(),
{
    if s.len() == 0 {
        None
    } else if s[0] < 0x80 {
        Some((s[0] as nat, 1))
    } else {
        match read_uleb128(s.drop_first()) {
            Some((v, k)) => Some(((s[0] % 128) as nat + 128 * v, k + 1)),
            None => None,
        }
    }
}

/// The number that bytes stand for when read little-endian.
pub open spec fn le_value(s: Seq<u8>) -> nat
    decreases s.len(),
{
    if s.len() == 0 {
        0
    } else {
        s[0] as nat + 256 * le_value(s.drop_first())
    }
}


// ---------------------------------------------------------------------------
// Arithmetic facts used below.
// ---------------------------------------------------------------------------

/// Splitting a division by `b * m` into a division by `b`, then by `m`
/// (floor division, so negative `x` included).
pub proof fn lemma_div_mod_nested(x: int, b: int, m: int)
    requires
        b > 0,
        m > 0,
    ensures
        x % b + b * ((x / b) % m) == x % (b * m),
        (x / b) / m == x / (b * m),
{
    let q = x / b;
    let r = x % b;
    let q2 = q / m;
    let r2 = q % m;
    lemma_fundamental_div_mod(x, b);
    lemma_fundamental_div_mod(q, m);
    assert(x == q2 * (b * m) + (b * r2 + r)) by (nonlinear_arith)
        requires
            x == b * q + r,
            q == m * q2 + r2,
    ;
    assert(0 <= b * r2 + r < b * m) by (nonlinear_arith)
        requires
            0 <= r < b,
            0 <= r2 < m,
    ;
    lemma_fundamental_div_mod_converse(x, b * m, q2, b * r2 + r);
}

/// `128^k` is at least `128` once `k >= 1`, and grows by a factor of 128.
pub proof fn lemma_pow128_facts(k: nat)
    ensures
        pow128(k) >= 1,
        k >= 1 ==> pow128(k) >= 128,
        pow128(k + 1) == 128 * pow128(k),
    decreases k,
{
    if k > 0 {
        lemma_pow128_facts((k - 1) as nat);
    }
}

// ---------------------------------------------------------------------------
// Laws of the unsigned encoding.
// ---------------------------------------------------------------------------

/// Unsigned LEB128 is a well-formed frame (high bit set exactly on the bytes
/// that are followed by more), and its payload is the encoded number.
pub proof fn lemma_uleb128_decodes(n: nat)
    ensures
        is_leb128_frame(uleb128(n)),
        leb128_payload(uleb128(n)) == n,
    decreases n,
{
    let s = uleb128(n);
    if n < 128 {
        assert(s.drop_first() =~= Seq::<u8>::empty());
        assert(leb128_payload(s) == (s[0] % 128) as nat + 128 * leb128_payload(s.drop_first()));
    } else {
        lemma_uleb128_decodes(n / 128);
        let t = uleb128(n / 128);
        assert(s.drop_first() =~= t);
        assert(s[0] == (128 + n % 128) as u8);
        assert(leb128_payload(s) == (s[0] % 128) as nat + 128 * leb128_payload(t));
        assert forall|i: int| 0 <= i < s.len() - 1 implies #[trigger] s[i] >= 0x80 by {
            if i > 0 {
                assert(s[i] == t[i - 1]);
            }
        }
    }
}

/// The unsigned encoding of `n` fits in `k >= 1` bytes exactly when
/// `n < 128^k`: it is the shortest frame that can carry the number.
pub proof fn lemma_uleb128_width(n: nat, k: nat)
    requires
        k >= 1,
    ensures
        (uleb128(n).len() <= k) == (n < pow128(k)),
    decreases n,
{
    lemma_pow128_facts(k);
    lemma_pow128_facts((k - 1) as nat);
    if n >= 128 {
        if k >= 2 {
            lemma_uleb128_width(n / 128, (k - 1) as nat);
        } else {
            lemma_uleb128_width(n / 128, 1);
        }
    }
}

/// An encoded `u32` takes at most `MAX_SIZE_ENCODED_U32` bytes, an encoded
/// `u64` at most `MAX_SIZE_ENCODED_U64`.
pub proof fn lemma_uleb128_max_size(n: nat)
    ensures
        n <= u32::MAX ==> uleb128(n).len() <= crate::MAX_SIZE_ENCODED_U32,
        n <= u64::MAX ==> uleb128(n).len() <= crate::MAX_SIZE_ENCODED_U64,
{
    reveal_with_fuel(pow128, 11);
    assert(pow128(5) == 0x8_0000_0000);
    assert(pow128(10) == 0x40_0000_0000_0000_0000);
    lemma_uleb128_width(n, 5);
    lemma_uleb128_width(n, 10);
}

/// Different numbers have different unsigned encodings.
pub proof fn lemma_uleb128_injective(a: nat, b: nat)
    requires
        uleb128(a) == uleb128(b),
    ensures
        a == b,
{
    lemma_uleb128_decodes(a);
    lemma_uleb128_decodes(b);
}

/// Whatever follows it, a decoder reading the front of a stream that starts
/// with the unsigned encoding of `n` gets `n` back and stops right after the
/// encoding.
pub proof fn lemma_read_uleb128_prefix(n: nat, rest: Seq<u8>)
    ensures
        read_uleb128(uleb128(n) + rest) == Some((n, uleb128(n).len())),
    decreases n,
{
    let s = uleb128(n) + rest;
    if n < 128 {
        assert(s[0] == n as u8);
    } else {
        lemma_read_uleb128_prefix(n / 128, rest);
        assert(s.drop_first() =~= uleb128(n / 128) + rest);
        assert(s[0] == (128 + n % 128) as u8);
    }
}

// ---------------------------------------------------------------------------
// Laws of the signed encoding.
// ---------------------------------------------------------------------------

/// Signed LEB128 is a well-formed frame, and sign-extending its payload from
/// bit 6 of the last byte gives back the encoded number.
pub proof fn lemma_sleb128_decodes(i: int)
    ensures
        is_leb128_frame(sleb128(i)),
        sleb128_value(sleb128(i)) == i,
    decreases (if i >= 0 { i } else { -i }),
{
    let s = sleb128(i);
    let low = i % 128;
    let rest = i / 128;
    if sleb128_done(low, rest) {
        assert(s.drop_first() =~= Seq::<u8>::empty());
        assert(s[0] == low as u8);
        assert(leb128_payload(s) == (s[0] % 128) as nat + 128 * leb128_payload(s.drop_first()));
        reveal_with_fuel(pow128, 2);
    } else {
        lemma_sleb128_decodes(rest);
        let t = sleb128(rest);
        assert(s.drop_first() =~= t);
        assert(s[0] == (128 + low) as u8);
        assert(leb128_payload(s) == low + 128 * leb128_payload(t));
        assert(s[s.len() - 1] == t[t.len() - 1]);
        lemma_pow128_facts(t.len());
        assert forall|j: int| 0 <= j < s.len() - 1 implies #[trigger] s[j] >= 0x80 by {
            if j > 0 {
                assert(s[j] == t[j - 1]);
            }
        }
    }
}

/// The signed encoding of `i` fits in `k >= 1` bytes exactly when
/// `-64 * 128^(k-1) <= i < 64 * 128^(k-1)`.
pub proof fn lemma_sleb128_width(i: int, k: nat)
    requires
        k >= 1,
    ensures
        (sleb128(i).len() <= k) == (-64 * pow128((k - 1) as nat) <= i < 64 * pow128((k - 1) as nat)),
    decreases (if i >= 0 { i } else { -i }),
{
    lemma_pow128_facts((k - 1) as nat);
    let low = i % 128;
    let rest = i / 128;
    if !sleb128_done(low, rest) {
        if k >= 2 {
            lemma_pow128_facts((k - 2) as nat);
            lemma_sleb128_width(rest, (k - 1) as nat);
        } else {
            lemma_sleb128_width(rest, 1);
        }
    }
}

/// An encoded `i32` takes at most `MAX_SIZE_ENCODED_U32` bytes, an encoded
/// `i64` at most `MAX_SIZE_ENCODED_U64`.
pub proof fn lemma_sleb128_max_size(i: int)
    ensures
        i32::MIN <= i <= i32::MAX ==> sleb128(i).len() <= crate::MAX_SIZE_ENCODED_U32,
        i64::MIN <= i <= i64::MAX ==> sleb128(i).len() <= crate::MAX_SIZE_ENCODED_U64,
{
    reveal_with_fuel(pow128, 11);
    assert(pow128(4) == 0x1000_0000);
    assert(pow128(9) == 0x8000_0000_0000_0000);
    lemma_sleb128_width(i, 5);
    lemma_sleb128_width(i, 10);
}

/// Different numbers have different signed encodings.
pub proof fn lemma_sleb128_injective(a: int, b: int)
    requires
        sleb128(a) == sleb128(b),
    ensures
        a == b,
{
    lemma_sleb128_decodes(a);
    lemma_sleb128_decodes(b);
}

// ---------------------------------------------------------------------------
// Laws of the padded encoding.
// ---------------------------------------------------------------------------

/// `padded_groups(v, c)` is a frame of `c + 1` bytes whose payload is `v`
/// modulo `128^(c+1)`, and whose last group is group `c` of `v`.
pub proof fn lemma_padded_groups_decode(v: int, c: nat)
    ensures
        padded_groups(v, c).len() == c + 1,
        is_leb128_frame(padded_groups(v, c)),
        leb128_payload(padded_groups(v, c)) == v % (pow128(c + 1) as int),
        padded_groups(v, c)[c as int] % 128 == (v / (pow128(c) as int)) % 128,
    decreases c,
{
    let s = padded_groups(v, c);
    lemma_pow128_facts(c);
    if c == 0 {
        assert(s.drop_first() =~= Seq::<u8>::empty());
        assert(leb128_payload(s) == (s[0] % 128) as nat + 128 * leb128_payload(s.drop_first()));
        assert(pow128(1) == 128) by {
            reveal_with_fuel(pow128, 2);
        }
    } else {
        let t = padded_groups(v / 128, (c - 1) as nat);
        lemma_padded_groups_decode(v / 128, (c - 1) as nat);
        lemma_pow128_facts((c - 1) as nat);
        assert(s.drop_first() =~= t);
        assert(s[0] == (128 + v % 128) as u8);
        assert(leb128_payload(s) == v % 128 + 128 * leb128_payload(t));
        lemma_div_mod_nested(v, 128, pow128(c) as int);
        lemma_div_mod_nested(v, 128, pow128((c - 1) as nat) as int);
        assert(s[c as int] == t[c - 1]);
        assert forall|j: int| 0 <= j < s.len() - 1 implies #[trigger] s[j] >= 0x80 by {
            if j > 0 {
                assert(s[j] == t[j - 1]);
            }
        }
    }
}

/// The padded form is a five-byte frame that carries the number: read
/// unsigned for a `u32` (the same number as its compact form carries), read
/// signed for an `i32`.
pub proof fn lemma_padded_leb128_decodes(v: int)
    ensures
        padded_leb128(v).len() == crate::MAX_SIZE_ENCODED_U32,
        is_leb128_frame(padded_leb128(v)),
        0 <= v <= u32::MAX ==> leb128_payload(padded_leb128(v)) == v,
        0 <= v <= u32::MAX ==> leb128_payload(padded_leb128(v)) == leb128_payload(uleb128(v as nat)),
        i32::MIN <= v <= i32::MAX ==> sleb128_value(padded_leb128(v)) == v,
{
    lemma_padded_groups_decode(v, 4);
    reveal_with_fuel(pow128, 6);
    assert(pow128(4) == 0x1000_0000);
    assert(pow128(5) == 0x8_0000_0000);
    let s = padded_leb128(v);
    let payload = leb128_payload(s);
    assert(payload == v % 0x8_0000_0000);
    assert(s[s.len() - 1] % 128 == (v / 0x1000_0000) % 128);
    if 0 <= v {
        lemma_uleb128_decodes(v as nat);
        if v < 0x8_0000_0000 {
            vstd::arithmetic::div_mod::lemma_small_mod(v as nat, 0x8_0000_0000);
        }
    }
    if i32::MIN <= v <= i32::MAX {
        if v >= 0 {
            assert(v / 0x1000_0000 < 8);
            assert(sleb128_value(s) == payload);
        } else {
            assert(-8 <= v / 0x1000_0000 < 0);
            assert((v / 0x1000_0000) % 128 >= 120);
            vstd::arithmetic::div_mod::lemma_fundamental_div_mod_converse(
                v,
                0x8_0000_0000,
                -1,
                v + 0x8_0000_0000,
            );
            assert(payload == v + 0x8_0000_0000);
        }
    }
}

// ---------------------------------------------------------------------------
// Laws of the little-endian layout.
// ---------------------------------------------------------------------------

/// `256^k` is positive and grows by a factor of 256.
pub proof fn lemma_pow256_facts(k: nat)
    ensures
        pow256(k) >= 1,
        pow256(k + 1) == 256 * pow256(k),
    decreases k,
{
    if k > 0 {
        lemma_pow256_facts((k - 1) as nat);
    }
}

/// `le_bytes(v, w)` holds `w` bytes which, read little-endian, give back `v`
/// whenever `v` fits in them.
pub proof fn lemma_le_bytes_decode(v: nat, w: nat)
    ensures
        le_bytes(v, w).len() == w,
        le_value(le_bytes(v, w)) == v % pow256(w),
        v < pow256(w) ==> le_value(le_bytes(v, w)) == v,
    decreases w,
{
    lemma_pow256_facts(w);
    let s = le_bytes(v, w);
    if w > 0 {
        let t = le_bytes(v / 256, (w - 1) as nat);
        lemma_le_bytes_decode(v / 256, (w - 1) as nat);
        lemma_pow256_facts((w - 1) as nat);
        assert(s.drop_first() =~= t);
        assert(s[0] == (v % 256) as u8);
        lemma_div_mod_nested(v as int, 256, pow256((w - 1) as nat) as int);
    }
}

/// The four bytes of a `u32` and the eight bytes of a `u64` give the number
/// back.
pub proof fn lemma_le_bytes_roundtrip(v: nat)
    ensures
        v <= u32::MAX ==> le_value(le_bytes(v, 4)) == v,
        v <= u64::MAX ==> le_value(le_bytes(v, 8)) == v,
{
    reveal_with_fuel(pow256, 9);
    assert(pow256(4) == 0x1_0000_0000);
    assert(pow256(8) == 0x1_0000_0000_0000_0000);
    lemma_le_bytes_decode(v, 4);
    lemma_le_bytes_decode(v, 8);
}

} // verus!
