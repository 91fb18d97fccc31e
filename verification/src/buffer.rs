//! Byte buffers: big-endian integers, and the growable and frozen buffers of the `bytes` crate.

use bytes::{Buf, BufMut, Bytes, BytesMut};
use vstd::prelude::*;

verus! {

// ---------------------------------------------------------------------------
// Big-endian integers
// ---------------------------------------------------------------------------

/// 256 to the power `k`.
pub open spec fn pow256(k: nat) -> nat
    decreases k,
{
    if k == 0 {
        1
    } else {
        256 * pow256((k - 1) as nat)
    }
}

/// The low `k` bytes of `n`, most significant first.
pub open spec fn be(n: nat, k: nat) -> Seq<u8>
    decreases k,
{
    if k == 0 {
        Seq::empty()
    } else {
        be(n / 256, (k - 1) as nat).push((n % 256) as u8)
    }
}

/// The number whose bytes, most significant first, are `s`.
pub open spec fn from_be(s: Seq<u8>) -> nat
    decreases s.len(),
{
    if s.len() == 0 {
        0
    } else {
        from_be(s.drop_last()) * 256 + s.last() as nat
    }
}

/// A big-endian number of `k` bytes is below 256 to the power `k`.
pub proof fn lemma_from_be_bound(s: Seq<u8>)
    ensures
        from_be(s) < pow256(s.len()),
    decreases s.len(),
{
    if s.len() > 0 {
        lemma_from_be_bound(s.drop_last());
    }
}

/// Writing a number in `k` bytes and reading it back gives the number.
pub proof fn lemma_from_be_be(n: nat, k: nat)
    requires
        n < pow256(k),
    ensures
        be(n, k).len() == k,
        from_be(be(n, k)) == n,
    decreases k,
{
    if k > 0 {
        lemma_from_be_be(n / 256, (k - 1) as nat);
        assert(be(n, k).drop_last() =~= be(n / 256, (k - 1) as nat));
    }
}

/// Reading bytes and writing the number back gives the bytes.
pub proof fn lemma_be_from_be(s: Seq<u8>)
    ensures
        be(from_be(s), s.len()) == s,
    decreases s.len(),
{
    if s.len() > 0 {
        lemma_be_from_be(s.drop_last());
        let n = from_be(s);
        assert(n / 256 == from_be(s.drop_last()));
        assert(n % 256 == s.last());
        assert(be(n, s.len()) =~= s);
    } else {
        assert(be(0, 0) =~= s);
    }
}

/// The length of a big-endian number is the requested one.
pub proof fn lemma_be_len(n: nat, k: nat)
    ensures
        be(n, k).len() == k,
    decreases k,
{
    if k > 0 {
        lemma_be_len(n / 256, (k - 1) as nat);
    }
}

/// The bounds of the integer widths, as powers of 256.
pub proof fn lemma_pow256_widths()
    ensures
        pow256(1) == 0x100,
        pow256(2) == 0x1_0000,
        pow256(4) == 0x1_0000_0000,
        pow256(8) == 0x1_0000_0000_0000_0000,
        pow256(15) == 0x1_00_0000_0000_0000_0000_0000_0000_0000,
        pow256(16) == 0x1_0000_0000_0000_0000_0000_0000_0000_0000,
{
    reveal_with_fuel(pow256, 17);
}

/// More bytes never lower the bound.
pub proof fn lemma_pow256_monotonic(a: nat, b: nat)
    requires
        a <= b,
    ensures
        0 < pow256(a) <= pow256(b),
    decreases b,
{
    if a < b {
        lemma_pow256_monotonic(a, (b - 1) as nat);
    } else if b > 0 {
        lemma_pow256_monotonic((a - 1) as nat, (b - 1) as nat);
    }
}

/// Read a big-endian number of at most sixteen bytes.
pub fn read_be(s: &[u8]) -> (r: u128)
    requires
        s@.len() <= 16,
    ensures
        r == from_be(s@),
        r < pow256(s@.len()),
{
    let mut value: u128 = 0;
    let mut i: usize = 0;
    while i < s.len()
        invariant
            i <= s.len() <= 16,
            value == from_be(s@.take(i as int)),
        decreases s.len() - i,
    {
        proof {
            let t = s@.take(i as int);
            lemma_from_be_bound(t);
            lemma_pow256_monotonic(i as nat, 15);
            lemma_pow256_widths();
            assert(s@.take(i as int + 1).drop_last() =~= t);
        }
        value = value * 256 + s[i] as u128;
        i += 1;
    }
    proof {
        assert(s@.take(s@.len() as int) =~= s@);
        lemma_from_be_bound(s@);
    }
    value
}

/// The sixteen bytes of `n`, most significant first.
pub fn be16_bytes(n: u128) -> (r: Vec<u8>)
    ensures
        r@ == be(n as nat, 16),
        r@.len() == 16,
{
    let r = be_bytes(n, 16);
    proof {
        lemma_be_len(n as nat, 16);
    }
    r
}

/// The low `k` bytes of `n`, most significant first.
pub fn be_bytes(n: u128, k: u8) -> (r: Vec<u8>)
    ensures
        r@ == be(n as nat, k as nat),
    decreases k,
{
    if k == 0 {
        Vec::new()
    } else {
        let mut v = be_bytes(n / 256, k - 1);
        v.push((n % 256) as u8);
        v
    }
}

// ---------------------------------------------------------------------------
// Buffers of the `bytes` crate
// ---------------------------------------------------------------------------

/// The growable buffer of the `bytes` crate.
#[verifier::external_type_specification]
#[verifier::external_body]
pub struct ExBytesMut(BytesMut);

/// The frozen buffer of the `bytes` crate.
#[verifier::external_type_specification]
#[verifier::external_body]
pub struct ExBytes(Bytes);

/// The bytes that a growable buffer holds.
pub uninterp spec fn buffer_bytes(b: BytesMut) -> Seq<u8>;

/// The bytes that a frozen buffer holds.
pub uninterp spec fn frozen_bytes(b: Bytes) -> Seq<u8>;

/// The bytes that a frozen buffer holds, if there is one.
pub open spec fn frozen_option(b: Option<Bytes>) -> Option<Seq<u8>> {
    match b {
        Some(b) => Some(frozen_bytes(b)),
        None => None,
    }
}

/// Whether a buffer may grow to `n` bytes: the allocator serves at most `isize::MAX` bytes, and
/// a growing buffer may ask for twice its length.
pub open spec fn fits_buffer(n: nat) -> bool {
    n <= isize::MAX / 2
}

/// `BytesMut::with_capacity`: an empty buffer.
#[verifier::external_body]
pub(crate) fn new_buffer(capacity: usize) -> (r: BytesMut)
    requires
        fits_buffer(capacity as nat),
    ensures
        buffer_bytes(r) == Seq::<u8>::empty(),
{
    BytesMut::with_capacity(capacity)
}

/// `BufMut::put_u8` appends one byte.
#[verifier::external_body]
pub(crate) fn put_u8(buf: &mut BytesMut, n: u8)
    requires
        fits_buffer(buffer_bytes(*old(buf)).len() + 1),
    ensures
        buffer_bytes(*final(buf)) == buffer_bytes(*old(buf)).push(n),
{
    buf.put_u8(n)
}

/// `BufMut::put_u16` appends two bytes, most significant first.
#[verifier::external_body]
pub(crate) fn put_u16(buf: &mut BytesMut, n: u16)
    requires
        fits_buffer(buffer_bytes(*old(buf)).len() + 2),
    ensures
        buffer_bytes(*final(buf)) == buffer_bytes(*old(buf)) + be(n as nat, 2),
{
    buf.put_u16(n)
}

/// `BufMut::put_u32` appends four bytes, most significant first.
#[verifier::external_body]
pub(crate) fn put_u32(buf: &mut BytesMut, n: u32)
    requires
        fits_buffer(buffer_bytes(*old(buf)).len() + 4),
    ensures
        buffer_bytes(*final(buf)) == buffer_bytes(*old(buf)) + be(n as nat, 4),
{
    buf.put_u32(n)
}

/// `BufMut::put_u64` appends eight bytes, most significant first.
#[verifier::external_body]
pub(crate) fn put_u64(buf: &mut BytesMut, n: u64)
    requires
        fits_buffer(buffer_bytes(*old(buf)).len() + 8),
    ensures
        buffer_bytes(*final(buf)) == buffer_bytes(*old(buf)) + be(n as nat, 8),
{
    buf.put_u64(n)
}

/// `BufMut::put_slice` appends the bytes of a slice.
#[verifier::external_body]
pub(crate) fn put_slice(buf: &mut BytesMut, data: &[u8])
    requires
        fits_buffer(buffer_bytes(*old(buf)).len() + data@.len()),
    ensures
        buffer_bytes(*final(buf)) == buffer_bytes(*old(buf)) + data@,
{
    buf.put_slice(data)
}

/// `BytesMut`'s dereference: the bytes of the buffer as a slice.
#[verifier::external_body]
pub(crate) fn buffer_slice(buf: &BytesMut) -> (r: &[u8])
    ensures
        r@ == buffer_bytes(*buf),
{
    buf
}

/// `Buf::advance` drops the first `n` bytes.
#[verifier::external_body]
pub(crate) fn advance(buf: &mut BytesMut, n: usize)
    requires
        n <= buffer_bytes(*old(buf)).len(),
    ensures
        buffer_bytes(*final(buf)) == buffer_bytes(*old(buf)).skip(n as int),
{
    buf.advance(n)
}

/// `BytesMut::freeze` keeps the bytes of the buffer.
#[verifier::external_body]
pub(crate) fn freeze(buf: BytesMut) -> (r: Bytes)
    ensures
        frozen_bytes(r) == buffer_bytes(buf),
{
    buf.freeze()
}

/// `Bytes::copy_from_slice`: a frozen buffer with the bytes of the slice.
#[verifier::external_body]
pub(crate) fn copy_bytes(data: &[u8]) -> (r: Bytes)
    ensures
        frozen_bytes(r) == data@,
{
    Bytes::copy_from_slice(data)
}

/// `Bytes`' dereference: the bytes of the buffer as a slice.
#[verifier::external_body]
pub(crate) fn bytes_slice(b: &Bytes) -> (r: &[u8])
    ensures
        r@ == frozen_bytes(*b),
{
    b
}

}
