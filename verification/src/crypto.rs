//! Cryptographic and random primitives that the protocol is built on.

use crate::buffer::fits_buffer;
use base64::engine::general_purpose::URL_SAFE_NO_PAD;
use base64::Engine;
use hmac::{Hmac, Mac};
use rand::{Rng, RngCore};
use sha2::{Digest, Sha256};
use subtle::ConstantTimeEq;
use uuid::Uuid;
use vstd::prelude::*;

verus! {

// ---------------------------------------------------------------------------
// Comparison, digests and authentication codes
// ---------------------------------------------------------------------------

/// `subtle::ConstantTimeEq::ct_eq` on byte slices: whether they have the same length and the same
/// bytes. That the time taken does not depend on the bytes is not stated.
#[verifier::external_body]
pub(crate) fn ct_eq(a: &[u8], b: &[u8]) -> (r: bool)
    ensures
        r == (a@ == b@),
{
    a.ct_eq(b).into()
}

/// The SHA-256 digest of `data`.
pub uninterp spec fn sha256(data: Seq<u8>) -> Seq<u8>;

/// `sha2::Sha256::digest`: the 32 bytes of the digest.
#[verifier::external_body]
pub(crate) fn sha256_digest(data: &[u8]) -> (r: [u8; 32])
    ensures
        r@ == sha256(data@),
{
    Sha256::digest(data).into()
}

/// The HMAC-SHA-256 authentication code of `data` under `key`.
pub uninterp spec fn hmac_sha256(key: Seq<u8>, data: Seq<u8>) -> Seq<u8>;

/// `hmac::Hmac<Sha256>`, created from a 32-byte key, fed once and finalized: the 32 bytes of the
/// authentication code.
#[verifier::external_body]
pub(crate) fn hmac_code(key: &[u8; 32], data: &[u8]) -> (r: [u8; 32])
    ensures
        r@ == hmac_sha256(key@, data@),
{
    let mut mac = Hmac::<Sha256>::new_from_slice(key).expect("HMAC accepts any key length");
    mac.update(data);
    mac.finalize().into_bytes().into()
}

// ---------------------------------------------------------------------------
// Base64
// ---------------------------------------------------------------------------

/// The character of a six-bit number in the URL-safe alphabet.
pub open spec fn base64_char(v: nat) -> char {
    if v < 26 {
        (65 + v) as char
    } else if v < 52 {
        (71 + v) as char
    } else if v < 62 {
        (v - 4) as char
    } else if v == 62 {
        '-'
    } else {
        '_'
    }
}

/// The byte at `i`, or zero past the end.
pub open spec fn byte_or_zero(data: Seq<u8>, i: int) -> nat {
    if 0 <= i < data.len() {
        data[i] as nat
    } else {
        0
    }
}

/// The `i`-th group of six bits of `data`; bits past the end are zero.
pub open spec fn sextet(data: Seq<u8>, i: int) -> nat {
    let b = (i / 4) * 3;
    if i % 4 == 0 {
        byte_or_zero(data, b) / 4
    } else if i % 4 == 1 {
        (byte_or_zero(data, b) % 4) * 16 + byte_or_zero(data, b + 1) / 16
    } else if i % 4 == 2 {
        (byte_or_zero(data, b + 1) % 16) * 4 + byte_or_zero(data, b + 2) / 64
    } else {
        byte_or_zero(data, b + 2) % 64
    }
}

/// `data` in the URL-safe base64 alphabet, without padding.
pub open spec fn base64url(data: Seq<u8>) -> Seq<char> {
    Seq::new((data.len() * 8 + 5) / 6, |i: int| base64_char(sextet(data, i)))
}

/// Different bytes have different base64 texts.
pub proof fn lemma_base64url_injective(a: Seq<u8>, b: Seq<u8>)
    requires
        base64url(a) == base64url(b),
    ensures
        a == b,
{
    let n = base64url(a).len();
    assert(n == (a.len() * 8 + 5) / 6);
    assert(n == (b.len() * 8 + 5) / 6);
    assert(a.len() == b.len());
    assert forall|k: int| 0 <= k < a.len() implies a[k] == b[k] by {
        let q = k / 3;
        let i0 = q * 4 + k % 3;
        assert(0 <= i0 && i0 + 1 < n);
        assert(base64url(a)[i0] == base64_char(sextet(a, i0)));
        assert(base64url(b)[i0] == base64_char(sextet(b, i0)));
        assert(base64url(a)[i0 + 1] == base64_char(sextet(a, i0 + 1)));
        assert(base64url(b)[i0 + 1] == base64_char(sextet(b, i0 + 1)));
        lemma_base64_char_injective(sextet(a, i0), sextet(b, i0));
        lemma_base64_char_injective(sextet(a, i0 + 1), sextet(b, i0 + 1));
        assert(i0 / 4 == q);
        assert((i0 + 1) / 4 == q);
        assert(sextet(a, i0) == sextet(b, i0));
        assert(sextet(a, i0 + 1) == sextet(b, i0 + 1));
        if k % 3 == 0 {
            assert(byte_or_zero(a, k) / 4 == byte_or_zero(b, k) / 4);
            assert(byte_or_zero(a, k) % 4 == byte_or_zero(b, k) % 4);
        } else if k % 3 == 1 {
            assert(byte_or_zero(a, k) / 16 == byte_or_zero(b, k) / 16);
            assert(byte_or_zero(a, k) % 16 == byte_or_zero(b, k) % 16);
        } else {
            assert(byte_or_zero(a, k) / 64 == byte_or_zero(b, k) / 64);
            assert(byte_or_zero(a, k) % 64 == byte_or_zero(b, k) % 64);
        }
    }
    assert(a =~= b);
}

proof fn lemma_base64_char_injective(x: nat, y: nat)
    requires
        x < 64,
        y < 64,
        base64_char(x) == base64_char(y),
    ensures
        x == y,
{
}

/// Base64 text holds letters, digits, hyphens and underscores only.
pub proof fn lemma_base64url_chars(data: Seq<u8>, i: int)
    requires
        0 <= i < base64url(data).len(),
    ensures
        !crate::text::spec_is_whitespace(base64url(data)[i]),
{
}

/// `base64::Engine::encode` of `URL_SAFE_NO_PAD`. The text is a third longer than the data, and has
/// to fit into one allocation.
#[verifier::external_body]
pub(crate) fn base64_encode(data: &[u8]) -> (r: String)
    requires
        fits_buffer(data@.len()),
    ensures
        r@ == base64url(data@),
{
    URL_SAFE_NO_PAD.encode(data)
}

/// `base64::Engine::decode` of `URL_SAFE_NO_PAD`, on the UTF-8 bytes of `text`: the bytes whose
/// encoding is exactly `text` (no padding, no stray bits after the last byte), or nothing when
/// `text` is no such encoding.
#[verifier::external_body]
pub(crate) fn base64_decode(text: &str) -> (r: Option<Vec<u8>>)
    ensures
        match r {
            Some(v) => base64url(v@) == text@,
            None => forall|v: Seq<u8>| #[trigger] base64url(v) != text@,
        },
{
    URL_SAFE_NO_PAD.decode(text.as_bytes()).ok()
}

// ---------------------------------------------------------------------------
// Randomness
// ---------------------------------------------------------------------------

/// Whether `id` carries the version and variant bits of a random UUID.
pub open spec fn is_uuid_v4(id: u128) -> bool {
    &&& (id / 0x1000_0000_0000_0000_0000) % 16 == 4
    &&& (id / 0x4000_0000_0000_0000) % 4 == 2
}

/// `uuid::Uuid::new_v4`: a random 128-bit identifier with the version and variant bits set.
#[verifier::external_body]
pub(crate) fn random_uuid() -> (r: u128)
    ensures
        is_uuid_v4(r),
{
    Uuid::new_v4().as_u128()
}

/// `rand::RngCore::fill_bytes` of the thread's generator, on a 32-byte key. Any key may come out.
#[verifier::external_body]
pub(crate) fn random_key() -> (r: [u8; 32]) {
    let mut key = [0u8; 32];
    rand::thread_rng().fill_bytes(&mut key);
    key
}

/// `rand::Rng::gen_range` of the thread's generator: a number below `bound`.
#[verifier::external_body]
pub(crate) fn random_below(bound: u64) -> (r: u64)
    requires
        bound > 0,
    ensures
        r < bound,
{
    rand::thread_rng().gen_range(0..bound)
}

}
