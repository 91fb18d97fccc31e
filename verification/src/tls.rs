//! Certificate fingerprints. The client trusts exactly one server certificate, pinned by its
//! SHA-256 fingerprint, so no CA or domain is needed.

use crate::crypto::sha256_digest;
use crate::crypto::sha256;
use crate::text::{
    byte_len, bytes_eq, chars_eq_str, chars_of, hex_digit, push_hex, string_of, trim_chars,
};
use crate::text::{
    hex_char, hex_lower, hex_value, lemma_ascii_len, lemma_hex_value_of_char, lemma_trimmed_padded,
    spec_is_whitespace, trimmed, utf8_len,
};
use vstd::prelude::*;
use vstd::slice::slice_subrange;

verus! {

/// Hostname presented in the TLS handshake. Pinning ignores it, so it is a fixed placeholder.
pub const TLS_SERVER_NAME: &'static str = "porthole";

/// Why a text is no fingerprint.
#[derive(Debug, Clone, Copy, PartialEq, Eq, Structural)]
pub enum FingerprintError {
    /// A fingerprint has 64 hex digits; this text has `len` bytes instead.
    WrongLength { len: usize },
    InvalidHex,
}

/// The fingerprint of a digest.
pub open spec fn fingerprint_text(digest: Seq<u8>) -> Seq<char> {
    "sha256:"@ + hex_lower(digest)
}

/// The digits of a fingerprint: the text without surrounding whitespace and without the prefix,
/// which may be left out.
pub open spec fn fingerprint_digits(s: Seq<char>) -> Seq<char> {
    let t = trimmed(s);
    if t.len() >= 7 && t.take(7) == "sha256:"@ {
        t.skip(7)
    } else {
        t
    }
}

/// The byte that two hex digits stand for.
pub open spec fn pair_value(a: char, b: char) -> Option<nat> {
    match (hex_value(a), hex_value(b)) {
        (Some(high), Some(low)) => Some(high * 16 + low),
        _ => None,
    }
}

/// Whether every two digits stand for a byte.
pub open spec fn all_pairs(digits: Seq<char>) -> bool {
    forall|k: int|
        0 <= k < digits.len() / 2 ==> (#[trigger] pair_value(
            digits[2 * k],
            digits[2 * k + 1],
        )) is Some
}

/// The bytes that digits stand for.
pub open spec fn pair_bytes(digits: Seq<char>) -> Seq<u8> {
    Seq::new(
        digits.len() / 2,
        |k: int| pair_value(digits[2 * k], digits[2 * k + 1])->0 as u8,
    )
}

/// The digest that a fingerprint stands for.
pub open spec fn parsed_fingerprint(s: Seq<char>) -> Result<Seq<u8>, FingerprintError> {
    let digits = fingerprint_digits(s);
    if utf8_len(digits) != 64 {
        Err(FingerprintError::WrongLength { len: utf8_len(digits) as usize })
    } else if digits.len() == 64 && all_pairs(digits) {
        Ok(pair_bytes(digits))
    } else {
        Err(FingerprintError::InvalidHex)
    }
}

/// `sha256:HEX` over the leaf certificate DER.
pub fn fingerprint_str(cert_der: &[u8]) -> (r: String)
    ensures
        r@ == fingerprint_text(sha256(cert_der@)),
{
    let digest = sha256_digest(cert_der);
    let mut hex = "sha256:".to_string();
    push_hex(&mut hex, &digest);
    hex
}

fn parse_pair(a: char, b: char) -> (r: Option<u8>)
    ensures
        match r {
            Some(v) => pair_value(a, b) == Some(v as nat),
            None => pair_value(a, b) is None,
        },
{
    match (hex_digit(a), hex_digit(b)) {
        (Some(high), Some(low)) => Some(high * 16 + low),
        _ => None,
    }
}

/// Read a fingerprint: 64 hex digits, with or without the prefix.
pub fn parse_fingerprint(s: &str) -> (r: Result<[u8; 32], FingerprintError>)
    ensures
        match r {
            Ok(digest) => parsed_fingerprint(s@) == Ok::<_, FingerprintError>(digest@),
            Err(e) => parsed_fingerprint(s@) == Err::<Seq<u8>, _>(e),
        },
{
    let chars = chars_of(s);
    let t = trim_chars(&chars);
    let digits = if t.len() >= 7 && chars_eq_str(slice_subrange(t, 0, 7), "sha256:") {
        assert(t@.subrange(0, 7) =~= t@.take(7));
        assert(t@.subrange(7, t@.len() as int) =~= t@.skip(7));
        slice_subrange(t, 7, t.len())
    } else {
        assert(t@.len() >= 7 ==> t@.subrange(0, 7) =~= t@.take(7));
        t
    };
    assert(digits@ == fingerprint_digits(s@));
    let text = string_of(digits);
    let len: usize = byte_len(&text);
    if len != 64 {
        return Err(FingerprintError::WrongLength { len });
    }
    if digits.len() != 64 {
        return Err(FingerprintError::InvalidHex);
    }
    let mut out: [u8; 32] = [0u8;32];
    let mut k: usize = 0;
    while k < 32
        invariant
            k <= 32,
            digits@.len() == 64,
            digits@ == fingerprint_digits(s@),
            utf8_len(digits@) == 64,
            forall|j: int|
                0 <= j < k ==> (#[trigger] pair_value(digits@[2 * j], digits@[2 * j + 1])) == Some(
                    out@[j] as nat,
                ),
        decreases 32 - k,
    {
        match parse_pair(digits[2 * k], digits[2 * k + 1]) {
            Some(v) => {
                out[k] = v;
            },
            None => {
                assert(pair_value(digits@[2 * k as int], digits@[2 * k as int + 1]) is None);
                assert(!all_pairs(digits@));
                return Err(FingerprintError::InvalidHex);
            },
        }
        k += 1;
    }
    proof {
        assert(all_pairs(digits@));
        assert(out@ =~= pair_bytes(digits@)) by {
            assert forall|j: int| 0 <= j < 32 implies out@[j] == pair_bytes(digits@)[j] by {
                assert(pair_value(digits@[2 * j], digits@[2 * j + 1]) == Some(out@[j] as nat));
            }
        }
    }
    Ok(out)
}

/// A fingerprint reads back as the digest it was made of, also with whitespace around it.
pub proof fn law_fingerprint_roundtrip(left: Seq<char>, digest: Seq<u8>, right: Seq<char>)
    requires
        digest.len() == 32,
        forall|i: int| 0 <= i < left.len() ==> spec_is_whitespace(#[trigger] left[i]),
        forall|i: int| 0 <= i < right.len() ==> spec_is_whitespace(#[trigger] right[i]),
    ensures
        parsed_fingerprint(left + fingerprint_text(digest) + right) == Ok::<_, FingerprintError>(
            digest,
        ),
{
    let text = fingerprint_text(digest);
    let hex = hex_lower(digest);
    reveal_strlit("sha256:");
    assert forall|i: int| 0 <= i < hex.len() implies !spec_is_whitespace(#[trigger] hex[i]) && (
    hex[i] as u32) < 0x80 by {
        if i % 2 == 0 {
            assert(hex[i] == hex_char((digest[i / 2] / 16) as nat));
        } else {
            assert(hex[i] == hex_char((digest[i / 2] % 16) as nat));
        }
    }
    assert(text[0] == 's');
    assert(text.last() == hex.last());
    assert(!spec_is_whitespace(hex[63]));
    lemma_trimmed_padded(left, text, right);
    assert(text.take(7) =~= "sha256:"@);
    assert(text.skip(7) =~= hex);
    lemma_ascii_len(hex);
    assert forall|k: int| 0 <= k < 32 implies (#[trigger] pair_value(hex[2 * k], hex[2 * k + 1]))
        == Some(digest[k] as nat) by {
        assert(hex[2 * k] == hex_char((digest[k] / 16) as nat));
        assert(hex[2 * k + 1] == hex_char((digest[k] % 16) as nat));
        lemma_hex_value_of_char((digest[k] / 16) as nat);
        lemma_hex_value_of_char((digest[k] % 16) as nat);
    }
    assert(pair_bytes(hex) =~= digest);
}

/// Whether a pin is the digest of a certificate.
pub open spec fn pin_accepts(pin: Seq<u8>, cert_der: Seq<u8>) -> bool {
    sha256(cert_der) == pin
}

/// Whether a server certificate is the pinned one. Only the leaf certificate counts; its chain
/// and its names do not.
pub fn pin_matches(pin: &[u8; 32], cert_der: &[u8]) -> (r: bool)
    ensures
        r == pin_accepts(pin@, cert_der@),
{
    let digest = sha256_digest(cert_der);
    bytes_eq(&digest, vstd::array::array_as_slice(pin))
}

/// Fingerprints tell digests apart: the pin that a client takes from a fingerprint is the digest
/// of that certificate and of no certificate with another digest.
pub proof fn law_fingerprints_distinct(a: Seq<u8>, b: Seq<u8>)
    requires
        a.len() == 32,
        b.len() == 32,
    ensures
        parsed_fingerprint(fingerprint_text(a)) == Ok::<_, FingerprintError>(a),
        fingerprint_text(a) == fingerprint_text(b) ==> a == b,
{
    let none = Seq::<char>::empty();
    law_fingerprint_roundtrip(none, a, none);
    law_fingerprint_roundtrip(none, b, none);
    assert(none + fingerprint_text(a) + none =~= fingerprint_text(a));
    assert(none + fingerprint_text(b) + none =~= fingerprint_text(b));
}

// ---------------------------------------------------------------------------
// Certificate files
// ---------------------------------------------------------------------------

/// The certificates in a PEM text, in order, or nothing when the text is malformed.
pub uninterp spec fn pem_certs(pem: Seq<u8>) -> Option<Seq<Seq<u8>>>;

/// The first private key in a PEM text, if it holds one, or nothing when the text is malformed.
pub uninterp spec fn pem_key(pem: Seq<u8>) -> Option<Option<Seq<u8>>>;

/// Whether the one subject alternative name of a certificate is that of `name`.
pub uninterp spec fn certified_for(cert_der: Seq<u8>, name: Seq<char>) -> bool;

/// The contents of certificates.
pub open spec fn der_list(certs: Seq<Vec<u8>>) -> Seq<Seq<u8>> {
    Seq::new(certs.len(), |i: int| certs[i]@)
}

/// The contents of what a PEM text held.
pub open spec fn certs_view(certs: Option<Vec<Vec<u8>>>) -> Option<Seq<Seq<u8>>> {
    match certs {
        Some(list) => Some(der_list(list@)),
        None => None,
    }
}

/// The contents of what a PEM text held.
pub open spec fn key_view(key: Option<Option<Vec<u8>>>) -> Option<Option<Seq<u8>>> {
    match key {
        Some(Some(der)) => Some(Some(der@)),
        Some(None) => Some(None),
        None => None,
    }
}

/// `rustls_pemfile::certs`, collected: the certificate sections of a PEM text.
#[verifier::external_body]
fn read_certs(pem: &[u8]) -> (r: Option<Vec<Vec<u8>>>)
    ensures
        certs_view(r) == pem_certs(pem@),
{
    let mut pem = pem;
    rustls_pemfile::certs(&mut pem)
        .map(|cert| cert.map(|der| der.to_vec()))
        .collect::<Result<Vec<Vec<u8>>, std::io::Error>>()
        .ok()
}

/// `rustls_pemfile::private_key`: the first section of a PEM text that is a private key, without
/// the kind of key that it is.
#[verifier::external_body]
fn read_key(pem: &[u8]) -> (r: Option<Option<Vec<u8>>>)
    ensures
        key_view(r) == pem_key(pem@),
{
    let mut pem = pem;
    rustls_pemfile::private_key(&mut pem).ok().map(|key| key.map(|der| der.secret_der().to_vec()))
}

/// A certificate that was just made, with its private key, as PEM texts and as what is in them.
pub struct NewCertificate {
    pub cert_pem: String,
    pub key_pem: String,
    pub cert_der: Vec<u8>,
    pub key_der: Vec<u8>,
}

/// Whether the PEM texts of a new certificate hold the certificate and its key.
pub open spec fn reads_back(new: NewCertificate) -> bool {
    &&& pem_certs(vstd::utf8::encode_utf8(new.cert_pem@)) == Some(seq![new.cert_der@])
    &&& pem_key(vstd::utf8::encode_utf8(new.key_pem@)) == Some(Some(new.key_der@))
}

/// `rcgen::generate_simple_self_signed`: a certificate for `name`, its one subject alternative
/// name, with a random key, unless the crate reports an error. The PEM texts that
/// `Certificate::pem` and `KeyPair::serialize_pem` write have one section each, which holds what
/// `Certificate::der` and `KeyPair::serialize_der` give. Whether an error comes is left unsaid: it
/// rests on the random numbers of the system.
#[verifier::external_body]
fn self_signed(name: &str) -> (r: Option<NewCertificate>)
    ensures
        r matches Some(new) ==> reads_back(new) && certified_for(new.cert_der@, name@),
{
    let names = vec![name.to_string()];
    rcgen::generate_simple_self_signed(names).ok().map(|made| NewCertificate {
        cert_pem: made.cert.pem(),
        key_pem: made.key_pair.serialize_pem(),
        cert_der: made.cert.der().to_vec(),
        key_der: made.key_pair.serialize_der(),
    })
}

/// Why certificate files are of no use.
#[derive(Debug, Clone, Copy, PartialEq, Eq, Structural)]
pub enum PemError {
    /// The certificate file is malformed.
    InvalidCerts,
    /// The certificate file holds no certificate.
    NoCerts,
    /// The key file is malformed.
    InvalidKey,
    /// The key file holds no private key.
    NoKey,
}

/// The certificate chain of a server, leaf first, and its private key.
pub struct Identity {
    pub certs: Vec<Vec<u8>>,
    pub key: Vec<u8>,
}

/// The contents of an identity.
#[verifier::ext_equal]
pub struct IdentityView {
    pub certs: Seq<Seq<u8>>,
    pub key: Seq<u8>,
}

impl View for Identity {
    type V = IdentityView;

    open spec fn view(&self) -> IdentityView {
        IdentityView { certs: der_list(self.certs@), key: self.key@ }
    }
}

/// The identity in certificate files, given what they hold.
pub open spec fn identity_of(
    certs: Option<Seq<Seq<u8>>>,
    key: Option<Option<Seq<u8>>>,
) -> Result<IdentityView, PemError> {
    match certs {
        None => Err(PemError::InvalidCerts),
        Some(certs) => if certs.len() == 0 {
            Err(PemError::NoCerts)
        } else {
            match key {
                None => Err(PemError::InvalidKey),
                Some(None) => Err(PemError::NoKey),
                Some(Some(key)) => Ok(IdentityView { certs, key }),
            }
        },
    }
}

/// The identity in certificate files.
pub open spec fn loaded_identity(cert_pem: Seq<u8>, key_pem: Seq<u8>) -> Result<
    IdentityView,
    PemError,
> {
    identity_of(pem_certs(cert_pem), pem_key(key_pem))
}

/// Check what certificate files hold.
pub fn check_identity(certs: Option<Vec<Vec<u8>>>, key: Option<Option<Vec<u8>>>) -> (r: Result<
    Identity,
    PemError,
>)
    ensures
        match r {
            Ok(identity) => identity_of(certs_view(certs), key_view(key)) == Ok::<_, PemError>(
                identity@,
            ) && identity.certs@.len() > 0,
            Err(e) => identity_of(certs_view(certs), key_view(key)) == Err::<IdentityView, _>(e),
        },
{
    match certs {
        None => Err(PemError::InvalidCerts),
        Some(certs) => {
            if certs.len() == 0 {
                return Err(PemError::NoCerts);
            }
            match key {
                None => Err(PemError::InvalidKey),
                Some(None) => Err(PemError::NoKey),
                Some(Some(key)) => Ok(Identity { certs, key }),
            }
        },
    }
}

/// Read certificate files.
pub fn load_pem(cert_pem: &[u8], key_pem: &[u8]) -> (r: Result<Identity, PemError>)
    ensures
        match r {
            Ok(identity) => loaded_identity(cert_pem@, key_pem@) == Ok::<_, PemError>(identity@)
                && identity.certs@.len() > 0,
            Err(e) => loaded_identity(cert_pem@, key_pem@) == Err::<IdentityView, _>(e),
        },
{
    check_identity(read_certs(cert_pem), read_key(key_pem))
}

/// The identity of a certificate that was just made, and the PEM texts to store, if one was made.
pub fn made_identity(made: Option<NewCertificate>) -> (r: Option<(Identity, String, String)>)
    ensures
        match (made, r) {
            (Some(new), Some((identity, cert_pem, key_pem))) => {
                &&& identity@ == (IdentityView { certs: seq![new.cert_der@], key: new.key_der@ })
                &&& cert_pem@ == new.cert_pem@
                &&& key_pem@ == new.key_pem@
            },
            (None, None) => true,
            _ => false,
        },
{
    match made {
        Some(new) => {
            let mut certs: Vec<Vec<u8>> = Vec::new();
            let ghost der = new.cert_der@;
            certs.push(new.cert_der);
            assert(der_list(certs@) =~= seq![der]);
            Some((Identity { certs, key: new.key_der }, new.cert_pem, new.key_pem))
        },
        None => None,
    }
}

/// Make a self-signed certificate for the name in the TLS handshake. The identity that comes back
/// is the one that the two PEM texts hold, so a server that stores them keeps its fingerprint.
/// Nothing comes back only if no certificate could be made; see `made_identity`.
pub fn generate() -> (r: Option<(Identity, String, String)>)
    ensures
        match r {
            Some((identity, cert_pem, key_pem)) => {
                &&& loaded_identity(
                    vstd::utf8::encode_utf8(cert_pem@),
                    vstd::utf8::encode_utf8(key_pem@),
                ) == Ok::<_, PemError>(identity@)
                &&& identity@.certs.len() == 1
                &&& certified_for(identity@.certs[0], TLS_SERVER_NAME@)
            },
            None => true,
        },
{
    made_identity(self_signed(TLS_SERVER_NAME))
}

impl Identity {
    /// The fingerprint of the leaf certificate.
    pub fn fingerprint(&self) -> (r: String)
        requires
            self.certs@.len() > 0,
        ensures
            r@ == fingerprint_text(sha256(self@.certs[0])),
    {
        fingerprint_str(&self.certs[0])
    }
}

/// A fingerprint may come without its prefix, and one that is read is a digest of 32 bytes.
/// Anything without 64 digits is refused for its length, which is told.
pub proof fn law_fingerprint_forms(digest: Seq<u8>, s: Seq<char>)
    requires
        digest.len() == 32,
    ensures
        parsed_fingerprint(hex_lower(digest)) == Ok::<_, FingerprintError>(digest),
        parsed_fingerprint("sha256:"@ + hex_lower(digest)) == Ok::<_, FingerprintError>(digest),
        parsed_fingerprint(s) matches Ok(d) ==> d.len() == 32,
        fingerprint_text(digest) == "sha256:"@ + hex_lower(digest),
        parsed_fingerprint(hex_lower(digest.drop_last())) == Err::<Seq<u8>, _>(
            FingerprintError::WrongLength { len: 62 },
        ),
{
    let none = Seq::<char>::empty();
    law_fingerprints_distinct(digest, digest);
    lemma_bare_digits(digest);
    lemma_bare_digits(digest.drop_last());
    let hex = hex_lower(digest);
    assert forall|k: int| 0 <= k < 32 implies (#[trigger] pair_value(hex[2 * k], hex[2 * k + 1]))
        == Some(digest[k] as nat) by {
        assert(hex[2 * k] == hex_char((digest[k] / 16) as nat));
        assert(hex[2 * k + 1] == hex_char((digest[k] % 16) as nat));
        lemma_hex_value_of_char((digest[k] / 16) as nat);
        lemma_hex_value_of_char((digest[k] % 16) as nat);
    }
    assert(pair_bytes(hex) =~= digest);
}

proof fn lemma_bare_digits(bytes: Seq<u8>)
    requires
        bytes.len() > 0,
    ensures
        fingerprint_digits(hex_lower(bytes)) == hex_lower(bytes),
        utf8_len(hex_lower(bytes)) == 2 * bytes.len(),
        hex_lower(bytes).len() == 2 * bytes.len(),
{
    let none = Seq::<char>::empty();
    let hex = hex_lower(bytes);
    reveal_strlit("sha256:");
    assert forall|i: int| 0 <= i < hex.len() implies !spec_is_whitespace(#[trigger] hex[i]) && (
    hex[i] as u32) < 0x80 && hex[i] != 's' by {
        if i % 2 == 0 {
            assert(hex[i] == hex_char((bytes[i / 2] / 16) as nat));
        } else {
            assert(hex[i] == hex_char((bytes[i / 2] % 16) as nat));
        }
    }
    lemma_trimmed_padded(none, hex, none);
    assert(none + hex + none =~= hex);
    lemma_ascii_len(hex);
    if hex.len() >= 7 {
        assert(hex.take(7)[0] != "sha256:"@[0]);
    }
}

/// Certificate files are of use exactly when they hold a certificate and a key, and what they hold
/// is then the identity: all certificates in order, and that key.
pub proof fn law_identity_loads(cert_pem: Seq<u8>, key_pem: Seq<u8>)
    ensures
        loaded_identity(cert_pem, key_pem) is Ok <==> (pem_certs(cert_pem) matches Some(certs)
            && certs.len() > 0 && pem_key(key_pem) matches Some(Some(key))),
        loaded_identity(cert_pem, key_pem) matches Ok(identity) ==> pem_certs(cert_pem) == Some(
            identity.certs,
        ) && pem_key(key_pem) == Some(Some(identity.key)),
        pem_certs(cert_pem) is None ==> loaded_identity(cert_pem, key_pem) == Err::<
            IdentityView,
            _,
        >(PemError::InvalidCerts),
        pem_certs(cert_pem) == Some(Seq::<Seq<u8>>::empty()) ==> loaded_identity(cert_pem, key_pem)
            == Err::<IdentityView, _>(PemError::NoCerts),
        (pem_certs(cert_pem) matches Some(certs) && certs.len() > 0) && pem_key(key_pem) is None
            ==> loaded_identity(cert_pem, key_pem) == Err::<IdentityView, _>(PemError::InvalidKey),
        (pem_certs(cert_pem) matches Some(certs) && certs.len() > 0) && pem_key(key_pem) == Some(
            None::<Seq<u8>>,
        ) ==> loaded_identity(cert_pem, key_pem) == Err::<IdentityView, _>(PemError::NoKey),
{
}

/// A client that pinned a fingerprint accepts the certificates that have this fingerprint and no others.
pub proof fn law_pin_accepts_pinned(pinned: Seq<char>, pin: Seq<u8>, cert_der: Seq<u8>)
    requires
        parsed_fingerprint(pinned) == Ok::<_, FingerprintError>(pin),
        sha256(cert_der).len() == 32,
    ensures
        pin_accepts(pin, cert_der) <==> parsed_fingerprint(
            fingerprint_text(sha256(cert_der)),
        ) == parsed_fingerprint(pinned),
        pinned == fingerprint_text(sha256(cert_der)) ==> pin_accepts(pin, cert_der),
{
    law_fingerprints_distinct(sha256(cert_der), sha256(cert_der));
}

}
