use porthole::tls::{
    check_identity, fingerprint_str, generate, load_pem, made_identity, parse_fingerprint,
    pin_matches, FingerprintError, NewCertificate, PemError, TLS_SERVER_NAME,
};
use sha2::{Digest, Sha256};

#[test]
fn fingerprint_roundtrip() {
    let der = b"some certificate bytes";
    let fp = fingerprint_str(der);
    assert!(fp.starts_with("sha256:"));
    let parsed = parse_fingerprint(&fp).unwrap();
    assert_eq!(&parsed[..], &Sha256::digest(der)[..]);
}

#[test]
fn fingerprint_parse_rejects_bad() {
    assert!(parse_fingerprint("sha256:xyz").is_err());
    assert!(parse_fingerprint("deadbeef").is_err());
}

#[test]
fn fingerprint_of_known_bytes() {
    assert_eq!(
        fingerprint_str(b"abc"),
        "sha256:ba7816bf8f01cfea414140de5dae2223b00361a396177a9cb410ff61f20015ad"
    );
}

#[test]
fn fingerprint_prefix_case_and_whitespace_are_optional() {
    let fp = fingerprint_str(b"abc");
    let digest = parse_fingerprint(&fp).unwrap();
    let hex = fp.trim_start_matches("sha256:");
    assert_eq!(parse_fingerprint(hex).unwrap(), digest);
    assert_eq!(parse_fingerprint(&format!("\t {fp} \n")).unwrap(), digest);
    assert_eq!(parse_fingerprint(&hex.to_uppercase()).unwrap(), digest);
}

#[test]
fn fingerprint_errors_say_what_is_wrong() {
    assert_eq!(parse_fingerprint("sha256:xyz"), Err(FingerprintError::WrongLength { len: 3 }));
    assert_eq!(parse_fingerprint(""), Err(FingerprintError::WrongLength { len: 0 }));
    let digits = "0".repeat(63);
    assert_eq!(parse_fingerprint(&digits), Err(FingerprintError::WrongLength { len: 63 }));
    assert_eq!(parse_fingerprint(&format!("{digits}g")), Err(FingerprintError::InvalidHex));
    // A sign is no digit, wherever it stands.
    let signed = format!("+f{}", "0".repeat(62));
    assert_eq!(parse_fingerprint(&signed), Err(FingerprintError::InvalidHex));
    let signed = format!("{}f+", "0".repeat(62));
    assert_eq!(parse_fingerprint(&signed), Err(FingerprintError::InvalidHex));
    // Lengths count bytes.
    assert_eq!(
        parse_fingerprint(&"é".repeat(32)),
        Err(FingerprintError::InvalidHex)
    );
    assert_eq!(
        parse_fingerprint(&"é".repeat(64)),
        Err(FingerprintError::WrongLength { len: 128 })
    );
}

#[test]
fn a_pin_matches_its_certificate_only() {
    let pin = parse_fingerprint(&fingerprint_str(b"server certificate")).unwrap();
    assert!(pin_matches(&pin, b"server certificate"));
    assert!(!pin_matches(&pin, b"other certificate"));
    assert!(!pin_matches(&pin, b""));
}

#[test]
fn generated_certificates_load_with_the_same_fingerprint() {
    let (identity, cert_pem, key_pem) = generate().unwrap();
    assert!(cert_pem.starts_with("-----BEGIN CERTIFICATE-----"));
    let loaded = load_pem(cert_pem.as_bytes(), key_pem.as_bytes()).unwrap();
    assert_eq!(loaded.certs, identity.certs);
    assert_eq!(loaded.key, identity.key);
    assert_eq!(loaded.fingerprint(), identity.fingerprint());
    assert_eq!(identity.fingerprint(), fingerprint_str(&identity.certs[0]));
    // Every certificate is new.
    let (other, _, _) = generate().unwrap();
    assert_ne!(other.fingerprint(), identity.fingerprint());
}

#[test]
fn each_certificate_file_error_has_its_cause() {
    let (_, cert_pem, key_pem) = generate().unwrap();
    let (cert, key) = (cert_pem.as_bytes(), key_pem.as_bytes());
    let broken = b"-----BEGIN CERTIFICATE-----\nAA==\n".as_slice();
    let error = |cert: &[u8], key: &[u8]| load_pem(cert, key).map(|_| ()).unwrap_err();
    assert_eq!(error(broken, key), PemError::InvalidCerts);
    assert_eq!(error(b"", key), PemError::NoCerts);
    assert_eq!(error(key, key), PemError::NoCerts);
    assert_eq!(error(cert, broken), PemError::InvalidKey);
    assert_eq!(error(cert, cert), PemError::NoKey);
    // One file may hold both.
    let both = format!("{key_pem}{cert_pem}");
    assert!(load_pem(both.as_bytes(), both.as_bytes()).is_ok());
    let both = check_identity(Some(vec![vec![1], vec![2]]), Some(Some(vec![3]))).unwrap();
    assert_eq!((both.certs, both.key), (vec![vec![1], vec![2]], vec![3]));
    assert!(matches!(check_identity(None, None), Err(PemError::InvalidCerts)));
}

#[test]
fn made_certificates_become_identities() {
    assert!(made_identity(None).is_none());
    let new = NewCertificate {
        cert_pem: "cert".into(),
        key_pem: "key".into(),
        cert_der: vec![1, 2],
        key_der: vec![3],
    };
    let (identity, cert_pem, key_pem) = made_identity(Some(new)).unwrap();
    assert_eq!((identity.certs, identity.key), (vec![vec![1, 2]], vec![3]));
    assert_eq!((cert_pem.as_str(), key_pem.as_str()), ("cert", "key"));
}

#[test]
fn generated_certificates_carry_the_handshake_name() {
    let (identity, _, _) = generate().unwrap();
    // A DNS name in the subject alternative names: its tag, its length and its characters.
    let mut san = vec![0x82, TLS_SERVER_NAME.len() as u8];
    san.extend_from_slice(TLS_SERVER_NAME.as_bytes());
    assert!(identity.certs[0].windows(san.len()).any(|w| w == san));
}
