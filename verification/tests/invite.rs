use porthole::invite::{decode, encode, invite_info, ConnectionInfo, InviteError, PREFIX};
use porthole::config::ServerSettings;
use serde_json::Value;

fn sample() -> ConnectionInfo {
    ConnectionInfo {
        host: "10xdev.sk".into(),
        port: 7835,
        fingerprint: "sha256:abc123".into(),
        secret: "s3cr3t".into(),
    }
}

fn to_json(info: &ConnectionInfo) -> Vec<u8> {
    let mut map = serde_json::Map::new();
    map.insert("host".into(), Value::from(info.host.clone()));
    map.insert("port".into(), Value::from(info.port));
    map.insert("fingerprint".into(), Value::from(info.fingerprint.clone()));
    map.insert("secret".into(), Value::from(info.secret.clone()));
    serde_json::to_vec(&Value::Object(map)).unwrap()
}

fn from_json(json: &[u8]) -> Result<ConnectionInfo, InviteError> {
    let value: Value =
        serde_json::from_slice(json).map_err(|_| InviteError::InvalidContents)?;
    let text = |key: &str| {
        value.get(key).and_then(|v| v.as_str()).map(String::from).ok_or(InviteError::InvalidContents)
    };
    Ok(ConnectionInfo {
        host: text("host")?,
        port: value
            .get("port")
            .and_then(|v| v.as_u64())
            .and_then(|p| u16::try_from(p).ok())
            .ok_or(InviteError::InvalidContents)?,
        fingerprint: text("fingerprint")?,
        secret: text("secret")?,
    })
}

fn encode_info(info: &ConnectionInfo) -> String {
    encode(&to_json(info))
}

fn decode_info(code: &str) -> Result<ConnectionInfo, InviteError> {
    from_json(&decode(code)?)
}

#[test]
fn roundtrip() {
    let info = sample();
    let code = encode_info(&info);
    assert!(code.starts_with(PREFIX));
    assert_eq!(decode_info(&code).unwrap(), info);
}

#[test]
fn trims_whitespace() {
    let code = format!("  {}\n", encode_info(&sample()));
    assert_eq!(decode_info(&code).unwrap(), sample());
}

#[test]
fn rejects_garbage() {
    assert!(decode_info("hello").is_err());
    assert!(decode_info("porthole1_!!!notbase64!!!").is_err());
    assert!(decode_info("porthole1_").is_err());
}

#[test]
fn codes_are_url_safe_base64_without_padding() {
    assert_eq!(encode(b"hi?>"), "porthole1_aGk_Pg");
    assert_eq!(encode(b""), "porthole1_");
    assert_eq!(decode("porthole1_aGk_Pg").unwrap(), b"hi?>".to_vec());
    assert_eq!(decode("porthole1_").unwrap(), Vec::<u8>::new());
}

#[test]
fn each_decoding_error_has_its_cause() {
    assert_eq!(decode("hello"), Err(InviteError::NotACode));
    assert_eq!(decode("porthole1"), Err(InviteError::NotACode));
    // Padding and stray bits after the last byte do not occur in codes.
    assert_eq!(decode("porthole1_aGk_Pg=="), Err(InviteError::Corrupted));
    assert_eq!(decode("porthole1_aGk_Ph"), Err(InviteError::Corrupted));
    assert_eq!(decode("porthole1_é"), Err(InviteError::Corrupted));
    assert_eq!(decode_info("porthole1_e30"), Err(InviteError::InvalidContents));
    assert_eq!(
        InviteError::NotACode.message(),
        "that doesn't look like a porthole connection code"
    );
    assert_eq!(InviteError::Corrupted.message(), "connection code is corrupted");
    assert_eq!(InviteError::InvalidContents.message(), "connection code has invalid contents");
}

#[test]
fn server_addr_joins_host_and_port() {
    assert_eq!(sample().server_addr(), "10xdev.sk:7835");
}

#[test]
fn invites_need_a_public_host() {
    let mut settings = ServerSettings {
        bind_addr: "0.0.0.0".into(),
        control_port: 7900,
        secret: "s3cr3t".into(),
        min_port: 1,
        max_port: 2,
        cert_path: "c".into(),
        key_path: "k".into(),
        public_host: None,
    };
    assert!(invite_info(&settings, "sha256:00".into()).is_none());
    settings.public_host = Some("relay.example".into());
    let info = invite_info(&settings, "sha256:00".into()).unwrap();
    assert_eq!(
        info,
        ConnectionInfo {
            host: "relay.example".into(),
            port: 7900,
            fingerprint: "sha256:00".into(),
            secret: "s3cr3t".into(),
        }
    );
}
