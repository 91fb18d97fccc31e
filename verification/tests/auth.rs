use porthole::auth::verify_token;

#[test]
fn accepts_match_rejects_mismatch() {
    assert!(verify_token("hunter2", "hunter2"));
    assert!(!verify_token("hunter2", "hunter3"));
    assert!(!verify_token("hunter2", "hunter2x"));
    assert!(!verify_token("hunter2", ""));
}

#[test]
fn tokens_compare_by_every_character() {
    assert!(verify_token("", ""));
    assert!(verify_token("pässwörd", "pässwörd"));
    assert!(!verify_token("pässwörd", "password"));
    assert!(!verify_token("", "x"));
}
