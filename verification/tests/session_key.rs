//! The `sk1:<owner>/<conversation>` grammar.
use staged_adapter::session_key::{SessionKey, SessionKeyError, MAX_BYTES, PREFIX};

#[test]
fn accepts_a_well_formed_key() {
    let key = SessionKey::parse("sk1:tenant-a/conv-7f3c").expect("valid");
    assert_eq!(key.owner(), "tenant-a");
    assert_eq!(key.conversation(), "conv-7f3c");
    assert_eq!(key.as_str(), "sk1:tenant-a/conv-7f3c");
}

#[test]
fn splits_only_at_the_first_separator() {
    let key = SessionKey::parse("sk1:tenant-a/team/conv/1").expect("valid");
    assert_eq!(key.owner(), "tenant-a");
    assert_eq!(key.conversation(), "team/conv/1");
}

#[test]
fn rejects_a_missing_prefix() {
    assert_eq!(SessionKey::parse("tenant-a/conv"), Err(SessionKeyError::MissingPrefix));
}

#[test]
fn rejects_a_missing_separator() {
    assert_eq!(SessionKey::parse("sk1:tenant-a"), Err(SessionKeyError::MissingSeparator));
}

#[test]
fn rejects_blank_components() {
    assert_eq!(SessionKey::parse("sk1:/conv"), Err(SessionKeyError::EmptyComponent));
    assert_eq!(SessionKey::parse("sk1:tenant/"), Err(SessionKeyError::EmptyComponent));
    assert_eq!(SessionKey::parse("sk1:   /conv"), Err(SessionKeyError::EmptyComponent));
    assert_eq!(SessionKey::parse("sk1:tenant/   "), Err(SessionKeyError::EmptyComponent));
}

#[test]
fn rejects_control_characters() {
    assert_eq!(
        SessionKey::parse("sk1:tenant\u{7}a/conv"),
        Err(SessionKeyError::ControlCharacter)
    );
}

#[test]
fn length_is_measured_in_bytes_including_the_prefix() {
    let fits = format!("sk1:owner/{}", "c".repeat(MAX_BYTES - PREFIX.len() - "owner/".len()));
    assert_eq!(fits.len(), MAX_BYTES);
    assert!(SessionKey::parse(&fits).is_ok());
    assert_eq!(SessionKey::parse(&format!("{fits}c")), Err(SessionKeyError::Length));
    assert_eq!(SessionKey::parse(""), Err(SessionKeyError::Length));
}

#[test]
fn compares_by_bytes_so_nfc_and_nfd_are_different_conversations() {
    // U+AC00 versus U+1100 U+1161 - the same rendered syllable.
    let composed = SessionKey::parse("sk1:owner/\u{AC00}").expect("valid");
    let decomposed = SessionKey::parse("sk1:owner/\u{1100}\u{1161}").expect("valid");
    assert_ne!(composed, decomposed);
}

#[test]
fn the_same_conversation_under_a_different_owner_is_a_different_key() {
    let first = SessionKey::parse("sk1:tenant-a/conv").expect("valid");
    let second = SessionKey::parse("sk1:tenant-b/conv").expect("valid");
    assert_ne!(first, second);
    assert_eq!(first.conversation(), second.conversation());
}

#[test]
fn a_composed_key_parses_back_into_its_parts() {
    for (owner, conversation) in [("tenant-a", "conv-7f3c"), ("o", "a/b/c"), ("é", "会話")] {
        let raw = format!("sk1:{owner}/{conversation}");
        let key = SessionKey::parse(&raw).expect("valid");
        assert_eq!(key.owner(), owner);
        assert_eq!(key.conversation(), conversation);
        assert_eq!(key.as_str(), raw);
    }
}
