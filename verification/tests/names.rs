use rsrrc::names::{normalize_nick, normalize_room};

#[test]
fn normalizes_common_client_values() {
    assert_eq!(normalize_nick(" Nomad ", 32).as_deref(), Some("Nomad"));
    assert_eq!(normalize_room("#Rust", 64).as_deref(), Some("rust"));
    assert!(normalize_room("bad room", 64).is_none());
}
