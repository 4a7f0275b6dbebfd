use rsrrc::constants::{
    B_HELLO_CAPS, B_RES_ENCODING, B_RES_ID, B_RES_KIND, B_RES_SHA256, B_RES_SIZE, B_WELCOME_CAPS,
    B_WELCOME_HUB, B_WELCOME_LIMITS, B_WELCOME_VER, CAP_ACTION, CAP_RESOURCE_ENVELOPE,
    CAP_ROOM_STATE, CAP_USER_LIST, K_BODY, K_ROOM, K_T, T_HELLO, T_JOINED, T_MSG, T_NOTICE, T_PART,
    T_RESOURCE_ENVELOPE, T_WELCOME,
};
use rsrrc::envelope::Envelope;
use rsrrc::notices::{parse_room_list_notice, parse_who_notice};
use rsrrc::records::{map_get, RoomInfo, RoomState, UserInfo};
use rsrrc::value::{Item, ItemMap};
use sha2::Digest;

#[test]
fn envelope_round_trip_uses_integer_keys() {
    let mut envelope = Envelope::new(T_MSG, &[7; 16]);
    envelope.set(K_ROOM, Item::Text("test".into()));
    envelope.set(K_BODY, Item::Text("hello".into()));
    let decoded = Envelope::decode(&envelope.encode().unwrap()).unwrap();
    assert_eq!(decoded.integer(K_T), Some(T_MSG));
    assert_eq!(decoded.text(K_ROOM), Some("test"));
}

#[test]
fn rejects_missing_required_fields() {
    let bytes = serde_cbor::to_vec(&serde_cbor::Value::Map(std::collections::BTreeMap::new())).unwrap();
    assert!(Envelope::decode(&bytes).is_err());
}

#[test]
fn client_builders_produce_server_compatible_envelopes() {
    let hello = Envelope::hello(&[7; 16], Some(" Nomad "));
    assert_eq!(hello.message_type(), Some(T_HELLO));
    assert_eq!(hello.nick(), Some(" Nomad "));
    assert_eq!(hello.source(), Some([7; 16]));

    let join = Envelope::join(&[7; 16], "#Rust", None).unwrap();
    assert_eq!(join.room(), Some("rust"));

    let part = Envelope::part(&[7; 16], "#Rust").unwrap();
    assert_eq!(part.message_type(), Some(T_PART));
    assert_eq!(part.room(), Some("rust"));

    let message = Envelope::message(&[7; 16], "#Rust", "hello", false).unwrap();
    assert_eq!(message.message_type(), Some(T_MSG));
    assert_eq!(message.body_text(), Some("hello"));
}

#[test]
fn parses_resource_descriptor() {
    let mut body = ItemMap::new();
    body.insert(B_RES_ID, Item::Bytes(vec![1; 8]));
    body.insert(B_RES_KIND, Item::Text("notice".into()));
    body.insert(B_RES_SIZE, Item::Integer(42));
    body.insert(B_RES_SHA256, Item::Bytes(vec![2; 32]));
    body.insert(B_RES_ENCODING, Item::Text("utf-8".into()));
    let mut envelope = Envelope::new(T_RESOURCE_ENVELOPE, &[7; 16]);
    envelope.set(K_BODY, Item::Table(body));

    let descriptor = envelope.resource_descriptor().unwrap();
    assert_eq!(descriptor.kind, "notice");
    assert_eq!(descriptor.size, 42);
    assert_eq!(descriptor.sha256, Some([2; 32]));
}

#[test]
fn room_state_round_trips_as_an_optional_extension() {
    let state = RoomState {
        registered: true,
        modes: "+mnrt".into(),
        topic: Some("Rust room".into()),
    };
    let mut envelope = Envelope::new(T_JOINED, &[7; 16]);
    envelope.set(K_ROOM, Item::Text("rust".into()));
    envelope.set_room_state(&state);

    let decoded = Envelope::decode(&envelope.encode().unwrap()).unwrap();
    assert_eq!(decoded.room_state(), Some(state));
}

#[test]
fn structured_user_list_round_trips_roles() {
    let users = vec![UserInfo {
        nick: Some("alice".into()),
        identity: "11111111111111111111111111111111".into(),
        operator: true,
        voiced: false,
    }];
    let mut envelope = Envelope::new(T_NOTICE, &[7; 16]);
    envelope.set_user_list(&users);
    let decoded = Envelope::decode(&envelope.encode().unwrap()).unwrap();
    assert_eq!(decoded.user_list(), Some(users));
}

#[test]
fn builds_verifiable_resource_envelope() {
    let data = b"a long bot response";
    let envelope =
        Envelope::resource(&[7; 16], Some("#Bots"), "message", data, Some("utf-8")).unwrap();
    let descriptor = envelope.resource_descriptor().unwrap();
    assert_eq!(envelope.room(), Some("bots"));
    assert_eq!(descriptor.size, data.len());
    let expected: [u8; 32] = sha2::Sha256::digest(data).as_slice().try_into().unwrap();
    assert_eq!(descriptor.sha256, Some(expected));
}

#[test]
fn parses_welcome_capabilities_and_limits() {
    let mut capabilities = ItemMap::new();
    capabilities.insert(CAP_RESOURCE_ENVELOPE, Item::Bool(true));
    capabilities.insert(CAP_ACTION, Item::Bool(true));
    let mut limits = ItemMap::new();
    limits.insert(0, Item::Integer(32));
    limits.insert(2, Item::Integer(16_384));
    let mut body = ItemMap::new();
    body.insert(B_WELCOME_HUB, Item::Text("Rust Hub".into()));
    body.insert(B_WELCOME_VER, Item::Text("0.1.0".into()));
    body.insert(B_WELCOME_CAPS, Item::Table(capabilities));
    body.insert(B_WELCOME_LIMITS, Item::Table(limits));
    let mut envelope = Envelope::new(T_WELCOME, &[9; 16]);
    envelope.set(K_BODY, Item::Table(body));

    let welcome = envelope.welcome().unwrap();
    assert_eq!(welcome.hub_name.as_deref(), Some("Rust Hub"));
    assert!(welcome.capabilities.resource_envelope);
    assert!(welcome.capabilities.action);
    assert!(!welcome.capabilities.direct_notice);
    assert!(!welcome.capabilities.room_state);
    assert!(!welcome.capabilities.user_list);
    assert_eq!(welcome.limits.max_nick_bytes, Some(32));
    assert_eq!(welcome.limits.max_message_bytes, Some(16_384));
}

#[test]
fn hello_advertises_structured_state_extensions() {
    let hello = Envelope::hello(&[7; 16], None);
    let Some(Item::Table(body)) = hello.get(K_BODY) else {
        panic!("HELLO body is missing");
    };
    let Some(Item::Table(capabilities)) = map_get(body, B_HELLO_CAPS) else {
        panic!("HELLO capabilities are missing");
    };

    assert_eq!(map_get(capabilities, CAP_ROOM_STATE), Some(&Item::Bool(true)));
    assert_eq!(map_get(capabilities, CAP_USER_LIST), Some(&Item::Bool(true)));
}

#[test]
fn parses_list_and_who_notices() {
    assert_eq!(
        parse_room_list_notice("Registered public rooms:\n  alpha\n  rust - Rust room"),
        Some(vec![
            RoomInfo {
                name: "alpha".into(),
                topic: None,
            },
            RoomInfo {
                name: "rust".into(),
                topic: Some("Rust room".into()),
            },
        ])
    );
    assert_eq!(
        parse_who_notice(
            "members in rust: alice (0b0b0b0b0b0b), user, alt (161616161616), 22222222222222222222222222222222"
        ),
        Some((
            "rust".into(),
            vec![
                UserInfo {
                    nick: Some("alice".into()),
                    identity: "0b0b0b0b0b0b".into(),
                    operator: false,
                    voiced: false,
                },
                UserInfo {
                    nick: Some("user, alt".into()),
                    identity: "161616161616".into(),
                    operator: false,
                    voiced: false,
                },
                UserInfo {
                    nick: None,
                    identity: "22222222222222222222222222222222".into(),
                    operator: false,
                    voiced: false,
                },
            ],
        ))
    );
    assert_eq!(
        parse_room_list_notice("No public rooms registered"),
        Some(Vec::new())
    );
}
