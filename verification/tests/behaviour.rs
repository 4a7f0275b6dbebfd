use rsrrc::builders::MAX_TEXT_BYTES;
use rsrrc::names::valid_text;
use rsrrc::{
    normalize_nick, normalize_room, parse_room_list_notice, parse_who_notice, Envelope,
    EnvelopeError, Item, ItemMap, RoomInfo, RoomState, UserInfo, B_RES_ID, B_RES_KIND,
    B_RES_SHA256, B_RES_SIZE, K_BODY, K_DST, K_ID, K_NICK, K_ROOM, K_SRC, K_T, K_TS, K_V, T_ACTION,
    T_MSG, T_NOTICE, T_PING, T_PONG, T_RESOURCE_ENVELOPE, T_WELCOME,
};
use sha2::Digest;

fn base() -> Envelope {
    Envelope::with_header(T_MSG, &[1; 16], &[2; 8], 1_700_000_000_000)
}

#[test]
fn with_header_holds_the_five_header_fields() {
    let e = base();
    assert_eq!(e.integer(K_V), Some(1));
    assert_eq!(e.integer(K_T), Some(T_MSG));
    assert_eq!(e.bytes(K_ID), Some(&[2u8; 8][..]));
    assert_eq!(e.timestamp_ms(), Some(1_700_000_000_000));
    assert_eq!(e.source(), Some([1; 16]));
    assert_eq!(e.validate(), Ok(()));
}

#[test]
fn new_envelopes_have_random_ids_and_a_clock_time() {
    let a = Envelope::new(T_MSG, &[3; 16]);
    let b = Envelope::new(T_MSG, &[3; 16]);
    assert_eq!(a.bytes(K_ID).unwrap().len(), 8);
    assert_ne!(a.bytes(K_ID), b.bytes(K_ID));
    assert!(a.timestamp_ms().unwrap() > 1_600_000_000_000);
    assert_eq!(a.validate(), Ok(()));
}

#[test]
fn set_get_and_remove() {
    let mut e = base();
    e.set(K_ROOM, Item::Text("one".into()));
    e.set(K_ROOM, Item::Text("two".into()));
    assert_eq!(e.room(), Some("two"));
    e.remove(K_ROOM);
    assert_eq!(e.get(K_ROOM), None);
    assert_eq!(e.room(), None);
    e.set_nick("zed");
    assert_eq!(e.nick(), Some("zed"));
    e.set_source(&[9; 16]);
    assert_eq!(e.source(), Some([9; 16]));
}

#[test]
fn accessors_refuse_items_of_the_wrong_kind() {
    let mut e = base();
    e.set(K_BODY, Item::Integer(-5));
    assert_eq!(e.unsigned(K_BODY), None);
    assert_eq!(e.integer(K_BODY), None);
    assert_eq!(e.body_text(), None);
    e.set(K_BODY, Item::Integer(1 << 70));
    assert_eq!(e.unsigned(K_BODY), Some(1 << 70));
    assert_eq!(e.integer(K_BODY), None);
    e.set(K_SRC, Item::Bytes(vec![1; 15]));
    assert_eq!(e.source(), None);
    assert!(e.map(K_BODY).is_none());
}

#[test]
fn validation_reports_each_error() {
    let cases: Vec<(i128, Item, EnvelopeError)> = vec![
        (-1, Item::Null, EnvelopeError::KeyNotUnsigned),
        (K_V, Item::Integer(2), EnvelopeError::UnsupportedVersion),
        (K_T, Item::Text("x".into()), EnvelopeError::MessageTypeNotUnsigned),
        (K_ID, Item::Integer(3), EnvelopeError::MessageIdNotBytes),
        (K_TS, Item::Integer(-1), EnvelopeError::TimestampNotUnsigned),
        (K_SRC, Item::Text("x".into()), EnvelopeError::SourceNotBytes),
        (K_ROOM, Item::Integer(1), EnvelopeError::RoomNotText),
        (K_NICK, Item::Bytes(vec![1]), EnvelopeError::NickNotText),
        (K_DST, Item::Text("x".into()), EnvelopeError::DestinationNotBytes),
    ];
    for (key, item, error) in cases {
        let mut e = base();
        e.set(key, item);
        assert_eq!(e.validate(), Err(error));
        assert_eq!(e.encode(), Err(error));
    }
    let mut e = base();
    e.remove(K_TS);
    assert_eq!(e.validate(), Err(EnvelopeError::MissingKey(K_TS)));
    let mut e = base();
    e.set(K_DST, Item::Bytes(vec![4; 16]));
    assert_eq!(e.validate(), Ok(()));
}

#[test]
fn encoding_fails_for_integers_cbor_cannot_carry() {
    let mut e = base();
    e.set(K_BODY, Item::Integer(i128::MAX));
    assert_eq!(e.validate(), Ok(()));
    assert_eq!(e.encode(), Err(EnvelopeError::EncodingFailed));
}

#[test]
fn decoding_reports_each_error() {
    assert_eq!(Envelope::decode(&[0xff]), Err(EnvelopeError::InvalidCbor));
    assert_eq!(Envelope::decode(&[]), Err(EnvelopeError::InvalidCbor));
    assert_eq!(Envelope::decode(&[0x01]), Err(EnvelopeError::NotAMap));
    let text_key = serde_cbor::to_vec(&serde_cbor::Value::Map(
        [(serde_cbor::Value::Text("a".into()), serde_cbor::Value::Integer(1))].into(),
    ))
    .unwrap();
    assert_eq!(Envelope::decode(&text_key), Err(EnvelopeError::KeyNotUnsigned));
    let negative_key = serde_cbor::to_vec(&serde_cbor::Value::Map(
        [(serde_cbor::Value::Integer(-3), serde_cbor::Value::Integer(1))].into(),
    ))
    .unwrap();
    assert_eq!(Envelope::decode(&negative_key), Err(EnvelopeError::KeyNotUnsigned));
    assert_eq!(Envelope::decode(&[0xa0]), Err(EnvelopeError::MissingKey(K_V)));
    let mut bytes = base().encode().unwrap();
    bytes.push(0x00);
    assert_eq!(Envelope::decode(&bytes), Err(EnvelopeError::InvalidCbor));
}

#[test]
fn encoding_is_canonical_cbor_with_integer_keys() {
    let bytes = base().encode().unwrap();
    let value: serde_cbor::Value = serde_cbor::from_slice(&bytes).unwrap();
    let serde_cbor::Value::Map(map) = value else {
        panic!("not a map");
    };
    let keys: Vec<serde_cbor::Value> = map.keys().cloned().collect();
    assert_eq!(
        keys,
        (0..5).map(serde_cbor::Value::Integer).collect::<Vec<_>>()
    );
    assert_eq!(bytes[0], 0xa5);
}

#[test]
fn decoded_envelopes_keep_unknown_items() {
    let mut e = base();
    let mut extra = ItemMap::new();
    extra.insert(7, Item::Array(vec![Item::Bool(false), Item::Null, Item::Bytes(vec![1, 2])]));
    e.set(42, Item::Table(extra));
    e.set(43, Item::Integer(-7));
    let decoded = Envelope::decode(&e.encode().unwrap()).unwrap();
    assert_eq!(decoded, e);
}

#[test]
fn floats_and_tags_survive_decoding_and_encoding() {
    let mut map = std::collections::BTreeMap::new();
    for (k, v) in [
        (0, serde_cbor::Value::Integer(1)),
        (1, serde_cbor::Value::Integer(20)),
        (2, serde_cbor::Value::Bytes(vec![1; 8])),
        (3, serde_cbor::Value::Integer(5)),
        (4, serde_cbor::Value::Bytes(vec![2; 16])),
        (20, serde_cbor::Value::Float(1.5e300)),
    ] {
        map.insert(serde_cbor::Value::Integer(k), v);
    }
    let bytes = serde_cbor::to_vec(&serde_cbor::Value::Map(map)).unwrap();
    let decoded = Envelope::decode(&bytes).unwrap();
    assert_eq!(decoded.get(20), Some(&Item::Float(1.5e300f64.to_bits())));
    assert_eq!(decoded.encode().unwrap(), bytes);
}

#[test]
fn ping_and_pong() {
    let ping = Envelope::ping(&[1; 16], 77);
    assert_eq!(ping.message_type(), Some(T_PING));
    assert_eq!(ping.unsigned(K_BODY), Some(77));
    let pong = Envelope::pong(&[2; 16], &ping);
    assert_eq!(pong.message_type(), Some(T_PONG));
    assert_eq!(pong.get(K_BODY), ping.get(K_BODY));
    let empty_ping = Envelope::new(T_PING, &[1; 16]);
    assert_eq!(Envelope::pong(&[2; 16], &empty_ping).get(K_BODY), None);
}

#[test]
fn builders_check_their_arguments() {
    assert!(Envelope::join(&[1; 16], "bad room", None).is_none());
    assert!(Envelope::part(&[1; 16], "#").is_none());
    let join = Envelope::join(&[1; 16], "Lobby", Some("secret")).unwrap();
    assert_eq!(join.body_text(), Some("secret"));
    let join = Envelope::join(&[1; 16], "Lobby", Some("  ")).unwrap();
    assert_eq!(join.body_text(), None);
    assert!(Envelope::message(&[1; 16], "lobby", "  ", false).is_none());
    let long = "a".repeat(MAX_TEXT_BYTES + 1);
    assert!(Envelope::message(&[1; 16], "lobby", &long, false).is_none());
    let action = Envelope::message(&[1; 16], "lobby", "waves", true).unwrap();
    assert_eq!(action.message_type(), Some(T_ACTION));
    assert!(Envelope::command(&[1; 16], None, "hello").is_none());
    assert!(Envelope::command(&[1; 16], Some("a b"), "/who").is_none());
    let command = Envelope::command(&[1; 16], None, "/list").unwrap();
    assert_eq!(command.room(), None);
    assert_eq!(command.body_text(), Some("/list"));
    let command = Envelope::command(&[1; 16], Some("#Ops"), "/who").unwrap();
    assert_eq!(command.room(), Some("ops"));
    let hello = Envelope::hello(&[1; 16], Some("bad\0nick"));
    assert_eq!(hello.nick(), None);
    for e in [join, action, command, hello] {
        assert_eq!(e.validate(), Ok(()));
    }
}

#[test]
fn resource_announcements() {
    assert!(Envelope::resource(&[1; 16], None, "kind", &[], None).is_none());
    assert!(Envelope::resource(&[1; 16], None, "", b"x", None).is_none());
    assert!(Envelope::resource(&[1; 16], None, "kind", b"x", Some(" ")).is_none());
    assert!(Envelope::resource(&[1; 16], Some("no room"), "kind", b"x", None).is_none());
    let e = Envelope::resource(&[1; 16], None, "file", b"abc", None).unwrap();
    let d = e.resource_descriptor().unwrap();
    assert_eq!(d.id.len(), 8);
    assert_eq!(d.kind, "file");
    assert_eq!(d.encoding, None);
    let digest: [u8; 32] = sha2::Sha256::digest(b"abc").into();
    assert_eq!(d.sha256, Some(digest));
    assert_eq!(
        d.sha256.unwrap()[..4],
        [0xba, 0x78, 0x16, 0xbf]
    );
    assert_eq!(e.room(), None);
}

#[test]
fn resource_descriptor_refuses_malformed_bodies() {
    let make = |sha: Item| {
        let mut body = ItemMap::new();
        body.insert(B_RES_ID, Item::Bytes(vec![1; 8]));
        body.insert(B_RES_KIND, Item::Text("notice".into()));
        body.insert(B_RES_SIZE, Item::Integer(4));
        body.insert(B_RES_SHA256, sha);
        let mut e = Envelope::new(T_RESOURCE_ENVELOPE, &[7; 16]);
        e.set(K_BODY, Item::Table(body));
        e
    };
    assert!(make(Item::Bytes(vec![0; 31])).resource_descriptor().is_none());
    assert!(make(Item::Text("x".into())).resource_descriptor().is_none());
    assert!(make(Item::Bytes(vec![0; 32])).resource_descriptor().is_some());
    let mut wrong_type = make(Item::Bytes(vec![0; 32]));
    wrong_type.set(K_T, Item::Integer(T_MSG as i128));
    assert!(wrong_type.resource_descriptor().is_none());
}

#[test]
fn welcome_defaults_and_type_check() {
    let mut body = ItemMap::new();
    body.insert(0, Item::Text("Hub".into()));
    let mut e = Envelope::new(T_WELCOME, &[1; 16]);
    e.set(K_BODY, Item::Table(body));
    let w = e.welcome().unwrap();
    assert_eq!(w.hub_name.as_deref(), Some("Hub"));
    assert_eq!(w.version, None);
    assert_eq!(w.capabilities, rsrrc::Capabilities::default());
    assert_eq!(w.limits, rsrrc::Limits::default());
    assert_eq!(e.welcome_hub_name(), Some("Hub"));
    e.set(K_T, Item::Integer(T_MSG as i128));
    assert!(e.welcome().is_none());
    assert_eq!(e.welcome_hub_name(), Some("Hub"));
}

#[test]
fn room_state_defaults_and_user_identities_are_lowered() {
    let mut e = base();
    assert_eq!(e.room_state(), None);
    e.set(rsrrc::K_ROOM_STATE, Item::Table(ItemMap::new()));
    assert_eq!(
        e.room_state(),
        Some(RoomState {
            registered: false,
            modes: "(none)".into(),
            topic: None
        })
    );
    let users = vec![
        UserInfo {
            nick: None,
            identity: "ABCDEF".into(),
            operator: false,
            voiced: true,
        },
        UserInfo {
            nick: Some("Bob".into()),
            identity: "00ff".into(),
            operator: true,
            voiced: false,
        },
    ];
    e.set_user_list(&users);
    let back = e.user_list().unwrap();
    assert_eq!(back[0].identity, "abcdef");
    assert_eq!(back[0].nick, None);
    assert!(back[0].voiced);
    assert_eq!(back[1], users[1]);
}

#[test]
fn nicknames_and_rooms_normalize() {
    assert_eq!(normalize_nick("a\nb", 32), None);
    assert_eq!(normalize_nick("   ", 32), None);
    assert_eq!(normalize_nick("ééé", 5), None);
    assert_eq!(normalize_nick("éé", 4).as_deref(), Some("éé"));
    assert_eq!(normalize_room("  ##Dev  ", 64).as_deref(), Some("dev"));
    assert_eq!(normalize_room("#\tx", 64).as_deref(), Some("\tx"));
    assert_eq!(normalize_room("\tx", 64).as_deref(), Some("x"));
    assert_eq!(normalize_room("abcde", 4), None);
    assert!(valid_text(" ok ", 2));
    assert!(!valid_text("a\rb", 10));
    let once = normalize_room("#Rust", 64).unwrap();
    assert_eq!(normalize_room(&once, 64), Some(once.clone()));
}

#[test]
fn room_lists_are_sorted_stably() {
    let rooms = parse_room_list_notice(
        "Registered public rooms:\r\n#Zeta - last\r\n\r\nalpha - first\nALPHA - second\n beta -   \n",
    )
    .unwrap();
    assert_eq!(
        rooms,
        vec![
            RoomInfo { name: "alpha".into(), topic: Some("first".into()) },
            RoomInfo { name: "alpha".into(), topic: Some("second".into()) },
            RoomInfo { name: "beta -".into(), topic: None },
            RoomInfo { name: "zeta".into(), topic: Some("last".into()) },
        ]
    );
    assert_eq!(parse_room_list_notice(""), None);
    assert_eq!(parse_room_list_notice("Public rooms:\nx"), None);
    assert_eq!(parse_room_list_notice("  Registered public rooms"), Some(Vec::new()));
}

#[test]
fn who_notices() {
    assert_eq!(parse_who_notice("members in #Dev: (none)"), Some(("dev".into(), Vec::new())));
    assert_eq!(parse_who_notice("members of dev: x"), None);
    assert_eq!(parse_who_notice("members in dev (none)"), None);
    assert_eq!(parse_who_notice("members in #: (none)"), None);
    assert_eq!(
        parse_who_notice("members in dev: Carol (ABCDEFABCDEF)"),
        Some((
            "dev".into(),
            vec![UserInfo {
                nick: Some("Carol".into()),
                identity: "abcdefabcdef".into(),
                operator: false,
                voiced: false,
            }]
        ))
    );
    assert_eq!(parse_who_notice("members in dev: nobody"), Some(("dev".into(), Vec::new())));
}

#[test]
fn item_maps_replace_entries_in_place() {
    let mut m = ItemMap::new();
    m.insert(3, Item::Bool(true));
    m.insert(1, Item::Bool(false));
    m.insert(3, Item::Null);
    assert_eq!(m.entries.len(), 2);
    assert_eq!(m.entries[0].0, Item::Integer(1));
    assert_eq!(m.entries[1].0, Item::Integer(3));
    assert_eq!(m.get(3), Some(&Item::Null));
    assert_eq!(m.get(1), Some(&Item::Bool(false)));
    assert_eq!(m.get(2), None);
    let copy = Item::Table(m.clone());
    assert_eq!(copy, Item::Table(m));
}

#[test]
fn envelope_clone_is_equal() {
    let e = Envelope::hello(&[5; 16], Some("x"));
    assert_eq!(e.clone(), e);
}

#[test]
fn message_type_constants_stay_distinct() {
    assert_ne!(T_MSG, T_ACTION);
}

#[test]
fn built_envelopes_encode_and_decode_to_themselves() {
    let src = [5u8; 16];
    let ping = Envelope::ping(&src, 9);
    let mut room_state = Envelope::new(T_MSG, &src);
    room_state.set_room_state(&RoomState {
        registered: false,
        modes: "+n".to_string(),
        topic: None,
    });
    room_state.set_user_list(&[UserInfo {
        nick: None,
        identity: "abcdef".to_string(),
        operator: false,
        voiced: true,
    }]);
    let built = [
        Envelope::hello(&src, Some("Nomad")),
        Envelope::join(&src, "#Lobby", Some("key")).unwrap(),
        Envelope::part(&src, "lobby").unwrap(),
        Envelope::message(&src, "lobby", "hi there", true).unwrap(),
        Envelope::command(&src, Some("lobby"), "/topic new").unwrap(),
        Envelope::pong(&src, &ping),
        ping,
        Envelope::resource(&src, Some("lobby"), "file", b"data", Some("utf-8")).unwrap(),
        room_state,
    ];
    for e in built {
        let bytes = e.encode().unwrap();
        assert_eq!(Envelope::decode(&bytes), Ok(e));
    }
}

#[test]
fn bodies_built_out_of_order_round_trip() {
    let mut body = ItemMap::new();
    body.insert(4, Item::Text("late".into()));
    body.insert(0, Item::Bool(true));
    body.insert(2, Item::Integer(7));
    body.insert(0, Item::Bool(false));
    let keys: Vec<&Item> = body.entries.iter().map(|(k, _)| k).collect();
    assert_eq!(keys, vec![&Item::Integer(0), &Item::Integer(2), &Item::Integer(4)]);
    let mut e = Envelope::with_header(T_MSG, &[1; 16], &[2; 8], 5);
    e.set(K_BODY, Item::Table(body));
    let bytes = e.encode().unwrap();
    assert_eq!(Envelope::decode(&bytes), Ok(e));
}

#[test]
fn text_keys_and_negative_integers_encode() {
    let mut e = Envelope::with_header(T_MSG, &[1; 16], &[2; 8], 5);
    let nested = ItemMap {
        entries: vec![
            (Item::Integer(-1), Item::Null),
            (Item::Text("k".into()), Item::Integer(-3)),
        ],
    };
    e.set(K_BODY, Item::Table(nested));
    let bytes = e.encode().unwrap();
    assert_eq!(Envelope::decode(&bytes), Ok(e));
}

#[test]
fn negative_keys_are_inserted_in_canonical_order() {
    let mut body = ItemMap::new();
    body.insert(0, Item::Bool(true));
    body.insert(2, Item::Null);
    body.insert(-1, Item::Integer(1));
    body.insert(-3, Item::Integer(3));
    let keys: Vec<&Item> = body.entries.iter().map(|(k, _)| k).collect();
    assert_eq!(
        keys,
        vec![&Item::Integer(0), &Item::Integer(2), &Item::Integer(-1), &Item::Integer(-3)]
    );
    let mut e = Envelope::with_header(T_MSG, &[1; 16], &[2; 8], 5);
    e.set(K_BODY, Item::Table(body));
    let bytes = e.encode().unwrap();
    assert_eq!(Envelope::decode(&bytes), Ok(e));
}

#[test]
fn keys_cbor_cannot_carry_fail_encoding_without_panicking() {
    let mut e = Envelope::with_header(T_MSG, &[1; 16], &[2; 8], 5);
    let nested = ItemMap {
        entries: vec![
            (Item::Array(vec![Item::Integer(i128::MAX)]), Item::Null),
            (Item::Array(vec![Item::Integer(1)]), Item::Null),
            (Item::Integer(i128::MIN), Item::Null),
            (Item::Integer(-1), Item::Null),
        ],
    };
    e.set(K_BODY, Item::Table(nested));
    assert_eq!(e.encode(), Err(EnvelopeError::EncodingFailed));
}

#[test]
fn fresh_envelopes_validate_and_list_their_fields() {
    let mut e = Envelope::new(T_NOTICE, &[7; 16]);
    e.set(K_DST, Item::Bytes(vec![9; 16]));
    e.set(1000, Item::Text("x".into()));
    assert_eq!(e.validate(), Ok(()));
    let keys: Vec<i128> = e.fields().iter().map(|(k, _)| *k).collect();
    assert_eq!(keys, vec![K_V, K_T, K_ID, K_TS, K_SRC, K_DST, 1000]);
    let item = Item::Table(ItemMap {
        entries: e.fields().iter().map(|(k, v)| (Item::Integer(*k), v.clone())).collect(),
    });
    assert_eq!(Envelope::from_item(item), Ok(e));
    assert_eq!(Envelope::from_item(Item::Null), Err(EnvelopeError::NotAMap));
}

#[test]
fn maps_keyed_by_arrays_maps_booleans_and_null_round_trip() {
    let mut e = Envelope::with_header(T_MSG, &[1; 16], &[2; 8], 5);
    let inner = ItemMap { entries: vec![(Item::Integer(0), Item::Null)] };
    let nested = ItemMap {
        entries: vec![
            (Item::Integer(1), Item::Text("one".into())),
            (Item::Array(vec![Item::Integer(1)]), Item::Bool(true)),
            (Item::Array(vec![Item::Integer(2)]), Item::Bool(false)),
            (Item::Table(inner), Item::Integer(-9)),
            (Item::Bool(false), Item::Bytes(vec![1])),
            (Item::Bool(true), Item::Bytes(vec![2])),
            (Item::Null, Item::Array(vec![])),
        ],
    };
    e.set(K_BODY, Item::Table(nested));
    let bytes = e.encode().unwrap();
    assert_eq!(Envelope::decode(&bytes), Ok(e));
}

#[test]
fn deeply_nested_bodies_round_trip() {
    let mut body = Item::Integer(7);
    for _ in 0..126 {
        body = Item::Array(vec![body]);
    }
    let mut e = Envelope::with_header(T_MSG, &[1; 16], &[2; 8], 5);
    e.set(K_BODY, body);
    let bytes = e.encode().unwrap();
    assert_eq!(Envelope::decode(&bytes), Ok(e));
}
