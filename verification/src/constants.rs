//! Protocol constants of RRC version 1: envelope keys, message types, body
//! keys and capability identifiers.

use vstd::prelude::*;

verus! {

/// Protocol version carried under [`K_V`].
pub const VERSION: u64 = 1;

/// Envelope key: protocol version.
pub const K_V: i128 = 0;
/// Envelope key: message type.
pub const K_T: i128 = 1;
/// Envelope key: message identifier (bytes).
pub const K_ID: i128 = 2;
/// Envelope key: timestamp in milliseconds since the Unix epoch.
pub const K_TS: i128 = 3;
/// Envelope key: sender identity (bytes).
pub const K_SRC: i128 = 4;
/// Envelope key: room name (text).
pub const K_ROOM: i128 = 5;
/// Envelope key: message body.
pub const K_BODY: i128 = 6;
/// Envelope key: nickname (text).
pub const K_NICK: i128 = 7;
/// Envelope key: destination identity of a direct notice (bytes).
pub const K_DST: i128 = 8;
/// Envelope key: structured room state extension.
pub const K_ROOM_STATE: i128 = 9;
/// Envelope key: structured user list extension.
pub const K_USER_LIST: i128 = 10;

pub const T_HELLO: u64 = 1;
pub const T_WELCOME: u64 = 2;
pub const T_JOIN: u64 = 10;
pub const T_JOINED: u64 = 11;
pub const T_PART: u64 = 12;
pub const T_PARTED: u64 = 13;
pub const T_MSG: u64 = 20;
pub const T_NOTICE: u64 = 21;
pub const T_ACTION: u64 = 22;
pub const T_PING: u64 = 30;
pub const T_PONG: u64 = 31;
pub const T_ERROR: u64 = 40;
pub const T_RESOURCE_ENVELOPE: u64 = 50;

/// HELLO body key: client name.
pub const B_HELLO_NAME: i128 = 0;
/// HELLO body key: client version.
pub const B_HELLO_VER: i128 = 1;
/// HELLO body key: capability map.
pub const B_HELLO_CAPS: i128 = 2;

/// WELCOME body key: hub name.
pub const B_WELCOME_HUB: i128 = 0;
/// WELCOME body key: hub version.
pub const B_WELCOME_VER: i128 = 1;
/// WELCOME body key: capability map.
pub const B_WELCOME_CAPS: i128 = 2;
/// WELCOME body key: limits map.
pub const B_WELCOME_LIMITS: i128 = 3;

/// Resource body key: resource identifier.
pub const B_RES_ID: i128 = 0;
/// Resource body key: resource kind.
pub const B_RES_KIND: i128 = 1;
/// Resource body key: payload size in bytes.
pub const B_RES_SIZE: i128 = 2;
/// Resource body key: SHA-256 digest of the payload.
pub const B_RES_SHA256: i128 = 3;
/// Resource body key: payload encoding.
pub const B_RES_ENCODING: i128 = 4;

/// Room state map key: room is registered.
pub const B_ROOM_REGISTERED: i128 = 0;
/// Room state map key: mode string.
pub const B_ROOM_MODES: i128 = 1;
/// Room state map key: topic.
pub const B_ROOM_TOPIC: i128 = 2;

/// User list entry key: identity hash in lowercase hex.
pub const B_USER_IDENTITY: i128 = 0;
/// User list entry key: nickname.
pub const B_USER_NICK: i128 = 1;
/// User list entry key: room operator.
pub const B_USER_OPERATOR: i128 = 2;
/// User list entry key: voiced member.
pub const B_USER_VOICED: i128 = 3;

/// Capability: native Resource payloads announced by type 50.
pub const CAP_RESOURCE_ENVELOPE: i128 = 0;
/// Capability: ACTION messages.
pub const CAP_ACTION: i128 = 1;
/// Capability: NOTICE with a destination identity.
pub const CAP_DIRECT_NOTICE: i128 = 2;
/// Capability: structured room state.
pub const CAP_ROOM_STATE: i128 = 3;
/// Capability: structured user list.
pub const CAP_USER_LIST: i128 = 4;

} // verus!
