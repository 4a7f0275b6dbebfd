//! Reticulum Relay Chat (RRC) version 1 wire protocol: constants, integer-key
//! CBOR envelopes, validation, capabilities and common message builders.
//!
//! The crate holds no transport, routing, persistence or user interface code.

pub mod builders;
pub mod cbor;
pub mod constants;
pub mod digest;
pub mod envelope;
pub mod fresh;
pub mod names;
pub mod notices;
pub mod records;
pub mod text;
pub mod value;

pub use constants::{
    B_HELLO_CAPS, B_HELLO_NAME, B_HELLO_VER, B_RES_ENCODING, B_RES_ID, B_RES_KIND, B_RES_SHA256,
    B_RES_SIZE, B_ROOM_MODES, B_ROOM_REGISTERED, B_ROOM_TOPIC, B_USER_IDENTITY, B_USER_NICK,
    B_USER_OPERATOR, B_USER_VOICED, B_WELCOME_CAPS, B_WELCOME_HUB, B_WELCOME_LIMITS, B_WELCOME_VER,
    CAP_ACTION, CAP_DIRECT_NOTICE, CAP_RESOURCE_ENVELOPE, CAP_ROOM_STATE, CAP_USER_LIST, K_BODY,
    K_DST, K_ID, K_NICK, K_ROOM, K_ROOM_STATE, K_SRC, K_T, K_TS, K_USER_LIST, K_V, T_ACTION,
    T_ERROR, T_HELLO, T_JOIN, T_JOINED, T_MSG, T_NOTICE, T_PART, T_PARTED, T_PING, T_PONG,
    T_RESOURCE_ENVELOPE, T_WELCOME, VERSION,
};
pub use envelope::{Envelope, EnvelopeError};
pub use names::{normalize_nick, normalize_room};
pub use notices::{parse_room_list_notice, parse_who_notice};
pub use records::{
    map_get, Capabilities, Limits, ResourceDescriptor, RoomInfo, RoomState, UserInfo, Welcome,
};
pub use value::{Item, ItemMap};
