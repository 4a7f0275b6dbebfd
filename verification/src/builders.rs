//! Builders for the messages a client sends: HELLO, JOIN, PART, MSG and
//! ACTION, commands, PING and PONG, and RESOURCE announcements.

use crate::constants::{
    K_DST, K_ID, K_SRC, K_T, K_TS, K_V,
    B_HELLO_CAPS, B_RES_ENCODING, B_RES_ID, B_RES_KIND, B_RES_SHA256, B_RES_SIZE, CAP_ACTION,
    CAP_DIRECT_NOTICE, CAP_RESOURCE_ENVELOPE, CAP_ROOM_STATE, CAP_USER_LIST, K_BODY, K_NICK, K_ROOM,
    T_ACTION, T_HELLO, T_JOIN, T_MSG, T_PART, T_PING, T_PONG, T_RESOURCE_ENVELOPE,
};
use crate::cbor;
use crate::digest;
use crate::envelope::{self, field_insert, header, is_header, str_view, validation, Envelope, EnvelopeError};
use crate::fresh;
use crate::records::{self, ResourceView};
use crate::names::{self, is_valid_text, room_spec};
use crate::text;
use crate::value::{self, Cbor, Item, ItemMap};
use vstd::prelude::*;

verus! {

/// Longest nickname a HELLO carries, in bytes.
pub const MAX_NICK_BYTES: usize = 32;
/// Longest room name, in bytes.
pub const MAX_ROOM_BYTES: usize = 64;
/// Longest room key, in bytes.
pub const MAX_KEY_BYTES: usize = 256;
/// Longest message text, in bytes.
pub const MAX_TEXT_BYTES: usize = 16384;
/// Longest resource kind or encoding name, in bytes.
pub const MAX_LABEL_BYTES: usize = 32;

/// The capability map a HELLO advertises: every capability, as `true`.
pub open spec fn all_capabilities() -> Seq<(Cbor, Cbor)> {
    seq![
        (Cbor::Integer(CAP_RESOURCE_ENVELOPE), Cbor::Bool(true)),
        (Cbor::Integer(CAP_ACTION), Cbor::Bool(true)),
        (Cbor::Integer(CAP_DIRECT_NOTICE), Cbor::Bool(true)),
        (Cbor::Integer(CAP_ROOM_STATE), Cbor::Bool(true)),
        (Cbor::Integer(CAP_USER_LIST), Cbor::Bool(true)),
    ]
}

/// The body of a HELLO: the capability map under [`B_HELLO_CAPS`].
pub open spec fn hello_body() -> Cbor {
    Cbor::Table(seq![(Cbor::Integer(B_HELLO_CAPS), Cbor::Table(all_capabilities()))])
}

/// A HELLO built on the header `h`: its body, and the nickname exactly as
/// given when it is valid text of at most [`MAX_NICK_BYTES`] bytes.
pub open spec fn hello_fields(h: Seq<(i128, Cbor)>, nick: Option<Seq<char>>) -> Seq<(i128, Cbor)> {
    let b = field_insert(h, K_BODY, hello_body());
    match nick {
        Some(n) => if is_valid_text(n, MAX_NICK_BYTES as nat) {
            field_insert(b, K_NICK, Cbor::Text(n))
        } else {
            b
        },
        None => b,
    }
}

/// A JOIN built on the header `h` for the normalized room `room`, with the key
/// as given when it is valid text of at most [`MAX_KEY_BYTES`] bytes.
pub open spec fn join_fields(h: Seq<(i128, Cbor)>, room: Seq<char>, key: Option<Seq<char>>) -> Seq<
    (i128, Cbor),
> {
    let r = field_insert(h, K_ROOM, Cbor::Text(room));
    match key {
        Some(k) => if is_valid_text(k, MAX_KEY_BYTES as nat) {
            field_insert(r, K_BODY, Cbor::Text(k))
        } else {
            r
        },
        None => r,
    }
}

/// A message built on the header `h`: the room, when there is one, and the text.
pub open spec fn message_fields(h: Seq<(i128, Cbor)>, room: Option<Seq<char>>, body: Seq<char>) -> Seq<
    (i128, Cbor),
> {
    let r = match room {
        Some(name) => field_insert(h, K_ROOM, Cbor::Text(name)),
        None => h,
    };
    field_insert(r, K_BODY, Cbor::Text(body))
}

/// Whether `c` is a command: it starts with `/`.
pub open spec fn is_command(c: Seq<char>) -> bool {
    c.len() > 0 && c[0] == '/'
}

/// The body of a RESOURCE announcement.
pub open spec fn resource_table(
    id: Seq<u8>,
    kind: Seq<char>,
    size: int,
    digest: Seq<u8>,
    encoding: Option<Seq<char>>,
) -> Cbor {
    Cbor::Table(
        seq![
            (Cbor::Integer(B_RES_ID), Cbor::Bytes(id)),
            (Cbor::Integer(B_RES_KIND), Cbor::Text(kind)),
            (Cbor::Integer(B_RES_SIZE), Cbor::Integer(size as i128)),
            (Cbor::Integer(B_RES_SHA256), Cbor::Bytes(digest)),
        ] + match encoding {
            Some(enc) => seq![(Cbor::Integer(B_RES_ENCODING), Cbor::Text(enc))],
            None => Seq::empty(),
        },
    )
}

/// Whether the arguments of [`Envelope::resource`] are acceptable: a valid
/// kind, a valid encoding if any, some data, and a valid room if any.
pub open spec fn resource_accepted(
    room: Option<Seq<char>>,
    kind: Seq<char>,
    data: Seq<u8>,
    encoding: Option<Seq<char>>,
) -> bool {
    &&& is_valid_text(kind, MAX_LABEL_BYTES as nat)
    &&& (encoding matches Some(e) ==> is_valid_text(e, MAX_LABEL_BYTES as nat))
    &&& data.len() > 0
    &&& (room matches Some(r) ==> room_spec(r, MAX_ROOM_BYTES as nat) is Some)
}

/// The normalized room of an optional room argument.
pub open spec fn optional_room(room: Option<Seq<char>>) -> Option<Seq<char>> {
    match room {
        Some(r) => room_spec(r, MAX_ROOM_BYTES as nat),
        None => None,
    }
}

/// The identifier and timestamp of a fresh header.
proof fn header_parts(h: Seq<(i128, Cbor)>, mt: u64, src: Seq<u8>) -> (r: (Seq<u8>, i128))
    requires
        is_header(h, mt, src),
    ensures
        r.0.len() == 8,
        0 <= r.1,
        h == header(mt, src, r.0, r.1),
{
    choose|id: Seq<u8>, ts: i128|
        id.len() == 8 && 0 <= ts <= fresh::millis_limit() && h == #[trigger] header(mt, src, id, ts)
}

fn text_item(s: &str) -> (r: Item)
    ensures
        r@ == Cbor::Text(s@),
{
    Item::Text(s.to_owned())
}

impl Envelope {
    /// A HELLO from `source` advertising every capability, with the nickname
    /// when it is valid text.
    pub fn hello(source: &[u8; 16], nick: Option<&str>) -> (r: Envelope)
        ensures
            exists|h: Seq<(i128, Cbor)>|
                is_header(h, T_HELLO, source@) && r@ == hello_fields(h, str_view(nick)),
            validation(r@) is Ok,
    {
        let mut envelope = Envelope::new(T_HELLO, source.as_slice());
        let ghost h = envelope@;
        let mut caps: Vec<(Item, Item)> = Vec::new();
        caps.push((Item::Integer(CAP_RESOURCE_ENVELOPE), Item::Bool(true)));
        caps.push((Item::Integer(CAP_ACTION), Item::Bool(true)));
        caps.push((Item::Integer(CAP_DIRECT_NOTICE), Item::Bool(true)));
        caps.push((Item::Integer(CAP_ROOM_STATE), Item::Bool(true)));
        caps.push((Item::Integer(CAP_USER_LIST), Item::Bool(true)));
        let caps = Item::Table(ItemMap { entries: caps });
        let mut body: Vec<(Item, Item)> = Vec::new();
        body.push((Item::Integer(B_HELLO_CAPS), caps));
        let body = Item::Table(ItemMap { entries: body });
        proof {
            value::lemma_entries_view_index(caps->Table_0.entries@);
            assert(caps@ == Cbor::Table(all_capabilities())) by {
                assert(value::entries_view(caps->Table_0.entries@) =~= all_capabilities());
            }
            value::lemma_entries_view_index(body->Table_0.entries@);
            assert(body@ == hello_body()) by {
                assert(value::entries_view(body->Table_0.entries@) =~= hello_body()->Table_0);
            }
        }
        envelope.set(K_BODY, body);
        let ghost b = envelope@;
        assert(b == field_insert(h, K_BODY, hello_body()));
        match nick {
            Some(n) => if names::valid_text(n, MAX_NICK_BYTES) {
                envelope.set(K_NICK, text_item(n));
                assert(envelope@ == hello_fields(h, str_view(nick)));
            } else {
                assert(envelope@ == hello_fields(h, str_view(nick)));
            },
            None => {
                assert(envelope@ == hello_fields(h, str_view(nick)));
            },
        }
        assert(is_header(h, T_HELLO, source@));
        proof {
            let (id, ts) = header_parts(h, T_HELLO, source@);
            law_built_envelopes_validate(T_HELLO, source@, id, ts, Seq::empty(), str_view(nick), Seq::empty(), Cbor::Null);
        }
        envelope
    }

    /// A JOIN of `room`, or `None` when the room name is not acceptable.
    pub fn join(source: &[u8; 16], room: &str, key_value: Option<&str>) -> (r: Option<Envelope>)
        ensures
            r is Some <==> room_spec(room@, MAX_ROOM_BYTES as nat) is Some,
            r matches Some(e) ==> exists|h: Seq<(i128, Cbor)>|
                is_header(h, T_JOIN, source@) && e@ == join_fields(
                    h,
                    room_spec(room@, MAX_ROOM_BYTES as nat)->Some_0,
                    str_view(key_value),
                ),
            r matches Some(e) ==> validation(e@) is Ok,
    {
        let name = match names::normalize_room(room, MAX_ROOM_BYTES) {
            Some(r) => r,
            None => {
                return None;
            },
        };
        let mut envelope = Envelope::new(T_JOIN, source.as_slice());
        let ghost h = envelope@;
        let ghost rname = name@;
        envelope.set(K_ROOM, Item::Text(name));
        assert(envelope@ == field_insert(h, K_ROOM, Cbor::Text(rname)));
        match key_value {
            Some(k) => if names::valid_text(k, MAX_KEY_BYTES) {
                envelope.set(K_BODY, text_item(k));
                assert(envelope@ == join_fields(h, rname, str_view(key_value)));
            } else {
                assert(envelope@ == join_fields(h, rname, str_view(key_value)));
            },
            None => {
                assert(envelope@ == join_fields(h, rname, str_view(key_value)));
            },
        }
        assert(is_header(h, T_JOIN, source@));
        proof {
            let (id, ts) = header_parts(h, T_JOIN, source@);
            law_built_envelopes_validate(T_JOIN, source@, id, ts, rname, str_view(key_value), Seq::empty(), Cbor::Null);
        }
        Some(envelope)
    }

    /// A PART of `room`, or `None` when the room name is not acceptable.
    pub fn part(source: &[u8; 16], room: &str) -> (r: Option<Envelope>)
        ensures
            r is Some <==> room_spec(room@, MAX_ROOM_BYTES as nat) is Some,
            r matches Some(e) ==> exists|h: Seq<(i128, Cbor)>|
                is_header(h, T_PART, source@) && e@ == field_insert(
                    h,
                    K_ROOM,
                    Cbor::Text(room_spec(room@, MAX_ROOM_BYTES as nat)->Some_0),
                ),
            r matches Some(e) ==> validation(e@) is Ok,
    {
        let room = match names::normalize_room(room, MAX_ROOM_BYTES) {
            Some(r) => r,
            None => {
                return None;
            },
        };
        let mut envelope = Envelope::new(T_PART, source.as_slice());
        let ghost h = envelope@;
        let ghost rname = room@;
        envelope.set(K_ROOM, Item::Text(room));
        proof {
            let (id, ts) = header_parts(h, T_PART, source@);
            law_built_envelopes_validate(T_PART, source@, id, ts, rname, None, Seq::empty(), Cbor::Null);
        }
        Some(envelope)
    }

    /// A MSG (or, with `action`, an ACTION) of `text` to `room`, or `None`
    /// when the room name or the text is not acceptable.
    pub fn message(source: &[u8; 16], room: &str, text: &str, action: bool) -> (r: Option<Envelope>)
        ensures
            r is Some <==> (room_spec(room@, MAX_ROOM_BYTES as nat) is Some && is_valid_text(
                text@,
                MAX_TEXT_BYTES as nat,
            )),
            r matches Some(e) ==> exists|h: Seq<(i128, Cbor)>|
                is_header(h, if action { T_ACTION } else { T_MSG }, source@) && e@ == message_fields(
                    h,
                    room_spec(room@, MAX_ROOM_BYTES as nat),
                    text@,
                ),
            r matches Some(e) ==> validation(e@) is Ok,
    {
        let name = match names::normalize_room(room, MAX_ROOM_BYTES) {
            Some(r) => r,
            None => {
                return None;
            },
        };
        if !names::valid_text(text, MAX_TEXT_BYTES) {
            return None;
        }
        let mut envelope = Envelope::new(
            if action {
                T_ACTION
            } else {
                T_MSG
            },
            source.as_slice(),
        );
        let ghost h = envelope@;
        envelope.set(K_ROOM, Item::Text(name));
        envelope.set(K_BODY, text_item(text));
        assert(envelope@ == message_fields(h, room_spec(room@, MAX_ROOM_BYTES as nat), text@));
        assert(is_header(h, if action { T_ACTION } else { T_MSG }, source@));
        proof {
            let mt = if action { T_ACTION } else { T_MSG };
            let (id, ts) = header_parts(h, mt, source@);
            law_built_envelopes_validate(mt, source@, id, ts, room_spec(room@, MAX_ROOM_BYTES as nat)->Some_0, None, text@, Cbor::Null);
        }
        Some(envelope)
    }

    /// A command (text starting with `/`) sent as a MSG, to `room` when one is
    /// given; `None` when the command or the room is not acceptable.
    pub fn command(source: &[u8; 16], room: Option<&str>, command: &str) -> (r: Option<Envelope>)
        ensures
            r is Some <==> (is_command(command@) && is_valid_text(command@, MAX_TEXT_BYTES as nat)
                && (str_view(room) matches Some(name) ==> room_spec(name, MAX_ROOM_BYTES as nat) is Some)),
            r matches Some(e) ==> exists|h: Seq<(i128, Cbor)>|
                is_header(h, T_MSG, source@) && e@ == message_fields(
                    h,
                    optional_room(str_view(room)),
                    command@,
                ),
            r matches Some(e) ==> validation(e@) is Ok,
    {
        let cs = text::chars_of(command);
        if cs.len() == 0 || cs[0] != '/' || !names::valid_text(command, MAX_TEXT_BYTES) {
            return None;
        }
        let room = match room {
            Some(value) => match names::normalize_room(value, MAX_ROOM_BYTES) {
                Some(r) => Some(r),
                None => {
                    return None;
                },
            },
            None => None,
        };
        let mut envelope = Envelope::new(T_MSG, source.as_slice());
        let ghost h = envelope@;
        let ghost rv = envelope::string_view(room);
        match room {
            Some(r) => {
                envelope.set(K_ROOM, Item::Text(r));
            },
            None => {},
        }
        envelope.set(K_BODY, text_item(command));
        proof {
            let (id, ts) = header_parts(h, T_MSG, source@);
            let name = match rv {
                Some(n) => n,
                None => Seq::empty(),
            };
            law_built_envelopes_validate(T_MSG, source@, id, ts, name, None, command@, Cbor::Null);
            assert(envelope@ == message_fields(h, rv, command@));
        }
        Some(envelope)
    }

    /// A PONG answering `ping`, echoing its body when it has one.
    pub fn pong(source: &[u8; 16], ping: &Envelope) -> (r: Envelope)
        ensures
            exists|h: Seq<(i128, Cbor)>|
                is_header(h, T_PONG, source@) && r@ == match ping.entry(K_BODY) {
                    Some(b) => field_insert(h, K_BODY, b),
                    None => h,
                },
            validation(r@) is Ok,
    {
        let mut envelope = Envelope::new(T_PONG, source.as_slice());
        let ghost h = envelope@;
        proof {
            let (id, ts) = header_parts(h, T_PONG, source@);
            let b = match ping.entry(K_BODY) {
                Some(b) => b,
                None => Cbor::Null,
            };
            law_built_envelopes_validate(T_PONG, source@, id, ts, Seq::empty(), None, Seq::empty(), b);
        }
        match ping.get(K_BODY) {
            Some(body) => {
                envelope.set(K_BODY, body.deep_copy());
            },
            None => {},
        }
        envelope
    }

    /// A PING carrying `nonce`.
    pub fn ping(source: &[u8; 16], nonce: u64) -> (r: Envelope)
        ensures
            exists|h: Seq<(i128, Cbor)>|
                is_header(h, T_PING, source@) && r@ == field_insert(
                    h,
                    K_BODY,
                    Cbor::Integer(nonce as i128),
                ),
            validation(r@) is Ok,
    {
        let mut envelope = Envelope::new(T_PING, source.as_slice());
        let ghost h = envelope@;
        proof {
            let (id, ts) = header_parts(h, T_PING, source@);
            law_built_envelopes_validate(T_PING, source@, id, ts, Seq::empty(), None, Seq::empty(), Cbor::Integer(nonce as i128));
        }
        envelope.set(K_BODY, Item::Integer(nonce as i128));
        envelope
    }

    /// A RESOURCE announcement of `data`: a random 8-byte resource id, the
    /// kind, the size and SHA-256 digest of the data, and the encoding when
    /// given; `None` when the arguments are not acceptable.
    pub fn resource(
        source: &[u8; 16],
        room: Option<&str>,
        kind: &str,
        data: &[u8],
        encoding: Option<&str>,
    ) -> (r: Option<Envelope>)
        ensures
            r is Some <==> resource_accepted(str_view(room), kind@, data@, str_view(encoding)),
            r matches Some(e) ==> exists|h: Seq<(i128, Cbor)>, rid: Seq<u8>|
                is_header(h, T_RESOURCE_ENVELOPE, source@) && rid.len() == 8 && e@
                    == #[trigger] resource_fields(
                    h,
                    optional_room(str_view(room)),
                    resource_table(
                        rid,
                        kind@,
                        data@.len() as int,
                        digest::sha256(data@),
                        str_view(encoding),
                    ),
                ),
            r is Some ==> digest::sha256(data@).len() == 32,
            r matches Some(e) ==> validation(e@) is Ok,
    {
        if !names::valid_text(kind, MAX_LABEL_BYTES) {
            return None;
        }
        match encoding {
            Some(e) => if !names::valid_text(e, MAX_LABEL_BYTES) {
                return None;
            },
            None => {},
        }
        if data.len() == 0 {
            return None;
        }
        let norm_room = match room {
            Some(value) => match names::normalize_room(value, MAX_ROOM_BYTES) {
                Some(r) => Some(r),
                None => {
                    return None;
                },
            },
            None => None,
        };
        let rid = fresh::random_id();
        let digest = digest::sha256_digest(data);
        let mut entries: Vec<(Item, Item)> = Vec::new();
        entries.push((Item::Integer(B_RES_ID), Item::Bytes(rid)));
        entries.push((Item::Integer(B_RES_KIND), text_item(kind)));
        entries.push((Item::Integer(B_RES_SIZE), Item::Integer(data.len() as i128)));
        entries.push((Item::Integer(B_RES_SHA256), Item::Bytes(digest)));
        match encoding {
            Some(e) => {
                entries.push((Item::Integer(B_RES_ENCODING), text_item(e)));
            },
            None => {},
        }
        let body = Item::Table(ItemMap { entries });
        proof {
            value::lemma_entries_view_index(entries@);
            let expected = resource_table(
                entries@[0].1@->Bytes_0,
                kind@,
                data@.len() as int,
                digest::sha256(data@),
                str_view(encoding),
            );
            assert(body@ == expected) by {
                assert(value::entries_view(entries@) =~= expected->Table_0);
            }
        }
        let mut envelope = Envelope::new(T_RESOURCE_ENVELOPE, source.as_slice());
        let ghost h = envelope@;
        match norm_room {
            Some(r) => {
                envelope.set(K_ROOM, Item::Text(r));
            },
            None => {},
        }
        envelope.set(K_BODY, body);
        proof {
            assert(envelope@ == resource_fields(
                h,
                optional_room(str_view(room)),
                body@,
            ));
            let (id, ts) = header_parts(h, T_RESOURCE_ENVELOPE, source@);
            let name = match optional_room(str_view(room)) {
                Some(n) => n,
                None => Seq::empty(),
            };
            law_built_envelopes_validate(T_RESOURCE_ENVELOPE, source@, id, ts, name, None, Seq::empty(), body@);
        }
        Some(envelope)
    }
}

/// A RESOURCE announcement built on the header `h`: the room, when there is
/// one, and the body.
pub open spec fn resource_fields(h: Seq<(i128, Cbor)>, room: Option<Seq<char>>, body: Cbor) -> Seq<
    (i128, Cbor),
> {
    let r = match room {
        Some(name) => field_insert(h, K_ROOM, Cbor::Text(name)),
        None => h,
    };
    field_insert(r, K_BODY, body)
}


/// A header is valid exactly when its timestamp is not negative.
pub proof fn law_header_validation(mt: u64, src: Seq<u8>, id: Seq<u8>, ts: i128)
    ensures
        ts >= 0 ==> validation(header(mt, src, id, ts)) == Ok::<(), EnvelopeError>(()),
        ts < 0 ==> validation(header(mt, src, id, ts)) == Err::<(), EnvelopeError>(
            EnvelopeError::TimestampNotUnsigned,
        ),
{
    let h = header(mt, src, id, ts);
    reveal_with_fuel(envelope::field_of, 7);
    assert(envelope::field_of(h, K_V) == Some(Cbor::Integer(1)));
    assert(envelope::field_of(h, K_T) == Some(Cbor::Integer(mt as i128)));
    assert(envelope::field_of(h, K_ID) == Some(Cbor::Bytes(id)));
    assert(envelope::field_of(h, K_TS) == Some(Cbor::Integer(ts)));
    assert(envelope::field_of(h, K_SRC) == Some(Cbor::Bytes(src)));
    assert(envelope::field_of(h, K_ROOM) is None);
    assert(envelope::field_of(h, K_NICK) is None);
    assert(envelope::field_of(h, K_DST) is None);
    assert(!exists|i: int| 0 <= i < h.len() && (#[trigger] h[i]).0 < 0);
}

/// Storing a type-correct item under a key other than a header key keeps a
/// valid envelope valid: a room or nickname must be text, a destination bytes.
pub proof fn law_set_keeps_valid(s: Seq<(i128, Cbor)>, k: i128, v: Cbor)
    requires
        envelope::ascending(s),
        validation(s) is Ok,
        k >= 0,
        k != K_V && k != K_T && k != K_ID && k != K_TS && k != K_SRC,
        k == K_ROOM ==> v is Text,
        k == K_NICK ==> v is Text,
        k == K_DST ==> v is Bytes,
    ensures
        validation(field_insert(s, k, v)) == Ok::<(), EnvelopeError>(()),
{
    let t = field_insert(s, k, v);
    envelope::lemma_field_insert(s, k, v, K_V);
    envelope::lemma_field_insert(s, k, v, K_T);
    envelope::lemma_field_insert(s, k, v, K_ID);
    envelope::lemma_field_insert(s, k, v, K_TS);
    envelope::lemma_field_insert(s, k, v, K_SRC);
    envelope::lemma_field_insert(s, k, v, K_ROOM);
    envelope::lemma_field_insert(s, k, v, K_NICK);
    envelope::lemma_field_insert(s, k, v, K_DST);
    assert(!exists|i: int| 0 <= i < t.len() && (#[trigger] t[i]).0 < 0) by {
        assert forall|i: int| 0 <= i < t.len() implies (#[trigger] t[i]).0 >= 0 by {
            if t[i].0 != k {
                let j = choose|j: int| 0 <= j < s.len() && s[j].0 == t[i].0;
                assert(!(s[j].0 < 0));
            }
        }
    }
}

/// Every envelope these builders make is valid when its timestamp is not
/// negative: the header is valid and each builder only adds a body and
/// type-correct room and nickname fields.
pub proof fn law_built_envelopes_validate(
    mt: u64,
    src: Seq<u8>,
    id: Seq<u8>,
    ts: i128,
    room: Seq<char>,
    text: Option<Seq<char>>,
    words: Seq<char>,
    body: Cbor,
)
    requires
        ts >= 0,
    ensures
        validation(header(mt, src, id, ts)) is Ok,
        validation(hello_fields(header(mt, src, id, ts), text)) is Ok,
        validation(join_fields(header(mt, src, id, ts), room, text)) is Ok,
        validation(field_insert(header(mt, src, id, ts), K_ROOM, Cbor::Text(room))) is Ok,
        validation(message_fields(header(mt, src, id, ts), Some(room), words)) is Ok,
        validation(message_fields(header(mt, src, id, ts), None, words)) is Ok,
        validation(field_insert(header(mt, src, id, ts), K_BODY, body)) is Ok,
        validation(resource_fields(header(mt, src, id, ts), Some(room), body)) is Ok,
        validation(resource_fields(header(mt, src, id, ts), None, body)) is Ok,
{
    let h = header(mt, src, id, ts);
    law_header_validation(mt, src, id, ts);
    assert(envelope::ascending(h));
    envelope::lemma_field_insert(h, K_BODY, hello_body(), K_BODY);
    envelope::lemma_field_insert(h, K_BODY, body, K_BODY);
    envelope::lemma_field_insert(h, K_ROOM, Cbor::Text(room), K_ROOM);
    law_set_keeps_valid(h, K_BODY, hello_body());
    law_set_keeps_valid(h, K_BODY, body);
    law_set_keeps_valid(h, K_ROOM, Cbor::Text(room));
    let hb = field_insert(h, K_BODY, hello_body());
    let hr = field_insert(h, K_ROOM, Cbor::Text(room));
    match text {
        Some(n) => {
            law_set_keeps_valid(hb, K_NICK, Cbor::Text(n));
            law_set_keeps_valid(hr, K_BODY, Cbor::Text(n));
        },
        None => {},
    }
    law_set_keeps_valid(hr, K_BODY, Cbor::Text(words));
    law_set_keeps_valid(h, K_BODY, Cbor::Text(words));
    law_set_keeps_valid(hr, K_BODY, body);
}


/// Reading the descriptor of a built RESOURCE announcement gives back the
/// resource id, kind, size, digest and encoding it was built with.
pub proof fn law_resource_descriptor_round_trip(
    h: Seq<(i128, Cbor)>,
    src: Seq<u8>,
    room: Option<Seq<char>>,
    rid: Seq<u8>,
    kind: Seq<char>,
    size: int,
    digest: Seq<u8>,
    encoding: Option<Seq<char>>,
)
    requires
        is_header(h, T_RESOURCE_ENVELOPE, src),
        rid.len() > 0,
        kind.len() > 0,
        0 <= size <= usize::MAX,
        digest.len() == 32,
    ensures
        records::resource_spec(
            resource_fields(h, room, resource_table(rid, kind, size, digest, encoding)),
        ) == Some(
            ResourceView {
                id: rid,
                kind,
                size: size as usize,
                sha256: Some(digest),
                encoding,
            },
        ),
{
    let body = resource_table(rid, kind, size, digest, encoding);
    let (id, ts) = choose|id: Seq<u8>, ts: i128|
        id.len() == 8 && h == #[trigger] header(T_RESOURCE_ENVELOPE, src, id, ts);
    reveal_with_fuel(envelope::field_of, 7);
    assert(envelope::ascending(h));
    assert(envelope::field_of(h, K_T) == Some(Cbor::Integer(T_RESOURCE_ENVELOPE as i128)));
    let r = match room {
        Some(name) => field_insert(h, K_ROOM, Cbor::Text(name)),
        None => h,
    };
    match room {
        Some(name) => {
            envelope::lemma_field_insert(h, K_ROOM, Cbor::Text(name), K_T);
        },
        None => {},
    }
    assert(envelope::ascending(r));
    envelope::lemma_field_insert(r, K_BODY, body, K_T);
    envelope::lemma_field_insert(r, K_BODY, body, K_BODY);
    let m = body->Table_0;
    reveal_with_fuel(value::lookup, 6);
    assert(value::lookup(m, B_RES_ID) == Some(Cbor::Bytes(rid)));
    assert(value::lookup(m, B_RES_KIND) == Some(Cbor::Text(kind)));
    assert(value::lookup(m, B_RES_SIZE) == Some(Cbor::Integer(size as i128)));
    assert(value::lookup(m, B_RES_SHA256) == Some(Cbor::Bytes(digest)));
    match encoding {
        Some(e) => {
            assert(value::lookup(m, B_RES_ENCODING) == Some(Cbor::Text(e)));
        },
        None => {
            assert(value::lookup(m, B_RES_ENCODING) is None);
        },
    }
}

/// The HELLO body, and every RESOURCE body whose size CBOR carries, are plain
/// items.
pub proof fn law_builder_bodies_plain(
    rid: Seq<u8>,
    kind: Seq<char>,
    size: int,
    digest: Seq<u8>,
    encoding: Option<Seq<char>>,
)
    requires
        0 <= size <= u64::MAX,
    ensures
        cbor::plain_within(hello_body(), 126),
        cbor::plain_within(resource_table(rid, kind, size, digest, encoding), 126),
{
    let caps = all_capabilities();
    assert forall|i: int| 0 <= i < caps.len() implies (#[trigger] caps[i]).0 is Integer
        && cbor::cbor_integer_range(caps[i].0->Integer_0) && cbor::plain_within(caps[i].1, 124) by {
        assert(caps[i].1 == Cbor::Bool(true));
    }
    assert forall|i: int, j: int| 0 <= i < j < caps.len() implies value::key_order(
        (#[trigger] caps[i]).0->Integer_0,
        (#[trigger] caps[j]).0->Integer_0,
    ) by {
        assert(caps[i].0 == Cbor::Integer(i as i128) && caps[j].0 == Cbor::Integer(j as i128));
    }
    cbor::law_ordered_table_plain(caps, 125);
    let hb = seq![(Cbor::Integer(B_HELLO_CAPS), Cbor::Table(caps))];
    assert(hb[0].1 == Cbor::Table(caps));
    cbor::law_ordered_table_plain(hb, 126);
    assert(hello_body() == Cbor::Table(hb));
    let m = resource_table(rid, kind, size, digest, encoding)->Table_0;
    assert forall|i: int| 0 <= i < m.len() implies (#[trigger] m[i]).0 is Integer
        && cbor::cbor_integer_range(m[i].0->Integer_0) && cbor::plain_within(m[i].1, 125) by {
        if i == 2 {
            assert(m[i].1 == Cbor::Integer(size as i128));
        }
    }
    assert forall|i: int, j: int| 0 <= i < j < m.len() implies value::key_order(
        (#[trigger] m[i]).0->Integer_0,
        (#[trigger] m[j]).0->Integer_0,
    ) by {
        assert(m[i].0 == Cbor::Integer(i as i128) && m[j].0 == Cbor::Integer(j as i128));
    }
    cbor::law_ordered_table_plain(m, 126);
}

/// Every envelope these builders make is plain when its timestamp is an
/// unsigned 64-bit integer and the body it carries is plain; with
/// [`law_built_envelopes_validate`], [`Envelope::encode`] then encodes it
/// without error into bytes that decode to the same envelope.
pub proof fn law_built_envelopes_are_plain(
    mt: u64,
    src: Seq<u8>,
    id: Seq<u8>,
    ts: i128,
    room: Seq<char>,
    text: Option<Seq<char>>,
    words: Seq<char>,
    body: Cbor,
)
    requires
        0 <= ts <= u64::MAX,
        cbor::plain_within(body, 126),
    ensures
        cbor::plain(envelope::envelope_table(hello_fields(header(mt, src, id, ts), text))),
        cbor::plain(envelope::envelope_table(join_fields(header(mt, src, id, ts), room, text))),
        cbor::plain(
            envelope::envelope_table(field_insert(header(mt, src, id, ts), K_ROOM, Cbor::Text(room))),
        ),
        cbor::plain(envelope::envelope_table(message_fields(header(mt, src, id, ts), Some(room), words))),
        cbor::plain(envelope::envelope_table(message_fields(header(mt, src, id, ts), None, words))),
        cbor::plain(envelope::envelope_table(field_insert(header(mt, src, id, ts), K_BODY, body))),
        cbor::plain(envelope::envelope_table(resource_fields(header(mt, src, id, ts), Some(room), body))),
        cbor::plain(envelope::envelope_table(resource_fields(header(mt, src, id, ts), None, body))),
{
    let h = header(mt, src, id, ts);
    envelope::lemma_header_plain(mt, src, id, ts);
    law_builder_bodies_plain(Seq::empty(), Seq::empty(), 0, Seq::empty(), None);
    let hb = field_insert(h, K_BODY, hello_body());
    let hr = field_insert(h, K_ROOM, Cbor::Text(room));
    let hw = field_insert(h, K_BODY, Cbor::Text(words));
    let hx = field_insert(h, K_BODY, body);
    let hrw = field_insert(hr, K_BODY, Cbor::Text(words));
    let hrx = field_insert(hr, K_BODY, body);
    envelope::lemma_field_insert(h, K_BODY, hello_body(), K_BODY);
    envelope::lemma_field_insert(h, K_ROOM, Cbor::Text(room), K_ROOM);
    envelope::lemma_field_insert(h, K_BODY, Cbor::Text(words), K_BODY);
    envelope::lemma_field_insert(h, K_BODY, body, K_BODY);
    envelope::lemma_field_insert(hr, K_BODY, Cbor::Text(words), K_BODY);
    envelope::lemma_field_insert(hr, K_BODY, body, K_BODY);
    envelope::law_set_keeps_plain(h, K_BODY, hello_body());
    envelope::law_set_keeps_plain(h, K_ROOM, Cbor::Text(room));
    envelope::law_set_keeps_plain(h, K_BODY, Cbor::Text(words));
    envelope::law_set_keeps_plain(h, K_BODY, body);
    envelope::law_set_keeps_plain(hr, K_BODY, Cbor::Text(words));
    envelope::law_set_keeps_plain(hr, K_BODY, body);
    envelope::lemma_plain_table(hb);
    envelope::lemma_plain_table(hr);
    envelope::lemma_plain_table(hw);
    envelope::lemma_plain_table(hx);
    envelope::lemma_plain_table(hrw);
    envelope::lemma_plain_table(hrx);
    match text {
        Some(n) => {
            envelope::lemma_field_insert(hb, K_NICK, Cbor::Text(n), K_NICK);
            envelope::lemma_field_insert(hr, K_BODY, Cbor::Text(n), K_BODY);
            envelope::law_set_keeps_plain(hb, K_NICK, Cbor::Text(n));
            envelope::law_set_keeps_plain(hr, K_BODY, Cbor::Text(n));
            envelope::lemma_plain_table(field_insert(hb, K_NICK, Cbor::Text(n)));
            envelope::lemma_plain_table(field_insert(hr, K_BODY, Cbor::Text(n)));
        },
        None => {},
    }
}

/// A HELLO's body advertises, under the capability key, every capability id
/// (0 resource envelope, 1 action, 2 direct notice, 3 room state, 4 user list)
/// as an explicit `true`.
pub proof fn law_hello_advertises_every_capability(k: i128)
    requires
        0 <= k <= 4,
    ensures
        hello_body() is Table,
        value::lookup(hello_body()->Table_0, B_HELLO_CAPS) is Some,
        value::lookup(hello_body()->Table_0, B_HELLO_CAPS)->Some_0 is Table,
        value::lookup(value::lookup(hello_body()->Table_0, B_HELLO_CAPS)->Some_0->Table_0, k)
            == Some(Cbor::Bool(true)),
{
    reveal_with_fuel(value::lookup, 6);
}

} // verus!
