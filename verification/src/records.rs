//! Typed records carried in envelope bodies and extension fields: the
//! WELCOME capabilities and limits, resource descriptors, room state and
//! user lists, and the notice records parsed from text.

use crate::constants::{
    B_RES_ENCODING, B_RES_ID, B_RES_KIND, B_RES_SHA256, B_RES_SIZE, B_WELCOME_CAPS, B_WELCOME_HUB,
    B_WELCOME_LIMITS, B_WELCOME_VER, CAP_ACTION, CAP_DIRECT_NOTICE, CAP_RESOURCE_ENVELOPE,
    CAP_ROOM_STATE, CAP_USER_LIST, K_BODY, K_T, T_RESOURCE_ENVELOPE, T_WELCOME, B_ROOM_MODES, B_ROOM_REGISTERED, B_ROOM_TOPIC, B_USER_IDENTITY, B_USER_NICK, B_USER_OPERATOR,
    B_USER_VOICED, K_ROOM_STATE, K_USER_LIST,
};
use crate::cbor;
use crate::envelope::{self, string_view, text_of, Envelope};
use crate::text;
use crate::value::{self, Cbor, Item, ItemMap};
use vstd::prelude::*;

verus! {

/// A resource announced by a RESOURCE envelope.
#[derive(Clone, Debug, PartialEq, Eq)]
pub struct ResourceDescriptor {
    pub id: Vec<u8>,
    pub kind: String,
    pub size: usize,
    pub sha256: Option<[u8; 32]>,
    pub encoding: Option<String>,
}

/// The view of a [`ResourceDescriptor`].
pub struct ResourceView {
    pub id: Seq<u8>,
    pub kind: Seq<char>,
    pub size: usize,
    pub sha256: Option<Seq<u8>>,
    pub encoding: Option<Seq<char>>,
}

impl View for ResourceDescriptor {
    type V = ResourceView;

    open spec fn view(&self) -> ResourceView {
        ResourceView {
            id: self.id@,
            kind: self.kind@,
            size: self.size,
            sha256: match self.sha256 {
                Some(d) => Some(d@),
                None => None,
            },
            encoding: string_view(self.encoding),
        }
    }
}

/// Optional features a peer advertises; an absent entry means `false`.
#[derive(Clone, Copy, Debug, PartialEq, Eq)]
pub struct Capabilities {
    pub resource_envelope: bool,
    pub action: bool,
    pub direct_notice: bool,
    pub room_state: bool,
    pub user_list: bool,
}

impl Default for Capabilities {
    fn default() -> (r: Self)
        ensures
            r == (Capabilities {
                resource_envelope: false,
                action: false,
                direct_notice: false,
                room_state: false,
                user_list: false,
            }),
    {
        Capabilities {
            resource_envelope: false,
            action: false,
            direct_notice: false,
            room_state: false,
            user_list: false,
        }
    }
}

/// Limits a hub announces in WELCOME.
#[derive(Clone, Copy, Debug, PartialEq, Eq)]
pub struct Limits {
    pub max_nick_bytes: Option<usize>,
    pub max_room_name_bytes: Option<usize>,
    pub max_message_bytes: Option<usize>,
    pub max_rooms_per_session: Option<usize>,
    pub messages_per_minute: Option<usize>,
}

impl Default for Limits {
    fn default() -> (r: Self)
        ensures
            r == (Limits {
                max_nick_bytes: None,
                max_room_name_bytes: None,
                max_message_bytes: None,
                max_rooms_per_session: None,
                messages_per_minute: None,
            }),
    {
        Limits {
            max_nick_bytes: None,
            max_room_name_bytes: None,
            max_message_bytes: None,
            max_rooms_per_session: None,
            messages_per_minute: None,
        }
    }
}

/// The contents of a WELCOME envelope.
#[derive(Clone, Debug, PartialEq, Eq)]
pub struct Welcome {
    pub hub_name: Option<String>,
    pub version: Option<String>,
    pub capabilities: Capabilities,
    pub limits: Limits,
}

/// The view of a [`Welcome`].
pub struct WelcomeView {
    pub hub_name: Option<Seq<char>>,
    pub version: Option<Seq<char>>,
    pub capabilities: Capabilities,
    pub limits: Limits,
}

impl View for Welcome {
    type V = WelcomeView;

    open spec fn view(&self) -> WelcomeView {
        WelcomeView {
            hub_name: string_view(self.hub_name),
            version: string_view(self.version),
            capabilities: self.capabilities,
            limits: self.limits,
        }
    }
}

impl Default for Welcome {
    fn default() -> (r: Self)
        ensures
            r@ == (WelcomeView {
                hub_name: None,
                version: None,
                capabilities: Capabilities {
                    resource_envelope: false,
                    action: false,
                    direct_notice: false,
                    room_state: false,
                    user_list: false,
                },
                limits: Limits {
                    max_nick_bytes: None,
                    max_room_name_bytes: None,
                    max_message_bytes: None,
                    max_rooms_per_session: None,
                    messages_per_minute: None,
                },
            }),
    {
        Welcome {
            hub_name: None,
            version: None,
            capabilities: Capabilities::default(),
            limits: Limits::default(),
        }
    }
}

/// A public room listed by a LIST notice.
#[derive(Clone, Debug, PartialEq, Eq)]
pub struct RoomInfo {
    pub name: String,
    pub topic: Option<String>,
}

/// The view of a [`RoomInfo`].
pub struct RoomView {
    pub name: Seq<char>,
    pub topic: Option<Seq<char>>,
}

impl View for RoomInfo {
    type V = RoomView;

    open spec fn view(&self) -> RoomView {
        RoomView { name: self.name@, topic: string_view(self.topic) }
    }
}

/// Structured state of a room, carried under `K_ROOM_STATE`.
#[derive(Clone, Debug, PartialEq, Eq)]
pub struct RoomState {
    pub registered: bool,
    pub modes: String,
    pub topic: Option<String>,
}

/// The view of a [`RoomState`].
pub struct RoomStateView {
    pub registered: bool,
    pub modes: Seq<char>,
    pub topic: Option<Seq<char>>,
}

impl View for RoomState {
    type V = RoomStateView;

    open spec fn view(&self) -> RoomStateView {
        RoomStateView {
            registered: self.registered,
            modes: self.modes@,
            topic: string_view(self.topic),
        }
    }
}

impl Default for RoomState {
    fn default() -> (r: Self)
        ensures
            r@ == (RoomStateView { registered: false, modes: Seq::empty(), topic: None }),
    {
        RoomState { registered: false, modes: String::new(), topic: None }
    }
}

/// A member of a room.
#[derive(Clone, Debug, PartialEq, Eq)]
pub struct UserInfo {
    pub nick: Option<String>,
    pub identity: String,
    pub operator: bool,
    pub voiced: bool,
}

/// The view of a [`UserInfo`].
pub struct UserView {
    pub nick: Option<Seq<char>>,
    pub identity: Seq<char>,
    pub operator: bool,
    pub voiced: bool,
}

impl View for UserInfo {
    type V = UserView;

    open spec fn view(&self) -> UserView {
        UserView {
            nick: string_view(self.nick),
            identity: self.identity@,
            operator: self.operator,
            voiced: self.voiced,
        }
    }
}

/// An integer item in the range of `usize`.
pub open spec fn usize_of(o: Option<Cbor>) -> Option<usize> {
    match o {
        Some(Cbor::Integer(i)) => if 0 <= i <= usize::MAX {
            Some(i as usize)
        } else {
            None
        },
        _ => None,
    }
}

/// Whether `o` is the boolean `true`.
pub open spec fn is_true(o: Option<Cbor>) -> bool {
    o == Some(Cbor::Bool(true))
}

/// The item stored in `map` under the integer key `field`.
pub fn map_get(map: &ItemMap, field: i128) -> (r: Option<&Item>)
    ensures
        r matches Some(v) ==> value::lookup(map@, field) == Some(v@),
        r is None ==> value::lookup(map@, field) is None,
{
    map.get(field)
}

/// The text stored in `map` under `field`.
pub(crate) fn map_text(map: &ItemMap, field: i128) -> (r: Option<&str>)
    ensures
        crate::envelope::str_view(r) == text_of(value::lookup(map@, field)),
{
    match map_get(map, field) {
        Some(Item::Text(t)) => Some(t.as_str()),
        _ => None,
    }
}

/// Whether `map` holds `true` under `field`.
pub(crate) fn map_bool(map: &ItemMap, field: i128) -> (b: bool)
    ensures
        b == is_true(value::lookup(map@, field)),
{
    match map_get(map, field) {
        Some(Item::Bool(v)) => *v,
        _ => false,
    }
}

/// The non-negative integer stored in `map` under `field`, if it fits in `usize`.
pub(crate) fn map_usize(map: &ItemMap, field: i128) -> (r: Option<usize>)
    ensures
        r == usize_of(value::lookup(map@, field)),
{
    match map_get(map, field) {
        Some(Item::Integer(v)) => if *v >= 0 && *v <= usize::MAX as i128 {
            Some(*v as usize)
        } else {
            None
        },
        _ => None,
    }
}


/// The mode string reported when a room state carries none.
pub open spec fn no_modes() -> Seq<char> {
    seq!['(', 'n', 'o', 'n', 'e', ')']
}

/// The room state read from the map `m`: `registered` only for an explicit
/// `true`, the modes or [`no_modes`], and the topic if it is text.
pub open spec fn room_state_of(m: Seq<(Cbor, Cbor)>) -> RoomStateView {
    RoomStateView {
        registered: is_true(value::lookup(m, B_ROOM_REGISTERED)),
        modes: match text_of(value::lookup(m, B_ROOM_MODES)) {
            Some(t) => t,
            None => no_modes(),
        },
        topic: text_of(value::lookup(m, B_ROOM_TOPIC)),
    }
}

/// The room state carried by the fields `e`, if the extension is a map.
pub open spec fn room_state_spec(e: Seq<(i128, Cbor)>) -> Option<RoomStateView> {
    match envelope::table_of(envelope::field_of(e, K_ROOM_STATE)) {
        Some(m) => Some(room_state_of(m)),
        None => None,
    }
}

/// The map that carries the room state `s`.
pub open spec fn room_state_table(s: RoomStateView) -> Cbor {
    Cbor::Table(
        seq![
            (Cbor::Integer(B_ROOM_REGISTERED), Cbor::Bool(s.registered)),
            (Cbor::Integer(B_ROOM_MODES), Cbor::Text(s.modes)),
        ] + match s.topic {
            Some(t) => seq![(Cbor::Integer(B_ROOM_TOPIC), Cbor::Text(t))],
            None => Seq::empty(),
        },
    )
}

/// The map that carries the member `u`.
pub open spec fn user_table(u: UserView) -> Cbor {
    Cbor::Table(
        seq![(Cbor::Integer(B_USER_IDENTITY), Cbor::Text(u.identity))] + match u.nick {
            Some(n) => seq![(Cbor::Integer(B_USER_NICK), Cbor::Text(n))],
            None => Seq::empty(),
        } + seq![
            (Cbor::Integer(B_USER_OPERATOR), Cbor::Bool(u.operator)),
            (Cbor::Integer(B_USER_VOICED), Cbor::Bool(u.voiced)),
        ],
    )
}

/// The array that carries the members `us`.
pub open spec fn user_list_item(us: Seq<UserView>) -> Cbor {
    Cbor::Array(us.map_values(|u: UserView| user_table(u)))
}

/// The member read from the item `c`: a map with a text identity, which is
/// lowered to ASCII lower case.
pub open spec fn user_of(c: Cbor) -> Option<UserView> {
    match c {
        Cbor::Table(m) => match text_of(value::lookup(m, B_USER_IDENTITY)) {
            Some(id) => Some(
                UserView {
                    nick: text_of(value::lookup(m, B_USER_NICK)),
                    identity: text::lower(id),
                    operator: is_true(value::lookup(m, B_USER_OPERATOR)),
                    voiced: is_true(value::lookup(m, B_USER_VOICED)),
                },
            ),
            None => None,
        },
        _ => None,
    }
}

/// The members read from `items`, in order, skipping items that are not members.
pub open spec fn users_of(items: Seq<Cbor>) -> Seq<UserView>
    decreases items.len(),
{
    if items.len() == 0 {
        Seq::empty()
    } else {
        let rest = users_of(items.drop_last());
        match user_of(items.last()) {
            Some(u) => rest.push(u),
            None => rest,
        }
    }
}

/// The user list carried by the fields `e`, if the extension is an array.
pub open spec fn user_list_spec(e: Seq<(i128, Cbor)>) -> Option<Seq<UserView>> {
    match envelope::field_of(e, K_USER_LIST) {
        Some(Cbor::Array(items)) => Some(users_of(items)),
        _ => None,
    }
}

/// The views of a sequence of members.
pub open spec fn user_views(us: Seq<UserInfo>) -> Seq<UserView> {
    us.map_values(|u: UserInfo| u@)
}

/// A member with its identity in ASCII lower case.
pub open spec fn lowered(u: UserView) -> UserView {
    UserView { identity: text::lower(u.identity), ..u }
}

fn owned_text(t: Option<&str>) -> (r: Option<String>)
    ensures
        string_view(r) == crate::envelope::str_view(t),
{
    match t {
        Some(t) => Some(t.to_owned()),
        None => None,
    }
}

impl Envelope {
    /// The structured room state, if the extension field is a map.
    pub fn room_state(&self) -> (r: Option<RoomState>)
        ensures
            r matches Some(s) ==> room_state_spec(self@) == Some(s@),
            r is None ==> room_state_spec(self@) is None,
    {
        let body = match self.map(K_ROOM_STATE) {
            Some(m) => m,
            None => {
                return None;
            },
        };
        let registered = map_bool(body, B_ROOM_REGISTERED);
        let modes = match map_text(body, B_ROOM_MODES) {
            Some(t) => t.to_owned(),
            None => {
                let s = "(none)".to_owned();
                proof {
                    reveal_strlit("(none)");
                    assert(s@ =~= no_modes());
                }
                s
            },
        };
        let topic = owned_text(map_text(body, B_ROOM_TOPIC));
        Some(RoomState { registered, modes, topic })
    }

    /// Stores the structured room state ([`room_state_table`]).
    pub fn set_room_state(&mut self, state: &RoomState)
        ensures
            final(self)@ == envelope::field_insert(old(self)@, K_ROOM_STATE, room_state_table(state@)),
    {
        let mut entries: Vec<(Item, Item)> = Vec::new();
        entries.push((Item::Integer(B_ROOM_REGISTERED), Item::Bool(state.registered)));
        entries.push((Item::Integer(B_ROOM_MODES), Item::Text(state.modes.clone())));
        match &state.topic {
            Some(t) => {
                entries.push((Item::Integer(B_ROOM_TOPIC), Item::Text(t.clone())));
            },
            None => {},
        }
        let item = Item::Table(ItemMap { entries });
        proof {
            value::lemma_entries_view_index(entries@);
            let expected = room_state_table(state@);
            assert(item@ =~= expected) by {
                assert(value::entries_view(entries@) =~= expected->Table_0);
            }
        }
        self.set(K_ROOM_STATE, item);
    }

    /// Stores the structured user list ([`user_list_item`]).
    pub fn set_user_list(&mut self, users: &[UserInfo])
        ensures
            final(self)@ == envelope::field_insert(
                old(self)@,
                K_USER_LIST,
                user_list_item(user_views(users@)),
            ),
    {
        let mut items: Vec<Item> = Vec::new();
        let mut i: usize = 0;
        while i < users.len()
            invariant
                i <= users.len(),
                value::values_view(items@) == user_views(users@.take(i as int)).map_values(
                    |u: UserView| user_table(u),
                ),
            decreases users.len() - i,
        {
            let user = &users[i];
            let mut entries: Vec<(Item, Item)> = Vec::new();
            entries.push((Item::Integer(B_USER_IDENTITY), Item::Text(user.identity.clone())));
            match &user.nick {
                Some(n) => {
                    entries.push((Item::Integer(B_USER_NICK), Item::Text(n.clone())));
                },
                None => {},
            }
            entries.push((Item::Integer(B_USER_OPERATOR), Item::Bool(user.operator)));
            entries.push((Item::Integer(B_USER_VOICED), Item::Bool(user.voiced)));
            let entry = Item::Table(ItemMap { entries });
            proof {
                value::lemma_entries_view_index(entries@);
                assert(value::entries_view(entries@) =~= user_table(user@)->Table_0);
                value::lemma_values_view_push(items@.push(entry), items@.len() as int);
                assert(items@.push(entry).take(items@.len() as int) =~= items@);
                assert(items@.push(entry).take(items@.len() as int + 1) =~= items@.push(entry));
                assert(user_views(users@.take(i + 1)).map_values(|u: UserView| user_table(u))
                    =~= user_views(users@.take(i as int)).map_values(|u: UserView| user_table(u)).push(
                    user_table(user@),
                ));
            }
            items.push(entry);
            i = i + 1;
        }
        let item = Item::Array(items);
        assert(users@.take(users@.len() as int) =~= users@);
        self.set(K_USER_LIST, item);
    }

    /// The structured user list, if the extension field is an array; items that
    /// are not maps with a text identity are skipped.
    pub fn user_list(&self) -> (r: Option<Vec<UserInfo>>)
        ensures
            r matches Some(v) ==> user_list_spec(self@) == Some(user_views(v@)),
            r is None ==> user_list_spec(self@) is None,
    {
        let items = match self.get(K_USER_LIST) {
            Some(Item::Array(items)) => items,
            _ => {
                return None;
            },
        };
        let ghost seen = value::values_view(items@);
        proof {
            value::lemma_values_view_index(items@);
        }
        let mut users: Vec<UserInfo> = Vec::new();
        let mut i: usize = 0;
        assert(seen.take(0) =~= Seq::<Cbor>::empty());
        while i < items.len()
            invariant
                i <= items.len(),
                seen == value::values_view(items@),
                seen.len() == items.len(),
                forall|j: int| 0 <= j < seen.len() ==> #[trigger] seen[j] == items@[j]@,
                user_views(users@) == users_of(seen.take(i as int)),
            decreases items.len() - i,
        {
            assert(seen.take(i + 1).drop_last() =~= seen.take(i as int));
            assert(seen.take(i + 1).last() == seen[i as int]);
            match &items[i] {
                Item::Table(entry) => {
                    match map_text(entry, B_USER_IDENTITY) {
                        Some(id) => {
                            let cs = text::chars_of(id);
                            let low = text::lower_chars(&cs);
                            let user = UserInfo {
                                nick: owned_text(map_text(entry, B_USER_NICK)),
                                identity: text::string_from_chars(&low),
                                operator: map_bool(entry, B_USER_OPERATOR),
                                voiced: map_bool(entry, B_USER_VOICED),
                            };
                            proof {
                                assert(user_views(users@.push(user)) =~= user_views(users@).push(
                                    user@,
                                ));
                            }
                            users.push(user);
                        },
                        None => {},
                    }
                },
                _ => {},
            }
            i = i + 1;
        }
        assert(seen.take(seen.len() as int) =~= seen);
        Some(users)
    }
}


/// Reading the room state back after storing it gives exactly the stored
/// state, whatever else the envelope holds.
pub proof fn law_room_state_round_trip(fields: Seq<(i128, Cbor)>, state: RoomStateView)
    requires
        envelope::ascending(fields),
    ensures
        room_state_spec(envelope::field_insert(fields, K_ROOM_STATE, room_state_table(state)))
            == Some(state),
{
    let t = room_state_table(state);
    envelope::lemma_field_insert(fields, K_ROOM_STATE, t, K_ROOM_STATE);
    let m = t->Table_0;
    assert(m[0] == (Cbor::Integer(B_ROOM_REGISTERED), Cbor::Bool(state.registered)));
    assert(m[1] == (Cbor::Integer(B_ROOM_MODES), Cbor::Text(state.modes)));
    assert(value::lookup(m.drop_first(), B_ROOM_MODES) == Some(Cbor::Text(state.modes)));
    assert(value::lookup(m, B_ROOM_MODES) == Some(Cbor::Text(state.modes)));
    assert(value::lookup(m, B_ROOM_REGISTERED) == Some(Cbor::Bool(state.registered)));
    match state.topic {
        Some(top) => {
            assert(m.drop_first()[1] == (Cbor::Integer(B_ROOM_TOPIC), Cbor::Text(top)));
            assert(value::lookup(m.drop_first().drop_first(), B_ROOM_TOPIC) == Some(Cbor::Text(top)));
            assert(value::lookup(m.drop_first(), B_ROOM_TOPIC) == Some(Cbor::Text(top)));
            assert(value::lookup(m, B_ROOM_TOPIC) == Some(Cbor::Text(top)));
        },
        None => {
            assert(m.drop_first().drop_first() =~= Seq::<(Cbor, Cbor)>::empty());
            assert(value::lookup(m.drop_first().drop_first(), B_ROOM_TOPIC) is None);
            assert(value::lookup(m.drop_first(), B_ROOM_TOPIC) is None);
            assert(value::lookup(m, B_ROOM_TOPIC) is None);
        },
    }
    let got = room_state_of(m);
    assert(got.registered == state.registered);
    assert(got.modes == state.modes);
    assert(got.topic == state.topic);
}

proof fn lemma_user_of_table(u: UserView)
    ensures
        user_of(user_table(u)) == Some(lowered(u)),
{
    let m = user_table(u)->Table_0;
    assert(m[0] == (Cbor::Integer(B_USER_IDENTITY), Cbor::Text(u.identity)));
    let r1 = m.drop_first();
    match u.nick {
        Some(n) => {
            assert(r1[0] == (Cbor::Integer(B_USER_NICK), Cbor::Text(n)));
            let r2 = r1.drop_first();
            assert(r2[0] == (Cbor::Integer(B_USER_OPERATOR), Cbor::Bool(u.operator)));
            assert(r2.drop_first()[0] == (Cbor::Integer(B_USER_VOICED), Cbor::Bool(u.voiced)));
            assert(value::lookup(r2, B_USER_OPERATOR) == Some(Cbor::Bool(u.operator)));
            assert(value::lookup(r2.drop_first(), B_USER_VOICED) == Some(Cbor::Bool(u.voiced)));
            assert(value::lookup(r2, B_USER_VOICED) == Some(Cbor::Bool(u.voiced)));
            assert(value::lookup(r1, B_USER_OPERATOR) == Some(Cbor::Bool(u.operator)));
            assert(value::lookup(r1, B_USER_VOICED) == Some(Cbor::Bool(u.voiced)));
            assert(value::lookup(r1, B_USER_NICK) == Some(Cbor::Text(n)));
            assert(value::lookup(m, B_USER_NICK) == Some(Cbor::Text(n)));
            assert(value::lookup(m, B_USER_OPERATOR) == Some(Cbor::Bool(u.operator)));
            assert(value::lookup(m, B_USER_VOICED) == Some(Cbor::Bool(u.voiced)));
        },
        None => {
            assert(r1[0] == (Cbor::Integer(B_USER_OPERATOR), Cbor::Bool(u.operator)));
            let r2 = r1.drop_first();
            assert(r2[0] == (Cbor::Integer(B_USER_VOICED), Cbor::Bool(u.voiced)));
            assert(r2.drop_first() =~= Seq::<(Cbor, Cbor)>::empty());
            assert(value::lookup(r2.drop_first(), B_USER_NICK) is None);
            assert(value::lookup(r2, B_USER_NICK) is None);
            assert(value::lookup(r2, B_USER_VOICED) == Some(Cbor::Bool(u.voiced)));
            assert(value::lookup(r1, B_USER_NICK) is None);
            assert(value::lookup(m, B_USER_NICK) is None);
            assert(value::lookup(m, B_USER_OPERATOR) == Some(Cbor::Bool(u.operator)));
            assert(value::lookup(m, B_USER_VOICED) == Some(Cbor::Bool(u.voiced)));
        },
    }
    assert(value::lookup(m, B_USER_IDENTITY) == Some(Cbor::Text(u.identity)));
    let got = user_of(user_table(u))->Some_0;
    assert(got.nick == lowered(u).nick);
    assert(got.identity == lowered(u).identity);
    assert(got.operator == lowered(u).operator);
    assert(got.voiced == lowered(u).voiced);
}

proof fn lemma_users_of_tables(us: Seq<UserView>)
    ensures
        users_of(us.map_values(|u: UserView| user_table(u))) == us.map_values(
            |u: UserView| lowered(u),
        ),
    decreases us.len(),
{
    let items = us.map_values(|u: UserView| user_table(u));
    if us.len() > 0 {
        lemma_users_of_tables(us.drop_last());
        assert(items.drop_last() =~= us.drop_last().map_values(|u: UserView| user_table(u)));
        lemma_user_of_table(us.last());
        assert(us.map_values(|u: UserView| lowered(u)) =~= us.drop_last().map_values(
            |u: UserView| lowered(u),
        ).push(lowered(us.last())));
    } else {
        assert(us.map_values(|u: UserView| lowered(u)) =~= Seq::<UserView>::empty());
    }
}

/// Reading the user list back after storing it gives the stored members, with
/// identities in ASCII lower case, whatever else the envelope holds.
pub proof fn law_user_list_round_trip(fields: Seq<(i128, Cbor)>, users: Seq<UserView>)
    requires
        envelope::ascending(fields),
    ensures
        user_list_spec(envelope::field_insert(fields, K_USER_LIST, user_list_item(users)))
            == Some(users.map_values(|u: UserView| lowered(u))),
{
    envelope::lemma_field_insert(fields, K_USER_LIST, user_list_item(users), K_USER_LIST);
    lemma_users_of_tables(users);
}

/// The maps that carry a room state and the array that carries a user list are
/// plain items, so an envelope that stores them stays plain
/// ([`envelope::law_set_keeps_plain`]).
pub proof fn law_extension_items_plain(state: RoomStateView, users: Seq<UserView>)
    ensures
        cbor::plain_within(room_state_table(state), 126),
        cbor::plain_within(user_list_item(users), 126),
{
    let m = room_state_table(state)->Table_0;
    assert forall|i: int| 0 <= i < m.len() implies (#[trigger] m[i]).0 is Integer
        && cbor::cbor_integer_range(m[i].0->Integer_0) && cbor::plain_within(m[i].1, 125) by {
        if i == 0 {
            assert(m[i].1 == Cbor::Bool(state.registered));
        }
    }
    assert forall|i: int, j: int| 0 <= i < j < m.len() implies value::key_order(
        (#[trigger] m[i]).0->Integer_0,
        (#[trigger] m[j]).0->Integer_0,
    ) by {
        assert(m[i].0 == Cbor::Integer(i as i128) && m[j].0 == Cbor::Integer(j as i128));
    }
    cbor::law_ordered_table_plain(m, 126);
    let items = users.map_values(|u: UserView| user_table(u));
    assert forall|i: int| 0 <= i < items.len() implies cbor::plain_within(#[trigger] items[i], 125) by {
        let u = users[i];
        let e = user_table(u)->Table_0;
        assert(items[i] == user_table(u));
        assert forall|j: int| 0 <= j < e.len() implies (#[trigger] e[j]).0 is Integer
            && cbor::cbor_integer_range(e[j].0->Integer_0) && cbor::plain_within(e[j].1, 124) by {
            if j >= e.len() - 2 {
                assert(e[j].1 is Bool);
            }
        }
        assert forall|a: int, b: int| 0 <= a < b < e.len() implies value::key_order(
            (#[trigger] e[a]).0->Integer_0,
            (#[trigger] e[b]).0->Integer_0,
        ) by {
        }
        cbor::law_ordered_table_plain(e, 125);
    }
    let c = user_list_item(users);
    assert(c is Array && c->Array_0 == items);
}

/// The capabilities read from the item `o`: when it is a map, each capability
/// is present only as an explicit `true`; otherwise none is.
pub open spec fn capabilities_of(o: Option<Cbor>) -> Capabilities {
    match o {
        Some(Cbor::Table(v)) => Capabilities {
            resource_envelope: is_true(value::lookup(v, CAP_RESOURCE_ENVELOPE)),
            action: is_true(value::lookup(v, CAP_ACTION)),
            direct_notice: is_true(value::lookup(v, CAP_DIRECT_NOTICE)),
            room_state: is_true(value::lookup(v, CAP_ROOM_STATE)),
            user_list: is_true(value::lookup(v, CAP_USER_LIST)),
        },
        _ => Capabilities {
            resource_envelope: false,
            action: false,
            direct_notice: false,
            room_state: false,
            user_list: false,
        },
    }
}

/// The limits read from the item `o`: when it is a map, the non-negative
/// integers under keys 0 to 4 that fit in `usize`; otherwise none.
pub open spec fn limits_of(o: Option<Cbor>) -> Limits {
    match o {
        Some(Cbor::Table(v)) => Limits {
            max_nick_bytes: usize_of(value::lookup(v, 0)),
            max_room_name_bytes: usize_of(value::lookup(v, 1)),
            max_message_bytes: usize_of(value::lookup(v, 2)),
            max_rooms_per_session: usize_of(value::lookup(v, 3)),
            messages_per_minute: usize_of(value::lookup(v, 4)),
        },
        _ => Limits {
            max_nick_bytes: None,
            max_room_name_bytes: None,
            max_message_bytes: None,
            max_rooms_per_session: None,
            messages_per_minute: None,
        },
    }
}

/// The WELCOME contents of the fields `e`: present for a WELCOME envelope whose
/// body is a map.
pub open spec fn welcome_spec(e: Seq<(i128, Cbor)>) -> Option<WelcomeView> {
    if envelope::u64_of(envelope::field_of(e, K_T)) != Some(T_WELCOME) {
        None
    } else {
        match envelope::table_of(envelope::field_of(e, K_BODY)) {
            None => None,
            Some(body) => Some(
                WelcomeView {
                    hub_name: text_of(value::lookup(body, B_WELCOME_HUB)),
                    version: text_of(value::lookup(body, B_WELCOME_VER)),
                    capabilities: capabilities_of(value::lookup(body, B_WELCOME_CAPS)),
                    limits: limits_of(value::lookup(body, B_WELCOME_LIMITS)),
                },
            ),
        }
    }
}

/// The hub name in the body map of the fields `e`, of any message type.
pub open spec fn hub_name_spec(e: Seq<(i128, Cbor)>) -> Option<Seq<char>> {
    match envelope::table_of(envelope::field_of(e, K_BODY)) {
        Some(body) => text_of(value::lookup(body, B_WELCOME_HUB)),
        None => None,
    }
}

/// The resource described by the fields `e`: a RESOURCE envelope whose body
/// map holds a non-empty byte-string id, a non-empty text kind, a size that
/// fits in `usize`, optionally a 32-byte digest and optionally a text
/// encoding; any other item in those places means no descriptor.
pub open spec fn resource_spec(e: Seq<(i128, Cbor)>) -> Option<ResourceView> {
    if envelope::u64_of(envelope::field_of(e, K_T)) != Some(T_RESOURCE_ENVELOPE) {
        None
    } else {
        match envelope::table_of(envelope::field_of(e, K_BODY)) {
            None => None,
            Some(body) => match (
                value::lookup(body, B_RES_ID),
                value::lookup(body, B_RES_KIND),
                usize_of(value::lookup(body, B_RES_SIZE)),
                value::lookup(body, B_RES_SHA256),
                value::lookup(body, B_RES_ENCODING),
            ) {
                (Some(Cbor::Bytes(id)), Some(Cbor::Text(kind)), Some(size), sha, enc) => {
                    let sha_ok = match sha {
                        Some(Cbor::Bytes(d)) => d.len() == 32,
                        None => true,
                        _ => false,
                    };
                    let enc_ok = match enc {
                        Some(Cbor::Text(_)) => true,
                        None => true,
                        _ => false,
                    };
                    if id.len() > 0 && kind.len() > 0 && sha_ok && enc_ok {
                        Some(
                            ResourceView {
                                id,
                                kind,
                                size,
                                sha256: match sha {
                                    Some(Cbor::Bytes(d)) => Some(d),
                                    _ => None,
                                },
                                encoding: text_of(enc),
                            },
                        )
                    } else {
                        None
                    }
                },
                _ => None,
            },
        }
    }
}

fn digest_array(b: &Vec<u8>) -> (r: [u8; 32])
    requires
        b@.len() == 32,
    ensures
        r@ == b@,
{
    let mut a = [0u8; 32];
    let mut i: usize = 0;
    while i < 32
        invariant
            i <= 32,
            b@.len() == 32,
            forall|j: int| 0 <= j < i ==> a@[j] == b@[j],
        decreases 32 - i,
    {
        a[i] = b[i];
        i = i + 1;
    }
    assert(a@ =~= b@);
    a
}

impl Envelope {
    /// The hub name in the body map, of any message type.
    pub fn welcome_hub_name(&self) -> (r: Option<&str>)
        ensures
            envelope::str_view(r) == hub_name_spec(self@),
    {
        match self.map(K_BODY) {
            Some(body) => map_text(body, B_WELCOME_HUB),
            None => None,
        }
    }

    /// The contents of a WELCOME envelope ([`welcome_spec`]).
    pub fn welcome(&self) -> (r: Option<Welcome>)
        ensures
            r matches Some(w) ==> welcome_spec(self@) == Some(w@),
            r is None ==> welcome_spec(self@) is None,
    {
        match self.message_type() {
            Some(t) => if t != T_WELCOME {
                return None;
            },
            None => {
                return None;
            },
        }
        let body = match self.map(K_BODY) {
            Some(b) => b,
            None => {
                return None;
            },
        };
        let capabilities = match map_get(body, B_WELCOME_CAPS) {
            Some(Item::Table(values)) => Capabilities {
                resource_envelope: map_bool(values, CAP_RESOURCE_ENVELOPE),
                action: map_bool(values, CAP_ACTION),
                direct_notice: map_bool(values, CAP_DIRECT_NOTICE),
                room_state: map_bool(values, CAP_ROOM_STATE),
                user_list: map_bool(values, CAP_USER_LIST),
            },
            _ => Capabilities::default(),
        };
        let limits = match map_get(body, B_WELCOME_LIMITS) {
            Some(Item::Table(values)) => Limits {
                max_nick_bytes: map_usize(values, 0),
                max_room_name_bytes: map_usize(values, 1),
                max_message_bytes: map_usize(values, 2),
                max_rooms_per_session: map_usize(values, 3),
                messages_per_minute: map_usize(values, 4),
            },
            _ => Limits::default(),
        };
        Some(
            Welcome {
                hub_name: owned_text(map_text(body, B_WELCOME_HUB)),
                version: owned_text(map_text(body, B_WELCOME_VER)),
                capabilities,
                limits,
            },
        )
    }

    /// The resource announced by a RESOURCE envelope ([`resource_spec`]).
    pub fn resource_descriptor(&self) -> (r: Option<ResourceDescriptor>)
        ensures
            r matches Some(d) ==> resource_spec(self@) == Some(d@),
            r is None ==> resource_spec(self@) is None,
    {
        match self.message_type() {
            Some(t) => if t != T_RESOURCE_ENVELOPE {
                return None;
            },
            None => {
                return None;
            },
        }
        let body = match self.map(K_BODY) {
            Some(b) => b,
            None => {
                return None;
            },
        };
        let id = match map_get(body, B_RES_ID) {
            Some(Item::Bytes(v)) => if v.len() > 0 {
                vstd::slice::slice_to_vec(v.as_slice())
            } else {
                return None;
            },
            _ => {
                return None;
            },
        };
        let kind = match map_get(body, B_RES_KIND) {
            Some(Item::Text(v)) => {
                if v.as_str().is_empty() {
                    return None;
                }
                v.clone()
            },
            _ => {
                return None;
            },
        };
        let size = match map_usize(body, B_RES_SIZE) {
            Some(s) => s,
            None => {
                return None;
            },
        };
        let sha256 = match map_get(body, B_RES_SHA256) {
            Some(Item::Bytes(v)) => if v.len() == 32 {
                Some(digest_array(v))
            } else {
                return None;
            },
            None => None,
            _ => {
                return None;
            },
        };
        let encoding = match map_get(body, B_RES_ENCODING) {
            Some(Item::Text(v)) => Some(v.clone()),
            None => None,
            _ => {
                return None;
            },
        };
        Some(ResourceDescriptor { id, kind, size, sha256, encoding })
    }
}

/// A WELCOME is read key by key from its body map: the hub name and version
/// from their keys; each capability from its own id in the capability map (0
/// resource envelope, 1 action, 2 direct notice, 3 room state, 4 user list),
/// present only as an explicit `true`; and each limit from its own key in the
/// limits map (0 nickname, 1 room name, 2 message, 3 rooms per session, 4
/// messages per minute), as the non-negative integer there when it fits in
/// `usize`.
pub proof fn law_welcome_reads_each_key(e: Seq<(i128, Cbor)>, body: Seq<(Cbor, Cbor)>)
    requires
        envelope::field_of(e, K_T) == Some(Cbor::Integer(T_WELCOME as i128)),
        envelope::field_of(e, K_BODY) == Some(Cbor::Table(body)),
    ensures
        welcome_spec(e) is Some,
        welcome_spec(e)->Some_0.hub_name == text_of(value::lookup(body, B_WELCOME_HUB)),
        welcome_spec(e)->Some_0.version == text_of(value::lookup(body, B_WELCOME_VER)),
        value::lookup(body, B_WELCOME_CAPS) matches Some(Cbor::Table(c)) ==> ({
            let caps = welcome_spec(e)->Some_0.capabilities;
            &&& caps.resource_envelope == (value::lookup(c, 0) == Some(Cbor::Bool(true)))
            &&& caps.action == (value::lookup(c, 1) == Some(Cbor::Bool(true)))
            &&& caps.direct_notice == (value::lookup(c, 2) == Some(Cbor::Bool(true)))
            &&& caps.room_state == (value::lookup(c, 3) == Some(Cbor::Bool(true)))
            &&& caps.user_list == (value::lookup(c, 4) == Some(Cbor::Bool(true)))
        }),
        !(value::lookup(body, B_WELCOME_CAPS) matches Some(Cbor::Table(_))) ==> ({
            let caps = welcome_spec(e)->Some_0.capabilities;
            !caps.resource_envelope && !caps.action && !caps.direct_notice && !caps.room_state
                && !caps.user_list
        }),
        value::lookup(body, B_WELCOME_LIMITS) matches Some(Cbor::Table(l)) ==> ({
            let lim = welcome_spec(e)->Some_0.limits;
            &&& lim.max_nick_bytes == limit_at(l, 0)
            &&& lim.max_room_name_bytes == limit_at(l, 1)
            &&& lim.max_message_bytes == limit_at(l, 2)
            &&& lim.max_rooms_per_session == limit_at(l, 3)
            &&& lim.messages_per_minute == limit_at(l, 4)
        }),
        !(value::lookup(body, B_WELCOME_LIMITS) matches Some(Cbor::Table(_))) ==> ({
            let lim = welcome_spec(e)->Some_0.limits;
            lim.max_nick_bytes is None && lim.max_room_name_bytes is None
                && lim.max_message_bytes is None && lim.max_rooms_per_session is None
                && lim.messages_per_minute is None
        }),
{
}

/// What the limits map `l` holds under `key`: a non-negative integer that
/// fits in `usize`, or nothing.
pub open spec fn limit_at(l: Seq<(Cbor, Cbor)>, key: i128) -> Option<usize> {
    match value::lookup(l, key) {
        Some(Cbor::Integer(n)) => if 0 <= n && n <= usize::MAX {
            Some(n as usize)
        } else {
            None
        },
        _ => None,
    }
}

/// Each limit is read from its own key: storing `n` under key 1 of the limits
/// map gives a room-name limit of `n`, whatever the other keys hold; and so
/// for keys 0, 2, 3 and 4 and their limits.
pub proof fn law_welcome_limit_keys(
    e: Seq<(i128, Cbor)>,
    body: Seq<(Cbor, Cbor)>,
    l: Seq<(Cbor, Cbor)>,
    key: i128,
    n: i128,
)
    requires
        envelope::field_of(e, K_T) == Some(Cbor::Integer(T_WELCOME as i128)),
        envelope::field_of(e, K_BODY) == Some(Cbor::Table(body)),
        value::lookup(body, B_WELCOME_LIMITS) == Some(Cbor::Table(l)),
        value::lookup(l, key) == Some(Cbor::Integer(n)),
        0 <= n <= usize::MAX,
    ensures
        key == 0 ==> welcome_spec(e)->Some_0.limits.max_nick_bytes == Some(n as usize),
        key == 1 ==> welcome_spec(e)->Some_0.limits.max_room_name_bytes == Some(n as usize),
        key == 2 ==> welcome_spec(e)->Some_0.limits.max_message_bytes == Some(n as usize),
        key == 3 ==> welcome_spec(e)->Some_0.limits.max_rooms_per_session == Some(n as usize),
        key == 4 ==> welcome_spec(e)->Some_0.limits.messages_per_minute == Some(n as usize),
{
    law_welcome_reads_each_key(e, body);
}

/// A RESOURCE descriptor is read key by key from the body map: a non-empty
/// byte-string id, a non-empty text kind and a size that fits in `usize` give
/// a descriptor; a digest is optional (absent gives `None`, 32 bytes give
/// them), and so is a text encoding; any other item under the digest or
/// encoding key gives no descriptor.
pub proof fn law_resource_descriptor_reads_each_key(
    e: Seq<(i128, Cbor)>,
    body: Seq<(Cbor, Cbor)>,
    id: Seq<u8>,
    kind: Seq<char>,
    size: i128,
    d: Seq<u8>,
    enc: Seq<char>,
)
    requires
        envelope::field_of(e, K_T) == Some(Cbor::Integer(T_RESOURCE_ENVELOPE as i128)),
        envelope::field_of(e, K_BODY) == Some(Cbor::Table(body)),
        value::lookup(body, B_RES_ID) == Some(Cbor::Bytes(id)),
        id.len() > 0,
        value::lookup(body, B_RES_KIND) == Some(Cbor::Text(kind)),
        kind.len() > 0,
        value::lookup(body, B_RES_SIZE) == Some(Cbor::Integer(size)),
        0 <= size <= usize::MAX,
    ensures
        value::lookup(body, B_RES_SHA256) is None && value::lookup(body, B_RES_ENCODING) is None
            ==> resource_spec(e) == Some(
            ResourceView { id, kind, size: size as usize, sha256: None, encoding: None },
        ),
        value::lookup(body, B_RES_SHA256) is None && value::lookup(body, B_RES_ENCODING) == Some(
            Cbor::Text(enc),
        ) ==> resource_spec(e) == Some(
            ResourceView { id, kind, size: size as usize, sha256: None, encoding: Some(enc) },
        ),
        value::lookup(body, B_RES_SHA256) == Some(Cbor::Bytes(d)) && d.len() == 32
            && value::lookup(body, B_RES_ENCODING) is None ==> resource_spec(e) == Some(
            ResourceView { id, kind, size: size as usize, sha256: Some(d), encoding: None },
        ),
        value::lookup(body, B_RES_SHA256) == Some(Cbor::Bytes(d)) && d.len() == 32
            && value::lookup(body, B_RES_ENCODING) == Some(Cbor::Text(enc)) ==> resource_spec(e)
            == Some(
            ResourceView { id, kind, size: size as usize, sha256: Some(d), encoding: Some(enc) },
        ),
        value::lookup(body, B_RES_SHA256) is Some && !(value::lookup(body, B_RES_SHA256)->Some_0 is Bytes
            && value::lookup(body, B_RES_SHA256)->Some_0->Bytes_0.len() == 32) ==> resource_spec(e) is None,
        value::lookup(body, B_RES_ENCODING) is Some && !(value::lookup(body, B_RES_ENCODING)->Some_0 is Text)
            ==> resource_spec(e) is None,
{
}

/// A member entry is read key by key (0 identity, 1 nickname, 2 operator, 3
/// voiced): a map with a text identity gives a member with that identity in
/// ASCII lower case, the nickname if it is text, and each role present only
/// as an explicit `true` under its own key.
pub proof fn law_user_entry_reads_each_key(m: Seq<(Cbor, Cbor)>, id: Seq<char>)
    requires
        value::lookup(m, 0) == Some(Cbor::Text(id)),
    ensures
        user_of(Cbor::Table(m)) == Some(
            UserView {
                nick: text_of(value::lookup(m, 1)),
                identity: text::lower(id),
                operator: value::lookup(m, 2) == Some(Cbor::Bool(true)),
                voiced: value::lookup(m, 3) == Some(Cbor::Bool(true)),
            },
        ),
{
}

/// An item that is not a map with a text identity under key 0 gives no member.
pub proof fn law_user_entry_needs_text_identity(c: Cbor)
    ensures
        !(c is Table) || text_of(value::lookup(c->Table_0, 0)) is None ==> user_of(c) is None,
{
}

/// A member is written key by key: its identity under 0, its nickname (if
/// any) under 1, its operator role under 2 and its voiced role under 3.
pub proof fn law_user_entry_writes_each_key(u: UserView)
    ensures
        value::lookup(user_table(u)->Table_0, 0) == Some(Cbor::Text(u.identity)),
        value::lookup(user_table(u)->Table_0, 1) == match u.nick {
            Some(n) => Some(Cbor::Text(n)),
            None => None::<Cbor>,
        },
        value::lookup(user_table(u)->Table_0, 2) == Some(Cbor::Bool(u.operator)),
        value::lookup(user_table(u)->Table_0, 3) == Some(Cbor::Bool(u.voiced)),
{
    let m = user_table(u)->Table_0;
    reveal_with_fuel(value::lookup, 5);
    match u.nick {
        Some(n) => {
            assert(m =~= seq![
                (Cbor::Integer(0), Cbor::Text(u.identity)),
                (Cbor::Integer(1), Cbor::Text(n)),
                (Cbor::Integer(2), Cbor::Bool(u.operator)),
                (Cbor::Integer(3), Cbor::Bool(u.voiced)),
            ]);
        },
        None => {
            assert(m =~= seq![
                (Cbor::Integer(0), Cbor::Text(u.identity)),
                (Cbor::Integer(2), Cbor::Bool(u.operator)),
                (Cbor::Integer(3), Cbor::Bool(u.voiced)),
            ]);
        },
    }
}

/// A room state is read key by key (0 registered, 1 modes, 2 topic) and
/// written the same way.
pub proof fn law_room_state_keys(m: Seq<(Cbor, Cbor)>, s: RoomStateView)
    ensures
        room_state_of(m).registered == (value::lookup(m, 0) == Some(Cbor::Bool(true))),
        value::lookup(m, 1) matches Some(Cbor::Text(t)) ==> room_state_of(m).modes == t,
        !(value::lookup(m, 1) matches Some(Cbor::Text(_))) ==> room_state_of(m).modes == no_modes(),
        room_state_of(m).topic == text_of(value::lookup(m, 2)),
        value::lookup(room_state_table(s)->Table_0, 0) == Some(Cbor::Bool(s.registered)),
        value::lookup(room_state_table(s)->Table_0, 1) == Some(Cbor::Text(s.modes)),
        value::lookup(room_state_table(s)->Table_0, 2) == match s.topic {
            Some(t) => Some(Cbor::Text(t)),
            None => None::<Cbor>,
        },
{
    let t = room_state_table(s)->Table_0;
    reveal_with_fuel(value::lookup, 4);
    match s.topic {
        Some(top) => {
            assert(t =~= seq![
                (Cbor::Integer(0), Cbor::Bool(s.registered)),
                (Cbor::Integer(1), Cbor::Text(s.modes)),
                (Cbor::Integer(2), Cbor::Text(top)),
            ]);
        },
        None => {
            assert(t =~= seq![
                (Cbor::Integer(0), Cbor::Bool(s.registered)),
                (Cbor::Integer(1), Cbor::Text(s.modes)),
            ]);
        },
    }
}

} // verus!
