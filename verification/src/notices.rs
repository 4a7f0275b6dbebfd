//! Parsers for the textual LIST and WHO notices a hub sends.

use crate::names;
use crate::records::{RoomInfo, RoomView, UserInfo, UserView, user_views};
use crate::envelope::string_view;
use crate::text;
use vstd::prelude::*;

verus! {

/// `s` split at every line feed, keeping the piece after the last one.
pub open spec fn split_lines(s: Seq<char>) -> Seq<Seq<char>>
    decreases s.len(),
{
    if s.len() == 0 {
        seq![Seq::empty()]
    } else {
        let rest = split_lines(s.drop_last());
        if s.last() == '\n' {
            rest.push(Seq::empty())
        } else {
            rest.update(rest.len() - 1, rest.last().push(s.last()))
        }
    }
}

/// The lines of `s` (`str::lines`, before a carriage return ending a line is
/// removed): the pieces between line feeds, without an empty piece after a
/// final line feed, and none for empty text.
pub open spec fn lines(s: Seq<char>) -> Seq<Seq<char>> {
    if s.len() == 0 {
        Seq::empty()
    } else if s.last() == '\n' {
        split_lines(s).drop_last()
    } else {
        split_lines(s)
    }
}

/// The lines of `cs` ([`lines`]).
pub fn lines_of(cs: &Vec<char>) -> (r: Vec<Vec<char>>)
    ensures
        r@.map_values(|l: Vec<char>| l@) == lines(cs@),
{
    let mut done: Vec<Vec<char>> = Vec::new();
    let mut current: Vec<char> = Vec::new();
    let mut i: usize = 0;
    assert(cs@.take(0) =~= Seq::<char>::empty());
    assert(split_lines(Seq::<char>::empty()) =~= seq![Seq::<char>::empty()]);
    assert(done@.map_values(|l: Vec<char>| l@).push(current@) =~= seq![Seq::<char>::empty()]);
    while i < cs.len()
        invariant
            i <= cs.len(),
            split_lines(cs@.take(i as int)) == done@.map_values(|l: Vec<char>| l@).push(current@),
        decreases cs.len() - i,
    {
        let c = cs[i];
        let ghost before = cs@.take(i as int);
        assert(cs@.take(i + 1).drop_last() =~= before);
        assert(cs@.take(i + 1).last() == c);
        if c == '\n' {
            let line = current;
            proof {
                assert(done@.push(line).map_values(|l: Vec<char>| l@) =~= done@.map_values(
                    |l: Vec<char>| l@,
                ).push(line@));
            }
            done.push(line);
            current = Vec::new();
            assert(split_lines(cs@.take(i + 1)) =~= done@.map_values(|l: Vec<char>| l@).push(
                current@,
            ));
        } else {
            current.push(c);
            assert(split_lines(cs@.take(i + 1)) =~= done@.map_values(|l: Vec<char>| l@).push(
                current@,
            ));
        }
        i = i + 1;
    }
    assert(cs@.take(cs@.len() as int) =~= cs@);
    if cs.len() > 0 && cs[cs.len() - 1] != '\n' {
        proof {
            assert(done@.push(current).map_values(|l: Vec<char>| l@) =~= done@.map_values(
                |l: Vec<char>| l@,
            ).push(current@));
        }
        done.push(current);
    } else {
        assert(done@.map_values(|l: Vec<char>| l@) =~= done@.map_values(|l: Vec<char>| l@).push(
            current@,
        ).drop_last());
    }
    done
}


/// The separator between a room name and its topic in a LIST notice.
pub open spec fn topic_separator() -> Seq<char> {
    seq![' ', '-', ' ']
}

/// The room listed on one line of a LIST notice: `None` for a blank line;
/// otherwise the canonical name of the part before the first ` - `, and the
/// trimmed rest as the topic unless it is blank.
pub open spec fn room_entry(line: Seq<char>) -> Option<RoomView> {
    let l = text::trim(line);
    if l.len() == 0 {
        None
    } else {
        match text::split_once(l, topic_separator()) {
            Some((name, topic)) => Some(
                RoomView {
                    name: names::room_name(name),
                    topic: if text::trim(topic).len() == 0 {
                        None
                    } else {
                        Some(text::trim(topic))
                    },
                },
            ),
            None => Some(RoomView { name: names::room_name(l), topic: None }),
        }
    }
}

/// The rooms listed on the lines `ls`, in order.
pub open spec fn room_entries(ls: Seq<Seq<char>>) -> Seq<RoomView>
    decreases ls.len(),
{
    if ls.len() == 0 {
        Seq::empty()
    } else {
        let r = room_entries(ls.drop_last());
        match room_entry(ls.last()) {
            Some(x) => r.push(x),
            None => r,
        }
    }
}

/// Lexicographic order of names by code point, which is also the byte order
/// of their UTF-8 encodings.
pub open spec fn name_le(a: Seq<char>, b: Seq<char>) -> bool
    decreases a.len(),
{
    if a.len() == 0 {
        true
    } else if b.len() == 0 {
        false
    } else if (a[0] as u32) < (b[0] as u32) {
        true
    } else if (a[0] as u32) > (b[0] as u32) {
        false
    } else {
        name_le(a.drop_first(), b.drop_first())
    }
}

/// `s` with `x` placed after every room whose name is not after its own.
pub open spec fn insert_by_name(s: Seq<RoomView>, x: RoomView) -> Seq<RoomView>
    decreases s.len(),
{
    if s.len() == 0 {
        seq![x]
    } else if name_le(s.last().name, x.name) {
        s.push(x)
    } else {
        insert_by_name(s.drop_last(), x).push(s.last())
    }
}

/// `s` stably sorted by name.
pub open spec fn sort_by_name(s: Seq<RoomView>) -> Seq<RoomView>
    decreases s.len(),
{
    if s.len() == 0 {
        s
    } else {
        insert_by_name(sort_by_name(s.drop_last()), s.last())
    }
}

/// Whether the rooms of `s` are in [`name_le`] order.
pub open spec fn sorted_by_name(s: Seq<RoomView>) -> bool {
    forall|i: int, j: int| 0 <= i < j < s.len() ==> name_le((#[trigger] s[i]).name, (#[trigger] s[j]).name)
}

proof fn lemma_name_le_total(a: Seq<char>, b: Seq<char>)
    ensures
        name_le(a, b) || name_le(b, a),
    decreases a.len(),
{
    if a.len() > 0 && b.len() > 0 && a[0] == b[0] {
        lemma_name_le_total(a.drop_first(), b.drop_first());
    } else if a.len() > 0 && b.len() > 0 {
        assert((a[0] as u32) != (b[0] as u32)) by {
            vstd::utf8::char_u32_cast(a[0], a[0] as u32);
            vstd::utf8::char_u32_cast(b[0], b[0] as u32);
        }
    }
}

proof fn lemma_name_le_trans(a: Seq<char>, b: Seq<char>, c: Seq<char>)
    requires
        name_le(a, b),
        name_le(b, c),
    ensures
        name_le(a, c),
    decreases a.len(),
{
    if a.len() > 0 && b.len() > 0 && c.len() > 0 {
        if (a[0] as u32) == (b[0] as u32) && (b[0] as u32) == (c[0] as u32) {
            lemma_name_le_trans(a.drop_first(), b.drop_first(), c.drop_first());
        }
    }
}

proof fn lemma_insert_by_name_sorted(s: Seq<RoomView>, x: RoomView)
    requires
        sorted_by_name(s),
    ensures
        sorted_by_name(insert_by_name(s, x)),
        insert_by_name(s, x).len() == s.len() + 1,
        forall|i: int|
            0 <= i < insert_by_name(s, x).len() ==> #[trigger] insert_by_name(s, x)[i] == x
                || exists|j: int| 0 <= j < s.len() && s[j] == insert_by_name(s, x)[i],
    decreases s.len(),
{
    let t = insert_by_name(s, x);
    if s.len() == 0 {
    } else if name_le(s.last().name, x.name) {
        assert forall|i: int, j: int| 0 <= i < j < t.len() implies name_le(
            (#[trigger] t[i]).name,
            (#[trigger] t[j]).name,
        ) by {
            if j == s.len() {
                assert(t[i] == s[i]);
                if i < s.len() - 1 {
                    assert(name_le(s[i].name, s[s.len() - 1].name));
                    lemma_name_le_trans(s[i].name, s.last().name, x.name);
                }
            }
        }
        assert forall|i: int| 0 <= i < t.len() implies #[trigger] t[i] == x || exists|j: int|
            0 <= j < s.len() && s[j] == t[i] by {
            if i < s.len() {
                assert(s[i] == t[i]);
            }
        }
    } else {
        let r = s.drop_last();
        assert(sorted_by_name(r)) by {
            assert forall|i: int, j: int| 0 <= i < j < r.len() implies name_le(
                (#[trigger] r[i]).name,
                (#[trigger] r[j]).name,
            ) by {
                assert(r[i] == s[i] && r[j] == s[j]);
            }
        }
        lemma_insert_by_name_sorted(r, x);
        let u = insert_by_name(r, x);
        lemma_name_le_total(s.last().name, x.name);
        assert forall|i: int| 0 <= i < t.len() implies #[trigger] t[i] == x || exists|j: int|
            0 <= j < s.len() && s[j] == t[i] by {
            if i < u.len() {
                assert(t[i] == u[i]);
                if u[i] != x {
                    let j = choose|j: int| 0 <= j < r.len() && r[j] == u[i];
                    assert(s[j] == r[j]);
                }
            } else {
                assert(t[i] == s.last());
            }
        }
        assert forall|i: int, j: int| 0 <= i < j < t.len() implies name_le(
            (#[trigger] t[i]).name,
            (#[trigger] t[j]).name,
        ) by {
            if j == u.len() {
                assert(t[j] == s.last());
                assert(t[i] == u[i]);
                if u[i] == x {
                } else {
                    let k = choose|k: int| 0 <= k < r.len() && r[k] == u[i];
                    assert(s[k] == r[k]);
                    assert(name_le(s[k].name, s[s.len() - 1].name));
                }
            } else {
                assert(t[i] == u[i] && t[j] == u[j]);
            }
        }
    }
}

proof fn lemma_insert_by_name_multiset(s: Seq<RoomView>, x: RoomView)
    ensures
        insert_by_name(s, x).to_multiset() == s.to_multiset().insert(x),
    decreases s.len(),
{
    broadcast use vstd::seq_lib::group_to_multiset_ensures;

    if s.len() > 0 && !name_le(s.last().name, x.name) {
        let r = s.drop_last();
        lemma_insert_by_name_multiset(r, x);
        assert(r.push(s.last()) =~= s);
        assert(insert_by_name(s, x).to_multiset() =~= s.to_multiset().insert(x));
    }
}

/// A sorted room list holds the same rooms, in name order.
pub proof fn law_room_list_sorted(s: Seq<RoomView>)
    ensures
        sorted_by_name(sort_by_name(s)),
        sort_by_name(s).len() == s.len(),
        sort_by_name(s).to_multiset() == s.to_multiset(),
    decreases s.len(),
{
    broadcast use vstd::seq_lib::group_to_multiset_ensures;

    if s.len() > 0 {
        law_room_list_sorted(s.drop_last());
        lemma_insert_by_name_sorted(sort_by_name(s.drop_last()), s.last());
        lemma_insert_by_name_multiset(sort_by_name(s.drop_last()), s.last());
        assert(s.drop_last().push(s.last()) =~= s);
    } else {
        assert(s.to_multiset() =~= sort_by_name(s).to_multiset());
    }
}

proof fn lemma_insert_by_name_at(s: Seq<RoomView>, x: RoomView, p: int)
    requires
        0 <= p <= s.len(),
        p > 0 ==> name_le(s[p - 1].name, x.name),
        forall|j: int| p <= j < s.len() ==> !name_le((#[trigger] s[j]).name, x.name),
    ensures
        insert_by_name(s, x) == s.insert(p, x),
    decreases s.len(),
{
    if p == s.len() {
        if s.len() == 0 {
            assert(s.insert(0, x) =~= seq![x]);
        } else {
            assert(s.insert(p, x) =~= s.push(x));
        }
    } else {
        let r = s.drop_last();
        assert forall|j: int| p <= j < r.len() implies !name_le((#[trigger] r[j]).name, x.name) by {
            assert(r[j] == s[j]);
        }
        lemma_insert_by_name_at(r, x, p);
        assert(s.insert(p, x) =~= r.insert(p, x).push(s.last()));
    }
}


/// Whether `a` is not after `b` ([`name_le`]).
fn name_le_exec(a: &Vec<char>, b: &Vec<char>) -> (r: bool)
    ensures
        r == name_le(a@, b@),
{
    let mut i: usize = 0;
    assert(a@.skip(0) =~= a@);
    assert(b@.skip(0) =~= b@);
    while i < a.len() && i < b.len()
        invariant
            i <= a.len(),
            i <= b.len(),
            name_le(a@, b@) == name_le(a@.skip(i as int), b@.skip(i as int)),
        decreases a.len() - i,
    {
        let x = a[i] as u32;
        let y = b[i] as u32;
        assert(a@.skip(i as int)[0] == a@[i as int]);
        assert(b@.skip(i as int)[0] == b@[i as int]);
        if x < y {
            return true;
        }
        if x > y {
            return false;
        }
        assert(a@.skip(i as int).drop_first() =~= a@.skip(i + 1));
        assert(b@.skip(i as int).drop_first() =~= b@.skip(i + 1));
        i = i + 1;
    }
    i == a.len()
}

/// The room named before position `i` of `l`, with the trimmed text after the
/// separator there as its topic unless it is blank.
fn room_with_topic(l: &Vec<char>, i: usize) -> (r: RoomInfo)
    requires
        i + 3 <= l.len(),
    ensures
        r@ == (RoomView {
            name: names::room_name(l@.subrange(0, i as int)),
            topic: if text::trim(l@.subrange(i + 3, l@.len() as int)).len() == 0 {
                None
            } else {
                Some(text::trim(l@.subrange(i + 3, l@.len() as int)))
            },
        }),
{
    let name = text::sub_chars(l, 0, i);
    let topic = text::sub_chars(l, i + 3, l.len());
    let topic = text::trim_chars(&topic);
    let canonical = names::room_name_of_chars(&name);
    let topic = if topic.len() == 0 {
        None
    } else {
        Some(text::string_from_chars(&topic))
    };
    RoomInfo { name: text::string_from_chars(&canonical), topic }
}

/// The room listed on one line of a LIST notice ([`room_entry`]).
pub fn parse_room_line(line: &Vec<char>) -> (r: Option<RoomInfo>)
    ensures
        r matches Some(x) ==> room_entry(line@) == Some(x@),
        r is None ==> room_entry(line@) is None,
{
    let l = text::trim_chars(line);
    if l.len() == 0 {
        return None;
    }
    let mut sep: Vec<char> = Vec::new();
    sep.push(' ');
    sep.push('-');
    sep.push(' ');
    assert(sep@ =~= topic_separator());
    match text::find_chars(&l, &sep) {
        Some(i) => {
            Some(room_with_topic(&l, i))
        },
        None => {
            let canonical = names::room_name_of_chars(&l);
            Some(RoomInfo { name: text::string_from_chars(&canonical), topic: None })
        },
    }
}

/// Inserts `x` into the name-sorted `rooms` after every room whose name is
/// not after its own ([`insert_by_name`]).
fn insert_room(rooms: &mut Vec<RoomInfo>, x: RoomInfo)
    ensures
        final(rooms)@.map_values(|r: RoomInfo| r@) == insert_by_name(
            old(rooms)@.map_values(|r: RoomInfo| r@),
            x@,
        ),
{
    let ghost s = rooms@.map_values(|r: RoomInfo| r@);
    let xname = text::chars_of(x.name.as_str());
    let mut p = rooms.len();
    while p > 0
        invariant
            p <= rooms.len(),
            *rooms == *old(rooms),
            s == rooms@.map_values(|r: RoomInfo| r@),
            xname@ == x@.name,
            forall|j: int| p <= j < s.len() ==> !name_le((#[trigger] s[j]).name, x@.name),
        ensures
            p <= rooms.len(),
            *rooms == *old(rooms),
            forall|j: int| p <= j < s.len() ==> !name_le((#[trigger] s[j]).name, x@.name),
            p > 0 ==> name_le(s[p - 1].name, x@.name),
        decreases p,
    {
        let cname = text::chars_of(rooms[p - 1].name.as_str());
        if name_le_exec(&cname, &xname) {
            assert(s[p - 1] == rooms@[p - 1]@);
            break;
        }
        p = p - 1;
    }
    proof {
        lemma_insert_by_name_at(s, x@, p as int);
    }
    let ghost xv = x@;
    rooms.insert(p, x);
    assert(rooms@.map_values(|r: RoomInfo| r@) =~= s.insert(p as int, xv));
}

/// What a LIST notice says: no rooms for the text "No public rooms
/// registered"; otherwise, when the first line starts with "Registered public
/// rooms", the rooms on the other lines sorted by name.
pub open spec fn room_list_spec(t: Seq<char>) -> Option<Seq<RoomView>> {
    if text::trim(t) == "No public rooms registered"@ {
        Some(Seq::empty())
    } else {
        let ls = lines(t);
        if ls.len() == 0 {
            None
        } else if !text::has_prefix(text::trim_start(ls[0]), "Registered public rooms"@) {
            None
        } else {
            Some(sort_by_name(room_entries(ls.drop_first())))
        }
    }
}

/// Parses a LIST notice ([`room_list_spec`]).
pub fn parse_room_list_notice(text: &str) -> (r: Option<Vec<RoomInfo>>)
    ensures
        r matches Some(v) ==> room_list_spec(text@) == Some(v@.map_values(|x: RoomInfo| x@)),
        r is None ==> room_list_spec(text@) is None,
{
    let cs = text::chars_of(text);
    let stripped = text::trim_chars(&cs);
    let none_text = text::chars_of("No public rooms registered");
    if text::chars_equal(&stripped, &none_text) {
        let v: Vec<RoomInfo> = Vec::new();
        assert(v@.map_values(|x: RoomInfo| x@) =~= Seq::<RoomView>::empty());
        return Some(v);
    }
    let ls = lines_of(&cs);
    let ghost lv = ls@.map_values(|l: Vec<char>| l@);
    if ls.len() == 0 {
        return None;
    }
    let first = text::trim_start_chars(&ls[0]);
    let header = text::chars_of("Registered public rooms");
    if !text::starts_with_chars(&first, &header) {
        return None;
    }
    let ghost rest = lv.drop_first();
    let mut entries: Vec<RoomInfo> = Vec::new();
    let mut i: usize = 1;
    assert(rest.take(0) =~= Seq::<Seq<char>>::empty());
    while i < ls.len()
        invariant
            1 <= i <= ls.len(),
            lv == ls@.map_values(|l: Vec<char>| l@),
            rest == lv.drop_first(),
            entries@.map_values(|x: RoomInfo| x@) == sort_by_name(room_entries(rest.take(i - 1))),
        decreases ls.len() - i,
    {
        assert(rest.take(i as int).drop_last() =~= rest.take(i - 1));
        assert(rest.take(i as int).last() == ls@[i as int]@);
        let ghost prev = room_entries(rest.take(i - 1));
        match parse_room_line(&ls[i]) {
            Some(room) => {
                assert(prev.push(room@).drop_last() =~= prev);
                insert_room(&mut entries, room);
            },
            None => {},
        }
        i = i + 1;
    }
    assert(rest.take(ls.len() - 1) =~= rest);
    Some(entries)
}


/// The pattern of one member entry of a WHO notice: a full 32-digit identity
/// hash, or a nickname followed by a 12-digit identity prefix in parentheses;
/// entries are separated by a comma and white space.
pub const WHO_ENTRY: &'static str = r"(?i)(?:^|,\s)(?:(?P<hash>[0-9a-f]{32})|(?P<nick>.+?)\s\((?P<prefix>[0-9a-f]{12})\))";

/// Whether `c` is an ASCII hexadecimal digit of either case.
pub open spec fn is_hex_digit(c: char) -> bool {
    ('0' <= c && c <= '9') || ('a' <= c && c <= 'f') || ('A' <= c && c <= 'F')
}

/// Whether `s` is `n` hexadecimal digits.
pub open spec fn is_hex(s: Seq<char>, n: nat) -> bool {
    s.len() == n && forall|i: int| 0 <= i < s.len() ==> is_hex_digit(#[trigger] s[i])
}

/// What one match of [`WHO_ENTRY`] captures in its groups `hash`, `nick` and
/// `prefix`, in that order: either a 32-digit hash alone, or a non-empty
/// nickname and a 12-digit prefix.
pub open spec fn who_capture_shape(c: Seq<Option<Seq<char>>>) -> bool {
    &&& c.len() == 3
    &&& {
        ||| (c[0] matches Some(h) && is_hex(h, 32) && c[1] is None && c[2] is None)
        ||| (c[0] is None && (c[1] matches Some(n) && n.len() > 0) && (c[2] matches Some(p) && is_hex(
            p,
            12,
        )))
    }
}

/// For each successive non-overlapping match of [`WHO_ENTRY`] in `text`, what
/// its groups `hash`, `nick` and `prefix` captured.
pub uninterp spec fn who_captures(text: Seq<char>) -> Seq<Seq<Option<Seq<char>>>>;

/// `regex::Regex::new(WHO_ENTRY)` and `Regex::captures_iter(text)`: for each
/// match, in order, the text that the groups `hash`, `nick` and `prefix`
/// captured. The contract claims that the pattern compiles, that the result is
/// the one named by [`who_captures`], and what the pattern guarantees of each
/// match ([`who_capture_shape`]): its two alternatives capture either
/// `[0-9a-f]{32}` or `.+?` and `[0-9a-f]{12}`, case-insensitively.
#[verifier::external_body]
fn who_entry_captures(text: &str) -> (r: Option<Vec<Vec<Option<String>>>>)
    ensures
        r matches Some(v) ==> v.deep_view() == who_captures(text@),
        r matches Some(v) ==> forall|i: int| 0 <= i < v@.len() ==> who_capture_shape(#[trigger] v.deep_view()[i]),
        r is Some,
{
    match regex::Regex::new(WHO_ENTRY) {
        Ok(re) => Some(re.captures_iter(text).map(|c| {
            ["hash", "nick", "prefix"].iter().map(|g| c.name(g).map(|m| m.as_str().to_string())).collect()
        }).collect()),
        Err(_) => None,
    }
}

/// The member of one WHO entry, from what the groups `hash`, `nick` and
/// `prefix` captured: a full hash gives an identity without nickname;
/// otherwise a nickname (trimmed) and a prefix give both; identities are
/// lowered to ASCII lower case.
pub open spec fn user_from_capture(c: Seq<Option<Seq<char>>>) -> Option<UserView> {
    if c.len() != 3 {
        None
    } else {
        match c[0] {
            Some(hash) => Some(
                UserView { nick: None, identity: text::lower(hash), operator: false, voiced: false },
            ),
            None => match (c[1], c[2]) {
                (Some(nick), Some(prefix)) => Some(
                    UserView {
                        nick: Some(text::trim(nick)),
                        identity: text::lower(prefix),
                        operator: false,
                        voiced: false,
                    },
                ),
                _ => None,
            },
        }
    }
}

/// The members of the matches `cs`, in order, skipping matches that give none.
pub open spec fn users_from_captures(cs: Seq<Seq<Option<Seq<char>>>>) -> Seq<UserView>
    decreases cs.len(),
{
    if cs.len() == 0 {
        Seq::empty()
    } else {
        let r = users_from_captures(cs.drop_last());
        match user_from_capture(cs.last()) {
            Some(u) => r.push(u),
            None => r,
        }
    }
}

/// Whether `c` is a lower-case hexadecimal digit.
pub open spec fn is_lower_hex_digit(c: char) -> bool {
    ('0' <= c && c <= '9') || ('a' <= c && c <= 'f')
}

/// What every member of a WHO notice satisfies: no roles, an identity of
/// lower-case hexadecimal digits, 32 of them without a nickname and 12 with
/// one, and a trimmed nickname.
pub open spec fn who_member(u: UserView) -> bool {
    &&& !u.operator && !u.voiced
    &&& forall|i: int| 0 <= i < u.identity.len() ==> is_lower_hex_digit(#[trigger] u.identity[i])
    &&& match u.nick {
        None => u.identity.len() == 32,
        Some(n) => u.identity.len() == 12 && text::trim(n) == n,
    }
}

proof fn lemma_lower_hex(s: Seq<char>, n: nat)
    requires
        is_hex(s, n),
    ensures
        text::lower(s).len() == n,
        forall|i: int| 0 <= i < n ==> is_lower_hex_digit(#[trigger] text::lower(s)[i]),
{
    assert forall|i: int| 0 <= i < n implies is_lower_hex_digit(#[trigger] text::lower(s)[i]) by {
        let c = s[i];
        assert(is_hex_digit(c));
        if 'A' <= c && c <= 'Z' {
            let d = ((c as u32) + 32) as char;
            assert(d == text::lower(s)[i]);
            assert((d as u32) == (c as u32) + 32);
        }
    }
}

/// Members read from well-shaped matches satisfy [`who_member`].
proof fn lemma_who_members(cs: Seq<Seq<Option<Seq<char>>>>)
    requires
        forall|i: int| 0 <= i < cs.len() ==> who_capture_shape(#[trigger] cs[i]),
    ensures
        forall|i: int| 0 <= i < users_from_captures(cs).len() ==> who_member(
            #[trigger] users_from_captures(cs)[i],
        ),
    decreases cs.len(),
{
    if cs.len() > 0 {
        let r = cs.drop_last();
        assert forall|i: int| 0 <= i < r.len() implies who_capture_shape(#[trigger] r[i]) by {
            assert(r[i] == cs[i]);
        }
        lemma_who_members(r);
        let c = cs.last();
        assert(who_capture_shape(cs[cs.len() - 1]));
        match user_from_capture(c) {
            Some(u) => {
                match c[0] {
                    Some(h) => {
                        lemma_lower_hex(h, 32);
                    },
                    None => {
                        let n = c[1]->Some_0;
                        let p = c[2]->Some_0;
                        lemma_lower_hex(p, 12);
                        text::lemma_trim_idempotent(n);
                    },
                }
                assert(who_member(u));
                let us = users_from_captures(cs);
                assert forall|i: int| 0 <= i < us.len() implies who_member(#[trigger] us[i]) by {
                    if i < us.len() - 1 {
                        assert(us[i] == users_from_captures(r)[i]);
                    }
                }
            },
            None => {},
        }
    }
}

fn lowered_string(s: &str) -> (r: String)
    ensures
        r@ == text::lower(s@),
{
    let cs = text::chars_of(s);
    let low = text::lower_chars(&cs);
    text::string_from_chars(&low)
}

fn user_from_capture_exec(c: &Vec<Option<String>>) -> (r: Option<UserInfo>)
    ensures
        r matches Some(u) ==> user_from_capture(c.deep_view()) == Some(u@),
        r is None ==> user_from_capture(c.deep_view()) is None,
{
    if c.len() != 3 {
        return None;
    }
    let ghost cv = c.deep_view();
    assert(cv[0] == string_view(c@[0]));
    assert(cv[1] == string_view(c@[1]));
    assert(cv[2] == string_view(c@[2]));
    match &c[0] {
        Some(hash) => Some(
            UserInfo {
                nick: None,
                identity: lowered_string(hash.as_str()),
                operator: false,
                voiced: false,
            },
        ),
        None => match (&c[1], &c[2]) {
            (Some(nick), Some(prefix)) => Some(
                UserInfo {
                    nick: Some(text::trimmed(nick.as_str())),
                    identity: lowered_string(prefix.as_str()),
                    operator: false,
                    voiced: false,
                },
            ),
            _ => None,
        },
    }
}

/// The members of WHO entries from the captures of [`WHO_ENTRY`]
/// ([`users_from_captures`]).
pub fn users_from_who_captures(captures: &Vec<Vec<Option<String>>>) -> (r: Vec<UserInfo>)
    ensures
        user_views(r@) == users_from_captures(captures.deep_view()),
{
    let ghost cs = captures.deep_view();
    let mut users: Vec<UserInfo> = Vec::new();
    let mut i: usize = 0;
    assert(cs.take(0) =~= Seq::<Seq<Option<Seq<char>>>>::empty());
    while i < captures.len()
        invariant
            i <= captures.len(),
            cs == captures.deep_view(),
            user_views(users@) == users_from_captures(cs.take(i as int)),
        decreases captures.len() - i,
    {
        assert(cs.take(i + 1).drop_last() =~= cs.take(i as int));
        assert(cs.take(i + 1).last() == captures@[i as int].deep_view());
        match user_from_capture_exec(&captures[i]) {
            Some(u) => {
                assert(user_views(users@.push(u)) =~= user_views(users@).push(u@));
                users.push(u);
            },
            None => {},
        }
        i = i + 1;
    }
    assert(cs.take(captures@.len() as int) =~= cs);
    users
}

/// What a WHO notice says: for text "members in ROOM: ENTRIES", the canonical
/// room name, unless empty, with no members for the entries "(none)" and
/// otherwise the members of the matches of [`WHO_ENTRY`] in the entries.
pub open spec fn who_spec(t: Seq<char>) -> Option<(Seq<char>, Seq<UserView>)> {
    let prefix = "members in "@;
    if !text::has_prefix(t, prefix) {
        None
    } else {
        match text::split_once(t.skip(prefix.len() as int), ": "@) {
            None => None,
            Some((room, entries)) => {
                let name = names::room_name(room);
                if name.len() == 0 {
                    None
                } else if text::trim(entries) == "(none)"@ {
                    Some((name, Seq::empty()))
                } else {
                    Some((name, users_from_captures(who_captures(entries))))
                }
            },
        }
    }
}

/// Parses a WHO notice ([`who_spec`]).
pub fn parse_who_notice(text: &str) -> (r: Option<(String, Vec<UserInfo>)>)
    ensures
        r matches Some(x) ==> who_spec(text@) == Some((x.0@, user_views(x.1@))),
        r is None ==> who_spec(text@) is None,
        r matches Some(x) ==> forall|i: int| 0 <= i < x.1@.len() ==> who_member(#[trigger] x.1@[i]@),
{
    let cs = text::chars_of(text);
    let prefix = text::chars_of("members in ");
    if !text::starts_with_chars(&cs, &prefix) {
        return None;
    }
    let rest = text::sub_chars(&cs, prefix.len(), cs.len());
    assert(rest@ =~= text@.skip(prefix@.len() as int));
    let sep = text::chars_of(": ");
    let at = match text::find_chars(&rest, &sep) {
        Some(i) => i,
        None => {
            return None;
        },
    };
    let room = text::sub_chars(&rest, 0, at);
    let entries_chars = text::sub_chars(&rest, at + sep.len(), rest.len());
    let name = names::room_name_of_chars(&room);
    if name.len() == 0 {
        return None;
    }
    let name = text::string_from_chars(&name);
    let trimmed_entries = text::trim_chars(&entries_chars);
    let none_marker = text::chars_of("(none)");
    if text::chars_equal(&trimmed_entries, &none_marker) {
        return Some((name, Vec::new()));
    }
    let entries = text::string_from_chars(&entries_chars);
    match who_entry_captures(entries.as_str()) {
        Some(captures) => {
            let users = users_from_who_captures(&captures);
            proof {
                lemma_who_members(captures.deep_view());
                assert forall|i: int| 0 <= i < users@.len() implies who_member(#[trigger] users@[i]@) by {
                    assert(user_views(users@)[i] == users@[i]@);
                }
            }
            Some((name, users))
        },
        None => None,
    }
}

/// A LIST line names a room exactly when it is not blank. A room's topic,
/// when there is one, is non-empty and trimmed, and it comes after the first
/// ` - ` of the trimmed line; a line without that separator names the room
/// it holds and gives no topic.
pub proof fn law_room_entry_shape(line: Seq<char>)
    ensures
        room_entry(line) is Some <==> text::trim(line).len() > 0,
        room_entry(line) matches Some(r) ==> (r.topic matches Some(t) ==> t.len() > 0
            && text::trim(t) == t),
        room_entry(line) matches Some(r) ==> (r.topic is Some ==> text::split_once(
            text::trim(line),
            topic_separator(),
        ) is Some),
        text::trim(line).len() > 0 && text::split_once(text::trim(line), topic_separator()) is None
            ==> room_entry(line) == Some(
            RoomView { name: names::room_name(text::trim(line)), topic: None },
        ),
{
    let l = text::trim(line);
    match text::split_once(l, topic_separator()) {
        Some((name, topic)) => {
            text::lemma_trim_idempotent(topic);
        },
        None => {},
    }
}

} // verus!
