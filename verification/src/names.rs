//! Normalization and validation of nicknames, room names and message text.

use crate::text;
use vstd::prelude::*;

verus! {

/// Whether `v` is acceptable text of at most `max` bytes: once trimmed it is
/// not empty, fits in `max` bytes of UTF-8 and holds no NUL or carriage return.
pub open spec fn is_valid_text(v: Seq<char>, max: nat) -> bool {
    let t = text::trim(v);
    &&& t.len() > 0
    &&& text::utf8_len(t) <= max
    &&& !t.contains('\0')
    &&& !t.contains('\r')
}

/// The normalized form of a nickname: trimmed, and refused when empty, longer
/// than `max` bytes, or holding a line break or NUL.
pub open spec fn nick_spec(v: Seq<char>, max: nat) -> Option<Seq<char>> {
    let t = text::trim(v);
    if t.len() == 0 || text::utf8_len(t) > max || t.contains('\n') || t.contains('\r') || t.contains(
        '\0',
    ) {
        None
    } else {
        Some(t)
    }
}

/// A room name as written with optional white space and `#` prefixes, reduced
/// to its canonical form: trimmed, leading `#`s removed, ASCII lower case.
pub open spec fn room_name(v: Seq<char>) -> Seq<char> {
    text::lower(text::strip_leading(text::trim(v), '#'))
}

/// The normalized form of a room name: [`room_name`], refused when empty,
/// longer than `max` bytes, or holding a space, line break or NUL.
pub open spec fn room_spec(v: Seq<char>, max: nat) -> Option<Seq<char>> {
    let r = room_name(v);
    if r.len() == 0 || text::utf8_len(r) > max || r.contains(' ') || r.contains('\n') || r.contains(
        '\r',
    ) || r.contains('\0') {
        None
    } else {
        Some(r)
    }
}

/// Whether `value` is acceptable text of at most `max_bytes` bytes.
pub fn valid_text(value: &str, max_bytes: usize) -> (b: bool)
    ensures
        b == is_valid_text(value@, max_bytes as nat),
{
    let cs = text::chars_of(value);
    let t = text::trim_chars(&cs);
    t.len() > 0 && text::utf8_len_at_most(&t, max_bytes) && !text::contains_char(&t, '\0')
        && !text::contains_char(&t, '\r')
}

/// Normalizes a nickname ([`nick_spec`]).
pub fn normalize_nick(value: &str, max_bytes: usize) -> (r: Option<String>)
    ensures
        r matches Some(s) ==> nick_spec(value@, max_bytes as nat) == Some(s@),
        r is None ==> nick_spec(value@, max_bytes as nat) is None,
{
    let cs = text::chars_of(value);
    let t = text::trim_chars(&cs);
    if t.len() == 0 || !text::utf8_len_at_most(&t, max_bytes) || text::contains_char(&t, '\n')
        || text::contains_char(&t, '\r') || text::contains_char(&t, '\0') {
        None
    } else {
        Some(text::string_from_chars(&t))
    }
}

/// The canonical form of a room name ([`room_name`]), without the checks.
pub fn room_name_chars(value: &str) -> (r: Vec<char>)
    ensures
        r@ == room_name(value@),
{
    let cs = text::chars_of(value);
    room_name_of_chars(&cs)
}

/// [`room_name`] of a character vector.
pub fn room_name_of_chars(cs: &Vec<char>) -> (r: Vec<char>)
    ensures
        r@ == room_name(cs@),
{
    let t = text::trim_chars(cs);
    let h = text::strip_leading_chars(&t, '#');
    text::lower_chars(&h)
}

/// Normalizes a room name ([`room_spec`]).
pub fn normalize_room(value: &str, max_bytes: usize) -> (r: Option<String>)
    ensures
        r matches Some(s) ==> room_spec(value@, max_bytes as nat) == Some(s@),
        r is None ==> room_spec(value@, max_bytes as nat) is None,
{
    let r = room_name_chars(value);
    if r.len() == 0 || !text::utf8_len_at_most(&r, max_bytes) || text::contains_char(&r, ' ')
        || text::contains_char(&r, '\n') || text::contains_char(&r, '\r') || text::contains_char(
        &r,
        '\0',
    ) {
        None
    } else {
        Some(text::string_from_chars(&r))
    }
}


/// A normalized nickname normalizes to itself.
pub proof fn law_normalized_nick_is_fixed_point(v: Seq<char>, max: nat)
    requires
        nick_spec(v, max) is Some,
    ensures
        nick_spec(nick_spec(v, max)->Some_0, max) == nick_spec(v, max),
{
    text::lemma_trim_idempotent(v);
}

/// A normalized room name is non-empty, fits in `max` bytes, holds no space,
/// line break, NUL or ASCII capital letter, and does not start with `#`.
pub proof fn law_normalized_room_is_canonical(v: Seq<char>, max: nat)
    requires
        room_spec(v, max) is Some,
    ensures
        ({
            let r = room_spec(v, max)->Some_0;
            &&& r.len() > 0
            &&& text::utf8_len(r) <= max
            &&& !r.contains(' ') && !r.contains('\n') && !r.contains('\r') && !r.contains('\0')
            &&& forall|i: int| 0 <= i < r.len() ==> !('A' <= #[trigger] r[i] && r[i] <= 'Z')
            &&& r[0] != '#'
        }),
{
    let x = text::strip_leading(text::trim(v), '#');
    text::lemma_strip_leading_shape(text::trim(v), '#');
    text::lemma_lower_shape(x);
    let r = room_spec(v, max)->Some_0;
    assert(r[0] == text::lower_char(x[0]));
}

/// A normalized room name that does not start with white space normalizes to
/// itself. (One that does, such as the result for `"#\tx"`, loses that white
/// space when normalized again.)
pub proof fn law_normalized_room_is_fixed_point(v: Seq<char>, max: nat)
    requires
        room_spec(v, max) is Some,
        !text::is_white_space(room_spec(v, max)->Some_0[0]),
    ensures
        room_spec(room_spec(v, max)->Some_0, max) == room_spec(v, max),
{
    let t = text::trim(v);
    let x = text::strip_leading(t, '#');
    let r = room_spec(v, max)->Some_0;
    law_normalized_room_is_canonical(v, max);
    text::lemma_trim_shape(v);
    text::lemma_strip_leading_shape(t, '#');
    text::lemma_lower_shape(x);
    assert(x.last() == t.last());
    assert(r.last() == text::lower_char(x.last()));
    text::lemma_trim_fixed(r);
    assert(text::strip_leading(r, '#') == r);
    text::lemma_lower_shape(r);
    assert(text::lower(r) =~= r) by {
        assert forall|i: int| 0 <= i < r.len() implies text::lower(r)[i] == r[i] by {
            assert(!('A' <= r[i] && r[i] <= 'Z'));
        }
    }
}

/// Text is valid exactly when, once trimmed, it is not empty, fits in `max`
/// bytes and holds no NUL and no carriage return; any other character, a line
/// feed among them, is accepted.
pub proof fn law_valid_text_refuses_only(v: Seq<char>, max: nat)
    ensures
        is_valid_text(v, max) <==> {
            let t = text::trim(v);
            &&& t.len() > 0
            &&& text::utf8_len(t) <= max
            &&& forall|i: int| 0 <= i < t.len() ==> #[trigger] t[i] != '\0' && t[i] != '\r'
        },
{
    let t = text::trim(v);
    assert(t.contains('\0') <==> exists|i: int| 0 <= i < t.len() && t[i] == '\0');
    assert(t.contains('\r') <==> exists|i: int| 0 <= i < t.len() && t[i] == '\r');
}

/// A nickname normalizes to its trimmed form exactly when that is not empty,
/// fits in `max` bytes and holds no line feed, carriage return or NUL; no other
/// character refuses it.
pub proof fn law_nick_refuses_only(v: Seq<char>, max: nat)
    ensures
        nick_spec(v, max) == if ({
            let t = text::trim(v);
            &&& t.len() > 0
            &&& text::utf8_len(t) <= max
            &&& forall|i: int|
                0 <= i < t.len() ==> #[trigger] t[i] != '\n' && t[i] != '\r' && t[i] != '\0'
        }) {
            Some(text::trim(v))
        } else {
            None
        },
{
    let t = text::trim(v);
    assert(t.contains('\n') <==> exists|i: int| 0 <= i < t.len() && t[i] == '\n');
    assert(t.contains('\r') <==> exists|i: int| 0 <= i < t.len() && t[i] == '\r');
    assert(t.contains('\0') <==> exists|i: int| 0 <= i < t.len() && t[i] == '\0');
}

/// A room name normalizes to its canonical form ([`room_name`]) exactly when
/// that is not empty, fits in `max` bytes and holds no space, line feed,
/// carriage return or NUL; no other character, a hyphen among them, refuses it.
pub proof fn law_room_refuses_only(v: Seq<char>, max: nat)
    ensures
        room_spec(v, max) == if ({
            let r = room_name(v);
            &&& r.len() > 0
            &&& text::utf8_len(r) <= max
            &&& forall|i: int|
                0 <= i < r.len() ==> #[trigger] r[i] != ' ' && r[i] != '\n' && r[i] != '\r' && r[i]
                    != '\0'
        }) {
            Some(room_name(v))
        } else {
            None
        },
{
    let r = room_name(v);
    assert(r.contains(' ') <==> exists|i: int| 0 <= i < r.len() && r[i] == ' ');
    assert(r.contains('\n') <==> exists|i: int| 0 <= i < r.len() && r[i] == '\n');
    assert(r.contains('\r') <==> exists|i: int| 0 <= i < r.len() && r[i] == '\r');
    assert(r.contains('\0') <==> exists|i: int| 0 <= i < r.len() && r[i] == '\0');
}

} // verus!
