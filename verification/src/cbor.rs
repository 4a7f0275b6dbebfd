//! CBOR encoding and decoding, through `serde_cbor`.

use crate::value::{self, Cbor, Item, ItemMap};
use vstd::prelude::*;

verus! {

#[verifier::external_type_specification]
#[verifier::external_body]
pub struct ExOutsideValue(serde_cbor::Value);

#[verifier::external_type_specification]
#[verifier::external_body]
pub struct ExOutsideError(serde_cbor::Error);

/// The CBOR item that `serde_cbor::from_slice` reads from `bytes`, or `None`
/// where it reports an error.
pub uninterp spec fn cbor_decode(bytes: Seq<u8>) -> Option<Cbor>;

/// The bytes that `serde_cbor::to_vec` writes for `item`.
pub uninterp spec fn cbor_encode(item: Cbor) -> Seq<u8>;

/// An integer that CBOR can carry: `-2^64 ..= 2^64 - 1`.
pub open spec fn cbor_integer_range(i: i128) -> bool {
    -18446744073709551616 <= i <= 18446744073709551615
}

/// Whether every integer in `c`, at any depth, is in [`cbor_integer_range`].
pub open spec fn integers_in_range(c: Cbor) -> bool
    decreases c,
{
    match c {
        Cbor::Integer(i) => cbor_integer_range(i),
        Cbor::Array(a) => forall|i: int| 0 <= i < a.len() ==> integers_in_range(#[trigger] a[i]),
        Cbor::Table(m) => forall|i: int|
            0 <= i < m.len() ==> integers_in_range((#[trigger] m[i]).0) && integers_in_range(m[i].1),
        Cbor::Tag(_, b) => integers_in_range(*b),
        _ => true,
    }
}

/// Whether every integer in `item`, at any depth, is one CBOR can carry
/// ([`integers_in_range`]).
pub fn item_in_range(item: &Item) -> (b: bool)
    ensures
        b == integers_in_range(item@),
    decreases item,
{
    match item {
        Item::Integer(i) => -18446744073709551616i128 <= *i && *i <= 18446744073709551615i128,
        Item::Array(a) => {
            proof {
                value::lemma_values_view_index(a@);
            }
            let mut i: usize = 0;
            while i < a.len()
                invariant
                    i <= a.len(),
                    *item == Item::Array(*a),
                    value::values_view(a@).len() == a@.len(),
                    forall|j: int| 0 <= j < a@.len() ==> #[trigger] value::values_view(a@)[j] == a@[j]@,
                    forall|j: int| 0 <= j < i ==> integers_in_range(#[trigger] value::values_view(a@)[j]),
                decreases a.len() - i,
            {
                proof {
                    assert(decreases_to!(*item => item->Array_0));
                    assert(item->Array_0 == *a);
                    assert(decreases_to!(*a => a@));
                    assert(decreases_to!(a@ => a@[i as int]));
                    assert(decreases_to!(*item => a@[i as int]));
                }
                if !item_in_range(&a[i]) {
                    assert(value::values_view(a@)[i as int] == a@[i as int]@);
                    let ghost c = item@;
                    assert(c is Array && c->Array_0 == value::values_view(a@));
                    assert(integers_in_range(c) ==> integers_in_range(c->Array_0[i as int]));
                    return false;
                }
                i = i + 1;
            }
            true
        },
        Item::Table(m) => {
            proof {
                assert(decreases_to!(*item => *m));
            }
            table_in_range(m)
        },
        Item::Tag(_, b) => item_in_range(&**b),
        _ => true,
    }
}

/// Whether every integer in the keys and values of `m` is one CBOR can carry.
pub fn table_in_range(m: &ItemMap) -> (b: bool)
    ensures
        b == integers_in_range(Cbor::Table(m@)),
    decreases m,
{
    proof {
        value::lemma_entries_view_index(m.entries@);
    }
    let mut i: usize = 0;
    while i < m.entries.len()
        invariant
            i <= m.entries.len(),
            m@.len() == m.entries@.len(),
            forall|j: int| 0 <= j < m.entries@.len() ==> #[trigger] m@[j] == (m.entries@[j].0@, m.entries@[j].1@),
            forall|j: int| 0 <= j < i ==> integers_in_range((#[trigger] m@[j]).0) && integers_in_range(m@[j].1),
        decreases m.entries.len() - i,
    {
        proof {
            assert(decreases_to!(*m => m.entries@[i as int].0));
            assert(decreases_to!(*m => m.entries@[i as int].1));
        }
        if !item_in_range(&m.entries[i].0) || !item_in_range(&m.entries[i].1) {
            assert(m@[i as int] == (m.entries@[i as int].0@, m.entries@[i as int].1@));
            let ghost c = Cbor::Table(m@);
            assert(c is Table && c->Table_0 == m@);
            assert(integers_in_range(c) ==> integers_in_range(c->Table_0[i as int].0) && integers_in_range(c->Table_0[i as int].1));
            return false;
        }
        i = i + 1;
    }
    true
}

/// Whether the byte sequence `a` comes before `b` of the same length in
/// lexicographic order.
pub open spec fn bytes_before(a: Seq<u8>, b: Seq<u8>) -> bool {
    exists|k: int|
        0 <= k < a.len() && k < b.len() && a.take(k) == b.take(k) && (#[trigger] a[k]) < b[k]
}

/// Lexicographic order of byte sequences, a proper prefix first.
pub open spec fn lex_before(a: Seq<u8>, b: Seq<u8>) -> bool {
    bytes_before(a, b) || (a.len() < b.len() && b.take(a.len() as int) == a)
}

/// The CBOR major type of an item: 0 for a non-negative integer, 1 for a
/// negative one, 2 for bytes, 3 for text, 4 for an array, 5 for a map, 6 for a
/// tag, 7 for a float, a boolean or null.
pub open spec fn major_type(c: Cbor) -> int {
    match c {
        Cbor::Integer(i) => if i >= 0 {
            0
        } else {
            1
        },
        Cbor::Bytes(_) => 2,
        Cbor::Text(_) => 3,
        Cbor::Array(_) => 4,
        Cbor::Table(_) => 5,
        Cbor::Tag(_, _) => 6,
        _ => 7,
    }
}

/// The canonical order of CBOR map keys, the order of `serde_cbor::Value`:
/// by major type; integers by magnitude ([`value::key_order`]); byte and text
/// strings by encoded length, then byte by byte; arrays and maps by their
/// number of elements, then by their encodings ([`cbor_encode`]); booleans and
/// null by their encodings.
pub open spec fn key_before(a: Cbor, b: Cbor) -> bool {
    if major_type(a) != major_type(b) {
        major_type(a) < major_type(b)
    } else {
        match (a, b) {
            (Cbor::Integer(x), Cbor::Integer(y)) => value::key_order(x, y),
            (Cbor::Bytes(x), Cbor::Bytes(y)) => x.len() < y.len() || (x.len() == y.len()
                && bytes_before(x, y)),
            (Cbor::Text(x), Cbor::Text(y)) => {
                let (ex, ey) = (vstd::utf8::encode_utf8(x), vstd::utf8::encode_utf8(y));
                ex.len() < ey.len() || (ex.len() == ey.len() && bytes_before(ex, ey))
            },
            (Cbor::Array(x), Cbor::Array(y)) => x.len() < y.len() || (x.len() == y.len()
                && lex_before(cbor_encode(a), cbor_encode(b))),
            (Cbor::Table(x), Cbor::Table(y)) => x.len() < y.len() || (x.len() == y.len()
                && lex_before(cbor_encode(a), cbor_encode(b))),
            _ => lex_before(cbor_encode(a), cbor_encode(b)),
        }
    }
}

/// Items nested in at most `depth` arrays and maps, built from null,
/// booleans, integers in [`cbor_integer_range`], byte and text strings, arrays,
/// and maps whose keys are themselves such items, in strictly ascending
/// [`key_before`] order.
pub open spec fn plain_within(c: Cbor, depth: nat) -> bool
    decreases depth,
{
    match c {
        Cbor::Null => true,
        Cbor::Bool(_) => true,
        Cbor::Integer(i) => cbor_integer_range(i),
        Cbor::Bytes(_) => true,
        Cbor::Text(_) => true,
        Cbor::Float(_) => false,
        Cbor::Tag(_, _) => false,
        Cbor::Array(a) => depth > 0 && forall|i: int|
            0 <= i < a.len() ==> plain_within(#[trigger] a[i], (depth - 1) as nat),
        Cbor::Table(m) => depth > 0 && (forall|i: int|
            0 <= i < m.len() ==> plain_within((#[trigger] m[i]).0, (depth - 1) as nat)
                && plain_within(m[i].1, (depth - 1) as nat)) && (forall|i: int, j: int|
            0 <= i < j < m.len() ==> key_before((#[trigger] m[i]).0, (#[trigger] m[j]).0)),
    }
}

/// A map whose integer keys ascend in canonical order, as
/// [`crate::value::ItemMap::insert`] keeps them, is plain when its keys are in
/// range and its values plain.
pub proof fn law_ordered_table_plain(m: Seq<(Cbor, Cbor)>, depth: nat)
    requires
        depth > 0,
        value::integer_keys_ascending(m),
        forall|i: int|
            0 <= i < m.len() ==> cbor_integer_range((#[trigger] m[i]).0->Integer_0) && plain_within(
                m[i].1,
                (depth - 1) as nat,
            ),
    ensures
        plain_within(Cbor::Table(m), depth),
{
    let c = Cbor::Table(m);
    assert(c is Table && c->Table_0 == m);
    assert forall|i: int| 0 <= i < m.len() implies plain_within((#[trigger] m[i]).0, (depth - 1) as nat)
        && plain_within(m[i].1, (depth - 1) as nat) by {
        let k = m[i].0;
        assert(k is Integer);
        assert(k == Cbor::Integer(k->Integer_0));
    }
    assert forall|i: int, j: int| 0 <= i < j < m.len() implies key_before(
        (#[trigger] m[i]).0,
        (#[trigger] m[j]).0,
    ) by {
        let (a, b) = (m[i].0, m[j].0);
        assert(a is Integer && b is Integer);
        assert(a == Cbor::Integer(a->Integer_0) && b == Cbor::Integer(b->Integer_0));
        assert(value::key_order(a->Integer_0, b->Integer_0));
    }
}

/// Items that encode and decode back to themselves: [`plain_within`] 127
/// arrays and maps, the most the decoder reads (it refuses the 128th).
pub open spec fn plain(c: Cbor) -> bool {
    plain_within(c, 127)
}

/// Plain items hold only integers that CBOR carries.
pub proof fn lemma_plain_integers_in_range(c: Cbor, depth: nat)
    requires
        plain_within(c, depth),
    ensures
        integers_in_range(c),
    decreases depth,
{
    match c {
        Cbor::Array(a) => {
            assert forall|i: int| 0 <= i < a.len() implies integers_in_range(#[trigger] a[i]) by {
                lemma_plain_integers_in_range(a[i], (depth - 1) as nat);
            }
        },
        Cbor::Table(m) => {
            assert forall|i: int| 0 <= i < m.len() implies integers_in_range((#[trigger] m[i]).0)
                && integers_in_range(m[i].1) by {
                lemma_plain_integers_in_range(m[i].0, (depth - 1) as nat);
                lemma_plain_integers_in_range(m[i].1, (depth - 1) as nat);
            }
        },
        _ => {},
    }
}

/// Decodes exactly one CBOR item from `bytes` with `serde_cbor::from_slice`.
/// The contract claims only that the result is the one named by
/// [`cbor_decode`], a function of the bytes alone.
#[verifier::external_body]
pub(crate) fn decode_item(bytes: &[u8]) -> (r: Result<Item, serde_cbor::Error>)
    ensures
        r matches Ok(v) ==> cbor_decode(bytes@) == Some(v@),
        r is Err ==> cbor_decode(bytes@) is None,
{
    serde_cbor::from_slice::<serde_cbor::Value>(bytes).map(value_from_outside)
}

/// Encodes `item` with `serde_cbor::to_vec`, for an item whose integers CBOR
/// can all carry: the encoder refuses an integer outside that range, and the
/// key order of its maps compares such an integer by encoding it and panics
/// when that fails, so those items are left out. The contract claims that the
/// bytes are the ones named by [`cbor_encode`]; that no error is reported
/// (writing to a vector cannot fail, and the range was the only refusal); and
/// that a [`plain`] item is encoded into bytes that `serde_cbor::from_slice`
/// reads back as the same item: the decoder accepts 127 nested arrays and
/// maps; a map serializes in the order of `serde_cbor::Value` keys, which is
/// [`key_before`] (by major type, integers by magnitude, strings and
/// collections by length and then byte by byte, everything else by its
/// encoding), and decodes into a map iterated in that order, so distinct keys
/// in that order come back in it; each other plain item has one encoding that
/// decodes to the variant it came from.
#[verifier::external_body]
pub(crate) fn encode_item(item: &Item) -> (r: Result<Vec<u8>, serde_cbor::Error>)
    requires
        integers_in_range(item@),
    ensures
        r matches Ok(b) ==> b@ == cbor_encode(item@),
        r is Ok,
        r matches Ok(b) ==> (plain(item@) ==> cbor_decode(b@) == Some(item@)),
{
    serde_cbor::to_vec(&value_to_outside(item))
}

/// Converts a `serde_cbor::Value` into an [`Item`], variant by variant.
#[verifier::external_body]
fn value_from_outside(v: serde_cbor::Value) -> Item {
    match v {
        serde_cbor::Value::Null => Item::Null,
        serde_cbor::Value::Bool(b) => Item::Bool(b),
        serde_cbor::Value::Integer(i) => Item::Integer(i),
        serde_cbor::Value::Float(f) => Item::Float(f.to_bits()),
        serde_cbor::Value::Bytes(b) => Item::Bytes(b),
        serde_cbor::Value::Text(t) => Item::Text(t),
        serde_cbor::Value::Array(a) => Item::Array(a.into_iter().map(value_from_outside).collect()),
        serde_cbor::Value::Map(m) => Item::Table(table_from_outside(m)),
        serde_cbor::Value::Tag(t, b) => Item::Tag(t, Box::new(value_from_outside(*b))),
        _ => Item::Null,
    }
}

/// Converts the entries of a `serde_cbor` map, in its iteration order.
#[verifier::external_body]
fn table_from_outside(m: std::collections::BTreeMap<serde_cbor::Value, serde_cbor::Value>) -> ItemMap {
    ItemMap { entries: m.into_iter().map(|(k, x)| (value_from_outside(k), value_from_outside(x))).collect() }
}

/// Converts an [`Item`] into a `serde_cbor::Value`, variant by variant. Its
/// integers must be ones CBOR carries: collecting a map compares its keys, and
/// the comparison of array and map keys encodes them and panics on any other.
#[verifier::external_body]
fn value_to_outside(v: &Item) -> serde_cbor::Value
    requires
        integers_in_range(v@),
{
    match v {
        Item::Null => serde_cbor::Value::Null,
        Item::Bool(b) => serde_cbor::Value::Bool(*b),
        Item::Integer(i) => serde_cbor::Value::Integer(*i),
        Item::Float(f) => float_to_outside(*f),
        Item::Bytes(b) => serde_cbor::Value::Bytes(b.clone()),
        Item::Text(t) => serde_cbor::Value::Text(t.clone()),
        Item::Array(a) => serde_cbor::Value::Array(a.iter().map(value_to_outside).collect()),
        Item::Table(m) => table_to_outside(m),
        Item::Tag(t, b) => serde_cbor::Value::Tag(*t, Box::new(value_to_outside(b))),
    }
}

/// Converts the entries of an [`ItemMap`] into a `serde_cbor` map, for
/// entries whose integers CBOR carries (see [`value_to_outside`]).
#[verifier::external_body]
fn table_to_outside(m: &ItemMap) -> serde_cbor::Value
    requires
        integers_in_range(Cbor::Table(m@)),
{
    serde_cbor::Value::Map(m.entries.iter().map(|(k, x)| (value_to_outside(k), value_to_outside(x))).collect())
}

/// Rebuilds a float from its IEEE-754 binary64 bits by reading them as the
/// CBOR encoding of a double (initial byte `0xfb`, then the bits big-endian).
#[verifier::external_body]
fn float_to_outside(bits: u64) -> serde_cbor::Value {
    let encoded = [&[0xfb][..], &bits.to_be_bytes()[..]].concat();
    serde_cbor::from_slice(&encoded).unwrap_or(serde_cbor::Value::Null)
}

} // verus!
