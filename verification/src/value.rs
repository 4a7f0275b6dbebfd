//! CBOR data model: the executable [`Item`] and its mathematical view [`Cbor`].

use crate::cbor::key_before;
use vstd::prelude::*;

verus! {

/// Mathematical model of a CBOR data item.
pub enum Cbor {
    Null,
    Bool(bool),
    Integer(i128),
    /// IEEE-754 binary64 bit pattern of a floating-point item.
    Float(u64),
    Bytes(Seq<u8>),
    Text(Seq<char>),
    Array(Seq<Cbor>),
    Table(Seq<(Cbor, Cbor)>),
    Tag(u64, Box<Cbor>),
}

/// A CBOR data item.
#[derive(Debug, PartialEq)]
pub enum Item {
    /// CBOR `null` (and `undefined`).
    Null,
    Bool(bool),
    /// An integer; CBOR can carry `-2^64 ..= 2^64 - 1`.
    Integer(i128),
    /// A floating-point item, held as its IEEE-754 binary64 bit pattern.
    Float(u64),
    Bytes(Vec<u8>),
    Text(String),
    Array(Vec<Item>),
    /// A map (CBOR major type 5).
    Table(ItemMap),
    Tag(u64, Box<Item>),
}

/// A CBOR map, as its entries in order. A well-formed map
/// ([`ItemMap::well_formed`]) holds distinct keys in canonical CBOR order, as
/// `serde_cbor` orders a map; [`ItemMap::new`] makes one and
/// [`ItemMap::insert`] keeps it so.
#[derive(Debug, PartialEq)]
pub struct ItemMap {
    pub entries: Vec<(Item, Item)>,
}

pub open spec fn value_view(v: Item) -> Cbor
    decreases v,
{
    match v {
        Item::Null => Cbor::Null,
        Item::Bool(b) => Cbor::Bool(b),
        Item::Integer(i) => Cbor::Integer(i),
        Item::Float(f) => Cbor::Float(f),
        Item::Bytes(b) => Cbor::Bytes(b@),
        Item::Text(t) => Cbor::Text(t@),
        Item::Array(a) => Cbor::Array(values_view(a@)),
        Item::Table(m) => Cbor::Table(entries_view(m.entries@)),
        Item::Tag(t, b) => Cbor::Tag(t, Box::new(value_view(*b))),
    }
}

pub open spec fn values_view(s: Seq<Item>) -> Seq<Cbor>
    decreases s,
{
    if s.len() == 0 {
        Seq::empty()
    } else {
        values_view(s.subrange(0, s.len() - 1)).push(value_view(s[s.len() - 1]))
    }
}

pub open spec fn entries_view(s: Seq<(Item, Item)>) -> Seq<(Cbor, Cbor)>
    decreases s,
{
    if s.len() == 0 {
        Seq::empty()
    } else {
        entries_view(s.subrange(0, s.len() - 1)).push(
            (value_view(s[s.len() - 1].0), value_view(s[s.len() - 1].1)),
        )
    }
}

impl View for Item {
    type V = Cbor;

    open spec fn view(&self) -> Cbor {
        value_view(*self)
    }
}


impl View for ItemMap {
    type V = Seq<(Cbor, Cbor)>;

    open spec fn view(&self) -> Seq<(Cbor, Cbor)> {
        entries_view(self.entries@)
    }
}

pub(crate) proof fn lemma_values_view_push(s: Seq<Item>, i: int)
    requires
        0 <= i < s.len(),
    ensures
        values_view(s.take(i + 1)) == values_view(s.take(i)).push(value_view(s[i])),
{
    assert(s.take(i + 1).subrange(0, i) =~= s.take(i));
}

pub(crate) proof fn lemma_entries_view_push(s: Seq<(Item, Item)>, i: int)
    requires
        0 <= i < s.len(),
    ensures
        entries_view(s.take(i + 1)) == entries_view(s.take(i)).push(
            (value_view(s[i].0), value_view(s[i].1)),
        ),
{
    assert(s.take(i + 1).subrange(0, i) =~= s.take(i));
}

fn copy_bytes(b: &Vec<u8>) -> (r: Vec<u8>)
    ensures
        r@ == b@,
{
    let mut r: Vec<u8> = Vec::new();
    let mut i: usize = 0;
    while i < b.len()
        invariant
            i <= b.len(),
            r@ == b@.take(i as int),
        decreases b.len() - i,
    {
        r.push(b[i]);
        i = i + 1;
        assert(r@ =~= b@.take(i as int));
    }
    assert(b@.take(b@.len() as int) =~= b@);
    r
}

impl Item {
    /// A copy of this item with the same view.
    pub fn deep_copy(&self) -> (res: Item)
        ensures
            res@ == self@,
        decreases self,
    {
        match self {
            Item::Null => Item::Null,
            Item::Bool(b) => Item::Bool(*b),
            Item::Integer(i) => Item::Integer(*i),
            Item::Float(f) => Item::Float(*f),
            Item::Bytes(b) => Item::Bytes(copy_bytes(b)),
            Item::Text(t) => Item::Text(t.clone()),
            Item::Array(a) => {
                let mut out: Vec<Item> = Vec::new();
                let mut i: usize = 0;
                assert(a@.take(0) =~= Seq::<Item>::empty());
                while i < a.len()
                    invariant
                        i <= a.len(),
                        *self == Item::Array(*a),
                        values_view(out@) == values_view(a@.take(i as int)),
                    decreases a.len() - i,
                {
                    proof {
                        assert(decreases_to!(*self => self->Array_0));
                        assert(self->Array_0 == *a);
                        assert(decreases_to!(*a => a@));
                        assert(decreases_to!(a@ => a@[i as int]));
                        assert(decreases_to!(*self => a@[i as int]));
                    }
                    let item = a[i].deep_copy();
                    proof {
                        lemma_values_view_push(a@, i as int);
                        lemma_values_view_push(out@.push(item), out@.len() as int);
                        assert(out@.push(item).take(out@.len() as int) =~= out@);
                        assert(out@.push(item).take(out@.len() as int + 1) =~= out@.push(item));
                    }
                    out.push(item);
                    i = i + 1;
                }
                assert(a@.take(a@.len() as int) =~= a@);
                Item::Array(out)
            },
            Item::Table(m) => {
                proof {
                    assert(decreases_to!(*self => *m));
                }
                Item::Table(m.deep_copy())
            },
            Item::Tag(t, b) => Item::Tag(*t, Box::new((**b).deep_copy())),
        }
    }
}

impl Clone for Item {
    fn clone(&self) -> (res: Self)
        ensures
            res@ == self@,
    {
        self.deep_copy()
    }
}

impl Clone for ItemMap {
    fn clone(&self) -> (res: Self)
        ensures
            res@ == self@,
    {
        self.deep_copy()
    }
}

impl ItemMap {
    /// A copy of this map with the same view.
    pub fn deep_copy(&self) -> (res: ItemMap)
        ensures
            res@ == self@,
        decreases self,
    {
        let mut out: Vec<(Item, Item)> = Vec::new();
        let mut i: usize = 0;
        assert(self.entries@.take(0) =~= Seq::<(Item, Item)>::empty());
        while i < self.entries.len()
            invariant
                i <= self.entries.len(),
                entries_view(out@) == entries_view(self.entries@.take(i as int)),
            decreases self.entries.len() - i,
        {
            proof {
                assert(decreases_to!(*self => self.entries@[i as int].0));
                assert(decreases_to!(*self => self.entries@[i as int].1));
            }
            let k = self.entries[i].0.deep_copy();
            let v = self.entries[i].1.deep_copy();
            proof {
                lemma_entries_view_push(self.entries@, i as int);
                lemma_entries_view_push(out@.push((k, v)), out@.len() as int);
                assert(out@.push((k, v)).take(out@.len() as int) =~= out@);
                assert(out@.push((k, v)).take(out@.len() as int + 1) =~= out@.push((k, v)));
            }
            out.push((k, v));
            i = i + 1;
        }
        assert(self.entries@.take(self.entries@.len() as int) =~= self.entries@);
        ItemMap { entries: out }
    }
}


/// The value of the first entry of `m` whose key is the integer `key`.
pub open spec fn lookup(m: Seq<(Cbor, Cbor)>, key: i128) -> Option<Cbor>
    decreases m.len(),
{
    if m.len() == 0 {
        None
    } else if m[0].0 == Cbor::Integer(key) {
        Some(m[0].1)
    } else {
        lookup(m.drop_first(), key)
    }
}

/// `m` with the first entry for the integer `key` given the value `v`.
pub open spec fn table_replace(m: Seq<(Cbor, Cbor)>, key: i128, v: Cbor) -> Seq<(Cbor, Cbor)>
    decreases m.len(),
{
    if m.len() == 0 {
        m
    } else if m[0].0 == Cbor::Integer(key) {
        seq![(m[0].0, v)] + m.drop_first()
    } else {
        seq![m[0]] + table_replace(m.drop_first(), key, v)
    }
}

/// The order of integer map keys in canonical CBOR: non-negative integers
/// first, in ascending order, then negative integers by ascending magnitude
/// (their encodings sort by major type, then by the magnitude they carry).
pub open spec fn key_order(a: i128, b: i128) -> bool {
    if a >= 0 {
        b < 0 || a < b
    } else {
        b < 0 && b < a
    }
}

/// Whether `c` is an integer before `key` in [`key_order`].
pub open spec fn integer_key_below(c: Cbor, key: i128) -> bool {
    c matches Cbor::Integer(k) && key_order(k, key)
}

/// `m` with a new entry `(key, v)` placed after the leading entries whose keys
/// are integers before `key` in [`key_order`].
pub open spec fn table_place(m: Seq<(Cbor, Cbor)>, key: i128, v: Cbor) -> Seq<(Cbor, Cbor)>
    decreases m.len(),
{
    if m.len() > 0 && integer_key_below(m[0].0, key) {
        seq![m[0]] + table_place(m.drop_first(), key, v)
    } else {
        seq![(Cbor::Integer(key), v)] + m
    }
}

/// `m` with the integer `key` mapped to `v`: an entry for `key` is given the
/// new value in place; otherwise a new entry is placed in key order
/// ([`table_place`]).
pub open spec fn table_insert(m: Seq<(Cbor, Cbor)>, key: i128, v: Cbor) -> Seq<(Cbor, Cbor)> {
    if lookup(m, key) is Some {
        table_replace(m, key, v)
    } else {
        table_place(m, key, v)
    }
}

/// Whether every key of `m` is an integer and the keys strictly ascend in
/// [`key_order`].
pub open spec fn integer_keys_ascending(m: Seq<(Cbor, Cbor)>) -> bool {
    &&& forall|i: int| 0 <= i < m.len() ==> (#[trigger] m[i]).0 is Integer
    &&& forall|i: int, j: int|
        0 <= i < j < m.len() ==> key_order((#[trigger] m[i]).0->Integer_0, (#[trigger] m[j]).0->Integer_0)
}

proof fn lemma_table_replace(m: Seq<(Cbor, Cbor)>, key: i128, v: Cbor, other: i128)
    requires
        lookup(m, key) is Some,
    ensures
        lookup(table_replace(m, key, v), key) == Some(v),
        other != key ==> lookup(table_replace(m, key, v), other) == lookup(m, other),
        table_replace(m, key, v).len() == m.len(),
        forall|i: int|
            0 <= i < m.len() ==> (#[trigger] table_replace(m, key, v)[i]).0 == m[i].0,
    decreases m.len(),
{
    let t = table_replace(m, key, v);
    if m[0].0 != Cbor::Integer(key) {
        lemma_table_replace(m.drop_first(), key, v, other);
        assert(t[0] == m[0]);
        assert(t.drop_first() =~= table_replace(m.drop_first(), key, v));
        assert forall|i: int| 0 <= i < m.len() implies (#[trigger] t[i]).0 == m[i].0 by {
            if i > 0 {
                assert(t[i] == table_replace(m.drop_first(), key, v)[i - 1]);
            }
        }
    } else {
        assert(t[0] == (m[0].0, v));
        assert(t.drop_first() =~= m.drop_first());
        assert forall|i: int| 0 <= i < m.len() implies (#[trigger] t[i]).0 == m[i].0 by {
            if i > 0 {
                assert(t[i] == m[i]);
            }
        }
    }
}

proof fn lemma_table_place(m: Seq<(Cbor, Cbor)>, key: i128, v: Cbor, other: i128)
    requires
        lookup(m, key) is None,
    ensures
        lookup(table_place(m, key, v), key) == Some(v),
        other != key ==> lookup(table_place(m, key, v), other) == lookup(m, other),
    decreases m.len(),
{
    let t = table_place(m, key, v);
    if m.len() > 0 && integer_key_below(m[0].0, key) {
        lemma_table_place(m.drop_first(), key, v, other);
        assert(t[0] == m[0]);
        assert(t.drop_first() =~= table_place(m.drop_first(), key, v));
    } else {
        assert(t[0] == (Cbor::Integer(key), v));
        assert(t.drop_first() =~= m);
    }
}

/// Reading an entry back after [`table_insert`] gives what was written, and
/// other integer keys are unaffected.
pub proof fn lemma_table_insert_lookup(m: Seq<(Cbor, Cbor)>, key: i128, v: Cbor, other: i128)
    ensures
        lookup(table_insert(m, key, v), key) == Some(v),
        other != key ==> lookup(table_insert(m, key, v), other) == lookup(m, other),
{
    if lookup(m, key) is Some {
        lemma_table_replace(m, key, v, other);
    } else {
        lemma_table_place(m, key, v, other);
    }
}

proof fn lemma_lookup_ascending(m: Seq<(Cbor, Cbor)>, key: i128)
    requires
        integer_keys_ascending(m),
    ensures
        lookup(m, key) is Some <==> exists|i: int| 0 <= i < m.len() && m[i].0 == Cbor::Integer(key),
    decreases m.len(),
{
    if m.len() > 0 {
        let r = m.drop_first();
        assert(integer_keys_ascending(r)) by {
            assert forall|i: int| 0 <= i < r.len() implies (#[trigger] r[i]).0 is Integer by {
                assert(r[i] == m[i + 1]);
            }
            assert forall|i: int, j: int| 0 <= i < j < r.len() implies key_order(
                (#[trigger] r[i]).0->Integer_0, (#[trigger] r[j]).0->Integer_0) by {
                assert(r[i] == m[i + 1]);
                assert(r[j] == m[j + 1]);
            }
        }
        lemma_lookup_ascending(r, key);
        if m[0].0 != Cbor::Integer(key) {
            if exists|i: int| 0 <= i < m.len() && m[i].0 == Cbor::Integer(key) {
                let i = choose|i: int| 0 <= i < m.len() && m[i].0 == Cbor::Integer(key);
                assert(r[i - 1] == m[i]);
            }
            if exists|i: int| 0 <= i < r.len() && r[i].0 == Cbor::Integer(key) {
                let i = choose|i: int| 0 <= i < r.len() && r[i].0 == Cbor::Integer(key);
                assert(m[i + 1] == r[i]);
            }
        }
    }
}

proof fn lemma_table_place_ascending(m: Seq<(Cbor, Cbor)>, key: i128, v: Cbor)
    requires
        integer_keys_ascending(m),
        forall|i: int| 0 <= i < m.len() ==> (#[trigger] m[i]).0 != Cbor::Integer(key),
    ensures
        integer_keys_ascending(table_place(m, key, v)),
        table_place(m, key, v).len() == m.len() + 1,
        forall|i: int|
            0 <= i < table_place(m, key, v).len() ==> #[trigger] table_place(m, key, v)[i] == (
            Cbor::Integer(key),
            v,
        ) || m.contains(table_place(m, key, v)[i]),
    decreases m.len(),
{
    let t = table_place(m, key, v);
    if m.len() > 0 && integer_key_below(m[0].0, key) {
        let r = m.drop_first();
        assert(integer_keys_ascending(r)) by {
            assert forall|i: int| 0 <= i < r.len() implies (#[trigger] r[i]).0 is Integer by {
                assert(r[i] == m[i + 1]);
            }
            assert forall|i: int, j: int| 0 <= i < j < r.len() implies key_order(
                (#[trigger] r[i]).0->Integer_0, (#[trigger] r[j]).0->Integer_0) by {
                assert(r[i] == m[i + 1]);
                assert(r[j] == m[j + 1]);
            }
        }
        assert forall|i: int| 0 <= i < r.len() implies (#[trigger] r[i]).0 != Cbor::Integer(key) by {
            assert(r[i] == m[i + 1]);
        }
        lemma_table_place_ascending(r, key, v);
        let tr = table_place(r, key, v);
        assert(t[0] == m[0]);
        assert(t.drop_first() =~= tr);
        assert forall|i: int| 0 <= i < t.len() implies #[trigger] t[i] == (Cbor::Integer(key), v)
            || m.contains(t[i]) by {
            if i > 0 {
                assert(t[i] == tr[i - 1]);
                if tr[i - 1] != (Cbor::Integer(key), v) {
                    let j = choose|j: int| 0 <= j < r.len() && r[j] == tr[i - 1];
                    assert(m[j + 1] == r[j]);
                }
            } else {
                assert(m[0] == t[0]);
            }
        }
        assert forall|i: int| 0 <= i < t.len() implies (#[trigger] t[i]).0 is Integer by {
            if i > 0 {
                assert(t[i] == tr[i - 1]);
            }
        }
        assert forall|i: int, j: int| 0 <= i < j < t.len() implies key_order(
            (#[trigger] t[i]).0->Integer_0, (#[trigger] t[j]).0->Integer_0) by {
            assert(t[j] == tr[j - 1]);
            if i > 0 {
                assert(t[i] == tr[i - 1]);
            } else if tr[j - 1] != (Cbor::Integer(key), v) {
                let q = choose|q: int| 0 <= q < r.len() && r[q] == tr[j - 1];
                assert(m[q + 1] == r[q]);
            }
        }
    } else {
        assert(t[0] == (Cbor::Integer(key), v));
        assert(t.drop_first() =~= m);
        assert forall|i: int| 0 <= i < t.len() implies #[trigger] t[i] == (Cbor::Integer(key), v)
            || m.contains(t[i]) by {
            if i > 0 {
                assert(t[i] == m[i - 1]);
            }
        }
        assert forall|i: int| 0 <= i < t.len() implies (#[trigger] t[i]).0 is Integer by {
            if i > 0 {
                assert(t[i] == m[i - 1]);
            }
        }
        assert forall|i: int, j: int| 0 <= i < j < t.len() implies key_order(
            (#[trigger] t[i]).0->Integer_0, (#[trigger] t[j]).0->Integer_0) by {
            assert(t[j] == m[j - 1]);
            if i > 0 {
                assert(t[i] == m[i - 1]);
            } else {
                assert(!key_order(m[0].0->Integer_0, key));
            }
        }
    }
}

/// Storing under an integer key keeps a map with ascending integer keys in
/// that form, holding what was there and the new entry.
pub proof fn law_table_insert_keeps_order(m: Seq<(Cbor, Cbor)>, key: i128, v: Cbor)
    requires
        integer_keys_ascending(m),
    ensures
        integer_keys_ascending(table_insert(m, key, v)),
        forall|i: int|
            0 <= i < table_insert(m, key, v).len() ==> #[trigger] table_insert(m, key, v)[i] == (
            Cbor::Integer(key),
            v,
        ) || m.contains(table_insert(m, key, v)[i]),
{
    lemma_lookup_ascending(m, key);
    if lookup(m, key) is Some {
        lemma_table_replace(m, key, v, key);
        let t = table_replace(m, key, v);
        lemma_table_replace_entries(m, key, v);
        assert forall|i: int| 0 <= i < t.len() implies (#[trigger] t[i]).0 is Integer by {
            assert(t[i].0 == m[i].0);
        }
        assert forall|i: int, j: int| 0 <= i < j < t.len() implies key_order(
            (#[trigger] t[i]).0->Integer_0, (#[trigger] t[j]).0->Integer_0) by {
            assert(t[i].0 == m[i].0);
            assert(t[j].0 == m[j].0);
        }
    } else {
        lemma_table_place_ascending(m, key, v);
    }
}

/// Whether the keys of `m` strictly ascend in canonical CBOR order
/// ([`key_before`]), so that no key occurs twice.
pub open spec fn canonical(m: Seq<(Cbor, Cbor)>) -> bool {
    forall|i: int, j: int| 0 <= i < j < m.len() ==> key_before((#[trigger] m[i]).0, (#[trigger] m[j]).0)
}

/// On integers, the canonical order is [`key_order`].
proof fn lemma_key_before_integers(a: i128, b: i128)
    ensures
        key_before(Cbor::Integer(a), Cbor::Integer(b)) == key_order(a, b),
{
}

/// A key after an integer key in canonical order is an integer after it in
/// [`key_order`], or not an integer.
proof fn lemma_key_before_after_integer(f: Cbor, g: Cbor)
    requires
        key_before(f, g),
        g is Integer,
    ensures
        f is Integer && key_order(f->Integer_0, g->Integer_0),
{
}

proof fn lemma_lookup_none(m: Seq<(Cbor, Cbor)>, key: i128)
    requires
        lookup(m, key) is None,
    ensures
        forall|j: int| 0 <= j < m.len() ==> (#[trigger] m[j]).0 != Cbor::Integer(key),
    decreases m.len(),
{
    if m.len() > 0 {
        lemma_lookup_none(m.drop_first(), key);
        assert forall|j: int| 0 <= j < m.len() implies (#[trigger] m[j]).0 != Cbor::Integer(key) by {
            if j > 0 {
                assert(m[j] == m.drop_first()[j - 1]);
            }
        }
    }
}

proof fn lemma_table_place_canonical(m: Seq<(Cbor, Cbor)>, key: i128, v: Cbor)
    requires
        canonical(m),
        forall|j: int| 0 <= j < m.len() ==> (#[trigger] m[j]).0 != Cbor::Integer(key),
    ensures
        canonical(table_place(m, key, v)),
        forall|i: int|
            0 <= i < table_place(m, key, v).len() ==> #[trigger] table_place(m, key, v)[i] == (
            Cbor::Integer(key),
            v,
        ) || m.contains(table_place(m, key, v)[i]),
        forall|i: int| 0 <= i < table_place(m, key, v).len() ==> (#[trigger] table_place(m, key, v)[i]).0
            == Cbor::Integer(key) || exists|j: int| 0 <= j < m.len() && m[j].0 == table_place(m, key, v)[i].0,
    decreases m.len(),
{
    let t = table_place(m, key, v);
    let kc = Cbor::Integer(key);
    if m.len() > 0 && integer_key_below(m[0].0, key) {
        let r = m.drop_first();
        assert(canonical(r)) by {
            assert forall|i: int, j: int| 0 <= i < j < r.len() implies key_before(
                (#[trigger] r[i]).0,
                (#[trigger] r[j]).0,
            ) by {
                assert(r[i] == m[i + 1]);
                assert(r[j] == m[j + 1]);
            }
        }
        assert forall|j: int| 0 <= j < r.len() implies (#[trigger] r[j]).0 != Cbor::Integer(key) by {
            assert(r[j] == m[j + 1]);
        }
        lemma_table_place_canonical(r, key, v);
        let tr = table_place(r, key, v);
        assert(t[0] == m[0]);
        assert(t.drop_first() =~= tr);
        assert forall|i: int| 0 <= i < t.len() implies #[trigger] t[i] == (kc, v) || m.contains(t[i]) by {
            if i > 0 {
                assert(t[i] == tr[i - 1]);
                if tr[i - 1] != (kc, v) {
                    let j = choose|j: int| 0 <= j < r.len() && r[j] == tr[i - 1];
                    assert(m[j + 1] == r[j]);
                }
            } else {
                assert(m[0] == t[0]);
            }
        }
        assert forall|i: int| 0 <= i < t.len() implies (#[trigger] t[i]).0 == kc || exists|j: int|
            0 <= j < m.len() && m[j].0 == t[i].0 by {
            if i > 0 {
                assert(t[i] == tr[i - 1]);
                if tr[i - 1].0 != kc {
                    let j = choose|j: int| 0 <= j < r.len() && r[j].0 == tr[i - 1].0;
                    assert(m[j + 1] == r[j]);
                }
            } else {
                assert(m[0] == t[0]);
            }
        }
        assert forall|i: int, j: int| 0 <= i < j < t.len() implies key_before(
            (#[trigger] t[i]).0,
            (#[trigger] t[j]).0,
        ) by {
            assert(t[j] == tr[j - 1]);
            if i > 0 {
                assert(t[i] == tr[i - 1]);
            } else if tr[j - 1].0 == kc {
                lemma_key_before_integers(m[0].0->Integer_0, key);
            } else {
                let q = choose|q: int| 0 <= q < r.len() && r[q].0 == tr[j - 1].0;
                assert(m[q + 1] == r[q]);
            }
        }
    } else {
        assert(t[0] == (kc, v));
        assert(t.drop_first() =~= m);
        assert forall|i: int| 0 <= i < t.len() implies #[trigger] t[i] == (kc, v) || m.contains(t[i]) by {
            if i > 0 {
                assert(t[i] == m[i - 1]);
            }
        }
        assert forall|i: int| 0 <= i < t.len() implies (#[trigger] t[i]).0 == kc || exists|j: int|
            0 <= j < m.len() && m[j].0 == t[i].0 by {
            if i > 0 {
                assert(t[i] == m[i - 1]);
            }
        }
        assert forall|i: int, j: int| 0 <= i < j < t.len() implies key_before(
            (#[trigger] t[i]).0,
            (#[trigger] t[j]).0,
        ) by {
            assert(t[j] == m[j - 1]);
            if i > 0 {
                assert(t[i] == m[i - 1]);
            } else {
                let f = m[0].0;
                let g = m[j - 1].0;
                assert(!integer_key_below(f, key));
                assert(f != kc);
                if g is Integer {
                    if j - 1 > 0 {
                        assert(key_before(f, g));
                        lemma_key_before_after_integer(f, g);
                    }
                    assert(f is Integer);
                    assert(key_order(key, f->Integer_0));
                    lemma_key_before_integers(key, g->Integer_0);
                }
            }
        }
    }
}

/// Storing under an integer key keeps a well-formed map well-formed.
pub proof fn law_table_insert_keeps_canonical(m: Seq<(Cbor, Cbor)>, key: i128, v: Cbor)
    requires
        canonical(m),
    ensures
        canonical(table_insert(m, key, v)),
{
    if lookup(m, key) is Some {
        lemma_table_replace(m, key, v, key);
        let t = table_replace(m, key, v);
        assert forall|i: int, j: int| 0 <= i < j < t.len() implies key_before(
            (#[trigger] t[i]).0,
            (#[trigger] t[j]).0,
        ) by {
            assert(t[i].0 == m[i].0);
            assert(t[j].0 == m[j].0);
        }
    } else {
        lemma_lookup_none(m, key);
        lemma_table_place_canonical(m, key, v);
    }
}

proof fn lemma_table_replace_entries(m: Seq<(Cbor, Cbor)>, key: i128, v: Cbor)
    ensures
        forall|i: int|
            0 <= i < table_replace(m, key, v).len() ==> #[trigger] table_replace(m, key, v)[i] == (
            Cbor::Integer(key),
            v,
        ) || m.contains(table_replace(m, key, v)[i]),
    decreases m.len(),
{
    let t = table_replace(m, key, v);
    if m.len() > 0 {
        if m[0].0 != Cbor::Integer(key) {
            lemma_table_replace_entries(m.drop_first(), key, v);
            let tr = table_replace(m.drop_first(), key, v);
            assert forall|i: int| 0 <= i < t.len() implies #[trigger] t[i] == (Cbor::Integer(key), v)
                || m.contains(t[i]) by {
                if i > 0 {
                    assert(t[i] == tr[i - 1]);
                    if tr[i - 1] != (Cbor::Integer(key), v) {
                        let j = choose|j: int| 0 <= j < m.drop_first().len() && m.drop_first()[j] == tr[i - 1];
                        assert(m[j + 1] == m.drop_first()[j]);
                    }
                } else {
                    assert(m[0] == t[0]);
                }
            }
        } else {
            assert forall|i: int| 0 <= i < t.len() implies #[trigger] t[i] == (Cbor::Integer(key), v)
                || m.contains(t[i]) by {
                if i > 0 {
                    assert(t[i] == m[i]);
                }
            }
        }
    }
}

pub proof fn lemma_values_view_index(s: Seq<Item>)
    ensures
        values_view(s).len() == s.len(),
        forall|i: int| 0 <= i < s.len() ==> #[trigger] values_view(s)[i] == s[i]@,
    decreases s.len(),
{
    if s.len() > 0 {
        lemma_values_view_index(s.subrange(0, s.len() - 1));
    }
}

pub proof fn lemma_entries_view_index(s: Seq<(Item, Item)>)
    ensures
        entries_view(s).len() == s.len(),
        forall|i: int|
            0 <= i < s.len() ==> #[trigger] entries_view(s)[i] == (s[i].0@, s[i].1@),
    decreases s.len(),
{
    if s.len() > 0 {
        lemma_entries_view_index(s.subrange(0, s.len() - 1));
    }
}

impl ItemMap {
    /// An empty map.
    /// Whether the map holds distinct keys in canonical CBOR order.
    pub open spec fn well_formed(&self) -> bool {
        canonical(self@)
    }

    pub fn new() -> (m: ItemMap)
        ensures
            m@ == Seq::<(Cbor, Cbor)>::empty(),
            m.well_formed(),
    {
        ItemMap { entries: Vec::new() }
    }

    /// The value stored under the integer key `key`.
    pub fn get(&self, key: i128) -> (r: Option<&Item>)
        ensures
            r matches Some(v) ==> lookup(self@, key) == Some(v@),
            r is None ==> lookup(self@, key) is None,
    {
        proof {
            lemma_entries_view_index(self.entries@);
        }
        let ghost m = self@;
        let mut i: usize = 0;
        assert(m.skip(0) =~= m);
        while i < self.entries.len()
            invariant
                i <= self.entries.len(),
                m == self@,
                m.len() == self.entries.len(),
                forall|j: int| 0 <= j < m.len() ==> #[trigger] m[j] == (self.entries@[j].0@, self.entries@[j].1@),
                lookup(m, key) == lookup(m.skip(i as int), key),
            decreases self.entries.len() - i,
        {
            assert(m.skip(i as int)[0] == m[i as int]);
            assert(m.skip(i as int).drop_first() =~= m.skip(i + 1));
            if let Item::Integer(k) = &self.entries[i].0 {
                if *k == key {
                    return Some(&self.entries[i].1);
                }
            }
            i = i + 1;
        }
        None
    }

    /// Sets the value stored under the integer key `key` ([`table_insert`]).
    pub fn insert(&mut self, key: i128, value: Item)
        ensures
            final(self)@ == table_insert(old(self)@, key, value@),
            old(self).well_formed() ==> final(self).well_formed(),
    {
        proof {
            if self.well_formed() {
                law_table_insert_keeps_canonical(self@, key, value@);
            }
        }
        proof {
            lemma_entries_view_index(self.entries@);
        }
        let ghost m = self@;
        let mut i: usize = 0;
        while i < self.entries.len()
            invariant
                i <= self.entries.len(),
                m == old(self)@,
                *self == *old(self),
                m.len() == self.entries.len(),
                forall|j: int| 0 <= j < m.len() ==> #[trigger] m[j] == (self.entries@[j].0@, self.entries@[j].1@),
                forall|j: int| 0 <= j < i ==> (#[trigger] m[j]).0 != Cbor::Integer(key),
            decreases self.entries.len() - i,
        {
            let is_key = match &self.entries[i].0 {
                Item::Integer(k) => *k == key,
                _ => false,
            };
            if is_key {
                let k = self.entries[i].0.deep_copy();
                self.entries.set(i, (k, value));
                proof {
                    lemma_entries_view_index(self.entries@);
                    lemma_table_replace_at(m, key, value@, i as int);
                    assert(self@ =~= table_insert(m, key, value@));
                }
                return;
            }
            i = i + 1;
        }
        proof {
            lemma_lookup_absent(m, key);
        }
        let mut p: usize = 0;
        while p < self.entries.len() && integer_below(&self.entries[p].0, key)
            invariant
                p <= self.entries.len(),
                m == old(self)@,
                *self == *old(self),
                m.len() == self.entries.len(),
                forall|j: int| 0 <= j < m.len() ==> #[trigger] m[j] == (self.entries@[j].0@, self.entries@[j].1@),
                forall|j: int| 0 <= j < p ==> integer_key_below((#[trigger] m[j]).0, key),
            decreases self.entries.len() - p,
        {
            p = p + 1;
        }
        self.entries.insert(p, (Item::Integer(key), value));
        proof {
            lemma_entries_view_index(self.entries@);
            lemma_table_place_at(m, key, value@, p as int);
            assert(self@ =~= table_insert(m, key, value@));
        }
    }
}

/// Whether `item` is an integer below `key`.
fn integer_below(item: &Item, key: i128) -> (b: bool)
    ensures
        b == integer_key_below(item@, key),
{
    match item {
        Item::Integer(k) => if *k >= 0 {
            key < 0 || *k < key
        } else {
            key < 0 && key < *k
        },
        _ => false,
    }
}

proof fn lemma_table_replace_at(m: Seq<(Cbor, Cbor)>, key: i128, v: Cbor, i: int)
    requires
        0 <= i < m.len(),
        m[i].0 == Cbor::Integer(key),
        forall|j: int| 0 <= j < i ==> (#[trigger] m[j]).0 != Cbor::Integer(key),
    ensures
        lookup(m, key) is Some,
        table_replace(m, key, v) == m.update(i, (m[i].0, v)),
    decreases i,
{
    if i > 0 {
        assert forall|j: int| 0 <= j < i - 1 implies (#[trigger] m.drop_first()[j]).0 != Cbor::Integer(key) by {
            assert(m.drop_first()[j] == m[j + 1]);
        }
        lemma_table_replace_at(m.drop_first(), key, v, i - 1);
        assert(m[0].0 != Cbor::Integer(key));
        assert(m.update(i, (m[i].0, v)) =~= seq![m[0]] + m.drop_first().update(i - 1, (m[i].0, v)));
    } else {
        assert(m.update(0, (m[0].0, v)) =~= seq![(m[0].0, v)] + m.drop_first());
    }
}

proof fn lemma_lookup_absent(m: Seq<(Cbor, Cbor)>, key: i128)
    requires
        forall|j: int| 0 <= j < m.len() ==> (#[trigger] m[j]).0 != Cbor::Integer(key),
    ensures
        lookup(m, key) is None,
    decreases m.len(),
{
    if m.len() > 0 {
        assert forall|j: int| 0 <= j < m.drop_first().len() implies (#[trigger] m.drop_first()[j]).0
            != Cbor::Integer(key) by {
            assert(m.drop_first()[j] == m[j + 1]);
        }
        lemma_lookup_absent(m.drop_first(), key);
        assert(m[0].0 != Cbor::Integer(key));
    }
}

proof fn lemma_table_place_at(m: Seq<(Cbor, Cbor)>, key: i128, v: Cbor, p: int)
    requires
        0 <= p <= m.len(),
        forall|j: int| 0 <= j < p ==> integer_key_below((#[trigger] m[j]).0, key),
        p < m.len() ==> !integer_key_below(m[p].0, key),
    ensures
        table_place(m, key, v) == m.insert(p, (Cbor::Integer(key), v)),
    decreases p,
{
    if p > 0 {
        assert forall|j: int| 0 <= j < p - 1 implies integer_key_below((#[trigger] m.drop_first()[j]).0, key) by {
            assert(m.drop_first()[j] == m[j + 1]);
        }
        if p < m.len() {
            assert(m.drop_first()[p - 1] == m[p]);
        }
        lemma_table_place_at(m.drop_first(), key, v, p - 1);
        assert(integer_key_below(m[0].0, key));
        assert(m.insert(p, (Cbor::Integer(key), v)) =~= seq![m[0]] + m.drop_first().insert(
            p - 1,
            (Cbor::Integer(key), v),
        ));
    } else {
        assert(m.insert(0, (Cbor::Integer(key), v)) =~= seq![(Cbor::Integer(key), v)] + m);
    }
}

} // verus!
