//! RRC envelopes: integer-keyed CBOR maps with a fixed header, their
//! validation, encoding and decoding, and typed access to their fields.

use crate::cbor::{self, decode_item, encode_item};
use crate::fresh;
use crate::constants::{
    K_BODY, K_DST, K_ID, K_NICK, K_ROOM, K_ROOM_STATE, K_SRC, K_T, K_TS, K_USER_LIST, K_V, VERSION,
};
use crate::value::{self, Cbor, Item, ItemMap};
use std::collections::BTreeMap;
use vstd::std_specs::btree::{increasing_seq, spec_btree_map_iter};
use vstd::std_specs::cmp::OrdSpec;
use vstd::std_specs::iter::IteratorSpec;
use vstd::prelude::*;

verus! {

/// Whether the keys of `s` are strictly ascending.
pub open spec fn ascending(s: Seq<(i128, Cbor)>) -> bool {
    forall|i: int, j: int| 0 <= i < j < s.len() ==> (#[trigger] s[i]).0 < (#[trigger] s[j]).0
}

/// The value stored under `k`.
pub open spec fn field_of(s: Seq<(i128, Cbor)>, k: i128) -> Option<Cbor>
    decreases s.len(),
{
    if s.len() == 0 {
        None
    } else if s[0].0 == k {
        Some(s[0].1)
    } else {
        field_of(s.drop_first(), k)
    }
}

/// `s` with `k` mapped to `v`: an entry for `k` is replaced in place, or a new
/// entry is placed before the first larger key.
pub open spec fn field_insert(s: Seq<(i128, Cbor)>, k: i128, v: Cbor) -> Seq<(i128, Cbor)>
    decreases s.len(),
{
    if s.len() == 0 {
        seq![(k, v)]
    } else if s[0].0 == k {
        seq![(k, v)] + s.drop_first()
    } else if k < s[0].0 {
        seq![(k, v)] + s
    } else {
        seq![s[0]] + field_insert(s.drop_first(), k, v)
    }
}

/// `s` without entries for `k`.
pub open spec fn field_remove(s: Seq<(i128, Cbor)>, k: i128) -> Seq<(i128, Cbor)>
    decreases s.len(),
{
    if s.len() == 0 {
        s
    } else if s[0].0 == k {
        field_remove(s.drop_first(), k)
    } else {
        seq![s[0]] + field_remove(s.drop_first(), k)
    }
}

/// The view of stored fields.
pub open spec fn fields_view(s: Seq<(i128, Item)>) -> Seq<(i128, Cbor)> {
    s.map_values(|e: (i128, Item)| (e.0, e.1@))
}

/// Every key of `field_insert(s, k, v)` is `k` or a key of `s`, and what is
/// stored under each key is what was written or what was there before.
#[verifier::spinoff_prover]
#[verifier::rlimit(40)]
pub proof fn lemma_field_insert(s: Seq<(i128, Cbor)>, k: i128, v: Cbor, other: i128)
    requires
        ascending(s),
    ensures
        ascending(field_insert(s, k, v)),
        field_of(field_insert(s, k, v), k) == Some(v),
        other != k ==> field_of(field_insert(s, k, v), other) == field_of(s, other),
        forall|i: int|
            0 <= i < field_insert(s, k, v).len() ==> (#[trigger] field_insert(s, k, v)[i]).0 == k
                || exists|j: int| 0 <= j < s.len() && s[j].0 == field_insert(s, k, v)[i].0,
    decreases s.len(),
{
    let t = field_insert(s, k, v);
    if s.len() == 0 {
        assert(t[0] == (k, v));
        assert(t.drop_first() =~= Seq::<(i128, Cbor)>::empty());
        assert(field_of(t.drop_first(), other) is None);
    } else if s[0].0 == k {
        assert(t[0] == (k, v));
        assert(t.drop_first() =~= s.drop_first());
        assert forall|i: int| 0 <= i < t.len() implies (#[trigger] t[i]).0 == k || exists|j: int|
            0 <= j < s.len() && s[j].0 == t[i].0 by {
            if i > 0 {
                assert(t[i] == s[i]);
            }
        }
        assert forall|i: int, j: int| 0 <= i < j < t.len() implies (#[trigger] t[i]).0 < (
        #[trigger] t[j]).0 by {
            assert(t[j] == s[j]);
            if i > 0 {
                assert(t[i] == s[i]);
            }
        }
    } else if k < s[0].0 {
        assert(t.drop_first() =~= s);
        assert(t[0] == (k, v));
        assert forall|i: int| 0 <= i < t.len() implies (#[trigger] t[i]).0 == k || exists|j: int|
            0 <= j < s.len() && s[j].0 == t[i].0 by {
            if i > 0 {
                assert(t[i] == s[i - 1]);
            }
        }
        assert forall|i: int, j: int| 0 <= i < j < t.len() implies (#[trigger] t[i]).0 < (
        #[trigger] t[j]).0 by {
            assert(t[j] == s[j - 1]);
            if i > 0 {
                assert(t[i] == s[i - 1]);
            }
        }
    } else {
        let rest = s.drop_first();
        assert(ascending(rest)) by {
            assert forall|i: int, j: int| 0 <= i < j < rest.len() implies (#[trigger] rest[i]).0
                < (#[trigger] rest[j]).0 by {
                assert(rest[i] == s[i + 1]);
                assert(rest[j] == s[j + 1]);
            }
        }
        lemma_field_insert(rest, k, v, other);
        let tr = field_insert(rest, k, v);
        assert(t[0] == s[0]);
        assert(t.drop_first() =~= tr);
        assert forall|i: int| 0 <= i < t.len() implies (#[trigger] t[i]).0 == k || exists|j: int|
            0 <= j < s.len() && s[j].0 == t[i].0 by {
            if i > 0 {
                assert(t[i] == tr[i - 1]);
                if tr[i - 1].0 != k {
                    let j = choose|j: int| 0 <= j < rest.len() && rest[j].0 == tr[i - 1].0;
                    assert(s[j + 1] == rest[j]);
                }
            } else {
                assert(s[0].0 == t[0].0);
            }
        }
        assert forall|i: int, j: int| 0 <= i < j < t.len() implies (#[trigger] t[i]).0 < (
        #[trigger] t[j]).0 by {
            assert(t[j] == tr[j - 1]);
            if i > 0 {
                assert(t[i] == tr[i - 1]);
            } else {
                if tr[j - 1].0 != k {
                    let m = choose|m: int| 0 <= m < rest.len() && rest[m].0 == tr[j - 1].0;
                    assert(s[m + 1] == rest[m]);
                }
            }
        }
    }
}


proof fn lemma_field_insert_at(s: Seq<(i128, Cbor)>, k: i128, v: Cbor, p: int)
    requires
        ascending(s),
        0 <= p <= s.len(),
        forall|j: int| 0 <= j < p ==> (#[trigger] s[j]).0 < k,
        p < s.len() ==> s[p].0 >= k,
    ensures
        field_insert(s, k, v) == (if p < s.len() && s[p].0 == k {
            s.update(p, (k, v))
        } else {
            s.insert(p, (k, v))
        }),
    decreases p,
{
    if p == 0 {
        if s.len() == 0 {
            assert(s.insert(0, (k, v)) =~= seq![(k, v)]);
        } else if s[0].0 == k {
            assert(s.update(0, (k, v)) =~= seq![(k, v)] + s.drop_first());
        } else {
            assert(s.insert(0, (k, v)) =~= seq![(k, v)] + s);
        }
    } else {
        let rest = s.drop_first();
        assert(ascending(rest)) by {
            assert forall|i: int, j: int| 0 <= i < j < rest.len() implies (#[trigger] rest[i]).0
                < (#[trigger] rest[j]).0 by {
                assert(rest[i] == s[i + 1]);
                assert(rest[j] == s[j + 1]);
            }
        }
        assert forall|j: int| 0 <= j < p - 1 implies (#[trigger] rest[j]).0 < k by {
            assert(rest[j] == s[j + 1]);
        }
        lemma_field_insert_at(rest, k, v, p - 1);
        assert(s[0].0 < k);
        if p < s.len() && s[p].0 == k {
            assert(s.update(p, (k, v)) =~= seq![s[0]] + rest.update(p - 1, (k, v)));
        } else {
            assert(s.insert(p, (k, v)) =~= seq![s[0]] + rest.insert(p - 1, (k, v)));
        }
    }
}

/// Removing `k` keeps keys ascending, leaves nothing under `k` and every other
/// key as it was.
pub proof fn lemma_field_remove(s: Seq<(i128, Cbor)>, k: i128, other: i128)
    requires
        ascending(s),
    ensures
        field_of(field_remove(s, k), k) is None,
        other != k ==> field_of(field_remove(s, k), other) == field_of(s, other),
    decreases s.len(),
{
    if s.len() > 0 {
        let rest = s.drop_first();
        assert(ascending(rest)) by {
            assert forall|i: int, j: int| 0 <= i < j < rest.len() implies (#[trigger] rest[i]).0
                < (#[trigger] rest[j]).0 by {
                assert(rest[i] == s[i + 1]);
                assert(rest[j] == s[j + 1]);
            }
        }
        lemma_field_remove(rest, k, other);
        if s[0].0 != k {
            let t = field_remove(s, k);
            assert(t[0] == s[0]);
            assert(t.drop_first() =~= field_remove(rest, k));
        }
    }
}

/// What the map `m` stores under `k`, by view.
pub open spec fn item_at(m: Map<i128, Item>, k: i128) -> Option<Cbor> {
    if m.contains_key(k) {
        Some(m[k]@)
    } else {
        None
    }
}

/// Whether the ascending fields `s` are exactly what the map `m` stores.
pub open spec fn lists(s: Seq<(i128, Cbor)>, m: Map<i128, Item>) -> bool {
    ascending(s) && forall|k: i128| #[trigger] field_of(s, k) == item_at(m, k)
}

/// In ascending fields, the entry at `i` is what is stored under its key.
proof fn lemma_field_of_index(s: Seq<(i128, Cbor)>, i: int)
    requires
        ascending(s),
        0 <= i < s.len(),
    ensures
        field_of(s, s[i].0) == Some(s[i].1),
    decreases i,
{
    if i > 0 {
        let rest = s.drop_first();
        assert(ascending(rest)) by {
            assert forall|a: int, b: int| 0 <= a < b < rest.len() implies (#[trigger] rest[a]).0
                < (#[trigger] rest[b]).0 by {
                assert(rest[a] == s[a + 1]);
                assert(rest[b] == s[b + 1]);
            }
        }
        lemma_field_of_index(rest, i - 1);
        assert(rest[i - 1] == s[i]);
        assert(s[0].0 < s[i].0);
    }
}

/// Whatever is stored under `k` is the item of an entry with key `k`.
proof fn lemma_field_of_entry(s: Seq<(i128, Cbor)>, k: i128)
    requires
        field_of(s, k) is Some,
    ensures
        exists|i: int| 0 <= i < s.len() && s[i] == (k, field_of(s, k)->Some_0),
    decreases s.len(),
{
    if s[0].0 != k {
        lemma_field_of_entry(s.drop_first(), k);
        let i = choose|i: int|
            0 <= i < s.drop_first().len() && s.drop_first()[i] == (k, field_of(s, k)->Some_0);
        assert(s[i + 1] == s.drop_first()[i]);
    } else {
        assert(s[0] == (k, field_of(s, k)->Some_0));
    }
}

/// Ascending fields that store the same items under every key are equal.
proof fn lemma_lists_unique(s: Seq<(i128, Cbor)>, t: Seq<(i128, Cbor)>)
    requires
        ascending(s),
        ascending(t),
        forall|k: i128| #[trigger] field_of(s, k) == field_of(t, k),
    ensures
        s == t,
    decreases s.len() + t.len(),
{
    if s.len() == 0 && t.len() == 0 {
        assert(s =~= t);
    } else if s.len() == 0 {
        lemma_field_of_index(t, 0);
        assert(field_of(s, t[0].0) is None);
    } else if t.len() == 0 {
        lemma_field_of_index(s, 0);
        assert(field_of(t, s[0].0) is None);
    } else {
        let a = s[0].0;
        let b = t[0].0;
        lemma_field_of_index(s, 0);
        lemma_field_of_index(t, 0);
        assert(field_of(t, a) is Some);
        lemma_field_of_entry(t, a);
        let j = choose|j: int| 0 <= j < t.len() && t[j] == (a, field_of(t, a)->Some_0);
        assert(b <= a) by {
            if j > 0 {
                assert(t[0].0 < t[j].0);
            }
        }
        lemma_field_of_entry(s, b);
        let i = choose|i: int| 0 <= i < s.len() && s[i] == (b, field_of(s, b)->Some_0);
        assert(a <= b) by {
            if i > 0 {
                assert(s[0].0 < s[i].0);
            }
        }
        assert(s[0] == t[0]);
        let rs = s.drop_first();
        let rt = t.drop_first();
        assert(ascending(rs)) by {
            assert forall|x: int, y: int| 0 <= x < y < rs.len() implies (#[trigger] rs[x]).0
                < (#[trigger] rs[y]).0 by {
                assert(rs[x] == s[x + 1]);
                assert(rs[y] == s[y + 1]);
            }
        }
        assert(ascending(rt)) by {
            assert forall|x: int, y: int| 0 <= x < y < rt.len() implies (#[trigger] rt[x]).0
                < (#[trigger] rt[y]).0 by {
                assert(rt[x] == t[x + 1]);
                assert(rt[y] == t[y + 1]);
            }
        }
        assert forall|k: i128| #[trigger] field_of(rs, k) == field_of(rt, k) by {
            if k == a {
                if field_of(rs, k) is Some {
                    lemma_field_of_entry(rs, k);
                    let x = choose|x: int| 0 <= x < rs.len() && rs[x] == (k, field_of(rs, k)->Some_0);
                    assert(s[x + 1] == rs[x]);
                    assert(s[0].0 < s[x + 1].0);
                }
                if field_of(rt, k) is Some {
                    lemma_field_of_entry(rt, k);
                    let x = choose|x: int| 0 <= x < rt.len() && rt[x] == (k, field_of(rt, k)->Some_0);
                    assert(t[x + 1] == rt[x]);
                    assert(t[0].0 < t[x + 1].0);
                }
            } else {
                assert(field_of(s, k) == field_of(t, k));
            }
        }
        lemma_lists_unique(rs, rt);
        assert(s =~= seq![s[0]] + rs);
        assert(t =~= seq![t[0]] + rt);
    }
}

/// Removing `k` keeps keys ascending and leaves only entries of `s`.
proof fn lemma_field_remove_ascending(s: Seq<(i128, Cbor)>, k: i128)
    requires
        ascending(s),
    ensures
        ascending(field_remove(s, k)),
        forall|i: int|
            0 <= i < field_remove(s, k).len() ==> exists|j: int|
                0 <= j < s.len() && s[j] == #[trigger] field_remove(s, k)[i],
    decreases s.len(),
{
    if s.len() > 0 {
        let rest = s.drop_first();
        assert(ascending(rest)) by {
            assert forall|x: int, y: int| 0 <= x < y < rest.len() implies (#[trigger] rest[x]).0
                < (#[trigger] rest[y]).0 by {
                assert(rest[x] == s[x + 1]);
                assert(rest[y] == s[y + 1]);
            }
        }
        lemma_field_remove_ascending(rest, k);
        let r = field_remove(rest, k);
        let t = field_remove(s, k);
        if s[0].0 == k {
            assert forall|i: int| 0 <= i < t.len() implies exists|j: int|
                0 <= j < s.len() && s[j] == #[trigger] t[i] by {
                let j = choose|j: int| 0 <= j < rest.len() && rest[j] == r[i];
                assert(s[j + 1] == rest[j]);
            }
        } else {
            assert(t[0] == s[0]);
            assert(t.drop_first() =~= r);
            assert forall|i: int| 0 <= i < t.len() implies exists|j: int|
                0 <= j < s.len() && s[j] == #[trigger] t[i] by {
                if i > 0 {
                    assert(t[i] == r[i - 1]);
                    let j = choose|j: int| 0 <= j < rest.len() && rest[j] == r[i - 1];
                    assert(s[j + 1] == rest[j]);
                }
            }
            assert forall|x: int, y: int| 0 <= x < y < t.len() implies (#[trigger] t[x]).0
                < (#[trigger] t[y]).0 by {
                assert(t[y] == r[y - 1]);
                let j = choose|j: int| 0 <= j < rest.len() && rest[j] == r[y - 1];
                assert(s[j + 1] == rest[j]);
                if x > 0 {
                    assert(t[x] == r[x - 1]);
                }
            }
        }
    }
}

/// A protocol envelope: a CBOR map from integer keys to items. Its view is
/// its fields in ascending key order.
#[derive(Debug, PartialEq)]
pub struct Envelope {
    fields: BTreeMap<i128, Item>,
}

impl View for Envelope {
    type V = Seq<(i128, Cbor)>;

    closed spec fn view(&self) -> Seq<(i128, Cbor)> {
        choose|s: Seq<(i128, Cbor)>| #[trigger] lists(s, self.fields@)
    }
}

/// The view of an envelope whose map `m` the fields `s` list is `s`.
proof fn lemma_view_of(e: Envelope, s: Seq<(i128, Cbor)>)
    requires
        lists(s, e.fields@),
    ensures
        e@ == s,
{
    let v = choose|v: Seq<(i128, Cbor)>| #[trigger] lists(v, e.fields@);
    assert(lists(v, e.fields@));
    assert forall|k: i128| #[trigger] field_of(v, k) == field_of(s, k) by {
        assert(field_of(v, k) == item_at(e.fields@, k));
        assert(field_of(s, k) == item_at(e.fields@, k));
    }
    lemma_lists_unique(v, s);
}

impl Clone for Envelope {
    fn clone(&self) -> (res: Self)
        ensures
            res@ == self@,
    {
        proof {
            Envelope::lemma_view_lists(*self);
        }
        let fields = self.fields.clone();
        proof {
            Envelope::lemma_view_lists(*self);
            assert(lists(self@, fields@));
        }
        let res = Envelope { fields };
        proof {
            lemma_view_of(res, self@);
        }
        res
    }
}

/// Every finite map of items is listed by some ascending fields.
proof fn lemma_listing_exists(m: Map<i128, Item>)
    requires
        m.dom().finite(),
    ensures
        exists|s: Seq<(i128, Cbor)>| #[trigger] lists(s, m),
    decreases m.dom().len(),
{
    if m.dom().len() == 0 {
        let e = Seq::<(i128, Cbor)>::empty();
        assert forall|k: i128| #[trigger] field_of(e, k) == item_at(m, k) by {
            if m.contains_key(k) {
                assert(m.dom().contains(k));
            }
        }
        assert(lists(e, m));
    } else {
        let k = m.dom().choose();
        assert(m.dom().contains(k));
        let r = m.remove(k);
        assert(r.dom() =~= m.dom().remove(k));
        lemma_listing_exists(r);
        let t = choose|t: Seq<(i128, Cbor)>| #[trigger] lists(t, r);
        let s = field_insert(t, k, m[k]@);
        lemma_field_insert(t, k, m[k]@, k);
        assert forall|j: i128| #[trigger] field_of(s, j) == item_at(m, j) by {
            lemma_field_insert(t, k, m[k]@, j);
            assert(field_of(t, j) == item_at(r, j));
        }
        assert(lists(s, m));
    }
}

/// The keys of every envelope ascend, so the laws over ascending fields
/// ([`lemma_field_insert`], [`law_set_keeps_plain`] and those of the records)
/// apply to any envelope.
pub proof fn lemma_envelope_keys_ascend(e: &Envelope)
    ensures
        ascending(e@),
{
    Envelope::lemma_view_lists(*e);
}

impl Envelope {
    /// The fields of every envelope list its map.
    proof fn lemma_view_lists(e: Envelope)
        ensures
            lists(e@, e.fields@),
    {
        lemma_listing_exists(e.fields@);
    }

    /// Every field, in ascending key order, as a list of copies.
    fn entry_list(&self) -> (r: Vec<(i128, Item)>)
        ensures
            fields_view(r@) == self@,
    {
        proof {
            Envelope::lemma_view_lists(*self);
        }
        let ghost m = self.fields@;
        let ghost r = spec_btree_map_iter(&self.fields).remaining();
        let mut out: Vec<(i128, Item)> = Vec::new();
        for kv in it: self.fields.iter()
            invariant
                m == self.fields@,
                it.seq() == r,
                fields_view(out@) == it.seq().take(it.index()).map_values(
                    |kv: (&i128, &Item)| (*kv.0, (*kv.1)@),
                ),
        {
            let (k, v) = kv;
            let item = v.deep_copy();
            let ghost before = out@;
            out.push((*k, item));
            proof {
                assert(fields_view(out@) =~= fields_view(before).push((*k, item@)));
                assert(it.seq().take(it.index() + 1).map_values(|kv: (&i128, &Item)| (*kv.0, (*kv.1)@))
                    =~= it.seq().take(it.index()).map_values(|kv: (&i128, &Item)| (*kv.0, (*kv.1)@)).push(
                    (*k, item@),
                ));
            }
        }
        assert(fields_view(out@) == r.map_values(|kv: (&i128, &Item)| (*kv.0, (*kv.1)@)));
        proof {
            let u = fields_view(out@);
            assert(increasing_seq(r.map_values(|kv: (&i128, &Item)| *kv.0)));
            assert(ascending(u)) by {
                assert forall|i: int, j: int| 0 <= i < j < u.len() implies (#[trigger] u[i]).0
                    < (#[trigger] u[j]).0 by {
                    let ks = r.map_values(|kv: (&i128, &Item)| *kv.0);
                    assert(vstd::laws_cmp::obeys_cmp::<i128>());
                    assert(ks[i].cmp_spec(&ks[j]) is Less);
                    assert(ks[i] == u[i].0 && ks[j] == u[j].0);
                }
            }
            assert forall|k: i128| #[trigger] field_of(u, k) == item_at(m, k) by {
                if m.contains_key(k) {
                    assert(r.contains((&k, &m[k])));
                    let i = choose|i: int| 0 <= i < r.len() && r[i] == (&k, &m[k]);
                    assert(u[i] == (k, m[k]@));
                    lemma_field_of_index(u, i);
                } else if field_of(u, k) is Some {
                    lemma_field_of_entry(u, k);
                    let i = choose|i: int| 0 <= i < u.len() && u[i] == (k, field_of(u, k)->Some_0);
                    assert(m.contains_key(*r[i].0));
                }
            }
            lemma_view_of(*self, u);
        }
        out
    }

    /// An envelope with no fields.
    fn empty() -> (r: Envelope)
        ensures
            r@ == Seq::<(i128, Cbor)>::empty(),
    {
        let fields: BTreeMap<i128, Item> = BTreeMap::new();
        let ghost e = Seq::<(i128, Cbor)>::empty();
        assert(lists(e, fields@));
        let r = Envelope { fields };
        proof {
            lemma_view_of(r, e);
        }
        r
    }

    /// The item stored under `k`.
    pub open spec fn entry(&self, k: i128) -> Option<Cbor> {
        field_of(self@, k)
    }

    /// The map of every field of the envelope, by key.
    pub fn fields(&self) -> (r: &BTreeMap<i128, Item>)
        ensures
            forall|k: i128| #[trigger] item_at(r@, k) == field_of(self@, k),
    {
        proof {
            Envelope::lemma_view_lists(*self);
        }
        &self.fields
    }

    /// The item stored under `field`.
    pub fn get(&self, field: i128) -> (r: Option<&Item>)
        ensures
            r matches Some(x) ==> self.entry(field) == Some(x@),
            r is None ==> self.entry(field) is None,
    {
        proof {
            Envelope::lemma_view_lists(*self);
            assert(field_of(self@, field) == item_at(self.fields@, field));
        }
        self.fields.get(&field)
    }

    /// Stores `value` under `field`, replacing what was there.
    pub fn set(&mut self, field: i128, value: Item)
        ensures
            final(self)@ == field_insert(old(self)@, field, value@),
    {
        proof {
            Envelope::lemma_view_lists(*self);
        }
        let ghost s = self@;
        let ghost vv = value@;
        let ghost before = self.fields@;
        self.fields.insert(field, value);
        let ghost t = field_insert(s, field, vv);
        proof {
            lemma_field_insert(s, field, vv, field);
            assert forall|k: i128| #[trigger] field_of(t, k) == item_at(self.fields@, k) by {
                lemma_field_insert(s, field, vv, k);
                assert(field_of(s, k) == item_at(before, k));
            }
        }
        assert(lists(t, self.fields@));
        proof {
            lemma_view_of(*self, t);
        }
    }

    /// Removes whatever is stored under `field`.
    pub fn remove(&mut self, field: i128)
        ensures
            final(self)@ == field_remove(old(self)@, field),
    {
        proof {
            Envelope::lemma_view_lists(*self);
        }
        let ghost s = self@;
        let ghost before = self.fields@;
        self.fields.remove(&field);
        let ghost t = field_remove(s, field);
        proof {
            lemma_field_remove_ascending(s, field);
            assert forall|k: i128| #[trigger] field_of(t, k) == item_at(self.fields@, k) by {
                lemma_field_remove(s, field, k);
                assert(field_of(s, k) == item_at(before, k));
            }
        }
        assert(lists(t, self.fields@));
        proof {
            lemma_view_of(*self, t);
        }
    }
}


/// Why an envelope was refused.
#[derive(Clone, Copy, Debug, PartialEq, Eq)]
pub enum EnvelopeError {
    /// The bytes are not one well-formed CBOR item.
    InvalidCbor,
    /// The CBOR item is not a map.
    NotAMap,
    /// A key is not a non-negative integer.
    KeyNotUnsigned,
    /// A header key is missing.
    MissingKey(i128),
    /// The version is not [`VERSION`].
    UnsupportedVersion,
    /// The message type is not an unsigned 64-bit integer.
    MessageTypeNotUnsigned,
    /// The message identifier is not a byte string.
    MessageIdNotBytes,
    /// The timestamp is not a non-negative integer.
    TimestampNotUnsigned,
    /// The sender identity is not a byte string.
    SourceNotBytes,
    /// The room name is not a text string.
    RoomNotText,
    /// The nickname is not a text string.
    NickNotText,
    /// The destination identity is not a byte string.
    DestinationNotBytes,
    /// The CBOR encoder reported an error.
    EncodingFailed,
}

/// A non-negative integer item, widened to `u128`.
pub open spec fn unsigned_of(o: Option<Cbor>) -> Option<u128> {
    match o {
        Some(Cbor::Integer(i)) => if i >= 0 {
            Some(i as u128)
        } else {
            None
        },
        _ => None,
    }
}

/// An integer item in the range of `u64`.
pub open spec fn u64_of(o: Option<Cbor>) -> Option<u64> {
    match o {
        Some(Cbor::Integer(i)) => if 0 <= i <= u64::MAX {
            Some(i as u64)
        } else {
            None
        },
        _ => None,
    }
}

/// A text item.
pub open spec fn text_of(o: Option<Cbor>) -> Option<Seq<char>> {
    match o {
        Some(Cbor::Text(t)) => Some(t),
        _ => None,
    }
}

/// A byte-string item.
pub open spec fn bytes_of(o: Option<Cbor>) -> Option<Seq<u8>> {
    match o {
        Some(Cbor::Bytes(b)) => Some(b),
        _ => None,
    }
}

/// A map item.
pub open spec fn table_of(o: Option<Cbor>) -> Option<Seq<(Cbor, Cbor)>> {
    match o {
        Some(Cbor::Table(m)) => Some(m),
        _ => None,
    }
}

/// The view of an optional string.
pub open spec fn str_view(o: Option<&str>) -> Option<Seq<char>> {
    match o {
        Some(t) => Some(t@),
        None => None,
    }
}

/// The view of an optional owned string.
pub open spec fn string_view(o: Option<String>) -> Option<Seq<char>> {
    match o {
        Some(t) => Some(t@),
        None => None,
    }
}

/// Whether `s` holds an entry for `k`.
pub open spec fn has_field(s: Seq<(i128, Cbor)>, k: i128) -> bool {
    field_of(s, k) is Some
}

/// The outcome of validating the fields `s` of an envelope: each check in
/// turn, the first that fails giving the error.
pub open spec fn validation(s: Seq<(i128, Cbor)>) -> Result<(), EnvelopeError> {
    if exists|i: int| 0 <= i < s.len() && (#[trigger] s[i]).0 < 0 {
        Err(EnvelopeError::KeyNotUnsigned)
    } else if !has_field(s, K_V) {
        Err(EnvelopeError::MissingKey(K_V))
    } else if !has_field(s, K_T) {
        Err(EnvelopeError::MissingKey(K_T))
    } else if !has_field(s, K_ID) {
        Err(EnvelopeError::MissingKey(K_ID))
    } else if !has_field(s, K_TS) {
        Err(EnvelopeError::MissingKey(K_TS))
    } else if !has_field(s, K_SRC) {
        Err(EnvelopeError::MissingKey(K_SRC))
    } else if u64_of(field_of(s, K_V)) != Some(VERSION) {
        Err(EnvelopeError::UnsupportedVersion)
    } else if u64_of(field_of(s, K_T)) is None {
        Err(EnvelopeError::MessageTypeNotUnsigned)
    } else if bytes_of(field_of(s, K_ID)) is None {
        Err(EnvelopeError::MessageIdNotBytes)
    } else if unsigned_of(field_of(s, K_TS)) is None {
        Err(EnvelopeError::TimestampNotUnsigned)
    } else if bytes_of(field_of(s, K_SRC)) is None {
        Err(EnvelopeError::SourceNotBytes)
    } else if has_field(s, K_ROOM) && text_of(field_of(s, K_ROOM)) is None {
        Err(EnvelopeError::RoomNotText)
    } else if has_field(s, K_NICK) && text_of(field_of(s, K_NICK)) is None {
        Err(EnvelopeError::NickNotText)
    } else if has_field(s, K_DST) && bytes_of(field_of(s, K_DST)) is None {
        Err(EnvelopeError::DestinationNotBytes)
    } else {
        Ok(())
    }
}

impl Envelope {
    /// The item under `field` if it is a non-negative integer.
    pub fn unsigned(&self, field: i128) -> (r: Option<u128>)
        ensures
            r == unsigned_of(self.entry(field)),
    {
        match self.get(field) {
            Some(Item::Integer(i)) => if *i >= 0 {
                Some(*i as u128)
            } else {
                None
            },
            _ => None,
        }
    }

    /// The item under `field` if it is an integer that fits in `u64`.
    pub fn integer(&self, field: i128) -> (r: Option<u64>)
        ensures
            r == u64_of(self.entry(field)),
    {
        match self.unsigned(field) {
            Some(u) => if u <= u64::MAX as u128 {
                Some(u as u64)
            } else {
                None
            },
            None => None,
        }
    }

    /// The item under `field` if it is text.
    pub fn text(&self, field: i128) -> (r: Option<&str>)
        ensures
            str_view(r) == text_of(self.entry(field)),
    {
        match self.get(field) {
            Some(Item::Text(t)) => Some(t.as_str()),
            _ => None,
        }
    }

    /// The item under `field` if it is a byte string.
    pub fn bytes(&self, field: i128) -> (r: Option<&[u8]>)
        ensures
            r matches Some(b) ==> bytes_of(self.entry(field)) == Some(b@),
            r is None ==> bytes_of(self.entry(field)) is None,
    {
        match self.get(field) {
            Some(Item::Bytes(b)) => Some(b.as_slice()),
            _ => None,
        }
    }

    /// The item under `field` if it is a map.
    pub fn map(&self, field: i128) -> (r: Option<&ItemMap>)
        ensures
            r matches Some(m) ==> table_of(self.entry(field)) == Some(m@),
            r is None ==> table_of(self.entry(field)) is None,
    {
        match self.get(field) {
            Some(Item::Table(m)) => Some(m),
            _ => None,
        }
    }

    /// The message type.
    pub fn message_type(&self) -> (r: Option<u64>)
        ensures
            r == u64_of(self.entry(K_T)),
    {
        self.integer(K_T)
    }

    /// The timestamp in milliseconds.
    pub fn timestamp_ms(&self) -> (r: Option<u64>)
        ensures
            r == u64_of(self.entry(K_TS)),
    {
        self.integer(K_TS)
    }

    /// The room name.
    pub fn room(&self) -> (r: Option<&str>)
        ensures
            str_view(r) == text_of(self.entry(K_ROOM)),
    {
        self.text(K_ROOM)
    }

    /// The nickname.
    pub fn nick(&self) -> (r: Option<&str>)
        ensures
            str_view(r) == text_of(self.entry(K_NICK)),
    {
        self.text(K_NICK)
    }

    /// The body, if it is text.
    pub fn body_text(&self) -> (r: Option<&str>)
        ensures
            str_view(r) == text_of(self.entry(K_BODY)),
    {
        self.text(K_BODY)
    }

    /// The sender identity, if it is a byte string of exactly 16 bytes.
    pub fn source(&self) -> (r: Option<[u8; 16]>)
        ensures
            r matches Some(a) ==> bytes_of(self.entry(K_SRC)) == Some(a@),
            r is None ==> !(bytes_of(self.entry(K_SRC)) matches Some(b) && b.len() == 16),
    {
        match self.bytes(K_SRC) {
            Some(b) => if b.len() == 16 {
                let mut a = [0u8; 16];
                let mut i: usize = 0;
                while i < 16
                    invariant
                        i <= 16,
                        b@.len() == 16,
                        forall|j: int| 0 <= j < i ==> a@[j] == b@[j],
                    decreases 16 - i,
                {
                    a[i] = b[i];
                    i = i + 1;
                }
                assert(a@ =~= b@);
                Some(a)
            } else {
                None
            },
            None => None,
        }
    }

    /// Stores the sender identity.
    pub fn set_source(&mut self, source: &[u8; 16])
        ensures
            final(self)@ == field_insert(old(self)@, K_SRC, Cbor::Bytes(source@)),
    {
        let b = vstd::slice::slice_to_vec(source.as_slice());
        self.set(K_SRC, Item::Bytes(b));
    }

    /// Stores the nickname.
    pub fn set_nick(&mut self, nick: &str)
        ensures
            final(self)@ == field_insert(old(self)@, K_NICK, Cbor::Text(nick@)),
    {
        self.set(K_NICK, Item::Text(nick.to_owned()));
    }

    /// Checks the envelope against [`validation`].
    pub fn validate(&self) -> (r: Result<(), EnvelopeError>)
        ensures
            r == validation(self@),
    {
        proof {
            Envelope::lemma_view_lists(*self);
        }
        let ghost s = self@;
        let list = self.entry_list();
        let mut i: usize = 0;
        while i < list.len()
            invariant
                i <= list.len(),
                s == self@,
                s == fields_view(list@),
                s.len() == list.len(),
                forall|j: int| 0 <= j < i ==> (#[trigger] s[j]).0 >= 0,
            decreases list.len() - i,
        {
            if list[i].0 < 0 {
                assert(s[i as int].0 < 0);
                return Err(EnvelopeError::KeyNotUnsigned);
            }
            i = i + 1;
        }
        if self.get(K_V).is_none() {
            return Err(EnvelopeError::MissingKey(K_V));
        }
        if self.get(K_T).is_none() {
            return Err(EnvelopeError::MissingKey(K_T));
        }
        if self.get(K_ID).is_none() {
            return Err(EnvelopeError::MissingKey(K_ID));
        }
        if self.get(K_TS).is_none() {
            return Err(EnvelopeError::MissingKey(K_TS));
        }
        if self.get(K_SRC).is_none() {
            return Err(EnvelopeError::MissingKey(K_SRC));
        }
        match self.integer(K_V) {
            Some(v) => if v != VERSION {
                return Err(EnvelopeError::UnsupportedVersion);
            },
            None => {
                return Err(EnvelopeError::UnsupportedVersion);
            },
        }
        if self.integer(K_T).is_none() {
            return Err(EnvelopeError::MessageTypeNotUnsigned);
        }
        if self.bytes(K_ID).is_none() {
            return Err(EnvelopeError::MessageIdNotBytes);
        }
        if self.unsigned(K_TS).is_none() {
            return Err(EnvelopeError::TimestampNotUnsigned);
        }
        if self.bytes(K_SRC).is_none() {
            return Err(EnvelopeError::SourceNotBytes);
        }
        if self.get(K_ROOM).is_some() && self.text(K_ROOM).is_none() {
            return Err(EnvelopeError::RoomNotText);
        }
        if self.get(K_NICK).is_some() && self.text(K_NICK).is_none() {
            return Err(EnvelopeError::NickNotText);
        }
        if self.get(K_DST).is_some() && self.bytes(K_DST).is_none() {
            return Err(EnvelopeError::DestinationNotBytes);
        }
        Ok(())
    }
}


/// The CBOR map that carries the fields `s`.
pub open spec fn envelope_table(s: Seq<(i128, Cbor)>) -> Cbor {
    Cbor::Table(s.map_values(|e: (i128, Cbor)| (Cbor::Integer(e.0), e.1)))
}

/// The fields read from the entries `m` of a decoded map, in order, each
/// stored as by [`field_insert`]; `None` if a key is not a non-negative integer.
pub open spec fn assemble(m: Seq<(Cbor, Cbor)>) -> Option<Seq<(i128, Cbor)>>
    decreases m.len(),
{
    if m.len() == 0 {
        Some(Seq::empty())
    } else {
        match assemble(m.drop_last()) {
            None => None,
            Some(f) => match m.last().0 {
                Cbor::Integer(k) => if k >= 0 {
                    Some(field_insert(f, k, m.last().1))
                } else {
                    None
                },
                _ => None,
            },
        }
    }
}

/// What reading the CBOR item `c` as an envelope gives: its fields, or the error.
pub open spec fn from_item_spec(c: Cbor) -> Result<Seq<(i128, Cbor)>, EnvelopeError> {
    match c {
        Cbor::Table(m) => match assemble(m) {
            None => Err(EnvelopeError::KeyNotUnsigned),
            Some(f) => match validation(f) {
                Ok(()) => Ok(f),
                Err(e) => Err(e),
            },
        },
        _ => Err(EnvelopeError::NotAMap),
    }
}

/// What decoding `bytes` as an envelope gives: its fields, or the error.
pub open spec fn decode_spec(bytes: Seq<u8>) -> Result<Seq<(i128, Cbor)>, EnvelopeError> {
    match cbor::cbor_decode(bytes) {
        None => Err(EnvelopeError::InvalidCbor),
        Some(c) => from_item_spec(c),
    }
}

proof fn lemma_assemble_none(m: Seq<(Cbor, Cbor)>, i: int)
    requires
        0 <= i <= m.len(),
        assemble(m.take(i)) is None,
    ensures
        assemble(m) is None,
    decreases m.len() - i,
{
    if i < m.len() {
        assert(m.take(i + 1).drop_last() =~= m.take(i));
        lemma_assemble_none(m, i + 1);
    } else {
        assert(m.take(i) =~= m);
    }
}

proof fn lemma_assemble_table(s: Seq<(i128, Cbor)>)
    requires
        ascending(s),
        forall|i: int| 0 <= i < s.len() ==> (#[trigger] s[i]).0 >= 0,
    ensures
        assemble(s.map_values(|e: (i128, Cbor)| (Cbor::Integer(e.0), e.1))) == Some(s),
    decreases s.len(),
{
    let m = s.map_values(|e: (i128, Cbor)| (Cbor::Integer(e.0), e.1));
    if s.len() > 0 {
        let r = s.drop_last();
        assert(ascending(r));
        lemma_assemble_table(r);
        assert(m.drop_last() =~= r.map_values(|e: (i128, Cbor)| (Cbor::Integer(e.0), e.1)));
        let k = s.last().0;
        assert forall|j: int| 0 <= j < r.len() implies (#[trigger] r[j]).0 < k by {
            assert(r[j] == s[j]);
        }
        lemma_field_insert_at(r, k, s.last().1, r.len() as int);
        assert(r.insert(r.len() as int, (k, s.last().1)) =~= s);
    } else {
        assert(m =~= Seq::<(Cbor, Cbor)>::empty());
    }
}

/// Whether every key of `s` is an unsigned 64-bit integer and every item is
/// [`cbor::plain_within`] the nesting left below the envelope map.
pub open spec fn plain_fields(s: Seq<(i128, Cbor)>) -> bool {
    forall|i: int|
        0 <= i < s.len() ==> 0 <= (#[trigger] s[i]).0 <= u64::MAX && cbor::plain_within(
            s[i].1,
            126,
        )
}

/// The map of ascending fields with unsigned keys and plain items is plain.
pub proof fn lemma_plain_table(s: Seq<(i128, Cbor)>)
    requires
        ascending(s),
        plain_fields(s),
    ensures
        cbor::plain(envelope_table(s)),
{
    let m = s.map_values(|e: (i128, Cbor)| (Cbor::Integer(e.0), e.1));
    assert forall|i: int| 0 <= i < m.len() implies (#[trigger] m[i]).0 is Integer
        && cbor::cbor_integer_range(m[i].0->Integer_0) && cbor::plain_within(m[i].1, 126) by {
        assert(m[i] == (Cbor::Integer(s[i].0), s[i].1));
    }
    assert forall|i: int, j: int| 0 <= i < j < m.len() implies value::key_order(
        (#[trigger] m[i]).0->Integer_0,
        (#[trigger] m[j]).0->Integer_0,
    ) by {
        assert(m[i] == (Cbor::Integer(s[i].0), s[i].1));
        assert(m[j] == (Cbor::Integer(s[j].0), s[j].1));
    }
    cbor::law_ordered_table_plain(m, 127);
}

/// Each entry of `field_insert(s, k, v)` is the new entry or an entry of `s`.
proof fn lemma_field_insert_entries(s: Seq<(i128, Cbor)>, k: i128, v: Cbor)
    ensures
        forall|i: int|
            0 <= i < field_insert(s, k, v).len() ==> #[trigger] field_insert(s, k, v)[i] == (k, v)
                || s.contains(field_insert(s, k, v)[i]),
    decreases s.len(),
{
    let t = field_insert(s, k, v);
    if s.len() == 0 {
        assert(t[0] == (k, v));
    } else if s[0].0 == k {
        assert forall|i: int| 0 <= i < t.len() implies #[trigger] t[i] == (k, v) || s.contains(
            t[i],
        ) by {
            if i > 0 {
                assert(t[i] == s[i]);
            }
        }
    } else if k < s[0].0 {
        assert forall|i: int| 0 <= i < t.len() implies #[trigger] t[i] == (k, v) || s.contains(
            t[i],
        ) by {
            if i > 0 {
                assert(t[i] == s[i - 1]);
            }
        }
    } else {
        let rest = s.drop_first();
        lemma_field_insert_entries(rest, k, v);
        let tr = field_insert(rest, k, v);
        assert forall|i: int| 0 <= i < t.len() implies #[trigger] t[i] == (k, v) || s.contains(
            t[i],
        ) by {
            if i > 0 {
                assert(t[i] == tr[i - 1]);
                if tr[i - 1] != (k, v) {
                    let j = choose|j: int| 0 <= j < rest.len() && rest[j] == tr[i - 1];
                    assert(s[j + 1] == rest[j]);
                }
            } else {
                assert(t[0] == s[0]);
            }
        }
    }
}

/// Storing a plain item under an unsigned 64-bit key keeps the fields plain.
pub proof fn law_set_keeps_plain(s: Seq<(i128, Cbor)>, k: i128, v: Cbor)
    requires
        plain_fields(s),
        0 <= k <= u64::MAX,
        cbor::plain_within(v, 126),
    ensures
        plain_fields(field_insert(s, k, v)),
{
    lemma_field_insert_entries(s, k, v);
    let t = field_insert(s, k, v);
    assert forall|i: int| 0 <= i < t.len() implies 0 <= (#[trigger] t[i]).0 <= u64::MAX
        && cbor::plain_within(t[i].1, 126) by {
        if t[i] != (k, v) {
            let j = choose|j: int| 0 <= j < s.len() && s[j] == t[i];
            assert(0 <= s[j].0 <= u64::MAX);
        }
    }
}

impl Envelope {
    /// The CBOR map that carries this envelope.
    fn to_item(&self) -> (r: Item)
        ensures
            r@ == envelope_table(self@),
    {
        let ghost s = self@;
        let list = self.entry_list();
        let mut entries: Vec<(Item, Item)> = Vec::new();
        let mut i: usize = 0;
        while i < list.len()
            invariant
                i <= list.len(),
                s == fields_view(list@),
                s.len() == list.len(),
                value::entries_view(entries@) == s.take(i as int).map_values(
                    |e: (i128, Cbor)| (Cbor::Integer(e.0), e.1),
                ),
            decreases list.len() - i,
        {
            let key = Item::Integer(list[i].0);
            let item = list[i].1.deep_copy();
            proof {
                value::lemma_entries_view_push(entries@.push((key, item)), entries@.len() as int);
                assert(entries@.push((key, item)).take(entries@.len() as int) =~= entries@);
                assert(entries@.push((key, item)).take(entries@.len() as int + 1) =~= entries@.push(
                    (key, item),
                ));
                assert(s.take(i + 1).map_values(|e: (i128, Cbor)| (Cbor::Integer(e.0), e.1))
                    =~= s.take(i as int).map_values(|e: (i128, Cbor)| (Cbor::Integer(e.0), e.1)).push(
                    (Cbor::Integer(s[i as int].0), s[i as int].1),
                ));
            }
            entries.push((key, item));
            i = i + 1;
        }
        assert(s.take(s.len() as int) =~= s);
        Item::Table(ItemMap { entries })
    }

    /// Encodes the envelope as CBOR after checking it with [`validation`].
    /// A valid envelope is encoded without error exactly when CBOR can carry
    /// all its integers; one whose map is [`cbor::plain`] is encoded into bytes
    /// that [`Envelope::decode`] turns back into the same envelope.
    pub fn encode(&self) -> (r: Result<Vec<u8>, EnvelopeError>)
        ensures
            validation(self@) matches Err(e) ==> r == Err::<Vec<u8>, EnvelopeError>(e),
            validation(self@) is Ok ==> (r matches Ok(b) ==> b@ == cbor::cbor_encode(
                envelope_table(self@),
            )),
            validation(self@) is Ok ==> (r is Err <==> !cbor::integers_in_range(envelope_table(self@))),
            validation(self@) is Ok ==> (r is Err ==> r == Err::<Vec<u8>, EnvelopeError>(
                EnvelopeError::EncodingFailed,
            )),
            validation(self@) is Ok && cbor::plain(envelope_table(self@)) ==> (r matches Ok(b)
                && decode_spec(b@) == Ok::<Seq<(i128, Cbor)>, EnvelopeError>(self@)),
    {
        proof {
            Envelope::lemma_view_lists(*self);
        }
        self.validate()?;
        let item = self.to_item();
        proof {
            if cbor::plain(envelope_table(self@)) {
                cbor::lemma_plain_integers_in_range(envelope_table(self@), 127);
            }
        }
        if !cbor::item_in_range(&item) {
            return Err(EnvelopeError::EncodingFailed);
        }
        match encode_item(&item) {
            Ok(b) => {
                proof {
                    if cbor::plain(envelope_table(self@)) {
                        assert(forall|i: int| 0 <= i < self@.len() ==> (#[trigger] self@[i]).0 >= 0);
                        lemma_assemble_table(self@);
                    }
                }
                Ok(b)
            },
            Err(_) => Err(EnvelopeError::EncodingFailed),
        }
    }

    /// Decodes an envelope from CBOR ([`decode_spec`]).
    pub fn decode(bytes: &[u8]) -> (r: Result<Envelope, EnvelopeError>)
        ensures
            decode_spec(bytes@) matches Ok(f) ==> (r matches Ok(e) && e@ == f),
            decode_spec(bytes@) matches Err(x) ==> r == Err::<Envelope, EnvelopeError>(x),
    {
        match decode_item(bytes) {
            Ok(v) => Envelope::from_item(v),
            Err(_) => Err(EnvelopeError::InvalidCbor),
        }
    }

    /// Reads a decoded CBOR item as an envelope ([`from_item_spec`]): a map
    /// whose keys are non-negative integers, each stored as by [`Envelope::set`],
    /// that passes [`validation`].
    pub fn from_item(item: Item) -> (r: Result<Envelope, EnvelopeError>)
        ensures
            from_item_spec(item@) matches Ok(f) ==> (r matches Ok(e) && e@ == f),
            from_item_spec(item@) matches Err(x) ==> r == Err::<Envelope, EnvelopeError>(x),
    {
        let ghost decoded = item@;
        let table = match item {
            Item::Table(m) => m,
            _ => {
                return Err(EnvelopeError::NotAMap);
            },
        };
        let ghost m = table@;
        assert(decoded == Cbor::Table(m));
        assert(decoded is Table && decoded->Table_0 == m);
        proof {
            value::lemma_entries_view_index(table.entries@);
        }
        let mut envelope = Envelope::empty();
        assert(m.take(0) =~= Seq::<(Cbor, Cbor)>::empty());
        let mut i: usize = 0;
        while i < table.entries.len()
            invariant
                i <= table.entries.len(),
                m == table@,
                decoded == Cbor::Table(m),
                decoded == item@,
                m.len() == table.entries.len(),
                forall|j: int| 0 <= j < m.len() ==> #[trigger] m[j] == (table.entries@[j].0@, table.entries@[j].1@),
                assemble(m.take(i as int)) == Some(envelope@),
            decreases table.entries.len() - i,
        {
            assert(m.take(i + 1).drop_last() =~= m.take(i as int));
            assert(m.take(i + 1).last() == m[i as int]);
            match &table.entries[i].0 {
                Item::Integer(k) => {
                    if *k < 0 {
                        proof {
                            lemma_assemble_none(m, i + 1);
                        }
                        assert(from_item_spec(decoded) == Err::<Seq<(i128, Cbor)>, EnvelopeError>(
                            EnvelopeError::KeyNotUnsigned,
                        ));
                        return Err(EnvelopeError::KeyNotUnsigned);
                    }
                    let v = table.entries[i].1.deep_copy();
                    envelope.set(*k, v);
                },
                _ => {
                    proof {
                        lemma_assemble_none(m, i + 1);
                    }
                    assert(from_item_spec(decoded) == Err::<Seq<(i128, Cbor)>, EnvelopeError>(
                        EnvelopeError::KeyNotUnsigned,
                    ));
                    return Err(EnvelopeError::KeyNotUnsigned);
                },
            }
            i = i + 1;
        }
        assert(m.take(m.len() as int) =~= m);
        envelope.validate()?;
        Ok(envelope)
    }
}


/// The fields of a fresh envelope: version, message type, identifier,
/// timestamp and sender identity.
pub open spec fn header(mt: u64, src: Seq<u8>, id: Seq<u8>, ts: i128) -> Seq<(i128, Cbor)> {
    seq![
        (K_V, Cbor::Integer(VERSION as i128)),
        (K_T, Cbor::Integer(mt as i128)),
        (K_ID, Cbor::Bytes(id)),
        (K_TS, Cbor::Integer(ts)),
        (K_SRC, Cbor::Bytes(src)),
    ]
}

/// Whether `h` is the header of a fresh envelope of type `mt` from `src`, with
/// some 8-byte identifier and some timestamp that a clock reading in whole
/// milliseconds can give: from 0 to [`fresh::millis_limit`].
pub open spec fn is_header(h: Seq<(i128, Cbor)>, mt: u64, src: Seq<u8>) -> bool {
    exists|id: Seq<u8>, ts: i128|
        id.len() == 8 && 0 <= ts <= fresh::millis_limit() && h == #[trigger] header(mt, src, id, ts)
}

/// A header is ascending, and its fields are plain when the timestamp is an
/// unsigned 64-bit integer.
pub proof fn lemma_header_plain(mt: u64, src: Seq<u8>, id: Seq<u8>, ts: i128)
    requires
        0 <= ts <= u64::MAX,
    ensures
        ascending(header(mt, src, id, ts)),
        plain_fields(header(mt, src, id, ts)),
{
    let h = header(mt, src, id, ts);
    assert(cbor::plain_within(h[1].1, 126));
    assert(cbor::plain_within(h[3].1, 126));
}

/// A header whose timestamp is not negative is valid.
pub proof fn lemma_header_valid(mt: u64, src: Seq<u8>, id: Seq<u8>, ts: i128)
    requires
        ts >= 0,
    ensures
        validation(header(mt, src, id, ts)) == Ok::<(), EnvelopeError>(()),
{
    let h = header(mt, src, id, ts);
    reveal_with_fuel(field_of, 7);
    assert(field_of(h, K_V) == Some(Cbor::Integer(1)));
    assert(field_of(h, K_T) == Some(Cbor::Integer(mt as i128)));
    assert(field_of(h, K_ID) == Some(Cbor::Bytes(id)));
    assert(field_of(h, K_TS) == Some(Cbor::Integer(ts)));
    assert(field_of(h, K_SRC) == Some(Cbor::Bytes(src)));
    assert(field_of(h, K_ROOM) is None);
    assert(field_of(h, K_NICK) is None);
    assert(field_of(h, K_DST) is None);
    assert(!exists|i: int| 0 <= i < h.len() && (#[trigger] h[i]).0 < 0);
}

impl Envelope {
    /// An envelope holding exactly the [`header`] built from the arguments.
    pub fn with_header(message_type: u64, source: &[u8], id: &[u8], timestamp: i128) -> (r: Envelope)
        ensures
            r@ == header(message_type, source@, id@, timestamp),
    {
        let mut envelope = Envelope::empty();
        envelope.set(K_V, Item::Integer(VERSION as i128));
        envelope.set(K_T, Item::Integer(message_type as i128));
        envelope.set(K_ID, Item::Bytes(vstd::slice::slice_to_vec(id)));
        envelope.set(K_TS, Item::Integer(timestamp));
        envelope.set(K_SRC, Item::Bytes(vstd::slice::slice_to_vec(source)));
        proof {
            let h = header(message_type, source@, id@, timestamp);
            reveal_with_fuel(field_insert, 6);
            assert(envelope@ =~= h);
        }
        envelope
    }

    /// A fresh envelope of type `message_type` from `source`, with a random
    /// 8-byte identifier and the current time in milliseconds.
    pub fn new(message_type: u64, source: &[u8]) -> (r: Envelope)
        ensures
            is_header(r@, message_type, source@),
            validation(r@) is Ok,
    {
        let id = fresh::random_id();
        let millis = fresh::now_unix_millis();
        let timestamp = millis as i128;
        assert(timestamp == millis);
        let r = Envelope::with_header(message_type, source, id.as_slice(), timestamp);
        assert(r@ == header(message_type, source@, id@, timestamp));
        proof {
            lemma_header_valid(message_type, source@, id@, timestamp);
        }
        r
    }
}

/// An envelope is valid exactly when every key is non-negative, the version
/// is 1, the message type is an integer in `0 ..= u64::MAX`, the identifier
/// and the sender are byte strings, the timestamp is a non-negative integer,
/// and a room or nickname, where present, is text and a destination bytes.
pub proof fn law_validation_meaning(s: Seq<(i128, Cbor)>)
    ensures
        validation(s) is Ok <==> {
            &&& forall|i: int| 0 <= i < s.len() ==> (#[trigger] s[i]).0 >= 0
            &&& field_of(s, K_V) == Some(Cbor::Integer(1))
            &&& field_of(s, K_T) is Some && field_of(s, K_T)->Some_0 is Integer
            &&& 0 <= field_of(s, K_T)->Some_0->Integer_0 <= u64::MAX
            &&& field_of(s, K_ID) is Some && field_of(s, K_ID)->Some_0 is Bytes
            &&& field_of(s, K_TS) is Some && field_of(s, K_TS)->Some_0 is Integer
            &&& field_of(s, K_TS)->Some_0->Integer_0 >= 0
            &&& field_of(s, K_SRC) is Some && field_of(s, K_SRC)->Some_0 is Bytes
            &&& field_of(s, K_ROOM) is Some ==> field_of(s, K_ROOM)->Some_0 is Text
            &&& field_of(s, K_NICK) is Some ==> field_of(s, K_NICK)->Some_0 is Text
            &&& field_of(s, K_DST) is Some ==> field_of(s, K_DST)->Some_0 is Bytes
        },
{
}

} // verus!
