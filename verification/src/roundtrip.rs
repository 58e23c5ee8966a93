//! JSON encoded with the `any` builtin and decoded again comes back as it
//! was.
use vstd::prelude::*;
use crate::cbor::{canon, insert_entry};
use crate::csil::{Rule, TypeExpr};
use crate::list::resolve_type;
use crate::objects::{key_lt, keys_ascending, insert_at, lemma_key_lt_irreflexive, lemma_key_lt_transitive, lemma_key_lt_total, lemma_insert_at};
use crate::payload::{
    json_any, json_any_list, json_any_members, cbor_json, cbor_json_list, object_of, object_insert, key_text,
    is_finite, member_from, encode, name_any,
};
use crate::steps::{encodes, lemma_encodes_at};
use crate::value::{JsonV, NumberV, NumberKindV, CborV};

verus! {

/// A JSON value as JSON text gives it: each object's keys rising strictly
/// (`key_lt`), negative integers below zero, floats finite.
pub open spec fn json_wf(j: JsonV) -> bool
    decreases j,
{
    match j {
        JsonV::Number(n) => match n.kind {
            NumberKindV::NegInt(i) => i < 0,
            NumberKindV::Float(x) => is_finite(x.bits),
            NumberKindV::PosInt(_) => true,
        },
        JsonV::Array(items) => json_wf_list(items),
        JsonV::Object(ms) => keys_ascending(ms) && json_wf_members(ms),
        _ => true,
    }
}

pub open spec fn json_wf_list(items: Seq<JsonV>) -> bool
    decreases items,
{
    if items.len() == 0 {
        true
    } else {
        json_wf_list(items.drop_last()) && json_wf(items.last())
    }
}

pub open spec fn json_wf_members(ms: Seq<(Seq<char>, JsonV)>) -> bool
    decreases ms,
{
    if ms.len() == 0 {
        true
    } else {
        json_wf_members(ms.drop_last()) && json_wf(ms.last().1)
    }
}

/// A JSON value without the float that its integers carry (`int_as_float`,
/// a copy of what the integer converts to, not part of the value).
pub open spec fn json_plain(j: JsonV) -> JsonV
    decreases j,
{
    match j {
        JsonV::Number(n) => JsonV::Number(NumberV { kind: n.kind, int_as_float: None }),
        JsonV::Array(items) => JsonV::Array(json_plain_list(items)),
        JsonV::Object(ms) => JsonV::Object(json_plain_members(ms)),
        _ => j,
    }
}

pub open spec fn json_plain_list(items: Seq<JsonV>) -> Seq<JsonV>
    decreases items,
{
    if items.len() == 0 {
        Seq::empty()
    } else {
        json_plain_list(items.drop_last()).push(json_plain(items.last()))
    }
}

pub open spec fn json_plain_members(ms: Seq<(Seq<char>, JsonV)>) -> Seq<(Seq<char>, JsonV)>
    decreases ms,
{
    if ms.len() == 0 {
        Seq::empty()
    } else {
        json_plain_members(ms.drop_last()).push((ms.last().0, json_plain(ms.last().1)))
    }
}

/// Whether no two entries have the same key.
pub open spec fn distinct_keys(es: Seq<(CborV, CborV)>) -> bool {
    forall|a: int, b: int| 0 <= a < b < es.len() ==> #[trigger] es[a].0 != #[trigger] es[b].0
}

proof fn lemma_plain_members(ms: Seq<(Seq<char>, JsonV)>)
    ensures
        json_plain_members(ms).len() == ms.len(),
        forall|i: int| 0 <= i < ms.len() ==> #[trigger] json_plain_members(ms)[i] == (ms[i].0, json_plain(ms[i].1)),
    decreases ms.len(),
{
    if ms.len() > 0 {
        lemma_plain_members(ms.drop_last());
    }
}

proof fn lemma_any_members(ms: Seq<(Seq<char>, JsonV)>)
    ensures
        json_any_members(ms).len() == ms.len(),
        forall|i: int| 0 <= i < ms.len() ==> #[trigger] json_any_members(ms)[i] == (CborV::Text(ms[i].0), json_any(ms[i].1)),
    decreases ms.len(),
{
    if ms.len() > 0 {
        lemma_any_members(ms.drop_last());
    }
}

proof fn lemma_insert_entry(s: Seq<(CborV, CborV)>, e: (CborV, CborV))
    ensures
        insert_entry(s, e).len() == s.len() + 1,
        forall|x: (CborV, CborV)| #[trigger] insert_entry(s, e).contains(x) <==> (s.contains(x) || x == e),
        distinct_keys(s) && (forall|i: int| 0 <= i < s.len() ==> #[trigger] s[i].0 != e.0) ==> distinct_keys(
            insert_entry(s, e),
        ),
    decreases s.len(),
{
    let r = insert_entry(s, e);
    if s.len() == 0 {
        assert forall|x: (CborV, CborV)| #[trigger] r.contains(x) <==> (s.contains(x) || x == e) by {
            if x == e {
                assert(r[0] == e);
            }
        }
    } else if r == s.push(e) {
        assert forall|x: (CborV, CborV)| #[trigger] r.contains(x) <==> (s.contains(x) || x == e) by {
            if s.contains(x) {
                let i = choose|i: int| 0 <= i < s.len() && s[i] == x;
                assert(r[i] == x);
            }
            if x == e {
                assert(r[s.len() as int] == e);
            }
            if r.contains(x) {
                let i = choose|i: int| 0 <= i < r.len() && r[i] == x;
                if i < s.len() {
                    assert(s[i] == x);
                }
            }
        }
    } else {
        let t = s.drop_last();
        let inner = insert_entry(t, e);
        lemma_insert_entry(t, e);
        assert(r == inner.push(s.last()));
        assert forall|x: (CborV, CborV)| #[trigger] r.contains(x) <==> (s.contains(x) || x == e) by {
            if s.contains(x) {
                let i = choose|i: int| 0 <= i < s.len() && s[i] == x;
                if i == s.len() - 1 {
                    assert(r[r.len() - 1] == x);
                } else {
                    assert(t[i] == x);
                    assert(inner.contains(x));
                    let k = choose|k: int| 0 <= k < inner.len() && inner[k] == x;
                    assert(r[k] == x);
                }
            }
            if x == e {
                assert(inner.contains(x));
                let k = choose|k: int| 0 <= k < inner.len() && inner[k] == x;
                assert(r[k] == x);
            }
            if r.contains(x) {
                let i = choose|i: int| 0 <= i < r.len() && r[i] == x;
                if i == r.len() - 1 {
                    assert(s[s.len() - 1] == x);
                } else {
                    assert(inner[i] == x);
                    assert(inner.contains(x));
                    if t.contains(x) {
                        let k = choose|k: int| 0 <= k < t.len() && t[k] == x;
                        assert(s[k] == x);
                    }
                }
            }
        }
        if distinct_keys(s) && (forall|i: int| 0 <= i < s.len() ==> #[trigger] s[i].0 != e.0) {
            assert(distinct_keys(t)) by {
                assert forall|a: int, b: int| 0 <= a < b < t.len() implies #[trigger] t[a].0 != #[trigger] t[b].0 by {
                    assert(t[a] == s[a] && t[b] == s[b]);
                }
            }
            assert(forall|i: int| 0 <= i < t.len() ==> #[trigger] t[i].0 != e.0) by {
                assert forall|i: int| 0 <= i < t.len() implies #[trigger] t[i].0 != e.0 by {
                    assert(t[i] == s[i]);
                }
            }
            assert forall|a: int, b: int| 0 <= a < b < r.len() implies #[trigger] r[a].0 != #[trigger] r[b].0 by {
                if b == r.len() - 1 {
                    let x = inner[a];
                    assert(r[a] == x);
                    assert(inner.contains(x));
                    if x == e {
                        assert(s[s.len() - 1].0 != e.0);
                    } else {
                        assert(t.contains(x));
                        let k = choose|k: int| 0 <= k < t.len() && t[k] == x;
                        assert(s[k] == x);
                        assert(s[k].0 != s[s.len() - 1].0);
                    }
                } else {
                    assert(r[a] == inner[a] && r[b] == inner[b]);
                }
            }
        }
    }
}

proof fn lemma_canon(es: Seq<(CborV, CborV)>)
    ensures
        forall|x: (CborV, CborV)| #[trigger] canon(es).contains(x) <==> es.contains(x),
        distinct_keys(es) ==> distinct_keys(canon(es)),
    decreases es.len(),
{
    if es.len() == 0 {
        assert forall|x: (CborV, CborV)| #[trigger] canon(es).contains(x) <==> es.contains(x) by {}
    } else {
        let t = es.drop_last();
        lemma_canon(t);
        let c = canon(t);
        lemma_insert_entry(c, es.last());
        assert forall|x: (CborV, CborV)| #[trigger] canon(es).contains(x) <==> es.contains(x) by {
            if t.contains(x) {
                let k = choose|k: int| 0 <= k < t.len() && t[k] == x;
                assert(es[k] == x);
            }
            if x == es.last() {
                assert(es[es.len() - 1] == x);
            }
            if es.contains(x) {
                let k = choose|k: int| 0 <= k < es.len() && es[k] == x;
                if k < es.len() - 1 {
                    assert(t[k] == x);
                }
            }
        }
        if distinct_keys(es) {
            assert(distinct_keys(t)) by {
                assert forall|a: int, b: int| 0 <= a < b < t.len() implies #[trigger] t[a].0 != #[trigger] t[b].0 by {
                    assert(t[a] == es[a] && t[b] == es[b]);
                }
            }
            assert forall|i: int| 0 <= i < c.len() implies #[trigger] c[i].0 != es.last().0 by {
                assert(c.contains(c[i]));
                let k = choose|k: int| 0 <= k < t.len() && t[k] == c[i];
                assert(es[k] == c[i]);
            }
        }
    }
}

proof fn lemma_member_from_none(ms: Seq<(Seq<char>, JsonV)>, k: Seq<char>, i: int)
    requires
        0 <= i,
        forall|x: int| 0 <= x < ms.len() ==> #[trigger] ms[x].0 != k,
    ensures
        member_from(ms, k, i) is None,
    decreases ms.len() - i,
{
    if i < ms.len() {
        lemma_member_from_none(ms, k, i + 1);
    }
}

/// The object that entries with distinct text keys become: members in key
/// order, one per entry.
proof fn lemma_object_of(es: Seq<(CborV, CborV)>)
    requires
        distinct_keys(es),
        forall|i: int| 0 <= i < es.len() ==> (#[trigger] es[i]).0 is Text,
    ensures
        keys_ascending(object_of(es)),
        forall|k: Seq<char>, w: JsonV| #[trigger] object_of(es).contains((k, w)) <==> exists|i: int|
            0 <= i < es.len() && #[trigger] es[i].0 == CborV::Text(k) && w == cbor_json(es[i].1),
    decreases es.len(),
{
    if es.len() > 0 {
        let t = es.drop_last();
        assert(distinct_keys(t)) by {
            assert forall|a: int, b: int| 0 <= a < b < t.len() implies #[trigger] t[a].0 != #[trigger] t[b].0 by {
                assert(t[a] == es[a] && t[b] == es[b]);
            }
        }
        assert forall|i: int| 0 <= i < t.len() implies (#[trigger] t[i]).0 is Text by {
            assert(t[i] == es[i]);
        }
        lemma_object_of(t);
        let ms = object_of(t);
        let last = es.last();
        assert(es[es.len() - 1] == last);
        let k = last.0->Text_0;
        assert(key_text(last.0) == k);
        let w = cbor_json(last.1);
        assert forall|x: int| 0 <= x < ms.len() implies #[trigger] ms[x].0 != k by {
            if ms[x].0 == k {
                assert(ms.contains((k, ms[x].1)));
                let i = choose|i: int|
                    0 <= i < t.len() && #[trigger] t[i].0 == CborV::Text(k) && ms[x].1 == cbor_json(t[i].1);
                assert(es[i].0 == es[es.len() - 1].0);
            }
        }
        lemma_member_from_none(ms, k, 0);
        let p = insert_at(ms, k, 0);
        lemma_insert_at(ms, k, 0);
        let r = ms.insert(p, (k, w));
        assert(object_of(es) == r);
        assert forall|a: int, b: int| 0 <= a < b < r.len() implies key_lt(#[trigger] r[a].0, #[trigger] r[b].0) by {
            if b < p {
                assert(r[a] == ms[a] && r[b] == ms[b]);
            } else if b == p {
                assert(r[a] == ms[a]);
            } else if a == p {
                assert(r[b] == ms[b - 1]);
                lemma_key_lt_total(ms[p].0, k);
                if b - 1 > p {
                    lemma_key_lt_transitive(k, ms[p].0, ms[b - 1].0);
                }
            } else if a < p {
                assert(r[a] == ms[a] && r[b] == ms[b - 1]);
                lemma_key_lt_total(ms[p].0, k);
                if b - 1 > p {
                    lemma_key_lt_transitive(k, ms[p].0, ms[b - 1].0);
                }
                lemma_key_lt_transitive(ms[a].0, k, ms[b - 1].0);
            } else {
                assert(r[a] == ms[a - 1] && r[b] == ms[b - 1]);
            }
        }
        assert forall|kk: Seq<char>, ww: JsonV| #[trigger] r.contains((kk, ww)) <==> exists|i: int|
            0 <= i < es.len() && #[trigger] es[i].0 == CborV::Text(kk) && ww == cbor_json(es[i].1) by {
            if r.contains((kk, ww)) {
                let y = choose|y: int| 0 <= y < r.len() && r[y] == (kk, ww);
                if y == p {
                    assert(es[es.len() - 1].0 == CborV::Text(kk));
                } else {
                    let z = if y < p { y } else { y - 1 };
                    assert(ms[z] == (kk, ww));
                    assert(ms.contains((kk, ww)));
                    let i = choose|i: int|
                        0 <= i < t.len() && #[trigger] t[i].0 == CborV::Text(kk) && ww == cbor_json(t[i].1);
                    assert(es[i] == t[i]);
                }
            }
            if exists|i: int| 0 <= i < es.len() && #[trigger] es[i].0 == CborV::Text(kk) && ww == cbor_json(es[i].1) {
                let i = choose|i: int| 0 <= i < es.len() && #[trigger] es[i].0 == CborV::Text(kk) && ww == cbor_json(es[i].1);
                if i == es.len() - 1 {
                    assert(r[p] == (kk, ww));
                } else {
                    assert(t[i] == es[i]);
                    assert(ms.contains((kk, ww)));
                    let y = choose|y: int| 0 <= y < ms.len() && ms[y] == (kk, ww);
                    if y < p {
                        assert(r[y] == (kk, ww));
                    } else {
                        assert(r[y + 1] == (kk, ww));
                    }
                }
            }
        }
    }
}

/// Two member sequences in strictly rising key order that hold the same
/// members are the same.
proof fn lemma_ascending_eq(a: Seq<(Seq<char>, JsonV)>, b: Seq<(Seq<char>, JsonV)>)
    requires
        keys_ascending(a),
        keys_ascending(b),
        forall|x: (Seq<char>, JsonV)| #![trigger a.contains(x)] #![trigger b.contains(x)] a.contains(x) <==> b.contains(x),
    ensures
        a == b,
    decreases a.len(),
{
    if a.len() == 0 {
        if b.len() > 0 {
            assert(b.contains(b[0]));
        }
        assert(a =~= b);
    } else {
        assert(a.contains(a[0]));
        assert(b.len() > 0);
        assert(b.contains(b[0]));
        let p = choose|p: int| 0 <= p < b.len() && b[p] == a[0];
        let q = choose|q: int| 0 <= q < a.len() && a[q] == b[0];
        if p > 0 {
            assert(key_lt(b[0].0, b[p].0));
            if q > 0 {
                assert(key_lt(a[0].0, a[q].0));
                lemma_key_lt_transitive(a[0].0, b[0].0, a[0].0);
            }
            lemma_key_lt_irreflexive(a[0].0);
        }
        assert(a[0] == b[0]);
        let a1 = a.drop_first();
        let b1 = b.drop_first();
        assert forall|x: (Seq<char>, JsonV)| #![trigger a1.contains(x)] #![trigger b1.contains(x)] a1.contains(x) <==> b1.contains(x) by {
            if a1.contains(x) {
                let i = choose|i: int| 0 <= i < a1.len() && a1[i] == x;
                assert(a[i + 1] == x);
                assert(key_lt(a[0].0, a[i + 1].0));
                lemma_key_lt_irreflexive(a[0].0);
                assert(b.contains(x));
                let j = choose|j: int| 0 <= j < b.len() && b[j] == x;
                assert(j != 0);
                assert(b1[j - 1] == x);
            }
            if b1.contains(x) {
                let i = choose|i: int| 0 <= i < b1.len() && b1[i] == x;
                assert(b[i + 1] == x);
                assert(key_lt(b[0].0, b[i + 1].0));
                lemma_key_lt_irreflexive(b[0].0);
                assert(a.contains(x));
                let j = choose|j: int| 0 <= j < a.len() && a[j] == x;
                assert(j != 0);
                assert(a1[j - 1] == x);
            }
        }
        assert(keys_ascending(a1)) by {
            assert forall|x: int, y: int| 0 <= x < y < a1.len() implies key_lt(#[trigger] a1[x].0, #[trigger] a1[y].0) by {
                assert(a1[x] == a[x + 1] && a1[y] == a[y + 1]);
            }
        }
        assert(keys_ascending(b1)) by {
            assert forall|x: int, y: int| 0 <= x < y < b1.len() implies key_lt(#[trigger] b1[x].0, #[trigger] b1[y].0) by {
                assert(b1[x] == b[x + 1] && b1[y] == b[y + 1]);
            }
        }
        lemma_ascending_eq(a1, b1);
        assert(a =~= seq![a[0]] + a1);
        assert(b =~= seq![b[0]] + b1);
    }
}

proof fn lemma_round_list(items: Seq<JsonV>)
    requires
        json_wf_list(items),
    ensures
        cbor_json_list(json_any_list(items)) == json_plain_list(items),
    decreases items,
{
    if items.len() > 0 {
        lemma_round_list(items.drop_last());
        law_any_round_trip(items.last());
        assert(json_any_list(items).drop_last() == json_any_list(items.drop_last()));
    }
}

proof fn lemma_round_members(ms: Seq<(Seq<char>, JsonV)>)
    requires
        json_wf_members(ms),
    ensures
        forall|i: int| 0 <= i < ms.len() ==> cbor_json(json_any(#[trigger] ms[i].1)) == json_plain(ms[i].1),
    decreases ms,
{
    if ms.len() > 0 {
        let t = ms.drop_last();
        lemma_round_members(t);
        law_any_round_trip(ms.last().1);
        assert forall|i: int| 0 <= i < ms.len() implies cbor_json(json_any(#[trigger] ms[i].1)) == json_plain(ms[i].1) by {
            if i < ms.len() - 1 {
                assert(ms[i] == t[i]);
            }
        }
    }
}

/// JSON as JSON text gives it, converted to CBOR with no type (the `any`
/// builtin) and back to JSON, is the same JSON: integers stay integers,
/// floats stay floats, every key keeps its value, in key order.
pub proof fn law_any_round_trip(j: JsonV)
    requires
        json_wf(j),
    ensures
        cbor_json(json_any(j)) == json_plain(j),
    decreases j,
{
    match j {
        JsonV::Number(n) => {
            match n.kind {
                NumberKindV::PosInt(u) => assert((u as int) as u64 == u),
                NumberKindV::NegInt(x) => assert((x as int) as i64 == x),
                _ => {},
            }
        },
        JsonV::Array(items) => {
            lemma_round_list(items);
        },
        JsonV::Object(ms) => {
            lemma_round_members(ms);
            let es = json_any_members(ms);
            lemma_any_members(ms);
            assert(distinct_keys(es)) by {
                assert forall|a: int, b: int| 0 <= a < b < es.len() implies #[trigger] es[a].0 != #[trigger] es[b].0 by {
                    assert(key_lt(ms[a].0, ms[b].0));
                    lemma_key_lt_irreflexive(ms[a].0);
                }
            }
            lemma_canon(es);
            let c = canon(es);
            assert forall|i: int| 0 <= i < c.len() implies (#[trigger] c[i]).0 is Text by {
                assert(c.contains(c[i]));
                let k = choose|k: int| 0 <= k < es.len() && es[k] == c[i];
            }
            lemma_object_of(c);
            let o = object_of(c);
            let pm = json_plain_members(ms);
            lemma_plain_members(ms);
            assert(keys_ascending(pm)) by {
                assert forall|a: int, b: int| 0 <= a < b < pm.len() implies key_lt(#[trigger] pm[a].0, #[trigger] pm[b].0) by {
                    assert(pm[a].0 == ms[a].0 && pm[b].0 == ms[b].0);
                }
            }
            assert forall|x: (Seq<char>, JsonV)| #![trigger o.contains(x)] #![trigger pm.contains(x)] o.contains(x) <==> pm.contains(x) by {
                let (k, w) = x;
                if o.contains((k, w)) {
                    let i = choose|i: int| 0 <= i < c.len() && #[trigger] c[i].0 == CborV::Text(k) && w == cbor_json(c[i].1);
                    assert(c.contains(c[i]));
                    let y = choose|y: int| 0 <= y < es.len() && es[y] == c[i];
                    assert(pm[y] == (k, w));
                }
                if pm.contains((k, w)) {
                    let y = choose|y: int| 0 <= y < pm.len() && pm[y] == (k, w);
                    assert(es[y].0 == CborV::Text(k));
                    assert(es.contains(es[y]));
                    assert(c.contains(es[y]));
                    let i = choose|i: int| 0 <= i < c.len() && c[i] == es[y];
                    assert(c[i].0 == CborV::Text(k) && w == cbor_json(c[i].1));
                }
            }
            lemma_ascending_eq(o, pm);
        },
        _ => {},
    }
}

/// The `any` builtin encodes JSON as `json_any` does, in one step.
pub proof fn law_any_encoding(rules: Seq<Rule>, j: JsonV, t: TypeExpr)
    ensures
        resolve_type(rules, t) matches TypeExpr::Builtin(n) && n@ == name_any() ==> encodes(rules, j, t) == Ok::<
            CborV,
            crate::payload::EncodeErrorV,
        >(json_any(j)),
{
    if resolve_type(rules, t) matches TypeExpr::Builtin(n) && n@ == name_any() {
        lemma_encodes_at(rules, j, t, 1);
    }
}

} // verus!
