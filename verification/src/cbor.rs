//! CBOR map keys in canonical order: each key's encoding, and the stable
//! sort of map entries by those encodings (RFC 8949, bytewise lexicographic
//! order of the encoded keys).
use vstd::prelude::*;
use crate::value::{Cbor, CborV, cbor_view, cbor_list_view, cbor_entries_view};
use vstd::utf8::encode_utf8;

verus! {

/// The encoding of a scalar item (RFC 8949, preferred serialization): an
/// integer as major type 0 or 1 with the shortest argument (none outside
/// the range a CBOR integer holds), a byte string or a text as a header
/// with its length in bytes followed by its bytes (a text's in UTF-8), and
/// false, true and null as the simple values 20, 21 and 22.
pub open spec fn scalar_encoding(v: CborV) -> Seq<u8> {
    match v {
        CborV::Integer(n) => if 0 <= n < 0x1_0000_0000_0000_0000 {
            cbor_header(0, n as nat)
        } else if -0x1_0000_0000_0000_0000 <= n < 0 {
            cbor_header(1, (-1 - n) as nat)
        } else {
            Seq::empty()
        },
        CborV::Bytes(b) => cbor_header(2, b.len()) + b,
        CborV::Text(t) => cbor_header(3, encode_utf8(t).len()) + encode_utf8(t),
        CborV::Bool(b) => if b {
            seq![0xf5u8]
        } else {
            seq![0xf4u8]
        },
        _ => seq![0xf6u8],
    }
}

/// A CBOR item that ciborium writes on its own: no float (its bytes come
/// with it), tag, array or map.
pub open spec fn is_scalar(v: CborV) -> bool {
    v is Integer || v is Bytes || v is Text || v is Bool || v is Null
}

/// `ciborium::ser::into_writer` on a scalar item (an integer outside the
/// range of a CBOR integer has no encoding and gives no bytes).
///
/// Trusted: ciborium writes an integer as a positive or negative header
/// with the shortest argument (a negative one from `i64` or `i128` alike),
/// byte strings and texts with one definite-length header, and booleans
/// and null as simple values: `scalar_encoding(v@)`.
#[verifier::external_body]
fn ciborium_encode(v: &Cbor) -> (r: Vec<u8>)
    requires
        is_scalar(v@),
    ensures
        r@ == scalar_encoding(v@),
{
    let value = match v {
        Cbor::Integer(n) => match ciborium::value::Integer::try_from(*n) {
            Ok(i) => ciborium::Value::Integer(i),
            Err(_) => return Vec::new(),
        },
        Cbor::Bytes(b) => ciborium::Value::Bytes(b.clone()),
        Cbor::Text(t) => ciborium::Value::Text(t.clone()),
        Cbor::Bool(x) => ciborium::Value::Bool(*x),
        _ => ciborium::Value::Null,
    };
    let mut buf = Vec::new();
    let _ = ciborium::ser::into_writer(&value, &mut buf);
    buf
}

/// The big-endian bytes of the low `n` bytes of `x`.
pub open spec fn be_bytes(x: nat, n: nat) -> Seq<u8>
    decreases n,
{
    if n == 0 {
        Seq::empty()
    } else {
        be_bytes(x / 256, (n - 1) as nat).push((x % 256) as u8)
    }
}

/// The initial bytes of a CBOR item of major type `major` with argument
/// `arg`, in the shortest form (RFC 8949, section 3).
pub open spec fn cbor_header(major: nat, arg: nat) -> Seq<u8> {
    if arg < 24 {
        seq![(major * 32 + arg) as u8]
    } else if arg < 0x100 {
        seq![(major * 32 + 24) as u8] + be_bytes(arg, 1)
    } else if arg < 0x10000 {
        seq![(major * 32 + 25) as u8] + be_bytes(arg, 2)
    } else if arg < 0x1_0000_0000 {
        seq![(major * 32 + 26) as u8] + be_bytes(arg, 4)
    } else {
        seq![(major * 32 + 27) as u8] + be_bytes(arg, 8)
    }
}

/// The encoding of a CBOR value, as the canonical key order compares it:
/// scalars as ciborium writes them, floats as carried with the value, tags,
/// arrays and maps as a header followed by their parts.
pub open spec fn key_encoding(v: CborV) -> Seq<u8>
    decreases v,
{
    match v {
        CborV::Float(f) => f.cbor,
        CborV::Tag(t, inner) => cbor_header(6, t as nat) + key_encoding(*inner),
        CborV::Array(items) => cbor_header(4, items.len()) + items_encoding(items),
        CborV::Entries(es) => cbor_header(5, es.len()) + entries_encoding(es),
        _ => scalar_encoding(v),
    }
}

pub open spec fn items_encoding(items: Seq<CborV>) -> Seq<u8>
    decreases items,
{
    if items.len() == 0 {
        Seq::empty()
    } else {
        items_encoding(items.drop_last()) + key_encoding(items.last())
    }
}

pub open spec fn entries_encoding(es: Seq<(CborV, CborV)>) -> Seq<u8>
    decreases es,
{
    if es.len() == 0 {
        Seq::empty()
    } else {
        entries_encoding(es.drop_last()) + key_encoding(es.last().0) + key_encoding(es.last().1)
    }
}

fn push_be(out: &mut Vec<u8>, x: u64, n: usize)
    requires
        n <= 8,
    ensures
        final(out)@ == old(out)@ + be_bytes(x as nat, n as nat),
    decreases n,
{
    if n > 0 {
        push_be(out, x / 256, n - 1);
        out.push((x % 256) as u8);
    }
}

fn push_header(out: &mut Vec<u8>, major: u8, arg: u64)
    requires
        major < 8,
    ensures
        final(out)@ == old(out)@ + cbor_header(major as nat, arg as nat),
{
    let ghost start = out@;
    let m = major * 32;
    if arg < 24 {
        out.push(m + arg as u8);
    } else if arg < 0x100 {
        out.push(m + 24);
        push_be(out, arg, 1);
    } else if arg < 0x10000 {
        out.push(m + 25);
        push_be(out, arg, 2);
    } else if arg < 0x1_0000_0000 {
        out.push(m + 26);
        push_be(out, arg, 4);
    } else {
        out.push(m + 27);
        push_be(out, arg, 8);
    }
    assert(out@ =~= start + cbor_header(major as nat, arg as nat));
}

/// Appends `key_encoding(v@)`.
#[verifier::loop_isolation(false)]
pub fn write_key_encoding(out: &mut Vec<u8>, v: &Cbor)
    ensures
        final(out)@ == old(out)@ + key_encoding(v@),
    decreases v,
{
    let ghost start = out@;
    match v {
        Cbor::Float(f) => {
            out.extend_from_slice(f.cbor.as_slice());
        },
        Cbor::Tag(t, inner) => {
            push_header(out, 6, *t);
            write_key_encoding(out, inner);
            assert(out@ =~= start + key_encoding(v@));
        },
        Cbor::Array(items) => {
            proof {
                lemma_cbor_list_view(items@);
            }
            push_header(out, 4, items.len() as u64);
            let ghost mid = out@;
            let mut i: usize = 0;
            while i < items.len()
                invariant
                    i <= items.len(),
                    out@ == mid + items_encoding(cbor_list_view(items@.take(i as int))),
                decreases items.len() - i,
            {
                proof {
                    assert(decreases_to!(*v => items@[i as int]));
                }
                write_key_encoding(out, &items[i]);
                proof {
                    let tk = items@.take(i + 1);
                    assert(tk.drop_last() =~= items@.take(i as int));
                    let lv = cbor_list_view(tk);
                    assert(lv.drop_last() =~= cbor_list_view(items@.take(i as int)));
                }
                i = i + 1;
            }
            assert(items@.take(items.len() as int) =~= items@);
            assert(out@ =~= start + key_encoding(v@));
        },
        Cbor::Entries(es) => {
            proof {
                lemma_cbor_entries_view(es@);
            }
            push_header(out, 5, es.len() as u64);
            let ghost mid = out@;
            let mut i: usize = 0;
            while i < es.len()
                invariant
                    i <= es.len(),
                    out@ == mid + entries_encoding(cbor_entries_view(es@.take(i as int))),
                decreases es.len() - i,
            {
                proof {
                    assert(decreases_to!(*v => es@[i as int]));
                    assert(decreases_to!(es@[i as int] => es@[i as int].0));
                    assert(decreases_to!(es@[i as int] => es@[i as int].1));
                }
                write_key_encoding(out, &es[i].0);
                write_key_encoding(out, &es[i].1);
                proof {
                    let tk = es@.take(i + 1);
                    assert(tk.drop_last() =~= es@.take(i as int));
                    let lv = cbor_entries_view(tk);
                    assert(lv.drop_last() =~= cbor_entries_view(es@.take(i as int)));
                }
                i = i + 1;
            }
            assert(es@.take(es.len() as int) =~= es@);
            assert(out@ =~= start + key_encoding(v@));
        },
        _ => {
            let e = ciborium_encode(v);
            out.extend_from_slice(e.as_slice());
        },
    }
}

/// The views of a list, one by one.
pub proof fn lemma_cbor_list_view(items: Seq<Cbor>)
    ensures
        cbor_list_view(items).len() == items.len(),
        forall|i: int| 0 <= i < items.len() ==> #[trigger] cbor_list_view(items)[i] == cbor_view(items[i]),
    decreases items.len(),
{
    if items.len() > 0 {
        lemma_cbor_list_view(items.drop_last());
    }
}

/// The views of a list of entries, one by one.
pub proof fn lemma_cbor_entries_view(es: Seq<(Cbor, Cbor)>)
    ensures
        cbor_entries_view(es).len() == es.len(),
        forall|i: int| 0 <= i < es.len() ==> #[trigger] cbor_entries_view(es)[i] == (
            cbor_view(es[i].0),
            cbor_view(es[i].1),
        ),
    decreases es.len(),
{
    if es.len() > 0 {
        lemma_cbor_entries_view(es.drop_last());
    }
}


/// Bytewise lexicographic order (a proper prefix comes first): `<=` on
/// `Vec<u8>`.
pub open spec fn bytes_le(a: Seq<u8>, b: Seq<u8>) -> bool
    decreases a.len(),
{
    if a.len() == 0 {
        true
    } else if b.len() == 0 {
        false
    } else if a[0] != b[0] {
        a[0] < b[0]
    } else {
        bytes_le(a.drop_first(), b.drop_first())
    }
}

fn bytes_le_exec(a: &Vec<u8>, b: &Vec<u8>) -> (r: bool)
    ensures
        r == bytes_le(a@, b@),
{
    let mut i: usize = 0;
    assert(a@.skip(0) =~= a@);
    assert(b@.skip(0) =~= b@);
    while i < a.len() && i < b.len()
        invariant
            i <= a.len(),
            i <= b.len(),
            bytes_le(a@, b@) == bytes_le(a@.skip(i as int), b@.skip(i as int)),
            forall|j: int| 0 <= j < i ==> a@[j] == b@[j],
        decreases a.len() - i,
    {
        if a[i] != b[i] {
            proof {
                assert(a@.skip(i as int)[0] == a@[i as int]);
                assert(b@.skip(i as int)[0] == b@[i as int]);
            }
            return a[i] < b[i];
        }
        proof {
            assert(a@.skip(i as int).drop_first() =~= a@.skip(i + 1));
            assert(b@.skip(i as int).drop_first() =~= b@.skip(i + 1));
        }
        i = i + 1;
    }
    i == a.len()
}

/// `e` placed into `sorted` after every entry whose key encodes to bytes
/// that are not greater than its own.
pub open spec fn insert_entry(sorted: Seq<(CborV, CborV)>, e: (CborV, CborV)) -> Seq<(CborV, CborV)>
    decreases sorted.len(),
{
    if sorted.len() == 0 {
        seq![e]
    } else if bytes_le(key_encoding(sorted.last().0), key_encoding(e.0)) {
        sorted.push(e)
    } else {
        insert_entry(sorted.drop_last(), e).push(sorted.last())
    }
}

/// Map entries in canonical order: sorted by the encodings of their keys,
/// entries whose keys encode alike keeping their relative order.
pub open spec fn canon(entries: Seq<(CborV, CborV)>) -> Seq<(CborV, CborV)>
    decreases entries.len(),
{
    if entries.len() == 0 {
        Seq::empty()
    } else {
        insert_entry(canon(entries.drop_last()), entries.last())
    }
}

/// A CBOR map of `entries`, in canonical key order.
pub fn canon_map(entries: Vec<(Cbor, Cbor)>) -> (r: Cbor)
    ensures
        r@ == CborV::Entries(canon(cbor_entries_view(entries@))),
{
    let ghost orig = entries@;
    let n = entries.len();
    let mut rest = entries;
    let mut sorted: Vec<(Cbor, Cbor)> = Vec::new();
    let mut keys: Vec<Vec<u8>> = Vec::new();
    let mut k: usize = 0;
    proof {
        lemma_cbor_entries_view(orig.take(0));
        assert(cbor_entries_view(sorted@) =~= canon(cbor_entries_view(orig.take(0))));
    }
    while rest.len() > 0
        invariant
            k + rest@.len() == orig.len(),
            orig.len() == n,
            rest@ == orig.skip(k as int),
            keys@.len() == sorted@.len(),
            forall|i: int| 0 <= i < keys@.len() ==> #[trigger] keys@[i]@ == key_encoding(cbor_view(sorted@[i].0)),
            cbor_entries_view(sorted@) == canon(cbor_entries_view(orig.take(k as int))),
        decreases rest@.len(),
    {
        let ghost before = sorted@;
        proof {
            lemma_cbor_entries_view(sorted@);
        }
        let e = rest.remove(0);
        let mut enc: Vec<u8> = Vec::new();
        write_key_encoding(&mut enc, &e.0);
        let ghost sv = cbor_entries_view(sorted@);
        let ghost ev = (cbor_view(e.0), cbor_view(e.1));
        let mut pos = sorted.len();
        assert(sv.take(pos as int) =~= sv);
        assert(sv.skip(pos as int) =~= Seq::<(CborV, CborV)>::empty());
        while pos > 0 && !bytes_le_exec(&keys[pos - 1], &enc)
            invariant
                pos <= sorted@.len(),
                sv.len() == sorted@.len(),
                keys@.len() == sorted@.len(),
                forall|i: int| 0 <= i < keys@.len() ==> #[trigger] keys@[i]@ == key_encoding(sv[i].0),
                enc@ == key_encoding(ev.0),
                insert_entry(sv, ev) == insert_entry(sv.take(pos as int), ev) + sv.skip(pos as int),
            decreases pos,
        {
            proof {
                let t = sv.take(pos as int);
                assert(t.drop_last() =~= sv.take(pos - 1));
                assert(t.last() == sv[pos - 1]);
                assert(insert_entry(sv.take(pos - 1), ev).push(sv[pos - 1]) + sv.skip(pos as int) =~= insert_entry(
                    sv.take(pos - 1),
                    ev,
                ) + sv.skip(pos - 1));
            }
            pos = pos - 1;
        }
        proof {
            let t = sv.take(pos as int);
            if pos > 0 {
                assert(t.last() == sv[pos - 1]);
            }
            assert(insert_entry(sv, ev) =~= sv.insert(pos as int, ev));
        }
        sorted.insert(pos, e);
        keys.insert(pos, enc);
        proof {
            lemma_cbor_entries_view(sorted@);
            assert(cbor_entries_view(sorted@) =~= sv.insert(pos as int, ev));
            let ok = orig.take(k + 1);
            assert(ok.drop_last() =~= orig.take(k as int));
            assert(orig[k as int] == e);
            lemma_cbor_entries_view(ok);
            lemma_cbor_entries_view(orig.take(k as int));
            assert(cbor_entries_view(ok).drop_last() =~= cbor_entries_view(orig.take(k as int)));
            assert(rest@ =~= orig.skip(k + 1));
            assert forall|i: int| 0 <= i < keys@.len() implies #[trigger] keys@[i]@ == key_encoding(
                cbor_view(sorted@[i].0),
            ) by {
                if i < pos {
                    assert(sorted@[i] == before[i]);
                } else if i > pos {
                    assert(sorted@[i] == before[i - 1]);
                }
            }
        }
        k = k + 1;
    }
    assert(orig.take(k as int) =~= orig);
    Cbor::Entries(sorted)
}

/// Map entries whose key encodings never decrease.
pub open spec fn keys_sorted(es: Seq<(CborV, CborV)>) -> bool {
    forall|i: int, j: int|
        0 <= i < j < es.len() ==> bytes_le(key_encoding(#[trigger] es[i].0), key_encoding(#[trigger] es[j].0))
}

/// `bytes_le` is reflexive.
pub proof fn lemma_bytes_le_refl(a: Seq<u8>)
    ensures
        bytes_le(a, a),
    decreases a.len(),
{
    if a.len() > 0 {
        lemma_bytes_le_refl(a.drop_first());
    }
}

/// `bytes_le` is total: of two byte strings one comes first.
pub proof fn lemma_bytes_le_total(a: Seq<u8>, b: Seq<u8>)
    ensures
        bytes_le(a, b) || bytes_le(b, a),
    decreases a.len(),
{
    if a.len() > 0 && b.len() > 0 && a[0] == b[0] {
        lemma_bytes_le_total(a.drop_first(), b.drop_first());
    }
}

/// `bytes_le` is transitive.
pub proof fn lemma_bytes_le_trans(a: Seq<u8>, b: Seq<u8>, c: Seq<u8>)
    requires
        bytes_le(a, b),
        bytes_le(b, c),
    ensures
        bytes_le(a, c),
    decreases a.len(),
{
    if a.len() > 0 && b.len() > 0 && c.len() > 0 && a[0] == b[0] && b[0] == c[0] {
        lemma_bytes_le_trans(a.drop_first(), b.drop_first(), c.drop_first());
    }
}

/// Every entry of `insert_entry(s, e)` has a key no greater than `bound`
/// when every entry of `s`, and `e`, has.
proof fn lemma_insert_bounded(s: Seq<(CborV, CborV)>, e: (CborV, CborV), bound: Seq<u8>)
    requires
        forall|i: int| 0 <= i < s.len() ==> bytes_le(key_encoding(#[trigger] s[i].0), bound),
        bytes_le(key_encoding(e.0), bound),
    ensures
        forall|i: int|
            0 <= i < insert_entry(s, e).len() ==> bytes_le(key_encoding(#[trigger] insert_entry(s, e)[i].0), bound),
        insert_entry(s, e).len() == s.len() + 1,
    decreases s.len(),
{
    if s.len() > 0 && !bytes_le(key_encoding(s.last().0), key_encoding(e.0)) {
        let t = s.drop_last();
        assert forall|i: int| 0 <= i < t.len() implies bytes_le(key_encoding(#[trigger] t[i].0), bound) by {
            assert(t[i] == s[i]);
        }
        lemma_insert_bounded(t, e, bound);
        let r = insert_entry(t, e);
        assert(insert_entry(s, e) == r.push(s.last()));
        assert forall|i: int| 0 <= i < insert_entry(s, e).len() implies bytes_le(
            key_encoding(#[trigger] insert_entry(s, e)[i].0),
            bound,
        ) by {
            if i < r.len() {
                assert(insert_entry(s, e)[i] == r[i]);
            } else {
                assert(insert_entry(s, e)[i] == s[s.len() - 1]);
            }
        }
    } else if s.len() > 0 {
        assert forall|i: int| 0 <= i < insert_entry(s, e).len() implies bytes_le(
            key_encoding(#[trigger] insert_entry(s, e)[i].0),
            bound,
        ) by {
            if i < s.len() {
                assert(insert_entry(s, e)[i] == s[i]);
            }
        }
    }
}

/// Inserting into sorted entries keeps them sorted, and adds exactly the
/// new entry.
proof fn lemma_insert_sorted(s: Seq<(CborV, CborV)>, e: (CborV, CborV))
    requires
        keys_sorted(s),
    ensures
        keys_sorted(insert_entry(s, e)),
        insert_entry(s, e).to_multiset() == s.to_multiset().insert(e),
    decreases s.len(),
{
    broadcast use vstd::seq_lib::group_to_multiset_ensures;
    if s.len() == 0 {
        assert(insert_entry(s, e) =~= s.push(e));
    } else {
        let last = s.last();
        let t = s.drop_last();
        assert(s =~= t.push(last));
        if bytes_le(key_encoding(last.0), key_encoding(e.0)) {
            let r = s.push(e);
            assert forall|i: int, j: int| 0 <= i < j < r.len() implies bytes_le(
                key_encoding(#[trigger] r[i].0),
                key_encoding(#[trigger] r[j].0),
            ) by {
                if j == s.len() {
                    if i < s.len() - 1 {
                        assert(bytes_le(key_encoding(s[i].0), key_encoding(s[s.len() - 1].0)));
                    } else {
                        lemma_bytes_le_refl(key_encoding(s[i].0));
                    }
                    lemma_bytes_le_trans(key_encoding(s[i].0), key_encoding(last.0), key_encoding(e.0));
                } else {
                    assert(r[i] == s[i] && r[j] == s[j]);
                }
            }
        } else {
            assert(keys_sorted(t)) by {
                assert forall|i: int, j: int| 0 <= i < j < t.len() implies bytes_le(
                    key_encoding(#[trigger] t[i].0),
                    key_encoding(#[trigger] t[j].0),
                ) by {
                    assert(t[i] == s[i] && t[j] == s[j]);
                }
            }
            lemma_insert_sorted(t, e);
            lemma_bytes_le_total(key_encoding(last.0), key_encoding(e.0));
            assert forall|i: int| 0 <= i < t.len() implies bytes_le(key_encoding(#[trigger] t[i].0), key_encoding(last.0)) by {
                assert(t[i] == s[i]);
                assert(bytes_le(key_encoding(s[i].0), key_encoding(s[s.len() - 1].0)));
            }
            lemma_insert_bounded(t, e, key_encoding(last.0));
            let r = insert_entry(t, e);
            let full = r.push(last);
            assert(insert_entry(s, e) == full);
            assert forall|i: int, j: int| 0 <= i < j < full.len() implies bytes_le(
                key_encoding(#[trigger] full[i].0),
                key_encoding(#[trigger] full[j].0),
            ) by {
                if j == r.len() {
                    assert(full[i] == r[i]);
                    assert(full[j] == last);
                } else {
                    assert(full[i] == r[i] && full[j] == r[j]);
                }
            }
            assert(full.to_multiset() =~= s.to_multiset().insert(e));
        }
    }
}

/// Canonical map order: `canon` gives the entries that went in, each as
/// many times, sorted by the encodings of their keys.
pub proof fn law_canon_sorted_permutation(entries: Seq<(CborV, CborV)>)
    ensures
        keys_sorted(canon(entries)),
        canon(entries).to_multiset() == entries.to_multiset(),
    decreases entries.len(),
{
    broadcast use vstd::seq_lib::group_to_multiset_ensures;
    if entries.len() == 0 {
        assert(canon(entries).to_multiset() =~= entries.to_multiset());
    } else {
        let t = entries.drop_last();
        law_canon_sorted_permutation(t);
        lemma_insert_sorted(canon(t), entries.last());
        assert(entries =~= t.push(entries.last()));
    }
}

} // verus!
