//! The order of a JSON object's members: by key, comparing the keys'
//! characters in turn by code point, a key before every longer key it
//! begins (the order of `String`, in which serde_json's map keeps them).
use vstd::prelude::*;
use crate::value::JsonV;

verus! {

/// Whether key `a` comes before key `b`.
pub open spec fn key_lt(a: Seq<char>, b: Seq<char>) -> bool
    decreases a.len(),
{
    if b.len() == 0 {
        false
    } else if a.len() == 0 {
        true
    } else if a[0] != b[0] {
        (a[0] as int) < (b[0] as int)
    } else {
        key_lt(a.drop_first(), b.drop_first())
    }
}

/// Whether the members' keys rise strictly.
pub open spec fn keys_ascending(ms: Seq<(Seq<char>, JsonV)>) -> bool {
    forall|a: int, b: int| 0 <= a < b < ms.len() ==> key_lt(#[trigger] ms[a].0, #[trigger] ms[b].0)
}

/// The first index, at or after `i`, whose key does not come before `k`.
pub open spec fn insert_at(ms: Seq<(Seq<char>, JsonV)>, k: Seq<char>, i: int) -> int
    decreases ms.len() - i,
{
    if i < 0 || i >= ms.len() {
        ms.len() as int
    } else if key_lt(ms[i].0, k) {
        insert_at(ms, k, i + 1)
    } else {
        i
    }
}

pub proof fn lemma_key_lt_irreflexive(a: Seq<char>)
    ensures
        !key_lt(a, a),
    decreases a.len(),
{
    if a.len() > 0 {
        lemma_key_lt_irreflexive(a.drop_first());
    }
}

pub proof fn lemma_key_lt_transitive(a: Seq<char>, b: Seq<char>, c: Seq<char>)
    requires
        key_lt(a, b),
        key_lt(b, c),
    ensures
        key_lt(a, c),
    decreases a.len(),
{
    if a.len() > 0 && b.len() > 0 && c.len() > 0 && a[0] == b[0] && b[0] == c[0] {
        lemma_key_lt_transitive(a.drop_first(), b.drop_first(), c.drop_first());
    }
}

pub proof fn lemma_key_lt_total(a: Seq<char>, b: Seq<char>)
    ensures
        a == b || key_lt(a, b) || key_lt(b, a),
    decreases a.len(),
{
    if a.len() > 0 && b.len() > 0 {
        if a[0] == b[0] {
            lemma_key_lt_total(a.drop_first(), b.drop_first());
            if a.drop_first() == b.drop_first() {
                assert(a =~= seq![a[0]] + a.drop_first());
                assert(b =~= seq![b[0]] + b.drop_first());
            }
        } else {
            assert((a[0] as int) != (b[0] as int));
        }
    } else if a.len() == 0 && b.len() == 0 {
        assert(a =~= b);
    }
}

/// Where `k` goes among ascending members: after every member whose key
/// comes before it, before every other.
pub proof fn lemma_insert_at(ms: Seq<(Seq<char>, JsonV)>, k: Seq<char>, i: int)
    requires
        0 <= i <= ms.len(),
        forall|x: int| 0 <= x < i ==> key_lt(#[trigger] ms[x].0, k),
    ensures
        i <= insert_at(ms, k, i) <= ms.len(),
        forall|x: int| 0 <= x < insert_at(ms, k, i) ==> key_lt(#[trigger] ms[x].0, k),
        insert_at(ms, k, i) < ms.len() ==> !key_lt(ms[insert_at(ms, k, i)].0, k),
    decreases ms.len() - i,
{
    if i < ms.len() && key_lt(ms[i].0, k) {
        lemma_insert_at(ms, k, i + 1);
    }
}

/// Whether key `a` comes before key `b`.
pub fn key_less(a: &str, b: &str) -> (r: bool)
    ensures
        r == key_lt(a@, b@),
{
    let x = crate::text::chars_of(a);
    let y = crate::text::chars_of(b);
    let mut i: usize = 0;
    assert(x@.skip(0) =~= x@);
    assert(y@.skip(0) =~= y@);
    while i < x.len() && i < y.len()
        invariant
            i <= x.len(),
            i <= y.len(),
            x@ == a@,
            y@ == b@,
            key_lt(x@, y@) == key_lt(x@.skip(i as int), y@.skip(i as int)),
        decreases x.len() - i,
    {
        if x[i] != y[i] {
            let r = x[i] < y[i];
            proof {
                assert(x@.skip(i as int)[0] == x@[i as int]);
                assert(y@.skip(i as int)[0] == y@[i as int]);
                assert(x@.skip(i as int).len() > 0 && y@.skip(i as int).len() > 0);
                assert(key_lt(x@.skip(i as int), y@.skip(i as int)) == ((x@[i as int] as int) < (y@[i as int] as int)));
                assert(r == ((x@[i as int] as int) < (y@[i as int] as int)));
            }
            return r;
        }
        proof {
            assert(x@.skip(i as int).drop_first() =~= x@.skip(i + 1));
            assert(y@.skip(i as int).drop_first() =~= y@.skip(i + 1));
        }
        i = i + 1;
    }
    i < y.len()
}

} // verus!
