//! Sorted association lists: the model of every ordered map in this crate.
//!
//! A list of `(key, value)` pairs whose keys strictly increase in byte order stands for
//! a finite map, and lists its entries in scan order.

use crate::bytes;
use vstd::prelude::*;

verus! {

/// The keys of `es` strictly increase.
pub open spec fn sorted<V>(es: Seq<(Seq<u8>, V)>) -> bool {
    forall|i: int, j: int| 0 <= i < j < es.len() ==> bytes::lex_lt(#[trigger] es[i].0, #[trigger] es[j].0)
}

/// How many entries at the front of `es` have a key below `k`.
pub open spec fn rank<V>(es: Seq<(Seq<u8>, V)>, k: Seq<u8>) -> nat
    decreases es.len(),
{
    if es.len() == 0 || !bytes::lex_lt(es[0].0, k) {
        0
    } else {
        1 + rank(es.skip(1), k)
    }
}

/// The value that `es` holds for `k`.
pub open spec fn find<V>(es: Seq<(Seq<u8>, V)>, k: Seq<u8>) -> Option<V> {
    let p = rank(es, k) as int;
    if p < es.len() && es[p].0 == k {
        Some(es[p].1)
    } else {
        None
    }
}

/// `es` with `k` mapped to `v`, replacing an entry for `k` if there is one.
pub open spec fn upsert<V>(es: Seq<(Seq<u8>, V)>, k: Seq<u8>, v: V) -> Seq<(Seq<u8>, V)> {
    let p = rank(es, k) as int;
    if p < es.len() && es[p].0 == k {
        es.update(p, (k, v))
    } else {
        es.insert(p, (k, v))
    }
}

/// `es` without an entry for `k`.
pub open spec fn erase<V>(es: Seq<(Seq<u8>, V)>, k: Seq<u8>) -> Seq<(Seq<u8>, V)> {
    let p = rank(es, k) as int;
    if p < es.len() && es[p].0 == k {
        es.remove(p)
    } else {
        es
    }
}

/// The map that `es` stands for.
pub open spec fn to_map<V>(es: Seq<(Seq<u8>, V)>) -> Map<Seq<u8>, V> {
    Map::new(|k: Seq<u8>| find(es, k) is Some, |k: Seq<u8>| find(es, k)->0)
}

/// Every key of `es` is below `k`.
pub open spec fn all_below<V>(es: Seq<(Seq<u8>, V)>, k: Seq<u8>) -> bool {
    forall|i: int| 0 <= i < es.len() ==> bytes::lex_lt(#[trigger] es[i].0, k)
}

/// Every key of `es` is above `k`.
pub open spec fn all_above<V>(es: Seq<(Seq<u8>, V)>, k: Seq<u8>) -> bool {
    forall|i: int| 0 <= i < es.len() ==> bytes::lex_lt(k, #[trigger] es[i].0)
}

/// A position that splits the keys below `k` from the first that is not is the rank.
pub proof fn lemma_rank_is<V>(es: Seq<(Seq<u8>, V)>, k: Seq<u8>, p: int)
    requires
        0 <= p <= es.len(),
        forall|i: int| 0 <= i < p ==> bytes::lex_lt(#[trigger] es[i].0, k),
        p < es.len() ==> !bytes::lex_lt(es[p].0, k),
    ensures
        rank(es, k) == p,
    decreases es.len(),
{
    if p > 0 {
        assert(bytes::lex_lt(es[0].0, k));
        assert forall|i: int| 0 <= i < p - 1 implies bytes::lex_lt(#[trigger] es.skip(1)[i].0, k) by {
            assert(es.skip(1)[i] == es[i + 1]);
        }
        lemma_rank_is(es.skip(1), k, p - 1);
    }
}

/// The rank splits the keys below `k` from the first that is not.
pub proof fn lemma_rank<V>(es: Seq<(Seq<u8>, V)>, k: Seq<u8>)
    ensures
        rank(es, k) <= es.len(),
        forall|i: int| 0 <= i < rank(es, k) ==> bytes::lex_lt(#[trigger] es[i].0, k),
        rank(es, k) < es.len() ==> !bytes::lex_lt(es[rank(es, k) as int].0, k),
    decreases es.len(),
{
    if es.len() > 0 && bytes::lex_lt(es[0].0, k) {
        lemma_rank(es.skip(1), k);
        assert forall|i: int| 0 <= i < rank(es, k) implies bytes::lex_lt(#[trigger] es[i].0, k) by {
            if i > 0 {
                assert(es.skip(1)[i - 1] == es[i]);
            }
        }
    }
}

/// An entry at or after the rank that is not `k` itself is above `k`.
pub proof fn lemma_above_rank<V>(es: Seq<(Seq<u8>, V)>, k: Seq<u8>, i: int)
    requires
        sorted(es),
        rank(es, k) <= i < es.len(),
        i > rank(es, k) || es[i].0 != k,
    ensures
        bytes::lex_lt(k, es[i].0),
{
    lemma_rank(es, k);
    let p = rank(es, k) as int;
    bytes::lemma_lex_total(k, es[p].0);
    if i > p {
        assert(bytes::lex_lt(es[p].0, es[i].0));
        bytes::lemma_lex_le_lt(k, es[p].0, es[i].0);
    }
}

/// Looking up the key of an entry finds its value.
pub proof fn lemma_find_at<V>(es: Seq<(Seq<u8>, V)>, i: int)
    requires
        sorted(es),
        0 <= i < es.len(),
    ensures
        rank(es, es[i].0) == i,
        find(es, es[i].0) == Some(es[i].1),
{
    bytes::lemma_lex_irreflexive(es[i].0);
    lemma_rank_is(es, es[i].0, i);
}

/// A key that is found is the key of an entry with that value.
pub proof fn lemma_found<V>(es: Seq<(Seq<u8>, V)>, k: Seq<u8>) -> (i: int)
    requires
        find(es, k) is Some,
    ensures
        0 <= i < es.len(),
        es[i] == (k, find(es, k)->0),
{
    rank(es, k) as int
}

/// A key with no entry is not found.
pub proof fn lemma_not_found<V>(es: Seq<(Seq<u8>, V)>, k: Seq<u8>)
    requires
        forall|i: int| 0 <= i < es.len() ==> (#[trigger] es[i]).0 != k,
    ensures
        find(es, k) is None,
{
}

/// What [`upsert`] does to order, size and lookups.
pub proof fn lemma_upsert<V>(es: Seq<(Seq<u8>, V)>, k: Seq<u8>, v: V)
    requires
        sorted(es),
    ensures
        sorted(upsert(es, k, v)),
        find(upsert(es, k, v), k) == Some(v),
        forall|j: Seq<u8>| j != k ==> #[trigger] find(upsert(es, k, v), j) == find(es, j),
        to_map(upsert(es, k, v)) == to_map(es).insert(k, v),
        upsert(es, k, v).len() == es.len() + (if find(es, k) is Some { 0int } else { 1 }),
{
    let p = rank(es, k) as int;
    let us = upsert(es, k, v);
    lemma_rank(es, k);
    assert(sorted(us)) by {
        assert forall|i: int, j: int| 0 <= i < j < us.len() implies bytes::lex_lt(
            #[trigger] us[i].0,
            #[trigger] us[j].0,
        ) by {
            if p < es.len() && es[p].0 == k {
                assert(us[i].0 == es[i].0 && us[j].0 == es[j].0);
            } else {
                if j > p {
                    lemma_above_rank(es, k, j - 1);
                }
            }
        }
    }
    assert(us[p] == (k, v));
    lemma_find_at(us, p);
    assert forall|j: Seq<u8>| j != k implies #[trigger] find(us, j) == find(es, j) by {
        if find(es, j) is Some {
            let i = lemma_found(es, j);
            let i2 = if i < p || (p < es.len() && es[p].0 == k) { i } else { i + 1 };
            assert(us[i2] == es[i]);
            lemma_find_at(us, i2);
        } else if find(us, j) is Some {
            let i = lemma_found(us, j);
            let i2 = if i < p || (p < es.len() && es[p].0 == k) { i } else { i - 1 };
            assert(i != p);
            assert(us[i] == es[i2]);
            lemma_find_at(es, i2);
        }
    }
    assert(to_map(us) =~= to_map(es).insert(k, v));
}

/// What [`erase`] does to order, size and lookups.
pub proof fn lemma_erase<V>(es: Seq<(Seq<u8>, V)>, k: Seq<u8>)
    requires
        sorted(es),
    ensures
        sorted(erase(es, k)),
        find(erase(es, k), k) is None,
        forall|j: Seq<u8>| j != k ==> #[trigger] find(erase(es, k), j) == find(es, j),
        to_map(erase(es, k)) == to_map(es).remove(k),
        erase(es, k).len() == es.len() - (if find(es, k) is Some { 1int } else { 0 }),
{
    let p = rank(es, k) as int;
    let us = erase(es, k);
    lemma_rank(es, k);
    if p < es.len() && es[p].0 == k {
        assert forall|i: int| 0 <= i < us.len() implies (#[trigger] us[i]) == es[if i < p {
            i
        } else {
            i + 1
        }] by {}
        assert forall|i: int| 0 <= i < us.len() implies (#[trigger] us[i]).0 != k by {
            if i < p {
                bytes::lemma_lex_irreflexive(k);
            } else {
                lemma_above_rank(es, k, i + 1);
                bytes::lemma_lex_irreflexive(k);
            }
        }
        lemma_not_found(us, k);
        assert forall|j: Seq<u8>| j != k implies #[trigger] find(us, j) == find(es, j) by {
            if find(es, j) is Some {
                let i = lemma_found(es, j);
                assert(i != p);
                let i2 = if i < p { i } else { i - 1 };
                assert(us[i2] == es[i]);
                lemma_find_at(us, i2);
            } else if find(us, j) is Some {
                let i = lemma_found(us, j);
                let i2 = if i < p { i } else { i + 1 };
                assert(us[i] == es[i2]);
                lemma_find_at(es, i2);
            }
        }
    }
    assert(to_map(us) =~= to_map(es).remove(k));
}

/// Replacing the value of the last key.
pub proof fn lemma_upsert_last<V>(es: Seq<(Seq<u8>, V)>, v: V)
    requires
        sorted(es),
        es.len() > 0,
    ensures
        upsert(es, es.last().0, v) == es.drop_last().push((es.last().0, v)),
        find(es, es.last().0) == Some(es.last().1),
{
    lemma_find_at(es, es.len() - 1);
    assert(upsert(es, es.last().0, v) =~= es.drop_last().push((es.last().0, v)));
}

/// Inserting a key above all others.
pub proof fn lemma_upsert_new_last<V>(es: Seq<(Seq<u8>, V)>, k: Seq<u8>, v: V)
    requires
        sorted(es),
        es.len() > 0 ==> bytes::lex_lt(es.last().0, k),
    ensures
        upsert(es, k, v) == es.push((k, v)),
        find(es, k) is None,
        sorted(es.push((k, v))),
{
    assert forall|i: int| 0 <= i < es.len() implies bytes::lex_lt(#[trigger] es[i].0, k) by {
        if i < es.len() - 1 {
            assert(bytes::lex_lt(es[i].0, es[es.len() - 1].0));
            bytes::lemma_lex_transitive(es[i].0, es.last().0, k);
        }
    }
    lemma_rank_is(es, k, es.len() as int);
    lemma_upsert(es, k, v);
    assert(upsert(es, k, v) =~= es.push((k, v)));
}

/// Removing the first key.
pub proof fn lemma_erase_first<V>(es: Seq<(Seq<u8>, V)>)
    requires
        sorted(es),
        es.len() > 0,
    ensures
        erase(es, es[0].0) == es.skip(1),
        sorted(es.skip(1)),
{
    lemma_find_at(es, 0);
    lemma_erase(es, es[0].0);
    assert(erase(es, es[0].0) =~= es.skip(1));
}

/// Between entries below and above `k`, the middle alone decides about `k`.
pub proof fn lemma_middle<V>(
    a: Seq<(Seq<u8>, V)>,
    c: Seq<(Seq<u8>, V)>,
    b: Seq<(Seq<u8>, V)>,
    k: Seq<u8>,
)
    requires
        all_below(a, k),
        all_above(b, k),
    ensures
        rank(a + c + b, k) == a.len() + rank(c, k),
        find(a + c + b, k) == find(c, k),
        erase(a + c + b, k) == a + erase(c, k) + b,
        forall|v: V| #[trigger] upsert(a + c + b, k, v) == a + upsert(c, k, v) + b,
{
    let es = a + c + b;
    lemma_rank(c, k);
    let p = a.len() + rank(c, k);
    if p < es.len() {
        if rank(c, k) < c.len() {
            assert(es[p as int] == c[rank(c, k) as int]);
        } else {
            assert(es[p as int] == b[0]);
            bytes::lemma_lex_asymmetric(k, b[0].0);
        }
    }
    assert forall|i: int| 0 <= i < p implies bytes::lex_lt(#[trigger] es[i].0, k) by {
        if i < a.len() {
            assert(es[i] == a[i]);
        } else {
            assert(es[i] == c[i - a.len()]);
        }
    }
    lemma_rank_is(es, k, p as int);
    assert(erase(es, k) =~= a + erase(c, k) + b);
    assert forall|v: V| #[trigger] upsert(es, k, v) == a + upsert(c, k, v) + b by {
        assert(upsert(es, k, v) =~= a + upsert(c, k, v) + b);
    }
}

/// `es` with every value put through `f`.
pub open spec fn map_vals<V, W>(es: Seq<(Seq<u8>, V)>, f: spec_fn(V) -> W) -> Seq<(Seq<u8>, W)> {
    es.map_values(|e: (Seq<u8>, V)| (e.0, f(e.1)))
}

/// Lookups and changes commute with putting every value through `f`.
pub proof fn lemma_map_vals<V, W>(es: Seq<(Seq<u8>, V)>, f: spec_fn(V) -> W, k: Seq<u8>)
    ensures
        sorted(map_vals(es, f)) == sorted(es),
        rank(map_vals(es, f), k) == rank(es, k),
        find(map_vals(es, f), k) == (match find(es, k) {
            Some(v) => Some(f(v)),
            None => None,
        }),
        erase(map_vals(es, f), k) == map_vals(erase(es, k), f),
        forall|v: V| #[trigger] upsert(map_vals(es, f), k, f(v)) == map_vals(upsert(es, k, v), f),
{
    let ms = map_vals(es, f);
    lemma_rank(es, k);
    let p = rank(es, k) as int;
    assert forall|i: int| 0 <= i < p implies bytes::lex_lt(#[trigger] ms[i].0, k) by {
        assert(ms[i].0 == es[i].0);
    }
    lemma_rank_is(ms, k, p);
    if sorted(es) {
        assert forall|i: int, j: int| 0 <= i < j < ms.len() implies bytes::lex_lt(
            #[trigger] ms[i].0,
            #[trigger] ms[j].0,
        ) by {
            assert(bytes::lex_lt(es[i].0, es[j].0));
        }
    }
    if sorted(ms) {
        assert forall|i: int, j: int| 0 <= i < j < es.len() implies bytes::lex_lt(
            #[trigger] es[i].0,
            #[trigger] es[j].0,
        ) by {
            assert(bytes::lex_lt(ms[i].0, ms[j].0));
        }
    }
    assert(erase(ms, k) =~= map_vals(erase(es, k), f));
    assert forall|v: V| #[trigger] upsert(ms, k, f(v)) == map_vals(upsert(es, k, v), f) by {
        assert(upsert(ms, k, f(v)) =~= map_vals(upsert(es, k, v), f));
    }
}

/// Two sorted lists that stand for the same map are the same list.
pub proof fn lemma_canonical<V>(a: Seq<(Seq<u8>, V)>, b: Seq<(Seq<u8>, V)>)
    requires
        sorted(a),
        sorted(b),
        to_map(a) == to_map(b),
    ensures
        a == b,
    decreases a.len(),
{
    if a.len() == 0 {
        if b.len() > 0 {
            lemma_find_at(b, 0);
            assert(to_map(b).contains_key(b[0].0));
            assert(find(a, b[0].0) is None);
        }
        assert(a =~= b);
    } else {
        lemma_find_at(a, 0);
        assert(to_map(a).contains_key(a[0].0));
        assert(to_map(a)[a[0].0] == a[0].1);
        let i = lemma_found(b, a[0].0);
        lemma_find_at(b, 0);
        assert(to_map(b).contains_key(b[0].0));
        assert(to_map(b)[b[0].0] == b[0].1);
        let j = lemma_found(a, b[0].0);
        if i > 0 {
            assert(bytes::lex_lt(b[0].0, b[i].0));
            if j > 0 {
                assert(bytes::lex_lt(a[0].0, a[j].0));
                bytes::lemma_lex_asymmetric(a[0].0, b[0].0);
            }
            bytes::lemma_lex_irreflexive(b[0].0);
        }
        assert(a[0] == b[0]);
        lemma_erase(a, a[0].0);
        lemma_erase(b, a[0].0);
        assert(erase(a, a[0].0) =~= a.skip(1));
        assert(erase(b, a[0].0) =~= b.skip(1));
        lemma_canonical(a.skip(1), b.skip(1));
        assert(a =~= seq![a[0]] + a.skip(1));
        assert(b =~= seq![b[0]] + b.skip(1));
    }
}

/// The entries of `es` whose key satisfies `p`.
pub open spec fn keep<V>(es: Seq<(Seq<u8>, V)>, p: spec_fn(Seq<u8>) -> bool) -> Seq<(Seq<u8>, V)>
    decreases es.len(),
{
    if es.len() == 0 {
        seq![]
    } else {
        let front = keep(es.drop_last(), p);
        if p(es.last().0) {
            front.push(es.last())
        } else {
            front
        }
    }
}

/// Keeping is filtering by key: the entries stay in order.
pub proof fn law_keeping_is_filtering<V>(es: Seq<(Seq<u8>, V)>, p: spec_fn(Seq<u8>) -> bool)
    ensures
        keep(es, p) == es.filter(|e: (Seq<u8>, V)| p(e.0)),
    decreases es.len(),
{
    reveal(Seq::filter);
    if es.len() > 0 {
        law_keeping_is_filtering(es.drop_last(), p);
    }
}

/// A key is found with a value exactly if the list has that entry.
pub proof fn law_a_lookup_finds_the_entry<V>(es: Seq<(Seq<u8>, V)>, k: Seq<u8>, v: V)
    requires
        sorted(es),
    ensures
        find(es, k) == Some(v) <==> es.contains((k, v)),
        find(es, k) is None <==> forall|i: int| 0 <= i < es.len() ==> (#[trigger] es[i]).0 != k,
{
    if es.contains((k, v)) {
        let i = choose|i: int| 0 <= i < es.len() && es[i] == (k, v);
        lemma_find_at(es, i);
    }
    if find(es, k) is Some {
        let i = lemma_found(es, k);
        assert(es.contains(es[i]));
    } else {
        assert forall|i: int| 0 <= i < es.len() implies (#[trigger] es[i]).0 != k by {
            lemma_find_at(es, i);
        }
    }
}

/// What [`keep`] keeps.
pub proof fn lemma_keep<V>(es: Seq<(Seq<u8>, V)>, p: spec_fn(Seq<u8>) -> bool)
    requires
        sorted(es),
    ensures
        sorted(keep(es, p)),
        forall|i: int|
            0 <= i < keep(es, p).len() ==> es.contains(#[trigger] keep(es, p)[i]) && p(
                keep(es, p)[i].0,
            ),
        forall|k: Seq<u8>| #[trigger]
            find(keep(es, p), k) == (if p(k) {
                find(es, k)
            } else {
                None
            }),
    decreases es.len(),
{
    let ks = keep(es, p);
    if es.len() > 0 {
        let d = es.drop_last();
        let last = es.last();
        assert(sorted(d)) by {
            assert forall|i: int, j: int| 0 <= i < j < d.len() implies bytes::lex_lt(
                #[trigger] d[i].0,
                #[trigger] d[j].0,
            ) by {
                assert(bytes::lex_lt(es[i].0, es[j].0));
            }
        }
        lemma_keep(d, p);
        let f = keep(d, p);
        assert forall|i: int| 0 <= i < f.len() implies es.contains(#[trigger] f[i])
            && bytes::lex_lt(f[i].0, last.0) by {
            assert(d.contains(f[i]));
            let j = choose|j: int| 0 <= j < d.len() && d[j] == f[i];
            assert(es[j] == f[i]);
            assert(bytes::lex_lt(es[j].0, es[es.len() - 1].0));
        }
        assert(es.contains(es[es.len() - 1]));
        assert forall|i: int| 0 <= i < ks.len() implies es.contains(#[trigger] ks[i]) && p(
            ks[i].0,
        ) by {
            if i < f.len() {
                assert(ks[i] == f[i]);
            }
        }
        assert(sorted(ks));
        assert forall|k: Seq<u8>| #[trigger]
            find(ks, k) == (if p(k) {
                find(es, k)
            } else {
                None
            }) by {
            lemma_find_push(d, last, k);
            if p(last.0) {
                lemma_find_push(f, last, k);
                assert(ks =~= f.push(last));
            }
            assert(es =~= d.push(last));
            assert(find(f, k) == (if p(k) { find(d, k) } else { None }));
        }
    }
}

/// Looking up in a list extended at the end.
pub proof fn lemma_find_push<V>(es: Seq<(Seq<u8>, V)>, e: (Seq<u8>, V), k: Seq<u8>)
    requires
        sorted(es.push(e)),
    ensures
        find(es.push(e), k) == (if k == e.0 {
            Some(e.1)
        } else {
            find(es, k)
        }),
{
    let us = es.push(e);
    assert(sorted(es)) by {
        assert forall|i: int, j: int| 0 <= i < j < es.len() implies bytes::lex_lt(
            #[trigger] es[i].0,
            #[trigger] es[j].0,
        ) by {
            assert(bytes::lex_lt(us[i].0, us[j].0));
        }
    }
    if k == e.0 {
        lemma_find_at(us, es.len() as int);
    } else if find(es, k) is Some {
        let i = lemma_found(es, k);
        assert(us[i] == es[i]);
        lemma_find_at(us, i);
    } else if find(us, k) is Some {
        let i = lemma_found(us, k);
        assert(us[i] == es[i]);
        lemma_find_at(es, i);
    }
}

/// Two sorted lists with the same lookups are the same list.
pub proof fn lemma_same_finds<V>(a: Seq<(Seq<u8>, V)>, b: Seq<(Seq<u8>, V)>)
    requires
        sorted(a),
        sorted(b),
        forall|k: Seq<u8>| #[trigger] find(a, k) == find(b, k),
    ensures
        a == b,
{
    assert(to_map(a) =~= to_map(b));
    lemma_canonical(a, b);
}

/// Keeping after an insertion.
pub proof fn lemma_keep_upsert<V>(
    es: Seq<(Seq<u8>, V)>,
    p: spec_fn(Seq<u8>) -> bool,
    k: Seq<u8>,
    v: V,
)
    requires
        sorted(es),
    ensures
        keep(upsert(es, k, v), p) == (if p(k) {
            upsert(keep(es, p), k, v)
        } else {
            keep(es, p)
        }),
{
    lemma_upsert(es, k, v);
    lemma_keep(es, p);
    lemma_keep(upsert(es, k, v), p);
    let a = keep(upsert(es, k, v), p);
    if p(k) {
        lemma_upsert(keep(es, p), k, v);
        let b = upsert(keep(es, p), k, v);
        assert forall|j: Seq<u8>| #[trigger] find(a, j) == find(b, j) by {
            assert(find(keep(es, p), j) == (if p(j) { find(es, j) } else { None }));
        }
        lemma_same_finds(a, b);
    } else {
        let b = keep(es, p);
        assert forall|j: Seq<u8>| #[trigger] find(a, j) == find(b, j) by {}
        lemma_same_finds(a, b);
    }
}

/// Keeping after a removal.
pub proof fn lemma_keep_erase<V>(es: Seq<(Seq<u8>, V)>, p: spec_fn(Seq<u8>) -> bool, k: Seq<u8>)
    requires
        sorted(es),
    ensures
        keep(erase(es, k), p) == (if p(k) {
            erase(keep(es, p), k)
        } else {
            keep(es, p)
        }),
{
    lemma_erase(es, k);
    lemma_keep(es, p);
    lemma_keep(erase(es, k), p);
    let a = keep(erase(es, k), p);
    if p(k) {
        lemma_erase(keep(es, p), k);
        let b = erase(keep(es, p), k);
        assert forall|j: Seq<u8>| #[trigger] find(a, j) == find(b, j) by {
            assert(find(keep(es, p), j) == (if p(j) { find(es, j) } else { None }));
        }
        lemma_same_finds(a, b);
    } else {
        let b = keep(es, p);
        assert forall|j: Seq<u8>| #[trigger] find(a, j) == find(b, j) by {}
        lemma_same_finds(a, b);
    }
}

} // verus!
