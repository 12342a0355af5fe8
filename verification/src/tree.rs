//! The mathematical shape of a B+ tree: its entries, its ordering and its fill.

use crate::assoc;
use crate::bytes;
use vstd::prelude::*;

verus! {

/// A stored entry: a key and its value.
pub type Pair = (Seq<u8>, Seq<u8>);

/// A B+ tree: values live in leaves, and `keys[i]` of an inner node separates
/// `children[i]` from `children[i + 1]`.
#[verifier::ext_equal]
pub enum Tree {
    Leaf(Seq<Pair>),
    Inner(Seq<Seq<u8>>, Seq<Tree>),
}

/// The entries of `t`, left to right.
pub open spec fn entries(t: Tree) -> Seq<Pair>
    decreases t, 0nat,
{
    match t {
        Tree::Leaf(es) => es,
        Tree::Inner(ks, cs) => entries_upto(cs, cs.len()),
    }
}

/// The entries of the first `n` trees of `cs`, left to right.
pub open spec fn entries_upto(cs: Seq<Tree>, n: nat) -> Seq<Pair>
    decreases cs, n,
{
    if n == 0 || n > cs.len() {
        seq![]
    } else {
        entries_upto(cs, (n - 1) as nat) + entries(cs[n - 1])
    }
}

/// The entries of all the trees of `cs`, left to right.
pub open spec fn entries_all(cs: Seq<Tree>) -> Seq<Pair> {
    entries_upto(cs, cs.len())
}

/// `k` is at or above the lower bound `lo`.
pub open spec fn at_least(lo: Option<Seq<u8>>, k: Seq<u8>) -> bool {
    lo matches Some(l) ==> !bytes::lex_lt(k, l)
}

/// `k` is strictly above the lower bound `lo`.
pub open spec fn above(lo: Option<Seq<u8>>, k: Seq<u8>) -> bool {
    lo matches Some(l) ==> bytes::lex_lt(l, k)
}

/// `k` is strictly below the upper bound `hi`.
pub open spec fn below(k: Seq<u8>, hi: Option<Seq<u8>>) -> bool {
    hi matches Some(h) ==> bytes::lex_lt(k, h)
}

/// The lower bound of child `i` under the separators `ks`.
pub open spec fn child_lo(ks: Seq<Seq<u8>>, lo: Option<Seq<u8>>, i: int) -> Option<Seq<u8>> {
    if i <= 0 {
        lo
    } else {
        Some(ks[i - 1])
    }
}

/// The upper bound of child `i` under the separators `ks`.
pub open spec fn child_hi(ks: Seq<Seq<u8>>, hi: Option<Seq<u8>>, i: int) -> Option<Seq<u8>> {
    if i >= ks.len() {
        hi
    } else {
        Some(ks[i])
    }
}

/// The separators strictly increase.
pub open spec fn increasing(ks: Seq<Seq<u8>>) -> bool {
    forall|i: int, j: int| 0 <= i < j < ks.len() ==> bytes::lex_lt(#[trigger] ks[i], #[trigger] ks[j])
}

/// `t` is a search tree whose keys lie in `[lo, hi)`.
pub open spec fn ordered(t: Tree, lo: Option<Seq<u8>>, hi: Option<Seq<u8>>) -> bool
    decreases t,
{
    match t {
        Tree::Leaf(es) => {
            &&& assoc::sorted(es)
            &&& forall|i: int| 0 <= i < es.len() ==> at_least(lo, #[trigger] es[i].0)
            &&& forall|i: int| 0 <= i < es.len() ==> below(#[trigger] es[i].0, hi)
        },
        Tree::Inner(ks, cs) => {
            &&& cs.len() == ks.len() + 1
            &&& increasing(ks)
            &&& forall|i: int| 0 <= i < ks.len() ==> above(lo, #[trigger] ks[i])
            &&& forall|i: int| 0 <= i < ks.len() ==> below(#[trigger] ks[i], hi)
            &&& forall|i: int|
                0 <= i < cs.len() ==> ordered(
                    #[trigger] cs[i],
                    child_lo(ks, lo, i),
                    child_hi(ks, hi, i),
                )
        },
    }
}

/// Which child of a node with separators `ks` is responsible for `key`.
pub open spec fn routed(ks: Seq<Seq<u8>>, key: Seq<u8>, i: int) -> bool {
    &&& 0 <= i <= ks.len()
    &&& forall|j: int| 0 <= j < i ==> !bytes::lex_lt(key, #[trigger] ks[j])
    &&& forall|j: int| i <= j < ks.len() ==> bytes::lex_lt(key, #[trigger] ks[j])
}

/// Every entry of `es` has a key in `[lo, hi)`.
pub open spec fn within(es: Seq<Pair>, lo: Option<Seq<u8>>, hi: Option<Seq<u8>>) -> bool {
    forall|i: int| 0 <= i < es.len() ==> at_least(lo, #[trigger] es[i].0) && below(es[i].0, hi)
}

/// The maximum number of children of an inner node.
pub const ORDER: usize = 5;

/// The minimum number of children of an inner node other than the root.
pub const MIN_CHILDREN: usize = 3;

/// The minimum number of entries of a leaf other than the root.
pub const MIN_LEAF_KEYS: usize = 2;

/// `t` is sorted node by node and every node is neither too full nor, except for the root,
/// too empty.
pub open spec fn balanced(t: Tree, is_root: bool) -> bool
    decreases t,
{
    match t {
        Tree::Leaf(es) => {
            &&& assoc::sorted(es)
            &&& es.len() < ORDER
            &&& is_root || MIN_LEAF_KEYS <= es.len()
        },
        Tree::Inner(ks, cs) => {
            &&& cs.len() == ks.len() + 1
            &&& cs.len() <= ORDER
            &&& is_root || MIN_CHILDREN <= cs.len()
            &&& increasing(ks)
            &&& forall|i: int| 0 <= i < cs.len() ==> balanced(#[trigger] cs[i], false)
        },
    }
}

/// No node of `t` holds more than the order allows.
pub open spec fn roomy(t: Tree) -> bool
    decreases t,
{
    match t {
        Tree::Leaf(es) => es.len() < ORDER,
        Tree::Inner(ks, cs) => {
            &&& cs.len() <= ORDER
            &&& forall|i: int| 0 <= i < cs.len() ==> roomy(#[trigger] cs[i])
        },
    }
}

/// Every leaf of `t` lies exactly `d` levels down.
pub open spec fn level(t: Tree, d: nat) -> bool
    decreases t,
{
    match t {
        Tree::Leaf(es) => d == 0,
        Tree::Inner(ks, cs) => {
            &&& d > 0
            &&& forall|i: int| 0 <= i < cs.len() ==> level(#[trigger] cs[i], (d - 1) as nat)
        },
    }
}

// ---------------------------------------------------------------------------
// Entries of sequences of trees
// ---------------------------------------------------------------------------

pub proof fn lemma_entries_prefix(cs: Seq<Tree>, ds: Seq<Tree>, n: nat)
    requires
        n <= cs.len(),
        n <= ds.len(),
        forall|i: int| 0 <= i < n ==> cs[i] == ds[i],
    ensures
        entries_upto(cs, n) == entries_upto(ds, n),
    decreases n,
{
    if n > 0 {
        lemma_entries_prefix(cs, ds, (n - 1) as nat);
        assert(cs[n - 1] == ds[n - 1]);
    }
}

pub proof fn lemma_entries_add(a: Seq<Tree>, b: Seq<Tree>)
    ensures
        entries_all(a + b) == entries_all(a) + entries_all(b),
    decreases b.len(),
{
    if b.len() == 0 {
        assert(a + b =~= a);
        assert(entries_all(b) =~= seq![]);
        assert(entries_all(a) + entries_all(b) =~= entries_all(a));
    } else {
        let d = b.drop_last();
        lemma_entries_add(a, d);
        let n = (a + b).len();
        assert((a + b)[n - 1] == b[b.len() - 1]);
        lemma_entries_prefix(a + b, a + d, (n - 1) as nat);
        lemma_entries_prefix(b, d, (b.len() - 1) as nat);
        assert(entries_all(a + b) =~= entries_all(a) + entries_all(b));
    }
}

pub proof fn lemma_entries_one(t: Tree)
    ensures
        entries_all(seq![t]) == entries(t),
{
    reveal_with_fuel(entries_upto, 2);
    assert(seq![t].len() == 1);
    assert(entries_upto(seq![t], 1) =~= entries(t));
}

/// The entries around child `i`.
pub proof fn lemma_entries_split(cs: Seq<Tree>, i: int)
    requires
        0 <= i < cs.len(),
    ensures
        entries_all(cs) == entries_all(cs.take(i)) + entries(cs[i]) + entries_all(cs.skip(i + 1)),
{
    assert(cs =~= cs.take(i) + seq![cs[i]] + cs.skip(i + 1));
    lemma_entries_add(cs.take(i) + seq![cs[i]], cs.skip(i + 1));
    lemma_entries_add(cs.take(i), seq![cs[i]]);
    lemma_entries_one(cs[i]);
}

// ---------------------------------------------------------------------------
// Order
// ---------------------------------------------------------------------------

/// An ordered tree lists its entries in strictly increasing key order, inside its bounds.
pub proof fn lemma_ordered_entries(t: Tree, lo: Option<Seq<u8>>, hi: Option<Seq<u8>>)
    requires
        ordered(t, lo, hi),
    ensures
        assoc::sorted(entries(t)),
        within(entries(t), lo, hi),
    decreases t, 0nat,
{
    match t {
        Tree::Leaf(es) => {},
        Tree::Inner(ks, cs) => {
            lemma_ordered_entries_upto(ks, cs, lo, hi, cs.len());
            assert(child_hi(ks, hi, cs.len() - 1) == hi);
        },
    }
}

proof fn lemma_ordered_entries_upto(
    ks: Seq<Seq<u8>>,
    cs: Seq<Tree>,
    lo: Option<Seq<u8>>,
    hi: Option<Seq<u8>>,
    n: nat,
)
    requires
        ordered(Tree::Inner(ks, cs), lo, hi),
        n <= cs.len(),
    ensures
        assoc::sorted(entries_upto(cs, n)),
        n > 0 ==> within(entries_upto(cs, n), lo, child_hi(ks, hi, n - 1)),
    decreases cs, n,
{
    if n > 0 {
        let m = (n - 1) as nat;
        lemma_ordered_entries_upto(ks, cs, lo, hi, m);
        let a = entries_upto(cs, m);
        let b = entries(cs[m as int]);
        let lom = child_lo(ks, lo, m as int);
        let him = child_hi(ks, hi, m as int);
        assert(ordered(cs[m as int], lom, him));
        lemma_ordered_entries(cs[m as int], lom, him);
        let es = a + b;
        assert forall|i: int| 0 <= i < a.len() implies m > 0 && bytes::lex_lt(
            #[trigger] a[i].0,
            ks[m - 1],
        ) by {
            assert(m > 0);
        }
        assert forall|i: int, j: int| 0 <= i < j < es.len() implies bytes::lex_lt(
            #[trigger] es[i].0,
            #[trigger] es[j].0,
        ) by {
            if j < a.len() {
                assert(es[i] == a[i] && es[j] == a[j]);
            } else if i >= a.len() {
                assert(es[i] == b[i - a.len()] && es[j] == b[j - a.len()]);
            } else {
                assert(es[i] == a[i] && es[j] == b[j - a.len()]);
                bytes::lemma_lex_lt_le(a[i].0, ks[m - 1], b[j - a.len()].0);
            }
        }
        assert forall|i: int| 0 <= i < es.len() implies at_least(lo, #[trigger] es[i].0) && below(
            es[i].0,
            him,
        ) by {
            if i < a.len() {
                assert(es[i] == a[i]);
                if m < ks.len() {
                    assert(bytes::lex_lt(ks[m - 1], ks[m as int]));
                    bytes::lemma_lex_transitive(a[i].0, ks[m - 1], ks[m as int]);
                } else if hi is Some {
                    assert(below(ks[m - 1], hi));
                    bytes::lemma_lex_transitive(a[i].0, ks[m - 1], hi->0);
                }
            } else {
                assert(es[i] == b[i - a.len()]);
                if m > 0 && lo is Some {
                    assert(above(lo, ks[m - 1]));
                    bytes::lemma_lex_lt_le(lo->0, ks[m - 1], b[i - a.len()].0);
                    bytes::lemma_lex_asymmetric(lo->0, b[i - a.len()].0);
                }
            }
        }
    }
}

/// A key routed to child `i` lies above everything to the left and below everything to
/// the right of that child.
pub proof fn lemma_routed(
    ks: Seq<Seq<u8>>,
    cs: Seq<Tree>,
    lo: Option<Seq<u8>>,
    hi: Option<Seq<u8>>,
    key: Seq<u8>,
    i: int,
)
    requires
        ordered(Tree::Inner(ks, cs), lo, hi),
        routed(ks, key, i),
        at_least(lo, key),
        below(key, hi),
    ensures
        at_least(child_lo(ks, lo, i), key),
        below(key, child_hi(ks, hi, i)),
        assoc::all_below(entries_all(cs.take(i)), key),
        assoc::all_above(entries_all(cs.skip(i + 1)), key),
        entries(Tree::Inner(ks, cs)) == entries_all(cs.take(i)) + entries(cs[i]) + entries_all(
            cs.skip(i + 1),
        ),
{
    lemma_entries_split(cs, i);
    let a = entries_all(cs.take(i));
    let b = entries_all(cs.skip(i + 1));
    lemma_ordered_entries_upto(ks, cs, lo, hi, i as nat);
    lemma_entries_prefix(cs.take(i), cs, i as nat);
    assert forall|j: int| 0 <= j < a.len() implies bytes::lex_lt(#[trigger] a[j].0, key) by {
        assert(i > 0);
        bytes::lemma_lex_lt_le(a[j].0, ks[i - 1], key);
    }
    if i < ks.len() {
        let ks2 = ks.skip(i + 1);
        let cs2 = cs.skip(i + 1);
        lemma_right_part(ks, cs, lo, hi, i);
        lemma_ordered_entries(Tree::Inner(ks2, cs2), Some(ks[i]), hi);
        assert forall|j: int| 0 <= j < b.len() implies bytes::lex_lt(key, #[trigger] b[j].0) by {
            bytes::lemma_lex_lt_le(key, ks[i], b[j].0);
        }
    } else {
        assert(cs.skip(i + 1) =~= seq![]);
    }
}

/// The children up to and including `i` form an ordered node below separator `i`.
pub proof fn lemma_left_part(
    ks: Seq<Seq<u8>>,
    cs: Seq<Tree>,
    lo: Option<Seq<u8>>,
    hi: Option<Seq<u8>>,
    i: int,
)
    requires
        ordered(Tree::Inner(ks, cs), lo, hi),
        0 <= i < ks.len(),
    ensures
        ordered(Tree::Inner(ks.take(i), cs.take(i + 1)), lo, Some(ks[i])),
{
    let k1 = ks.take(i);
    let c1 = cs.take(i + 1);
    assert forall|j: int| 0 <= j < c1.len() implies ordered(
        #[trigger] c1[j],
        child_lo(k1, lo, j),
        child_hi(k1, Some(ks[i]), j),
    ) by {
        assert(ordered(cs[j], child_lo(ks, lo, j), child_hi(ks, hi, j)));
    }
}

/// The children after `i` form an ordered node at or above separator `i`.
pub proof fn lemma_right_part(
    ks: Seq<Seq<u8>>,
    cs: Seq<Tree>,
    lo: Option<Seq<u8>>,
    hi: Option<Seq<u8>>,
    i: int,
)
    requires
        ordered(Tree::Inner(ks, cs), lo, hi),
        0 <= i < ks.len(),
    ensures
        ordered(Tree::Inner(ks.skip(i + 1), cs.skip(i + 1)), Some(ks[i]), hi),
{
    let k2 = ks.skip(i + 1);
    let c2 = cs.skip(i + 1);
    assert forall|j: int| 0 <= j < c2.len() implies ordered(
        #[trigger] c2[j],
        child_lo(k2, Some(ks[i]), j),
        child_hi(k2, hi, j),
    ) by {
        assert(ordered(cs[j + i + 1], child_lo(ks, lo, j + i + 1), child_hi(ks, hi, j + i + 1)));
    }
    assert forall|j: int| 0 <= j < k2.len() implies above(Some(ks[i]), #[trigger] k2[j]) by {
        assert(bytes::lex_lt(ks[i], ks[j + i + 1]));
    }
    assert forall|j: int| 0 <= j < k2.len() implies below(#[trigger] k2[j], hi) by {
        assert(below(ks[j + i + 1], hi));
    }
    assert forall|x: int, y: int| 0 <= x < y < k2.len() implies bytes::lex_lt(
        #[trigger] k2[x],
        #[trigger] k2[y],
    ) by {
        assert(bytes::lex_lt(ks[x + i + 1], ks[y + i + 1]));
    }
}

/// Raising the upper bound keeps a tree ordered.
pub proof fn lemma_raise_hi(t: Tree, lo: Option<Seq<u8>>, h: Seq<u8>, h2: Seq<u8>)
    requires
        ordered(t, lo, Some(h)),
        !bytes::lex_lt(h2, h),
    ensures
        ordered(t, lo, Some(h2)),
    decreases t,
{
    match t {
        Tree::Leaf(es) => {
            assert forall|i: int| 0 <= i < es.len() implies below(#[trigger] es[i].0, Some(h2)) by {
                assert(below(es[i].0, Some(h)));
                bytes::lemma_lex_lt_le(es[i].0, h, h2);
            }
        },
        Tree::Inner(ks, cs) => {
            assert forall|i: int| 0 <= i < ks.len() implies below(#[trigger] ks[i], Some(h2)) by {
                assert(below(ks[i], Some(h)));
                bytes::lemma_lex_lt_le(ks[i], h, h2);
            }
            assert forall|i: int| 0 <= i < cs.len() implies ordered(
                #[trigger] cs[i],
                child_lo(ks, lo, i),
                child_hi(ks, Some(h2), i),
            ) by {
                assert(ordered(cs[i], child_lo(ks, lo, i), child_hi(ks, Some(h), i)));
                if i == ks.len() {
                    lemma_raise_hi(cs[i], child_lo(ks, lo, i), h, h2);
                }
            }
        },
    }
}

/// The first key of the leftmost leaf, if that leaf holds any entry.
pub open spec fn leftmost(t: Tree) -> Option<Seq<u8>>
    decreases t,
{
    match t {
        Tree::Leaf(es) => if es.len() > 0 {
            Some(es[0].0)
        } else {
            None
        },
        Tree::Inner(ks, cs) => if cs.len() > 0 {
            leftmost(cs[0])
        } else {
            None
        },
    }
}

// ---------------------------------------------------------------------------
// The shape after a change
// ---------------------------------------------------------------------------

/// The child that owns `key`: the number of separators at or below it.
pub open spec fn owner(ks: Seq<Seq<u8>>, key: Seq<u8>) -> nat
    decreases ks.len(),
{
    if ks.len() == 0 || bytes::lex_lt(key, ks[0]) {
        0
    } else {
        1 + owner(ks.skip(1), key)
    }
}

/// An inner node cut in the middle: the left half, the boundary and the right half. The boundary
/// is the first key of the right half, or the middle separator where the leftmost leaf on the
/// right is empty.
pub open spec fn halves(ks: Seq<Seq<u8>>, cs: Seq<Tree>) -> (Tree, Seq<u8>, Tree) {
    let mid = ks.len() as int / 2;
    let right = Tree::Inner(ks.skip(mid + 1), cs.skip(mid + 1));
    (
        Tree::Inner(ks.take(mid), cs.take(mid + 1)),
        match leftmost(right) {
            Some(x) => x,
            None => ks[mid],
        },
        right,
    )
}

/// The node after inserting `k -> v` below it, and the boundary and right half that split off
/// where it overflowed.
pub open spec fn put_below(t: Tree, k: Seq<u8>, v: Seq<u8>) -> (Tree, Option<(Seq<u8>, Tree)>)
    decreases t,
{
    match t {
        Tree::Leaf(es) => {
            let us = assoc::upsert(es, k, v);
            let mid = us.len() as int / 2;
            if us.len() > ORDER - 1 {
                (Tree::Leaf(us.take(mid)), Some((us[mid].0, Tree::Leaf(us.skip(mid)))))
            } else {
                (Tree::Leaf(us), None)
            }
        },
        Tree::Inner(ks, cs) => {
            let i = owner(ks, k) as int;
            if i >= cs.len() {
                (t, None)
            } else {
                match put_below(cs[i], k, v) {
                    (c, None) => (Tree::Inner(ks, cs.update(i, c)), None),
                    (c, Some((m, w))) => {
                        let ks2 = ks.insert(i, m);
                        let ds = cs.update(i, c).insert(i + 1, w);
                        if ds.len() > ORDER {
                            let (left, median, right) = halves(ks2, ds);
                            (left, Some((median, right)))
                        } else {
                            (Tree::Inner(ks2, ds), None)
                        }
                    },
                }
            }
        },
    }
}

/// The tree after inserting `k -> v`: a root that splits gets a new root above it.
pub open spec fn put(t: Tree, k: Seq<u8>, v: Seq<u8>) -> Tree {
    match put_below(t, k, v) {
        (u, None) => u,
        (u, Some((m, w))) => Tree::Inner(seq![m], seq![u, w]),
    }
}

/// The tree after deleting `k`: the leaf that owns it loses the entry, and nothing else changes.
pub open spec fn cut(t: Tree, k: Seq<u8>) -> Tree
    decreases t,
{
    match t {
        Tree::Leaf(es) => Tree::Leaf(assoc::erase(es, k)),
        Tree::Inner(ks, cs) => {
            let i = owner(ks, k) as int;
            if i >= cs.len() {
                t
            } else {
                Tree::Inner(ks, cs.update(i, cut(cs[i], k)))
            }
        },
    }
}

/// The entries of the leaf that `k` routes to.
pub open spec fn leaf_of(t: Tree, k: Seq<u8>) -> Seq<Pair>
    decreases t,
{
    match t {
        Tree::Leaf(es) => es,
        Tree::Inner(ks, cs) => {
            let i = owner(ks, k) as int;
            if i < cs.len() {
                leaf_of(cs[i], k)
            } else {
                seq![]
            }
        },
    }
}

/// The value of the first entry of `es` with the key `k`.
pub open spec fn first_with(es: Seq<Pair>, k: Seq<u8>) -> Option<Seq<u8>>
    decreases es.len(),
{
    if es.len() == 0 {
        None
    } else if es[0].0 == k {
        Some(es[0].1)
    } else {
        first_with(es.skip(1), k)
    }
}

/// What looking up `k` finds: the first entry for it in the leaf it routes to.
pub open spec fn lookup(t: Tree, k: Seq<u8>) -> Option<Seq<u8>> {
    first_with(leaf_of(t, k), k)
}

/// At every node on the way of `k` the separators at or below it come first, and there is a child
/// for it.
pub open spec fn routes(t: Tree, k: Seq<u8>) -> bool
    decreases t,
{
    match t {
        Tree::Leaf(es) => true,
        Tree::Inner(ks, cs) => {
            let i = owner(ks, k) as int;
            &&& routed(ks, k, i)
            &&& i < cs.len()
            &&& routes(cs[i], k)
        },
    }
}

/// The entries below `k` come first.
pub open spec fn partitioned(es: Seq<Pair>, k: Seq<u8>) -> bool {
    forall|j: int| assoc::rank(es, k) <= j < es.len() ==> !bytes::lex_lt(#[trigger] es[j].0, k)
}

/// `k` can be erased: it routes to a leaf where its place is well defined.
pub open spec fn places(t: Tree, k: Seq<u8>) -> bool {
    routes(t, k) && partitioned(leaf_of(t, k), k)
}

/// Going left from `t` ends in a leaf.
pub open spec fn rooted(t: Tree) -> bool
    decreases t,
{
    match t {
        Tree::Leaf(es) => true,
        Tree::Inner(ks, cs) => cs.len() > 0 && rooted(cs[0]),
    }
}

/// Every node on the way of `k` can be cut in two: it has one separator less than children, and
/// going left below each child ends in a leaf.
pub open spec fn splits(t: Tree, k: Seq<u8>) -> bool
    decreases t,
{
    match t {
        Tree::Leaf(es) => true,
        Tree::Inner(ks, cs) => {
            let i = owner(ks, k) as int;
            &&& cs.len() == ks.len() + 1
            &&& forall|j: int| 0 <= j < cs.len() ==> rooted(#[trigger] cs[j])
            &&& i < cs.len()
            &&& splits(cs[i], k)
        },
    }
}

/// `k` can be inserted: its place is well defined, and the nodes on the way can be cut in two.
pub open spec fn accepts(t: Tree, k: Seq<u8>) -> bool {
    places(t, k) && splits(t, k)
}

/// In increasing separators every key has a place.
pub proof fn lemma_increasing_routes(ks: Seq<Seq<u8>>, key: Seq<u8>)
    requires
        increasing(ks),
    ensures
        routed(ks, key, owner(ks, key) as int),
    decreases ks.len(),
{
    if ks.len() > 0 {
        let more = ks.skip(1);
        if bytes::lex_lt(key, ks[0]) {
            assert forall|j: int| 0 <= j < ks.len() implies bytes::lex_lt(key, #[trigger] ks[j]) by {
                if j > 0 {
                    assert(bytes::lex_lt(ks[0], ks[j]));
                    bytes::lemma_lex_transitive(key, ks[0], ks[j]);
                }
            }
        } else {
            assert forall|x: int, y: int| 0 <= x < y < more.len() implies bytes::lex_lt(
                #[trigger] more[x],
                #[trigger] more[y],
            ) by {
                assert(bytes::lex_lt(ks[x + 1], ks[y + 1]));
            }
            lemma_increasing_routes(more, key);
            let i = owner(ks, key) as int;
            assert forall|j: int| 0 <= j < i implies !bytes::lex_lt(key, #[trigger] ks[j]) by {
                if j > 0 {
                    assert(ks[j] == more[j - 1]);
                }
            }
            assert forall|j: int| i <= j < ks.len() implies bytes::lex_lt(
                key,
                #[trigger] ks[j],
            ) by {
                assert(ks[j] == more[j - 1]);
            }
        }
    }
}

proof fn lemma_ordered_rooted(t: Tree, lo: Option<Seq<u8>>, hi: Option<Seq<u8>>)
    requires
        ordered(t, lo, hi),
    ensures
        rooted(t),
    decreases t,
{
    match t {
        Tree::Leaf(es) => {},
        Tree::Inner(ks, cs) => {
            assert(ordered(cs[0], child_lo(ks, lo, 0), child_hi(ks, hi, 0)));
            lemma_ordered_rooted(cs[0], child_lo(ks, lo, 0), child_hi(ks, hi, 0));
        },
    }
}

/// A search tree accepts every key.
pub proof fn lemma_ordered_accepts(t: Tree, k: Seq<u8>, lo: Option<Seq<u8>>, hi: Option<Seq<u8>>)
    requires
        ordered(t, lo, hi),
    ensures
        accepts(t, k),
    decreases t,
{
    match t {
        Tree::Leaf(es) => {
            assoc::lemma_rank(es, k);
            assert forall|j: int| assoc::rank(es, k) <= j < es.len() implies !bytes::lex_lt(
                #[trigger] es[j].0,
                k,
            ) by {
                let p = assoc::rank(es, k) as int;
                if j > p && bytes::lex_lt(es[j].0, k) {
                    assert(bytes::lex_lt(es[p].0, es[j].0));
                    bytes::lemma_lex_transitive(es[p].0, es[j].0, k);
                }
            }
        },
        Tree::Inner(ks, cs) => {
            let i = owner(ks, k) as int;
            lemma_increasing_routes(ks, k);
            assert(ordered(cs[i], child_lo(ks, lo, i), child_hi(ks, hi, i)));
            lemma_ordered_accepts(cs[i], k, child_lo(ks, lo, i), child_hi(ks, hi, i));
            assert forall|j: int| 0 <= j < cs.len() implies rooted(#[trigger] cs[j]) by {
                lemma_ordered_rooted(cs[j], child_lo(ks, lo, j), child_hi(ks, hi, j));
            }
        },
    }
}

proof fn lemma_first_with(es: Seq<Pair>, k: Seq<u8>)
    requires
        assoc::sorted(es),
    ensures
        first_with(es, k) == assoc::find(es, k),
    decreases es.len(),
{
    if es.len() > 0 {
        let more = es.skip(1);
        assert forall|x: int, y: int| 0 <= x < y < more.len() implies bytes::lex_lt(
            #[trigger] more[x].0,
            #[trigger] more[y].0,
        ) by {
            assert(bytes::lex_lt(es[x + 1].0, es[y + 1].0));
        }
        lemma_first_with(more, k);
        bytes::lemma_lex_irreflexive(k);
        if es[0].0 != k && !bytes::lex_lt(es[0].0, k) {
            bytes::lemma_lex_total(es[0].0, k);
            assert(assoc::find(es, k) is None);
            if assoc::find(more, k) is Some {
                let p = assoc::rank(more, k) as int;
                assert(more[p] == es[p + 1]);
                assert(bytes::lex_lt(es[0].0, es[p + 1].0));
                bytes::lemma_lex_asymmetric(es[0].0, k);
            }
        } else if es[0].0 != k {
            let p = assoc::rank(more, k) as int;
            assert(assoc::rank(es, k) == p + 1);
            if p < more.len() {
                assert(more[p] == es[p + 1]);
            }
        }
    }
}

/// Looking up a key in a search tree finds its entry.
pub proof fn lemma_lookup(t: Tree, k: Seq<u8>, lo: Option<Seq<u8>>, hi: Option<Seq<u8>>)
    requires
        ordered(t, lo, hi),
        at_least(lo, k),
        below(k, hi),
    ensures
        lookup(t, k) == assoc::find(entries(t), k),
        assoc::find(leaf_of(t, k), k) == assoc::find(entries(t), k),
    decreases t,
{
    match t {
        Tree::Leaf(es) => {
            lemma_first_with(es, k);
        },
        Tree::Inner(ks, cs) => {
            let i = owner(ks, k) as int;
            lemma_increasing_routes(ks, k);
            lemma_routed(ks, cs, lo, hi, k, i);
            assoc::lemma_middle(
                entries_all(cs.take(i)),
                entries(cs[i]),
                entries_all(cs.skip(i + 1)),
                k,
            );
            assert(ordered(cs[i], child_lo(ks, lo, i), child_hi(ks, hi, i)));
            lemma_lookup(cs[i], k, child_lo(ks, lo, i), child_hi(ks, hi, i));
        },
    }
}

/// The leftmost key can serve as the lower bound of its tree.
pub proof fn lemma_leftmost(t: Tree, lo: Option<Seq<u8>>, hi: Option<Seq<u8>>)
    requires
        ordered(t, lo, hi),
        leftmost(t) is Some,
    ensures
        ordered(t, leftmost(t), hi),
        at_least(lo, leftmost(t)->0),
        below(leftmost(t)->0, hi),
    decreases t,
{
    let m = leftmost(t)->0;
    match t {
        Tree::Leaf(es) => {
            assert forall|i: int| 0 <= i < es.len() implies at_least(Some(m), #[trigger] es[i].0) by {
                if i > 0 {
                    assert(bytes::lex_lt(es[0].0, es[i].0));
                    bytes::lemma_lex_asymmetric(m, es[i].0);
                } else {
                    bytes::lemma_lex_irreflexive(m);
                }
            }
        },
        Tree::Inner(ks, cs) => {
            assert(ordered(cs[0], child_lo(ks, lo, 0), child_hi(ks, hi, 0)));
            lemma_leftmost(cs[0], lo, child_hi(ks, hi, 0));
            assert forall|i: int| 0 <= i < ks.len() implies above(Some(m), #[trigger] ks[i]) by {
                assert(bytes::lex_lt(m, ks[0]));
                if i > 0 {
                    assert(bytes::lex_lt(ks[0], ks[i]));
                    bytes::lemma_lex_transitive(m, ks[0], ks[i]);
                }
            }
            if ks.len() > 0 {
                assert(below(ks[0], hi));
                if hi is Some {
                    bytes::lemma_lex_transitive(m, ks[0], hi->0);
                }
            }
            assert forall|i: int| 0 <= i < cs.len() implies ordered(
                #[trigger] cs[i],
                child_lo(ks, Some(m), i),
                child_hi(ks, hi, i),
            ) by {
                assert(ordered(cs[i], child_lo(ks, lo, i), child_hi(ks, hi, i)));
            }
        },
    }
}

/// Replacing child `i` by an ordered tree within the same bounds keeps a node ordered.
pub proof fn lemma_replace_child(
    ks: Seq<Seq<u8>>,
    cs: Seq<Tree>,
    lo: Option<Seq<u8>>,
    hi: Option<Seq<u8>>,
    i: int,
    c: Tree,
)
    requires
        ordered(Tree::Inner(ks, cs), lo, hi),
        0 <= i < cs.len(),
        ordered(c, child_lo(ks, lo, i), child_hi(ks, hi, i)),
    ensures
        ordered(Tree::Inner(ks, cs.update(i, c)), lo, hi),
        entries(Tree::Inner(ks, cs.update(i, c))) == entries_all(cs.take(i)) + entries(c)
            + entries_all(cs.skip(i + 1)),
{
    let ds = cs.update(i, c);
    assert forall|j: int| 0 <= j < ds.len() implies ordered(
        #[trigger] ds[j],
        child_lo(ks, lo, j),
        child_hi(ks, hi, j),
    ) by {
        assert(ordered(cs[j], child_lo(ks, lo, j), child_hi(ks, hi, j)));
    }
    lemma_entries_split(ds, i);
    assert(ds.take(i) =~= cs.take(i));
    assert(ds.skip(i + 1) =~= cs.skip(i + 1));
}

/// Replacing child `i` by two ordered trees around a new separator keeps a node ordered.
pub proof fn lemma_split_child(
    ks: Seq<Seq<u8>>,
    cs: Seq<Tree>,
    lo: Option<Seq<u8>>,
    hi: Option<Seq<u8>>,
    i: int,
    left: Tree,
    m: Seq<u8>,
    right: Tree,
)
    requires
        ordered(Tree::Inner(ks, cs), lo, hi),
        0 <= i < cs.len(),
        ordered(left, child_lo(ks, lo, i), Some(m)),
        ordered(right, Some(m), child_hi(ks, hi, i)),
        above(child_lo(ks, lo, i), m),
        below(m, child_hi(ks, hi, i)),
    ensures
        ordered(Tree::Inner(ks.insert(i, m), cs.update(i, left).insert(i + 1, right)), lo, hi),
        entries(Tree::Inner(ks.insert(i, m), cs.update(i, left).insert(i + 1, right)))
            == entries_all(cs.take(i)) + (entries(left) + entries(right)) + entries_all(
            cs.skip(i + 1),
        ),
{
    let ks2 = ks.insert(i, m);
    let ds = cs.update(i, left).insert(i + 1, right);
    assert forall|j: int| 0 <= j < ks2.len() implies above(lo, #[trigger] ks2[j]) && below(
        ks2[j],
        hi,
    ) by {
        if j == i {
            if i > 0 {
                assert(above(lo, ks[i - 1]));
                if lo is Some {
                    bytes::lemma_lex_transitive(lo->0, ks[i - 1], m);
                }
            }
            if i < ks.len() {
                assert(below(ks[i], hi));
                if hi is Some {
                    bytes::lemma_lex_transitive(m, ks[i], hi->0);
                }
            }
        } else {
            let j0 = if j < i { j } else { j - 1 };
            assert(ks2[j] == ks[j0]);
            assert(above(lo, ks[j0]) && below(ks[j0], hi));
        }
    }
    assert forall|x: int, y: int| 0 <= x < y < ks2.len() implies bytes::lex_lt(
        #[trigger] ks2[x],
        #[trigger] ks2[y],
    ) by {
        if x == i {
            assert(ks2[y] == ks[y - 1]);
            if y - 1 > i {
                assert(bytes::lex_lt(ks[i], ks[y - 1]));
                bytes::lemma_lex_transitive(m, ks[i], ks[y - 1]);
            }
        } else if y == i {
            assert(ks2[x] == ks[x]);
            if x < i - 1 {
                assert(bytes::lex_lt(ks[x], ks[i - 1]));
                bytes::lemma_lex_transitive(ks[x], ks[i - 1], m);
            }
        } else {
            let x0 = if x < i { x } else { x - 1 };
            let y0 = if y < i { y } else { y - 1 };
            assert(bytes::lex_lt(ks[x0], ks[y0]));
        }
    }
    assert forall|j: int| 0 <= j < ds.len() implies ordered(
        #[trigger] ds[j],
        child_lo(ks2, lo, j),
        child_hi(ks2, hi, j),
    ) by {
        if j < i {
            assert(ordered(cs[j], child_lo(ks, lo, j), child_hi(ks, hi, j)));
        } else if j > i + 1 {
            assert(ordered(cs[j - 1], child_lo(ks, lo, j - 1), child_hi(ks, hi, j - 1)));
        }
    }
    assert(ds =~= cs.take(i) + seq![left] + seq![right] + cs.skip(i + 1));
    lemma_entries_add(cs.take(i) + seq![left] + seq![right], cs.skip(i + 1));
    lemma_entries_add(cs.take(i) + seq![left], seq![right]);
    lemma_entries_add(cs.take(i), seq![left]);
    lemma_entries_one(left);
    lemma_entries_one(right);
    assert(entries_all(ds) =~= entries_all(cs.take(i)) + (entries(left) + entries(right))
        + entries_all(cs.skip(i + 1)));
}

/// Cutting a node at separator `i` and keeping `m` as the boundary leaves two ordered nodes
/// with the same entries.
pub proof fn lemma_cut(
    ks: Seq<Seq<u8>>,
    cs: Seq<Tree>,
    lo: Option<Seq<u8>>,
    hi: Option<Seq<u8>>,
    i: int,
    m: Seq<u8>,
)
    requires
        ordered(Tree::Inner(ks, cs), lo, hi),
        0 <= i < ks.len(),
        m == (match leftmost(Tree::Inner(ks.skip(i + 1), cs.skip(i + 1))) {
            Some(k) => k,
            None => ks[i],
        }),
    ensures
        ordered(Tree::Inner(ks.take(i), cs.take(i + 1)), lo, Some(m)),
        ordered(Tree::Inner(ks.skip(i + 1), cs.skip(i + 1)), Some(m), hi),
        above(lo, m),
        below(m, hi),
        entries(Tree::Inner(ks, cs)) == entries(Tree::Inner(ks.take(i), cs.take(i + 1)))
            + entries(Tree::Inner(ks.skip(i + 1), cs.skip(i + 1))),
{
    let l = Tree::Inner(ks.take(i), cs.take(i + 1));
    let r = Tree::Inner(ks.skip(i + 1), cs.skip(i + 1));
    lemma_left_part(ks, cs, lo, hi, i);
    lemma_right_part(ks, cs, lo, hi, i);
    bytes::lemma_lex_irreflexive(ks[i]);
    assert(above(lo, ks[i]) && below(ks[i], hi));
    if leftmost(r) is Some {
        lemma_leftmost(r, Some(ks[i]), hi);
        if lo is Some {
            bytes::lemma_lex_lt_le(lo->0, ks[i], m);
        }
    }
    lemma_raise_hi(l, lo, ks[i], m);
    assert(cs =~= cs.take(i + 1) + cs.skip(i + 1));
    lemma_entries_add(cs.take(i + 1), cs.skip(i + 1));
}

// ---------------------------------------------------------------------------
// Insertion
// ---------------------------------------------------------------------------

/// What inserting `k -> v` makes of the tree `t`: either `u` alone, or `u` and the right half
/// of a split.
#[verifier::opaque]
pub open spec fn inserted(
    t: Tree,
    u: Tree,
    r: Option<(Seq<u8>, Tree)>,
    k: Seq<u8>,
    v: Seq<u8>,
    lo: Option<Seq<u8>>,
    hi: Option<Seq<u8>>,
) -> bool {
    match r {
        None => {
            &&& ordered(u, lo, hi)
            &&& entries(u) == assoc::upsert(entries(t), k, v)
            &&& forall|b: bool| balanced(t, b) ==> #[trigger] balanced(u, b)
            &&& roomy(t) ==> roomy(u)
            &&& forall|d: nat| level(t, d) ==> #[trigger] level(u, d)
        },
        Some((m, w)) => {
            &&& ordered(u, lo, Some(m))
            &&& ordered(w, Some(m), hi)
            &&& above(lo, m)
            &&& below(m, hi)
            &&& entries(u) + entries(w) == assoc::upsert(entries(t), k, v)
            &&& forall|b: bool| #[trigger]
                balanced(t, b) ==> balanced(u, false) && balanced(w, false)
            &&& roomy(t) ==> roomy(u) && roomy(w)
            &&& forall|d: nat| #[trigger]
                level(t, d) ==> level(u, d) && level(w, d)
        },
    }
}

/// Both halves of a sorted leaf are ordered around the first key of the right half.
pub proof fn lemma_split_leaf(us: Seq<Pair>, mid: int, lo: Option<Seq<u8>>, hi: Option<Seq<u8>>)
    requires
        ordered(Tree::Leaf(us), lo, hi),
        0 < mid < us.len(),
    ensures
        ordered(Tree::Leaf(us.take(mid)), lo, Some(us[mid].0)),
        ordered(Tree::Leaf(us.skip(mid)), Some(us[mid].0), hi),
        above(lo, us[mid].0),
        below(us[mid].0, hi),
{
    let m = us[mid].0;
    let ls = us.take(mid);
    let rs = us.skip(mid);
    assert forall|i: int| 0 <= i < ls.len() implies below(#[trigger] ls[i].0, Some(m))
        && at_least(lo, ls[i].0) by {
        assert(ls[i] == us[i]);
        assert(bytes::lex_lt(us[i].0, us[mid].0));
    }
    assert forall|i: int| 0 <= i < rs.len() implies at_least(Some(m), #[trigger] rs[i].0)
        && below(rs[i].0, hi) by {
        assert(rs[i] == us[mid + i]);
        assert(below(us[mid + i].0, hi));
        if i > 0 {
            assert(bytes::lex_lt(us[mid].0, us[mid + i].0));
            bytes::lemma_lex_asymmetric(m, us[mid + i].0);
        } else {
            bytes::lemma_lex_irreflexive(m);
        }
    }
    assert(assoc::sorted(rs)) by {
        assert forall|i: int, j: int| 0 <= i < j < rs.len() implies bytes::lex_lt(
            #[trigger] rs[i].0,
            #[trigger] rs[j].0,
        ) by {
            assert(bytes::lex_lt(us[mid + i].0, us[mid + j].0));
        }
    }
    assert(at_least(lo, us[0].0));
    assert(bytes::lex_lt(us[0].0, us[mid].0));
    if lo is Some {
        bytes::lemma_lex_le_lt(lo->0, us[0].0, m);
    }
}

pub proof fn lemma_upsert_within(
    es: Seq<Pair>,
    k: Seq<u8>,
    v: Seq<u8>,
    lo: Option<Seq<u8>>,
    hi: Option<Seq<u8>>,
)
    requires
        forall|i: int| 0 <= i < es.len() ==> at_least(lo, #[trigger] es[i].0),
        forall|i: int| 0 <= i < es.len() ==> below(#[trigger] es[i].0, hi),
        at_least(lo, k),
        below(k, hi),
    ensures
        forall|i: int|
            0 <= i < assoc::upsert(es, k, v).len() ==> at_least(
                lo,
                #[trigger] assoc::upsert(es, k, v)[i].0,
            ),
        forall|i: int|
            0 <= i < assoc::upsert(es, k, v).len() ==> below(
                #[trigger] assoc::upsert(es, k, v)[i].0,
                hi,
            ),
{
    assoc::lemma_rank(es, k);
    let p = assoc::rank(es, k) as int;
    let us = assoc::upsert(es, k, v);
    assert forall|i: int| 0 <= i < us.len() implies at_least(lo, #[trigger] us[i].0)
        && below(us[i].0, hi) by {
        if i != p {
            let j = if i < p || us.len() == es.len() { i } else { i - 1 };
            assert(us[i] == es[j]);
        }
    }
}

/// Inserting below child `i` without a split.
pub proof fn lemma_insert_below(
    ks: Seq<Seq<u8>>,
    cs: Seq<Tree>,
    lo: Option<Seq<u8>>,
    hi: Option<Seq<u8>>,
    k: Seq<u8>,
    v: Seq<u8>,
    i: int,
    c: Tree,
)
    requires
        ordered(Tree::Inner(ks, cs), lo, hi),
        routed(ks, k, i),
        at_least(lo, k),
        below(k, hi),
        inserted(cs[i], c, None, k, v, child_lo(ks, lo, i), child_hi(ks, hi, i)),
    ensures
        inserted(Tree::Inner(ks, cs), Tree::Inner(ks, cs.update(i, c)), None, k, v, lo, hi),
{
    reveal(inserted);
    reveal(grown);
    let t = Tree::Inner(ks, cs);
    let ds = cs.update(i, c);
    let u = Tree::Inner(ks, ds);
    lemma_routed(ks, cs, lo, hi, k, i);
    lemma_replace_child(ks, cs, lo, hi, i, c);
    assoc::lemma_middle(
        entries_all(cs.take(i)),
        entries(cs[i]),
        entries_all(cs.skip(i + 1)),
        k,
    );
    assert forall|b: bool| balanced(t, b) implies #[trigger] balanced(u, b) by {
        assert forall|j: int| 0 <= j < ds.len() implies balanced(#[trigger] ds[j], false) by {
            assert(balanced(cs[j], false));
        }
    }
    if roomy(t) {
        assert forall|j: int| 0 <= j < ds.len() implies roomy(#[trigger] ds[j]) by {
            assert(roomy(cs[j]));
        }
    }
    assert forall|d: nat| level(t, d) implies #[trigger] level(u, d) by {
        let e = (d - 1) as nat;
        assert forall|j: int| 0 <= j < ds.len() implies level(#[trigger] ds[j], e) by {
            assert(level(cs[j], e));
            assert(level(cs[i], e));
        }
    }
}

/// Inserting below child `i` with a split of that child, before the node itself is cut.
pub proof fn lemma_insert_grown(
    ks: Seq<Seq<u8>>,
    cs: Seq<Tree>,
    lo: Option<Seq<u8>>,
    hi: Option<Seq<u8>>,
    k: Seq<u8>,
    v: Seq<u8>,
    i: int,
    c: Tree,
    m: Seq<u8>,
    w: Tree,
)
    requires
        ordered(Tree::Inner(ks, cs), lo, hi),
        routed(ks, k, i),
        at_least(lo, k),
        below(k, hi),
        inserted(cs[i], c, Some((m, w)), k, v, child_lo(ks, lo, i), child_hi(ks, hi, i)),
    ensures
        grown(
            Tree::Inner(ks, cs),
            ks.insert(i, m),
            cs.update(i, c).insert(i + 1, w),
            k,
            v,
            lo,
            hi,
        ),
{
    reveal(inserted);
    reveal(grown);
    let t = Tree::Inner(ks, cs);
    let ks2 = ks.insert(i, m);
    let ds = cs.update(i, c).insert(i + 1, w);
    lemma_routed(ks, cs, lo, hi, k, i);
    lemma_split_child(ks, cs, lo, hi, i, c, m, w);
    assoc::lemma_middle(
        entries_all(cs.take(i)),
        entries(cs[i]),
        entries_all(cs.skip(i + 1)),
        k,
    );
    assert forall|j: int| 0 <= j < ds.len() implies (j == i && #[trigger] ds[j] == c) || (j == i + 1
        && ds[j] == w) || (j < i && ds[j] == cs[j]) || (j > i + 1 && ds[j] == cs[j - 1]) by {}
    assert forall|b: bool, j: int| #[trigger] balanced(t, b) && 0 <= j < ds.len() implies balanced(
        #[trigger] ds[j],
        false,
    ) by {
        assert(balanced(cs[i], false));
        if j < i {
            assert(balanced(cs[j], false));
        } else if j > i + 1 {
            assert(balanced(cs[j - 1], false));
        }
    }
    assert forall|j: int| roomy(t) && 0 <= j < ds.len() implies roomy(#[trigger] ds[j]) by {
        assert(roomy(cs[i]));
        if j < i {
            assert(roomy(cs[j]));
        } else if j > i + 1 {
            assert(roomy(cs[j - 1]));
        }
    }
    assert forall|d: nat, j: int| #[trigger] level(t, d) && 0 <= j < ds.len() implies d > 0 && level(
        #[trigger] ds[j],
        (d - 1) as nat,
    ) by {
        let e = (d - 1) as nat;
        assert(level(cs[i], e));
        if j < i {
            assert(level(cs[j], e));
        } else if j > i + 1 {
            assert(level(cs[j - 1], e));
        }
    }
}

/// A new root over the two halves of a split.
pub proof fn lemma_new_root(u: Tree, m: Seq<u8>, w: Tree)
    requires
        ordered(u, None, Some(m)),
        ordered(w, Some(m), None),
    ensures
        ordered(Tree::Inner(seq![m], seq![u, w]), None, None),
        entries(Tree::Inner(seq![m], seq![u, w])) == entries(u) + entries(w),
        balanced(u, false) && balanced(w, false) ==> balanced(
            Tree::Inner(seq![m], seq![u, w]),
            true,
        ),
        roomy(u) && roomy(w) ==> roomy(Tree::Inner(seq![m], seq![u, w])),
        forall|d: nat|
            #![trigger level(u, d)]
            level(u, d) && level(w, d) ==> level(Tree::Inner(seq![m], seq![u, w]), d + 1),
{
    let ks = seq![m];
    let cs = seq![u, w];
    assert(cs =~= seq![u] + seq![w]);
    lemma_entries_add(seq![u], seq![w]);
    lemma_entries_one(u);
    lemma_entries_one(w);
    assert forall|i: int| 0 <= i < cs.len() implies ordered(
        #[trigger] cs[i],
        child_lo(ks, None, i),
        child_hi(ks, None, i),
    ) by {
        assert(i == 0 || i == 1);
    }
    assert forall|d: nat|
        #![trigger level(u, d)]
        level(u, d) && level(w, d) implies level(Tree::Inner(ks, cs), d + 1) by {
        assert forall|i: int| 0 <= i < cs.len() implies level(
            #[trigger] cs[i],
            (d + 1 - 1) as nat,
        ) by {
            assert(i == 0 || i == 1);
        }
    }
}

/// What a split below makes of the inner node `t`: separators `ks` and children `ds`, one
/// more of each, possibly one too many.
#[verifier::opaque]
pub open spec fn grown(
    t: Tree,
    ks: Seq<Seq<u8>>,
    ds: Seq<Tree>,
    k: Seq<u8>,
    v: Seq<u8>,
    lo: Option<Seq<u8>>,
    hi: Option<Seq<u8>>,
) -> bool {
    &&& ordered(Tree::Inner(ks, ds), lo, hi)
    &&& entries(Tree::Inner(ks, ds)) == assoc::upsert(entries(t), k, v)
    &&& t matches Tree::Inner(ks0, cs0) && ds.len() == cs0.len() + 1
    &&& forall|b: bool, j: int| #[trigger]
        balanced(t, b) && 0 <= j < ds.len() ==> balanced(#[trigger] ds[j], false)
    &&& forall|j: int| roomy(t) && 0 <= j < ds.len() ==> roomy(#[trigger] ds[j])
    &&& forall|d: nat, j: int| #[trigger]
        level(t, d) && 0 <= j < ds.len() ==> d > 0 && level(#[trigger] ds[j], (d - 1) as nat)
}

/// A grown node that still fits.
pub proof fn lemma_grown_fits(
    t: Tree,
    ks: Seq<Seq<u8>>,
    ds: Seq<Tree>,
    k: Seq<u8>,
    v: Seq<u8>,
    lo: Option<Seq<u8>>,
    hi: Option<Seq<u8>>,
)
    requires
        grown(t, ks, ds, k, v, lo, hi),
        ds.len() <= ORDER,
    ensures
        inserted(t, Tree::Inner(ks, ds), None, k, v, lo, hi),
{
    reveal(inserted);
    reveal(grown);
}

/// A grown node that overflows is cut in the middle.
pub proof fn lemma_grown_cut(
    t: Tree,
    ks: Seq<Seq<u8>>,
    ds: Seq<Tree>,
    k: Seq<u8>,
    v: Seq<u8>,
    lo: Option<Seq<u8>>,
    hi: Option<Seq<u8>>,
    mid: int,
    m: Seq<u8>,
)
    requires
        grown(t, ks, ds, k, v, lo, hi),
        ds.len() > ORDER,
        mid == ks.len() as int / 2,
        m == (match leftmost(Tree::Inner(ks.skip(mid + 1), ds.skip(mid + 1))) {
            Some(x) => x,
            None => ks[mid],
        }),
    ensures
        inserted(
            t,
            Tree::Inner(ks.take(mid), ds.take(mid + 1)),
            Some((m, Tree::Inner(ks.skip(mid + 1), ds.skip(mid + 1)))),
            k,
            v,
            lo,
            hi,
        ),
{
    reveal(inserted);
    reveal(grown);
    lemma_cut(ks, ds, lo, hi, mid, m);
    let kl = ks.take(mid);
    let dl = ds.take(mid + 1);
    let kr = ks.skip(mid + 1);
    let dr = ds.skip(mid + 1);
    assert forall|b: bool| #[trigger] balanced(t, b) implies balanced(Tree::Inner(kl, dl), false)
        && balanced(Tree::Inner(kr, dr), false) by {
        assert forall|j: int| 0 <= j < dl.len() implies balanced(#[trigger] dl[j], false) by {
            assert(balanced(ds[j], false));
        }
        assert forall|j: int| 0 <= j < dr.len() implies balanced(#[trigger] dr[j], false) by {
            assert(balanced(ds[mid + 1 + j], false));
        }
    }
    if roomy(t) {
        assert forall|j: int| 0 <= j < dl.len() implies roomy(#[trigger] dl[j]) by {
            assert(roomy(ds[j]));
        }
        assert forall|j: int| 0 <= j < dr.len() implies roomy(#[trigger] dr[j]) by {
            assert(roomy(ds[mid + 1 + j]));
        }
    }
    assert forall|d: nat| #[trigger] level(t, d) implies level(Tree::Inner(kl, dl), d) && level(
        Tree::Inner(kr, dr),
        d,
    ) by {
        assert(level(ds[0], (d - 1) as nat));
        assert forall|j: int| 0 <= j < dl.len() implies level(#[trigger] dl[j], (d - 1) as nat) by {
            assert(level(ds[j], (d - 1) as nat));
        }
        assert forall|j: int| 0 <= j < dr.len() implies level(#[trigger] dr[j], (d - 1) as nat) by {
            assert(level(ds[mid + 1 + j], (d - 1) as nat));
        }
    }
}

/// Inserting into a leaf of a search tree.
proof fn lemma_put_leaf(
    es: Seq<Pair>,
    k: Seq<u8>,
    v: Seq<u8>,
    lo: Option<Seq<u8>>,
    hi: Option<Seq<u8>>,
)
    requires
        ordered(Tree::Leaf(es), lo, hi),
        at_least(lo, k),
        below(k, hi),
    ensures
        ({
            let (u, r) = put_below(Tree::Leaf(es), k, v);
            inserted(Tree::Leaf(es), u, r, k, v, lo, hi)
        }),
{
    reveal(inserted);
    let us = assoc::upsert(es, k, v);
    let mid = us.len() as int / 2;
    assoc::lemma_upsert(es, k, v);
    lemma_upsert_within(es, k, v, lo, hi);
    if us.len() > ORDER - 1 {
        lemma_split_leaf(us, mid, lo, hi);
        assert(us =~= us.take(mid) + us.skip(mid));
    }
}

/// Inserting below a search tree gives a search tree with the entry, or two around a boundary.
pub proof fn lemma_put_below(
    t: Tree,
    k: Seq<u8>,
    v: Seq<u8>,
    lo: Option<Seq<u8>>,
    hi: Option<Seq<u8>>,
)
    requires
        ordered(t, lo, hi),
        at_least(lo, k),
        below(k, hi),
    ensures
        ({
            let (u, r) = put_below(t, k, v);
            inserted(t, u, r, k, v, lo, hi)
        }),
    decreases t,
{
    match t {
        Tree::Leaf(es) => {
            lemma_put_leaf(es, k, v, lo, hi);
        },
        Tree::Inner(ks, cs) => {
            let i = owner(ks, k) as int;
            lemma_increasing_routes(ks, k);
            lemma_routed(ks, cs, lo, hi, k, i);
            assert(ordered(cs[i], child_lo(ks, lo, i), child_hi(ks, hi, i)));
            lemma_put_below(cs[i], k, v, child_lo(ks, lo, i), child_hi(ks, hi, i));
            match put_below(cs[i], k, v) {
                (c, None) => {
                    lemma_insert_below(ks, cs, lo, hi, k, v, i, c);
                },
                (c, Some((m, w))) => {
                    let ks2 = ks.insert(i, m);
                    let ds = cs.update(i, c).insert(i + 1, w);
                    lemma_insert_grown(ks, cs, lo, hi, k, v, i, c, m, w);
                    if ds.len() > ORDER {
                        let (left, median, right) = halves(ks2, ds);
                        lemma_grown_cut(t, ks2, ds, k, v, lo, hi, ks2.len() as int / 2, median);
                    } else {
                        lemma_grown_fits(t, ks2, ds, k, v, lo, hi);
                    }
                },
            }
        },
    }
}

/// A search tree after an insertion is a search tree with the entry. It stays balanced where it
/// was, no node gets too full, and its leaves stay on one level.
pub proof fn law_put(t: Tree, k: Seq<u8>, v: Seq<u8>)
    requires
        ordered(t, None, None),
    ensures
        accepts(t, k),
        ordered(put(t, k, v), None, None),
        assoc::sorted(entries(t)),
        entries(put(t, k, v)) == assoc::upsert(entries(t), k, v),
        balanced(t, true) ==> balanced(put(t, k, v), true),
        roomy(t) ==> roomy(put(t, k, v)),
        forall|d: nat|
            #![trigger level(t, d)]
            level(t, d) ==> level(put(t, k, v), d) || level(put(t, k, v), d + 1),
{
    reveal(inserted);
    lemma_ordered_accepts(t, k, None, None);
    lemma_ordered_entries(t, None, None);
    lemma_put_below(t, k, v, None, None);
    match put_below(t, k, v) {
        (u, None) => {},
        (u, Some((m, w))) => {
            lemma_new_root(u, m, w);
        },
    }
}

// ---------------------------------------------------------------------------
// Deletion
// ---------------------------------------------------------------------------

/// What erasing `k` makes of the tree `t`.
#[verifier::opaque]
pub open spec fn erased(
    t: Tree,
    u: Tree,
    k: Seq<u8>,
    lo: Option<Seq<u8>>,
    hi: Option<Seq<u8>>,
) -> bool {
    &&& ordered(u, lo, hi)
    &&& entries(u) == assoc::erase(entries(t), k)
    &&& roomy(t) ==> roomy(u)
    &&& forall|d: nat| level(t, d) ==> #[trigger] level(u, d)
}

/// Erasing below child `i`.
pub proof fn lemma_erase_below(
    ks: Seq<Seq<u8>>,
    cs: Seq<Tree>,
    lo: Option<Seq<u8>>,
    hi: Option<Seq<u8>>,
    k: Seq<u8>,
    i: int,
    c: Tree,
)
    requires
        ordered(Tree::Inner(ks, cs), lo, hi),
        routed(ks, k, i),
        at_least(lo, k),
        below(k, hi),
        erased(cs[i], c, k, child_lo(ks, lo, i), child_hi(ks, hi, i)),
    ensures
        erased(Tree::Inner(ks, cs), Tree::Inner(ks, cs.update(i, c)), k, lo, hi),
        assoc::find(entries(Tree::Inner(ks, cs)), k) == assoc::find(entries(cs[i]), k),
{
    reveal(erased);
    let t = Tree::Inner(ks, cs);
    let ds = cs.update(i, c);
    let u = Tree::Inner(ks, ds);
    lemma_routed(ks, cs, lo, hi, k, i);
    lemma_replace_child(ks, cs, lo, hi, i, c);
    assoc::lemma_middle(
        entries_all(cs.take(i)),
        entries(cs[i]),
        entries_all(cs.skip(i + 1)),
        k,
    );
    if roomy(t) {
        assert forall|j: int| 0 <= j < ds.len() implies roomy(#[trigger] ds[j]) by {
            assert(roomy(cs[j]));
        }
    }
    assert forall|d: nat| level(t, d) implies #[trigger] level(u, d) by {
        let e = (d - 1) as nat;
        assert forall|j: int| 0 <= j < ds.len() implies level(#[trigger] ds[j], e) by {
            assert(level(cs[j], e));
            assert(level(cs[i], e));
        }
    }
}

/// Erasing from a leaf.
pub proof fn lemma_erase_leaf(
    es: Seq<Pair>,
    k: Seq<u8>,
    lo: Option<Seq<u8>>,
    hi: Option<Seq<u8>>,
)
    requires
        ordered(Tree::Leaf(es), lo, hi),
    ensures
        erased(Tree::Leaf(es), Tree::Leaf(assoc::erase(es, k)), k, lo, hi),
{
    reveal(erased);
    assoc::lemma_erase(es, k);
    let us = assoc::erase(es, k);
    let p = assoc::rank(es, k) as int;
    assert forall|i: int| 0 <= i < us.len() implies at_least(lo, #[trigger] us[i].0) && below(
        us[i].0,
        hi,
    ) by {
        let j = if i < p || us.len() == es.len() { i } else { i + 1 };
        assert(us[i] == es[j]);
    }
}

/// Deleting below a search tree gives a search tree without the entry.
pub proof fn lemma_cut_below(t: Tree, k: Seq<u8>, lo: Option<Seq<u8>>, hi: Option<Seq<u8>>)
    requires
        ordered(t, lo, hi),
        at_least(lo, k),
        below(k, hi),
    ensures
        erased(t, cut(t, k), k, lo, hi),
    decreases t,
{
    match t {
        Tree::Leaf(es) => {
            lemma_erase_leaf(es, k, lo, hi);
        },
        Tree::Inner(ks, cs) => {
            let i = owner(ks, k) as int;
            lemma_increasing_routes(ks, k);
            lemma_routed(ks, cs, lo, hi, k, i);
            assert(ordered(cs[i], child_lo(ks, lo, i), child_hi(ks, hi, i)));
            lemma_cut_below(cs[i], k, child_lo(ks, lo, i), child_hi(ks, hi, i));
            lemma_erase_below(ks, cs, lo, hi, k, i, cut(cs[i], k));
        },
    }
}

/// A search tree after a deletion is a search tree without the entry. No node gets too full, and
/// its leaves stay on one level.
pub proof fn law_cut(t: Tree, k: Seq<u8>)
    requires
        ordered(t, None, None),
    ensures
        places(t, k),
        ordered(cut(t, k), None, None),
        assoc::sorted(entries(t)),
        entries(cut(t, k)) == assoc::erase(entries(t), k),
        roomy(t) ==> roomy(cut(t, k)),
        forall|d: nat| level(t, d) ==> #[trigger] level(cut(t, k), d),
{
    reveal(erased);
    lemma_ordered_accepts(t, k, None, None);
    lemma_ordered_entries(t, None, None);
    lemma_cut_below(t, k, None, None);
}

/// Looking up a key in a search tree finds its entry, if there is one.
pub proof fn law_lookup(t: Tree, k: Seq<u8>)
    requires
        ordered(t, None, None),
    ensures
        routes(t, k),
        lookup(t, k) == assoc::find(entries(t), k),
{
    lemma_ordered_accepts(t, k, None, None);
    lemma_lookup(t, k, None, None);
}

/// The child that owns a key is the first whose upper separator is above the key: every separator
/// before it is at or below the key.
pub proof fn law_which_child_owns_a_key(ks: Seq<Seq<u8>>, key: Seq<u8>)
    ensures
        owner(ks, key) <= ks.len(),
        forall|j: int| 0 <= j < owner(ks, key) ==> !bytes::lex_lt(key, #[trigger] ks[j]),
        owner(ks, key) < ks.len() ==> bytes::lex_lt(key, ks[owner(ks, key) as int]),
    decreases ks.len(),
{
    if ks.len() > 0 && !bytes::lex_lt(key, ks[0]) {
        let more = ks.skip(1);
        law_which_child_owns_a_key(more, key);
        assert forall|j: int| 0 <= j < owner(ks, key) implies !bytes::lex_lt(
            key,
            #[trigger] ks[j],
        ) by {
            if j > 0 {
                assert(more[j - 1] == ks[j]);
            }
        }
    }
}

/// Looking up a key finds the first entry for it in the leaf it routes to: down through the child
/// that owns the key at every node.
pub proof fn law_where_a_lookup_ends(
    es: Seq<Pair>,
    ks: Seq<Seq<u8>>,
    cs: Seq<Tree>,
    k: Seq<u8>,
    i: int,
)
    ensures
        0 <= i < es.len() && es[i].0 == k && (forall|j: int|
            0 <= j < i ==> (#[trigger] es[j]).0 != k) ==> lookup(Tree::Leaf(es), k) == Some(es[i].1),
        (forall|j: int| 0 <= j < es.len() ==> (#[trigger] es[j]).0 != k) ==> lookup(
            Tree::Leaf(es),
            k,
        ) is None,
        owner(ks, k) < cs.len() ==> lookup(Tree::Inner(ks, cs), k) == lookup(
            cs[owner(ks, k) as int],
            k,
        ),
{
    lemma_first_match(es, k, i);
}

proof fn lemma_first_match(es: Seq<Pair>, k: Seq<u8>, i: int)
    ensures
        0 <= i < es.len() && es[i].0 == k && (forall|j: int|
            0 <= j < i ==> (#[trigger] es[j]).0 != k) ==> first_with(es, k) == Some(es[i].1),
        (forall|j: int| 0 <= j < es.len() ==> (#[trigger] es[j]).0 != k) ==> first_with(
            es,
            k,
        ) is None,
    decreases es.len(),
{
    if es.len() > 0 {
        let more = es.skip(1);
        lemma_first_match(more, k, i - 1);
        assert(forall|j: int| 0 <= j < more.len() ==> #[trigger] more[j] == es[j + 1]);
        if 0 < i < es.len() && (forall|j: int| 0 <= j < i ==> (#[trigger] es[j]).0 != k) {
            assert(es[0].0 != k);
            assert forall|j: int| 0 <= j < i - 1 implies (#[trigger] more[j]).0 != k by {
                assert(es[j + 1].0 != k);
            }
            assert(more[i - 1] == es[i]);
        }
        if forall|j: int| 0 <= j < es.len() ==> (#[trigger] es[j]).0 != k {
            assert(es[0].0 != k);
            assert forall|j: int| 0 <= j < more.len() implies (#[trigger] more[j]).0 != k by {
                assert(es[j + 1].0 != k);
            }
        }
    }
}

/// A leaf holds up to four entries; with a fifth it splits: two stay, three move to the right, and
/// the boundary is the first key that moved. Where a leaf holds more, it is cut in the middle.
pub proof fn law_how_a_leaf_splits(es: Seq<Pair>, k: Seq<u8>, v: Seq<u8>)
    ensures
        ({
            let us = assoc::upsert(es, k, v);
            let n = us.len() as int / 2;
            &&& us.len() <= 4 ==> put_below(Tree::Leaf(es), k, v) == (
                Tree::Leaf(us),
                None::<(Seq<u8>, Tree)>,
            )
            &&& us.len() >= 5 ==> put_below(Tree::Leaf(es), k, v) == (
                Tree::Leaf(us.take(n)),
                Some((us[n].0, Tree::Leaf(us.skip(n)))),
            )
            &&& us.len() <= 4 ==> put(Tree::Leaf(es), k, v) == Tree::Leaf(us)
            &&& us.len() >= 5 ==> put(Tree::Leaf(es), k, v) == Tree::Inner(
                seq![us[n].0],
                seq![Tree::Leaf(us.take(n)), Tree::Leaf(us.skip(n))],
            )
        }),
{
}

/// An insertion changes the one child that owns the key. Where that child splits, its right half
/// goes behind it, with the boundary between them; a node that has more than five children then
/// splits in the middle itself.
pub proof fn law_how_an_inner_node_grows(ks: Seq<Seq<u8>>, cs: Seq<Tree>, k: Seq<u8>, v: Seq<u8>)
    requires
        owner(ks, k) < cs.len(),
    ensures
        ({
            let i = owner(ks, k) as int;
            let t = Tree::Inner(ks, cs);
            match put_below(cs[i], k, v) {
                (c, None) => put_below(t, k, v) == (
                    Tree::Inner(ks, cs.update(i, c)),
                    None::<(Seq<u8>, Tree)>,
                ),
                (c, Some((m, w))) => {
                    let more = ks.take(i).push(m) + ks.skip(i);
                    let ds = cs.take(i).push(c).push(w) + cs.skip(i + 1);
                    let h = more.len() as int / 2;
                    &&& ds.len() <= 5 && i <= ks.len() ==> put_below(t, k, v) == (
                        Tree::Inner(more, ds),
                        None::<(Seq<u8>, Tree)>,
                    )
                    &&& ds.len() > 5 && i <= ks.len() ==> {
                        &&& put_below(t, k, v).0 == Tree::Inner(more.take(h), ds.take(h + 1))
                        &&& put_below(t, k, v).1 matches Some((b, r)) && r == Tree::Inner(
                            more.skip(h + 1),
                            ds.skip(h + 1),
                        ) && b == (match leftmost(r) {
                            Some(x) => x,
                            None => more[h],
                        })
                    }
                },
            }
        }),
{
    law_which_child_owns_a_key(ks, k);
    let i = owner(ks, k) as int;
    if let (c, Some((m, w))) = put_below(cs[i], k, v) {
        assert(ks.insert(i, m) =~= ks.take(i).push(m) + ks.skip(i));
        assert(cs.update(i, c).insert(i + 1, w) =~= cs.take(i).push(c).push(w) + cs.skip(i + 1));
    }
}

/// The boundary of a half is its first key: where every leftmost leaf below holds an entry, the
/// first key of all its entries.
pub proof fn law_a_boundary_is_the_first_key(t: Tree)
    ensures
        leftmost(t) matches Some(x) ==> entries(t).len() > 0 && entries(t)[0].0 == x,
    decreases t,
{
    match t {
        Tree::Leaf(es) => {},
        Tree::Inner(ks, cs) => {
            if cs.len() > 0 {
                law_a_boundary_is_the_first_key(cs[0]);
                if leftmost(cs[0]) is Some {
                    lemma_upto_starts(cs, cs.len());
                }
            }
        },
    }
}

proof fn lemma_upto_starts(cs: Seq<Tree>, n: nat)
    requires
        0 < n <= cs.len(),
        entries(cs[0]).len() > 0,
    ensures
        entries_upto(cs, n).len() > 0,
        entries_upto(cs, n)[0] == entries(cs[0])[0],
    decreases n,
{
    if n > 1 {
        lemma_upto_starts(cs, (n - 1) as nat);
    } else {
        assert(entries_upto(cs, 0) =~= seq![]);
        assert(entries_upto(cs, 1) =~= entries(cs[0]));
    }
}

/// A deletion erases the key from the leaf it routes to, and changes nothing else: no node is
/// merged or removed.
pub proof fn law_a_deletion_touches_one_leaf(
    es: Seq<Pair>,
    ks: Seq<Seq<u8>>,
    cs: Seq<Tree>,
    k: Seq<u8>,
)
    ensures
        cut(Tree::Leaf(es), k) == Tree::Leaf(assoc::erase(es, k)),
        owner(ks, k) < cs.len() ==> cut(Tree::Inner(ks, cs), k) == Tree::Inner(
            ks,
            cs.update(owner(ks, k) as int, cut(cs[owner(ks, k) as int], k)),
        ),
{
}

/// When a node is balanced: a leaf is sorted and has at most four entries, and at least two unless
/// it is the root; an inner node has one separator less than children, its separators increase,
/// it has at most five children, and at least three unless it is the root, and they are balanced.
pub proof fn law_what_balance_means(
    es: Seq<Pair>,
    ks: Seq<Seq<u8>>,
    cs: Seq<Tree>,
    is_root: bool,
)
    ensures
        balanced(Tree::Leaf(es), is_root) <==> assoc::sorted(es) && es.len() <= 4 && (is_root
            || es.len() >= 2),
        balanced(Tree::Inner(ks, cs), is_root) <==> cs.len() == ks.len() + 1 && cs.len() <= 5 && (
        is_root || cs.len() >= 3) && (forall|i: int, j: int|
            0 <= i < j < ks.len() ==> bytes::lex_lt(#[trigger] ks[i], #[trigger] ks[j])) && (
        forall|i: int| 0 <= i < cs.len() ==> balanced(#[trigger] cs[i], false)),
{
}

/// When nodes form a search tree: the keys of a leaf increase and lie within its bounds; the
/// separators of an inner node increase and lie strictly within its bounds, there is one child
/// more than separators, and each child is a search tree between the separators around it.
pub proof fn law_what_a_search_tree_is(
    es: Seq<Pair>,
    ks: Seq<Seq<u8>>,
    cs: Seq<Tree>,
    lo: Option<Seq<u8>>,
    hi: Option<Seq<u8>>,
)
    ensures
        ordered(Tree::Leaf(es), lo, hi) <==> assoc::sorted(es) && (forall|i: int|
            0 <= i < es.len() ==> (lo matches Some(l) ==> !bytes::lex_lt(#[trigger] es[i].0, l))
                && (hi matches Some(h) ==> bytes::lex_lt(es[i].0, h))),
        cs.len() != ks.len() + 1 ==> !ordered(Tree::Inner(ks, cs), lo, hi),
        ks.len() == 0 && cs.len() == 1 ==> (ordered(Tree::Inner(ks, cs), lo, hi) <==> ordered(
            cs[0],
            lo,
            hi,
        )),
        ks.len() > 0 && cs.len() == ks.len() + 1 ==> (ordered(Tree::Inner(ks, cs), lo, hi) <==> (
        forall|i: int, j: int|
            0 <= i < j < ks.len() ==> bytes::lex_lt(#[trigger] ks[i], #[trigger] ks[j])) && (lo
            matches Some(l) ==> bytes::lex_lt(l, ks[0])) && (hi matches Some(h) ==> bytes::lex_lt(
            ks[ks.len() - 1],
            h,
        )) && ordered(cs[0], lo, Some(ks[0])) && ordered(
            cs[ks.len() as int],
            Some(ks[ks.len() - 1]),
            hi,
        ) && (forall|i: int|
            0 < i < ks.len() ==> ordered(#[trigger] cs[i], Some(ks[i - 1]), Some(ks[i])))),
{
    let t = Tree::Inner(ks, cs);
    if ks.len() > 0 && cs.len() == ks.len() + 1 {
        let n = ks.len() as int;
        if ordered(t, lo, hi) {
            assert(above(lo, ks[0]) && below(ks[n - 1], hi));
            assert(ordered(cs[0], child_lo(ks, lo, 0), child_hi(ks, hi, 0)));
            assert(ordered(cs[n], child_lo(ks, lo, n), child_hi(ks, hi, n)));
            assert forall|i: int| 0 < i < n implies ordered(
                #[trigger] cs[i],
                Some(ks[i - 1]),
                Some(ks[i]),
            ) by {
                assert(ordered(cs[i], child_lo(ks, lo, i), child_hi(ks, hi, i)));
            }
        }
        if (forall|i: int, j: int|
            0 <= i < j < ks.len() ==> bytes::lex_lt(#[trigger] ks[i], #[trigger] ks[j])) && (lo
            matches Some(l) ==> bytes::lex_lt(l, ks[0])) && (hi matches Some(h) ==> bytes::lex_lt(
            ks[n - 1],
            h,
        )) {
            assert forall|i: int| 0 <= i < n implies above(lo, #[trigger] ks[i]) by {
                if i > 0 && lo is Some {
                    bytes::lemma_lex_transitive(lo->0, ks[0], ks[i]);
                }
            }
            assert forall|i: int| 0 <= i < n implies below(#[trigger] ks[i], hi) by {
                if i < n - 1 && hi is Some {
                    bytes::lemma_lex_transitive(ks[i], ks[n - 1], hi->0);
                }
            }
        }
    }
    if ks.len() == 0 && cs.len() == 1 {
        assert(child_lo(ks, lo, 0) == lo && child_hi(ks, hi, 0) == hi);
    }
}

/// Gathering entries into a map keeps, of several with one key, the one that comes last.
pub proof fn law_the_last_entry_is_gathered(es: Seq<Pair>, i: int, k: Seq<u8>)
    ensures
        0 <= i < es.len() && (forall|j: int| i < j < es.len() ==> (#[trigger] es[j]).0 != es[i].0)
            ==> assoc::find(gathered(es), es[i].0) == Some(es[i].1),
        (forall|j: int| 0 <= j < es.len() ==> (#[trigger] es[j]).0 != k) ==> assoc::find(
            gathered(es),
            k,
        ) is None,
    decreases es.len(),
{
    if es.len() > 0 {
        let d = es.drop_last();
        let last = es.last();
        lemma_gathered(d);
        assoc::lemma_upsert(gathered(d), last.0, last.1);
        law_the_last_entry_is_gathered(d, i, k);
        assert(es[es.len() - 1] == last);
        assert(forall|j: int| 0 <= j < d.len() ==> #[trigger] d[j] == es[j]);
        if 0 <= i < d.len() && (forall|j: int|
            i < j < es.len() ==> (#[trigger] es[j]).0 != es[i].0) {
            assert(d[i] == es[i]);
        }
    }
}

/// A selection goes through the entries in order and keeps those whose flag is set.
pub proof fn law_a_selection_keeps_what_is_flagged(es: Seq<Pair>, keep: Seq<bool>, e: Pair)
    requires
        keep.len() == es.len(),
    ensures
        select(seq![], seq![]) == Seq::<Pair>::empty(),
        select(es.push(e), keep.push(true)) == select(es, keep).push(e),
        select(es.push(e), keep.push(false)) == select(es, keep),
{
    assert(es.push(e).drop_last() =~= es);
    lemma_select_flags(es, keep.push(true), keep);
    lemma_select_flags(es, keep.push(false), keep);
}

// ---------------------------------------------------------------------------
// Selection
// ---------------------------------------------------------------------------

/// `es` gathered into a sorted list, the later of two equal keys winning.
pub open spec fn gathered(es: Seq<Pair>) -> Seq<Pair>
    decreases es.len(),
{
    if es.len() == 0 {
        seq![]
    } else {
        assoc::upsert(gathered(es.drop_last()), es.last().0, es.last().1)
    }
}

/// Gathering sorts, and changes nothing where the keys already increase.
pub proof fn lemma_gathered(es: Seq<Pair>)
    ensures
        assoc::sorted(gathered(es)),
        assoc::sorted(es) ==> gathered(es) == es,
    decreases es.len(),
{
    if es.len() > 0 {
        let d = es.drop_last();
        lemma_gathered(d);
        assoc::lemma_upsert(gathered(d), es.last().0, es.last().1);
        if assoc::sorted(es) {
            assert forall|i: int, j: int| 0 <= i < j < d.len() implies bytes::lex_lt(
                #[trigger] d[i].0,
                #[trigger] d[j].0,
            ) by {
                assert(bytes::lex_lt(es[i].0, es[j].0));
            }
            if d.len() > 0 {
                assert(bytes::lex_lt(es[d.len() - 1].0, es[es.len() - 1].0));
            }
            assoc::lemma_upsert_new_last(d, es.last().0, es.last().1);
            assert(d.push(es.last()) =~= es);
        }
    }
}

/// The entries of `es` whose flag is set.
pub open spec fn select(es: Seq<Pair>, keep: Seq<bool>) -> Seq<Pair>
    decreases es.len(),
{
    if es.len() == 0 {
        seq![]
    } else {
        let front = select(es.drop_last(), keep);
        if keep[es.len() - 1] {
            front.push(es.last())
        } else {
            front
        }
    }
}

pub proof fn lemma_select_add(a: Seq<Pair>, b: Seq<Pair>, x: Seq<bool>, y: Seq<bool>)
    requires
        a.len() == x.len(),
        b.len() == y.len(),
    ensures
        select(a + b, x + y) == select(a, x) + select(b, y),
    decreases b.len(),
{
    if b.len() == 0 {
        assert(a + b =~= a);
        assert(x + y =~= x);
        assert(select(a, x) + select(b, y) =~= select(a, x));
    } else {
        let n = b.len() - 1;
        lemma_select_add(a, b.drop_last(), x, y.take(n));
        lemma_select_flags(b.drop_last(), y, y.take(n));
        assert((a + b).drop_last() =~= a + b.drop_last());
        lemma_select_flags(a + b.drop_last(), x + y, x + y.take(n));
        assert(select(a + b, x + y) =~= select(a, x) + select(b, y));
    }
}

pub proof fn lemma_select_flags(es: Seq<Pair>, x: Seq<bool>, y: Seq<bool>)
    requires
        forall|i: int| 0 <= i < es.len() ==> x[i] == y[i],
    ensures
        select(es, x) == select(es, y),
    decreases es.len(),
{
    if es.len() > 0 {
        lemma_select_flags(es.drop_last(), x, y);
    }
}

/// Selecting by a predicate is filtering by it.
pub proof fn lemma_select_filter(es: Seq<Pair>, keep: Seq<bool>, p: spec_fn(Pair) -> bool)
    requires
        forall|i: int| 0 <= i < es.len() ==> keep[i] == p(#[trigger] es[i]),
    ensures
        select(es, keep) == es.filter(p),
    decreases es.len(),
{
    reveal(Seq::filter);
    if es.len() > 0 {
        let d = es.drop_last();
        assert forall|i: int| 0 <= i < d.len() implies keep[i] == p(#[trigger] d[i]) by {
            assert(d[i] == es[i]);
        }
        lemma_select_filter(d, keep, p);
        assert(es.last() == es[es.len() - 1]);
    }
}

pub proof fn lemma_filter_all(es: Seq<Pair>, p: spec_fn(Pair) -> bool)
    requires
        forall|e: Pair| #[trigger] p(e),
    ensures
        es.filter(p) == es,
    decreases es.len(),
{
    reveal(Seq::filter);
    if es.len() > 0 {
        lemma_filter_all(es.drop_last(), p);
        assert(es =~= es.drop_last().push(es.last()));
    }
}

/// A selection from a sorted list is sorted, and every entry of it comes from that list.
pub proof fn lemma_select_sorted(es: Seq<Pair>, keep: Seq<bool>)
    requires
        assoc::sorted(es),
    ensures
        assoc::sorted(select(es, keep)),
        select(es, keep).len() <= es.len(),
        forall|i: int| 0 <= i < select(es, keep).len() ==> es.contains(#[trigger] select(es, keep)[i]),
    decreases es.len(),
{
    if es.len() > 0 {
        let d = es.drop_last();
        lemma_select_sorted(d, keep);
        let f = select(d, keep);
        let r = select(es, keep);
        assert forall|i: int| 0 <= i < f.len() implies es.contains(#[trigger] f[i])
            && bytes::lex_lt(f[i].0, es.last().0) by {
            assert(d.contains(f[i]));
            let j = choose|j: int| 0 <= j < d.len() && d[j] == f[i];
            assert(es[j] == f[i]);
            assert(bytes::lex_lt(es[j].0, es[es.len() - 1].0));
        }
        assert(es.contains(es[es.len() - 1]));
    }
}

} // verus!
