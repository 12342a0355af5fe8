//! An ordered B+ tree from bytes to bytes.
//!
//! The tree has a fixed order and grows by splitting on insert: separators route to children
//! and values live only in leaves. Deletion erases a single entry and does no merging or
//! borrowing, so a leaf may underflow, or empty, after deletes; lookups and scans stay exact.
//! [`BTree::scan`] and [`BTree::range`] walk the whole tree in order.
//!
//! A tree grown from an empty one is a search tree. One that was loaded from a document has the
//! nodes that the document holds, whatever their order: [`BTree::is_search_tree`] tells.

use crate::assoc;
use crate::bytes;
use crate::bytes::{bytes_eq, bytes_lt, copy_bytes};
use crate::tree;
use crate::tree::{Pair, Tree};
use vstd::prelude::*;

verus! {

pub use crate::btree_page::{commit, commit_document, open, tree_document, DocumentError};
pub use crate::tree::{MIN_CHILDREN, MIN_LEAF_KEYS, ORDER};

/// An inner node: `keys` has one entry less than `children`; `keys[i]` separates
/// `children[i]` from `children[i + 1]`.
#[derive(Debug)]
pub struct Internal {
    pub(crate) keys: Vec<Vec<u8>>,
    pub(crate) children: Vec<Node>,
}

/// A leaf: a sorted run of `(key, value)`.
#[derive(Debug)]
pub struct Leaf {
    pub(crate) entries: Vec<(Vec<u8>, Vec<u8>)>,
}

/// A node of a B+ tree.
#[derive(Debug)]
pub enum Node {
    Internal(Internal),
    Leaf(Leaf),
}

/// The right half of a node that overflowed, and the key that separates it from the left.
struct Split {
    median: Vec<u8>,
    right: Node,
}

/// The separator and the right half of a split, where there was one.
spec fn split_view(r: Option<Split>) -> Option<(Seq<u8>, Tree)> {
    match r {
        None => None,
        Some(s) => Some((s.median@, s.right@)),
    }
}

/// The byte strings of `ks`.
pub open spec fn keys_view(ks: Seq<Vec<u8>>) -> Seq<Seq<u8>> {
    ks.map_values(|k: Vec<u8>| k@)
}

/// The byte strings of `es`.
pub open spec fn pairs_view(es: Seq<(Vec<u8>, Vec<u8>)>) -> Seq<Pair> {
    es.map_values(|e: (Vec<u8>, Vec<u8>)| (e.0@, e.1@))
}

/// The trees of `ns`.
pub closed spec fn nodes_view(ns: Seq<Node>) -> Seq<Tree> {
    Seq::new(ns.len(), |i: int| ns[i].view())
}

impl Node {
    pub closed spec fn view(&self) -> Tree
        decreases self,
    {
        match self {
            Node::Leaf(l) => Tree::Leaf(pairs_view(l.entries@)),
            Node::Internal(n) => Tree::Inner(
                keys_view(n.keys@),
                Seq::new(
                    n.children@.len(),
                    |i: int|
                        if 0 <= i < n.children@.len() {
                            n.children@[i].view()
                        } else {
                            arbitrary()
                        },
                ),
            ),
        }
    }

    /// The number of entries below this node; `None` if it does not fit.
    fn count(&self) -> (r: Option<usize>)
        ensures
            match r {
                Some(n) => n == tree::entries(self@).len(),
                None => tree::entries(self@).len() > usize::MAX,
            },
        decreases self,
    {
        match self {
            Node::Leaf(l) => Some(l.entries.len()),
            Node::Internal(n) => {
                let ghost cs = nodes_view(n.children@);
                proof {
                    lemma_inner_view(n);
                }
                let mut total: usize = 0;
                let mut i: usize = 0;
                while i < n.children.len()
                    invariant
                        i <= n.children.len(),
                        *self == Node::Internal(*n),
                        self@ == Tree::Inner(keys_view(n.keys@), cs),
                        cs == nodes_view(n.children@),
                        total == tree::entries_upto(cs, i as nat).len(),
                    decreases n.children.len() - i,
                {
                    proof {
                        lemma_upto_len(cs, (i + 1) as nat, cs.len());
                        assert(cs[i as int] == n.children@[i as int]@);
                    }
                    assert(decreases_to!(self => n.children@[i as int])) by {
                        assert(*n == self->Internal_0);
                        assert(decreases_to!(*self => self->Internal_0));
                    }
                    total = match n.children[i].count() {
                        Some(more) => match total.checked_add(more) {
                            Some(sum) => sum,
                            None => {
                                return None;
                            },
                        },
                        None => {
                            return None;
                        },
                    };
                    i = i + 1;
                }
                Some(total)
            },
        }
    }
}

pub proof fn lemma_nodes_view(ns: Seq<Node>)
    ensures
        nodes_view(ns).len() == ns.len(),
        forall|i: int| 0 <= i < ns.len() ==> #[trigger] nodes_view(ns)[i] == ns[i]@,
{
}

pub(crate) proof fn lemma_leaf_view(l: &Leaf)
    ensures
        Node::Leaf(*l).view() == Tree::Leaf(pairs_view(l.entries@)),
{
}

pub(crate) proof fn lemma_inner_view(n: &Internal)
    ensures
        Node::Internal(*n).view() == Tree::Inner(keys_view(n.keys@), nodes_view(n.children@)),
{
    let cs = Node::Internal(*n).view()->Inner_1;
    assert(cs =~= nodes_view(n.children@));
}

proof fn lemma_upto_len(cs: Seq<Tree>, m: nat, n: nat)
    requires
        m <= n <= cs.len(),
    ensures
        tree::entries_upto(cs, m).len() <= tree::entries_upto(cs, n).len(),
    decreases n,
{
    if m < n {
        lemma_upto_len(cs, m, (n - 1) as nat);
    }
}

// ---------------------------------------------------------------------------
// Searching inside a node
// ---------------------------------------------------------------------------

/// How many entries at the front of a leaf lie below `key`.
fn entry_rank(entries: &Vec<(Vec<u8>, Vec<u8>)>, key: &[u8]) -> (r: usize)
    ensures
        r == assoc::rank(pairs_view(entries@), key@),
        r <= entries.len(),
{
    let ghost es = pairs_view(entries@);
    let mut i: usize = 0;
    while i < entries.len() && bytes_lt(entries[i].0.as_slice(), key)
        invariant
            i <= entries.len(),
            es == pairs_view(entries@),
            forall|j: int| 0 <= j < i ==> bytes::lex_lt(#[trigger] es[j].0, key@),
        decreases entries.len() - i,
    {
        i = i + 1;
    }
    proof {
        assoc::lemma_rank_is(es, key@, i as int);
    }
    i
}

/// The child that owns `key`: the number of separators at or below it.
fn route(keys: &Vec<Vec<u8>>, key: &[u8]) -> (r: usize)
    requires
        tree::routed(keys_view(keys@), key@, tree::owner(keys_view(keys@), key@) as int),
    ensures
        r == tree::owner(keys_view(keys@), key@),
{
    let ghost ks = keys_view(keys@);
    let mut i: usize = 0;
    while i < keys.len() && !bytes_lt(key, keys[i].as_slice())
        invariant
            i <= keys.len(),
            ks == keys_view(keys@),
            forall|j: int| 0 <= j < i ==> !bytes::lex_lt(key@, #[trigger] ks[j]),
        decreases keys.len() - i,
    {
        i = i + 1;
    }
    proof {
        let o = tree::owner(ks, key@) as int;
        assert(i < ks.len() ==> bytes::lex_lt(key@, ks[i as int]));
        if i < o {
            assert(!bytes::lex_lt(key@, ks[i as int]));
        } else if o < i {
            assert(!bytes::lex_lt(key@, ks[o]));
        }
    }
    i
}

/// The first key of the leftmost leaf below `node`, unless that leaf is empty.
fn min_leaf_key(node: &Node) -> (r: Option<Vec<u8>>)
    ensures
        match r {
            Some(k) => tree::leftmost(node@) == Some(k@),
            None => tree::leftmost(node@) is None,
        },
    decreases node,
{
    match node {
        Node::Leaf(leaf) => {
            if leaf.entries.len() > 0 {
                Some(copy_bytes(leaf.entries[0].0.as_slice()))
            } else {
                None
            }
        },
        Node::Internal(inner) => {
            proof {
                lemma_inner_view(inner);
            }
            if inner.children.len() > 0 {
                assert(nodes_view(inner.children@)[0] == inner.children@[0]@);
                min_leaf_key(&inner.children[0])
            } else {
                None
            }
        },
    }
}

// ---------------------------------------------------------------------------
// Insert
// ---------------------------------------------------------------------------

/// Insert `key -> val` into a sorted run of entries, replacing the value of an equal key.
fn put_entry(entries: &mut Vec<(Vec<u8>, Vec<u8>)>, key: Vec<u8>, val: Vec<u8>)
    ensures
        pairs_view(final(entries)@) == assoc::upsert(pairs_view(old(entries)@), key@, val@),
{
    let ghost es = pairs_view(entries@);
    let pos: usize = entry_rank(entries, key.as_slice());
    if pos < entries.len() && bytes_eq(entries[pos].0.as_slice(), key.as_slice()) {
        assert(es[pos as int].0 == key@);
        entries[pos].1 = val;
        assert(pairs_view(entries@) =~= assoc::upsert(es, key@, val@));
    } else {
        assert(pos < es.len() ==> es[pos as int].0 != key@);
        entries.insert(pos, (key, val));
        assert(pairs_view(entries@) =~= assoc::upsert(es, key@, val@));
    }
}

/// Insert into a leaf, splitting it where it overflows.
fn insert_leaf(leaf: &mut Leaf, key: Vec<u8>, val: Vec<u8>) -> (r: Option<Split>)
    ensures
        (Tree::Leaf(pairs_view(final(leaf).entries@)), split_view(r)) == tree::put_below(
            Tree::Leaf(pairs_view(old(leaf).entries@)),
            key@,
            val@,
        ),
{
    put_entry(&mut leaf.entries, key, val);
    let ghost us = pairs_view(leaf.entries@);
    if leaf.entries.len() > ORDER - 1 {
        let mid: usize = leaf.entries.len() / 2;
        let median: Vec<u8> = copy_bytes(leaf.entries[mid].0.as_slice());
        let right: Vec<(Vec<u8>, Vec<u8>)> = leaf.entries.split_off(mid);
        let split = Split { median, right: Node::Leaf(Leaf { entries: right }) };
        proof {
            assert(pairs_view(leaf.entries@) =~= us.take(mid as int));
            assert(pairs_view(right@) =~= us.skip(mid as int));
            assert(split.right@ == Tree::Leaf(us.skip(mid as int)));
        }
        Some(split)
    } else {
        None
    }
}

/// Insert `key -> val` below `node`, splitting overflowing nodes on the way back up.
fn insert_rec(node: &mut Node, key: Vec<u8>, val: Vec<u8>) -> (r: Option<Split>)
    requires
        tree::accepts(old(node)@, key@),
    ensures
        (final(node)@, split_view(r)) == tree::put_below(old(node)@, key@, val@),
    decreases *old(node),
{
    match node {
        Node::Leaf(leaf) => insert_leaf(leaf, key, val),
        Node::Internal(inner) => insert_inner(inner, key, val),
    }
}

/// Cut an inner node in the middle. The boundary is the first key of the right half, or the
/// middle separator where the leftmost leaf on the right is empty.
fn cut_inner(inner: &mut Internal) -> (r: Split)
    requires
        old(inner).keys.len() > 0,
        old(inner).children.len() == old(inner).keys.len() + 1,
    ensures
        ({
            let ks = keys_view(old(inner).keys@);
            let ds = nodes_view(old(inner).children@);
            (Node::Internal(*final(inner))@, r.median@, r.right@) == tree::halves(ks, ds)
        }),
{
    let ghost ks = keys_view(inner.keys@);
    let ghost ds = nodes_view(inner.children@);
    let mid: usize = inner.keys.len() / 2;
    let right_children = inner.children.split_off(mid + 1);
    let right_keys = inner.keys.split_off(mid + 1);
    let middle: Vec<u8> = inner.keys.remove(mid);
    let half = Internal { keys: right_keys, children: right_children };
    proof {
        assert(keys_view(inner.keys@) =~= ks.take(mid as int));
        assert(nodes_view(inner.children@) =~= ds.take(mid + 1));
        assert(keys_view(half.keys@) =~= ks.skip(mid + 1));
        assert(nodes_view(half.children@) =~= ds.skip(mid + 1));
        assert(middle@ == ks[mid as int]);
        lemma_inner_view(inner);
        lemma_inner_view(&half);
    }
    let right = Node::Internal(half);
    let median: Vec<u8> = match min_leaf_key(&right) {
        Some(first) => first,
        None => middle,
    };
    Split { median, right }
}

/// Insert below an inner node: into the child that owns the key, then cut where a split below
/// makes this node overflow.
fn insert_inner(inner: &mut Internal, key: Vec<u8>, val: Vec<u8>) -> (r: Option<Split>)
    requires
        tree::accepts(Node::Internal(*old(inner))@, key@),
    ensures
        (Node::Internal(*final(inner))@, split_view(r)) == tree::put_below(
            Node::Internal(*old(inner))@,
            key@,
            val@,
        ),
    decreases *old(inner),
{
    let ghost ks = keys_view(inner.keys@);
    let ghost cs = nodes_view(inner.children@);
    proof {
        lemma_inner_view(inner);
    }
    let i: usize = route(&inner.keys, key.as_slice());
    assert(cs[i as int] == inner.children@[i as int]@);
    let below = insert_rec(&mut inner.children[i], key, val);
    let ghost c = inner.children@[i as int]@;
    assert(nodes_view(inner.children@) =~= cs.update(i as int, c));
    match below {
        None => {
            proof {
                lemma_inner_view(inner);
            }
            None
        },
        Some(split) => {
            let ghost m = split.median@;
            let ghost w = split.right@;
            assert(i < inner.children.len());
            inner.keys.insert(i, split.median);
            inner.children.insert(i + 1, split.right);
            let ghost ks2 = ks.insert(i as int, m);
            let ghost ds = cs.update(i as int, c).insert(i + 1, w);
            proof {
                assert(keys_view(inner.keys@) =~= ks2);
                assert(nodes_view(inner.children@) =~= ds);
                lemma_inner_view(inner);
            }
            if inner.children.len() > ORDER {
                Some(cut_inner(inner))
            } else {
                None
            }
        },
    }
}

// ---------------------------------------------------------------------------
// Lookup, delete and walks
// ---------------------------------------------------------------------------

/// The value of `key` below `node`.
fn get_rec(node: &Node, key: &[u8]) -> (r: Option<Vec<u8>>)
    requires
        tree::routes(node@, key@),
    ensures
        opt_view(r) == tree::lookup(node@, key@),
    decreases node,
{
    match node {
        Node::Leaf(leaf) => {
            let ghost es = pairs_view(leaf.entries@);
            let mut i: usize = 0;
            assert(es.skip(0) =~= es);
            while i < leaf.entries.len()
                invariant
                    i <= leaf.entries.len(),
                    es == pairs_view(leaf.entries@),
                    node@ == Tree::Leaf(es),
                    tree::first_with(es, key@) == tree::first_with(es.skip(i as int), key@),
                decreases leaf.entries.len() - i,
            {
                assert(es.skip(i as int).skip(1) =~= es.skip(i + 1));
                assert(es.skip(i as int)[0] == es[i as int]);
                if bytes_eq(leaf.entries[i].0.as_slice(), key) {
                    return Some(copy_bytes(leaf.entries[i].1.as_slice()));
                }
                i = i + 1;
            }
            None
        },
        Node::Internal(inner) => {
            let ghost cs = nodes_view(inner.children@);
            proof {
                lemma_inner_view(inner);
            }
            let i: usize = route(&inner.keys, key);
            assert(cs[i as int] == inner.children@[i as int]@);
            get_rec(&inner.children[i], key)
        },
    }
}

/// The bytes of an optional value.
pub open spec fn opt_view(r: Option<Vec<u8>>) -> Option<Seq<u8>> {
    match r {
        Some(v) => Some(v@),
        None => None,
    }
}

/// Route to the leaf that owns `key` and erase its entry; `true` if there was one. The leaf may
/// end up underfull.
fn delete_rec(node: &mut Node, key: &[u8]) -> (r: bool)
    requires
        tree::places(old(node)@, key@),
    ensures
        final(node)@ == tree::cut(old(node)@, key@),
        r == (assoc::find(tree::leaf_of(old(node)@, key@), key@) is Some),
    decreases *old(node),
{
    match node {
        Node::Leaf(leaf) => {
            let ghost es = pairs_view(leaf.entries@);
            let pos: usize = entry_rank(&leaf.entries, key);
            if pos < leaf.entries.len() && bytes_eq(leaf.entries[pos].0.as_slice(), key) {
                assert(es[pos as int].0 == key@);
                let _gone = leaf.entries.remove(pos);
                assert(pairs_view(leaf.entries@) =~= assoc::erase(es, key@));
                true
            } else {
                assert(pos < es.len() ==> es[pos as int].0 != key@);
                false
            }
        },
        Node::Internal(inner) => {
            let ghost cs = nodes_view(inner.children@);
            proof {
                lemma_inner_view(inner);
            }
            let i: usize = route(&inner.keys, key);
            assert(cs[i as int] == inner.children@[i as int]@);
            let r: bool = delete_rec(&mut inner.children[i], key);
            proof {
                let c = inner.children@[i as int]@;
                assert(nodes_view(inner.children@) =~= cs.update(i as int, c));
                lemma_inner_view(inner);
            }
            r
        },
    }
}

/// `keep` records what `pred` answered for each entry of `es`.
pub open spec fn judged<F: Fn(&(Vec<u8>, Vec<u8>)) -> bool>(
    es: Seq<Pair>,
    keep: Seq<bool>,
    pred: F,
) -> bool {
    &&& keep.len() == es.len()
    &&& forall|i: int| 0 <= i < es.len() ==> #[trigger] judged_one(es[i], keep[i], pred)
}

/// `pred` can answer `b` for the entry `p`.
pub open spec fn judged_one<F: Fn(&(Vec<u8>, Vec<u8>)) -> bool>(p: Pair, b: bool, pred: F) -> bool {
    exists|e: (Vec<u8>, Vec<u8>)|
        #![trigger e.0@]
        e.0@ == p.0 && e.1@ == p.1 && call_ensures(pred, (&e,), b)
}

/// Append to `out` the entries below `node` that `pred` accepts, in order.
fn collect<F: Fn(&(Vec<u8>, Vec<u8>)) -> bool>(
    node: &Node,
    out: &mut Vec<(Vec<u8>, Vec<u8>)>,
    pred: &F,
) -> (keep: Ghost<Seq<bool>>)
    requires
        forall|e: (Vec<u8>, Vec<u8>)| #[trigger] call_requires(*pred, (&e,)),
    ensures
        judged(tree::entries(node@), keep@, *pred),
        pairs_view(final(out)@) == pairs_view(old(out)@) + tree::select(
            tree::entries(node@),
            keep@,
        ),
    decreases node,
{
    match node {
        Node::Leaf(leaf) => {
            let ghost es = pairs_view(leaf.entries@);
            let ghost mut keep: Seq<bool> = seq![];
            let ghost start = pairs_view(out@);
            let mut i: usize = 0;
            assert(start =~= start + tree::select(es.take(0), keep));
            while i < leaf.entries.len()
                invariant
                    i <= leaf.entries.len(),
                    es == pairs_view(leaf.entries@),
                    forall|e: (Vec<u8>, Vec<u8>)| #[trigger] call_requires(*pred, (&e,)),
                    judged(es.take(i as int), keep, *pred),
                    pairs_view(out@) == start + tree::select(es.take(i as int), keep),
                decreases leaf.entries.len() - i,
            {
                let e = &leaf.entries[i];
                let b: bool = pred(e);
                let ghost keep2 = keep.push(b);
                proof {
                    assert(es.take(i + 1).drop_last() =~= es.take(i as int));
                    tree::lemma_select_flags(es.take(i as int), keep, keep2);
                    assert(judged_one(es[i as int], b, *pred));
                    assert forall|j: int| 0 <= j < i + 1 implies #[trigger] judged_one(
                        es.take(i + 1)[j],
                        keep2[j],
                        *pred,
                    ) by {
                        if j < i {
                            assert(judged_one(es.take(i as int)[j], keep[j], *pred));
                        }
                    }
                }
                if b {
                    let ghost before = out@;
                    out.push((copy_bytes(e.0.as_slice()), copy_bytes(e.1.as_slice())));
                    assert(pairs_view(out@) =~= pairs_view(before).push(es[i as int]));
                    assert(pairs_view(out@) =~= start + tree::select(es.take(i + 1), keep2));
                }
                proof {
                    keep = keep2;
                }
                i = i + 1;
            }
            assert(es.take(es.len() as int) =~= es);
            Ghost(keep)
        },
        Node::Internal(inner) => {
            let ghost cs = nodes_view(inner.children@);
            let ghost mut keep: Seq<bool> = seq![];
            let ghost start = pairs_view(out@);
            proof {
                lemma_inner_view(inner);
            }
            let mut i: usize = 0;
            assert(start =~= start + tree::select(tree::entries_upto(cs, 0), keep));
            while i < inner.children.len()
                invariant
                    i <= inner.children.len(),
                    *node == Node::Internal(*inner),
                    cs == nodes_view(inner.children@),
                    forall|e: (Vec<u8>, Vec<u8>)| #[trigger] call_requires(*pred, (&e,)),
                    judged(tree::entries_upto(cs, i as nat), keep, *pred),
                    pairs_view(out@) == start + tree::select(
                        tree::entries_upto(cs, i as nat),
                        keep,
                    ),
                decreases inner.children.len() - i,
            {
                assert(decreases_to!(node => inner.children@[i as int])) by {
                    assert(*inner == node->Internal_0);
                    assert(decreases_to!(*node => node->Internal_0));
                }
                let more = collect(&inner.children[i], out, pred);
                proof {
                    let a = tree::entries_upto(cs, i as nat);
                    let b = tree::entries(cs[i as int]);
                    assert(cs[i as int] == inner.children@[i as int]@);
                    tree::lemma_select_add(a, b, keep, more@);
                    let both = keep + more@;
                    assert forall|j: int| 0 <= j < (a + b).len() implies #[trigger] judged_one(
                        (a + b)[j],
                        both[j],
                        *pred,
                    ) by {
                        if j < a.len() {
                            assert(judged_one(a[j], keep[j], *pred));
                        } else {
                            assert(judged_one(b[j - a.len()], more@[j - a.len()], *pred));
                        }
                    }
                    keep = both;
                    assert(pairs_view(out@) =~= start + tree::select(a + b, keep));
                }
                i = i + 1;
            }
            Ghost(keep)
        },
    }
}

/// Rows gathered into a sorted list, the later of two equal keys winning.
fn gather(rows: &Vec<(Vec<u8>, Vec<u8>)>) -> (r: Vec<(Vec<u8>, Vec<u8>)>)
    ensures
        pairs_view(r@) == tree::gathered(pairs_view(rows@)),
{
    let ghost es = pairs_view(rows@);
    let mut out: Vec<(Vec<u8>, Vec<u8>)> = Vec::new();
    let mut i: usize = 0;
    assert(pairs_view(out@) =~= tree::gathered(es.take(0)));
    while i < rows.len()
        invariant
            i <= rows.len(),
            es == pairs_view(rows@),
            pairs_view(out@) == tree::gathered(es.take(i as int)),
        decreases rows.len() - i,
    {
        assert(es.take(i + 1).drop_last() =~= es.take(i as int));
        let e = &rows[i];
        put_entry(&mut out, copy_bytes(e.0.as_slice()), copy_bytes(e.1.as_slice()));
        i = i + 1;
    }
    assert(es.take(es.len() as int) =~= es);
    out
}

/// Check the fill and the order of every node.
fn check_balance(node: &Node, is_root: bool) -> (r: bool)
    ensures
        r == tree::balanced(node@, is_root),
    decreases node,
{
    match node {
        Node::Leaf(leaf) => {
            let n: usize = leaf.entries.len();
            sorted_entries(&leaf.entries) && n < ORDER && (is_root || MIN_LEAF_KEYS <= n)
        },
        Node::Internal(inner) => {
            let ghost cs = nodes_view(inner.children@);
            proof {
                lemma_inner_view(inner);
            }
            let n: usize = inner.children.len();
            if n == 0 || n - 1 != inner.keys.len() || n > ORDER || !(is_root || MIN_CHILDREN <= n)
                || !increasing_keys(&inner.keys) {
                return false;
            }
            let mut i: usize = 0;
            while i < n
                invariant
                    i <= n,
                    n == inner.children.len(),
                    *node == Node::Internal(*inner),
                    node@ == Tree::Inner(keys_view(inner.keys@), cs),
                    cs == nodes_view(inner.children@),
                    forall|j: int| 0 <= j < i ==> tree::balanced(#[trigger] cs[j], false),
                decreases n - i,
            {
                assert(decreases_to!(node => inner.children@[i as int])) by {
                    assert(*inner == node->Internal_0);
                    assert(decreases_to!(*node => node->Internal_0));
                }
                assert(cs[i as int] == inner.children@[i as int]@);
                if !check_balance(&inner.children[i], false) {
                    return false;
                }
                i = i + 1;
            }
            true
        },
    }
}

/// Whether the keys of a run of entries strictly increase.
fn sorted_entries(entries: &Vec<(Vec<u8>, Vec<u8>)>) -> (r: bool)
    ensures
        r == assoc::sorted(pairs_view(entries@)),
{
    let ghost es = pairs_view(entries@);
    let mut i: usize = 1;
    while i < entries.len()
        invariant
            1 <= i,
            i <= entries.len() || entries.len() == 0,
            es == pairs_view(entries@),
            forall|x: int, y: int|
                0 <= x < y < i && y < es.len() ==> bytes::lex_lt(
                    #[trigger] es[x].0,
                    #[trigger] es[y].0,
                ),
        decreases entries.len() - i,
    {
        if !bytes_lt(entries[i - 1].0.as_slice(), entries[i].0.as_slice()) {
            assert(!bytes::lex_lt(es[i - 1].0, es[i as int].0));
            return false;
        }
        proof {
            assert forall|x: int| 0 <= x < i implies bytes::lex_lt(
                #[trigger] es[x].0,
                es[i as int].0,
            ) by {
                if x < i - 1 {
                    bytes::lemma_lex_transitive(es[x].0, es[i - 1].0, es[i as int].0);
                }
            }
        }
        i = i + 1;
    }
    true
}

/// Whether the separators strictly increase.
fn increasing_keys(keys: &Vec<Vec<u8>>) -> (r: bool)
    ensures
        r == tree::increasing(keys_view(keys@)),
{
    let ghost ks = keys_view(keys@);
    let mut i: usize = 1;
    while i < keys.len()
        invariant
            1 <= i,
            i <= keys.len() || keys.len() == 0,
            ks == keys_view(keys@),
            forall|x: int, y: int|
                0 <= x < y < i && y < ks.len() ==> bytes::lex_lt(
                    #[trigger] ks[x],
                    #[trigger] ks[y],
                ),
        decreases keys.len() - i,
    {
        if !bytes_lt(keys[i - 1].as_slice(), keys[i].as_slice()) {
            assert(!bytes::lex_lt(ks[i - 1], ks[i as int]));
            return false;
        }
        proof {
            assert forall|x: int| 0 <= x < i implies bytes::lex_lt(#[trigger] ks[x], ks[i as int]) by {
                if x < i - 1 {
                    bytes::lemma_lex_transitive(ks[x], ks[i - 1], ks[i as int]);
                }
            }
        }
        i = i + 1;
    }
    true
}

/// The bytes of an optional bound.
spec fn bound_view(b: Option<&Vec<u8>>) -> Option<Seq<u8>> {
    match b {
        Some(v) => Some(v@),
        None => None,
    }
}

/// Whether `key` lies at or above `lo`, strictly above it where `strict` is set, and below `hi`.
fn in_bounds(key: &Vec<u8>, lo: Option<&Vec<u8>>, hi: Option<&Vec<u8>>, strict: bool) -> (r: bool)
    ensures
        r == ((if strict {
            tree::above(bound_view(lo), key@)
        } else {
            tree::at_least(bound_view(lo), key@)
        }) && tree::below(key@, bound_view(hi))),
{
    let low_ok: bool = match lo {
        None => true,
        Some(l) => if strict {
            bytes_lt(l.as_slice(), key.as_slice())
        } else {
            !bytes_lt(key.as_slice(), l.as_slice())
        },
    };
    let high_ok: bool = match hi {
        None => true,
        Some(h) => bytes_lt(key.as_slice(), h.as_slice()),
    };
    low_ok && high_ok
}

/// Check that `node` is a search tree whose keys lie in `[lo, hi)`.
fn check_order(node: &Node, lo: Option<&Vec<u8>>, hi: Option<&Vec<u8>>) -> (r: bool)
    ensures
        r == tree::ordered(node@, bound_view(lo), bound_view(hi)),
    decreases node,
{
    match node {
        Node::Leaf(leaf) => {
            let ghost es = pairs_view(leaf.entries@);
            if !sorted_entries(&leaf.entries) {
                return false;
            }
            let mut i: usize = 0;
            while i < leaf.entries.len()
                invariant
                    i <= leaf.entries.len(),
                    es == pairs_view(leaf.entries@),
                    node@ == Tree::Leaf(es),
                    forall|j: int|
                        0 <= j < i ==> tree::at_least(bound_view(lo), #[trigger] es[j].0)
                            && tree::below(es[j].0, bound_view(hi)),
                decreases leaf.entries.len() - i,
            {
                if !in_bounds(&leaf.entries[i].0, lo, hi, false) {
                    assert(!(tree::at_least(bound_view(lo), es[i as int].0) && tree::below(
                        es[i as int].0,
                        bound_view(hi),
                    )));
                    return false;
                }
                i = i + 1;
            }
            true
        },
        Node::Internal(inner) => {
            let ghost ks = keys_view(inner.keys@);
            let ghost cs = nodes_view(inner.children@);
            proof {
                lemma_inner_view(inner);
            }
            let n: usize = inner.children.len();
            if n == 0 || n - 1 != inner.keys.len() || !increasing_keys(&inner.keys) {
                return false;
            }
            let mut i: usize = 0;
            while i < inner.keys.len()
                invariant
                    i <= inner.keys.len(),
                    ks == keys_view(inner.keys@),
                    node@ == Tree::Inner(ks, cs),
                    forall|j: int|
                        0 <= j < i ==> tree::above(bound_view(lo), #[trigger] ks[j])
                            && tree::below(ks[j], bound_view(hi)),
                decreases inner.keys.len() - i,
            {
                if !in_bounds(&inner.keys[i], lo, hi, true) {
                    assert(!(tree::above(bound_view(lo), ks[i as int]) && tree::below(
                        ks[i as int],
                        bound_view(hi),
                    )));
                    return false;
                }
                i = i + 1;
            }
            let mut c: usize = 0;
            while c < n
                invariant
                    c <= n,
                    n == inner.children.len(),
                    n == inner.keys.len() + 1,
                    *node == Node::Internal(*inner),
                    ks == keys_view(inner.keys@),
                    cs == nodes_view(inner.children@),
                    node@ == Tree::Inner(ks, cs),
                    forall|j: int|
                        0 <= j < c ==> tree::ordered(
                            #[trigger] cs[j],
                            tree::child_lo(ks, bound_view(lo), j),
                            tree::child_hi(ks, bound_view(hi), j),
                        ),
                decreases n - c,
            {
                assert(decreases_to!(node => inner.children@[c as int])) by {
                    assert(*inner == node->Internal_0);
                    assert(decreases_to!(*node => node->Internal_0));
                }
                let clo: Option<&Vec<u8>> = if c == 0 {
                    lo
                } else {
                    Some(&inner.keys[c - 1])
                };
                let chi: Option<&Vec<u8>> = if c == n - 1 {
                    hi
                } else {
                    Some(&inner.keys[c])
                };
                assert(cs[c as int] == inner.children@[c as int]@);
                assert(bound_view(clo) == tree::child_lo(ks, bound_view(lo), c as int));
                assert(bound_view(chi) == tree::child_hi(ks, bound_view(hi), c as int));
                if !check_order(&inner.children[c], clo, chi) {
                    return false;
                }
                c = c + 1;
            }
            true
        },
    }
}

/// A copy of the nodes below `node`.
fn copy_node(node: &Node) -> (r: Node)
    ensures
        r@ == node@,
    decreases node,
{
    match node {
        Node::Leaf(leaf) => {
            let mut entries: Vec<(Vec<u8>, Vec<u8>)> = Vec::new();
            let mut i: usize = 0;
            while i < leaf.entries.len()
                invariant
                    i <= leaf.entries.len(),
                    pairs_view(entries@) == pairs_view(leaf.entries@).take(i as int),
                decreases leaf.entries.len() - i,
            {
                let ghost before = pairs_view(entries@);
                let e = &leaf.entries[i];
                entries.push((copy_bytes(e.0.as_slice()), copy_bytes(e.1.as_slice())));
                assert(pairs_view(entries@) =~= before.push((e.0@, e.1@)));
                assert(pairs_view(entries@) =~= pairs_view(leaf.entries@).take(i + 1));
                i = i + 1;
            }
            assert(pairs_view(entries@) =~= pairs_view(leaf.entries@));
            Node::Leaf(Leaf { entries })
        },
        Node::Internal(inner) => {
            let mut keys: Vec<Vec<u8>> = Vec::new();
            let mut i: usize = 0;
            while i < inner.keys.len()
                invariant
                    i <= inner.keys.len(),
                    keys_view(keys@) == keys_view(inner.keys@).take(i as int),
                decreases inner.keys.len() - i,
            {
                let ghost before = keys_view(keys@);
                keys.push(copy_bytes(inner.keys[i].as_slice()));
                assert(keys_view(keys@) =~= before.push(inner.keys@[i as int]@));
                assert(keys_view(keys@) =~= keys_view(inner.keys@).take(i + 1));
                i = i + 1;
            }
            let mut children: Vec<Node> = Vec::new();
            let mut c: usize = 0;
            while c < inner.children.len()
                invariant
                    c <= inner.children.len(),
                    *node == Node::Internal(*inner),
                    nodes_view(children@) == nodes_view(inner.children@).take(c as int),
                decreases inner.children.len() - c,
            {
                assert(decreases_to!(node => inner.children@[c as int])) by {
                    assert(*inner == node->Internal_0);
                    assert(decreases_to!(*node => node->Internal_0));
                }
                let ghost before = nodes_view(children@);
                children.push(copy_node(&inner.children[c]));
                assert(nodes_view(children@) =~= before.push(inner.children@[c as int]@));
                assert(nodes_view(children@) =~= nodes_view(inner.children@).take(c + 1));
                c = c + 1;
            }
            let copy = Internal { keys, children };
            proof {
                assert(keys_view(keys@) =~= keys_view(inner.keys@));
                assert(nodes_view(children@) =~= nodes_view(inner.children@));
                lemma_inner_view(inner);
                lemma_inner_view(&copy);
            }
            Node::Internal(copy)
        },
    }
}

// ---------------------------------------------------------------------------
// The tree
// ---------------------------------------------------------------------------

/// A fixed-order B+ tree mapping bytes to bytes.
#[derive(Debug)]
pub struct BTree {
    root: Node,
}

impl BTree {
    /// The shape of the tree.
    pub closed spec fn shape(&self) -> Tree {
        self.root@
    }

    /// Whether the nodes form a search tree.
    pub open spec fn searchable(&self) -> bool {
        tree::ordered(self.shape(), None, None)
    }

    /// The entries, left to right: in ascending key order in a search tree.
    pub open spec fn entries(&self) -> Seq<Pair> {
        tree::entries(self.shape())
    }

    /// The map that a search tree stands for.
    pub open spec fn view(&self) -> Map<Seq<u8>, Seq<u8>> {
        assoc::to_map(self.entries())
    }

    /// An empty tree.
    pub fn new() -> (r: BTree)
        ensures
            r.searchable(),
            r.entries() == Seq::<Pair>::empty(),
            r.shape() == Tree::Leaf(seq![]),
            r@ == Map::<Seq<u8>, Seq<u8>>::empty(),
    {
        let entries: Vec<(Vec<u8>, Vec<u8>)> = Vec::new();
        assert(pairs_view(entries@) =~= seq![]);
        let r = BTree { root: Node::Leaf(Leaf { entries }) };
        assert(r@ =~= Map::<Seq<u8>, Seq<u8>>::empty());
        r
    }

    /// Whether the nodes form a search tree, as those of every tree do that grew from an empty
    /// one.
    pub fn is_search_tree(&self) -> (r: bool)
        ensures
            r == self.searchable(),
    {
        check_order(&self.root, None, None)
    }

    /// Insert or replace `key -> val`, splitting any overflowing node on the way back up.
    pub fn insert(&mut self, key: Vec<u8>, val: Vec<u8>)
        requires
            old(self).searchable() || tree::accepts(old(self).shape(), key@),
        ensures
            final(self).shape() == tree::put(old(self).shape(), key@, val@),
            old(self).searchable() ==> final(self).searchable(),
            old(self).searchable() ==> final(self).entries() == assoc::upsert(
                old(self).entries(),
                key@,
                val@,
            ),
            old(self).searchable() ==> final(self)@ == old(self)@.insert(key@, val@),
            old(self).searchable() && tree::balanced(old(self).shape(), true) ==> tree::balanced(
                final(self).shape(),
                true,
            ),
            old(self).searchable() && tree::roomy(old(self).shape()) ==> tree::roomy(
                final(self).shape(),
            ),
            forall|d: nat|
                #![trigger tree::level(old(self).shape(), d)]
                old(self).searchable() && tree::level(old(self).shape(), d) ==> tree::level(
                    final(self).shape(),
                    d,
                ) || tree::level(final(self).shape(), d + 1),
    {
        proof {
            if self.searchable() {
                tree::law_put(self.root@, key@, val@);
                assoc::lemma_upsert(tree::entries(self.root@), key@, val@);
            }
        }
        let entries: Vec<(Vec<u8>, Vec<u8>)> = Vec::new();
        let mut root = Node::Leaf(Leaf { entries });
        std::mem::swap(&mut root, &mut self.root);
        let r = insert_rec(&mut root, key, val);
        let ghost u = root@;
        match r {
            None => {
                self.root = root;
            },
            Some(split) => {
                let ghost m = split.median@;
                let ghost w = split.right@;
                let top = Internal { keys: vec![split.median], children: vec![root, split.right] };
                proof {
                    lemma_inner_view(&top);
                    assert(keys_view(top.keys@) =~= seq![m]);
                    assert(nodes_view(top.children@) =~= seq![u, w]);
                }
                self.root = Node::Internal(top);
            },
        }
    }

    /// The value of `key`.
    pub fn get(&self, key: &[u8]) -> (r: Option<Vec<u8>>)
        requires
            self.searchable() || tree::routes(self.shape(), key@),
        ensures
            opt_view(r) == tree::lookup(self.shape(), key@),
            self.searchable() ==> (match r {
                Some(v) => self@.contains_key(key@) && v@ == self@[key@],
                None => !self@.contains_key(key@),
            }),
    {
        proof {
            if self.searchable() {
                tree::law_lookup(self.root@, key@);
            }
        }
        get_rec(&self.root, key)
    }

    /// The entries that `pred` accepts, left to right: in ascending key order in a search tree.
    pub fn scan<F: Fn(&(Vec<u8>, Vec<u8>)) -> bool>(&self, pred: F) -> (r: Vec<
        (Vec<u8>, Vec<u8>),
    >)
        requires
            forall|e: (Vec<u8>, Vec<u8>)| #[trigger] call_requires(pred, (&e,)),
        ensures
            self.searchable() ==> assoc::sorted(pairs_view(r@)),
            exists|keep: Seq<bool>|
                judged(self.entries(), keep, pred) && pairs_view(r@) == #[trigger] tree::select(
                    self.entries(),
                    keep,
                ),
    {
        let mut out: Vec<(Vec<u8>, Vec<u8>)> = Vec::new();
        let keep = collect(&self.root, &mut out, &pred);
        proof {
            if self.searchable() {
                tree::lemma_ordered_entries(self.root@, None, None);
                tree::lemma_select_sorted(self.entries(), keep@);
            }
            assert(pairs_view(out@) =~= tree::select(self.entries(), keep@));
        }
        out
    }

    /// The number of stored entries.
    pub fn len(&self) -> (r: usize)
        requires
            self.entries().len() <= usize::MAX,
        ensures
            r == self.entries().len(),
    {
        match self.root.count() {
            Some(n) => n,
            None => 0,
        }
    }

    /// Whether the tree holds no entry.
    pub fn is_empty(&self) -> (r: bool)
        ensures
            r == (self.entries().len() == 0),
    {
        match self.root.count() {
            Some(n) => n == 0,
            None => false,
        }
    }

    /// Delete `key`; `true` if it was present. A point erase with no rebalancing: the leaf that
    /// held the key may underflow.
    pub fn delete(&mut self, key: &[u8]) -> (r: bool)
        requires
            old(self).searchable() || tree::places(old(self).shape(), key@),
        ensures
            r == (assoc::find(tree::leaf_of(old(self).shape(), key@), key@) is Some),
            final(self).shape() == tree::cut(old(self).shape(), key@),
            old(self).searchable() ==> final(self).searchable(),
            old(self).searchable() ==> r == old(self)@.contains_key(key@),
            old(self).searchable() ==> final(self).entries() == assoc::erase(
                old(self).entries(),
                key@,
            ),
            old(self).searchable() ==> final(self)@ == old(self)@.remove(key@),
            old(self).searchable() && tree::roomy(old(self).shape()) ==> tree::roomy(
                final(self).shape(),
            ),
            forall|d: nat|
                old(self).searchable() && tree::level(old(self).shape(), d)
                    ==> #[trigger] tree::level(final(self).shape(), d),
    {
        proof {
            if self.searchable() {
                tree::law_cut(self.root@, key@);
                tree::lemma_lookup(self.root@, key@, None, None);
                assoc::lemma_erase(tree::entries(self.root@), key@);
            }
        }
        let entries: Vec<(Vec<u8>, Vec<u8>)> = Vec::new();
        let mut root = Node::Leaf(Leaf { entries });
        std::mem::swap(&mut root, &mut self.root);
        let r: bool = delete_rec(&mut root, key);
        self.root = root;
        r
    }

    /// The entries with `lo <= key < hi`, left to right: in ascending key order in a search tree.
    pub fn range(&self, lo: &[u8], hi: &[u8]) -> (r: Vec<(Vec<u8>, Vec<u8>)>)
        ensures
            pairs_view(r@) == self.entries().filter(
                |e: Pair| bytes::lex_le(lo@, e.0) && bytes::lex_lt(e.0, hi@),
            ),
            self.searchable() ==> assoc::sorted(pairs_view(r@)),
    {
        let pred = |e: &(Vec<u8>, Vec<u8>)| -> (b: bool)
            ensures
                b == (bytes::lex_le(lo@, e.0@) && bytes::lex_lt(e.0@, hi@)),
            { !bytes_lt(e.0.as_slice(), lo) && bytes_lt(e.0.as_slice(), hi) };
        let r = self.scan(pred);
        proof {
            let es = self.entries();
            let p = |e: Pair| bytes::lex_le(lo@, e.0) && bytes::lex_lt(e.0, hi@);
            let keep = choose|keep: Seq<bool>|
                judged(es, keep, pred) && pairs_view(r@) == #[trigger] tree::select(es, keep);
            assert forall|i: int| 0 <= i < es.len() implies keep[i] == p(#[trigger] es[i]) by {
                assert(judged_one(es[i], keep[i], pred));
            }
            tree::lemma_select_filter(es, keep, p);
        }
        r
    }

    /// All the entries as a map in ascending key order, the later of two equal keys winning.
    pub fn to_sorted_map(&self) -> (r: Vec<(Vec<u8>, Vec<u8>)>)
        ensures
            pairs_view(r@) == tree::gathered(self.entries()),
            assoc::sorted(pairs_view(r@)),
            self.searchable() ==> pairs_view(r@) == self.entries(),
    {
        let all = |e: &(Vec<u8>, Vec<u8>)| -> (b: bool)
            ensures
                b,
            { true };
        let rows = self.scan(all);
        let ghost es = self.entries();
        proof {
            let p = |e: Pair| true;
            let keep = choose|keep: Seq<bool>|
                judged(es, keep, all) && pairs_view(rows@) == #[trigger] tree::select(es, keep);
            assert forall|i: int| 0 <= i < es.len() implies keep[i] == p(#[trigger] es[i]) by {
                assert(judged_one(es[i], keep[i], all));
            }
            tree::lemma_select_filter(es, keep, p);
            tree::lemma_filter_all(es, p);
        }
        let out = gather(&rows);
        proof {
            tree::lemma_gathered(es);
            if self.searchable() {
                tree::lemma_ordered_entries(self.root@, None, None);
            }
        }
        out
    }

    /// Whether every node is sorted and, except for the root, filled to at least half.
    pub fn assert_balanced(&self) -> (r: bool)
        ensures
            r == tree::balanced(self.shape(), true),
    {
        check_balance(&self.root, true)
    }

    /// The root of the tree.
    pub(crate) fn root(&self) -> (r: &Node)
        ensures
            r@ == self.shape(),
    {
        &self.root
    }

    /// A tree over existing nodes.
    pub(crate) fn from_root(root: Node) -> (r: BTree)
        ensures
            r.shape() == root@,
    {
        BTree { root }
    }
}

impl Default for BTree {
    fn default() -> (r: BTree)
        ensures
            r.shape() == Tree::Leaf(seq![]),
    {
        BTree::new()
    }
}

impl Clone for BTree {
    fn clone(&self) -> (r: BTree)
        ensures
            r.shape() == self.shape(),
    {
        BTree { root: copy_node(&self.root) }
    }
}

} // verus!
