//! The document format of a [`BTree`]: one checksummed frame around nested pages.
//!
//! A frame is the magic number, a body and the checksum of the body. A page frames one node;
//! an inner node holds the pages of its children behind their lengths. A document frames the
//! page of the root, so that a torn or corrupted document is rejected as a whole.

use crate::assoc;
use crate::btree_store;
use crate::btree_store::{BTree, Internal, Leaf, Node};
use crate::bytes;
use crate::bytes::{get_u32_le, push_all, put_u32_le, put_u64_le};
use crate::codec;
use crate::codec::{put_blob, Cursor};
use crate::crc;
use crate::crc::crc32;
use crate::dir;
use crate::dir::FileAction;
use crate::tree;
use crate::tree::{Pair, Tree};
use vstd::prelude::*;

verus! {

/// The number that starts every frame.
pub const MAGIC: u32 = 0x4254_5252;

// ---------------------------------------------------------------------------
// The format
// ---------------------------------------------------------------------------

/// `body` between the magic number and its checksum.
pub open spec fn frame(body: Seq<u8>) -> Seq<u8> {
    bytes::le_bytes(MAGIC as nat, 4) + body + bytes::le_bytes(crc::crc_of(body) as nat, 4)
}

/// The low 32 bits of a count, little-endian.
pub open spec fn count_bytes(n: nat) -> Seq<u8> {
    bytes::le_bytes((n as u32) as nat, 4)
}

/// Entries as length-prefixed keys and values.
pub open spec fn entry_bytes(es: Seq<Pair>) -> Seq<u8>
    decreases es.len(),
{
    if es.len() == 0 {
        seq![]
    } else {
        codec::blob(es[0].0) + codec::blob(es[0].1) + entry_bytes(es.skip(1))
    }
}

/// Length-prefixed separators.
pub open spec fn key_bytes(ks: Seq<Seq<u8>>) -> Seq<u8>
    decreases ks.len(),
{
    if ks.len() == 0 {
        seq![]
    } else {
        codec::blob(ks[0]) + key_bytes(ks.skip(1))
    }
}

/// The page of a node.
pub open spec fn page(t: Tree) -> Seq<u8>
    decreases t,
{
    match t {
        Tree::Leaf(es) => frame(seq![0u8] + count_bytes(es.len()) + entry_bytes(es)),
        Tree::Inner(ks, cs) => frame(
            seq![1u8] + count_bytes(ks.len()) + key_bytes(ks) + count_bytes(cs.len())
                + child_bytes(cs),
        ),
    }
}

/// The pages of `cs`, each behind its eight-byte length.
pub open spec fn child_bytes(cs: Seq<Tree>) -> Seq<u8>
    decreases cs,
{
    if cs.len() == 0 {
        seq![]
    } else {
        bytes::le_bytes((page(cs[0]).len() as u64) as nat, 8) + page(cs[0]) + child_bytes(
            cs.skip(1),
        )
    }
}

/// The document of a tree.
pub open spec fn document(t: Tree) -> Seq<u8> {
    frame(page(t))
}

// ---------------------------------------------------------------------------
// The grammar
// ---------------------------------------------------------------------------

/// The magic number in front of `s`.
pub open spec fn magic_of(s: Seq<u8>) -> nat {
    bytes::le_value(s.take(4))
}

/// What stands between the magic number and the checksum of `s`.
pub open spec fn body_of(s: Seq<u8>) -> Seq<u8> {
    s.subrange(4, s.len() - 4)
}

/// The checksum at the end of `s` is that of its body.
pub open spec fn intact(s: Seq<u8>) -> bool {
    bytes::le_value(s.skip(s.len() - 4)) == crc::crc_of(body_of(s))
}

/// `n` entries.
pub open spec fn take_entries(s: Seq<u8>, n: nat) -> Option<(Seq<Pair>, Seq<u8>)>
    decreases n,
{
    if n == 0 {
        Some((seq![], s))
    } else {
        match codec::take_blob(s) {
            None => None,
            Some((k, s1)) => match codec::take_blob(s1) {
                None => None,
                Some((v, s2)) => match take_entries(s2, (n - 1) as nat) {
                    None => None,
                    Some((more, rest)) => Some((seq![(k, v)] + more, rest)),
                },
            },
        }
    }
}

/// `n` separators.
pub open spec fn take_keys(s: Seq<u8>, n: nat) -> Option<(Seq<Seq<u8>>, Seq<u8>)>
    decreases n,
{
    if n == 0 {
        Some((seq![], s))
    } else {
        match codec::take_blob(s) {
            None => None,
            Some((k, s1)) => match take_keys(s1, (n - 1) as nat) {
                None => None,
                Some((more, rest)) => Some((seq![k] + more, rest)),
            },
        }
    }
}

pub proof fn lemma_take_keys_shrinks(s: Seq<u8>, n: nat)
    ensures
        take_keys(s, n) matches Some((ks, rest)) ==> rest.len() <= s.len(),
    decreases n,
{
    if n > 0 {
        match codec::take_blob(s) {
            None => {},
            Some((k, s1)) => {
                lemma_take_keys_shrinks(s1, (n - 1) as nat);
            },
        }
    }
}

/// The node that a page holds; nothing if the page is damaged. Bytes left over inside the
/// body are ignored.
pub open spec fn read_page(s: Seq<u8>) -> Option<Tree>
    decreases s.len(), 0nat,
{
    if s.len() < 12 || magic_of(s) != MAGIC || !intact(s) {
        None
    } else {
        match codec::take_u8(body_of(s)) {
            None => None,
            Some((kind, s1)) => match codec::take_u32(s1) {
                None => None,
                Some((n, s2)) => if kind == 0 {
                    match take_entries(s2, n) {
                        None => None,
                        Some((es, rest)) => Some(Tree::Leaf(es)),
                    }
                } else if kind == 1 {
                    match take_keys(s2, n) {
                        None => None,
                        Some((ks, s3)) => match codec::take_u32(s3) {
                            None => None,
                            Some((m, s4)) => {
                                proof {
                                    lemma_take_keys_shrinks(s2, n);
                                }
                                match take_children(s4, m) {
                                    None => None,
                                    Some((cs, rest)) => Some(Tree::Inner(ks, cs)),
                                }
                            },
                        },
                    }
                } else {
                    None
                },
            },
        }
    }
}

/// `n` pages behind their lengths.
pub open spec fn take_children(s: Seq<u8>, n: nat) -> Option<(Seq<Tree>, Seq<u8>)>
    decreases s.len(), n,
{
    if n == 0 {
        Some((seq![], s))
    } else {
        match codec::take_u64(s) {
            None => None,
            Some((len, s1)) => match codec::take_n(s1, len) {
                None => None,
                Some((p, s2)) => match read_page(p) {
                    None => None,
                    Some(c) => match take_children(s2, (n - 1) as nat) {
                        None => None,
                        Some((more, rest)) => Some((seq![c] + more, rest)),
                    },
                },
            },
        }
    }
}

// ---------------------------------------------------------------------------
// Reading back what was written
// ---------------------------------------------------------------------------

/// Every count in `t`, and the length of every key, value and separator, fits its field.
pub open spec fn fields_fit(t: Tree) -> bool
    decreases t,
{
    match t {
        Tree::Leaf(es) => {
            &&& es.len() <= u32::MAX
            &&& forall|i: int|
                0 <= i < es.len() ==> (#[trigger] es[i]).0.len() <= u32::MAX && es[i].1.len()
                    <= u32::MAX
        },
        Tree::Inner(ks, cs) => {
            &&& ks.len() <= u32::MAX
            &&& cs.len() <= u32::MAX
            &&& forall|i: int| 0 <= i < ks.len() ==> (#[trigger] ks[i]).len() <= u32::MAX
            &&& forall|i: int| 0 <= i < cs.len() ==> fields_fit(#[trigger] cs[i])
        },
    }
}

/// Every length and count in `t` fits its field, those of the pages too.
pub open spec fn encodable(t: Tree) -> bool
    decreases t,
{
    match t {
        Tree::Leaf(es) => {
            &&& es.len() <= u32::MAX
            &&& forall|i: int|
                0 <= i < es.len() ==> (#[trigger] es[i]).0.len() <= u32::MAX && es[i].1.len()
                    <= u32::MAX
        },
        Tree::Inner(ks, cs) => {
            &&& ks.len() <= u32::MAX
            &&& cs.len() <= u32::MAX
            &&& forall|i: int| 0 <= i < ks.len() ==> (#[trigger] ks[i]).len() <= u32::MAX
            &&& forall|i: int| 0 <= i < cs.len() ==> encodable(#[trigger] cs[i])
            &&& forall|i: int| 0 <= i < cs.len() ==> page(#[trigger] cs[i]).len() <= u64::MAX
        },
    }
}

/// A frame holds its body.
pub proof fn lemma_frame(body: Seq<u8>)
    ensures
        frame(body).len() == body.len() + 8,
        magic_of(frame(body)) == MAGIC,
        body_of(frame(body)) == body,
        intact(frame(body)),
{
    let s = frame(body);
    bytes::lemma_le_u32(MAGIC);
    bytes::lemma_le_u32(crc::crc_of(body));
    assert(s.take(4) =~= bytes::le_bytes(MAGIC as nat, 4));
    assert(body_of(s) =~= body);
    assert(s.skip(s.len() - 4) =~= bytes::le_bytes(crc::crc_of(body) as nat, 4));
}

proof fn lemma_entries_roundtrip(es: Seq<Pair>, rest: Seq<u8>)
    requires
        forall|i: int|
            0 <= i < es.len() ==> (#[trigger] es[i]).0.len() <= u32::MAX && es[i].1.len()
                <= u32::MAX,
    ensures
        take_entries(entry_bytes(es) + rest, es.len()) == Some((es, rest)),
    decreases es.len(),
{
    if es.len() == 0 {
        assert(entry_bytes(es) + rest =~= rest);
        assert(es =~= seq![]);
    } else {
        let more = es.skip(1);
        assert forall|i: int| 0 <= i < more.len() implies (#[trigger] more[i]).0.len() <= u32::MAX
            && more[i].1.len() <= u32::MAX by {
            assert(more[i] == es[i + 1]);
        }
        lemma_entries_roundtrip(more, rest);
        let tail = entry_bytes(more) + rest;
        let k = codec::blob(es[0].0);
        let v = codec::blob(es[0].1);
        assert(entry_bytes(es) + rest =~= k + (v + tail));
        codec::lemma_take_blob(es[0].0, v + tail);
        codec::lemma_take_blob(es[0].1, tail);
        assert(es =~= seq![(es[0].0, es[0].1)] + more);
    }
}

proof fn lemma_keys_roundtrip(ks: Seq<Seq<u8>>, rest: Seq<u8>)
    requires
        forall|i: int| 0 <= i < ks.len() ==> (#[trigger] ks[i]).len() <= u32::MAX,
    ensures
        take_keys(key_bytes(ks) + rest, ks.len()) == Some((ks, rest)),
    decreases ks.len(),
{
    if ks.len() == 0 {
        assert(key_bytes(ks) + rest =~= rest);
        assert(ks =~= seq![]);
    } else {
        let more = ks.skip(1);
        assert forall|i: int| 0 <= i < more.len() implies (#[trigger] more[i]).len()
            <= u32::MAX by {
            assert(more[i] == ks[i + 1]);
        }
        lemma_keys_roundtrip(more, rest);
        let tail = key_bytes(more) + rest;
        assert(key_bytes(ks) + rest =~= codec::blob(ks[0]) + tail);
        codec::lemma_take_blob(ks[0], tail);
        assert(ks =~= seq![ks[0]] + more);
    }
}

#[verifier::spinoff_prover]
#[verifier::rlimit(60)]
proof fn lemma_children_roundtrip(cs: Seq<Tree>, rest: Seq<u8>)
    requires
        forall|i: int| 0 <= i < cs.len() ==> encodable(#[trigger] cs[i]),
        forall|i: int| 0 <= i < cs.len() ==> page(#[trigger] cs[i]).len() <= u64::MAX,
    ensures
        take_children(child_bytes(cs) + rest, cs.len()) == Some((cs, rest)),
    decreases cs,
{
    if cs.len() == 0 {
        assert(child_bytes(cs) + rest =~= rest);
        assert(cs =~= seq![]);
    } else {
        let more = cs.skip(1);
        assert forall|i: int| 0 <= i < more.len() implies encodable(#[trigger] more[i]) && page(
            more[i],
        ).len() <= u64::MAX by {
            assert(more[i] == cs[i + 1]);
        }
        lemma_children_roundtrip(more, rest);
        assert(encodable(cs[0]) && page(cs[0]).len() <= u64::MAX);
        law_page_roundtrip(cs[0]);
        let p = page(cs[0]);
        let tail = child_bytes(more) + rest;
        assert(child_bytes(cs) + rest =~= bytes::le_bytes((p.len() as u64) as nat, 8) + (p + tail));
        codec::lemma_take_u64(p.len() as u64, p + tail);
        codec::lemma_take_n(p, tail);
        assert(cs =~= seq![cs[0]] + more);
    }
}

proof fn lemma_regroup(a: Seq<u8>, b: Seq<u8>, c: Seq<u8>, d: Seq<u8>, e: Seq<u8>)
    ensures
        a + b + c + d + e == a + (b + (c + (d + e))),
        a + b + c == a + (b + c),
        c + Seq::<u8>::empty() == c,
        e + Seq::<u8>::empty() == e,
{
    assert(a + b + c + d + e =~= a + (b + (c + (d + e))));
    assert(a + b + c =~= a + (b + c));
    assert(c + Seq::<u8>::empty() =~= c);
    assert(e + Seq::<u8>::empty() =~= e);
}

/// A page reads back as the node it was written from.
pub proof fn law_page_roundtrip(t: Tree)
    requires
        encodable(t),
    ensures
        read_page(page(t)) == Some(t),
    decreases t,
{
    match t {
        Tree::Leaf(es) => {
            let n = es.len();
            let body = seq![0u8] + count_bytes(n) + entry_bytes(es);
            lemma_frame(body);
            lemma_regroup(seq![0u8], count_bytes(n), entry_bytes(es), seq![], seq![]);
            codec::lemma_take_u8(0u8, count_bytes(n) + entry_bytes(es));
            codec::lemma_take_u32(n as u32, entry_bytes(es));
            lemma_entries_roundtrip(es, seq![]);
        },
        Tree::Inner(ks, cs) => {
            let n = ks.len();
            let m = cs.len();
            let body = seq![1u8] + count_bytes(n) + key_bytes(ks) + count_bytes(m) + child_bytes(
                cs,
            );
            lemma_frame(body);
            let s4 = child_bytes(cs);
            let s3 = count_bytes(m) + s4;
            let s2 = key_bytes(ks) + s3;
            let s1 = count_bytes(n) + s2;
            lemma_regroup(seq![1u8], count_bytes(n), key_bytes(ks), count_bytes(m), s4);
            codec::lemma_take_u8(1u8, s1);
            codec::lemma_take_u32(n as u32, s2);
            lemma_keys_roundtrip(ks, s3);
            codec::lemma_take_u32(m as u32, s4);
            lemma_children_roundtrip(cs, seq![]);
        },
    }
}

// ---------------------------------------------------------------------------
// Writing
// ---------------------------------------------------------------------------

/// Append `body` as a frame.
fn put_frame(out: &mut Vec<u8>, body: &Vec<u8>)
    ensures
        final(out)@ == old(out)@ + frame(body@),
{
    let sum: u32 = crc32(body.as_slice());
    put_u32_le(out, MAGIC);
    push_all(out, body.as_slice());
    put_u32_le(out, sum);
    assert(out@ =~= old(out)@ + frame(body@));
}

/// Append the low 32 bits of a count.
fn put_count(out: &mut Vec<u8>, n: usize)
    ensures
        final(out)@ == old(out)@ + count_bytes(n as nat),
{
    #[verifier::truncate]
    let low: u32 = n as u32;
    put_u32_le(out, low);
}

/// Append the page of `node`.
pub(crate) fn node_page(node: &Node, out: &mut Vec<u8>)
    ensures
        final(out)@ == old(out)@ + page(node@),
    decreases node,
{
    let mut body: Vec<u8> = Vec::new();
    match node {
        Node::Leaf(leaf) => {
            let ghost es = btree_store::pairs_view(leaf.entries@);
            proof {
                btree_store::lemma_leaf_view(leaf);
            }
            body.push(0);
            put_count(&mut body, leaf.entries.len());
            let ghost head = body@;
            assert(head =~= seq![0u8] + count_bytes(es.len()));
            let mut i: usize = 0;
            assert(es.skip(0) =~= es);
            while i < leaf.entries.len()
                invariant
                    i <= leaf.entries.len(),
                    es == btree_store::pairs_view(leaf.entries@),
                    body@ + entry_bytes(es.skip(i as int)) == head + entry_bytes(es),
                decreases leaf.entries.len() - i,
            {
                let ghost before = body@;
                put_blob(&mut body, leaf.entries[i].0.as_slice());
                put_blob(&mut body, leaf.entries[i].1.as_slice());
                proof {
                    let rest = es.skip(i as int);
                    assert(rest.skip(1) =~= es.skip(i + 1));
                    assert(before + entry_bytes(rest) =~= body@ + entry_bytes(es.skip(i + 1)));
                }
                i = i + 1;
            }
            assert(body@ + entry_bytes(es.skip(es.len() as int)) =~= body@);
            assert(body@ =~= seq![0u8] + count_bytes(es.len()) + entry_bytes(es));
        },
        Node::Internal(inner) => {
            let ghost ks = btree_store::keys_view(inner.keys@);
            let ghost cs = btree_store::nodes_view(inner.children@);
            proof {
                btree_store::lemma_inner_view(inner);
            }
            body.push(1);
            put_count(&mut body, inner.keys.len());
            let ghost head = body@;
            assert(head =~= seq![1u8] + count_bytes(ks.len()));
            let mut i: usize = 0;
            assert(ks.skip(0) =~= ks);
            while i < inner.keys.len()
                invariant
                    i <= inner.keys.len(),
                    ks == btree_store::keys_view(inner.keys@),
                    body@ + key_bytes(ks.skip(i as int)) == head + key_bytes(ks),
                decreases inner.keys.len() - i,
            {
                let ghost before = body@;
                put_blob(&mut body, inner.keys[i].as_slice());
                proof {
                    let rest = ks.skip(i as int);
                    assert(rest.skip(1) =~= ks.skip(i + 1));
                    assert(before + key_bytes(rest) =~= body@ + key_bytes(ks.skip(i + 1)));
                }
                i = i + 1;
            }
            assert(body@ + key_bytes(ks.skip(ks.len() as int)) =~= body@);
            put_count(&mut body, inner.children.len());
            let ghost neck = body@;
            assert(neck =~= seq![1u8] + count_bytes(ks.len()) + key_bytes(ks) + count_bytes(
                cs.len(),
            )) by {
                btree_store::lemma_nodes_view(inner.children@);
            }
            let mut c: usize = 0;
            assert(cs.skip(0) =~= cs);
            while c < inner.children.len()
                invariant
                    c <= inner.children.len(),
                    *node == Node::Internal(*inner),
                    cs == btree_store::nodes_view(inner.children@),
                    body@ + child_bytes(cs.skip(c as int)) == neck + child_bytes(cs),
                decreases inner.children.len() - c,
            {
                assert(decreases_to!(node => inner.children@[c as int])) by {
                    assert(*inner == node->Internal_0);
                    assert(decreases_to!(*node => node->Internal_0));
                }
                let mut child: Vec<u8> = Vec::new();
                node_page(&inner.children[c], &mut child);
                let ghost before = body@;
                put_u64_le(&mut body, child.len() as u64);
                push_all(&mut body, child.as_slice());
                proof {
                    btree_store::lemma_nodes_view(inner.children@);
                    let rest = cs.skip(c as int);
                    assert(child@ =~= page(rest[0]));
                    assert(rest.skip(1) =~= cs.skip(c + 1));
                    assert(before + child_bytes(rest) =~= body@ + child_bytes(cs.skip(c + 1)));
                }
                c = c + 1;
            }
            proof {
                btree_store::lemma_nodes_view(inner.children@);
                assert(body@ + child_bytes(cs.skip(cs.len() as int)) =~= body@);
            }
        },
    }
    put_frame(out, &body);
}

/// The document of a tree.
pub fn tree_document(tree: &BTree) -> (r: Vec<u8>)
    ensures
        r@ == document(tree.shape()),
        fields_fit(tree.shape()) ==> read_document(r@) == Ok::<Tree, DocumentError>(tree.shape()),
{
    let mut body: Vec<u8> = Vec::new();
    node_page(tree.root(), &mut body);
    assert(body@ =~= page(tree.shape()));
    let mut doc: Vec<u8> = Vec::new();
    put_frame(&mut doc, &body);
    assert(doc@ =~= document(tree.shape()));
    proof {
        assert(body@.len() == body.len());
        if fields_fit(tree.shape()) {
            law_document_roundtrip(tree.shape());
        }
    }
    doc
}

// ---------------------------------------------------------------------------
// Reading
// ---------------------------------------------------------------------------

/// The body of a frame.
fn frame_body<'a>(s: &'a [u8]) -> (r: &'a [u8])
    requires
        s.len() >= 8,
    ensures
        r@ == body_of(s@),
{
    vstd::slice::slice_subrange(s, 4, s.len() - 4)
}

/// The magic number of a frame.
fn frame_magic(s: &[u8]) -> (r: u32)
    requires
        s.len() >= 8,
    ensures
        r == magic_of(s@),
{
    assert(s@.subrange(0, 4) =~= s@.take(4));
    get_u32_le(s, 0)
}

/// Whether the checksum of a frame is that of its body.
fn frame_intact(s: &[u8]) -> (r: bool)
    requires
        s.len() >= 8,
    ensures
        r == intact(s@),
{
    let n: usize = s.len();
    assert(s@.subrange(n - 4, n as int) =~= s@.skip(n - 4));
    get_u32_le(s, n - 4) == crc32(frame_body(s))
}

/// Read the node of a page, verifying its checksum; `None` if the page is damaged.
pub(crate) fn parse_page(s: &[u8]) -> (r: Option<Node>)
    ensures
        match r {
            Some(node) => read_page(s@) == Some(node@),
            None => read_page(s@) is None,
        },
    decreases s.len(),
{
    if s.len() < 12 || frame_magic(s) != MAGIC || !frame_intact(s) {
        return None;
    }
    let body: &[u8] = frame_body(s);
    let mut cur = Cursor::new(body);
    let kind: u8 = match cur.u8() {
        None => {
            return None;
        },
        Some(k) => k,
    };
    let n: u32 = match cur.u32() {
        None => {
            return None;
        },
        Some(n) => n,
    };
    let ghost s2 = cur@;
    if kind == 0 {
        let mut entries: Vec<(Vec<u8>, Vec<u8>)> = Vec::new();
        let mut i: u32 = 0;
        assert(btree_store::pairs_view(entries@) =~= seq![]);
        proof {
            lemma_prepend_none(take_entries(s2, n as nat));
        }
        while i < n
            invariant
                i <= n,
                take_entries(s2, n as nat) == prepend(
                    btree_store::pairs_view(entries@),
                    take_entries(cur@, (n - i) as nat),
                ),
                read_page(s@) == (match take_entries(s2, n as nat) {
                    None => None,
                    Some((es, rest)) => Some(Tree::Leaf(es)),
                }),
            decreases n - i,
        {
            let k: Vec<u8> = match cur.blob() {
                None => {
                    return None;
                },
                Some(k) => k,
            };
            let v: Vec<u8> = match cur.blob() {
                None => {
                    return None;
                },
                Some(v) => v,
            };
            let ghost before = btree_store::pairs_view(entries@);
            let ghost one = (k@, v@);
            entries.push((k, v));
            proof {
                assert(btree_store::pairs_view(entries@) =~= before.push(one));
                lemma_prepend_one(before, one, take_entries(cur@, (n - i - 1) as nat));
            }
            i = i + 1;
        }
        assert(btree_store::pairs_view(entries@) + seq![] =~= btree_store::pairs_view(entries@));
        let leaf = Leaf { entries };
        proof {
            btree_store::lemma_leaf_view(&leaf);
        }
        Some(Node::Leaf(leaf))
    } else if kind == 1 {
        let mut keys: Vec<Vec<u8>> = Vec::new();
        let mut i: u32 = 0;
        let ghost out = read_page(s@);
        assert(btree_store::keys_view(keys@) =~= seq![]);
        proof {
            lemma_prepend_none(take_keys(s2, n as nat));
            lemma_take_keys_shrinks(s2, n as nat);
        }
        while i < n
            invariant
                i <= n,
                take_keys(s2, n as nat) == prepend(
                    btree_store::keys_view(keys@),
                    take_keys(cur@, (n - i) as nat),
                ),
                take_keys(s2, n as nat) is None ==> read_page(s@) is None,
            decreases n - i,
        {
            let k: Vec<u8> = match cur.blob() {
                None => {
                    return None;
                },
                Some(k) => k,
            };
            let ghost before = btree_store::keys_view(keys@);
            let ghost one = k@;
            keys.push(k);
            proof {
                assert(btree_store::keys_view(keys@) =~= before.push(one));
                lemma_prepend_one(before, one, take_keys(cur@, (n - i - 1) as nat));
            }
            i = i + 1;
        }
        let ghost s3 = cur@;
        let ghost ks = btree_store::keys_view(keys@);
        assert(ks + seq![] =~= ks);
        assert(take_keys(s2, n as nat) == Some((ks, s3)));
        let m: u32 = match cur.u32() {
            None => {
                return None;
            },
            Some(m) => m,
        };
        let ghost s4 = cur@;
        let mut children: Vec<Node> = Vec::new();
        let mut c: u32 = 0;
        proof {
            btree_store::lemma_nodes_view(children@);
            assert(btree_store::nodes_view(children@) =~= seq![]);
            lemma_prepend_none(take_children(s4, m as nat));
        }
        while c < m
            invariant
                c <= m,
                cur@.len() < s.len(),
                take_children(s4, m as nat) == prepend(
                    btree_store::nodes_view(children@),
                    take_children(cur@, (m - c) as nat),
                ),
                take_children(s4, m as nat) is None ==> read_page(s@) is None,
            decreases m - c,
        {
            let len: u64 = match cur.u64() {
                None => {
                    return None;
                },
                Some(len) => len,
            };
            if len > cur.remaining() as u64 {
                return None;
            }
            let p: &[u8] = match cur.slice(len as usize) {
                None => {
                    return None;
                },
                Some(p) => p,
            };
            let node: Node = match parse_page(p) {
                None => {
                    return None;
                },
                Some(node) => node,
            };
            let ghost before = btree_store::nodes_view(children@);
            let ghost one = node@;
            let ghost held = children@;
            children.push(node);
            proof {
                btree_store::lemma_nodes_view(held);
                btree_store::lemma_nodes_view(children@);
                assert(btree_store::nodes_view(children@) =~= before.push(one));
                lemma_prepend_one(before, one, take_children(cur@, (m - c - 1) as nat));
            }
            c = c + 1;
        }
        let inner = Internal { keys, children };
        proof {
            let cs = btree_store::nodes_view(inner.children@);
            assert(cs + seq![] =~= cs);
            btree_store::lemma_inner_view(&inner);
        }
        Some(Node::Internal(inner))
    } else {
        None
    }
}

/// A partial result with `front` read before it.
spec fn prepend<T>(front: Seq<T>, r: Option<(Seq<T>, Seq<u8>)>) -> Option<(Seq<T>, Seq<u8>)> {
    match r {
        None => None,
        Some((more, rest)) => Some((front + more, rest)),
    }
}

proof fn lemma_prepend_none<T>(r: Option<(Seq<T>, Seq<u8>)>)
    ensures
        prepend(seq![], r) == r,
{
    match r {
        None => {},
        Some((more, rest)) => {
            assert(Seq::<T>::empty() + more =~= more);
        },
    }
}

proof fn lemma_prepend_one<T>(front: Seq<T>, x: T, r: Option<(Seq<T>, Seq<u8>)>)
    ensures
        prepend(front, prepend(seq![x], r)) == prepend(front.push(x), r),
{
    match r {
        None => {},
        Some((more, rest)) => {
            assert(front + (seq![x] + more) =~= front.push(x) + more);
        },
    }
}

// ---------------------------------------------------------------------------
// Documents
// ---------------------------------------------------------------------------

/// Why a document was rejected.
#[derive(Debug, Clone, Copy, PartialEq, Eq, Structural)]
pub enum DocumentError {
    /// Shorter than an empty frame.
    TooShort,
    /// The magic number is wrong.
    BadMagic,
    /// The checksum does not match: torn or corrupt.
    CrcMismatch,
    /// The checksum matches, but the page of the root does not hold a node.
    Undecodable,
}

impl DocumentError {
    /// The message for this error.
    pub fn message(&self) -> (r: &'static str)
        ensures
            r@ == (match self {
                DocumentError::TooShort => "btree.dat too short"@,
                DocumentError::BadMagic => "btree.dat bad magic"@,
                DocumentError::CrcMismatch => "btree.dat CRC mismatch (torn/corrupt)"@,
                DocumentError::Undecodable => "btree.dat undecodable page"@,
            }),
    {
        match self {
            DocumentError::TooShort => "btree.dat too short",
            DocumentError::BadMagic => "btree.dat bad magic",
            DocumentError::CrcMismatch => "btree.dat CRC mismatch (torn/corrupt)",
            DocumentError::Undecodable => "btree.dat undecodable page",
        }
    }
}

/// The tree that a document holds, or why there is none.
pub open spec fn read_document(doc: Seq<u8>) -> Result<Tree, DocumentError> {
    if doc.len() < 8 {
        Err(DocumentError::TooShort)
    } else if magic_of(doc) != MAGIC {
        Err(DocumentError::BadMagic)
    } else if !intact(doc) {
        Err(DocumentError::CrcMismatch)
    } else {
        match read_page(body_of(doc)) {
            Some(t) => Ok(t),
            None => Err(DocumentError::Undecodable),
        }
    }
}

/// The tree of a document. A damaged document is rejected, not silently recovered.
pub fn parse_document(doc: &[u8]) -> (r: Result<BTree, DocumentError>)
    ensures
        match r {
            Ok(t) => read_document(doc@) == Ok::<Tree, DocumentError>(t.shape()),
            Err(e) => read_document(doc@) == Err::<Tree, DocumentError>(e),
        },
{
    if doc.len() < 8 {
        return Err(DocumentError::TooShort);
    }
    if frame_magic(doc) != MAGIC {
        return Err(DocumentError::BadMagic);
    }
    if !frame_intact(doc) {
        return Err(DocumentError::CrcMismatch);
    }
    match parse_page(frame_body(doc)) {
        None => Err(DocumentError::Undecodable),
        Some(root) => Ok(BTree::from_root(root)),
    }
}

/// The name of the live document.
pub open spec fn live_name() -> Seq<u8> {
    seq![98u8, 116, 114, 101, 101, 46, 100, 97, 116]
}

/// The name of a document that is still being written.
pub open spec fn temp_name() -> Seq<u8> {
    seq![98u8, 116, 114, 101, 101, 46, 116, 109, 112]
}

/// The file name `btree.dat`.
pub fn live_file() -> (r: Vec<u8>)
    ensures
        r@ == live_name(),
{
    let r: Vec<u8> = vec![98, 116, 114, 101, 101, 46, 100, 97, 116];
    assert(r@ =~= live_name());
    r
}

/// The file name `btree.tmp`.
pub fn temp_file() -> (r: Vec<u8>)
    ensures
        r@ == temp_name(),
{
    let r: Vec<u8> = vec![98, 116, 114, 101, 101, 46, 116, 109, 112];
    assert(r@ =~= temp_name());
    r
}

/// The steps that make `doc` the live document: write it aside, then rename it into place.
pub open spec fn commit_steps(doc: Seq<u8>) -> Seq<dir::Step> {
    dir::replace_steps(temp_name(), live_name(), doc)
}

/// The steps that persist a raw document.
pub fn commit_document(doc: Vec<u8>) -> (r: Vec<FileAction>)
    ensures
        dir::steps(r@) == commit_steps(doc@),
{
    let r: Vec<FileAction> = vec![
        FileAction::Create { name: temp_file(), data: doc },
        FileAction::Rename { from: temp_file(), to: live_file() },
    ];
    assert(dir::steps(r@) =~= commit_steps(doc@));
    r
}

/// The steps that persist a tree. Where its counts and lengths fit their fields, the document
/// loads back as the same tree.
pub fn commit(tree: &BTree) -> (r: Vec<FileAction>)
    ensures
        dir::steps(r@) == commit_steps(document(tree.shape())),
        fields_fit(tree.shape()) ==> read_document(document(tree.shape())) == Ok::<
            Tree,
            DocumentError,
        >(tree.shape()),
{
    commit_document(tree_document(tree))
}

/// Load a tree from the live document, or an empty tree where there is none.
pub fn open(live: Option<&Vec<u8>>) -> (r: Result<BTree, DocumentError>)
    ensures
        match live {
            None => r matches Ok(t) && t.shape() == Tree::Leaf(seq![]),
            Some(doc) => match r {
                Ok(t) => read_document(doc@) == Ok::<Tree, DocumentError>(t.shape()),
                Err(e) => read_document(doc@) == Err::<Tree, DocumentError>(e),
            },
        },
{
    match live {
        None => Ok(BTree::new()),
        Some(doc) => parse_document(doc.as_slice()),
    }
}

proof fn lemma_child_pages(cs: Seq<Tree>, i: int)
    requires
        0 <= i < cs.len(),
    ensures
        page(cs[i]).len() <= child_bytes(cs).len(),
    decreases cs.len(),
{
    if i > 0 {
        assert(cs.skip(1)[i - 1] == cs[i]);
        lemma_child_pages(cs.skip(1), i - 1);
    }
}

/// A tree whose fields fit and whose page has a length is encodable: the pages inside are no
/// longer than the one around them.
proof fn lemma_encodable(t: Tree)
    requires
        fields_fit(t),
        page(t).len() <= u64::MAX,
    ensures
        encodable(t),
    decreases t,
{
    match t {
        Tree::Leaf(es) => {},
        Tree::Inner(ks, cs) => {
            lemma_frame(
                seq![1u8] + count_bytes(ks.len()) + key_bytes(ks) + count_bytes(cs.len())
                    + child_bytes(cs),
            );
            assert forall|i: int| 0 <= i < cs.len() implies encodable(#[trigger] cs[i]) && page(
                cs[i],
            ).len() <= u64::MAX by {
                lemma_child_pages(cs, i);
                lemma_encodable(cs[i]);
            }
        },
    }
}

/// A committed tree loads back as the same tree, node by node, so that a scan of it gives the
/// same entries. Every page has a length of 64 bits.
pub proof fn law_document_roundtrip(t: Tree)
    requires
        fields_fit(t),
        page(t).len() <= u64::MAX,
    ensures
        read_document(document(t)) == Ok::<Tree, DocumentError>(t),
{
    lemma_encodable(t);
    lemma_frame(page(t));
    law_page_roundtrip(t);
}

/// The empty tree fits the fields of a document.
pub proof fn law_an_empty_tree_fits()
    ensures
        fields_fit(Tree::Leaf(seq![])),
{
}

proof fn lemma_leftmost_fits(t: Tree)
    requires
        fields_fit(t),
    ensures
        tree::leftmost(t) matches Some(k) ==> k.len() <= u32::MAX,
    decreases t,
{
    match t {
        Tree::Leaf(es) => {
            if es.len() > 0 {
                assert(es[0].0.len() <= u32::MAX);
            }
        },
        Tree::Inner(ks, cs) => {
            if cs.len() > 0 {
                assert(fields_fit(cs[0]));
                lemma_leftmost_fits(cs[0]);
            }
        },
    }
}

proof fn lemma_put_below_fits(t: Tree, k: Seq<u8>, v: Seq<u8>)
    requires
        fields_fit(t),
        tree::splits(t, k),
        k.len() <= u32::MAX,
        v.len() <= u32::MAX,
    ensures
        fields_fit(tree::put_below(t, k, v).0),
        tree::put_below(t, k, v).1 matches Some((m, w)) ==> m.len() <= u32::MAX && fields_fit(w),
    decreases t,
{
    match t {
        Tree::Leaf(es) => {
            let us = assoc::upsert(es, k, v);
            let p = assoc::rank(es, k) as int;
            assoc::lemma_rank(es, k);
            assert forall|i: int| 0 <= i < us.len() implies (#[trigger] us[i]).0.len() <= u32::MAX
                && us[i].1.len() <= u32::MAX by {
                if i != p {
                    let j = if i < p || us.len() == es.len() { i } else { i - 1 };
                    assert(us[i] == es[j]);
                }
            }
            let mid = us.len() as int / 2;
            if us.len() > tree::ORDER - 1 {
                assert(us[mid].0.len() <= u32::MAX);
                let rs = us.skip(mid);
                assert forall|i: int| 0 <= i < rs.len() implies (#[trigger] rs[i]).0.len()
                    <= u32::MAX && rs[i].1.len() <= u32::MAX by {
                    assert(rs[i] == us[mid + i]);
                }
                let ls = us.take(mid);
                assert forall|i: int| 0 <= i < ls.len() implies (#[trigger] ls[i]).0.len()
                    <= u32::MAX && ls[i].1.len() <= u32::MAX by {
                    assert(ls[i] == us[i]);
                }
            }
        },
        Tree::Inner(ks, cs) => {
            let i = tree::owner(ks, k) as int;
            assert(fields_fit(cs[i]));
            lemma_put_below_fits(cs[i], k, v);
            match tree::put_below(cs[i], k, v) {
                (c, None) => {
                    let ds = cs.update(i, c);
                    assert forall|j: int| 0 <= j < ds.len() implies fields_fit(
                        #[trigger] ds[j],
                    ) by {
                        assert(fields_fit(cs[j]));
                    }
                },
                (c, Some((m, w))) => {
                    let ks2 = ks.insert(i, m);
                    let ds = cs.update(i, c).insert(i + 1, w);
                    assert forall|j: int| 0 <= j < ks2.len() implies (#[trigger] ks2[j]).len()
                        <= u32::MAX by {
                        if j < i {
                            assert(ks2[j] == ks[j]);
                        } else if j > i {
                            assert(ks2[j] == ks[j - 1]);
                        }
                    }
                    assert forall|j: int| 0 <= j < ds.len() implies fields_fit(
                        #[trigger] ds[j],
                    ) by {
                        if j < i {
                            assert(ds[j] == cs[j]);
                        } else if j > i + 1 {
                            assert(ds[j] == cs[j - 1]);
                        }
                    }
                    if ds.len() > tree::ORDER {
                        lemma_halves_fit(ks2, ds);
                    }
                },
            }
        },
    }
}

proof fn lemma_halves_fit(ks: Seq<Seq<u8>>, cs: Seq<Tree>)
    requires
        ks.len() > 0,
        cs.len() == ks.len() + 1,
        cs.len() <= u32::MAX + 1,
        cs.len() > tree::ORDER,
        forall|i: int| 0 <= i < ks.len() ==> (#[trigger] ks[i]).len() <= u32::MAX,
        forall|i: int| 0 <= i < cs.len() ==> fields_fit(#[trigger] cs[i]),
    ensures
        ({
            let (left, m, right) = tree::halves(ks, cs);
            fields_fit(left) && m.len() <= u32::MAX && fields_fit(right)
        }),
{
    let mid = ks.len() as int / 2;
    let (left, m, right) = tree::halves(ks, cs);
    let kr = ks.skip(mid + 1);
    let cr = cs.skip(mid + 1);
    let kl = ks.take(mid);
    let cl = cs.take(mid + 1);
    assert forall|i: int| 0 <= i < kr.len() implies (#[trigger] kr[i]).len() <= u32::MAX by {
        assert(kr[i] == ks[mid + 1 + i]);
    }
    assert forall|i: int| 0 <= i < cr.len() implies fields_fit(#[trigger] cr[i]) by {
        assert(cr[i] == cs[mid + 1 + i]);
    }
    assert forall|i: int| 0 <= i < kl.len() implies (#[trigger] kl[i]).len() <= u32::MAX by {
        assert(kl[i] == ks[i]);
    }
    assert forall|i: int| 0 <= i < cl.len() implies fields_fit(#[trigger] cl[i]) by {
        assert(cl[i] == cs[i]);
    }
    assert(ks[mid].len() <= u32::MAX);
    lemma_leftmost_fits(right);
}

/// Inserting a key and a value that fit their fields leaves a tree that fits.
pub proof fn law_an_insertion_fits(t: Tree, k: Seq<u8>, v: Seq<u8>)
    requires
        fields_fit(t),
        tree::ordered(t, None, None) || tree::accepts(t, k),
        k.len() <= u32::MAX,
        v.len() <= u32::MAX,
    ensures
        fields_fit(tree::put(t, k, v)),
{
    if tree::ordered(t, None, None) {
        tree::lemma_ordered_accepts(t, k, None, None);
    }
    lemma_put_below_fits(t, k, v);
    match tree::put_below(t, k, v) {
        (u, None) => {},
        (u, Some((m, w))) => {
            let ks = seq![m];
            let cs = seq![u, w];
            assert forall|i: int| 0 <= i < cs.len() implies fields_fit(#[trigger] cs[i]) by {
                assert(i == 0 || i == 1);
            }
            assert(ks[0].len() <= u32::MAX);
        },
    }
}

/// Deleting a key leaves a tree that fits.
pub proof fn law_a_deletion_fits(t: Tree, k: Seq<u8>)
    requires
        fields_fit(t),
    ensures
        fields_fit(tree::cut(t, k)),
    decreases t,
{
    match t {
        Tree::Leaf(es) => {
            let us = assoc::erase(es, k);
            let p = assoc::rank(es, k) as int;
            assert forall|i: int| 0 <= i < us.len() implies (#[trigger] us[i]).0.len() <= u32::MAX
                && us[i].1.len() <= u32::MAX by {
                let j = if i < p || us.len() == es.len() { i } else { i + 1 };
                assert(us[i] == es[j]);
            }
        },
        Tree::Inner(ks, cs) => {
            let i = tree::owner(ks, k) as int;
            if i < cs.len() {
                assert(fields_fit(cs[i]));
                law_a_deletion_fits(cs[i], k);
                let ds = cs.update(i, tree::cut(cs[i], k));
                assert forall|j: int| 0 <= j < ds.len() implies fields_fit(#[trigger] ds[j]) by {
                    assert(fields_fit(cs[j]));
                }
            }
        },
    }
}

proof fn lemma_blob_fits(s: Seq<u8>)
    ensures
        codec::take_blob(s) matches Some((b, rest)) ==> b.len() <= u32::MAX,
{
    if s.len() >= 4 {
        bytes::lemma_le_value_bound(s.take(4));
        bytes::lemma_pow256_bounds();
    }
}

proof fn lemma_taken_entries_fit(s: Seq<u8>, n: nat)
    ensures
        take_entries(s, n) matches Some((es, rest)) ==> es.len() == n && (forall|i: int|
            0 <= i < es.len() ==> (#[trigger] es[i]).0.len() <= u32::MAX && es[i].1.len()
                <= u32::MAX),
    decreases n,
{
    if n > 0 {
        lemma_blob_fits(s);
        if let Some((k, s1)) = codec::take_blob(s) {
            lemma_blob_fits(s1);
            if let Some((v, s2)) = codec::take_blob(s1) {
                lemma_taken_entries_fit(s2, (n - 1) as nat);
                if let Some((more, rest)) = take_entries(s2, (n - 1) as nat) {
                    let es = seq![(k, v)] + more;
                    assert forall|i: int| 0 <= i < es.len() implies (#[trigger] es[i]).0.len()
                        <= u32::MAX && es[i].1.len() <= u32::MAX by {
                        if i > 0 {
                            assert(es[i] == more[i - 1]);
                        }
                    }
                }
            }
        }
    }
}

proof fn lemma_taken_keys_fit(s: Seq<u8>, n: nat)
    ensures
        take_keys(s, n) matches Some((ks, rest)) ==> ks.len() == n && (forall|i: int|
            0 <= i < ks.len() ==> (#[trigger] ks[i]).len() <= u32::MAX),
    decreases n,
{
    if n > 0 {
        lemma_blob_fits(s);
        if let Some((k, s1)) = codec::take_blob(s) {
            lemma_taken_keys_fit(s1, (n - 1) as nat);
            if let Some((more, rest)) = take_keys(s1, (n - 1) as nat) {
                let ks = seq![k] + more;
                assert forall|i: int| 0 <= i < ks.len() implies (#[trigger] ks[i]).len()
                    <= u32::MAX by {
                    if i > 0 {
                        assert(ks[i] == more[i - 1]);
                    }
                }
            }
        }
    }
}

proof fn lemma_taken_children_fit(s: Seq<u8>, n: nat)
    ensures
        take_children(s, n) matches Some((cs, rest)) ==> cs.len() == n && (forall|i: int|
            0 <= i < cs.len() ==> fields_fit(#[trigger] cs[i])),
    decreases s.len(), n,
{
    if n > 0 {
        if let Some((len, s1)) = codec::take_u64(s) {
            if let Some((p, s2)) = codec::take_n(s1, len) {
                lemma_read_page_fits(p);
                lemma_taken_children_fit(s2, (n - 1) as nat);
                if let Some(c) = read_page(p) {
                    if let Some((more, rest)) = take_children(s2, (n - 1) as nat) {
                        let cs = seq![c] + more;
                        assert forall|i: int| 0 <= i < cs.len() implies fields_fit(
                            #[trigger] cs[i],
                        ) by {
                            if i > 0 {
                                assert(cs[i] == more[i - 1]);
                            }
                        }
                    }
                }
            }
        }
    }
}

proof fn lemma_count_fits(s: Seq<u8>)
    ensures
        codec::take_u32(s) matches Some((n, rest)) ==> n <= u32::MAX,
{
    if s.len() >= 4 {
        bytes::lemma_le_value_bound(s.take(4));
        bytes::lemma_pow256_bounds();
    }
}

proof fn lemma_read_page_fits(s: Seq<u8>)
    ensures
        read_page(s) matches Some(t) ==> fields_fit(t),
    decreases s.len(), 0nat,
{
    if let Some(t) = read_page(s) {
        let (kind, s1) = codec::take_u8(body_of(s))->0;
        lemma_count_fits(s1);
        let (n, s2) = codec::take_u32(s1)->0;
        if kind == 0 {
            lemma_taken_entries_fit(s2, n);
        } else {
            lemma_taken_keys_fit(s2, n);
            lemma_take_keys_shrinks(s2, n);
            let (ks, s3) = take_keys(s2, n)->0;
            lemma_count_fits(s3);
            let (m, s4) = codec::take_u32(s3)->0;
            lemma_taken_children_fit(s4, m);
        }
    }
}

/// A tree that was loaded from a document fits the fields of one.
pub proof fn law_a_loaded_tree_fits(doc: Seq<u8>)
    ensures
        read_document(doc) matches Ok(t) ==> fields_fit(t),
{
    if doc.len() >= 8 {
        lemma_read_page_fits(body_of(doc));
    }
}

/// The layout of a frame: the magic number, least significant byte first, the body, and the
/// checksum of the body. A document is the frame of the page of its root.
pub proof fn law_the_layout_of_a_frame(body: Seq<u8>, t: Tree)
    ensures
        frame(body) == seq![0x52u8, 0x52, 0x54, 0x42] + body + bytes::le_bytes(
            crc::crc_of(body) as nat,
            4,
        ),
        document(t) == frame(page(t)),
{
    bytes::law_four_bytes(MAGIC as nat, seq![0u8, 0, 0, 0]);
    assert(bytes::le_bytes(MAGIC as nat, 4) =~= seq![0x52u8, 0x52, 0x54, 0x42]);
}

/// The layout of a page: a leaf is 0, the number of its entries, and each key and value behind its
/// length; an inner node is 1, the number of its separators, the separators, the number of its
/// children, and the page of each behind its length.
pub proof fn law_the_layout_of_a_page(
    es: Seq<Pair>,
    e: Pair,
    ks: Seq<Seq<u8>>,
    k: Seq<u8>,
    cs: Seq<Tree>,
    c: Tree,
)
    requires
        es.len() <= u32::MAX,
        ks.len() <= u32::MAX,
        cs.len() <= u32::MAX,
        page(c).len() <= u64::MAX,
    ensures
        page(Tree::Leaf(es)) == frame(
            seq![0u8] + bytes::le_bytes(es.len(), 4) + entry_bytes(es),
        ),
        page(Tree::Inner(ks, cs)) == frame(
            seq![1u8] + bytes::le_bytes(ks.len(), 4) + key_bytes(ks) + bytes::le_bytes(cs.len(), 4)
                + child_bytes(cs),
        ),
        entry_bytes(seq![]) == Seq::<u8>::empty(),
        key_bytes(seq![]) == Seq::<u8>::empty(),
        child_bytes(seq![]) == Seq::<u8>::empty(),
        entry_bytes(seq![e] + es) == codec::blob(e.0) + codec::blob(e.1) + entry_bytes(es),
        key_bytes(seq![k] + ks) == codec::blob(k) + key_bytes(ks),
        child_bytes(seq![c] + cs) == bytes::le_bytes(page(c).len(), 8) + page(c) + child_bytes(cs),
{
    assert((seq![e] + es).skip(1) =~= es);
    assert((seq![k] + ks).skip(1) =~= ks);
    assert((seq![c] + cs).skip(1) =~= cs);
    assert((seq![c] + cs)[0] == c);
}

/// What is accepted as a document: exactly the frame of a page that holds a node. What is not is
/// refused for the first of these that applies: too short for a frame, another magic number,
/// another checksum, no node.
pub proof fn law_what_a_document_is(doc: Seq<u8>, body: Seq<u8>)
    ensures
        read_document(doc) is Ok ==> doc == frame(doc.subrange(4, doc.len() - 4)),
        match read_page(body) {
            Some(t) => read_document(frame(body)) == Ok::<Tree, DocumentError>(t),
            None => read_document(frame(body)) == Err::<Tree, DocumentError>(
                DocumentError::Undecodable,
            ),
        },
        doc.len() < 8 ==> read_document(doc) == Err::<Tree, DocumentError>(DocumentError::TooShort),
        doc.len() >= 8 && doc.take(4) != seq![0x52u8, 0x52, 0x54, 0x42] ==> read_document(doc)
            == Err::<Tree, DocumentError>(DocumentError::BadMagic),
        doc.len() >= 8 && doc.take(4) == seq![0x52u8, 0x52, 0x54, 0x42] && doc != frame(
            doc.subrange(4, doc.len() - 4),
        ) ==> read_document(doc) == Err::<Tree, DocumentError>(DocumentError::CrcMismatch),
{
    lemma_frame(body);
    law_the_layout_of_a_frame(body, Tree::Leaf(seq![]));
    if doc.len() >= 8 {
        lemma_frame_of(doc);
        lemma_frame(body_of(doc));
    }
}

/// What has the magic number in front and its checksum behind is a frame.
proof fn lemma_frame_of(s: Seq<u8>)
    requires
        s.len() >= 8,
    ensures
        magic_of(s) == MAGIC <==> s.take(4) == seq![0x52u8, 0x52, 0x54, 0x42],
        magic_of(s) == MAGIC && intact(s) ==> s == frame(s.subrange(4, s.len() - 4)),
{
    let n = s.len() as int;
    bytes::law_four_bytes(MAGIC as nat, s.take(4));
    bytes::lemma_le_u32(MAGIC);
    assert(bytes::le_bytes(MAGIC as nat, 4) =~= seq![0x52u8, 0x52, 0x54, 0x42]);
    bytes::lemma_le_digits(s.take(4));
    bytes::lemma_le_digits(s.skip(n - 4));
    if magic_of(s) == MAGIC && intact(s) {
        assert(s =~= s.take(4) + s.subrange(4, n - 4) + s.skip(n - 4));
    }
}

/// What is accepted as a page: a frame around a body that starts with the kind of node and a
/// count. A leaf needs that many entries; an inner node that many separators, another count and
/// that many children. Bytes left over in the body are ignored; any other kind is refused.
pub proof fn law_what_a_page_is(s: Seq<u8>, body: Seq<u8>)
    ensures
        read_page(s) is Some ==> s.len() >= 13 && s == frame(s.subrange(4, s.len() - 4)),
        body.len() < 5 ==> read_page(frame(body)) is None,
        body.len() >= 5 && body[0] == 0 ==> match take_entries(
            body.skip(5),
            bytes::le_value(body.subrange(1, 5)),
        ) {
            None => read_page(frame(body)) is None,
            Some((es, rest)) => read_page(frame(body)) == Some(Tree::Leaf(es)),
        },
        body.len() >= 5 && body[0] == 1 ==> match take_keys(
            body.skip(5),
            bytes::le_value(body.subrange(1, 5)),
        ) {
            None => read_page(frame(body)) is None,
            Some((ks, t)) => if t.len() < 4 {
                read_page(frame(body)) is None
            } else {
                match take_children(t.skip(4), bytes::le_value(t.take(4))) {
                    None => read_page(frame(body)) is None,
                    Some((cs, rest)) => read_page(frame(body)) == Some(Tree::Inner(ks, cs)),
                }
            },
        },
        body.len() >= 5 && body[0] > 1 ==> read_page(frame(body)) is None,
{
    lemma_frame(body);
    if s.len() >= 8 {
        lemma_frame_of(s);
    }
    if body.len() >= 5 {
        assert(body.skip(1).take(4) =~= body.subrange(1, 5));
        assert(body.skip(1).skip(4) =~= body.skip(5));
    }
}

/// Reading entries and separators undoes writing them, and nothing else does: what was read,
/// written again, is what stood there.
#[verifier::spinoff_prover]
#[verifier::rlimit(40)]
pub proof fn law_what_is_read_is_what_stands_there(s: Seq<u8>, n: nat)
    ensures
        take_entries(s, n) matches Some((es, rest)) ==> es.len() == n && s == entry_bytes(es)
            + rest,
        take_keys(s, n) matches Some((ks, rest)) ==> ks.len() == n && s == key_bytes(ks) + rest,
    decreases n,
{
    if n == 0 {
        assert(entry_bytes(seq![]) + s =~= s);
        assert(key_bytes(seq![]) + s =~= s);
    } else {
        lemma_blob_stands_there(s);
        if let Some((k, s1)) = codec::take_blob(s) {
            lemma_blob_stands_there(s1);
            law_what_is_read_is_what_stands_there(s1, (n - 1) as nat);
            if let Some((more, rest)) = take_keys(s1, (n - 1) as nat) {
                assert((seq![k] + more).skip(1) =~= more);
                assert(s =~= key_bytes(seq![k] + more) + rest);
            }
            if let Some((v, s2)) = codec::take_blob(s1) {
                law_what_is_read_is_what_stands_there(s2, (n - 1) as nat);
                if let Some((more, rest)) = take_entries(s2, (n - 1) as nat) {
                    assert((seq![(k, v)] + more).skip(1) =~= more);
                    assert(s =~= entry_bytes(seq![(k, v)] + more) + rest);
                }
            }
        }
    }
}

proof fn lemma_blob_stands_there(s: Seq<u8>)
    ensures
        codec::take_blob(s) matches Some((b, rest)) ==> s == codec::blob(b) + rest,
{
    if codec::take_blob(s) is Some {
        let (b, rest) = codec::take_blob(s)->0;
        reveal(codec::blob);
        bytes::lemma_le_digits(s.take(4));
        bytes::lemma_le_value_bound(s.take(4));
        bytes::lemma_pow256_bounds();
        assert(s =~= codec::blob(b) + rest);
    }
}

/// A child is read from exactly as many bytes as its length says, and has to be a page; as many
/// children are read as asked for.
pub proof fn law_reading_children(s: Seq<u8>, n: nat)
    requires
        n > 0,
    ensures
        take_children(s, 0) == Some((Seq::<Tree>::empty(), s)),
        ({
            let len = bytes::le_value(s.take(8)) as int;
            if s.len() < 8 || s.len() < 8 + len || read_page(s.subrange(8, 8 + len)) is None {
                take_children(s, n) is None
            } else {
                match take_children(s.skip(8 + len), (n - 1) as nat) {
                    None => take_children(s, n) is None,
                    Some((more, rest)) => take_children(s, n) == Some(
                        (seq![read_page(s.subrange(8, 8 + len))->0] + more, rest),
                    ),
                }
            }
        }),
{
    if s.len() >= 8 {
        let len = bytes::le_value(s.take(8)) as int;
        if s.len() >= 8 + len {
            assert(s.skip(8).take(len) =~= s.subrange(8, 8 + len));
            assert(s.skip(8).skip(len) =~= s.skip(8 + len));
        }
    }
}

/// The file names of the live document and of one that is being written, and how the second takes
/// the place of the first.
pub proof fn law_how_a_document_is_committed(doc: Seq<u8>)
    ensures
        live_name() == seq![98u8, 116, 114, 101, 101, 46, 100, 97, 116],
        temp_name() == seq![98u8, 116, 114, 101, 101, 46, 116, 109, 112],
        commit_steps(doc) == seq![
            dir::Step::Create(temp_name(), doc),
            dir::Step::Rename(temp_name(), live_name()),
        ],
{
}

/// A change confined to one byte makes an accepted document a rejected one.
pub proof fn law_changed_byte_is_rejected(doc: Seq<u8>, i: int, v: u8)
    requires
        read_document(doc) is Ok,
        0 <= i < doc.len(),
        doc[i] != v,
    ensures
        read_document(doc.update(i, v)) is Err,
{
    let bad = doc.update(i, v);
    let n = doc.len();
    if i < 4 {
        bytes::lemma_le_digits(doc.take(4));
        bytes::lemma_le_digits(bad.take(4));
        assert(doc.take(4)[i] != bad.take(4)[i]);
    } else if i < n - 4 {
        crc::law_crc_detects_a_changed_byte(body_of(doc), i - 4, v);
        assert(body_of(bad) =~= body_of(doc).update(i - 4, v));
        assert(bad.skip(n - 4) =~= doc.skip(n - 4));
    } else {
        bytes::lemma_le_digits(doc.skip(n - 4));
        bytes::lemma_le_digits(bad.skip(n - 4));
        assert(doc.skip(n - 4)[i - (n - 4)] != bad.skip(n - 4)[i - (n - 4)]);
        assert(body_of(bad) =~= body_of(doc));
    }
}

/// A crash at any point of a commit leaves the live document as it was, or the new one.
pub proof fn law_commit_is_atomic(f: dir::Files, doc: Seq<u8>, g: dir::Files)
    requires
        assoc::sorted(f),
        dir::crashed(f, commit_steps(doc), g),
    ensures
        assoc::find(g, live_name()) == assoc::find(f, live_name()) || assoc::find(g, live_name())
            == Some(doc),
{
    assert(temp_name()[6] != live_name()[6]);
    dir::law_replacement_is_atomic(f, temp_name(), live_name(), doc, g);
}

/// A finished commit makes the new document live and leaves nothing aside.
pub proof fn law_commit_takes_effect(f: dir::Files, doc: Seq<u8>)
    requires
        assoc::sorted(f),
    ensures
        assoc::find(dir::apply_all(f, commit_steps(doc)), live_name()) == Some(doc),
        !dir::has(dir::apply_all(f, commit_steps(doc)), temp_name()),
{
    assert(temp_name()[6] != live_name()[6]);
    dir::law_replacement_takes_effect(f, temp_name(), live_name(), doc);
}

/// Once a tree has been committed, loading the directory gives the same tree, and with one byte of
/// the document changed it is refused.
pub proof fn law_a_committed_tree_is_reopened(f: dir::Files, t: Tree, i: int, v: u8)
    requires
        assoc::sorted(f),
        fields_fit(t),
        page(t).len() <= u64::MAX,
    ensures
        ({
            let doc = document(t);
            let g = dir::apply_all(f, commit_steps(doc));
            &&& assoc::find(g, live_name()) == Some(doc)
            &&& read_document(doc) == Ok::<Tree, DocumentError>(t)
            &&& 0 <= i < doc.len() && doc[i] != v ==> read_document(doc.update(i, v)) is Err
        }),
{
    let doc = document(t);
    law_document_roundtrip(t);
    law_commit_takes_effect(f, doc);
    if 0 <= i < doc.len() && doc[i] != v {
        law_changed_byte_is_rejected(doc, i, v);
    }
}

} // verus!
