//! An in-memory B+ tree from text keys to text values.

use vstd::prelude::*;
use crate::text::{lemma_text_order, same_text, text_le, text_less, text_less_eq, text_lt};

verus! {

/// Most keys a node may hold; a node that reaches this many is split.
pub const ORDER: usize = 4;

/// A node of the tree: internal (separator keys and children) or a leaf (keys and values).
pub enum Node {
    Internal(InternalNode),
    Leaf(LeafNode),
}

pub struct InternalNode {
    pub keys: Vec<String>,
    pub children: Vec<Box<Node>>,
}

pub struct LeafNode {
    pub keys: Vec<String>,
    pub values: Vec<String>,
    pub next: Option<Box<LeafNode>>,
}

/// A key and its value, as character sequences.
pub type Entry = (Seq<char>, Seq<char>);

pub open spec fn texts(v: Seq<String>) -> Seq<Seq<char>> {
    v.map_values(|s: String| s@)
}

impl LeafNode {
    /// The leaf's keys and values, paired in order.
    pub open spec fn entries(&self) -> Seq<Entry> {
        Seq::new(self.keys@.len(), |i: int| (self.keys@[i]@, self.values@[i]@))
    }
}

/// Number of edges from the node down to its leaves (along the first child).
pub open spec fn node_height(n: Node) -> nat
    decreases n,
{
    match n {
        Node::Leaf(_) => 0,
        Node::Internal(x) => if x.children@.len() > 0 {
            1 + node_height(*x.children@[0])
        } else {
            1
        },
    }
}

/// The shape every node of the tree keeps: as many values as keys in a leaf, one child
/// more than keys in an internal node, between 1 and `ORDER - 1` keys per node, no leaf
/// links, and all children of a node at the same height.
pub open spec fn node_wf(n: Node) -> bool
    decreases n, 0int,
{
    match n {
        Node::Leaf(l) => {
            &&& l.keys@.len() == l.values@.len()
            &&& 1 <= l.keys@.len() < ORDER
            &&& l.next is None
        },
        Node::Internal(x) => {
            &&& x.children@.len() == x.keys@.len() + 1
            &&& 1 <= x.keys@.len() < ORDER
            &&& forall|j: int|
                0 <= j < x.children@.len() ==> #[trigger] node_height(*x.children@[j])
                    == node_height(*x.children@[0])
            &&& children_wf(x.children@, x.children@.len() as int)
        },
    }
}

/// The first `k` children are well formed.
pub open spec fn children_wf(cs: Seq<Box<Node>>, k: int) -> bool
    decreases cs, k,
{
    if k <= 0 || k > cs.len() {
        true
    } else {
        children_wf(cs, k - 1) && node_wf(*cs[k - 1])
    }
}

/// The entries below a node, leaf by leaf from left to right.
pub open spec fn node_entries(n: Node) -> Seq<Entry>
    decreases n, 0int,
{
    match n {
        Node::Leaf(l) => l.entries(),
        Node::Internal(x) => children_entries(x.children@, x.children@.len() as int),
    }
}

/// The entries below the first `k` children.
pub open spec fn children_entries(cs: Seq<Box<Node>>, k: int) -> Seq<Entry>
    decreases cs, k,
{
    if k <= 0 || k > cs.len() {
        seq![]
    } else {
        children_entries(cs, k - 1) + node_entries(*cs[k - 1])
    }
}

/// `k` lies in the half-open range from `lo` (inclusive) to `hi` (exclusive); a missing
/// bound does not restrict.
pub open spec fn in_range(k: Seq<char>, lo: Option<Seq<char>>, hi: Option<Seq<char>>) -> bool {
    &&& (lo matches Some(l) ==> text_le(l, k))
    &&& (hi matches Some(h) ==> text_lt(k, h))
}

pub open spec fn strictly_sorted(ks: Seq<Seq<char>>) -> bool {
    forall|i: int, j: int| 0 <= i < j < ks.len() ==> text_lt(#[trigger] ks[i], #[trigger] ks[j])
}

pub open spec fn all_in_range(ks: Seq<Seq<char>>, lo: Option<Seq<char>>, hi: Option<Seq<char>>) -> bool {
    forall|i: int| 0 <= i < ks.len() ==> in_range(#[trigger] ks[i], lo, hi)
}

/// Lower bound of the keys under child `j`: the separator before it.
pub open spec fn child_lo(seps: Seq<Seq<char>>, j: int, lo: Option<Seq<char>>) -> Option<Seq<char>> {
    if j == 0 {
        lo
    } else {
        Some(seps[j - 1])
    }
}

/// Upper bound of the keys under child `j`: the separator after it.
pub open spec fn child_hi(seps: Seq<Seq<char>>, j: int, hi: Option<Seq<char>>) -> Option<Seq<char>> {
    if j == seps.len() {
        hi
    } else {
        Some(seps[j])
    }
}

/// The search-tree order: keys of every node strictly increase and lie within the node's
/// range, and child `j` of an internal node has the range between separators `j - 1`
/// and `j`.
pub open spec fn node_ordered(n: Node, lo: Option<Seq<char>>, hi: Option<Seq<char>>) -> bool
    decreases n, 0int,
{
    match n {
        Node::Leaf(l) => {
            &&& strictly_sorted(texts(l.keys@))
            &&& all_in_range(texts(l.keys@), lo, hi)
        },
        Node::Internal(x) => {
            &&& strictly_sorted(texts(x.keys@))
            &&& all_in_range(texts(x.keys@), lo, hi)
            &&& children_in_order(x.children@, texts(x.keys@), lo, hi, x.children@.len() as int)
        },
    }
}

/// The first `k` children are ordered within the ranges their separators give them.
pub open spec fn children_in_order(
    cs: Seq<Box<Node>>,
    seps: Seq<Seq<char>>,
    lo: Option<Seq<char>>,
    hi: Option<Seq<char>>,
    k: int,
) -> bool
    decreases cs, k,
{
    if k <= 0 || k > cs.len() {
        true
    } else {
        children_in_order(cs, seps, lo, hi, k - 1) && node_ordered(
            *cs[k - 1],
            child_lo(seps, k - 1, lo),
            child_hi(seps, k - 1, hi),
        )
    }
}

pub open spec fn entry_keys(es: Seq<Entry>) -> Seq<Seq<char>> {
    es.map_values(|e: Entry| e.0)
}

pub open spec fn entry_values(es: Seq<Entry>) -> Seq<Seq<char>> {
    es.map_values(|e: Entry| e.1)
}

/// The value of the first entry with the key.
pub open spec fn lookup(es: Seq<Entry>, k: Seq<char>) -> Option<Seq<char>>
    decreases es.len(),
{
    if es.len() == 0 {
        None
    } else if es[0].0 == k {
        Some(es[0].1)
    } else {
        lookup(es.drop_first(), k)
    }
}



pub proof fn lemma_children_wf(cs: Seq<Box<Node>>, k: int)
    requires
        0 <= k <= cs.len(),
    ensures
        children_wf(cs, k) <==> forall|c: int| 0 <= c < k ==> #[trigger] node_wf(*cs[c]),
    decreases k,
{
    if k > 0 {
        lemma_children_wf(cs, k - 1);
        assert(children_wf(cs, k) == (children_wf(cs, k - 1) && node_wf(*cs[k - 1])));
        if forall|c: int| 0 <= c < k ==> #[trigger] node_wf(*cs[c]) {
            assert(node_wf(*cs[k - 1]));
        }
    }
}

pub proof fn lemma_children_in_order(
    cs: Seq<Box<Node>>,
    seps: Seq<Seq<char>>,
    lo: Option<Seq<char>>,
    hi: Option<Seq<char>>,
    k: int,
)
    requires
        0 <= k <= cs.len(),
    ensures
        children_in_order(cs, seps, lo, hi, k) <==> forall|c: int|
            0 <= c < k ==> #[trigger] node_ordered(*cs[c], child_lo(seps, c, lo), child_hi(seps, c, hi)),
    decreases k,
{
    if k > 0 {
        lemma_children_in_order(cs, seps, lo, hi, k - 1);
        if forall|c: int|
            0 <= c < k ==> #[trigger] node_ordered(*cs[c], child_lo(seps, c, lo), child_hi(seps, c, hi)) {
            assert(node_ordered(*cs[k - 1], child_lo(seps, k - 1, lo), child_hi(seps, k - 1, hi)));
        }
    }
}

// ---------------------------------------------------------------------------
// Facts about entry sequences.
// ---------------------------------------------------------------------------

pub proof fn lemma_lookup_first(es: Seq<Entry>, k: Seq<char>, i: int)
    requires
        0 <= i <= es.len(),
        forall|j: int| 0 <= j < i ==> (#[trigger] es[j]).0 != k,
    ensures
        i < es.len() && es[i].0 == k ==> lookup(es, k) == Some(es[i].1),
        i == es.len() ==> lookup(es, k) is None,
    decreases i,
{
    if i > 0 && es.len() > 0 {
        assert(es[0].0 != k);
        lemma_lookup_first(es.drop_first(), k, i - 1);
    }
}

pub proof fn lemma_lookup_some(es: Seq<Entry>, k: Seq<char>)
    ensures
        lookup(es, k) matches Some(v) ==> es.contains((k, v)),
        lookup(es, k) is None ==> forall|j: int| 0 <= j < es.len() ==> (#[trigger] es[j]).0 != k,
    decreases es.len(),
{
    if es.len() > 0 {
        lemma_lookup_some(es.drop_first(), k);
        if lookup(es, k) is Some && es[0].0 != k {
            let v = lookup(es, k)->0;
            let j = choose|j: int| 0 <= j < es.drop_first().len() && es.drop_first()[j] == (k, v);
            assert(es[j + 1] == (k, v));
        }
        if lookup(es, k) is None {
            assert forall|j: int| 0 <= j < es.len() implies (#[trigger] es[j]).0 != k by {
                if j > 0 {
                    assert(es[j] == es.drop_first()[j - 1]);
                }
            }
        }
    } else {
    }
}

pub proof fn lemma_lookup_concat(a: Seq<Entry>, b: Seq<Entry>, k: Seq<char>)
    ensures
        lookup(a + b, k) == (if lookup(a, k) is Some { lookup(a, k) } else { lookup(b, k) }),
    decreases a.len(),
{
    if a.len() > 0 {
        assert((a + b).drop_first() =~= a.drop_first() + b);
        lemma_lookup_concat(a.drop_first(), b, k);
    } else {
        assert(a + b =~= b);
    }
}

/// No key of `es` equals `k`.
pub open spec fn misses(es: Seq<Entry>, k: Seq<char>) -> bool {
    forall|j: int| 0 <= j < es.len() ==> (#[trigger] es[j]).0 != k
}

pub proof fn lemma_lookup_misses(es: Seq<Entry>, k: Seq<char>)
    requires
        misses(es, k),
    ensures
        lookup(es, k) is None,
{
    lemma_lookup_first(es, k, es.len() as int);
}


// ---------------------------------------------------------------------------
// Facts about ordered trees.
// ---------------------------------------------------------------------------

/// The children of an internal node with separators `seps`, within the range from `lo`
/// to `hi`, are well formed and ordered within their own ranges.
pub open spec fn children_ordered(
    cs: Seq<Box<Node>>,
    seps: Seq<Seq<char>>,
    lo: Option<Seq<char>>,
    hi: Option<Seq<char>>,
) -> bool {
    &&& cs.len() == seps.len() + 1
    &&& strictly_sorted(seps)
    &&& all_in_range(seps, lo, hi)
    &&& forall|c: int| 0 <= c < cs.len() ==> #[trigger] node_wf(*cs[c])
    &&& forall|c: int|
        0 <= c < cs.len() ==> #[trigger] node_ordered(
            *cs[c],
            child_lo(seps, c, lo),
            child_hi(seps, c, hi),
        )
}

/// Every key below an ordered node lies within the node's range.
pub proof fn lemma_entries_in_range(n: Node, lo: Option<Seq<char>>, hi: Option<Seq<char>>)
    requires
        node_wf(n),
        node_ordered(n, lo, hi),
    ensures
        all_in_range(entry_keys(node_entries(n)), lo, hi),
    decreases n, 0int,
{
    match n {
        Node::Leaf(l) => {
            assert forall|i: int| 0 <= i < entry_keys(node_entries(n)).len() implies in_range(
                #[trigger] entry_keys(node_entries(n))[i],
                lo,
                hi,
            ) by {
                assert(entry_keys(node_entries(n))[i] == texts(l.keys@)[i]);
            }
        },
        Node::Internal(x) => {
            lemma_children_wf(x.children@, x.children@.len() as int);
            lemma_children_in_order(x.children@, texts(x.keys@), lo, hi, x.children@.len() as int);
            lemma_children_in_range(x.children@, texts(x.keys@), lo, hi, x.children@.len() as int);
        },
    }
}

pub proof fn lemma_children_in_range(
    cs: Seq<Box<Node>>,
    seps: Seq<Seq<char>>,
    lo: Option<Seq<char>>,
    hi: Option<Seq<char>>,
    m: int,
)
    requires
        children_ordered(cs, seps, lo, hi),
        0 <= m <= cs.len(),
    ensures
        all_in_range(entry_keys(children_entries(cs, m)), lo, hi),
    decreases cs, m,
{
    if m > 0 {
        let c = m - 1;
        lemma_children_in_range(cs, seps, lo, hi, c);
        assert(node_wf(*cs[c]));
        assert(node_ordered(*cs[c], child_lo(seps, c, lo), child_hi(seps, c, hi)));
        lemma_entries_in_range(*cs[c], child_lo(seps, c, lo), child_hi(seps, c, hi));
        lemma_text_order();
        let prefix = children_entries(cs, c);
        let last = node_entries(*cs[c]);
        assert(children_entries(cs, m) == prefix + last);
        assert forall|i: int| 0 <= i < entry_keys(prefix + last).len() implies in_range(
            #[trigger] entry_keys(prefix + last)[i],
            lo,
            hi,
        ) by {
            if i < prefix.len() {
                assert(entry_keys(prefix + last)[i] == entry_keys(prefix)[i]);
            } else {
                let k = entry_keys(prefix + last)[i];
                assert(k == entry_keys(last)[i - prefix.len()]);
                assert(in_range(k, child_lo(seps, c, lo), child_hi(seps, c, hi)));
                if c > 0 {
                    assert(in_range(seps[c - 1], lo, hi));
                }
                if c < seps.len() {
                    assert(in_range(seps[c], lo, hi));
                }
            }
        }
    }
}


/// Below an ordered node the keys strictly increase from left to right.
pub proof fn lemma_entries_sorted(n: Node, lo: Option<Seq<char>>, hi: Option<Seq<char>>)
    requires
        node_wf(n),
        node_ordered(n, lo, hi),
    ensures
        strictly_sorted(entry_keys(node_entries(n))),
    decreases n, 0int,
{
    match n {
        Node::Leaf(l) => {
            assert forall|i: int, j: int|
                0 <= i < j < entry_keys(node_entries(n)).len() implies text_lt(
                #[trigger] entry_keys(node_entries(n))[i],
                #[trigger] entry_keys(node_entries(n))[j],
            ) by {
                assert(entry_keys(node_entries(n))[i] == texts(l.keys@)[i]);
                assert(entry_keys(node_entries(n))[j] == texts(l.keys@)[j]);
            }
        },
        Node::Internal(x) => {
            lemma_children_wf(x.children@, x.children@.len() as int);
            lemma_children_in_order(x.children@, texts(x.keys@), lo, hi, x.children@.len() as int);
            lemma_children_sorted(x.children@, texts(x.keys@), lo, hi, x.children@.len() as int);
        },
    }
}

/// The keys below the first `m` children of an ordered internal node strictly increase,
/// and lie below the separator after child `m - 1`.
pub proof fn lemma_children_sorted(
    cs: Seq<Box<Node>>,
    seps: Seq<Seq<char>>,
    lo: Option<Seq<char>>,
    hi: Option<Seq<char>>,
    m: int,
)
    requires
        children_ordered(cs, seps, lo, hi),
        0 <= m <= cs.len(),
    ensures
        strictly_sorted(entry_keys(children_entries(cs, m))),
        1 <= m <= seps.len() ==> forall|i: int|
            0 <= i < entry_keys(children_entries(cs, m)).len() ==> text_lt(
                #[trigger] entry_keys(children_entries(cs, m))[i],
                seps[m - 1],
            ),
    decreases cs, m,
{
    if m > 0 {
        let c = m - 1;
        lemma_children_sorted(cs, seps, lo, hi, c);
        assert(node_wf(*cs[c]));
        assert(node_ordered(*cs[c], child_lo(seps, c, lo), child_hi(seps, c, hi)));
        lemma_entries_sorted(*cs[c], child_lo(seps, c, lo), child_hi(seps, c, hi));
        lemma_entries_in_range(*cs[c], child_lo(seps, c, lo), child_hi(seps, c, hi));
        lemma_text_order();
        let prefix = children_entries(cs, c);
        let last = node_entries(*cs[c]);
        let ks = entry_keys(prefix + last);
        assert(children_entries(cs, m) == prefix + last);
        assert forall|i: int| 0 <= i < ks.len() implies (i < prefix.len() ==> #[trigger] ks[i]
            == entry_keys(prefix)[i]) && (i >= prefix.len() ==> ks[i] == entry_keys(last)[i
            - prefix.len()]) by {}
        assert forall|i: int, j: int| 0 <= i < j < ks.len() implies text_lt(
            #[trigger] ks[i],
            #[trigger] ks[j],
        ) by {
            if j < prefix.len() {
                assert(text_lt(entry_keys(prefix)[i], entry_keys(prefix)[j]));
            } else if i >= prefix.len() {
                assert(text_lt(
                    entry_keys(last)[i - prefix.len()],
                    entry_keys(last)[j - prefix.len()],
                ));
            } else {
                assert(c >= 1);
                assert(text_lt(entry_keys(prefix)[i], seps[c - 1]));
                assert(in_range(entry_keys(last)[j - prefix.len()], child_lo(seps, c, lo), child_hi(seps, c, hi)));
            }
        }
        if m <= seps.len() {
            assert forall|i: int| 0 <= i < ks.len() implies text_lt(#[trigger] ks[i], seps[m - 1]) by {
                if i < prefix.len() {
                    assert(text_lt(entry_keys(prefix)[i], seps[c - 1]));
                    assert(text_lt(seps[c - 1], seps[c]));
                } else {
                    assert(in_range(entry_keys(last)[i - prefix.len()], child_lo(seps, c, lo), child_hi(seps, c, hi)));
                }
            }
        }
    }
}


/// Below an ordered internal node, looking a key up among the first `m` children finds
/// what looking it up in the child whose range holds the key finds (once that child is
/// among them), and nothing before.
pub proof fn lemma_children_lookup(
    cs: Seq<Box<Node>>,
    seps: Seq<Seq<char>>,
    lo: Option<Seq<char>>,
    hi: Option<Seq<char>>,
    key: Seq<char>,
    j: int,
    m: int,
)
    requires
        children_ordered(cs, seps, lo, hi),
        0 <= j < cs.len(),
        in_range(key, child_lo(seps, j, lo), child_hi(seps, j, hi)),
        0 <= m <= cs.len(),
    ensures
        lookup(children_entries(cs, m), key) == (if m > j {
            lookup(node_entries(*cs[j]), key)
        } else {
            None
        }),
    decreases m,
{
    if m > 0 {
        let c = m - 1;
        lemma_children_lookup(cs, seps, lo, hi, key, j, c);
        let prefix = children_entries(cs, c);
        let last = node_entries(*cs[c]);
        assert(children_entries(cs, m) == prefix + last);
        lemma_lookup_concat(prefix, last, key);
        if c != j {
            assert(node_wf(*cs[c]));
            assert(node_ordered(*cs[c], child_lo(seps, c, lo), child_hi(seps, c, hi)));
            lemma_entries_in_range(*cs[c], child_lo(seps, c, lo), child_hi(seps, c, hi));
            lemma_text_order();
            assert forall|i: int| 0 <= i < last.len() implies (#[trigger] last[i]).0 != key by {
                let k = last[i].0;
                assert(k == entry_keys(last)[i]);
                assert(in_range(k, child_lo(seps, c, lo), child_hi(seps, c, hi)));
                if c < j {
                    assert(text_lt(k, seps[c]));
                    if c < j - 1 {
                        assert(text_lt(seps[c], seps[j - 1]));
                    }
                    assert(text_le(seps[j - 1], key));
                } else {
                    assert(text_le(seps[c - 1], k));
                    if c - 1 > j {
                        assert(text_lt(seps[j], seps[c - 1]));
                    }
                    assert(text_lt(key, seps[j]));
                }
            }
            lemma_lookup_misses(last, key);
        }
    }
}


/// Every entry of child `j` is an entry of the first `m` children, once `j < m`.
pub proof fn lemma_child_entries_within(cs: Seq<Box<Node>>, j: int, m: int, e: Entry)
    requires
        0 <= j < m <= cs.len(),
        node_entries(*cs[j]).contains(e),
    ensures
        children_entries(cs, m).contains(e),
    decreases m,
{
    let prefix = children_entries(cs, m - 1);
    let last = node_entries(*cs[m - 1]);
    assert(children_entries(cs, m) == prefix + last);
    if j < m - 1 {
        lemma_child_entries_within(cs, j, m - 1, e);
        let i = choose|i: int| 0 <= i < prefix.len() && prefix[i] == e;
        assert((prefix + last)[i] == e);
    } else {
        let i = choose|i: int| 0 <= i < last.len() && last[i] == e;
        assert((prefix + last)[prefix.len() + i] == e);
    }
}

pub open spec fn opt_text(r: Option<String>) -> Option<Seq<char>> {
    match r {
        Some(s) => Some(s@),
        None => None,
    }
}

/// Calls `slice::partition_point` with "is at most `key`" as the predicate. As its
/// documentation says, the result is an index into the keys (or their length), and when
/// the keys that satisfy the predicate all come first, it is the number of those keys.
/// On keys that are not so partitioned nothing more is stated.
#[verifier::external_body]
fn partition_le(keys: &Vec<String>, key: &str) -> (r: usize)
    ensures
        r <= keys@.len(),
        (forall|i: int, j: int|
            0 <= i < j < keys@.len() && text_le(#[trigger] keys@[j]@, key@) ==> text_le(
                #[trigger] keys@[i]@,
                key@,
            )) ==> (forall|i: int| 0 <= i < r ==> text_le(#[trigger] keys@[i]@, key@)) && (
        forall|i: int| r <= i < keys@.len() ==> !text_le(#[trigger] keys@[i]@, key@)),
{
    keys.partition_point(|k| text_less_eq(k.as_str(), key))
}

/// Calls `slice::partition_point` with "is less than `key`" as the predicate; what is
/// stated is as for `partition_le`.
#[verifier::external_body]
fn partition_lt(keys: &Vec<String>, key: &str) -> (r: usize)
    ensures
        r <= keys@.len(),
        (forall|i: int, j: int|
            0 <= i < j < keys@.len() && text_lt(#[trigger] keys@[j]@, key@) ==> text_lt(
                #[trigger] keys@[i]@,
                key@,
            )) ==> (forall|i: int| 0 <= i < r ==> text_lt(#[trigger] keys@[i]@, key@)) && (
        forall|i: int| r <= i < keys@.len() ==> !text_lt(#[trigger] keys@[i]@, key@)),
{
    keys.partition_point(|k| text_less(k.as_str(), key))
}

/// In strictly increasing keys, the ones at most `key` come first.
proof fn lemma_sorted_partitioned(keys: Seq<String>, key: Seq<char>)
    requires
        strictly_sorted(texts(keys)),
    ensures
        forall|i: int, j: int|
            0 <= i < j < keys.len() && text_le(#[trigger] keys[j]@, key) ==> text_le(
                #[trigger] keys[i]@,
                key,
            ),
        forall|i: int, j: int|
            0 <= i < j < keys.len() && text_lt(#[trigger] keys[j]@, key) ==> text_lt(
                #[trigger] keys[i]@,
                key,
            ),
{
    lemma_text_order();
    assert forall|i: int, j: int|
        0 <= i < j < keys.len() && text_le(#[trigger] keys[j]@, key) implies text_le(
        #[trigger] keys[i]@,
        key,
    ) by {
        assert(text_lt(texts(keys)[i], texts(keys)[j]));
    }
    assert forall|i: int, j: int|
        0 <= i < j < keys.len() && text_lt(#[trigger] keys[j]@, key) implies text_lt(
        #[trigger] keys[i]@,
        key,
    ) by {
        assert(text_lt(texts(keys)[i], texts(keys)[j]));
    }
}



/// The values of the entries whose keys lie between `lo` and `hi`, both included, in order.
pub open spec fn values_between(es: Seq<Entry>, lo: Seq<char>, hi: Seq<char>) -> Seq<Seq<char>>
    decreases es.len(),
{
    if es.len() == 0 {
        seq![]
    } else {
        let rest = values_between(es.drop_last(), lo, hi);
        if text_le(lo, es.last().0) && text_le(es.last().0, hi) {
            rest.push(es.last().1)
        } else {
            rest
        }
    }
}

/// Filtering by the range distributes over concatenation.
pub proof fn lemma_values_between_concat(a: Seq<Entry>, b: Seq<Entry>, lo: Seq<char>, hi: Seq<char>)
    ensures
        values_between(a + b, lo, hi) == values_between(a, lo, hi) + values_between(b, lo, hi),
    decreases b.len(),
{
    if b.len() == 0 {
        assert(a + b =~= a);
        assert(values_between(a, lo, hi) + values_between(b, lo, hi) =~= values_between(a, lo, hi));
    } else {
        lemma_values_between_concat(a, b.drop_last(), lo, hi);
        assert((a + b).drop_last() =~= a + b.drop_last());
        assert((a + b).last() == b.last());
        let x = values_between(a, lo, hi);
        let y = values_between(b.drop_last(), lo, hi);
        if text_le(lo, b.last().0) && text_le(b.last().0, hi) {
            assert((x + y).push(b.last().1) =~= x + y.push(b.last().1));
        }
    }
}

/// All entries below a sequence of children.
pub open spec fn all_entries(cs: Seq<Box<Node>>) -> Seq<Entry> {
    children_entries(cs, cs.len() as int)
}

pub proof fn lemma_children_entries_prefix(s: Seq<Box<Node>>, t: Seq<Box<Node>>, k: int)
    requires
        0 <= k <= s.len(),
        k <= t.len(),
        forall|i: int| 0 <= i < k ==> s[i] == t[i],
    ensures
        children_entries(s, k) == children_entries(t, k),
    decreases k,
{
    if k > 0 {
        lemma_children_entries_prefix(s, t, k - 1);
    }
}

pub proof fn lemma_all_entries_concat(a: Seq<Box<Node>>, b: Seq<Box<Node>>)
    ensures
        all_entries(a + b) == all_entries(a) + all_entries(b),
{
    lemma_children_entries_concat(a, b, b.len() as int);
}

proof fn lemma_children_entries_concat(a: Seq<Box<Node>>, b: Seq<Box<Node>>, m: int)
    requires
        0 <= m <= b.len(),
    ensures
        children_entries(a + b, a.len() + m) == all_entries(a) + children_entries(b, m),
    decreases m,
{
    if m == 0 {
        lemma_children_entries_prefix(a + b, a, a.len() as int);
        assert(all_entries(a) + children_entries(b, 0) =~= all_entries(a));
    } else {
        lemma_children_entries_concat(a, b, m - 1);
        assert((a + b)[a.len() + m - 1] == b[m - 1]);
        assert(children_entries(a + b, a.len() + m) == children_entries(a + b, a.len() + m - 1)
            + node_entries(*b[m - 1]));
        assert(all_entries(a) + children_entries(b, m - 1) + node_entries(*b[m - 1]) =~= all_entries(
            a,
        ) + (children_entries(b, m - 1) + node_entries(*b[m - 1])));
    }
}

pub proof fn lemma_all_entries_single(c: Box<Node>)
    ensures
        all_entries(seq![c]) == node_entries(*c),
{
    assert(children_entries(seq![c], 0) =~= Seq::<Entry>::empty());
    assert(Seq::<Entry>::empty() + node_entries(*c) =~= node_entries(*c));
}

/// The entries below `cs` are those before child `q`, then child `q`'s, then those after.
pub proof fn lemma_all_entries_split(cs: Seq<Box<Node>>, q: int)
    requires
        0 <= q < cs.len(),
    ensures
        all_entries(cs) == all_entries(cs.take(q)) + node_entries(*cs[q]) + all_entries(cs.skip(q + 1)),
{
    assert(cs =~= cs.take(q) + seq![cs[q]] + cs.skip(q + 1));
    lemma_all_entries_concat(cs.take(q) + seq![cs[q]], cs.skip(q + 1));
    lemma_all_entries_concat(cs.take(q), seq![cs[q]]);
    lemma_all_entries_single(cs[q]);
}


// ---------------------------------------------------------------------------
// Insertion.
// ---------------------------------------------------------------------------

/// The entries of a node after an insertion into it, together with those of the node split
/// off from it (if any).
pub open spec fn split_entries(r: (Box<Node>, Option<(String, Box<Node>)>)) -> Seq<Entry> {
    node_entries(*r.0) + match r.1 {
        Some((_, right)) => node_entries(*right),
        None => Seq::<Entry>::empty(),
    }
}

/// What inserting `(key, value)` into `old` keeps and changes, given the result `r` (the
/// new node, and the separator and right half when it was split): both halves well formed
/// at the old height; the entries are the old ones plus the new one; and, when `old` was
/// ordered within `lo..hi` and did not hold `key` (which lies in that range), the new entry
/// is inserted in place and the halves are ordered on either side of the separator.
/// Number of keys a node holds.
pub open spec fn key_count(n: Node) -> nat {
    match n {
        Node::Leaf(l) => l.keys@.len(),
        Node::Internal(x) => x.keys@.len(),
    }
}

pub open spec fn inserted(
    old: Node,
    key: Seq<char>,
    value: Seq<char>,
    lo: Option<Seq<char>>,
    hi: Option<Seq<char>>,
    r: (Box<Node>, Option<(String, Box<Node>)>),
) -> bool {
    &&& node_wf(*r.0)
    &&& node_height(*r.0) == node_height(old)
    &&& (r.1 matches Some((_, right)) ==> node_wf(*right) && node_height(*right) == node_height(old))
    &&& (r.1 matches Some((_, right)) ==> 1 <= key_count(*r.0) <= 2 && 1 <= key_count(*right) <= 2)
    &&& split_entries(r).to_multiset() == node_entries(old).to_multiset().insert((key, value))
    &&& (node_ordered(old, lo, hi) && in_range(key, lo, hi) && misses(node_entries(old), key)) ==> {
        &&& exists|i: int|
            0 <= i <= node_entries(old).len() && split_entries(r) == node_entries(old).insert(
                i,
                (key, value),
            )
        &&& match r.1 {
            None => node_ordered(*r.0, lo, hi),
            Some((u, right)) => {
                &&& in_range(u@, lo, hi)
                &&& (lo matches Some(l) ==> text_lt(l, u@))
                &&& node_ordered(*r.0, lo, Some(u@))
                &&& node_ordered(*right, Some(u@), hi)
            },
        }
    }
}

fn insert_into_leaf(
    leaf: LeafNode,
    key: String,
    value: String,
    Ghost(lo): Ghost<Option<Seq<char>>>,
    Ghost(hi): Ghost<Option<Seq<char>>>,
) -> (r: (Box<Node>, Option<(String, Box<Node>)>))
    requires
        node_wf(Node::Leaf(leaf)),
    ensures
        inserted(Node::Leaf(leaf), key@, value@, lo, hi, r),
{
    let ghost old_leaf = leaf;
    let ghost es = leaf.entries();
    let ghost kv = (key@, value@);
    let mut leaf = leaf;
    let pos = partition_lt(&leaf.keys, key.as_str());
    leaf.keys.insert(pos, key);
    leaf.values.insert(pos, value);
    let ghost es1 = leaf.entries();
    let ghost k1 = leaf.keys@;
    let ghost fresh = node_ordered(Node::Leaf(old_leaf), lo, hi) && in_range(kv.0, lo, hi) && misses(
        es,
        kv.0,
    );
    assert(es1 =~= es.insert(pos as int, kv));
    proof {
        if node_ordered(Node::Leaf(old_leaf), lo, hi) && in_range(kv.0, lo, hi) && misses(es, kv.0) {
            lemma_text_order();
            lemma_sorted_partitioned(old_leaf.keys@, kv.0);
            assert forall|i: int, j: int| 0 <= i < j < leaf.keys@.len() implies text_lt(
                #[trigger] texts(leaf.keys@)[i],
                #[trigger] texts(leaf.keys@)[j],
            ) by {
                let ok = texts(old_leaf.keys@);
                if j < pos {
                    assert(text_lt(ok[i], ok[j]));
                } else if j == pos {
                    assert(text_lt(old_leaf.keys@[i]@, kv.0));
                } else if i == pos {
                    assert(!text_lt(old_leaf.keys@[j - 1]@, kv.0));
                    assert(es[j - 1].0 != kv.0);
                    assert(es[j - 1].0 == old_leaf.keys@[j - 1]@);
                } else if i < pos {
                    assert(text_lt(ok[i], ok[j - 1]));
                } else {
                    assert(text_lt(ok[i - 1], ok[j - 1]));
                }
            }
            assert forall|i: int| 0 <= i < leaf.keys@.len() implies in_range(
                #[trigger] texts(leaf.keys@)[i],
                lo,
                hi,
            ) by {
                if i < pos {
                    assert(texts(leaf.keys@)[i] == texts(old_leaf.keys@)[i]);
                } else if i > pos {
                    assert(texts(leaf.keys@)[i] == texts(old_leaf.keys@)[i - 1]);
                }
            }
        }
        assert(fresh ==> strictly_sorted(texts(k1)) && all_in_range(texts(k1), lo, hi));
    }
    proof {
        assert(es1.to_multiset() == es.to_multiset().insert(kv)) by {
            broadcast use vstd::seq_lib::to_multiset_insert;
        }
    }
    if leaf.keys.len() >= ORDER {
        let mid = leaf.keys.len() / 2;
        let right_keys = leaf.keys.split_off(mid);
        let right_values = leaf.values.split_off(mid);
        let mid_key = right_keys[0].clone();
        let right_leaf = LeafNode { keys: right_keys, values: right_values, next: leaf.next.take() };
        proof {
            assert(leaf.entries() + right_leaf.entries() =~= es1);
            let all = texts(leaf.keys@) + texts(right_leaf.keys@);
            if fresh {
                lemma_text_order();
                let t1 = texts(k1);
                assert(mid_key@ == t1[mid as int]);
                assert forall|i: int| 0 <= i < leaf.keys@.len() implies in_range(
                    #[trigger] texts(leaf.keys@)[i],
                    lo,
                    Some(mid_key@),
                ) by {
                    assert(texts(leaf.keys@)[i] == t1[i]);
                    assert(text_lt(t1[i], t1[mid as int]));
                }
                assert forall|i: int| 0 <= i < right_leaf.keys@.len() implies in_range(
                    #[trigger] texts(right_leaf.keys@)[i],
                    Some(mid_key@),
                    hi,
                ) by {
                    assert(texts(right_leaf.keys@)[i] == t1[mid + i]);
                    if i > 0 {
                        assert(text_lt(t1[mid as int], t1[mid + i]));
                    }
                }
                assert forall|i: int, j: int| 0 <= i < j < leaf.keys@.len() implies text_lt(
                    #[trigger] texts(leaf.keys@)[i],
                    #[trigger] texts(leaf.keys@)[j],
                ) by {
                    assert(texts(leaf.keys@)[i] == t1[i]);
                    assert(texts(leaf.keys@)[j] == t1[j]);
                }
                assert forall|i: int, j: int| 0 <= i < j < right_leaf.keys@.len() implies text_lt(
                    #[trigger] texts(right_leaf.keys@)[i],
                    #[trigger] texts(right_leaf.keys@)[j],
                ) by {
                    assert(texts(right_leaf.keys@)[i] == t1[mid + i]);
                    assert(texts(right_leaf.keys@)[j] == t1[mid + j]);
                }
                assert(text_lt(t1[0], t1[mid as int]));
                assert(in_range(t1[0], lo, hi));
            }
        }
        let right = Box::new(Node::Leaf(right_leaf));
        (Box::new(Node::Leaf(leaf)), Some((mid_key, right)))
    } else {
        proof {
            assert(es1 + Seq::<Entry>::empty() =~= es1);
        }
        (Box::new(Node::Leaf(leaf)), None)
    }
}


/// An internal node is ordered exactly when its separators and children are.
pub proof fn lemma_internal_ordered(x: InternalNode, lo: Option<Seq<char>>, hi: Option<Seq<char>>)
    requires
        node_wf(Node::Internal(x)),
    ensures
        node_ordered(Node::Internal(x), lo, hi) <==> children_ordered(
            x.children@,
            texts(x.keys@),
            lo,
            hi,
        ),
{
    lemma_children_wf(x.children@, x.children@.len() as int);
    lemma_children_in_order(x.children@, texts(x.keys@), lo, hi, x.children@.len() as int);
}

/// An internal node with these keys and children is well formed when its children are and
/// its sizes and heights fit.
pub proof fn lemma_internal_wf(x: InternalNode)
    requires
        x.children@.len() == x.keys@.len() + 1,
        1 <= x.keys@.len() < ORDER,
        forall|j: int| 0 <= j < x.children@.len() ==> #[trigger] node_wf(*x.children@[j]),
        forall|j: int|
            0 <= j < x.children@.len() ==> #[trigger] node_height(*x.children@[j]) == node_height(
                *x.children@[0],
            ),
    ensures
        node_wf(Node::Internal(x)),
{
    lemma_children_wf(x.children@, x.children@.len() as int);
}

/// Replacing child `idx` by a node ordered within the same range keeps the children ordered.
pub proof fn lemma_replace_child_ordered(
    cs: Seq<Box<Node>>,
    ks: Seq<Seq<char>>,
    lo: Option<Seq<char>>,
    hi: Option<Seq<char>>,
    idx: int,
    c: Box<Node>,
)
    requires
        children_ordered(cs, ks, lo, hi),
        0 <= idx < cs.len(),
        node_wf(*c),
        node_ordered(*c, child_lo(ks, idx, lo), child_hi(ks, idx, hi)),
    ensures
        children_ordered(cs.update(idx, c), ks, lo, hi),
{
    let cs1 = cs.update(idx, c);
    assert forall|j: int| 0 <= j < cs1.len() implies #[trigger] node_wf(*cs1[j]) by {
        if j != idx {
            assert(cs1[j] == cs[j]);
        }
    }
    assert forall|j: int| 0 <= j < cs1.len() implies #[trigger] node_ordered(
        *cs1[j],
        child_lo(ks, j, lo),
        child_hi(ks, j, hi),
    ) by {
        if j != idx {
            assert(cs1[j] == cs[j]);
        }
    }
}

/// Splitting child `idx` into two nodes on either side of a new separator `u`, and
/// inserting `u` among the separators in its place, keeps the children ordered.
pub proof fn lemma_split_child_ordered(
    cs: Seq<Box<Node>>,
    ks: Seq<Seq<char>>,
    lo: Option<Seq<char>>,
    hi: Option<Seq<char>>,
    idx: int,
    left: Box<Node>,
    u: Seq<char>,
    right: Box<Node>,
)
    requires
        children_ordered(cs, ks, lo, hi),
        0 <= idx < cs.len(),
        node_wf(*left),
        node_wf(*right),
        in_range(u, child_lo(ks, idx, lo), child_hi(ks, idx, hi)),
        child_lo(ks, idx, lo) matches Some(l) ==> text_lt(l, u),
        node_ordered(*left, child_lo(ks, idx, lo), Some(u)),
        node_ordered(*right, Some(u), child_hi(ks, idx, hi)),
    ensures
        children_ordered(cs.update(idx, left).insert(idx + 1, right), ks.insert(idx, u), lo, hi),
{
    lemma_text_order();
    let cs2 = cs.update(idx, left).insert(idx + 1, right);
    let ks2 = ks.insert(idx, u);
    assert forall|i: int, j: int| 0 <= i < j < ks2.len() implies text_lt(
        #[trigger] ks2[i],
        #[trigger] ks2[j],
    ) by {
        if j < idx {
            assert(text_lt(ks[i], ks[j]));
        } else if j == idx {
            if i < idx - 1 {
                assert(text_lt(ks[i], ks[idx - 1]));
            }
        } else if i == idx {
            if j > idx + 1 {
                assert(text_lt(ks[idx], ks[j - 1]));
            }
        } else if i < idx {
            assert(text_lt(ks[i], ks[j - 1]));
        } else {
            assert(text_lt(ks[i - 1], ks[j - 1]));
        }
    }
    assert forall|i: int| 0 <= i < ks2.len() implies in_range(#[trigger] ks2[i], lo, hi) by {
        if i < idx {
            assert(ks2[i] == ks[i]);
        } else if i > idx {
            assert(ks2[i] == ks[i - 1]);
        } else {
            if idx > 0 {
                assert(in_range(ks[idx - 1], lo, hi));
            }
            if idx < ks.len() {
                assert(in_range(ks[idx], lo, hi));
            }
        }
    }
    assert forall|j: int| 0 <= j < cs2.len() implies #[trigger] node_wf(*cs2[j]) by {
        if j < idx {
            assert(cs2[j] == cs[j]);
        } else if j > idx + 1 {
            assert(cs2[j] == cs[j - 1]);
        }
    }
    assert forall|j: int| 0 <= j < cs2.len() implies #[trigger] node_ordered(
        *cs2[j],
        child_lo(ks2, j, lo),
        child_hi(ks2, j, hi),
    ) by {
        if j < idx {
            assert(cs2[j] == cs[j]);
            assert(child_lo(ks2, j, lo) == child_lo(ks, j, lo));
            assert(child_hi(ks2, j, hi) == child_hi(ks, j, hi));
        } else if j == idx {
            assert(child_lo(ks2, j, lo) == child_lo(ks, j, lo));
        } else if j == idx + 1 {
            assert(child_hi(ks2, j, hi) == child_hi(ks, idx, hi));
        } else {
            assert(cs2[j] == cs[j - 1]);
            assert(child_lo(ks2, j, lo) == child_lo(ks, j - 1, lo));
            assert(child_hi(ks2, j, hi) == child_hi(ks, j - 1, hi));
        }
    }
}

/// Splitting the children of a full node at the middle separator gives two ordered halves
/// on either side of it.
pub proof fn lemma_split_node_ordered(
    cs: Seq<Box<Node>>,
    ks: Seq<Seq<char>>,
    lo: Option<Seq<char>>,
    hi: Option<Seq<char>>,
    mid: int,
)
    requires
        children_ordered(cs, ks, lo, hi),
        0 <= mid < ks.len(),
    ensures
        children_ordered(cs.take(mid + 1), ks.take(mid), lo, Some(ks[mid])),
        children_ordered(cs.skip(mid + 1), ks.skip(mid + 1), Some(ks[mid]), hi),
        in_range(ks[mid], lo, hi),
        mid > 0 ==> (lo matches Some(l) ==> text_lt(l, ks[mid])),
{
    lemma_text_order();
    let lcs = cs.take(mid + 1);
    let lks = ks.take(mid);
    let rcs = cs.skip(mid + 1);
    let rks = ks.skip(mid + 1);
    let u = ks[mid];
    assert forall|i: int, j: int| 0 <= i < j < lks.len() implies text_lt(
        #[trigger] lks[i],
        #[trigger] lks[j],
    ) by {
        assert(text_lt(ks[i], ks[j]));
    }
    assert forall|i: int| 0 <= i < lks.len() implies in_range(#[trigger] lks[i], lo, Some(u)) by {
        assert(in_range(ks[i], lo, hi));
        assert(text_lt(ks[i], ks[mid]));
    }
    assert forall|j: int| 0 <= j < lcs.len() implies #[trigger] node_wf(*lcs[j]) by {
        assert(lcs[j] == cs[j]);
    }
    assert forall|j: int| 0 <= j < lcs.len() implies #[trigger] node_ordered(
        *lcs[j],
        child_lo(lks, j, lo),
        child_hi(lks, j, Some(u)),
    ) by {
        assert(lcs[j] == cs[j]);
        assert(child_lo(lks, j, lo) == child_lo(ks, j, lo));
        assert(child_hi(lks, j, Some(u)) == child_hi(ks, j, hi));
    }
    assert forall|i: int, j: int| 0 <= i < j < rks.len() implies text_lt(
        #[trigger] rks[i],
        #[trigger] rks[j],
    ) by {
        assert(text_lt(ks[mid + 1 + i], ks[mid + 1 + j]));
    }
    assert forall|i: int| 0 <= i < rks.len() implies in_range(#[trigger] rks[i], Some(u), hi) by {
        assert(in_range(ks[mid + 1 + i], lo, hi));
        assert(text_lt(ks[mid], ks[mid + 1 + i]));
    }
    assert forall|j: int| 0 <= j < rcs.len() implies #[trigger] node_wf(*rcs[j]) by {
        assert(rcs[j] == cs[mid + 1 + j]);
    }
    assert forall|j: int| 0 <= j < rcs.len() implies #[trigger] node_ordered(
        *rcs[j],
        child_lo(rks, j, Some(u)),
        child_hi(rks, j, hi),
    ) by {
        assert(rcs[j] == cs[mid + 1 + j]);
        assert(child_lo(rks, j, Some(u)) == child_lo(ks, mid + 1 + j, lo));
        assert(child_hi(rks, j, hi) == child_hi(ks, mid + 1 + j, hi));
    }
    assert(in_range(ks[mid], lo, hi));
    if mid > 0 {
        assert(in_range(ks[0], lo, hi));
        assert(text_lt(ks[0], ks[mid]));
    }
}



proof fn lemma_ms_concat3(a: Seq<Entry>, e: Seq<Entry>, b: Seq<Entry>)
    ensures
        (a + e + b).to_multiset() == a.to_multiset().add(e.to_multiset()).add(b.to_multiset()),
{
    vstd::seq_lib::lemma_multiset_commutative(a + e, b);
    vstd::seq_lib::lemma_multiset_commutative(a, e);
}

/// Replacing child `idx` by a node holding one more entry adds that entry below `cs`.
proof fn lemma_update_child_entries(cs: Seq<Box<Node>>, idx: int, c: Box<Node>, kv: Entry)
    requires
        0 <= idx < cs.len(),
        node_entries(*c).to_multiset() == node_entries(*cs[idx]).to_multiset().insert(kv),
    ensures
        all_entries(cs.update(idx, c)).to_multiset() == all_entries(cs).to_multiset().insert(kv),
        all_entries(cs.update(idx, c)) == all_entries(cs.take(idx)) + node_entries(*c)
            + all_entries(cs.skip(idx + 1)),
{
    let cs1 = cs.update(idx, c);
    let a = all_entries(cs.take(idx));
    let b = all_entries(cs.skip(idx + 1));
    lemma_all_entries_split(cs, idx);
    assert(cs1.take(idx) =~= cs.take(idx));
    assert(cs1.skip(idx + 1) =~= cs.skip(idx + 1));
    lemma_all_entries_split(cs1, idx);
    lemma_ms_concat3(a, node_entries(*cs[idx]), b);
    lemma_ms_concat3(a, node_entries(*c), b);
    assert(all_entries(cs1).to_multiset() =~= all_entries(cs).to_multiset().insert(kv));
}

/// Inserting a child adds its entries below `cs`.
proof fn lemma_insert_child_entries(cs: Seq<Box<Node>>, q: int, c: Box<Node>)
    requires
        0 <= q <= cs.len(),
    ensures
        all_entries(cs.insert(q, c)).to_multiset() == all_entries(cs).to_multiset().add(
            node_entries(*c).to_multiset(),
        ),
{
    let a = all_entries(cs.take(q));
    let b = all_entries(cs.skip(q));
    assert(cs.insert(q, c) =~= cs.take(q) + seq![c] + cs.skip(q));
    lemma_all_entries_concat(cs.take(q) + seq![c], cs.skip(q));
    lemma_all_entries_concat(cs.take(q), seq![c]);
    lemma_all_entries_single(c);
    assert(cs =~= cs.take(q) + cs.skip(q));
    lemma_all_entries_concat(cs.take(q), cs.skip(q));
    lemma_ms_concat3(a, node_entries(*c), b);
    vstd::seq_lib::lemma_multiset_commutative(a, b);
    assert(all_entries(cs.insert(q, c)).to_multiset() =~= all_entries(cs).to_multiset().add(
        node_entries(*c).to_multiset(),
    ));
}

/// Replacing child `idx` by two nodes lays out their entries in its place.
proof fn lemma_split_child_entries(cs: Seq<Box<Node>>, idx: int, l: Box<Node>, r: Box<Node>)
    requires
        0 <= idx < cs.len(),
    ensures
        all_entries(cs.update(idx, l).insert(idx + 1, r)) == all_entries(cs.take(idx)) + (
        node_entries(*l) + node_entries(*r)) + all_entries(cs.skip(idx + 1)),
{
    let cs2 = cs.update(idx, l).insert(idx + 1, r);
    assert(cs2 =~= cs.take(idx) + seq![l, r] + cs.skip(idx + 1));
    assert(seq![l, r] =~= seq![l] + seq![r]);
    lemma_all_entries_concat(cs.take(idx) + seq![l, r], cs.skip(idx + 1));
    lemma_all_entries_concat(cs.take(idx), seq![l, r]);
    lemma_all_entries_concat(seq![l], seq![r]);
    lemma_all_entries_single(l);
    lemma_all_entries_single(r);
}

/// Splits a full internal node at its middle separator: the left half keeps the keys and
/// children before it, the right half those after it.
fn split_internal(internal: InternalNode, Ghost(lo): Ghost<Option<Seq<char>>>, Ghost(hi): Ghost<Option<Seq<char>>>) -> (r: (InternalNode, String, InternalNode))
    requires
        internal.keys@.len() == ORDER,
        internal.children@.len() == ORDER + 1,
        forall|j: int| 0 <= j < internal.children@.len() ==> #[trigger] node_wf(*internal.children@[j]),
        forall|j: int|
            0 <= j < internal.children@.len() ==> #[trigger] node_height(*internal.children@[j])
                == node_height(*internal.children@[0]),
    ensures
        node_wf(Node::Internal(r.0)),
        node_wf(Node::Internal(r.2)),
        node_height(Node::Internal(r.0)) == node_height(Node::Internal(internal)),
        node_height(Node::Internal(r.2)) == node_height(Node::Internal(internal)),
        r.0.keys@.len() == 2,
        r.2.keys@.len() == 1,
        all_entries(r.0.children@) + all_entries(r.2.children@) == all_entries(internal.children@),
        children_ordered(internal.children@, texts(internal.keys@), lo, hi) ==> {
            &&& node_ordered(Node::Internal(r.0), lo, Some(r.1@))
            &&& node_ordered(Node::Internal(r.2), Some(r.1@), hi)
            &&& in_range(r.1@, lo, hi)
            &&& (lo matches Some(l) ==> text_lt(l, r.1@))
        },
{
    let ghost cs2 = internal.children@;
    let ghost ks2 = texts(internal.keys@);
    let mut internal = internal;
    let mid = internal.keys.len() / 2;
    let up_key = internal.keys[mid].clone();
    let right_keys = internal.keys.split_off(mid + 1);
    internal.keys.pop();
    let right_children = internal.children.split_off(mid + 1);
    let right_node = InternalNode { keys: right_keys, children: right_children };
    proof {
        assert(texts(internal.keys@) =~= ks2.take(mid as int));
        assert(texts(right_node.keys@) =~= ks2.skip(mid + 1));
        assert(internal.children@ =~= cs2.take(mid + 1));
        assert(right_node.children@ =~= cs2.skip(mid + 1));
        assert(up_key@ == ks2[mid as int]);
        assert(cs2 =~= cs2.take(mid + 1) + cs2.skip(mid + 1));
        lemma_all_entries_concat(cs2.take(mid + 1), cs2.skip(mid + 1));
        assert forall|j: int| 0 <= j < internal.children@.len() implies #[trigger] node_wf(
            *internal.children@[j],
        ) by {
            assert(internal.children@[j] == cs2[j]);
        }
        assert forall|j: int| 0 <= j < internal.children@.len() implies #[trigger] node_height(
            *internal.children@[j],
        ) == node_height(*internal.children@[0]) by {
            assert(internal.children@[j] == cs2[j]);
        }
        assert forall|j: int| 0 <= j < right_node.children@.len() implies #[trigger] node_wf(
            *right_node.children@[j],
        ) by {
            assert(right_node.children@[j] == cs2[mid + 1 + j]);
        }
        assert forall|j: int| 0 <= j < right_node.children@.len() implies #[trigger] node_height(
            *right_node.children@[j],
        ) == node_height(*right_node.children@[0]) by {
            assert(right_node.children@[j] == cs2[mid + 1 + j]);
            assert(right_node.children@[0] == cs2[mid + 1]);
        }
        lemma_internal_wf(internal);
        lemma_internal_wf(right_node);
        assert(internal.children@[0] == cs2[0]);
        assert(right_node.children@[0] == cs2[mid + 1]);
        assert(node_height(*cs2[mid + 1]) == node_height(*cs2[0]));
        if children_ordered(cs2, ks2, lo, hi) {
            lemma_split_node_ordered(cs2, ks2, lo, hi, mid as int);
            lemma_internal_ordered(internal, lo, Some(up_key@));
            lemma_internal_ordered(right_node, Some(up_key@), hi);
        }
    }
    (internal, up_key, right_node)
}



/// Replacing child `idx` by a node and inserting another child anywhere after the first
/// `q`, when the two hold the replaced child's entries and one more, adds that entry.
proof fn lemma_split_child_ms(
    cs: Seq<Box<Node>>,
    idx: int,
    l: Box<Node>,
    q: int,
    r: Box<Node>,
    kv: Entry,
)
    requires
        0 <= idx < cs.len(),
        0 <= q <= cs.len(),
        (node_entries(*l) + node_entries(*r)).to_multiset() == node_entries(*cs[idx]).to_multiset().insert(kv),
    ensures
        all_entries(cs.update(idx, l).insert(q, r)).to_multiset() == all_entries(cs).to_multiset().insert(kv),
{
    let cs1 = cs.update(idx, l);
    let a = all_entries(cs.take(idx));
    let b = all_entries(cs.skip(idx + 1));
    let e_old = node_entries(*cs[idx]);
    let e_new = node_entries(*l);
    let e_right = node_entries(*r);
    lemma_all_entries_split(cs, idx);
    lemma_all_entries_split(cs1, idx);
    assert(cs1.take(idx) =~= cs.take(idx));
    assert(cs1.skip(idx + 1) =~= cs.skip(idx + 1));
    lemma_ms_concat3(a, e_new, b);
    lemma_ms_concat3(a, e_old, b);
    vstd::seq_lib::lemma_multiset_commutative(e_new, e_right);
    lemma_insert_child_entries(cs1, q, r);
    let ma = a.to_multiset();
    let mb = b.to_multiset();
    let me = e_old.to_multiset();
    let mn = e_new.to_multiset();
    let mr = e_right.to_multiset();
    let lhs = all_entries(cs1.insert(q, r)).to_multiset();
    let rhs = all_entries(cs).to_multiset().insert(kv);
    assert(lhs == ma.add(mn).add(mb).add(mr));
    assert(rhs == ma.add(me).add(mb).insert(kv));
    assert(mn.add(mr) == me.insert(kv));
    assert(lhs =~= rhs) by {
        broadcast use vstd::multiset::group_multiset_axioms;
        assert forall|x: Entry| lhs.count(x) == rhs.count(x) by {
            assert(mn.add(mr).count(x) == me.insert(kv).count(x));
        }
    }
}


/// Facts shared by the steps that put an insertion's result back into internal node `old`
/// at child `idx`.
pub open spec fn attach_pre(
    old: InternalNode,
    idx: int,
    key: Seq<char>,
    value: Seq<char>,
    lo: Option<Seq<char>>,
    hi: Option<Seq<char>>,
    r: (Box<Node>, Option<(String, Box<Node>)>),
) -> bool {
    &&& node_wf(Node::Internal(old))
    &&& 0 <= idx < old.children@.len()
    &&& inserted(
        *old.children@[idx],
        key,
        value,
        child_lo(texts(old.keys@), idx, lo),
        child_hi(texts(old.keys@), idx, hi),
        r,
    )
    &&& node_ordered(Node::Internal(old), lo, hi) && in_range(key, lo, hi) ==> in_range(
        key,
        child_lo(texts(old.keys@), idx, lo),
        child_hi(texts(old.keys@), idx, hi),
    )
}

/// Puts the node that an insertion into child `idx` gave back in that child's place, and
/// the half split off from it (if any) after it, splitting this node in turn when it is
/// full.
fn attach_into_internal(
    internal: InternalNode,
    idx: usize,
    new_child: Box<Node>,
    split: Option<(String, Box<Node>)>,
    Ghost(old): Ghost<InternalNode>,
    Ghost(key): Ghost<Seq<char>>,
    Ghost(value): Ghost<Seq<char>>,
    Ghost(lo): Ghost<Option<Seq<char>>>,
    Ghost(hi): Ghost<Option<Seq<char>>>,
) -> (r: (Box<Node>, Option<(String, Box<Node>)>))
    requires
        attach_pre(old, idx as int, key, value, lo, hi, (new_child, split)),
        internal.keys@ == old.keys@,
        internal.children@ == old.children@.remove(idx as int),
    ensures
        inserted(Node::Internal(old), key, value, lo, hi, r),
{
    let ghost cs = old.children@;
    let ghost nc = new_child;
    let mut internal = internal;
    internal.children.insert(idx, new_child);
    assert(internal.children@ =~= cs.update(idx as int, nc));
    match split {
        None => {
            proof {
                let ks = texts(old.keys@);
                let kv = (key, value);
                let e_old = node_entries(*cs[idx as int]);
                let a = all_entries(cs.take(idx as int));
                let b = all_entries(cs.skip(idx + 1));
                let cs1 = internal.children@;
                lemma_children_wf(cs, cs.len() as int);
                lemma_all_entries_split(cs, idx as int);
                assert(split_entries((nc, split)) =~= node_entries(*nc));
                lemma_update_child_entries(cs, idx as int, nc, kv);
                assert forall|j: int| 0 <= j < cs1.len() implies #[trigger] node_wf(*cs1[j]) by {
                    if j != idx {
                        assert(cs1[j] == cs[j]);
                    }
                }
                assert forall|j: int| 0 <= j < cs1.len() implies #[trigger] node_height(*cs1[j])
                    == node_height(*cs1[0]) by {
                    if j != idx {
                        assert(cs1[j] == cs[j]);
                    }
                    if idx != 0 {
                        assert(cs1[0] == cs[0]);
                    }
                }
                lemma_internal_wf(internal);
                if node_ordered(Node::Internal(old), lo, hi) && in_range(key, lo, hi) && misses(
                    node_entries(Node::Internal(old)),
                    key,
                ) {
                    lemma_internal_ordered(old, lo, hi);
                    assert forall|j: int| 0 <= j < e_old.len() implies (#[trigger] e_old[j]).0 != key by {
                        assert(e_old[j] == (a + e_old + b)[a.len() + j]);
                    }
                    let i = choose|i: int|
                        0 <= i <= e_old.len() && split_entries((nc, split)) == e_old.insert(i, kv);
                    assert(a + e_old.insert(i, kv) + b =~= (a + e_old + b).insert(a.len() + i, kv));
                    lemma_replace_child_ordered(cs, ks, lo, hi, idx as int, nc);
                    lemma_internal_ordered(internal, lo, hi);
                }
                assert(split_entries((Box::new(Node::Internal(internal)), None)) =~= all_entries(cs1));
            }
            (Box::new(Node::Internal(internal)), None)
        },
        Some((split_key, right_child)) => attach_split(
            internal,
            idx,
            split_key,
            right_child,
            Ghost(old),
            Ghost(nc),
            Ghost(key),
            Ghost(value),
            Ghost(lo),
            Ghost(hi),
        ),
    }
}

/// The case of `attach_into_internal` where the child was split: the separator and the
/// right half go in after the child, and this node splits in turn when it is full.
#[verifier::rlimit(40)]
fn attach_split(
    internal: InternalNode,
    idx: usize,
    split_key: String,
    right_child: Box<Node>,
    Ghost(old): Ghost<InternalNode>,
    Ghost(nc): Ghost<Box<Node>>,
    Ghost(key): Ghost<Seq<char>>,
    Ghost(value): Ghost<Seq<char>>,
    Ghost(lo): Ghost<Option<Seq<char>>>,
    Ghost(hi): Ghost<Option<Seq<char>>>,
) -> (r: (Box<Node>, Option<(String, Box<Node>)>))
    requires
        attach_pre(old, idx as int, key, value, lo, hi, (nc, Some((split_key, right_child)))),
        internal.keys@ == old.keys@,
        internal.children@ == old.children@.update(idx as int, nc),
    ensures
        inserted(Node::Internal(old), key, value, lo, hi, r),
{
    let ghost cs = old.children@;
    let ghost ks = texts(old.keys@);
    let ghost kv = (key, value);
    let ghost cs1 = internal.children@;
    let ghost u = split_key@;
    let ghost rc = right_child;
    let ghost e_old = node_entries(*cs[idx as int]);
    let ghost e_new = node_entries(*nc);
    let ghost e_right = node_entries(*right_child);
    let ghost a = all_entries(cs.take(idx as int));
    let ghost b = all_entries(cs.skip(idx + 1));
    let ghost fresh = node_ordered(Node::Internal(old), lo, hi) && in_range(key, lo, hi) && misses(
        node_entries(Node::Internal(old)),
        key,
    );
    let mut internal = internal;
    let pos = partition_lt(&internal.keys, split_key.as_str());
    proof {
        lemma_children_wf(cs, cs.len() as int);
        if fresh {
            lemma_internal_ordered(old, lo, hi);
            lemma_all_entries_split(cs, idx as int);
            assert forall|j: int| 0 <= j < e_old.len() implies (#[trigger] e_old[j]).0 != key by {
                assert(e_old[j] == (a + e_old + b)[a.len() + j]);
            }
            assert(node_ordered(*cs[idx as int], child_lo(ks, idx as int, lo), child_hi(ks, idx as int, hi)));
            lemma_sorted_partitioned(old.keys@, u);
            lemma_text_order();
            if idx > 0 {
                assert(ks[idx - 1] == old.keys@[idx - 1]@);
                assert(text_lt(old.keys@[idx - 1]@, u));
            }
            if idx < ks.len() {
                assert(ks[idx as int] == old.keys@[idx as int]@);
                assert(!text_lt(old.keys@[idx as int]@, u));
            }
            assert(pos == idx);
        }
    }
    internal.keys.insert(pos, split_key);
    internal.children.insert(pos + 1, right_child);
    let ghost cs2 = internal.children@;
    let ghost ks2 = texts(internal.keys@);
    proof {
        assert(cs2 =~= cs.update(idx as int, nc).insert(pos + 1, rc));
        assert(split_entries((nc, Some((split_key, rc)))) == e_new + e_right);
        lemma_split_child_ms(cs, idx as int, nc, pos + 1, rc, kv);
        assert forall|j: int| 0 <= j < cs2.len() implies #[trigger] node_wf(*cs2[j]) by {
            if j < pos + 1 {
                assert(cs2[j] == cs1[j]);
                if j != idx {
                    assert(cs1[j] == cs[j]);
                }
            } else if j > pos + 1 {
                assert(cs2[j] == cs1[j - 1]);
                if j - 1 != idx {
                    assert(cs1[j - 1] == cs[j - 1]);
                }
            }
        }
        assert forall|j: int| 0 <= j < cs2.len() implies #[trigger] node_height(*cs2[j])
            == node_height(*cs[0]) by {
            if j < pos + 1 {
                assert(cs2[j] == cs1[j]);
                if j != idx {
                    assert(cs1[j] == cs[j]);
                }
            } else if j > pos + 1 {
                assert(cs2[j] == cs1[j - 1]);
                if j - 1 != idx {
                    assert(cs1[j - 1] == cs[j - 1]);
                }
            }
        }
        assert(ks2 =~= ks.insert(pos as int, u));
        if fresh {
            lemma_all_entries_split(cs, idx as int);
            assert forall|j: int| 0 <= j < e_old.len() implies (#[trigger] e_old[j]).0 != key by {
                assert(e_old[j] == (a + e_old + b)[a.len() + j]);
            }
            let i = choose|i: int|
                0 <= i <= e_old.len() && split_entries((nc, Some((split_key, rc)))) == e_old.insert(i, kv);
            lemma_split_child_ordered(cs, ks, lo, hi, idx as int, nc, u, rc);
            lemma_split_child_entries(cs, idx as int, nc, rc);
            assert(a + (e_new + e_right) + b =~= (a + e_old + b).insert(a.len() + i, kv));
        }
    }
    if internal.keys.len() >= ORDER {
        let (left_node, up_key, right_node) = split_internal(internal, Ghost(lo), Ghost(hi));
        proof {
            assert(cs2[0] == cs[0] || cs2[0] == nc);
            assert(key_count(Node::Internal(left_node)) == 2);
            assert(key_count(Node::Internal(right_node)) == 1);
        }
        (Box::new(Node::Internal(left_node)), Some((up_key, Box::new(Node::Internal(right_node)))))
    } else {
        proof {
            lemma_internal_wf(internal);
            assert(cs2[0] == cs[0] || cs2[0] == nc);
            if fresh {
                lemma_internal_ordered(internal, lo, hi);
            }
            assert(split_entries((Box::new(Node::Internal(internal)), None)) =~= all_entries(cs2));
        }
        (Box::new(Node::Internal(internal)), None)
    }
}



/// A B+ tree from text keys to text values.
pub struct BPlusTree {
    root: Option<Box<Node>>,
}

impl View for BPlusTree {
    type V = Seq<Entry>;

    /// The entries of the tree, leaf by leaf from left to right.
    closed spec fn view(&self) -> Seq<Entry> {
        match self.root {
            Some(r) => node_entries(*r),
            None => Seq::empty(),
        }
    }
}

impl BPlusTree {
    #[verifier::type_invariant]
    closed spec fn wf(self) -> bool {
        match self.root {
            Some(r) => node_wf(*r),
            None => true,
        }
    }

    /// The tree keeps the search-tree order (it does while no key was inserted twice).
    pub closed spec fn is_ordered(&self) -> bool {
        match self.root {
            Some(r) => node_wf(*r) && node_ordered(*r, None, None),
            None => true,
        }
    }


    pub fn new() -> (t: Self)
        ensures
            t@ == Seq::<Entry>::empty(),
            t.is_ordered(),
    {
        BPlusTree { root: None }
    }

    /// The value stored under `key`: found in the leaf that the search reaches. Whatever it
    /// returns is an entry of the tree; in an ordered tree it is the entry with that key,
    /// if there is one.
    pub fn search(&self, key: &str) -> (r: Option<String>)
        ensures
            r matches Some(v) ==> self@.contains((key@, v@)),
            self.is_ordered() ==> opt_text(r) == lookup(self@, key@),
    {
        proof {
            use_type_invariant(self);
        }
        match &self.root {
            None => None,
            Some(node) => Self::search_node(node, key, Ghost(None), Ghost(None)),
        }
    }

    /// The values of the entries whose keys lie between `start` and `end`, both included, in
    /// the order of the entries (key order, in an ordered tree).
    pub fn range_search(&self, start: &str, end: &str) -> (r: Vec<String>)
        ensures
            texts(r@) == values_between(self@, start@, end@),
    {
        proof {
            use_type_invariant(self);
        }
        let mut result: Vec<String> = Vec::new();
        match &self.root {
            None => {},
            Some(node) => Self::collect_range(node, start, end, &mut result),
        }
        proof {
            assert(texts(Seq::<String>::empty()) =~= Seq::<Seq<char>>::empty());
            assert(texts(result@) =~= values_between(self@, start@, end@));
        }
        result
    }

    /// The values of all entries, leaf by leaf from left to right.
    pub fn all_values(&self) -> (r: Vec<String>)
        ensures
            texts(r@) == entry_values(self@),
    {
        proof {
            use_type_invariant(self);
        }
        let mut result: Vec<String> = Vec::new();
        match &self.root {
            None => {},
            Some(node) => Self::collect_all(node, &mut result),
        }
        proof {
            assert(texts(Seq::<String>::empty()) =~= Seq::<Seq<char>>::empty());
            assert(texts(result@) =~= entry_values(self@));
        }
        result
    }

    /// Inserts the entry; a key already present is inserted again beside the old one.
    pub fn insert(&mut self, key: String, value: String)
        ensures
            final(self)@.to_multiset() == old(self)@.to_multiset().insert((key@, value@)),
            old(self).is_ordered() && misses(old(self)@, key@) ==> {
                &&& final(self).is_ordered()
                &&& exists|i: int|
                    0 <= i <= old(self)@.len() && final(self)@ == old(self)@.insert(i, (key@, value@))
            },
    {
        proof {
            use_type_invariant(&*self);
        }
        if self.root.is_none() {
            let ghost kv = (key@, value@);
            let leaf = LeafNode { keys: vec![key], values: vec![value], next: None };
            proof {
                assert(leaf.entries() =~= seq![kv]);
                assert(seq![kv] =~= Seq::<Entry>::empty().insert(0, kv));
                assert(seq![kv] =~= Seq::<Entry>::empty().push(kv));
                broadcast use vstd::seq_lib::to_multiset_build;
                lemma_text_order();
            }
            self.root = Some(Box::new(Node::Leaf(leaf)));
            return;
        }
        let mut taken: Option<Box<Node>> = None;
        std::mem::swap(&mut taken, &mut self.root);
        let root = taken.unwrap();
        let ghost old_root = *root;
        let (new_root, split) = Self::insert_node(root, key, value, Ghost(None), Ghost(None));
        match split {
            None => {
                self.root = Some(new_root);
                proof {
                    assert(split_entries((new_root, None)) =~= node_entries(*new_root));
                }
            },
            Some((mid_key, right_node)) => {
                let ghost r0 = new_root;
                let ghost r1 = right_node;
                let ghost u = mid_key@;
                let top = InternalNode { keys: vec![mid_key], children: vec![new_root, right_node] };
                proof {
                    assert(top.children@ =~= seq![r0, r1]);
                    assert(top.children@ =~= seq![r0] + seq![r1]);
                    lemma_all_entries_concat(seq![r0], seq![r1]);
                    lemma_all_entries_single(r0);
                    lemma_all_entries_single(r1);
                    assert forall|j: int| 0 <= j < top.children@.len() implies #[trigger] node_wf(
                        *top.children@[j],
                    ) by {
                        if j == 0 {
                            assert(top.children@[j] == r0);
                        } else {
                            assert(top.children@[j] == r1);
                        }
                    }
                    assert forall|j: int| 0 <= j < top.children@.len() implies #[trigger] node_height(
                        *top.children@[j],
                    ) == node_height(*top.children@[0]) by {
                        if j == 0 {
                            assert(top.children@[j] == r0);
                        } else {
                            assert(top.children@[j] == r1);
                        }
                    }
                    lemma_internal_wf(top);
                    if node_ordered(old_root, None, None) && misses(node_entries(old_root), key@) {
                        assert(texts(top.keys@) =~= seq![u]);
                        assert forall|i: int, j: int| 0 <= i < j < texts(top.keys@).len() implies text_lt(
                            #[trigger] texts(top.keys@)[i],
                            #[trigger] texts(top.keys@)[j],
                        ) by {}
                        assert(children_ordered(top.children@, texts(top.keys@), None, None)) by {
                            assert(top.children@[0] == r0);
                            assert(top.children@[1] == r1);
                        }
                        lemma_internal_ordered(top, None, None);
                    }
                }
                self.root = Some(Box::new(Node::Internal(top)));
            },
        }
    }

    fn search_node(node: &Node, key: &str, Ghost(lo): Ghost<Option<Seq<char>>>, Ghost(hi): Ghost<Option<Seq<char>>>) -> (r: Option<String>)
        requires
            node_wf(*node),
        ensures
            r matches Some(v) ==> node_entries(*node).contains((key@, v@)),
            node_ordered(*node, lo, hi) && in_range(key@, lo, hi) ==> opt_text(r) == lookup(
                node_entries(*node),
                key@,
            ),
        decreases node,
    {
        match node {
            Node::Leaf(leaf) => {
                let ghost es = leaf.entries();
                let mut i: usize = 0;
                while i < leaf.keys.len()
                    invariant
                        node_wf(*node),
                        *node == Node::Leaf(*leaf),
                        es == leaf.entries(),
                        i <= leaf.keys@.len(),
                        forall|j: int| 0 <= j < i ==> (#[trigger] es[j]).0 != key@,
                    decreases leaf.keys@.len() - i,
                {
                    if same_text(leaf.keys[i].as_str(), key) {
                        proof {
                            lemma_lookup_first(es, key@, i as int);
                            assert(es[i as int] == (key@, leaf.values@[i as int]@));
                        }
                        return Some(leaf.values[i].clone());
                    }
                    i = i + 1;
                }
                proof {
                    lemma_lookup_first(es, key@, i as int);
                }
                None
            },
            Node::Internal(internal) => {
                let ghost cs = internal.children@;
                let ghost seps = texts(internal.keys@);
                proof {
                    lemma_children_wf(cs, cs.len() as int);
                }
                let p = partition_le(&internal.keys, key);
                let last = internal.children.len() - 1;
                let idx = if p < last { p } else { last };
                let child: &Node = &internal.children[idx];
                let ghost clo = child_lo(seps, idx as int, lo);
                let ghost chi = child_hi(seps, idx as int, hi);
                let r = Self::search_node(child, key, Ghost(clo), Ghost(chi));
                proof {
                    if r is Some {
                        lemma_child_entries_within(cs, idx as int, cs.len() as int, (key@, r->0@));
                    }
                    if node_ordered(*node, lo, hi) && in_range(key@, lo, hi) {
                        lemma_children_in_order(cs, seps, lo, hi, cs.len() as int);
                        lemma_sorted_partitioned(internal.keys@, key@);
                        lemma_text_order();
                        assert(idx == p);
                        if idx > 0 {
                            assert(text_le(internal.keys@[idx - 1]@, key@));
                            assert(seps[idx - 1] == internal.keys@[idx - 1]@);
                        }
                        if idx < seps.len() {
                            assert(!text_le(internal.keys@[idx as int]@, key@));
                            assert(seps[idx as int] == internal.keys@[idx as int]@);
                        }
                        assert(in_range(key@, clo, chi));
                        lemma_children_lookup(cs, seps, lo, hi, key@, idx as int, cs.len() as int);
                    }
                }
                r
            },
        }
    }

    /// Inserts the entry below `node`; gives back the node and, when it had to split, the
    /// separator and the node split off to its right.
    fn insert_node(
        node: Box<Node>,
        key: String,
        value: String,
        Ghost(lo): Ghost<Option<Seq<char>>>,
        Ghost(hi): Ghost<Option<Seq<char>>>,
    ) -> (r: (Box<Node>, Option<(String, Box<Node>)>))
        requires
            node_wf(*node),
        ensures
            inserted(*node, key@, value@, lo, hi, r),
        decreases *node,
    {
        let ghost n = *node;
        match *node {
            Node::Leaf(leaf) => insert_into_leaf(leaf, key, value, Ghost(lo), Ghost(hi)),
            Node::Internal(internal) => {
                let ghost old = internal;
                let ghost k = key@;
                let ghost v = value@;
                let ghost ks = texts(old.keys@);
                let mut internal = internal;
                let p = partition_le(&internal.keys, key.as_str());
                let last = internal.children.len() - 1;
                let idx = if p < last { p } else { last };
                let ghost clo = child_lo(ks, idx as int, lo);
                let ghost chi = child_hi(ks, idx as int, hi);
                proof {
                    lemma_children_wf(old.children@, old.children@.len() as int);
                    if node_ordered(n, lo, hi) && in_range(k, lo, hi) {
                        lemma_internal_ordered(old, lo, hi);
                        lemma_sorted_partitioned(old.keys@, k);
                        lemma_text_order();
                        assert(idx == p);
                        if idx > 0 {
                            assert(text_le(old.keys@[idx - 1]@, k));
                            assert(ks[idx - 1] == old.keys@[idx - 1]@);
                        }
                        if idx < ks.len() {
                            assert(!text_le(old.keys@[idx as int]@, k));
                            assert(ks[idx as int] == old.keys@[idx as int]@);
                        }
                    }
                }
                let child = internal.children.remove(idx);
                assert(child == old.children@[idx as int]);
                let (new_child, split) = Self::insert_node(child, key, value, Ghost(clo), Ghost(chi));
                attach_into_internal(
                    internal,
                    idx,
                    new_child,
                    split,
                    Ghost(old),
                    Ghost(k),
                    Ghost(v),
                    Ghost(lo),
                    Ghost(hi),
                )
            },
        }
    }

    /// The values of the entries below `node` whose keys lie between `start` and `end`,
    /// appended to `result` leaf by leaf.
    fn collect_range(node: &Node, start: &str, end: &str, result: &mut Vec<String>)
        requires
            node_wf(*node),
        ensures
            texts(final(result)@) == texts(old(result)@) + values_between(node_entries(*node), start@, end@),
        decreases node,
    {
        match node {
            Node::Leaf(leaf) => {
                let ghost before = result@;
                let ghost es = leaf.entries();
                let mut i: usize = 0;
                while i < leaf.keys.len()
                    invariant
                        node_wf(*node),
                        *node == Node::Leaf(*leaf),
                        es == leaf.entries(),
                        i <= leaf.keys@.len(),
                        leaf.values@.len() == leaf.keys@.len(),
                        texts(result@) == texts(before) + values_between(es.subrange(0, i as int), start@, end@),
                    decreases leaf.keys@.len() - i,
                {
                    let ghost prev = result@;
                    let k = leaf.keys[i].as_str();
                    proof {
                        let sub = es.subrange(0, i + 1);
                        assert(sub.drop_last() =~= es.subrange(0, i as int));
                        assert(sub.last() == es[i as int]);
                        assert(es[i as int] == (leaf.keys@[i as int]@, leaf.values@[i as int]@));
                    }
                    if text_less_eq(start, k) && text_less_eq(k, end) {
                        result.push(leaf.values[i].clone());
                        proof {
                            assert(texts(result@) =~= texts(prev).push(leaf.values@[i as int]@));
                        }
                    }
                    i = i + 1;
                }
                proof {
                    assert(es.subrange(0, i as int) =~= es);
                }
            },
            Node::Internal(internal) => {
                let ghost before = result@;
                let ghost cs = internal.children@;
                proof {
                    lemma_children_wf(cs, cs.len() as int);
                }
                let mut i: usize = 0;
                while i < internal.children.len()
                    invariant
                        node_wf(*node),
                        *node == Node::Internal(*internal),
                        cs == internal.children@,
                        forall|c: int| 0 <= c < cs.len() ==> #[trigger] node_wf(*cs[c]),
                        i <= cs.len(),
                        texts(result@) == texts(before) + values_between(children_entries(cs, i as int), start@, end@),
                    decreases cs.len() - i,
                {
                    let child: &Node = &internal.children[i];
                    Self::collect_range(child, start, end, result);
                    proof {
                        assert(children_entries(cs, i + 1) == children_entries(cs, i as int) + node_entries(*cs[i as int]));
                        lemma_values_between_concat(children_entries(cs, i as int), node_entries(*cs[i as int]), start@, end@);
                        assert(texts(result@) =~= texts(before) + values_between(children_entries(cs, i + 1), start@, end@));
                    }
                    i = i + 1;
                }
            },
        }
    }

    /// The values of every leaf below `node`, from left to right, appended to `result`.
    fn collect_all(node: &Node, result: &mut Vec<String>)
        requires
            node_wf(*node),
        ensures
            texts(final(result)@) == texts(old(result)@) + entry_values(node_entries(*node)),
        decreases node,
    {
        match node {
            Node::Leaf(leaf) => {
                let ghost before = result@;
                let mut i: usize = 0;
                while i < leaf.values.len()
                    invariant
                        node_wf(*node),
                        *node == Node::Leaf(*leaf),
                        i <= leaf.values@.len(),
                        leaf.values@.len() == leaf.keys@.len(),
                        texts(result@) == texts(before) + entry_values(leaf.entries().subrange(0, i as int)),
                    decreases leaf.values@.len() - i,
                {
                    let ghost prev = result@;
                    result.push(leaf.values[i].clone());
                    proof {
                        assert(leaf.entries().subrange(0, i + 1) =~= leaf.entries().subrange(0, i as int).push(
                            leaf.entries()[i as int],
                        ));
                        assert(texts(result@) =~= texts(prev).push(leaf.values@[i as int]@));
                        assert(entry_values(leaf.entries().subrange(0, i + 1)) =~= entry_values(
                            leaf.entries().subrange(0, i as int),
                        ).push(leaf.values@[i as int]@));
                        assert(texts(result@) =~= texts(before) + entry_values(leaf.entries().subrange(0, i + 1)));
                    }
                    i = i + 1;
                }
                proof {
                    assert(leaf.entries().subrange(0, i as int) =~= leaf.entries());
                }
            },
            Node::Internal(internal) => {
                let ghost before = result@;
                let ghost cs = internal.children@;
                proof {
                    lemma_children_wf(cs, cs.len() as int);
                }
                let mut i: usize = 0;
                while i < internal.children.len()
                    invariant
                        node_wf(*node),
                        *node == Node::Internal(*internal),
                        cs == internal.children@,
                        forall|c: int| 0 <= c < cs.len() ==> #[trigger] node_wf(*cs[c]),
                        i <= cs.len(),
                        texts(result@) == texts(before) + entry_values(children_entries(cs, i as int)),
                    decreases cs.len() - i,
                {
                    let ghost prev = result@;
                    let child: &Node = &internal.children[i];
                    Self::collect_all(child, result);
                    proof {
                        assert(children_entries(cs, i + 1) == children_entries(cs, i as int) + node_entries(
                            *cs[i as int],
                        ));
                        assert(entry_values(children_entries(cs, i + 1)) =~= entry_values(
                            children_entries(cs, i as int),
                        ) + entry_values(node_entries(*cs[i as int])));
                        assert(texts(result@) =~= texts(before) + entry_values(children_entries(cs, i + 1)));
                    }
                    i = i + 1;
                }
            },
        }
    }

}


/// Search after insert: once an entry with a key the tree lacked is inserted, a search for
/// that key finds the inserted value, and a search for any other key finds what it found
/// before. (`insert` states that such an insertion puts the entry somewhere among the old
/// ones and keeps the tree ordered; `search` finds `lookup` in an ordered tree.)
pub proof fn law_search_after_insert(
    before: Seq<Entry>,
    i: int,
    key: Seq<char>,
    value: Seq<char>,
    other: Seq<char>,
)
    requires
        0 <= i <= before.len(),
        misses(before, key),
    ensures
        lookup(before.insert(i, (key, value)), key) == Some(value),
        other != key ==> lookup(before.insert(i, (key, value)), other) == lookup(before, other),
{
    let after = before.insert(i, (key, value));
    let front = before.subrange(0, i);
    let back = before.subrange(i, before.len() as int);
    assert(after =~= front + (seq![(key, value)] + back));
    assert(before =~= front + back);
    lemma_lookup_concat(front, seq![(key, value)] + back, key);
    lemma_lookup_concat(seq![(key, value)], back, key);
    assert(misses(front, key));
    lemma_lookup_misses(front, key);
    assert(lookup(seq![(key, value)], key) == Some(value)) by {
        assert(seq![(key, value)].drop_first().len() == 0);
    }
    lemma_lookup_concat(front, seq![(key, value)] + back, other);
    lemma_lookup_concat(seq![(key, value)], back, other);
    lemma_lookup_concat(front, back, other);
    if other != key {
        assert(lookup(seq![(key, value)], other) == lookup(seq![(key, value)].drop_first(), other));
        assert(seq![(key, value)].drop_first().len() == 0);
    }
}


/// In an ordered tree the keys strictly increase from entry to entry: no key occurs twice,
/// and `all_values` lists the values in the order of their keys.
pub proof fn law_keys_increase(t: BPlusTree)
    requires
        t.is_ordered(),
    ensures
        strictly_sorted(entry_keys(t@)),
{
    match t.root {
        Some(r) => lemma_entries_sorted(*r, None, None),
        None => {},
    }
}



/// A range search lists, in the tree's order, the value of every entry whose key lies
/// between the two bounds (both included), and nothing else.
pub proof fn law_values_between(es: Seq<Entry>, lo: Seq<char>, hi: Seq<char>)
    ensures
        values_between(es, lo, hi) == es.filter(|e: Entry| text_le(lo, e.0) && text_le(e.0, hi)).map_values(|e: Entry| e.1),
    decreases es.len(),
{
    reveal(Seq::filter);
    if es.len() > 0 {
        law_values_between(es.drop_last(), lo, hi);
        let p = |e: Entry| text_le(lo, e.0) && text_le(e.0, hi);
        let f = |e: Entry| e.1;
        let prev = es.drop_last().filter(p);
        if p(es.last()) {
            assert(prev.push(es.last()).map_values(f) =~= prev.map_values(f).push(f(es.last())));
        }
    }
}

} // verus!
