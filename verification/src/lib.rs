//! An in-memory ordered key-value map built as a multi-way search tree with
//! fixed-capacity leaf blocks and a growable branch fan-out. Keys are routed
//! through branches by the first pivot whose boundary is at or above the key;
//! a leaf that overflows on insert is split in place into a two-pivot branch.
//!
//! The map's observable content is its view: the partial map from keys to the
//! values that the routing descent finds. Every operation is specified against
//! that view. While every entry still lives in the root leaf (the tree has
//! never split), the view evolves exactly as a mathematical map; the split
//! paths keep the universal guarantees the routing rule affords: an inserted
//! key is always found with its value afterwards, a deleted key never is,
//! replacing a present key leaves the rest of the view untouched, and deleting
//! an absent key changes nothing. Beyond the view, the multiset of stored
//! entries moves by exactly the inserted or removed pair on every operation.
mod leaf;
mod node;

pub use leaf::MAX_VALUES_PER_LEAF;

use vstd::prelude::*;

use vstd::multiset::Multiset;

use crate::leaf::{has_key, LeafNode};
use crate::node::{lemma_to_multiset_empty, Node};

verus! {

/// A map based on a split-only multiway search tree with leaf blocks.
pub struct BeTree<V> {
    root: Node<V>,
}

impl<V> BeTree<V> {
    /// Structural well-formedness of the whole tree, established by `new` and
    /// preserved by every operation.
    pub closed spec fn wf(self) -> bool {
        self.root.wf()
    }

    /// The tree still keeps every entry in its root leaf: no insert has ever
    /// overflowed a leaf. In this regime the tree behaves exactly as a map.
    pub closed spec fn flat(self) -> bool {
        self.root is Leaf
    }

    /// The number of entries stored in the root leaf; meaningful while the
    /// tree is flat, where it counts exactly the keys held.
    pub closed spec fn count(self) -> nat {
        self.root.leaf_entries().len()
    }

    /// Every entry the tree stores, reachable through the routing rule or
    /// not, as a multiset of pairs.
    pub closed spec fn stored(self) -> Multiset<(i64, V)> {
        self.root.stored()
    }

    /// The observable content: each key maps to the value the routing descent
    /// finds for it, and the domain is the set of keys the descent finds.
    pub closed spec fn as_map(self) -> Map<i64, V> {
        Map::new(|k: i64| self.root.lookup(k) is Some, |k: i64| self.root.lookup(k).unwrap())
    }
}

impl<V> View for BeTree<V> {
    type V = Map<i64, V>;

    open spec fn view(&self) -> Map<i64, V> {
        self.as_map()
    }
}

impl<V> BeTree<V> {
    /// Create an empty map: the root is an empty leaf block.
    pub fn new() -> (r: Self)
        ensures
            r.wf(),
            r@ == Map::<i64, V>::empty(),
            r.flat(),
            r.count() == 0,
            r.stored() == Multiset::<(i64, V)>::empty(),
    {
        let r = BeTree { root: Node::Leaf(LeafNode::empty()) };
        proof {
            assert(r@ =~= Map::<i64, V>::empty());
            lemma_to_multiset_empty::<V>();
        }
        r
    }

    /// Discard every entry: the root becomes an empty leaf again. A root that
    /// already is a leaf is emptied in place.
    pub fn clear(&mut self)
        ensures
            final(self).wf(),
            final(self)@ == Map::<i64, V>::empty(),
            final(self).flat(),
            final(self).count() == 0,
            final(self).stored() == Multiset::<(i64, V)>::empty(),
    {
        let mut root = Node::Leaf(LeafNode::empty());
        core::mem::swap(&mut root, &mut self.root);
        match root {
            Node::Leaf(mut l) => {
                l.elements.clear();
                self.root = Node::Leaf(l);
            },
            Node::Branch { pivots: _ } => {
                self.root = Node::Leaf(LeafNode::empty());
            },
        }
        proof {
            assert(final(self)@ =~= Map::<i64, V>::empty());
            lemma_to_multiset_empty::<V>();
        }
    }

    /// Insert a key-value pair; an existing key has its value replaced.
    ///
    /// The key is afterwards mapped to the value. Replacing leaves every other
    /// key untouched. While the tree is flat and has room (or the key is
    /// already present), the view advances exactly by `Map::insert`, the tree
    /// stays flat, and the stored count grows only on a fresh key. From a flat
    /// tree no insert conjures another key or changes another key's value.
    /// Whatever the shape, the stored entries gain exactly the inserted pair,
    /// a present key's old pair making way for it, and a tree that has split
    /// never collapses back to a single leaf.
    pub fn insert(&mut self, key: i64, value: V)
        requires
            old(self).wf(),
        ensures
            final(self).wf(),
            final(self)@.dom().contains(key),
            final(self)@[key] == value,
            old(self)@.dom().contains(key) ==> (final(self)@ == old(self)@.insert(key, value)
                && final(self).flat() == old(self).flat() && final(self).count() == old(
                self,
            ).count()),
            old(self).flat() && (old(self)@.dom().contains(key) || old(self).count()
                < MAX_VALUES_PER_LEAF) ==> (final(self).flat() && final(self)@ == old(
                self,
            )@.insert(key, value) && final(self).count() == old(self).count() + (if old(
                self,
            )@.dom().contains(key) {
                0nat
            } else {
                1nat
            })),
            old(self).flat() ==> (forall|q: i64|
                q != key && #[trigger] final(self)@.dom().contains(q) ==> old(
                self,
                )@.dom().contains(q) && final(self)@[q] == old(self)@[q]),
            !old(self).flat() ==> !final(self).flat(),
            old(self).flat() && !old(self)@.dom().contains(key) && old(self).count()
                == MAX_VALUES_PER_LEAF ==> !final(self).flat(),
            old(self)@.dom().contains(key) ==> final(self).stored() == old(self).stored().remove(
                (key, old(self)@[key]),
            ).insert((key, value)),
            !old(self)@.dom().contains(key) ==> final(self).stored() == old(self).stored().insert(
                (key, value),
            ),
    {
        let ghost t0 = *self;
        let mut root = Node::Leaf(LeafNode::empty());
        core::mem::swap(&mut root, &mut self.root);
        let ghost c0 = root;
        self.root = root.insert(key, value);
        proof {
            let c1 = self.root;
            assert(t0.root == c0);
            assert(t0.stored() == c0.stored());
            if t0@.dom().contains(key) {
                assert(c0.lookup(key) is Some && t0@[key] == c0.lookup(key).unwrap());
                assert(final(self)@ =~= t0@.insert(key, value));
            } else {
                assert(c0.lookup(key) is None);
            }
            if t0.flat() && (t0@.dom().contains(key) || t0.count() < MAX_VALUES_PER_LEAF) {
                assert(t0@.dom().contains(key) ==> has_key(c0.leaf_entries(), key));
                assert(has_key(c0.leaf_entries(), key) ==> t0@.dom().contains(key));
                assert(final(self)@ =~= t0@.insert(key, value));
            }
            if t0.flat() {
                assert forall|q: i64|
                    q != key && final(self)@.dom().contains(q) implies t0@.dom().contains(q)
                    && final(self)@[q] == t0@[q] by {
                    assert(c1.lookup(q) is Some);
                }
            }
        }
    }

    /// Remove a key; a silent no-op when the key is absent.
    ///
    /// The key is afterwards not mapped. Deleting an absent key changes
    /// nothing observable. While the tree is flat the view retreats exactly by
    /// `Map::remove`. Whatever the shape, deletion never merges or drops a
    /// node, so a flat tree stays flat and a split one stays split; the stored
    /// entries lose exactly the reachable pair of the key, or nothing.
    pub fn delete(&mut self, key: i64)
        requires
            old(self).wf(),
        ensures
            final(self).wf(),
            !final(self)@.dom().contains(key),
            !old(self)@.dom().contains(key) ==> (final(self)@ == old(self)@ && final(self).flat()
                == old(self).flat() && final(self).count() == old(self).count()),
            old(self).flat() ==> (final(self).flat() && final(self)@ == old(self)@.remove(key)
                && final(self).count() == old(self).count() - (if old(self)@.dom().contains(key) {
                1nat
            } else {
                0nat
            })),
            final(self).flat() == old(self).flat(),
            old(self)@.dom().contains(key) ==> final(self).stored() == old(self).stored().remove(
                (key, old(self)@[key]),
            ),
            !old(self)@.dom().contains(key) ==> final(self).stored() == old(self).stored(),
    {
        let ghost t0 = *self;
        let mut root = Node::Leaf(LeafNode::empty());
        core::mem::swap(&mut root, &mut self.root);
        let ghost c0 = root;
        self.root = root.delete(key);
        proof {
            assert(t0.root == c0);
            assert(t0.stored() == c0.stored());
            if t0@.dom().contains(key) {
                assert(c0.lookup(key) is Some && t0@[key] == c0.lookup(key).unwrap());
            } else {
                assert(c0.lookup(key) is None);
            }
            if !t0@.dom().contains(key) {
                assert(c0.lookup(key) is None);
                assert(final(self)@ =~= t0@);
            }
            if t0.flat() {
                assert(t0@.dom().contains(key) == has_key(c0.leaf_entries(), key));
                assert(final(self)@ =~= t0@.remove(key));
            }
        }
    }

    /// Look a key up; a reference to its value, or absent.
    pub fn get(&self, key: i64) -> (r: Option<&V>)
        requires
            self.wf(),
        ensures
            match r {
                Some(v) => self@.dom().contains(key) && *v == self@[key],
                None => !self@.dom().contains(key),
            },
    {
        self.root.get(key)
    }
}

/// A sequence of insertions applied to a map view, in order.
pub open spec fn insert_all<V>(m: Map<i64, V>, kvs: Seq<(i64, V)>) -> Map<i64, V>
    decreases kvs.len(),
{
    if kvs.len() == 0 {
        m
    } else {
        insert_all(m, kvs.drop_last()).insert(kvs.last().0, kvs.last().1)
    }
}

/// The value the latest insertion of `key` in `kvs` carried, if any.
pub open spec fn last_value<V>(kvs: Seq<(i64, V)>, key: i64) -> Option<V>
    decreases kvs.len(),
{
    if kvs.len() == 0 {
        None
    } else if kvs.last().0 == key {
        Some(kvs.last().1)
    } else {
        last_value(kvs.drop_last(), key)
    }
}

/// Round trip: after any sequence of insertions, the view maps each inserted
/// key to the last value inserted for it, and leaves other keys as they were.
/// Together with `BeTree::insert`, whose contract advances the view by exactly
/// `Map::insert` while the tree is flat, this gives the round trip for every
/// insertion sequence that fits a single leaf block.
pub proof fn lemma_round_trip<V>(m: Map<i64, V>, kvs: Seq<(i64, V)>, key: i64)
    ensures
        last_value(kvs, key) is Some ==> insert_all(m, kvs).dom().contains(key) && insert_all(
            m,
            kvs,
        )[key] == last_value(kvs, key).unwrap(),
        last_value(kvs, key) is None ==> (insert_all(m, kvs).dom().contains(key)
            == m.dom().contains(key)) && (m.dom().contains(key) ==> insert_all(m, kvs)[key]
            == m[key]),
    decreases kvs.len(),
{
    if kvs.len() > 0 {
        lemma_round_trip(m, kvs.drop_last(), key);
    }
}

/// The keys of an insertion sequence, in order.
pub open spec fn keys_of<V>(kvs: Seq<(i64, V)>) -> Seq<i64> {
    kvs.map_values(|p: (i64, V)| p.0)
}

/// A sequence of insertions settles the view's domain: the keys it had before
/// together with every key inserted.
pub proof fn lemma_insert_all_dom<V>(m: Map<i64, V>, kvs: Seq<(i64, V)>)
    ensures
        insert_all(m, kvs).dom() == m.dom().union(keys_of(kvs).to_set()),
    decreases kvs.len(),
{
    broadcast use vstd::prelude::Seq::lemma_push_to_set_commute;

    if kvs.len() == 0 {
        assert(keys_of(kvs).to_set() =~= Set::<i64>::empty());
        assert(insert_all(m, kvs).dom() =~= m.dom().union(keys_of(kvs).to_set()));
    } else {
        let dl = kvs.drop_last();
        lemma_insert_all_dom(m, dl);
        assert(keys_of(kvs) =~= keys_of(dl).push(kvs.last().0));
        assert(insert_all(m, kvs).dom() =~= m.dom().union(keys_of(kvs).to_set()));
    }
}

/// What one call of `BeTree::insert` leaves behind, as far as the sequence
/// laws below need it; the contract of `insert` gives every conjunct.
pub open spec fn insert_step<V>(pre: BeTree<V>, key: i64, value: V, post: BeTree<V>) -> bool {
    &&& post.wf()
    &&& (pre.flat() && (pre@.dom().contains(key) || pre.count() < MAX_VALUES_PER_LEAF) ==> (
    post.flat() && post@ == pre@.insert(key, value) && post.count() == pre.count() + (if pre@.dom().contains(key) {
        0nat
    } else {
        1nat
    })))
}

/// Round trip and capacity boundary, at the tree: a fresh map taken through
/// any sequence of insert calls whose distinct keys fit one leaf block never
/// splits, its view is exactly the inserted map — so, with `lemma_round_trip`,
/// every inserted key answers with the last value inserted for it — and it
/// stores each distinct key once.
pub proof fn lemma_flat_insert_sequence<V>(ts: Seq<BeTree<V>>, kvs: Seq<(i64, V)>)
    requires
        ts.len() == kvs.len() + 1,
        ts[0].wf(),
        ts[0].flat(),
        ts[0].count() == 0,
        ts[0]@ == Map::<i64, V>::empty(),
        keys_of(kvs).to_set().len() <= MAX_VALUES_PER_LEAF,
        forall|i: int|
            0 <= i < kvs.len() ==> insert_step(ts[i], (#[trigger] kvs[i]).0, kvs[i].1, ts[i + 1]),
    ensures
        ts.last().wf(),
        ts.last().flat(),
        ts.last()@ == insert_all(Map::empty(), kvs),
        ts.last().count() == keys_of(kvs).to_set().len(),
    decreases kvs.len(),
{
    broadcast use vstd::seq_lib::seq_to_set_is_finite;
    broadcast use vstd::prelude::Seq::lemma_push_to_set_commute;

    let n = kvs.len() as int;
    if n == 0 {
        assert(ts.last() == ts[0]);
        assert(keys_of(kvs).to_set() =~= Set::<i64>::empty());
        assert(insert_all(Map::<i64, V>::empty(), kvs) == Map::<i64, V>::empty());
        lemma_flat_count(ts[0]);
    } else {
        let dl = kvs.drop_last();
        let tdl = ts.drop_last();
        assert(keys_of(dl) =~= keys_of(kvs).drop_last());
        assert(keys_of(kvs) =~= keys_of(dl).push(kvs.last().0));
        assert(keys_of(kvs).to_set() == keys_of(dl).to_set().insert(kvs.last().0));
        assert(keys_of(dl).to_set().subset_of(keys_of(kvs).to_set())) by {
            assert forall|a: i64| keys_of(dl).to_set().contains(a) implies keys_of(
                kvs,
            ).to_set().contains(a) by {
                let j = choose|j: int| 0 <= j < keys_of(dl).len() && keys_of(dl)[j] == a;
                assert(keys_of(kvs)[j] == a);
                assert(keys_of(kvs).contains(a));
            }
        }
        vstd::set_lib::lemma_len_subset(keys_of(dl).to_set(), keys_of(kvs).to_set());
        assert forall|i: int|
            0 <= i < dl.len() implies insert_step(
            tdl[i],
            (#[trigger] dl[i]).0,
            dl[i].1,
            tdl[i + 1],
        ) by {
            assert(dl[i] == kvs[i] && tdl[i] == ts[i] && tdl[i + 1] == ts[i + 1]);
            assert(insert_step(ts[i], kvs[i].0, kvs[i].1, ts[i + 1]));
        }
        lemma_flat_insert_sequence(tdl, dl);
        let pre = ts[n - 1];
        assert(tdl.last() == pre);
        let key = kvs.last().0;
        assert(insert_step(pre, key, kvs.last().1, ts[n]));
        lemma_insert_all_dom(Map::<i64, V>::empty(), dl);
        assert(pre@.dom() =~= keys_of(dl).to_set());
        if keys_of(dl).to_set().contains(key) {
            assert(pre@.dom().contains(key));
            assert(keys_of(kvs).to_set() =~= keys_of(dl).to_set());
        } else {
            assert(keys_of(kvs).to_set().len() == keys_of(dl).to_set().len() + 1);
            assert(pre.count() < MAX_VALUES_PER_LEAF);
        }
        assert(ts.last() == ts[n]);
        assert(ts[n]@ == insert_all(Map::empty(), kvs));
        lemma_flat_count(ts[n]);
        lemma_insert_all_dom(Map::<i64, V>::empty(), kvs);
        assert(ts[n]@.dom() =~= keys_of(kvs).to_set());
    }
}

/// Distinctness: while the tree is flat, the number of keys its view holds is
/// exactly the number of entries stored, so the keys that were inserted and
/// not deleted are each counted once.
pub proof fn lemma_flat_count<V>(t: BeTree<V>)
    requires
        t.wf(),
        t.flat(),
    ensures
        t@.dom().finite(),
        t@.dom().len() == t.count(),
{
    broadcast use vstd::seq_lib::seq_to_set_is_finite;

    let entries = t.root.leaf_entries();
    let keys = entries.map_values(|p: (i64, V)| p.0);
    assert(keys.no_duplicates()) by {
        assert forall|i: int, j: int|
            0 <= i < keys.len() && 0 <= j < keys.len() && i != j implies keys[i] != keys[j] by {
            if i < j {
                assert(entries[i].0 < entries[j].0);
            } else {
                assert(entries[j].0 < entries[i].0);
            }
        }
    }
    assert(t@.dom() =~= keys.to_set()) by {
        assert forall|k: i64| t@.dom().contains(k) implies keys.to_set().contains(k) by {
            assert(has_key(entries, k));
            let j = choose|j: int| 0 <= j < entries.len() && (#[trigger] entries[j]).0 == k;
            assert(keys[j] == k);
            assert(keys.contains(k));
        }
        assert forall|k: i64| keys.to_set().contains(k) implies t@.dom().contains(k) by {
            assert(keys.contains(k));
            let j = choose|j: int| 0 <= j < keys.len() && keys[j] == k;
            assert(entries[j].0 == k);
            assert(has_key(entries, k));
        }
    }
    keys.unique_seq_to_set();
}

} // verus!
