use vstd::prelude::*;

use vstd::multiset::Multiset;

use crate::leaf::{
    entries_lookup, entries_sorted, has_key, lemma_lookup_at, LeafNode, MAX_VALUES_PER_LEAF,
};

verus! {

/// A pivot delimits one child subtree inside a branch: the boundary key is
/// kept equal to the least key reachable in the child (when the child holds
/// any), and the child is exclusively owned.
pub(crate) struct Pivot<V> {
    pub(crate) min_key: i64,
    pub(crate) child: Box<Node<V>>,
}

/// A tree node: an interior branch holding an ordered, growable pivot list,
/// or a terminal leaf block.
pub(crate) enum Node<V> {
    Branch { pivots: Vec<Pivot<V>> },
    Leaf(LeafNode<V>),
}

/// The routing rule, scanning from index `i`: the first pivot whose boundary
/// is at or above `key`, or the pivot count when every boundary is below it.
pub(crate) open spec fn route_from<V>(pivots: Seq<Pivot<V>>, key: i64, i: int) -> int
    decreases pivots.len() - i,
{
    if i < 0 || i >= pivots.len() {
        pivots.len() as int
    } else if key <= pivots[i].min_key {
        i
    } else {
        route_from(pivots, key, i + 1)
    }
}

/// The routing rule over a whole pivot list.
pub(crate) open spec fn route<V>(pivots: Seq<Pivot<V>>, key: i64) -> int {
    route_from(pivots, key, 0)
}

/// What the routing rule returns: an index within bounds, whose boundary
/// admits the key, and before which every boundary is below the key.
pub(crate) proof fn lemma_route_from<V>(pivots: Seq<Pivot<V>>, key: i64, i: int)
    requires
        0 <= i <= pivots.len(),
    ensures
        ({
            let r = route_from(pivots, key, i);
            &&& i <= r <= pivots.len()
            &&& r < pivots.len() ==> key <= pivots[r].min_key
            &&& forall|j: int| i <= j < r ==> key > (#[trigger] pivots[j]).min_key
        }),
    decreases pivots.len() - i,
{
    if i < pivots.len() && key > pivots[i].min_key {
        lemma_route_from(pivots, key, i + 1);
    }
}

/// The routing rule picks exactly the first admissible index.
pub(crate) proof fn lemma_route_is<V>(pivots: Seq<Pivot<V>>, key: i64, i: int)
    requires
        0 <= i < pivots.len(),
        key <= pivots[i].min_key,
        forall|j: int| 0 <= j < i ==> key > (#[trigger] pivots[j]).min_key,
    ensures
        route(pivots, key) == i,
{
    lemma_route_from(pivots, key, 0);
    let r = route(pivots, key);
    if r < i {
        assert(key > pivots[r].min_key);
    } else if r > i {
        assert(key > pivots[i].min_key);
    }
}

/// When no boundary admits the key, the routing rule runs off the end.
pub(crate) proof fn lemma_route_none<V>(pivots: Seq<Pivot<V>>, key: i64)
    requires
        forall|j: int| 0 <= j < pivots.len() ==> key > (#[trigger] pivots[j]).min_key,
    ensures
        route(pivots, key) == pivots.len(),
{
    lemma_route_from(pivots, key, 0);
    let r = route(pivots, key);
    if r < pivots.len() {
        assert(key > pivots[r].min_key);
    }
}

/// Routing depends only on the boundary keys, not on the children.
pub(crate) proof fn lemma_route_from_same_keys<V>(
    s0: Seq<Pivot<V>>,
    s1: Seq<Pivot<V>>,
    key: i64,
    i: int,
)
    requires
        s0.len() == s1.len(),
        forall|m: int|
            0 <= m < s0.len() ==> (#[trigger] s0[m]).min_key == (#[trigger] s1[m]).min_key,
    ensures
        route_from(s0, key, i) == route_from(s1, key, i),
    decreases s0.len() - i,
{
    if 0 <= i < s0.len() && key > s0[i].min_key {
        lemma_route_from_same_keys(s0, s1, key, i + 1);
    }
}

impl<V> Node<V> {
    /// The entries of a leaf node; a branch has none of its own.
    pub(crate) open spec fn leaf_entries(self) -> Seq<(i64, V)> {
        match self {
            Node::Leaf(l) => l.elements@,
            Node::Branch { .. } => Seq::empty(),
        }
    }

    /// The pivot list of a branch; a leaf has none.
    pub(crate) open spec fn pivots_seq(self) -> Seq<Pivot<V>> {
        match self {
            Node::Branch { pivots } => pivots@,
            Node::Leaf(..) => Seq::empty(),
        }
    }

    /// Every entry the node stores, reachable through the routing rule or not,
    /// as a multiset of pairs.
    pub(crate) open spec fn stored(self) -> Multiset<(i64, V)>
        decreases self, 0int,
    {
        match self {
            Node::Leaf(l) => l.elements@.to_multiset(),
            Node::Branch { pivots } => pivots_stored(pivots@, 0),
        }
    }

    /// A pair the descent finds is among the stored entries.
    pub(crate) proof fn lemma_lookup_in_stored(self, key: i64)
        requires
            self.wf(),
            self.lookup(key) is Some,
        ensures
            self.stored().count((key, self.lookup(key).unwrap())) > 0,
        decreases self,
    {
        broadcast use vstd::seq_lib::group_to_multiset_ensures;

        match self {
            Node::Leaf(l) => {
                let s = l.elements@;
                assert(has_key(s, key));
                let j = choose|j: int| 0 <= j < s.len() && (#[trigger] s[j]).0 == key;
                lemma_lookup_at(s, j);
                assert(s[j] == (key, self.lookup(key).unwrap()));
                assert(s.contains(s[j]));
            },
            Node::Branch { pivots } => {
                let i = route(pivots@, key);
                lemma_route_from(pivots@, key, 0);
                assert(0 <= i < pivots@.len());
                pivots@[i].child.lemma_lookup_in_stored(key);
                lemma_stored_count_ge(pivots@, 0, i, (key, self.lookup(key).unwrap()));
            },
        }
    }
}

/// The entries stored by the children from index `i` on.
pub(crate) open spec fn pivots_stored<V>(pivots: Seq<Pivot<V>>, i: int) -> Multiset<(i64, V)>
    decreases pivots, pivots.len() - i,
{
    if i < 0 || i >= pivots.len() {
        Multiset::empty()
    } else {
        pivots[i].child.stored().add(pivots_stored(pivots, i + 1))
    }
}

/// Children with equal stored entries give equal folds.
pub(crate) proof fn lemma_stored_congruent<V>(s0: Seq<Pivot<V>>, s1: Seq<Pivot<V>>, m: int)
    requires
        s0.len() == s1.len(),
        forall|j: int|
            m <= j < s0.len() ==> (#[trigger] s0[j]).child.stored()
                == (#[trigger] s1[j]).child.stored(),
    ensures
        pivots_stored(s0, m) == pivots_stored(s1, m),
    decreases s0.len() - m,
{
    if 0 <= m < s0.len() {
        lemma_stored_congruent(s0, s1, m + 1);
    }
}

/// The fold holds at least as many copies of a pair as any one child.
pub(crate) proof fn lemma_stored_count_ge<V>(s: Seq<Pivot<V>>, m: int, i: int, x: (i64, V))
    requires
        0 <= m <= i < s.len(),
    ensures
        pivots_stored(s, m).count(x) >= s[i].child.stored().count(x),
    decreases i - m,
{
    broadcast use vstd::multiset::group_multiset_axioms;

    if m < i {
        lemma_stored_count_ge(s, m + 1, i, x);
    }
}

/// One child gaining exactly one pair makes the fold gain exactly that pair.
pub(crate) proof fn lemma_stored_insert_at<V>(
    s0: Seq<Pivot<V>>,
    s1: Seq<Pivot<V>>,
    i: int,
    m: int,
    p: (i64, V),
)
    requires
        0 <= m <= i < s0.len(),
        s0.len() == s1.len(),
        forall|j: int|
            0 <= j < s0.len() && j != i ==> (#[trigger] s1[j]).child.stored()
                == s0[j].child.stored(),
        s1[i].child.stored() == s0[i].child.stored().insert(p),
    ensures
        pivots_stored(s1, m) == pivots_stored(s0, m).insert(p),
    decreases i - m,
{
    broadcast use vstd::multiset::group_multiset_axioms;

    if m == i {
        lemma_stored_congruent(s0, s1, m + 1);
        assert(pivots_stored(s1, m) =~= pivots_stored(s0, m).insert(p));
    } else {
        lemma_stored_insert_at(s0, s1, i, m + 1, p);
        assert(pivots_stored(s1, m) =~= pivots_stored(s0, m).insert(p));
    }
}

/// One child losing exactly one present pair makes the fold lose exactly it.
pub(crate) proof fn lemma_stored_remove_at<V>(
    s0: Seq<Pivot<V>>,
    s1: Seq<Pivot<V>>,
    i: int,
    m: int,
    q: (i64, V),
)
    requires
        0 <= m <= i < s0.len(),
        s0.len() == s1.len(),
        forall|j: int|
            0 <= j < s0.len() && j != i ==> (#[trigger] s1[j]).child.stored()
                == s0[j].child.stored(),
        s0[i].child.stored().count(q) > 0,
        s1[i].child.stored() == s0[i].child.stored().remove(q),
    ensures
        pivots_stored(s1, m) == pivots_stored(s0, m).remove(q),
    decreases i - m,
{
    broadcast use vstd::multiset::group_multiset_axioms;

    lemma_stored_count_ge(s0, m, i, q);
    if m == i {
        lemma_stored_congruent(s0, s1, m + 1);
        assert(pivots_stored(s1, m) =~= pivots_stored(s0, m).remove(q));
    } else {
        lemma_stored_remove_at(s0, s1, i, m + 1, q);
        lemma_stored_count_ge(s0, m + 1, i, q);
        assert(pivots_stored(s1, m) =~= pivots_stored(s0, m).remove(q));
    }
}

/// One child trading a present pair for another makes the fold trade exactly
/// those.
pub(crate) proof fn lemma_stored_replace_at<V>(
    s0: Seq<Pivot<V>>,
    s1: Seq<Pivot<V>>,
    i: int,
    m: int,
    q: (i64, V),
    p: (i64, V),
)
    requires
        0 <= m <= i < s0.len(),
        s0.len() == s1.len(),
        forall|j: int|
            0 <= j < s0.len() && j != i ==> (#[trigger] s1[j]).child.stored()
                == s0[j].child.stored(),
        s0[i].child.stored().count(q) > 0,
        s1[i].child.stored() == s0[i].child.stored().remove(q).insert(p),
    ensures
        pivots_stored(s1, m) == pivots_stored(s0, m).remove(q).insert(p),
    decreases i - m,
{
    broadcast use vstd::multiset::group_multiset_axioms;

    lemma_stored_count_ge(s0, m, i, q);
    if m == i {
        lemma_stored_congruent(s0, s1, m + 1);
        assert(pivots_stored(s1, m) =~= pivots_stored(s0, m).remove(q).insert(p));
    } else {
        lemma_stored_replace_at(s0, s1, i, m + 1, q, p);
        lemma_stored_count_ge(s0, m + 1, i, q);
        assert(pivots_stored(s1, m) =~= pivots_stored(s0, m).remove(q).insert(p));
    }
}

/// Growing the pivot list by one child adds exactly that child's entries.
pub(crate) proof fn lemma_stored_push<V>(s: Seq<Pivot<V>>, p: Pivot<V>, m: int)
    requires
        0 <= m <= s.len(),
    ensures
        pivots_stored(s.push(p), m) == pivots_stored(s, m).add(p.child.stored()),
    decreases s.len() - m,
{
    broadcast use vstd::multiset::group_multiset_axioms;

    let s1 = s.push(p);
    if m == s.len() {
        assert(pivots_stored(s1, m + 1) == Multiset::<(i64, V)>::empty());
        assert(pivots_stored(s1, m) =~= pivots_stored(s, m).add(p.child.stored()));
    } else {
        lemma_stored_push(s, p, m + 1);
        assert(s1[m] == s[m]);
        assert(pivots_stored(s1, m) =~= pivots_stored(s, m).add(p.child.stored()));
    }
}

/// A sequence with no entries stores no entries.
pub(crate) proof fn lemma_to_multiset_empty<V>()
    ensures
        Seq::<(i64, V)>::empty().to_multiset() == Multiset::<(i64, V)>::empty(),
{
    broadcast use vstd::multiset::group_multiset_axioms;
    broadcast use vstd::seq_lib::group_to_multiset_ensures;

    assert forall|x: (i64, V)| Seq::<(i64, V)>::empty().to_multiset().count(x) == 0 by {
        assert(!Seq::<(i64, V)>::empty().contains(x));
    }
    assert(Seq::<(i64, V)>::empty().to_multiset() =~= Multiset::<(i64, V)>::empty());
}

impl<V> Node<V> {

    /// Whether the node has a least element to report: a branch always has a
    /// first pivot (when non-degenerate), a leaf needs at least one entry.
    pub(crate) open spec fn has_front(self) -> bool {
        match self {
            Node::Leaf(l) => l.elements@.len() > 0,
            Node::Branch { pivots } => pivots@.len() > 0,
        }
    }

    /// The node's reported minimum key: a leaf's first entry, or a branch's
    /// first boundary.
    pub(crate) open spec fn front(self) -> i64 {
        match self {
            Node::Leaf(l) => l.elements@[0].0,
            Node::Branch { pivots } => pivots@[0].min_key,
        }
    }

    /// Structural well-formedness: leaves are sorted and within capacity;
    /// branches are non-empty, their children well-formed, and each boundary
    /// equals its child's reported minimum whenever the child has one.
    ///
    /// Deliberately absent: distinctness of keys across leaves and ascending
    /// order of a branch's boundaries. The routing rule does not preserve
    /// them — lowering a boundary on insert can shadow a key, whose later
    /// re-insertion stores it twice, and refreshing a boundary after a
    /// deletion can raise it past its right neighbour.
    pub(crate) open spec fn wf(self) -> bool
        decreases self,
    {
        match self {
            Node::Leaf(l) => l.wf(),
            Node::Branch { pivots } => {
                &&& pivots@.len() >= 1
                &&& forall|i: int| 0 <= i < pivots@.len() ==> (#[trigger] pivots@[i]).child.wf()
                &&& forall|i: int|
                    0 <= i < pivots@.len() ==> ((#[trigger] pivots@[i]).child.has_front()
                        ==> pivots@[i].min_key == pivots@[i].child.front())
            },
        }
    }

    /// The key's value as the tree's descent finds it: route at each branch,
    /// search the reached leaf. This is the semantics all operations are
    /// specified against.
    pub(crate) open spec fn lookup(self, key: i64) -> Option<V>
        decreases self,
    {
        match self {
            Node::Leaf(l) => entries_lookup(l.elements@, key),
            Node::Branch { pivots } => {
                let i = route(pivots@, key);
                if 0 <= i < pivots@.len() {
                    pivots@[i].child.lookup(key)
                } else {
                    None
                }
            },
        }
    }

    /// A key that the descent finds is at or above the node's reported minimum.
    pub(crate) proof fn lemma_lookup_ge_front(self, key: i64)
        requires
            self.wf(),
            self.lookup(key) is Some,
        ensures
            self.has_front(),
            self.front() <= key,
        decreases self,
    {
        match self {
            Node::Leaf(l) => {
                let s = l.elements@;
                assert(has_key(s, key));
                let m = choose|m: int| 0 <= m < s.len() && (#[trigger] s[m]).0 == key;
                if m > 0 {
                    assert(s[0].0 < s[m].0);
                }
            },
            Node::Branch { pivots } => {
                let i = route(pivots@, key);
                lemma_route_from(pivots@, key, 0);
                assert(0 <= i < pivots@.len());
                pivots@[i].child.lemma_lookup_ge_front(key);
                if i > 0 {
                    assert(key > pivots@[0].min_key);
                }
            },
        }
    }

    /// The node's minimum key: a branch's first boundary, a leaf's first entry.
    pub(crate) fn min_key(&self) -> (r: i64)
        requires
            self.wf(),
            self.has_front(),
        ensures
            r == self.front(),
    {
        match self {
            Node::Branch { pivots } => pivots[0].min_key,
            Node::Leaf(leaf) => leaf.valid_elements()[0].0,
        }
    }

    /// Whether `min_key` may be asked for.
    pub(crate) fn has_min(&self) -> (r: bool)
        ensures
            r == self.has_front(),
    {
        match self {
            Node::Branch { pivots } => pivots.len() > 0,
            Node::Leaf(leaf) => leaf.valid_elements().len() > 0,
        }
    }

    /// Pure point lookup: the descent the `lookup` spec describes.
    pub(crate) fn get(&self, key: i64) -> (r: Option<&V>)
        requires
            self.wf(),
        ensures
            match r {
                Some(v) => self.lookup(key) == Some(*v),
                None => self.lookup(key) is None,
            },
        decreases self,
    {
        match self {
            Node::Branch { pivots } => {
                let i = route_pivots(pivots, key);
                if i < pivots.len() {
                    pivots[i].child.get(key)
                } else {
                    None
                }
            },
            Node::Leaf(leaf) => leaf.lookup(key),
        }
    }
}

impl<V> Node<V> {
    /// Insert a pair, replacing the value on a duplicate key. At a branch the
    /// routing rule selects the child; the selected boundary is lowered to the
    /// key before descending, and a key beyond every boundary grows a new
    /// rightmost pivot holding exactly the inserted pair. A full leaf is split
    /// at the midpoint into a two-pivot branch and the insertion is retried
    /// against it.
    ///
    /// The inserted key is afterwards found with the inserted value. When the
    /// key was already present the rest of the tree reads unchanged; likewise
    /// when a leaf had room. An insert into a leaf never conjures other keys.
    pub(crate) fn insert(self, key: i64, value: V) -> (r: Node<V>)
        requires
            self.wf(),
        ensures
            r.wf(),
            r.lookup(key) == Some(value),
            r.has_front(),
            r.front() == (if self.has_front() && self.front() <= key {
                self.front()
            } else {
                key
            }),
            self.lookup(key) is Some ==> ((forall|q: i64|
                r.lookup(q) == (if q == key {
                    Some(value)
                } else {
                    self.lookup(q)
                })) && ((r is Leaf) <==> (self is Leaf)) && r.leaf_entries().len()
                == self.leaf_entries().len()),
            self is Leaf && (has_key(self.leaf_entries(), key) || self.leaf_entries().len()
                < MAX_VALUES_PER_LEAF) ==> ((r is Leaf) && (forall|q: i64|
                r.lookup(q) == (if q == key {
                    Some(value)
                } else {
                    self.lookup(q)
                })) && r.leaf_entries().len() == self.leaf_entries().len() + (if has_key(
                self.leaf_entries(),
                key,
            ) {
                0int
            } else {
                1int
            })),
            self is Leaf ==> (forall|q: i64|
                q != key && r.lookup(q) is Some ==> r.lookup(q) == self.lookup(q)),
            self is Branch ==> (r is Branch && ({
                let s0 = self.pivots_seq();
                let s1 = r.pivots_seq();
                let i = route(s0, key);
                &&& (i < s0.len() ==> (s1.len() == s0.len() && (forall|j: int|
                    0 <= j < s0.len() && j != i ==> s1[j] == s0[j]) && s1[i].min_key == key))
                &&& (i == s0.len() ==> (s1.len() == s0.len() + 1 && (forall|j: int|
                    0 <= j < s0.len() ==> s1[j] == s0[j]) && s1[i].min_key == key && *s1[i].child
                    is Leaf && s1[i].child.leaf_entries() == seq![(key, value)]))
            })),
            self is Leaf && !has_key(self.leaf_entries(), key) && self.leaf_entries().len()
                == MAX_VALUES_PER_LEAF ==> ({
                let entries = self.leaf_entries();
                let half = (MAX_VALUES_PER_LEAF / 2) as int;
                let low = entries.subrange(0, half);
                let high = entries.subrange(half, entries.len() as int);
                let ps = r.pivots_seq();
                &&& r is Branch
                &&& forall|j: int| 0 <= j < ps.len() ==> *(#[trigger] ps[j]).child is Leaf
                &&& (key < low[0].0 ==> (ps.len() == 2 && ps[0].min_key == key
                    && ps[0].child.leaf_entries() == low.insert(0, (key, value))
                    && ps[1].min_key == high[0].0 && ps[1].child.leaf_entries() == high))
                &&& (low[0].0 < key && key < high[0].0 ==> (ps.len() == 2 && ps[0].min_key == low[0].0
                    && ps[0].child.leaf_entries() == low && ps[1].min_key == key
                    && ps[1].child.leaf_entries() == high.insert(0, (key, value))))
                &&& (high[0].0 < key ==> (ps.len() == 3 && ps[0].min_key == low[0].0
                    && ps[0].child.leaf_entries() == low && ps[1].min_key == high[0].0
                    && ps[1].child.leaf_entries() == high && ps[2].min_key == key
                    && ps[2].child.leaf_entries() == seq![(key, value)]))
            }),
            self.lookup(key) is Some ==> r.stored() == self.stored().remove(
                (key, self.lookup(key).unwrap()),
            ).insert((key, value)),
            self.lookup(key) is None ==> r.stored() == self.stored().insert((key, value)),
        decreases self,
    {
        let ghost self0 = self;
        match self {
            Node::Branch { mut pivots } => {
                let ghost s0 = pivots@;
                let i = route_pivots(&pivots, key);
                proof {
                    lemma_route_from(s0, key, 0);
                }
                if i < pivots.len() {
                    let p = pivots.remove(i);
                    let Pivot { min_key: _, child } = p;
                    let ghost c0 = *child;
                    let new_child = (*child).insert(key, value);
                    let ghost c1 = new_child;
                    pivots.insert(i, Pivot { min_key: key, child: Box::new(new_child) });
                    let r = Node::Branch { pivots };
                    proof {
                        let s1 = pivots@;
                        let ii = i as int;
                        assert(s0[ii].child == p.child);
                        assert(c1.front() == key) by {
                            if c0.has_front() {
                                assert(s0[ii].min_key == c0.front());
                            }
                        }
                        assert forall|m: int| 0 <= m < s1.len() && m != ii implies s1[m]
                            == s0[m] by {
                            assert(s1[m] == s0.remove(ii).insert(ii, s1[ii])[m]);
                        }
                        assert(s1.len() == s0.len());
                        assert(s1[ii].min_key == key && *s1[ii].child == c1);
                        // well-formedness
                        assert(r.wf()) by {
                            assert forall|m: int| 0 <= m < s1.len() implies (#[trigger] s1[m]).child.wf()
                                && (s1[m].child.has_front() ==> s1[m].min_key
                                == s1[m].child.front()) by {
                                if m != ii {
                                    assert(s0[m].child.wf());
                                    assert(s0[m].child.has_front() ==> s0[m].min_key
                                        == s0[m].child.front());
                                }
                            }
                        }
                        // the inserted key is found
                        lemma_route_is(s1, key, ii);
                        assert(r.lookup(key) == Some(value));
                        // front
                        if ii == 0 {
                            assert(r.front() == key);
                            assert(self0.front() == s0[0].min_key);
                            assert(key <= s0[0].min_key);
                        } else {
                            assert(key > s0[0].min_key);
                            assert(r.front() == s0[0].min_key);
                        }
                        // replace leaves every other key in place
                        if self0.lookup(key) is Some {
                            assert(route(s0, key) == ii);
                            assert(c0.lookup(key) is Some);
                            c0.lemma_lookup_ge_front(key);
                            assert(s0[ii].min_key == c0.front());
                            assert(s0[ii].min_key == key);
                            assert forall|m: int|
                                0 <= m < s0.len() implies (#[trigger] s0[m]).min_key
                                == s1[m].min_key by {}
                            assert forall|q: i64|
                                r.lookup(q) == (if q == key {
                                    Some(value)
                                } else {
                                    self0.lookup(q)
                                }) by {
                                lemma_route_from_same_keys(s0, s1, q, 0);
                                let rq = route(s0, q);
                                lemma_route_from(s0, q, 0);
                                if 0 <= rq < s0.len() {
                                    if rq == ii {
                                        assert(r.lookup(q) == c1.lookup(q));
                                        assert(self0.lookup(q) == c0.lookup(q));
                                    } else {
                                        assert(s1[rq] == s0[rq]);
                                    }
                                } else {
                                    assert(q != key) by {
                                        assert(route(s0, key) == ii);
                                    }
                                }
                            }
                        }
                        // structure and stored entries
                        assert(r.pivots_seq() == s1 && self0.pivots_seq() == s0);
                        assert(c0 == *s0[ii].child);
                        assert(self0.lookup(key) == c0.lookup(key));
                        if c0.lookup(key) is Some {
                            c0.lemma_lookup_in_stored(key);
                            lemma_stored_replace_at(
                                s0,
                                s1,
                                ii,
                                0,
                                (key, c0.lookup(key).unwrap()),
                                (key, value),
                            );
                        } else {
                            lemma_stored_insert_at(s0, s1, ii, 0, (key, value));
                        }
                    }
                    r
                } else {
                    let mut single: Vec<(i64, V)> = Vec::new();
                    single.push((key, value));
                    pivots.push(
                        Pivot { min_key: key, child: Box::new(Node::Leaf(LeafNode::from(single))) },
                    );
                    let r = Node::Branch { pivots };
                    proof {
                        let s1 = pivots@;
                        let n = s0.len() as int;
                        assert(s1 == s0.push(s1[n]));
                        assert forall|m: int| 0 <= m < n implies s1[m] == s0[m] by {}
                        assert(s1[n].min_key == key);
                        let lf = s1[n].child;
                        assert(lf.leaf_entries() == seq![(key, value)]) by {
                            assert(lf.leaf_entries() =~= seq![(key, value)]);
                        }
                        assert(lf.wf() && lf.has_front() && lf.front() == key);
                        assert(r.wf()) by {
                            assert forall|m: int| 0 <= m < s1.len() implies (#[trigger] s1[m]).child.wf()
                                && (s1[m].child.has_front() ==> s1[m].min_key
                                == s1[m].child.front()) by {
                                if m < n {
                                    assert(s0[m].child.wf());
                                    assert(s0[m].child.has_front() ==> s0[m].min_key
                                        == s0[m].child.front());
                                }
                            }
                        }
                        lemma_route_is(s1, key, n);
                        lemma_lookup_at(lf.leaf_entries(), 0);
                        assert((*lf).lookup(key) == Some(value));
                        assert(r.lookup(key) == Some(value));
                        assert(key > s0[0].min_key);
                        assert(r.front() == s0[0].min_key);
                        // key was absent: route ran off the end of the old list
                        assert(self0.lookup(key) is None);
                        // structure and stored entries
                        assert(r.pivots_seq() == s1 && self0.pivots_seq() == s0);
                        assert(*s1[n].child is Leaf);
                        lemma_stored_push(s0, s1[n], 0);
                        lemma_to_multiset_empty::<V>();
                        assert(lf.stored() == Multiset::<(i64, V)>::empty().insert((key, value)))
                            by {
                            broadcast use vstd::seq_lib::group_to_multiset_ensures;

                            assert(lf.leaf_entries() == Seq::<(i64, V)>::empty().push(
                                (key, value),
                            ));
                        }
                        assert(r.stored() =~= self0.stored().insert((key, value))) by {
                            broadcast use vstd::multiset::group_multiset_axioms;

                        }
                    }
                    r
                }
            },
            Node::Leaf(mut leaf) => {
                let ghost l0 = leaf.elements@;
                match leaf.insert_or_replace(key, value) {
                    None => {
                        let r = Node::Leaf(leaf);
                        proof {
                            assert(r.lookup(key) == Some(value));
                            assert(self0.stored() == l0.to_multiset());
                            assert(r.stored() == leaf.elements@.to_multiset());
                            assert(self0.lookup(key) == entries_lookup(l0, key));
                        }
                        r
                    },
                    Some(pair) => {
                        // The leaf is full and the key absent: split at the
                        // midpoint, then retry the insertion against the new
                        // two-pivot branch.
                        let right_elements = leaf.elements.split_off(MAX_VALUES_PER_LEAF / 2);
                        let mut left = leaf;
                        let mut right = LeafNode::from(right_elements);
                        let ghost sl = left.elements@;
                        let ghost sr = right.elements@;
                        proof {
                            lemma_split_sorted(l0, sl, sr);
                            assert(!has_key(sl, key) && !has_key(sr, key)) by {
                                if has_key(sl, key) {
                                    let m = choose|m: int|
                                        0 <= m < sl.len() && (#[trigger] sl[m]).0 == key;
                                    assert(l0[m].0 == key);
                                }
                                if has_key(sr, key) {
                                    let m = choose|m: int|
                                        0 <= m < sr.len() && (#[trigger] sr[m]).0 == key;
                                    assert(l0[m + MAX_VALUES_PER_LEAF / 2].0 == key);
                                }
                            }
                            assert(self0.lookup(key) is None);
                        }
                        let m_l = left.elements[0].0;
                        let m_r = right.elements[0].0;
                        let (k2, v2) = pair;
                        let mut pivots: Vec<Pivot<V>> = Vec::new();
                        if k2 <= m_l {
                            let _overflow = left.insert_or_replace(k2, v2);
                            let ghost sl1 = left.elements@;
                            pivots.push(Pivot { min_key: k2, child: Box::new(Node::Leaf(left)) });
                            pivots.push(Pivot { min_key: m_r, child: Box::new(Node::Leaf(right)) });
                            let r = Node::Branch { pivots };
                            proof {
                                let s1 = pivots@;
                                assert(s1.len() == 2);
                                assert(s1[0].min_key == key);
                                assert(s1[0].child.leaf_entries() == sl1);
                                assert(s1[1].child.leaf_entries() == sr);
                                assert(key < m_l) by {
                                    if key == m_l {
                                        assert(l0[0].0 == key);
                                    }
                                }
                                assert(sl1[0].0 == key);
                                assert((*s1[0].child).wf() && (*s1[1].child).wf());
                                assert(r.wf());
                                lemma_route_is(s1, key, 0);
                                assert((*s1[0].child).lookup(key) == Some(value));
                                assert(r.lookup(key) == Some(value));
                                assert(r.front() == key);
                                assert forall|q: i64|
                                    q != key && r.lookup(q) is Some implies r.lookup(q)
                                    == self0.lookup(q) by {
                                    if q <= key {
                                        lemma_route_is(s1, q, 0);
                                        assert((*s1[0].child).lookup(q) == entries_lookup(sl1, q));
                                        assert(r.lookup(q) == entries_lookup(sl1, q));
                                        assert(entries_lookup(sl1, q) == entries_lookup(sl, q));
                                        lemma_lookup_in_half(l0, sl, 0, q);
                                    } else if q <= m_r {
                                        lemma_route_is(s1, q, 1);
                                        assert((*s1[1].child).lookup(q) == entries_lookup(sr, q));
                                        assert(r.lookup(q) == entries_lookup(sr, q));
                                        lemma_lookup_in_half(l0, sr, (MAX_VALUES_PER_LEAF / 2) as int, q);
                                    } else {
                                        lemma_route_none(s1, q);
                                        assert(r.lookup(q) is None);
                                    }
                                }
                                // the split branch and its stored entries
                                assert(r.pivots_seq() == s1);
                                assert(self0.leaf_entries() == l0);
                                assert(sl == l0.subrange(0, (MAX_VALUES_PER_LEAF / 2) as int));
                                assert(sr == l0.subrange(
                                    (MAX_VALUES_PER_LEAF / 2) as int,
                                    l0.len() as int,
                                ));
                                assert(self0.stored() == l0.to_multiset());
                                assert(l0 =~= sl + sr);
                                vstd::seq_lib::lemma_multiset_commutative(sl, sr);
                                assert(*s1[0].child is Leaf && *s1[1].child is Leaf);
                                assert(sl1 == sl.insert(0, (key, value)));
                                vstd::seq_lib::to_multiset_insert(sl, 0, (key, value));
                                assert(pivots_stored(s1, 2) == Multiset::<(i64, V)>::empty());
                                assert(pivots_stored(s1, 1) == s1[1].child.stored().add(
                                    pivots_stored(s1, 2),
                                ));
                                assert(pivots_stored(s1, 0) == s1[0].child.stored().add(
                                    pivots_stored(s1, 1),
                                ));
                                assert(s1[0].child.stored() == sl1.to_multiset());
                                assert(s1[1].child.stored() == sr.to_multiset());
                                assert(r.stored() =~= self0.stored().insert((key, value))) by {
                                    broadcast use vstd::multiset::group_multiset_axioms;

                                }
                            }
                            r
                        } else if k2 <= m_r {
                            let _overflow = right.insert_or_replace(k2, v2);
                            let ghost sr1 = right.elements@;
                            pivots.push(Pivot { min_key: m_l, child: Box::new(Node::Leaf(left)) });
                            pivots.push(Pivot { min_key: k2, child: Box::new(Node::Leaf(right)) });
                            let r = Node::Branch { pivots };
                            proof {
                                let s1 = pivots@;
                                assert(s1.len() == 2);
                                assert(s1[0].child.leaf_entries() == sl);
                                assert(s1[1].child.leaf_entries() == sr1);
                                assert(key < m_r) by {
                                    if key == m_r {
                                        assert(l0[(MAX_VALUES_PER_LEAF / 2) as int].0 == key);
                                    }
                                }
                                assert(sr1[0].0 == key);
                                assert((*s1[0].child).wf() && (*s1[1].child).wf());
                                assert(r.wf());
                                lemma_route_is(s1, key, 1);
                                assert((*s1[1].child).lookup(key) == Some(value));
                                assert(r.lookup(key) == Some(value));
                                assert(r.front() == m_l);
                                assert forall|q: i64|
                                    q != key && r.lookup(q) is Some implies r.lookup(q)
                                    == self0.lookup(q) by {
                                    if q <= m_l {
                                        lemma_route_is(s1, q, 0);
                                        assert((*s1[0].child).lookup(q) == entries_lookup(sl, q));
                                        assert(r.lookup(q) == entries_lookup(sl, q));
                                        lemma_lookup_in_half(l0, sl, 0, q);
                                    } else if q <= key {
                                        lemma_route_is(s1, q, 1);
                                        assert((*s1[1].child).lookup(q) == entries_lookup(sr1, q));
                                        assert(r.lookup(q) == entries_lookup(sr1, q));
                                        assert(entries_lookup(sr1, q) == entries_lookup(sr, q));
                                        lemma_lookup_in_half(l0, sr, (MAX_VALUES_PER_LEAF / 2) as int, q);
                                    } else {
                                        lemma_route_none(s1, q);
                                        assert(r.lookup(q) is None);
                                    }
                                }
                                // the split branch and its stored entries
                                assert(r.pivots_seq() == s1);
                                assert(self0.leaf_entries() == l0);
                                assert(sl == l0.subrange(0, (MAX_VALUES_PER_LEAF / 2) as int));
                                assert(sr == l0.subrange(
                                    (MAX_VALUES_PER_LEAF / 2) as int,
                                    l0.len() as int,
                                ));
                                assert(self0.stored() == l0.to_multiset());
                                assert(l0 =~= sl + sr);
                                vstd::seq_lib::lemma_multiset_commutative(sl, sr);
                                assert(*s1[0].child is Leaf && *s1[1].child is Leaf);
                                assert(sr1 == sr.insert(0, (key, value)));
                                vstd::seq_lib::to_multiset_insert(sr, 0, (key, value));
                                assert(pivots_stored(s1, 2) == Multiset::<(i64, V)>::empty());
                                assert(pivots_stored(s1, 1) == s1[1].child.stored().add(
                                    pivots_stored(s1, 2),
                                ));
                                assert(pivots_stored(s1, 0) == s1[0].child.stored().add(
                                    pivots_stored(s1, 1),
                                ));
                                assert(s1[0].child.stored() == sl.to_multiset());
                                assert(s1[1].child.stored() == sr1.to_multiset());
                                assert(r.stored() =~= self0.stored().insert((key, value))) by {
                                    broadcast use vstd::multiset::group_multiset_axioms;

                                }
                            }
                            r
                        } else {
                            let mut single: Vec<(i64, V)> = Vec::new();
                            single.push((k2, v2));
                            pivots.push(Pivot { min_key: m_l, child: Box::new(Node::Leaf(left)) });
                            pivots.push(Pivot { min_key: m_r, child: Box::new(Node::Leaf(right)) });
                            pivots.push(
                                Pivot {
                                    min_key: k2,
                                    child: Box::new(Node::Leaf(LeafNode::from(single))),
                                },
                            );
                            let r = Node::Branch { pivots };
                            proof {
                                let s1 = pivots@;
                                assert(s1.len() == 3);
                                assert(s1[0].child.leaf_entries() == sl);
                                assert(s1[1].child.leaf_entries() == sr);
                                let sk = s1[2].child.leaf_entries();
                                assert(sk =~= seq![(key, value)]);
                                assert(entries_sorted(sk));
                                assert((*s1[0].child).wf() && (*s1[1].child).wf() && (*s1[2].child).wf());
                                assert(r.wf());
                                lemma_route_is(s1, key, 2);
                                lemma_lookup_at(sk, 0);
                                assert((*s1[2].child).lookup(key) == Some(value));
                                assert(r.lookup(key) == Some(value));
                                assert(r.front() == m_l);
                                assert forall|q: i64|
                                    q != key && r.lookup(q) is Some implies r.lookup(q)
                                    == self0.lookup(q) by {
                                    if q <= m_l {
                                        lemma_route_is(s1, q, 0);
                                        assert((*s1[0].child).lookup(q) == entries_lookup(sl, q));
                                        assert(r.lookup(q) == entries_lookup(sl, q));
                                        lemma_lookup_in_half(l0, sl, 0, q);
                                    } else if q <= m_r {
                                        lemma_route_is(s1, q, 1);
                                        assert((*s1[1].child).lookup(q) == entries_lookup(sr, q));
                                        assert(r.lookup(q) == entries_lookup(sr, q));
                                        lemma_lookup_in_half(l0, sr, (MAX_VALUES_PER_LEAF / 2) as int, q);
                                    } else if q <= key {
                                        lemma_route_is(s1, q, 2);
                                        assert((*s1[2].child).lookup(q) == entries_lookup(sk, q));
                                        assert(r.lookup(q) == entries_lookup(sk, q));
                                        assert(!has_key(sk, q)) by {
                                            if has_key(sk, q) {
                                                let m = choose|m: int|
                                                    0 <= m < sk.len() && (#[trigger] sk[m]).0 == q;
                                                assert(sk[m].0 == key);
                                            }
                                        }
                                    } else {
                                        lemma_route_none(s1, q);
                                        assert(r.lookup(q) is None);
                                    }
                                }
                                // the split branch and its stored entries
                                assert(r.pivots_seq() == s1);
                                assert(self0.leaf_entries() == l0);
                                assert(sl == l0.subrange(0, (MAX_VALUES_PER_LEAF / 2) as int));
                                assert(sr == l0.subrange(
                                    (MAX_VALUES_PER_LEAF / 2) as int,
                                    l0.len() as int,
                                ));
                                assert(self0.stored() == l0.to_multiset());
                                assert(l0 =~= sl + sr);
                                vstd::seq_lib::lemma_multiset_commutative(sl, sr);
                                assert(*s1[0].child is Leaf && *s1[1].child is Leaf && *s1[2].child
                                    is Leaf);
                                lemma_to_multiset_empty::<V>();
                                assert(sk.to_multiset() == Multiset::<(i64, V)>::empty().insert(
                                    (key, value),
                                )) by {
                                    broadcast use vstd::seq_lib::group_to_multiset_ensures;

                                    assert(sk == Seq::<(i64, V)>::empty().push((key, value)));
                                }
                                assert(pivots_stored(s1, 3) == Multiset::<(i64, V)>::empty());
                                assert(pivots_stored(s1, 2) == s1[2].child.stored().add(
                                    pivots_stored(s1, 3),
                                ));
                                assert(pivots_stored(s1, 1) == s1[1].child.stored().add(
                                    pivots_stored(s1, 2),
                                ));
                                assert(pivots_stored(s1, 0) == s1[0].child.stored().add(
                                    pivots_stored(s1, 1),
                                ));
                                assert(s1[0].child.stored() == sl.to_multiset());
                                assert(s1[1].child.stored() == sr.to_multiset());
                                assert(s1[2].child.stored() == sk.to_multiset());
                                assert(r.stored() =~= self0.stored().insert((key, value))) by {
                                    broadcast use vstd::multiset::group_multiset_axioms;

                                }
                            }
                            r
                        }
                    },
                }
            },
        }
    }
}

impl<V> Node<V> {
    /// Remove a key. At a branch the routing rule selects the child; after the
    /// removal the selected boundary is refreshed to the child's current
    /// minimum (deletion can only raise a boundary), kept as it was when the
    /// child has emptied. A key no boundary admits, or absent from the reached
    /// leaf, is a silent no-op. No node is ever merged or dropped.
    ///
    /// Afterwards the key is no longer found. Deleting an absent key changes
    /// nothing observable.
    pub(crate) fn delete(self, key: i64) -> (r: Node<V>)
        requires
            self.wf(),
        ensures
            r.wf(),
            r.lookup(key) is None,
            self.has_front() && self.front() >= key ==> (r.has_front() ==> r.front() >= key),
            self.lookup(key) is None ==> ((forall|q: i64| r.lookup(q) == self.lookup(q))
                && r.has_front() == self.has_front() && (self.has_front() ==> r.front()
                == self.front()) && ((r is Leaf) <==> (self is Leaf)) && r.leaf_entries()
                == self.leaf_entries()),
            self is Leaf ==> ((r is Leaf) && (forall|q: i64|
                r.lookup(q) == (if q == key {
                    None
                } else {
                    self.lookup(q)
                })) && r.leaf_entries().len() == self.leaf_entries().len() - (if has_key(
                self.leaf_entries(),
                key,
            ) {
                1int
            } else {
                0int
            })),
            (r is Branch) <==> (self is Branch),
            self is Branch ==> ({
                let s0 = self.pivots_seq();
                let s1 = r.pivots_seq();
                let i = route(s0, key);
                &&& s1.len() == s0.len()
                &&& (i == s0.len() ==> r == self)
                &&& (i < s0.len() ==> ((forall|j: int|
                    0 <= j < s0.len() && j != i ==> s1[j] == s0[j]) && s1[i].min_key == (
                if s1[i].child.has_front() {
                    s1[i].child.front()
                } else {
                    s0[i].min_key
                })))
            }),
            self.lookup(key) is Some ==> r.stored() == self.stored().remove(
                (key, self.lookup(key).unwrap()),
            ),
            self.lookup(key) is None ==> r.stored() == self.stored(),
        decreases self,
    {
        let ghost self0 = self;
        match self {
            Node::Branch { mut pivots } => {
                let ghost s0 = pivots@;
                let i = route_pivots(&pivots, key);
                proof {
                    lemma_route_from(s0, key, 0);
                }
                if i < pivots.len() {
                    let p = pivots.remove(i);
                    let Pivot { min_key: old_boundary, child } = p;
                    let ghost c0 = *child;
                    let new_child = (*child).delete(key);
                    let ghost c1 = new_child;
                    let refreshed = if new_child.has_min() {
                        new_child.min_key()
                    } else {
                        old_boundary
                    };
                    pivots.insert(i, Pivot { min_key: refreshed, child: Box::new(new_child) });
                    let r = Node::Branch { pivots };
                    proof {
                        let s1 = pivots@;
                        let ii = i as int;
                        assert(s0[ii].child == p.child && s0[ii].min_key == old_boundary);
                        assert forall|m: int| 0 <= m < s1.len() && m != ii implies s1[m]
                            == s0[m] by {
                            assert(s1[m] == s0.remove(ii).insert(ii, s1[ii])[m]);
                        }
                        assert(s1.len() == s0.len());
                        assert(s1[ii].min_key == refreshed && *s1[ii].child == c1);
                        assert(r.wf()) by {
                            assert forall|m: int| 0 <= m < s1.len() implies (#[trigger] s1[m]).child.wf()
                                && (s1[m].child.has_front() ==> s1[m].min_key
                                == s1[m].child.front()) by {
                                if m != ii {
                                    assert(s0[m].child.wf());
                                    assert(s0[m].child.has_front() ==> s0[m].min_key
                                        == s0[m].child.front());
                                }
                            }
                        }
                        // the selected boundary never falls below the key
                        assert(refreshed >= key) by {
                            if c0.has_front() {
                                assert(c0.front() == old_boundary);
                            }
                        }
                        // the key is gone: the same pivot is selected again
                        lemma_route_is(s1, key, ii);
                        assert(r.lookup(key) is None);
                        // the first boundary does not fall below the key
                        if ii == 0 {
                            assert(r.front() == refreshed);
                        } else {
                            assert(r.front() == s0[0].min_key);
                        }
                        // deleting an absent key changes nothing observable
                        if self0.lookup(key) is None {
                            assert(route(s0, key) == ii);
                            assert(c0.lookup(key) is None);
                            assert(refreshed == old_boundary) by {
                                if c1.has_front() {
                                    assert(c0.has_front());
                                    assert(c0.front() == old_boundary);
                                }
                            }
                            assert forall|m: int|
                                0 <= m < s0.len() implies (#[trigger] s0[m]).min_key
                                == s1[m].min_key by {}
                            assert forall|q: i64| r.lookup(q) == self0.lookup(q) by {
                                lemma_route_from_same_keys(s0, s1, q, 0);
                                let rq = route(s0, q);
                                lemma_route_from(s0, q, 0);
                                if 0 <= rq < s0.len() {
                                    if rq == ii {
                                        assert(r.lookup(q) == c1.lookup(q));
                                        assert(self0.lookup(q) == c0.lookup(q));
                                    } else {
                                        assert(s1[rq] == s0[rq]);
                                    }
                                }
                            }
                            assert(r.front() == self0.front());
                        }
                        // structure and stored entries
                        assert(r.pivots_seq() == s1 && self0.pivots_seq() == s0);
                        assert(c0 == *s0[ii].child);
                        assert(self0.lookup(key) == c0.lookup(key));
                        if c0.lookup(key) is Some {
                            c0.lemma_lookup_in_stored(key);
                            lemma_stored_remove_at(s0, s1, ii, 0, (key, c0.lookup(key).unwrap()));
                        } else {
                            assert forall|j: int|
                                0 <= j < s0.len() implies (#[trigger] s0[j]).child.stored() == (
                            #[trigger] s1[j]).child.stored() by {
                                if j != ii {
                                    assert(s1[j] == s0[j]);
                                }
                            }
                            lemma_stored_congruent(s0, s1, 0);
                        }
                    }
                    r
                } else {
                    let r = Node::Branch { pivots };
                    proof {
                        assert(r == self0);
                        assert(r.lookup(key) is None);
                    }
                    r
                }
            },
            Node::Leaf(mut leaf) => {
                let ghost l0 = leaf.elements@;
                leaf.remove(key);
                let r = Node::Leaf(leaf);
                proof {
                    assert(r.lookup(key) is None);
                    if !has_key(l0, key) {
                        assert(leaf.elements@ == l0);
                    }
                    assert(self0.stored() == l0.to_multiset());
                    assert(r.stored() == leaf.elements@.to_multiset());
                    assert(self0.lookup(key) == entries_lookup(l0, key));
                }
                r
            },
        }
    }
}

/// Splitting a sorted sequence keeps both halves sorted.
pub(crate) proof fn lemma_split_sorted<V>(s: Seq<(i64, V)>, sl: Seq<(i64, V)>, sr: Seq<(i64, V)>)
    requires
        entries_sorted(s),
        sl == s.subrange(0, (MAX_VALUES_PER_LEAF / 2) as int),
        sr == s.subrange((MAX_VALUES_PER_LEAF / 2) as int, s.len() as int),
        s.len() == MAX_VALUES_PER_LEAF,
    ensures
        entries_sorted(sl),
        entries_sorted(sr),
        sl.len() == MAX_VALUES_PER_LEAF / 2,
        sr.len() == MAX_VALUES_PER_LEAF - MAX_VALUES_PER_LEAF / 2,
        sl[0].0 == s[0].0,
        sl[0].0 < sr[0].0,
        forall|m: int| 0 <= m < sl.len() ==> (#[trigger] sl[m]) == s[m],
        forall|m: int| 0 <= m < sr.len() ==> (#[trigger] sr[m]) == s[m + MAX_VALUES_PER_LEAF / 2],
{
    assert(s[0].0 < s[(MAX_VALUES_PER_LEAF / 2) as int].0);
}

/// A key found in a contiguous piece of a sorted sequence is found in the
/// whole, with the same value.
pub(crate) proof fn lemma_lookup_in_half<V>(s: Seq<(i64, V)>, half: Seq<(i64, V)>, off: int, q: i64)
    requires
        entries_sorted(s),
        0 <= off,
        off + half.len() <= s.len(),
        forall|m: int| 0 <= m < half.len() ==> (#[trigger] half[m]) == s[m + off],
        entries_lookup(half, q) is Some,
    ensures
        entries_lookup(s, q) == entries_lookup(half, q),
{
    assert(entries_sorted(half)) by {
        assert forall|a: int, b: int| 0 <= a < b < half.len() implies half[a].0 < half[b].0 by {
            assert(half[a] == s[a + off]);
            assert(half[b] == s[b + off]);
        }
    }
    assert(has_key(half, q));
    let m = choose|m: int| 0 <= m < half.len() && (#[trigger] half[m]).0 == q;
    lemma_lookup_at(half, m);
    assert(s[m + off] == half[m]);
    lemma_lookup_at(s, m + off);
}

/// The routing rule, executed: index of the first pivot whose boundary is at
/// or above the key, or the pivot count when none is.
pub(crate) fn route_pivots<V>(pivots: &Vec<Pivot<V>>, key: i64) -> (r: usize)
    ensures
        r as int == route(pivots@, key),
        r <= pivots@.len(),
{
    proof {
        lemma_route_from(pivots@, key, 0);
    }
    let mut j: usize = 0;
    while j < pivots.len()
        invariant
            j <= pivots@.len(),
            route(pivots@, key) == route_from(pivots@, key, j as int),
        decreases pivots@.len() - j,
    {
        if key <= pivots[j].min_key {
            proof {
                assert(route_from(pivots@, key, j as int) == j);
            }
            return j;
        }
        proof {
            assert(route_from(pivots@, key, j as int) == route_from(pivots@, key, j as int + 1));
        }
        j += 1;
    }
    proof {
        assert(route_from(pivots@, key, j as int) == pivots@.len());
    }
    j
}

} // verus!
