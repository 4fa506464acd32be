use vstd::prelude::*;

verus! {

/// Fixed capacity of a leaf block: the number of entry slots.
pub const MAX_VALUES_PER_LEAF: usize = 4;

/// Keys strictly ascending: the ordering invariant of a leaf block's entries.
pub(crate) open spec fn entries_sorted<V>(s: Seq<(i64, V)>) -> bool {
    forall|i: int, j: int| #![trigger s[i], s[j]] 0 <= i < j < s.len() ==> s[i].0 < s[j].0
}

/// Some entry of `s` carries `key`.
pub(crate) open spec fn has_key<V>(s: Seq<(i64, V)>, key: i64) -> bool {
    exists|j: int| 0 <= j < s.len() && (#[trigger] s[j]).0 == key
}

/// The value stored under `key`, if any. On a sorted sequence there is at most
/// one entry per key, so the choice is determined.
pub(crate) open spec fn entries_lookup<V>(s: Seq<(i64, V)>, key: i64) -> Option<V> {
    if has_key(s, key) {
        Some(s[choose|j: int| 0 <= j < s.len() && (#[trigger] s[j]).0 == key].1)
    } else {
        None
    }
}

/// On a sorted sequence, looking up the key of entry `j` yields that entry's value.
pub(crate) proof fn lemma_lookup_at<V>(s: Seq<(i64, V)>, j: int)
    requires
        entries_sorted(s),
        0 <= j < s.len(),
    ensures
        entries_lookup(s, s[j].0) == Some(s[j].1),
{
    assert(has_key(s, s[j].0));
    let j2 = choose|j2: int| 0 <= j2 < s.len() && (#[trigger] s[j2]).0 == s[j].0;
    if j2 < j {
        assert(s[j2].0 < s[j].0);
    } else if j < j2 {
        assert(s[j].0 < s[j2].0);
    }
    assert(j2 == j);
}

/// A leaf block: a sorted array of (key, value) entries. The vector holds
/// exactly the valid prefix of the fixed-size block; its length is the leaf's
/// logical length and never exceeds the capacity.
pub(crate) struct LeafNode<V> {
    pub(crate) elements: Vec<(i64, V)>,
}

impl<V> LeafNode<V> {
    /// Well-formed: entries strictly ascending by key, length within capacity.
    pub(crate) open spec fn wf(self) -> bool {
        entries_sorted(self.elements@) && self.elements@.len() <= MAX_VALUES_PER_LEAF
    }

    /// An empty leaf block.
    pub(crate) fn empty() -> (r: Self)
        ensures
            r.wf(),
            r.elements@ == Seq::<(i64, V)>::empty(),
    {
        LeafNode { elements: Vec::new() }
    }

    /// A leaf block holding the given entries.
    pub(crate) fn from(items: Vec<(i64, V)>) -> (r: Self)
        requires
            items@.len() <= MAX_VALUES_PER_LEAF,
        ensures
            r.elements@ == items@,
    {
        LeafNode { elements: items }
    }

    /// The meaningful entries of the block: here, the whole vector.
    pub(crate) fn valid_elements(&self) -> (r: &Vec<(i64, V)>)
        ensures
            r@ == self.elements@,
    {
        &self.elements
    }

    /// Binary search over the entries. `Ok(j)` locates `key` at index `j`;
    /// `Err(j)` gives the insertion index that keeps the entries sorted.
    pub(crate) fn search(&self, key: i64) -> (r: Result<usize, usize>)
        requires
            entries_sorted(self.elements@),
        ensures
            match r {
                Ok(j) => j < self.elements@.len() && self.elements@[j as int].0 == key,
                Err(j) => {
                    &&& j <= self.elements@.len()
                    &&& forall|m: int| 0 <= m < j ==> self.elements@[m].0 < key
                    &&& forall|m: int| j <= m < self.elements@.len() ==> self.elements@[m].0 > key
                },
            },
    {
        let mut lo: usize = 0;
        let mut hi: usize = self.elements.len();
        while lo < hi
            invariant
                lo <= hi <= self.elements@.len(),
                entries_sorted(self.elements@),
                forall|m: int| 0 <= m < lo ==> self.elements@[m].0 < key,
                forall|m: int| hi <= m < self.elements@.len() ==> self.elements@[m].0 > key,
            decreases hi - lo,
        {
            let mid = lo + (hi - lo) / 2;
            let k = self.elements[mid].0;
            if k < key {
                assert forall|m: int| 0 <= m < mid + 1 implies self.elements@[m].0 < key by {
                    if m < mid {
                        assert(self.elements@[m].0 < self.elements@[mid as int].0);
                    }
                }
                lo = mid + 1;
            } else if k > key {
                assert forall|m: int| mid <= m < self.elements@.len() implies self.elements@[m].0
                    > key by {
                    if mid < m {
                        assert(self.elements@[mid as int].0 < self.elements@[m].0);
                    }
                }
                hi = mid;
            } else {
                return Ok(mid);
            }
        }
        Err(lo)
    }

    /// Point lookup by binary search; a reference to the value if the key is present.
    pub(crate) fn lookup(&self, key: i64) -> (r: Option<&V>)
        requires
            self.wf(),
        ensures
            match r {
                Some(v) => entries_lookup(self.elements@, key) == Some(*v),
                None => entries_lookup(self.elements@, key) is None,
            },
    {
        match self.search(key) {
            Ok(j) => {
                proof {
                    lemma_lookup_at(self.elements@, j as int);
                }
                Some(&self.elements[j].1)
            },
            Err(j) => {
                proof {
                    assert(!has_key(self.elements@, key)) by {
                        if has_key(self.elements@, key) {
                            let m = choose|m: int|
                                0 <= m < self.elements@.len() && (#[trigger] self.elements@[m]).0
                                    == key;
                            assert(self.elements@[m].0 != key);
                        }
                    }
                }
                None
            },
        }
    }

    /// Insert a new entry at its sorted position, or overwrite the value of an
    /// existing entry in place. A full leaf with the key absent reports overflow
    /// by handing the pair back untouched, so the caller can split.
    pub(crate) fn insert_or_replace(&mut self, key: i64, value: V) -> (r: Option<(i64, V)>)
        requires
            old(self).wf(),
        ensures
            final(self).wf(),
            r is None <==> (has_key(old(self).elements@, key) || old(self).elements@.len()
                < MAX_VALUES_PER_LEAF),
            r is Some ==> r == Some((key, value)) && final(self).elements@ == old(self).elements@,
            r is None ==> {
                let s0 = old(self).elements@;
                let s1 = final(self).elements@;
                &&& s1.len() == s0.len() + (if has_key(s0, key) {
                    0int
                } else {
                    1int
                })
                &&& forall|q: i64|
                    entries_lookup(s1, q) == (if q == key {
                        Some(value)
                    } else {
                        entries_lookup(s0, q)
                    })
                &&& s1.len() > 0
                &&& s1[0].0 == (if s0.len() == 0 || key <= s0[0].0 {
                    key
                } else {
                    s0[0].0
                })
                &&& s1.to_multiset() == (if has_key(s0, key) {
                    s0.to_multiset().remove((key, entries_lookup(s0, key).unwrap())).insert(
                        (key, value),
                    )
                } else {
                    s0.to_multiset().insert((key, value))
                })
                &&& (!has_key(s0, key) && (s0.len() == 0 || key < s0[0].0)) ==> s1 == s0.insert(
                    0,
                    (key, value),
                )
            },
    {
        let ghost s0 = self.elements@;
        match self.search(key) {
            Ok(j) => {
                let _replaced = self.elements.remove(j);
                self.elements.insert(j, (key, value));
                proof {
                    let s1 = self.elements@;
                    vstd::seq_lib::to_multiset_remove(s0, j as int);
                    vstd::seq_lib::to_multiset_insert(s0.remove(j as int), j as int, (key, value));
                    lemma_lookup_at(s0, j as int);
                    assert(s0[j as int] == (key, entries_lookup(s0, key).unwrap()));
                    assert(s1 =~= s0.update(j as int, (key, value)));
                    assert(entries_sorted(s1));
                    assert(has_key(s0, key));
                    assert forall|q: i64|
                        entries_lookup(s1, q) == (if q == key {
                            Some(value)
                        } else {
                            entries_lookup(s0, q)
                        }) by {
                        lemma_lookup_pointwise_same_keys(s0, s1, q);
                        if q == key {
                            lemma_lookup_at(s1, j as int);
                        }
                    }
                    assert(s1[0].0 == s0[0].0);
                    lemma_lookup_at(s0, j as int);
                    assert(s0[j as int].0 == key);
                    if j == 0 {
                        assert(s1[0].0 == key);
                    } else {
                        assert(s0[0].0 < s0[j as int].0);
                    }
                }
                None
            },
            Err(j) => {
                if self.elements.len() < MAX_VALUES_PER_LEAF {
                    self.elements.insert(j, (key, value));
                    proof {
                        let s1 = self.elements@;
                        vstd::seq_lib::to_multiset_insert(s0, j as int, (key, value));
                        if s0.len() == 0 || key < s0[0].0 {
                            assert(j == 0) by {
                                if j > 0 {
                                    assert(s0[0].0 < key);
                                }
                            }
                        }
                        assert(s1 == s0.insert(j as int, (key, value)));
                        assert(!has_key(s0, key)) by {
                            if has_key(s0, key) {
                                let m = choose|m: int|
                                    0 <= m < s0.len() && (#[trigger] s0[m]).0 == key;
                                assert(s0[m].0 != key);
                            }
                        }
                        lemma_sorted_insert(s0, j as int, key, value);
                        assert forall|q: i64|
                            entries_lookup(s1, q) == (if q == key {
                                Some(value)
                            } else {
                                entries_lookup(s0, q)
                            }) by {
                            lemma_lookup_after_insert(s0, j as int, key, value, q);
                        }
                    }
                    None
                } else {
                    proof {
                        assert(!has_key(s0, key)) by {
                            if has_key(s0, key) {
                                let m = choose|m: int|
                                    0 <= m < s0.len() && (#[trigger] s0[m]).0 == key;
                                assert(s0[m].0 != key);
                            }
                        }
                    }
                    Some((key, value))
                }
            },
        }
    }

    /// Remove the entry holding `key`, shifting later entries left; a silent
    /// no-op when the key is absent.
    pub(crate) fn remove(&mut self, key: i64)
        requires
            old(self).wf(),
        ensures
            final(self).wf(),
            final(self).elements@.len() == old(self).elements@.len() - (if has_key(
                old(self).elements@,
                key,
            ) {
                1int
            } else {
                0int
            }),
            forall|q: i64|
                entries_lookup(final(self).elements@, q) == (if q == key {
                    None
                } else {
                    entries_lookup(old(self).elements@, q)
                }),
            !has_key(old(self).elements@, key) ==> final(self).elements@ == old(self).elements@,
            has_key(old(self).elements@, key) ==> final(self).elements@.to_multiset() == old(
                self,
            ).elements@.to_multiset().remove((key, entries_lookup(old(self).elements@, key).unwrap())),
            old(self).elements@.len() > 0 && final(self).elements@.len() > 0 ==> final(self).elements@[0].0 >= old(self).elements@[0].0,
    {
        let ghost s0 = self.elements@;
        match self.search(key) {
            Ok(j) => {
                self.elements.remove(j);
                proof {
                    let s1 = self.elements@;
                    vstd::seq_lib::to_multiset_remove(s0, j as int);
                    lemma_lookup_at(s0, j as int);
                    assert(s0[j as int] == (key, entries_lookup(s0, key).unwrap()));
                    assert(s1 == s0.remove(j as int));
                    assert(entries_sorted(s1));
                    assert(has_key(s0, key));
                    assert forall|q: i64|
                        entries_lookup(s1, q) == (if q == key {
                            None
                        } else {
                            entries_lookup(s0, q)
                        }) by {
                        lemma_lookup_after_remove(s0, j as int, q);
                    }
                    if s1.len() > 0 {
                        if j == 0 {
                            assert(s1[0] == s0[1]);
                            assert(s0[0].0 < s0[1].0);
                        } else {
                            assert(s1[0] == s0[0]);
                        }
                    }
                }
            },
            Err(j) => {
                proof {
                    assert(!has_key(s0, key)) by {
                        if has_key(s0, key) {
                            let m = choose|m: int| 0 <= m < s0.len() && (#[trigger] s0[m]).0 == key;
                            assert(s0[m].0 != key);
                        }
                    }
                }
            },
        }
    }
}

/// Two sorted sequences with the same keys at the same indices find the same
/// keys, and where their values agree at a key's index, the same values.
pub(crate) proof fn lemma_lookup_pointwise_same_keys<V>(s0: Seq<(i64, V)>, s1: Seq<(i64, V)>, q: i64)
    requires
        entries_sorted(s0),
        entries_sorted(s1),
        s0.len() == s1.len(),
        forall|m: int| 0 <= m < s0.len() ==> (#[trigger] s0[m]).0 == (#[trigger] s1[m]).0,
    ensures
        entries_lookup(s0, q) is Some <==> entries_lookup(s1, q) is Some,
        forall|m: int|
            0 <= m < s0.len() && s0[m].0 == q && s1[m].1 == s0[m].1 ==> entries_lookup(s1, q)
                == entries_lookup(s0, q),
{
    if has_key(s0, q) {
        let m = choose|m: int| 0 <= m < s0.len() && (#[trigger] s0[m]).0 == q;
        assert(s1[m].0 == q);
        assert(has_key(s1, q));
    }
    if has_key(s1, q) {
        let m = choose|m: int| 0 <= m < s1.len() && (#[trigger] s1[m]).0 == q;
        assert(s0[m].0 == q);
        assert(has_key(s0, q));
    }
    assert forall|m: int|
        0 <= m < s0.len() && s0[m].0 == q && s1[m].1 == s0[m].1 implies entries_lookup(s1, q)
        == entries_lookup(s0, q) by {
        lemma_lookup_at(s0, m);
        lemma_lookup_at(s1, m);
    }
}

/// Inserting a fresh key at its sorted position keeps the sequence sorted.
pub(crate) proof fn lemma_sorted_insert<V>(s0: Seq<(i64, V)>, j: int, key: i64, value: V)
    requires
        entries_sorted(s0),
        0 <= j <= s0.len(),
        forall|m: int| 0 <= m < j ==> s0[m].0 < key,
        forall|m: int| j <= m < s0.len() ==> s0[m].0 > key,
    ensures
        entries_sorted(s0.insert(j, (key, value))),
{
    let s1 = s0.insert(j, (key, value));
    assert forall|a: int, b: int| 0 <= a < b < s1.len() implies s1[a].0 < s1[b].0 by {
        if a < j {
            assert(s1[a] == s0[a]);
        } else if a > j {
            assert(s1[a] == s0[a - 1]);
        }
        if b < j {
            assert(s1[b] == s0[b]);
        } else if b > j {
            assert(s1[b] == s0[b - 1]);
        }
    }
}

/// How lookups change when a fresh key is inserted at its sorted position:
/// the new key is found with the new value, every other key is unaffected.
pub(crate) proof fn lemma_lookup_after_insert<V>(s0: Seq<(i64, V)>, j: int, key: i64, value: V, q: i64)
    requires
        entries_sorted(s0),
        0 <= j <= s0.len(),
        forall|m: int| 0 <= m < j ==> s0[m].0 < key,
        forall|m: int| j <= m < s0.len() ==> s0[m].0 > key,
    ensures
        entries_lookup(s0.insert(j, (key, value)), q) == (if q == key {
            Some(value)
        } else {
            entries_lookup(s0, q)
        }),
{
    let s1 = s0.insert(j, (key, value));
    lemma_sorted_insert(s0, j, key, value);
    if q == key {
        assert(s1[j].0 == key);
        lemma_lookup_at(s1, j);
    } else {
        if has_key(s0, q) {
            let m = choose|m: int| 0 <= m < s0.len() && (#[trigger] s0[m]).0 == q;
            lemma_lookup_at(s0, m);
            if m < j {
                assert(s1[m] == s0[m]);
                lemma_lookup_at(s1, m);
            } else {
                assert(s1[m + 1] == s0[m]);
                lemma_lookup_at(s1, m + 1);
            }
        } else {
            assert(!has_key(s1, q)) by {
                if has_key(s1, q) {
                    let m = choose|m: int| 0 <= m < s1.len() && (#[trigger] s1[m]).0 == q;
                    if m < j {
                        assert(s1[m] == s0[m]);
                        assert(s0[m].0 != q);
                    } else if m == j {
                        assert(s1[m].0 == key);
                    } else {
                        assert(s1[m] == s0[m - 1]);
                        assert(s0[m - 1].0 != q);
                    }
                }
            }
        }
    }
}

/// How lookups change when the entry at index `j` is removed: its key becomes
/// absent, every other key is unaffected.
pub(crate) proof fn lemma_lookup_after_remove<V>(s0: Seq<(i64, V)>, j: int, q: i64)
    requires
        entries_sorted(s0),
        0 <= j < s0.len(),
    ensures
        entries_lookup(s0.remove(j), q) == (if q == s0[j].0 {
            None
        } else {
            entries_lookup(s0, q)
        }),
{
    let s1 = s0.remove(j);
    assert(entries_sorted(s1)) by {
        assert forall|a: int, b: int| 0 <= a < b < s1.len() implies s1[a].0 < s1[b].0 by {
            if a >= j {
                assert(s1[a] == s0[a + 1]);
            } else {
                assert(s1[a] == s0[a]);
            }
            if b >= j {
                assert(s1[b] == s0[b + 1]);
            } else {
                assert(s1[b] == s0[b]);
            }
        }
    }
    if q == s0[j].0 {
        assert(!has_key(s1, q)) by {
            if has_key(s1, q) {
                let m = choose|m: int| 0 <= m < s1.len() && (#[trigger] s1[m]).0 == q;
                if m < j {
                    assert(s1[m] == s0[m]);
                    assert(s0[m].0 < s0[j].0);
                } else {
                    assert(s1[m] == s0[m + 1]);
                    assert(s0[j].0 < s0[m + 1].0);
                }
            }
        }
    } else {
        if has_key(s0, q) {
            let m = choose|m: int| 0 <= m < s0.len() && (#[trigger] s0[m]).0 == q;
            lemma_lookup_at(s0, m);
            if m < j {
                assert(s1[m] == s0[m]);
                lemma_lookup_at(s1, m);
            } else {
                assert(m > j);
                assert(s1[m - 1] == s0[m]);
                lemma_lookup_at(s1, m - 1);
            }
        } else {
            assert(!has_key(s1, q)) by {
                if has_key(s1, q) {
                    let m = choose|m: int| 0 <= m < s1.len() && (#[trigger] s1[m]).0 == q;
                    if m < j {
                        assert(s1[m] == s0[m]);
                        assert(s0[m].0 != q);
                    } else {
                        assert(s1[m] == s0[m + 1]);
                        assert(s0[m + 1].0 != q);
                    }
                }
            }
        }
    }
}

} // verus!
