//! Maps and sets keyed by the index of a derivation or store path, kept in
//! increasing order of their keys.
use vstd::prelude::*;

verus! {

/// Keys in strictly increasing order.
pub open spec fn keys_increasing<V>(s: Seq<(usize, V)>) -> bool {
    forall|i: int, j: int| 0 <= i < j < s.len() ==> #[trigger] s[i].0 < #[trigger] s[j].0
}

/// Whether `k` is the key of an entry.
pub open spec fn has_key<V>(s: Seq<(usize, V)>, k: usize) -> bool {
    exists|i: int| 0 <= i < s.len() && #[trigger] s[i].0 == k
}

/// The entries as a map, each value by its view.
pub open spec fn entries_map<V: View>(s: Seq<(usize, V)>) -> Map<usize, V::V> {
    Map::new(
        |k: usize| has_key(s, k),
        |k: usize| s[choose|i: int| 0 <= i < s.len() && #[trigger] s[i].0 == k].1@,
    )
}

/// A map from indices to values, in increasing order of the indices.
#[derive(Clone, Debug)]
pub struct IdMap<V> {
    pub entries: Vec<(usize, V)>,
}

impl<V: View> View for IdMap<V> {
    type V = Map<usize, V::V>;

    open spec fn view(&self) -> Map<usize, V::V> {
        entries_map(self.entries@)
    }
}

pub(crate) proof fn lemma_entries_map_at<V: View>(s: Seq<(usize, V)>, i: int)
    requires
        keys_increasing(s),
        0 <= i < s.len(),
    ensures
        entries_map(s).dom().contains(s[i].0),
        entries_map(s)[s[i].0] == s[i].1@,
{
    let k = s[i].0;
    assert(has_key(s, k));
    let c = choose|c: int| 0 <= c < s.len() && #[trigger] s[c].0 == k;
    if c < i {
        assert(s[c].0 < s[i].0);
    }
    if i < c {
        assert(s[i].0 < s[c].0);
    }
}

proof fn lemma_entries_map_finite<V: View>(s: Seq<(usize, V)>)
    ensures
        entries_map(s).dom().finite(),
        entries_map(s).dom() == s.map_values(|e: (usize, V)| e.0).to_set(),
{
    let ks = s.map_values(|e: (usize, V)| e.0);
    assert forall|k: usize| entries_map(s).dom().contains(k) <==> ks.to_set().contains(k) by {
        if has_key(s, k) {
            let i = choose|i: int| 0 <= i < s.len() && #[trigger] s[i].0 == k;
            assert(ks[i] == k);
        }
        if ks.contains(k) {
            let i = choose|i: int| 0 <= i < ks.len() && ks[i] == k;
            assert(s[i].0 == k);
        }
    }
    assert(entries_map(s).dom() =~= ks.to_set());
}

impl<V: View> IdMap<V> {
    pub open spec fn wf(&self) -> bool {
        keys_increasing(self.entries@)
    }

    /// An empty map.
    pub fn new() -> (m: Self)
        ensures
            m.wf(),
            m@ == Map::<usize, V::V>::empty(),
    {
        let m = IdMap { entries: Vec::new() };
        assert(m@ =~= Map::<usize, V::V>::empty());
        m
    }

    /// The number of entries.
    pub fn len(&self) -> (n: usize)
        requires
            self.wf(),
        ensures
            n == self@.len(),
            self@.dom().finite(),
    {
        proof {
            lemma_entries_map_finite(self.entries@);
            let ks = self.entries@.map_values(|e: (usize, V)| e.0);
            assert(ks.no_duplicates()) by {
                assert forall|a: int, b: int| 0 <= a < ks.len() && 0 <= b < ks.len() && a != b implies ks[a] != ks[b] by {
                    if a < b {
                        assert(self.entries@[a].0 < self.entries@[b].0);
                    } else {
                        assert(self.entries@[b].0 < self.entries@[a].0);
                    }
                }
            }
            ks.unique_seq_to_set();
        }
        self.entries.len()
    }

    /// Whether the map has no entry.
    pub fn is_empty(&self) -> (b: bool)
        requires
            self.wf(),
        ensures
            b == (self@ == Map::<usize, V::V>::empty()),
    {
        if self.entries.len() == 0 {
            assert(self@ =~= Map::<usize, V::V>::empty());
            true
        } else {
            proof {
                lemma_entries_map_at(self.entries@, 0);
                assert(self@.dom().contains(self.entries@[0].0));
            }
            false
        }
    }

    /// The first place whose key is not below `k`.
    fn place_for(&self, k: usize) -> (p: usize)
        requires
            self.wf(),
        ensures
            p <= self.entries.len(),
            forall|j: int| 0 <= j < p ==> #[trigger] self.entries@[j].0 < k,
            p < self.entries.len() ==> self.entries@[p as int].0 >= k,
    {
        let mut p: usize = 0;
        while p < self.entries.len() && self.entries[p].0 < k
            invariant
                p <= self.entries.len(),
                forall|j: int| 0 <= j < p ==> #[trigger] self.entries@[j].0 < k,
            decreases self.entries.len() - p,
        {
            p += 1;
        }
        p
    }

    /// Whether `k` has an entry.
    pub fn contains_key(&self, k: usize) -> (b: bool)
        requires
            self.wf(),
        ensures
            b == self@.dom().contains(k),
    {
        let p = self.place_for(k);
        if p < self.entries.len() && self.entries[p].0 == k {
            proof {
                lemma_entries_map_at(self.entries@, p as int);
            }
            true
        } else {
            proof {
                if has_key(self.entries@, k) {
                    let i = choose|i: int| 0 <= i < self.entries@.len() && #[trigger] self.entries@[i].0 == k;
                    if i > p {
                        assert(self.entries@[p as int].0 < self.entries@[i].0);
                    }
                }
            }
            false
        }
    }

    /// The value of `k`, if it has an entry.
    pub fn get(&self, k: usize) -> (r: Option<&V>)
        requires
            self.wf(),
        ensures
            match r {
                Some(v) => self@.dom().contains(k) && self@[k] == v@,
                None => !self@.dom().contains(k),
            },
    {
        let p = self.place_for(k);
        if p < self.entries.len() && self.entries[p].0 == k {
            proof {
                lemma_entries_map_at(self.entries@, p as int);
            }
            Some(&self.entries[p].1)
        } else {
            proof {
                if has_key(self.entries@, k) {
                    let i = choose|i: int| 0 <= i < self.entries@.len() && #[trigger] self.entries@[i].0 == k;
                    if i > p {
                        assert(self.entries@[p as int].0 < self.entries@[i].0);
                    }
                }
            }
            None
        }
    }

    /// Sets the value of `k` to `v`.
    pub fn insert(&mut self, k: usize, v: V)
        requires
            old(self).wf(),
        ensures
            final(self).wf(),
            final(self)@ == old(self)@.insert(k, v@),
    {
        let p = self.place_for(k);
        let ghost s0 = self.entries@;
        if p < self.entries.len() && self.entries[p].0 == k {
            self.entries.set(p, (k, v));
            proof {
                let s = self.entries@;
                assert forall|i: int, j: int| 0 <= i < j < s.len() implies #[trigger] s[i].0 < #[trigger] s[j].0 by {
                    assert(s0[i].0 < s0[j].0);
                }
                lemma_entries_map_at(s, p as int);
                assert forall|key: usize| #[trigger] self@.dom().contains(key) <==> old(self)@.insert(k, v@).dom().contains(key) by {
                    if has_key(s, key) {
                        let i = choose|i: int| 0 <= i < s.len() && #[trigger] s[i].0 == key;
                        if i != p {
                            assert(s0[i].0 == key);
                        }
                    }
                    if has_key(s0, key) {
                        let i = choose|i: int| 0 <= i < s0.len() && #[trigger] s0[i].0 == key;
                        assert(s[i].0 == key);
                    }
                }
                assert forall|key: usize| #[trigger] self@.dom().contains(key) implies self@[key] == old(self)@.insert(k, v@)[key] by {
                    let i = choose|i: int| 0 <= i < s.len() && #[trigger] s[i].0 == key;
                    lemma_entries_map_at(s, i);
                    if i != p {
                        lemma_entries_map_at(s0, i);
                    }
                }
                assert(self@ =~= old(self)@.insert(k, v@));
            }
        } else {
            self.entries.insert(p, (k, v));
            proof {
                let s = self.entries@;
                assert forall|i: int, j: int| 0 <= i < j < s.len() implies #[trigger] s[i].0 < #[trigger] s[j].0 by {
                    if j < p {
                        assert(s0[i].0 < s0[j].0);
                    } else if j == p {
                        assert(s0[i].0 < k);
                    } else if i < p {
                        assert(s0[i].0 < k);
                        assert(s0[p as int].0 >= k);
                        assert(s0[i].0 < s0[j - 1].0 || j - 1 == i);
                        if j - 1 > p {
                            assert(s0[p as int].0 < s0[j - 1].0);
                        }
                    } else if i == p {
                        assert(s0[p as int].0 >= k);
                        if j - 1 > p {
                            assert(s0[p as int].0 < s0[j - 1].0);
                        }
                    } else {
                        assert(s0[i - 1].0 < s0[j - 1].0);
                    }
                }
                assert(s[p as int] == (k, v));
                lemma_entries_map_at(s, p as int);
                assert forall|key: usize| #[trigger] self@.dom().contains(key) <==> old(self)@.insert(k, v@).dom().contains(key) by {
                    if has_key(s, key) {
                        let i = choose|i: int| 0 <= i < s.len() && #[trigger] s[i].0 == key;
                        if i < p {
                            assert(s0[i].0 == key);
                        } else if i > p {
                            assert(s0[i - 1].0 == key);
                        }
                    }
                    if has_key(s0, key) {
                        let i = choose|i: int| 0 <= i < s0.len() && #[trigger] s0[i].0 == key;
                        if i < p {
                            assert(s[i].0 == key);
                        } else {
                            assert(s[i + 1].0 == key);
                        }
                    }
                }
                assert forall|key: usize| #[trigger] self@.dom().contains(key) implies self@[key] == old(self)@.insert(k, v@)[key] by {
                    let i = choose|i: int| 0 <= i < s.len() && #[trigger] s[i].0 == key;
                    lemma_entries_map_at(s, i);
                    if i < p {
                        lemma_entries_map_at(s0, i);
                    } else if i > p {
                        lemma_entries_map_at(s0, i - 1);
                    }
                }
                assert(self@ =~= old(self)@.insert(k, v@));
            }
        }
    }

    /// Removes the entry of `k`, if any.
    pub fn remove(&mut self, k: usize)
        requires
            old(self).wf(),
        ensures
            final(self).wf(),
            final(self)@ == old(self)@.remove(k),
    {
        let p = self.place_for(k);
        let ghost s0 = self.entries@;
        if p < self.entries.len() && self.entries[p].0 == k {
            self.entries.remove(p);
            proof {
                let s = self.entries@;
                assert forall|i: int, j: int| 0 <= i < j < s.len() implies #[trigger] s[i].0 < #[trigger] s[j].0 by {
                    if j < p {
                        assert(s0[i].0 < s0[j].0);
                    } else if i < p {
                        assert(s0[i].0 < s0[j + 1].0);
                    } else {
                        assert(s0[i + 1].0 < s0[j + 1].0);
                    }
                }
                assert forall|key: usize| #[trigger] self@.dom().contains(key) <==> old(self)@.remove(k).dom().contains(key) by {
                    if has_key(s, key) {
                        let i = choose|i: int| 0 <= i < s.len() && #[trigger] s[i].0 == key;
                        if i < p {
                            assert(s0[i].0 == key);
                            assert(s0[i].0 < s0[p as int].0);
                        } else {
                            assert(s0[i + 1].0 == key);
                            assert(s0[p as int].0 < s0[i + 1].0);
                        }
                    }
                    if has_key(s0, key) && key != k {
                        let i = choose|i: int| 0 <= i < s0.len() && #[trigger] s0[i].0 == key;
                        if i < p {
                            assert(s[i].0 == key);
                        } else {
                            assert(i != p);
                            assert(s[i - 1].0 == key);
                        }
                    }
                }
                assert forall|key: usize| #[trigger] self@.dom().contains(key) implies self@[key] == old(self)@.remove(k)[key] by {
                    let i = choose|i: int| 0 <= i < s.len() && #[trigger] s[i].0 == key;
                    lemma_entries_map_at(s, i);
                    if i < p {
                        lemma_entries_map_at(s0, i);
                    } else {
                        lemma_entries_map_at(s0, i + 1);
                    }
                }
                assert(self@ =~= old(self)@.remove(k));
            }
        } else {
            proof {
                if has_key(s0, k) {
                    let i = choose|i: int| 0 <= i < s0.len() && #[trigger] s0[i].0 == k;
                    if i > p {
                        assert(s0[p as int].0 < s0[i].0);
                    }
                }
                assert(self@ =~= old(self)@.remove(k));
            }
        }
    }
}

/// A set of indices, in increasing order.
#[derive(Clone, Debug)]
pub struct IdSet {
    pub ids: Vec<usize>,
}

impl View for IdSet {
    type V = Set<usize>;

    open spec fn view(&self) -> Set<usize> {
        self.ids@.to_set()
    }
}

impl IdSet {
    pub open spec fn wf(&self) -> bool {
        forall|i: int, j: int| 0 <= i < j < self.ids@.len() ==> #[trigger] self.ids@[i] < #[trigger] self.ids@[j]
    }

    /// An empty set.
    pub fn new() -> (s: Self)
        ensures
            s.wf(),
            s@ == Set::<usize>::empty(),
    {
        let s = IdSet { ids: Vec::new() };
        assert(s@ =~= Set::<usize>::empty());
        s
    }

    /// The number of members.
    pub fn len(&self) -> (n: usize)
        requires
            self.wf(),
        ensures
            n == self@.len(),
            self@.finite(),
    {
        proof {
            assert(self.ids@.no_duplicates()) by {
                assert forall|a: int, b: int| 0 <= a < self.ids@.len() && 0 <= b < self.ids@.len() && a != b implies self.ids@[a] != self.ids@[b] by {
                    if a < b {
                        assert(self.ids@[a] < self.ids@[b]);
                    } else {
                        assert(self.ids@[b] < self.ids@[a]);
                    }
                }
            }
            self.ids@.unique_seq_to_set();
        }
        self.ids.len()
    }

    /// Whether the set has no member.
    pub fn is_empty(&self) -> (b: bool)
        requires
            self.wf(),
        ensures
            b == (self@ == Set::<usize>::empty()),
    {
        if self.ids.len() == 0 {
            assert(self@ =~= Set::<usize>::empty());
            true
        } else {
            assert(self@.contains(self.ids@[0]));
            false
        }
    }

    fn place_for(&self, k: usize) -> (p: usize)
        requires
            self.wf(),
        ensures
            p <= self.ids.len(),
            forall|j: int| 0 <= j < p ==> #[trigger] self.ids@[j] < k,
            p < self.ids.len() ==> self.ids@[p as int] >= k,
    {
        let mut p: usize = 0;
        while p < self.ids.len() && self.ids[p] < k
            invariant
                p <= self.ids.len(),
                forall|j: int| 0 <= j < p ==> #[trigger] self.ids@[j] < k,
            decreases self.ids.len() - p,
        {
            p += 1;
        }
        p
    }

    /// Whether `k` is a member.
    pub fn contains(&self, k: usize) -> (b: bool)
        requires
            self.wf(),
        ensures
            b == self@.contains(k),
    {
        let p = self.place_for(k);
        if p < self.ids.len() && self.ids[p] == k {
            assert(self.ids@.contains(k));
            true
        } else {
            proof {
                if self.ids@.contains(k) {
                    let i = choose|i: int| 0 <= i < self.ids@.len() && self.ids@[i] == k;
                    if i > p {
                        assert(self.ids@[p as int] < self.ids@[i]);
                    }
                }
            }
            false
        }
    }

    /// Adds `k`.
    pub fn insert(&mut self, k: usize)
        requires
            old(self).wf(),
        ensures
            final(self).wf(),
            final(self)@ == old(self)@.insert(k),
    {
        let p = self.place_for(k);
        let ghost s0 = self.ids@;
        if p < self.ids.len() && self.ids[p] == k {
            assert(s0.contains(k));
            assert(self@ =~= old(self)@.insert(k));
        } else {
            self.ids.insert(p, k);
            proof {
                let s = self.ids@;
                assert forall|i: int, j: int| 0 <= i < j < s.len() implies #[trigger] s[i] < #[trigger] s[j] by {
                    if j < p {
                        assert(s0[i] < s0[j]);
                    } else if j == p {
                        assert(s0[i] < k);
                    } else if i < p {
                        assert(s0[i] < k);
                        if j - 1 > p {
                            assert(s0[p as int] < s0[j - 1]);
                        }
                    } else if i == p {
                        if j - 1 > p {
                            assert(s0[p as int] < s0[j - 1]);
                        }
                    } else {
                        assert(s0[i - 1] < s0[j - 1]);
                    }
                }
                assert forall|x: usize| #[trigger] s.to_set().contains(x) <==> s0.to_set().insert(k).contains(x) by {
                    if s.contains(x) {
                        let i = choose|i: int| 0 <= i < s.len() && s[i] == x;
                        if i < p {
                            assert(s0[i] == x);
                        } else if i > p {
                            assert(s0[i - 1] == x);
                        }
                    }
                    if s0.contains(x) {
                        let i = choose|i: int| 0 <= i < s0.len() && s0[i] == x;
                        if i < p {
                            assert(s[i] == x);
                        } else {
                            assert(s[i + 1] == x);
                        }
                    }
                    if x == k {
                        assert(s[p as int] == k);
                    }
                }
                assert(self@ =~= old(self)@.insert(k));
            }
        }
    }

    /// Removes `k`, if it is a member.
    pub fn remove(&mut self, k: usize)
        requires
            old(self).wf(),
        ensures
            final(self).wf(),
            final(self)@ == old(self)@.remove(k),
    {
        let p = self.place_for(k);
        let ghost s0 = self.ids@;
        if p < self.ids.len() && self.ids[p] == k {
            self.ids.remove(p);
            proof {
                let s = self.ids@;
                assert forall|i: int, j: int| 0 <= i < j < s.len() implies #[trigger] s[i] < #[trigger] s[j] by {
                    if j < p {
                        assert(s0[i] < s0[j]);
                    } else if i < p {
                        assert(s0[i] < s0[j + 1]);
                    } else {
                        assert(s0[i + 1] < s0[j + 1]);
                    }
                }
                assert forall|x: usize| #[trigger] s.to_set().contains(x) <==> s0.to_set().remove(k).contains(x) by {
                    if s.contains(x) {
                        let i = choose|i: int| 0 <= i < s.len() && s[i] == x;
                        if i < p {
                            assert(s0[i] == x);
                            assert(s0[i] < s0[p as int]);
                        } else {
                            assert(s0[i + 1] == x);
                            assert(s0[p as int] < s0[i + 1]);
                        }
                    }
                    if s0.contains(x) && x != k {
                        let i = choose|i: int| 0 <= i < s0.len() && s0[i] == x;
                        if i < p {
                            assert(s[i] == x);
                        } else {
                            assert(i != p);
                            assert(s[i - 1] == x);
                        }
                    }
                }
                assert(self@ =~= old(self)@.remove(k));
            }
        } else {
            proof {
                if s0.contains(k) {
                    let i = choose|i: int| 0 <= i < s0.len() && s0[i] == k;
                    if i > p {
                        assert(s0[p as int] < s0[i]);
                    }
                }
                assert(self@ =~= old(self)@.remove(k));
            }
        }
    }
}

} // verus!
