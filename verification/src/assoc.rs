use vstd::prelude::*;

verus! {

/// A key type whose executable equality test decides logical equality.
pub trait MapKey: Sized {
    fn key_eq(&self, other: &Self) -> (r: bool)
        ensures
            r == (*self == *other),
    ;
}

/// A small point-lookup map held as a vector of pairs with pairwise
/// distinct keys. It stands in for a flat keyed storage engine: point get,
/// upsert and delete only.
pub struct AssocMap<K, V> {
    entries: Vec<(K, V)>,
}

impl<K: MapKey, V> View for AssocMap<K, V> {
    type V = Map<K, V>;

    closed spec fn view(&self) -> Map<K, V> {
        AssocMap::entries_map(self.entries@)
    }
}

impl<K: MapKey, V> AssocMap<K, V> {
    /// The mapping that a sequence of pairs denotes, later pairs winning.
    pub open spec fn entries_map(s: Seq<(K, V)>) -> Map<K, V>
        decreases s.len(),
    {
        if s.len() == 0 {
            Map::empty()
        } else {
            Self::entries_map(s.drop_last()).insert(s.last().0, s.last().1)
        }
    }

    /// No two pairs share a key.
    pub open spec fn keys_unique(s: Seq<(K, V)>) -> bool {
        forall|i: int, j: int| 0 <= i < j < s.len() ==> (#[trigger] s[i]).0 != (#[trigger] s[j]).0
    }

    pub closed spec fn wf(self) -> bool {
        Self::keys_unique(self.entries@)
    }

    proof fn lemma_contains(s: Seq<(K, V)>, k: K)
        ensures
            Self::entries_map(s).contains_key(k) <==> exists|i: int|
                0 <= i < s.len() && (#[trigger] s[i]).0 == k,
        decreases s.len(),
    {
        if s.len() > 0 {
            Self::lemma_contains(s.drop_last(), k);
            if Self::entries_map(s).contains_key(k) {
                if s.last().0 == k {
                    assert((s[s.len() - 1]).0 == k);
                } else {
                    let i = choose|i: int| 0 <= i < s.drop_last().len() && (#[trigger] s.drop_last()[i]).0 == k;
                    assert((s[i]).0 == k);
                }
            }
            if exists|i: int| 0 <= i < s.len() && (#[trigger] s[i]).0 == k {
                let i = choose|i: int| 0 <= i < s.len() && (#[trigger] s[i]).0 == k;
                if i < s.len() - 1 {
                    assert((s.drop_last()[i]).0 == k);
                }
                assert(Self::entries_map(s).contains_key(k));
            }
        }
    }

    proof fn lemma_at(s: Seq<(K, V)>, i: int)
        requires
            Self::keys_unique(s),
            0 <= i < s.len(),
        ensures
            Self::entries_map(s).contains_key((s[i]).0),
            Self::entries_map(s)[(s[i]).0] == (s[i]).1,
        decreases s.len(),
    {
        if i == s.len() - 1 {
        } else {
            assert(Self::keys_unique(s.drop_last()));
            Self::lemma_at(s.drop_last(), i);
            assert((s[i]).0 != (s[s.len() - 1]).0);
        }
    }

    proof fn lemma_push(s: Seq<(K, V)>, e: (K, V))
        ensures
            Self::entries_map(s.push(e)) == Self::entries_map(s).insert(e.0, e.1),
    {
        assert(s.push(e).drop_last() =~= s);
        assert(s.push(e).last() == e);
    }

    proof fn lemma_remove(s: Seq<(K, V)>, i: int)
        requires
            Self::keys_unique(s),
            0 <= i < s.len(),
        ensures
            Self::entries_map(s.remove(i)) == Self::entries_map(s).remove((s[i]).0),
        decreases s.len(),
    {
        let k = (s[i]).0;
        if i == s.len() - 1 {
            assert(s.remove(i) =~= s.drop_last());
            Self::lemma_contains(s.drop_last(), k);
            assert(forall|j: int| 0 <= j < s.drop_last().len() ==> (#[trigger] s.drop_last()[j]).0 != k);
            assert(!Self::entries_map(s.drop_last()).contains_key(k));
            assert(Self::entries_map(s.drop_last()).insert(k, (s[i]).1).remove(k)
                =~= Self::entries_map(s.drop_last()));
        } else {
            let dl = s.drop_last();
            assert(Self::keys_unique(dl));
            Self::lemma_remove(dl, i);
            assert(s.remove(i).drop_last() =~= dl.remove(i));
            assert(s.remove(i).last() == s.last());
            assert(Self::entries_map(s.remove(i)) == Self::entries_map(dl.remove(i)).insert(
                s.last().0,
                s.last().1,
            ));
            assert(s.last().0 != k);
            assert(Self::entries_map(dl).remove(k).insert(s.last().0, s.last().1)
                =~= Self::entries_map(dl).insert(s.last().0, s.last().1).remove(k));
        }
    }

    /// An empty map.
    pub fn new() -> (r: Self)
        ensures
            r.wf(),
            r@ == Map::<K, V>::empty(),
    {
        AssocMap { entries: Vec::new() }
    }

    fn find(&self, k: &K) -> (r: Option<usize>)
        ensures
            match r {
                Some(i) => i < self.entries@.len() && (self.entries@[i as int]).0 == *k,
                None => forall|i: int|
                    0 <= i < self.entries@.len() ==> (#[trigger] self.entries@[i]).0 != *k,
            },
    {
        let mut i: usize = 0;
        while i < self.entries.len()
            invariant
                i <= self.entries@.len(),
                forall|j: int| 0 <= j < i ==> (#[trigger] self.entries@[j]).0 != *k,
            decreases self.entries@.len() - i,
        {
            if self.entries[i].0.key_eq(k) {
                return Some(i);
            }
            i += 1;
        }
        None
    }

    /// Point lookup.
    pub fn get<'a>(&'a self, k: &K) -> (r: Option<&'a V>)
        requires
            self.wf(),
        ensures
            match r {
                Some(v) => self@.contains_key(*k) && *v == self@[*k],
                None => !self@.contains_key(*k),
            },
    {
        match self.find(k) {
            Some(i) => {
                proof {
                    Self::lemma_at(self.entries@, i as int);
                }
                Some(&self.entries[i].1)
            },
            None => {
                proof {
                    Self::lemma_contains(self.entries@, *k);
                }
                None
            },
        }
    }

    /// Whether the key is present.
    pub fn has(&self, k: &K) -> (r: bool)
        requires
            self.wf(),
        ensures
            r == self@.contains_key(*k),
    {
        self.get(k).is_some()
    }

    /// Upsert.
    pub fn insert(&mut self, k: K, v: V)
        requires
            old(self).wf(),
        ensures
            final(self).wf(),
            final(self)@ == old(self)@.insert(k, v),
    {
        let ghost m0 = self@;
        match self.find(&k) {
            Some(i) => {
                proof {
                    Self::lemma_remove(self.entries@, i as int);
                }
                self.entries.remove(i);
                proof {
                    assert(Self::keys_unique(self.entries@));
                    assert(forall|j: int|
                        0 <= j < self.entries@.len() ==> (#[trigger] self.entries@[j]).0 != k);
                }
            },
            None => {},
        }
        let ghost mid = self.entries@;
        self.entries.push((k, v));
        proof {
            Self::lemma_push(mid, self.entries@.last());
            assert(forall|j: int| 0 <= j < mid.len() ==> (#[trigger] mid[j]).0 != k);
            assert(Self::keys_unique(self.entries@));
            assert(Self::entries_map(mid).insert(k, v) =~= m0.insert(k, v));
        }
    }

    /// Delete; absence of the key is no fault.
    pub fn remove(&mut self, k: &K)
        requires
            old(self).wf(),
        ensures
            final(self).wf(),
            final(self)@ == old(self)@.remove(*k),
    {
        match self.find(k) {
            Some(i) => {
                proof {
                    Self::lemma_remove(self.entries@, i as int);
                }
                self.entries.remove(i);
                proof {
                    assert(Self::keys_unique(self.entries@));
                }
            },
            None => {
                proof {
                    Self::lemma_contains(self.entries@, *k);
                    assert(!self@.contains_key(*k));
                    assert(self@.remove(*k) =~= self@);
                }
            },
        }
    }
}

} // verus!
