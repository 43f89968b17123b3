use vstd::prelude::*;

use crate::id::Id;

verus! {

/// One persisted fact: `(primary, relation) -> value`.
pub struct StoreEntry {
    pub primary: Id,
    pub relation: Vec<Id>,
    pub value: Vec<u8>,
}

/// A mapping from a composite key (a primary identifier plus a sequence of
/// identifiers) to an opaque byte value. Only point lookup, upsert and
/// delete are offered: no range queries, no iteration.
pub struct KeyedStore {
    entries: Vec<StoreEntry>,
}

/// Compare two identifier sequences element-wise.
pub fn ids_eq(a: &Vec<Id>, b: &Vec<Id>) -> (r: bool)
    ensures
        r == (a@ == b@),
{
    if a.len() != b.len() {
        return false;
    }
    let mut i: usize = 0;
    while i < a.len()
        invariant
            a@.len() == b@.len(),
            i <= a@.len(),
            forall|j: int| 0 <= j < i ==> a@[j] == b@[j],
        decreases a@.len() - i,
    {
        if a[i] != b[i] {
            return false;
        }
        i += 1;
    }
    proof {
        assert(a@ =~= b@);
    }
    true
}

/// Compare two byte vectors element-wise.
pub fn bytes_eq(a: &Vec<u8>, b: &Vec<u8>) -> (r: bool)
    ensures
        r == (a@ == b@),
{
    if a.len() != b.len() {
        return false;
    }
    let mut i: usize = 0;
    while i < a.len()
        invariant
            a@.len() == b@.len(),
            i <= a@.len(),
            forall|j: int| 0 <= j < i ==> a@[j] == b@[j],
        decreases a@.len() - i,
    {
        if a[i] != b[i] {
            return false;
        }
        i += 1;
    }
    proof {
        assert(a@ =~= b@);
    }
    true
}

/// Copy a byte vector; the copy has the same contents.
pub fn copy_bytes(v: &Vec<u8>) -> (r: Vec<u8>)
    ensures
        r@ == v@,
{
    let mut out: Vec<u8> = Vec::new();
    let mut i: usize = 0;
    while i < v.len()
        invariant
            i <= v@.len(),
            out@ =~= v@.take(i as int),
        decreases v@.len() - i,
    {
        out.push(v[i]);
        i += 1;
    }
    proof {
        assert(v@.take(v@.len() as int) =~= v@);
    }
    out
}

/// Copy an identifier sequence; the copy has the same contents.
pub fn copy_ids(v: &Vec<Id>) -> (r: Vec<Id>)
    ensures
        r@ == v@,
{
    let mut out: Vec<Id> = Vec::new();
    let mut i: usize = 0;
    while i < v.len()
        invariant
            i <= v@.len(),
            out@ =~= v@.take(i as int),
        decreases v@.len() - i,
    {
        out.push(v[i]);
        i += 1;
    }
    proof {
        assert(v@.take(v@.len() as int) =~= v@);
    }
    out
}

impl View for KeyedStore {
    type V = Map<(Id, Seq<Id>), Seq<u8>>;

    closed spec fn view(&self) -> Map<(Id, Seq<Id>), Seq<u8>> {
        KeyedStore::entries_map(self.entries@)
    }
}

impl KeyedStore {
    /// The composite key under which an entry is stored.
    pub open spec fn entry_key(e: StoreEntry) -> (Id, Seq<Id>) {
        (e.primary, e.relation@)
    }

    /// The mapping that a sequence of entries denotes, later entries winning.
    pub open spec fn entries_map(s: Seq<StoreEntry>) -> Map<(Id, Seq<Id>), Seq<u8>>
        decreases s.len(),
    {
        if s.len() == 0 {
            Map::empty()
        } else {
            Self::entries_map(s.drop_last()).insert(Self::entry_key(s.last()), s.last().value@)
        }
    }

    /// No two entries share a key.
    pub open spec fn keys_unique(s: Seq<StoreEntry>) -> bool {
        forall|i: int, j: int|
            0 <= i < j < s.len() ==> Self::entry_key(s[i]) != Self::entry_key(s[j])
    }

    pub closed spec fn wf(self) -> bool {
        Self::keys_unique(self.entries@)
    }

    proof fn lemma_contains(s: Seq<StoreEntry>, k: (Id, Seq<Id>))
        ensures
            Self::entries_map(s).contains_key(k) <==> exists|i: int|
                0 <= i < s.len() && Self::entry_key(s[i]) == k,
        decreases s.len(),
    {
        if s.len() > 0 {
            Self::lemma_contains(s.drop_last(), k);
            if Self::entries_map(s).contains_key(k) {
                if Self::entry_key(s.last()) == k {
                    assert(Self::entry_key(s[s.len() - 1]) == k);
                } else {
                    let i = choose|i: int|
                        0 <= i < s.drop_last().len() && Self::entry_key(s.drop_last()[i]) == k;
                    assert(Self::entry_key(s[i]) == k);
                }
            }
            if exists|i: int| 0 <= i < s.len() && Self::entry_key(s[i]) == k {
                let i = choose|i: int| 0 <= i < s.len() && Self::entry_key(s[i]) == k;
                if i < s.len() - 1 {
                    assert(Self::entry_key(s.drop_last()[i]) == k);
                }
                assert(Self::entries_map(s).contains_key(k));
            }
        }
    }

    proof fn lemma_at(s: Seq<StoreEntry>, i: int)
        requires
            Self::keys_unique(s),
            0 <= i < s.len(),
        ensures
            Self::entries_map(s).contains_key(Self::entry_key(s[i])),
            Self::entries_map(s)[Self::entry_key(s[i])] == s[i].value@,
        decreases s.len(),
    {
        if i == s.len() - 1 {
        } else {
            assert(Self::keys_unique(s.drop_last()));
            Self::lemma_at(s.drop_last(), i);
            assert(Self::entry_key(s[i]) != Self::entry_key(s[s.len() - 1]));
        }
    }

    proof fn lemma_push(s: Seq<StoreEntry>, e: StoreEntry)
        ensures
            Self::entries_map(s.push(e)) == Self::entries_map(s).insert(
                Self::entry_key(e),
                e.value@,
            ),
    {
        assert(s.push(e).drop_last() =~= s);
        assert(s.push(e).last() == e);
    }

    proof fn lemma_remove(s: Seq<StoreEntry>, i: int)
        requires
            Self::keys_unique(s),
            0 <= i < s.len(),
        ensures
            Self::entries_map(s.remove(i)) == Self::entries_map(s).remove(Self::entry_key(s[i])),
        decreases s.len(),
    {
        let k = Self::entry_key(s[i]);
        if i == s.len() - 1 {
            assert(s.remove(i) =~= s.drop_last());
            Self::lemma_contains(s.drop_last(), k);
            assert(forall|j: int|
                0 <= j < s.drop_last().len() ==> Self::entry_key(s.drop_last()[j]) != k);
            assert(!Self::entries_map(s.drop_last()).contains_key(k));
            assert(Self::entries_map(s.drop_last()).insert(k, s[i].value@).remove(k)
                =~= Self::entries_map(s.drop_last()));
        } else {
            let dl = s.drop_last();
            assert(Self::keys_unique(dl));
            Self::lemma_remove(dl, i);
            assert(s.remove(i).drop_last() =~= dl.remove(i));
            assert(s.remove(i).last() == s.last());
            assert(Self::entries_map(s.remove(i)) == Self::entries_map(dl.remove(i)).insert(
                Self::entry_key(s.last()),
                s.last().value@,
            ));
            assert(Self::entry_key(s.last()) != k);
            assert(Self::entries_map(dl).remove(k).insert(Self::entry_key(s.last()), s.last().value@)
                =~= Self::entries_map(dl).insert(Self::entry_key(s.last()), s.last().value@).remove(
                k,
            ));
        }
    }

    /// An empty store.
    pub fn new() -> (r: KeyedStore)
        ensures
            r.wf(),
            r@ == Map::<(Id, Seq<Id>), Seq<u8>>::empty(),
    {
        KeyedStore { entries: Vec::new() }
    }

    fn find(&self, primary: &Id, relation: &Vec<Id>) -> (r: Option<usize>)
        ensures
            match r {
                Some(i) => i < self.entries@.len() && Self::entry_key(self.entries@[i as int])
                    == (*primary, relation@),
                None => forall|i: int|
                    0 <= i < self.entries@.len() ==> Self::entry_key(self.entries@[i])
                        != (*primary, relation@),
            },
    {
        let mut i: usize = 0;
        while i < self.entries.len()
            invariant
                i <= self.entries@.len(),
                forall|j: int|
                    0 <= j < i ==> Self::entry_key(self.entries@[j]) != (*primary, relation@),
            decreases self.entries@.len() - i,
        {
            let e = &self.entries[i];
            if e.primary == *primary && ids_eq(&e.relation, relation) {
                return Some(i);
            }
            i += 1;
        }
        None
    }

    /// Point lookup: the value stored under `(primary, relation)`, if any.
    pub fn get<'a>(&'a self, primary: &Id, relation: &Vec<Id>) -> (r: Option<&'a Vec<u8>>)
        requires
            self.wf(),
        ensures
            match r {
                Some(v) => self@.contains_key((*primary, relation@)) && v@ == self@[(
                    *primary,
                    relation@,
                )],
                None => !self@.contains_key((*primary, relation@)),
            },
    {
        match self.find(primary, relation) {
            Some(i) => {
                proof {
                    Self::lemma_at(self.entries@, i as int);
                }
                Some(&self.entries[i].value)
            },
            None => {
                proof {
                    Self::lemma_contains(self.entries@, (*primary, relation@));
                }
                None
            },
        }
    }

    /// Upsert: afterwards `(primary, relation)` maps to `value`.
    pub fn insert(&mut self, primary: Id, relation: Vec<Id>, value: Vec<u8>)
        requires
            old(self).wf(),
        ensures
            final(self).wf(),
            final(self)@ == old(self)@.insert((primary, relation@), value@),
    {
        let ghost k = (primary, relation@);
        let ghost m0 = self@;
        match self.find(&primary, &relation) {
            Some(i) => {
                proof {
                    Self::lemma_remove(self.entries@, i as int);
                }
                self.entries.remove(i);
                proof {
                    assert(Self::keys_unique(self.entries@));
                    assert(forall|j: int|
                        0 <= j < self.entries@.len() ==> Self::entry_key(self.entries@[j]) != k);
                }
            },
            None => {},
        }
        let ghost mid = self.entries@;
        self.entries.push(StoreEntry { primary, relation, value });
        proof {
            Self::lemma_push(mid, self.entries@.last());
            assert(forall|j: int| 0 <= j < mid.len() ==> Self::entry_key(mid[j]) != k);
            assert(Self::keys_unique(self.entries@));
            assert(Self::entries_map(mid).insert(k, value@) =~= m0.insert(k, value@));
        }
    }

    /// Delete: afterwards `(primary, relation)` is absent.
    pub fn remove(&mut self, primary: &Id, relation: &Vec<Id>)
        requires
            old(self).wf(),
        ensures
            final(self).wf(),
            final(self)@ == old(self)@.remove((*primary, relation@)),
    {
        let ghost k = (*primary, relation@);
        match self.find(primary, relation) {
            Some(i) => {
                proof {
                    Self::lemma_remove(self.entries@, i as int);
                }
                self.entries.remove(i);
                proof {
                    assert(Self::keys_unique(self.entries@));
                }
            },
            None => {
                proof {
                    Self::lemma_contains(self.entries@, k);
                    assert(!self@.contains_key(k));
                    assert(self@.remove(k) =~= self@);
                }
            },
        }
    }
}

} // verus!
