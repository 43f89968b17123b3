use vstd::prelude::*;

use crate::assoc::AssocMap;
use crate::assoc::MapKey;
use crate::id::Id;

verus! {

impl MapKey for (u64, Option<Id>) {
    fn key_eq(&self, other: &Self) -> (r: bool)
        ensures
            r == (*self == *other),
    {
        let second = match (self.1, other.1) {
            (None, None) => true,
            (Some(a), Some(b)) => a == b,
            _ => false,
        };
        self.0 == other.0 && second
    }
}

/// One node of an emulated doubly-linked list: the neighbours of an item,
/// `None` standing for the sentinel anchor.
#[derive(Clone, Copy)]
pub struct LinkedItem {
    pub prev: Option<Id>,
    pub next: Option<Id>,
}

/// A doubly-linked list of identifiers per owner, emulated entirely with
/// point lookups in a flat key/value map keyed by `(owner, Option<item>)`.
/// The entry at `(owner, None)` is the sentinel holding tail (`prev`) and
/// head (`next`), which makes the structure circular: append and removal
/// need no special case for an empty list. Append and removal are O(1) in
/// map operations; traversal enumerates an owner's items in insertion
/// order, which the underlying store could not do by itself.
pub struct LinkedListIndex {
    nodes: AssocMap<(u64, Option<Id>), LinkedItem>,
    lists: Ghost<Map<u64, Seq<Id>>>,
}

impl LinkedListIndex {
    /// The items of `owner`'s list, in insertion order.
    pub closed spec fn list(self, owner: u64) -> Seq<Id> {
        if self.lists@.contains_key(owner) {
            self.lists@[owner]
        } else {
            Seq::empty()
        }
    }

    /// The node that the flat map must hold for position `i` of list `s`.
    pub open spec fn expected_node(s: Seq<Id>, i: int) -> LinkedItem {
        LinkedItem {
            prev: if i == 0 {
                None
            } else {
                Some(s[i - 1])
            },
            next: if i == s.len() - 1 {
                None
            } else {
                Some(s[i + 1])
            },
        }
    }

    /// The flat map encodes exactly the list `s` for `owner`: the sentinel
    /// anchors head and tail, every item points at its neighbours, and the
    /// owner has no stray entries.
    pub open spec fn owner_edges(
        n: Map<(u64, Option<Id>), LinkedItem>,
        owner: u64,
        s: Seq<Id>,
    ) -> bool {
        &&& (forall|a: int, b: int| 0 <= a < b < s.len() ==> s[a] != s[b])
        &&& (if s.len() == 0 {
            n.contains_key((owner, None)) ==> n[(owner, None)] == (LinkedItem {
                prev: None,
                next: None,
            })
        } else {
            n.contains_key((owner, None)) && n[(owner, None)] == (LinkedItem {
                prev: Some(s.last()),
                next: Some(s[0]),
            })
        })
        &&& (forall|i: int|
            0 <= i < s.len() ==> n.contains_key((owner, Some(#[trigger] s[i]))) && n[(
                owner,
                Some(s[i]),
            )] == Self::expected_node(s, i))
        &&& (forall|x: Id| #[trigger] n.contains_key((owner, Some(x))) ==> s.contains(x))
    }

    pub closed spec fn wf(self) -> bool {
        &&& self.nodes.wf()
        &&& forall|o: u64| Self::owner_edges(self.nodes@, o, self.list(o))
    }

    proof fn lemma_unchanged_owner(
        n1: Map<(u64, Option<Id>), LinkedItem>,
        n2: Map<(u64, Option<Id>), LinkedItem>,
        o: u64,
        s: Seq<Id>,
    )
        requires
            Self::owner_edges(n1, o, s),
            forall|x: Option<Id>| #[trigger] n2.contains_key((o, x)) <==> n1.contains_key((o, x)),
            forall|x: Option<Id>|
                n1.contains_key((o, x)) ==> #[trigger] n2[(o, x)] == n1[(o, x)],
        ensures
            Self::owner_edges(n2, o, s),
    {
        assert(n2.contains_key((o, None::<Id>)) <==> n1.contains_key((o, None::<Id>)));
        assert forall|i: int|
            0 <= i < s.len() implies n2.contains_key((o, Some(#[trigger] s[i]))) && n2[(
            o,
            Some(s[i]),
        )] == Self::expected_node(s, i) by {
            assert(n1.contains_key((o, Some(s[i]))));
        };
        assert forall|x: Id| #[trigger] n2.contains_key((o, Some(x))) implies s.contains(x) by {
            assert(n1.contains_key((o, Some(x))));
        };
    }

    /// An index with an empty list for every owner.
    pub fn new() -> (r: LinkedListIndex)
        ensures
            r.wf(),
            forall|o: u64| r.list(o) == Seq::<Id>::empty(),
    {
        let r = LinkedListIndex { nodes: AssocMap::new(), lists: Ghost(Map::empty()) };
        proof {
            assert(forall|o: u64| r.list(o) == Seq::<Id>::empty());
        }
        r
    }

    /// Whether `item` stands in `owner`'s list.
    pub fn contains(&self, owner: u64, item: Id) -> (r: bool)
        requires
            self.wf(),
        ensures
            r == self.list(owner).contains(item),
    {
        let r = self.nodes.has(&(owner, Some(item)));
        proof {
            let s = self.list(owner);
            assert(Self::owner_edges(self.nodes@, owner, s));
            if r {
                assert(s.contains(item));
            } else {
                if s.contains(item) {
                    let i = choose|i: int| 0 <= i < s.len() && s[i] == item;
                    assert(self.nodes@.contains_key((owner, Some(s[i]))));
                }
            }
        }
        r
    }

    /// Append `item` at the tail of `owner`'s list: link it after the old
    /// tail and make the sentinel's `prev` point at it. O(1) map
    /// operations; no other owner's list is touched.
    pub fn append(&mut self, owner: u64, item: Id)
        requires
            old(self).wf(),
            !old(self).list(owner).contains(item),
        ensures
            final(self).wf(),
            final(self).list(owner) == old(self).list(owner).push(item),
            forall|o: u64| o != owner ==> final(self).list(o) == old(self).list(o),
    {
        let ghost s = old(self).list(owner);
        let ghost n0 = old(self).nodes@;
        proof {
            assert(Self::owner_edges(n0, owner, s));
            assert(forall|q: int| 0 <= q < s.len() ==> s[q] != item);
        }
        let sentinel = match self.nodes.get(&(owner, None)) {
            Some(nd) => *nd,
            None => LinkedItem { prev: None, next: None },
        };
        proof {
            if s.len() == 0 {
                assert(sentinel == (LinkedItem { prev: None, next: None }));
            } else {
                assert(sentinel == (LinkedItem { prev: Some(s.last()), next: Some(s[0]) }));
            }
        }
        match sentinel.prev {
            Some(t) => {
                proof {
                    assert(s.len() > 0);
                    assert(t == s.last());
                    assert(self.nodes@.contains_key((owner, Some(s[s.len() - 1]))));
                }
                let tn = *self.nodes.get(&(owner, Some(t))).unwrap();
                proof {
                    assert(tn == Self::expected_node(s, s.len() - 1));
                }
                self.nodes.insert((owner, Some(t)), LinkedItem { prev: tn.prev, next: Some(item) });
                self.nodes.insert((owner, Some(item)), LinkedItem { prev: Some(t), next: None });
                self.nodes.insert((owner, None), LinkedItem { prev: Some(item), next: sentinel.next });
            },
            None => {
                proof {
                    assert(s.len() == 0);
                }
                self.nodes.insert((owner, Some(item)), LinkedItem { prev: None, next: None });
                self.nodes.insert((owner, None), LinkedItem { prev: Some(item), next: Some(item) });
            },
        }
        self.lists = Ghost(self.lists@.insert(owner, s.push(item)));
        proof {
            let n1 = self.nodes@;
            let ns = s.push(item);
            assert(self.list(owner) == ns);
            assert forall|o: u64| Self::owner_edges(n1, o, self.list(o)) by {
                if o == owner {
                    assert forall|a: int, b: int| 0 <= a < b < ns.len() implies ns[a] != ns[b] by {
                        if b == ns.len() - 1 {
                            assert(ns[a] == s[a]);
                            assert(s[a] != item);
                        }
                    };
                    assert forall|i: int|
                        0 <= i < ns.len() implies n1.contains_key((owner, Some(#[trigger] ns[i])))
                        && n1[(owner, Some(ns[i]))] == Self::expected_node(ns, i) by {
                        if i == ns.len() - 1 {
                            assert(ns[i] == item);
                        } else if i == ns.len() - 2 {
                            assert(ns[i] == s[s.len() - 1]);
                        } else {
                            assert(ns[i] == s[i]);
                            assert(s[i] != item);
                            if s.len() > 0 {
                                assert(s[i] != s[s.len() - 1]);
                            }
                            assert(n0.contains_key((owner, Some(s[i]))));
                            assert(n0[(owner, Some(s[i]))] == Self::expected_node(s, i));
                            assert(ns[i + 1] == s[i + 1]);
                        }
                    };
                    assert forall|x: Id| #[trigger] n1.contains_key((owner, Some(x))) implies ns.contains(
                        x,
                    ) by {
                        if x == item {
                            assert(ns[ns.len() - 1] == item);
                        } else {
                            assert(n0.contains_key((owner, Some(x))));
                            assert(s.contains(x));
                            let q = choose|q: int| 0 <= q < s.len() && s[q] == x;
                            assert(ns[q] == x);
                        }
                    };
                } else {
                    assert(self.list(o) == old(self).list(o));
                    assert(Self::owner_edges(n0, o, old(self).list(o)));
                    assert forall|x: Option<Id>| #[trigger] n1.contains_key((o, x)) <==> n0.contains_key(
                        (o, x),
                    ) by {
                        assert((o, x) != (owner, Some(item)));
                        assert((o, x) != (owner, None::<Id>));
                    };
                    assert forall|x: Option<Id>| n0.contains_key((o, x)) implies #[trigger] n1[(
                        o,
                        x,
                    )] == n0[(o, x)] by {
                        assert((o, x) != (owner, Some(item)));
                        assert((o, x) != (owner, None::<Id>));
                    };
                    Self::lemma_unchanged_owner(n0, n1, o, old(self).list(o));
                }
            };
        }
    }

    /// Remove `item` from anywhere in `owner`'s list by relinking its two
    /// neighbours (the sentinel standing in for a neighbour at either end)
    /// and deleting its own entry. O(1) map operations, no traversal; the
    /// relative order of the remaining items is kept.
    #[verifier::rlimit(100)]
    pub fn remove(&mut self, owner: u64, item: Id)
        requires
            old(self).wf(),
            old(self).list(owner).contains(item),
        ensures
            final(self).wf(),
            final(self).list(owner) == old(self).list(owner).remove(
                old(self).list(owner).index_of(item),
            ),
            !final(self).list(owner).contains(item),
            forall|o: u64| o != owner ==> final(self).list(o) == old(self).list(o),
    {
        let ghost s = old(self).list(owner);
        let ghost i = s.index_of(item);
        let ghost n0 = old(self).nodes@;
        proof {
            assert(Self::owner_edges(n0, owner, s));
            assert(0 <= i < s.len() && s[i] == item);
        }
        let nd = *self.nodes.get(&(owner, Some(item))).unwrap();
        proof {
            assert(nd == Self::expected_node(s, i));
        }
        let pk = (owner, nd.prev);
        proof {
            if i > 0 {
                assert(nd.prev == Some(s[i - 1]));
                assert(n0.contains_key((owner, Some(s[i - 1]))));
            } else {
                assert(nd.prev is None);
            }
        }
        let pv = *self.nodes.get(&pk).unwrap();
        self.nodes.insert(pk, LinkedItem { prev: pv.prev, next: nd.next });
        let nk = (owner, nd.next);
        proof {
            if i < s.len() - 1 {
                assert(nd.next == Some(s[i + 1]));
                assert(n0.contains_key((owner, Some(s[i + 1]))));
            }
        }
        let nv = *self.nodes.get(&nk).unwrap();
        self.nodes.insert(nk, LinkedItem { prev: nd.prev, next: nv.next });
        self.nodes.remove(&(owner, Some(item)));
        self.lists = Ghost(self.lists@.insert(owner, s.remove(i)));
        proof {
            let n3 = self.nodes@;
            let t = s.remove(i);
            assert(self.list(owner) == t);
            assert(forall|j: int| 0 <= j < i ==> t[j] == s[j]);
            assert(forall|j: int| i <= j < t.len() ==> t[j] == s[j + 1]);
            assert forall|j: int| 0 <= j < t.len() implies t[j] != item by {
                if j < i {
                    assert(s[j] != s[i]);
                } else {
                    assert(s[j + 1] != s[i]);
                }
            };
            if t.contains(item) {
                let j = choose|j: int| 0 <= j < t.len() && t[j] == item;
                assert(false);
            }
            assert forall|o: u64| Self::owner_edges(n3, o, self.list(o)) by {
                if o == owner {
                    assert forall|a: int, b: int| 0 <= a < b < t.len() implies t[a] != t[b] by {
                        let sa: int = if a < i { a } else { a + 1 };
                        let sb: int = if b < i { b } else { b + 1 };
                        assert(t[a] == s[sa]);
                        assert(t[b] == s[sb]);
                        assert(s[sa] != s[sb]);
                    };
                    if t.len() == 0 {
                        if n3.contains_key((owner, None::<Id>)) {
                            assert(n3[(owner, None::<Id>)] == (LinkedItem {
                                prev: None,
                                next: None,
                            }));
                        }
                    } else {
                        assert(n3.contains_key((owner, None::<Id>)));
                        assert(n3[(owner, None::<Id>)] == (LinkedItem {
                            prev: Some(t.last()),
                            next: Some(t[0]),
                        }));
                    }
                    assert forall|j: int|
                        0 <= j < t.len() implies n3.contains_key((owner, Some(#[trigger] t[j])))
                        && n3[(owner, Some(t[j]))] == Self::expected_node(t, j) by {
                        let sj: int = if j < i { j } else { j + 1 };
                        assert(t[j] == s[sj]);
                        assert(s[sj] != item);
                        assert(n0.contains_key((owner, Some(s[sj]))));
                        assert(n0[(owner, Some(s[sj]))] == Self::expected_node(s, sj));
                    };
                    assert forall|x: Id| #[trigger] n3.contains_key((owner, Some(x))) implies t.contains(
                        x,
                    ) by {
                        assert(x != item);
                        assert(n0.contains_key((owner, Some(x))));
                        assert(s.contains(x));
                        let q = choose|q: int| 0 <= q < s.len() && s[q] == x;
                        assert(q != i);
                        if q < i {
                            assert(t[q] == x);
                        } else {
                            assert(t[q - 1] == x);
                        }
                    };
                } else {
                    assert(self.list(o) == old(self).list(o));
                    assert(Self::owner_edges(n0, o, old(self).list(o)));
                    assert forall|x: Option<Id>| #[trigger] n3.contains_key((o, x)) <==> n0.contains_key(
                        (o, x),
                    ) by {
                        assert((o, x) != pk);
                        assert((o, x) != nk);
                        assert((o, x) != (owner, Some(item)));
                    };
                    assert forall|x: Option<Id>| n0.contains_key((o, x)) implies #[trigger] n3[(
                        o,
                        x,
                    )] == n0[(o, x)] by {
                        assert((o, x) != pk);
                        assert((o, x) != nk);
                        assert((o, x) != (owner, Some(item)));
                    };
                    Self::lemma_unchanged_owner(n0, n3, o, old(self).list(o));
                }
            };
        }
    }

    /// Enumerate `owner`'s items by following `next` pointers from the
    /// sentinel: exactly the list, in insertion order.
    pub fn traverse(&self, owner: u64) -> (r: Vec<Id>)
        requires
            self.wf(),
        ensures
            r@ == self.list(owner),
    {
        let ghost s = self.list(owner);
        proof {
            assert(Self::owner_edges(self.nodes@, owner, s));
        }
        let sentinel = match self.nodes.get(&(owner, None)) {
            Some(nd) => *nd,
            None => LinkedItem { prev: None, next: None },
        };
        let mut out: Vec<Id> = Vec::new();
        let mut cur: Option<Id> = sentinel.next;
        proof {
            if s.len() == 0 {
                assert(cur is None);
            } else {
                assert(cur == Some(s[0]));
            }
        }
        while cur.is_some()
            invariant
                self.wf(),
                s == self.list(owner),
                out@.len() <= s.len(),
                out@ == s.take(out@.len() as int),
                cur == if out@.len() < s.len() {
                    Some(s[out@.len() as int])
                } else {
                    None::<Id>
                },
            decreases s.len() - out@.len(),
        {
            let x = cur.unwrap();
            proof {
                assert(x == s[out@.len() as int]);
                assert(Self::owner_edges(self.nodes@, owner, s));
                assert(self.nodes@.contains_key((owner, Some(s[out@.len() as int]))));
            }
            let nd = *self.nodes.get(&(owner, Some(x))).unwrap();
            let ghost k = out@.len() as int;
            out.push(x);
            cur = nd.next;
            proof {
                assert(nd == Self::expected_node(s, k));
                assert(out@ =~= s.take(k + 1));
            }
        }
        proof {
            assert(out@.len() == s.len());
            assert(s.take(s.len() as int) =~= s);
        }
        out
    }
}

} // verus!
