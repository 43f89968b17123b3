use vstd::prelude::*;

use crate::assoc::AssocMap;
use crate::assoc::MapKey;
use crate::id::Id;
use crate::linked_list::LinkedListIndex;
use crate::store::copy_bytes;

verus! {

impl MapKey for Id {
    fn key_eq(&self, other: &Self) -> (r: bool)
        ensures
            r == (*self == *other),
    {
        *self == *other
    }
}

/// Why a registry operation failed.
#[derive(Clone, Copy, PartialEq, Eq, Structural, Debug)]
pub enum RegistryError {
    ExchangableIdExists,
    ExchangableIdsCountOverflow,
    InvalidExchangableId,
    /// Reserved by the interface; no operation produces it.
    RequireDifferentParent,
    RequireOwner,
    NotForSale,
    PriceTooLow,
}

/// The currency movement owed after a successful purchase: the buyer pays
/// the seller the listed price. Settling it is the currency collaborator's
/// business, outside this registry.
#[derive(Clone, Copy, PartialEq, Eq, Structural, Debug)]
pub struct Payment {
    pub buyer: u64,
    pub seller: u64,
    pub amount: u64,
}

/// The hyphenated textual form that the uuid library gives to 16 bytes.
pub uninterp spec fn uuid_text_of(b: Seq<u8>) -> Seq<u8>;

/// Relies on `uuid::Uuid::from_bytes` and `Uuid`'s `Display` impl: the
/// hyphenated text of the 16 bytes, 36 characters, a function of the bytes
/// alone.
#[verifier::external_body]
fn uuid_label(bytes: &[u8; 16]) -> (r: Vec<u8>)
    ensures
        r@ == uuid_text_of(bytes@),
        r@.len() == 36,
{
    uuid::Uuid::from_bytes(*bytes).to_string().into_bytes()
}

proof fn lemma_remove_keeps_membership(s: Seq<Id>, i: int, x: Id)
    requires
        0 <= i < s.len(),
        s[i] != x,
    ensures
        s.remove(i).contains(x) == s.contains(x),
{
    let t = s.remove(i);
    if s.contains(x) {
        let q = choose|q: int| 0 <= q < s.len() && s[q] == x;
        if q < i {
            assert(t[q] == x);
        } else {
            assert(t[q - 1] == x);
        }
        assert(t.contains(x));
    }
    if t.contains(x) {
        let q = choose|q: int| 0 <= q < t.len() && t[q] == x;
        if q < i {
            assert(s[q] == x);
        } else {
            assert(s[q + 1] == x);
        }
        assert(s.contains(x));
    }
}

proof fn lemma_push_keeps_membership(s: Seq<Id>, y: Id, x: Id)
    requires
        y != x,
    ensures
        s.push(y).contains(x) == s.contains(x),
{
    let t = s.push(y);
    if s.contains(x) {
        let q = choose|q: int| 0 <= q < s.len() && s[q] == x;
        assert(t[q] == x);
        assert(t.contains(x));
    }
    if t.contains(x) {
        let q = choose|q: int| 0 <= q < t.len() && t[q] == x;
        assert(q < s.len());
        assert(s.contains(x));
    }
}

/// The registry of exchangable items: every created item has a textual
/// label, a current owner whose enumerable list it stands in, and possibly
/// an asking price. A reverse map from item to owner is kept consistent
/// with the per-owner lists at every step.
pub struct Module {
    count: u128,
    labels: AssocMap<Id, Vec<u8>>,
    owned: LinkedListIndex,
    owners: AssocMap<Id, u64>,
    prices: AssocMap<Id, u64>,
}

impl Module {
    /// How many items have been created.
    pub closed spec fn item_count(self) -> u128 {
        self.count
    }

    /// The items `owner` holds, in insertion order.
    pub closed spec fn items(self, owner: u64) -> Seq<Id> {
        self.owned.list(owner)
    }

    /// Whether `item` has been created.
    pub closed spec fn has_item(self, item: Id) -> bool {
        self.labels@.contains_key(item)
    }

    /// The textual label recorded for `item`.
    pub closed spec fn label_of(self, item: Id) -> Seq<u8> {
        self.labels@[item]@
    }

    /// The current owner of `item`, if it has one.
    pub closed spec fn owner_of(self, item: Id) -> Option<u64> {
        if self.owners@.contains_key(item) {
            Some(self.owners@[item])
        } else {
            None
        }
    }

    /// The asking price of `item`; presence means listed for sale.
    pub closed spec fn price_of(self, item: Id) -> Option<u64> {
        if self.prices@.contains_key(item) {
            Some(self.prices@[item])
        } else {
            None
        }
    }

    pub closed spec fn wf(self) -> bool {
        &&& self.labels.wf()
        &&& self.owned.wf()
        &&& self.owners.wf()
        &&& self.prices.wf()
        &&& (forall|o: u64, x: Id|
            #[trigger] self.owned.list(o).contains(x) <==> self.owner_of(x) == Some(o))
        &&& (forall|x: Id| #[trigger] self.owner_of(x) is Some ==> self.has_item(x))
    }

    /// An empty registry.
    pub fn new() -> (r: Module)
        ensures
            r.wf(),
            r.item_count() == 0,
            forall|o: u64| r.items(o) == Seq::<Id>::empty(),
            forall|x: Id| !r.has_item(x) && r.owner_of(x) is None && r.price_of(x) is None,
    {
        let r = Module {
            count: 0,
            labels: AssocMap::new(),
            owned: LinkedListIndex::new(),
            owners: AssocMap::new(),
            prices: AssocMap::new(),
        };
        proof {
            assert forall|o: u64, x: Id|
                #[trigger] r.owned.list(o).contains(x) <==> r.owner_of(x) == Some(o) by {
                assert(r.owned.list(o) == Seq::<Id>::empty());
                assert(!r.owned.list(o).contains(x));
            };
        }
        r
    }

    /// The number of items created so far, read from the stored counter.
    pub fn total(&self) -> (r: u128)
        ensures
            r == self.item_count(),
    {
        self.count
    }

    /// The recorded label of `item`, if it has been created.
    pub fn exchangable_ids(&self, item: &Id) -> (r: Option<Vec<u8>>)
        requires
            self.wf(),
        ensures
            match r {
                Some(l) => self.has_item(*item) && l@ == self.label_of(*item),
                None => !self.has_item(*item),
            },
    {
        match self.labels.get(item) {
            Some(l) => Some(copy_bytes(l)),
            None => None,
        }
    }

    /// The current owner of `item`, if it has one.
    pub fn exchangable_id_owner(&self, item: &Id) -> (r: Option<u64>)
        requires
            self.wf(),
        ensures
            r == self.owner_of(*item),
    {
        match self.owners.get(item) {
            Some(o) => Some(*o),
            None => None,
        }
    }

    /// The asking price of `item`, if it is listed for sale.
    pub fn exchangable_id_price(&self, item: &Id) -> (r: Option<u64>)
        requires
            self.wf(),
        ensures
            r == self.price_of(*item),
    {
        match self.prices.get(item) {
            Some(p) => Some(*p),
            None => None,
        }
    }

    /// Enumerate the items `owner` holds, in insertion order.
    pub fn owned_exchangable_ids(&self, owner: u64) -> (r: Vec<Id>)
        requires
            self.wf(),
        ensures
            r@ == self.items(owner),
    {
        self.owned.traverse(owner)
    }

    /// Record a fresh item for `caller`. The caller hands over the fresh
    /// bytes obtained from the randomness collaborator together with the
    /// identifier the hashing collaborator derived from them; the registry
    /// checks the identifier is new, records its textual label, counts it,
    /// and appends it to `caller`'s list. The label is returned for the
    /// `Created` event.
    pub fn create(&mut self, caller: u64, fresh: [u8; 16], derived: Id) -> (r: Result<
        Vec<u8>,
        RegistryError,
    >)
        requires
            old(self).wf(),
        ensures
            final(self).wf(),
            match r {
                Ok(label) => {
                    &&& !old(self).has_item(derived)
                    &&& old(self).item_count() < u128::MAX
                    &&& label@ == uuid_text_of(fresh@)
                    &&& final(self).has_item(derived)
                    &&& final(self).label_of(derived) == uuid_text_of(fresh@)
                    &&& (forall|x: Id|
                        x != derived ==> final(self).has_item(x) == old(self).has_item(x))
                    &&& (forall|x: Id|
                        x != derived && old(self).has_item(x) ==> final(self).label_of(x) == old(self).label_of(x))
                    &&& final(self).item_count() == old(self).item_count() + 1
                    &&& final(self).items(caller) == old(self).items(caller).push(derived)
                    &&& (forall|o: u64| o != caller ==> final(self).items(o) == old(self).items(o))
                    &&& final(self).owner_of(derived) == Some(caller)
                    &&& (forall|x: Id|
                        x != derived ==> final(self).owner_of(x) == old(self).owner_of(x))
                    &&& (forall|x: Id| final(self).price_of(x) == old(self).price_of(x))
                },
                Err(e) => {
                    &&& *final(self) == *old(self)
                    &&& ((old(self).has_item(derived) && e == RegistryError::ExchangableIdExists)
                        || (!old(self).has_item(derived) && old(self).item_count() == u128::MAX
                        && e == RegistryError::ExchangableIdsCountOverflow))
                },
            },
    {
        if self.labels.has(&derived) {
            return Err(RegistryError::ExchangableIdExists);
        }
        if self.count == u128::MAX {
            return Err(RegistryError::ExchangableIdsCountOverflow);
        }
        let label = uuid_label(&fresh);
        let stored = copy_bytes(&label);
        self.labels.insert(derived, stored);
        self.count = self.count + 1;
        proof {
            assert(old(self).owner_of(derived) is None);
            if self.owned.list(caller).contains(derived) {
                assert(old(self).owner_of(derived) == Some(caller));
            }
        }
        self.owned.append(caller, derived);
        self.owners.insert(derived, caller);
        proof {
            let ghost s0 = old(self).items(caller);
            assert(self.owned.list(caller) == s0.push(derived));
            assert forall|o: u64, x: Id|
                #[trigger] self.owned.list(o).contains(x) <==> self.owner_of(x) == Some(o) by {
                if x == derived {
                    if o == caller {
                        assert(s0.push(derived)[s0.len() as int] == derived);
                        assert(self.owned.list(caller).contains(derived));
                    } else {
                        assert(self.owned.list(o) == old(self).owned.list(o));
                        if self.owned.list(o).contains(derived) {
                            assert(old(self).owner_of(derived) == Some(o));
                        }
                    }
                } else {
                    assert(self.owner_of(x) == old(self).owner_of(x));
                    if o == caller {
                        lemma_push_keeps_membership(s0, derived, x);
                        assert(old(self).owned.list(caller).contains(x) <==> old(self).owner_of(x)
                            == Some(caller));
                    } else {
                        assert(self.owned.list(o) == old(self).owned.list(o));
                        assert(old(self).owned.list(o).contains(x) <==> old(self).owner_of(x)
                            == Some(o));
                    }
                }
            };
            assert forall|x: Id| #[trigger] self.owner_of(x) is Some implies self.has_item(x) by {
                if x != derived {
                    assert(old(self).owner_of(x) == self.owner_of(x));
                }
            };
        }
        Ok(label)
    }

    /// Move `item` from `from`'s list to the tail of `to`'s and repoint the
    /// reverse-owner map. Any price listing is deliberately kept, as the
    /// plain transfer operation has always done; only a purchase clears it.
    fn do_transfer(&mut self, from: u64, to: u64, item: Id)
        requires
            old(self).wf(),
            old(self).items(from).contains(item),
        ensures
            final(self).wf(),
            final(self).owner_of(item) == Some(to),
            forall|x: Id| x != item ==> final(self).owner_of(x) == old(self).owner_of(x),
            final(self).items(to).contains(item),
            from != to ==> !final(self).items(from).contains(item) && final(self).items(from)
                == old(self).items(from).remove(old(self).items(from).index_of(item)) && final(self).items(to) == old(self).items(to).push(item),
            from == to ==> final(self).items(from) == old(self).items(from).remove(
                old(self).items(from).index_of(item),
            ).push(item),
            forall|o: u64| o != from && o != to ==> final(self).items(o) == old(self).items(o),
            forall|x: Id| final(self).price_of(x) == old(self).price_of(x),
            forall|x: Id| final(self).has_item(x) == old(self).has_item(x),
            forall|x: Id|
                old(self).has_item(x) ==> final(self).label_of(x) == old(self).label_of(x),
            final(self).item_count() == old(self).item_count(),
    {
        proof {
            assert(old(self).owned.list(from).contains(item));
            assert(old(self).owner_of(item) == Some(from));
        }
        self.owned.remove(from, item);
        proof {
            if from != to {
                if self.owned.list(to).contains(item) {
                    assert(old(self).owned.list(to).contains(item));
                    assert(old(self).owner_of(item) == Some(to));
                }
            }
            assert(!self.owned.list(to).contains(item));
        }
        let ghost mid_to = self.owned.list(to);
        self.owned.append(to, item);
        self.owners.insert(item, to);
        proof {
            let ghost s_from = old(self).items(from);
            let ghost i = s_from.index_of(item);
            assert(0 <= i < s_from.len() && s_from[i] == item);
            assert(self.owned.list(to) == mid_to.push(item));
            assert(mid_to.push(item)[mid_to.len() as int] == item);
            assert(self.owned.list(to).contains(item));
            assert forall|o: u64, x: Id|
                #[trigger] self.owned.list(o).contains(x) <==> self.owner_of(x) == Some(o) by {
                if x == item {
                    if o == to {
                        assert(self.owned.list(to).contains(item));
                    } else {
                        if o == from {
                            assert(!self.owned.list(from).contains(item));
                        } else {
                            assert(self.owned.list(o) == old(self).owned.list(o));
                            if self.owned.list(o).contains(item) {
                                assert(old(self).owner_of(item) == Some(o));
                            }
                        }
                    }
                } else {
                    assert(self.owner_of(x) == old(self).owner_of(x));
                    if o == to {
                        lemma_push_keeps_membership(mid_to, item, x);
                        if o == from {
                            lemma_remove_keeps_membership(s_from, i, x);
                        }
                        assert(old(self).owned.list(o).contains(x) <==> old(self).owner_of(x)
                            == Some(o));
                    } else if o == from {
                        lemma_remove_keeps_membership(s_from, i, x);
                        assert(old(self).owned.list(o).contains(x) <==> old(self).owner_of(x)
                            == Some(o));
                    } else {
                        assert(self.owned.list(o) == old(self).owned.list(o));
                        assert(old(self).owned.list(o).contains(x) <==> old(self).owner_of(x)
                            == Some(o));
                    }
                }
            };
            assert forall|x: Id| #[trigger] self.owner_of(x) is Some implies self.has_item(x) by {
                if x != item {
                    assert(old(self).owner_of(x) == self.owner_of(x));
                } else {
                    assert(old(self).owner_of(item) is Some);
                }
            };
        }
    }

    /// Hand `item` over from `caller` to `to`. Only the current owner may
    /// transfer; a transfer to oneself is allowed and moves the item to the
    /// tail of the list. An existing price listing is deliberately kept.
    /// On success the caller is owed the event `Transferred(caller, to,
    /// item)`.
    pub fn transfer(&mut self, caller: u64, to: u64, item: Id) -> (r: Result<(), RegistryError>)
        requires
            old(self).wf(),
        ensures
            final(self).wf(),
            match r {
                Ok(()) => {
                    &&& old(self).items(caller).contains(item)
                    &&& final(self).owner_of(item) == Some(to)
                    &&& (forall|x: Id|
                        x != item ==> final(self).owner_of(x) == old(self).owner_of(x))
                    &&& final(self).items(to).contains(item)
                    &&& (caller != to ==> !final(self).items(caller).contains(item) && final(self).items(caller) == old(self).items(caller).remove(
                        old(self).items(caller).index_of(item),
                    ) && final(self).items(to) == old(self).items(to).push(item))
                    &&& (caller == to ==> final(self).items(caller) == old(self).items(
                        caller,
                    ).remove(old(self).items(caller).index_of(item)).push(item))
                    &&& (forall|o: u64|
                        o != caller && o != to ==> final(self).items(o) == old(self).items(o))
                    &&& (forall|x: Id| final(self).price_of(x) == old(self).price_of(x))
                    &&& (forall|x: Id| final(self).has_item(x) == old(self).has_item(x))
                    &&& final(self).item_count() == old(self).item_count()
                },
                Err(e) => *final(self) == *old(self) && e == RegistryError::RequireOwner && !old(self).items(caller).contains(item),
            },
    {
        if !self.owned.contains(caller, item) {
            return Err(RegistryError::RequireOwner);
        }
        self.do_transfer(caller, to, item);
        Ok(())
    }

    /// List `item` for sale at a price, or delist it with `None`. Only the
    /// current owner may do either. On success the caller is owed the
    /// event `Ask(caller, item, price)`.
    pub fn list_for_sale(&mut self, caller: u64, item: Id, price: Option<u64>) -> (r: Result<
        (),
        RegistryError,
    >)
        requires
            old(self).wf(),
        ensures
            final(self).wf(),
            match r {
                Ok(()) => {
                    &&& old(self).owner_of(item) == Some(caller)
                    &&& final(self).price_of(item) == price
                    &&& (forall|x: Id|
                        x != item ==> final(self).price_of(x) == old(self).price_of(x))
                    &&& (forall|o: u64| final(self).items(o) == old(self).items(o))
                    &&& (forall|x: Id| final(self).owner_of(x) == old(self).owner_of(x))
                    &&& (forall|x: Id| final(self).has_item(x) == old(self).has_item(x))
                    &&& final(self).item_count() == old(self).item_count()
                },
                Err(e) => *final(self) == *old(self) && e == RegistryError::RequireOwner && old(self).owner_of(item) != Some(caller),
            },
    {
        let owned_by_caller = match self.owners.get(&item) {
            Some(o) => *o == caller,
            None => false,
        };
        if !owned_by_caller {
            return Err(RegistryError::RequireOwner);
        }
        match price {
            Some(p) => self.prices.insert(item, p),
            None => self.prices.remove(&item),
        }
        proof {
            assert forall|o: u64, x: Id|
                #[trigger] self.owned.list(o).contains(x) <==> self.owner_of(x) == Some(o) by {
                assert(old(self).owned.list(o).contains(x) <==> old(self).owner_of(x) == Some(o));
            };
            assert forall|x: Id| #[trigger] self.owner_of(x) is Some implies self.has_item(x) by {
                assert(old(self).owner_of(x) == self.owner_of(x));
            };
        }
        Ok(())
    }

    /// The read-only half of a purchase: exactly the checks of `buy`,
    /// without any state change. The harness quotes first, has the
    /// currency collaborator move the funds, and only then calls `buy`,
    /// which in this one-request-at-a-time setting sees the same state.
    pub fn buy_quote(&self, caller: u64, item: Id, offered: u64) -> (r: Result<
        Payment,
        RegistryError,
    >)
        requires
            self.wf(),
        ensures
            match r {
                Ok(p) => {
                    &&& self.owner_of(item) == Some(p.seller)
                    &&& self.price_of(item) == Some(p.amount)
                    &&& p.buyer == caller
                    &&& offered >= p.amount
                },
                Err(e) => match e {
                    RegistryError::InvalidExchangableId => self.owner_of(item) is None,
                    RegistryError::NotForSale => self.owner_of(item) is Some && self.price_of(item)
                        is None,
                    RegistryError::PriceTooLow => self.owner_of(item) is Some && match self
                        .price_of(item) {
                        Some(listed) => offered < listed,
                        None => false,
                    },
                    _ => false,
                },
            },
    {
        let seller = match self.owners.get(&item) {
            Some(o) => *o,
            None => {
                return Err(RegistryError::InvalidExchangableId);
            },
        };
        let listed = match self.prices.get(&item) {
            Some(p) => *p,
            None => {
                return Err(RegistryError::NotForSale);
            },
        };
        if offered < listed {
            return Err(RegistryError::PriceTooLow);
        }
        Ok(Payment { buyer: caller, seller, amount: listed })
    }

    /// Complete a purchase: the item must have an owner and a price
    /// listing, and the offer must reach the listed price. On success the
    /// listing is cleared and ownership moves from the seller to `caller`,
    /// atomically with the currency movement that the returned payment
    /// describes and that the surrounding transaction must settle. The
    /// caller is then owed the event `Sold(seller, caller, item, amount)`.
    pub fn buy(&mut self, caller: u64, item: Id, offered: u64) -> (r: Result<
        Payment,
        RegistryError,
    >)
        requires
            old(self).wf(),
        ensures
            final(self).wf(),
            match r {
                Ok(p) => {
                    &&& old(self).owner_of(item) == Some(p.seller)
                    &&& old(self).price_of(item) == Some(p.amount)
                    &&& p.buyer == caller
                    &&& offered >= p.amount
                    &&& final(self).price_of(item) is None
                    &&& (forall|x: Id|
                        x != item ==> final(self).price_of(x) == old(self).price_of(x))
                    &&& final(self).owner_of(item) == Some(caller)
                    &&& (forall|x: Id|
                        x != item ==> final(self).owner_of(x) == old(self).owner_of(x))
                    &&& final(self).items(caller).contains(item)
                    &&& (p.seller != caller ==> !final(self).items(p.seller).contains(item)
                        && final(self).items(p.seller) == old(self).items(p.seller).remove(
                        old(self).items(p.seller).index_of(item),
                    ) && final(self).items(caller) == old(self).items(caller).push(item))
                    &&& (p.seller == caller ==> final(self).items(caller) == old(self).items(
                        caller,
                    ).remove(old(self).items(caller).index_of(item)).push(item))
                    &&& (forall|o: u64|
                        o != p.seller && o != caller ==> final(self).items(o) == old(self).items(
                            o,
                        ))
                    &&& (forall|x: Id| final(self).has_item(x) == old(self).has_item(x))
                    &&& final(self).item_count() == old(self).item_count()
                },
                Err(e) => *final(self) == *old(self) && match e {
                    RegistryError::InvalidExchangableId => old(self).owner_of(item) is None,
                    RegistryError::NotForSale => old(self).owner_of(item) is Some && old(self).price_of(item) is None,
                    RegistryError::PriceTooLow => old(self).owner_of(item) is Some && match old(self).price_of(item) {
                        Some(listed) => offered < listed,
                        None => false,
                    },
                    _ => false,
                },
            },
    {
        let seller = match self.owners.get(&item) {
            Some(o) => *o,
            None => {
                return Err(RegistryError::InvalidExchangableId);
            },
        };
        let listed = match self.prices.get(&item) {
            Some(p) => *p,
            None => {
                return Err(RegistryError::NotForSale);
            },
        };
        if offered < listed {
            return Err(RegistryError::PriceTooLow);
        }
        self.prices.remove(&item);
        proof {
            assert forall|o: u64, x: Id|
                #[trigger] self.owned.list(o).contains(x) <==> self.owner_of(x) == Some(o) by {
                assert(old(self).owned.list(o).contains(x) <==> old(self).owner_of(x) == Some(o));
            };
            assert forall|x: Id| #[trigger] self.owner_of(x) is Some implies self.has_item(x) by {
                assert(old(self).owner_of(x) == self.owner_of(x));
            };
            assert(self.wf());
            assert(old(self).owner_of(item) == Some(seller));
            assert(self.owner_of(item) == Some(seller));
            assert(self.owned.list(seller).contains(item));
        }
        self.do_transfer(seller, caller, item);
        Ok(Payment { buyer: caller, seller, amount: listed })
    }
}

} // verus!
