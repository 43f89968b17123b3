use vstd::prelude::*;

use crate::id::Id;
use crate::store::KeyedStore;
use crate::store::bytes_eq;
use crate::store::copy_bytes;
use crate::store::copy_ids;

verus! {

/// One proposed change: replace the value stored under
/// `(primary, relation)`, expected to be `before`, by `after`.
pub struct Change {
    /// primary object of the relation
    pub primary: Id,
    /// description of the relation between the primary object and the value
    pub relation: Vec<Id>,
    /// value before the modification; `None` means absent
    pub before: Option<Vec<u8>>,
    /// value after the modification; `None` means absent
    pub after: Option<Vec<u8>>,
}

/// An ordered batch of changes, validated as a whole and applied
/// all-or-nothing.
pub struct Mutation {
    pub changes: Vec<Change>,
}

/// Why a mutation was rejected. All are detected before any write.
#[derive(Clone, Copy, PartialEq, Eq, Structural, Debug)]
pub enum RejectionReason {
    /// no changes
    EmptyChanges,
    /// too many changes
    TooManyChanges,
    /// no relations
    EmptyRelations,
    /// relation vector is not ordered
    RelationsIsNotOrdered,
    /// change must have a state mutation
    BeforeAndAfterStatesAreEqual,
    /// before state mismatch
    BeforeStateMismatch,
}

/// The acceptance token produced for a mutation that passed validation.
#[derive(Clone, Copy, PartialEq, Eq, Structural, Debug)]
pub struct Acceptance {
    pub priority: u64,
    pub longevity: u64,
    pub propagate: bool,
}

/// The contents of an optional value, `None` standing for absence.
pub open spec fn opt_bytes(v: Option<Vec<u8>>) -> Option<Seq<u8>> {
    match v {
        Some(b) => Some(b@),
        None => None,
    }
}

/// Ascending order, checked over adjacent pairs.
pub open spec fn relation_sorted(r: Seq<Id>) -> bool {
    forall|i: int| 0 <= i < r.len() - 1 ==> #[trigger] r[i].spec_le(r[i + 1])
}

/// What the store holds at `k`, `None` standing for absence.
pub open spec fn store_at(m: Map<(Id, Seq<Id>), Seq<u8>>, k: (Id, Seq<Id>)) -> Option<Seq<u8>> {
    if m.contains_key(k) {
        Some(m[k])
    } else {
        None
    }
}

/// The first check that a single change fails against store contents `m`,
/// in the fixed order: relation non-empty, relation sorted, a real state
/// change, and the optimistic-concurrency comparison of `before` with what
/// the store currently holds.
pub open spec fn change_error(c: Change, m: Map<(Id, Seq<Id>), Seq<u8>>) -> Option<
    RejectionReason,
> {
    if c.relation@.len() == 0 {
        Some(RejectionReason::EmptyRelations)
    } else if !relation_sorted(c.relation@) {
        Some(RejectionReason::RelationsIsNotOrdered)
    } else if opt_bytes(c.before) == opt_bytes(c.after) {
        Some(RejectionReason::BeforeAndAfterStatesAreEqual)
    } else if store_at(m, (c.primary, c.relation@)) != opt_bytes(c.before) {
        Some(RejectionReason::BeforeStateMismatch)
    } else {
        None
    }
}

/// The first error among the changes, in sequence order.
pub open spec fn changes_error(cs: Seq<Change>, m: Map<(Id, Seq<Id>), Seq<u8>>) -> Option<
    RejectionReason,
>
    decreases cs.len(),
{
    if cs.len() == 0 {
        None
    } else if change_error(cs[0], m) is Some {
        change_error(cs[0], m)
    } else {
        changes_error(cs.drop_first(), m)
    }
}

/// The outcome of validating a whole mutation against store contents `m`:
/// `None` means accepted.
pub open spec fn mutation_error(mu: Mutation, m: Map<(Id, Seq<Id>), Seq<u8>>) -> Option<
    RejectionReason,
> {
    if mu.changes@.len() == 0 {
        Some(RejectionReason::EmptyChanges)
    } else if mu.changes@.len() >= 256 {
        Some(RejectionReason::TooManyChanges)
    } else {
        changes_error(mu.changes@, m)
    }
}

/// Store contents after one change: `after = Some` upserts, `after = None`
/// deletes.
pub open spec fn apply_change(m: Map<(Id, Seq<Id>), Seq<u8>>, c: Change) -> Map<
    (Id, Seq<Id>),
    Seq<u8>,
> {
    match c.after {
        Some(v) => m.insert((c.primary, c.relation@), v@),
        None => m.remove((c.primary, c.relation@)),
    }
}

/// Store contents after the whole batch, applied in sequence order.
pub open spec fn apply_changes(m: Map<(Id, Seq<Id>), Seq<u8>>, cs: Seq<Change>) -> Map<
    (Id, Seq<Id>),
    Seq<u8>,
>
    decreases cs.len(),
{
    if cs.len() == 0 {
        m
    } else {
        apply_changes(apply_change(m, cs[0]), cs.drop_first())
    }
}

proof fn lemma_changes_error_skip(cs: Seq<Change>, m: Map<(Id, Seq<Id>), Seq<u8>>, i: int)
    requires
        0 <= i <= cs.len(),
        forall|k: int| 0 <= k < i ==> change_error(cs[k], m) is None,
    ensures
        changes_error(cs, m) == changes_error(cs.skip(i), m),
    decreases i,
{
    if i == 0 {
        assert(cs.skip(0) =~= cs);
    } else {
        lemma_changes_error_skip(cs, m, i - 1);
        let t = cs.skip(i - 1);
        assert(t[0] == cs[i - 1]);
        assert(change_error(t[0], m) is None);
        assert(changes_error(t, m) == changes_error(t.drop_first(), m));
        assert(t.drop_first() =~= cs.skip(i));
    }
}

proof fn lemma_apply_changes_push(m: Map<(Id, Seq<Id>), Seq<u8>>, cs: Seq<Change>, c: Change)
    ensures
        apply_changes(m, cs.push(c)) == apply_change(apply_changes(m, cs), c),
    decreases cs.len(),
{
    let s = cs.push(c);
    if cs.len() == 0 {
        assert(s[0] == c);
        assert(s.drop_first() =~= Seq::<Change>::empty());
        assert(apply_changes(m, s) == apply_changes(apply_change(m, c), s.drop_first()));
        assert(apply_changes(apply_change(m, c), Seq::<Change>::empty()) == apply_change(m, c));
        assert(apply_changes(m, cs) == m);
    } else {
        assert(s[0] == cs[0]);
        assert(s.drop_first() =~= cs.drop_first().push(c));
        assert(apply_changes(m, s) == apply_changes(apply_change(m, s[0]), s.drop_first()));
        lemma_apply_changes_push(apply_change(m, cs[0]), cs.drop_first(), c);
        assert(apply_changes(m, cs) == apply_changes(apply_change(m, cs[0]), cs.drop_first()));
    }
}

fn relation_is_sorted(r: &Vec<Id>) -> (res: bool)
    ensures
        res == relation_sorted(r@),
{
    let n = r.len();
    if n == 0 {
        return true;
    }
    let mut i: usize = 0;
    while i < n - 1
        invariant
            n == r@.len(),
            1 <= n,
            i <= n,
            forall|j: int| 0 <= j < i ==> #[trigger] r@[j].spec_le(r@[j + 1]),
        decreases n - i,
    {
        if !r[i].le(&r[i + 1]) {
            return false;
        }
        i += 1;
    }
    true
}

fn opt_bytes_eq(a: &Option<Vec<u8>>, b: &Option<Vec<u8>>) -> (res: bool)
    ensures
        res == (opt_bytes(*a) == opt_bytes(*b)),
{
    match (a, b) {
        (None, None) => true,
        (Some(x), Some(y)) => bytes_eq(x, y),
        _ => false,
    }
}

/// Validate a batch of proposed changes against the store, without writing.
/// The result is exactly `mutation_error`: the first violated check, in
/// order, of the first violating change; or the acceptance token when every
/// change passes every check.
pub fn validate_mutation(store: &KeyedStore, mutation: &Mutation) -> (r: Result<
    Acceptance,
    RejectionReason,
>)
    requires
        store.wf(),
    ensures
        match r {
            Ok(a) => mutation_error(*mutation, store@) is None && a == (Acceptance {
                priority: 1,
                longevity: u64::MAX,
                propagate: true,
            }),
            Err(e) => mutation_error(*mutation, store@) == Some(e),
        },
{
    let n = mutation.changes.len();
    if n == 0 {
        return Err(RejectionReason::EmptyChanges);
    }
    if n >= 256 {
        return Err(RejectionReason::TooManyChanges);
    }
    let ghost cs = mutation.changes@;
    let ghost m = store@;
    let mut i: usize = 0;
    while i < n
        invariant
            store.wf(),
            n == cs.len(),
            0 < n < 256,
            i <= n,
            cs == mutation.changes@,
            m == store@,
            forall|k: int| 0 <= k < i ==> change_error(cs[k], m) is None,
        decreases n - i,
    {
        let c = &mutation.changes[i];
        proof {
            lemma_changes_error_skip(cs, m, i as int);
            assert(cs.skip(i as int)[0] == cs[i as int]);
        }
        if c.relation.len() == 0 {
            return Err(RejectionReason::EmptyRelations);
        }
        if !relation_is_sorted(&c.relation) {
            return Err(RejectionReason::RelationsIsNotOrdered);
        }
        if opt_bytes_eq(&c.before, &c.after) {
            return Err(RejectionReason::BeforeAndAfterStatesAreEqual);
        }
        let current = store.get(&c.primary, &c.relation);
        let consistent = match (current, &c.before) {
            (None, None) => true,
            (Some(cv), Some(bv)) => bytes_eq(cv, bv),
            _ => false,
        };
        if !consistent {
            return Err(RejectionReason::BeforeStateMismatch);
        }
        proof {
            assert(change_error(cs[i as int], m) is None);
        }
        i += 1;
    }
    proof {
        lemma_changes_error_skip(cs, m, n as int);
        assert(cs.skip(n as int) =~= Seq::<Change>::empty());
    }
    Ok(Acceptance { priority: 1, longevity: u64::MAX, propagate: true })
}

/// Write every change of an already validated batch, in sequence order,
/// unconditionally.
pub fn update_storage(store: &mut KeyedStore, mutation: &Mutation)
    requires
        old(store).wf(),
    ensures
        final(store).wf(),
        final(store)@ == apply_changes(old(store)@, mutation.changes@),
{
    let ghost cs = mutation.changes@;
    let ghost m0 = old(store)@;
    let n = mutation.changes.len();
    let mut i: usize = 0;
    while i < n
        invariant
            store.wf(),
            n == cs.len(),
            i <= n,
            cs == mutation.changes@,
            store@ == apply_changes(m0, cs.take(i as int)),
        decreases n - i,
    {
        let c = &mutation.changes[i];
        proof {
            assert(cs.take(i as int + 1) =~= cs.take(i as int).push(cs[i as int]));
            lemma_apply_changes_push(m0, cs.take(i as int), cs[i as int]);
        }
        match &c.after {
            Some(v) => {
                let rel = copy_ids(&c.relation);
                let val = copy_bytes(v);
                store.insert(c.primary, rel, val);
            },
            None => {
                store.remove(&c.primary, &c.relation);
            },
        }
        i += 1;
    }
    proof {
        assert(cs.take(n as int) =~= cs);
    }
}

/// Dispatch a single mutation for an authenticated caller: validate it
/// against the store and, only if every change passes, apply the whole
/// batch. On rejection the store is untouched. On acceptance the caller is
/// owed the event `MutationAccepted(mutation, caller)`; emitting it is the
/// caller's business.
pub fn modify(store: &mut KeyedStore, caller: u64, mutation: &Mutation) -> (r: Result<
    Acceptance,
    RejectionReason,
>)
    requires
        old(store).wf(),
    ensures
        final(store).wf(),
        match r {
            Ok(a) => mutation_error(*mutation, old(store)@) is None && final(store)@
                == apply_changes(old(store)@, mutation.changes@) && a == (Acceptance {
                priority: 1,
                longevity: u64::MAX,
                propagate: true,
            }),
            Err(e) => mutation_error(*mutation, old(store)@) == Some(e) && final(store)@ == old(
                store,
            )@,
        },
{
    let _ = caller;
    match validate_mutation(store, mutation) {
        Ok(a) => {
            update_storage(store, mutation);
            Ok(a)
        },
        Err(e) => Err(e),
    }
}

/// Law: a mutation with no changes is rejected as `EmptyChanges`, whatever
/// the store holds; `modify` then leaves the store unchanged.
pub proof fn lemma_empty_changes_rejected(mu: Mutation, m: Map<(Id, Seq<Id>), Seq<u8>>)
    requires
        mu.changes@.len() == 0,
    ensures
        mutation_error(mu, m) == Some(RejectionReason::EmptyChanges),
{
}

/// Law: a mutation of 256 or more changes is rejected as `TooManyChanges`,
/// whatever the store holds.
pub proof fn lemma_too_many_changes_rejected(mu: Mutation, m: Map<(Id, Seq<Id>), Seq<u8>>)
    requires
        mu.changes@.len() >= 256,
    ensures
        mutation_error(mu, m) == Some(RejectionReason::TooManyChanges),
{
}

/// Law: if every change before position `i` passes every check and the
/// change at `i` has an empty relation, the whole batch is rejected as
/// `EmptyRelations`.
pub proof fn lemma_empty_relation_rejected(
    mu: Mutation,
    m: Map<(Id, Seq<Id>), Seq<u8>>,
    i: int,
)
    requires
        0 < mu.changes@.len() < 256,
        0 <= i < mu.changes@.len(),
        forall|k: int| 0 <= k < i ==> change_error(mu.changes@[k], m) is None,
        mu.changes@[i].relation@.len() == 0,
    ensures
        mutation_error(mu, m) == Some(RejectionReason::EmptyRelations),
{
    lemma_changes_error_skip(mu.changes@, m, i);
    assert(mu.changes@.skip(i)[0] == mu.changes@[i]);
}

/// Law: if every change before position `i` passes every check and the
/// relation of the change at `i` is not in ascending order, the whole batch
/// is rejected as `RelationsIsNotOrdered`.
pub proof fn lemma_unordered_relation_rejected(
    mu: Mutation,
    m: Map<(Id, Seq<Id>), Seq<u8>>,
    i: int,
)
    requires
        0 < mu.changes@.len() < 256,
        0 <= i < mu.changes@.len(),
        forall|k: int| 0 <= k < i ==> change_error(mu.changes@[k], m) is None,
        !relation_sorted(mu.changes@[i].relation@),
    ensures
        mutation_error(mu, m) == Some(RejectionReason::RelationsIsNotOrdered),
{
    lemma_changes_error_skip(mu.changes@, m, i);
    assert(mu.changes@.skip(i)[0] == mu.changes@[i]);
    assert(mu.changes@[i].relation@.len() != 0);
}

/// Law: if every change before position `i` passes every check and the
/// change at `i` proposes no state change at all, the whole batch is
/// rejected as `BeforeAndAfterStatesAreEqual`.
pub proof fn lemma_no_op_change_rejected(mu: Mutation, m: Map<(Id, Seq<Id>), Seq<u8>>, i: int)
    requires
        0 < mu.changes@.len() < 256,
        0 <= i < mu.changes@.len(),
        forall|k: int| 0 <= k < i ==> change_error(mu.changes@[k], m) is None,
        mu.changes@[i].relation@.len() > 0,
        relation_sorted(mu.changes@[i].relation@),
        opt_bytes(mu.changes@[i].before) == opt_bytes(mu.changes@[i].after),
    ensures
        mutation_error(mu, m) == Some(RejectionReason::BeforeAndAfterStatesAreEqual),
{
    lemma_changes_error_skip(mu.changes@, m, i);
    assert(mu.changes@.skip(i)[0] == mu.changes@[i]);
}

/// Law: if every change before position `i` passes every check and the
/// `before` state of the structurally valid change at `i` differs from what
/// the store holds, the whole batch is rejected as `BeforeStateMismatch`.
pub proof fn lemma_conflict_rejected(mu: Mutation, m: Map<(Id, Seq<Id>), Seq<u8>>, i: int)
    requires
        0 < mu.changes@.len() < 256,
        0 <= i < mu.changes@.len(),
        forall|k: int| 0 <= k < i ==> change_error(mu.changes@[k], m) is None,
        mu.changes@[i].relation@.len() > 0,
        relation_sorted(mu.changes@[i].relation@),
        opt_bytes(mu.changes@[i].before) != opt_bytes(mu.changes@[i].after),
        store_at(m, (mu.changes@[i].primary, mu.changes@[i].relation@)) != opt_bytes(
            mu.changes@[i].before,
        ),
    ensures
        mutation_error(mu, m) == Some(RejectionReason::BeforeStateMismatch),
{
    lemma_changes_error_skip(mu.changes@, m, i);
    assert(mu.changes@.skip(i)[0] == mu.changes@[i]);
}

} // verus!
