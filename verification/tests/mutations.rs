use animo::id::Id;
use animo::mutation::Acceptance;
use animo::mutation::Change;
use animo::mutation::Mutation;
use animo::mutation::RejectionReason;
use animo::mutation::modify;
use animo::mutation::update_storage;
use animo::mutation::validate_mutation;
use animo::store::KeyedStore;

fn zeros() -> Id {
    Id { w0: 0, w1: 0, w2: 0, w3: 0 }
}

fn ones() -> Id {
    let w = 0x0101010101010101u64;
    Id { w0: w, w1: w, w2: w, w3: w }
}

#[test]
fn correct_mutations() {
    let mut store = KeyedStore::new();

    let subject = zeros();
    let relation = vec![zeros()];
    let v1 = "1".as_bytes().to_vec();
    let v2 = "2".as_bytes().to_vec();

    let md = Mutation {
        changes: vec![Change {
            primary: subject,
            relation: relation.clone(),
            before: None,
            after: Some(v1.clone()),
        }],
    };
    assert!(modify(&mut store, 1, &md).is_ok());
    assert_eq!(store.get(&subject, &relation), Some(&v1));

    let md = Mutation {
        changes: vec![Change {
            primary: subject,
            relation: relation.clone(),
            before: Some(v1.clone()),
            after: Some(v2.clone()),
        }],
    };
    assert!(modify(&mut store, 1, &md).is_ok());
    assert_eq!(store.get(&subject, &relation), Some(&v2));

    let md = Mutation {
        changes: vec![Change {
            primary: subject,
            relation: relation.clone(),
            before: Some(v2.clone()),
            after: None,
        }],
    };
    assert!(modify(&mut store, 1, &md).is_ok());
    assert_eq!(store.get(&subject, &relation), None);
}

#[test]
fn correct_errors() {
    let mut store = KeyedStore::new();

    let subject = zeros();
    let relation = vec![zeros()];
    let v1 = "1".as_bytes().to_vec();

    let md = Mutation { changes: vec![] };
    assert_eq!(modify(&mut store, 1, &md), Err(RejectionReason::EmptyChanges));

    let md = Mutation {
        changes: vec![Change {
            primary: subject,
            relation: vec![],
            before: None,
            after: Some(v1.clone()),
        }],
    };
    assert_eq!(modify(&mut store, 1, &md), Err(RejectionReason::EmptyRelations));

    let md = Mutation {
        changes: vec![Change {
            primary: subject,
            relation: relation.clone(),
            before: None,
            after: None,
        }],
    };
    assert_eq!(
        modify(&mut store, 1, &md),
        Err(RejectionReason::BeforeAndAfterStatesAreEqual)
    );

    let md = Mutation {
        changes: vec![Change {
            primary: subject,
            relation: relation.clone(),
            before: Some(v1.clone()),
            after: None,
        }],
    };
    assert_eq!(modify(&mut store, 1, &md), Err(RejectionReason::BeforeStateMismatch));

    let md = Mutation {
        changes: vec![Change {
            primary: subject,
            relation: vec![ones(), zeros()],
            before: Some(v1.clone()),
            after: None,
        }],
    };
    assert_eq!(modify(&mut store, 1, &md), Err(RejectionReason::RelationsIsNotOrdered));
}

#[test]
fn too_many_changes_rejected() {
    let mut store = KeyedStore::new();
    let mut changes = Vec::new();
    for k in 0..256u64 {
        changes.push(Change {
            primary: Id { w0: 0, w1: 0, w2: 0, w3: k },
            relation: vec![zeros()],
            before: None,
            after: Some(vec![1u8]),
        });
    }
    let md = Mutation { changes };
    assert_eq!(modify(&mut store, 1, &md), Err(RejectionReason::TooManyChanges));
    assert_eq!(store.get(&zeros(), &vec![zeros()]), None);
}

#[test]
fn acceptance_token_fields() {
    let store = KeyedStore::new();
    let md = Mutation {
        changes: vec![Change {
            primary: zeros(),
            relation: vec![zeros()],
            before: None,
            after: Some(vec![7u8]),
        }],
    };
    let a = validate_mutation(&store, &md).unwrap();
    assert_eq!(
        a,
        Acceptance { priority: 1, longevity: u64::MAX, propagate: true }
    );
}

#[test]
fn rejected_batch_leaves_store_untouched() {
    let mut store = KeyedStore::new();
    let good = Change {
        primary: zeros(),
        relation: vec![zeros()],
        before: None,
        after: Some(vec![1u8]),
    };
    let bad = Change {
        primary: ones(),
        relation: vec![ones()],
        before: Some(vec![9u8]),
        after: None,
    };
    let md = Mutation { changes: vec![good, bad] };
    assert_eq!(modify(&mut store, 1, &md), Err(RejectionReason::BeforeStateMismatch));
    assert_eq!(store.get(&zeros(), &vec![zeros()]), None);
    assert_eq!(store.get(&ones(), &vec![ones()]), None);
}

#[test]
fn multi_change_batch_applies_in_order() {
    let mut store = KeyedStore::new();
    let a = zeros();
    let b = ones();
    let md = Mutation {
        changes: vec![
            Change {
                primary: a,
                relation: vec![a],
                before: None,
                after: Some(vec![1u8]),
            },
            Change {
                primary: b,
                relation: vec![a, b],
                before: None,
                after: Some(vec![2u8]),
            },
        ],
    };
    assert!(modify(&mut store, 1, &md).is_ok());
    assert_eq!(store.get(&a, &vec![a]), Some(&vec![1u8]));
    assert_eq!(store.get(&b, &vec![a, b]), Some(&vec![2u8]));

    // validated against the current state, then applied unconditionally
    let md = Mutation {
        changes: vec![Change {
            primary: a,
            relation: vec![a],
            before: Some(vec![1u8]),
            after: Some(vec![3u8]),
        }],
    };
    let acceptance = validate_mutation(&store, &md);
    assert!(acceptance.is_ok());
    update_storage(&mut store, &md);
    assert_eq!(store.get(&a, &vec![a]), Some(&vec![3u8]));
}
