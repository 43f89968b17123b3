use animo::id::Id;
use animo::linked_list::LinkedListIndex;
use animo::registry::Payment;
use animo::registry::Module;
use animo::registry::RegistryError;

fn item(n: u64) -> Id {
    Id { w0: 0, w1: 0, w2: 0, w3: n }
}

#[test]
fn append_then_traverse_in_order() {
    let mut index = LinkedListIndex::new();
    for k in 0..5u64 {
        index.append(7, item(k));
    }
    let got = index.traverse(7);
    assert_eq!(got.len(), 5);
    for k in 0..5u64 {
        assert_eq!(got[k as usize], item(k));
    }
    assert!(index.traverse(8).is_empty());
}

#[test]
fn remove_interior_keeps_order() {
    let mut index = LinkedListIndex::new();
    for k in 0..5u64 {
        index.append(3, item(k));
    }
    index.remove(3, item(2));
    assert_eq!(index.traverse(3), vec![item(0), item(1), item(3), item(4)]);
    index.remove(3, item(0));
    assert_eq!(index.traverse(3), vec![item(1), item(3), item(4)]);
    index.remove(3, item(4));
    assert_eq!(index.traverse(3), vec![item(1), item(3)]);
    index.remove(3, item(1));
    index.remove(3, item(3));
    assert!(index.traverse(3).is_empty());
    index.append(3, item(9));
    assert_eq!(index.traverse(3), vec![item(9)]);
}

#[test]
fn create_records_label_count_and_ownership() {
    let mut reg = Module::new();
    assert_eq!(reg.total(), 0);
    let fresh: [u8; 16] = [
        0x67, 0xe5, 0x50, 0x44, 0x10, 0xb1, 0x42, 0x6f, 0x92, 0x47, 0xbb, 0x68, 0x0e, 0x5f,
        0xe0, 0xc8,
    ];
    let label = reg.create(1, fresh, item(42)).unwrap();
    assert_eq!(
        label,
        "67e55044-10b1-426f-9247-bb680e5fe0c8".as_bytes().to_vec()
    );
    assert_eq!(reg.exchangable_ids(&item(42)), Some(label));
    assert_eq!(reg.total(), 1);
    assert_eq!(reg.exchangable_id_owner(&item(42)), Some(1));
    assert_eq!(reg.owned_exchangable_ids(1), vec![item(42)]);

    let again = reg.create(2, [0u8; 16], item(42));
    assert_eq!(again, Err(RegistryError::ExchangableIdExists));
    assert_eq!(reg.total(), 1);
}

#[test]
fn transfer_moves_item_between_lists() {
    let mut reg = Module::new();
    reg.create(1, [1u8; 16], item(1)).unwrap();
    reg.create(1, [2u8; 16], item(2)).unwrap();
    reg.create(1, [3u8; 16], item(3)).unwrap();

    assert_eq!(
        reg.transfer(2, 3, item(2)),
        Err(RegistryError::RequireOwner)
    );

    assert!(reg.transfer(1, 2, item(2)).is_ok());
    assert_eq!(reg.owned_exchangable_ids(1), vec![item(1), item(3)]);
    assert_eq!(reg.owned_exchangable_ids(2), vec![item(2)]);
    assert_eq!(reg.exchangable_id_owner(&item(2)), Some(2));
}

#[test]
fn buy_errors_and_success() {
    let mut reg = Module::new();
    reg.create(1, [1u8; 16], item(1)).unwrap();

    assert_eq!(
        reg.buy(2, item(9), 100),
        Err(RegistryError::InvalidExchangableId)
    );
    assert_eq!(reg.buy(2, item(1), 100), Err(RegistryError::NotForSale));

    assert_eq!(
        reg.list_for_sale(2, item(1), Some(50)),
        Err(RegistryError::RequireOwner)
    );
    assert!(reg.list_for_sale(1, item(1), Some(50)).is_ok());
    assert_eq!(reg.exchangable_id_price(&item(1)), Some(50));

    assert_eq!(reg.buy(2, item(1), 49), Err(RegistryError::PriceTooLow));
    assert_eq!(reg.exchangable_id_owner(&item(1)), Some(1));

    let quote = reg.buy_quote(2, item(1), 50).unwrap();
    assert_eq!(quote, Payment { buyer: 2, seller: 1, amount: 50 });
    let paid = reg.buy(2, item(1), 50).unwrap();
    assert_eq!(paid, Payment { buyer: 2, seller: 1, amount: 50 });

    assert_eq!(reg.exchangable_id_price(&item(1)), None);
    assert_eq!(reg.exchangable_id_owner(&item(1)), Some(2));
    assert!(reg.owned_exchangable_ids(1).is_empty());
    assert_eq!(reg.owned_exchangable_ids(2), vec![item(1)]);
}

#[test]
fn delisting_clears_the_price() {
    let mut reg = Module::new();
    reg.create(1, [1u8; 16], item(1)).unwrap();
    assert!(reg.list_for_sale(1, item(1), Some(10)).is_ok());
    assert_eq!(reg.exchangable_id_price(&item(1)), Some(10));
    assert!(reg.list_for_sale(1, item(1), None).is_ok());
    assert_eq!(reg.exchangable_id_price(&item(1)), None);
}

#[test]
fn transfer_keeps_an_existing_listing() {
    let mut reg = Module::new();
    reg.create(1, [1u8; 16], item(1)).unwrap();
    assert!(reg.list_for_sale(1, item(1), Some(10)).is_ok());
    assert!(reg.transfer(1, 2, item(1)).is_ok());
    assert_eq!(reg.exchangable_id_price(&item(1)), Some(10));
}
