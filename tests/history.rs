use akula::history::{
    find_data_by_history, find_storage_by_history, get_account_data_as_of, get_storage_as_of,
    Account, Address, StateDb, StorageKey, EMPTY_HASH_HI, EMPTY_HASH_LO,
};
use akula::{Word, H256};

fn account(balance: u128) -> Account {
    Account { nonce: 0, balance: Word::from_u128(balance), incarnation: 0, code_hash: H256 { hi: 0, lo: 0 } }
}

#[test]
fn account_as_of_blocks() {
    let a = Address { hi: 1, lo: 2 };
    let mut db = StateDb::new();
    db.put_account(a, Some(account(100)));
    db.write_account(2, a, Some(account(200)));
    assert_eq!(get_account_data_as_of(&db, a, 1), Some(account(100)));
    assert_eq!(get_account_data_as_of(&db, a, 2), Some(account(100)));
    assert_eq!(get_account_data_as_of(&db, a, 3), Some(account(200)));
    assert_eq!(find_data_by_history(&db, a, 3), None);
}

#[test]
fn account_history_over_several_blocks() {
    let a = Address { hi: 0, lo: 10 };
    let b = Address { hi: 0, lo: 11 };
    let mut db = StateDb::new();
    db.write_account(1, a, Some(account(1)));
    db.write_account(5, b, Some(account(50)));
    db.write_account(5, a, Some(account(5)));
    db.write_account(9, a, Some(account(9)));
    db.write_account(9, a, Some(account(10)));
    assert_eq!(get_account_data_as_of(&db, a, 0), None);
    assert_eq!(get_account_data_as_of(&db, a, 1), None);
    assert_eq!(get_account_data_as_of(&db, a, 2), Some(account(1)));
    assert_eq!(get_account_data_as_of(&db, a, 5), Some(account(1)));
    assert_eq!(get_account_data_as_of(&db, a, 6), Some(account(5)));
    assert_eq!(get_account_data_as_of(&db, a, 9), Some(account(5)));
    assert_eq!(get_account_data_as_of(&db, a, 10), Some(account(10)));
    assert_eq!(get_account_data_as_of(&db, b, 3), None);
    assert_eq!(get_account_data_as_of(&db, b, 6), Some(account(50)));
    let never = Address { hi: 7, lo: 7 };
    assert_eq!(get_account_data_as_of(&db, never, 1), None);
}

#[test]
fn code_hash_is_restored() {
    let a = Address { hi: 3, lo: 3 };
    let code = H256 { hi: 0x1234, lo: 0x5678 };
    let empty = H256 { hi: EMPTY_HASH_HI, lo: EMPTY_HASH_LO };
    let mut db = StateDb::new();
    let contract = Account { nonce: 1, balance: Word::zero(), incarnation: 1, code_hash: empty };
    db.put_account(a, Some(contract));
    db.put_code_hash(a, 1, code);
    db.write_account(4, a, None);
    let restored = Account { code_hash: code, ..contract };
    assert_eq!(get_account_data_as_of(&db, a, 3), Some(restored));
    assert_eq!(find_data_by_history(&db, a, 4), Some(Some(restored)));
    assert_eq!(get_account_data_as_of(&db, a, 5), None);
}

#[test]
fn storage_as_of_blocks() {
    let a = Address { hi: 0, lo: 1 };
    let slot = H256 { hi: 0, lo: 42 };
    let k = StorageKey { address: a, incarnation: 1, slot };
    let mut db = StateDb::new();
    db.put_storage(k, Some(Word::from_u128(100)));
    db.write_storage(2, k, Some(Word::from_u128(200)));
    db.write_storage(7, k, None);
    assert_eq!(get_storage_as_of(&db, a, 1, slot, 1), Some(Word::from_u128(100)));
    assert_eq!(get_storage_as_of(&db, a, 1, slot, 2), Some(Word::from_u128(100)));
    assert_eq!(get_storage_as_of(&db, a, 1, slot, 3), Some(Word::from_u128(200)));
    assert_eq!(get_storage_as_of(&db, a, 1, slot, 7), Some(Word::from_u128(200)));
    assert_eq!(get_storage_as_of(&db, a, 1, slot, 8), None);
    assert_eq!(find_storage_by_history(&db, k, 8), None);
    let other = H256 { hi: 0, lo: 43 };
    assert_eq!(get_storage_as_of(&db, a, 1, other, 1), None);
}

#[test]
fn out_of_order_writes_share_a_chunk() {
    let a = Address { hi: 4, lo: 4 };
    let mut db = StateDb::new();
    db.put_account(a, Some(account(100)));
    db.write_account(9, a, Some(account(900)));
    db.write_account(5, a, Some(account(500)));
    assert_eq!(get_account_data_as_of(&db, a, 3), Some(account(900)));
    assert_eq!(get_account_data_as_of(&db, a, 5), Some(account(900)));
    assert_eq!(get_account_data_as_of(&db, a, 6), Some(account(100)));
    assert_eq!(get_account_data_as_of(&db, a, 10), Some(account(500)));

    let k = StorageKey { address: a, incarnation: 2, slot: H256 { hi: 0, lo: 9 } };
    db.write_storage(8, k, Some(Word::from_u128(8)));
    db.write_storage(4, k, Some(Word::from_u128(4)));
    assert_eq!(get_storage_as_of(&db, a, 2, k.slot, 1), Some(Word::from_u128(8)));
    assert_eq!(get_storage_as_of(&db, a, 2, k.slot, 6), None);
    assert_eq!(get_storage_as_of(&db, a, 2, k.slot, 9), Some(Word::from_u128(4)));
}
