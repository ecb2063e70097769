use akula::accessors::{
    canonical_hash, header, header_number, storage_body, td, tl, tx, tx_sender, BodyForStorage,
    ChainDb, Transaction,
};
use akula::headers::BlockHeader;
use akula::history::Address;
use akula::kv::HeaderKey;
use akula::{Word, H256};

fn repeat_byte(b: u8) -> H256 {
    let half = u128::from_be_bytes([b; 16]);
    H256 { hi: half, lo: half }
}

#[test]
fn accessors() {
    let tx1 = Transaction {
        nonce: 1,
        gas_price: Word::from_u128(20_000),
        gas_limit: 3_000_000,
        to: None,
        value: Word::zero(),
        odd_y_parity: false,
        r: repeat_byte(2),
        s: repeat_byte(3),
    };
    let tx2 = Transaction {
        nonce: 2,
        gas_price: Word::from_u128(30_000),
        gas_limit: 1_000_000,
        to: None,
        value: Word::from_u128(10),
        odd_y_parity: true,
        r: repeat_byte(6),
        s: repeat_byte(9),
    };
    let txs = [tx1, tx2];

    let sender1 = Address { hi: 0x1111, lo: 0x2222 };
    let sender2 = Address { hi: 0x3333, lo: 0x4444 };
    let senders = [sender1, sender2];

    let block1_hash = H256 { hi: 0x5555, lo: 0x6666 };
    let body = BodyForStorage { base_tx_id: 1, tx_amount: 2, uncles: vec![] };

    let mut db = ChainDb::new();

    storage_body::write(&mut db, block1_hash, 1, &body);
    canonical_hash::write(&mut db, 1, block1_hash);
    tx::write(&mut db, 1, &txs);
    tx_sender::write(&mut db, 1, &senders);

    let recovered_body =
        storage_body::read(&db, block1_hash, 1).expect("Could not recover storage body.");
    let recovered_hash = canonical_hash::read(&db, 1).expect("Could not recover block hash");
    let recovered_txs = tx::read(&db, 1, 2);
    let recovered_senders = tx_sender::read(&db, 1, 2);

    assert_eq!(body.base_tx_id, recovered_body.base_tx_id);
    assert_eq!(body.tx_amount, recovered_body.tx_amount);
    assert_eq!(body.uncles, recovered_body.uncles);
    assert_eq!(block1_hash, recovered_hash);
    assert_eq!(txs.to_vec(), recovered_txs);
    assert_eq!(senders.to_vec(), recovered_senders);
}

#[test]
fn body_with_uncles_and_has() {
    let hash = H256 { hi: 1, lo: 2 };
    let uncle = BlockHeader {
        hash: H256 { hi: 3, lo: 4 },
        parent_hash: H256 { hi: 5, lo: 6 },
        number: 7,
        difficulty: Word::from_u128(8),
    };
    let body = BodyForStorage { base_tx_id: 10, tx_amount: 0, uncles: vec![uncle] };
    let mut db = ChainDb::new();
    assert!(!storage_body::has(&db, hash, 8));
    storage_body::write(&mut db, hash, 8, &body);
    assert!(storage_body::has(&db, hash, 8));
    assert!(!storage_body::has(&db, hash, 9));
    let back = storage_body::read(&db, hash, 8).unwrap();
    assert_eq!(back.uncles, vec![uncle]);
    assert_eq!(back.base_tx_id, 10);
}

#[test]
fn tx_read_stops_at_the_table_end() {
    let t = |n: u64| Transaction {
        nonce: n,
        gas_price: Word::zero(),
        gas_limit: 21_000,
        to: Some(Address { hi: 0, lo: n as u128 }),
        value: Word::zero(),
        odd_y_parity: false,
        r: H256 { hi: 0, lo: 0 },
        s: H256 { hi: 0, lo: 0 },
    };
    let mut db = ChainDb::new();
    tx::write(&mut db, 5, &[t(5), t(6), t(7)]);
    assert_eq!(tx::read(&db, 5, 3), vec![t(5), t(6), t(7)]);
    assert_eq!(tx::read(&db, 6, 5), vec![t(6), t(7)]);
    assert_eq!(tx::read(&db, 8, 2), vec![]);
    assert_eq!(tx::read(&db, 5, 0), vec![]);
    // A missing index ends the read.
    tx::write(&mut db, 1, &[t(1)]);
    tx::write(&mut db, 3, &[t(3)]);
    assert_eq!(tx::read(&db, 1, 2), vec![t(1)]);
    assert_eq!(tx::read(&db, 0, 2), vec![]);
    assert_eq!(tx::read(&db, 3, 4), vec![t(3)]);
    assert_eq!(tx_sender::read(&db, 0, 2), vec![]);
    let a = Address { hi: 0, lo: 1 };
    let b = Address { hi: 0, lo: 2 };
    tx_sender::write(&mut db, 10, &[a]);
    tx_sender::write(&mut db, 12, &[b]);
    assert_eq!(tx_sender::read(&db, 10, 3), vec![a]);
}

#[test]
fn header_tables() {
    let mut db = ChainDb::new();
    let h = BlockHeader {
        hash: H256 { hi: 9, lo: 9 },
        parent_hash: H256 { hi: 8, lo: 8 },
        number: 3,
        difficulty: Word::from_u128(2),
    };
    let key = HeaderKey { number: 3, hash: h.hash };
    db.put_header(key, h);
    db.put_td(key, Word::from_u128(17));
    db.put_header_number(h.hash, 3);
    db.put_tx_lookup(H256 { hi: 0, lo: 77 }, 3);
    assert_eq!(header::read(&db, h.hash, 3), Some(h));
    assert_eq!(header::read(&db, h.hash, 4), None);
    assert_eq!(td::read(&db, h.hash, 3), Some(Word::from_u128(17)));
    assert_eq!(header_number::read(&db, h.hash), Some(3));
    assert_eq!(header_number::read(&db, H256 { hi: 0, lo: 1 }), None);
    assert_eq!(tl::read(&db, H256 { hi: 0, lo: 77 }), Some(3));
    canonical_hash::write(&mut db, 3, h.hash);
    canonical_hash::write(&mut db, 3, H256 { hi: 1, lo: 1 });
    assert_eq!(canonical_hash::read(&db, 3), Some(H256 { hi: 1, lo: 1 }));
    assert_eq!(canonical_hash::read(&db, 2), None);
}
