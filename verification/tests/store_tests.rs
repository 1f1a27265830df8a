use balance_indexer::store::BalanceDatabase;
use balance_indexer::store::StoreError;

fn fresh(first_block: u64) -> BalanceDatabase {
    let mut db = BalanceDatabase::new(first_block);
    db.init();
    db
}

#[test]
fn mint_and_read_back() {
    let mut db = fresh(1);
    db.update_balance(1, "wA".to_string(), "TKN".to_string(), 100);
    assert_eq!(db.get_balance("wA".to_string(), "TKN".to_string()), Some(100));
    // set_block_hash was never called, so the frontier is untouched
    assert_eq!(db.get_last_block(), 0);
}

#[test]
fn transfer_updates_both_sides() {
    let mut db = fresh(1);
    db.update_balance(1, "wA".to_string(), "TKN".to_string(), 100);
    db.update_balance(2, "wA".to_string(), "TKN".to_string(), 30);
    db.update_balance(2, "wB".to_string(), "TKN".to_string(), 70);
    assert_eq!(db.get_balance("wA".to_string(), "TKN".to_string()), Some(30));
    assert_eq!(db.get_balance("wB".to_string(), "TKN".to_string()), Some(70));
}

#[test]
fn reorg_erases_everything_above_target() {
    let mut db = fresh(1);
    db.update_balance(1, "wA".to_string(), "TKN".to_string(), 100);
    db.update_balance(2, "wA".to_string(), "TKN".to_string(), 30);
    db.update_balance(2, "wB".to_string(), "TKN".to_string(), 70);
    db.set_block_hash(1, "h1".to_string()).unwrap();
    db.set_block_hash(2, "h2".to_string()).unwrap();
    db.reorg(0);
    assert_eq!(db.get_balance("wA".to_string(), "TKN".to_string()), None);
    assert_eq!(db.get_balance("wB".to_string(), "TKN".to_string()), None);
    assert_eq!(db.get_block_hash(1), None);
    assert_eq!(db.get_block_hash(2), None);
}

#[test]
fn reorg_keeps_rows_at_or_below_target() {
    let mut db = fresh(1);
    db.update_balance(1, "wA".to_string(), "TKN".to_string(), 100);
    db.set_block_hash(1, "h1".to_string()).unwrap();
    db.update_balance(2, "wA".to_string(), "TKN".to_string(), 30);
    db.update_balance(2, "wB".to_string(), "TKN".to_string(), 70);
    db.set_block_hash(2, "h2".to_string()).unwrap();
    db.reorg(1);
    assert_eq!(db.get_balance("wA".to_string(), "TKN".to_string()), Some(100));
    assert_eq!(db.get_balance("wB".to_string(), "TKN".to_string()), None);
    assert_eq!(db.get_block_hash(1), Some("h1".to_string()));
    assert_eq!(db.get_block_hash(2), None);
}

#[test]
fn init_twice_is_init_once() {
    let mut db = BalanceDatabase::new(5);
    db.init();
    db.update_balance(6, "w".to_string(), "T".to_string(), 1);
    db.init();
    assert_eq!(db.get_balance("w".to_string(), "T".to_string()), Some(1));
    assert_eq!(db.get_last_block(), 4);
}

#[test]
fn reset_drops_all_data() {
    let mut db = fresh(1);
    db.update_balance(1, "w".to_string(), "T".to_string(), 9);
    db.set_block_hash(1, "h".to_string()).unwrap();
    db.reset();
    assert_eq!(db.get_balance("w".to_string(), "T".to_string()), None);
    assert_eq!(db.get_block_hash(1), None);
    assert_eq!(db.get_last_block(), 0);
}

#[test]
fn clear_residue_is_noop_on_sealed_state() {
    let mut db = fresh(1);
    db.update_balance(1, "w".to_string(), "T".to_string(), 50);
    db.set_block_hash(1, "h1".to_string()).unwrap();
    db.clear_residue();
    assert_eq!(db.get_balance("w".to_string(), "T".to_string()), Some(50));
    assert_eq!(db.get_block_hash(1), Some("h1".to_string()));
    assert_eq!(db.get_last_block(), 1);
}

#[test]
fn clear_residue_drops_unsealed_writes() {
    let mut db = fresh(1);
    db.update_balance(1, "w".to_string(), "T".to_string(), 50);
    db.set_block_hash(1, "h1".to_string()).unwrap();
    // block 2 crashed mid-way: a write exists but no hash seals it
    db.update_balance(2, "w".to_string(), "T".to_string(), 75);
    db.clear_residue();
    assert_eq!(db.get_balance("w".to_string(), "T".to_string()), Some(50));
    assert_eq!(db.get_last_block(), 1);
}

#[test]
fn reorg_restores_from_history() {
    let mut db = fresh(1);
    db.update_balance(1, "w".to_string(), "T".to_string(), 100);
    db.set_block_hash(1, "h1".to_string()).unwrap();
    db.update_balance(2, "w".to_string(), "T".to_string(), 30);
    db.reorg(1);
    assert_eq!(db.get_balance("w".to_string(), "T".to_string()), Some(100));
}

#[test]
fn set_block_hash_rejects_sealed_height() {
    let mut db = fresh(1);
    db.set_block_hash(7, "h7".to_string()).unwrap();
    assert_eq!(
        db.set_block_hash(7, "other".to_string()),
        Err(StoreError::BlockHashExists)
    );
    assert_eq!(db.get_block_hash(7), Some("h7".to_string()));
}

#[test]
fn add_ticker_rejects_collisions() {
    let mut db = fresh(1);
    db.add_ticker("TKN".to_string(), "0xaa".to_string(), "0x01".to_string())
        .unwrap();
    assert_eq!(
        db.add_ticker("OTHER".to_string(), "0xaa".to_string(), "0x02".to_string()),
        Err(StoreError::TickerExists)
    );
    assert_eq!(
        db.add_ticker("OTHER".to_string(), "0xbb".to_string(), "0x01".to_string()),
        Err(StoreError::TickerExists)
    );
    assert_eq!(
        db.get_ticker_by_address("0x01".to_string()),
        Some("TKN".to_string())
    );
    assert_eq!(db.get_ticker_by_address("0x02".to_string()), None);
}

#[test]
fn validate_block_hash_cases() {
    let mut db = fresh(100);
    db.set_block_hash(100, "h100".to_string()).unwrap();
    // pre-genesis heights validate vacuously
    assert!(db.validate_block_hash(99, "anything".to_string()));
    assert!(db.validate_block_hash(100, "h100".to_string()));
    assert!(!db.validate_block_hash(100, "other".to_string()));
    assert!(!db.validate_block_hash(101, "h101".to_string()));
}

#[test]
fn next_block_is_one_past_last() {
    let mut db = fresh(100);
    assert_eq!(db.get_last_block(), 99);
    assert_eq!(db.get_next_block(), 100);
    db.set_block_hash(100, "h100".to_string()).unwrap();
    db.set_block_hash(101, "h101".to_string()).unwrap();
    assert_eq!(db.get_last_block(), 101);
    assert_eq!(db.get_next_block(), 102);
}

#[test]
fn empty_store_at_zero_first_block_wraps_frontier() {
    let db = fresh(0);
    assert_eq!(db.get_last_block(), u64::MAX);
    assert_eq!(db.get_next_block(), 0);
}

#[test]
fn random_pairs_bounds() {
    let mut db = fresh(1);
    db.update_balance(1, "w1".to_string(), "T".to_string(), 1);
    db.update_balance(1, "w2".to_string(), "T".to_string(), 2);
    db.update_balance(1, "w3".to_string(), "T".to_string(), 3);
    assert_eq!(db.random_wallet_ticker_pairs(2, &vec![2, 0]).len(), 2);
    assert_eq!(db.random_wallet_ticker_pairs(10, &vec![1, 0, 2]).len(), 3);
    assert_eq!(db.random_wallet_ticker_pairs(0, &vec![]).len(), 0);
    assert_eq!(db.random_wallet_ticker_pairs(-3, &vec![]).len(), 0);
    let all = db.random_wallet_ticker_pairs(1000, &vec![0, 1, 2]);
    assert!(all.contains(&("w2".to_string(), "T".to_string(), 2u128)));
}

#[test]
fn random_pairs_returns_the_drawn_rows() {
    let mut db = fresh(1);
    db.update_balance(1, "w1".to_string(), "T".to_string(), 1);
    db.update_balance(1, "w2".to_string(), "T".to_string(), 2);
    db.update_balance(1, "w3".to_string(), "T".to_string(), 3);
    let sample = db.random_wallet_ticker_pairs(2, &vec![2, 0]);
    assert_eq!(
        sample,
        vec![
            ("w3".to_string(), "T".to_string(), 3u128),
            ("w1".to_string(), "T".to_string(), 1u128),
        ]
    );
}
