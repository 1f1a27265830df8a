use balance_indexer::events::Log;
use balance_indexer::first_block_for_network;
use balance_indexer::store::BalanceDatabase;
use balance_indexer::tracker::{
    audit_pairs, audit_status, BalanceTracker, LogOutcome, TestStatus, TrackerError,
};

fn transfer_topic() -> Vec<u8> {
    alloy_primitives::keccak256(b"Transfer(address,address,uint256)").0.to_vec()
}

fn created_topic() -> Vec<u8> {
    alloy_primitives::keccak256(b"BRC20Created(bytes,address)").0.to_vec()
}

fn controller() -> Vec<u8> {
    hex::decode("c54dd4581af2dbf18e4d90840226756e9d2b3cdb").unwrap()
}

fn addr_topic(byte: u8) -> Vec<u8> {
    let mut v = vec![0u8; 12];
    v.extend(vec![byte; 20]);
    v
}

fn addr_str(byte: u8) -> String {
    format!("0x{}", hex::encode(vec![byte; 20]))
}

fn amount_data(a: u128) -> Vec<u8> {
    let mut v = vec![0u8; 16];
    v.extend_from_slice(&a.to_be_bytes());
    v
}

fn transfer_log(contract: u8, from_topic: Vec<u8>, to_topic: Vec<u8>, amount: u128) -> Log {
    Log {
        address: vec![contract; 20],
        topics: vec![transfer_topic(), from_topic, to_topic],
        data: amount_data(amount),
        transaction_index: 0,
        log_index: 0,
    }
}

fn tracker_with_ticker(contract: u8) -> BalanceTracker {
    let mut db = BalanceDatabase::new(1);
    db.init();
    let mut tracker = BalanceTracker::new(db);
    tracker
        .register_ticker("TKN".to_string(), "0xaa".to_string(), addr_str(contract))
        .unwrap();
    tracker
}

#[test]
fn mint_burn_and_move() {
    let mut t = tracker_with_ticker(0xab);
    let zero = vec![0u8; 32];
    // mint 100 to wallet 0x22
    let r = t.process_log(5, &transfer_log(0xab, zero.clone(), addr_topic(0x22), 100));
    assert!(matches!(r, Ok(LogOutcome::Applied)));
    assert_eq!(
        t.database.get_balance(addr_str(0x22), "TKN".to_string()),
        Some(100)
    );
    // burn 40 from wallet 0x22
    let r = t.process_log(6, &transfer_log(0xab, addr_topic(0x22), zero.clone(), 40));
    assert!(matches!(r, Ok(LogOutcome::Applied)));
    assert_eq!(
        t.database.get_balance(addr_str(0x22), "TKN".to_string()),
        Some(60)
    );
    // move 10 from 0x22 to 0x33
    let r = t.process_log(7, &transfer_log(0xab, addr_topic(0x22), addr_topic(0x33), 10));
    assert!(matches!(r, Ok(LogOutcome::Applied)));
    assert_eq!(
        t.database.get_balance(addr_str(0x22), "TKN".to_string()),
        Some(50)
    );
    assert_eq!(
        t.database.get_balance(addr_str(0x33), "TKN".to_string()),
        Some(10)
    );
}

#[test]
fn underflow_is_fatal_and_mutates_nothing() {
    let mut t = tracker_with_ticker(0xab);
    let zero = vec![0u8; 32];
    t.process_log(5, &transfer_log(0xab, zero.clone(), addr_topic(0x22), 100))
        .unwrap();
    let r = t.process_log(6, &transfer_log(0xab, addr_topic(0x22), zero.clone(), 101));
    assert_eq!(r, Err(TrackerError::InsufficientBalance));
    let r2 = t.process_log(6, &transfer_log(0xab, addr_topic(0x22), addr_topic(0x33), 101));
    assert_eq!(r2, Err(TrackerError::InsufficientBalance));
    assert_eq!(
        t.database.get_balance(addr_str(0x22), "TKN".to_string()),
        Some(100)
    );
    assert_eq!(t.database.get_balance(addr_str(0x33), "TKN".to_string()), None);
}

#[test]
fn overflow_is_fatal_and_mutates_nothing() {
    let mut t = tracker_with_ticker(0xab);
    let zero = vec![0u8; 32];
    t.process_log(5, &transfer_log(0xab, zero.clone(), addr_topic(0x22), u128::MAX))
        .unwrap();
    let r = t.process_log(6, &transfer_log(0xab, zero.clone(), addr_topic(0x22), 1));
    assert_eq!(r, Err(TrackerError::Overflow));
    assert_eq!(
        t.database.get_balance(addr_str(0x22), "TKN".to_string()),
        Some(u128::MAX)
    );
}

#[test]
fn self_transfer_changes_nothing() {
    let mut t = tracker_with_ticker(0xab);
    let zero = vec![0u8; 32];
    t.process_log(5, &transfer_log(0xab, zero, addr_topic(0x22), 100))
        .unwrap();
    let r = t.process_log(6, &transfer_log(0xab, addr_topic(0x22), addr_topic(0x22), 30));
    assert!(matches!(r, Ok(LogOutcome::Applied)));
    assert_eq!(
        t.database.get_balance(addr_str(0x22), "TKN".to_string()),
        Some(100)
    );
}

#[test]
fn unknown_ticker_and_zero_amount_are_ignored() {
    let mut t = tracker_with_ticker(0xab);
    let zero = vec![0u8; 32];
    // contract 0xcd has no registered ticker
    let r = t.process_log(5, &transfer_log(0xcd, zero.clone(), addr_topic(0x22), 100));
    assert!(matches!(r, Ok(LogOutcome::Ignored)));
    // zero value transfers are no-ops
    let r2 = t.process_log(5, &transfer_log(0xab, zero, addr_topic(0x22), 0));
    assert!(matches!(r2, Ok(LogOutcome::Ignored)));
    assert_eq!(t.database.get_balance(addr_str(0x22), "TKN".to_string()), None);
}

#[test]
fn creation_log_asks_for_name_then_registers() {
    let mut t = tracker_with_ticker(0xab);
    let ticker_hash: Vec<u8> = (0u8..32).collect();
    let log = Log {
        address: controller(),
        topics: vec![created_topic(), ticker_hash.clone(), addr_topic(0x44)],
        data: vec![],
        transaction_index: 0,
        log_index: 0,
    };
    match t.process_log(5, &log) {
        Ok(LogOutcome::NeedTickerName { ticker_hash: th, contract_address }) => {
            assert_eq!(th, format!("0x{}", hex::encode(&ticker_hash)));
            assert_eq!(contract_address, addr_str(0x44));
            t.register_ticker("NEW".to_string(), th, contract_address).unwrap();
        }
        _ => panic!("expected a name request"),
    }
    assert_eq!(
        t.database.get_ticker_by_address(addr_str(0x44)),
        Some("NEW".to_string())
    );
    // a duplicate creation announcement is an error
    let dup = t.register_ticker("NEW2".to_string(), format!("0x{}", hex::encode(&ticker_hash)), addr_str(0x45));
    assert_eq!(dup, Err(TrackerError::TickerExists));
}

fn seeded_tracker() -> BalanceTracker {
    let mut db = BalanceDatabase::new(100);
    db.init();
    for h in 100u64..=110 {
        db.set_block_hash(h, format!("H{}", h)).unwrap();
    }
    BalanceTracker::new(db)
}

#[test]
fn reorg_detection_depth() {
    let mut t = seeded_tracker();
    // upstream replaced blocks 108..110; 107 still matches
    let mut observed: Vec<String> = Vec::new();
    for i in 0u64..10 {
        let h = 110 - i;
        if h >= 108 {
            observed.push(format!("X{}", h));
        } else {
            observed.push(format!("H{}", h));
        }
    }
    assert!(t.check_reorg(&observed).is_ok());
    assert_eq!(t.database.get_last_block(), 107);
    assert_eq!(t.database.get_block_hash(107), Some("H107".to_string()));
    assert_eq!(t.database.get_block_hash(108), None);
    assert_eq!(t.database.get_block_hash(110), None);
}

#[test]
fn reorg_detection_no_reorg() {
    let mut t = seeded_tracker();
    let observed: Vec<String> = (0u64..10).map(|i| format!("H{}", 110 - i)).collect();
    assert!(t.check_reorg(&observed).is_ok());
    assert_eq!(t.database.get_last_block(), 110);
    assert_eq!(t.database.get_block_hash(110), Some("H110".to_string()));
}

#[test]
fn reorg_detection_too_deep() {
    let mut t = seeded_tracker();
    let observed: Vec<String> = (0u64..10).map(|i| format!("X{}", 110 - i)).collect();
    assert_eq!(t.check_reorg(&observed), Err(TrackerError::ReorgTooDeep));
    assert_eq!(t.database.get_last_block(), 110);
}

#[test]
fn audit_detects_first_mismatch() {
    let pairs = vec![
        ("w1".to_string(), "T".to_string(), 100u128),
        ("w2".to_string(), "T".to_string(), 7u128),
    ];
    let onchain_good = vec![
        hex::encode(amount_data(100)),
        hex::encode(amount_data(7)),
    ];
    assert_eq!(audit_pairs(&pairs, &onchain_good), None);
    let onchain_bad = vec![
        hex::encode(amount_data(100)),
        hex::encode(amount_data(8)),
    ];
    assert_eq!(audit_pairs(&pairs, &onchain_bad), Some(1));
}

#[test]
fn audit_status_decides() {
    assert_eq!(audit_status(false, false), Ok(TestStatus::Passed));
    assert_eq!(audit_status(false, true), Ok(TestStatus::Passed));
    assert_eq!(audit_status(true, false), Err(TrackerError::AuditMismatch));
    assert_eq!(audit_status(true, true), Ok(TestStatus::NeedsRetry));
}

#[test]
fn first_block_per_network() {
    assert_eq!(first_block_for_network(&"mainnet".to_string()), 912690);
    assert_eq!(first_block_for_network(&"signet".to_string()), 230000);
    assert_eq!(first_block_for_network(&"regtest".to_string()), 0);
}

#[test]
fn balances_equal_sum_of_deltas() {
    // one wallet over a run of mints, burns and moves
    let mut t = tracker_with_ticker(0xab);
    let zero = vec![0u8; 32];
    t.process_log(5, &transfer_log(0xab, zero.clone(), addr_topic(0x22), 1000)).unwrap();
    t.process_log(5, &transfer_log(0xab, addr_topic(0x22), addr_topic(0x33), 300)).unwrap();
    t.process_log(6, &transfer_log(0xab, addr_topic(0x22), zero.clone(), 50)).unwrap();
    t.process_log(6, &transfer_log(0xab, addr_topic(0x33), addr_topic(0x22), 100)).unwrap();
    // +1000 - 300 - 50 + 100
    assert_eq!(
        t.database.get_balance(addr_str(0x22), "TKN".to_string()),
        Some(750)
    );
    // +300 - 100
    assert_eq!(
        t.database.get_balance(addr_str(0x33), "TKN".to_string()),
        Some(200)
    );
}

#[test]
fn batch_test_verdicts() {
    let t = tracker_with_ticker(0xab);
    let pairs = vec![("w1".to_string(), "T".to_string(), 100u128)];
    let good = vec![hex::encode(amount_data(100))];
    let bad = vec![hex::encode(amount_data(9))];
    assert_eq!(t.test(&pairs, &good, false), Ok(TestStatus::Passed));
    assert_eq!(t.test(&pairs, &bad, true), Ok(TestStatus::NeedsRetry));
    assert_eq!(t.test(&pairs, &bad, false), Err(TrackerError::AuditMismatch));
}
