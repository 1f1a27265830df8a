use balance_indexer::events::{amount_from_data, classify_log, sort_logs, Log, LogEvent};

fn controller() -> Vec<u8> {
    hex::decode("c54dd4581af2dbf18e4d90840226756e9d2b3cdb").unwrap()
}

fn created_topic() -> Vec<u8> {
    alloy_primitives::keccak256(b"BRC20Created(bytes,address)").0.to_vec()
}

fn transfer_topic() -> Vec<u8> {
    alloy_primitives::keccak256(b"Transfer(address,address,uint256)").0.to_vec()
}

fn addr_topic(byte: u8) -> Vec<u8> {
    let mut v = vec![0u8; 12];
    v.extend(vec![byte; 20]);
    v
}

fn amount_data(a: u128) -> Vec<u8> {
    let mut v = vec![0u8; 16];
    v.extend_from_slice(&a.to_be_bytes());
    v
}

fn mklog(address: Vec<u8>, topics: Vec<Vec<u8>>, data: Vec<u8>, ti: u64, li: u64) -> Log {
    Log { address, topics, data, transaction_index: ti, log_index: li }
}

#[test]
fn amount_decoding_low_word() {
    // 16 zero bytes, then 0x64 in the last byte: one hundred
    let data = amount_data(100);
    assert_eq!(data.len(), 32);
    assert_eq!(amount_from_data(&data), 100);
}

#[test]
fn amount_decoding_ignores_high_word() {
    let mut data = vec![0xffu8; 16];
    data.extend_from_slice(&7u128.to_be_bytes());
    assert_eq!(amount_from_data(&data), 7);
}

#[test]
fn amount_decoding_max() {
    let data = amount_data(u128::MAX);
    assert_eq!(amount_from_data(&data), u128::MAX);
}

#[test]
fn classify_creation_log() {
    let ticker_hash: Vec<u8> = (0u8..32).collect();
    let log = mklog(
        controller(),
        vec![created_topic(), ticker_hash.clone(), addr_topic(0x11)],
        vec![],
        0,
        0,
    );
    match classify_log(&log) {
        LogEvent::TickerCreated { ticker_hash: th, contract_address } => {
            assert_eq!(th, format!("0x{}", hex::encode(&ticker_hash)));
            assert_eq!(contract_address, format!("0x{}", "11".repeat(20)));
        }
        _ => panic!("expected a creation event"),
    }
}

#[test]
fn classify_transfer_log() {
    let log = mklog(
        vec![0xabu8; 20],
        vec![transfer_topic(), addr_topic(0x22), addr_topic(0x33)],
        amount_data(100),
        0,
        0,
    );
    match classify_log(&log) {
        LogEvent::TokenTransfer { contract_address, from, to, amount } => {
            assert_eq!(contract_address, format!("0x{}", "ab".repeat(20)));
            assert_eq!(from, format!("0x{}", "22".repeat(20)));
            assert_eq!(to, format!("0x{}", "33".repeat(20)));
            assert_eq!(amount, 100);
        }
        _ => panic!("expected a transfer event"),
    }
}

#[test]
fn classify_ignores_unknown_topics() {
    // transfer topic from the controller is not a transfer
    let log = mklog(
        controller(),
        vec![transfer_topic(), addr_topic(0x22), addr_topic(0x33)],
        amount_data(1),
        0,
        0,
    );
    assert!(matches!(classify_log(&log), LogEvent::Ignored));
    // creation topic from a non-controller address is not a creation
    let log2 = mklog(
        vec![0x01u8; 20],
        vec![created_topic(), addr_topic(0x22), addr_topic(0x33)],
        vec![],
        0,
        0,
    );
    assert!(matches!(classify_log(&log2), LogEvent::Ignored));
    // too few topics
    let log3 = mklog(vec![0x01u8; 20], vec![transfer_topic()], amount_data(1), 0, 0);
    assert!(matches!(classify_log(&log3), LogEvent::Ignored));
}

#[test]
fn sort_keeps_input_order_of_equal_keys() {
    let mk = |ti: u64, li: u64, b: u8| mklog(vec![b; 20], vec![], vec![], ti, li);
    let logs = vec![mk(1, 1, 0x01), mk(0, 0, 0x02), mk(1, 1, 0x03), mk(1, 1, 0x04)];
    let sorted = sort_logs(logs);
    assert_eq!(sorted[0].address, vec![0x02u8; 20]);
    assert_eq!(sorted[1].address, vec![0x01u8; 20]);
    assert_eq!(sorted[2].address, vec![0x03u8; 20]);
    assert_eq!(sorted[3].address, vec![0x04u8; 20]);
}

#[test]
fn sort_orders_by_transaction_then_log_index() {
    let mk = |ti: u64, li: u64| mklog(vec![0u8; 20], vec![], vec![], ti, li);
    let logs = vec![mk(2, 0), mk(0, 5), mk(1, 7), mk(1, 2), mk(0, 1)];
    let sorted = sort_logs(logs);
    let keys: Vec<(u64, u64)> = sorted
        .iter()
        .map(|l| (l.transaction_index, l.log_index))
        .collect();
    assert_eq!(keys, vec![(0, 1), (0, 5), (1, 2), (1, 7), (2, 0)]);
}
