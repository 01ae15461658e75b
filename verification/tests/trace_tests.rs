use dashmap::DashMap;
use rustbitrage::address::{Address, B256};
use rustbitrage::call_frame::{copy_log, extract_logs, get_pool_interactions, CallFrame, CallLog};
use rustbitrage::constants::{swap_topic, sync_topic};
use rustbitrage::swap::{extract_swaps, process_log, PoolKind, SwapDecodeError, SwapInfo};
use rustbitrage::transaction::{chain_ready, screen_pending_transaction, screen_transaction, Screening, TxSummary};
use rustbitrage::uint::U256;

fn addr(n: u128) -> Address {
    Address { hi: 0, lo: n }
}

fn word(x: u128) -> Vec<u8> {
    let mut v = vec![0u8; 16];
    v.extend_from_slice(&x.to_be_bytes());
    v
}

fn swap_data(a0_in: u128, a1_in: u128, a0_out: u128, a1_out: u128) -> Vec<u8> {
    let mut v = word(a0_in);
    v.extend(word(a1_in));
    v.extend(word(a0_out));
    v.extend(word(a1_out));
    v
}

const POOL: u128 = 0x77;
const OTHER_POOL: u128 = 0x78;
const TA: u128 = 0xA;
const TB: u128 = 0xB;

fn pools() -> DashMap<Address, PoolKind> {
    let m = DashMap::new();
    m.insert(addr(POOL), PoolKind::UniswapV2Pool { token_a: addr(TA), token_b: addr(TB) });
    m.insert(addr(OTHER_POOL), PoolKind::Other);
    m
}

fn swap_log(pool: u128, data: Vec<u8>) -> CallLog {
    CallLog { address: Some(addr(pool)), topics: Some(vec![swap_topic(), B256 { hi: 0, lo: 0x5e }]), data: Some(data) }
}

fn log_with(n: u8) -> CallLog {
    CallLog { address: Some(addr(n as u128)), topics: Some(vec![sync_topic()]), data: Some(vec![n]) }
}

#[test]
fn swap_of_token_a() {
    let r = process_log(swap_log(POOL, swap_data(500, 0, 0, 900)), &pools()).unwrap();
    assert_eq!(r, Some(SwapInfo { from_token: addr(TA), to_token: addr(TB), pool_address: addr(POOL), version: 2, amount_in: U256::from_u64(500) }));
}

#[test]
fn swap_of_token_b() {
    let big = (3u128 << 64) | 1;
    let r = process_log(swap_log(POOL, swap_data(0, big, 700, 0)), &pools()).unwrap();
    assert_eq!(r, Some(SwapInfo { from_token: addr(TB), to_token: addr(TA), pool_address: addr(POOL), version: 2, amount_in: U256::from_u128(big) }));
}

#[test]
fn swaps_that_are_not_reported() {
    let p = pools();
    assert_eq!(process_log(swap_log(POOL, swap_data(0, 0, 1, 1)), &p), Ok(None));
    assert_eq!(process_log(swap_log(OTHER_POOL, swap_data(5, 0, 0, 5)), &p), Ok(None));
    assert_eq!(process_log(swap_log(0x99, swap_data(5, 0, 0, 5)), &p), Ok(None));
    let one_topic = CallLog { address: Some(addr(POOL)), topics: Some(vec![swap_topic()]), data: Some(swap_data(5, 0, 0, 5)) };
    assert_eq!(process_log(one_topic, &p), Ok(None));
    let wrong_topic = CallLog { address: Some(addr(POOL)), topics: Some(vec![sync_topic(), swap_topic()]), data: Some(swap_data(5, 0, 0, 5)) };
    assert_eq!(process_log(wrong_topic, &p), Ok(None));
    let no_data = CallLog { address: Some(addr(POOL)), topics: Some(vec![swap_topic(), swap_topic()]), data: None };
    assert_eq!(process_log(no_data, &p), Ok(None));
}

#[test]
fn malformed_swap_data_is_an_error() {
    let mut short = swap_data(5, 0, 0, 5);
    short.truncate(96);
    assert_eq!(process_log(swap_log(POOL, short), &pools()), Err(SwapDecodeError::InvalidEventData));
    let mut long = swap_data(5, 0, 0, 5);
    long.push(0);
    assert_eq!(process_log(swap_log(POOL, long), &pools()), Err(SwapDecodeError::InvalidEventData));
    // a pool of another kind is not decoded at all
    assert_eq!(process_log(swap_log(OTHER_POOL, vec![1, 2, 3]), &pools()), Ok(None));
}

#[test]
fn swaps_of_a_frame_in_order() {
    let frame = CallFrame {
        to: Some(addr(POOL)),
        logs: vec![
            swap_log(POOL, swap_data(5, 0, 0, 9)),
            log_with(3),
            swap_log(POOL, swap_data(0, 8, 4, 0)),
        ],
        calls: vec![CallFrame { to: None, logs: vec![swap_log(POOL, swap_data(1, 0, 0, 1))], calls: vec![] }],
    };
    let swaps = extract_swaps(&frame, &pools()).unwrap();
    assert_eq!(swaps.len(), 2);
    assert_eq!((swaps[0].from_token, swaps[0].amount_in), (addr(TA), U256::from_u64(5)));
    assert_eq!((swaps[1].from_token, swaps[1].amount_in), (addr(TB), U256::from_u64(8)));
    let bad = CallFrame { to: None, logs: vec![swap_log(POOL, swap_data(5, 0, 0, 9)), swap_log(POOL, vec![0; 10])], calls: vec![] };
    assert_eq!(extract_swaps(&bad, &pools()).unwrap_err(), SwapDecodeError::InvalidEventData);
}

fn tree() -> CallFrame {
    CallFrame {
        to: Some(addr(POOL)),
        logs: vec![log_with(1)],
        calls: vec![
            CallFrame {
                to: Some(addr(0x55)),
                logs: vec![log_with(2)],
                calls: vec![CallFrame { to: Some(addr(OTHER_POOL)), logs: vec![log_with(3), log_with(4)], calls: vec![] }],
            },
            CallFrame { to: Some(addr(POOL)), logs: vec![], calls: vec![] },
            CallFrame { to: None, logs: vec![log_with(5)], calls: vec![] },
        ],
    }
}

#[test]
fn logs_are_collected_depth_first() {
    let mut logs = vec![log_with(0)];
    extract_logs(&tree(), &mut logs);
    let order: Vec<u8> = logs.iter().map(|l| l.data.as_ref().unwrap()[0]).collect();
    assert_eq!(order, vec![0, 1, 2, 3, 4, 5]);
    let c = copy_log(&logs[3]);
    assert_eq!(c.address, Some(addr(3)));
    assert_eq!(c.topics, Some(vec![sync_topic()]));
    assert_eq!(c.data, Some(vec![3u8]));
}

#[test]
fn pool_interactions_depth_first() {
    let v2 = PoolKind::UniswapV2Pool { token_a: addr(TA), token_b: addr(TB) };
    let mut found = vec![PoolKind::Other];
    get_pool_interactions(&tree(), &pools(), &mut found);
    assert_eq!(found, vec![PoolKind::Other, v2, PoolKind::Other, v2]);
}

#[test]
fn screening_of_transactions() {
    assert!(!chain_ready(0, 5));
    assert!(!chain_ready(5, 0));
    assert!(chain_ready(5, 5));
    let pending = TxSummary { block_number: None, max_fee_per_gas: Some(100) };
    let mined = TxSummary { block_number: Some(10), max_fee_per_gas: Some(100) };
    let no_cap = TxSummary { block_number: None, max_fee_per_gas: None };
    assert_eq!(screen_transaction(&pending, 100), Screening::Admit);
    assert_eq!(screen_transaction(&pending, 101), Screening::Underpriced);
    assert_eq!(screen_transaction(&mined, 1), Screening::Mined);
    assert_eq!(screen_transaction(&no_cap, 1), Screening::Underpriced);
    assert_eq!(screen_transaction(&no_cap, 0), Screening::Admit);
}

#[test]
fn screening_of_pending_transactions() {
    let pending = TxSummary { block_number: None, max_fee_per_gas: Some(100) };
    let recent = TxSummary { block_number: Some(15), max_fee_per_gas: Some(100) };
    assert_eq!(screen_pending_transaction(&pending, 0, 100), Screening::NotReady);
    assert_eq!(screen_pending_transaction(&pending, 20, 0), Screening::NotReady);
    assert_eq!(screen_pending_transaction(&recent, 20, 100), Screening::Admit);
    assert_eq!(screen_pending_transaction(&recent, 21, 100), Screening::Stale);
    assert_eq!(screen_pending_transaction(&recent, 20, 101), Screening::Underpriced);
    assert_eq!(screen_pending_transaction(&recent, 10, 100), Screening::Admit);
    assert_eq!(screen_pending_transaction(&pending, 20, 100), Screening::Admit);
}
