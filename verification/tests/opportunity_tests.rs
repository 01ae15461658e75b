use std::collections::{HashMap, HashSet};

use rustbitrage::address::{Address, B256};
use rustbitrage::call_frame::CallLog;
use rustbitrage::constants::{sync_topic, weth_address};
use rustbitrage::opportunity_finder::{best_transaction, parse_sync_updates, NetPositiveCycle, OpportunityFinder, PotentialStateUpdate};
use rustbitrage::pool_mapper::{find_cycles, IndexedPair, Mapping};
use rustbitrage::types::UniV2Pool;
use rustbitrage::uint::{I256, U256};

fn addr(n: u128) -> Address {
    Address { hi: 0, lo: n }
}

fn u(x: u128) -> U256 {
    U256::from_u128(x)
}

fn to_u128(x: U256) -> u128 {
    assert_eq!(x.l2, 0);
    assert_eq!(x.l3, 0);
    ((x.l1 as u128) << 64) | (x.l0 as u128)
}

fn to_i128(x: I256) -> i128 {
    let r = x.raw;
    let low = ((r.l1 as u128) << 64) | (r.l0 as u128);
    if r.l3 == u64::MAX && r.l2 == u64::MAX {
        assert!(low >= (1u128 << 127));
        low as i128
    } else {
        assert_eq!((r.l2, r.l3), (0, 0));
        assert!(low < (1u128 << 127));
        low as i128
    }
}

const A: u128 = 0xA;
const B: u128 = 0xB;
const P1: u128 = 0x101;
const P2: u128 = 0x102;
const P3: u128 = 0x103;

fn pool(address: u128, token0: Address, token1: Address, reserve0: u128, reserve1: u128) -> UniV2Pool {
    UniV2Pool {
        address: addr(address),
        token0,
        token1,
        reserve0: u(reserve0),
        reserve1: u(reserve1),
        router_fee: u(9970),
        fees0: u(0),
        fees1: u(0),
    }
}

/// WETH -> A -> B -> WETH pays 1.2 WETH per WETH before fees; the other way round loses.
fn triangle() -> Vec<UniV2Pool> {
    let w = weth_address();
    vec![
        pool(P1, w, addr(A), 1_000_000_000_000, 2_000_000_000_000),
        pool(P2, addr(A), addr(B), 1_000_000_000_000, 1_000_000_000_000),
        pool(P3, addr(B), w, 1_000_000_000_000, 600_000_000_000),
    ]
}

fn finder() -> OpportunityFinder {
    OpportunityFinder::new(Mapping::new(&triangle()))
}

fn own_reserves_cache() -> HashMap<usize, (U256, U256)> {
    let mut cache = HashMap::new();
    cache.insert(0usize, (u(1_000_000_000_000), u(2_000_000_000_000)));
    cache.insert(3usize, (u(1_000_000_000_000), u(1_000_000_000_000)));
    cache.insert(5usize, (u(1_000_000_000_000), u(600_000_000_000)));
    cache
}

fn amount_out_ref(a: u128, r_in: u128, r_out: u128) -> u128 {
    a * 9970 * r_out / (10000 * r_in + a * 9970)
}

#[test]
fn amount_out_exact_values() {
    let f = finder();
    assert_eq!(to_u128(f.get_amount_out(u(1000), u(10000), u(10000), u(0), u(9970))), 906);
    assert_eq!(to_u128(f.get_amount_out(u(1000), u(10000), u(10000), u(100), u(9970))), 897);
    assert_eq!(to_u128(f.get_amount_out(u(0), u(10000), u(10000), u(100), u(9970))), 0);
}

#[test]
fn amount_out_saturates() {
    let f = finder();
    let half = U256 { l0: 0, l1: 0, l2: 0, l3: 1u64 << 63 };
    // amount * fee saturates, so does the denominator: MAX * 1 / MAX = 1
    assert_eq!(to_u128(f.get_amount_out(half, u(1), u(1), u(0), u(4))), 1);
}

#[test]
fn mapping_indexes_and_files_cycles() {
    let m = Mapping::new(&triangle());
    let w = weth_address();
    let expected = [addr(P1), w, addr(A), addr(P2), addr(B), addr(P3)];
    assert_eq!(m.index_mapping.len(), expected.len());
    for (i, a) in expected.iter().enumerate() {
        assert_eq!(m.index_mapping.get(&i), Some(a));
    }
    assert_eq!(m.address_mapping.get(&addr(P3)), Some(&5));
    assert_eq!(m.address_mapping.get(&w), Some(&1));
    assert_eq!(m.pairs_mapping.get(&3).map(|p| p.address), Some(addr(P2)));
    let c1 = vec![
        IndexedPair { address: 0, token0: 1, token1: 2 },
        IndexedPair { address: 3, token0: 2, token1: 4 },
        IndexedPair { address: 5, token0: 4, token1: 1 },
    ];
    let c2 = vec![c1[2], c1[1], c1[0]];
    for p in [P1, P2, P3] {
        assert_eq!(m.cycles_mapping.get(&addr(p)), Some(&vec![c1.clone(), c2.clone()]));
    }
    assert_eq!(m.cycles_mapping.entries.len(), 3);
}

#[test]
fn find_cycles_enumerates_both_directions() {
    let pairs = vec![
        IndexedPair { address: 0, token0: 1, token1: 2 },
        IndexedPair { address: 3, token0: 2, token1: 4 },
        IndexedPair { address: 5, token0: 4, token1: 1 },
    ];
    let mut circles = Vec::new();
    let mut seen: HashSet<usize> = HashSet::new();
    let found = find_cycles(&pairs, 1, 1, 3, &Vec::new(), &mut circles, &mut seen);
    assert_eq!(found, vec![vec![pairs[0], pairs[1], pairs[2]], vec![pairs[2], pairs[1], pairs[0]]]);
    assert!(circles.is_empty());
    assert!(seen.is_empty());
    // two hops are not enough for a triangle
    let short = find_cycles(&pairs, 1, 1, 2, &Vec::new(), &mut circles, &mut seen);
    assert!(short.is_empty());
    // what was passed in is kept in front
    let mut start = vec![vec![pairs[1]]];
    let with_start = find_cycles(&pairs, 1, 1, 3, &Vec::new(), &mut start, &mut seen);
    assert_eq!(with_start.len(), 3);
    assert_eq!(with_start[0], vec![pairs[1]]);
}

#[test]
fn find_cycles_skips_seen_pools() {
    let pairs = vec![
        IndexedPair { address: 0, token0: 1, token1: 2 },
        IndexedPair { address: 3, token0: 2, token1: 1 },
    ];
    let mut circles = Vec::new();
    let mut seen: HashSet<usize> = HashSet::from([3usize]);
    let found = find_cycles(&pairs, 1, 1, 3, &Vec::new(), &mut circles, &mut seen);
    assert!(found.is_empty());
    assert_eq!(seen, HashSet::from([3usize]));
}

#[test]
fn profit_with_amount_follows_the_pools() {
    let f = finder();
    let pools = triangle();
    let a = 1_000_000_000u128;
    let x1 = amount_out_ref(a, 1_000_000_000_000, 2_000_000_000_000);
    let x2 = amount_out_ref(x1, 1_000_000_000_000, 1_000_000_000_000);
    let x3 = amount_out_ref(x2, 1_000_000_000_000, 600_000_000_000);
    let (profit, amounts) = f.get_profit_with_amount(weth_address(), u(a), &pools);
    assert_eq!(amounts.iter().map(|x| to_u128(*x)).collect::<Vec<_>>(), vec![a, x1, x2, x3]);
    assert_eq!(to_i128(profit), x3 as i128 - a as i128 - (a * 9 / 10000) as i128);
    assert!(to_i128(profit) > 0);
}

#[test]
fn profit_with_amount_can_be_negative() {
    let f = finder();
    let p = triangle();
    let reversed = vec![p[2], p[1], p[0]];
    let a = 1_000_000_000u128;
    let x1 = amount_out_ref(a, 600_000_000_000, 1_000_000_000_000);
    let x2 = amount_out_ref(x1, 1_000_000_000_000, 1_000_000_000_000);
    let x3 = amount_out_ref(x2, 2_000_000_000_000, 1_000_000_000_000);
    let (profit, amounts) = f.get_profit_with_amount(weth_address(), u(a), &reversed);
    assert_eq!(amounts.len(), 4);
    assert_eq!(to_i128(profit), x3 as i128 - a as i128 - (a * 9 / 10000) as i128);
    assert!(to_i128(profit) < 0);
}

#[test]
fn profit_with_reserves_reads_the_cache() {
    let f = finder();
    let pools = triangle();
    let a = 1_000_000_000u128;
    let cache = own_reserves_cache();
    let x1 = amount_out_ref(a, 1_000_000_000_000, 2_000_000_000_000);
    let x2 = amount_out_ref(x1, 1_000_000_000_000, 1_000_000_000_000);
    let x3 = amount_out_ref(x2, 1_000_000_000_000, 600_000_000_000);
    let p = f.get_profit_with_reserves(weth_address(), u(a), &pools, &cache);
    assert_eq!(to_i128(p), x3 as i128 - (a + a * 9 / 10000) as i128);
    // the cache, not the pools' own reserves, prices the swaps
    let mut drained = own_reserves_cache();
    drained.insert(5usize, (u(1_000_000_000_000), u(300_000_000_000)));
    let y3 = amount_out_ref(x2, 1_000_000_000_000, 300_000_000_000);
    let q = f.get_profit_with_reserves(weth_address(), u(a), &pools, &drained);
    assert_eq!(to_i128(q), y3 as i128 - (a + a * 9 / 10000) as i128);
}

fn word(x: u128) -> Vec<u8> {
    let mut v = vec![0u8; 16];
    v.extend_from_slice(&x.to_be_bytes());
    v
}

#[test]
fn sync_events_update_the_cache() {
    let f = finder();
    let mut data = word(5_000);
    data.extend(word(7_000));
    let other_topic = B256 { hi: 1, lo: 2 };
    let logs = vec![
        CallLog { address: Some(addr(P2)), topics: Some(vec![other_topic, sync_topic()]), data: Some(data.clone()) },
        CallLog { address: Some(addr(P1)), topics: Some(vec![other_topic]), data: Some(data.clone()) },
        CallLog { address: None, topics: Some(vec![sync_topic()]), data: Some(data.clone()) },
        CallLog { address: Some(addr(P3)), topics: Some(vec![sync_topic()]), data: Some(word(9)) },
    ];
    let updates = parse_sync_updates(&logs, sync_topic());
    assert_eq!(updates, vec![
        PotentialStateUpdate { address: addr(P2), reserve0: u(5_000), reserve1: u(7_000) },
        PotentialStateUpdate { address: addr(P3), reserve0: u(9), reserve1: u(0) },
    ]);
    let mut cache = own_reserves_cache();
    f.apply_state_updates(&updates, &mut cache);
    assert_eq!(cache.get(&3), Some(&(u(5_000), u(7_000))));
    assert_eq!(cache.get(&5), Some(&(u(9), u(0))));
    assert_eq!(cache.get(&0), Some(&(u(1_000_000_000_000), u(2_000_000_000_000))));
}

#[test]
fn optimal_cycles_of_an_affected_pool() {
    let f = finder();
    let pools = triangle();
    let cache = own_reserves_cache();
    let found = f.find_optimal_cycles(Some(vec![addr(P1)]), &cache);
    assert_eq!(found.len(), 1);
    let best = &found[0];
    assert_eq!(best.cycle_addresses, vec![addr(P1), addr(P2), addr(P3)]);
    let opt = to_u128(best.optimal_in);
    assert!(1 <= opt && opt <= 10_000_000_000_000_000_000_000);
    let (profit, amounts) = f.get_profit_with_amount(weth_address(), best.optimal_in, &pools);
    assert_eq!(best.profit, profit);
    assert_eq!(best.swap_amounts, amounts);
    assert!(to_i128(best.profit) > 0);
    // the search ends near the best input: moving it does not pay more
    for delta in [1_000_000_000u128, 10_000_000_000] {
        let (up, _) = f.get_profit_with_amount(weth_address(), u(opt + delta), &pools);
        let (down, _) = f.get_profit_with_amount(weth_address(), u(opt - delta), &pools);
        assert!(to_i128(up) <= to_i128(best.profit));
        assert!(to_i128(down) <= to_i128(best.profit));
    }
}

#[test]
fn optimal_cycles_of_all_pools_keeps_the_best_five_in_order() {
    let f = finder();
    let cache = own_reserves_cache();
    let found = f.find_optimal_cycles(None, &cache);
    // the profitable cycle is filed under each of its three pools
    assert_eq!(found.len(), 3);
    for c in found.iter() {
        assert_eq!(c.cycle_addresses, vec![addr(P1), addr(P2), addr(P3)]);
        assert_eq!(c.profit, found[0].profit);
    }
    assert!(f.find_optimal_cycles(Some(vec![]), &cache).is_empty());
    assert!(f.find_optimal_cycles(Some(vec![addr(A)]), &cache).is_empty());
}

#[test]
fn unprofitable_cache_gives_no_cycle() {
    let f = finder();
    let mut cache = own_reserves_cache();
    cache.insert(5usize, (u(1_000_000_000_000), u(300_000_000_000)));
    assert!(f.find_optimal_cycles(Some(vec![addr(P1)]), &cache).is_empty());
}

fn cycle_with_profit(p: i128) -> NetPositiveCycle {
    let raw = p as u128;
    let fill = if p < 0 { u64::MAX } else { 0 };
    NetPositiveCycle {
        profit: I256::from_raw(U256 { l0: raw as u64, l1: (raw >> 64) as u64, l2: fill, l3: fill }),
        optimal_in: u(p.unsigned_abs()),
        swap_amounts: vec![u(1), u(2)],
        cycle_addresses: vec![addr(P1), addr(P2)],
    }
}

#[test]
fn cycles_order_by_profit_descending() {
    let five = cycle_with_profit(5);
    let seven = cycle_with_profit(7);
    let minus = cycle_with_profit(-3);
    assert_eq!(five.cmp(&seven), std::cmp::Ordering::Greater);
    assert_eq!(seven.cmp(&five), std::cmp::Ordering::Less);
    assert_eq!(minus.cmp(&five), std::cmp::Ordering::Greater);
    assert_eq!(five.partial_cmp(&cycle_with_profit(5)), Some(std::cmp::Ordering::Equal));
    assert!(five.eq(&cycle_with_profit(5)));
    assert!(!five.eq(&seven));
}

#[test]
fn best_transaction_takes_the_first_cycle() {
    assert!(best_transaction(&vec![]).is_none());
    let t = best_transaction(&vec![cycle_with_profit(7), cycle_with_profit(5)]).unwrap();
    assert_eq!(t.amount_in, u(7));
    assert_eq!(t.cycle_addresses, vec![addr(P1), addr(P2)]);
    assert_eq!(t.profit, cycle_with_profit(7).profit);
}

#[test]
fn token_tax_is_charged_in_both_pricings() {
    let mut pools = triangle();
    pools[0].fees0 = u(100);
    pools[0].fees1 = u(5000);
    let f = OpportunityFinder::new(Mapping::new(&pools));
    let a = 1_000_000_000u128;
    // with the pools' own reserves: the output less 1% of it
    let g1 = amount_out_ref(a, 1_000_000_000_000, 2_000_000_000_000);
    let x1 = g1 - g1 * 100 / 10000;
    let (_, amounts) = f.get_profit_with_amount(weth_address(), u(a), &pools);
    assert_eq!(to_u128(amounts[1]), x1);
    // with cached reserves: the tax lowers the fee multiplier to 9870
    let y1 = a * 9870 * 2_000_000_000_000 / (1_000_000_000_000 * 10000 + a * 9970);
    let y2 = amount_out_ref(y1, 1_000_000_000_000, 1_000_000_000_000);
    let y3 = amount_out_ref(y2, 1_000_000_000_000, 600_000_000_000);
    let p = f.get_profit_with_reserves(weth_address(), u(a), &pools, &own_reserves_cache());
    assert_eq!(to_i128(p), y3 as i128 - (a + a * 9 / 10000) as i128);
}

#[test]
fn cached_and_own_pricing_agree_without_tax() {
    let f = finder();
    let pools = triangle();
    let cache = own_reserves_cache();
    for a in [1u128, 77, 1_000_000, 123_456_789_012, 5_000_000_000_000] {
        let (own, _) = f.get_profit_with_amount(weth_address(), u(a), &pools);
        let cached = f.get_profit_with_reserves(weth_address(), u(a), &pools, &cache);
        assert_eq!(own, cached);
    }
}

#[test]
fn a_transaction_is_proposed_for_the_best_cycle_of_updated_pools() {
    let f = finder();
    let cache = own_reserves_cache();
    let updates = vec![PotentialStateUpdate { address: addr(P1), reserve0: u(1), reserve1: u(1) }];
    let tx = f.propose_transaction(&updates, &cache).expect("the triangle is profitable");
    let found = f.find_optimal_cycles(Some(vec![addr(P1)]), &cache);
    assert_eq!(tx.amount_in, found[0].optimal_in);
    assert_eq!(tx.profit, found[0].profit);
    assert_eq!(tx.cycle_addresses, vec![addr(P1), addr(P2), addr(P3)]);
}

#[test]
fn nothing_is_proposed_without_reserve_updates() {
    let f = finder();
    let cache = own_reserves_cache();
    assert!(f.propose_transaction(&vec![], &cache).is_none());
}

#[test]
fn nothing_is_proposed_when_no_cycle_pays() {
    let f = finder();
    let mut cache = own_reserves_cache();
    cache.insert(5usize, (u(1_000_000_000_000), u(300_000_000_000)));
    let updates = vec![PotentialStateUpdate { address: addr(P1), reserve0: u(1), reserve1: u(1) }];
    assert!(f.propose_transaction(&updates, &cache).is_none());
}

#[test]
fn a_round_keeps_the_last_sync_of_each_pool() {
    let f = finder();
    let mut first = word(5_000);
    first.extend(word(7_000));
    let mut last = word(11);
    last.extend(word(13));
    let logs = vec![
        CallLog { address: Some(addr(P2)), topics: Some(vec![sync_topic()]), data: Some(first) },
        CallLog { address: Some(addr(P2)), topics: Some(vec![B256 { hi: 1, lo: 2 }]), data: Some(word(1)) },
        CallLog { address: Some(addr(P2)), topics: Some(vec![sync_topic()]), data: Some(last) },
    ];
    let updates = parse_sync_updates(&logs, sync_topic());
    let mut cache = own_reserves_cache();
    f.apply_state_updates(&updates, &mut cache);
    assert_eq!(cache.get(&3), Some(&(u(11), u(13))));
    assert_eq!(cache.get(&0), Some(&(u(1_000_000_000_000), u(2_000_000_000_000))));
}

#[test]
fn a_round_without_sync_events_proposes_nothing() {
    let f = finder();
    let logs = vec![CallLog { address: Some(addr(P1)), topics: Some(vec![B256 { hi: 1, lo: 2 }]), data: Some(word(1)) }];
    let updates = parse_sync_updates(&logs, sync_topic());
    assert!(updates.is_empty());
    let mut cache = own_reserves_cache();
    let before = cache.clone();
    f.apply_state_updates(&updates, &mut cache);
    assert_eq!(cache, before);
    assert!(f.propose_transaction(&updates, &cache).is_none());
}
