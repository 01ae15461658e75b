use rustbitrage::base_fee::{calculate_next_block_base_fee, calculate_next_block_base_fee_wide, BlockHeader, WideBlockHeader};
use rustbitrage::uint::U256;

fn header(gas_used: u64, gas_limit: u64, base_fee_per_gas: Option<u64>) -> BlockHeader {
    BlockHeader { number: 20_000_000, gas_used, gas_limit, base_fee_per_gas }
}

fn to_u128(x: U256) -> u128 {
    assert_eq!(x.l2, 0);
    assert_eq!(x.l3, 0);
    ((x.l1 as u128) << 64) | (x.l0 as u128)
}

#[test]
fn base_fee_unchanged_at_target() {
    assert_eq!(calculate_next_block_base_fee(&header(15_000_000, 30_000_000, Some(1_000_000_000))), 1_000_000_000);
}

#[test]
fn base_fee_full_block_raises_one_eighth() {
    assert_eq!(calculate_next_block_base_fee(&header(30_000_000, 30_000_000, Some(1_000_000_000))), 1_125_000_000);
}

#[test]
fn base_fee_empty_block_lowers_one_eighth() {
    assert_eq!(calculate_next_block_base_fee(&header(0, 30_000_000, Some(1_000_000_000))), 875_000_000);
}

#[test]
fn base_fee_partial_increase_rounds_down() {
    // 1e9 * 5e6 / (15e6 * 8) = 41_666_666.6...
    assert_eq!(calculate_next_block_base_fee(&header(20_000_000, 30_000_000, Some(1_000_000_000))), 1_041_666_666);
}

#[test]
fn base_fee_missing_counts_as_one_and_rises_by_at_least_one() {
    assert_eq!(calculate_next_block_base_fee(&header(30_000_000, 30_000_000, None)), 2);
    assert_eq!(calculate_next_block_base_fee(&header(15_000_001, 30_000_000, Some(7))), 8);
}

#[test]
fn base_fee_zero_target_keeps_fee() {
    assert_eq!(calculate_next_block_base_fee(&header(5, 1, Some(42))), 42);
}

#[test]
fn base_fee_matches_alloy_on_a_range_of_blocks() {
    let params = alloy::eips::eip1559::BaseFeeParams::ethereum();
    let limits = [2u64, 3, 1_000, 30_000_000, 36_000_000];
    let bases = [0u64, 1, 7, 8, 1_000_000_000, 123_456_789_012];
    for &limit in limits.iter() {
        for &base in bases.iter() {
            for used in [0u64, limit / 4, limit / 2, limit / 2 + 1, limit - 1, limit] {
                let expected = alloy::eips::calc_next_block_base_fee(used, limit, base, params);
                assert_eq!(calculate_next_block_base_fee(&header(used, limit, Some(base))), expected);
            }
        }
    }
}

#[test]
fn base_fee_direction_law_examples() {
    let limit = 30_000_000u64;
    let base = 20_000_000_000u64;
    for used in [0u64, 1, 10_000_000, 14_999_999] {
        assert!(calculate_next_block_base_fee(&header(used, limit, Some(base))) <= base);
    }
    for used in [15_000_001u64, 20_000_000, 30_000_000] {
        let next = calculate_next_block_base_fee(&header(used, limit, Some(base)));
        assert!(next > base);
        assert!(next <= base + base / 8);
    }
}

#[test]
fn wide_base_fee_values() {
    let wide = |used: u128, limit: u128, base: Option<u128>| WideBlockHeader {
        base_fee_per_gas: base.map(U256::from_u128),
        gas_used: U256::from_u128(used),
        gas_limit: U256::from_u128(limit),
    };
    assert_eq!(to_u128(calculate_next_block_base_fee_wide(&wide(30_000_000, 30_000_000, Some(1_000_000_000)))), 1_125_000_000);
    assert_eq!(to_u128(calculate_next_block_base_fee_wide(&wide(0, 30_000_000, Some(1_000_000_000)))), 875_000_000);
    assert_eq!(to_u128(calculate_next_block_base_fee_wide(&wide(15_000_000, 30_000_000, Some(1_000_000_000)))), 1_000_000_000);
    // 1e9 * 5e6 / 15e6 / 8 = 333_333_333 / 8 = 41_666_666
    assert_eq!(to_u128(calculate_next_block_base_fee_wide(&wide(20_000_000, 30_000_000, Some(1_000_000_000)))), 1_041_666_666);
    // no base fee: counts as zero, and zero stays zero
    assert_eq!(to_u128(calculate_next_block_base_fee_wide(&wide(30_000_000, 30_000_000, None))), 0);
    // an increase below one unit is lost on 256-bit integers
    assert_eq!(to_u128(calculate_next_block_base_fee_wide(&wide(15_000_001, 30_000_000, Some(7)))), 7);
}
