//! Prediction of the next block's base fee per gas (EIP-1559).

use vstd::prelude::*;
use crate::uint::{u256_max, U256};
use crate::ethers_math::{eth_add, eth_div, eth_mul, eth_sub};

verus! {

/// 2^64
pub open spec fn two_pow_64() -> int {
    0x1_0000_0000_0000_0000int
}

/// The header fields of a block that the base-fee prediction reads.
#[derive(Clone, Copy, Debug)]
pub struct BlockHeader {
    pub number: u64,
    pub gas_used: u64,
    pub gas_limit: u64,
    pub base_fee_per_gas: Option<u64>,
}

/// The raw EIP-1559 increase term `base * (used - target) / (target * 8)`.
pub open spec fn eip1559_delta(used: int, target: int, base: int) -> int {
    if used > target {
        base * (used - target) / (target * 8)
    } else {
        base * (target - used) / (target * 8)
    }
}

/// The next base fee under Ethereum's EIP-1559 parameters (elasticity 2,
/// change denominator 8): unchanged at the gas target, raised by at least 1
/// above it, lowered (not below zero) under it.
pub open spec fn eip1559_next_base_fee(used: u64, limit: u64, base: u64) -> int {
    let target = limit / 2;
    if target == 0 || used == target {
        base as int
    } else if used > target {
        base + (vstd::math::max(1, eip1559_delta(used as int, target as int, base as int)) % two_pow_64())
    } else {
        let d = eip1559_delta(used as int, target as int, base as int) % two_pow_64();
        if d <= base { base - d } else { 0 }
    }
}

/// The prediction does not overflow a `u64` (an increase that would is not computable).
pub open spec fn eip1559_fits(used: u64, limit: u64, base: u64) -> bool {
    eip1559_next_base_fee(used, limit, base) <= u64::MAX
}

/// `alloy::eips::calc_next_block_base_fee` with `BaseFeeParams::ethereum()`.
/// Its source computes exactly `eip1559_next_base_fee`; the addition in the
/// increase case overflows (and panics in debug builds) where the result does not fit.
#[verifier::external_body]
fn alloy_calc_next_block_base_fee(gas_used: u64, gas_limit: u64, base_fee: u64) -> (r: u64)
    requires
        eip1559_fits(gas_used, gas_limit, base_fee),
    ensures
        r == eip1559_next_base_fee(gas_used, gas_limit, base_fee),
{
    alloy::eips::calc_next_block_base_fee(gas_used, gas_limit, base_fee, alloy::eips::eip1559::BaseFeeParams::ethereum())
}

/// The base fee of the block after `header`; a header without a base fee counts as a fee of 1.
pub fn calculate_next_block_base_fee(header: &BlockHeader) -> (r: u64)
    requires
        eip1559_fits(header.gas_used, header.gas_limit, header.base_fee_per_gas.unwrap_or(1)),
    ensures
        r == eip1559_next_base_fee(header.gas_used, header.gas_limit, header.base_fee_per_gas.unwrap_or(1)),
{
    let base_fee_per_gas = match header.base_fee_per_gas {
        Some(b) => b,
        None => 1,
    };
    alloy_calc_next_block_base_fee(header.gas_used, header.gas_limit, base_fee_per_gas)
}

/// Law: for a block within its gas limit, at the gas target the fee stays,
/// above it the fee rises, below it the fee does not rise.
pub proof fn lemma_eip1559_direction(used: u64, limit: u64, base: u64)
    requires
        limit / 2 > 0,
        used <= limit,
    ensures
        used == limit / 2 ==> eip1559_next_base_fee(used, limit, base) == base,
        used > limit / 2 ==> eip1559_next_base_fee(used, limit, base) > base,
        used < limit / 2 ==> eip1559_next_base_fee(used, limit, base) <= base,
{
    let target = (limit / 2) as int;
    if used as int > target {
        let k = used - target;
        assert(0 < k <= 2 * target);
        assert(base * k <= base * (2 * target)) by (nonlinear_arith)
            requires 0 < k <= 2 * target, base >= 0;
        assert(base * k / (target * 8) <= base * (2 * target) / (target * 8)) by (nonlinear_arith)
            requires base * k <= base * (2 * target), target > 0;
        assert(base * (2 * target) / (target * 8) == base / 4) by (nonlinear_arith)
            requires target > 0, base >= 0;
        assert(base * k / (target * 8) >= 0) by (nonlinear_arith)
            requires base * k >= 0, target > 0;
        let m = vstd::math::max(1, eip1559_delta(used as int, target, base as int));
        assert(1 <= m < two_pow_64());
        assert(m % two_pow_64() == m) by (nonlinear_arith)
            requires 0 <= m < two_pow_64();
    }
}

/// Law: for a block using at most twice its gas target the fee moves by at
/// most one eighth (an increase is at least 1, so the bound is `max(1, base / 8)`).
pub proof fn lemma_eip1559_bounded_change(used: u64, limit: u64, base: u64)
    requires
        used <= limit,
        used <= (limit / 2) * 2,
        limit / 2 > 0,
    ensures
        eip1559_next_base_fee(used, limit, base) <= base + vstd::math::max(1, (base / 8) as int),
        eip1559_next_base_fee(used, limit, base) >= base - base / 8,
{
    let target = (limit / 2) as int;
    if used as int > target {
        let k = used - target;
        assert(0 < k <= target);
        assert(base * k <= base * target) by (nonlinear_arith)
            requires 0 < k <= target, base >= 0;
        assert(base * k / (target * 8) <= base * target / (target * 8)) by (nonlinear_arith)
            requires base * k <= base * target, target > 0;
        assert(base * target / (target * 8) == base / 8) by (nonlinear_arith)
            requires target > 0, base >= 0;
        assert(base * k / (target * 8) >= 0) by (nonlinear_arith)
            requires base * k >= 0, target > 0;
        let m = vstd::math::max(1, eip1559_delta(used as int, target, base as int));
        assert(m <= base / 8 + 1);
        assert(m < two_pow_64());
        assert(m % two_pow_64() == m) by (nonlinear_arith)
            requires 0 <= m < two_pow_64();
    } else if (used as int) < target {
        let k = target - used;
        assert(0 < k <= target);
        assert(base * k <= base * target) by (nonlinear_arith)
            requires 0 < k <= target, base >= 0;
        assert(base * k / (target * 8) <= base * target / (target * 8)) by (nonlinear_arith)
            requires base * k <= base * target, target > 0;
        assert(base * target / (target * 8) == base / 8) by (nonlinear_arith)
            requires target > 0, base >= 0;
        assert(base * k / (target * 8) >= 0) by (nonlinear_arith)
            requires base * k >= 0, target > 0;
        let d = eip1559_delta(used as int, target, base as int);
        assert(d % two_pow_64() == d) by (nonlinear_arith)
            requires 0 <= d <= base / 8, base < two_pow_64();
    }
}

/// The header fields of a block, as 256-bit values, that the base-fee
/// prediction on 256-bit integers reads.
#[derive(Clone, Copy, Debug)]
pub struct WideBlockHeader {
    pub base_fee_per_gas: Option<U256>,
    pub gas_used: U256,
    pub gas_limit: U256,
}

/// EIP-1559 on unbounded integers: `base ± base * |used - target| / target / 8`
/// with `target = limit / 2`, unchanged at the target.
pub open spec fn wide_next_base_fee(used: nat, limit: nat, base: nat) -> int {
    let target = limit / 2;
    if used == target {
        base as int
    } else if used > target {
        base + base * (used - target) / (target as int) / 8
    } else {
        base - base * (target - used) / (target as int) / 8
    }
}

/// The 256-bit prediction does not divide by zero or overflow.
pub open spec fn wide_base_fee_computable(used: nat, limit: nat, base: nat) -> bool {
    let target = limit / 2;
    used != target ==> {
        &&& target > 0
        &&& used > target ==> base * (used - target) <= u256_max() && wide_next_base_fee(used, limit, base) <= u256_max()
        &&& used < target ==> base * (target - used) <= u256_max()
    }
}

/// The base fee of the block after `block`, on 256-bit integers; a block
/// without a base fee counts as a fee of 0.
pub fn calculate_next_block_base_fee_wide(block: &WideBlockHeader) -> (r: U256)
    requires
        wide_base_fee_computable(block.gas_used.val(), block.gas_limit.val(),
            match block.base_fee_per_gas { Some(b) => b.val(), None => 0 }),
    ensures
        r.val() == wide_next_base_fee(block.gas_used.val(), block.gas_limit.val(),
            match block.base_fee_per_gas { Some(b) => b.val(), None => 0 }),
{
    let base = match block.base_fee_per_gas {
        Some(b) => b,
        None => U256::zero(),
    };
    let used = block.gas_used;
    let two = U256::from_u64(2);
    let eight = U256::from_u64(8);
    let target = eth_div(block.gas_limit, two);
    if used.eq_val(&target) {
        base
    } else if target.lt(&used) {
        let delta = eth_sub(used, target);
        let d = eth_div(eth_div(eth_mul(base, delta), target), eight);
        eth_add(base, d)
    } else {
        let delta = eth_sub(target, used);
        let p = eth_mul(base, delta);
        let q = eth_div(p, target);
        let d = eth_div(q, eight);
        proof {
            let (b, k, t) = (base.val() as int, delta.val() as int, target.val() as int);
            assert(b * k <= b * t) by (nonlinear_arith)
                requires 0 <= k <= t, b >= 0;
            assert(b * k / t <= b * t / t) by (nonlinear_arith)
                requires b * k <= b * t, t > 0, b * k >= 0;
            assert(b * t / t == b) by (nonlinear_arith)
                requires t > 0;
        }
        eth_sub(base, d)
    }
}

} // verus!
