//! Ethereum mainnet addresses and protocol constants.

use vstd::prelude::*;
use crate::address::{address_text_value, hex_value, lemma_hex_concat, parse_address, pow16, Address, B256};

verus! {

pub const WETH: &'static str = "0xC02aaA39b223FE8D0A0e5C4F27eAD9083C756Cc2";
pub const USDC: &'static str = "0xA0b86991c6218b36c1d19D4a2e9Eb0cE3606eB48";
pub const WETH_USDC_PAIR: &'static str = "0xb4e16d0168e52d35cacd2c6185b44281ec28c9dc";

/// Value of one WETH unit used when valuing pools (0.1 ether in wei).
pub const WETH_VALUE: u128 = 100000000000000000u128;

/// File holding the pools of the last synchronisation, for test runs.
pub const TESTING_CHECKPOINT_PATH: &'static str = ".dev-cfmms-checkpoint.json";

/// Selector of the Uniswap V2 pair `swap(uint256,uint256,address,bytes)`.
pub const SWAP_FUNCTION_SIGNATURE: [u8; 4] = [0x02, 0x2c, 0x0d, 0x9f];

pub const MAX_ITERATIONS: usize = 10;

/// The address `WETH` spells.
pub open spec fn weth_spec() -> Address {
    Address { hi: 0xC02aaA39u32, lo: 0xb223FE8D0A0e5C4F27eAD9083C756Cc2u128 }
}

/// The WETH address, parsed from `WETH`.
pub fn weth_address() -> (r: Address)
    ensures
        r == weth_spec(),
{
    proof {
        lemma_weth_text();
    }
    match parse_address(WETH) {
        Some(a) => {
            proof {
                lemma_address_of_value(a, weth_spec());
            }
            a
        },
        None => {
            proof {
                assert(false);
            }
            weth_spec_exec()
        },
    }
}

fn weth_spec_exec() -> (r: Address)
    ensures
        r == weth_spec(),
{
    Address { hi: 0xC02aaA39u32, lo: 0xb223FE8D0A0e5C4F27eAD9083C756Cc2u128 }
}

proof fn lemma_weth_text()
    ensures
        address_text_value(WETH@) == Some(weth_spec().val()),
{
    reveal_strlit("0xC02aaA39b223FE8D0A0e5C4F27eAD9083C756Cc2");
    let s = WETH@;
    assert(s.len() == 42);
    assert(s[0] == '0' && s[1] == 'x');
    let t = s.subrange(2, 42);
    let (a, b, c, d) = (t.subrange(0, 10), t.subrange(10, 20), t.subrange(20, 30), t.subrange(30, 40));
    assert(hex_value(a) == Some(0xC02aaA39b2nat)) by {
        reveal_with_fuel(hex_value, 11);
    }
    assert(hex_value(b) == Some(0x23FE8D0A0enat)) by {
        reveal_with_fuel(hex_value, 11);
    }
    assert(hex_value(c) == Some(0x5C4F27eAD9nat)) by {
        reveal_with_fuel(hex_value, 11);
    }
    assert(hex_value(d) == Some(0x083C756Cc2nat)) by {
        reveal_with_fuel(hex_value, 11);
    }
    assert(pow16(10) == 0x100_0000_0000nat) by {
        reveal_with_fuel(pow16, 11);
    }
    lemma_hex_concat(a, b);
    lemma_hex_concat(a + b, c);
    lemma_hex_concat(a + b + c, d);
    assert(hex_value(a + b + c + d) == Some(0xC02aaA39b223FE8D0A0e5C4F27eAD9083C756Cc2nat));
    assert(a + b + c + d =~= t);
}

/// Two addresses of equal value are equal.
proof fn lemma_address_of_value(a: Address, b: Address)
    requires
        a.val() == b.val(),
    ensures
        a == b,
{
    let m = 0x1_0000_0000_0000_0000_0000_0000_0000_0000int;
    assert(a.hi * m + a.lo == b.hi * m + b.lo);
    assert(a.hi == b.hi) by (nonlinear_arith)
        requires
            a.hi * m + a.lo == b.hi * m + b.lo,
            0 <= a.lo < m,
            0 <= b.lo < m,
            m > 0;
}

/// The Uniswap V2 `Sync(uint112,uint112)` event topic.
pub open spec fn sync_topic_spec() -> B256 {
    B256 { hi: 0x1c411e9a96e071241c2f21f7726b17aeu128, lo: 0x89e3cab4c78be50e062b03a9fffbbad1u128 }
}

/// The Uniswap V2 `Sync(uint112,uint112)` event topic.
pub fn sync_topic() -> (r: B256)
    ensures
        r == sync_topic_spec(),
{
    B256 { hi: 0x1c411e9a96e071241c2f21f7726b17aeu128, lo: 0x89e3cab4c78be50e062b03a9fffbbad1u128 }
}

/// The Uniswap V2 `Swap(address,uint256,uint256,uint256,uint256,address)` event topic.
pub open spec fn swap_topic_spec() -> B256 {
    B256 { hi: 0xd78ad95fa46c994b6551d0da85fc275fu128, lo: 0xe613ce37657fb8d5e3d130840159d822u128 }
}

/// The Uniswap V2 `Swap(address,uint256,uint256,uint256,uint256,address)` event topic.
pub fn swap_topic() -> (r: B256)
    ensures
        r == swap_topic_spec(),
{
    B256 { hi: 0xd78ad95fa46c994b6551d0da85fc275fu128, lo: 0xe613ce37657fb8d5e3d130840159d822u128 }
}

} // verus!
