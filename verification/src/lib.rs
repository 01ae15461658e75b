//! Verified core of an arbitrage engine for constant-product (Uniswap V2 style)
//! markets: 256-bit arithmetic, EIP-1559 base-fee prediction, cycle discovery
//! over token pairs, profit search and event decoding.

pub mod uint;
pub mod dash;
pub mod ethers_math;
pub mod alloy_math;
pub mod base_fee;
pub mod address;
pub mod types;
pub mod constants;
pub mod pool_mapper;
pub mod opportunity_finder;
pub mod call_frame;
pub mod swap;
pub mod graph;
pub mod token;
pub mod transaction;
pub mod router;
