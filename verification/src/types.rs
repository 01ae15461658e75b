//! Plain data shared by the modules.

use vstd::prelude::*;
use crate::address::Address;
use crate::uint::U256;

verus! {

/// A Uniswap V2 style pair with the fees the router charges and the token
/// taxes: `fees0` applies when token0 is sold into the pair, `fees1` when token1 is.
#[derive(Clone, Copy, Debug, PartialEq, Eq, Structural)]
pub struct UniV2Pool {
    pub address: Address,
    pub token0: Address,
    pub token1: Address,
    pub reserve0: U256,
    pub reserve1: U256,
    pub router_fee: U256,
    pub fees0: U256,
    pub fees1: U256,
}

} // verus!
