//! Reading Uniswap V2 swaps off the events of a traced transaction.

use vstd::prelude::*;
use dashmap::DashMap;
use crate::address::{Address, B256};
use crate::dash::{pool_entries, pool_get};
use crate::alloy_math::alloy_from_be_slice;
use crate::call_frame::{copy_log, CallFrame, CallLog};
use crate::constants::{swap_topic, swap_topic_spec};
use crate::uint::{be_value, U256};

verus! {

/// What the logic reads of a known pool: the tokens of a Uniswap V2 pair, or
/// that it is a pool of another kind.
#[derive(Clone, Copy, Debug, PartialEq, Eq, Structural)]
pub enum PoolKind {
    UniswapV2Pool { token_a: Address, token_b: Address },
    Other,
}

/// A swap seen in a pool: what was sold, what was bought, and how much was sold.
#[derive(Clone, Copy, Debug, PartialEq, Eq, Structural)]
pub struct SwapInfo {
    pub from_token: Address,
    pub to_token: Address,
    pub pool_address: Address,
    pub version: u8,
    pub amount_in: U256,
}

impl SwapInfo {
    pub open spec fn view(&self) -> (Address, Address, Address, u8, nat) {
        (self.from_token, self.to_token, self.pool_address, self.version, self.amount_in.val())
    }
}

/// The data of a `Swap` event is not four 32-byte words.
#[derive(Clone, Copy, Debug, PartialEq, Eq, Structural)]
pub enum SwapDecodeError {
    InvalidEventData,
}

/// The swap an event reports: a `Swap` event (at least two topics, the first
/// being the `Swap` signature) from a known Uniswap V2 pool, whose data is
/// exactly four words; the sold side is token A when `amount0In` is positive,
/// otherwise token B when `amount1In` is.
pub open spec fn swap_of_log(
    l: (Option<Address>, Option<Seq<B256>>, Option<Seq<u8>>),
    pools: Map<Address, PoolKind>,
) -> Result<Option<(Address, Address, Address, u8, nat)>, SwapDecodeError> {
    match l {
        (Some(pool_address), Some(topics), Some(data)) => {
            if topics.len() <= 1 || topics[0] != swap_topic_spec() || !pools.contains_key(pool_address) {
                Ok(None)
            } else {
                match pools[pool_address] {
                    PoolKind::UniswapV2Pool { token_a, token_b } => {
                        if data.len() != 128 {
                            Err(SwapDecodeError::InvalidEventData)
                        } else {
                            let amount0_in = be_value(data.subrange(0, 32));
                            let amount1_in = be_value(data.subrange(32, 64));
                            if amount0_in > 0 {
                                Ok(Some((token_a, token_b, pool_address, 2u8, amount0_in)))
                            } else if amount1_in > 0 {
                                Ok(Some((token_b, token_a, pool_address, 2u8, amount1_in)))
                            } else {
                                Ok(None)
                            }
                        }
                    },
                    PoolKind::Other => Ok(None),
                }
            }
        },
        _ => Ok(None),
    }
}

pub open spec fn swap_result_view(r: Result<Option<SwapInfo>, SwapDecodeError>)
    -> Result<Option<(Address, Address, Address, u8, nat)>, SwapDecodeError> {
    match r {
        Ok(Some(s)) => Ok(Some(s@)),
        Ok(None) => Ok(None),
        Err(e) => Err(e),
    }
}

/// Decodes the swap that `log` reports, if it is a `Swap` event of a known Uniswap V2 pool.
pub fn process_log(log: CallLog, pools_map: &DashMap<Address, PoolKind>) -> (r: Result<Option<SwapInfo>, SwapDecodeError>)
    ensures
        swap_result_view(r) == swap_of_log(log@, pool_entries(*pools_map)),
{
    match (log.topics, log.data, log.address) {
        (Some(topics), Some(data), Some(pool_address)) => {
            if topics.len() <= 1 {
                return Ok(None);
            }
            if topics[0] != swap_topic() {
                return Ok(None);
            }
            let pool = match pool_get(pools_map, &pool_address) {
                Some(p) => p,
                None => {
                    return Ok(None);
                },
            };
            match pool {
                PoolKind::UniswapV2Pool { token_a, token_b } => {
                    if data.len() != 128 {
                        return Err(SwapDecodeError::InvalidEventData);
                    }
                    let amount0_in = alloy_from_be_slice(&data.as_slice()[0..32]);
                    let amount1_in = alloy_from_be_slice(&data.as_slice()[32..64]);
                    if !amount0_in.is_zero() {
                        Ok(Some(SwapInfo { from_token: token_a, to_token: token_b, pool_address, version: 2, amount_in: amount0_in }))
                    } else if !amount1_in.is_zero() {
                        Ok(Some(SwapInfo { from_token: token_b, to_token: token_a, pool_address, version: 2, amount_in: amount1_in }))
                    } else {
                        Ok(None)
                    }
                },
                PoolKind::Other => Ok(None),
            }
        },
        _ => Ok(None),
    }
}

/// Law: a reported swap comes from a known Uniswap V2 pool, sells a positive
/// amount of one of that pool's two tokens and buys the other.
pub proof fn lemma_reported_swap_in_pool(
    l: (Option<Address>, Option<Seq<B256>>, Option<Seq<u8>>),
    pools: Map<Address, PoolKind>,
)
    ensures
        swap_of_log(l, pools) matches Ok(Some(s)) ==> {
            &&& s.4 > 0
            &&& s.3 == 2
            &&& l.0 == Some(s.2)
            &&& pools.contains_key(s.2)
            &&& pools[s.2] matches PoolKind::UniswapV2Pool { token_a, token_b }
                && ((s.0 == token_a && s.1 == token_b) || (s.0 == token_b && s.1 == token_a))
        },
{
}

/// The swaps reported by the first `n` events, or the first decoding error.
pub open spec fn swaps_of_logs(
    ls: Seq<(Option<Address>, Option<Seq<B256>>, Option<Seq<u8>>)>,
    n: int,
    pools: Map<Address, PoolKind>,
) -> Result<Seq<(Address, Address, Address, u8, nat)>, SwapDecodeError>
    decreases n,
{
    if n <= 0 || n > ls.len() {
        Ok(Seq::empty())
    } else {
        match swaps_of_logs(ls, n - 1, pools) {
            Err(e) => Err(e),
            Ok(prev) => match swap_of_log(ls[n - 1], pools) {
                Err(e) => Err(e),
                Ok(Some(s)) => Ok(prev.push(s)),
                Ok(None) => Ok(prev),
            },
        }
    }
}

proof fn lemma_swaps_error_sticks(
    ls: Seq<(Option<Address>, Option<Seq<B256>>, Option<Seq<u8>>)>,
    n: int,
    m: int,
    pools: Map<Address, PoolKind>,
)
    requires
        0 < n <= m <= ls.len(),
        swaps_of_logs(ls, n, pools) is Err,
    ensures
        swaps_of_logs(ls, m, pools) == swaps_of_logs(ls, n, pools),
    decreases m - n,
{
    if m > n {
        lemma_swaps_error_sticks(ls, n, m - 1, pools);
    }
}

pub open spec fn swaps_view(v: Seq<SwapInfo>) -> Seq<(Address, Address, Address, u8, nat)> {
    v.map_values(|s: SwapInfo| s@)
}

/// The swaps reported by the events of the traced call itself (not of its
/// sub-calls), in order; fails on the first malformed `Swap` event.
pub fn extract_swaps(frame: &CallFrame, pools_map: &DashMap<Address, PoolKind>) -> (r: Result<Vec<SwapInfo>, SwapDecodeError>)
    ensures
        match r {
            Ok(v) => swaps_of_logs(crate::call_frame::logs_view(frame.logs@), frame.logs@.len() as int, pool_entries(*pools_map)) == Ok::<
                Seq<(Address, Address, Address, u8, nat)>, SwapDecodeError>(swaps_view(v@)),
            Err(e) => swaps_of_logs(crate::call_frame::logs_view(frame.logs@), frame.logs@.len() as int, pool_entries(*pools_map)) == Err::<
                Seq<(Address, Address, Address, u8, nat)>, SwapDecodeError>(e),
        },
{
    let ghost ls = crate::call_frame::logs_view(frame.logs@);
    let mut swaps: Vec<SwapInfo> = Vec::new();
    let mut i: usize = 0;
    assert(swaps_view(swaps@) =~= Seq::empty());
    while i < frame.logs.len()
        invariant
            i <= frame.logs@.len(),
            ls == crate::call_frame::logs_view(frame.logs@),
            swaps_of_logs(ls, i as int, pool_entries(*pools_map)) == Ok::<Seq<(Address, Address, Address, u8, nat)>, SwapDecodeError>(swaps_view(swaps@)),
        decreases frame.logs@.len() - i,
    {
        let ghost before = swaps@;
        assert(ls[i as int] == frame.logs@[i as int]@);
        match process_log(copy_log(&frame.logs[i]), pools_map) {
            Ok(Some(s)) => {
                swaps.push(s);
                assert(swaps_view(swaps@) =~= swaps_view(before).push(s@));
            },
            Ok(None) => {},
            Err(e) => {
                proof {
                    lemma_swaps_error_sticks(ls, i as int + 1, frame.logs@.len() as int, pool_entries(*pools_map));
                }
                return Err(e);
            },
        }
        i = i + 1;
    }
    Ok(swaps)
}

} // verus!
