//! Recognising the Uniswap V2 router's swap functions in a transaction's calldata.
//!
//! The six functions are told apart by their 4-byte selector; their
//! parameters are ABI-decoded by `alloy-sol-types`.

use vstd::prelude::*;
use alloy_sol_types::sol_data::{Address as SolAddress, Array, Uint};
use alloy_sol_types::SolType;
use crate::address::Address;
use crate::uint::{be_value, U256};

verus! {

/// A swap through the router: the token path and the most it may sell.
#[derive(Debug)]
pub struct RouterSwap {
    pub path: Vec<Address>,
    pub amount_in: U256,
}

impl RouterSwap {
    pub open spec fn view(&self) -> (Seq<Address>, nat) {
        (self.path@, self.amount_in.val())
    }
}

/// The number four 64-bit limbs (least significant first) stand for.
pub open spec fn limbs_value(l: [u64; 4]) -> nat {
    (l[0] + l[1] * 0x1_0000_0000_0000_0000int + l[2] * 0x1_0000_0000_0000_0000_0000_0000_0000_0000int
        + l[3] * 0x1_0000_0000_0000_0000_0000_0000_0000_0000_0000_0000_0000_0000int) as nat
}

/// The address 20 bytes spell: the first 4 and the other 16, each big-endian.
pub open spec fn address_of_bytes(b: Seq<u8>) -> Address {
    Address { hi: be_value(b.take(4)) as u32, lo: be_value(b.subrange(4, 20)) as u128 }
}

/// The parameters `(uint256, uint256, address[], address, uint256)` ABI-decoded
/// without validation: the two numbers and the path's addresses as bytes.
pub uninterp spec fn long_params(data: Seq<u8>) -> Option<(nat, nat, Seq<Seq<u8>>)>;

/// The same parameters decoded with validation.
pub uninterp spec fn long_params_checked(data: Seq<u8>) -> Option<(nat, nat, Seq<Seq<u8>>)>;

/// The parameters `(uint256, address[], address, uint256)` decoded with
/// validation: the number and the path's addresses as bytes.
pub uninterp spec fn short_params_checked(data: Seq<u8>) -> Option<(nat, Seq<Seq<u8>>)>;

pub open spec fn paths_bytes(v: Seq<[u8; 20]>) -> Seq<Seq<u8>> {
    v.map_values(|a: [u8; 20]| a@)
}

/// `SolType::abi_decode_sequence` on `(uint256, uint256, address[], address, uint256)`.
#[verifier::external_body]
fn decode_long_params(data: &[u8]) -> (r: Option<([u64; 4], [u64; 4], Vec<[u8; 20]>)>)
    ensures
        match r {
            Some((x, y, p)) => long_params(data@) == Some((limbs_value(x), limbs_value(y), paths_bytes(p@))),
            None => long_params(data@) is None,
        },
{
    match <(Uint<256>, Uint<256>, Array<SolAddress>, SolAddress, Uint<256>) as SolType>::abi_decode_sequence(data) {
        Ok((x, y, path, _, _)) => Some((x.into_limbs(), y.into_limbs(), path.iter().map(|a| a.0.0).collect())),
        Err(_) => None,
    }
}

/// `SolType::abi_decode_sequence_validate` on `(uint256, uint256, address[], address, uint256)`.
#[verifier::external_body]
fn decode_long_params_checked(data: &[u8]) -> (r: Option<([u64; 4], [u64; 4], Vec<[u8; 20]>)>)
    ensures
        match r {
            Some((x, y, p)) => long_params_checked(data@) == Some((limbs_value(x), limbs_value(y), paths_bytes(p@))),
            None => long_params_checked(data@) is None,
        },
{
    match <(Uint<256>, Uint<256>, Array<SolAddress>, SolAddress, Uint<256>) as SolType>::abi_decode_sequence_validate(data) {
        Ok((x, y, path, _, _)) => Some((x.into_limbs(), y.into_limbs(), path.iter().map(|a| a.0.0).collect())),
        Err(_) => None,
    }
}

/// `SolType::abi_decode_sequence_validate` on `(uint256, address[], address, uint256)`.
#[verifier::external_body]
fn decode_short_params_checked(data: &[u8]) -> (r: Option<([u64; 4], Vec<[u8; 20]>)>)
    ensures
        match r {
            Some((x, p)) => short_params_checked(data@) == Some((limbs_value(x), paths_bytes(p@))),
            None => short_params_checked(data@) is None,
        },
{
    match <(Uint<256>, Array<SolAddress>, SolAddress, Uint<256>) as SolType>::abi_decode_sequence_validate(data) {
        Ok((x, path, _, _)) => Some((x.into_limbs(), path.iter().map(|a| a.0.0).collect())),
        Err(_) => None,
    }
}

/// `input` starts with the selector `s`.
pub open spec fn has_selector(input: Seq<u8>, s: Seq<u8>) -> bool {
    input.len() >= 4 && input.take(4) == s
}

pub open spec fn swap_exact_tokens_for_tokens() -> Seq<u8> { seq![0x38u8, 0xed, 0x17, 0x39] }
pub open spec fn swap_tokens_for_exact_tokens() -> Seq<u8> { seq![0x88u8, 0x03, 0xdb, 0xee] }
pub open spec fn swap_exact_eth_for_tokens() -> Seq<u8> { seq![0x7fu8, 0xf3, 0x6a, 0xb5] }
pub open spec fn swap_tokens_for_exact_eth() -> Seq<u8> { seq![0x4au8, 0x25, 0xd9, 0x4a] }
pub open spec fn swap_exact_tokens_for_eth() -> Seq<u8> { seq![0x18u8, 0xcb, 0xaf, 0xe5] }
pub open spec fn swap_eth_for_exact_tokens() -> Seq<u8> { seq![0xfbu8, 0x3b, 0xdb, 0x41] }

/// The path as addresses.
pub open spec fn path_of(p: Seq<Seq<u8>>) -> Seq<Address> {
    p.map_values(|b: Seq<u8>| address_of_bytes(b))
}

/// The swap a router call makes, trying the functions in this order:
/// `swapExactTokensForTokens` (its `amountIn`; parameters not validated),
/// `swapTokensForExactTokens` (`amountInMax`), `swapExactETHForTokens` (the
/// value sent), `swapTokensForExactETH` (`amountInMax`),
/// `swapExactTokensForETH` (`amountIn`), `swapETHForExactTokens` (the value
/// sent); `None` when the selector is none of them or the parameters do not decode.
pub open spec fn router_swap_of(input: Seq<u8>, value: nat) -> Option<(Seq<Address>, nat)> {
    let data = input.skip(4);
    if has_selector(input, swap_exact_tokens_for_tokens()) {
        match long_params(data) { Some((a, _, p)) => Some((path_of(p), a)), None => None }
    } else if has_selector(input, swap_tokens_for_exact_tokens()) {
        match long_params_checked(data) { Some((_, m, p)) => Some((path_of(p), m)), None => None }
    } else if has_selector(input, swap_exact_eth_for_tokens()) {
        match short_params_checked(data) { Some((_, p)) => Some((path_of(p), value)), None => None }
    } else if has_selector(input, swap_tokens_for_exact_eth()) {
        match long_params_checked(data) { Some((_, m, p)) => Some((path_of(p), m)), None => None }
    } else if has_selector(input, swap_exact_tokens_for_eth()) {
        match long_params_checked(data) { Some((a, _, p)) => Some((path_of(p), a)), None => None }
    } else if has_selector(input, swap_eth_for_exact_tokens()) {
        match short_params_checked(data) { Some((_, p)) => Some((path_of(p), value)), None => None }
    } else {
        None
    }
}

pub open spec fn router_swap_view(r: Option<RouterSwap>) -> Option<(Seq<Address>, nat)> {
    match r {
        Some(s) => Some(s@),
        None => None,
    }
}

/// 256^n
pub open spec fn pow256(n: nat) -> nat
    decreases n,
{
    if n == 0 { 1 } else { 256 * pow256((n - 1) as nat) }
}

proof fn lemma_be_value_bound(s: Seq<u8>)
    ensures
        be_value(s) < pow256(s.len()),
    decreases s.len(),
{
    if s.len() > 0 {
        lemma_be_value_bound(s.drop_last());
        let v = be_value(s.drop_last());
        let p = pow256(s.drop_last().len());
        assert(v * 256 + s.last() < p * 256) by (nonlinear_arith)
            requires v < p, s.last() < 256;
    }
}

fn starts_with(input: &[u8], s0: u8, s1: u8, s2: u8, s3: u8) -> (r: bool)
    ensures
        r == has_selector(input@, seq![s0, s1, s2, s3]),
{
    if input.len() < 4 {
        return false;
    }
    let r = input[0] == s0 && input[1] == s1 && input[2] == s2 && input[3] == s3;
    assert(r == (input@.take(4) =~= seq![s0, s1, s2, s3]));
    r
}

/// The address 20 bytes spell.
pub fn address_from_bytes(b: &[u8; 20]) -> (r: Address)
    ensures
        r == address_of_bytes(b@),
{
    let mut hi: u32 = 0;
    let mut i: usize = 0;
    while i < 4
        invariant
            i <= 4,
            b@.len() == 20,
            hi == be_value(b@.take(i as int)),
        decreases 4 - i,
    {
        proof {
            lemma_be_value_bound(b@.take(i as int));
            reveal_with_fuel(pow256, 4);
            assert(b@.take(i + 1).drop_last() =~= b@.take(i as int));
        }
        hi = hi * 256 + b[i] as u32;
        i = i + 1;
    }
    let mut lo: u128 = 0;
    while i < 20
        invariant
            4 <= i <= 20,
            b@.len() == 20,
            lo == be_value(b@.subrange(4, i as int)),
        decreases 20 - i,
    {
        proof {
            lemma_be_value_bound(b@.subrange(4, i as int));
            reveal_with_fuel(pow256, 16);
            assert(b@.subrange(4, i + 1).drop_last() =~= b@.subrange(4, i as int));
        }
        lo = lo * 256 + b[i] as u128;
        i = i + 1;
    }
    Address { hi, lo }
}

fn addresses_from_bytes(v: &Vec<[u8; 20]>) -> (r: Vec<Address>)
    ensures
        r@ == path_of(paths_bytes(v@)),
{
    let mut r: Vec<Address> = Vec::new();
    let mut i: usize = 0;
    while i < v.len()
        invariant
            i <= v@.len(),
            r@ == path_of(paths_bytes(v@.take(i as int))),
        decreases v@.len() - i,
    {
        let a = address_from_bytes(&v[i]);
        r.push(a);
        i = i + 1;
        proof {
            assert(r@ =~= path_of(paths_bytes(v@.take(i as int))));
        }
    }
    assert(v@.take(i as int) =~= v@);
    r
}

fn u256_of(l: [u64; 4]) -> (r: U256)
    ensures
        r.val() == limbs_value(l),
{
    U256 { l0: l[0], l1: l[1], l2: l[2], l3: l[3] }
}

/// The swap that a call of the router makes (see `router_swap_of`): its token
/// path and the most it may sell, which is `value` (the ether sent) for the
/// functions that sell ether.
pub fn decode_swap_function(input: &[u8], value: U256) -> (r: Option<RouterSwap>)
    ensures
        router_swap_view(r) == router_swap_of(input@, value.val()),
{
    if input.len() < 4 {
        return None;
    }
    let data = &input[4..input.len()];
    assert(data@ == input@.skip(4));
    if starts_with(input, 0x38, 0xed, 0x17, 0x39) {
        match decode_long_params(data) {
            Some((a, _, p)) => Some(RouterSwap { path: addresses_from_bytes(&p), amount_in: u256_of(a) }),
            None => None,
        }
    } else if starts_with(input, 0x88, 0x03, 0xdb, 0xee) {
        match decode_long_params_checked(data) {
            Some((_, m, p)) => Some(RouterSwap { path: addresses_from_bytes(&p), amount_in: u256_of(m) }),
            None => None,
        }
    } else if starts_with(input, 0x7f, 0xf3, 0x6a, 0xb5) {
        match decode_short_params_checked(data) {
            Some((_, p)) => Some(RouterSwap { path: addresses_from_bytes(&p), amount_in: value }),
            None => None,
        }
    } else if starts_with(input, 0x4a, 0x25, 0xd9, 0x4a) {
        match decode_long_params_checked(data) {
            Some((_, m, p)) => Some(RouterSwap { path: addresses_from_bytes(&p), amount_in: u256_of(m) }),
            None => None,
        }
    } else if starts_with(input, 0x18, 0xcb, 0xaf, 0xe5) {
        match decode_long_params_checked(data) {
            Some((a, _, p)) => Some(RouterSwap { path: addresses_from_bytes(&p), amount_in: u256_of(a) }),
            None => None,
        }
    } else if starts_with(input, 0xfb, 0x3b, 0xdb, 0x41) {
        match decode_short_params_checked(data) {
            Some((_, p)) => Some(RouterSwap { path: addresses_from_bytes(&p), amount_in: value }),
            None => None,
        }
    } else {
        None
    }
}

} // verus!
