//! Arithmetic of `ethers` 256-bit integers (`ethers_core::types::{U256, I256}`).
//!
//! `U256`'s `+`, `-` and `*` panic on overflow and `/` panics on a zero
//! divisor, so those wrappers require that neither happens; the saturating
//! operations clamp at 0 and 2^256 - 1.

use vstd::prelude::*;
use crate::uint::{be_value, clamp_i256, u256_max, I256, U256};

verus! {

/// `ethers_core::types::U256` `+`: the exact sum, which must fit.
#[verifier::external_body]
pub(crate) fn eth_add(a: U256, b: U256) -> (r: U256)
    requires
        a.val() + b.val() <= u256_max(),
    ensures
        r.val() == a.val() + b.val(),
{
    let x = ethers_core::types::U256([a.l0, a.l1, a.l2, a.l3]) + ethers_core::types::U256([b.l0, b.l1, b.l2, b.l3]);
    U256 { l0: x.0[0], l1: x.0[1], l2: x.0[2], l3: x.0[3] }
}

/// `ethers_core::types::U256` `-`: the exact difference, which must not be negative.
#[verifier::external_body]
pub(crate) fn eth_sub(a: U256, b: U256) -> (r: U256)
    requires
        b.val() <= a.val(),
    ensures
        r.val() == a.val() - b.val(),
{
    let x = ethers_core::types::U256([a.l0, a.l1, a.l2, a.l3]) - ethers_core::types::U256([b.l0, b.l1, b.l2, b.l3]);
    U256 { l0: x.0[0], l1: x.0[1], l2: x.0[2], l3: x.0[3] }
}

/// `ethers_core::types::U256` `*`: the exact product, which must fit.
#[verifier::external_body]
pub(crate) fn eth_mul(a: U256, b: U256) -> (r: U256)
    requires
        a.val() * b.val() <= u256_max(),
    ensures
        r.val() == a.val() * b.val(),
{
    let x = ethers_core::types::U256([a.l0, a.l1, a.l2, a.l3]) * ethers_core::types::U256([b.l0, b.l1, b.l2, b.l3]);
    U256 { l0: x.0[0], l1: x.0[1], l2: x.0[2], l3: x.0[3] }
}

/// `ethers_core::types::U256` `/`: the quotient rounded down; the divisor must not be zero.
#[verifier::external_body]
pub(crate) fn eth_div(a: U256, b: U256) -> (r: U256)
    requires
        b.val() != 0,
    ensures
        r.val() == a.val() / b.val(),
{
    let x = ethers_core::types::U256([a.l0, a.l1, a.l2, a.l3]) / ethers_core::types::U256([b.l0, b.l1, b.l2, b.l3]);
    U256 { l0: x.0[0], l1: x.0[1], l2: x.0[2], l3: x.0[3] }
}

/// `ethers_core::types::U256::saturating_mul`: the product, or 2^256 - 1 when it does not fit.
#[verifier::external_body]
pub(crate) fn eth_saturating_mul(a: U256, b: U256) -> (r: U256)
    ensures
        r.val() == (if a.val() * b.val() <= u256_max() { a.val() * b.val() } else { u256_max() }),
{
    let x = ethers_core::types::U256([a.l0, a.l1, a.l2, a.l3]).saturating_mul(ethers_core::types::U256([b.l0, b.l1, b.l2, b.l3]));
    U256 { l0: x.0[0], l1: x.0[1], l2: x.0[2], l3: x.0[3] }
}

/// `ethers_core::types::U256::saturating_add`: the sum, or 2^256 - 1 when it does not fit.
#[verifier::external_body]
pub(crate) fn eth_saturating_add(a: U256, b: U256) -> (r: U256)
    ensures
        r.val() == (if a.val() + b.val() <= u256_max() { a.val() + b.val() } else { u256_max() }),
{
    let x = ethers_core::types::U256([a.l0, a.l1, a.l2, a.l3]).saturating_add(ethers_core::types::U256([b.l0, b.l1, b.l2, b.l3]));
    U256 { l0: x.0[0], l1: x.0[1], l2: x.0[2], l3: x.0[3] }
}

/// `ethers_core::types::U256::saturating_sub`: the difference, or 0 when it would be negative.
#[verifier::external_body]
pub(crate) fn eth_saturating_sub(a: U256, b: U256) -> (r: U256)
    ensures
        r.val() == (if b.val() <= a.val() { a.val() - b.val() } else { 0 }),
{
    let x = ethers_core::types::U256([a.l0, a.l1, a.l2, a.l3]).saturating_sub(ethers_core::types::U256([b.l0, b.l1, b.l2, b.l3]));
    U256 { l0: x.0[0], l1: x.0[1], l2: x.0[2], l3: x.0[3] }
}

/// `ethers_core::types::U256::from_big_endian`: the big-endian value of at most 32 bytes
/// (it asserts the length).
#[verifier::external_body]
pub(crate) fn eth_from_big_endian(bytes: &[u8]) -> (r: U256)
    requires
        bytes@.len() <= 32,
    ensures
        r.val() == be_value(bytes@),
{
    let x = ethers_core::types::U256::from_big_endian(bytes);
    U256 { l0: x.0[0], l1: x.0[1], l2: x.0[2], l3: x.0[3] }
}

/// `ethers_core::types::I256::saturating_sub`: the difference clamped into the signed range.
#[verifier::external_body]
pub(crate) fn eth_i256_saturating_sub(a: I256, b: I256) -> (r: I256)
    ensures
        r.sval() == clamp_i256(a.sval() - b.sval()),
{
    let p = a.raw;
    let q = b.raw;
    let x = ethers_core::types::I256::from_raw(ethers_core::types::U256([p.l0, p.l1, p.l2, p.l3]))
        .saturating_sub(ethers_core::types::I256::from_raw(ethers_core::types::U256([q.l0, q.l1, q.l2, q.l3])))
        .into_raw();
    I256 { raw: U256 { l0: x.0[0], l1: x.0[1], l2: x.0[2], l3: x.0[3] } }
}

/// `ethers_core::types::I256` `<`: signed comparison.
#[verifier::external_body]
pub(crate) fn eth_i256_lt(a: I256, b: I256) -> (r: bool)
    ensures
        r == (a.sval() < b.sval()),
{
    let p = a.raw;
    let q = b.raw;
    ethers_core::types::I256::from_raw(ethers_core::types::U256([p.l0, p.l1, p.l2, p.l3]))
        < ethers_core::types::I256::from_raw(ethers_core::types::U256([q.l0, q.l1, q.l2, q.l3]))
}

} // verus!
