//! Arithmetic of `alloy` 256-bit integers (`alloy::primitives::U256`, a `ruint::Uint`).
//!
//! Its operators wrap around modulo 2^256 and panic only on a zero divisor.

use vstd::prelude::*;
use crate::uint::{be_value, u256_modulus, U256};

verus! {

/// `alloy::primitives::U256` `+`: the sum modulo 2^256.
#[verifier::external_body]
pub(crate) fn alloy_add(a: U256, b: U256) -> (r: U256)
    ensures
        r.val() == (a.val() + b.val()) % u256_modulus(),
{
    let x = alloy::primitives::U256::from_limbs([a.l0, a.l1, a.l2, a.l3]) + alloy::primitives::U256::from_limbs([b.l0, b.l1, b.l2, b.l3]);
    let l = x.into_limbs();
    U256 { l0: l[0], l1: l[1], l2: l[2], l3: l[3] }
}

/// `alloy::primitives::U256` `-`: the difference modulo 2^256.
#[verifier::external_body]
pub(crate) fn alloy_sub(a: U256, b: U256) -> (r: U256)
    ensures
        r.val() == (a.val() - b.val() + u256_modulus()) % (u256_modulus() as int),
{
    let x = alloy::primitives::U256::from_limbs([a.l0, a.l1, a.l2, a.l3]) - alloy::primitives::U256::from_limbs([b.l0, b.l1, b.l2, b.l3]);
    let l = x.into_limbs();
    U256 { l0: l[0], l1: l[1], l2: l[2], l3: l[3] }
}

/// `alloy::primitives::U256` `/`: the quotient rounded down; it panics on a zero divisor.
#[verifier::external_body]
pub(crate) fn alloy_div(a: U256, b: U256) -> (r: U256)
    requires
        b.val() != 0,
    ensures
        r.val() == a.val() / b.val(),
{
    let x = alloy::primitives::U256::from_limbs([a.l0, a.l1, a.l2, a.l3]) / alloy::primitives::U256::from_limbs([b.l0, b.l1, b.l2, b.l3]);
    let l = x.into_limbs();
    U256 { l0: l[0], l1: l[1], l2: l[2], l3: l[3] }
}


/// `alloy::primitives::U256::checked_sub`: the difference, or `None` when it would be negative.
#[verifier::external_body]
pub(crate) fn alloy_checked_sub(a: U256, b: U256) -> (r: Option<U256>)
    ensures
        match r {
            Some(d) => b.val() <= a.val() && d.val() == a.val() - b.val(),
            None => a.val() < b.val(),
        },
{
    match alloy::primitives::U256::from_limbs([a.l0, a.l1, a.l2, a.l3]).checked_sub(alloy::primitives::U256::from_limbs([b.l0, b.l1, b.l2, b.l3])) {
        Some(x) => {
            let l = x.into_limbs();
            Some(U256 { l0: l[0], l1: l[1], l2: l[2], l3: l[3] })
        },
        None => None,
    }
}

/// `alloy::primitives::U256::from_be_slice`: the big-endian value of at most 32 bytes
/// (longer slices panic).
#[verifier::external_body]
pub(crate) fn alloy_from_be_slice(bytes: &[u8]) -> (r: U256)
    requires
        bytes@.len() <= 32,
    ensures
        r.val() == be_value(bytes@),
{
    let l = alloy::primitives::U256::from_be_slice(bytes).into_limbs();
    U256 { l0: l[0], l1: l[1], l2: l[2], l3: l[3] }
}

} // verus!
