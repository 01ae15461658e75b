//! Plain 256-bit integers as four little-endian 64-bit limbs.
//!
//! The arithmetic on them is done by the Ethereum libraries (see
//! `ethers_math` and `alloy_math`); this module holds the representation,
//! its mathematical value, and the comparisons and constants that are
//! direct consequences of that value.

use vstd::prelude::*;

verus! {

/// 2^64
pub open spec fn limb_base() -> nat {
    0x1_0000_0000_0000_0000nat
}

/// 2^256
pub open spec fn u256_modulus() -> nat {
    0x1_0000_0000_0000_0000_0000_0000_0000_0000_0000_0000_0000_0000_0000_0000_0000_0000nat
}

/// 2^255, the bound of the non-negative two's complement values.
pub open spec fn i256_half() -> nat {
    0x8000_0000_0000_0000_0000_0000_0000_0000_0000_0000_0000_0000_0000_0000_0000_0000nat
}

/// An unsigned 256-bit integer; `l0` is the least significant limb.
#[derive(Clone, Copy, PartialEq, Eq, Structural, Debug)]
pub struct U256 {
    pub l0: u64,
    pub l1: u64,
    pub l2: u64,
    pub l3: u64,
}

impl U256 {
    /// The number this value stands for.
    pub open spec fn val(self) -> nat {
        (self.l0 + self.l1 * 0x1_0000_0000_0000_0000int
            + self.l2 * 0x1_0000_0000_0000_0000_0000_0000_0000_0000int
            + self.l3 * 0x1_0000_0000_0000_0000_0000_0000_0000_0000_0000_0000_0000_0000int) as nat
    }

    pub fn zero() -> (r: U256)
        ensures
            r.val() == 0,
    {
        U256 { l0: 0, l1: 0, l2: 0, l3: 0 }
    }

    pub fn from_u64(x: u64) -> (r: U256)
        ensures
            r.val() == x,
    {
        U256 { l0: x, l1: 0, l2: 0, l3: 0 }
    }

    pub fn from_u128(x: u128) -> (r: U256)
        ensures
            r.val() == x,
    {
        let lo = (x % 0x1_0000_0000_0000_0000u128) as u64;
        let hi = (x / 0x1_0000_0000_0000_0000u128) as u64;
        U256 { l0: lo, l1: hi, l2: 0, l3: 0 }
    }

    pub fn is_zero(&self) -> (r: bool)
        ensures
            r == (self.val() == 0),
    {
        self.l0 == 0 && self.l1 == 0 && self.l2 == 0 && self.l3 == 0
    }

    pub fn lt(&self, other: &U256) -> (r: bool)
        ensures
            r == (self.val() < other.val()),
    {
        if self.l3 != other.l3 {
            self.l3 < other.l3
        } else if self.l2 != other.l2 {
            self.l2 < other.l2
        } else if self.l1 != other.l1 {
            self.l1 < other.l1
        } else {
            self.l0 < other.l0
        }
    }

    pub fn eq_val(&self, other: &U256) -> (r: bool)
        ensures
            r == (self.val() == other.val()),
    {
        self.l0 == other.l0 && self.l1 == other.l1 && self.l2 == other.l2 && self.l3 == other.l3
    }
}

/// The largest value of a `U256`, 2^256 - 1.
pub open spec fn u256_max() -> nat {
    (u256_modulus() - 1) as nat
}

/// Big-endian value of a byte string.
pub open spec fn be_value(s: Seq<u8>) -> nat
    decreases s.len(),
{
    if s.len() == 0 {
        0
    } else {
        be_value(s.drop_last()) * 256 + s.last() as nat
    }
}

/// The value `x` clamped into the range of a signed 256-bit integer.
pub open spec fn clamp_i256(x: int) -> int {
    if x < -i256_half() {
        -i256_half()
    } else if x >= i256_half() {
        i256_half() - 1
    } else {
        x
    }
}

/// A signed 256-bit integer in two's complement, stored as its raw bits.
#[derive(Clone, Copy, PartialEq, Eq, Structural, Debug)]
pub struct I256 {
    pub raw: U256,
}

impl I256 {
    /// The signed number these bits stand for.
    pub open spec fn sval(self) -> int {
        if self.raw.val() < i256_half() {
            self.raw.val() as int
        } else {
            self.raw.val() - u256_modulus()
        }
    }

    /// Reinterprets unsigned bits as a signed value: values of 2^255 and
    /// more become negative.
    pub fn from_raw(raw: U256) -> (r: I256)
        ensures
            r.raw == raw,
            r.sval() == (if raw.val() < i256_half() { raw.val() as int } else { raw.val() - u256_modulus() }),
    {
        I256 { raw }
    }

    pub fn zero() -> (r: I256)
        ensures
            r.sval() == 0,
    {
        I256 { raw: U256::zero() }
    }
}

} // verus!
