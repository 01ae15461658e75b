use std::str::FromStr;

use rustbitrage::address::{Address, AddressMap, B256};
use rustbitrage::constants::{swap_topic, sync_topic, weth_address, SWAP_FUNCTION_SIGNATURE, USDC, WETH, WETH_USDC_PAIR, WETH_VALUE};
use rustbitrage::token::get_token_pair;
use rustbitrage::uint::{I256, U256};

fn address_bytes(a: Address) -> Vec<u8> {
    let mut v = a.hi.to_be_bytes().to_vec();
    v.extend_from_slice(&a.lo.to_be_bytes());
    v
}

fn word_bytes(w: B256) -> Vec<u8> {
    let mut v = w.hi.to_be_bytes().to_vec();
    v.extend_from_slice(&w.lo.to_be_bytes());
    v
}

fn addr(n: u128) -> Address {
    Address { hi: 0, lo: n }
}

#[test]
fn weth_address_spells_the_weth_constant() {
    let parsed = alloy_primitives::Address::from_str(WETH).unwrap();
    assert_eq!(address_bytes(weth_address()), parsed.as_slice().to_vec());
}

#[test]
fn address_constants_parse() {
    assert!(alloy_primitives::Address::from_str(USDC).is_ok());
    assert!(alloy_primitives::Address::from_str(WETH_USDC_PAIR).is_ok());
    assert_eq!(WETH_VALUE, 100_000_000_000_000_000u128);
}

#[test]
fn sync_topic_is_the_event_signature_hash() {
    let h = alloy_primitives::keccak256("Sync(uint112,uint112)");
    assert_eq!(word_bytes(sync_topic()), h.as_slice().to_vec());
}

#[test]
fn swap_topic_is_the_event_signature_hash() {
    let h = alloy_primitives::keccak256("Swap(address,uint256,uint256,uint256,uint256,address)");
    assert_eq!(word_bytes(swap_topic()), h.as_slice().to_vec());
}

#[test]
fn swap_selector_is_the_function_signature_hash() {
    let h = alloy_primitives::keccak256("swap(uint256,uint256,address,bytes)");
    assert_eq!(SWAP_FUNCTION_SIGNATURE.to_vec(), h.as_slice()[0..4].to_vec());
}

#[test]
fn u256_limbs_and_comparisons() {
    let x = U256::from_u128((7u128 << 64) | 9);
    assert_eq!((x.l0, x.l1, x.l2, x.l3), (9, 7, 0, 0));
    let y = U256::from_u64(9);
    assert!(y.lt(&x));
    assert!(!x.lt(&y));
    assert!(!x.lt(&x));
    assert!(x.eq_val(&x));
    assert!(!x.eq_val(&y));
    assert!(U256::zero().is_zero());
    assert!(!y.is_zero());
    let big = U256 { l0: 0, l1: 0, l2: 0, l3: 1 };
    assert!(x.lt(&big));
}

#[test]
fn i256_from_raw_keeps_the_bits() {
    let minus_one = I256::from_raw(U256 { l0: u64::MAX, l1: u64::MAX, l2: u64::MAX, l3: u64::MAX });
    assert_eq!(minus_one.raw.l3, u64::MAX);
    assert!(I256::zero().raw.is_zero());
}

#[test]
fn address_order_is_byte_order() {
    let a = Address { hi: 1, lo: 0 };
    let b = Address { hi: 0, lo: u128::MAX };
    assert!(a.gt(&b));
    assert!(!b.gt(&a));
    assert!(!a.gt(&a));
}

#[test]
fn address_map_insert_get_and_replace() {
    let mut m: AddressMap<u32> = AddressMap::new();
    assert!(!m.contains_key(&addr(1)));
    m.insert(addr(1), 10);
    m.insert(addr(2), 20);
    assert_eq!(m.get(&addr(1)), Some(&10));
    assert_eq!(m.get(&addr(2)), Some(&20));
    assert_eq!(m.get(&addr(3)), None);
    m.insert(addr(1), 11);
    assert_eq!(m.get(&addr(1)), Some(&11));
    assert_eq!(m.entries.len(), 2);
    assert_eq!(m.find(&addr(2)), Some(1));
}

#[test]
fn token_pair_puts_the_greater_first() {
    assert_eq!(get_token_pair(vec![addr(1), addr(2)]), (addr(2), addr(1)));
    assert_eq!(get_token_pair(vec![addr(5), addr(2), addr(9)]), (addr(5), addr(2)));
    assert_eq!(get_token_pair(vec![addr(4), addr(4)]), (addr(4), addr(4)));
}
