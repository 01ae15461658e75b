use alloy_sol_types::sol_data::{Address as SolAddress, Array, Uint};
use alloy_sol_types::SolType;
use rustbitrage::address::Address;
use rustbitrage::router::{address_from_bytes, decode_swap_function};
use rustbitrage::uint::U256;

type Long = (Uint<256>, Uint<256>, Array<SolAddress>, SolAddress, Uint<256>);
type Short = (Uint<256>, Array<SolAddress>, SolAddress, Uint<256>);

fn selector(signature: &str) -> Vec<u8> {
    alloy_primitives::keccak256(signature).as_slice()[0..4].to_vec()
}

fn alloy_addr(n: u8) -> alloy_primitives::Address {
    let mut b = [0u8; 20];
    b[0] = 0xAB;
    b[19] = n;
    alloy_primitives::Address::from(b)
}

fn lib_addr(n: u8) -> Address {
    Address { hi: 0xAB00_0000, lo: n as u128 }
}

fn long_call(signature: &str, x: u64, y: u64) -> Vec<u8> {
    let mut input = selector(signature);
    let params = (
        alloy_primitives::U256::from(x),
        alloy_primitives::U256::from(y),
        vec![alloy_addr(1), alloy_addr(2)],
        alloy_addr(9),
        alloy_primitives::U256::from(1_700_000_000u64),
    );
    input.extend(<Long as SolType>::abi_encode_sequence(&params));
    input
}

fn short_call(signature: &str, x: u64) -> Vec<u8> {
    let mut input = selector(signature);
    let params = (alloy_primitives::U256::from(x), vec![alloy_addr(3), alloy_addr(4), alloy_addr(5)], alloy_addr(9), alloy_primitives::U256::from(7u64));
    input.extend(<Short as SolType>::abi_encode_sequence(&params));
    input
}

#[test]
fn selectors_are_the_router_signatures() {
    assert_eq!(selector("swapExactTokensForTokens(uint256,uint256,address[],address,uint256)"), vec![0x38, 0xed, 0x17, 0x39]);
    assert_eq!(selector("swapTokensForExactTokens(uint256,uint256,address[],address,uint256)"), vec![0x88, 0x03, 0xdb, 0xee]);
    assert_eq!(selector("swapExactETHForTokens(uint256,address[],address,uint256)"), vec![0x7f, 0xf3, 0x6a, 0xb5]);
    assert_eq!(selector("swapTokensForExactETH(uint256,uint256,address[],address,uint256)"), vec![0x4a, 0x25, 0xd9, 0x4a]);
    assert_eq!(selector("swapExactTokensForETH(uint256,uint256,address[],address,uint256)"), vec![0x18, 0xcb, 0xaf, 0xe5]);
    assert_eq!(selector("swapETHForExactTokens(uint256,address[],address,uint256)"), vec![0xfb, 0x3b, 0xdb, 0x41]);
}

#[test]
fn exact_input_swaps_take_amount_in() {
    let value = U256::from_u64(999);
    for sig in ["swapExactTokensForTokens(uint256,uint256,address[],address,uint256)", "swapExactTokensForETH(uint256,uint256,address[],address,uint256)"] {
        let s = decode_swap_function(&long_call(sig, 500, 400), value).unwrap();
        assert_eq!(s.amount_in, U256::from_u64(500));
        assert_eq!(s.path, vec![lib_addr(1), lib_addr(2)]);
    }
}

#[test]
fn exact_output_swaps_take_amount_in_max() {
    let value = U256::from_u64(999);
    for sig in ["swapTokensForExactTokens(uint256,uint256,address[],address,uint256)", "swapTokensForExactETH(uint256,uint256,address[],address,uint256)"] {
        let s = decode_swap_function(&long_call(sig, 500, 400), value).unwrap();
        assert_eq!(s.amount_in, U256::from_u64(400));
        assert_eq!(s.path, vec![lib_addr(1), lib_addr(2)]);
    }
}

#[test]
fn ether_swaps_take_the_value_sent() {
    let value = U256::from_u128(3u128 << 70);
    for sig in ["swapExactETHForTokens(uint256,address[],address,uint256)", "swapETHForExactTokens(uint256,address[],address,uint256)"] {
        let s = decode_swap_function(&short_call(sig, 123), value).unwrap();
        assert_eq!(s.amount_in, value);
        assert_eq!(s.path, vec![lib_addr(3), lib_addr(4), lib_addr(5)]);
    }
}

#[test]
fn other_calls_are_not_swaps() {
    let value = U256::from_u64(1);
    assert!(decode_swap_function(&[0x38, 0xed, 0x17], value).is_none());
    assert!(decode_swap_function(&long_call("transfer(address,uint256)", 1, 2), value).is_none());
    // the right selector with parameters that do not decode
    let mut truncated = long_call("swapExactTokensForTokens(uint256,uint256,address[],address,uint256)", 5, 4);
    truncated.truncate(40);
    assert!(decode_swap_function(&truncated, value).is_none());
}

#[test]
fn address_bytes_are_big_endian() {
    let mut b = [0u8; 20];
    for i in 0..20 {
        b[i] = i as u8 + 1;
    }
    let a = address_from_bytes(&b);
    assert_eq!(a.hi, 0x0102_0304);
    assert_eq!(a.lo, 0x0506_0708_090a_0b0c_0d0e_0f10_1112_1314);
}
