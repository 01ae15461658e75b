//! Ordering of a token pair.

use vstd::prelude::*;
use crate::address::Address;

verus! {

/// The first two tokens, the greater (byte-wise) first.
pub fn get_token_pair(tokens: Vec<Address>) -> (r: (Address, Address))
    requires
        tokens@.len() >= 2,
    ensures
        if tokens@[1].val() > tokens@[0].val() {
            r == (tokens@[1], tokens@[0])
        } else {
            r == (tokens@[0], tokens@[1])
        },
{
    let mut token0 = tokens[0];
    let mut token1 = tokens[1];
    if token1.gt(&token0) {
        let temp = token0;
        token0 = token1;
        token1 = temp;
    }
    (token0, token1)
}

/// Law: the pair comes out in descending order and holds the same two tokens.
pub proof fn lemma_token_pair_ordered(a: Address, b: Address)
    ensures
        ({
            let r = if b.val() > a.val() { (b, a) } else { (a, b) };
            &&& r.0.val() >= r.1.val()
            &&& (r == (a, b) || r == (b, a))
        }),
{
}

} // verus!
