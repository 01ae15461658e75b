//! Profit of a cycle of constant-product swaps and the search for the best input.

use vstd::prelude::*;
use std::collections::HashMap;
use crate::address::Address;
use crate::ethers_math::{eth_add, eth_div, eth_i256_saturating_sub, eth_mul, eth_saturating_add, eth_saturating_mul, eth_saturating_sub, eth_sub};
use crate::address::{AddressMap, B256};
use crate::call_frame::{logs_view, CallLog};
use crate::ethers_math::eth_from_big_endian;
use crate::uint::be_value;
use crate::constants::{weth_address, weth_spec};
use crate::ethers_math::eth_i256_lt;
use crate::pool_mapper::{cycles_of, cycles_view, Cycle, IndexedPair, Mapping};
use crate::types::UniV2Pool;
use crate::uint::{clamp_i256, i256_half, u256_max, u256_modulus, I256, U256};

verus! {

pub open spec fn sat_mul(a: nat, b: nat) -> nat {
    if a * b <= u256_max() { a * b } else { u256_max() }
}

pub open spec fn sat_add(a: nat, b: nat) -> nat {
    if a + b <= u256_max() { a + b } else { u256_max() }
}

pub open spec fn sat_sub(a: nat, b: nat) -> nat {
    if b <= a { (a - b) as nat } else { 0 }
}

/// The signed value of 256 bits read in two's complement.
pub open spec fn signed(x: nat) -> int {
    if x < i256_half() { x as int } else { x - u256_modulus() }
}

/// The denominator of the constant-product output: `10000 * reserve_in + amount_in * router_fee`.
pub open spec fn amount_out_denominator(a_in: nat, r_in: nat, router_fee: nat) -> nat {
    sat_add(sat_mul(10000, r_in), sat_mul(a_in, router_fee))
}

/// Output before the token tax: `amount_in * router_fee * reserve_out / denominator`.
pub open spec fn amount_out_gross(a_in: nat, r_in: nat, r_out: nat, router_fee: nat) -> nat {
    sat_mul(sat_mul(a_in, router_fee), r_out) / amount_out_denominator(a_in, r_in, router_fee)
}

/// The constant-product output of selling `a_in` into a pair, less the
/// token tax `fees` (in basis points); zero for a zero input.
pub open spec fn amount_out(a_in: nat, r_in: nat, r_out: nat, fees: nat, router_fee: nat) -> nat {
    if a_in == 0 {
        0
    } else {
        let g = amount_out_gross(a_in, r_in, r_out, router_fee);
        (g - sat_mul(g, fees) / 10000) as nat
    }
}

/// The output can be computed: the denominator is not zero and the tax does not exceed the output.
pub open spec fn amount_out_defined(a_in: nat, r_in: nat, r_out: nat, fees: nat, router_fee: nat) -> bool {
    a_in == 0 || (amount_out_denominator(a_in, r_in, router_fee) != 0
        && sat_mul(amount_out_gross(a_in, r_in, r_out, router_fee), fees) / 10000
            <= amount_out_gross(a_in, r_in, r_out, router_fee))
}

/// One swap through `p` of `amount` of `token`, with the pair's own reserves:
/// the token received and the amount.
pub open spec fn swap_step(token: Address, amount: nat, p: UniV2Pool) -> (Address, nat) {
    if p.token0 == token {
        (p.token1, amount_out(amount, p.reserve0.val(), p.reserve1.val(), p.fees0.val(), p.router_fee.val()))
    } else {
        (p.token0, amount_out(amount, p.reserve1.val(), p.reserve0.val(), p.fees1.val(), p.router_fee.val()))
    }
}

pub open spec fn swap_step_defined(token: Address, amount: nat, p: UniV2Pool) -> bool {
    if p.token0 == token {
        amount_out_defined(amount, p.reserve0.val(), p.reserve1.val(), p.fees0.val(), p.router_fee.val())
    } else {
        amount_out_defined(amount, p.reserve1.val(), p.reserve0.val(), p.fees1.val(), p.router_fee.val())
    }
}

/// The token and amount after swapping through `pairs` in order.
pub open spec fn swap_chain(token: Address, amount: nat, pairs: Seq<UniV2Pool>) -> (Address, nat)
    decreases pairs.len(),
{
    if pairs.len() == 0 {
        (token, amount)
    } else {
        let prev = swap_chain(token, amount, pairs.drop_last());
        swap_step(prev.0, prev.1, pairs.last())
    }
}

pub open spec fn swap_chain_defined(token: Address, amount: nat, pairs: Seq<UniV2Pool>) -> bool
    decreases pairs.len(),
{
    if pairs.len() == 0 {
        true
    } else {
        let prev = swap_chain(token, amount, pairs.drop_last());
        swap_chain_defined(token, amount, pairs.drop_last()) && swap_step_defined(prev.0, prev.1, pairs.last())
    }
}

/// The input followed by the amount after each swap.
pub open spec fn swap_amounts(token: Address, amount: nat, pairs: Seq<UniV2Pool>) -> Seq<nat>
    decreases pairs.len(),
{
    if pairs.len() == 0 {
        seq![amount]
    } else {
        swap_amounts(token, amount, pairs.drop_last()).push(swap_chain(token, amount, pairs).1)
    }
}

/// The flash-loan fee, 0.09% of the amount rounded down.
pub open spec fn flash_loan_fee(amount_in: nat) -> nat {
    amount_in * 9 / 10000
}

/// Profit of the cycle with the pairs' own reserves: output minus input
/// minus flash-loan fee, each step saturating in the signed range.
pub open spec fn profit_with_amount(token: Address, amount_in: nat, pairs: Seq<UniV2Pool>) -> int {
    clamp_i256(clamp_i256(signed(swap_chain(token, amount_in, pairs).1) - signed(amount_in))
        - signed(flash_loan_fee(amount_in)))
}

/// The reserves cached for `p`'s pool index.
pub open spec fn cached_reserves(am: Map<Address, usize>, cache: Map<usize, (U256, U256)>, p: UniV2Pool) -> (nat, nat) {
    (cache[am[p.address]].0.val(), cache[am[p.address]].1.val())
}

/// One swap priced with cached reserves `(r0, r1)`:
/// `amount * (router_fee - tax) * reserve_out / (reserve_in * 10000 + amount * router_fee)`.
pub open spec fn cached_step(token: Address, amount: nat, p: UniV2Pool, r0: nat, r1: nat) -> (Address, nat) {
    let (r_in, r_out, fees) = if p.token0 == token { (r0, r1, p.fees0.val()) } else { (r1, r0, p.fees1.val()) };
    let multiplier = sat_sub(p.router_fee.val(), fees);
    let numerator = sat_mul(sat_mul(amount, multiplier), r_out);
    let denominator = sat_add(sat_mul(r_in, 10000), sat_mul(amount, p.router_fee.val()));
    (if p.token0 == token { p.token1 } else { p.token0 }, numerator / denominator)
}

pub open spec fn cached_step_denominator(token: Address, amount: nat, p: UniV2Pool, r0: nat, r1: nat) -> nat {
    let r_in = if p.token0 == token { r0 } else { r1 };
    sat_add(sat_mul(r_in, 10000), sat_mul(amount, p.router_fee.val()))
}

/// The token and amount after swapping through `pairs` with cached reserves.
pub open spec fn cached_chain(
    token: Address,
    amount: nat,
    pairs: Seq<UniV2Pool>,
    am: Map<Address, usize>,
    cache: Map<usize, (U256, U256)>,
) -> (Address, nat)
    decreases pairs.len(),
{
    if pairs.len() == 0 {
        (token, amount)
    } else {
        let prev = cached_chain(token, amount, pairs.drop_last(), am, cache);
        let r = cached_reserves(am, cache, pairs.last());
        cached_step(prev.0, prev.1, pairs.last(), r.0, r.1)
    }
}

/// Every pair has an index, every index cached reserves, and no step divides by zero.
pub open spec fn cached_chain_defined(
    token: Address,
    amount: nat,
    pairs: Seq<UniV2Pool>,
    am: Map<Address, usize>,
    cache: Map<usize, (U256, U256)>,
) -> bool
    decreases pairs.len(),
{
    if pairs.len() == 0 {
        true
    } else {
        let p = pairs.last();
        let prev = cached_chain(token, amount, pairs.drop_last(), am, cache);
        let r = cached_reserves(am, cache, p);
        &&& cached_chain_defined(token, amount, pairs.drop_last(), am, cache)
        &&& am.contains_key(p.address)
        &&& cache.contains_key(am[p.address])
        &&& cached_step_denominator(prev.0, prev.1, p, r.0, r.1) != 0
    }
}

/// Profit with cached reserves: output minus (input plus flash-loan fee), saturating.
pub open spec fn profit_with_reserves(
    token: Address,
    amount_in: nat,
    pairs: Seq<UniV2Pool>,
    am: Map<Address, usize>,
    cache: Map<usize, (U256, U256)>,
) -> int {
    clamp_i256(signed(cached_chain(token, amount_in, pairs, am, cache).1) - signed(amount_in + flash_loan_fee(amount_in)))
}

/// The profit computation with cached reserves can run on `amount_in`.
pub open spec fn profit_with_reserves_defined(
    token: Address,
    amount_in: nat,
    pairs: Seq<UniV2Pool>,
    am: Map<Address, usize>,
    cache: Map<usize, (U256, U256)>,
) -> bool {
    &&& cached_chain_defined(token, amount_in, pairs, am, cache)
    &&& amount_in * 9 <= u256_max()
    &&& amount_in + flash_loan_fee(amount_in) <= u256_max()
}

/// The search of `maximize_profit` on `[lo, hi]`: while the interval is wider
/// than `delta`, compare `g` at the midpoints of its two halves and keep the
/// half on the side of the larger value (the upper one on ties); the answer
/// is the middle of the final interval.
pub open spec fn ternary_search(lo: nat, hi: nat, delta: nat, g: spec_fn(nat) -> int) -> nat
    decreases hi - lo,
{
    if hi > lo && hi - lo > delta && delta >= 1 {
        let mid = (lo + hi) / 2;
        let lower = (mid + lo) / 2;
        let upper = (mid + hi) / 2;
        if g(lower) > g(upper) {
            ternary_search(lo, mid, delta, g)
        } else {
            ternary_search(mid, hi, delta, g)
        }
    } else {
        (hi + lo) / 2
    }
}

fn keep_searching(domain_min: U256, domain_max: U256, lowest_delta: U256) -> (r: bool)
    ensures
        r == (domain_max.val() > domain_min.val() && domain_max.val() - domain_min.val() > lowest_delta.val()),
{
    if domain_min.lt(&domain_max) {
        lowest_delta.lt(&eth_sub(domain_max, domain_min))
    } else {
        false
    }
}

/// A cycle found profitable: its profit, best input, the amounts along the
/// way and the addresses of its pools.
#[derive(Debug)]
pub struct NetPositiveCycle {
    pub profit: I256,
    pub optimal_in: U256,
    pub swap_amounts: Vec<U256>,
    pub cycle_addresses: Vec<Address>,
}

/// New reserves of a pool, read from its `Sync` event.
#[derive(Clone, Copy, Debug, PartialEq, Eq, Structural)]
pub struct PotentialStateUpdate {
    pub address: Address,
    pub reserve0: U256,
    pub reserve1: U256,
}

impl NetPositiveCycle {
    /// Profit, input, amounts and pool addresses as numbers.
    pub open spec fn summary(self) -> (int, nat, Seq<nat>, Seq<Address>) {
        (self.profit.sval(), self.optimal_in.val(), self.swap_amounts@.map_values(|x: U256| x.val()), self.cycle_addresses@)
    }

    /// Cycles are ordered by profit, the more profitable first.
    pub fn cmp(&self, other: &Self) -> (r: core::cmp::Ordering)
        ensures
            (r == core::cmp::Ordering::Less) == (other.profit.sval() < self.profit.sval()),
            (r == core::cmp::Ordering::Greater) == (self.profit.sval() < other.profit.sval()),
            (r == core::cmp::Ordering::Equal) == (self.profit.sval() == other.profit.sval()),
    {
        if eth_i256_lt(other.profit, self.profit) {
            core::cmp::Ordering::Less
        } else if eth_i256_lt(self.profit, other.profit) {
            core::cmp::Ordering::Greater
        } else {
            core::cmp::Ordering::Equal
        }
    }

    pub fn partial_cmp(&self, other: &Self) -> (r: Option<core::cmp::Ordering>)
        ensures
            r is Some,
            (r == Some(core::cmp::Ordering::Less)) == (other.profit.sval() < self.profit.sval()),
            (r == Some(core::cmp::Ordering::Greater)) == (self.profit.sval() < other.profit.sval()),
            (r == Some(core::cmp::Ordering::Equal)) == (self.profit.sval() == other.profit.sval()),
    {
        Some(self.cmp(other))
    }

    /// Cycles are equal when their profits are.
    pub fn eq(&self, other: &Self) -> (r: bool)
        ensures
            r == (self.profit.sval() == other.profit.sval()),
    {
        self.profit.raw.eq_val(&other.profit.raw)
    }
}

/// The upper end of the input searched, 10^22 wei.
pub open spec fn search_upper() -> nat {
    10000000000000000000000nat
}

/// The pools of a cycle's pairs that have an entry, in order.
pub open spec fn cycle_pools(pm: Map<usize, UniV2Pool>, c: Seq<IndexedPair>) -> Seq<UniV2Pool>
    decreases c.len(),
{
    if c.len() == 0 {
        Seq::empty()
    } else {
        let prev = cycle_pools(pm, c.drop_last());
        if pm.contains_key(c.last().address) {
            prev.push(pm[c.last().address])
        } else {
            prev
        }
    }
}

/// The cycles stored under each of `addrs`, one list after the other.
pub open spec fn flatten_cycles_of(m: AddressMap<Vec<Cycle>>, addrs: Seq<Address>) -> Seq<Seq<IndexedPair>>
    decreases addrs.len(),
{
    if addrs.len() == 0 {
        Seq::empty()
    } else {
        flatten_cycles_of(m, addrs.drop_last()) + cycles_of(m, addrs.last())
    }
}

/// The cycles to evaluate: those through the affected pools, or all of them.
pub open spec fn candidate_cycles(m: Mapping, affected: Option<Seq<Address>>) -> Seq<Seq<IndexedPair>> {
    match affected {
        Some(a) => flatten_cycles_of(m.cycles_mapping, a),
        None => flatten_cycles_of(m.cycles_mapping, m.cycles_mapping.keys()),
    }
}

/// The input the search picks for a cycle's pools, with cached reserves.
pub open spec fn best_input(m: Mapping, cache: Map<usize, (U256, U256)>, pools: Seq<UniV2Pool>) -> nat {
    ternary_search(1, search_upper(), 10, |n: nat| profit_with_reserves(weth_spec(), n, pools, m.address_mapping@, cache))
}

/// A cycle's result: at the best input, its profit with the pools' own
/// reserves; kept when that profit is positive.
pub open spec fn evaluate_cycle(m: Mapping, cache: Map<usize, (U256, U256)>, c: Seq<IndexedPair>)
    -> Option<(int, nat, Seq<nat>, Seq<Address>)> {
    let pools = cycle_pools(m.pairs_mapping@, c);
    let opt = best_input(m, cache, pools);
    let profit = profit_with_amount(weth_spec(), opt, pools);
    if profit > 0 {
        Some((profit, opt, swap_amounts(weth_spec(), opt, pools), pools.map_values(|p: UniV2Pool| p.address)))
    } else {
        None
    }
}

/// The results of the profitable cycles among `cands`, in order.
pub open spec fn profitable_cycles(m: Mapping, cache: Map<usize, (U256, U256)>, cands: Seq<Seq<IndexedPair>>)
    -> Seq<(int, nat, Seq<nat>, Seq<Address>)>
    decreases cands.len(),
{
    if cands.len() == 0 {
        Seq::empty()
    } else {
        let prev = profitable_cycles(m, cache, cands.drop_last());
        match evaluate_cycle(m, cache, cands.last()) {
            Some(x) => prev.push(x),
            None => prev,
        }
    }
}

/// `ok` holds at every input that the search of `ternary_search` evaluates
/// on `[lo, hi]`.
pub open spec fn probes_defined(lo: nat, hi: nat, delta: nat, g: spec_fn(nat) -> int, ok: spec_fn(nat) -> bool) -> bool
    decreases hi - lo,
{
    if hi > lo && hi - lo > delta && delta >= 1 {
        let mid = (lo + hi) / 2;
        let lower = (mid + lo) / 2;
        let upper = (mid + hi) / 2;
        &&& ok(lower)
        &&& ok(upper)
        &&& if g(lower) > g(upper) {
            probes_defined(lo, mid, delta, g, ok)
        } else {
            probes_defined(mid, hi, delta, g, ok)
        }
    } else {
        true
    }
}

/// The sums that `maximize_profit` forms on `[lo, hi]` fit in 256 bits:
/// `lo + hi` (and with it `mid + lo`) at each step and at the end, and
/// `mid + hi` at each step that narrows the interval.
pub open spec fn search_fits(lo: nat, hi: nat, delta: nat, g: spec_fn(nat) -> int) -> bool
    decreases hi - lo,
{
    &&& lo + hi <= u256_max()
    &&& if hi > lo && hi - lo > delta && delta >= 1 {
        let mid = (lo + hi) / 2;
        let lower = (mid + lo) / 2;
        let upper = (mid + hi) / 2;
        &&& mid + hi <= u256_max()
        &&& if g(lower) > g(upper) {
            search_fits(lo, mid, delta, g)
        } else {
            search_fits(mid, hi, delta, g)
        }
    } else {
        true
    }
}

/// The inputs at which `maximize_profit` evaluates its function on
/// `[lo, hi]`, in order: the lower and then the upper probe of each step.
pub open spec fn search_probes(lo: nat, hi: nat, delta: nat, g: spec_fn(nat) -> int) -> Seq<nat>
    decreases hi - lo,
{
    if hi > lo && hi - lo > delta && delta >= 1 {
        let mid = (lo + hi) / 2;
        let lower = (mid + lo) / 2;
        let upper = (mid + hi) / 2;
        seq![lower, upper] + if g(lower) > g(upper) {
            search_probes(lo, mid, delta, g)
        } else {
            search_probes(mid, hi, delta, g)
        }
    } else {
        Seq::empty()
    }
}

/// An interval whose upper end doubled fits in 256 bits can be searched
/// without overflow.
pub proof fn lemma_search_fits(lo: nat, hi: nat, delta: nat, g: spec_fn(nat) -> int)
    requires
        lo <= hi,
        hi + hi <= u256_max(),
    ensures
        search_fits(lo, hi, delta, g),
    decreases hi - lo,
{
    if hi > lo && hi - lo > delta && delta >= 1 {
        let mid = (lo + hi) / 2;
        let lower = (mid + lo) / 2;
        let upper = (mid + hi) / 2;
        if g(lower) > g(upper) {
            lemma_search_fits(lo, mid, delta, g);
        } else {
            lemma_search_fits(mid, hi, delta, g);
        }
    }
}

/// One step of the search on `[lo, hi]`: the sums it forms fit, and the
/// interval it keeps has the same answer, the remaining probes and what is
/// needed to go on.
proof fn lemma_search_step(lo: nat, hi: nat, delta: nat, g: spec_fn(nat) -> int, ok: spec_fn(nat) -> bool, probes: Seq<nat>)
    requires
        hi > lo,
        hi - lo > delta,
        delta >= 1,
        search_fits(lo, hi, delta, g),
        probes_defined(lo, hi, delta, g, ok),
    ensures
        ({
            let mid = (lo + hi) / 2;
            let lower = (mid + lo) / 2;
            let upper = (mid + hi) / 2;
            let (nlo, nhi) = if g(lower) > g(upper) { (lo, mid) } else { (mid, hi) };
            &&& lo + hi <= u256_max()
            &&& mid + hi <= u256_max()
            &&& lo <= mid <= hi
            &&& ok(lower)
            &&& ok(upper)
            &&& search_fits(nlo, nhi, delta, g)
            &&& probes_defined(nlo, nhi, delta, g, ok)
            &&& ternary_search(nlo, nhi, delta, g) == ternary_search(lo, hi, delta, g)
            &&& probes.push(lower).push(upper) + search_probes(nlo, nhi, delta, g) == probes + search_probes(lo, hi, delta, g)
        }),
{
    let mid = (lo + hi) / 2;
    let lower = (mid + lo) / 2;
    let upper = (mid + hi) / 2;
    let (nlo, nhi) = if g(lower) > g(upper) { (lo, mid) } else { (mid, hi) };
    assert(search_probes(lo, hi, delta, g) == seq![lower, upper] + search_probes(nlo, nhi, delta, g));
    assert(probes.push(lower).push(upper) + search_probes(nlo, nhi, delta, g) =~= probes + search_probes(lo, hi, delta, g));
}

/// The profit computations of a cycle can run on every input its search
/// evaluates, and the profit with the pools' own reserves on the input it picks.
pub open spec fn cycle_searchable(m: Mapping, cache: Map<usize, (U256, U256)>, c: Seq<IndexedPair>) -> bool {
    let pools = cycle_pools(m.pairs_mapping@, c);
    &&& probes_defined(1, search_upper(), 10,
        |n: nat| profit_with_reserves(weth_spec(), n, pools, m.address_mapping@, cache),
        |n: nat| profit_with_reserves_defined(weth_spec(), n, pools, m.address_mapping@, cache))
    &&& swap_chain_defined(weth_spec(), best_input(m, cache, pools), pools)
}

/// Where `x` goes among `s`: after the leading results whose profit is at least `x`'s.
pub open spec fn insert_position(s: Seq<(int, nat, Seq<nat>, Seq<Address>)>, x: (int, nat, Seq<nat>, Seq<Address>)) -> nat
    decreases s.len(),
{
    if s.len() == 0 {
        0
    } else if s[0].0 >= x.0 {
        1 + insert_position(s.drop_first(), x)
    } else {
        0
    }
}

/// Stable sort by profit, the most profitable first.
pub open spec fn sort_by_profit(s: Seq<(int, nat, Seq<nat>, Seq<Address>)>) -> Seq<(int, nat, Seq<nat>, Seq<Address>)>
    decreases s.len(),
{
    if s.len() == 0 {
        s
    } else {
        let t = sort_by_profit(s.drop_last());
        t.insert(insert_position(t, s.last()) as int, s.last())
    }
}

proof fn lemma_insert_position_bounds(s: Seq<(int, nat, Seq<nat>, Seq<Address>)>, x: (int, nat, Seq<nat>, Seq<Address>))
    ensures
        insert_position(s, x) <= s.len(),
        forall|j: int| 0 <= j < insert_position(s, x) ==> #[trigger] s[j].0 >= x.0,
        insert_position(s, x) < s.len() ==> s[insert_position(s, x) as int].0 < x.0,
    decreases s.len(),
{
    if s.len() > 0 && s[0].0 >= x.0 {
        lemma_insert_position_bounds(s.drop_first(), x);
        assert forall|j: int| 0 <= j < insert_position(s, x) implies #[trigger] s[j].0 >= x.0 by {
            if j > 0 {
                assert(s[j] == s.drop_first()[j - 1]);
            }
        }
    }
}

/// Law: the ordering used for the results lists the most profitable first
/// and neither loses nor adds a result.
pub proof fn lemma_sort_by_profit(s: Seq<(int, nat, Seq<nat>, Seq<Address>)>)
    ensures
        sort_by_profit(s).len() == s.len(),
        sort_by_profit(s).to_multiset() == s.to_multiset(),
        forall|i: int, j: int| 0 <= i < j < s.len() ==> #[trigger] sort_by_profit(s)[i].0 >= #[trigger] sort_by_profit(s)[j].0,
    decreases s.len(),
{
    broadcast use vstd::seq_lib::to_multiset_insert, vstd::seq_lib::to_multiset_build;
    if s.len() > 0 {
        let x = s.last();
        let t = sort_by_profit(s.drop_last());
        lemma_sort_by_profit(s.drop_last());
        lemma_insert_position_bounds(t, x);
        let p = insert_position(t, x) as int;
        let r = t.insert(p, x);
        assert(s.drop_last().push(x) =~= s);
        assert forall|i: int, j: int| 0 <= i < j < r.len() implies #[trigger] r[i].0 >= #[trigger] r[j].0 by {
            if j < p {
                assert(r[i] == t[i] && r[j] == t[j]);
            } else if j == p {
                assert(r[j] == x);
                assert(r[i] == t[i]);
            } else if i < p {
                assert(r[j] == t[j - 1]);
                assert(r[i] == t[i]);
                assert(t[i].0 >= x.0);
                if p < t.len() {
                    assert(t[p].0 < x.0);
                }
                assert(t[i].0 >= t[j - 1].0);
            } else if i == p {
                assert(r[i] == x);
                assert(r[j] == t[j - 1]);
                assert(t[p].0 < x.0);
                if j - 1 > p {
                    assert(t[p].0 >= t[j - 1].0);
                }
            } else {
                assert(r[i] == t[i - 1] && r[j] == t[j - 1]);
            }
        }
    }
}

proof fn lemma_insert_position(s: Seq<(int, nat, Seq<nat>, Seq<Address>)>, x: (int, nat, Seq<nat>, Seq<Address>), k: int)
    requires
        0 <= k <= s.len(),
        forall|j: int| 0 <= j < k ==> s[j].0 >= x.0,
        k < s.len() ==> s[k].0 < x.0,
    ensures
        insert_position(s, x) == k,
    decreases s.len(),
{
    if s.len() > 0 && k > 0 {
        lemma_insert_position(s.drop_first(), x, k - 1);
    }
}

proof fn lemma_profitable_cycles_members(m: Mapping, cache: Map<usize, (U256, U256)>, cands: Seq<Seq<IndexedPair>>)
    ensures
        forall|i: int| 0 <= i < profitable_cycles(m, cache, cands).len() ==> {
            &&& (#[trigger] profitable_cycles(m, cache, cands)[i]).0 > 0
            &&& exists|k: int| 0 <= k < cands.len() && evaluate_cycle(m, cache, #[trigger] cands[k]) == Some(profitable_cycles(m, cache, cands)[i])
        },
    decreases cands.len(),
{
    if cands.len() > 0 {
        let prev = cands.drop_last();
        lemma_profitable_cycles_members(m, cache, prev);
        let p = profitable_cycles(m, cache, cands);
        let q = profitable_cycles(m, cache, prev);
        assert forall|i: int| 0 <= i < p.len() implies {
            &&& (#[trigger] p[i]).0 > 0
            &&& exists|k: int| 0 <= k < cands.len() && evaluate_cycle(m, cache, #[trigger] cands[k]) == Some(p[i])
        } by {
            if i < q.len() {
                assert(p[i] == q[i]);
                let k = choose|k: int| 0 <= k < prev.len() && evaluate_cycle(m, cache, #[trigger] prev[k]) == Some(q[i]);
                assert(cands[k] == prev[k]);
            } else {
                let last = cands.len() - 1;
                assert(cands[last] == cands.last());
                assert(evaluate_cycle(m, cache, cands[last]) == Some(p[i]));
            }
        }
    }
}

proof fn lemma_flatten_contains(cm: AddressMap<Vec<Cycle>>, addrs: Seq<Address>)
    ensures
        forall|i: int, k: int| 0 <= i < addrs.len() && 0 <= k < cycles_of(cm, addrs[i]).len()
            ==> flatten_cycles_of(cm, addrs).contains(#[trigger] cycles_of(cm, addrs[i])[k]),
    decreases addrs.len(),
{
    if addrs.len() > 0 {
        let prev = addrs.drop_last();
        lemma_flatten_contains(cm, prev);
        let head = flatten_cycles_of(cm, prev);
        let tail = cycles_of(cm, addrs.last());
        assert(flatten_cycles_of(cm, addrs) == head + tail);
        assert forall|i: int, k: int| 0 <= i < addrs.len() && 0 <= k < cycles_of(cm, addrs[i]).len()
            implies flatten_cycles_of(cm, addrs).contains(#[trigger] cycles_of(cm, addrs[i])[k]) by {
            let c = cycles_of(cm, addrs[i])[k];
            if i < addrs.len() - 1 {
                assert(addrs[i] == prev[i]);
                assert(head.contains(c));
                let j = choose|j: int| 0 <= j < head.len() && head[j] == c;
                assert((head + tail)[j] == c);
            } else {
                assert(addrs[i] == addrs.last());
                assert((head + tail)[head.len() + k] == c);
            }
        }
    }
}

/// `c` is among the cycles filed under one of `addrs`.
pub open spec fn filed_under_any(cm: AddressMap<Vec<Cycle>>, addrs: Seq<Address>, c: Seq<IndexedPair>) -> bool {
    exists|i: int| 0 <= i < addrs.len() && #[trigger] cycles_of(cm, addrs[i]).contains(c)
}

proof fn lemma_flatten_members(cm: AddressMap<Vec<Cycle>>, addrs: Seq<Address>)
    ensures
        forall|j: int| 0 <= j < flatten_cycles_of(cm, addrs).len()
            ==> filed_under_any(cm, addrs, #[trigger] flatten_cycles_of(cm, addrs)[j]),
    decreases addrs.len(),
{
    if addrs.len() > 0 {
        let prev = addrs.drop_last();
        lemma_flatten_members(cm, prev);
        let head = flatten_cycles_of(cm, prev);
        let tail = cycles_of(cm, addrs.last());
        assert(flatten_cycles_of(cm, addrs) == head + tail);
        assert forall|j: int| 0 <= j < flatten_cycles_of(cm, addrs).len()
            implies filed_under_any(cm, addrs, #[trigger] flatten_cycles_of(cm, addrs)[j]) by {
            let c = flatten_cycles_of(cm, addrs)[j];
            if j < head.len() {
                assert(c == head[j]);
                assert(filed_under_any(cm, prev, head[j]));
                let i = choose|i: int| 0 <= i < prev.len() && #[trigger] cycles_of(cm, prev[i]).contains(head[j]);
                assert(addrs[i] == prev[i]);
                assert(cycles_of(cm, addrs[i]).contains(c));
            } else {
                let i = addrs.len() - 1;
                assert(addrs[i] == addrs.last());
                assert(c == tail[j - head.len()]);
                assert(cycles_of(cm, addrs[i]).contains(c));
            }
        }
    }
}

proof fn lemma_profitable_contains(m: Mapping, cache: Map<usize, (U256, U256)>, cands: Seq<Seq<IndexedPair>>, c: Seq<IndexedPair>)
    requires
        cands.contains(c),
        evaluate_cycle(m, cache, c) is Some,
    ensures
        profitable_cycles(m, cache, cands).contains(evaluate_cycle(m, cache, c)->0),
    decreases cands.len(),
{
    let x = evaluate_cycle(m, cache, c)->0;
    let prev = cands.drop_last();
    let q = profitable_cycles(m, cache, prev);
    if cands.last() == c {
        assert(profitable_cycles(m, cache, cands) == q.push(x));
        assert(q.push(x)[q.len() as int] == x);
    } else {
        let j = choose|j: int| 0 <= j < cands.len() && cands[j] == c;
        assert(j < cands.len() - 1);
        assert(prev[j] == c);
        lemma_profitable_contains(m, cache, prev, c);
        let i = choose|i: int| 0 <= i < q.len() && q[i] == x;
        match evaluate_cycle(m, cache, cands.last()) {
            Some(y) => assert(q.push(y)[i] == x),
            None => {},
        }
    }
}

/// Law: the search for opportunities covers every affected pool: each cycle
/// filed under any of the affected pools is a candidate, and each profitable
/// one among them is among the results evaluated; the candidates are only
/// such cycles.
pub proof fn lemma_every_affected_cycle_evaluated(m: Mapping, cache: Map<usize, (U256, U256)>, a: Seq<Address>)
    ensures
        forall|i: int, k: int| 0 <= i < a.len() && 0 <= k < cycles_of(m.cycles_mapping, a[i]).len()
            ==> candidate_cycles(m, Some(a)).contains(#[trigger] cycles_of(m.cycles_mapping, a[i])[k]),
        forall|i: int, k: int| 0 <= i < a.len() && 0 <= k < cycles_of(m.cycles_mapping, a[i]).len()
            && evaluate_cycle(m, cache, #[trigger] cycles_of(m.cycles_mapping, a[i])[k]) is Some
            ==> profitable_cycles(m, cache, candidate_cycles(m, Some(a)))
                .contains(evaluate_cycle(m, cache, cycles_of(m.cycles_mapping, a[i])[k])->0),
        forall|j: int| 0 <= j < candidate_cycles(m, Some(a)).len()
            ==> filed_under_any(m.cycles_mapping, a, #[trigger] candidate_cycles(m, Some(a))[j]),
{
    assert(candidate_cycles(m, Some(a)) == flatten_cycles_of(m.cycles_mapping, a));
    lemma_flatten_contains(m.cycles_mapping, a);
    lemma_flatten_members(m.cycles_mapping, a);
    assert forall|j: int| 0 <= j < candidate_cycles(m, Some(a)).len()
        implies filed_under_any(m.cycles_mapping, a, #[trigger] candidate_cycles(m, Some(a))[j]) by {
        assert(candidate_cycles(m, Some(a))[j] == flatten_cycles_of(m.cycles_mapping, a)[j]);
    }
    assert forall|i: int, k: int| 0 <= i < a.len() && 0 <= k < cycles_of(m.cycles_mapping, a[i]).len()
        && evaluate_cycle(m, cache, #[trigger] cycles_of(m.cycles_mapping, a[i])[k]) is Some
        implies profitable_cycles(m, cache, candidate_cycles(m, Some(a)))
            .contains(evaluate_cycle(m, cache, cycles_of(m.cycles_mapping, a[i])[k])->0) by {
        lemma_profitable_contains(m, cache, candidate_cycles(m, Some(a)), cycles_of(m.cycles_mapping, a[i])[k]);
    }
}

/// Law: what is proposed for the updated pools `a` is the most profitable of
/// the profitable cycles through them: something is proposed exactly when
/// some pool was updated and some cycle through them pays, the proposal is
/// one of those cycles, and no cycle through them pays more.
pub proof fn lemma_proposal_is_most_profitable(m: Mapping, cache: Map<usize, (U256, U256)>, a: Seq<Address>)
    ensures
        ({
            let ps = profitable_cycles(m, cache, candidate_cycles(m, Some(a)));
            &&& (proposal_of(m, cache, a) is Some) == (a.len() > 0 && ps.len() > 0)
            &&& proposal_of(m, cache, a) is Some ==> {
                let (p, input, pools) = proposal_of(m, cache, a)->0;
                &&& exists|j: int| 0 <= j < ps.len() && ps[j].0 == p && ps[j].1 == input && ps[j].3 == pools
                &&& forall|j: int| 0 <= j < ps.len() ==> (#[trigger] ps[j]).0 <= p
            }
        }),
{
    broadcast use vstd::seq_lib::to_multiset_contains;
    let ps = profitable_cycles(m, cache, candidate_cycles(m, Some(a)));
    let sorted = sort_by_profit(ps);
    lemma_sort_by_profit(ps);
    if a.len() > 0 && ps.len() > 0 {
        let best = top_five(sorted);
        assert(best[0] == sorted[0]);
        assert(sorted.contains(sorted[0]));
        assert(sorted.to_multiset().count(sorted[0]) > 0);
        assert(ps.contains(sorted[0]));
        assert forall|j: int| 0 <= j < ps.len() implies (#[trigger] ps[j]).0 <= sorted[0].0 by {
            assert(ps.contains(ps[j]));
            assert(ps.to_multiset().count(ps[j]) > 0);
            assert(sorted.contains(ps[j]));
            let i = choose|i: int| 0 <= i < sorted.len() && sorted[i] == ps[j];
            if i > 0 {
                assert(sorted[0].0 >= sorted[i].0);
            }
        }
    }
}

/// Law: what `find_optimal_cycles` reports is at most five results, the most
/// profitable first, each with a positive profit and each the result of one
/// of the evaluated cycles.
pub proof fn lemma_reported_cycles(m: Mapping, cache: Map<usize, (U256, U256)>, cands: Seq<Seq<IndexedPair>>)
    ensures
        ({
            let r = top_five(sort_by_profit(profitable_cycles(m, cache, cands)));
            &&& r.len() <= 5
            &&& forall|i: int, j: int| 0 <= i < j < r.len() ==> #[trigger] r[i].0 >= #[trigger] r[j].0
            &&& forall|i: int| 0 <= i < r.len() ==> (#[trigger] r[i]).0 > 0
                && exists|k: int| 0 <= k < cands.len() && evaluate_cycle(m, cache, #[trigger] cands[k]) == Some(r[i])
        }),
{
    broadcast use vstd::seq_lib::group_to_multiset_ensures;
    let p = profitable_cycles(m, cache, cands);
    let s = sort_by_profit(p);
    let r = top_five(s);
    lemma_sort_by_profit(p);
    lemma_profitable_cycles_members(m, cache, cands);
    assert forall|i: int| 0 <= i < r.len() implies (#[trigger] r[i]).0 > 0
        && exists|k: int| 0 <= k < cands.len() && evaluate_cycle(m, cache, #[trigger] cands[k]) == Some(r[i]) by {
        assert(r[i] == s[i]);
        assert(s.contains(s[i]));
        assert(s.to_multiset().count(s[i]) > 0);
        assert(p.contains(s[i]));
        let j = choose|j: int| 0 <= j < p.len() && p[j] == s[i];
        assert(p[j].0 > 0);
    }
    assert forall|i: int, j: int| 0 <= i < j < r.len() implies #[trigger] r[i].0 >= #[trigger] r[j].0 by {
        assert(r[i] == s[i] && r[j] == s[j]);
    }
}

/// Law: the five reported are the best: as many as there are profitable
/// cycles, up to five, and a profitable result left out pays no more than
/// any reported one.
pub proof fn lemma_reported_are_the_best(m: Mapping, cache: Map<usize, (U256, U256)>, cands: Seq<Seq<IndexedPair>>)
    ensures
        ({
            let ps = profitable_cycles(m, cache, cands);
            let r = top_five(sort_by_profit(ps));
            &&& r.len() == if ps.len() < 5 { ps.len() } else { 5 }
            &&& forall|j: int| 0 <= j < ps.len() ==> r.contains(#[trigger] ps[j])
                || forall|i: int| 0 <= i < r.len() ==> (#[trigger] r[i]).0 >= ps[j].0
        }),
{
    broadcast use vstd::seq_lib::to_multiset_contains;
    let ps = profitable_cycles(m, cache, cands);
    let sorted = sort_by_profit(ps);
    let r = top_five(sorted);
    lemma_sort_by_profit(ps);
    assert forall|j: int| 0 <= j < ps.len() implies r.contains(#[trigger] ps[j])
        || forall|i: int| 0 <= i < r.len() ==> (#[trigger] r[i]).0 >= ps[j].0 by {
        assert(ps.contains(ps[j]));
        assert(ps.to_multiset().count(ps[j]) > 0);
        assert(sorted.contains(ps[j]));
        let k = choose|k: int| 0 <= k < sorted.len() && sorted[k] == ps[j];
        if k < r.len() {
            assert(r[k] == sorted[k]);
        } else {
            assert forall|i: int| 0 <= i < r.len() implies (#[trigger] r[i]).0 >= ps[j].0 by {
                assert(r[i] == sorted[i]);
                assert(sorted[i].0 >= sorted[k].0);
            }
        }
    }
}

/// Law: the flash loan costs 0.09% of the input, rounded down: both profits
/// are what the cycle gives back less the input and that fee.
pub proof fn lemma_flash_loan_fee_charged(
    token: Address,
    amount: nat,
    pairs: Seq<UniV2Pool>,
    am: Map<Address, usize>,
    cache: Map<usize, (U256, U256)>,
)
    ensures
        profit_with_reserves(token, amount, pairs, am, cache)
            == clamp_i256(signed(cached_chain(token, amount, pairs, am, cache).1) - signed(amount + amount * 9 / 10000)),
        profit_with_amount(token, amount, pairs)
            == clamp_i256(clamp_i256(signed(swap_chain(token, amount, pairs).1) - signed(amount)) - signed(amount * 9 / 10000)),
{
}

/// The addresses whose cycles are evaluated: the affected pools, or every
/// pool with cycles in the order they were filed.
pub open spec fn candidate_addresses(m: Mapping, affected: Option<Seq<Address>>) -> Seq<Address> {
    match affected {
        Some(a) => a,
        None => m.cycles_mapping.keys(),
    }
}

pub open spec fn affected_view(a: Option<Vec<Address>>) -> Option<Seq<Address>> {
    match a {
        Some(v) => Some(v@),
        None => None,
    }
}

/// The summaries of found cycles.
pub open spec fn summaries(v: Seq<NetPositiveCycle>) -> Seq<(int, nat, Seq<nat>, Seq<Address>)> {
    v.map_values(|n: NetPositiveCycle| n.summary())
}

/// At most the first five.
pub open spec fn top_five(s: Seq<(int, nat, Seq<nat>, Seq<Address>)>) -> Seq<(int, nat, Seq<nat>, Seq<Address>)> {
    if s.len() <= 5 { s } else { s.take(5) }
}

/// The reserves that a `Sync` event of a pool reports (first and second word of its data).
pub open spec fn sync_update_of(
    l: (Option<Address>, Option<Seq<B256>>, Option<Seq<u8>>),
    sync: B256,
) -> Option<(Address, nat, nat)> {
    match l {
        (Some(address), Some(topics), Some(data)) => if topics.contains(sync) {
            Some((address, be_value(data.subrange(0, 32)), be_value(data.subrange(32, data.len() as int))))
        } else {
            None
        },
        _ => None,
    }
}

/// A `Sync` event's data can be read: one word, then at most one more.
pub open spec fn sync_readable(l: (Option<Address>, Option<Seq<B256>>, Option<Seq<u8>>), sync: B256) -> bool {
    match l {
        (Some(address), Some(topics), Some(data)) => topics.contains(sync) ==> 32 <= data.len() <= 64,
        _ => true,
    }
}

/// The reserve updates reported by the first `n` events, in order.
pub open spec fn sync_updates(ls: Seq<(Option<Address>, Option<Seq<B256>>, Option<Seq<u8>>)>, sync: B256, n: int)
    -> Seq<(Address, nat, nat)>
    decreases n,
{
    if n <= 0 || n > ls.len() {
        Seq::empty()
    } else {
        let prev = sync_updates(ls, sync, n - 1);
        match sync_update_of(ls[n - 1], sync) {
            Some(u) => prev.push(u),
            None => prev,
        }
    }
}

/// The pool addresses of reserve updates, in order.
pub open spec fn update_addresses(v: Seq<PotentialStateUpdate>) -> Seq<Address> {
    v.map_values(|u: PotentialStateUpdate| u.address)
}

pub open spec fn updates_view(v: Seq<PotentialStateUpdate>) -> Seq<(Address, nat, nat)> {
    v.map_values(|u: PotentialStateUpdate| (u.address, u.reserve0.val(), u.reserve1.val()))
}

/// Reads the new reserves of the pools whose `Sync` event (topic `sync_topic`)
/// is among `logs`.
pub fn parse_sync_updates(logs: &Vec<CallLog>, sync_topic: B256) -> (r: Vec<PotentialStateUpdate>)
    requires
        forall|i: int| 0 <= i < logs@.len() ==> sync_readable(#[trigger] logs@[i]@, sync_topic),
    ensures
        updates_view(r@) == sync_updates(logs_view(logs@), sync_topic, logs@.len() as int),
{
    let mut updates: Vec<PotentialStateUpdate> = Vec::new();
    let mut i: usize = 0;
    assert(updates_view(updates@) =~= Seq::empty());
    while i < logs.len()
        invariant
            i <= logs@.len(),
            forall|i: int| 0 <= i < logs@.len() ==> sync_readable(#[trigger] logs@[i]@, sync_topic),
            updates_view(updates@) == sync_updates(logs_view(logs@), sync_topic, i as int),
        decreases logs@.len() - i,
    {
        let log = &logs[i];
        assert(logs_view(logs@)[i as int] == log@);
        assert(sync_readable(logs@[i as int]@, sync_topic));
        match (&log.topics, &log.data, log.address) {
            (Some(topics), Some(data), Some(address)) => {
                let mut found = false;
                let mut j: usize = 0;
                while j < topics.len()
                    invariant
                        j <= topics@.len(),
                        found == topics@.take(j as int).contains(sync_topic),
                    decreases topics@.len() - j,
                {
                    let ghost was = found;
                    if topics[j] == sync_topic {
                        found = true;
                    }
                    proof {
                        let t0 = topics@.take(j as int);
                        let t1 = topics@.take(j + 1);
                        assert(t1 =~= t0.push(topics@[j as int]));
                        if t0.contains(sync_topic) {
                            let w = choose|w: int| 0 <= w < t0.len() && t0[w] == sync_topic;
                            assert(t1[w] == sync_topic);
                        }
                        if topics@[j as int] == sync_topic {
                            assert(t1[j as int] == sync_topic);
                        }
                        if t1.contains(sync_topic) {
                            let w = choose|w: int| 0 <= w < t1.len() && t1[w] == sync_topic;
                            if w < j {
                                assert(t0[w] == sync_topic);
                            }
                        }
                    }
                    j = j + 1;
                }
                proof {
                    assert(topics@.take(topics@.len() as int) =~= topics@);
                }
                if found {
                    let reserve0 = eth_from_big_endian(&data.as_slice()[0..32]);
                    let reserve1 = eth_from_big_endian(&data.as_slice()[32..data.len()]);
                    let ghost before = updates_view(updates@);
                    let u = PotentialStateUpdate { address, reserve0, reserve1 };
                    updates.push(u);
                    assert(updates_view(updates@) =~= before.push((address, reserve0.val(), reserve1.val())));
                }
            },
            _ => {},
        }
        i = i + 1;
    }
    updates
}

/// The cache after storing the first `n` updates under their pools' indices.
pub open spec fn cache_updates(
    cache: Map<usize, (U256, U256)>,
    am: Map<Address, usize>,
    updates: Seq<PotentialStateUpdate>,
    n: int,
) -> Map<usize, (U256, U256)>
    decreases n,
{
    if n <= 0 || n > updates.len() {
        cache
    } else {
        cache_updates(cache, am, updates, n - 1).insert(am[updates[n - 1].address], (updates[n - 1].reserve0, updates[n - 1].reserve1))
    }
}

/// Law: after the updates, a pool index holds the reserves of the last
/// update that was stored under it.
pub proof fn lemma_cache_last_update(
    cache: Map<usize, (U256, U256)>,
    am: Map<Address, usize>,
    updates: Seq<PotentialStateUpdate>,
    n: int,
    j: int,
)
    requires
        0 <= j < n <= updates.len(),
        forall|l: int| j < l < n ==> am[#[trigger] updates[l].address] != am[updates[j].address],
    ensures
        cache_updates(cache, am, updates, n).contains_key(am[updates[j].address]),
        cache_updates(cache, am, updates, n)[am[updates[j].address]] == (updates[j].reserve0, updates[j].reserve1),
    decreases n,
{
    if n - 1 > j {
        assert(am[updates[n - 1].address] != am[updates[j].address]);
        lemma_cache_last_update(cache, am, updates, n - 1, j);
    }
}

/// Law: a pool index that no update is stored under keeps its entry (or
/// its absence).
pub proof fn lemma_cache_untouched(
    cache: Map<usize, (U256, U256)>,
    am: Map<Address, usize>,
    updates: Seq<PotentialStateUpdate>,
    n: int,
    k: usize,
)
    requires
        0 <= n <= updates.len(),
        forall|l: int| 0 <= l < n ==> am[#[trigger] updates[l].address] != k,
    ensures
        cache_updates(cache, am, updates, n).contains_key(k) == cache.contains_key(k),
        cache.contains_key(k) ==> cache_updates(cache, am, updates, n)[k] == cache[k],
    decreases n,
{
    if n > 0 {
        assert(am[updates[n - 1].address] != k);
        lemma_cache_untouched(cache, am, updates, n - 1, k);
    }
}

/// The reserves of the last `Sync` event among the first `n` of `ls` whose
/// pool has index `k`, if there is one.
pub open spec fn last_sync_reserves(
    ls: Seq<(Option<Address>, Option<Seq<B256>>, Option<Seq<u8>>)>,
    sync: B256,
    am: Map<Address, usize>,
    k: usize,
    n: int,
) -> Option<(nat, nat)>
    decreases n,
{
    if n <= 0 || n > ls.len() {
        None
    } else {
        match sync_update_of(ls[n - 1], sync) {
            Some(u) => if am[u.0] == k { Some((u.1, u.2)) } else { last_sync_reserves(ls, sync, am, k, n - 1) },
            None => last_sync_reserves(ls, sync, am, k, n - 1),
        }
    }
}

/// The pools of the `Sync` events among `ls`, in order.
pub open spec fn sync_addresses(ls: Seq<(Option<Address>, Option<Seq<B256>>, Option<Seq<u8>>)>, sync: B256) -> Seq<Address> {
    sync_updates(ls, sync, ls.len() as int).map_values(|u: (Address, nat, nat)| u.0)
}

/// What the finder proposes for the updated pools `affected`: nothing when
/// there are none; otherwise profit, input and pools of the most profitable
/// cycle through them, if one is profitable.
pub open spec fn proposal_of(m: Mapping, cache: Map<usize, (U256, U256)>, affected: Seq<Address>) -> Option<(int, nat, Seq<Address>)> {
    if affected.len() == 0 {
        None
    } else {
        let best = top_five(sort_by_profit(profitable_cycles(m, cache, candidate_cycles(m, Some(affected)))));
        if best.len() > 0 {
            Some((best[0].0, best[0].1, best[0].3))
        } else {
            None
        }
    }
}

/// A proposed transaction as profit, input and pools.
pub open spec fn proposal_view(t: Option<ArbitrageTransaction>) -> Option<(int, nat, Seq<Address>)> {
    match t {
        Some(t) => Some((t.profit.sval(), t.amount_in.val(), t.cycle_addresses@)),
        None => None,
    }
}

proof fn lemma_cache_updates_prefix(cache: Map<usize, (U256, U256)>, am: Map<Address, usize>, ups: Seq<PotentialStateUpdate>, j: int)
    requires
        0 <= j < ups.len(),
    ensures
        cache_updates(cache, am, ups.drop_last(), j) == cache_updates(cache, am, ups, j),
    decreases j,
{
    if j > 0 {
        lemma_cache_updates_prefix(cache, am, ups, j - 1);
        assert(ups.drop_last()[j - 1] == ups[j - 1]);
    }
}

proof fn lemma_no_sync_events(ls: Seq<(Option<Address>, Option<Seq<B256>>, Option<Seq<u8>>)>, sync: B256, n: int)
    requires
        0 <= n <= ls.len(),
    ensures
        (sync_updates(ls, sync, n).len() == 0) == (forall|i: int| 0 <= i < n ==> #[trigger] sync_update_of(ls[i], sync) is None),
    decreases n,
{
    if n > 0 {
        lemma_no_sync_events(ls, sync, n - 1);
    }
}

proof fn lemma_round_cache(
    ls: Seq<(Option<Address>, Option<Seq<B256>>, Option<Seq<u8>>)>,
    sync: B256,
    am: Map<Address, usize>,
    cache: Map<usize, (U256, U256)>,
    ups: Seq<PotentialStateUpdate>,
    n: int,
    k: usize,
)
    requires
        0 <= n <= ls.len(),
        updates_view(ups) == sync_updates(ls, sync, n),
    ensures
        ({
            let after = cache_updates(cache, am, ups, ups.len() as int);
            match last_sync_reserves(ls, sync, am, k, n) {
                Some(r) => after.contains_key(k) && after[k].0.val() == r.0 && after[k].1.val() == r.1,
                None => after.contains_key(k) == cache.contains_key(k) && (cache.contains_key(k) ==> after[k] == cache[k]),
            }
        }),
    decreases n,
{
    assert(updates_view(ups).len() == ups.len());
    if n == 0 {
        assert(ups.len() == 0);
    } else {
        match sync_update_of(ls[n - 1], sync) {
            Some(u) => {
                let len = ups.len() as int;
                let prev = ups.drop_last();
                assert(sync_updates(ls, sync, n) == sync_updates(ls, sync, n - 1).push(u));
                assert(updates_view(prev) =~= updates_view(ups).drop_last());
                assert(updates_view(prev) =~= sync_updates(ls, sync, n - 1));
                assert(updates_view(ups)[len - 1] == u);
                lemma_cache_updates_prefix(cache, am, ups, len - 1);
                lemma_round_cache(ls, sync, am, cache, prev, n - 1, k);
            },
            None => {
                lemma_round_cache(ls, sync, am, cache, ups, n - 1, k);
            },
        }
    }
}

/// Law: one round of the finder on the events of an observed transaction.
/// With `ups` the reserve updates read from the events `ls`, storing them
/// leaves each pool index holding the reserves of the last `Sync` event of
/// its pool, and every other entry as it was; the updated pools are those
/// of the `Sync` events, in order; and with no `Sync` event nothing is
/// proposed.
pub proof fn lemma_opportunity_round(
    m: Mapping,
    ls: Seq<(Option<Address>, Option<Seq<B256>>, Option<Seq<u8>>)>,
    sync: B256,
    cache: Map<usize, (U256, U256)>,
    ups: Seq<PotentialStateUpdate>,
)
    requires
        updates_view(ups) == sync_updates(ls, sync, ls.len() as int),
    ensures
        update_addresses(ups) == sync_addresses(ls, sync),
        (ups.len() == 0) == (forall|i: int| 0 <= i < ls.len() ==> #[trigger] sync_update_of(ls[i], sync) is None),
        forall|k: usize| {
            let after = cache_updates(cache, m.address_mapping@, ups, ups.len() as int);
            match #[trigger] last_sync_reserves(ls, sync, m.address_mapping@, k, ls.len() as int) {
                Some(r) => after.contains_key(k) && after[k].0.val() == r.0 && after[k].1.val() == r.1,
                None => after.contains_key(k) == cache.contains_key(k) && (cache.contains_key(k) ==> after[k] == cache[k]),
            }
        },
        (ups.len() == 0) ==> proposal_of(m, cache_updates(cache, m.address_mapping@, ups, ups.len() as int), update_addresses(ups)) is None,
{
    assert(updates_view(ups).len() == ups.len());
    assert forall|i: int| 0 <= i < ups.len() implies #[trigger] update_addresses(ups)[i] == sync_addresses(ls, sync)[i] by {
        assert(updates_view(ups)[i].0 == ups[i].address);
    }
    assert(update_addresses(ups) =~= sync_addresses(ls, sync));
    lemma_no_sync_events(ls, sync, ls.len() as int);
    assert forall|k: usize| {
        let after = cache_updates(cache, m.address_mapping@, ups, ups.len() as int);
        match #[trigger] last_sync_reserves(ls, sync, m.address_mapping@, k, ls.len() as int) {
            Some(r) => after.contains_key(k) && after[k].0.val() == r.0 && after[k].1.val() == r.1,
            None => after.contains_key(k) == cache.contains_key(k) && (cache.contains_key(k) ==> after[k] == cache[k]),
        }
    } by {
        lemma_round_cache(ls, sync, m.address_mapping@, cache, ups, ls.len() as int, k);
    }
}

/// A flash-loan arbitrage to send: input, pools to go through, expected profit.
#[derive(Debug)]
pub struct ArbitrageTransaction {
    pub amount_in: U256,
    pub cycle_addresses: Vec<Address>,
    pub profit: I256,
}

/// The transaction for the best cycle, if any.
pub fn best_transaction(cycles: &Vec<NetPositiveCycle>) -> (r: Option<ArbitrageTransaction>)
    ensures
        match r {
            Some(t) => cycles@.len() > 0 && t.amount_in == cycles@[0].optimal_in && t.cycle_addresses@ == cycles@[0].cycle_addresses@
                && t.profit == cycles@[0].profit,
            None => cycles@.len() == 0,
        },
{
    if cycles.len() == 0 {
        return None;
    }
    let best = &cycles[0];
    let mut addresses: Vec<Address> = Vec::new();
    let mut i: usize = 0;
    while i < best.cycle_addresses.len()
        invariant
            i <= best.cycle_addresses@.len(),
            addresses@ == best.cycle_addresses@.take(i as int),
        decreases best.cycle_addresses@.len() - i,
    {
        addresses.push(best.cycle_addresses[i]);
        i = i + 1;
        assert(addresses@ =~= best.cycle_addresses@.take(i as int));
    }
    assert(addresses@ =~= best.cycle_addresses@);
    Some(ArbitrageTransaction { amount_in: best.optimal_in, cycle_addresses: addresses, profit: best.profit })
}

/// The finder of profitable cycles over a mapping of pools.
pub struct OpportunityFinder {
    pub mapping: Mapping,
}

impl OpportunityFinder {
    pub fn new(mapping: Mapping) -> (r: OpportunityFinder)
        ensures
            r.mapping == mapping,
    {
        OpportunityFinder { mapping }
    }

    /// Output of selling `a_in` into a pair with the given reserves, router
    /// fee and token tax (both in basis points).
    pub fn get_amount_out(&self, a_in: U256, reserve_in: U256, reserve_out: U256, fees: U256, router_fee: U256) -> (r: U256)
        requires
            amount_out_defined(a_in.val(), reserve_in.val(), reserve_out.val(), fees.val(), router_fee.val()),
        ensures
            r.val() == amount_out(a_in.val(), reserve_in.val(), reserve_out.val(), fees.val(), router_fee.val()),
    {
        if a_in.is_zero() {
            return U256::zero();
        }
        let ten_thousand = U256::from_u64(10000);
        let a_in_with_fee = eth_saturating_mul(a_in, router_fee);
        let denominator = eth_saturating_add(eth_saturating_mul(ten_thousand, reserve_in), a_in_with_fee);
        let a_out = eth_div(eth_saturating_mul(a_in_with_fee, reserve_out), denominator);
        let tax = eth_div(eth_saturating_mul(a_out, fees), ten_thousand);
        eth_sub(a_out, tax)
    }

    /// Swaps `amount_in` of `token_in` through `pairs` with their own
    /// reserves; returns the profit and the amount held after each step.
    pub fn get_profit_with_amount(&self, token_in: Address, amount_in: U256, pairs: &Vec<UniV2Pool>) -> (r: (I256, Vec<U256>))
        requires
            swap_chain_defined(token_in, amount_in.val(), pairs@),
            amount_in.val() * 9 <= u256_max(),
        ensures
            r.0.sval() == profit_with_amount(token_in, amount_in.val(), pairs@),
            r.1@.map_values(|x: U256| x.val()) == swap_amounts(token_in, amount_in.val(), pairs@),
    {
        let mut amount_out = amount_in;
        let mut token = token_in;
        let mut amounts: Vec<U256> = Vec::new();
        amounts.push(amount_in);
        let mut i: usize = 0;
        proof {
            assert(pairs@.take(0) =~= Seq::<UniV2Pool>::empty());
            assert(amounts@.map_values(|x: U256| x.val()) =~= swap_amounts(token_in, amount_in.val(), pairs@.take(0)));
        }
        while i < pairs.len()
            invariant
                i <= pairs@.len(),
                swap_chain_defined(token_in, amount_in.val(), pairs@),
                (token, amount_out.val()) == swap_chain(token_in, amount_in.val(), pairs@.take(i as int)),
                amounts@.map_values(|x: U256| x.val()) == swap_amounts(token_in, amount_in.val(), pairs@.take(i as int)),
            decreases pairs@.len() - i,
        {
            let pair = pairs[i];
            proof {
                assert(pairs@.take(i + 1).drop_last() =~= pairs@.take(i as int));
                lemma_chain_defined_prefix(token_in, amount_in.val(), pairs@, i as int + 1);
            }
            let next = if pair.token0 == token {
                self.get_amount_out(amount_out, pair.reserve0, pair.reserve1, pair.fees0, pair.router_fee)
            } else {
                self.get_amount_out(amount_out, pair.reserve1, pair.reserve0, pair.fees1, pair.router_fee)
            };
            let ghost before = amounts@;
            amount_out = next;
            amounts.push(amount_out);
            token = if pair.token0 == token { pair.token1 } else { pair.token0 };
            i = i + 1;
            proof {
                assert(amounts@.map_values(|x: U256| x.val()) =~= before.map_values(|x: U256| x.val()).push(next.val()));
            }
        }
        proof {
            assert(pairs@.take(pairs@.len() as int) =~= pairs@);
        }
        let fee = eth_div(eth_mul(amount_in, U256::from_u64(9)), U256::from_u64(10000));
        let profit = eth_i256_saturating_sub(
            eth_i256_saturating_sub(I256::from_raw(amount_out), I256::from_raw(amount_in)),
            I256::from_raw(fee),
        );
        (profit, amounts)
    }

    /// Narrows `[domain_min, domain_max]` towards the input where `f` is
    /// largest (see `ternary_search`) until it is at most `lowest_delta` wide,
    /// and returns the middle of what is left; `g` is what `f` computes. The
    /// ghost part of the result lists the inputs `f` was called on, in order.
    fn maximize_profit<F: Fn(U256) -> I256>(
        &self,
        domain_min: U256,
        domain_max: U256,
        lowest_delta: U256,
        f: F,
        Ghost(g): Ghost<spec_fn(nat) -> int>,
        Ghost(ok): Ghost<spec_fn(nat) -> bool>,
    ) -> (r: (U256, Ghost<Seq<nat>>))
        requires
            lowest_delta.val() >= 1,
            search_fits(domain_min.val(), domain_max.val(), lowest_delta.val(), g),
            probes_defined(domain_min.val(), domain_max.val(), lowest_delta.val(), g, ok),
            forall|x: U256| ok(x.val()) ==> #[trigger] call_requires(f, (x,)),
            forall|x: U256, y: I256| ok(x.val()) && #[trigger] call_ensures(f, (x,), y) ==> y.sval() == g(x.val()),
        ensures
            r.0.val() == ternary_search(domain_min.val(), domain_max.val(), lowest_delta.val(), g),
            r.1@ == search_probes(domain_min.val(), domain_max.val(), lowest_delta.val(), g),
            domain_min.val() <= domain_max.val() ==> domain_min.val() <= r.0.val() <= domain_max.val(),
    {
        let ghost lo0 = domain_min.val();
        let ghost hi0 = domain_max.val();
        let ghost mut probes: Seq<nat> = Seq::empty();
        let mut lo = domain_min;
        let mut hi = domain_max;
        let two = U256::from_u64(2);
        while keep_searching(lo, hi, lowest_delta)
            invariant
                two.val() == 2,
                lowest_delta.val() >= 1,
                lo0 <= lo.val(),
                hi.val() <= hi0,
                lo0 <= hi0 ==> lo.val() <= hi.val(),
                search_fits(lo.val(), hi.val(), lowest_delta.val(), g),
                probes_defined(lo.val(), hi.val(), lowest_delta.val(), g, ok),
                forall|x: U256| ok(x.val()) ==> #[trigger] call_requires(f, (x,)),
                forall|x: U256, y: I256| ok(x.val()) && #[trigger] call_ensures(f, (x,), y) ==> y.sval() == g(x.val()),
                ternary_search(lo.val(), hi.val(), lowest_delta.val(), g) == ternary_search(lo0, hi0, lowest_delta.val(), g),
                probes + search_probes(lo.val(), hi.val(), lowest_delta.val(), g) == search_probes(lo0, hi0, lowest_delta.val(), g),
            decreases hi.val() - lo.val(),
        {
            proof {
                lemma_search_step(lo.val(), hi.val(), lowest_delta.val(), g, ok, probes);
            }
            let mid = eth_div(eth_add(lo, hi), two);
            let lower_mid = eth_div(eth_add(mid, lo), two);
            let upper_mid = eth_div(eth_add(mid, hi), two);
            let f_lower = f(lower_mid);
            let f_upper = f(upper_mid);
            if crate::ethers_math::eth_i256_lt(f_upper, f_lower) {
                hi = mid;
            } else {
                lo = mid;
            }
            proof {
                probes = probes.push(lower_mid.val()).push(upper_mid.val());
            }
        }
        proof {
            assert(probes + Seq::<nat>::empty() =~= probes);
        }
        (eth_div(eth_add(hi, lo), two), Ghost(probes))
    }

    /// The pools of `cycle`'s pairs that have an entry.
    fn cycle_pairs(&self, cycle: &Cycle) -> (r: Vec<UniV2Pool>)
        ensures
            r@ == cycle_pools(self.mapping.pairs_mapping@, cycle@),
    {
        broadcast use vstd::std_specs::hash::group_hash_axioms;
        let mut pairs: Vec<UniV2Pool> = Vec::new();
        let mut i: usize = 0;
        while i < cycle.len()
            invariant
                i <= cycle@.len(),
                pairs@ == cycle_pools(self.mapping.pairs_mapping@, cycle@.take(i as int)),
            decreases cycle@.len() - i,
        {
            proof {
                assert(cycle@.take(i + 1).drop_last() =~= cycle@.take(i as int));
            }
            match self.mapping.pairs_mapping.get(&cycle[i].address) {
                Some(p) => pairs.push(*p),
                None => {},
            }
            i = i + 1;
        }
        proof {
            assert(cycle@.take(cycle@.len() as int) =~= cycle@);
        }
        pairs
    }

    /// What the finder does with the reserve updates of one observed
    /// transaction, once they are cached: nothing when there are none;
    /// otherwise it searches the cycles through the updated pools and
    /// proposes a transaction for the most profitable one, if any is
    /// profitable.
    pub fn propose_transaction(&self, updates: &Vec<PotentialStateUpdate>, reserves_cache: &HashMap<usize, (U256, U256)>)
        -> (r: Option<ArbitrageTransaction>)
        requires
            self.mapping.wf(),
            forall|i: int, k: int| 0 <= i < candidate_addresses(self.mapping, Some(update_addresses(updates@))).len()
                && 0 <= k < cycles_of(self.mapping.cycles_mapping, candidate_addresses(self.mapping, Some(update_addresses(updates@)))[i]).len()
                ==> cycle_searchable(self.mapping, reserves_cache@,
                    #[trigger] cycles_of(self.mapping.cycles_mapping, candidate_addresses(self.mapping, Some(update_addresses(updates@)))[i])[k]),
        ensures
            proposal_view(r) == proposal_of(self.mapping, reserves_cache@, update_addresses(updates@)),
    {
        if updates.len() == 0 {
            return None;
        }
        let mut affected: Vec<Address> = Vec::new();
        let mut i: usize = 0;
        while i < updates.len()
            invariant
                i <= updates@.len(),
                affected@ == update_addresses(updates@.take(i as int)),
            decreases updates@.len() - i,
        {
            affected.push(updates[i].address);
            i = i + 1;
            proof {
                assert(affected@ =~= update_addresses(updates@.take(i as int)));
            }
        }
        proof {
            assert(updates@.take(updates@.len() as int) =~= updates@);
        }
        let cycles = self.find_optimal_cycles(Some(affected), reserves_cache);
        let r = best_transaction(&cycles);
        proof {
            if cycles@.len() > 0 {
                assert(summaries(cycles@)[0] == cycles@[0].summary());
            }
        }
        r
    }

    /// Caches the new reserves of each updated pool under its index, in order.
    pub fn apply_state_updates(&self, updates: &Vec<PotentialStateUpdate>, reserves_cache: &mut HashMap<usize, (U256, U256)>)
        requires
            self.mapping.wf(),
            forall|i: int| 0 <= i < updates@.len() ==> self.mapping.address_mapping@.contains_key(#[trigger] updates@[i].address),
        ensures
            final(reserves_cache)@ == cache_updates(old(reserves_cache)@, self.mapping.address_mapping@, updates@, updates@.len() as int),
    {
        broadcast use vstd::std_specs::hash::group_hash_axioms;
        let mut i: usize = 0;
        while i < updates.len()
            invariant
                i <= updates@.len(),
                self.mapping.wf(),
                forall|i: int| 0 <= i < updates@.len() ==> self.mapping.address_mapping@.contains_key(#[trigger] updates@[i].address),
                reserves_cache@ == cache_updates(old(reserves_cache)@, self.mapping.address_mapping@, updates@, i as int),
            decreases updates@.len() - i,
        {
            let u = updates[i];
            assert(self.mapping.address_mapping@.contains_key(updates@[i as int].address));
            let pair_index = match self.mapping.address_mapping.get(&u.address) {
                Some(x) => *x,
                None => 0,
            };
            reserves_cache.insert(pair_index, (u.reserve0, u.reserve1));
            i = i + 1;
        }
    }

    /// Evaluates the cycles through the affected pools (all cycles when
    /// none are given) and returns the five most profitable ones, best
    /// first; cycles of equal profit keep their order.
    pub fn find_optimal_cycles(&self, affected_pairs: Option<Vec<Address>>, reserves_cache: &HashMap<usize, (U256, U256)>)
        -> (r: Vec<NetPositiveCycle>)
        requires
            self.mapping.wf(),
            forall|i: int, k: int| 0 <= i < candidate_addresses(self.mapping, affected_view(affected_pairs)).len()
                && 0 <= k < cycles_of(self.mapping.cycles_mapping, candidate_addresses(self.mapping, affected_view(affected_pairs))[i]).len()
                ==> cycle_searchable(self.mapping, reserves_cache@,
                    #[trigger] cycles_of(self.mapping.cycles_mapping, candidate_addresses(self.mapping, affected_view(affected_pairs))[i])[k]),
        ensures
            summaries(r@) == top_five(sort_by_profit(profitable_cycles(self.mapping, reserves_cache@,
                candidate_cycles(self.mapping, affected_view(affected_pairs))))),
    {
        let ghost addrs_spec = candidate_addresses(self.mapping, affected_view(affected_pairs));
        let addrs: Vec<Address> = match affected_pairs {
            Some(list) => list,
            None => {
                let mut keys: Vec<Address> = Vec::new();
                let mut e: usize = 0;
                while e < self.mapping.cycles_mapping.entries.len()
                    invariant
                        e <= self.mapping.cycles_mapping.entries@.len(),
                        keys@ == self.mapping.cycles_mapping.keys().take(e as int),
                    decreases self.mapping.cycles_mapping.entries@.len() - e,
                {
                    keys.push(self.mapping.cycles_mapping.entries[e].0);
                    e = e + 1;
                    proof {
                        assert(keys@ =~= self.mapping.cycles_mapping.keys().take(e as int));
                    }
                }
                proof {
                    assert(keys@ =~= self.mapping.cycles_mapping.keys());
                }
                keys
            },
        };
        assert(addrs@ == addrs_spec);
        let ghost m = self.mapping;
        let ghost cache = reserves_cache@;
        let mut found: Vec<NetPositiveCycle> = Vec::new();
        let mut i: usize = 0;
        proof {
            assert(addrs@.take(0) =~= Seq::<Address>::empty());
        }
        while i < addrs.len()
            invariant
                i <= addrs@.len(),
                self.mapping.wf(),
                m == self.mapping,
                cache == reserves_cache@,
                forall|i: int, k: int| 0 <= i < addrs@.len() && 0 <= k < cycles_of(m.cycles_mapping, addrs@[i]).len()
                    ==> cycle_searchable(m, cache, #[trigger] cycles_of(m.cycles_mapping, addrs@[i])[k]),
                summaries(found@) == profitable_cycles(m, cache,
                    flatten_cycles_of(m.cycles_mapping, addrs@.take(i as int))),
            decreases addrs@.len() - i,
        {
            let ghost before = flatten_cycles_of(m.cycles_mapping, addrs@.take(i as int));
            let ghost cs = cycles_of(m.cycles_mapping, addrs@[i as int]);
            proof {
                assert(addrs@.take(i + 1).drop_last() =~= addrs@.take(i as int));
                assert(flatten_cycles_of(m.cycles_mapping, addrs@.take(i + 1)) == before + cs);
            }
            match self.mapping.cycles_mapping.get(&addrs[i]) {
                Some(cycles) => {
                    assert(cycles_view(cycles@) == cs);
                    let mut j: usize = 0;
                    proof {
                        assert(before + cs.take(0) =~= before);
                    }
                    while j < cycles.len()
                        invariant
                            j <= cycles@.len(),
                            self.mapping.wf(),
                            m == self.mapping,
                            cache == reserves_cache@,
                            cycles_view(cycles@) == cs,
                            forall|k: int| 0 <= k < cs.len() ==> cycle_searchable(m, cache, #[trigger] cs[k]),
                            summaries(found@) == profitable_cycles(m, cache, before + cs.take(j as int)),
                        decreases cycles@.len() - j,
                    {
                        assert(cycles@[j as int]@ == cs[j as int]);
                        let ghost prev = summaries(found@);
                        proof {
                            assert((before + cs.take(j + 1)).drop_last() =~= before + cs.take(j as int));
                            assert((before + cs.take(j + 1)).last() == cs[j as int]);
                        }
                        match self.evaluate(&cycles[j], reserves_cache) {
                            Some(n) => {
                                found.push(n);
                                assert(summaries(found@) =~= prev.push(n.summary()));
                            },
                            None => {},
                        }
                        j = j + 1;
                    }
                    proof {
                        assert(cs.take(cs.len() as int) =~= cs);
                    }
                },
                None => {
                    assert(cs =~= Seq::<Seq<IndexedPair>>::empty());
                    assert(before + cs =~= before);
                },
            }
            i = i + 1;
        }
        proof {
            assert(addrs@.take(addrs@.len() as int) =~= addrs@);
        }
        let ghost unsorted = summaries(found@);
        let mut sorted: Vec<NetPositiveCycle> = Vec::new();
        let total = found.len();
        let mut pending = found;
        let mut done: usize = 0;
        proof {
            assert(unsorted.take(0) =~= Seq::<(int, nat, Seq<nat>, Seq<Address>)>::empty());
            assert(unsorted.subrange(0, unsorted.len() as int) =~= unsorted);
        }
        while pending.len() > 0
            invariant
                unsorted.len() == total,
                done <= unsorted.len(),
                done + pending@.len() == unsorted.len(),
                summaries(pending@) == unsorted.subrange(done as int, unsorted.len() as int),
                summaries(sorted@) == sort_by_profit(unsorted.take(done as int)),
            decreases pending@.len(),
        {
            let ghost p0 = pending@;
            let x = pending.remove(0);
            proof {
                assert(summaries(p0)[0] == x.summary());
                assert(unsorted[done as int] == x.summary());
                assert forall|j: int| 0 <= j < pending@.len() implies
                    #[trigger] summaries(pending@)[j] == unsorted.subrange(done + 1, unsorted.len() as int)[j] by {
                    assert(pending@[j] == p0[j + 1]);
                    assert(summaries(p0)[j + 1] == unsorted[done + 1 + j]);
                }
                assert(summaries(pending@)
                    =~= unsorted.subrange(done + 1, unsorted.len() as int));
            }
            let ghost t = summaries(sorted@);
            let mut k: usize = 0;
            while k < sorted.len() && !eth_i256_lt(sorted[k].profit, x.profit)
                invariant
                    k <= sorted@.len(),
                    t == summaries(sorted@),
                    forall|j: int| 0 <= j < k ==> t[j].0 >= x.summary().0,
                decreases sorted@.len() - k,
            {
                k = k + 1;
            }
            proof {
                lemma_insert_position(t, x.summary(), k as int);
                assert(unsorted.take(done + 1).drop_last() =~= unsorted.take(done as int));
                assert(unsorted.take(done + 1).last() == x.summary());
            }
            let ghost xs = x.summary();
            sorted.insert(k, x);
            done = done + 1;
            proof {
                assert(summaries(sorted@) =~= t.insert(k as int, xs));
            }
        }
        proof {
            assert(unsorted.take(unsorted.len() as int) =~= unsorted);
        }
        sorted.truncate(5);
        proof {
            let s = sort_by_profit(unsorted);
            assert(summaries(sorted@) =~= top_five(s));
        }
        sorted
    }

    /// Searches the best input of one cycle and keeps it when it is profitable.
    fn evaluate(&self, cycle: &Cycle, reserves_cache: &HashMap<usize, (U256, U256)>) -> (r: Option<NetPositiveCycle>)
        requires
            self.mapping.wf(),
            cycle_searchable(self.mapping, reserves_cache@, cycle@),
        ensures
            match r {
                Some(n) => evaluate_cycle(self.mapping, reserves_cache@, cycle@) == Some(n.summary()),
                None => evaluate_cycle(self.mapping, reserves_cache@, cycle@) is None,
            },
    {
        let pairs = self.cycle_pairs(cycle);
        let weth = weth_address();
        let ghost am = self.mapping.address_mapping@;
        let ghost cache = reserves_cache@;
        let ghost g = |n: nat| profit_with_reserves(weth_spec(), n, pairs@, am, cache);
        let ghost ok = |n: nat| profit_with_reserves_defined(weth_spec(), n, pairs@, am, cache);
        proof {
            assert(g == (|n: nat| profit_with_reserves(weth_spec(), n, cycle_pools(self.mapping.pairs_mapping@, cycle@),
                self.mapping.address_mapping@, reserves_cache@)));
            assert(ok == (|n: nat| profit_with_reserves_defined(weth_spec(), n, cycle_pools(self.mapping.pairs_mapping@, cycle@),
                self.mapping.address_mapping@, reserves_cache@)));
        }
        let finder: &OpportunityFinder = self;
        let pools: &Vec<UniV2Pool> = &pairs;
        let profit_function = |amount_in: U256| -> (r: I256)
            requires
                finder.mapping.wf(),
                weth == weth_spec(),
                profit_with_reserves_defined(weth_spec(), amount_in.val(), pools@, finder.mapping.address_mapping@, reserves_cache@),
            ensures
                r.sval() == profit_with_reserves(weth_spec(), amount_in.val(), pools@, finder.mapping.address_mapping@, reserves_cache@),
        {
            finder.get_profit_with_reserves(weth, amount_in, pools, reserves_cache)
        };
        proof {
            lemma_search_fits(1, search_upper(), 10, g);
        }
        let (optimal_in, _probes) = self.maximize_profit(
            U256::from_u64(1),
            U256::from_u128(10000000000000000000000u128),
            U256::from_u64(10),
            profit_function,
            Ghost(g),
            Ghost(ok),
        );
        let (profit, swap_amounts) = self.get_profit_with_amount(weth, optimal_in, &pairs);
        if eth_i256_lt(I256::zero(), profit) {
            let mut cycle_addresses: Vec<Address> = Vec::new();
            let mut i: usize = 0;
            while i < pairs.len()
                invariant
                    i <= pairs@.len(),
                    cycle_addresses@ == pairs@.take(i as int).map_values(|p: UniV2Pool| p.address),
                decreases pairs@.len() - i,
            {
                cycle_addresses.push(pairs[i].address);
                i = i + 1;
                proof {
                    assert(cycle_addresses@ =~= pairs@.take(i as int).map_values(|p: UniV2Pool| p.address));
                }
            }
            proof {
                assert(pairs@.take(pairs@.len() as int) =~= pairs@);
            }
            Some(NetPositiveCycle { profit, optimal_in, swap_amounts, cycle_addresses })
        } else {
            None
        }
    }

    /// Swaps `amount_in` of `token_in` through `pairs` priced with the
    /// reserves cached under each pool's index; returns the profit after the
    /// flash-loan fee.
    pub fn get_profit_with_reserves(
        &self,
        token_in: Address,
        amount_in: U256,
        pairs: &Vec<UniV2Pool>,
        reserves_cache: &HashMap<usize, (U256, U256)>,
    ) -> (r: I256)
        requires
            self.mapping.wf(),
            profit_with_reserves_defined(token_in, amount_in.val(), pairs@, self.mapping.address_mapping@, reserves_cache@),
        ensures
            r.sval() == profit_with_reserves(token_in, amount_in.val(), pairs@, self.mapping.address_mapping@, reserves_cache@),
    {
        broadcast use vstd::std_specs::hash::group_hash_axioms;
        let ghost am = self.mapping.address_mapping@;
        let ghost cache = reserves_cache@;
        let mut amount_out = amount_in;
        let mut token = token_in;
        let ten_thousand = U256::from_u64(10000);
        let mut i: usize = 0;
        proof {
            assert(pairs@.take(0) =~= Seq::<UniV2Pool>::empty());
        }
        while i < pairs.len()
            invariant
                i <= pairs@.len(),
                self.mapping.wf(),
                am == self.mapping.address_mapping@,
                cache == reserves_cache@,
                ten_thousand.val() == 10000,
                cached_chain_defined(token_in, amount_in.val(), pairs@, am, cache),
                (token, amount_out.val()) == cached_chain(token_in, amount_in.val(), pairs@.take(i as int), am, cache),
            decreases pairs@.len() - i,
        {
            let pair = pairs[i];
            proof {
                assert(pairs@.take(i + 1).drop_last() =~= pairs@.take(i as int));
                lemma_cached_defined_prefix(token_in, amount_in.val(), pairs@, am, cache, i as int + 1);
            }
            let pair_index = match self.mapping.address_mapping.get(&pair.address) {
                Some(x) => *x,
                None => 0,
            };
            let (cached0, cached1) = match reserves_cache.get(&pair_index) {
                Some(x) => *x,
                None => (U256::zero(), U256::zero()),
            };
            proof {
                let p = pairs@.take(i + 1).last();
                assert(p == pair);
                assert(am.contains_key(pair.address));
                assert(pair_index == am[pair.address]);
                assert(cache.contains_key(pair_index));
                assert(cached0 == cache[pair_index].0 && cached1 == cache[pair_index].1);
                assert(cached_chain_defined(token_in, amount_in.val(), pairs@.take(i + 1), am, cache));
                let prev = cached_chain(token_in, amount_in.val(), pairs@.take(i + 1).drop_last(), am, cache);
                assert(prev == (token, amount_out.val()));
                assert(cached_reserves(am, cache, p) == (cached0.val(), cached1.val()));
                assert(cached_step_denominator(token, amount_out.val(), pair, cached0.val(), cached1.val()) != 0);
            }
            let (reserve_in, reserve_out, fees) = if pair.token0 == token {
                (cached0, cached1, pair.fees0)
            } else {
                (cached1, cached0, pair.fees1)
            };
            let fee_multiplier = eth_saturating_sub(pair.router_fee, fees);
            let numerator = eth_saturating_mul(eth_saturating_mul(amount_out, fee_multiplier), reserve_out);
            let denominator = eth_saturating_add(eth_saturating_mul(reserve_in, ten_thousand), eth_saturating_mul(amount_out, pair.router_fee));
            amount_out = eth_div(numerator, denominator);
            token = if pair.token0 == token { pair.token1 } else { pair.token0 };
            i = i + 1;
        }
        proof {
            assert(pairs@.take(pairs@.len() as int) =~= pairs@);
        }
        let fee = eth_div(eth_mul(amount_in, U256::from_u64(9)), ten_thousand);
        eth_i256_saturating_sub(I256::from_raw(amount_out), I256::from_raw(eth_add(amount_in, fee)))
    }
}

/// The cache holds `p`'s own reserves, and `p` charges no token tax.
pub open spec fn own_reserves_cached(am: Map<Address, usize>, cache: Map<usize, (U256, U256)>, p: UniV2Pool) -> bool {
    &&& am.contains_key(p.address)
    &&& cache.contains_key(am[p.address])
    &&& cache[am[p.address]].0.val() == p.reserve0.val()
    &&& cache[am[p.address]].1.val() == p.reserve1.val()
    &&& p.fees0.val() == 0
    &&& p.fees1.val() == 0
}

proof fn lemma_cached_step_agrees(token: Address, amount: nat, p: UniV2Pool, am: Map<Address, usize>, cache: Map<usize, (U256, U256)>)
    requires
        own_reserves_cached(am, cache, p),
        cached_step_denominator(token, amount, p, cached_reserves(am, cache, p).0, cached_reserves(am, cache, p).1) != 0,
    ensures
        cached_step(token, amount, p, cached_reserves(am, cache, p).0, cached_reserves(am, cache, p).1) == swap_step(token, amount, p),
{
    let (r0, r1) = cached_reserves(am, cache, p);
    let rf = p.router_fee.val();
    let (r_in, r_out) = if p.token0 == token { (r0, r1) } else { (r1, r0) };
    assert(sat_sub(rf, 0) == rf);
    assert(r_in * 10000 == 10000 * r_in);
    let den = sat_add(sat_mul(r_in, 10000), sat_mul(amount, rf));
    assert(den == amount_out_denominator(amount, r_in, rf));
    let g = amount_out_gross(amount, r_in, r_out, rf);
    assert(sat_mul(g, 0) == 0);
    if amount == 0 {
        assert(amount * rf == 0) by (nonlinear_arith) requires amount == 0;
        assert(sat_mul(amount, rf) == 0);
        assert(0 * r_out == 0);
        assert(sat_mul(sat_mul(amount, rf), r_out) == 0);
        assert(0nat / den == 0);
    }
}

/// The pools agree in everything but the reserves they store.
pub open spec fn same_but_reserves(p: UniV2Pool, q: UniV2Pool) -> bool {
    &&& p.address == q.address
    &&& p.token0 == q.token0
    &&& p.token1 == q.token1
    &&& p.router_fee == q.router_fee
    &&& p.fees0 == q.fees0
    &&& p.fees1 == q.fees1
}

/// Law: pricing with cached reserves reads the reserves from the cache
/// alone. Changing only the reserves the pools store changes neither the
/// tokens and amounts along the way, nor when the pricing can run, nor the
/// profit.
pub proof fn lemma_cached_pricing_ignores_stored_reserves(
    token: Address,
    amount: nat,
    pairs: Seq<UniV2Pool>,
    others: Seq<UniV2Pool>,
    am: Map<Address, usize>,
    cache: Map<usize, (U256, U256)>,
)
    requires
        pairs.len() == others.len(),
        forall|k: int| 0 <= k < pairs.len() ==> same_but_reserves(#[trigger] pairs[k], others[k]),
    ensures
        cached_chain(token, amount, pairs, am, cache) == cached_chain(token, amount, others, am, cache),
        cached_chain_defined(token, amount, pairs, am, cache) == cached_chain_defined(token, amount, others, am, cache),
        profit_with_reserves(token, amount, pairs, am, cache) == profit_with_reserves(token, amount, others, am, cache),
        profit_with_reserves_defined(token, amount, pairs, am, cache) == profit_with_reserves_defined(token, amount, others, am, cache),
    decreases pairs.len(),
{
    if pairs.len() > 0 {
        let n = pairs.len() - 1;
        assert forall|k: int| 0 <= k < pairs.drop_last().len() implies same_but_reserves(#[trigger] pairs.drop_last()[k], others.drop_last()[k]) by {
            assert(pairs.drop_last()[k] == pairs[k]);
            assert(others.drop_last()[k] == others[k]);
        }
        lemma_cached_pricing_ignores_stored_reserves(token, amount, pairs.drop_last(), others.drop_last(), am, cache);
        assert(same_but_reserves(pairs[n], others[n]));
        assert(pairs.last() == pairs[n]);
        assert(others.last() == others[n]);
    }
}

/// Law: one swap with cached reserves `(r0, r1)` sells into the side of the
/// token sold and buys the other side, `amount * (router_fee - tax) *
/// reserve_out / (reserve_in * 10000 + amount * router_fee)`, with the tax of
/// the token sold; when the reserves are swapped, so is the direction.
pub proof fn lemma_cached_step_formula(token: Address, amount: nat, p: UniV2Pool, r0: nat, r1: nat)
    requires
        p.token0 != p.token1,
        token == p.token0 || token == p.token1,
    ensures
        token == p.token0 ==> cached_step(token, amount, p, r0, r1) == (p.token1,
            sat_mul(sat_mul(amount, sat_sub(p.router_fee.val(), p.fees0.val())), r1)
                / sat_add(sat_mul(r0, 10000), sat_mul(amount, p.router_fee.val()))),
        token == p.token1 ==> cached_step(token, amount, p, r0, r1) == (p.token0,
            sat_mul(sat_mul(amount, sat_sub(p.router_fee.val(), p.fees1.val())), r0)
                / sat_add(sat_mul(r1, 10000), sat_mul(amount, p.router_fee.val()))),
        token == p.token0 ==> cached_step_denominator(token, amount, p, r0, r1) == sat_add(sat_mul(r0, 10000), sat_mul(amount, p.router_fee.val())),
        token == p.token1 ==> cached_step_denominator(token, amount, p, r0, r1) == sat_add(sat_mul(r1, 10000), sat_mul(amount, p.router_fee.val())),
{
}

/// Law: with the pools' own reserves in the cache and no token tax, pricing
/// with the cache gives the same tokens and amounts as pricing with the
/// pools, and the same profit on every input the profit functions accept.
pub proof fn lemma_cached_pricing_agrees(
    token: Address,
    amount: nat,
    pairs: Seq<UniV2Pool>,
    am: Map<Address, usize>,
    cache: Map<usize, (U256, U256)>,
)
    requires
        forall|k: int| 0 <= k < pairs.len() ==> own_reserves_cached(am, cache, #[trigger] pairs[k]),
        cached_chain_defined(token, amount, pairs, am, cache),
    ensures
        cached_chain(token, amount, pairs, am, cache) == swap_chain(token, amount, pairs),
        amount * 9 <= u256_max() ==>
            profit_with_reserves(token, amount, pairs, am, cache) == profit_with_amount(token, amount, pairs),
    decreases pairs.len(),
{
    if pairs.len() > 0 {
        let prev = pairs.drop_last();
        assert forall|k: int| 0 <= k < prev.len() implies own_reserves_cached(am, cache, #[trigger] prev[k]) by {
            assert(prev[k] == pairs[k]);
        }
        lemma_cached_pricing_agrees(token, amount, prev, am, cache);
        let c = cached_chain(token, amount, prev, am, cache);
        assert(own_reserves_cached(am, cache, pairs[pairs.len() - 1]));
        lemma_cached_step_agrees(c.0, c.1, pairs.last(), am, cache);
    }
    let out = signed(swap_chain(token, amount, pairs).1);
    let fee = flash_loan_fee(amount);
    if amount * 9 <= u256_max() {
        assert(fee <= amount) by (nonlinear_arith)
            requires fee == amount * 9 / 10000;
        assert(amount + fee < i256_half());
        assert(signed(amount) == amount);
        assert(signed(fee) == fee);
        assert(signed(amount + fee) == amount + fee);
    }
}

/// A defined cached chain has defined prefixes.
pub proof fn lemma_cached_defined_prefix(
    token: Address,
    amount: nat,
    pairs: Seq<UniV2Pool>,
    am: Map<Address, usize>,
    cache: Map<usize, (U256, U256)>,
    n: int,
)
    requires
        cached_chain_defined(token, amount, pairs, am, cache),
        0 <= n <= pairs.len(),
    ensures
        cached_chain_defined(token, amount, pairs.take(n), am, cache),
    decreases pairs.len(),
{
    if n < pairs.len() {
        assert(pairs.drop_last().take(n) =~= pairs.take(n));
        lemma_cached_defined_prefix(token, amount, pairs.drop_last(), am, cache, n);
    } else {
        assert(pairs.take(n) =~= pairs);
    }
}

/// A defined chain has defined prefixes.
pub proof fn lemma_chain_defined_prefix(token: Address, amount: nat, pairs: Seq<UniV2Pool>, n: int)
    requires
        swap_chain_defined(token, amount, pairs),
        0 <= n <= pairs.len(),
    ensures
        swap_chain_defined(token, amount, pairs.take(n)),
    decreases pairs.len(),
{
    if n < pairs.len() {
        assert(pairs.drop_last().take(n) =~= pairs.take(n));
        lemma_chain_defined_prefix(token, amount, pairs.drop_last(), n);
    } else {
        assert(pairs.take(n) =~= pairs);
    }
}

} // verus!
