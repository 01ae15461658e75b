//! Index-based view of a set of pairs and enumeration of the arbitrage cycles through WETH.

use vstd::prelude::*;
use std::collections::{HashMap, HashSet};
use crate::address::{Address, AddressMap};
use crate::constants::{weth_address, weth_spec};
use crate::types::UniV2Pool;

verus! {

/// A pair whose pool and token addresses are replaced by their indices.
#[derive(Clone, Copy, PartialEq, Eq, Structural, Debug)]
pub struct IndexedPair {
    pub address: usize,
    pub token0: usize,
    pub token1: usize,
}

/// A sequence of pairs that leads from a token back to it.
pub type Cycle = Vec<IndexedPair>;

/// The token on the other side of `p` from `t`, if `p` trades `t`.
pub open spec fn other_token(p: IndexedPair, t: usize) -> Option<usize> {
    if t == p.token0 {
        Some(p.token1)
    } else if t == p.token1 {
        Some(p.token0)
    } else {
        None
    }
}

pub open spec fn cycles_view(cs: Seq<Vec<IndexedPair>>) -> Seq<Seq<IndexedPair>> {
    cs.map_values(|c: Vec<IndexedPair>| c@)
}

/// The depth-first enumeration: walk `pairs` from index `i` on; a pair not
/// yet used (`seen`) that trades `token_in` either closes a cycle (its other
/// token is `token_out`) or, with hops to spare, is extended recursively.
/// Found cycles (`current` plus the new pairs) are appended to `acc`.
pub open spec fn dfs_cycles(
    pairs: Seq<IndexedPair>,
    token_in: usize,
    token_out: usize,
    hops: int,
    current: Seq<IndexedPair>,
    acc: Seq<Seq<IndexedPair>>,
    seen: Set<usize>,
    i: int,
) -> Seq<Seq<IndexedPair>>
    decreases hops, pairs.len() - i,
{
    if i < 0 || i >= pairs.len() {
        acc
    } else {
        let p = pairs[i];
        if seen.contains(p.address) {
            dfs_cycles(pairs, token_in, token_out, hops, current, acc, seen, i + 1)
        } else {
            match other_token(p, token_in) {
                None => dfs_cycles(pairs, token_in, token_out, hops, current, acc, seen, i + 1),
                Some(out) => {
                    if out == token_out {
                        dfs_cycles(pairs, token_in, token_out, hops, current, acc.push(current.push(p)), seen, i + 1)
                    } else if hops > 1 {
                        let inner = dfs_cycles(pairs, out, token_out, hops - 1, current.push(p), acc, seen.insert(p.address), 0);
                        dfs_cycles(pairs, token_in, token_out, hops, current, inner, seen, i + 1)
                    } else {
                        dfs_cycles(pairs, token_in, token_out, hops, current, acc, seen, i + 1)
                    }
                },
            }
        }
    }
}

/// `ext` leads from `t` to `token_out` in at most `hops` steps, reaching
/// `token_out` only at its end.
pub open spec fn leads_to(ext: Seq<IndexedPair>, t: usize, token_out: usize, hops: int) -> bool
    decreases ext.len(),
{
    if ext.len() == 0 {
        false
    } else {
        match other_token(ext[0], t) {
            None => false,
            Some(u) => if ext.len() == 1 {
                u == token_out
            } else {
                u != token_out && hops > 1 && leads_to(ext.drop_first(), u, token_out, hops - 1)
            },
        }
    }
}

/// `ext` is a path of distinct, unseen pairs taken from `pairs` that leads
/// from `t` to `token_out` within `hops` steps.
pub open spec fn is_extension(
    pairs: Seq<IndexedPair>,
    ext: Seq<IndexedPair>,
    t: usize,
    token_out: usize,
    hops: int,
    seen: Set<usize>,
) -> bool {
    &&& leads_to(ext, t, token_out, hops)
    &&& forall|k: int| 0 <= k < ext.len() ==> pairs.contains(#[trigger] ext[k])
    &&& forall|k: int| 0 <= k < ext.len() ==> !seen.contains(#[trigger] ext[k].address)
    &&& forall|k: int, l: int| 0 <= k < l < ext.len() ==> #[trigger] ext[k].address != #[trigger] ext[l].address
}

/// Law: the enumeration keeps what was found before and appends only cycles,
/// each the current path followed by a path of distinct, unused pairs that
/// leads from `token_in` to `token_out` within `hops` steps.
pub proof fn lemma_dfs_cycles_sound(
    pairs: Seq<IndexedPair>,
    token_in: usize,
    token_out: usize,
    hops: int,
    current: Seq<IndexedPair>,
    acc: Seq<Seq<IndexedPair>>,
    seen: Set<usize>,
    i: int,
)
    ensures
        ({
            let r = dfs_cycles(pairs, token_in, token_out, hops, current, acc, seen, i);
            &&& r.len() >= acc.len()
            &&& r.subrange(0, acc.len() as int) == acc
            &&& forall|k: int| acc.len() <= k < r.len() ==> is_found_cycle(pairs, #[trigger] r[k], current, token_in, token_out, hops, seen)
        }),
    decreases hops, pairs.len() - i,
{
    let r = dfs_cycles(pairs, token_in, token_out, hops, current, acc, seen, i);
    if i < 0 || i >= pairs.len() {
        assert(r.subrange(0, acc.len() as int) =~= acc);
    } else {
        let p = pairs[i];
        if seen.contains(p.address) {
            lemma_dfs_cycles_sound(pairs, token_in, token_out, hops, current, acc, seen, i + 1);
        } else {
            match other_token(p, token_in) {
                None => {
                    lemma_dfs_cycles_sound(pairs, token_in, token_out, hops, current, acc, seen, i + 1);
                },
                Some(out) => {
                    if out == token_out {
                        let acc2 = acc.push(current.push(p));
                        lemma_dfs_cycles_sound(pairs, token_in, token_out, hops, current, acc2, seen, i + 1);
                        assert(r == dfs_cycles(pairs, token_in, token_out, hops, current, acc2, seen, i + 1));
                        assert(r.subrange(0, acc2.len() as int) == acc2);
                        assert(r.subrange(0, acc.len() as int) =~= acc) by {
                            assert forall|j: int| 0 <= j < acc.len() implies r[j] == acc[j] by {
                                assert(r.subrange(0, acc2.len() as int)[j] == acc2[j]);
                            }
                        }
                        assert forall|k: int| acc.len() <= k < r.len() implies is_found_cycle(pairs, #[trigger] r[k], current, token_in, token_out, hops, seen) by {
                            if k == acc.len() {
                                let ext = seq![p];
                                assert(r[k] == r.subrange(0, acc2.len() as int)[k]);
                                assert(r[k] == current.push(p));
                                assert(current.push(p) =~= current + ext);
                                assert(r[k] == current + ext);
                                assert(ext.drop_first().len() == 0);
                                assert(pairs.contains(ext[0]));
                                assert(leads_to(ext, token_in, token_out, hops));
                                assert(is_extension(pairs, ext, token_in, token_out, hops, seen));
                            }
                        }
                    } else if hops > 1 {
                        let seen2 = seen.insert(p.address);
                        let cur2 = current.push(p);
                        let inner = dfs_cycles(pairs, out, token_out, hops - 1, cur2, acc, seen2, 0);
                        lemma_dfs_cycles_sound(pairs, out, token_out, hops - 1, cur2, acc, seen2, 0);
                        lemma_dfs_cycles_sound(pairs, token_in, token_out, hops, current, inner, seen, i + 1);
                        assert(r == dfs_cycles(pairs, token_in, token_out, hops, current, inner, seen, i + 1));
                        assert(r.subrange(0, acc.len() as int) =~= acc) by {
                            assert forall|j: int| 0 <= j < acc.len() implies r[j] == acc[j] by {
                                assert(r.subrange(0, inner.len() as int)[j] == inner[j]);
                                assert(inner.subrange(0, acc.len() as int)[j] == acc[j]);
                            }
                        }
                        assert forall|k: int| acc.len() <= k < r.len() implies is_found_cycle(pairs, #[trigger] r[k], current, token_in, token_out, hops, seen) by {
                            if k < inner.len() {
                                assert(r[k] == r.subrange(0, inner.len() as int)[k]);
                                assert(r[k] == inner[k]);
                                assert(is_found_cycle(pairs, inner[k], cur2, out, token_out, hops - 1, seen2));
                                let ext2 = choose|ext2: Seq<IndexedPair>|
                                    inner[k] == cur2 + ext2 && #[trigger] is_extension(pairs, ext2, out, token_out, hops - 1, seen2);
                                let ext = seq![p] + ext2;
                                assert(cur2 + ext2 =~= current + ext);
                                assert(inner[k] =~= cur2 + ext2);
                                assert(r[k] == current + ext);
                                assert(ext.drop_first() =~= ext2);
                                assert(ext2.len() > 0);
                                assert(leads_to(ext, token_in, token_out, hops));
                                assert forall|a: int| 0 <= a < ext.len() implies pairs.contains(#[trigger] ext[a]) by {
                                    if a > 0 {
                                        assert(ext[a] == ext2[a - 1]);
                                    }
                                }
                                assert forall|a: int| 0 <= a < ext.len() implies !seen.contains(#[trigger] ext[a].address) by {
                                    if a > 0 {
                                        assert(ext[a] == ext2[a - 1]);
                                        assert(!seen2.contains(ext2[a - 1].address));
                                    }
                                }
                                assert forall|a: int, b: int| 0 <= a < b < ext.len() implies #[trigger] ext[a].address != #[trigger] ext[b].address by {
                                    assert(ext[b] == ext2[b - 1]);
                                    if a > 0 {
                                        assert(ext[a] == ext2[a - 1]);
                                    } else {
                                        assert(!seen2.contains(ext2[b - 1].address));
                                        assert(seen2.contains(p.address));
                                    }
                                }
                                assert(is_extension(pairs, ext, token_in, token_out, hops, seen));
                            }
                        }
                    } else {
                        lemma_dfs_cycles_sound(pairs, token_in, token_out, hops, current, acc, seen, i + 1);
                    }
                },
            }
        }
    }
}

/// Law: the enumeration misses no cycle: every path of distinct, unused
/// pairs that leads from `token_in` to `token_out` within `hops` steps, and
/// whose first pair comes at or after position `i`, is found (after `current`).
pub proof fn lemma_dfs_cycles_complete(
    pairs: Seq<IndexedPair>,
    token_in: usize,
    token_out: usize,
    hops: int,
    current: Seq<IndexedPair>,
    acc: Seq<Seq<IndexedPair>>,
    seen: Set<usize>,
    i: int,
    ext: Seq<IndexedPair>,
)
    requires
        0 <= i < pairs.len(),
        is_extension(pairs, ext, token_in, token_out, hops, seen),
        pairs.subrange(i, pairs.len() as int).contains(ext[0]),
    ensures
        dfs_cycles(pairs, token_in, token_out, hops, current, acc, seen, i).contains(current + ext),
    decreases hops, pairs.len() - i,
{
    let tail = pairs.subrange(i, pairs.len() as int);
    let w = choose|w: int| 0 <= w < tail.len() && tail[w] == ext[0];
    assert(tail[w] == pairs[i + w]);
    let p = pairs[i];
    let r = dfs_cycles(pairs, token_in, token_out, hops, current, acc, seen, i);
    assert(ext.len() > 0);
    if p == ext[0] {
        assert(!seen.contains(p.address));
        let u = other_token(p, token_in)->0;
        if ext.len() == 1 {
            assert(u == token_out);
            let acc2 = acc.push(current.push(p));
            lemma_dfs_cycles_sound(pairs, token_in, token_out, hops, current, acc2, seen, i + 1);
            assert(r.subrange(0, acc2.len() as int) == acc2);
            assert(r[acc.len() as int] == r.subrange(0, acc2.len() as int)[acc.len() as int]);
            assert(current.push(p) =~= current + ext);
            assert(r[acc.len() as int] == current + ext);
        } else {
            let rest = ext.drop_first();
            assert(u != token_out && hops > 1);
            let seen2 = seen.insert(p.address);
            let cur2 = current.push(p);
            assert(is_extension(pairs, rest, u, token_out, hops - 1, seen2)) by {
                assert forall|k: int| 0 <= k < rest.len() implies pairs.contains(#[trigger] rest[k]) by {
                    assert(rest[k] == ext[k + 1]);
                }
                assert forall|k: int| 0 <= k < rest.len() implies !seen2.contains(#[trigger] rest[k].address) by {
                    assert(rest[k] == ext[k + 1]);
                    assert(ext[0].address != ext[k + 1].address);
                    assert(!seen.contains(ext[k + 1].address));
                }
                assert forall|k: int, l: int| 0 <= k < l < rest.len() implies #[trigger] rest[k].address != #[trigger] rest[l].address by {
                    assert(rest[k] == ext[k + 1] && rest[l] == ext[l + 1]);
                }
            }
            assert(pairs.contains(rest[0])) by {
                assert(rest[0] == ext[1]);
            }
            assert(pairs.subrange(0, pairs.len() as int) =~= pairs);
            let inner = dfs_cycles(pairs, u, token_out, hops - 1, cur2, acc, seen2, 0);
            lemma_dfs_cycles_complete(pairs, u, token_out, hops - 1, cur2, acc, seen2, 0, rest);
            assert(cur2 + rest =~= current + ext);
            let k = choose|k: int| 0 <= k < inner.len() && inner[k] == current + ext;
            lemma_dfs_cycles_sound(pairs, token_in, token_out, hops, current, inner, seen, i + 1);
            assert(r == dfs_cycles(pairs, token_in, token_out, hops, current, inner, seen, i + 1));
            assert(r.subrange(0, inner.len() as int) == inner);
            assert(r.subrange(0, inner.len() as int)[k] == inner[k]);
            assert(r[k] == current + ext);
        }
    } else {
        assert(w > 0);
        assert(pairs.subrange(i + 1, pairs.len() as int)[w - 1] == ext[0]);
        let next_acc = if seen.contains(p.address) {
            acc
        } else {
            match other_token(p, token_in) {
                None => acc,
                Some(out) => if out == token_out {
                    acc.push(current.push(p))
                } else if hops > 1 {
                    dfs_cycles(pairs, out, token_out, hops - 1, current.push(p), acc, seen.insert(p.address), 0)
                } else {
                    acc
                },
            }
        };
        assert(r == dfs_cycles(pairs, token_in, token_out, hops, current, next_acc, seen, i + 1));
        lemma_dfs_cycles_complete(pairs, token_in, token_out, hops, current, next_acc, seen, i + 1, ext);
    }
}

/// `c` is the path `current` followed by an extension from `t` to `token_out`.
pub open spec fn is_found_cycle(
    pairs: Seq<IndexedPair>,
    c: Seq<IndexedPair>,
    current: Seq<IndexedPair>,
    t: usize,
    token_out: usize,
    hops: int,
    seen: Set<usize>,
) -> bool {
    exists|ext: Seq<IndexedPair>| c == current + ext && #[trigger] is_extension(pairs, ext, t, token_out, hops, seen)
}

fn copy_vec<T: Copy>(v: &Vec<T>) -> (r: Vec<T>)
    ensures
        r@ == v@,
{
    let mut r: Vec<T> = Vec::new();
    let mut i: usize = 0;
    while i < v.len()
        invariant
            i <= v@.len(),
            r@ == v@.subrange(0, i as int),
        decreases v@.len() - i,
    {
        r.push(v[i]);
        i = i + 1;
        assert(r@ =~= v@.subrange(0, i as int));
    }
    assert(r@ =~= v@);
    r
}

fn copy_cycles(v: &Vec<Cycle>) -> (r: Vec<Cycle>)
    ensures
        cycles_view(r@) == cycles_view(v@),
{
    let mut r: Vec<Cycle> = Vec::new();
    let mut i: usize = 0;
    while i < v.len()
        invariant
            i <= v@.len(),
            r@.len() == i,
            cycles_view(r@) == cycles_view(v@).subrange(0, i as int),
        decreases v@.len() - i,
    {
        let c = copy_vec(&v[i]);
        assert(c@ == v@[i as int]@);
        let ghost before = r@;
        r.push(c);
        assert(r@ == before.push(c));
        i = i + 1;
        assert(cycles_view(r@) =~= cycles_view(v@).subrange(0, i as int)) by {
            assert forall|j: int| 0 <= j < i implies cycles_view(r@)[j] == cycles_view(v@)[j] by {
                if j < i - 1 {
                    assert(r@[j] == before[j]);
                    assert(cycles_view(before)[j] == cycles_view(v@)[j]);
                }
            }
        }
    }
    assert(cycles_view(r@) =~= cycles_view(v@));
    r
}

/// Depth-first search for the cycles from `token_in` to `token_out` of at most
/// `max_hops` pairs, appended to a copy of `circles`; `seen` holds the pool
/// indices already on the path and `current_pairs` the path itself.
pub fn find_cycles(
    pairs: &Vec<IndexedPair>,
    token_in: usize,
    token_out: usize,
    max_hops: i32,
    current_pairs: &Vec<IndexedPair>,
    circles: &mut Vec<Cycle>,
    seen: &mut HashSet<usize>,
) -> (r: Vec<Cycle>)
    ensures
        cycles_view(final(circles)@) == cycles_view(old(circles)@),
        final(seen)@ == old(seen)@,
        cycles_view(r@) == dfs_cycles(pairs@, token_in, token_out, max_hops as int, current_pairs@,
            cycles_view(old(circles)@), old(seen)@, 0),
    decreases max_hops,
{
    broadcast use vstd::std_specs::hash::group_hash_axioms;
    let mut circles_copy: Vec<Cycle> = copy_cycles(circles);
    let ghost start = cycles_view(circles@);
    let ghost seen0 = seen@;
    let mut i: usize = 0;
    while i < pairs.len()
        invariant
            i <= pairs@.len(),
            seen@ == seen0,
            dfs_cycles(pairs@, token_in, token_out, max_hops as int, current_pairs@, cycles_view(circles_copy@), seen@, i as int)
                == dfs_cycles(pairs@, token_in, token_out, max_hops as int, current_pairs@, start, seen@, 0),
        decreases pairs@.len() - i,
    {
        let pair = pairs[i];
        if !seen.contains(&pair.address) {
            let has_out: bool;
            let temp_out: usize;
            if token_in == pair.token0 {
                temp_out = pair.token1;
                has_out = true;
            } else if token_in == pair.token1 {
                temp_out = pair.token0;
                has_out = true;
            } else {
                temp_out = 0;
                has_out = false;
            }
            if has_out {
                if temp_out == token_out {
                    let mut new_cycle = copy_vec(current_pairs);
                    new_cycle.push(pair);
                    let ghost before = cycles_view(circles_copy@);
                    circles_copy.push(new_cycle);
                    assert(cycles_view(circles_copy@) =~= before.push(current_pairs@.push(pair)));
                } else if max_hops > 1 {
                    let mut new_pairs: Vec<IndexedPair> = copy_vec(current_pairs);
                    new_pairs.push(pair);
                    seen.insert(pair.address);
                    circles_copy = find_cycles(
                        pairs,
                        temp_out,
                        token_out,
                        max_hops - 1,
                        &new_pairs,
                        &mut circles_copy,
                        seen,
                    );
                    seen.remove(&pair.address);
                    assert(seen@ =~= seen0);
                }
            }
        }
        i = i + 1;
    }
    circles_copy
}

/// Registers a token: a token not seen yet gets the next index.
pub open spec fn add_token(st: (Seq<Address>, Map<Address, usize>), t: Address) -> (Seq<Address>, Map<Address, usize>) {
    if st.1.contains_key(t) {
        st
    } else {
        (st.0.push(t), st.1.insert(t, st.0.len() as usize))
    }
}

/// Registers a pool: its address always gets the next index (a repeated
/// address is re-pointed there), then each of its tokens not seen yet.
pub open spec fn register_pool(st: (Seq<Address>, Map<Address, usize>), p: UniV2Pool) -> (Seq<Address>, Map<Address, usize>) {
    let s1 = (st.0.push(p.address), st.1.insert(p.address, st.0.len() as usize));
    add_token(add_token(s1, p.token0), p.token1)
}

/// The index → address list and the address → index map after registering `pools` in order.
pub open spec fn registered(pools: Seq<UniV2Pool>) -> (Seq<Address>, Map<Address, usize>)
    decreases pools.len(),
{
    if pools.len() == 0 {
        (Seq::empty(), Map::empty())
    } else {
        register_pool(registered(pools.drop_last()), pools.last())
    }
}

pub open spec fn index_pair(am: Map<Address, usize>, p: UniV2Pool) -> IndexedPair {
    IndexedPair { address: am[p.address], token0: am[p.token0], token1: am[p.token1] }
}

pub open spec fn indexed_pairs(pools: Seq<UniV2Pool>, am: Map<Address, usize>) -> Seq<IndexedPair> {
    pools.map_values(|p: UniV2Pool| index_pair(am, p))
}

/// Each pool under the index of its address; a later pool with the same address wins.
pub open spec fn pairs_by_index(pools: Seq<UniV2Pool>, am: Map<Address, usize>) -> Map<usize, UniV2Pool>
    decreases pools.len(),
{
    if pools.len() == 0 {
        Map::empty()
    } else {
        pairs_by_index(pools.drop_last(), am).insert(am[pools.last().address], pools.last())
    }
}

/// How many pairs of `c` have a pool address whose index maps to `a`.
pub open spec fn touch_count(c: Seq<IndexedPair>, idx: Seq<Address>, a: Address) -> nat
    decreases c.len(),
{
    if c.len() == 0 {
        0
    } else {
        touch_count(c.drop_last(), idx, a) + (if idx[c.last().address as int] == a { 1nat } else { 0nat })
    }
}

/// The cycles that go through the pool at address `a`, in order, each once
/// per pair of it at that address.
pub open spec fn cycles_touching(cycles: Seq<Seq<IndexedPair>>, idx: Seq<Address>, a: Address) -> Seq<Seq<IndexedPair>>
    decreases cycles.len(),
{
    if cycles.len() == 0 {
        Seq::empty()
    } else {
        cycles_touching(cycles.drop_last(), idx, a)
            + Seq::new(touch_count(cycles.last(), idx, a), |k: int| cycles.last())
    }
}

proof fn lemma_touch_count_positive(c: Seq<IndexedPair>, idx: Seq<Address>, a: Address, k: int)
    requires
        0 <= k < c.len(),
        idx[c[k].address as int] == a,
    ensures
        touch_count(c, idx, a) > 0,
    decreases c.len(),
{
    if k < c.len() - 1 {
        assert(c.drop_last()[k] == c[k]);
        lemma_touch_count_positive(c.drop_last(), idx, a, k);
    }
}

proof fn lemma_touching_contains(cycles: Seq<Seq<IndexedPair>>, idx: Seq<Address>, a: Address, c: Seq<IndexedPair>)
    requires
        cycles.contains(c),
        touch_count(c, idx, a) > 0,
    ensures
        cycles_touching(cycles, idx, a).contains(c),
    decreases cycles.len(),
{
    let r = cycles_touching(cycles, idx, a);
    let prev = cycles_touching(cycles.drop_last(), idx, a);
    if cycles.last() == c {
        assert(r[prev.len() as int] == c);
    } else {
        let j = choose|j: int| 0 <= j < cycles.len() && cycles[j] == c;
        assert(j < cycles.len() - 1);
        assert(cycles.drop_last()[j] == c);
        lemma_touching_contains(cycles.drop_last(), idx, a, c);
        let q = choose|q: int| 0 <= q < prev.len() && prev[q] == c;
        assert(r[q] == prev[q]);
    }
}

/// Law: registering a set of pools files every cycle of at most three
/// distinct pairs from WETH back to WETH under the address of each pool it
/// goes through (`Mapping::new` stores exactly these lists).
pub proof fn lemma_every_cycle_filed(pools: Seq<UniV2Pool>, ext: Seq<IndexedPair>, k: int)
    requires
        ({
            let am = registered(pools).1;
            is_extension(indexed_pairs(pools, am), ext, am[weth_spec()], am[weth_spec()], 3, Set::empty())
        }),
        0 <= k < ext.len(),
    ensures
        ({
            let (idx, am) = registered(pools);
            cycles_touching(
                dfs_cycles(indexed_pairs(pools, am), am[weth_spec()], am[weth_spec()], 3, Seq::empty(), Seq::empty(), Set::empty(), 0),
                idx, idx[ext[k].address as int]).contains(ext)
        }),
{
    let (idx, am) = registered(pools);
    let ips = indexed_pairs(pools, am);
    let w = am[weth_spec()];
    assert(ips.subrange(0, ips.len() as int) =~= ips);
    assert(ips.contains(ext[0]));
    lemma_dfs_cycles_complete(ips, w, w, 3, Seq::empty(), Seq::empty(), Set::empty(), 0, ext);
    assert(Seq::<IndexedPair>::empty() + ext =~= ext);
    lemma_touch_count_positive(ext, idx, idx[ext[k].address as int], k);
    lemma_touching_contains(
        dfs_cycles(ips, w, w, 3, Seq::empty(), Seq::empty(), Set::empty(), 0), idx, idx[ext[k].address as int], ext);
}

/// Some pool names `t` as its address or one of its tokens.
pub open spec fn mentions(pools: Seq<UniV2Pool>, t: Address) -> bool {
    exists|k: int| 0 <= k < pools.len() && pool_mentions(#[trigger] pools[k], t)
}

/// `p` names `t` as its address or one of its tokens.
pub open spec fn pool_mentions(p: UniV2Pool, t: Address) -> bool {
    p.address == t || p.token0 == t || p.token1 == t
}

/// The cycles stored for address `a` (none when it has no entry).
pub open spec fn cycles_of(m: AddressMap<Vec<Cycle>>, a: Address) -> Seq<Seq<IndexedPair>> {
    if m@.contains_key(a) {
        cycles_view(m@[a]@)
    } else {
        Seq::empty()
    }
}

/// Indices for the addresses of a set of pools, the pools by index, and the
/// cycles through WETH grouped by the pools they go through.
pub struct Mapping {
    /// Index to address.
    pub index_mapping: HashMap<usize, Address>,
    /// Address to index.
    pub address_mapping: AddressMap<usize>,
    /// Index of a pool's address to the pool.
    pub pairs_mapping: HashMap<usize, UniV2Pool>,
    /// Pool address to the cycles through that pool.
    pub cycles_mapping: AddressMap<Vec<Cycle>>,
}

/// `m` maps each index below the length of `s` to the address at that position, and no other.
pub open spec fn indexes(m: Map<usize, Address>, s: Seq<Address>) -> bool {
    &&& m.dom().finite()
    &&& m.len() == s.len()
    &&& forall|i: usize| #[trigger] m.contains_key(i) <==> (i as int) < s.len()
    &&& forall|i: usize| (i as int) < s.len() ==> #[trigger] m[i] == s[i as int]
}

proof fn lemma_indexes_push(m: Map<usize, Address>, s: Seq<Address>, a: Address)
    requires
        indexes(m, s),
        s.len() < usize::MAX,
    ensures
        indexes(m.insert(s.len() as usize, a), s.push(a)),
{
    let n = s.len() as usize;
    assert(!m.contains_key(n));
    assert(m.insert(n, a).dom() == m.dom().insert(n));
    assert forall|i: usize| (i as int) < s.push(a).len() implies #[trigger] m.insert(n, a)[i] == s.push(a)[i as int] by {
        if i != n {
            assert(m.insert(n, a)[i] == m[i]);
        }
    }
}

/// Every registered address has an index in range that maps back to it.
pub open spec fn consistent(st: (Seq<Address>, Map<Address, usize>)) -> bool {
    forall|a: Address| #[trigger] st.1.contains_key(a) ==> st.1[a] < st.0.len() && st.0[st.1[a] as int] == a
}

proof fn lemma_register_pool_consistent(st: (Seq<Address>, Map<Address, usize>), p: UniV2Pool)
    requires
        consistent(st),
        st.0.len() + 3 <= usize::MAX,
    ensures
        consistent(register_pool(st, p)),
        register_pool(st, p).1.contains_key(p.address),
        register_pool(st, p).1.contains_key(p.token0),
        register_pool(st, p).1.contains_key(p.token1),
        forall|a: Address| st.1.contains_key(a) ==> #[trigger] register_pool(st, p).1.contains_key(a),
        register_pool(st, p).0.len() <= st.0.len() + 3,
{
    let s1 = (st.0.push(p.address), st.1.insert(p.address, st.0.len() as usize));
    assert forall|a: Address| #[trigger] s1.1.contains_key(a) implies s1.1[a] < s1.0.len() && s1.0[s1.1[a] as int] == a by {
        if a != p.address {
            assert(st.1.contains_key(a));
        }
    }
    let s2 = add_token(s1, p.token0);
    assert forall|a: Address| #[trigger] s2.1.contains_key(a) implies s2.1[a] < s2.0.len() && s2.0[s2.1[a] as int] == a by {
        if !s1.1.contains_key(p.token0) && a != p.token0 {
            assert(s1.1.contains_key(a));
        }
    }
    let s3 = add_token(s2, p.token1);
    assert forall|a: Address| #[trigger] s3.1.contains_key(a) implies s3.1[a] < s3.0.len() && s3.0[s3.1[a] as int] == a by {
        if !s2.1.contains_key(p.token1) && a != p.token1 {
            assert(s2.1.contains_key(a));
        }
    }
}

/// Law: registering keeps the two directions consistent (every registered
/// address has an index in range that maps back to it) and registers every
/// pool address and token.
pub proof fn lemma_registered_consistent(pools: Seq<UniV2Pool>)
    requires
        3 * pools.len() <= usize::MAX,
    ensures
        consistent(registered(pools)),
        forall|k: int| 0 <= k < pools.len() ==> {
            &&& registered(pools).1.contains_key(#[trigger] pools[k].address)
            &&& registered(pools).1.contains_key(pools[k].token0)
            &&& registered(pools).1.contains_key(pools[k].token1)
        },
        registered(pools).0.len() <= 3 * pools.len(),
    decreases pools.len(),
{
    if pools.len() > 0 {
        let prev = pools.drop_last();
        lemma_registered_consistent(prev);
        lemma_register_pool_consistent(registered(prev), pools.last());
        assert forall|k: int| 0 <= k < pools.len() implies {
            &&& registered(pools).1.contains_key(#[trigger] pools[k].address)
            &&& registered(pools).1.contains_key(pools[k].token0)
            &&& registered(pools).1.contains_key(pools[k].token1)
        } by {
            if k < pools.len() - 1 {
                assert(pools[k] == prev[k]);
            }
        }
    }
}

fn push_cycle(map: &mut AddressMap<Vec<Cycle>>, key: Address, c: Cycle)
    requires
        old(map).wf(),
    ensures
        final(map).wf(),
        cycles_of(*final(map), key) == cycles_of(*old(map), key).push(c@),
        final(map)@.contains_key(key),
        forall|a: Address| a != key ==> (#[trigger] final(map)@.contains_key(a) == old(map)@.contains_key(a)),
        forall|a: Address| a != key ==> #[trigger] cycles_of(*final(map), a) == cycles_of(*old(map), a),
{
    let mut v: Vec<Cycle> = match map.get(&key) {
        Some(old) => copy_cycles(old),
        None => Vec::new(),
    };
    let ghost before = cycles_view(v@);
    v.push(c);
    assert(cycles_view(v@) =~= before.push(c@));
    map.insert(key, v);
}

impl Mapping {
    /// The two address-keyed maps hold each address once.
    pub open spec fn wf(&self) -> bool {
        self.address_mapping.wf() && self.cycles_mapping.wf()
    }

    /// Registers the pools, indexes them, finds every cycle of at most three
    /// pairs from WETH back to WETH, and files each cycle under the pools it uses.
    pub fn new(pools: &Vec<UniV2Pool>) -> (m: Mapping)
        requires
            mentions(pools@, weth_spec()),
            3 * pools@.len() <= usize::MAX,
        ensures
            indexes(m.index_mapping@, registered(pools@).0),
            m.address_mapping@ == registered(pools@).1,
            m.address_mapping.wf(),
            m.pairs_mapping@ == pairs_by_index(pools@, registered(pools@).1),
            m.cycles_mapping.wf(),
            forall|a: Address| #[trigger] m.cycles_mapping@.contains_key(a) <==> cycles_of(m.cycles_mapping, a).len() > 0,
            forall|a: Address| #[trigger] cycles_of(m.cycles_mapping, a) == cycles_touching(
                dfs_cycles(indexed_pairs(pools@, registered(pools@).1), registered(pools@).1[weth_spec()],
                    registered(pools@).1[weth_spec()], 3, Seq::empty(), Seq::empty(), Set::empty(), 0),
                registered(pools@).0, a),
    {
        broadcast use vstd::std_specs::hash::group_hash_axioms;
        let mut index_mapping: HashMap<usize, Address> = HashMap::new();
        let ghost mut idx: Seq<Address> = Seq::empty();
        let mut address_mapping: AddressMap<usize> = AddressMap::new();
        let mut i: usize = 0;
        proof {
            assert(pools@.take(0) =~= Seq::<UniV2Pool>::empty());
        }
        while i < pools.len()
            invariant
                i <= pools@.len(),
                3 * pools@.len() <= usize::MAX,
                address_mapping.wf(),
                indexes(index_mapping@, idx),
                (idx, address_mapping@) == registered(pools@.take(i as int)),
            decreases pools@.len() - i,
        {
            let pair = pools[i];
            proof {
                assert(pools@.take(i + 1).drop_last() =~= pools@.take(i as int));
                lemma_registered_consistent(pools@.take(i as int));
                lemma_indexes_push(index_mapping@, idx, pair.address);
            }
            let current_len = index_mapping.len();
            index_mapping.insert(current_len, pair.address);
            proof {
                idx = idx.push(pair.address);
            }
            address_mapping.insert(pair.address, current_len);
            if !address_mapping.contains_key(&pair.token0) {
                proof {
                    lemma_indexes_push(index_mapping@, idx, pair.token0);
                }
                let l = index_mapping.len();
                index_mapping.insert(l, pair.token0);
                proof {
                    idx = idx.push(pair.token0);
                }
                address_mapping.insert(pair.token0, l);
            }
            if !address_mapping.contains_key(&pair.token1) {
                proof {
                    lemma_indexes_push(index_mapping@, idx, pair.token1);
                }
                let l = index_mapping.len();
                index_mapping.insert(l, pair.token1);
                proof {
                    idx = idx.push(pair.token1);
                }
                address_mapping.insert(pair.token1, l);
            }
            i = i + 1;
        }
        proof {
            assert(pools@.take(pools@.len() as int) =~= pools@);
            lemma_registered_consistent(pools@);
        }
        let ghost am = address_mapping@;

        let mut ips: Vec<IndexedPair> = Vec::new();
        let mut pairs_mapping: HashMap<usize, UniV2Pool> = HashMap::new();
        let mut j: usize = 0;
        while j < pools.len()
            invariant
                j <= pools@.len(),
                address_mapping.wf(),
                address_mapping@ == am,
                am == registered(pools@).1,
                forall|k: int| 0 <= k < pools@.len() ==> {
                    &&& am.contains_key(#[trigger] pools@[k].address)
                    &&& am.contains_key(pools@[k].token0)
                    &&& am.contains_key(pools@[k].token1)
                },
                ips@ == indexed_pairs(pools@.take(j as int), am),
                pairs_mapping@ == pairs_by_index(pools@.take(j as int), am),
            decreases pools@.len() - j,
        {
            let pair = pools[j];
            assert(am.contains_key(pools@[j as int].address));
            let a = match address_mapping.get(&pair.address) { Some(x) => *x, None => 0 };
            let t0 = match address_mapping.get(&pair.token0) { Some(x) => *x, None => 0 };
            let t1 = match address_mapping.get(&pair.token1) { Some(x) => *x, None => 0 };
            let ip = IndexedPair { address: a, token0: t0, token1: t1 };
            ips.push(ip);
            pairs_mapping.insert(a, pair);
            proof {
                assert(pools@.take(j + 1).drop_last() =~= pools@.take(j as int));
                assert(ips@ =~= indexed_pairs(pools@.take(j + 1), am));
            }
            j = j + 1;
        }
        proof {
            assert(pools@.take(pools@.len() as int) =~= pools@);
            assert(mentions(pools@, weth_spec()));
            let k = choose|k: int| 0 <= k < pools@.len() && pool_mentions(#[trigger] pools@[k], weth_spec());
            lemma_registered_consistent(pools@);
            assert(registered(pools@).1.contains_key(pools@[k].address));
            assert(am.contains_key(weth_spec()));
        }
        let weth = weth_address();
        let weth_index = match address_mapping.get(&weth) { Some(x) => *x, None => 0 };

        let mut no_circles: Vec<Cycle> = Vec::new();
        let mut no_seen: HashSet<usize> = HashSet::new();
        let no_pairs: Vec<IndexedPair> = Vec::new();
        let cycles = find_cycles(&ips, weth_index, weth_index, 3, &no_pairs, &mut no_circles, &mut no_seen);
        let ghost cv = cycles_view(cycles@);
        proof {
            assert(cycles_view(Seq::<Vec<IndexedPair>>::empty()) =~= Seq::<Seq<IndexedPair>>::empty());
            assert(no_pairs@ =~= Seq::<IndexedPair>::empty());
            lemma_dfs_cycles_sound(ips@, weth_index, weth_index, 3, Seq::empty(), Seq::empty(), Set::empty(), 0);
            assert forall|k: int| 0 <= k < ips@.len() implies (#[trigger] ips@[k]).address < idx.len() by {
                assert(ips@[k] == index_pair(am, pools@[k]));
            }
        }

        let mut cycles_mapping: AddressMap<Vec<Cycle>> = AddressMap::new();
        let mut ci: usize = 0;
        while ci < cycles.len()
            invariant
                ci <= cycles@.len(),
                cycles_mapping.wf(),
                cv == cycles_view(cycles@),
                indexes(index_mapping@, idx),
                forall|k: int| 0 <= k < ips@.len() ==> (#[trigger] ips@[k]).address < idx.len(),
                forall|k: int| 0 <= k < cv.len() ==> is_found_cycle(ips@, #[trigger] cv[k], Seq::empty(), weth_index, weth_index, 3, Set::empty()),
                forall|a: Address| #[trigger] cycles_of(cycles_mapping, a) == cycles_touching(cv.take(ci as int), idx, a),
                forall|a: Address| #[trigger] cycles_mapping@.contains_key(a) ==> cycles_of(cycles_mapping, a).len() > 0,
            decreases cycles@.len() - ci,
        {
            let c = &cycles[ci];
            let ghost cc = cv[ci as int];
            assert(c@ == cc);
            proof {
                assert(is_found_cycle(ips@, cv[ci as int], Seq::empty(), weth_index, weth_index, 3, Set::empty()));
                let ext = choose|ext: Seq<IndexedPair>| cc == Seq::<IndexedPair>::empty() + ext
                    && #[trigger] is_extension(ips@, ext, weth_index, weth_index, 3, Set::<usize>::empty());
                assert(cc =~= ext);
                assert forall|p: int| 0 <= p < cc.len() implies (#[trigger] cc[p]).address < idx.len() by {
                    assert(ips@.contains(ext[p]));
                    let q = choose|q: int| 0 <= q < ips@.len() && ips@[q] == ext[p];
                    assert(ips@[q].address < idx.len());
                }
                assert(cv.take(ci as int + 1).drop_last() =~= cv.take(ci as int));
                assert(cc.take(0) =~= Seq::<IndexedPair>::empty());
                assert forall|a: Address| #[trigger] cycles_of(cycles_mapping, a) == cycles_touching(cv.take(ci as int), idx, a)
                    + Seq::new(touch_count(cc.take(0), idx, a), |k: int| cc) by {
                    assert(cycles_touching(cv.take(ci as int), idx, a) + Seq::new(touch_count(cc.take(0), idx, a), |k: int| cc)
                        =~= cycles_touching(cv.take(ci as int), idx, a));
                }
            }
            let mut pj: usize = 0;
            while pj < c.len()
                invariant
                    pj <= c@.len(),
                    c@ == cc,
                    cycles_mapping.wf(),
                    indexes(index_mapping@, idx),
                    forall|p: int| 0 <= p < cc.len() ==> (#[trigger] cc[p]).address < idx.len(),
                    forall|a: Address| #[trigger] cycles_of(cycles_mapping, a) == cycles_touching(cv.take(ci as int), idx, a)
                        + Seq::new(touch_count(cc.take(pj as int), idx, a), |k: int| cc),
                    forall|a: Address| #[trigger] cycles_mapping@.contains_key(a) ==> cycles_of(cycles_mapping, a).len() > 0,
                decreases c@.len() - pj,
            {
                let ip = c[pj];
                assert(ip == cc[pj as int]);
                assert(index_mapping@.contains_key(ip.address));
                let key = match index_mapping.get(&ip.address) {
                    Some(a) => *a,
                    None => {
                        assert(false);
                        Address { hi: 0, lo: 0 }
                    },
                };
                let copy = copy_vec(c);
                let ghost pre = cycles_mapping;
                push_cycle(&mut cycles_mapping, key, copy);
                proof {
                    assert(cc.take(pj + 1).drop_last() =~= cc.take(pj as int));
                    assert forall|a: Address| #[trigger] cycles_of(cycles_mapping, a) == cycles_touching(cv.take(ci as int), idx, a)
                        + Seq::new(touch_count(cc.take(pj + 1), idx, a), |k: int| cc) by {
                        let n = touch_count(cc.take(pj as int), idx, a);
                        if a == key {
                            assert(Seq::new(n, |k: int| cc).push(cc) =~= Seq::new(n + 1, |k: int| cc));
                            assert((cycles_touching(cv.take(ci as int), idx, a) + Seq::new(n, |k: int| cc)).push(cc)
                                =~= cycles_touching(cv.take(ci as int), idx, a) + Seq::new(n + 1, |k: int| cc));
                        } else {
                            assert(cycles_of(cycles_mapping, a) == cycles_of(pre, a));
                        }
                    }
                }
                pj = pj + 1;
            }
            proof {
                assert(cc.take(cc.len() as int) =~= cc);
            }
            ci = ci + 1;
        }
        proof {
            assert(cv.take(cv.len() as int) =~= cv);
        }
        Mapping { index_mapping, address_mapping, pairs_mapping, cycles_mapping }
    }
}

} // verus!
