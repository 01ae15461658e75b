//! The token graph: tokens as nodes, pools as weighted directed edges, the
//! reconstruction of negative cycles, and the search for the best trade size
//! on a cycle.

use vstd::prelude::*;
use vstd::arithmetic::div_mod::lemma_small_mod;
use dashmap::{DashMap, DashSet};
use crate::address::Address;
use crate::dash::{
    edge_entries, edge_map_entries, edge_map_get, edge_map_insert, new_edge_map, new_node_map, new_path_set, node_entries,
    node_map_entries, node_map_get, node_map_insert, path_entries, path_set_insert, path_set_into_vec, predecessor_entries,
    predecessor_get, predecessor_keys,
};
use crate::alloy_math::{alloy_add, alloy_checked_sub, alloy_div, alloy_sub};
use crate::uint::{u256_max, u256_modulus, U256};

verus! {

/// A token of the graph.
#[derive(Clone, Copy, Debug, PartialEq, Eq, Structural)]
pub struct Node {
    pub address: Address,
}

impl Node {
    pub fn new(address: Address) -> (r: Node)
        ensures
            r.address == address,
    {
        Node { address }
    }
}

/// A directed edge from the token sold to the token bought through a pool;
/// `weight_bits` holds the bits of the `f64` weight, `-ln(price)`.
#[derive(Clone, Copy, Debug, PartialEq, Eq, Structural)]
pub struct Edge {
    pub from: Node,
    pub to: Node,
    pub weight_bits: u64,
    pub pool_address: Address,
}

impl Edge {
    pub fn new(from: Node, to: Node, weight_bits: u64, pool_address: Address) -> (r: Edge)
        ensures
            r == (Edge { from, to, weight_bits, pool_address }),
    {
        Edge { from, to, weight_bits, pool_address }
    }
}

/// Tokens keyed by address and edges keyed by (from, to).
pub struct Graph {
    pub nodes: DashMap<Address, Node>,
    pub edges: DashMap<(Address, Address), Edge>,
}

/// A cycle with the input that maximises its profit and that profit.
#[derive(Debug)]
pub struct ArbitrageOpportunity {
    pub path: Vec<Address>,
    pub optimal_amount_in: U256,
    pub expected_profit: U256,
}

impl ArbitrageOpportunity {
    pub open spec fn view(&self) -> (Seq<Address>, nat, nat) {
        (self.path@, self.optimal_amount_in.val(), self.expected_profit.val())
    }
}

impl Graph {
    /// The tokens by address.
    pub open spec fn node_map(&self) -> Map<Address, Node> {
        node_entries(self.nodes)
    }

    /// The edges by (token sold, token bought).
    pub open spec fn edge_map(&self) -> Map<(Address, Address), Edge> {
        edge_entries(self.edges)
    }

    /// Each token is filed under its own address and each edge under its two ends.
    pub open spec fn wf(&self) -> bool {
        &&& forall|a: Address| #[trigger] self.node_map().contains_key(a) ==> self.node_map()[a].address == a
        &&& forall|k: (Address, Address)| #[trigger] self.edge_map().contains_key(k)
            ==> self.edge_map()[k].from.address == k.0 && self.edge_map()[k].to.address == k.1
    }

    pub fn new() -> (g: Graph)
        ensures
            g.wf(),
            g.node_map().dom() == Set::<Address>::empty(),
            g.edge_map().dom() == Set::<(Address, Address)>::empty(),
    {
        Graph { nodes: new_node_map(), edges: new_edge_map() }
    }

    /// Adds a token (replacing the node of the same address).
    pub fn add_node(&mut self, node: Node)
        ensures
            final(self).node_map() == old(self).node_map().insert(node.address, node),
            final(self).edge_map() == old(self).edge_map(),
            old(self).wf() ==> final(self).wf(),
    {
        node_map_insert(&mut self.nodes, node.address, node);
    }

    /// Adds an edge under (from, to), replacing an earlier one.
    pub fn add_edge(&mut self, edge: Edge)
        ensures
            final(self).edge_map() == old(self).edge_map().insert((edge.from.address, edge.to.address), edge),
            final(self).node_map() == old(self).node_map(),
            old(self).wf() ==> final(self).wf(),
    {
        edge_map_insert(&mut self.edges, (edge.from.address, edge.to.address), edge);
    }

    /// Sets the edge between two known tokens.
    pub fn upsert_edge(&mut self, from: &Address, to: &Address, weight_bits: u64, pool_address: Address)
        requires
            old(self).node_map().contains_key(*from),
            old(self).node_map().contains_key(*to),
        ensures
            final(self).node_map() == old(self).node_map(),
            final(self).edge_map() == old(self).edge_map().insert((old(self).node_map()[*from].address, old(self).node_map()[*to].address),
                Edge { from: old(self).node_map()[*from], to: old(self).node_map()[*to], weight_bits, pool_address }),
            old(self).wf() ==> final(self).wf(),
    {
        let from_node = match node_map_get(&self.nodes, from) { Some(n) => n, None => Node { address: *from } };
        let to_node = match node_map_get(&self.nodes, to) { Some(n) => n, None => Node { address: *to } };
        let edge = Edge::new(from_node, to_node, weight_bits, pool_address);
        self.add_edge(edge);
    }

    /// The edge from `from` to `to`, if any.
    pub fn get_edge(&self, from: &Address, to: &Address) -> (r: Option<Edge>)
        ensures
            match r {
                Some(e) => self.edge_map().contains_key((*from, *to)) && e == self.edge_map()[(*from, *to)],
                None => !self.edge_map().contains_key((*from, *to)),
            },
    {
        edge_map_get(&self.edges, &(*from, *to))
    }

    /// All tokens, each once, in some order.
    pub fn get_nodes(&self) -> (r: Vec<Node>)
        requires
            self.wf(),
        ensures
            forall|i: int, j: int| 0 <= i < j < r@.len() ==> #[trigger] r@[i].address != #[trigger] r@[j].address,
            forall|i: int| 0 <= i < r@.len() ==> #[trigger] self.node_map().contains_key(r@[i].address)
                && self.node_map()[r@[i].address] == r@[i],
            forall|a: Address| #[trigger] self.node_map().contains_key(a) ==> exists|i: int| 0 <= i < r@.len() && r@[i].address == a,
    {
        let entries = node_map_entries(&self.nodes);
        let mut r: Vec<Node> = Vec::new();
        let mut i: usize = 0;
        while i < entries.len()
            invariant
                i <= entries@.len(),
                r@ == entries@.take(i as int).map_values(|e: (Address, Node)| e.1),
            decreases entries@.len() - i,
        {
            r.push(entries[i].1);
            i = i + 1;
            proof {
                assert(r@ =~= entries@.take(i as int).map_values(|e: (Address, Node)| e.1));
            }
        }
        proof {
            assert(entries@.take(i as int) =~= entries@);
            assert forall|k: int| 0 <= k < r@.len() implies r@[k] == entries@[k].1 && #[trigger] r@[k].address == entries@[k].0 by {
                assert(r@[k] == entries@[k].1);
                assert(self.node_map().contains_key(entries@[k].0));
            }
            assert forall|k: int, j: int| 0 <= k < j < r@.len() implies #[trigger] r@[k].address != #[trigger] r@[j].address by {
                assert(entries@[k].0 != entries@[j].0);
            }
            assert forall|a: Address| #[trigger] self.node_map().contains_key(a) implies exists|i: int| 0 <= i < r@.len() && r@[i].address == a by {
                let k = choose|k: int| 0 <= k < entries@.len() && entries@[k].0 == a;
                assert(r@[k] == entries@[k].1);
            }
        }
        r
    }

    /// All edges, each once, in some order.
    pub fn get_edges(&self) -> (r: Vec<Edge>)
        requires
            self.wf(),
        ensures
            forall|i: int, j: int| 0 <= i < j < r@.len() ==>
                (#[trigger] r@[i].from.address, r@[i].to.address) != (#[trigger] r@[j].from.address, r@[j].to.address),
            forall|i: int| 0 <= i < r@.len() ==> #[trigger] self.edge_map().contains_key((r@[i].from.address, r@[i].to.address))
                && self.edge_map()[(r@[i].from.address, r@[i].to.address)] == r@[i],
            forall|k: (Address, Address)| #[trigger] self.edge_map().contains_key(k)
                ==> exists|i: int| 0 <= i < r@.len() && (r@[i].from.address, r@[i].to.address) == k,
    {
        let entries = edge_map_entries(&self.edges);
        let mut r: Vec<Edge> = Vec::new();
        let mut i: usize = 0;
        while i < entries.len()
            invariant
                i <= entries@.len(),
                r@ == entries@.take(i as int).map_values(|e: ((Address, Address), Edge)| e.1),
            decreases entries@.len() - i,
        {
            r.push(entries[i].1);
            i = i + 1;
            proof {
                assert(r@ =~= entries@.take(i as int).map_values(|e: ((Address, Address), Edge)| e.1));
            }
        }
        proof {
            assert(entries@.take(i as int) =~= entries@);
            assert forall|q: int| 0 <= q < r@.len() implies #[trigger] r@[q] == entries@[q].1
                && (r@[q].from.address, r@[q].to.address) == entries@[q].0 by {
                assert(r@[q] == entries@[q].1);
                assert(self.edge_map().contains_key(entries@[q].0));
            }
            assert forall|q: int, j: int| 0 <= q < j < r@.len() implies
                (#[trigger] r@[q].from.address, r@[q].to.address) != (#[trigger] r@[j].from.address, r@[j].to.address) by {
                assert(entries@[q].0 != entries@[j].0);
                assert((r@[q].from.address, r@[q].to.address) == entries@[q].0);
                assert((r@[j].from.address, r@[j].to.address) == entries@[j].0);
            }
            assert forall|k: (Address, Address)| #[trigger] self.edge_map().contains_key(k)
                implies exists|i: int| 0 <= i < r@.len() && (r@[i].from.address, r@[i].to.address) == k by {
                let q = choose|q: int| 0 <= q < entries@.len() && entries@[q].0 == k;
                assert(r@[q] == entries@[q].1);
            }
        }
        r
    }
}

/// The predecessor recorded for `a` (none when `a` has no entry or no predecessor).
pub open spec fn pred_of(p: Map<Address, Option<Address>>, a: Address) -> Option<Address> {
    if p.contains_key(a) { p[a] } else { None }
}

/// The node reached from `s` after following `k` predecessors.
pub open spec fn walk(p: Map<Address, Option<Address>>, s: Address, k: nat) -> Option<Address>
    decreases k,
{
    if k == 0 {
        Some(s)
    } else {
        match walk(p, s, (k - 1) as nat) {
            Some(a) => pred_of(p, a),
            None => None,
        }
    }
}

/// The first `k` nodes of the walk exist and are distinct.
pub open spec fn walk_distinct(p: Map<Address, Option<Address>>, s: Address, k: nat) -> bool {
    &&& forall|i: nat| i < k ==> #[trigger] walk(p, s, i) is Some
    &&& forall|i: nat, j: nat| i < j < k ==> #[trigger] walk(p, s, i) != #[trigger] walk(p, s, j)
}

/// The walk first meets a node again at step `k`, the node of step `j`.
pub open spec fn first_repeat(p: Map<Address, Option<Address>>, s: Address, k: nat, j: nat) -> bool {
    &&& j < k
    &&& walk_distinct(p, s, k)
    &&& walk(p, s, k) is Some
    &&& walk(p, s, k) == walk(p, s, j)
}

/// The walk ends at step `k` without meeting a node again.
pub open spec fn walk_stops(p: Map<Address, Option<Address>>, s: Address, k: nat) -> bool {
    walk_distinct(p, s, k) && walk(p, s, k) is None
}

/// The cycle closed at step `k`, listed in edge direction: the nodes of steps
/// `k, k - 1, ..., j` (the first and last being the same node).
pub open spec fn cycle_seq(p: Map<Address, Option<Address>>, s: Address, k: nat, j: nat) -> Seq<Address> {
    Seq::new((k - j + 1) as nat, |i: int| walk(p, s, (k - i) as nat).unwrap())
}

/// The cycle that following predecessors from `s` runs into, if it runs into one.
pub open spec fn negative_cycle(p: Map<Address, Option<Address>>, s: Address) -> Option<Seq<Address>> {
    if exists|k: nat, j: nat| first_repeat(p, s, k, j) {
        let (k, j) = choose|k: nat, j: nat| first_repeat(p, s, k, j);
        Some(cycle_seq(p, s, k, j))
    } else {
        None
    }
}

pub proof fn lemma_first_repeat_unique(p: Map<Address, Option<Address>>, s: Address, k1: nat, j1: nat, k2: nat, j2: nat)
    requires
        first_repeat(p, s, k1, j1),
        first_repeat(p, s, k2, j2),
    ensures
        k1 == k2 && j1 == j2,
{
    if k1 < k2 {
        assert(walk(p, s, j1) != walk(p, s, k1));
    } else if k2 < k1 {
        assert(walk(p, s, j2) != walk(p, s, k2));
    } else {
        if j1 < j2 {
            assert(walk(p, s, j1) != walk(p, s, j2));
        } else if j2 < j1 {
            assert(walk(p, s, j2) != walk(p, s, j1));
        }
    }
}

proof fn lemma_distinct_keys_bound(v: Seq<Address>, keys: Seq<Address>, m: Map<Address, Option<Address>>)
    requires
        v.no_duplicates(),
        forall|i: int| 0 <= i < v.len() ==> m.contains_key(#[trigger] v[i]),
        forall|a: Address| #[trigger] m.contains_key(a) ==> keys.contains(a),
    ensures
        v.len() <= keys.len(),
{
    broadcast use vstd::seq_lib::seq_to_set_is_finite;
    assert(v.to_set().subset_of(keys.to_set())) by {
        assert forall|x: Address| v.to_set().contains(x) implies keys.to_set().contains(x) by {
            let i = choose|i: int| 0 <= i < v.len() && v[i] == x;
            assert(m.contains_key(v[i]));
        }
    }
    v.unique_seq_to_set();
    keys.lemma_cardinality_of_set();
    vstd::set_lib::lemma_len_subset(v.to_set(), keys.to_set());
}

fn index_of(v: &Vec<Address>, x: Address) -> (r: Option<usize>)
    ensures
        match r {
            Some(i) => i < v@.len() && v@[i as int] == x,
            None => !v@.contains(x),
        },
{
    let mut i: usize = 0;
    while i < v.len()
        invariant
            i <= v@.len(),
            forall|j: int| 0 <= j < i ==> v@[j] != x,
        decreases v@.len() - i,
    {
        if v[i] == x {
            return Some(i);
        }
        i = i + 1;
    }
    None
}

impl Graph {
    /// Follows predecessors from `start` until a node comes round again and
    /// returns that cycle in edge direction (first and last node equal), or
    /// `None` when the predecessors run out first.
    pub fn build_negative_cycle(&self, start: Address, predecessors: &DashMap<Address, Option<Address>>) -> (r: Option<Vec<Address>>)
        ensures
            match r {
                Some(c) => negative_cycle(predecessor_entries(*predecessors), start) == Some(c@),
                None => negative_cycle(predecessor_entries(*predecessors), start) is None,
            },
    {
        let keys = predecessor_keys(predecessors);
        self.follow_predecessors(start, predecessors, Ghost(keys@))
    }

    /// `build_negative_cycle`, given the keys of the predecessor map.
    fn follow_predecessors(&self, start: Address, predecessors: &DashMap<Address, Option<Address>>, Ghost(keys): Ghost<Seq<Address>>)
        -> (r: Option<Vec<Address>>)
        requires
            forall|a: Address| #[trigger] predecessor_entries(*predecessors).contains_key(a) ==> keys.contains(a),
        ensures
            match r {
                Some(c) => negative_cycle(predecessor_entries(*predecessors), start) == Some(c@),
                None => negative_cycle(predecessor_entries(*predecessors), start) is None,
            },
    {
        let ghost p = predecessor_entries(*predecessors);
        let mut current = start;
        let mut visited: Vec<Address> = Vec::new();
        loop
            invariant_except_break
                p == predecessor_entries(*predecessors),
                forall|a: Address| #[trigger] p.contains_key(a) ==> keys.contains(a),
                visited@.len() <= keys.len(),
                walk_distinct(p, start, visited@.len() as nat),
                walk(p, start, visited@.len() as nat) == Some(current),
                forall|i: int| 0 <= i < visited@.len() ==> walk(p, start, i as nat) == Some(#[trigger] visited@[i]),
                forall|i: int| 0 <= i < visited@.len() ==> p.contains_key(#[trigger] visited@[i]),
            ensures
                negative_cycle(p, start) is None,
            decreases keys.len() - visited@.len(),
        {
            let n = visited.len();
            match index_of(&visited, current) {
                Some(j) => {
                    let ghost k = n as nat;
                    proof {
                        assert(first_repeat(p, start, k, j as nat)) by {
                            assert(walk(p, start, j as nat) == Some(visited@[j as int]));
                        }
                    }
                    // collect the cycle: the nodes of steps j, j + 1, ..., n
                    let mut cycle_nodes: Vec<Address> = Vec::new();
                    cycle_nodes.push(current);
                    let mut t: usize = j + 1;
                    proof {
                        assert(cycle_nodes@ =~= Seq::new(1, |i: int| walk(p, start, (j + i) as nat).unwrap()));
                    }
                    while t < n
                        invariant
                            j < t <= n,
                            n == visited@.len(),
                            walk(p, start, n as nat) == Some(current),
                            forall|i: int| 0 <= i < visited@.len() ==> walk(p, start, i as nat) == Some(#[trigger] visited@[i]),
                            cycle_nodes@ == Seq::new((t - j) as nat, |i: int| walk(p, start, (j + i) as nat).unwrap()),
                        decreases n - t,
                    {
                        let ghost before = cycle_nodes@;
                        cycle_nodes.push(visited[t]);
                        proof {
                            assert(cycle_nodes@ =~= Seq::new((t + 1 - j) as nat, |i: int| walk(p, start, (j + i) as nat).unwrap()));
                        }
                        t = t + 1;
                    }
                    let ghost fwd = cycle_nodes@;
                    cycle_nodes.push(current);
                    proof {
                        assert(cycle_nodes@ =~= Seq::new((n + 1 - j) as nat, |i: int| walk(p, start, (j + i) as nat).unwrap()));
                    }
                    let mut result: Vec<Address> = Vec::new();
                    let len = cycle_nodes.len();
                    let mut q: usize = 0;
                    while q < len
                        invariant
                            q <= len,
                            len == cycle_nodes@.len(),
                            result@ == Seq::new(q as nat, |i: int| cycle_nodes@[len - 1 - i]),
                        decreases len - q,
                    {
                        result.push(cycle_nodes[len - 1 - q]);
                        q = q + 1;
                        proof {
                            assert(result@ =~= Seq::new(q as nat, |i: int| cycle_nodes@[len - 1 - i]));
                        }
                    }
                    proof {
                        assert(result@ =~= cycle_seq(p, start, k, j as nat));
                        let (k2, j2) = choose|k2: nat, j2: nat| first_repeat(p, start, k2, j2);
                        lemma_first_repeat_unique(p, start, k, j as nat, k2, j2);
                    }
                    return Some(result);
                },
                None => {},
            }
            let ghost old_visited = visited@;
            visited.push(current);
            proof {
                assert forall|i: nat, j: nat| i < j < visited@.len() implies
                    #[trigger] walk(p, start, i) != #[trigger] walk(p, start, j) by {
                    if j == n {
                        assert(walk(p, start, i) == Some(old_visited[i as int]));
                        assert(old_visited.contains(current) == false);
                    }
                }
            }
            match predecessor_get(predecessors, &current) {
                None => {
                    proof {
                        assert(walk(p, start, (n + 1) as nat) is None);
                        assert(walk_stops(p, start, (n + 1) as nat));
                        lemma_no_repeat_if_stops(p, start, (n + 1) as nat);
                    }
                    return None;
                },
                Some(pred) => {
                    match pred {
                        None => {
                            proof {
                                assert(walk(p, start, (n + 1) as nat) is None);
                                lemma_no_repeat_if_stops(p, start, (n + 1) as nat);
                            }
                            break;
                        },
                        Some(prev) => {
                            proof {
                                assert(walk(p, start, (n + 1) as nat) == Some(prev));
                                assert(visited@.no_duplicates()) by {
                                    assert forall|a: int, b: int| 0 <= a < visited@.len() && 0 <= b < visited@.len() && a != b
                                        implies visited@[a] != visited@[b] by {
                                        if a < b {
                                            assert(walk(p, start, a as nat) != walk(p, start, b as nat));
                                        } else {
                                            assert(walk(p, start, b as nat) != walk(p, start, a as nat));
                                        }
                                    }
                                }
                                lemma_distinct_keys_bound(visited@, keys, p);
                            }
                            current = prev;
                        },
                    }
                },
            }
        }
        None
    }
}

pub open spec fn paths_view(v: Seq<Vec<Address>>) -> Seq<Seq<Address>> {
    v.map_values(|c: Vec<Address>| c@)
}

/// A cycle that starts and ends with `weth`.
pub open spec fn through(c: Seq<Address>, weth: Address) -> bool {
    c.len() > 0 && c[0] == weth && c[c.len() - 1] == weth
}

/// The cycles through `weth` that following predecessors from one of the
/// first `n` candidate starts runs into.
pub open spec fn weth_cycle_set(p: Map<Address, Option<Address>>, starts: Seq<Address>, weth: Address, n: int) -> Set<Seq<Address>> {
    Set::new(|c: Seq<Address>| exists|k: int| 0 <= k < n && k < starts.len()
        && #[trigger] negative_cycle(p, starts[k]) == Some(c) && through(c, weth))
}

impl Graph {
    /// The distinct negative cycles through WETH reached from the heads of
    /// the edges that could still be relaxed (`candidates`), in some order.
    pub fn collect_weth_cycles(&self, candidates: &Vec<Address>, predecessors: &DashMap<Address, Option<Address>>, weth: Address)
        -> (r: Vec<Vec<Address>>)
        ensures
            forall|i: int, j: int| 0 <= i < j < r@.len() ==> #[trigger] r@[i]@ != #[trigger] r@[j]@,
            forall|i: int| 0 <= i < r@.len() ==> #[trigger] weth_cycle_set(predecessor_entries(*predecessors), candidates@, weth,
                candidates@.len() as int).contains(r@[i]@),
            forall|c: Seq<Address>| #[trigger] weth_cycle_set(predecessor_entries(*predecessors), candidates@, weth,
                candidates@.len() as int).contains(c) ==> exists|i: int| 0 <= i < r@.len() && r@[i]@ == c,
    {
        let ghost p = predecessor_entries(*predecessors);
        let keys = predecessor_keys(predecessors);
        let mut cycles: DashSet<Vec<Address>> = new_path_set();
        let mut i: usize = 0;
        assert(path_entries(cycles) =~= weth_cycle_set(p, candidates@, weth, 0));
        while i < candidates.len()
            invariant
                i <= candidates@.len(),
                p == predecessor_entries(*predecessors),
                forall|a: Address| #[trigger] p.contains_key(a) ==> keys@.contains(a),
                path_entries(cycles) == weth_cycle_set(p, candidates@, weth, i as int),
            decreases candidates@.len() - i,
        {
            let ghost before = path_entries(cycles);
            let found = self.follow_predecessors(candidates[i], predecessors, Ghost(keys@));
            match found {
                Some(cycle) => {
                    if cycle.len() > 0 && cycle[0] == weth && cycle[cycle.len() - 1] == weth {
                        let ghost c = cycle@;
                        path_set_insert(&mut cycles, cycle);
                        assert(path_entries(cycles) =~= weth_cycle_set(p, candidates@, weth, i + 1)) by {
                            assert(negative_cycle(p, candidates@[i as int]) == Some(c));
                            assert forall|d: Seq<Address>| weth_cycle_set(p, candidates@, weth, i + 1).contains(d)
                                implies #[trigger] path_entries(cycles).contains(d) by {
                                let k = choose|k: int| 0 <= k < i + 1 && k < candidates@.len()
                                    && #[trigger] negative_cycle(p, candidates@[k]) == Some(d) && through(d, weth);
                                if k < i {
                                    assert(before.contains(d));
                                }
                            }
                        }
                    } else {
                        assert(path_entries(cycles) =~= weth_cycle_set(p, candidates@, weth, i + 1)) by {
                            assert forall|d: Seq<Address>| weth_cycle_set(p, candidates@, weth, i + 1).contains(d)
                                implies #[trigger] path_entries(cycles).contains(d) by {
                                let k = choose|k: int| 0 <= k < i + 1 && k < candidates@.len()
                                    && #[trigger] negative_cycle(p, candidates@[k]) == Some(d) && through(d, weth);
                                if k == i {
                                    assert(negative_cycle(p, candidates@[i as int]) == Some(cycle@));
                                }
                                assert(before.contains(d));
                            }
                        }
                    }
                },
                None => {
                    assert(path_entries(cycles) =~= weth_cycle_set(p, candidates@, weth, i + 1)) by {
                        assert forall|d: Seq<Address>| weth_cycle_set(p, candidates@, weth, i + 1).contains(d)
                            implies #[trigger] path_entries(cycles).contains(d) by {
                            let k = choose|k: int| 0 <= k < i + 1 && k < candidates@.len()
                                && #[trigger] negative_cycle(p, candidates@[k]) == Some(d) && through(d, weth);
                            assert(k < i);
                            assert(before.contains(d));
                        }
                    }
                },
            }
            i = i + 1;
        }
        path_set_into_vec(cycles)
    }
}

/// Why the simulation of a swap failed.
#[derive(Clone, Copy, Debug, PartialEq, Eq, Structural)]
pub enum SimulationError {
    PoolNotFound,
    SwapFailed,
}

/// Why no trade was found on a cycle.
#[derive(Clone, Copy, Debug, PartialEq, Eq, Structural)]
pub enum TradeError {
    CycleNotClosed,
    InvalidAmount,
    EdgeNotFound,
    PoolNotFound,
    SwapFailed,
    ZeroOutput,
    Overflow,
    NoProfit,
}

pub open spec fn sim_view(r: Result<U256, SimulationError>) -> Result<nat, SimulationError> {
    match r {
        Ok(x) => Ok(x.val()),
        Err(e) => Err(e),
    }
}

/// What the simulator answers for selling `amount` of `from` for `to` in `pool`.
pub open spec fn sim_outcome<F: Fn(Address, Address, Address, U256) -> Result<U256, SimulationError>>(
    f: F,
    pool: Address,
    from: Address,
    to: Address,
    amount: nat,
) -> Result<nat, SimulationError> {
    sim_view((choose|q: (U256, Result<U256, SimulationError>)| q.0.val() == amount
        && call_ensures(f, (pool, from, to, q.0), q.1)).1)
}

/// The simulator answers equal questions equally.
pub open spec fn sim_deterministic<F: Fn(Address, Address, Address, U256) -> Result<U256, SimulationError>>(f: F) -> bool {
    forall|pool: Address, from: Address, to: Address, x1: U256, x2: U256, r1: Result<U256, SimulationError>, r2: Result<U256, SimulationError>|
        x1.val() == x2.val() && #[trigger] call_ensures(f, (pool, from, to, x1), r1) && #[trigger] call_ensures(f, (pool, from, to, x2), r2)
            ==> sim_view(r1) == sim_view(r2)
}

proof fn lemma_sim_outcome<F: Fn(Address, Address, Address, U256) -> Result<U256, SimulationError>>(
    f: F,
    pool: Address,
    from: Address,
    to: Address,
    x: U256,
    r: Result<U256, SimulationError>,
)
    requires
        sim_deterministic(f),
        call_ensures(f, (pool, from, to, x), r),
    ensures
        sim_outcome(f, pool, from, to, x.val()) == sim_view(r),
{
    let w = (x, r);
    assert(w.0.val() == x.val() && call_ensures(f, (pool, from, to, w.0), w.1));
    let q = choose|q: (U256, Result<U256, SimulationError>)| q.0.val() == x.val() && call_ensures(f, (pool, from, to, q.0), q.1);
    assert(q.0.val() == x.val() && call_ensures(f, (pool, from, to, q.0), q.1));
}

/// The amount held after the first `k` swaps along `cycle`, each through the
/// pool of the edge between consecutive tokens; zero outputs are errors.
pub open spec fn run_cycle<F: Fn(Address, Address, Address, U256) -> Result<U256, SimulationError>>(
    edges: Map<(Address, Address), Edge>,
    f: F,
    cycle: Seq<Address>,
    amount_in: nat,
    k: int,
) -> Result<nat, TradeError>
    decreases k,
{
    if k <= 0 {
        Ok(amount_in)
    } else {
        match run_cycle(edges, f, cycle, amount_in, k - 1) {
            Err(e) => Err(e),
            Ok(a) => {
                let from = cycle[k - 1];
                let to = cycle[k];
                if !edges.contains_key((from, to)) {
                    Err(TradeError::EdgeNotFound)
                } else {
                    match sim_outcome(f, edges[(from, to)].pool_address, from, to, a) {
                        Err(SimulationError::PoolNotFound) => Err(TradeError::PoolNotFound),
                        Err(SimulationError::SwapFailed) => Err(TradeError::SwapFailed),
                        Ok(out) => if out == 0 { Err(TradeError::ZeroOutput) } else { Ok(out) },
                    }
                }
            },
        }
    }
}

/// Number of swaps along a path of tokens.
pub open spec fn hops(cycle: Seq<Address>) -> int {
    if cycle.len() >= 1 { cycle.len() - 1 } else { 0 }
}

/// Profit of trading `amount_in` around `cycle`: what comes back minus what
/// went in; getting back exactly the input is no profit, and less is an error too.
pub open spec fn cycle_profit<F: Fn(Address, Address, Address, U256) -> Result<U256, SimulationError>>(
    edges: Map<(Address, Address), Edge>,
    f: F,
    cycle: Seq<Address>,
    amount_in: nat,
) -> Result<nat, TradeError> {
    if amount_in == 0 {
        Err(TradeError::InvalidAmount)
    } else {
        match run_cycle(edges, f, cycle, amount_in, hops(cycle)) {
            Err(e) => Err(e),
            Ok(a) => if a > amount_in {
                Ok((a - amount_in) as nat)
            } else if a == amount_in {
                Err(TradeError::NoProfit)
            } else {
                Err(TradeError::Overflow)
            },
        }
    }
}

/// One bisection step on `[left, right)`: a better profit at the midpoint
/// moves the search above it (recording it), anything else below it.
/// Returns (left, right, best profit, best input).
pub open spec fn search_step<F: Fn(Address, Address, Address, U256) -> Result<U256, SimulationError>>(
    edges: Map<(Address, Address), Edge>,
    f: F,
    cycle: Seq<Address>,
    left: nat,
    right: nat,
    best: nat,
    opt: nat,
) -> (nat, nat, nat, nat) {
    let mid = (left + (right - left) / 2) as nat;
    match cycle_profit(edges, f, cycle, mid) {
        Ok(p) => if p > best { ((mid + 1) as nat, right, p, mid) } else { (left, mid, best, opt) },
        Err(_) => (left, mid, best, opt),
    }
}

/// The bisection of `find_optimal_trade_amount` on `[left, right)` with the
/// best profit and input so far; it stops when the interval is empty or,
/// after a step, narrower than 10^6. Returns (input, profit).
pub open spec fn trade_search<F: Fn(Address, Address, Address, U256) -> Result<U256, SimulationError>>(
    edges: Map<(Address, Address), Edge>,
    f: F,
    cycle: Seq<Address>,
    left: nat,
    right: nat,
    best: nat,
    opt: nat,
) -> (nat, nat)
    decreases right - left,
{
    if left < right {
        let (l2, r2, b2, o2) = search_step(edges, f, cycle, left, right, best, opt);
        if r2 < l2 + 1000000 {
            (o2, b2)
        } else {
            trade_search(edges, f, cycle, l2, r2, b2, o2)
        }
    } else {
        (opt, best)
    }
}

/// The outcome of `find_optimal_trade_amount`: the cycle must start and end
/// with the same token; the bisection runs on [1, 2^256 - 1) wei, a zero best
/// profit is an error, and otherwise the fine-tuning around the bisection's
/// result picks the answer.
pub open spec fn optimal_trade<F: Fn(Address, Address, Address, U256) -> Result<U256, SimulationError>>(
    edges: Map<(Address, Address), Edge>,
    f: F,
    cycle: Seq<Address>,
) -> Result<(nat, nat), TradeError> {
    if cycle.len() > 0 && cycle[0] != cycle[cycle.len() - 1] {
        Err(TradeError::CycleNotClosed)
    } else {
        let (opt, best) = trade_search(edges, f, cycle, 1, u256_max(), 0, 0);
        if best == 0 {
            Err(TradeError::NoProfit)
        } else {
            Ok(fine_scan(edges, f, cycle, window_low(opt), window_high(opt), opt, best))
        }
    }
}

/// How far on each side of the bisection's result the fine-tuning looks.
pub open spec fn tune_radius() -> nat {
    10
}

/// The lowest input the fine-tuning tries around `opt` (at least 1).
pub open spec fn window_low(opt: nat) -> nat {
    if opt > tune_radius() { (opt - tune_radius()) as nat } else { 1 }
}

/// The highest input the fine-tuning tries around `opt` (at most 2^256 - 1).
pub open spec fn window_high(opt: nat) -> nat {
    if opt + tune_radius() <= u256_max() { opt + tune_radius() } else { u256_max() }
}

/// The fine-tuning: tries the inputs `x..=hi` in order and keeps the first
/// one that beats the best profit so far. Returns (input, profit).
pub open spec fn fine_scan<F: Fn(Address, Address, Address, U256) -> Result<U256, SimulationError>>(
    edges: Map<(Address, Address), Edge>,
    f: F,
    cycle: Seq<Address>,
    x: nat,
    hi: nat,
    opt: nat,
    best: nat,
) -> (nat, nat)
    decreases hi + 1 - x,
{
    if x > hi {
        (opt, best)
    } else {
        match cycle_profit(edges, f, cycle, x) {
            Ok(p) => if p > best {
                fine_scan(edges, f, cycle, x + 1, hi, x, p)
            } else {
                fine_scan(edges, f, cycle, x + 1, hi, opt, best)
            },
            Err(_) => fine_scan(edges, f, cycle, x + 1, hi, opt, best),
        }
    }
}

pub open spec fn profit_view(r: Result<U256, TradeError>) -> Result<nat, TradeError> {
    match r {
        Ok(x) => Ok(x.val()),
        Err(e) => Err(e),
    }
}

pub open spec fn trade_view(r: Result<(U256, U256), TradeError>) -> Result<(nat, nat), TradeError> {
    match r {
        Ok(x) => Ok((x.0.val(), x.1.val())),
        Err(e) => Err(e),
    }
}

proof fn lemma_run_error_sticks<F: Fn(Address, Address, Address, U256) -> Result<U256, SimulationError>>(
    edges: Map<(Address, Address), Edge>,
    f: F,
    cycle: Seq<Address>,
    amount_in: nat,
    k: int,
    m: int,
)
    requires
        0 < k <= m,
        run_cycle(edges, f, cycle, amount_in, k) is Err,
    ensures
        run_cycle(edges, f, cycle, amount_in, m) == run_cycle(edges, f, cycle, amount_in, k),
    decreases m - k,
{
    if m > k {
        lemma_run_error_sticks(edges, f, cycle, amount_in, k, m - 1);
    }
}

proof fn lemma_add_exact(a: U256, b: U256)
    requires
        a.val() + b.val() < u256_modulus(),
    ensures
        (a.val() + b.val()) % u256_modulus() == a.val() + b.val(),
{
    lemma_small_mod((a.val() + b.val()) as nat, u256_modulus());
}

proof fn lemma_sub_exact(a: U256, b: U256)
    requires
        b.val() <= a.val(),
    ensures
        (a.val() - b.val() + u256_modulus()) % (u256_modulus() as int) == a.val() - b.val(),
{
    let x = a.val() - b.val() + u256_modulus();
    vstd::arithmetic::div_mod::lemma_mod_add_multiples_vanish((a.val() - b.val()) as int, u256_modulus() as int);
    lemma_small_mod((a.val() - b.val()) as nat, u256_modulus());
}


impl Graph {
    /// Trades `amount_in` around `cycle` with `simulate` and returns the profit.
    fn calculate_profit<F: Fn(Address, Address, Address, U256) -> Result<U256, SimulationError>>(
        &self,
        cycle: &Vec<Address>,
        amount_in: U256,
        simulate: &F,
    ) -> (r: Result<U256, TradeError>)
        requires
            forall|pool: Address, from: Address, to: Address, x: U256| #[trigger] call_requires(*simulate, (pool, from, to, x)),
        ensures
            sim_deterministic(*simulate) ==> profit_view(r) == cycle_profit(self.edge_map(), *simulate, cycle@, amount_in.val()),
    {
        if amount_in.is_zero() {
            return Err(TradeError::InvalidAmount);
        }
        let mut amount = amount_in;
        let n: usize = if cycle.len() >= 1 { cycle.len() - 1 } else { 0 };
        let mut k: usize = 0;
        while k < n
            invariant
                k <= n,
                n == hops(cycle@),
                amount_in.val() != 0,
                forall|pool: Address, from: Address, to: Address, x: U256| #[trigger] call_requires(*simulate, (pool, from, to, x)),
                sim_deterministic(*simulate) ==> run_cycle(self.edge_map(), *simulate, cycle@, amount_in.val(), k as int) == Ok::<nat, TradeError>(amount.val()),
            decreases n - k,
        {
            let from = cycle[k];
            let to = cycle[k + 1];
            let edge = match self.get_edge(&from, &to) {
                Some(e) => e,
                None => {
                    proof {
                        if sim_deterministic(*simulate) {
                            assert(cycle@[k as int] == from && cycle@[k + 1] == to);
                            assert(run_cycle(self.edge_map(), *simulate, cycle@, amount_in.val(), k + 1) == Err::<nat, TradeError>(TradeError::EdgeNotFound));
                            lemma_run_error_sticks(self.edge_map(), *simulate, cycle@, amount_in.val(), k as int + 1, n as int);
                        }
                    }
                    return Err(TradeError::EdgeNotFound);
                },
            };
            let out = simulate(edge.pool_address, from, to, amount);
            proof {
                if sim_deterministic(*simulate) {
                    lemma_sim_outcome(*simulate, edge.pool_address, from, to, amount, out);
                }
            }
            let amount_out = match out {
                Ok(x) => x,
                Err(SimulationError::PoolNotFound) => {
                    proof {
                        if sim_deterministic(*simulate) {
                            lemma_run_error_sticks(self.edge_map(), *simulate, cycle@, amount_in.val(), k as int + 1, n as int);
                        }
                    }
                    return Err(TradeError::PoolNotFound);
                },
                Err(SimulationError::SwapFailed) => {
                    proof {
                        if sim_deterministic(*simulate) {
                            lemma_run_error_sticks(self.edge_map(), *simulate, cycle@, amount_in.val(), k as int + 1, n as int);
                        }
                    }
                    return Err(TradeError::SwapFailed);
                },
            };
            if amount_out.is_zero() {
                proof {
                    if sim_deterministic(*simulate) {
                        assert(cycle@[k as int] == from && cycle@[k + 1] == to);
                        assert(self.edge_map()[(from, to)] == edge);
                        assert(run_cycle(self.edge_map(), *simulate, cycle@, amount_in.val(), k + 1) == Err::<nat, TradeError>(TradeError::ZeroOutput));
                        lemma_run_error_sticks(self.edge_map(), *simulate, cycle@, amount_in.val(), k as int + 1, n as int);
                    }
                }
                return Err(TradeError::ZeroOutput);
            }
            amount = amount_out;
            k = k + 1;
        }
        match alloy_checked_sub(amount, amount_in) {
            Some(p) => {
                if p.is_zero() {
                    Err(TradeError::NoProfit)
                } else {
                    Ok(p)
                }
            },
            None => Err(TradeError::Overflow),
        }
    }
}

impl Graph {
    /// One step of the bisection (see `search_step`).
    #[verifier::spinoff_prover]
    fn search_step<F: Fn(Address, Address, Address, U256) -> Result<U256, SimulationError>>(
        &self,
        cycle: &Vec<Address>,
        simulate: &F,
        left: U256,
        right: U256,
        best_profit: U256,
        optimal_amount: U256,
    ) -> (r: (U256, U256, U256, U256))
        requires
            forall|pool: Address, from: Address, to: Address, x: U256| #[trigger] call_requires(*simulate, (pool, from, to, x)),
            left.val() < right.val() <= u256_max(),
        ensures
            left.val() <= r.0.val() <= r.1.val() <= right.val(),
            r.1.val() - r.0.val() < right.val() - left.val(),
            (r.2 == best_profit && r.3 == optimal_amount)
                || (r.2.val() > best_profit.val() && left.val() <= r.3.val() < right.val()),
            sim_deterministic(*simulate) ==> (r.0.val(), r.1.val(), r.2.val(), r.3.val())
                == search_step(self.edge_map(), *simulate, cycle@, left.val(), right.val(), best_profit.val(), optimal_amount.val()),
    {
        let one = U256::from_u64(1);
        let two = U256::from_u64(2);
        proof {
            lemma_sub_exact(right, left);
        }
        let diff = alloy_sub(right, left);
        let half = alloy_div(diff, two);
        proof {
            lemma_add_exact(left, half);
        }
        let mid = alloy_add(left, half);
        match self.calculate_profit(cycle, mid, simulate) {
            Ok(profit) => {
                if best_profit.lt(&profit) {
                    proof {
                        lemma_add_exact(mid, one);
                    }
                    let next = alloy_add(mid, one);
                    (next, right, profit, mid)
                } else {
                    (left, mid, best_profit, optimal_amount)
                }
            },
            Err(_) => (left, mid, best_profit, optimal_amount),
        }
    }

    /// Bisects the input on [1, 2^256 - 1) wei for the most profitable trade
    /// around `cycle` (see `trade_search`), then tries the inputs up to ten wei
    /// on either side of the one found (see `fine_scan`); returns (input, profit).
    pub fn find_optimal_trade_amount<F: Fn(Address, Address, Address, U256) -> Result<U256, SimulationError>>(
        &self,
        cycle: &Vec<Address>,
        simulate: &F,
    ) -> (r: Result<(U256, U256), TradeError>)
        requires
            forall|pool: Address, from: Address, to: Address, x: U256| #[trigger] call_requires(*simulate, (pool, from, to, x)),
        ensures
            (r == Err::<(U256, U256), TradeError>(TradeError::CycleNotClosed))
                == (cycle@.len() > 0 && cycle@[0] != cycle@[cycle@.len() - 1]),
            r matches Ok((amount, profit)) ==> profit.val() > 0 && amount.val() >= 1,
            sim_deterministic(*simulate) ==> trade_view(r) == optimal_trade(self.edge_map(), *simulate, cycle@),
    {
        if cycle.len() > 0 && cycle[0] != cycle[cycle.len() - 1] {
            return Err(TradeError::CycleNotClosed);
        }
        let ghost target = trade_search(self.edge_map(), *simulate, cycle@, 1, u256_max(), 0, 0);
        let mut optimal_amount = U256::zero();
        let mut best_profit = U256::zero();
        let one = U256::from_u64(1);
        let mut left = U256::from_u64(1);
        let mut right = U256 { l0: 0xffff_ffff_ffff_ffff, l1: 0xffff_ffff_ffff_ffff, l2: 0xffff_ffff_ffff_ffff, l3: 0xffff_ffff_ffff_ffff };
        let two = U256::from_u64(2);
        let threshold = U256::from_u64(1000000);
        let mut searching = true;
        while searching && left.lt(&right)
            invariant
                forall|pool: Address, from: Address, to: Address, x: U256| #[trigger] call_requires(*simulate, (pool, from, to, x)),
                one.val() == 1,
                two.val() == 2,
                threshold.val() == 1000000,
                1 <= left.val() <= right.val() <= u256_max(),
                best_profit.val() > 0 ==> 1 <= optimal_amount.val() < u256_max(),
                target == trade_search(self.edge_map(), *simulate, cycle@, 1, u256_max(), 0, 0),
                sim_deterministic(*simulate) ==> (if searching {
                    trade_search(self.edge_map(), *simulate, cycle@, left.val(), right.val(), best_profit.val(), optimal_amount.val()) == target
                } else {
                    (optimal_amount.val(), best_profit.val()) == target
                }),
            decreases right.val() - left.val(), (if searching { 1int } else { 0int }),
        {
            let (l2, r2, b2, o2) = self.search_step(cycle, simulate, left, right, best_profit, optimal_amount);
            left = l2;
            right = r2;
            best_profit = b2;
            optimal_amount = o2;
            proof {
                lemma_sub_exact(right, left);
            }
            let width = alloy_sub(right, left);
            if width.lt(&threshold) {
                searching = false;
            }
        }
        if best_profit.is_zero() {
            return Err(TradeError::NoProfit);
        }
        // fine-tuning around the input found
        let radius = U256::from_u64(10);
        let max = U256 { l0: 0xffff_ffff_ffff_ffff, l1: 0xffff_ffff_ffff_ffff, l2: 0xffff_ffff_ffff_ffff, l3: 0xffff_ffff_ffff_ffff };
        let lo = if radius.lt(&optimal_amount) {
            proof {
                lemma_sub_exact(optimal_amount, radius);
            }
            alloy_sub(optimal_amount, radius)
        } else {
            one
        };
        proof {
            lemma_sub_exact(max, radius);
        }
        let room = alloy_sub(max, radius);
        let hi = if room.lt(&optimal_amount) {
            max
        } else {
            proof {
                lemma_add_exact(optimal_amount, radius);
            }
            alloy_add(optimal_amount, radius)
        };
        let ghost bisected = optimal_amount.val();
        let ghost tuned = fine_scan(self.edge_map(), *simulate, cycle@, lo.val(), hi.val(), optimal_amount.val(), best_profit.val());
        proof {
            assert(lo.val() == window_low(bisected));
            assert(hi.val() == window_high(bisected));
        }
        let mut x = lo;
        let mut scanning = true;
        while scanning
            invariant
                forall|pool: Address, from: Address, to: Address, x: U256| #[trigger] call_requires(*simulate, (pool, from, to, x)),
                one.val() == 1,
                1 <= x.val() <= hi.val() <= u256_max(),
                best_profit.val() > 0,
                optimal_amount.val() >= 1,
                sim_deterministic(*simulate) ==> (if scanning {
                    fine_scan(self.edge_map(), *simulate, cycle@, x.val(), hi.val(), optimal_amount.val(), best_profit.val()) == tuned
                } else {
                    (optimal_amount.val(), best_profit.val()) == tuned
                }),
            decreases hi.val() - x.val(), (if scanning { 1int } else { 0int }),
        {
            match self.calculate_profit(cycle, x, simulate) {
                Ok(profit) => {
                    if best_profit.lt(&profit) {
                        best_profit = profit;
                        optimal_amount = x;
                    }
                },
                Err(_) => {},
            }
            if x.eq_val(&hi) {
                proof {
                    if sim_deterministic(*simulate) {
                        assert(fine_scan(self.edge_map(), *simulate, cycle@, (hi.val() + 1) as nat, hi.val(),
                            optimal_amount.val(), best_profit.val()) == (optimal_amount.val(), best_profit.val()));
                    }
                }
                scanning = false;
            } else {
                proof {
                    lemma_add_exact(x, one);
                }
                x = alloy_add(x, one);
            }
        }
        Ok((optimal_amount, best_profit))
    }
}

proof fn lemma_trade_search<F: Fn(Address, Address, Address, U256) -> Result<U256, SimulationError>>(
    edges: Map<(Address, Address), Edge>,
    f: F,
    cycle: Seq<Address>,
    left: nat,
    right: nat,
    best: nat,
    opt: nat,
)
    ensures
        ({
            let (o, b) = trade_search(edges, f, cycle, left, right, best, opt);
            (o == opt && b == best) || (b > best && left <= o < right && cycle_profit(edges, f, cycle, o) == Ok::<nat, TradeError>(b))
        }),
    decreases right - left,
{
    if left < right {
        let (l2, r2, b2, o2) = search_step(edges, f, cycle, left, right, best, opt);
        if r2 >= l2 + 1000000 {
            lemma_trade_search(edges, f, cycle, l2, r2, b2, o2);
        }
    }
}

proof fn lemma_fine_scan<F: Fn(Address, Address, Address, U256) -> Result<U256, SimulationError>>(
    edges: Map<(Address, Address), Edge>,
    f: F,
    cycle: Seq<Address>,
    x: nat,
    hi: nat,
    opt: nat,
    best: nat,
)
    ensures
        ({
            let (o, b) = fine_scan(edges, f, cycle, x, hi, opt, best);
            &&& b >= best
            &&& (o == opt && b == best) || (x <= o <= hi && cycle_profit(edges, f, cycle, o) == Ok::<nat, TradeError>(b))
            &&& forall|y: nat| x <= y <= hi && (#[trigger] cycle_profit(edges, f, cycle, y)) is Ok
                ==> cycle_profit(edges, f, cycle, y)->Ok_0 <= b
        }),
    decreases hi + 1 - x,
{
    if x <= hi {
        match cycle_profit(edges, f, cycle, x) {
            Ok(p) => if p > best {
                lemma_fine_scan(edges, f, cycle, x + 1, hi, x, p);
            } else {
                lemma_fine_scan(edges, f, cycle, x + 1, hi, opt, best);
            },
            Err(_) => {
                lemma_fine_scan(edges, f, cycle, x + 1, hi, opt, best);
            },
        }
    }
}

/// Law: a trade that `find_optimal_trade_amount` reports is profitable,
/// trading its input around the cycle yields exactly the reported profit,
/// and no input within ten wei of the bisection's result yields more.
pub proof fn lemma_optimal_trade_consistent<F: Fn(Address, Address, Address, U256) -> Result<U256, SimulationError>>(
    edges: Map<(Address, Address), Edge>,
    f: F,
    cycle: Seq<Address>,
)
    ensures
        optimal_trade(edges, f, cycle) matches Ok((opt, best)) ==> {
            let bisected = trade_search(edges, f, cycle, 1, u256_max(), 0, 0).0;
            &&& best > 0
            &&& 1 <= opt <= u256_max()
            &&& cycle_profit(edges, f, cycle, opt) == Ok::<nat, TradeError>(best)
            &&& forall|y: nat| window_low(bisected) <= y <= window_high(bisected)
                && (#[trigger] cycle_profit(edges, f, cycle, y)) is Ok ==> cycle_profit(edges, f, cycle, y)->Ok_0 <= best
        },
{
    lemma_trade_search(edges, f, cycle, 1, u256_max(), 0, 0);
    let (o0, b0) = trade_search(edges, f, cycle, 1, u256_max(), 0, 0);
    lemma_fine_scan(edges, f, cycle, window_low(o0), window_high(o0), o0, b0);
}

/// The opportunities of the first `n` cycles: each cycle with a trade, in order.
pub open spec fn trade_opportunities<F: Fn(Address, Address, Address, U256) -> Result<U256, SimulationError>>(
    edges: Map<(Address, Address), Edge>,
    f: F,
    cycles: Seq<Seq<Address>>,
    n: int,
) -> Seq<(Seq<Address>, nat, nat)>
    decreases n,
{
    if n <= 0 || n > cycles.len() {
        Seq::empty()
    } else {
        let prev = trade_opportunities(edges, f, cycles, n - 1);
        match optimal_trade(edges, f, cycles[n - 1]) {
            Ok((amount, profit)) => prev.push((cycles[n - 1], amount, profit)),
            Err(_) => prev,
        }
    }
}

proof fn lemma_trade_opportunities_filter<F: Fn(Address, Address, Address, U256) -> Result<U256, SimulationError>>(
    edges: Map<(Address, Address), Edge>,
    f: F,
    cycles: Seq<Seq<Address>>,
    n: int,
)
    requires
        0 <= n <= cycles.len(),
    ensures
        ({
            let r = trade_opportunities(edges, f, cycles, n);
            let oks = cycles.take(n).filter(|c: Seq<Address>| optimal_trade(edges, f, c) is Ok);
            &&& r.len() == oks.len()
            &&& forall|i: int| 0 <= i < r.len() ==> (#[trigger] r[i]).0 == oks[i]
                && optimal_trade(edges, f, r[i].0) == Ok::<(nat, nat), TradeError>((r[i].1, r[i].2))
        }),
    decreases n,
{
    let pred = |c: Seq<Address>| optimal_trade(edges, f, c) is Ok;
    reveal(Seq::filter);
    if n > 0 {
        lemma_trade_opportunities_filter(edges, f, cycles, n - 1);
        assert(cycles.take(n).drop_last() =~= cycles.take(n - 1));
        assert(cycles.take(n).last() == cycles[n - 1]);
        let r = trade_opportunities(edges, f, cycles, n);
        let prev = trade_opportunities(edges, f, cycles, n - 1);
        let oks = cycles.take(n).filter(pred);
        let prev_oks = cycles.take(n - 1).filter(pred);
        match optimal_trade(edges, f, cycles[n - 1]) {
            Ok((a, p)) => {
                assert(oks == prev_oks.push(cycles[n - 1]));
                assert(r == prev.push((cycles[n - 1], a, p)));
                assert forall|i: int| 0 <= i < r.len() implies (#[trigger] r[i]).0 == oks[i]
                    && optimal_trade(edges, f, r[i].0) == Ok::<(nat, nat), TradeError>((r[i].1, r[i].2)) by {
                    if i < prev.len() {
                        assert(r[i] == prev[i]);
                        assert(oks[i] == prev_oks[i]);
                    }
                }
            },
            Err(_) => {
                assert(oks == prev_oks);
                assert(r == prev);
            },
        }
    } else {
        assert(cycles.take(0) =~= Seq::<Seq<Address>>::empty());
    }
}

/// Law: the opportunities found for a list of cycles are one per cycle that
/// has a trade, in the order of the cycles: their paths are exactly the
/// cycles whose search succeeds, each with that search's input and profit,
/// so no cycle with a trade is left out.
pub proof fn lemma_every_trade_reported<F: Fn(Address, Address, Address, U256) -> Result<U256, SimulationError>>(
    edges: Map<(Address, Address), Edge>,
    f: F,
    cycles: Seq<Seq<Address>>,
)
    ensures
        ({
            let r = trade_opportunities(edges, f, cycles, cycles.len() as int);
            let oks = cycles.filter(|c: Seq<Address>| optimal_trade(edges, f, c) is Ok);
            &&& r.len() == oks.len()
            &&& forall|i: int| 0 <= i < r.len() ==> (#[trigger] r[i]).0 == oks[i]
                && optimal_trade(edges, f, r[i].0) == Ok::<(nat, nat), TradeError>((r[i].1, r[i].2))
            &&& forall|j: int| 0 <= j < cycles.len() && (#[trigger] optimal_trade(edges, f, cycles[j])) is Ok
                ==> r.contains((cycles[j], optimal_trade(edges, f, cycles[j])->Ok_0.0, optimal_trade(edges, f, cycles[j])->Ok_0.1))
        }),
{
    let pred = |c: Seq<Address>| optimal_trade(edges, f, c) is Ok;
    assert(cycles.take(cycles.len() as int) =~= cycles);
    lemma_trade_opportunities_filter(edges, f, cycles, cycles.len() as int);
    let r = trade_opportunities(edges, f, cycles, cycles.len() as int);
    let oks = cycles.filter(pred);
    assert forall|j: int| 0 <= j < cycles.len() && (#[trigger] optimal_trade(edges, f, cycles[j])) is Ok
        implies r.contains((cycles[j], optimal_trade(edges, f, cycles[j])->Ok_0.0, optimal_trade(edges, f, cycles[j])->Ok_0.1)) by {
        cycles.filter_lemma(pred);
        assert(pred(cycles[j]));
        assert(oks.contains(cycles[j]));
        let i = choose|i: int| 0 <= i < oks.len() && oks[i] == cycles[j];
        assert(r[i].0 == oks[i]);
    }
}

pub open spec fn opportunities_view(v: Seq<ArbitrageOpportunity>) -> Seq<(Seq<Address>, nat, nat)> {
    v.map_values(|o: ArbitrageOpportunity| o@)
}

fn copy_path(v: &Vec<Address>) -> (r: Vec<Address>)
    ensures
        r@ == v@,
{
    let mut r: Vec<Address> = Vec::new();
    let mut i: usize = 0;
    while i < v.len()
        invariant
            i <= v@.len(),
            r@ == v@.subrange(0, i as int),
        decreases v@.len() - i,
    {
        r.push(v[i]);
        i = i + 1;
        assert(r@ =~= v@.subrange(0, i as int));
    }
    assert(r@ =~= v@);
    r
}

impl Graph {
    /// The best trade of each cycle that has one, in order; cycles without
    /// a profitable trade are skipped.
    pub fn find_optimal_trade_amounts<F: Fn(Address, Address, Address, U256) -> Result<U256, SimulationError>>(
        &self,
        cycles: Vec<Vec<Address>>,
        simulate: &F,
    ) -> (r: Result<Vec<ArbitrageOpportunity>, TradeError>)
        requires
            forall|pool: Address, from: Address, to: Address, x: U256| #[trigger] call_requires(*simulate, (pool, from, to, x)),
        ensures
            r is Ok,
            forall|i: int| 0 <= i < r->Ok_0@.len() ==> {
                &&& (#[trigger] r->Ok_0@[i]).expected_profit.val() > 0
                &&& r->Ok_0@[i].optimal_amount_in.val() >= 1
                &&& exists|j: int| 0 <= j < cycles@.len() && #[trigger] cycles@[j]@ == r->Ok_0@[i].path@
            },
            sim_deterministic(*simulate) ==> opportunities_view(r->Ok_0@)
                == trade_opportunities(self.edge_map(), *simulate, paths_view(cycles@), cycles@.len() as int),
    {
        let mut opportunities: Vec<ArbitrageOpportunity> = Vec::new();
        let mut i: usize = 0;
        assert(opportunities_view(opportunities@) =~= Seq::empty());
        while i < cycles.len()
            invariant
                i <= cycles@.len(),
                forall|pool: Address, from: Address, to: Address, x: U256| #[trigger] call_requires(*simulate, (pool, from, to, x)),
                sim_deterministic(*simulate) ==> opportunities_view(opportunities@)
                    == trade_opportunities(self.edge_map(), *simulate, paths_view(cycles@), i as int),
                forall|k: int| 0 <= k < opportunities@.len() ==> {
                    &&& (#[trigger] opportunities@[k]).expected_profit.val() > 0
                    &&& opportunities@[k].optimal_amount_in.val() >= 1
                    &&& exists|j: int| 0 <= j < cycles@.len() && #[trigger] cycles@[j]@ == opportunities@[k].path@
                },
            decreases cycles@.len() - i,
        {
            let ghost before = opportunities_view(opportunities@);
            assert(paths_view(cycles@)[i as int] == cycles@[i as int]@);
            match self.find_optimal_trade_amount(&cycles[i], simulate) {
                Ok((amount_in, profit)) => {
                    let o = ArbitrageOpportunity {
                        path: copy_path(&cycles[i]),
                        optimal_amount_in: amount_in,
                        expected_profit: profit,
                    };
                    let ghost ov = o@;
                    opportunities.push(o);
                    assert(opportunities_view(opportunities@) =~= before.push(ov));
                },
                Err(_) => {},
            }
            i = i + 1;
        }
        Ok(opportunities)
    }
}

/// A walk that stops never repeats a node.
proof fn lemma_no_repeat_if_stops(p: Map<Address, Option<Address>>, s: Address, k: nat)
    requires
        walk_stops(p, s, k),
    ensures
        negative_cycle(p, s) is None,
{
    if exists|k2: nat, j2: nat| first_repeat(p, s, k2, j2) {
        let (k2, j2) = choose|k2: nat, j2: nat| first_repeat(p, s, k2, j2);
        if k2 < k {
            assert(walk(p, s, j2) != walk(p, s, k2));
        } else {
            lemma_walk_none_after(p, s, k, k2);
        }
    }
}

proof fn lemma_walk_none_after(p: Map<Address, Option<Address>>, s: Address, k: nat, m: nat)
    requires
        walk(p, s, k) is None,
        k <= m,
    ensures
        walk(p, s, m) is None,
    decreases m - k,
{
    if k < m {
        lemma_walk_none_after(p, s, k, (m - 1) as nat);
    }
}

/// Law: the reconstructed cycle starts and ends at the same node and each
/// node is the recorded predecessor of the next, so it follows edges.
pub proof fn lemma_negative_cycle_closed(p: Map<Address, Option<Address>>, s: Address)
    requires
        negative_cycle(p, s) is Some,
    ensures
        ({
            let c = negative_cycle(p, s).unwrap();
            &&& c.len() >= 2
            &&& c[0] == c[c.len() - 1]
            &&& forall|i: int| 0 <= i < c.len() - 1 ==> pred_of(p, #[trigger] c[i + 1]) == Some(c[i])
        }),
{
    let (k, j) = choose|k: nat, j: nat| first_repeat(p, s, k, j);
    let c = cycle_seq(p, s, k, j);
    assert forall|i: int| 0 <= i < c.len() - 1 implies pred_of(p, #[trigger] c[i + 1]) == Some(c[i]) by {
        let m = (k - i - 1) as nat;
        assert(walk(p, s, m) is Some);
        assert(walk(p, s, (m + 1) as nat) == pred_of(p, walk(p, s, m).unwrap()));
        assert(c[i + 1] == walk(p, s, m).unwrap());
        assert(c[i] == walk(p, s, (m + 1) as nat).unwrap());
    }
}

/// Law: reading an edge back after setting it gives what was set, and
/// setting an edge leaves every other edge as it was.
pub proof fn lemma_upsert_then_get(
    before: Map<(Address, Address), Edge>,
    key: (Address, Address),
    e: Edge,
    other: (Address, Address),
)
    ensures
        before.insert(key, e)[key] == e,
        other != key ==> (before.insert(key, e).contains_key(other) == before.contains_key(other)
            && (before.contains_key(other) ==> before.insert(key, e)[other] == before[other])),
{
}

} // verus!
