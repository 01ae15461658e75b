use dashmap::DashMap;
use rustbitrage::address::Address;
use rustbitrage::graph::{Edge, Graph, Node, SimulationError, TradeError};
use rustbitrage::uint::U256;

fn addr(n: u128) -> Address {
    Address { hi: 0, lo: n }
}

fn u(x: u128) -> U256 {
    U256::from_u128(x)
}

fn to_u128(x: U256) -> u128 {
    assert_eq!(x.l2, 0);
    assert_eq!(x.l3, 0);
    ((x.l1 as u128) << 64) | (x.l0 as u128)
}

const W: u128 = 1;
const X: u128 = 2;
const Y: u128 = 3;

fn triangle_graph() -> Graph {
    let mut g = Graph::new();
    for t in [W, X, Y] {
        g.add_node(Node::new(addr(t)));
    }
    g.upsert_edge(&addr(W), &addr(X), 1.0f64.to_bits(), addr(0x100));
    g.upsert_edge(&addr(X), &addr(Y), 2.0f64.to_bits(), addr(0x200));
    g.upsert_edge(&addr(Y), &addr(W), 3.0f64.to_bits(), addr(0x300));
    g
}

fn preds(entries: &[(u128, Option<u128>)]) -> DashMap<Address, Option<Address>> {
    let m = DashMap::new();
    for (a, p) in entries.iter() {
        m.insert(addr(*a), p.map(addr));
    }
    m
}

#[test]
fn graph_nodes_and_edges() {
    let mut g = triangle_graph();
    let mut nodes: Vec<u128> = g.get_nodes().iter().map(|n| n.address.lo).collect();
    nodes.sort();
    assert_eq!(nodes, vec![W, X, Y]);
    let e = g.get_edge(&addr(W), &addr(X)).unwrap();
    assert_eq!(e, Edge::new(Node::new(addr(W)), Node::new(addr(X)), 1.0f64.to_bits(), addr(0x100)));
    assert!(g.get_edge(&addr(X), &addr(W)).is_none());
    // setting an edge again replaces it in place
    g.upsert_edge(&addr(W), &addr(X), 5.0f64.to_bits(), addr(0x101));
    assert_eq!(g.get_edge(&addr(W), &addr(X)).unwrap().pool_address, addr(0x101));
    assert_eq!(g.get_edges().len(), 3);
    let wx: Vec<_> = g.get_edges().into_iter().filter(|e| e.from.address == addr(W) && e.to.address == addr(X)).collect();
    assert_eq!(wx.len(), 1);
    assert_eq!(wx[0].weight_bits, 5.0f64.to_bits());
    g.add_edge(Edge::new(Node::new(addr(X)), Node::new(addr(W)), 0, addr(0x400)));
    assert_eq!(g.get_edges().len(), 4);
    assert_eq!(g.get_edge(&addr(X), &addr(W)).unwrap().pool_address, addr(0x400));
}

#[test]
fn negative_cycle_is_listed_in_edge_direction() {
    let g = triangle_graph();
    // W <- Y <- X <- W: following predecessors from W meets W again
    let p = preds(&[(W, Some(Y)), (X, Some(W)), (Y, Some(X))]);
    assert_eq!(g.build_negative_cycle(addr(W), &p), Some(vec![addr(W), addr(X), addr(Y), addr(W)]));
    assert_eq!(g.build_negative_cycle(addr(X), &p), Some(vec![addr(X), addr(Y), addr(W), addr(X)]));
}

#[test]
fn negative_cycle_reached_from_a_tail() {
    let g = triangle_graph();
    // 9 -> X -> Y -> X: the walk from 9 runs into the cycle X, Y
    let p = preds(&[(9, Some(X)), (X, Some(Y)), (Y, Some(X))]);
    assert_eq!(g.build_negative_cycle(addr(9), &p), Some(vec![addr(X), addr(Y), addr(X)]));
}

#[test]
fn no_cycle_when_predecessors_run_out() {
    let g = triangle_graph();
    let p = preds(&[(W, None), (X, Some(W)), (Y, Some(X))]);
    assert_eq!(g.build_negative_cycle(addr(Y), &p), None);
    let q = preds(&[(X, Some(W))]);
    assert_eq!(g.build_negative_cycle(addr(X), &q), None);
    assert_eq!(g.build_negative_cycle(addr(7), &q), None);
}

#[test]
fn weth_cycles_are_collected_once() {
    let g = triangle_graph();
    let p = preds(&[(W, Some(Y)), (X, Some(W)), (Y, Some(X)), (9, Some(X))]);
    let found = g.collect_weth_cycles(&vec![addr(W), addr(W), addr(X), addr(9)], &p, addr(W));
    assert_eq!(found, vec![vec![addr(W), addr(X), addr(Y), addr(W)]]);
    let none = g.collect_weth_cycles(&vec![addr(X)], &p, addr(W));
    assert!(none.is_empty());
}

/// Each swap returns `num / den` of the input.
/// The amount as a `u128`, if it is at most 10^21 wei (more than the pools hold).
fn held(x: U256) -> Option<u128> {
    if x.l2 != 0 || x.l3 != 0 {
        return None;
    }
    let v = ((x.l1 as u128) << 64) | (x.l0 as u128);
    if v <= 1_000_000_000_000_000_000_000 { Some(v) } else { None }
}

/// Each swap returns `num / den` of the input; more than 10^21 wei returns nothing.
fn scaled(num: u128, den: u128) -> impl Fn(Address, Address, Address, U256) -> Result<U256, SimulationError> {
    move |_pool: Address, _from: Address, _to: Address, amount: U256| match held(amount) {
        Some(x) => Ok(u(x * num / den)),
        None => Ok(u(0)),
    }
}

#[test]
fn trade_on_a_profitable_cycle() {
    let g = triangle_graph();
    let cycle = vec![addr(W), addr(X), addr(Y), addr(W)];
    let sim = scaled(11, 10);
    let (amount, profit) = g.find_optimal_trade_amount(&cycle, &sim).unwrap();
    let a = to_u128(amount);
    // profit grows with the input while the third swap stays within 10^21
    // wei, so the search climbs to that limit
    let third_in = |x: u128| x * 11 / 10 * 11 / 10;
    assert!(third_in(a) <= 1_000_000_000_000_000_000_000);
    assert!(third_in(a + 2_000_000) > 1_000_000_000_000_000_000_000);
    let back = a * 11 / 10 * 11 / 10 * 11 / 10;
    assert_eq!(to_u128(profit), back - a);
}

#[test]
fn trade_reports_why_it_failed() {
    let g = triangle_graph();
    let open = vec![addr(W), addr(X)];
    assert_eq!(g.find_optimal_trade_amount(&open, &scaled(11, 10)).unwrap_err(), TradeError::CycleNotClosed);
    let cycle = vec![addr(W), addr(X), addr(Y), addr(W)];
    assert_eq!(g.find_optimal_trade_amount(&cycle, &scaled(9, 10)).unwrap_err(), TradeError::NoProfit);
    let failing = |_p: Address, _f: Address, _t: Address, _a: U256| -> Result<U256, SimulationError> { Err(SimulationError::SwapFailed) };
    assert_eq!(g.find_optimal_trade_amount(&cycle, &failing).unwrap_err(), TradeError::NoProfit);
    let missing_edge = vec![addr(W), addr(Y), addr(W)];
    assert_eq!(g.find_optimal_trade_amount(&missing_edge, &scaled(11, 10)).unwrap_err(), TradeError::NoProfit);
}

#[test]
fn trade_with_a_capped_pool_finds_the_cap() {
    let g = triangle_graph();
    let cycle = vec![addr(W), addr(X), addr(W)];
    let mut g2 = g;
    g2.upsert_edge(&addr(X), &addr(W), 0, addr(0x500));
    // each swap pays 5% extra; selling more than 10^18 wei of W pays nothing
    let capped = |_p: Address, f: Address, _t: Address, a: U256| -> Result<U256, SimulationError> {
        match held(a) {
            Some(x) if !(f == addr(W) && x > 1_000_000_000_000_000_000) => Ok(u(x + x / 20)),
            _ => Ok(u(0)),
        }
    };
    let (amount, profit) = g2.find_optimal_trade_amount(&cycle, &capped).unwrap();
    let a = to_u128(amount);
    assert!(a <= 1_000_000_000_000_000_000);
    assert!(a > 1_000_000_000_000_000_000 - 2_000_000);
    let mid = a + a / 20;
    assert_eq!(to_u128(profit), mid + mid / 20 - a);
}

#[test]
fn trades_of_several_cycles_skip_failures() {
    let g = triangle_graph();
    let good = vec![addr(W), addr(X), addr(Y), addr(W)];
    let open = vec![addr(W), addr(X)];
    let out = g.find_optimal_trade_amounts(vec![open, good.clone()], &scaled(11, 10)).unwrap();
    assert_eq!(out.len(), 1);
    assert_eq!(out[0].path, good);
    let (amount, profit) = g.find_optimal_trade_amount(&good, &scaled(11, 10)).unwrap();
    assert_eq!(out[0].optimal_amount_in, amount);
    assert_eq!(out[0].expected_profit, profit);
}

#[test]
fn trade_found_among_small_inputs() {
    let g = triangle_graph();
    let cycle = vec![addr(W), addr(X), addr(Y), addr(W)];
    // only inputs below 10^15 wei (0.001 ETH) pay, 1% per swap
    let small = |_p: Address, f: Address, _t: Address, a: U256| -> Result<U256, SimulationError> {
        match held(a) {
            Some(x) if !(f == addr(W) && x >= 1_000_000_000_000_000) => Ok(u(x + x / 100)),
            _ => Ok(u(0)),
        }
    };
    let (amount, profit) = g.find_optimal_trade_amount(&cycle, &small).unwrap();
    let a = to_u128(amount);
    assert!(1 <= a && a < 1_000_000_000_000_000);
    let b1 = a + a / 100;
    let b2 = b1 + b1 / 100;
    let b3 = b2 + b2 / 100;
    assert_eq!(to_u128(profit), b3 - a);
    // the fine-tuning reaches the top of what pays
    assert!(a > 1_000_000_000_000_000 - 2_000_000);
}

#[test]
fn getting_back_the_input_is_no_profit() {
    let g = triangle_graph();
    // a cycle of one token makes no swap: the input comes back unchanged
    assert_eq!(g.find_optimal_trade_amount(&vec![addr(W)], &scaled(11, 10)).unwrap_err(), TradeError::NoProfit);
    // swaps that return exactly the input are no profit either
    let cycle = vec![addr(W), addr(X), addr(Y), addr(W)];
    assert_eq!(g.find_optimal_trade_amount(&cycle, &scaled(1, 1)).unwrap_err(), TradeError::NoProfit);
}
