# rustbitrage

An arbitrage bot for Uniswap V2 style markets on Ethereum. It watches pending
transactions, decodes the swaps they make, and looks for profitable cycles
through WETH, either by a negative-cycle search over `-ln(price)` weights or by
enumerating the cycles of at most three pairs and maximising the profit of each.

The logic is a library verified with Verus (`src/`); the program around it
(`app/`) connects to the node, loads the pools and runs the tasks.

## Layout

- `src/uint.rs`, `src/address.rs`, `src/types.rs`, `src/constants.rs`: 256-bit
  integers, addresses (and their text form) and words, a small address-keyed
  map, pools, constants.
- `src/ethers_math.rs`, `src/alloy_math.rs`: the 256-bit arithmetic of the
  Ethereum libraries, each operation behind a contract.
- `src/dash.rs`: the `dashmap` maps and sets the graph and the swap decoding
  keep, each operation behind a contract.
- `src/base_fee.rs`: the next block's base fee (EIP-1559).
- `src/pool_mapper.rs`: indexing of pools and the depth-first enumeration of
  the cycles through WETH.
- `src/opportunity_finder.rs`: constant-product pricing, the profit of a cycle
  and the search for its best input, reserve updates from `Sync` events and
  the transaction proposed for them.
- `src/graph.rs`: the token graph, the reconstruction of negative cycles from
  predecessors, and the bisection for the best trade size on a cycle.
- `src/call_frame.rs`, `src/swap.rs`: call traces, their events, and the
  decoding of `Swap` events.
- `src/router.rs`: decoding of calls to the router's swap functions (path and
  amount in), with the ABI decoding of their parameters behind a contract.
- `src/transaction.rs`, `src/token.rs`: screening of pending transactions,
  ordering of a token pair.
- `tests/`: tests of the library on concrete values.
- `app/`: the bot itself (node connection, pool synchronisation, the
  floating-point Bellman-Ford relaxation, the task loops).
