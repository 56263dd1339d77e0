# blockpack

A streaming knapsack solver for block building: transactions arrive over time
and a builder packs them into blocks of limited gas, maximising priority fees.
The library is written in Verus; its behaviour is stated in `requires` /
`ensures` contracts and proved.

## Layout

- `src/` — the verified library
  - `tx.rs`, `block.rs`: transactions and blocks (a block never exceeds its gas limit)
  - `order.rs`, `seqs.rs`: stable sorting by keys and exact value-density ratios; sums over transactions
  - `pool.rs`: the pending pool with capacity, eviction and a pressure-driven fee threshold
  - `builder.rs`: greedy packing and the incremental builder with replacement
  - `nonce.rs`, `conflict.rs`, `bundle.rs`: nonce queues, storage-access conflicts, bundles
  - `lookahead.rs`: planning transactions over the next few blocks
  - `time.rs`, `sim.rs`: simulated clocks, the event queue and event-driven simulation
  - `builder_loop.rs`: the decisions of the builder loop, batch and polling builders
  - `stream.rs`, `metrics.rs`, `output.rs`: transaction generation, rate tracking, output records and CSV lines
- `app/` — the program around it: channels and threads, wall-clock time,
  floating-point statistics, JSON and CSV writers, and the demos
- `tests/` — tests of the library

Laws that relate several operations are public proof functions next to the
operations they speak of, for example:

- `builder.rs`: `lemma_process_results`, `lemma_replacement_raises_value`,
  `lemma_process_keeps_value`, `lemma_replacement_evicts_lowest`,
  `lemma_greedy_pack_laws`, `lemma_density_pack_laws`, `lemma_builder_run`
- `conflict.rs`: `lemma_selection_conflict_free`, `lemma_selection_maximal`
- `lookahead.rs`: `lemma_plan_respects_windows`, `lemma_plan_never_bumps`
- `nonce.rs`: `lemma_executable_split`
- `order.rs`: `lemma_desc_order_unique`
- `time.rs`: `lemma_pops_in_order`

## Collections

The pool, the bundle pool, the conflict tracker and the nonce queues hold their
entries in `Vec`s, in arrival order, with the invariant that no id occurs twice.
Every listing, every tie between equal fees or densities and every choice of
which entry to evict is then fixed by the contents, so the contracts state the
exact result; a hash map would make those depend on its iteration order. The
planner's assignments, which are only looked up, set and pruned, are a
`HashMap` keyed by transaction id, and the confirmed nonces a `HashMap` keyed by
address. An access list's slots and contracts stay `Vec`s without repeats: the
access list is `Clone`, and Verus does not take a derived `Clone` over a
`HashSet`.
