# rfq

A request-for-quote venue for two-sided event contracts, in Verus. A requester opens a multi-leg
request, makers compete on each leg, the requester accepts, and the resulting positions are
escrowed and paid out when an oracle resolves them.

Every function of the library states in its contract what it returns and what it changes, and the
contracts are proved. Nothing is assumed: the library calls no outside crate and has no trusted
item.

## Layout

- `src/` at its root is the **engine** side. `types` holds the money and time newtypes, `slab` the
  generation-counted slab, `ledger` the claims against mirrored balances, `selection` the choice of
  a winner on a leg, and `engine` the command handlers.
- `src/chain/` is the **custody** side: balances, withdrawals, escrows, nonces, the oracle, the log,
  and the indexer that turns the log into engine commands.
- `src/runtime/` places the two side by side: the gateway, the settlement adapter, the single
  writer and its hand-offs, and the harness that holds both.
- `src/manifest.rs` reads package manifests, to hold the engine to having no dependency on custody.
- `tests/` runs the library.
- `app/` is ordinary Rust around it: wall clocks, threads, channels and locks.

## Reading the contracts

Each stateful type has a view that holds mathematics only, and each operation is a function from
one view to the next:

| Type | View | Where |
|---|---|---|
| `Slab` | `SlabView` | `src/slab.rs` |
| `Ledger` | `LedgerView` | `src/ledger/model.rs` |
| `Engine` | `EngineView` | `src/engine/model.rs` |
| `CustodyLedger` | `CustodyView` | `src/chain/custody/model.rs` |
| `Custody` | `ChainState` | `src/chain/custody/queue.rs` |
| `ChainLog` | `LogView` | `src/chain/log.rs` |
| `Indexer` | `IndexerView` | `src/chain/indexer.rs` |
| `Gateway` | `GatewayView` | `src/runtime/gateway.rs` |
| `Harness` | `HarnessView` | `src/runtime/harness/model.rs` |

A clock is a trait with a specification of the instants it may read. A function that samples one
says that its effect is the effect at *some* instant the clock may read; the functions that take
the instant as an argument say exactly what that effect is.

## What is proved across operations

The `laws` modules state what holds beyond single calls, among them:

- no command but a mirror update can leave an account owing more than custody says it has;
- a refused command changes nothing beyond normalising the account it touched;
- a request leaves `Settling` only on a final answer for its own nonce, and no terminal state is
  ever left;
- whatever is filled is the best eligible quote on its leg, within the leg's limit and at or better
  than the requester was shown, and what is committed is what custody then debits;
- without lag, the bundle of an accept in a covered engine settles if it is included at once;
- custody creates and destroys nothing, and a nonce settles once;
- the mirror is exactly what custody has available wherever no lag is declared, and under lag a
  number the chain has published;
- replaying the command log reproduces the engine.
