# near_tools

The rules behind some tools for nodes, written in Verus and proved.

- `src/mirror` keeps track of the traffic of a source chain that is sent to a target chain: which
  blocks are queued, which nonces their transactions use and change, what was sent, and what became
  of it. `laws.rs`, `requeue_laws.rs` and `records.rs` state what holds over several steps.
- `src/transfuse` copies blocks and block headers from the store of one node to that of another,
  height by height, and compares the two. `copying.rs` states what a finished transfer has copied and
  counted, `checking.rs` what a verification finds out.
- `src/block_misc.rs` says which value of the `BlockMisc` column is to be written.
- `src/delivery.rs` says what the sender of a message hears.
- `src/ordered.rs`, `src/keys.rs` and `src/text.rs` hold maps and sets, keys and text for the rest.

A step that needs something of its surroundings asks for it in its `requires`. Beside it stands a
function that looks for it at run time: one that takes the step and says when something is missing
(`try_on_txs_sent`, `try_on_target_block`, `try_queue_block`, `try_resolve_block_nonces`), or one
that only looks (`can_give_nonce`, `can_insert_nonce`, `can_set_nonces`, `accepts`).

`app/` holds the stores, the locks, the clocks and the messages around the library.
