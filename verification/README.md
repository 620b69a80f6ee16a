# managed_state

Relational state for streaming operators, kept in a key-value store and verified with Verus.

- `src/state_table.rs`: a state table buffers the rows that an epoch inserts and deletes
  (`src/mem_table.rs`) and hands them over when the epoch is committed. A read looks into the buffer
  first; a scan merges the buffer with what storage delivers (`src/row_iter.rs`, `src/merge.rs`).
- `src/join_hash_map.rs`: one side of a hash join. Its rows carry the number of their matches
  (`src/join_row.rs`), stand in a state table, and are cached per join key (`src/evictable.rs`,
  `src/join_entry_state.rs`). `src/coherence.rs` shows why the cache agrees with the table.
- `src/key.rs` and `src/entries.rs`: the order of keys, ranges of them, and sorted entries as maps.

The library never waits for storage. Where storage has to be read or written, it says what it needs
and takes the answer as an argument. `app/` performs these reads and writes over a store and offers
the asynchronous interface. How a key row becomes the bytes of a key, and how a join key becomes a
row, is handed in as a function.
