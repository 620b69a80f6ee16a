//! Buffered relational state over a key-value store.
//!
//! A [`state_table::StateTableExtended`] keeps the writes of the current epoch in a
//! [`mem_table::MemTable`] and merges them with the rows that storage holds whenever it is read.
//! A [`join_hash_map::JoinHashMap`] keeps the rows of one side of a hash join in a state table and
//! caches them per join key.

pub mod catalog;
pub mod coherence;
pub mod entries;
pub mod error;
pub mod evictable;
pub mod join_entry_state;
pub mod join_hash_map;
pub mod join_laws;
pub mod join_row;
pub mod key;
pub mod mem_table;
pub mod merge;
pub mod row;
pub mod row_iter;
pub mod state_table;
pub mod table_laws;
