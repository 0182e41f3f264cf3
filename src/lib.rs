//! An insertion-only hash table with open addressing and linear probing.
//!
//! Keys implement [`Hashable`]; the table grows from 11 slots to
//! `2 * capacity + 1` slots whenever a new key arrives while every slot is
//! taken, and entries are never removed.

mod hashable;
mod slots;
mod table;

pub use hashable::{djb2, Hashable};
pub use slots::{entry_key, entry_value};
pub use table::{insert_all, lemma_round_trip, lemma_unique_keys, occupied, HashMap, INITIAL_CAPACITY};
