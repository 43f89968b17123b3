//! Authoritative state for a small ledger: a keyed fact store mutated only
//! through validated, all-or-nothing batches, and an ownership index that
//! makes the set of items owned by a party enumerable in insertion order.

pub mod id;
pub mod store;
pub mod mutation;
pub mod assoc;
pub mod linked_list;
pub mod registry;
