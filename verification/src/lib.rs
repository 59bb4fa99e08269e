//! Containers for logs and registries, each with a proved contract.
//!
//! - [`skip_list`]: an append-only log of key/value entries with skip-list
//!   lookup.
//! - [`singly_linked_list`]: a first-in, first-out log.
//! - [`doubly_linked_list`]: a log that is open at both ends.
//! - [`dynamic_array`]: a growable array.
//! - [`binary_search_tree`]: a registry of devices, keyed by their id.
//! - [`order`]: what the keyed containers ask of a key type.
//!
//! Every container publishes a `wf` predicate. Its constructor establishes the
//! predicate and its methods keep it; they ask for it on entry, since the field
//! `length` of a container is open to its users.

pub mod binary_search_tree;
pub mod doubly_linked_list;
pub mod dynamic_array;
pub mod order;
pub mod singly_linked_list;
pub mod skip_list;
mod slots;
