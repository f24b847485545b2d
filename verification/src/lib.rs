//! A hash map that remembers the order of insertion.
//!
//! Entries are found by key through a hash index and traversed oldest first
//! along a doubly linked list. The oldest entry can be removed, entries older
//! than a given age can be swept, a value can be overwritten on the condition
//! that the new one is greater, and a cursor reads the entries in order
//! without removing them.
//!
//! * [`model`] says what a map holds: a sequence of entries and a cursor
//!   position, with the operations on them. Every contract speaks of it.
//! * [`laws`] proves what runs of operations do to the model.
//! * [`map`] is the map: its invariant, its operations and their contracts.
//! * [`links`] says when slots, links and index form a list that stands for
//!   given contents.
//! * [`arena`] and [`node`] store the nodes of the list.
//! * [`clock`] reads the time by which entries age.

pub mod arena;
pub mod clock;
pub mod laws;
pub mod links;
pub mod map;
pub mod model;
pub mod node;

pub use crate::map::LinkedHashMap;
