//! A task-list store: named lists of checkable tasks, kept as one unit
//! that a command loads whole, mutates and saves whole.
//!
//! The heart of the crate is the mutation engine of [`store::Store`] —
//! adding, removing and toggling tasks, creating and deleting lists — with
//! the cross-list resolution that looks for a missed task in every other
//! list and hands the caller the candidates to put to the user. Around it
//! stand the persisted form of the store ([`codec`] for what the text
//! means, [`persist`] for writing and reading it), the laws the operations
//! obey ([`laws`]), and the small decision rules of the command line
//! ([`cli`], [`color`]).
pub mod cli;
pub mod codec;
pub mod color;
pub mod errors;
pub mod laws;
pub mod model;
pub mod persist;
pub mod store;
pub mod task;
