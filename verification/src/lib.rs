//! A last-in-first-out stack that takes the steps of the lock-free stack of
//! linked nodes, with the memory that those steps work on and the proof that
//! they go well in whatever order several operations take them; and, beside
//! it, 2-vectors and the splitting of text into words.
//!
//! - [`stack`]: the stack, held by one owner at a time.
//! - [`laws`]: what follows for runs of several pushes and pops.
//! - [`memory`]: the node pool, the head slot and the counter, changed step
//!   by step.
//! - [`pool`]: node storage that releases a node only when no guard is left.
//! - [`threads`]: operations whose steps take turns, and what holds of every
//!   order.
//! - [`v2`]: generic 2-vectors.
//! - [`words`]: words of a text that comes line by line.

pub mod laws;
pub mod memory;
pub mod pool;
pub mod stack;
pub mod threads;
pub mod v2;
pub mod words;
