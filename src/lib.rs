//! A conservative mark-and-sweep garbage collector over a word-addressed
//! heap, with its contracts proved.
//!
//! - `index`: the allocation metadata index, disjoint ranges in address order.
//! - `gc`: block headers, colours and the destructor guard of a managed box.
//! - `reach`: what it means for a block to be reachable from root words.
//! - `collector`: allocation, the collection cycle and its trigger.
//! - `handle`: the copyable `Gc<T>` handle on a managed payload.
//! - `laws`: properties that hold across calls.
pub mod gc;
pub mod index;
pub mod handle;
pub mod reach;
pub mod collector;
pub mod laws;
