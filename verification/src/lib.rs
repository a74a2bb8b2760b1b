//! Collision search for the MD2 compression function on an all-zero chaining
//! value, after Rogier and Chauvaud.
//!
//! The search fixes the upper rows of the 19 by 49 table of the compression
//! function so that only `k` bytes stay free, walks every value of the free
//! bytes down the table, and collects the trials by the carry bytes of the
//! lower rows. Trials that share those bytes end in the same chaining value,
//! so their messages collide.
//!
//! - [`sbox`]: the substitution table and its inverse.
//! - [`counter`]: the enumeration of the free bytes.
//! - [`rounds`]: the rounds of the compression function on one row.
//! - [`table`]: the table and its precomputed part.
//! - [`walker`]: the forward and the backward walk of a trial.
//! - [`candidates`]: the candidates of one row, trial by trial.
//! - [`collector`]: the trials grouped by fingerprint; [`merging`]: the laws
//!   of merging collectors.
//! - [`search`]: the search of a shard and of all trials; [`shards`]: why
//!   shards searched apart count as the whole search.
//! - [`engine`]: the stages of a run.
//! - [`attack`]: why equal fingerprints mean colliding messages.
//! - [`oracle`]: the check of collisions against the `md2` crate.

pub mod attack;
pub mod candidates;
pub mod collector;
pub mod counter;
pub mod engine;
pub mod merging;
pub mod oracle;
pub mod rounds;
pub mod sbox;
pub mod search;
pub mod shards;
pub mod table;
pub mod walker;

pub use crate::candidates::{candidates, Candidates};
pub use crate::table::prefill_row;
