//! Weighted random choice among a fixed set of categories.
//!
//! `table` turns integer weights into a cumulative table and maps a draw to a
//! category; `sampler` owns a table and a random source; `checks` holds the
//! statistical self-checks that run a sampler many times.
pub mod table;
pub mod sampler;
pub mod source;
pub mod checks;
