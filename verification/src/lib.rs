//! The rules behind some tools for nodes.
//!
//! `mirror` sends the traffic of one chain to another and keeps track of what becomes of it,
//! `transfuse` copies blocks between the stores of two nodes, `block_misc` writes single values of
//! a store, and `delivery` says what the sender of a message hears. Reading and writing, locks and
//! clocks are left to the caller.

pub mod block_misc;
pub mod delivery;
pub mod keys;
pub mod mirror;
pub mod ordered;
pub mod text;
pub mod transfuse;
