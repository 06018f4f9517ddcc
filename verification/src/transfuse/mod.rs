//! Copying blocks and block headers from the store of one node to that of another.

pub mod args;
pub mod checking;
pub mod copying;
pub mod keys;
pub mod plan;
pub mod stats;
pub mod transfer;
pub mod verify;
