//! What to copy, and how.

use std::path::PathBuf;
use vstd::prelude::*;

verus! {

/// `std::path::PathBuf`, which is carried through.
#[verifier::external_type_specification]
#[verifier::external_body]
pub struct ExPathBuf(std::path::PathBuf);

/// What to copy, and how.
pub struct TransfuseArgs {
    /// The home directory of the source node.
    pub source_home: PathBuf,
    /// The home directory of the destination node.
    pub destination_home: PathBuf,
    pub column_type: ColumnType,
    /// The first height.
    pub start_height: Option<u64>,
    /// The height after the last one.
    pub end_height: Option<u64>,
    /// How many keys are written at once.
    pub batch_size: usize,
    /// Compare the stores after the transfer.
    pub verify: bool,
    /// Show progress.
    pub progress: bool,
    /// Leave blocks alone that are in the destination already.
    pub skip_existing: bool,
}

/// The columns to copy.
#[derive(Clone, Copy, Debug, PartialEq, Eq)]
pub enum ColumnType {
    /// Block headers, then blocks.
    Both,
    Headers,
    Blocks,
}

/// A column of a store.
#[derive(Clone, Copy, Debug, PartialEq, Eq)]
pub enum DbColumn {
    /// From the key of a height to the hash of the block.
    BlockHeight,
    /// From the hash of a block to its header.
    BlockHeader,
    /// From the hash of a block to the block.
    Block,
}

/// The first height to copy.
pub open spec fn first_height(start: Option<u64>) -> u64 {
    match start {
        Some(h) => h,
        None => 0,
    }
}

/// The height before which to stop. Without one, no height is left out.
pub open spec fn heights_end(end: Option<u64>) -> int {
    match end {
        Some(h) => h as int,
        None => u64::MAX + 1,
    }
}

/// The end of a range of heights, as it is shown.
pub open spec fn end_of_heights(end: Option<u64>) -> u64 {
    match end {
        Some(h) => h,
        None => u64::MAX,
    }
}

impl TransfuseArgs {
    /// The first height to copy.
    pub fn first_height(&self) -> (r: u64)
        ensures
            r == first_height(self.start_height),
    {
        match self.start_height {
            Some(h) => h,
            None => 0,
        }
    }
}

/// A transfer starts at the height that is given, or else at the lowest. It goes on to before the
/// height that is given, or else through the highest. The range is shown with its end.
pub proof fn heights_default_to_all(start: Option<u64>, end: Option<u64>)
    ensures
        start matches Some(h) ==> first_height(start) == h,
        start is None ==> first_height(start) == 0,
        end matches Some(h) ==> heights_end(end) == h && end_of_heights(end) == h,
        end is None ==> heights_end(end) == u64::MAX + 1 && end_of_heights(end) == u64::MAX,
{
}

} // verus!
