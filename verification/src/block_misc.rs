//! Writing single values of the `BlockMisc` column by hand.

use std::path::PathBuf;
use vstd::prelude::*;

use crate::keys::CryptoHash;

verus! {

/// A key of the `BlockMisc` column.
#[derive(Clone, Copy, Debug, PartialEq, Eq)]
pub enum BlockMiscKeySelector {
    /// The hash of the block that the state snapshot was taken at.
    StateSnapshot,
    /// The tip of the chain of headers.
    HeaderHead,
}

/// The value to write.
#[derive(Clone, Copy, Debug, PartialEq, Eq)]
pub enum ColumnSelector {
    BlockMisc { key: BlockMiscKeySelector },
}

/// What to write, and where to take it from.
pub struct WriteCryptoHashCommand {
    /// The hash itself.
    pub hash: Option<CryptoHash>,
    /// The home directory of a node whose store has the value.
    pub clone_from_other_home_dir: Option<PathBuf>,
    pub column: ColumnSelector,
}

/// Why there is nothing to write.
#[derive(Clone, Copy, Debug, PartialEq, Eq)]
pub enum WriteError {
    /// There is neither a hash nor a store that has one.
    NoHash,
    /// There is no store that has a tip.
    NoTip,
}

impl WriteError {
    pub open spec fn text(self) -> Seq<char> {
        match self {
            WriteError::NoHash => "No source store provided and no hash provided"@,
            WriteError::NoTip => "No source store provided for Tip"@,
        }
    }

    pub fn message(&self) -> (r: &'static str)
        ensures
            r@ == self.text(),
    {
        match self {
            WriteError::NoHash => "No source store provided and no hash provided",
            WriteError::NoTip => "No source store provided for Tip",
        }
    }
}

/// A value to write, with its key.
#[derive(Debug, PartialEq, Eq)]
pub enum BlockMiscValue<T> {
    StateSnapshot(CryptoHash),
    HeaderHead(T),
}

impl WriteCryptoHashCommand {
    /// The key to write.
    pub open spec fn selected(self) -> BlockMiscKeySelector {
        match self.column {
            ColumnSelector::BlockMisc { key } => key,
        }
    }

    /// The key to write.
    pub fn key(&self) -> (r: BlockMiscKeySelector)
        ensures
            r == self.selected(),
    {
        match self.column {
            ColumnSelector::BlockMisc { key } => key,
        }
    }

    /// Whether the value is to be looked up in the other store: a hash that is given is not.
    pub fn wants_stored(&self) -> (b: bool)
        ensures
            b == (self.selected() is HeaderHead || self.hash is None),
    {
        match self.key() {
            BlockMiscKeySelector::StateSnapshot => self.hash.is_none(),
            BlockMiscKeySelector::HeaderHead => true,
        }
    }

    /// The hash to write: the one that is given, or else the one that the other store has.
    pub fn get_crypto_hash(&self, stored: Option<CryptoHash>) -> (r: Result<
        CryptoHash,
        WriteError,
    >)
        ensures
            r == match (self.hash, stored) {
                (Some(h), _) => Ok::<CryptoHash, WriteError>(h),
                (None, Some(h)) => Ok(h),
                (None, None) => Err(WriteError::NoHash),
            },
    {
        if let Some(h) = self.hash {
            return Ok(h);
        }
        match stored {
            Some(h) => Ok(h),
            None => Err(WriteError::NoHash),
        }
    }

    /// The tip to write: the one that the other store has.
    pub fn get_tip<T>(&self, stored: Option<T>) -> (r: Result<T, WriteError>)
        ensures
            r == match stored {
                Some(t) => Ok::<T, WriteError>(t),
                None => Err(WriteError::NoTip),
            },
    {
        match stored {
            Some(t) => Ok(t),
            None => Err(WriteError::NoTip),
        }
    }

    /// The value to write, given what the other store has.
    pub fn value<T>(&self, stored_hash: Option<CryptoHash>, stored_tip: Option<T>) -> (r: Result<
        BlockMiscValue<T>,
        WriteError,
    >)
        ensures
            r == match self.selected() {
                BlockMiscKeySelector::StateSnapshot => match (self.hash, stored_hash) {
                    (Some(h), _) => Ok::<BlockMiscValue<T>, WriteError>(
                        BlockMiscValue::StateSnapshot(h),
                    ),
                    (None, Some(h)) => Ok(BlockMiscValue::StateSnapshot(h)),
                    (None, None) => Err(WriteError::NoHash),
                },
                BlockMiscKeySelector::HeaderHead => match stored_tip {
                    Some(t) => Ok(BlockMiscValue::HeaderHead(t)),
                    None => Err(WriteError::NoTip),
                },
            },
    {
        match self.key() {
            BlockMiscKeySelector::StateSnapshot => match self.get_crypto_hash(stored_hash) {
                Ok(h) => Ok(BlockMiscValue::StateSnapshot(h)),
                Err(e) => Err(e),
            },
            BlockMiscKeySelector::HeaderHead => match self.get_tip(stored_tip) {
                Ok(t) => Ok(BlockMiscValue::HeaderHead(t)),
                Err(e) => Err(e),
            },
        }
    }
}

} // verus!
