//! The state of the tracker: what is queued, what was sent, and which nonces both depend on.

use std::collections::VecDeque;

use vstd::prelude::*;

use super::ids::{NonceKey, NonceLookupKey, NonceUpdater, TxId, TxRef};
use super::tx::{
    at_most, duplicate_strings, is_at_most, MappedTx, MappedTxView, TargetNonce, TargetNonceView,
};
use crate::keys::{AccountId, BlockHeight, CryptoHash};
use crate::ordered::{views, Key, OrderedMap, OrderedSet};

verus! {

/// A transaction that was sent, kept until it is found on the chain.
pub struct TxSendInfo {
    /// Nanoseconds on the clock that `now` is read from.
    pub sent_at: u64,
    pub source_height: Option<BlockHeight>,
    pub provenance: String,
    pub source_signer_id: AccountId,
    pub source_receiver_id: AccountId,
    /// The signer on the target chain, where it has another name there.
    pub target_signer_id: Option<AccountId>,
    /// The receiver on the target chain, where it has another name there.
    pub target_receiver_id: Option<AccountId>,
    pub actions: Vec<String>,
    pub sent_at_target_height: BlockHeight,
}

/// The view of a `TxSendInfo`.
#[verifier::ext_equal]
pub ghost struct SendInfoView {
    pub sent_at: u64,
    pub source_height: Option<BlockHeight>,
    pub provenance: Seq<char>,
    pub source_signer_id: Seq<char>,
    pub source_receiver_id: Seq<char>,
    pub target_signer_id: Option<Seq<char>>,
    pub target_receiver_id: Option<Seq<char>>,
    pub actions: Seq<Seq<char>>,
    pub sent_at_target_height: BlockHeight,
}

/// The view of an optional account.
pub open spec fn account_view(a: Option<AccountId>) -> Option<Seq<char>> {
    match a {
        Some(x) => Some(x@),
        None => None,
    }
}

impl View for TxSendInfo {
    type V = SendInfoView;

    open spec fn view(&self) -> SendInfoView {
        SendInfoView {
            sent_at: self.sent_at,
            source_height: self.source_height,
            provenance: self.provenance@,
            source_signer_id: self.source_signer_id@,
            source_receiver_id: self.source_receiver_id@,
            target_signer_id: account_view(self.target_signer_id),
            target_receiver_id: account_view(self.target_receiver_id),
            actions: views(self.actions@),
            sent_at_target_height: self.sent_at_target_height,
        }
    }
}

/// The name on the target chain, where it differs.
pub open spec fn other_name(source: Seq<char>, target: Seq<char>) -> Option<Seq<char>> {
    if source == target {
        None
    } else {
        Some(target)
    }
}

/// What is kept of a transaction when it is sent.
pub open spec fn send_info(
    tx: MappedTxView,
    source_height: Option<BlockHeight>,
    target_height: BlockHeight,
    now: u64,
) -> SendInfoView {
    SendInfoView {
        sent_at: now,
        source_height,
        provenance: tx.provenance,
        source_signer_id: tx.source_signer_id,
        source_receiver_id: tx.source_receiver_id,
        target_signer_id: other_name(tx.source_signer_id, tx.target_tx.transaction.signer_id),
        target_receiver_id: other_name(tx.source_receiver_id, tx.target_tx.transaction.receiver_id),
        actions: tx.target_tx.transaction.actions,
        sent_at_target_height: target_height,
    }
}

impl TxSendInfo {
    pub fn new(
        tx: &MappedTx,
        source_height: Option<BlockHeight>,
        target_height: BlockHeight,
        now: u64,
    ) -> (r: TxSendInfo)
        ensures
            r@ == send_info(tx@, source_height, target_height, now),
    {
        let target_signer_id = if tx.source_signer_id.same(&tx.target_tx.transaction.signer_id) {
            None
        } else {
            Some(tx.target_tx.transaction.signer_id.duplicate())
        };
        let target_receiver_id = if tx.source_receiver_id.same(&tx.target_tx.transaction.receiver_id) {
            None
        } else {
            Some(tx.target_tx.transaction.receiver_id.duplicate())
        };
        TxSendInfo {
            sent_at: now,
            source_height,
            provenance: tx.provenance.clone(),
            source_signer_id: tx.source_signer_id.duplicate(),
            source_receiver_id: tx.source_receiver_id.duplicate(),
            target_signer_id,
            target_receiver_id,
            actions: duplicate_strings(&tx.target_tx.transaction.actions),
            sent_at_target_height: target_height,
        }
    }
}

/// What is kept of a nonce while transactions that depend on it are queued.
pub struct NonceInfo {
    pub target_nonce: TargetNonce,
    /// The last queued height that refers to the nonce. Once that height is sent, the nonce is
    /// dropped from memory.
    pub last_height: Option<BlockHeight>,
    pub txs_awaiting_nonce: OrderedSet<TxRef>,
    pub queued_txs: OrderedSet<TxRef>,
}

/// The view of a `NonceInfo`.
#[verifier::ext_equal]
pub ghost struct InfoView {
    pub target_nonce: TargetNonceView,
    pub last_height: Option<BlockHeight>,
    pub txs_awaiting_nonce: Set<TxRef>,
    pub queued_txs: Set<TxRef>,
}

impl View for NonceInfo {
    type V = InfoView;

    open spec fn view(&self) -> InfoView {
        InfoView {
            target_nonce: self.target_nonce@,
            last_height: self.last_height,
            txs_awaiting_nonce: self.txs_awaiting_nonce@,
            queued_txs: self.queued_txs@,
        }
    }
}

/// The queue of upcoming heights, the transactions sent so far, and the nonces that the queued
/// transactions depend on.
pub struct TxTracker {
    pub sent_txs: OrderedMap<CryptoHash, TxSendInfo>,
    pub txs_by_signer: OrderedMap<NonceLookupKey, OrderedSet<TxId>>,
    /// For each updater, the nonces that it may change.
    pub updater_to_keys: OrderedMap<NonceUpdater, OrderedSet<NonceLookupKey>>,
    pub nonces: OrderedMap<NonceLookupKey, NonceInfo>,
    pub next_heights: VecDeque<BlockHeight>,
    pub height_queued: Option<BlockHeight>,
    /// The last height that was queued with transactions.
    pub nonempty_height_queued: Option<BlockHeight>,
    pub height_popped: Option<BlockHeight>,
    pub height_seen: Option<BlockHeight>,
    /// In nanoseconds.
    pub min_block_production_delay: u128,
    /// In nanoseconds.
    pub tx_batch_interval: Option<u128>,
    /// In nanoseconds, oldest first.
    pub recent_block_timestamps: VecDeque<u64>,
    pub stop_height: Option<BlockHeight>,
    /// How often the block of a source height went back into the queue.
    pub requeue_attempts: OrderedMap<BlockHeight, usize>,
}

/// The view of a `TxTracker`.
#[verifier::ext_equal]
pub ghost struct TrackerView {
    pub sent_txs: Map<CryptoHash, SendInfoView>,
    pub txs_by_signer: Map<NonceKey, Set<TxId>>,
    pub updater_to_keys: Map<NonceUpdater, Set<NonceKey>>,
    pub nonces: Map<NonceKey, InfoView>,
    pub next_heights: Seq<BlockHeight>,
    pub height_queued: Option<BlockHeight>,
    pub nonempty_height_queued: Option<BlockHeight>,
    pub height_popped: Option<BlockHeight>,
    pub height_seen: Option<BlockHeight>,
    pub min_block_production_delay: u128,
    pub tx_batch_interval: Option<u128>,
    pub recent_block_timestamps: Seq<u64>,
    pub stop_height: Option<BlockHeight>,
    pub requeue_attempts: Map<BlockHeight, usize>,
}

impl View for TxTracker {
    type V = TrackerView;

    open spec fn view(&self) -> TrackerView {
        TrackerView {
            sent_txs: self.sent_txs@,
            txs_by_signer: self.txs_by_signer@,
            updater_to_keys: self.updater_to_keys@,
            nonces: self.nonces@,
            next_heights: self.next_heights@,
            height_queued: self.height_queued,
            nonempty_height_queued: self.nonempty_height_queued,
            height_popped: self.height_popped,
            height_seen: self.height_seen,
            min_block_production_delay: self.min_block_production_delay,
            tx_batch_interval: self.tx_batch_interval,
            recent_block_timestamps: self.recent_block_timestamps@,
            stop_height: self.stop_height,
            requeue_attempts: self.requeue_attempts@,
        }
    }
}

/// A tracker at its start.
pub open spec fn fresh_tracker(
    min_block_production_delay: u128,
    tx_batch_interval: Option<u128>,
    next_heights: Seq<BlockHeight>,
    stop_height: Option<BlockHeight>,
) -> TrackerView {
    TrackerView {
        sent_txs: Map::empty(),
        txs_by_signer: Map::empty(),
        updater_to_keys: Map::empty(),
        nonces: Map::empty(),
        next_heights,
        height_queued: None,
        nonempty_height_queued: None,
        height_popped: None,
        height_seen: None,
        min_block_production_delay,
        tx_batch_interval,
        recent_block_timestamps: Seq::empty(),
        stop_height,
        requeue_attempts: Map::empty(),
    }
}

impl TrackerView {
    /// The last height was sent, and its transactions were seen on the target chain.
    pub open spec fn is_finished(self) -> bool {
        &&& self.stop_height is Some
        &&& at_most(self.stop_height, self.height_popped)
        &&& at_most(self.nonempty_height_queued, self.height_seen)
    }
}

impl TxTracker {
    /// `next_heights` are the next heights of the source chain, from the first one whose
    /// transactions are to be sent.
    pub fn new(
        min_block_production_delay: u128,
        tx_batch_interval: Option<u128>,
        next_heights: &[BlockHeight],
        stop_height: Option<BlockHeight>,
    ) -> (r: TxTracker)
        ensures
            r@ == fresh_tracker(
                min_block_production_delay,
                tx_batch_interval,
                next_heights@,
                stop_height,
            ),
    {
        let mut heights: VecDeque<BlockHeight> = VecDeque::new();
        let mut i: usize = 0;
        while i < next_heights.len()
            invariant
                i <= next_heights@.len(),
                heights@ == next_heights@.take(i as int),
            decreases next_heights@.len() - i,
        {
            heights.push_back(next_heights[i]);
            assert(heights@ =~= next_heights@.take(i + 1));
            i += 1;
        }
        assert(heights@ =~= next_heights@);
        let recent: VecDeque<u64> = VecDeque::new();
        TxTracker {
            sent_txs: OrderedMap::new(),
            txs_by_signer: OrderedMap::new(),
            updater_to_keys: OrderedMap::new(),
            nonces: OrderedMap::new(),
            next_heights: heights,
            height_queued: None,
            nonempty_height_queued: None,
            height_popped: None,
            height_seen: None,
            min_block_production_delay,
            tx_batch_interval,
            recent_block_timestamps: recent,
            stop_height,
            requeue_attempts: OrderedMap::new(),
        }
    }

    /// Whether there is nothing left to send or to wait for.
    pub fn finished(&self) -> (b: bool)
        ensures
            b == self@.is_finished(),
    {
        match self.stop_height {
            Some(_) => is_at_most(self.stop_height, self.height_popped) && is_at_most(
                self.nonempty_height_queued,
                self.height_seen,
            ),
            None => false,
        }
    }
}

} // verus!
