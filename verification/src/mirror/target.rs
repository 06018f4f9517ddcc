//! Finding the sent transactions, and what came of them, in the blocks of the target chain.

use vstd::prelude::*;

use super::db::{DbView, NonceDb};
use super::delay::recorded;
use super::ids::{NonceKey, NonceKind, NonceLookupKey, NonceUpdater, TxId};
use super::queue::{edited, searchable, BlockQueue, QueueView};
use super::settling::{
    awaiting_all, awaiting_apart, awaiting_of, edit_awaiting, rename_stored, rename_updater,
    renamed_infos, renamed_records, UpdatedKey,
};
use super::tracker::{SendInfoView, TrackerView, TxTracker};
use super::tx::{later, later_of, TxEdit};
use crate::keys::{
    lexically_before, parts_at, AccountId, BlockHeight, CryptoHash, Nonce, NonceIndex, PublicKey,
    ShardId,
};
use crate::ordered::{
    ascending, lemma_prefix_step, lemma_to_set_push, listing, views, Key, OrderedMap, OrderedSet,
};

verus! {

/// How a transaction or receipt ended.
#[derive(Clone, Copy, Debug, PartialEq, Eq)]
pub enum ExecutionStatus {
    Unknown,
    Failure,
    SuccessValue,
    SuccessReceiptId(CryptoHash),
}

/// Whether a status is one of success.
pub open spec fn is_good(status: ExecutionStatus) -> bool {
    status is SuccessValue || status is SuccessReceiptId
}

pub fn execution_status_good(status: &ExecutionStatus) -> (b: bool)
    ensures
        b == is_good(*status),
{
    match status {
        ExecutionStatus::SuccessValue => true,
        ExecutionStatus::SuccessReceiptId(_) => true,
        ExecutionStatus::Unknown => false,
        ExecutionStatus::Failure => false,
    }
}

/// A transaction in a target block, with its outcome.
pub struct TargetTx {
    pub hash: CryptoHash,
    pub signer_id: AccountId,
    pub public_key: PublicKey,
    pub nonce: Nonce,
    pub nonce_index: Option<NonceIndex>,
    pub status: ExecutionStatus,
}

/// The view of a `TargetTx`.
pub ghost struct TargetTxView {
    pub hash: CryptoHash,
    pub nonce_key: NonceKey,
    pub nonce: Nonce,
    pub status: ExecutionStatus,
}

impl View for TargetTx {
    type V = TargetTxView;

    open spec fn view(&self) -> TargetTxView {
        TargetTxView {
            hash: self.hash,
            nonce_key: NonceKey {
                account_id: self.signer_id@,
                public_key: self.public_key@,
                kind: match self.nonce_index {
                    None => NonceKind::AccessKey,
                    Some(i) => NonceKind::GasKey(i),
                },
            },
            nonce: self.nonce,
            status: self.status,
        }
    }
}

impl TargetTxView {
    pub open spec fn id(self) -> TxId {
        TxId { hash: self.hash, nonce: self.nonce }
    }
}

impl NonceLookupKey {
    /// The nonce that a transaction on the chain used.
    pub fn from_tx_view(tx: &TargetTx) -> (r: NonceLookupKey)
        ensures
            r@ == tx@.nonce_key,
    {
        NonceLookupKey {
            account_id: tx.signer_id.duplicate(),
            public_key: tx.public_key.duplicate(),
            kind: match tx.nonce_index {
                None => NonceKind::AccessKey,
                Some(i) => NonceKind::GasKey(i),
            },
        }
    }
}

/// An action of a receipt.
pub enum ReceiptAction {
    Stake { public_key: PublicKey, stake: u128 },
    Other,
}

/// The view of a `ReceiptAction`.
pub ghost enum ActionView {
    Stake { public_key: Seq<u8>, stake: u128 },
    Other,
}

impl View for ReceiptAction {
    type V = ActionView;

    open spec fn view(&self) -> ActionView {
        match self {
            ReceiptAction::Stake { public_key, stake } => ActionView::Stake {
                public_key: public_key@,
                stake: *stake,
            },
            ReceiptAction::Other => ActionView::Other,
        }
    }
}

/// A receipt that was applied, with its outcome.
pub struct AppliedReceipt {
    pub id: CryptoHash,
    pub receipt_ids: Vec<CryptoHash>,
    pub status: ExecutionStatus,
    pub receiver_id: AccountId,
    pub predecessor_id: AccountId,
    /// The actions, where it is a receipt of actions.
    pub actions: Option<Vec<ReceiptAction>>,
}

/// The view of an `AppliedReceipt`. A receipt that is not one of actions has none.
pub ghost struct ReceiptView {
    pub id: CryptoHash,
    pub receipt_ids: Seq<CryptoHash>,
    pub status: ExecutionStatus,
    pub receiver_id: Seq<char>,
    pub predecessor_id: Seq<char>,
    pub actions: Seq<ActionView>,
}

impl View for AppliedReceipt {
    type V = ReceiptView;

    open spec fn view(&self) -> ReceiptView {
        ReceiptView {
            id: self.id,
            receipt_ids: self.receipt_ids@,
            status: self.status,
            receiver_id: self.receiver_id@,
            predecessor_id: self.predecessor_id@,
            actions: match self.actions {
                Some(v) => views(v@),
                None => Seq::empty(),
            },
        }
    }
}

/// The chunk of a shard.
pub struct TargetChunk {
    pub height_included: BlockHeight,
    pub gas_used: u64,
    pub transactions: Vec<TargetTx>,
}

/// The part of a target block that belongs to one shard.
pub struct TargetShard {
    pub shard_id: ShardId,
    pub chunk: Option<TargetChunk>,
    pub receipt_execution_outcomes: Vec<AppliedReceipt>,
}

/// The transactions and receipts of a shard. A shard whose chunk is missing has none.
pub ghost struct ShardView {
    pub transactions: Seq<TargetTxView>,
    pub receipts: Seq<ReceiptView>,
}

impl View for TargetShard {
    type V = ShardView;

    open spec fn view(&self) -> ShardView {
        match self.chunk {
            Some(c) => ShardView {
                transactions: views(c.transactions@),
                receipts: views(self.receipt_execution_outcomes@),
            },
            None => ShardView { transactions: Seq::empty(), receipts: Seq::empty() },
        }
    }
}

/// A block of the target chain.
pub struct TargetBlock {
    pub height: BlockHeight,
    pub timestamp_nanosec: u64,
    pub shards: Vec<TargetShard>,
}

/// The transactions and receipts of a shard.
pub open spec fn ids_of(shard: ShardView) -> Set<CryptoHash> {
    shard.transactions.map_values(|t: TargetTxView| t.hash).to_set().union(
        shard.receipts.map_values(|r: ReceiptView| r.id).to_set(),
    )
}

/// The transactions and receipts of several shards.
pub open spec fn all_ids(shards: Seq<ShardView>) -> Set<CryptoHash>
    decreases shards.len(),
{
    if shards.len() == 0 {
        Set::empty()
    } else {
        all_ids(shards.drop_last()).union(ids_of(shards.last()))
    }
}

fn collect_ids(shard: &TargetShard, found: &mut OrderedSet<CryptoHash>)
    ensures
        final(found)@ == old(found)@.union(ids_of(shard@)),
{
    let ghost s = found@;
    match &shard.chunk {
        None => {
            assert(shard@.transactions.map_values(|t: TargetTxView| t.hash) =~= Seq::empty());
            assert(shard@.receipts.map_values(|r: ReceiptView| r.id) =~= Seq::empty());
            assert(found@ =~= s.union(ids_of(shard@)));
        },
        Some(c) => {
            let ghost txs = shard@.transactions.map_values(|t: TargetTxView| t.hash);
            let ghost receipts = shard@.receipts.map_values(|r: ReceiptView| r.id);
            let mut i: usize = 0;
            assert(s =~= s.union(txs.take(0).to_set()));
            while i < c.transactions.len()
                invariant
                    i <= c.transactions@.len(),
                    txs == views(c.transactions@).map_values(|t: TargetTxView| t.hash),
                    found@ == s.union(txs.take(i as int).to_set()),
                decreases c.transactions@.len() - i,
            {
                proof {
                    assert(txs.take(i + 1) =~= txs.take(i as int).push(txs[i as int]));
                    lemma_to_set_push(txs.take(i as int), txs[i as int]);
                }
                found.insert(c.transactions[i].hash);
                assert(found@ =~= s.union(txs.take(i + 1).to_set()));
                i += 1;
            }
            assert(txs.take(i as int) =~= txs);
            let ghost mid = found@;
            let mut j: usize = 0;
            assert(mid =~= mid.union(receipts.take(0).to_set()));
            while j < shard.receipt_execution_outcomes.len()
                invariant
                    j <= shard.receipt_execution_outcomes@.len(),
                    receipts == views(shard.receipt_execution_outcomes@).map_values(
                        |r: ReceiptView| r.id,
                    ),
                    found@ == mid.union(receipts.take(j as int).to_set()),
                decreases shard.receipt_execution_outcomes@.len() - j,
            {
                proof {
                    assert(receipts.take(j + 1) =~= receipts.take(j as int).push(
                        receipts[j as int],
                    ));
                    lemma_to_set_push(receipts.take(j as int), receipts[j as int]);
                }
                found.insert(shard.receipt_execution_outcomes[j].id);
                assert(found@ =~= mid.union(receipts.take(j + 1).to_set()));
                j += 1;
            }
            assert(receipts.take(j as int) =~= receipts);
            assert(found@ =~= s.union(ids_of(shard@)));
        },
    }
}

impl TargetBlock {
    /// The transactions and receipts of the block, whose records are needed to take it in.
    pub fn object_ids(&self) -> (r: OrderedSet<CryptoHash>)
        ensures
            r@ == all_ids(views(self.shards@)),
    {
        let ghost all = views(self.shards@);
        let mut r: OrderedSet<CryptoHash> = OrderedSet::new();
        let mut i: usize = 0;
        assert(all.take(0) =~= Seq::empty());
        while i < self.shards.len()
            invariant
                i <= self.shards@.len(),
                all == views(self.shards@),
                r@ == all_ids(all.take(i as int)),
            decreases self.shards@.len() - i,
        {
            assert(all.take(i + 1).drop_last() =~= all.take(i as int));
            collect_ids(&self.shards[i], &mut r);
            i += 1;
        }
        assert(all.take(i as int) =~= all);
        r
    }
}

/// The hash that comes before no other.
pub fn zero_hash() -> (h: CryptoHash)
    ensures
        forall|i: int| 0 <= i < 32 ==> #[trigger] h.0@[i] == 0,
{
    CryptoHash([0u8; 32])
}

/// The sent transactions of one key that can no longer get in once `id` did: those with a nonce
/// no higher.
pub open spec fn skipped_by(txs: Set<TxId>, id: TxId) -> Set<TxId> {
    txs.remove(id).filter(|x: TxId| x.nonce <= id.nonce)
}

/// The sent transactions of one key that can still get in.
pub open spec fn left_by(txs: Set<TxId>, id: TxId) -> Set<TxId> {
    txs.filter(|x: TxId| x.nonce > id.nonce)
}

/// The sent transactions without those in `gone`.
pub open spec fn without_txs(sent: Map<CryptoHash, SendInfoView>, gone: Set<TxId>) -> Map<
    CryptoHash,
    SendInfoView,
> {
    Map::new(
        |h: CryptoHash|
            sent.contains_key(h) && !(exists|x: TxId| #[trigger] gone.contains(x) && x.hash == h),
        |h: CryptoHash| sent[h],
    )
}

/// Something out of the ordinary about a transaction that got in.
#[derive(Clone, Copy, Debug, PartialEq, Eq)]
pub enum RemovalNotice {
    /// No sent transactions are listed for its key.
    NoKey { hash: CryptoHash },
    /// It is not listed among the sent ones of its key.
    NotListed { hash: CryptoHash },
    /// It ends the waiting for this one.
    Skipped { hash: CryptoHash },
    /// One that it ends the waiting for is not among the sent ones.
    NotSent { hash: CryptoHash },
}

/// The transactions that are no longer waited for are taken out one after the other. Some may not
/// be among the sent ones.
pub open spec fn skip_notices(sent: Map<CryptoHash, SendInfoView>, list: Seq<TxId>) -> Seq<
    RemovalNotice,
>
    decreases list.len(),
{
    if list.len() == 0 {
        Seq::empty()
    } else {
        let rest = list.drop_last();
        let hash = list.last().hash;
        let noted = skip_notices(sent, rest).push(RemovalNotice::Skipped { hash });
        if without_txs(sent, rest.to_set()).contains_key(hash) {
            noted
        } else {
            noted.push(RemovalNotice::NotSent { hash })
        }
    }
}

impl TrackerView {
    /// What is out of the ordinary when a transaction of `key` got in.
    pub open spec fn removal_notices(self, key: NonceKey, id: TxId) -> Seq<RemovalNotice> {
        if !self.txs_by_signer.contains_key(key) {
            seq![RemovalNotice::NoKey { hash: id.hash }]
        } else {
            let txs = self.txs_by_signer[key];
            let first = if txs.contains(id) {
                Seq::empty()
            } else {
                seq![RemovalNotice::NotListed { hash: id.hash }]
            };
            first + skip_notices(self.sent_txs, listing::<TxId>(skipped_by(txs, id)))
        }
    }

    /// What is out of the ordinary about a transaction that was found on the chain.
    pub open spec fn found_notices(self, tx: TargetTxView) -> Seq<RemovalNotice> {
        if self.sent_txs.contains_key(tx.hash) {
            (TrackerView { sent_txs: self.sent_txs.remove(tx.hash), ..self }).removal_notices(
                tx.nonce_key,
                tx.id(),
            )
        } else {
            Seq::empty()
        }
    }

    /// The tracker after a transaction of `key` got in.
    pub open spec fn tx_removed(self, key: NonceKey, id: TxId) -> TrackerView {
        if !self.txs_by_signer.contains_key(key) {
            self
        } else {
            let txs = self.txs_by_signer[key];
            let left = left_by(txs, id);
            TrackerView {
                sent_txs: without_txs(self.sent_txs, skipped_by(txs, id)),
                txs_by_signer: if left == Set::<TxId>::empty() {
                    self.txs_by_signer.remove(key)
                } else {
                    self.txs_by_signer.insert(key, left)
                },
                ..self
            }
        }
    }

    /// The tracker after a transaction was found on the chain, if it is one that was sent.
    pub open spec fn tx_found(self, tx: TargetTxView) -> TrackerView {
        if !self.sent_txs.contains_key(tx.hash) {
            self
        } else {
            let source_height = self.sent_txs[tx.hash].source_height;
            let t = TrackerView { sent_txs: self.sent_txs.remove(tx.hash), ..self };
            let t = t.tx_removed(tx.nonce_key, tx.id());
            TrackerView { height_seen: later(t.height_seen, source_height), ..t }
        }
    }

    /// The next nonce does not overflow where it is needed.
    pub open spec fn can_find(self, tx: TargetTxView) -> bool {
        self.sent_txs.contains_key(tx.hash) && self.txs_by_signer.contains_key(tx.nonce_key)
            ==> tx.nonce < u64::MAX
    }

    /// An updater is taken off the list.
    pub open spec fn updater_done(self, updater: NonceUpdater) -> TrackerView {
        TrackerView { updater_to_keys: self.updater_to_keys.remove(updater), ..self }
    }

    /// Where an updater is listed, it is listed with `keys`.
    pub open spec fn lists(self, updater: NonceUpdater, keys: Set<NonceKey>) -> bool {
        self.updater_to_keys.contains_key(updater) ==> self.updater_to_keys[updater] == keys
    }
}

/// After a transaction got in, none that was sent with the same key and a nonce no higher is
/// waited for.
pub proof fn included_tx_ends_lower_nonces(t: TrackerView, key: NonceKey, id: TxId, other: TxId)
    requires
        t.tx_removed(key, id).txs_by_signer.contains_key(key),
        t.tx_removed(key, id).txs_by_signer[key].contains(other),
    ensures
        other.nonce > id.nonce,
        t.txs_by_signer[key].contains(other),
{
}

/// The tracker with the queue and the database that it works on.
#[verifier::ext_equal]
pub ghost struct World {
    pub tracker: TrackerView,
    pub queue: QueueView,
    pub db: DbView,
}

impl World {
    /// A transaction turned into a receipt: all that waits for the one can wait for the other.
    pub open spec fn can_turn(self, tx_hash: CryptoHash, keys: Set<NonceKey>) -> bool {
        let updater = NonceUpdater::ChainObjectId(tx_hash);
        let nonces = self.tracker.nonces;
        &&& self.tracker.lists(updater, keys)
        &&& searchable(self.queue, awaiting_of(nonces, keys))
        &&& forall|k: NonceKey| #[trigger]
            keys.contains(k) ==> self.db.nonces.contains_key(k)
                && self.db.nonces[k].pending_outcomes.contains(tx_hash)
        &&& forall|k: NonceKey| #[trigger]
            keys.contains(k) && nonces.contains_key(k)
                ==> nonces[k].target_nonce.pending_outcomes.contains(updater)
        &&& awaiting_all(nonces, keys, self.queue, updater)
        &&& awaiting_apart(nonces, keys)
    }

    /// The world after a transaction turned into a receipt.
    pub open spec fn turned(
        self,
        tx_hash: CryptoHash,
        receipt_id: CryptoHash,
        keys: Set<NonceKey>,
    ) -> World {
        let old = NonceUpdater::ChainObjectId(tx_hash);
        let new = NonceUpdater::ChainObjectId(receipt_id);
        let t = self.tracker.updater_done(old);
        World {
            tracker: TrackerView {
                nonces: renamed_infos(t.nonces, keys, old, new),
                updater_to_keys: if keys == Set::<NonceKey>::empty() {
                    t.updater_to_keys
                } else {
                    t.updater_to_keys.insert(new, keys)
                },
                ..t
            },
            queue: edited(self.queue, awaiting_of(t.nonces, keys), TxEdit::Rename { old, new }),
            db: renamed_records(
                self.db.delete_outcome(tx_hash),
                keys,
                tx_hash,
                receipt_id,
            ).put_outcome(receipt_id, keys),
        }
    }

    /// The world after an outcome is final.
    pub open spec fn outcome_done(self, id: CryptoHash) -> World {
        World {
            tracker: self.tracker.updater_done(NonceUpdater::ChainObjectId(id)),
            db: self.db.delete_outcome(id),
            ..self
        }
    }

    /// A transaction of a target block can be taken in.
    pub open spec fn can_include(self, tx: TargetTxView) -> bool {
        &&& self.tracker.can_find(tx)
        &&& self.db.outcomes.contains_key(tx.hash) ==> {
            let keys = self.db.outcomes[tx.hash];
            let w = World { tracker: self.tracker.tx_found(tx), ..self };
            match tx.status {
                ExecutionStatus::SuccessReceiptId(_) => w.can_turn(tx.hash, keys),
                ExecutionStatus::Failure => w.tracker.lists(
                    NonceUpdater::ChainObjectId(tx.hash),
                    keys,
                ),
                ExecutionStatus::SuccessValue => false,
                ExecutionStatus::Unknown => false,
            }
        }
    }

    /// The world after a transaction of a target block was taken in.
    pub open spec fn included(self, tx: TargetTxView) -> World {
        let w = World { tracker: self.tracker.tx_found(tx), ..self };
        if !self.db.outcomes.contains_key(tx.hash) {
            w
        } else {
            match tx.status {
                ExecutionStatus::SuccessReceiptId(receipt_id) => w.turned(
                    tx.hash,
                    receipt_id,
                    self.db.outcomes[tx.hash],
                ),
                _ => w.outcome_done(tx.hash),
            }
        }
    }
}

/// Receipts that came of ours, with no nonces to look after.
pub open spec fn with_descendants(db: DbView, ids: Seq<CryptoHash>) -> DbView
    decreases ids.len(),
{
    if ids.len() == 0 {
        db
    } else {
        with_descendants(db, ids.drop_last()).put_outcome(ids.last(), Set::empty())
    }
}

/// An account and the key that it stakes with, to the account that asked for it.
pub type StakedView = Map<(Seq<char>, Seq<u8>), Seq<char>>;

/// The stakes after the actions of a receipt.
pub open spec fn with_stakes(
    staked: StakedView,
    receiver_id: Seq<char>,
    predecessor_id: Seq<char>,
    actions: Seq<ActionView>,
) -> StakedView
    decreases actions.len(),
{
    if actions.len() == 0 {
        staked
    } else {
        let before = with_stakes(staked, receiver_id, predecessor_id, actions.drop_last());
        match actions.last() {
            ActionView::Stake { public_key, stake } => if stake > 0 {
                before.insert((receiver_id, public_key), predecessor_id)
            } else {
                before
            },
            ActionView::Other => before,
        }
    }
}

/// The nonces that an outcome may have changed, in ascending order.
pub open spec fn updates_by(keys: Set<NonceKey>, id: CryptoHash) -> Seq<(NonceKey, CryptoHash)> {
    let list = listing::<NonceLookupKey>(keys);
    Seq::new(list.len(), |i: int| (list[i], id))
}

/// A block of the target chain, part of the way through.
#[verifier::ext_equal]
pub ghost struct Progress {
    pub world: World,
    pub staked: StakedView,
    pub updates: Seq<(NonceKey, CryptoHash)>,
    /// The sent transactions that were found.
    pub found: Seq<CryptoHash>,
    /// What is out of the ordinary about them.
    pub notices: Seq<RemovalNotice>,
}

impl Progress {
    pub open spec fn tx_done(self, tx: TargetTxView) -> Progress {
        Progress {
            world: self.world.included(tx),
            found: if self.world.tracker.sent_txs.contains_key(tx.hash) {
                self.found.push(tx.hash)
            } else {
                self.found
            },
            notices: self.notices + self.world.tracker.found_notices(tx),
            ..self
        }
    }

    /// A receipt can be taken in.
    pub open spec fn can_apply(self, r: ReceiptView) -> bool {
        self.world.db.outcomes.contains_key(r.id) ==> self.world.tracker.lists(
            NonceUpdater::ChainObjectId(r.id),
            self.world.db.outcomes[r.id],
        )
    }

    /// After a receipt: one that came of our transactions ends the waiting for it, its own
    /// receipts are ours too, and the stakes that it made are to be reversed.
    pub open spec fn receipt_done(self, r: ReceiptView) -> Progress {
        if !self.world.db.outcomes.contains_key(r.id) {
            self
        } else {
            let w = self.world.outcome_done(r.id);
            Progress {
                world: World { db: with_descendants(w.db, r.receipt_ids), ..w },
                staked: if is_good(r.status) {
                    with_stakes(self.staked, r.receiver_id, r.predecessor_id, r.actions)
                } else {
                    self.staked
                },
                updates: self.updates + updates_by(self.world.db.outcomes[r.id], r.id),
                ..self
            }
        }
    }

    pub open spec fn txs_done(self, txs: Seq<TargetTxView>) -> Progress
        decreases txs.len(),
    {
        if txs.len() == 0 {
            self
        } else {
            self.txs_done(txs.drop_last()).tx_done(txs.last())
        }
    }

    pub open spec fn receipts_done(self, receipts: Seq<ReceiptView>) -> Progress
        decreases receipts.len(),
    {
        if receipts.len() == 0 {
            self
        } else {
            self.receipts_done(receipts.drop_last()).receipt_done(receipts.last())
        }
    }

    /// After a shard: first its transactions, then its receipts.
    pub open spec fn shard_done(self, shard: ShardView) -> Progress {
        self.txs_done(shard.transactions).receipts_done(shard.receipts)
    }

    pub open spec fn shards_done(self, shards: Seq<ShardView>) -> Progress
        decreases shards.len(),
    {
        if shards.len() == 0 {
            self
        } else {
            self.shards_done(shards.drop_last()).shard_done(shards.last())
        }
    }

    /// Each transaction of a shard, then each receipt, can be taken in when its turn comes.
    pub open spec fn can_do_shard(self, shard: ShardView) -> bool {
        &&& forall|n: int|
            0 <= n < shard.transactions.len() ==> self.txs_done(
                #[trigger] shard.transactions.take(n),
            ).world.can_include(shard.transactions[n])
        &&& forall|n: int|
            0 <= n < shard.receipts.len() ==> self.txs_done(shard.transactions).receipts_done(
                #[trigger] shard.receipts.take(n),
            ).can_apply(shard.receipts[n])
    }

    pub open spec fn can_do_shards(self, shards: Seq<ShardView>) -> bool {
        forall|n: int|
            0 <= n < shards.len() ==> self.shards_done(#[trigger] shards.take(n)).can_do_shard(
                shards[n],
            )
    }
}

/// What a target block brought.
pub struct TargetBlockInfo {
    /// Accounts that have to be unstaked: the account and its staking key, to the account that
    /// asked for the stake.
    pub staked_accounts: OrderedMap<(AccountId, PublicKey), AccountId>,
    /// Access keys that may be there now.
    pub access_key_updates: Vec<UpdatedKey>,
    /// The sent transactions that were found.
    pub included: Vec<CryptoHash>,
    /// What is out of the ordinary about them.
    pub notices: Vec<RemovalNotice>,
}

impl TxTracker {
    /// A transaction got in. Those that were sent with the same key and a nonce no higher cannot
    /// get in any more.
    pub fn remove_tx(&mut self, tx: &TargetTx) -> (r: Vec<RemovalNotice>)
        requires
            old(self)@.txs_by_signer.contains_key(tx@.nonce_key) ==> tx@.nonce < u64::MAX,
        ensures
            final(self)@ == old(self)@.tx_removed(tx@.nonce_key, tx@.id()),
            r@ == old(self)@.removal_notices(tx@.nonce_key, tx@.id()),
    {
        let mut notices: Vec<RemovalNotice> = Vec::new();
        let ghost t = self@;
        let ghost key = tx@.nonce_key;
        let ghost id = tx@.id();
        let nonce_key = NonceLookupKey::from_tx_view(tx);
        if let Some(taken) = self.txs_by_signer.remove(&nonce_key) {
            let mut txs = taken;
            let ghost all = txs@;
            if !txs.remove(&TxId { hash: tx.hash, nonce: tx.nonce }) {
                notices.push(RemovalNotice::NotListed { hash: tx.hash });
            }
            let ghost first = notices@;
            let bound = TxId { hash: zero_hash(), nonce: tx.nonce + 1 };
            let left = txs.split_off(&bound);
            proof {
                assert forall|x: TxId| #[trigger] TxId::before(x, bound) == (x.nonce
                    <= tx.nonce) by {
                    if lexically_before(x.hash.0@, bound.hash.0@) {
                        let i = choose|i: int| #[trigger]
                            parts_at(x.hash.0@, bound.hash.0@, i) && (i
                                < x.hash.0@.len() ==> x.hash.0@[i] < bound.hash.0@[i]);
                        assert(bound.hash.0@[i] == 0);
                    }
                }
                assert(txs@ =~= skipped_by(all, id));
                assert(left@ =~= left_by(all, id));
            }
            let ghost sent = self.sent_txs@;
            let ghost list = txs.list();
            let n: usize = txs.len();
            let mut i: usize = 0;
            assert(sent =~= without_txs(sent, list.take(0).to_set()));
            assert(notices@ =~= first + skip_notices(sent, list.take(0)));
            while i < n
                invariant
                    i <= n,
                    notices@ == first + skip_notices(sent, list.take(i as int)),
                    n == txs.list().len(),
                    list == txs.list(),
                    ascending::<TxId>(list),
                    self@ == (TrackerView {
                        sent_txs: without_txs(sent, list.take(i as int).to_set()),
                        txs_by_signer: t.txs_by_signer.remove(key),
                        ..t
                    }),
                decreases n - i,
            {
                let skipped = txs.item_at(i);
                proof {
                    lemma_prefix_step::<TxId>(list, i as int);
                }
                let ghost done = list.take(i as int).to_set();
                let ghost more = list.take(i + 1).to_set();
                let known = self.sent_txs.remove(&skipped.hash).is_some();
                notices.push(RemovalNotice::Skipped { hash: skipped.hash });
                if !known {
                    notices.push(RemovalNotice::NotSent { hash: skipped.hash });
                }
                proof {
                    assert forall|h: CryptoHash| without_txs(sent, more).contains_key(h)
                        == without_txs(sent, done).remove(skipped.hash).contains_key(h) by {
                        if exists|x: TxId| #[trigger] more.contains(x) && x.hash == h {
                            let x = choose|x: TxId| #[trigger] more.contains(x) && x.hash == h;
                            if x != *skipped {
                                assert(done.contains(x));
                            }
                        }
                        if exists|x: TxId| #[trigger] done.contains(x) && x.hash == h {
                            let x = choose|x: TxId| #[trigger] done.contains(x) && x.hash == h;
                            assert(more.contains(x));
                        }
                        if h == skipped.hash {
                            assert(more.contains(*skipped));
                        }
                    }
                    assert(self.sent_txs@ =~= without_txs(sent, more));
                    assert(list.take(i + 1).drop_last() =~= list.take(i as int));
                    assert(notices@ =~= first + skip_notices(sent, list.take(i + 1)));
                }
                i += 1;
            }
            assert(list.take(n as int) =~= list);
            if !left.is_empty() {
                self.txs_by_signer.insert(nonce_key, left);
                assert(self@.txs_by_signer =~= t.txs_by_signer.insert(key, left@));
            }
            assert(notices@ =~= t.removal_notices(key, id));
        } else {
            assert(self@.txs_by_signer =~= t.txs_by_signer);
            notices.push(RemovalNotice::NoKey { hash: tx.hash });
            assert(notices@ =~= t.removal_notices(key, id));
        }
        notices
    }

    /// A transaction turned into a receipt, which now may change the nonces in its place.
    pub fn tx_to_receipt(
        &mut self,
        tx_block_queue: &mut BlockQueue,
        db: &mut NonceDb,
        tx_hash: &CryptoHash,
        receipt_id: &CryptoHash,
        nonce_keys: OrderedSet<NonceLookupKey>,
    )
        requires
            world(old(self)@, old(tx_block_queue)@, old(db)@).can_turn(*tx_hash, nonce_keys@),
        ensures
            world(final(self)@, final(tx_block_queue)@, final(db)@) == world(
                old(self)@,
                old(tx_block_queue)@,
                old(db)@,
            ).turned(*tx_hash, *receipt_id, nonce_keys@),
            final(db).loaded() == old(db).loaded(),
    {
        let ghost w = world(self@, tx_block_queue@, db@);
        let updater = NonceUpdater::ChainObjectId(*tx_hash);
        let new_updater = NonceUpdater::ChainObjectId(*receipt_id);
        db.delete_pending_outcome(tx_hash);
        self.updater_to_keys.remove(&updater);
        rename_stored(db, &nonce_keys, tx_hash, receipt_id);
        edit_awaiting(
            &self.nonces,
            tx_block_queue,
            &nonce_keys,
            &TxEdit::Rename { old: updater, new: new_updater },
        );
        rename_updater(&mut self.nonces, &nonce_keys, updater, new_updater);
        db.put_pending_outcome(*receipt_id, nonce_keys.duplicate());
        if !nonce_keys.is_empty() {
            self.updater_to_keys.insert(new_updater, nonce_keys);
        }
    }

    /// An outcome is final: nothing more is to come of it.
    pub fn on_outcome_finished(
        &mut self,
        db: &mut NonceDb,
        id: &CryptoHash,
        nonce_keys: &OrderedSet<NonceLookupKey>,
    )
        requires
            old(self)@.lists(NonceUpdater::ChainObjectId(*id), nonce_keys@),
        ensures
            final(self)@ == old(self)@.updater_done(NonceUpdater::ChainObjectId(*id)),
            final(db)@ == old(db)@.delete_outcome(*id),
            final(db).loaded() == old(db).loaded(),
    {
        self.updater_to_keys.remove(&NonceUpdater::ChainObjectId(*id));
        db.delete_pending_outcome(id);
    }

    /// Takes in a transaction of a target block. Says whether it is one that was sent, and what is
    /// out of the ordinary about it.
    pub fn on_target_block_tx(
        &mut self,
        tx_block_queue: &mut BlockQueue,
        db: &mut NonceDb,
        tx: &TargetTx,
    ) -> (r: (bool, Vec<RemovalNotice>))
        requires
            world(old(self)@, old(tx_block_queue)@, old(db)@).can_include(tx@),
        ensures
            world(final(self)@, final(tx_block_queue)@, final(db)@) == world(
                old(self)@,
                old(tx_block_queue)@,
                old(db)@,
            ).included(tx@),
            final(db).loaded() == old(db).loaded(),
            final(self)@.height_seen == old(self)@.height_seen || {
                &&& old(self)@.sent_txs.contains_key(tx@.hash)
                &&& final(self)@.height_seen == old(self)@.sent_txs[tx@.hash].source_height
            },
            r.0 == old(self)@.sent_txs.contains_key(tx@.hash),
            r.1@ == old(self)@.found_notices(tx@),
    {
        let ghost t = self@;
        let sent = self.sent_txs.remove(&tx.hash);
        let found = sent.is_some();
        let mut notices: Vec<RemovalNotice> = Vec::new();
        match sent {
            Some(info) => {
                notices = self.remove_tx(tx);
                self.height_seen = later_of(self.height_seen, info.source_height);
            },
            None => {
                assert(self@.sent_txs =~= t.sent_txs);
            },
        }
        assert(self@ == t.tx_found(tx@));
        let pending = match db.read_pending_outcome(&tx.hash) {
            Some(keys) => Some(keys.duplicate()),
            None => None,
        };
        if let Some(nonce_keys) = pending {
            match tx.status {
                ExecutionStatus::SuccessReceiptId(receipt_id) => {
                    self.tx_to_receipt(tx_block_queue, db, &tx.hash, &receipt_id, nonce_keys);
                },
                ExecutionStatus::Failure => {
                    self.on_outcome_finished(db, &tx.hash, &nonce_keys);
                },
                ExecutionStatus::SuccessValue => {
                    assert(false);
                },
                ExecutionStatus::Unknown => {
                    assert(false);
                },
            }
        }
        (found, notices)
    }

    /// Takes in a receipt of a target block.
    pub fn on_target_block_applied_receipt(
        &mut self,
        db: &mut NonceDb,
        outcome: &AppliedReceipt,
        staked_accounts: &mut OrderedMap<(AccountId, PublicKey), AccountId>,
        access_key_updates: &mut Vec<UpdatedKey>,
    )
        requires
            old(db)@.outcomes.contains_key(outcome@.id) ==> old(self)@.lists(
                NonceUpdater::ChainObjectId(outcome@.id),
                old(db)@.outcomes[outcome@.id],
            ),
        ensures
            ({
                let done = progress(
                    world(old(self)@, Seq::empty(), old(db)@),
                    old(staked_accounts)@,
                    views(old(access_key_updates)@),
                    Seq::empty(),
                    Seq::empty(),
                ).receipt_done(outcome@);
                &&& final(self)@ == done.world.tracker
                &&& final(db)@ == done.world.db
                &&& final(staked_accounts)@ == done.staked
                &&& views(final(access_key_updates)@) == done.updates
            }),
            final(db).loaded() == old(db).loaded(),
    {
        let ghost keys = db@.outcomes[outcome@.id];
        let nonce_keys = match db.read_pending_outcome(&outcome.id) {
            Some(keys) => keys.duplicate(),
            None => {
                return;
            },
        };
        self.on_outcome_finished(db, &outcome.id, &nonce_keys);
        let ghost before = views(access_key_updates@);
        let ghost ended = db@;
        let ghost loaded = db.loaded();
        let ghost list = nonce_keys.list();
        let n: usize = nonce_keys.len();
        let ghost all = updates_by(keys, outcome.id);
        let mut i: usize = 0;
        assert(before =~= before + all.take(0));
        while i < n
            invariant
                i <= n,
                n == nonce_keys.list().len(),
                list == nonce_keys.list(),
                list == listing::<NonceLookupKey>(keys),
                all == updates_by(keys, outcome.id),
                views(access_key_updates@) == before + all.take(i as int),
            decreases n - i,
        {
            let key = nonce_keys.item_at(i).duplicate();
            let ghost so_far = views(access_key_updates@);
            access_key_updates.push(UpdatedKey { nonce_key: key, id: outcome.id });
            assert(views(access_key_updates@) =~= so_far.push(all[i as int]));
            assert(all.take(i + 1) =~= all.take(i as int).push(all[i as int]));
            assert(views(access_key_updates@) =~= before + all.take(i + 1));
            i += 1;
        }
        assert(all.take(n as int) =~= all);
        let ghost ids = outcome.receipt_ids@;
        let mut j: usize = 0;
        while j < outcome.receipt_ids.len()
            invariant
                j <= ids.len(),
                ids == outcome.receipt_ids@,
                db@ == with_descendants(ended, ids.take(j as int)),
                db.loaded() == loaded,
            decreases ids.len() - j,
        {
            db.put_pending_outcome(outcome.receipt_ids[j], OrderedSet::new());
            assert(ids.take(j + 1).drop_last() =~= ids.take(j as int));
            j += 1;
        }
        assert(ids.take(j as int) =~= ids);
        if !execution_status_good(&outcome.status) {
            return;
        }
        let ghost acts = outcome@.actions;
        let ghost staked = staked_accounts@;
        if let Some(actions) = &outcome.actions {
            let mut a: usize = 0;
            while a < actions.len()
                invariant
                    a <= actions@.len(),
                    acts == views(actions@),
                    staked_accounts@ == with_stakes(
                        staked,
                        outcome.receiver_id@,
                        outcome.predecessor_id@,
                        acts.take(a as int),
                    ),
                decreases actions@.len() - a,
            {
                assert(acts.take(a + 1).drop_last() =~= acts.take(a as int));
                assert(acts.take(a + 1).last() == actions@[a as int]@);
                if let ReceiptAction::Stake { public_key, stake } = &actions[a] {
                    if *stake > 0 {
                        staked_accounts.insert(
                            (outcome.receiver_id.duplicate(), public_key.duplicate()),
                            outcome.predecessor_id.duplicate(),
                        );
                    }
                }
                a += 1;
            }
            assert(acts.take(a as int) =~= acts);
        }
    }

    /// Takes in a block of the target chain, if everything is there that it needs.
    pub fn try_on_target_block(
        &mut self,
        tx_block_queue: &mut BlockQueue,
        db: &mut NonceDb,
        msg: &TargetBlock,
    ) -> (r: Option<TargetBlockInfo>)
        ensures
            r is Some <==> block_start(
                old(self)@,
                old(tx_block_queue)@,
                old(db)@,
                msg.timestamp_nanosec,
            ).can_do_shards(views(msg.shards@)),
            r matches Some(info) ==> progress(
                world(final(self)@, final(tx_block_queue)@, final(db)@),
                info.staked_accounts@,
                views(info.access_key_updates@),
                info.included@,
                info.notices@,
            ) == block_start(
                old(self)@,
                old(tx_block_queue)@,
                old(db)@,
                msg.timestamp_nanosec,
            ).shards_done(views(msg.shards@)),
            final(db).loaded() == old(db).loaded(),
    {
        let ghost p = block_start(self@, tx_block_queue@, db@, msg.timestamp_nanosec);
        let ghost shards = views(msg.shards@);
        let ghost loaded = db.loaded();
        self.record_block_timestamp(msg.timestamp_nanosec);
        let mut updates: Vec<UpdatedKey> = Vec::new();
        let mut staked: OrderedMap<(AccountId, PublicKey), AccountId> = OrderedMap::new();
        let mut included: Vec<CryptoHash> = Vec::new();
        let mut notices: Vec<RemovalNotice> = Vec::new();
        assert(views(updates@) =~= Seq::empty());
        let mut s: usize = 0;
        while s < msg.shards.len()
            invariant
                s <= shards.len(),
                shards == views(msg.shards@),
                p == block_start(
                    old(self)@,
                    old(tx_block_queue)@,
                    old(db)@,
                    msg.timestamp_nanosec,
                ),
                loaded == old(db).loaded(),
                forall|n: int|
                    0 <= n < s ==> p.shards_done(#[trigger] shards.take(n)).can_do_shard(
                        shards[n],
                    ),
                progress(
                    world(self@, tx_block_queue@, db@),
                    staked@,
                    views(updates@),
                    included@,
                    notices@,
                ) == p.shards_done(shards.take(s as int)),
                db.loaded() == loaded,
            decreases shards.len() - s,
        {
            let shard = &msg.shards[s];
            assert(shards[s as int] == shard@);
            let ghost start = p.shards_done(shards.take(s as int));
            proof {
                assert(shards.take(s + 1).drop_last() =~= shards.take(s as int));
                assert(shards.take(s + 1).last() == shard@);
            }
            if let Some(c) = &shard.chunk {
                let ghost txs = shard@.transactions;
                let ghost receipts = shard@.receipts;
                let mut i: usize = 0;
                while i < c.transactions.len()
                    invariant
                        i <= txs.len(),
                        txs == views(c.transactions@),
                        shard@.transactions == txs,
                        s < shards.len(),
                        shards == views(msg.shards@),
                        shards[s as int] == shard@,
                        p == block_start(
                            old(self)@,
                            old(tx_block_queue)@,
                            old(db)@,
                            msg.timestamp_nanosec,
                        ),
                        start == p.shards_done(shards.take(s as int)),
                        loaded == old(db).loaded(),
                        forall|n: int|
                            0 <= n < i ==> start.txs_done(
                                #[trigger] txs.take(n),
                            ).world.can_include(txs[n]),
                        progress(
                            world(self@, tx_block_queue@, db@),
                            staked@,
                            views(updates@),
                            included@,
                            notices@,
                        ) == start.txs_done(txs.take(i as int)),
                        db.loaded() == loaded,
                    decreases txs.len() - i,
                {
                    let tx = &c.transactions[i];
                    assert(txs[i as int] == tx@);
                    proof {
                        assert(txs.take(i + 1).drop_last() =~= txs.take(i as int));
                        assert(txs.take(i + 1).last() == tx@);
                    }
                    if !self.can_include(tx_block_queue, db, tx) {
                        assert(!start.txs_done(txs.take(i as int)).world.can_include(
                            shard@.transactions[i as int],
                        ));
                        assert(!p.shards_done(shards.take(s as int)).can_do_shard(
                            shards[s as int],
                        ));
                        return None;
                    }
                    let (found, mut more) = self.on_target_block_tx(tx_block_queue, db, tx);
                    if found {
                        included.push(tx.hash);
                    }
                    notices.append(&mut more);
                    i += 1;
                }
                assert(txs.take(i as int) =~= txs);
                let ghost middle = start.txs_done(txs);
                let mut j: usize = 0;
                while j < shard.receipt_execution_outcomes.len()
                    invariant
                        j <= receipts.len(),
                        receipts == views(shard.receipt_execution_outcomes@),
                        shard@.transactions == txs,
                        shard@.receipts == receipts,
                        s < shards.len(),
                        shards == views(msg.shards@),
                        shards[s as int] == shard@,
                        p == block_start(
                            old(self)@,
                            old(tx_block_queue)@,
                            old(db)@,
                            msg.timestamp_nanosec,
                        ),
                        start == p.shards_done(shards.take(s as int)),
                        loaded == old(db).loaded(),
                        middle == start.txs_done(txs),
                        forall|n: int|
                            0 <= n < j ==> middle.receipts_done(
                                #[trigger] receipts.take(n),
                            ).can_apply(receipts[n]),
                        progress(
                            world(self@, tx_block_queue@, db@),
                            staked@,
                            views(updates@),
                            included@,
                            notices@,
                        ) == middle.receipts_done(receipts.take(j as int)),
                        db.loaded() == loaded,
                    decreases receipts.len() - j,
                {
                    let outcome = &shard.receipt_execution_outcomes[j];
                    assert(receipts[j as int] == outcome@);
                    let ghost now = progress(
                        world(self@, tx_block_queue@, db@),
                        staked@,
                        views(updates@),
                        included@,
                        notices@,
                    );
                    proof {
                        assert(receipts.take(j + 1).drop_last() =~= receipts.take(j as int));
                        assert(receipts.take(j + 1).last() == outcome@);
                    }
                    if !self.can_apply(db, outcome) {
                        assert(!start.txs_done(shard@.transactions).receipts_done(
                            shard@.receipts.take(j as int),
                        ).can_apply(shard@.receipts[j as int]));
                        assert(!p.shards_done(shards.take(s as int)).can_do_shard(
                            shards[s as int],
                        ));
                        return None;
                    }
                    self.on_target_block_applied_receipt(db, outcome, &mut staked, &mut updates);
                    assert(progress(
                        world(self@, tx_block_queue@, db@),
                        staked@,
                        views(updates@),
                        included@,
                        notices@,
                    ) == now.receipt_done(outcome@));
                    j += 1;
                }
                assert(receipts.take(j as int) =~= receipts);
            } else {
                proof {
                    assert(shard@.transactions =~= Seq::empty());
                    assert(shard@.receipts =~= Seq::empty());
                }
            }
            assert(start.can_do_shard(shard@));
            s += 1;
        }
        assert(shards.take(s as int) =~= shards);
        Some(
            TargetBlockInfo {
                staked_accounts: staked,
                access_key_updates: updates,
                included,
                notices,
            },
        )
    }

    /// Takes in a block of the target chain.
    pub fn on_target_block(
        &mut self,
        tx_block_queue: &mut BlockQueue,
        db: &mut NonceDb,
        msg: &TargetBlock,
    ) -> (r: TargetBlockInfo)
        requires
            block_start(
                old(self)@,
                old(tx_block_queue)@,
                old(db)@,
                msg.timestamp_nanosec,
            ).can_do_shards(views(msg.shards@)),
        ensures
            progress(
                world(final(self)@, final(tx_block_queue)@, final(db)@),
                r.staked_accounts@,
                views(r.access_key_updates@),
                r.included@,
                r.notices@,
            ) == block_start(
                old(self)@,
                old(tx_block_queue)@,
                old(db)@,
                msg.timestamp_nanosec,
            ).shards_done(views(msg.shards@)),
            final(db).loaded() == old(db).loaded(),
    {
        self.try_on_target_block(tx_block_queue, db, msg).unwrap()
    }
}

pub open spec fn world(tracker: TrackerView, queue: QueueView, db: DbView) -> World {
    World { tracker, queue, db }
}

pub open spec fn progress(
    world: World,
    staked: StakedView,
    updates: Seq<(NonceKey, CryptoHash)>,
    found: Seq<CryptoHash>,
    notices: Seq<RemovalNotice>,
) -> Progress {
    Progress { world, staked, updates, found, notices }
}

/// The start of a block: its timestamp is recorded, and nothing is found yet.
pub open spec fn block_start(
    tracker: TrackerView,
    queue: QueueView,
    db: DbView,
    timestamp: u64,
) -> Progress {
    progress(
        world(
            TrackerView {
                recent_block_timestamps: recorded(
                    tracker.recent_block_timestamps,
                    timestamp,
                ),
                ..tracker
            },
            queue,
            db,
        ),
        Map::empty(),
        Seq::empty(),
        Seq::empty(),
        Seq::empty(),
    )
}

/// The outcomes that a block needs are those of its transactions and its receipts, and no others.
pub proof fn blocks_name_their_txs_and_receipts(shards: Seq<ShardView>, id: CryptoHash)
    ensures
        all_ids(shards).contains(id) <==> exists|s: int|
            0 <= s < shards.len() && ((exists|i: int|
                0 <= i < (#[trigger] shards[s]).transactions.len()
                    && #[trigger] shards[s].transactions[i].hash == id) || (exists|i: int|
                0 <= i < shards[s].receipts.len() && #[trigger] shards[s].receipts[i].id == id)),
    decreases shards.len(),
{
    if shards.len() > 0 {
        let rest = shards.drop_last();
        let n: int = shards.len() - 1;
        let x = shards.last();
        blocks_name_their_txs_and_receipts(rest, id);
        assert(shards[n] == x);
        let txs = x.transactions.map_values(|t: TargetTxView| t.hash);
        let receipts = x.receipts.map_values(|r: ReceiptView| r.id);
        if txs.contains(id) {
            let i = txs.index_of(id);
            assert(shards[n].transactions[i].hash == id);
        }
        if receipts.contains(id) {
            let i = receipts.index_of(id);
            assert(shards[n].receipts[i].id == id);
        }
        assert forall|i: int| 0 <= i < x.transactions.len() implies txs.contains(
            #[trigger] x.transactions[i].hash,
        ) by {
            assert(txs[i] == x.transactions[i].hash);
        }
        assert forall|i: int| 0 <= i < x.receipts.len() implies receipts.contains(
            #[trigger] x.receipts[i].id,
        ) by {
            assert(receipts[i] == x.receipts[i].id);
        }
        assert forall|s: int| 0 <= s < rest.len() implies #[trigger] rest[s] == shards[s] by {}
        assert forall|s: int| 0 <= s < rest.len() implies #[trigger] shards[s] == rest[s] by {}
    }
}

} // verus!
