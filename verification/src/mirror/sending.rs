//! What follows when a transaction was sent, or was skipped.

use vstd::prelude::*;

use super::db::{DbView, LatestView, NonceDb};
use super::ids::{NonceKey, NonceLookupKey, NonceUpdater, TxId, TxRef};
use super::queue::{
    edited, edited_chunk, first_chunk, heights_ascend, holds, leads_to, lemma_some_ref,
    lemma_tx_at, ref_of, searchable, steady, tx_at, BlockQueue, QueueView,
};
use super::settling::{
    awaiting_all, awaiting_apart, awaiting_held, awaiting_of, edit_awaiting, remove_refs,
    rename_updater, renamed_infos,
};
use super::target::{world, World};
use super::tracker::{send_info, InfoView, NonceInfo, TrackerView, TxSendInfo, TxTracker};
use super::tx::{at_most, is_at_most, later, later_of, MappedTx, MappedTxView, TxEdit};
use crate::keys::{BlockHeight, CryptoHash, Nonce};
use crate::ordered::{ascending, lemma_prefix_step, Key, OrderedMap, OrderedSet};

verus! {

/// A batch, part of the way through: the world, and the nonces to drop from memory at the end.
#[verifier::ext_equal]
pub ghost struct Batch {
    pub world: World,
    pub expired: Set<NonceKey>,
}

/// Something out of the ordinary about a transaction that was sent.
#[derive(Clone, Copy, Debug, PartialEq, Eq)]
pub enum SendNotice {
    /// It was sent before.
    SentTwice { hash: CryptoHash },
    /// One with a higher nonce was sent before.
    OutOfOrder { hash: CryptoHash, nonce: Nonce },
    /// It is listed among the sent ones of its key already.
    ListedTwice { hash: CryptoHash },
}

/// One of the sent transactions has a higher nonce.
pub open spec fn has_higher(txs: Set<TxId>, nonce: Nonce) -> bool {
    exists|x: TxId| #[trigger] txs.contains(x) && x.nonce > nonce
}

/// The height that a reference is from.
pub open spec fn height_of(tx_ref: Option<TxRef>) -> Option<BlockHeight> {
    match tx_ref {
        Some(r) => Some(r.source_height),
        None => None,
    }
}

/// Those of the nonces that no queued height after `height` refers to.
pub open spec fn expired_by(
    nonces: Map<NonceKey, InfoView>,
    keys: Set<NonceKey>,
    height: Option<BlockHeight>,
) -> Set<NonceKey> {
    keys.filter(|k: NonceKey| nonces.contains_key(k) && at_most(nonces[k].last_height, height))
}

/// The stored records of `keys` with one more pending outcome.
pub open spec fn with_pending(db: DbView, keys: Set<NonceKey>, id: CryptoHash) -> DbView {
    DbView {
        nonces: Map::new(
            |k: NonceKey| db.nonces.contains_key(k),
            |k: NonceKey|
                if keys.contains(k) {
                    LatestView {
                        pending_outcomes: db.nonces[k].pending_outcomes.insert(id),
                        ..db.nonces[k]
                    }
                } else {
                    db.nonces[k]
                },
        ),
        ..db
    }
}

/// The sent transactions of a key.
pub open spec fn sent_by(t: TrackerView, key: NonceKey) -> Set<TxId> {
    if t.txs_by_signer.contains_key(key) {
        t.txs_by_signer[key]
    } else {
        Set::empty()
    }
}

/// In the nonces of `keys`, transactions that are ready no longer wait.
pub open spec fn without_ready(
    nonces: Map<NonceKey, InfoView>,
    keys: Set<NonceKey>,
    q: QueueView,
) -> Map<NonceKey, InfoView> {
    Map::new(
        |k: NonceKey| nonces.contains_key(k),
        |k: NonceKey|
            if keys.contains(k) {
                InfoView {
                    txs_awaiting_nonce: nonces[k].txs_awaiting_nonce.filter(
                        |r: TxRef| !(tx_at(q, r) is Ready),
                    ),
                    ..nonces[k]
                }
            } else {
                nonces[k]
            },
    )
}

/// The nonces without a queued transaction of one of them.
pub open spec fn unqueued(nonces: Map<NonceKey, InfoView>, key: NonceKey, tx_ref: TxRef) -> Map<
    NonceKey,
    InfoView,
> {
    nonces.insert(
        key,
        InfoView { queued_txs: nonces[key].queued_txs.remove(tx_ref), ..nonces[key] },
    )
}

impl TrackerView {
    /// The nonces that a queued transaction was listed with.
    pub open spec fn listed(self, updater: NonceUpdater) -> Set<NonceKey> {
        if self.updater_to_keys.contains_key(updater) {
            self.updater_to_keys[updater]
        } else {
            Set::empty()
        }
    }
}

impl Batch {
    /// Everything that a sent transaction has to do with is there.
    pub open spec fn can_send(self, tx_ref: Option<TxRef>, tx: MappedTxView) -> bool {
        let hash = tx.target_tx.hash;
        let t = self.world.tracker;
        let q = self.world.queue;
        let db = self.world.db;
        let key = tx.target_tx.transaction.nonce_key();
        let keys = tx.nonce_updates;
        t.sent_txs.contains_key(hash) || {
            &&& db.nonces.contains_key(key)
            &&& t.nonces.contains_key(key)
            &&& match tx_ref {
                Some(r) => {
                    let updater = NonceUpdater::TxRef(r);
                    &&& keys == t.listed(updater)
                    &&& searchable(q, awaiting_of(t.nonces, keys))
                    &&& forall|k: NonceKey| #[trigger]
                        keys.contains(k) ==> {
                            &&& db.nonces.contains_key(k)
                            &&& t.nonces.contains_key(k)
                            &&& t.nonces[k].target_nonce.pending_outcomes.contains(updater)
                        }
                    &&& awaiting_all(t.nonces, keys, q, updater)
                    &&& awaiting_apart(t.nonces, keys)
                    &&& t.nonces[key].queued_txs.contains(r)
                },
                None => keys == Set::<NonceKey>::empty(),
            }
        }
    }

    /// The tracker when a sent transaction is taken down.
    pub open spec fn taken_down(
        self,
        tx_ref: Option<TxRef>,
        tx: MappedTxView,
        target_height: BlockHeight,
        now: u64,
    ) -> TrackerView {
        let hash = tx.target_tx.hash;
        let t = self.world.tracker;
        let key = tx.target_tx.transaction.nonce_key();
        TrackerView {
            sent_txs: t.sent_txs.insert(
                hash,
                send_info(tx, height_of(tx_ref), target_height, now),
            ),
            txs_by_signer: t.txs_by_signer.insert(
                key,
                sent_by(t, key).insert(TxId { hash, nonce: tx.target_tx.transaction.nonce }),
            ),
            ..t
        }
    }

    /// The batch when what waited for a queued transaction waits for the one on the chain.
    pub open spec fn handed_over(
        self,
        t: TrackerView,
        tx_ref: Option<TxRef>,
        keys: Set<NonceKey>,
        hash: CryptoHash,
    ) -> Batch {
        match tx_ref {
            Some(r) => {
                let old = NonceUpdater::TxRef(r);
                let new = NonceUpdater::ChainObjectId(hash);
                Batch {
                    world: World {
                        tracker: TrackerView {
                            updater_to_keys: t.updater_to_keys.remove(old),
                            nonces: renamed_infos(t.nonces, keys, old, new),
                            ..t
                        },
                        queue: edited(
                            self.world.queue,
                            awaiting_of(t.nonces, keys),
                            TxEdit::Rename { old, new },
                        ),
                        db: with_pending(self.world.db, keys, hash),
                    },
                    expired: self.expired.union(
                        expired_by(t.nonces, keys, Some(r.source_height)),
                    ),
                }
            },
            None => Batch { world: World { tracker: t, ..self.world }, ..self },
        }
    }

    /// The batch after a transaction was sent. One that was sent before changes nothing.
    pub open spec fn sent(
        self,
        tx_ref: Option<TxRef>,
        tx: MappedTxView,
        target_height: BlockHeight,
        now: u64,
    ) -> Batch {
        let hash = tx.target_tx.hash;
        if self.world.tracker.sent_txs.contains_key(hash) {
            self
        } else {
            let key = tx.target_tx.transaction.nonce_key();
            let b = self.handed_over(
                self.taken_down(tx_ref, tx, target_height, now),
                tx_ref,
                tx.nonce_updates,
                hash,
            );
            let t = b.world.tracker;
            let db = b.world.db.put_outcome(hash, tx.nonce_updates);
            Batch {
                world: World {
                    tracker: TrackerView {
                        nonces: match tx_ref {
                            Some(r) => unqueued(t.nonces, key, r),
                            None => t.nonces,
                        },
                        ..t
                    },
                    db: db.put_nonce(
                        key,
                        LatestView {
                            nonce: later(db.nonces[key].nonce, Some(tx.target_tx.transaction.nonce)),
                            ..db.nonces[key]
                        },
                    ),
                    ..b.world
                },
                expired: b.expired.union(
                    expired_by(t.nonces, set![key], height_of(tx_ref)),
                ),
            }
        }
    }

    /// What is out of the ordinary when a transaction was sent.
    pub open spec fn notices(self, tx: MappedTxView) -> Seq<SendNotice> {
        let t = self.world.tracker;
        let hash = tx.target_tx.hash;
        let nonce = tx.target_tx.transaction.nonce;
        let listed = sent_by(t, tx.target_tx.transaction.nonce_key());
        if t.sent_txs.contains_key(hash) {
            seq![SendNotice::SentTwice { hash }]
        } else {
            let late = if has_higher(listed, nonce) {
                seq![SendNotice::OutOfOrder { hash, nonce }]
            } else {
                Seq::empty()
            };
            if listed.contains(TxId { hash, nonce }) {
                late.push(SendNotice::ListedTwice { hash })
            } else {
                late
            }
        }
    }

    /// Everything that a skipped transaction has to do with is there.
    pub open spec fn can_skip(
        self,
        tx_ref: Option<TxRef>,
        key: NonceKey,
        keys: Set<NonceKey>,
    ) -> bool {
        let t = self.world.tracker;
        let q = self.world.queue;
        match tx_ref {
            None => true,
            Some(r) => {
                let updater = NonceUpdater::TxRef(r);
                &&& t.nonces.contains_key(key)
                &&& t.nonces[key].queued_txs.contains(r)
                &&& t.updater_to_keys.contains_key(updater) ==> {
                    &&& t.updater_to_keys[updater] == keys
                    &&& searchable(q, awaiting_of(t.nonces, keys))
                    &&& awaiting_held(t.nonces, keys, q)
                    &&& forall|x: TxRef| #[trigger]
                        awaiting_of(t.nonces, keys).contains(x) ==> tx_at(q, x) is Ready || tx_at(
                            q,
                            x,
                        ).awaits(updater)
                    &&& forall|k: NonceKey, l: NonceKey, x: TxRef|
                        #![trigger t.nonces[k].txs_awaiting_nonce.contains(x), t.nonces[l].txs_awaiting_nonce.contains(x)]
                        keys.contains(k) && keys.contains(l) && t.nonces.contains_key(k)
                            && t.nonces.contains_key(l) && t.nonces[k].txs_awaiting_nonce.contains(
                            x,
                        ) && t.nonces[l].txs_awaiting_nonce.contains(x) ==> k == l || tx_at(
                            q,
                            x,
                        ) is Ready
                }
            },
        }
    }

    /// The batch after a transaction was skipped: nothing waits for it any more.
    pub open spec fn skipped(
        self,
        tx_ref: Option<TxRef>,
        key: NonceKey,
        keys: Set<NonceKey>,
    ) -> Batch {
        let t = self.world.tracker;
        let q = self.world.queue;
        match tx_ref {
            None => self,
            Some(r) => {
                let updater = NonceUpdater::TxRef(r);
                let height = Some(r.source_height);
                let b = if t.updater_to_keys.contains_key(updater) {
                    Batch {
                        world: World {
                            tracker: TrackerView {
                                updater_to_keys: t.updater_to_keys.remove(updater),
                                nonces: without_ready(t.nonces, keys, q),
                                ..t
                            },
                            queue: edited(
                                q,
                                awaiting_of(t.nonces, keys),
                                TxEdit::Forget { updater },
                            ),
                            ..self.world
                        },
                        expired: self.expired.union(expired_by(t.nonces, keys, height)),
                    }
                } else {
                    self
                };
                Batch {
                    world: World {
                        tracker: TrackerView {
                            nonces: unqueued(b.world.tracker.nonces, key, r),
                            ..b.world.tracker
                        },
                        ..b.world
                    },
                    expired: b.expired.union(expired_by(t.nonces, set![key], height)),
                }
            },
        }
    }
}

pub open spec fn batch(world: World, expired: Set<NonceKey>) -> Batch {
    Batch { world, expired }
}

/// Adds to `found` those of the nonces that no queued height after `height` refers to.
fn collect_expired(
    nonces: &OrderedMap<NonceLookupKey, NonceInfo>,
    keys: &OrderedSet<NonceLookupKey>,
    height: Option<BlockHeight>,
    found: &mut OrderedSet<NonceLookupKey>,
)
    ensures
        final(found)@ == old(found)@.union(expired_by(nonces@, keys@, height)),
{
    let ghost s = found@;
    let ghost list = keys.list();
    let n: usize = keys.len();
    let mut i: usize = 0;
    assert(s =~= s.union(expired_by(nonces@, list.take(0).to_set(), height)));
    while i < n
        invariant
            i <= n,
            n == keys.list().len(),
            list == keys.list(),
            ascending::<NonceLookupKey>(list),
            found@ == s.union(expired_by(nonces@, list.take(i as int).to_set(), height)),
        decreases n - i,
    {
        let key = keys.item_at(i);
        proof {
            lemma_prefix_step::<NonceLookupKey>(list, i as int);
        }
        if let Some(info) = nonces.get(key) {
            if is_at_most(info.last_height, height) {
                found.insert(key.duplicate());
            }
        }
        assert(found@ =~= s.union(expired_by(nonces@, list.take(i + 1).to_set(), height)));
        i += 1;
    }
    assert(list.take(n as int) =~= list);
}

/// Adds a pending outcome to the stored records of `keys`.
fn add_pending(db: &mut NonceDb, keys: &OrderedSet<NonceLookupKey>, id: &CryptoHash)
    requires
        forall|k: NonceKey| #[trigger] keys@.contains(k) ==> old(db)@.nonces.contains_key(k),
    ensures
        final(db)@ == with_pending(old(db)@, keys@, *id),
        final(db).loaded() == old(db).loaded(),
{
    let ghost d = db@;
    let ghost list = keys.list();
    let n: usize = keys.len();
    let mut i: usize = 0;
    assert(d.nonces =~= with_pending(d, list.take(0).to_set(), *id).nonces);
    while i < n
        invariant
            i <= n,
            n == keys.list().len(),
            list == keys.list(),
            list.to_set() == keys@,
            ascending::<NonceLookupKey>(list),
            forall|k: NonceKey| #[trigger] keys@.contains(k) ==> d.nonces.contains_key(k),
            db@ == with_pending(d, list.take(i as int).to_set(), *id),
            db.loaded() == old(db).loaded(),
        decreases n - i,
    {
        let key = keys.item_at(i);
        proof {
            lemma_prefix_step::<NonceLookupKey>(list, i as int);
        }
        let mut record = db.read_target_nonce(key).unwrap().duplicate();
        record.pending_outcomes.insert(*id);
        db.put_target_nonce(key, record);
        assert(db@.nonces =~= with_pending(d, list.take(i + 1).to_set(), *id).nonces);
        i += 1;
    }
    assert(list.take(n as int) =~= list);
}

/// Whether one of the sent transactions has a higher nonce.
fn has_later(txs: &OrderedSet<TxId>, nonce: Nonce) -> (b: bool)
    ensures
        b == has_higher(txs@, nonce),
{
    let ghost list = txs.list();
    let n: usize = txs.len();
    if n == 0 {
        proof {
            if has_higher(txs@, nonce) {
                let x = choose|x: TxId| #[trigger] txs@.contains(x) && x.nonce > nonce;
                assert(list.to_set().contains(x));
            }
        }
        return false;
    }
    let last = txs.item_at(n - 1);
    proof {
        assert(txs@.contains(*last));
        if has_higher(txs@, nonce) {
            let x = choose|x: TxId| #[trigger] txs@.contains(x) && x.nonce > nonce;
            assert(list.to_set().contains(x));
            let j = list.index_of(x);
            assert(list[j] == x);
            if j < n - 1 {
                assert(TxId::before(list[j], list[n - 1]));
            }
        }
    }
    last.nonce > nonce
}

/// In the nonces of `keys`, takes out the references of transactions that are ready.
fn drop_ready(
    nonces: &mut OrderedMap<NonceLookupKey, NonceInfo>,
    keys: &OrderedSet<NonceLookupKey>,
    queue: &BlockQueue,
)
    requires
        searchable(queue@, awaiting_of(old(nonces)@, keys@)),
        awaiting_held(old(nonces)@, keys@, queue@),
    ensures
        final(nonces)@ == without_ready(old(nonces)@, keys@, queue@),
{
    let ghost m = nonces@;
    let ghost q = queue@;
    let ghost list = keys.list();
    let n: usize = keys.len();
    let mut i: usize = 0;
    assert(m =~= without_ready(m, list.take(0).to_set(), q));
    while i < n
        invariant
            i <= n,
            n == keys.list().len(),
            list == keys.list(),
            list.to_set() == keys@,
            ascending::<NonceLookupKey>(list),
            q == queue@,
            searchable(q, awaiting_of(m, keys@)),
            awaiting_held(m, keys@, q),
            nonces@ == without_ready(m, list.take(i as int).to_set(), q),
        decreases n - i,
    {
        let key = keys.item_at(i);
        proof {
            lemma_prefix_step::<NonceLookupKey>(list, i as int);
        }
        let ghost before = nonces@;
        if let Some(info) = nonces.get_mut(key) {
            let ghost was = info@;
            proof {
                assert(was == m[key@]);
                assert forall|r: TxRef| #[trigger] was.txs_awaiting_nonce.contains(r) implies holds(
                    q,
                    r,
                ) by {
                    assert(m[key@].txs_awaiting_nonce.contains(r));
                }
                if was.txs_awaiting_nonce != Set::<TxRef>::empty() {
                    let r = lemma_some_ref(was.txs_awaiting_nonce);
                    assert(keys@.contains(key@));
                    assert(awaiting_of(m, keys@).contains(r));
                }
            }
            let ready = queue.ready_among(&info.txs_awaiting_nonce);
            remove_refs(&mut info.txs_awaiting_nonce, &ready);
            assert(info@.txs_awaiting_nonce =~= was.txs_awaiting_nonce.filter(
                |r: TxRef| !(tx_at(q, r) is Ready),
            ));
        }
        assert(nonces@ =~= without_ready(m, list.take(i + 1).to_set(), q));
        i += 1;
    }
    assert(list.take(n as int) =~= list);
}

impl TxTracker {
    /// A transaction was sent. Returns what is out of the ordinary.
    pub fn on_tx_sent(
        &mut self,
        tx_block_queue: &mut BlockQueue,
        db: &mut NonceDb,
        tx_ref: Option<TxRef>,
        tx: MappedTx,
        target_height: BlockHeight,
        now: u64,
        keys_to_remove: &mut OrderedSet<NonceLookupKey>,
    ) -> (r: Vec<SendNotice>)
        requires
            batch(
                world(old(self)@, old(tx_block_queue)@, old(db)@),
                old(keys_to_remove)@,
            ).can_send(tx_ref, tx@),
        ensures
            batch(
                world(final(self)@, final(tx_block_queue)@, final(db)@),
                final(keys_to_remove)@,
            ) == batch(
                world(old(self)@, old(tx_block_queue)@, old(db)@),
                old(keys_to_remove)@,
            ).sent(tx_ref, tx@, target_height, now),
            final(db).loaded() == old(db).loaded(),
            r@ == batch(
                world(old(self)@, old(tx_block_queue)@, old(db)@),
                old(keys_to_remove)@,
            ).notices(tx@),
    {
        let mut notices: Vec<SendNotice> = Vec::new();
        let hash = tx.target_tx.get_hash();
        if self.sent_txs.contains_key(&hash) {
            notices.push(SendNotice::SentTwice { hash });
            assert(notices@ =~= seq![SendNotice::SentTwice { hash }]);
            return notices;
        }
        let ghost start = batch(world(self@, tx_block_queue@, db@), keys_to_remove@);
        let ghost key = tx@.target_tx.transaction.nonce_key();
        let nonce_key = NonceLookupKey::from_tx(&tx.target_tx.transaction);
        let source_height = match &tx_ref {
            Some(r) => Some(r.source_height),
            None => None,
        };
        let nonce = tx.target_tx.transaction.nonce;
        self.sent_txs.insert(hash, TxSendInfo::new(&tx, source_height, target_height, now));
        let mut txs = match self.txs_by_signer.remove(&nonce_key) {
            Some(txs) => txs,
            None => OrderedSet::new(),
        };
        if has_later(&txs, nonce) {
            notices.push(SendNotice::OutOfOrder { hash, nonce });
        }
        if !txs.insert(TxId { hash, nonce }) {
            notices.push(SendNotice::ListedTwice { hash });
        }
        assert(notices@ =~= start.notices(tx@));
        self.txs_by_signer.insert(nonce_key.duplicate(), txs);
        let ghost taken = start.taken_down(tx_ref, tx@, target_height, now);
        assert(self@.txs_by_signer =~= taken.txs_by_signer);
        assert(self@ == taken);
        let updates = tx.nonce_updates;
        if let Some(r) = &tx_ref {
            let updater = NonceUpdater::TxRef(*r);
            let new_updater = NonceUpdater::ChainObjectId(hash);
            self.updater_to_keys.remove(&updater);
            add_pending(db, &updates, &hash);
            collect_expired(&self.nonces, &updates, source_height, keys_to_remove);
            edit_awaiting(
                &self.nonces,
                tx_block_queue,
                &updates,
                &TxEdit::Rename { old: updater, new: new_updater },
            );
            rename_updater(&mut self.nonces, &updates, updater, new_updater);
        }
        let ghost middle = start.handed_over(taken, tx_ref, tx@.nonce_updates, hash);
        assert(batch(world(self@, tx_block_queue@, db@), keys_to_remove@) == middle);
        db.put_pending_outcome(hash, updates);
        let mut record = db.read_target_nonce(&nonce_key).unwrap().duplicate();
        record.nonce = later_of(record.nonce, Some(nonce));
        db.put_target_nonce(&nonce_key, record);
        let ghost nonces = self@.nonces;
        let ghost expired = keys_to_remove@;
        let info = self.nonces.get_mut(&nonce_key).unwrap();
        let done = is_at_most(info.last_height, source_height);
        if let Some(r) = &tx_ref {
            info.queued_txs.remove(r);
        } 
        if done {
            keys_to_remove.insert(nonce_key);
        }
        proof {
            assert(keys_to_remove@ =~= expired.union(
                expired_by(nonces, set![key], height_of(tx_ref)),
            ));
            if tx_ref is None {
                assert(self@.nonces =~= nonces);
            }
        }
        notices
    }

    /// A transaction was not sent, and will not be.
    pub fn on_tx_skipped(
        &mut self,
        tx_block_queue: &mut BlockQueue,
        tx_ref: &Option<TxRef>,
        nonce_key: NonceLookupKey,
        nonce_updates: &OrderedSet<NonceLookupKey>,
        keys_to_remove: &mut OrderedSet<NonceLookupKey>,
    )
        requires
            batch(
                world(old(self)@, old(tx_block_queue)@, DbView::empty()),
                old(keys_to_remove)@,
            ).can_skip(*tx_ref, nonce_key@, nonce_updates@),
        ensures
            batch(
                world(final(self)@, final(tx_block_queue)@, DbView::empty()),
                final(keys_to_remove)@,
            ) == batch(
                world(old(self)@, old(tx_block_queue)@, DbView::empty()),
                old(keys_to_remove)@,
            ).skipped(*tx_ref, nonce_key@, nonce_updates@),
    {
        let r = match tx_ref {
            Some(r) => *r,
            None => {
                return;
            },
        };
        let ghost t = self@;
        let ghost q = tx_block_queue@;
        let ghost key = nonce_key@;
        let ghost keys = nonce_updates@;
        let updater = NonceUpdater::TxRef(r);
        let source_height = Some(r.source_height);
        if let Some(_) = self.updater_to_keys.remove(&updater) {
            let ghost edit = TxEdit::Forget { updater };
            proof {
                assert forall|k: NonceKey, l: NonceKey, x: TxRef|
                    #![trigger t.nonces[k].txs_awaiting_nonce.contains(x), t.nonces[l].txs_awaiting_nonce.contains(x)]
                    keys.contains(k) && keys.contains(l) && t.nonces.contains_key(k)
                        && t.nonces.contains_key(l) && t.nonces[k].txs_awaiting_nonce.contains(x)
                        && t.nonces[l].txs_awaiting_nonce.contains(x) implies k == l
                    || steady(tx_at(q, x), edit) by {
                    assert(tx_at(q, x).edited(edit).edited(edit) =~= tx_at(q, x).edited(edit));
                }
            }
            collect_expired(&self.nonces, nonce_updates, source_height, keys_to_remove);
            drop_ready(&mut self.nonces, nonce_updates, tx_block_queue);
            proof {
                lemma_ready_unmoved(t.nonces, keys, q, edit);
                assert forall|k: NonceKey, x: TxRef|
                    #![trigger keys.contains(k), self@.nonces[k].txs_awaiting_nonce.contains(x)]
                    keys.contains(k) && self@.nonces.contains_key(k)
                        && self@.nonces[k].txs_awaiting_nonce.contains(x) implies holds(q, x) by {
                    assert(t.nonces[k].txs_awaiting_nonce.contains(x));
                }
                assert forall|k: NonceKey, l: NonceKey, x: TxRef|
                    #![trigger self@.nonces[k].txs_awaiting_nonce.contains(x), self@.nonces[l].txs_awaiting_nonce.contains(x)]
                    keys.contains(k) && keys.contains(l) && self@.nonces.contains_key(k)
                        && self@.nonces.contains_key(l) && self@.nonces[k].txs_awaiting_nonce.contains(
                        x,
                    ) && self@.nonces[l].txs_awaiting_nonce.contains(x) implies k == l
                    || steady(tx_at(q, x), edit) by {
                    assert(t.nonces[k].txs_awaiting_nonce.contains(x));
                    assert(t.nonces[l].txs_awaiting_nonce.contains(x));
                }
            }
            proof {
                let left = awaiting_of(self@.nonces, keys);
                if left != Set::<TxRef>::empty() {
                    let r = lemma_some_ref(left);
                    assert(awaiting_of(t.nonces, keys).contains(r));
                }
            }
            edit_awaiting(
                &self.nonces,
                tx_block_queue,
                nonce_updates,
                &TxEdit::Forget { updater },
            );
        } else {
            assert(self@.updater_to_keys =~= t.updater_to_keys);
        }
        let ghost nonces = self@.nonces;
        let ghost expired = keys_to_remove@;
        let info = self.nonces.get_mut(&nonce_key).unwrap();
        let done = is_at_most(info.last_height, source_height);
        info.queued_txs.remove(&r);
        if done {
            keys_to_remove.insert(nonce_key);
        }
        assert(keys_to_remove@ =~= expired.union(
            expired_by(t.nonces, set![key], source_height),
        ));
    }
}

/// Leaving out the ready transactions changes nothing for an edit that passes them by.
pub proof fn lemma_ready_unmoved(
    nonces: Map<NonceKey, InfoView>,
    keys: Set<NonceKey>,
    q: QueueView,
    edit: TxEdit,
)
    requires
        edit is Forget,
        searchable(q, awaiting_of(nonces, keys)),
    ensures
        awaiting_of(without_ready(nonces, keys, q), keys).subset_of(awaiting_of(nonces, keys)),
        edited(q, awaiting_of(without_ready(nonces, keys, q), keys), edit) == edited(
            q,
            awaiting_of(nonces, keys),
            edit,
        ),
{
    let s = awaiting_of(without_ready(nonces, keys, q), keys);
    let a = awaiting_of(nonces, keys);
    assert forall|x: TxRef| s.contains(x) == (a.contains(x) && !(tx_at(q, x) is Ready)) by {
        if s.contains(x) {
            let k = choose|k: NonceKey| #[trigger]
                keys.contains(k) && without_ready(nonces, keys, q).contains_key(k)
                    && without_ready(nonces, keys, q)[k].txs_awaiting_nonce.contains(x);
            assert(keys.contains(k) && nonces.contains_key(k)
                && nonces[k].txs_awaiting_nonce.contains(x));
        }
        if a.contains(x) && !(tx_at(q, x) is Ready) {
            let k = choose|k: NonceKey| #[trigger]
                keys.contains(k) && nonces.contains_key(k)
                    && nonces[k].txs_awaiting_nonce.contains(x);
            assert(keys.contains(k) && without_ready(nonces, keys, q).contains_key(k)
                && without_ready(nonces, keys, q)[k].txs_awaiting_nonce.contains(x));
        }
    }
    if !heights_ascend(q) {
        assert(s =~= a);
    }
    let l = edited(q, s, edit);
    let r = edited(q, a, edit);
    assert forall|b: int| 0 <= b < q.len() implies #[trigger] l[b] == r[b] by {
        assert forall|c: int| 0 <= c < q[b].chunks.len() implies #[trigger] l[b].chunks[c]
            == r[b].chunks[c] by {
            assert(l[b].chunks[c] == edited_chunk(q[b], c, s, edit));
            assert(r[b].chunks[c] == edited_chunk(q[b], c, a, edit));
            assert forall|i: int|
                0 <= i < q[b].chunks[c].txs.len() implies #[trigger] l[b].chunks[c].txs[i]
                == r[b].chunks[c].txs[i] by {
                let x = ref_of(q[b], c, i);
                if heights_ascend(q) && i <= usize::MAX && first_chunk(
                    q[b].chunks,
                    c,
                    q[b].chunks[c].shard_id,
                ) {
                    assert(leads_to(q, x, b, c));
                    lemma_tx_at(q, x, b, c);
                }
            }
            assert(l[b].chunks[c].txs =~= r[b].chunks[c].txs);
        }
        assert(l[b].chunks =~= r[b].chunks);
    }
    assert(l =~= r);
}

} // verus!
