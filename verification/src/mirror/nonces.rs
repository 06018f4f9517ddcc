//! The nonces of access keys: taken from the database, given out, and changed by what is queued.

use vstd::prelude::*;

use super::db::{DbView, LatestTargetNonce, LatestView, NonceDb};
use super::ids::{NonceKey, NonceKind, NonceLookupKey, NonceUpdater, TxRef};
use super::queue::{
    edited, holds, lemma_edited_none, searchable, tx_at, BlockQueue, QueueView,
};
use super::tracker::{InfoView, NonceInfo, TrackerView, TxTracker};
use super::tx::{
    later, later_of, TargetNonce, TargetNonceView, TxEdit,
};
use crate::keys::{BlockHeight, CryptoHash, Nonce, NonceIndex};
use crate::ordered::{ascending, lemma_prefix_step, listing, Key, OrderedSet};

verus! {

/// What has to be asked of the target chain before a nonce can be used.
pub enum NonceFetch {
    /// The database has a record.
    Nothing,
    /// The nonce of an access key.
    AccessKeyNonce,
    /// All nonces of a gas key.
    GasKeyNonces,
}

/// A record with nothing pending.
pub open spec fn settled_record(nonce: Option<Nonce>) -> LatestView {
    LatestView { nonce, pending_outcomes: Set::empty() }
}

/// One of the nonces of a gas key.
pub open spec fn gas_key(key: NonceKey, i: int) -> NonceKey {
    NonceKey { kind: NonceKind::GasKey(i as NonceIndex), ..key }
}

/// The database with the nonces of a gas key, each under its index.
pub open spec fn with_gas_key_nonces(db: DbView, key: NonceKey, nonces: Seq<Nonce>) -> DbView
    decreases nonces.len(),
{
    if nonces.len() == 0 {
        db
    } else {
        with_gas_key_nonces(db, key, nonces.drop_last()).put_nonce(
            gas_key(key, nonces.len() - 1),
            settled_record(Some(nonces.last())),
        )
    }
}

/// Says what has to be fetched for a nonce. Nothing is where the database has a record of it; once
/// what was fetched is stored, there is one.
pub fn store_target_nonce(db: &NonceDb, key: &NonceLookupKey) -> (r: NonceFetch)
    ensures
        r is Nothing <==> db@.nonces.contains_key(key@),
        r is AccessKeyNonce <==> !db@.nonces.contains_key(key@) && key@.kind is AccessKey,
        r is GasKeyNonces <==> !db@.nonces.contains_key(key@) && key@.kind is GasKey,
{
    if db.read_target_nonce(key).is_some() {
        return NonceFetch::Nothing;
    }
    match key.kind {
        NonceKind::AccessKey => NonceFetch::AccessKeyNonce,
        NonceKind::GasKey(_) => NonceFetch::GasKeyNonces,
    }
}

/// Records what was fetched for an access key.
pub fn store_access_key_nonce(db: &mut NonceDb, key: &NonceLookupKey, nonce: Option<Nonce>)
    ensures
        final(db)@ == old(db)@.put_nonce(key@, settled_record(nonce)),
        final(db)@.nonces.contains_key(key@),
        final(db).loaded() == old(db).loaded(),
{
    db.put_target_nonce(key, LatestTargetNonce { nonce, pending_outcomes: OrderedSet::new() });
}

/// The database with what was fetched for a gas key: all of its nonces, or that the key is not
/// there yet. A nonce that the key does not have is not there yet either.
pub open spec fn with_fetched_nonces(
    db: DbView,
    key: NonceKey,
    nonces: Option<Seq<Nonce>>,
) -> DbView {
    let d = match nonces {
        Some(v) => with_gas_key_nonces(db, key, v),
        None => db,
    };
    if nonces is Some && d.nonces.contains_key(key) {
        d
    } else {
        d.put_nonce(key, settled_record(None))
    }
}

/// Records what was fetched for a gas key. There is a record for the key afterwards.
pub fn store_gas_key_nonces(db: &mut NonceDb, key: &NonceLookupKey, nonces: Option<Vec<Nonce>>)
    ensures
        final(db)@ == with_fetched_nonces(
            old(db)@,
            key@,
            match nonces {
                Some(v) => Some(v@),
                None => None,
            },
        ),
        final(db)@.nonces.contains_key(key@),
        final(db).loaded() == old(db).loaded(),
{
    match nonces {
        Some(v) => {
            let mut i: usize = 0;
            while i < v.len()
                invariant
                    i <= v@.len(),
                    db@ == with_gas_key_nonces(old(db)@, key@, v@.take(i as int)),
                    db.loaded() == old(db).loaded(),
                decreases v@.len() - i,
            {
                let index_key = NonceLookupKey {
                    account_id: key.account_id.duplicate(),
                    public_key: key.public_key.duplicate(),
                    kind: NonceKind::GasKey(
                        #[verifier::truncate]
                        (i as NonceIndex),
                    ),
                };
                assert(index_key@ =~= gas_key(key@, i as int));
                store_access_key_nonce(db, &index_key, Some(v[i]));
                assert(v@.take(i + 1).drop_last() =~= v@.take(i as int));
                i += 1;
            }
            assert(v@.take(i as int) =~= v@);
            if db.read_target_nonce(key).is_none() {
                store_access_key_nonce(db, key, None);
            }
        },
        None => {
            store_access_key_nonce(db, key, None);
        },
    }
}

/// Each nonce of a gas key is found under its index afterwards, and no other record changes.
pub proof fn gas_key_nonces_are_stored(db: DbView, key: NonceKey, nonces: Seq<Nonce>, i: int)
    requires
        0 <= i < nonces.len() <= 0x10000,
    ensures
        with_gas_key_nonces(db, key, nonces).nonces.contains_key(gas_key(key, i)),
        with_gas_key_nonces(db, key, nonces).nonces[gas_key(key, i)] == settled_record(
            Some(nonces[i]),
        ),
    decreases nonces.len(),
{
    let last = nonces.len() - 1;
    if i < last {
        gas_key_nonces_are_stored(db, key, nonces.drop_last(), i);
        assert(gas_key(key, i).kind != gas_key(key, last).kind);
    }
}

/// The records of other keys stay as they are.
pub proof fn gas_key_nonces_leave_others(
    db: DbView,
    key: NonceKey,
    nonces: Seq<Nonce>,
    other: NonceKey,
)
    requires
        other.account_id != key.account_id || other.public_key != key.public_key
            || other.kind is AccessKey,
    ensures
        with_gas_key_nonces(db, key, nonces).nonces.contains_key(other)
            == db.nonces.contains_key(other),
        db.nonces.contains_key(other) ==> with_gas_key_nonces(db, key, nonces).nonces[other]
            == db.nonces[other],
        with_gas_key_nonces(db, key, nonces).outcomes == db.outcomes,
    decreases nonces.len(),
{
    if nonces.len() > 0 {
        gas_key_nonces_leave_others(db, key, nonces.drop_last(), other);
    }
}

/// The updaters that stand for objects on the chain.
pub open spec fn chain_updaters(ids: Set<CryptoHash>) -> Set<NonceUpdater> {
    Set::new(|u: NonceUpdater| u matches NonceUpdater::ChainObjectId(id) && ids.contains(id))
}

/// What is kept of a nonce when it is first used.
pub open spec fn fresh_info(record: LatestView, source_height: Option<BlockHeight>) -> InfoView {
    InfoView {
        target_nonce: TargetNonceView {
            nonce: record.nonce,
            pending_outcomes: chain_updaters(record.pending_outcomes),
        },
        last_height: source_height,
        txs_awaiting_nonce: Set::empty(),
        queued_txs: Set::empty(),
    }
}

impl TrackerView {
    /// A nonce is in memory or in the database.
    pub open spec fn knows(self, db: DbView, key: NonceKey) -> bool {
        self.nonces.contains_key(key) || db.nonces.contains_key(key)
    }

    /// What is kept of a nonce, or would be.
    pub open spec fn info(
        self,
        db: DbView,
        key: NonceKey,
        source_height: Option<BlockHeight>,
    ) -> InfoView {
        if self.nonces.contains_key(key) {
            self.nonces[key]
        } else {
            fresh_info(db.nonces[key], source_height)
        }
    }

    pub open spec fn with_info(self, key: NonceKey, info: InfoView) -> TrackerView {
        TrackerView { nonces: self.nonces.insert(key, info), ..self }
    }

    /// What is kept of a nonce after it was given out for a height.
    pub open spec fn next_info(
        self,
        db: DbView,
        key: NonceKey,
        source_height: BlockHeight,
    ) -> InfoView {
        let info = self.info(db, key, Some(source_height));
        InfoView {
            target_nonce: info.target_nonce.incremented(),
            last_height: later(info.last_height, Some(source_height)),
            ..info
        }
    }

    /// A nonce is in memory though no queued transaction uses it.
    pub open spec fn gives_nothing(self, key: NonceKey) -> bool {
        self.nonces.contains_key(key) && self.nonces[key].queued_txs == Set::<TxRef>::empty()
    }

    /// The nonce that a transaction gets that is put before all queued ones.
    pub open spec fn inserted_nonce(
        self,
        q: QueueView,
        db: DbView,
        key: NonceKey,
    ) -> TargetNonceView {
        if self.gives_nothing(key) {
            TargetNonceView { nonce: None, pending_outcomes: Set::empty() }
        } else if !self.nonces.contains_key(key) {
            self.info(db, key, None).target_nonce.incremented()
        } else {
            tx_at(q, listing::<TxRef>(self.nonces[key].queued_txs)[0]).target_nonce()
        }
    }

    /// The tracker after a nonce was given out before all queued ones.
    pub open spec fn after_insert(self, db: DbView, key: NonceKey) -> TrackerView {
        if self.gives_nothing(key) {
            self
        } else {
            let info = self.info(db, key, None);
            self.with_info(
                key,
                InfoView { target_nonce: info.target_nonce.incremented(), ..info },
            )
        }
    }

    /// The transactions whose nonces move up to make room.
    pub open spec fn shifted_refs(self, key: NonceKey) -> Set<TxRef> {
        if self.nonces.contains_key(key) {
            self.nonces[key].queued_txs
        } else {
            Set::empty()
        }
    }

    /// The nonce is known, the transactions whose nonces move up are queued, and none of their
    /// nonces overflows.
    pub open spec fn can_insert(self, q: QueueView, db: DbView, key: NonceKey) -> bool {
        &&& self.knows(db, key)
        &&& self.gives_nothing(key) || self.info(db, key, None).target_nonce.can_increment()
        &&& searchable(q, self.shifted_refs(key))
        &&& forall|x: TxRef| #[trigger]
            self.shifted_refs(key).contains(x) ==> holds(q, x) && tx_at(q, x).can_shift()
    }

    /// What is kept of a nonce after a transaction that may change it was queued.
    pub open spec fn touched_info(
        self,
        db: DbView,
        key: NonceKey,
        tx_ref: TxRef,
        source_height: BlockHeight,
    ) -> InfoView {
        let info = self.info(db, key, Some(source_height));
        InfoView {
            target_nonce: TargetNonceView {
                pending_outcomes: info.target_nonce.pending_outcomes.insert(
                    NonceUpdater::TxRef(tx_ref),
                ),
                ..info.target_nonce
            },
            last_height: later(info.last_height, Some(source_height)),
            ..info
        }
    }

    /// The nonces after a transaction that may change those of `updates` was queued.
    pub open spec fn touched_nonces(
        self,
        db: DbView,
        tx_ref: TxRef,
        updates: Set<NonceKey>,
        source_height: BlockHeight,
    ) -> Map<NonceKey, InfoView> {
        Map::new(
            |k: NonceKey| self.nonces.contains_key(k) || updates.contains(k),
            |k: NonceKey|
                if updates.contains(k) {
                    self.touched_info(db, k, tx_ref, source_height)
                } else {
                    self.nonces[k]
                },
        )
    }

    /// The tracker after a transaction that may change the nonces of `updates` was queued.
    pub open spec fn with_updates(
        self,
        db: DbView,
        tx_ref: TxRef,
        updates: Set<NonceKey>,
        source_height: BlockHeight,
    ) -> TrackerView {
        TrackerView {
            nonces: self.touched_nonces(db, tx_ref, updates, source_height),
            updater_to_keys: if updates == Set::<NonceKey>::empty() {
                self.updater_to_keys
            } else {
                self.updater_to_keys.insert(NonceUpdater::TxRef(tx_ref), updates)
            },
            ..self
        }
    }

    /// The nonces can be found, and the transaction was not queued before.
    pub open spec fn can_update(self, db: DbView, tx_ref: TxRef, updates: Set<NonceKey>) -> bool {
        &&& forall|k: NonceKey| #[trigger] updates.contains(k) ==> self.knows(db, k)
        &&& updates != Set::<NonceKey>::empty() ==> !self.updater_to_keys.contains_key(
            NonceUpdater::TxRef(tx_ref),
        )
    }
}

/// The updaters that stand for objects on the chain.
fn updaters_of(ids: &OrderedSet<CryptoHash>) -> (r: OrderedSet<NonceUpdater>)
    ensures
        r@ == chain_updaters(ids@),
{
    let mut r: OrderedSet<NonceUpdater> = OrderedSet::new();
    let n: usize = ids.len();
    let ghost list = ids.list();
    let mut i: usize = 0;
    assert(r@ =~= chain_updaters(list.take(0).to_set()));
    while i < n
        invariant
            i <= n,
            n == ids.list().len(),
            list == ids.list(),
            ascending::<CryptoHash>(list),
            r@ == chain_updaters(list.take(i as int).to_set()),
        decreases n - i,
    {
        let id = *ids.item_at(i);
        proof {
            lemma_prefix_step::<CryptoHash>(list, i as int);
        }
        r.insert(NonceUpdater::ChainObjectId(id));
        assert(r@ =~= chain_updaters(list.take(i + 1).to_set()));
        i += 1;
    }
    assert(list.take(n as int) =~= list);
    r
}

impl TxTracker {
    /// Takes a nonce over from the database.
    pub fn initialize_target_nonce(
        &mut self,
        db: &NonceDb,
        nonce_key: &NonceLookupKey,
        source_height: Option<BlockHeight>,
    )
        requires
            db@.nonces.contains_key(nonce_key@),
        ensures
            final(self)@ == old(self)@.with_info(
                nonce_key@,
                fresh_info(db@.nonces[nonce_key@], source_height),
            ),
    {
        let t = db.read_target_nonce(nonce_key).unwrap();
        let info = NonceInfo {
            target_nonce: TargetNonce {
                nonce: t.nonce,
                pending_outcomes: updaters_of(&t.pending_outcomes),
            },
            last_height: source_height,
            txs_awaiting_nonce: OrderedSet::new(),
            queued_txs: OrderedSet::new(),
        };
        self.nonces.insert(nonce_key.duplicate(), info);
    }

    /// What is kept of a nonce; it is taken over from the database if need be.
    pub fn get_target_nonce<'a>(
        &'a mut self,
        db: &NonceDb,
        nonce_key: &NonceLookupKey,
        source_height: Option<BlockHeight>,
    ) -> (info: &'a mut NonceInfo)
        requires
            old(self)@.knows(db@, nonce_key@),
        ensures
            info@ == old(self)@.info(db@, nonce_key@, source_height),
            final(self)@ == old(self)@.with_info(nonce_key@, final(info)@),
    {
        if !self.nonces.contains_key(nonce_key) {
            self.initialize_target_nonce(db, nonce_key, source_height);
        }
        let ghost mid = self@;
        proof {
            assert forall|i: InfoView| #[trigger] mid.nonces.insert(nonce_key@, i) == old(
                self,
            )@.nonces.insert(nonce_key@, i) by {
                assert(mid.nonces.insert(nonce_key@, i) =~= old(self)@.nonces.insert(
                    nonce_key@,
                    i,
                ));
            }
        }
        self.nonces.get_mut(nonce_key).unwrap()
    }

    /// Gives out the nonce after all that were given out before.
    pub fn next_nonce(
        &mut self,
        db: &NonceDb,
        nonce_key: &NonceLookupKey,
        source_height: BlockHeight,
    ) -> (r: TargetNonce)
        requires
            old(self)@.knows(db@, nonce_key@),
            old(self)@.info(
                db@,
                nonce_key@,
                Some(source_height),
            ).target_nonce.can_increment(),
        ensures
            final(self)@ == old(self)@.with_info(
                nonce_key@,
                old(self)@.next_info(db@, nonce_key@, source_height),
            ),
            r@ == old(self)@.next_info(db@, nonce_key@, source_height).target_nonce,
    {
        let info = self.get_target_nonce(db, nonce_key, Some(source_height));
        info.last_height = later_of(info.last_height, Some(source_height));
        info.target_nonce.increment();
        info.target_nonce.duplicate()
    }

    /// Gives out a nonce before all that queued transactions have, whose nonces move up by one.
    pub fn insert_nonce(
        &mut self,
        tx_block_queue: &mut BlockQueue,
        db: &NonceDb,
        nonce_key: &NonceLookupKey,
    ) -> (r: TargetNonce)
        requires
            old(self)@.can_insert(old(tx_block_queue)@, db@, nonce_key@),
        ensures
            r@ == old(self)@.inserted_nonce(old(tx_block_queue)@, db@, nonce_key@),
            final(self)@ == old(self)@.after_insert(db@, nonce_key@),
            final(tx_block_queue)@ == edited(
                old(tx_block_queue)@,
                old(self)@.shifted_refs(nonce_key@),
                TxEdit::Shift,
            ),
    {
        let ghost q = tx_block_queue@;
        let ghost t = self@;
        proof {
            lemma_edited_none(q, TxEdit::Shift);
        }
        let queued = match self.nonces.get(nonce_key) {
            Some(info) => Some(info.queued_txs.duplicate()),
            None => None,
        };
        match queued {
            None => {
                let info = self.get_target_nonce(db, nonce_key, None);
                info.target_nonce.increment();
                info.target_nonce.duplicate()
            },
            Some(txs) => {
                assert(txs@ == t.shifted_refs(nonce_key@));
                if txs.is_empty() {
                    return TargetNonce::unknown();
                }
                let n: usize = txs.len();
                proof {
                    if n == 0 {
                        assert(txs.list().to_set() =~= Set::empty());
                    }
                }
                let first = txs.item_at(0);
                let first_nonce = tx_block_queue.get_tx(first).target_nonce();
                tx_block_queue.edit_all(&txs, &TxEdit::Shift);
                let info = self.get_target_nonce(db, nonce_key, None);
                info.target_nonce.increment();
                first_nonce
            },
        }
    }

    /// Takes note that a queued transaction may change some nonces.
    pub fn insert_access_key_updates(
        &mut self,
        db: &NonceDb,
        tx_ref: &TxRef,
        nonce_updates: &OrderedSet<NonceLookupKey>,
        source_height: BlockHeight,
    )
        requires
            old(self)@.can_update(db@, *tx_ref, nonce_updates@),
        ensures
            final(self)@ == old(self)@.with_updates(
                db@,
                *tx_ref,
                nonce_updates@,
                source_height,
            ),
    {
        let ghost t = self@;
        let ghost list = nonce_updates.list();
        let n: usize = nonce_updates.len();
        let mut i: usize = 0;
        assert(t.nonces =~= t.touched_nonces(db@, *tx_ref, list.take(0).to_set(), source_height));
        while i < n
            invariant
                i <= n,
                n == nonce_updates.list().len(),
                list == nonce_updates.list(),
                list.to_set() == nonce_updates@,
                ascending::<NonceLookupKey>(list),
                t.can_update(db@, *tx_ref, nonce_updates@),
                self@ == (TrackerView {
                    nonces: t.touched_nonces(
                        db@,
                        *tx_ref,
                        list.take(i as int).to_set(),
                        source_height,
                    ),
                    ..t
                }),
            decreases n - i,
        {
            let key = nonce_updates.item_at(i);
            let ghost done = list.take(i as int).to_set();
            proof {
                lemma_prefix_step::<NonceLookupKey>(list, i as int);
                assert(t.knows(db@, key@));
                assert(self@.info(db@, key@, Some(source_height)) == t.info(
                    db@,
                    key@,
                    Some(source_height),
                ));
            }
            let info = self.get_target_nonce(db, key, Some(source_height));
            info.last_height = later_of(info.last_height, Some(source_height));
            info.target_nonce.pending_outcomes.insert(NonceUpdater::TxRef(*tx_ref));
            proof {
                assert(self@.nonces =~= t.touched_nonces(
                    db@,
                    *tx_ref,
                    list.take(i + 1).to_set(),
                    source_height,
                ));
            }
            i += 1;
        }
        assert(list.take(n as int) =~= list);
        if !nonce_updates.is_empty() {
            self.updater_to_keys.insert(NonceUpdater::TxRef(*tx_ref), nonce_updates.duplicate());
        }
    }
}

/// Where the list that was fetched for a gas key reaches its index, the record holds the nonce at
/// that index, with nothing pending. Records of other accounts, other public keys and access keys
/// stay as they were.
pub proof fn fetched_nonces_are_found_under_their_index(
    db: DbView,
    key: NonceKey,
    nonces: Seq<Nonce>,
    i: NonceIndex,
    other: NonceKey,
)
    requires
        key.kind == NonceKind::GasKey(i),
        i < nonces.len() <= 0x10000,
        other.account_id != key.account_id || other.public_key != key.public_key
            || other.kind is AccessKey,
    ensures
        ({
            let after = with_fetched_nonces(db, key, Some(nonces));
            &&& after.nonces.contains_key(key)
            &&& after.nonces[key].nonce == Some(nonces[i as int])
            &&& after.nonces[key].pending_outcomes == Set::<CryptoHash>::empty()
            &&& after.nonces.contains_key(other) == db.nonces.contains_key(other)
            &&& db.nonces.contains_key(other) ==> after.nonces[other] == db.nonces[other]
            &&& after.outcomes == db.outcomes
        }),
{
    gas_key_nonces_are_stored(db, key, nonces, i as int);
    gas_key_nonces_leave_others(db, key, nonces, other);
    assert(gas_key(key, i as int) =~= key);
}

/// Where it does not, the record of the key is as it was, or says that no nonce is known.
pub proof fn nonces_that_were_not_fetched_are_unknown(
    db: DbView,
    key: NonceKey,
    nonces: Seq<Nonce>,
    i: NonceIndex,
)
    requires
        key.kind == NonceKind::GasKey(i),
        nonces.len() <= i,
        !db.nonces.contains_key(key),
    ensures
        ({
            let after = with_fetched_nonces(db, key, Some(nonces));
            &&& after.nonces.contains_key(key)
            &&& after.nonces[key].nonce is None
            &&& after.nonces[key].pending_outcomes == Set::<CryptoHash>::empty()
        }),
{
    lemma_not_reached(db, key, nonces, i);
}

proof fn lemma_not_reached(db: DbView, key: NonceKey, nonces: Seq<Nonce>, i: NonceIndex)
    requires
        key.kind == NonceKind::GasKey(i),
        nonces.len() <= i,
    ensures
        with_gas_key_nonces(db, key, nonces).nonces.contains_key(key) == db.nonces.contains_key(key),
    decreases nonces.len(),
{
    if nonces.len() > 0 {
        lemma_not_reached(db, key, nonces.drop_last(), i);
        assert(gas_key(key, nonces.len() - 1).kind != key.kind);
    }
}

} // verus!
