//! What happens to the nonces when an updater moves on, is done, or will never be.

use vstd::prelude::*;

use super::db::{DbView, LatestTargetNonce, LatestView, NonceDb};
use super::ids::{NonceKey, NonceLookupKey, NonceUpdater, TxRef};
use super::queue::{
    edited, heights_ascend, holds, lemma_edited, lemma_edited_leads, lemma_edited_none,
    lemma_edited_twice, lemma_some_ref, searchable, steady, tx_at, BlockQueue, QueueView,
};
use super::tracker::{InfoView, NonceInfo, TxTracker};
use super::tx::{later, later_of, TargetNonceView, TxEdit};
use crate::keys::{CryptoHash, Nonce};
use crate::ordered::{ascending, lemma_prefix_step, Key, OrderedMap, OrderedSet};

verus! {

/// A nonce key with the transaction or receipt that may have changed it.
pub struct UpdatedKey {
    pub nonce_key: NonceLookupKey,
    pub id: CryptoHash,
}

impl View for UpdatedKey {
    type V = (NonceKey, CryptoHash);

    open spec fn view(&self) -> (NonceKey, CryptoHash) {
        (self.nonce_key@, self.id)
    }
}

/// A stored record with one pending outcome in place of another.
pub open spec fn renamed_record(
    record: LatestView,
    old: CryptoHash,
    new: CryptoHash,
) -> LatestView {
    LatestView { pending_outcomes: record.pending_outcomes.remove(old).insert(new), ..record }
}

/// The stored records of `keys` with one pending outcome in place of another.
pub open spec fn renamed_records(
    db: DbView,
    keys: Set<NonceKey>,
    old: CryptoHash,
    new: CryptoHash,
) -> DbView {
    DbView {
        nonces: Map::new(
            |k: NonceKey| db.nonces.contains_key(k),
            |k: NonceKey|
                if keys.contains(k) {
                    renamed_record(db.nonces[k], old, new)
                } else {
                    db.nonces[k]
                },
        ),
        ..db
    }
}

/// One updater takes the place of another.
pub open spec fn renamed_info(info: InfoView, old: NonceUpdater, new: NonceUpdater) -> InfoView {
    InfoView { target_nonce: info.target_nonce.renamed(old, new), ..info }
}

/// In the nonces of `keys` one updater takes the place of another.
pub open spec fn renamed_infos(
    nonces: Map<NonceKey, InfoView>,
    keys: Set<NonceKey>,
    old: NonceUpdater,
    new: NonceUpdater,
) -> Map<NonceKey, InfoView> {
    Map::new(
        |k: NonceKey| nonces.contains_key(k),
        |k: NonceKey|
            if keys.contains(k) {
                renamed_info(nonces[k], old, new)
            } else {
                nonces[k]
            },
    )
}

/// The transactions that wait for the nonces of `keys`.
pub open spec fn awaiting_of(nonces: Map<NonceKey, InfoView>, keys: Set<NonceKey>) -> Set<TxRef> {
    Set::new(
        |r: TxRef|
            exists|k: NonceKey| #[trigger]
                keys.contains(k) && nonces.contains_key(k) && nonces[k].txs_awaiting_nonce.contains(
                    r,
                ),
    )
}

/// The queue holds the transactions that wait for the nonces of `keys`.
pub open spec fn awaiting_held(
    nonces: Map<NonceKey, InfoView>,
    keys: Set<NonceKey>,
    q: QueueView,
) -> bool {
    forall|k: NonceKey, r: TxRef|
        #![trigger keys.contains(k), nonces[k].txs_awaiting_nonce.contains(r)]
        keys.contains(k) && nonces.contains_key(k) && nonces[k].txs_awaiting_nonce.contains(r)
            ==> holds(q, r)
}

/// The transactions that wait for the nonces of `keys` wait for `updater`.
pub open spec fn awaiting_all(
    nonces: Map<NonceKey, InfoView>,
    keys: Set<NonceKey>,
    q: QueueView,
    updater: NonceUpdater,
) -> bool {
    forall|k: NonceKey, r: TxRef|
        #![trigger keys.contains(k), nonces[k].txs_awaiting_nonce.contains(r)]
        keys.contains(k) && nonces.contains_key(k) && nonces[k].txs_awaiting_nonce.contains(r)
            ==> holds(q, r) && tx_at(q, r).awaits(updater)
}

/// No transaction waits for two of the nonces.
pub open spec fn awaiting_apart(nonces: Map<NonceKey, InfoView>, keys: Set<NonceKey>) -> bool {
    forall|k: NonceKey, l: NonceKey, r: TxRef|
        #![trigger nonces[k].txs_awaiting_nonce.contains(r), nonces[l].txs_awaiting_nonce.contains(r)]
        keys.contains(k) && keys.contains(l) && nonces.contains_key(k) && nonces.contains_key(l)
            && nonces[k].txs_awaiting_nonce.contains(r) && nonces[l].txs_awaiting_nonce.contains(r)
            ==> k == l
}

/// A transaction that waits for two of the nonces can be edited twice.
pub open spec fn awaiting_steady(
    nonces: Map<NonceKey, InfoView>,
    keys: Set<NonceKey>,
    q: QueueView,
    edit: TxEdit,
) -> bool {
    forall|k: NonceKey, l: NonceKey, r: TxRef|
        #![trigger nonces[k].txs_awaiting_nonce.contains(r), nonces[l].txs_awaiting_nonce.contains(r)]
        keys.contains(k) && keys.contains(l) && nonces.contains_key(k) && nonces.contains_key(l)
            && nonces[k].txs_awaiting_nonce.contains(r) && nonces[l].txs_awaiting_nonce.contains(r)
            ==> k == l || steady(tx_at(q, r), edit)
}

/// Edits the transactions that wait for the nonces of `keys`.
pub(crate) fn edit_awaiting(
    nonces: &OrderedMap<NonceLookupKey, NonceInfo>,
    queue: &mut BlockQueue,
    keys: &OrderedSet<NonceLookupKey>,
    edit: &TxEdit,
)
    requires
        !(edit is Shift),
        searchable(old(queue)@, awaiting_of(nonces@, keys@)),
        awaiting_held(nonces@, keys@, old(queue)@),
        awaiting_steady(nonces@, keys@, old(queue)@, *edit),
    ensures
        final(queue)@ == edited(old(queue)@, awaiting_of(nonces@, keys@), *edit),
        heights_ascend(old(queue)@) ==> heights_ascend(final(queue)@),
{
    let ghost q = queue@;
    let ghost list = keys.list();
    let n: usize = keys.len();
    let mut i: usize = 0;
    proof {
        lemma_edited_none(q, *edit);
        assert(awaiting_of(nonces@, list.take(0).to_set()) =~= Set::empty());
    }
    while i < n
        invariant
            i <= n,
            n == keys.list().len(),
            list == keys.list(),
            list.to_set() == keys@,
            ascending::<NonceLookupKey>(list),
            !(edit is Shift),
            searchable(q, awaiting_of(nonces@, keys@)),
            heights_ascend(q) ==> heights_ascend(queue@),
            awaiting_held(nonces@, keys@, q),
            awaiting_steady(nonces@, keys@, q, *edit),
            queue@ == edited(q, awaiting_of(nonces@, list.take(i as int).to_set()), *edit),
        decreases n - i,
    {
        let key = keys.item_at(i);
        let ghost done = list.take(i as int).to_set();
        let ghost more = list.take(i + 1).to_set();
        let ghost s = awaiting_of(nonces@, done);
        proof {
            lemma_prefix_step::<NonceLookupKey>(list, i as int);
            lemma_edited_leads(q, s, *edit);
        }
        match nonces.get(key) {
            Some(info) => {
                let ghost t = info.txs_awaiting_nonce@;
                proof {
                    assert forall|r: TxRef| #[trigger] t.contains(r) implies awaiting_of(
                        nonces@,
                        keys@,
                    ).contains(r) by {
                        assert(keys@.contains(key@));
                    }
                    assert forall|r: TxRef| #[trigger] s.contains(r) implies awaiting_of(
                        nonces@,
                        keys@,
                    ).contains(r) by {
                        let k = choose|k: NonceKey| #[trigger]
                            done.contains(k) && nonces@.contains_key(k)
                                && nonces@[k].txs_awaiting_nonce.contains(r);
                        let j = list.take(i as int).index_of(k);
                        assert(list.take(i as int)[j] == k);
                        assert(list[j] == k);
                        assert(list.to_set().contains(k));
                    }
                    if !heights_ascend(q) {
                        assert(s =~= Set::empty());
                        assert(t =~= Set::empty());
                        lemma_edited_none(q, *edit);
                    }
                    assert forall|r: TxRef| #[trigger] t.contains(r) implies holds(queue@, r) by {
                        assert(nonces@[key@].txs_awaiting_nonce.contains(r));
                        lemma_edited(q, s, *edit, r);
                    }
                    assert forall|r: TxRef|
                        #![trigger s.contains(r)]
                        s.contains(r) && t.contains(r) && holds(q, r) implies steady(
                        tx_at(q, r),
                        *edit,
                    ) by {
                        let k = choose|k: NonceKey| #[trigger]
                            done.contains(k) && nonces@.contains_key(k)
                                && nonces@[k].txs_awaiting_nonce.contains(r);
                        assert(list.to_set().contains(k)) by {
                            let j = list.take(i as int).index_of(k);
                            assert(list.take(i as int)[j] == k);
                            assert(list[j] == k);
                        }
                        assert(nonces@[key@].txs_awaiting_nonce.contains(r));
                    }
                    if heights_ascend(q) {
                        lemma_edited_twice(q, s, t, *edit);
                    } else {
                        assert(s.union(t) =~= Set::empty());
                    }
                    assert(s.union(t) =~= awaiting_of(nonces@, more)) by {
                        assert forall|r: TxRef| s.union(t).contains(r) == awaiting_of(
                            nonces@,
                            more,
                        ).contains(r) by {
                            if s.contains(r) {
                                let k = choose|k: NonceKey| #[trigger]
                                    done.contains(k) && nonces@.contains_key(k)
                                        && nonces@[k].txs_awaiting_nonce.contains(r);
                                assert(more.contains(k));
                            }
                            if t.contains(r) {
                                assert(more.contains(key@));
                            }
                            if awaiting_of(nonces@, more).contains(r) {
                                let k = choose|k: NonceKey| #[trigger]
                                    more.contains(k) && nonces@.contains_key(k)
                                        && nonces@[k].txs_awaiting_nonce.contains(r);
                                if k != key@ {
                                    assert(done.contains(k));
                                }
                            }
                        }
                    }
                }
                queue.edit_all(&info.txs_awaiting_nonce, edit);
            },
            None => {
                proof {
                    assert(s =~= awaiting_of(nonces@, more)) by {
                        assert forall|r: TxRef| s.contains(r) == awaiting_of(
                            nonces@,
                            more,
                        ).contains(r) by {
                            if s.contains(r) {
                                let k = choose|k: NonceKey| #[trigger]
                                    done.contains(k) && nonces@.contains_key(k)
                                        && nonces@[k].txs_awaiting_nonce.contains(r);
                                assert(more.contains(k));
                            }
                            if awaiting_of(nonces@, more).contains(r) {
                                let k = choose|k: NonceKey| #[trigger]
                                    more.contains(k) && nonces@.contains_key(k)
                                        && nonces@[k].txs_awaiting_nonce.contains(r);
                                assert(done.contains(k));
                            }
                        }
                    }
                }
            },
        }
        i += 1;
    }
    assert(list.take(n as int) =~= list);
}

/// In the nonces of `keys` that are in memory, puts one updater in the place of another.
pub(crate) fn rename_updater(
    nonces: &mut OrderedMap<NonceLookupKey, NonceInfo>,
    keys: &OrderedSet<NonceLookupKey>,
    old_updater: NonceUpdater,
    new_updater: NonceUpdater,
)
    ensures
        final(nonces)@ == renamed_infos(old(nonces)@, keys@, old_updater, new_updater),
{
    let ghost m = nonces@;
    let ghost list = keys.list();
    let n: usize = keys.len();
    let mut i: usize = 0;
    assert(m =~= renamed_infos(m, list.take(0).to_set(), old_updater, new_updater));
    while i < n
        invariant
            i <= n,
            n == keys.list().len(),
            list == keys.list(),
            ascending::<NonceLookupKey>(list),
            nonces@ == renamed_infos(m, list.take(i as int).to_set(), old_updater, new_updater),
        decreases n - i,
    {
        let key = keys.item_at(i);
        proof {
            lemma_prefix_step::<NonceLookupKey>(list, i as int);
        }
        if let Some(info) = nonces.get_mut(key) {
            info.target_nonce.pending_outcomes.remove(&old_updater);
            info.target_nonce.pending_outcomes.insert(new_updater);
        }
        assert(nonces@ =~= renamed_infos(
            m,
            list.take(i + 1).to_set(),
            old_updater,
            new_updater,
        ));
        i += 1;
    }
    assert(list.take(n as int) =~= list);
}

/// In the stored records of `keys`, puts one pending outcome in the place of another.
pub(crate) fn rename_stored(
    db: &mut NonceDb,
    keys: &OrderedSet<NonceLookupKey>,
    old_id: &CryptoHash,
    new_id: &CryptoHash,
)
    requires
        forall|k: NonceKey| #[trigger] keys@.contains(k) ==> old(db)@.nonces.contains_key(k),
    ensures
        final(db)@ == renamed_records(old(db)@, keys@, *old_id, *new_id),
        final(db).loaded() == old(db).loaded(),
{
    let ghost d = db@;
    let ghost list = keys.list();
    let n: usize = keys.len();
    let mut i: usize = 0;
    assert(d =~= renamed_records(d, list.take(0).to_set(), *old_id, *new_id)) by {
        assert(d.nonces =~= renamed_records(d, list.take(0).to_set(), *old_id, *new_id).nonces);
    }
    while i < n
        invariant
            i <= n,
            n == keys.list().len(),
            list == keys.list(),
            list.to_set() == keys@,
            ascending::<NonceLookupKey>(list),
            forall|k: NonceKey| #[trigger] keys@.contains(k) ==> d.nonces.contains_key(k),
            db@ == renamed_records(d, list.take(i as int).to_set(), *old_id, *new_id),
            db.loaded() == old(db).loaded(),
        decreases n - i,
    {
        let key = keys.item_at(i);
        proof {
            lemma_prefix_step::<NonceLookupKey>(list, i as int);
        }
        let mut record = db.read_target_nonce(key).unwrap().duplicate();
        record.pending_outcomes.remove(old_id);
        record.pending_outcomes.insert(*new_id);
        db.put_target_nonce(key, record);
        assert(db@.nonces =~= renamed_records(
            d,
            list.take(i + 1).to_set(),
            *old_id,
            *new_id,
        ).nonces);
        i += 1;
    }
    assert(list.take(n as int) =~= list);
}

/// A stored record after an outcome is done that left the nonce at `nonce` or above.
pub open spec fn settled_latest(
    record: LatestView,
    id: CryptoHash,
    nonce: Option<Nonce>,
) -> LatestView {
    LatestView {
        nonce: later(record.nonce, nonce),
        pending_outcomes: record.pending_outcomes.remove(id),
    }
}

/// What is kept of a nonce after an outcome is done: transactions that are ready no longer wait.
pub open spec fn settled_info(
    info: InfoView,
    q: QueueView,
    id: CryptoHash,
    nonce: Option<Nonce>,
) -> InfoView {
    InfoView {
        target_nonce: info.target_nonce.settled(NonceUpdater::ChainObjectId(id), nonce),
        txs_awaiting_nonce: info.txs_awaiting_nonce.filter(
            |r: TxRef| !(tx_at(q, r) is Ready),
        ),
        ..info
    }
}

/// The nonce at `nonce` or above, and nothing pending.
pub open spec fn forced(target: TargetNonceView, nonce: Nonce) -> TargetNonceView {
    TargetNonceView { nonce: later(target.nonce, Some(nonce)), pending_outcomes: Set::empty() }
}

impl TxTracker {
    /// An outcome that may have changed a nonce is done, and the target chain was asked for the
    /// nonce. Waiting transactions learn of it; their nonces are set when they are sent.
    pub fn try_set_nonces(
        &mut self,
        tx_block_queue: &mut BlockQueue,
        db: &mut NonceDb,
        updated_key: UpdatedKey,
        nonce: Option<Nonce>,
    )
        requires
            old(db)@.nonces.contains_key(updated_key@.0),
            searchable(
                old(tx_block_queue)@,
                awaiting_of(old(self)@.nonces, set![updated_key@.0]),
            ),
            awaiting_held(
                old(self)@.nonces,
                set![updated_key@.0],
                old(tx_block_queue)@,
            ),
        ensures
            final(db)@ == old(db)@.put_nonce(
                updated_key@.0,
                settled_latest(old(db)@.nonces[updated_key@.0], updated_key@.1, nonce),
            ),
            ({
                let before = old(db)@.nonces[updated_key@.0].nonce;
                let after = final(db)@.nonces[updated_key@.0].nonce;
                &&& after == before || after == nonce
                &&& before matches Some(n) ==> after is Some && after->0 >= n
                &&& nonce matches Some(n) ==> after is Some && after->0 >= n
            }),
            final(db).loaded() == old(db).loaded(),
            !old(self)@.nonces.contains_key(updated_key@.0) ==> {
                &&& final(self)@ == old(self)@
                &&& final(tx_block_queue)@ == old(tx_block_queue)@
            },
            old(self)@.nonces.contains_key(updated_key@.0) ==> {
                let info = old(self)@.nonces[updated_key@.0];
                &&& final(self)@ == old(self)@.with_info(
                    updated_key@.0,
                    settled_info(info, old(tx_block_queue)@, updated_key@.1, nonce),
                )
                &&& final(tx_block_queue)@ == edited(
                    old(tx_block_queue)@,
                    info.txs_awaiting_nonce,
                    TxEdit::Settle {
                        updater: NonceUpdater::ChainObjectId(updated_key@.1),
                        nonce,
                    },
                )
            },
    {
        let UpdatedKey { nonce_key, id } = updated_key;
        let ghost q = tx_block_queue@;
        let mut record = db.read_target_nonce(&nonce_key).unwrap().duplicate();
        record.pending_outcomes.remove(&id);
        record.nonce = later_of(record.nonce, nonce);
        db.put_target_nonce(&nonce_key, record);
        let updater = NonceUpdater::ChainObjectId(id);
        if let Some(info) = self.nonces.get_mut(&nonce_key) {
            let ghost before = info@;
            proof {
                assert forall|r: TxRef| #[trigger] before.txs_awaiting_nonce.contains(r) implies holds(
                    q,
                    r,
                ) by {
                    assert(set![nonce_key@].contains(nonce_key@));
                    assert(old(self)@.nonces[nonce_key@].txs_awaiting_nonce.contains(r));
                }
                if before.txs_awaiting_nonce != Set::<TxRef>::empty() {
                    let r = lemma_some_ref(before.txs_awaiting_nonce);
                    assert(set![nonce_key@].contains(nonce_key@));
                    assert(awaiting_of(old(self)@.nonces, set![nonce_key@]).contains(r));
                }
            }
            let ready = tx_block_queue.ready_among(&info.txs_awaiting_nonce);
            tx_block_queue.edit_all(&info.txs_awaiting_nonce, &TxEdit::Settle { updater, nonce });
            info.target_nonce.pending_outcomes.remove(&updater);
            info.target_nonce.nonce = later_of(info.target_nonce.nonce, nonce);
            remove_refs(&mut info.txs_awaiting_nonce, &ready);
            proof {
                assert(info@.txs_awaiting_nonce =~= settled_info(
                    before,
                    q,
                    id,
                    nonce,
                ).txs_awaiting_nonce);
            }
        }
    }

    /// The target chain was asked for a nonce that transactions wait for. The nonce is recorded;
    /// it is given out when the transactions are sent.
    pub fn force_resolve_nonces(
        &mut self,
        db: &mut NonceDb,
        nonce_key: &NonceLookupKey,
        nonce: Nonce,
    )
        ensures
            final(db)@ == (if old(db)@.nonces.contains_key(nonce_key@) {
                old(db)@.put_nonce(
                    nonce_key@,
                    LatestView {
                        nonce: later(old(db)@.nonces[nonce_key@].nonce, Some(nonce)),
                        pending_outcomes: Set::empty(),
                    },
                )
            } else {
                old(db)@
            }),
            final(db).loaded() == old(db).loaded(),
            final(self)@ == (if old(self)@.nonces.contains_key(nonce_key@) {
                let info = old(self)@.nonces[nonce_key@];
                old(self)@.with_info(
                    nonce_key@,
                    InfoView { target_nonce: forced(info.target_nonce, nonce), ..info },
                )
            } else {
                old(self)@
            }),
    {
        let stored = match db.read_target_nonce(nonce_key) {
            Some(n) => Some(n.nonce),
            None => None,
        };
        if let Some(n) = stored {
            db.put_target_nonce(
                nonce_key,
                LatestTargetNonce {
                    nonce: later_of(n, Some(nonce)),
                    pending_outcomes: OrderedSet::new(),
                },
            );
        }
        if let Some(info) = self.nonces.get_mut(nonce_key) {
            info.target_nonce.nonce = later_of(info.target_nonce.nonce, Some(nonce));
            info.target_nonce.pending_outcomes = OrderedSet::new();
        }
    }
}

/// Takes some references out of a set.
pub(crate) fn remove_refs(refs: &mut OrderedSet<TxRef>, gone: &OrderedSet<TxRef>)
    ensures
        final(refs)@ == old(refs)@.difference(gone@),
{
    let ghost s = refs@;
    let ghost list = gone.list();
    let n: usize = gone.len();
    let mut i: usize = 0;
    assert(s =~= s.difference(list.take(0).to_set()));
    while i < n
        invariant
            i <= n,
            n == gone.list().len(),
            list == gone.list(),
            ascending::<TxRef>(list),
            refs@ == s.difference(list.take(i as int).to_set()),
        decreases n - i,
    {
        proof {
            lemma_prefix_step::<TxRef>(list, i as int);
        }
        refs.remove(gone.item_at(i));
        assert(refs@ =~= s.difference(list.take(i + 1).to_set()));
        i += 1;
    }
    assert(list.take(n as int) =~= list);
}

} // verus!
