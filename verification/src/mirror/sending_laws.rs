//! What sending a transaction, or skipping it, does to the tracker, the queue and the database.

use vstd::prelude::*;

use super::batches::{ready, refs_of, waiting, SentItemView, SentView, TxBatchView};
use super::ids::{NonceKey, NonceUpdater, TxId, TxRef};
use super::queue::{heights_ascend, holds, lemma_edited, tx_at};
use super::queueing::Item;
use super::requeueing::{moves, MoveView, Retracking};
use super::sending::{batch, Batch, SendNotice};
use super::settling::awaiting_of;
use super::target::World;
use super::tx::{MappedTxView, TxEdit, TxView};
use crate::keys::{BlockHeight, CryptoHash};

verus! {

/// The last height that refers to a nonce is not above that of the reference. One without a height
/// comes before all others.
pub open spec fn is_last_use(last_height: Option<BlockHeight>, tx_ref: Option<TxRef>) -> bool {
    match (last_height, tx_ref) {
        (None, _) => true,
        (Some(_), None) => false,
        (Some(l), Some(r)) => l <= r.source_height,
    }
}

/// A transaction that was sent is listed under its hash and among those of its key, and nothing
/// else is.
pub proof fn sent_tx_is_listed(
    b: Batch,
    tx_ref: Option<TxRef>,
    tx: MappedTxView,
    target_height: BlockHeight,
    now: u64,
)
    requires
        b.can_send(tx_ref, tx),
        !b.world.tracker.sent_txs.contains_key(tx.target_tx.hash),
    ensures
        ({
            let t = b.world.tracker;
            let after = b.sent(tx_ref, tx, target_height, now).world.tracker;
            let hash = tx.target_tx.hash;
            let key = tx.target_tx.transaction.nonce_key();
            let id = TxId { hash, nonce: tx.target_tx.transaction.nonce };
            &&& after.sent_txs.dom() =~= t.sent_txs.dom().insert(hash)
            &&& forall|h: CryptoHash|
                h != hash && t.sent_txs.contains_key(h) ==> #[trigger] after.sent_txs[h]
                    == t.sent_txs[h]
            &&& after.sent_txs[hash].source_height == match tx_ref {
                Some(r) => Some(r.source_height),
                None => None,
            }
            &&& after.sent_txs[hash].sent_at == now
            &&& after.sent_txs[hash].sent_at_target_height == target_height
            &&& after.txs_by_signer.dom() =~= t.txs_by_signer.dom().insert(key)
            &&& forall|k: NonceKey|
                k != key && t.txs_by_signer.contains_key(k) ==> #[trigger] after.txs_by_signer[k]
                    == t.txs_by_signer[k]
            &&& forall|x: TxId| #[trigger]
                after.txs_by_signer[key].contains(x) <==> x == id || t.txs_by_signer.contains_key(
                    key,
                ) && t.txs_by_signer[key].contains(x)
        }),
{
}

/// What a transaction that was sent changes of the nonces in memory: in those that it may change it
/// is pending as the one on the chain, and it is no longer queued for its own. What is known of the
/// nonces, their last heights and what waits for them stays as it was, and none leaves. It is no
/// longer listed as a queued one, and all others are listed as before.
pub proof fn sent_tx_is_handed_over(
    b: Batch,
    tx_ref: Option<TxRef>,
    tx: MappedTxView,
    target_height: BlockHeight,
    now: u64,
    k: NonceKey,
)
    requires
        b.can_send(tx_ref, tx),
        !b.world.tracker.sent_txs.contains_key(tx.target_tx.hash),
        b.world.tracker.nonces.contains_key(k),
    ensures
        ({
            let t = b.world.tracker;
            let u = b.sent(tx_ref, tx, target_height, now).world.tracker;
            let before = t.nonces[k];
            let after = u.nonces[k];
            let new = NonceUpdater::ChainObjectId(tx.target_tx.hash);
            let key = tx.target_tx.transaction.nonce_key();
            &&& u.nonces.dom() =~= t.nonces.dom()
            &&& after.target_nonce.nonce == before.target_nonce.nonce
            &&& after.last_height == before.last_height
            &&& after.txs_awaiting_nonce == before.txs_awaiting_nonce
            &&& forall|x: NonceUpdater|
                #![trigger after.target_nonce.pending_outcomes.contains(x)]
                after.target_nonce.pending_outcomes.contains(x) <==> if tx.nonce_updates.contains(
                    k,
                ) {
                    x == new || before.target_nonce.pending_outcomes.contains(x) && !(tx_ref
                        is Some && x == NonceUpdater::TxRef(tx_ref->0))
                } else {
                    before.target_nonce.pending_outcomes.contains(x)
                }
            &&& forall|r: TxRef| #[trigger]
                after.queued_txs.contains(r) <==> before.queued_txs.contains(r) && !(k == key
                    && tx_ref == Some(r))
            &&& forall|x: NonceUpdater| #[trigger]
                u.updater_to_keys.contains_key(x) <==> t.updater_to_keys.contains_key(x) && !(tx_ref
                    is Some && x == NonceUpdater::TxRef(tx_ref->0))
            &&& forall|x: NonceUpdater|
                u.updater_to_keys.contains_key(x) ==> #[trigger] u.updater_to_keys[x]
                    == t.updater_to_keys[x]
        }),
{
}

/// A transaction that was sent is a pending outcome, stored with the nonces that it may change, and
/// in the records of those. The record of its own nonce is at that nonce or above. No other record
/// changes.
pub proof fn sent_tx_is_stored(
    b: Batch,
    tx_ref: Option<TxRef>,
    tx: MappedTxView,
    target_height: BlockHeight,
    now: u64,
    k: NonceKey,
)
    requires
        b.can_send(tx_ref, tx),
        !b.world.tracker.sent_txs.contains_key(tx.target_tx.hash),
        b.world.db.nonces.contains_key(k),
    ensures
        ({
            let d = b.world.db;
            let after = b.sent(tx_ref, tx, target_height, now).world.db;
            let hash = tx.target_tx.hash;
            let nonce = tx.target_tx.transaction.nonce;
            &&& after.outcomes == d.outcomes.insert(hash, tx.nonce_updates)
            &&& after.nonces.dom() =~= d.nonces.dom()
            &&& forall|x: CryptoHash| #[trigger]
                after.nonces[k].pending_outcomes.contains(x) <==> d.nonces[k].pending_outcomes.contains(
                    x,
                ) || tx.nonce_updates.contains(k) && x == hash
            &&& k != tx.target_tx.transaction.nonce_key() ==> after.nonces[k].nonce
                == d.nonces[k].nonce
            &&& k == tx.target_tx.transaction.nonce_key() ==> {
                &&& after.nonces[k].nonce is Some
                &&& after.nonces[k].nonce->0 >= nonce
                &&& d.nonces[k].nonce matches Some(n) ==> after.nonces[k].nonce->0 >= n
                &&& after.nonces[k].nonce == Some(nonce) || after.nonces[k].nonce
                    == d.nonces[k].nonce
            }
        }),
{
}

/// Transactions that waited for one that was sent wait for it as the one on the chain. No other
/// queued transaction changes.
pub proof fn sent_tx_is_waited_for_on_the_chain(
    b: Batch,
    r: TxRef,
    tx: MappedTxView,
    target_height: BlockHeight,
    now: u64,
    x: TxRef,
)
    requires
        b.can_send(Some(r), tx),
        !b.world.tracker.sent_txs.contains_key(tx.target_tx.hash),
        heights_ascend(b.world.queue),
        holds(b.world.queue, x),
    ensures
        ({
            let q = b.world.queue;
            let after = b.sent(Some(r), tx, target_height, now).world.queue;
            let waits = exists|k: NonceKey| #[trigger]
                tx.nonce_updates.contains(k) && b.world.tracker.nonces.contains_key(k)
                    && b.world.tracker.nonces[k].txs_awaiting_nonce.contains(x);
            let old = NonceUpdater::TxRef(r);
            let new = NonceUpdater::ChainObjectId(tx.target_tx.hash);
            &&& holds(after, x)
            &&& !waits ==> tx_at(after, x) == tx_at(q, x)
            &&& waits ==> tx_at(after, x).awaits(new) && !tx_at(after, x).awaits(old)
            &&& forall|u: NonceUpdater|
                u != old && u != new ==> #[trigger] tx_at(after, x).awaits(u) == tx_at(q, x).awaits(
                    u,
                )
            &&& tx_at(after, x).target_nonce().nonce == tx_at(q, x).target_nonce().nonce
        }),
{
    let t = b.world.tracker;
    let q = b.world.queue;
    let edit = TxEdit::Rename {
        old: NonceUpdater::TxRef(r),
        new: NonceUpdater::ChainObjectId(tx.target_tx.hash),
    };
    let refs = awaiting_of(t.nonces, tx.nonce_updates);
    let taken = b.taken_down(Some(r), tx, target_height, now);
    assert(taken.nonces == t.nonces);
    lemma_edited(q, refs, edit, x);
    if refs.contains(x) {
        let k = choose|k: NonceKey| #[trigger]
            tx.nonce_updates.contains(k) && t.nonces.contains_key(k)
                && t.nonces[k].txs_awaiting_nonce.contains(x);
        assert(tx.nonce_updates.contains(k) && t.nonces[k].txs_awaiting_nonce.contains(x));
        assert(tx_at(q, x).awaits(NonceUpdater::TxRef(r)));
    }
}

/// A nonce is to leave memory after a transaction was sent if, and only if, it was to before, or the
/// transaction uses or may change it and no later height refers to it.
pub proof fn sent_tx_ends_last_uses(
    b: Batch,
    tx_ref: Option<TxRef>,
    tx: MappedTxView,
    target_height: BlockHeight,
    now: u64,
    k: NonceKey,
)
    requires
        b.can_send(tx_ref, tx),
        !b.world.tracker.sent_txs.contains_key(tx.target_tx.hash),
    ensures
        b.sent(tx_ref, tx, target_height, now).expired.contains(k) <==> b.expired.contains(k) || {
            &&& k == tx.target_tx.transaction.nonce_key() || tx.nonce_updates.contains(k)
            &&& b.world.tracker.nonces.contains_key(k)
            &&& is_last_use(b.world.tracker.nonces[k].last_height, tx_ref)
        },
{
}

/// A transaction that was skipped is no longer queued nor listed, and what is known of the nonces
/// stays as it was. In the nonces that it was listed with, transactions whose nonces are set are no
/// longer listed as waiting. Nothing is sent, and no record changes.
pub proof fn skipped_tx_is_forgotten(
    b: Batch,
    r: TxRef,
    key: NonceKey,
    keys: Set<NonceKey>,
    k: NonceKey,
)
    requires
        b.can_skip(Some(r), key, keys),
        b.world.tracker.nonces.contains_key(k),
    ensures
        ({
            let t = b.world.tracker;
            let done = b.skipped(Some(r), key, keys);
            let u = done.world.tracker;
            let updater = NonceUpdater::TxRef(r);
            let listed = t.updater_to_keys.contains_key(updater);
            let before = t.nonces[k];
            let after = u.nonces[k];
            &&& done.world.db == b.world.db
            &&& u.sent_txs == t.sent_txs
            &&& u.txs_by_signer == t.txs_by_signer
            &&& u.updater_to_keys =~= t.updater_to_keys.remove(updater)
            &&& u.nonces.dom() =~= t.nonces.dom()
            &&& after.target_nonce == before.target_nonce
            &&& after.last_height == before.last_height
            &&& forall|x: TxRef| #[trigger]
                after.queued_txs.contains(x) <==> before.queued_txs.contains(x) && !(k == key && x
                    == r)
            &&& forall|x: TxRef| #[trigger]
                after.txs_awaiting_nonce.contains(x) <==> before.txs_awaiting_nonce.contains(x) && !(
                listed && keys.contains(k) && tx_at(b.world.queue, x) is Ready)
            &&& done.expired.contains(k) <==> b.expired.contains(k) || {
                &&& k == key || listed && keys.contains(k)
                &&& is_last_use(before.last_height, Some(r))
            }
        }),
{
}

/// Transactions that waited for one that was skipped no longer do, and wait for all else as before.
/// No other queued transaction changes.
pub proof fn skipped_tx_is_not_waited_for(
    b: Batch,
    r: TxRef,
    key: NonceKey,
    keys: Set<NonceKey>,
    x: TxRef,
)
    requires
        b.can_skip(Some(r), key, keys),
        b.world.tracker.updater_to_keys.contains_key(NonceUpdater::TxRef(r)),
        heights_ascend(b.world.queue),
        holds(b.world.queue, x),
    ensures
        ({
            let q = b.world.queue;
            let after = b.skipped(Some(r), key, keys).world.queue;
            let waits = exists|k: NonceKey| #[trigger]
                keys.contains(k) && b.world.tracker.nonces.contains_key(k)
                    && b.world.tracker.nonces[k].txs_awaiting_nonce.contains(x);
            let updater = NonceUpdater::TxRef(r);
            &&& holds(after, x)
            &&& !waits ==> tx_at(after, x) == tx_at(q, x)
            &&& waits ==> !tx_at(after, x).awaits(updater)
            &&& forall|u: NonceUpdater|
                u != updater ==> #[trigger] tx_at(after, x).awaits(u) == tx_at(q, x).awaits(u)
            &&& tx_at(after, x).target_nonce().nonce == tx_at(q, x).target_nonce().nonce
        }),
{
    let refs = awaiting_of(b.world.tracker.nonces, keys);
    lemma_edited(b.world.queue, refs, TxEdit::Forget { updater: NonceUpdater::TxRef(r) }, x);
}

/// A transaction of no source block that was not sent changes nothing.
pub proof fn skipped_extra_tx_changes_nothing(b: Batch, key: NonceKey, keys: Set<NonceKey>)
    ensures
        b.skipped(None, key, keys) == b,
{
}

/// A transaction is said to be sent twice if it was sent before. Otherwise it is said to be out of
/// order if one of its key with a higher nonce was sent, and to be listed twice if it is among those
/// of its key already.
pub proof fn send_notices_tell_what_is_odd(b: Batch, tx: MappedTxView)
    ensures
        ({
            let t = b.world.tracker;
            let hash = tx.target_tx.hash;
            let nonce = tx.target_tx.transaction.nonce;
            let key = tx.target_tx.transaction.nonce_key();
            let n = b.notices(tx);
            let listed = t.txs_by_signer.contains_key(key);
            &&& n.contains(SendNotice::SentTwice { hash }) <==> t.sent_txs.contains_key(hash)
            &&& t.sent_txs.contains_key(hash) ==> n.len() == 1
            &&& n.contains(SendNotice::OutOfOrder { hash, nonce }) <==> !t.sent_txs.contains_key(
                hash,
            ) && listed && exists|x: TxId| #[trigger]
                t.txs_by_signer[key].contains(x) && x.nonce > nonce
            &&& n.contains(SendNotice::ListedTwice { hash }) <==> !t.sent_txs.contains_key(hash)
                && listed && t.txs_by_signer[key].contains(TxId { hash, nonce })
        }),
{
    let t = b.world.tracker;
    let hash = tx.target_tx.hash;
    let nonce = tx.target_tx.transaction.nonce;
    let n = b.notices(tx);
    let a = SendNotice::OutOfOrder { hash, nonce };
    let c = SendNotice::ListedTwice { hash };
    let d = SendNotice::SentTwice { hash };
    if n.len() > 0 {
        assert(n.contains(n[0]));
    }
    if n.len() > 1 {
        assert(n.contains(n[1]));
    }
}

/// What a transaction uses or may change.
spec fn touched_by(item: SentItemView, k: NonceKey) -> bool {
    item.1.nonce_key() == k || item.1.nonce_updates().contains(k)
}

proof fn lemma_accounted_keeps_known(
    b: Batch,
    item: SentItemView,
    target_height: BlockHeight,
    now: u64,
    k: NonceKey,
)
    requires
        b.can_account(item),
        b.world.tracker.nonces.contains_key(k),
    ensures
        ({
            let t = b.world.tracker;
            let after = b.accounted(item, target_height, now);
            let u = after.world.tracker;
            &&& u.nonces.contains_key(k)
            &&& u.nonces[k].target_nonce.nonce == t.nonces[k].target_nonce.nonce
            &&& u.nonces[k].last_height == t.nonces[k].last_height
            &&& after.expired.contains(k) ==> b.expired.contains(k) || touched_by(item, k)
                && is_last_use(t.nonces[k].last_height, item.0)
            &&& b.expired.contains(k) ==> after.expired.contains(k)
        }),
{
    match item.1 {
        TxView::Ready(m) if m.sent_successfully => {
            if !b.world.tracker.sent_txs.contains_key(m.target_tx.hash) {
                sent_tx_is_handed_over(b, item.0, m, target_height, now, k);
                sent_tx_ends_last_uses(b, item.0, m, target_height, now, k);
            }
        },
        _ => {
            if let Some(r) = item.0 {
                skipped_tx_is_forgotten(b, r, item.1.nonce_key(), item.1.nonce_updates(), k);
            }
        },
    }
}

proof fn lemma_all_accounted_keep_known(
    b: Batch,
    items: Seq<SentItemView>,
    n: int,
    target_height: BlockHeight,
    now: u64,
    k: NonceKey,
)
    requires
        0 <= n <= items.len(),
        b.can_account_all(items, target_height, now),
        b.world.tracker.nonces.contains_key(k),
    ensures
        ({
            let t = b.world.tracker;
            let after = b.all_accounted(items, n, target_height, now);
            let u = after.world.tracker;
            &&& u.nonces.contains_key(k)
            &&& u.nonces[k].target_nonce.nonce == t.nonces[k].target_nonce.nonce
            &&& u.nonces[k].last_height == t.nonces[k].last_height
            &&& after.expired.contains(k) ==> b.expired.contains(k) || exists|i: int|
                0 <= i < n && touched_by(#[trigger] items[i], k) && is_last_use(
                    t.nonces[k].last_height,
                    items[i].0,
                )
        }),
    decreases n,
{
    if n > 0 {
        lemma_all_accounted_keep_known(b, items, n - 1, target_height, now, k);
        let mid = b.all_accounted(items, n - 1, target_height, now);
        assert(mid.can_account(items[n - 1]));
        lemma_accounted_keeps_known(mid, items[n - 1], target_height, now, k);
    }
}

proof fn lemma_moves_keep_known(
    start: Retracking,
    refs: Seq<MoveView>,
    taken: Set<TxRef>,
    n: int,
    k: NonceKey,
)
    requires
        0 <= n <= refs.len(),
        start.tracker.nonces.contains_key(k),
    ensures
        ({
            let t = start.tracker;
            let u = start.all_moved(refs, taken, n).tracker;
            &&& u.nonces.contains_key(k)
            &&& u.nonces[k].target_nonce.nonce == t.nonces[k].target_nonce.nonce
            &&& u.nonces[k].last_height == t.nonces[k].last_height
        }),
    decreases n,
{
    if n > 0 {
        lemma_moves_keep_known(start, refs, taken, n - 1, k);
    }
}

proof fn lemma_ready_from(items: Seq<Item>, i: int) -> (j: int)
    requires
        0 <= i < ready(items).len(),
    ensures
        0 <= j < items.len(),
        ready(items)[i] == items[j],
    decreases items.len(),
{
    if i < ready(items.drop_last()).len() {
        lemma_ready_from(items.drop_last(), i)
    } else {
        items.len() - 1
    }
}

proof fn lemma_waiting_from(items: Seq<Item>, i: int) -> (j: int)
    requires
        0 <= i < waiting(items).len(),
    ensures
        0 <= j < items.len(),
        waiting(items)[i] == items[j],
    decreases items.len(),
{
    if i < waiting(items.drop_last()).len() {
        lemma_waiting_from(items.drop_last(), i)
    } else {
        items.len() - 1
    }
}

/// Each transaction that is accounted for is one of the batch, under its reference.
proof fn lemma_opened_from(w: World, b: TxBatchView, i: int) -> (j: int)
    requires
        0 <= i < w.tracker.opened(w.queue, SentView::MappedBlock(b)).items.len(),
    ensures
        0 <= j < b.txs.len(),
        w.tracker.opened(w.queue, SentView::MappedBlock(b)).items[i] == (
            Some(b.txs[j].0),
            b.txs[j].1,
        ),
{
    let n = ready(b.txs).len();
    if i < n {
        lemma_ready_from(b.txs, i)
    } else {
        lemma_waiting_from(b.txs, i - n)
    }
}

/// A nonce that is in memory before a batch, and that a later height refers to, is in memory after
/// it. What is known of it has not changed: the next one that is given out is the same as before.
pub proof fn nonces_of_later_heights_stay(
    w: World,
    b: TxBatchView,
    target_height: BlockHeight,
    now: u64,
    k: NonceKey,
    last: BlockHeight,
)
    requires
        w.can_finish_batch(SentView::MappedBlock(b), target_height, now),
        w.tracker.nonces.contains_key(k),
        w.tracker.nonces[k].last_height == Some(last),
        forall|i: int| 0 <= i < b.txs.len() ==> (#[trigger] b.txs[i]).0.source_height < last,
    ensures
        ({
            let after = w.batch_finished(SentView::MappedBlock(b), target_height, now).tracker;
            &&& after.nonces.contains_key(k)
            &&& after.nonces[k].target_nonce.nonce == w.tracker.nonces[k].target_nonce.nonce
            &&& after.nonces[k].last_height == Some(last)
        }),
{
    let sent = SentView::MappedBlock(b);
    let o = w.tracker.opened(w.queue, sent);
    let t = w.tracker.popped(b);
    let refs = moves(waiting(b.txs), b.source_height);
    lemma_moves_keep_known(
        Retracking { tracker: t, deferred: Seq::empty() },
        refs,
        refs_of(ready(b.txs)),
        refs.len() as int,
        k,
    );
    let start = batch(World { tracker: o.tracker, queue: o.queue, ..w }, Set::empty());
    let n = o.items.len() as int;
    lemma_all_accounted_keep_known(start, o.items, n, target_height, now, k);
    let done = start.all_accounted(o.items, n, target_height, now);
    if done.expired.contains(k) {
        let i = choose|i: int|
            0 <= i < n && touched_by(#[trigger] o.items[i], k) && is_last_use(
                Some(last),
                o.items[i].0,
            );
        let j = lemma_opened_from(w, b, i);
        assert(b.txs[j].0.source_height < last);
    }
}

/// Transactions of no source block make no nonce leave memory that a height refers to, nor change
/// what is known of it.
pub proof fn extra_txs_keep_nonces(
    w: World,
    txs: Seq<TxView>,
    target_height: BlockHeight,
    now: u64,
    k: NonceKey,
)
    requires
        w.can_finish_batch(SentView::ExtraTxs(txs), target_height, now),
        w.tracker.nonces.contains_key(k),
        w.tracker.nonces[k].last_height is Some,
    ensures
        ({
            let after = w.batch_finished(SentView::ExtraTxs(txs), target_height, now).tracker;
            &&& after.nonces.contains_key(k)
            &&& after.nonces[k].target_nonce.nonce == w.tracker.nonces[k].target_nonce.nonce
            &&& after.nonces[k].last_height == w.tracker.nonces[k].last_height
        }),
{
    let sent = SentView::ExtraTxs(txs);
    let o = w.tracker.opened(w.queue, sent);
    let start = batch(World { tracker: o.tracker, queue: o.queue, ..w }, Set::empty());
    lemma_all_accounted_keep_known(start, o.items, o.items.len() as int, target_height, now, k);
}

/// A nonce that no transaction of a batch uses or may change stays in memory, and what is known of
/// it stays as it was.
pub proof fn nonces_of_others_stay(
    w: World,
    b: TxBatchView,
    target_height: BlockHeight,
    now: u64,
    k: NonceKey,
)
    requires
        w.can_finish_batch(SentView::MappedBlock(b), target_height, now),
        w.tracker.nonces.contains_key(k),
        forall|i: int|
            0 <= i < b.txs.len() ==> (#[trigger] b.txs[i]).1.nonce_key() != k
                && !b.txs[i].1.nonce_updates().contains(k),
    ensures
        ({
            let after = w.batch_finished(SentView::MappedBlock(b), target_height, now).tracker;
            &&& after.nonces.contains_key(k)
            &&& after.nonces[k].target_nonce.nonce == w.tracker.nonces[k].target_nonce.nonce
            &&& after.nonces[k].last_height == w.tracker.nonces[k].last_height
        }),
{
    let sent = SentView::MappedBlock(b);
    let o = w.tracker.opened(w.queue, sent);
    let t = w.tracker.popped(b);
    let refs = moves(waiting(b.txs), b.source_height);
    lemma_moves_keep_known(
        Retracking { tracker: t, deferred: Seq::empty() },
        refs,
        refs_of(ready(b.txs)),
        refs.len() as int,
        k,
    );
    let start = batch(World { tracker: o.tracker, queue: o.queue, ..w }, Set::empty());
    let n = o.items.len() as int;
    lemma_all_accounted_keep_known(start, o.items, n, target_height, now, k);
    let done = start.all_accounted(o.items, n, target_height, now);
    if done.expired.contains(k) {
        let i = choose|i: int|
            0 <= i < n && touched_by(#[trigger] o.items[i], k) && is_last_use(
                w.tracker.nonces[k].last_height,
                o.items[i].0,
            );
        let j = lemma_opened_from(w, b, i);
        assert(b.txs[j].1.nonce_key() != k);
    }
}

/// No batch brings a nonce into memory.
pub proof fn batches_bring_no_nonces(
    w: World,
    b: TxBatchView,
    target_height: BlockHeight,
    now: u64,
    k: NonceKey,
)
    requires
        w.can_finish_batch(SentView::MappedBlock(b), target_height, now),
        w.batch_finished(
            SentView::MappedBlock(b),
            target_height,
            now,
        ).tracker.nonces.contains_key(k),
    ensures
        w.tracker.nonces.contains_key(k),
{
    let sent = SentView::MappedBlock(b);
    let o = w.tracker.opened(w.queue, sent);
    let t = w.tracker.popped(b);
    let refs = moves(waiting(b.txs), b.source_height);
    lemma_moves_bring_none(
        Retracking { tracker: t, deferred: Seq::empty() },
        refs,
        refs_of(ready(b.txs)),
        refs.len() as int,
    );
    let start = batch(World { tracker: o.tracker, queue: o.queue, ..w }, Set::empty());
    lemma_accounts_bring_none(start, o.items, o.items.len() as int, target_height, now);
    assert(start.world.tracker.nonces.dom().contains(k));
    assert(o.tracker.nonces.dom().contains(k));
}

proof fn lemma_moves_bring_none(
    start: Retracking,
    refs: Seq<MoveView>,
    taken: Set<TxRef>,
    n: int,
)
    requires
        0 <= n <= refs.len(),
    ensures
        start.all_moved(refs, taken, n).tracker.nonces.dom() == start.tracker.nonces.dom(),
    decreases n,
{
    if n > 0 {
        lemma_moves_bring_none(start, refs, taken, n - 1);
        assert(start.all_moved(refs, taken, n).tracker.nonces.dom()
            =~= start.tracker.nonces.dom());
    }
}

proof fn lemma_accounts_bring_none(
    b: Batch,
    items: Seq<SentItemView>,
    n: int,
    target_height: BlockHeight,
    now: u64,
)
    requires
        0 <= n <= items.len(),
        b.can_account_all(items, target_height, now),
    ensures
        b.all_accounted(items, n, target_height, now).world.tracker.nonces.dom()
            == b.world.tracker.nonces.dom(),
    decreases n,
{
    if n > 0 {
        lemma_accounts_bring_none(b, items, n - 1, target_height, now);
        let mid = b.all_accounted(items, n - 1, target_height, now);
        assert(mid.can_account(items[n - 1]));
        assert(b.all_accounted(items, n, target_height, now).world.tracker.nonces.dom()
            =~= b.world.tracker.nonces.dom());
    }
}

/// The nonce of a ready transaction that could not be sent leaves memory with the batch of the last
/// height that refers to it.
pub proof fn nonces_leave_with_their_last_height(
    w: World,
    b: TxBatchView,
    i: int,
    target_height: BlockHeight,
    now: u64,
)
    requires
        w.can_finish_batch(SentView::MappedBlock(b), target_height, now),
        0 <= i < ready(b.txs).len(),
        !(ready(b.txs)[i].1 matches TxView::Ready(m) && m.sent_successfully),
        is_last_use(
            w.tracker.nonces[ready(b.txs)[i].1.nonce_key()].last_height,
            Some(ready(b.txs)[i].0),
        ),
        w.tracker.nonces.contains_key(ready(b.txs)[i].1.nonce_key()),
    ensures
        !w.batch_finished(
            SentView::MappedBlock(b),
            target_height,
            now,
        ).tracker.nonces.contains_key(ready(b.txs)[i].1.nonce_key()),
{
    let sent = SentView::MappedBlock(b);
    let k = ready(b.txs)[i].1.nonce_key();
    let o = w.tracker.opened(w.queue, sent);
    let t = w.tracker.popped(b);
    let refs = moves(waiting(b.txs), b.source_height);
    lemma_moves_keep_known(
        Retracking { tracker: t, deferred: Seq::empty() },
        refs,
        refs_of(ready(b.txs)),
        refs.len() as int,
        k,
    );
    let start = batch(World { tracker: o.tracker, queue: o.queue, ..w }, Set::empty());
    let n = o.items.len() as int;
    assert(o.items[i] == (Some(ready(b.txs)[i].0), ready(b.txs)[i].1));
    lemma_all_accounted_keep_known(start, o.items, i, target_height, now, k);
    let mid = start.all_accounted(o.items, i, target_height, now);
    assert(mid.can_account(o.items[i]));
    skipped_tx_is_forgotten(
        mid,
        ready(b.txs)[i].0,
        k,
        ready(b.txs)[i].1.nonce_updates(),
        k,
    );
    let next = start.all_accounted(o.items, i + 1, target_height, now);
    assert(next.expired.contains(k));
    lemma_expiry_lasts(start, o.items, i + 1, n, target_height, now, k);
}

proof fn lemma_expiry_lasts(
    b: Batch,
    items: Seq<SentItemView>,
    m: int,
    n: int,
    target_height: BlockHeight,
    now: u64,
    k: NonceKey,
)
    requires
        0 <= m <= n <= items.len(),
        b.all_accounted(items, m, target_height, now).expired.contains(k),
    ensures
        b.all_accounted(items, n, target_height, now).expired.contains(k),
    decreases n,
{
    if m < n {
        lemma_expiry_lasts(b, items, m, n - 1, target_height, now, k);
    }
}

} // verus!
