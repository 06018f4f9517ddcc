//! What a block of the target chain does to the tracker and the database.

use vstd::prelude::*;

use super::db::DbView;
use super::ids::{NonceKey, NonceLookupKey, NonceUpdater, TxId, TxRef};
use super::laws::target_blocks_raise_heights;
use super::queue::{heights_ascend, holds, lemma_edited, tx_at};
use super::settling::awaiting_of;
use super::target::{
    block_start, is_good, left_by, skip_notices, skipped_by, updates_by, with_descendants,
    with_stakes, ActionView, ExecutionStatus, Progress, ReceiptView, RemovalNotice, ShardView,
    StakedView, TargetTxView, World,
};
use super::tracker::{SendInfoView, TrackerView};
use super::tx::TxEdit;
use crate::keys::{BlockHeight, CryptoHash};
use crate::ordered::{lemma_listing_exists, listing, Key};

verus! {

/// All is done when there is a height to stop at, the blocks up to it were sent, and the
/// transactions of the last block that had some were seen.
pub proof fn finished_means_sent_and_seen(t: TrackerView)
    ensures
        t.is_finished() <==> {
            &&& t.stop_height is Some
            &&& t.height_popped is Some
            &&& t.height_popped->0 >= t.stop_height->0
            &&& t.nonempty_height_queued matches Some(n) ==> t.height_seen is Some
                && t.height_seen->0 >= n
        },
{
}

/// A transaction that was not sent from here changes nothing when it is found.
pub proof fn txs_of_others_change_nothing(t: TrackerView, tx: TargetTxView)
    requires
        !t.sent_txs.contains_key(tx.hash),
    ensures
        t.tx_found(tx) == t,
        t.found_notices(tx).len() == 0,
{
}

/// After a sent transaction was found, the height that was seen is that of its source block if that
/// is above, and else what it was.
pub proof fn found_tx_raises_the_seen_height(t: TrackerView, tx: TargetTxView)
    requires
        t.sent_txs.contains_key(tx.hash),
    ensures
        ({
            let from = t.sent_txs[tx.hash].source_height;
            let after = t.tx_found(tx).height_seen;
            &&& from is None ==> after == t.height_seen
            &&& t.height_seen is None ==> after == from
            &&& from is Some && t.height_seen is Some ==> after == if from->0 > t.height_seen->0 {
                from
            } else {
                t.height_seen
            }
        }),
{
}

/// A sent transaction that was found is no longer among the sent ones, nor is any other one of its
/// key with a nonce no higher. All others are as they were. Of its key, those with higher nonces
/// are left.
pub proof fn found_tx_ends_lower_nonces(t: TrackerView, tx: TargetTxView, h: CryptoHash, x: TxId)
    requires
        t.sent_txs.contains_key(tx.hash),
    ensures
        ({
            let after = t.tx_found(tx);
            let key = tx.nonce_key;
            let listed = t.txs_by_signer.contains_key(key);
            let ended = listed && exists|y: TxId| #[trigger]
                t.txs_by_signer[key].contains(y) && y.hash == h && y.nonce <= tx.nonce && y
                    != (TxId { hash: tx.hash, nonce: tx.nonce });
            &&& after.sent_txs.contains_key(h) <==> t.sent_txs.contains_key(h) && h != tx.hash
                && !ended
            &&& after.sent_txs.contains_key(h) ==> after.sent_txs[h] == t.sent_txs[h]
            &&& after.txs_by_signer.contains_key(key) && after.txs_by_signer[key].contains(x)
                <==> listed && t.txs_by_signer[key].contains(x) && x.nonce > tx.nonce
            &&& forall|k: NonceKey|
                k != key ==> (#[trigger] after.txs_by_signer.contains_key(k)
                    <==> t.txs_by_signer.contains_key(k))
            &&& forall|k: NonceKey|
                k != key && t.txs_by_signer.contains_key(k) ==> #[trigger] after.txs_by_signer[k]
                    == t.txs_by_signer[k]
            &&& after.txs_by_signer.contains_key(key) ==> exists|y: TxId| #[trigger]
                after.txs_by_signer[key].contains(y)
            &&& after == (TrackerView {
                sent_txs: after.sent_txs,
                txs_by_signer: after.txs_by_signer,
                height_seen: after.height_seen,
                ..t
            })
        }),
{
    let after = t.tx_found(tx);
    let key = tx.nonce_key;
    if t.txs_by_signer.contains_key(key) {
        let txs = t.txs_by_signer[key];
        let left = left_by(txs, tx.id());
        let gone = skipped_by(txs, tx.id());
        if left.contains(x) {
            assert(left != Set::<TxId>::empty());
        }
        if after.txs_by_signer.contains_key(key) {
            if forall|y: TxId| !left.contains(y) {
                assert(left =~= Set::empty());
            }
            let y = choose|y: TxId| left.contains(y);
            assert(after.txs_by_signer[key].contains(y));
        }
        if exists|y: TxId| #[trigger] gone.contains(y) && y.hash == h {
            let y = choose|y: TxId| #[trigger] gone.contains(y) && y.hash == h;
            assert(txs.contains(y));
        }
        if exists|y: TxId| #[trigger]
            txs.contains(y) && y.hash == h && y.nonce <= tx.nonce && y != (TxId {
                hash: tx.hash,
                nonce: tx.nonce,
            }) {
            let y = choose|y: TxId| #[trigger]
                txs.contains(y) && y.hash == h && y.nonce <= tx.nonce && y != (TxId {
                    hash: tx.hash,
                    nonce: tx.nonce,
                });
            assert(gone.contains(y));
        }
    }
}

/// What is said of a found transaction: that its key is not listed, or that it is not listed for its
/// key, and each one that it ends the waiting for.
pub proof fn removal_notices_tell_what_is_odd(t: TrackerView, key: NonceKey, id: TxId)
    requires
        t.txs_by_signer.contains_key(key) ==> t.txs_by_signer[key].finite(),
    ensures
        ({
            let n = t.removal_notices(key, id);
            &&& n.contains(RemovalNotice::NoKey { hash: id.hash })
                <==> !t.txs_by_signer.contains_key(key)
            &&& n.contains(RemovalNotice::NotListed { hash: id.hash })
                <==> t.txs_by_signer.contains_key(key) && !t.txs_by_signer[key].contains(id)
            &&& t.txs_by_signer.contains_key(key) ==> forall|x: TxId| #[trigger]
                t.txs_by_signer[key].contains(x) && x != id && x.nonce <= id.nonce ==> n.contains(
                    RemovalNotice::Skipped { hash: x.hash },
                )
        }),
{
    let n = t.removal_notices(key, id);
    if !t.txs_by_signer.contains_key(key) {
        assert(n[0] == RemovalNotice::NoKey { hash: id.hash });
    } else {
        let txs = t.txs_by_signer[key];
        let gone = skipped_by(txs, id);
        let list = listing::<TxId>(gone);
        lemma_listing_exists::<TxId>(gone);
        let later = skip_notices(t.sent_txs, list);
        lemma_skip_notices(t, list);
        let first = if txs.contains(id) {
            Seq::<RemovalNotice>::empty()
        } else {
            seq![RemovalNotice::NotListed { hash: id.hash }]
        };
        assert(n == first + later);
        assert forall|x: RemovalNotice| n.contains(x) <==> first.contains(x)
            || later.contains(x) by {
            if first.contains(x) {
                let i = first.index_of(x);
                assert(n[i] == x);
            }
            if later.contains(x) {
                let i = later.index_of(x);
                assert(n[first.len() + i] == x);
            }
            if n.contains(x) {
                let i = n.index_of(x);
                if i < first.len() {
                    assert(first[i] == x);
                } else {
                    assert(later[i - first.len()] == x);
                }
            }
        }
        if !txs.contains(id) {
            assert(first[0] == RemovalNotice::NotListed { hash: id.hash });
        }
        assert forall|x: TxId| #[trigger]
            txs.contains(x) && x != id && x.nonce <= id.nonce implies n.contains(
            RemovalNotice::Skipped { hash: x.hash },
        ) by {
            assert(gone.contains(x));
            assert(list.to_set().contains(x));
            assert(list.contains(x));
        }
    }
}

proof fn lemma_skip_notices(t: TrackerView, list: Seq<TxId>)
    ensures
        ({
            let n = skip_notices(t.sent_txs, list);
            &&& forall|i: int|
                0 <= i < n.len() ==> (#[trigger] n[i]) is Skipped || n[i] is NotSent
            &&& forall|x: TxId| #[trigger]
                list.contains(x) ==> n.contains(RemovalNotice::Skipped { hash: x.hash })
        }),
    decreases list.len(),
{
    if list.len() > 0 {
        let rest = list.drop_last();
        lemma_skip_notices(t, rest);
        let n = skip_notices(t.sent_txs, list);
        let m = skip_notices(t.sent_txs, rest);
        assert forall|x: TxId| #[trigger] list.contains(x) implies n.contains(
            RemovalNotice::Skipped { hash: x.hash },
        ) by {
            let i = list.index_of(x);
            if i < rest.len() {
                assert(rest[i] == x);
                assert(rest.contains(x));
                let j = m.index_of(RemovalNotice::Skipped { hash: x.hash });
                assert(n[j] == m[j]);
            } else {
                assert(n[m.len() as int] == RemovalNotice::Skipped { hash: x.hash });
            }
        }
    }
}

proof fn lemma_push_contains(n: Seq<RemovalNotice>, x: RemovalNotice, y: RemovalNotice)
    ensures
        n.push(x).contains(y) <==> n.contains(y) || x == y,
{
    let m = n.push(x);
    if n.contains(y) {
        let i = n.index_of(y);
        assert(m[i] == y);
    }
    assert(m[n.len() as int] == x);
}

proof fn lemma_told_of(sent: Map<CryptoHash, SendInfoView>, list: Seq<TxId>, h: CryptoHash)
    ensures
        ({
            let n = skip_notices(sent, list);
            &&& n.contains(RemovalNotice::Skipped { hash: h }) <==> exists|i: int|
                0 <= i < list.len() && (#[trigger] list[i]).hash == h
            &&& n.contains(RemovalNotice::NotSent { hash: h }) <==> exists|i: int|
                0 <= i < list.len() && (#[trigger] list[i]).hash == h && (!sent.contains_key(h)
                    || exists|j: int| 0 <= j < i && (#[trigger] list[j]).hash == h)
        }),
    decreases list.len(),
{
    if list.len() > 0 {
        let rest = list.drop_last();
        let last: int = list.len() - 1;
        let l = list.last().hash;
        let skipped = RemovalNotice::Skipped { hash: h };
        let unsent = RemovalNotice::NotSent { hash: h };
        lemma_told_of(sent, rest, h);
        let m = skip_notices(sent, rest);
        let noted = m.push(RemovalNotice::Skipped { hash: l });
        lemma_push_contains(m, RemovalNotice::Skipped { hash: l }, skipped);
        lemma_push_contains(m, RemovalNotice::Skipped { hash: l }, unsent);
        lemma_push_contains(noted, RemovalNotice::NotSent { hash: l }, skipped);
        lemma_push_contains(noted, RemovalNotice::NotSent { hash: l }, unsent);
        assert(forall|i: int| 0 <= i < rest.len() ==> #[trigger] rest[i] == list[i]);
        assert(list[last].hash == l);
        assert forall|i: int| 0 <= i < rest.len() implies rest.to_set().contains(
            #[trigger] list[i],
        ) by {
            assert(rest.contains(rest[i]));
        }
        if exists|x: TxId| #[trigger] rest.to_set().contains(x) && x.hash == l {
            let x = choose|x: TxId| #[trigger] rest.to_set().contains(x) && x.hash == l;
            let j = rest.index_of(x);
            assert(list[j].hash == l);
        }
        assert forall|i: int| 0 <= i < rest.len() && (#[trigger] list[i]).hash == h implies (
        exists|k: int| 0 <= k < rest.len() && (#[trigger] rest[k]).hash == h) by {
            assert(rest[i].hash == h);
        }
        assert forall|i: int|
            0 <= i < rest.len() && (#[trigger] list[i]).hash == h && (!sent.contains_key(h)
                || exists|j: int| 0 <= j < i && (#[trigger] list[j]).hash == h) implies (
        exists|k: int|
            0 <= k < rest.len() && (#[trigger] rest[k]).hash == h && (!sent.contains_key(h)
                || exists|j: int| 0 <= j < k && (#[trigger] rest[j]).hash == h)) by {
            assert(rest[i].hash == h);
            if sent.contains_key(h) {
                let j = choose|j: int| 0 <= j < i && (#[trigger] list[j]).hash == h;
                assert(rest[j].hash == h);
            }
        }
    }
}

/// What is said of a transaction that was found. Nothing is if it was not sent. Else it is told that
/// its key is not listed, or that it is not listed for its key; each other one of its key with a
/// nonce no higher is told as skipped. One of these is told as not sent if it is not among the sent
/// ones, or is the found one, or stands for the same transaction as another.
pub proof fn found_notices_tell_what_is_odd(t: TrackerView, tx: TargetTxView, h: CryptoHash)
    requires
        t.txs_by_signer.contains_key(tx.nonce_key) ==> t.txs_by_signer[tx.nonce_key].finite(),
    ensures
        ({
            let n = t.found_notices(tx);
            let id = TxId { hash: tx.hash, nonce: tx.nonce };
            let listed = t.txs_by_signer.contains_key(tx.nonce_key);
            let txs = t.txs_by_signer[tx.nonce_key];
            &&& !t.sent_txs.contains_key(tx.hash) ==> n.len() == 0
            &&& t.sent_txs.contains_key(tx.hash) ==> {
                &&& n.contains(RemovalNotice::NoKey { hash: h }) <==> !listed && h == tx.hash
                &&& n.contains(RemovalNotice::NotListed { hash: h }) <==> listed && !txs.contains(
                    id,
                ) && h == tx.hash
                &&& n.contains(RemovalNotice::Skipped { hash: h }) <==> listed
                    && exists|x: TxId| #[trigger]
                    txs.contains(x) && x != id && x.nonce <= tx.nonce && x.hash == h
                &&& n.contains(RemovalNotice::NotSent { hash: h }) <==> listed
                    && exists|x: TxId| #[trigger]
                    txs.contains(x) && x != id && x.nonce <= tx.nonce && x.hash == h && (
                    !t.sent_txs.contains_key(h) || h == tx.hash || exists|y: TxId| #[trigger]
                        txs.contains(y) && y != x && y != id && y.nonce <= tx.nonce && y.hash == h)
            }
        }),
{
    let n = t.found_notices(tx);
    let id = TxId { hash: tx.hash, nonce: tx.nonce };
    let key = tx.nonce_key;
    if t.sent_txs.contains_key(tx.hash) {
        if !t.txs_by_signer.contains_key(key) {
            assert(n[0] == RemovalNotice::NoKey { hash: tx.hash });
        } else {
            let sent = t.sent_txs.remove(tx.hash);
            let txs = t.txs_by_signer[key];
            let gone = skipped_by(txs, id);
            let list = listing::<TxId>(gone);
            lemma_listing_exists::<TxId>(gone);
            lemma_told_of(sent, list, h);
            lemma_skip_notices(TrackerView { sent_txs: sent, ..t }, list);
            let later = skip_notices(sent, list);
            let first = if txs.contains(id) {
                Seq::<RemovalNotice>::empty()
            } else {
                seq![RemovalNotice::NotListed { hash: tx.hash }]
            };
            assert(n == first + later);
            assert forall|x: RemovalNotice| n.contains(x) <==> first.contains(x)
                || later.contains(x) by {
                if first.contains(x) {
                    let i = first.index_of(x);
                    assert(n[i] == x);
                }
                if later.contains(x) {
                    let i = later.index_of(x);
                    assert(n[first.len() + i] == x);
                }
                if n.contains(x) {
                    let i = n.index_of(x);
                    if i < first.len() {
                        assert(first[i] == x);
                    } else {
                        assert(later[i - first.len()] == x);
                    }
                }
            }
            if !txs.contains(id) {
                assert(first[0] == RemovalNotice::NotListed { hash: tx.hash });
            }
            assert forall|x: TxId| list.contains(x) <==> #[trigger] txs.contains(x) && x != id
                && x.nonce <= tx.nonce by {
                assert(list.to_set().contains(x) <==> gone.contains(x));
            }
            assert forall|i: int| 0 <= i < list.len() implies txs.contains(#[trigger] list[i])
                && list[i] != id && list[i].nonce <= tx.nonce by {
                assert(list.contains(list[i]));
            }
            assert forall|i: int, j: int| 0 <= j < i < list.len() implies #[trigger] list[i]
                != #[trigger] list[j] by {
                if list[i] == list[j] {
                    TxId::before_irreflexive(list[i]);
                }
            }
            if exists|x: TxId| #[trigger]
                txs.contains(x) && x != id && x.nonce <= tx.nonce && x.hash == h {
                let x = choose|x: TxId| #[trigger]
                    txs.contains(x) && x != id && x.nonce <= tx.nonce && x.hash == h;
                let i = list.index_of(x);
                assert(list[i].hash == h);
            }
            if exists|x: TxId, y: TxId| #[trigger]
                txs.contains(x) && x != id && x.nonce <= tx.nonce && x.hash == h && #[trigger]
                txs.contains(y) && y != x && y != id && y.nonce <= tx.nonce && y.hash == h {
                let (x, y) = choose|x: TxId, y: TxId| #[trigger]
                    txs.contains(x) && x != id && x.nonce <= tx.nonce && x.hash == h && #[trigger]
                    txs.contains(y) && y != x && y != id && y.nonce <= tx.nonce && y.hash == h;
                let i = list.index_of(x);
                let j = list.index_of(y);
                assert(list[i].hash == h && list[j].hash == h);
            }
        }
    }
}

/// A transaction with no pending outcome changes no record and no nonce.
pub proof fn txs_without_outcome_change_no_nonce(w: World, tx: TargetTxView)
    requires
        !w.db.outcomes.contains_key(tx.hash),
    ensures
        w.included(tx).db == w.db,
        w.included(tx).queue == w.queue,
        w.included(tx).tracker == w.tracker.tx_found(tx),
{
}

/// When a transaction failed, it is no longer a pending outcome, and no other record changes.
pub proof fn failed_tx_is_no_longer_pending(w: World, tx: TargetTxView, id: CryptoHash)
    requires
        w.can_include(tx),
        w.db.outcomes.contains_key(tx.hash),
        tx.status is Failure,
    ensures
        ({
            let after = w.included(tx);
            &&& after.db.outcomes.contains_key(id) <==> w.db.outcomes.contains_key(id) && id
                != tx.hash
            &&& after.db.outcomes.contains_key(id) ==> after.db.outcomes[id] == w.db.outcomes[id]
            &&& after.db.nonces == w.db.nonces
            &&& after.queue == w.queue
            &&& after.tracker.nonces == w.tracker.nonces
            &&& after.tracker.updater_to_keys =~= w.tracker.updater_to_keys.remove(
                NonceUpdater::ChainObjectId(tx.hash),
            )
        }),
{
}

/// When a transaction turned into a receipt, the receipt is the pending outcome in its place, with
/// the same nonces. Wherever the one was pending, in the records and in memory, the other one is.
/// What is known of the nonces stays as it was.
pub proof fn turned_tx_is_pending_as_receipt(
    w: World,
    tx: TargetTxView,
    receipt: CryptoHash,
    k: NonceKey,
    id: CryptoHash,
)
    requires
        w.can_include(tx),
        w.db.outcomes.contains_key(tx.hash),
        tx.status == ExecutionStatus::SuccessReceiptId(receipt),
    ensures
        ({
            let after = w.included(tx);
            let keys = w.db.outcomes[tx.hash];
            let old = NonceUpdater::ChainObjectId(tx.hash);
            let new = NonceUpdater::ChainObjectId(receipt);
            &&& after.db.outcomes.contains_key(receipt) && after.db.outcomes[receipt] == keys
            &&& id != receipt ==> (after.db.outcomes.contains_key(id)
                <==> w.db.outcomes.contains_key(id) && id != tx.hash)
            &&& id != receipt && after.db.outcomes.contains_key(id) ==> after.db.outcomes[id]
                == w.db.outcomes[id]
            &&& after.db.nonces.contains_key(k) <==> w.db.nonces.contains_key(k)
            &&& w.db.nonces.contains_key(k) ==> {
                let a = after.db.nonces[k];
                let b = w.db.nonces[k];
                &&& a.nonce == b.nonce
                &&& a.pending_outcomes.contains(id) <==> if keys.contains(k) {
                    id == receipt || id != tx.hash && b.pending_outcomes.contains(id)
                } else {
                    b.pending_outcomes.contains(id)
                }
            }
            &&& after.tracker.nonces.contains_key(k) <==> w.tracker.nonces.contains_key(k)
            &&& w.tracker.nonces.contains_key(k) ==> {
                let a = after.tracker.nonces[k];
                let b = w.tracker.nonces[k];
                &&& a.target_nonce.nonce == b.target_nonce.nonce
                &&& a.last_height == b.last_height
                &&& a.queued_txs == b.queued_txs
                &&& a.txs_awaiting_nonce == b.txs_awaiting_nonce
                &&& keys.contains(k) ==> forall|u: NonceUpdater| #[trigger]
                    a.target_nonce.pending_outcomes.contains(u) <==> u == new || u != old
                        && b.target_nonce.pending_outcomes.contains(u)
                &&& !keys.contains(k) ==> a.target_nonce == b.target_nonce
            }
            &&& forall|u: NonceUpdater|
                u != old && u != new ==> (
                #[trigger] after.tracker.updater_to_keys.contains_key(u)
                    <==> w.tracker.updater_to_keys.contains_key(u))
            &&& keys.contains(k) ==> after.tracker.updater_to_keys.contains_key(new)
                && after.tracker.updater_to_keys[new] == keys
            &&& forall|u: NonceUpdater|
                u != new && after.tracker.updater_to_keys.contains_key(u)
                    ==> #[trigger] after.tracker.updater_to_keys[u]
                    == w.tracker.updater_to_keys[u]
            &&& old != new ==> !after.tracker.updater_to_keys.contains_key(old)
            &&& (forall|l: NonceKey| !(#[trigger] keys.contains(l))) ==> (
            after.tracker.updater_to_keys.contains_key(new) <==> old != new
                && w.tracker.updater_to_keys.contains_key(new))
        }),
{
    let keys = w.db.outcomes[tx.hash];
    if forall|l: NonceKey| !(#[trigger] keys.contains(l)) {
        assert(keys =~= Set::empty());
    }
}

/// Transactions that waited for one that turned into a receipt wait for the receipt, and no other
/// queued one changes.
pub proof fn turned_tx_is_waited_for_as_receipt(
    w: World,
    tx: TargetTxView,
    receipt: CryptoHash,
    x: TxRef,
)
    requires
        w.can_include(tx),
        w.db.outcomes.contains_key(tx.hash),
        tx.status == ExecutionStatus::SuccessReceiptId(receipt),
        heights_ascend(w.queue),
        holds(w.queue, x),
    ensures
        ({
            let keys = w.db.outcomes[tx.hash];
            let after = w.included(tx).queue;
            let waits = exists|k: NonceKey| #[trigger]
                keys.contains(k) && w.tracker.nonces.contains_key(k)
                    && w.tracker.nonces[k].txs_awaiting_nonce.contains(x);
            &&& holds(after, x)
            &&& !waits ==> tx_at(after, x) == tx_at(w.queue, x)
            &&& waits ==> tx_at(after, x).awaits(NonceUpdater::ChainObjectId(receipt))
            &&& waits && receipt != tx.hash ==> !tx_at(after, x).awaits(
                NonceUpdater::ChainObjectId(tx.hash),
            )
            &&& forall|u: NonceUpdater|
                u != NonceUpdater::ChainObjectId(tx.hash) && u != NonceUpdater::ChainObjectId(
                    receipt,
                ) ==> #[trigger] tx_at(after, x).awaits(u) == tx_at(w.queue, x).awaits(u)
        }),
{
    let t = w.tracker.tx_found(tx);
    let keys = w.db.outcomes[tx.hash];
    let old = NonceUpdater::ChainObjectId(tx.hash);
    let new = NonceUpdater::ChainObjectId(receipt);
    assert(t.nonces == w.tracker.nonces);
    let refs = awaiting_of(t.updater_done(old).nonces, keys);
    lemma_edited(w.queue, refs, TxEdit::Rename { old, new }, x);
    if refs.contains(x) {
        let k = choose|k: NonceKey| #[trigger]
            keys.contains(k) && t.nonces.contains_key(k) && t.nonces[k].txs_awaiting_nonce.contains(
                x,
            );
        assert(keys.contains(k) && t.nonces[k].txs_awaiting_nonce.contains(x));
        assert(tx_at(w.queue, x).awaits(old));
    }
}

proof fn lemma_descendants(db: DbView, ids: Seq<CryptoHash>, id: CryptoHash)
    ensures
        ({
            let after = with_descendants(db, ids);
            &&& after.nonces == db.nonces
            &&& after.outcomes.contains_key(id) <==> db.outcomes.contains_key(id) || ids.contains(id)
            &&& ids.contains(id) ==> after.outcomes[id] == Set::<NonceKey>::empty()
            &&& !ids.contains(id) ==> after.outcomes[id] == db.outcomes[id]
        }),
    decreases ids.len(),
{
    if ids.len() > 0 {
        let rest = ids.drop_last();
        lemma_descendants(db, rest, id);
        assert(ids[ids.len() - 1] == ids.last());
        if ids.contains(id) && id != ids.last() {
            let i = ids.index_of(id);
            assert(rest[i] == id);
        }
        if rest.contains(id) {
            let i = rest.index_of(id);
            assert(ids[i] == id);
        }
    }
}

/// After a receipt that came of our transactions was applied, each of its own receipts is a pending
/// outcome with no nonces to look after. The receipt itself is pending no more, unless it is one of
/// those, and no other outcome and no record of a nonce changes.
pub proof fn receipts_of_ours_are_ours(p: Progress, r: ReceiptView, id: CryptoHash)
    requires
        p.world.db.outcomes.contains_key(r.id),
    ensures
        ({
            let before = p.world.db;
            let after = p.receipt_done(r).world.db;
            &&& r.receipt_ids.contains(id) ==> after.outcomes.contains_key(id)
                && after.outcomes[id] == Set::<NonceKey>::empty()
            &&& !r.receipt_ids.contains(r.id) ==> !after.outcomes.contains_key(r.id)
            &&& id != r.id && !r.receipt_ids.contains(id) ==> {
                &&& after.outcomes.contains_key(id) <==> before.outcomes.contains_key(id)
                &&& before.outcomes.contains_key(id) ==> after.outcomes[id] == before.outcomes[id]
            }
            &&& after.nonces == before.nonces
        }),
{
    lemma_descendants(p.world.outcome_done(r.id).db, r.receipt_ids, id);
    lemma_descendants(p.world.outcome_done(r.id).db, r.receipt_ids, r.id);
}

/// A receipt that did not come of our transactions changes nothing.
pub proof fn receipts_of_others_change_nothing(p: Progress, r: ReceiptView)
    requires
        !p.world.db.outcomes.contains_key(r.id),
    ensures
        p.receipt_done(r) == p,
{
}

/// After a receipt of ours was applied, each nonce that it may have changed is reported with it, and
/// no other one is. It is no longer listed. Nothing else of the tracker or the queue changes.
pub proof fn applied_receipt_reports_its_nonces(
    p: Progress,
    r: ReceiptView,
    k: NonceKey,
    id: CryptoHash,
)
    requires
        p.world.db.outcomes.contains_key(r.id),
        p.world.db.outcomes[r.id].finite(),
    ensures
        ({
            let after = p.receipt_done(r);
            &&& after.updates.contains((k, id)) <==> p.updates.contains((k, id)) || id == r.id
                && p.world.db.outcomes[r.id].contains(k)
            &&& after.world.queue == p.world.queue
            &&& after.found == p.found
            &&& after.world.tracker == (TrackerView {
                updater_to_keys: p.world.tracker.updater_to_keys.remove(
                    NonceUpdater::ChainObjectId(r.id),
                ),
                ..p.world.tracker
            })
        }),
{
    let keys = p.world.db.outcomes[r.id];
    let list = listing::<NonceLookupKey>(keys);
    lemma_listing_exists::<NonceLookupKey>(keys);
    let after = p.receipt_done(r);
    let new = updates_by(keys, r.id);
    assert(after.updates == p.updates + new);
    if p.updates.contains((k, id)) {
        let i = p.updates.index_of((k, id));
        assert(after.updates[i] == (k, id));
    }
    if id == r.id && keys.contains(k) {
        assert(list.to_set().contains(k));
        let i = list.index_of(k);
        assert(new[i] == (k, id));
        assert(after.updates[p.updates.len() + i] == (k, id));
    }
    if after.updates.contains((k, id)) {
        let i = after.updates.index_of((k, id));
        if i < p.updates.len() {
            assert(p.updates[i] == (k, id));
        } else {
            let j = i - p.updates.len();
            assert(new[j] == (k, id));
            assert(list.to_set().contains(list[j]));
        }
    }
}

/// The actions stake with the key.
pub open spec fn stakes_with(actions: Seq<ActionView>, key: Seq<u8>) -> bool {
    exists|i: int|
        0 <= i < actions.len() && match #[trigger] actions[i] {
            ActionView::Stake { public_key, stake } => public_key == key && stake > 0,
            ActionView::Other => false,
        }
}

proof fn lemma_stakes(
    staked: StakedView,
    receiver: Seq<char>,
    predecessor: Seq<char>,
    actions: Seq<ActionView>,
    account: Seq<char>,
    key: Seq<u8>,
)
    ensures
        ({
            let after = with_stakes(staked, receiver, predecessor, actions);
            let now = account == receiver && stakes_with(actions, key);
            &&& after.contains_key((account, key)) <==> staked.contains_key((account, key)) || now
            &&& now ==> after[(account, key)] == predecessor
            &&& !now ==> after[(account, key)] == staked[(account, key)]
        }),
    decreases actions.len(),
{
    if actions.len() > 0 {
        let rest = actions.drop_last();
        let n: int = actions.len() - 1;
        lemma_stakes(staked, receiver, predecessor, rest, account, key);
        assert(actions[n] == actions.last());
        if stakes_with(rest, key) {
            let i = choose|i: int|
                0 <= i < rest.len() && match #[trigger] rest[i] {
                    ActionView::Stake { public_key, stake } => public_key == key && stake > 0,
                    ActionView::Other => false,
                };
            assert(actions[i] == rest[i]);
        }
        if stakes_with(actions, key) {
            let i = choose|i: int|
                0 <= i < actions.len() && match #[trigger] actions[i] {
                    ActionView::Stake { public_key, stake } => public_key == key && stake > 0,
                    ActionView::Other => false,
                };
            if i < n {
                assert(rest[i] == actions[i]);
            }
        }
    }
}

/// A status is one of success if it is a value or a receipt.
pub proof fn success_is_a_value_or_a_receipt(id: CryptoHash)
    ensures
        is_good(ExecutionStatus::SuccessValue),
        is_good(ExecutionStatus::SuccessReceiptId(id)),
        !is_good(ExecutionStatus::Failure),
        !is_good(ExecutionStatus::Unknown),
{
}

/// A receipt of ours that succeeded reports each stake above zero that it made: the account that it
/// was for, with the key, to the account that it came from. One that failed reports none, and no
/// other stakes are reported.
pub proof fn stakes_of_ours_are_reported(
    p: Progress,
    r: ReceiptView,
    account: Seq<char>,
    key: Seq<u8>,
)
    requires
        p.world.db.outcomes.contains_key(r.id),
    ensures
        ({
            let after = p.receipt_done(r).staked;
            let good = r.status is SuccessValue || r.status is SuccessReceiptId;
            let now = good && account == r.receiver_id && exists|i: int|
                0 <= i < r.actions.len() && match #[trigger] r.actions[i] {
                    ActionView::Stake { public_key, stake } => public_key == key && stake > 0,
                    ActionView::Other => false,
                };
            &&& after.contains_key((account, key)) <==> p.staked.contains_key((account, key)) || now
            &&& now ==> after[(account, key)] == r.predecessor_id
            &&& !now && p.staked.contains_key((account, key)) ==> after[(account, key)]
                == p.staked[(account, key)]
        }),
{
    lemma_stakes(p.staked, r.receiver_id, r.predecessor_id, r.actions, account, key);
}

/// A stake that a descendant of our transactions made is reported: each receipt of a receipt of ours
/// counts as ours when it is applied.
pub proof fn stakes_of_descendants_are_reported(
    p: Progress,
    parent: ReceiptView,
    child: ReceiptView,
    i: int,
    key: Seq<u8>,
)
    requires
        p.world.db.outcomes.contains_key(parent.id),
        parent.receipt_ids.contains(child.id),
        child.status is SuccessValue || child.status is SuccessReceiptId,
        0 <= i < child.actions.len(),
        child.actions[i] matches ActionView::Stake { public_key, stake } && public_key == key
            && stake > 0,
    ensures
        ({
            let after = p.receipt_done(parent).receipt_done(child);
            after.staked.contains_key((child.receiver_id, key)) && after.staked[(
                child.receiver_id,
                key,
            )] == child.predecessor_id
        }),
{
    receipts_of_ours_are_ours(p, parent, child.id);
    let q = p.receipt_done(parent);
    stakes_of_ours_are_reported(q, child, child.receiver_id, key);
}

/// The hash is that of one of the transactions.
pub open spec fn among(txs: Seq<TargetTxView>, h: CryptoHash) -> bool {
    exists|i: int| 0 <= i < txs.len() && (#[trigger] txs[i]).hash == h
}

/// The height is that of the source block of a transaction which was sent and is among `txs`.
pub open spec fn is_from_sent(
    sent: Map<CryptoHash, SendInfoView>,
    txs: Seq<TargetTxView>,
    height: Option<BlockHeight>,
) -> bool {
    exists|h: CryptoHash| #[trigger]
        sent.contains_key(h) && among(txs, h) && sent[h].source_height == height
}

/// The transactions of several shards, in order.
pub open spec fn txs_of(shards: Seq<ShardView>) -> Seq<TargetTxView>
    decreases shards.len(),
{
    if shards.len() == 0 {
        Seq::empty()
    } else {
        txs_of(shards.drop_last()) + shards.last().transactions
    }
}

/// No transaction is newly sent: what is kept of the sent ones stays.
spec fn sent_shrinks(a: TrackerView, b: TrackerView) -> bool {
    forall|h: CryptoHash| #[trigger]
        b.sent_txs.contains_key(h) ==> a.sent_txs.contains_key(h) && b.sent_txs[h] == a.sent_txs[h]
}

proof fn lemma_seen_in_txs(p: Progress, txs: Seq<TargetTxView>)
    ensures
        ({
            let a = p.world.tracker;
            let b = p.txs_done(txs).world.tracker;
            &&& sent_shrinks(a, b)
            &&& b.height_seen == a.height_seen || is_from_sent(a.sent_txs, txs, b.height_seen)
        }),
    decreases txs.len(),
{
    if txs.len() > 0 {
        let rest = txs.drop_last();
        let tx = txs.last();
        lemma_seen_in_txs(p, rest);
        let a = p.world.tracker;
        let m = p.txs_done(rest).world.tracker;
        let b = p.txs_done(txs).world.tracker;
        assert(txs[txs.len() - 1] == tx);
        assert forall|h: CryptoHash| #[trigger] b.sent_txs.contains_key(h) implies
            m.sent_txs.contains_key(h) && b.sent_txs[h] == m.sent_txs[h] by {
            if m.sent_txs.contains_key(tx.hash) {
                found_tx_ends_lower_nonces(m, tx, h, tx.id());
            }
        }
        if m.height_seen != a.height_seen {
            let h = choose|h: CryptoHash| #[trigger]
                a.sent_txs.contains_key(h) && among(rest, h) && a.sent_txs[h].source_height
                    == m.height_seen;
            let i = choose|i: int| 0 <= i < rest.len() && (#[trigger] rest[i]).hash == h;
            assert(txs[i].hash == h);
            assert(among(txs, h));
        }
        if m.sent_txs.contains_key(tx.hash) {
            found_tx_raises_the_seen_height(m, tx);
            assert(among(txs, tx.hash));
        }
    }
}

proof fn lemma_seen_in_receipts(p: Progress, receipts: Seq<ReceiptView>)
    ensures
        p.receipts_done(receipts).world.tracker.sent_txs == p.world.tracker.sent_txs,
        p.receipts_done(receipts).world.tracker.height_seen == p.world.tracker.height_seen,
    decreases receipts.len(),
{
    if receipts.len() > 0 {
        lemma_seen_in_receipts(p, receipts.drop_last());
    }
}

/// After a target block the height that was seen is what it was, or that of the source block of a
/// transaction which was sent from here and is in the block.
pub proof fn seen_heights_are_those_of_found_txs(p: Progress, shards: Seq<ShardView>)
    ensures
        ({
            let a = p.world.tracker;
            let b = p.shards_done(shards).world.tracker;
            &&& forall|h: CryptoHash| #[trigger]
                b.sent_txs.contains_key(h) ==> a.sent_txs.contains_key(h) && b.sent_txs[h]
                    == a.sent_txs[h]
            &&& b.height_seen == a.height_seen || exists|h: CryptoHash| #[trigger]
                a.sent_txs.contains_key(h) && among(txs_of(shards), h)
                    && a.sent_txs[h].source_height == b.height_seen
        }),
    decreases shards.len(),
{
    if shards.len() > 0 {
        let rest = shards.drop_last();
        seen_heights_are_those_of_found_txs(p, rest);
        let m = p.shards_done(rest);
        let txs = shards.last().transactions;
        lemma_seen_in_txs(m, txs);
        lemma_seen_in_receipts(m.txs_done(txs), shards.last().receipts);
        let a = p.world.tracker;
        let c = m.world.tracker;
        let b = p.shards_done(shards).world.tracker;
        let all = txs_of(shards);
        let before = txs_of(rest);
        assert forall|h: CryptoHash| among(before, h) || among(txs, h) implies #[trigger] among(
            all,
            h,
        ) by {
            if among(before, h) {
                let i = choose|i: int| 0 <= i < before.len() && (#[trigger] before[i]).hash == h;
                assert(all[i].hash == h);
            } else {
                let i = choose|i: int| 0 <= i < txs.len() && (#[trigger] txs[i]).hash == h;
                assert(all[before.len() + i].hash == h);
            }
        }
        if b.height_seen != c.height_seen {
            let h = choose|h: CryptoHash| #[trigger]
                c.sent_txs.contains_key(h) && among(txs, h) && c.sent_txs[h].source_height
                    == b.height_seen;
            assert(a.sent_txs.contains_key(h) && among(all, h));
        } else if c.height_seen != a.height_seen {
            let h = choose|h: CryptoHash| #[trigger]
                a.sent_txs.contains_key(h) && among(before, h) && a.sent_txs[h].source_height
                    == c.height_seen;
            assert(among(all, h));
        }
    }
}

/// A target block that holds no transaction from the last source block with transactions does not
/// end the waiting for it.
pub proof fn unseen_blocks_are_waited_for(p: Progress, shards: Seq<ShardView>, last: BlockHeight)
    requires
        p.world.tracker.nonempty_height_queued == Some(last),
        p.world.tracker.height_seen is None || p.world.tracker.height_seen->0 < last,
        forall|h: CryptoHash|
            p.world.tracker.sent_txs.contains_key(h) && #[trigger] among(txs_of(shards), h) ==> {
                let from = p.world.tracker.sent_txs[h].source_height;
                from is None || from->0 < last
            },
    ensures
        !p.shards_done(shards).world.tracker.is_finished(),
{
    seen_heights_are_those_of_found_txs(p, shards);
    target_blocks_raise_heights(p, shards);
}

/// A target block starts with its timestamp recorded, and with nothing found or reported.
pub proof fn target_blocks_start_with_their_timestamp(w: World, timestamp: u64)
    ensures
        ({
            let p = block_start(w.tracker, w.queue, w.db, timestamp);
            &&& p.staked == Map::<(Seq<char>, Seq<u8>), Seq<char>>::empty()
            &&& p.updates.len() == 0
            &&& p.found.len() == 0
            &&& p.notices.len() == 0
            &&& p.world.queue == w.queue
            &&& p.world.db == w.db
            &&& p.world.tracker.recent_block_timestamps.len() > 0
            &&& p.world.tracker.recent_block_timestamps.last() == timestamp
            &&& p.world.tracker == (TrackerView {
                recent_block_timestamps: p.world.tracker.recent_block_timestamps,
                ..w.tracker
            })
        }),
{
}

/// The sent transactions of a target block are found, in order: a transaction is added where it is
/// among the sent ones when its turn comes.
pub proof fn sent_txs_of_a_block_are_found(p: Progress, txs: Seq<TargetTxView>, tx: TargetTxView)
    ensures
        ({
            let before = p.txs_done(txs);
            let after = p.txs_done(txs.push(tx));
            &&& before.world.tracker.sent_txs.contains_key(tx.hash) ==> after.found
                == before.found.push(tx.hash)
            &&& !before.world.tracker.sent_txs.contains_key(tx.hash) ==> after.found == before.found
            &&& after.world == before.world.included(tx)
            &&& after.staked == before.staked
            &&& after.updates == before.updates
        }),
{
    assert(txs.push(tx).drop_last() =~= txs);
}

/// The shards of a block are taken in one after the other, first the transactions of each and then
/// its receipts.
pub proof fn shards_are_taken_in_order(
    p: Progress,
    shards: Seq<ShardView>,
    shard: ShardView,
    receipts: Seq<ReceiptView>,
    receipt: ReceiptView,
)
    ensures
        p.shards_done(Seq::empty()) == p,
        p.txs_done(Seq::empty()) == p,
        p.receipts_done(Seq::empty()) == p,
        p.shards_done(shards.push(shard)) == p.shards_done(shards).txs_done(
            shard.transactions,
        ).receipts_done(shard.receipts),
        p.receipts_done(receipts.push(receipt)) == p.receipts_done(receipts).receipt_done(receipt),
{
    assert(shards.push(shard).drop_last() =~= shards);
    assert(receipts.push(receipt).drop_last() =~= receipts);
}

} // verus!
