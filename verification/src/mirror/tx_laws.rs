//! What the values that the tracker works on mean.

use vstd::prelude::*;

use super::db::{replay, DbView, LatestView, WriteView};
use super::ids::{NonceKey, NonceKind, NonceUpdater, TxId, TxRef};
use super::queue::{tx_at, QueueView};
use super::sending::height_of;
use super::settling::{forced, settled_info, settled_latest};
use super::tracker::{fresh_tracker, send_info, InfoView};
use super::tx::{
    at_most, later, MappedTxView, TargetNonceView, TransactionView, TxEdit, TxView,
};
use crate::keys::{BlockHeight, CryptoHash, Nonce};
use crate::ordered::{lemma_listing_exists, listing, Key};

verus! {

/// Nothing comes before everything, and numbers are compared as such. Of two, the later one is one
/// of them, and the other is not after it.
pub proof fn later_is_the_larger_one(a: Option<u64>, b: Option<u64>)
    ensures
        at_most(None, b),
        !at_most(Some(0), None),
        a is Some && b is None ==> !at_most(a, b),
        a is Some && b is Some ==> (at_most(a, b) <==> a->0 <= b->0),
        a is None ==> later(a, b) == b,
        b is None ==> later(a, b) == a,
        a is Some && b is Some ==> later(a, b) is Some && later(a, b)->0 >= a->0 && later(a, b)->0
            >= b->0 && (later(a, b) == a || later(a, b) == b),
{
}

/// A reference is from the height that it names; a transaction without one is from none.
pub proof fn references_name_their_height(r: TxRef)
    ensures
        height_of(Some(r)) == Some(r.source_height),
        height_of(None) is None,
{
}

/// References come in the order of their heights, then of their shards, then of their places.
pub proof fn references_are_ordered_by_place(a: TxRef, b: TxRef)
    ensures
        TxRef::before(a, b) <==> {
            ||| a.source_height < b.source_height
            ||| a.source_height == b.source_height && a.shard_id < b.shard_id
            ||| a.source_height == b.source_height && a.shard_id == b.shard_id && a.tx_idx
                < b.tx_idx
        },
{
}

/// Sent transactions come in the order of their nonces.
pub proof fn sent_txs_are_ordered_by_nonce(a: TxId, b: TxId)
    ensures
        a.nonce < b.nonce ==> TxId::before(a, b),
        TxId::before(a, b) ==> a.nonce <= b.nonce,
{
}

/// The first of some references is the one with the lowest height, and among those with the lowest
/// shard, and among those with the lowest place.
pub proof fn first_reference_is_the_lowest(refs: Set<TxRef>, r: TxRef)
    requires
        refs.finite(),
        refs.contains(r),
    ensures
        ({
            let first = listing::<TxRef>(refs)[0];
            &&& refs.contains(first)
            &&& first.source_height <= r.source_height
            &&& first.source_height == r.source_height ==> first.shard_id <= r.shard_id
            &&& first.source_height == r.source_height && first.shard_id == r.shard_id
                ==> first.tx_idx <= r.tx_idx
        }),
{
    lemma_listing_exists::<TxRef>(refs);
    let list = listing::<TxRef>(refs);
    assert(list.to_set().contains(r));
    let j = list.index_of(r);
    assert(list[j] == r);
    assert(list.to_set().contains(list[0]));
    if j > 0 {
        assert(TxRef::before(list[0], list[j]));
    }
}

/// A transaction uses the nonce of its signer and public key: that of the access key, or the one
/// of the gas key with its index.
pub proof fn txs_use_the_nonce_of_their_signer(tx: TransactionView)
    ensures
        tx.nonce_key().account_id == tx.signer_id,
        tx.nonce_key().public_key == tx.public_key,
        tx.nonce_index is None ==> tx.nonce_key().kind == NonceKind::AccessKey,
        tx.nonce_index matches Some(i) ==> tx.nonce_key().kind == NonceKind::GasKey(i),
{
}

/// The bytes that are hashed are those before the nonce, the eight bytes of the nonce, lowest
/// first, and those after it.
pub proof fn encoding_holds_the_nonce(tx: TransactionView)
    ensures
        tx.encoding() == tx.head + vstd::bytes::spec_u64_to_le_bytes(tx.nonce) + tx.tail,
        tx.signed().transaction == tx,
        tx.signed().hash == tx.hash(),
{
}

/// What is known of a nonce when one more is given out, and when an updater moves on or is done.
pub proof fn target_nonces_change_as_told(
    t: TargetNonceView,
    u: NonceUpdater,
    v: NonceUpdater,
    answer: Option<Nonce>,
)
    ensures
        t.nonce is None ==> t.incremented() == t,
        t.nonce matches Some(n) ==> (n < u64::MAX ==> t.incremented().nonce == Some((n + 1) as u64)),
        t.incremented().pending_outcomes == t.pending_outcomes,
        t.renamed(u, v).nonce == t.nonce,
        forall|x: NonceUpdater| #[trigger]
            t.renamed(u, v).pending_outcomes.contains(x) <==> x == v || x != u
                && t.pending_outcomes.contains(x),
        t.without(u).nonce == t.nonce,
        forall|x: NonceUpdater| #[trigger]
            t.without(u).pending_outcomes.contains(x) <==> x != u && t.pending_outcomes.contains(x),
        forall|x: NonceUpdater| #[trigger]
            t.settled(u, answer).pending_outcomes.contains(x) <==> x != u
                && t.pending_outcomes.contains(x),
        t.settled(u, answer).nonce == t.nonce || t.settled(u, answer).nonce == answer,
{
}

/// What a change to a queued transaction does. One that waits learns what is known of its nonce,
/// and nothing else of it changes. One whose nonce is set only ever gets the next one.
pub proof fn edits_touch_only_the_nonce(tx: TxView, edit: TxEdit)
    requires
        edit is Shift ==> tx.can_shift(),
    ensures
        tx.edited(edit) is Ready <==> tx is Ready,
        tx.edited(edit).nonce_key() == tx.nonce_key(),
        tx.edited(edit).nonce_updates() == tx.nonce_updates(),
        match tx {
            TxView::AwaitingNonce(t) => {
                let after = tx.edited(edit)->AwaitingNonce_0;
                &&& after.provenance == t.provenance
                &&& after.source_signer_id == t.source_signer_id
                &&& after.source_receiver_id == t.source_receiver_id
                &&& after.target_tx == t.target_tx
                &&& match edit {
                    TxEdit::Rename { old, new } => {
                        &&& after.target_nonce.nonce == t.target_nonce.nonce
                        &&& after.target_nonce.pending_outcomes
                            =~= t.target_nonce.pending_outcomes.remove(old).insert(new)
                    },
                    TxEdit::Forget { updater } => {
                        &&& after.target_nonce.nonce == t.target_nonce.nonce
                        &&& after.target_nonce.pending_outcomes
                            =~= t.target_nonce.pending_outcomes.remove(updater)
                    },
                    TxEdit::Settle { updater, nonce } => {
                        &&& after.target_nonce.nonce == later(t.target_nonce.nonce, nonce)
                        &&& after.target_nonce.pending_outcomes
                            =~= t.target_nonce.pending_outcomes.remove(updater)
                    },
                    TxEdit::Shift => {
                        &&& t.target_nonce.nonce is None ==> after.target_nonce.nonce is None
                        &&& t.target_nonce.nonce matches Some(n) ==> after.target_nonce.nonce
                            == Some((n + 1) as u64)
                        &&& after.target_nonce.pending_outcomes == t.target_nonce.pending_outcomes
                    },
                }
            },
            TxView::Ready(t) => {
                let after = tx.edited(edit)->Ready_0;
                &&& !(edit is Shift) ==> after == t
                &&& edit is Shift ==> {
                    let old = t.target_tx.transaction;
                    let new = after.target_tx.transaction;
                    &&& new.nonce == old.nonce + 1
                    &&& new == (TransactionView { nonce: new.nonce, ..old })
                    &&& after.target_tx.hash == new.hash()
                    &&& after.provenance == t.provenance
                    &&& after.source_signer_id == t.source_signer_id
                    &&& after.source_receiver_id == t.source_receiver_id
                    &&& after.sent_successfully == t.sent_successfully
                }
            },
        },
{
}

/// A waiting transaction whose nonce is set is the same one with that nonce, not sent yet. One that
/// is ready keeps its nonce.
pub proof fn set_nonce_makes_ready(tx: TxView, nonce: Nonce)
    ensures
        tx is Ready ==> tx.with_nonce(nonce) == tx,
        tx matches TxView::AwaitingNonce(t) ==> {
            let after = tx.with_nonce(nonce)->Ready_0;
            &&& tx.with_nonce(nonce) is Ready
            &&& after.target_tx.transaction == (TransactionView { nonce, ..t.target_tx })
            &&& after.target_tx.hash == after.target_tx.transaction.hash()
            &&& after.provenance == t.provenance
            &&& after.source_signer_id == t.source_signer_id
            &&& after.source_receiver_id == t.source_receiver_id
            &&& after.nonce_updates == t.nonce_updates
            &&& !after.sent_successfully
        },
{
}

/// What is known of the nonce of a ready transaction is that nonce, with nothing pending.
pub proof fn ready_txs_wait_for_nothing(tx: TxView, updater: NonceUpdater)
    ensures
        tx matches TxView::Ready(t) ==> {
            &&& tx.target_nonce().nonce == Some(t.target_tx.transaction.nonce)
            &&& tx.target_nonce().pending_outcomes == Set::<NonceUpdater>::empty()
            &&& !tx.awaits(updater)
            &&& tx.nonce_updates() == t.nonce_updates
            &&& tx.nonce_key() == t.target_tx.transaction.nonce_key()
        },
        tx matches TxView::AwaitingNonce(t) ==> {
            &&& tx.target_nonce() == t.target_nonce
            &&& tx.awaits(updater) <==> t.target_nonce.pending_outcomes.contains(updater)
            &&& tx.nonce_updates() == t.nonce_updates
            &&& tx.nonce_key() == t.target_tx.nonce_key()
        },
{
}

/// What is kept of a sent transaction: when and for which heights it was sent, what it is, and its
/// accounts on the target chain where they have other names there.
pub proof fn send_info_tells_what_was_sent(
    tx: MappedTxView,
    source_height: Option<BlockHeight>,
    target_height: BlockHeight,
    now: u64,
)
    ensures
        ({
            let i = send_info(tx, source_height, target_height, now);
            let target = tx.target_tx.transaction;
            &&& i.sent_at == now
            &&& i.source_height == source_height
            &&& i.sent_at_target_height == target_height
            &&& i.provenance == tx.provenance
            &&& i.source_signer_id == tx.source_signer_id
            &&& i.source_receiver_id == tx.source_receiver_id
            &&& i.actions == target.actions
            &&& i.target_signer_id is None <==> tx.source_signer_id == target.signer_id
            &&& i.target_signer_id matches Some(s) ==> s == target.signer_id
            &&& i.target_receiver_id is None <==> tx.source_receiver_id == target.receiver_id
            &&& i.target_receiver_id matches Some(s) ==> s == target.receiver_id
        }),
{
}

/// A write changes the record that it names, and no other.
pub proof fn writes_change_one_record(
    db: DbView,
    key: NonceKey,
    record: LatestView,
    id: CryptoHash,
    keys: Set<NonceKey>,
    other_key: NonceKey,
    other_id: CryptoHash,
)
    requires
        other_key != key,
        other_id != id,
    ensures
        ({
            let a = db.put_nonce(key, record);
            &&& a.nonces.contains_key(key) && a.nonces[key] == record
            &&& a.nonces.contains_key(other_key) == db.nonces.contains_key(other_key)
            &&& a.nonces[other_key] == db.nonces[other_key]
            &&& a.outcomes == db.outcomes
        }),
        ({
            let a = db.put_outcome(id, keys);
            &&& a.outcomes.contains_key(id) && a.outcomes[id] == keys
            &&& a.outcomes.contains_key(other_id) == db.outcomes.contains_key(other_id)
            &&& a.outcomes[other_id] == db.outcomes[other_id]
            &&& a.nonces == db.nonces
        }),
        ({
            let a = db.delete_outcome(id);
            &&& !a.outcomes.contains_key(id)
            &&& a.outcomes.contains_key(other_id) == db.outcomes.contains_key(other_id)
            &&& db.outcomes.contains_key(other_id) ==> a.outcomes[other_id]
                == db.outcomes[other_id]
            &&& a.nonces == db.nonces
        }),
{
}

/// Of several writes to one record, the last one counts.
pub proof fn last_write_counts(
    db: DbView,
    writes: Seq<WriteView>,
    key: NonceKey,
    record: LatestView,
    id: CryptoHash,
    keys: Set<NonceKey>,
)
    ensures
        replay(db, Seq::empty()) == db,
        replay(db, writes.push(WriteView::PutTargetNonce { key, value: record })).nonces
            == replay(db, writes).nonces.insert(key, record),
        replay(db, writes.push(WriteView::PutTargetNonce { key, value: record })).outcomes
            == replay(db, writes).outcomes,
        replay(db, writes.push(WriteView::PutPendingOutcome { id, keys })).outcomes == replay(
            db,
            writes,
        ).outcomes.insert(id, keys),
        replay(db, writes.push(WriteView::PutPendingOutcome { id, keys })).nonces == replay(
            db,
            writes,
        ).nonces,
        replay(db, writes.push(WriteView::DeletePendingOutcome { id })).outcomes == replay(
            db,
            writes,
        ).outcomes.remove(id),
        replay(db, writes.push(WriteView::DeletePendingOutcome { id })).nonces == replay(
            db,
            writes,
        ).nonces,
{
    assert(writes.push(WriteView::PutTargetNonce { key, value: record }).drop_last() =~= writes);
    assert(writes.push(WriteView::PutPendingOutcome { id, keys }).drop_last() =~= writes);
    assert(writes.push(WriteView::DeletePendingOutcome { id }).drop_last() =~= writes);
}

/// After an answer of the target chain the stored nonce is the stored one or the answer, and below
/// neither. The outcome that it was asked for is no longer pending, and all others still are.
pub proof fn answers_never_lower_stored_nonces(
    record: LatestView,
    id: CryptoHash,
    answer: Option<Nonce>,
)
    ensures
        ({
            let after = settled_latest(record, id, answer);
            &&& after.nonce == record.nonce || after.nonce == answer
            &&& record.nonce matches Some(n) ==> after.nonce is Some && after.nonce->0 >= n
            &&& answer matches Some(n) ==> after.nonce is Some && after.nonce->0 >= n
            &&& forall|x: CryptoHash| #[trigger]
                after.pending_outcomes.contains(x) <==> x != id
                    && record.pending_outcomes.contains(x)
        }),
{
}

/// The same holds of what is kept in memory. Only transactions whose nonces are set are no longer
/// listed as waiting, and nothing else changes.
pub proof fn answers_never_lower_known_nonces(
    info: InfoView,
    q: QueueView,
    id: CryptoHash,
    answer: Option<Nonce>,
)
    ensures
        ({
            let after = settled_info(info, q, id, answer);
            let before = info.target_nonce;
            &&& after.target_nonce.nonce == before.nonce || after.target_nonce.nonce == answer
            &&& before.nonce matches Some(n) ==> after.target_nonce.nonce is Some
                && after.target_nonce.nonce->0 >= n
            &&& answer matches Some(n) ==> after.target_nonce.nonce is Some
                && after.target_nonce.nonce->0 >= n
            &&& forall|x: NonceUpdater| #[trigger]
                after.target_nonce.pending_outcomes.contains(x) <==> x
                    != NonceUpdater::ChainObjectId(id) && before.pending_outcomes.contains(x)
            &&& forall|r: TxRef| #[trigger]
                after.txs_awaiting_nonce.contains(r) <==> info.txs_awaiting_nonce.contains(r)
                    && tx_at(q, r) is AwaitingNonce
            &&& after.last_height == info.last_height
            &&& after.queued_txs == info.queued_txs
        }),
{
}

/// A nonce that was asked for outright leaves nothing pending, and is not below the known one.
pub proof fn forced_nonces_never_fall(target: TargetNonceView, nonce: Nonce)
    ensures
        ({
            let after = forced(target, nonce);
            &&& after.pending_outcomes == Set::<NonceUpdater>::empty()
            &&& after.nonce is Some
            &&& after.nonce->0 >= nonce
            &&& target.nonce matches Some(n) ==> after.nonce->0 >= n
            &&& after.nonce == Some(nonce) || after.nonce == target.nonce
        }),
{
}

/// A tracker starts with the heights and the delays that it is given. It knows of no transaction and
/// of no nonce, and nothing was queued, sent or seen.
pub proof fn trackers_start_with_nothing(
    min_block_production_delay: u128,
    tx_batch_interval: Option<u128>,
    next_heights: Seq<BlockHeight>,
    stop_height: Option<BlockHeight>,
)
    ensures
        ({
            let t = fresh_tracker(
                min_block_production_delay,
                tx_batch_interval,
                next_heights,
                stop_height,
            );
            &&& t.next_heights == next_heights
            &&& t.stop_height == stop_height
            &&& t.min_block_production_delay == min_block_production_delay
            &&& t.tx_batch_interval == tx_batch_interval
            &&& t.height_queued is None && t.nonempty_height_queued is None
            &&& t.height_popped is None && t.height_seen is None
            &&& t.recent_block_timestamps.len() == 0
            &&& forall|h: CryptoHash| !(#[trigger] t.sent_txs.contains_key(h))
            &&& forall|k: NonceKey| !(#[trigger] t.txs_by_signer.contains_key(k))
            &&& forall|k: NonceKey| !(#[trigger] t.nonces.contains_key(k))
            &&& forall|u: NonceUpdater| !(#[trigger] t.updater_to_keys.contains_key(u))
            &&& forall|h: BlockHeight| !(#[trigger] t.requeue_attempts.contains_key(h))
            &&& !t.is_finished()
        }),
{
}

} // verus!
