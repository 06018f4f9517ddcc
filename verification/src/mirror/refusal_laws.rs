//! What can be done, and what is refused.

use vstd::prelude::*;

use super::batches::{waiting, SentItemView, SentView, TxBatchView};
use super::db::DbView;
use super::delay::in_order;
use super::ids::{NonceKey, NonceUpdater, TxRef};
use super::queue::{heights_ascend, holds, tx_at, BlockView, QueueView};
use super::queueing::{after_turns, block_items, turn_fits, turns_fit, Item};
use super::sending::Batch;
use super::settling::awaiting_of;
use super::target::{Progress, ReceiptView, ShardView, TargetTxView, World};
use super::tracker::{InfoView, TrackerView};
use super::tx::{MappedTxView, TxView};
use crate::keys::BlockHeight;

verus! {

/// Of the nonces, none is waited for.
pub open spec fn nothing_waits(nonces: Map<NonceKey, InfoView>, keys: Set<NonceKey>) -> bool {
    forall|k: NonceKey, r: TxRef|
        #![trigger nonces[k].txs_awaiting_nonce.contains(r)]
        keys.contains(k) && nonces.contains_key(k) ==> !nonces[k].txs_awaiting_nonce.contains(r)
}

proof fn lemma_nothing_waits(nonces: Map<NonceKey, InfoView>, keys: Set<NonceKey>)
    requires
        nothing_waits(nonces, keys),
    ensures
        awaiting_of(nonces, keys) == Set::<TxRef>::empty(),
{
    assert forall|r: TxRef| !awaiting_of(nonces, keys).contains(r) by {
        if awaiting_of(nonces, keys).contains(r) {
            let k = choose|k: NonceKey| #[trigger]
                keys.contains(k) && nonces.contains_key(k) && nonces[k].txs_awaiting_nonce.contains(
                    r,
                );
            assert(nonces[k].txs_awaiting_nonce.contains(r));
        }
    }
    assert(awaiting_of(nonces, keys) =~= Set::empty());
}

/// A nonce can be given out before all queued ones if no queued transaction uses it. One that is
/// not in memory can if there is a record of it that leaves room for one more. One that queued
/// transactions use can if it and all of theirs leave room.
pub proof fn nonces_can_be_inserted(t: TrackerView, q: QueueView, db: DbView, key: NonceKey)
    ensures
        !t.nonces.contains_key(key) ==> (t.can_insert(q, db, key) <==> db.nonces.contains_key(key)
            && (db.nonces[key].nonce matches Some(n) ==> n < u64::MAX)),
        t.nonces.contains_key(key) && (forall|r: TxRef|
            !(#[trigger] t.nonces[key].queued_txs.contains(r))) ==> t.can_insert(q, db, key),
        t.nonces.contains_key(key) && heights_ascend(q) && (
        t.nonces[key].target_nonce.nonce matches Some(n) ==> n < u64::MAX) && (forall|r: TxRef|
            #[trigger]
            t.nonces[key].queued_txs.contains(r) ==> holds(q, r) && (
            tx_at(q, r).target_nonce().nonce matches Some(n) ==> n < u64::MAX)) ==> t.can_insert(
            q,
            db,
            key,
        ),
{
    if t.nonces.contains_key(key) && (forall|r: TxRef|
        !(#[trigger] t.nonces[key].queued_txs.contains(r))) {
        assert(t.nonces[key].queued_txs =~= Set::empty());
    }
}

/// A transaction of a target block that was not sent and has no pending outcome is taken in.
pub proof fn txs_of_others_are_taken_in(w: World, tx: TargetTxView)
    requires
        !w.tracker.sent_txs.contains_key(tx.hash),
        !w.db.outcomes.contains_key(tx.hash),
    ensures
        w.can_include(tx),
{
}

/// A transaction with a pending outcome is taken in if there is room for a nonce after its own,
/// where that is needed, and what it is listed with agrees with the outcome. One that turned into a
/// receipt has to be pending in all of these records and nonces too. No other success is.
pub proof fn txs_with_outcomes_are_taken_in(w: World, tx: TargetTxView)
    requires
        w.db.outcomes.contains_key(tx.hash),
        nothing_waits(w.tracker.nonces, w.db.outcomes[tx.hash]),
    ensures
        ({
            let t = w.tracker;
            let keys = w.db.outcomes[tx.hash];
            let updater = NonceUpdater::ChainObjectId(tx.hash);
            let room = t.sent_txs.contains_key(tx.hash) && t.txs_by_signer.contains_key(
                tx.nonce_key,
            ) ==> tx.nonce < u64::MAX;
            let agrees = t.updater_to_keys.contains_key(updater) ==> t.updater_to_keys[updater]
                == keys;
            let pending = forall|k: NonceKey| #[trigger]
                keys.contains(k) ==> {
                    &&& w.db.nonces.contains_key(k)
                    &&& w.db.nonces[k].pending_outcomes.contains(tx.hash)
                    &&& t.nonces.contains_key(k)
                        ==> t.nonces[k].target_nonce.pending_outcomes.contains(updater)
                };
            &&& tx.status is Failure ==> (w.can_include(tx) <==> room && agrees)
            &&& tx.status is SuccessReceiptId ==> (w.can_include(tx) <==> room && agrees && pending)
            &&& tx.status is SuccessValue || tx.status is Unknown ==> !w.can_include(tx)
        }),
{
    let keys = w.db.outcomes[tx.hash];
    lemma_nothing_waits(w.tracker.nonces, keys);
    assert(w.tracker.tx_found(tx).nonces == w.tracker.nonces);
    assert(w.tracker.tx_found(tx).updater_to_keys == w.tracker.updater_to_keys);
}

/// A receipt is taken in unless it is one of ours that is listed with other nonces than it is
/// stored with.
pub proof fn receipts_are_taken_in(p: Progress, r: ReceiptView)
    ensures
        ({
            let listed = p.world.tracker.updater_to_keys;
            let updater = NonceUpdater::ChainObjectId(r.id);
            !p.can_apply(r) <==> p.world.db.outcomes.contains_key(r.id) && listed.contains_key(
                updater,
            ) && listed[updater] != p.world.db.outcomes[r.id]
        }),
{
}

/// A target block with no shards is taken in. One with one more shard is if the others are, and
/// then each of its transactions and receipts is.
pub proof fn shards_are_taken_in_one_by_one(p: Progress, shards: Seq<ShardView>, shard: ShardView)
    ensures
        p.can_do_shards(Seq::empty()),
        p.can_do_shards(shards.push(shard)) <==> p.can_do_shards(shards) && p.shards_done(
            shards,
        ).can_do_shard(shard),
{
    let all = shards.push(shard);
    assert(all.take(shards.len() as int) =~= shards);
    assert forall|n: int| 0 <= n < shards.len() implies all.take(n) == #[trigger] shards.take(
        n,
    ) by {
        assert(all.take(n) =~= shards.take(n));
    }
    if p.can_do_shards(all) {
        assert(p.shards_done(all.take(shards.len() as int)).can_do_shard(all[shards.len() as int]));
        assert forall|n: int| 0 <= n < shards.len() implies p.shards_done(
            #[trigger] shards.take(n),
        ).can_do_shard(shards[n]) by {
            assert(p.shards_done(all.take(n)).can_do_shard(all[n]));
        }
    }
    if p.can_do_shards(shards) && p.shards_done(shards).can_do_shard(shard) {
        assert forall|n: int| 0 <= n < all.len() implies p.shards_done(
            #[trigger] all.take(n),
        ).can_do_shard(all[n]) by {
            if n < shards.len() {
                assert(p.shards_done(shards.take(n)).can_do_shard(shards[n]));
            }
        }
    }
}

/// A shard of one transaction or of one receipt, or of none, is taken in just if these are.
pub proof fn small_shards_are_taken_in(
    p: Progress,
    shard: ShardView,
    tx: TargetTxView,
    r: ReceiptView,
)
    ensures
        shard.transactions.len() == 0 && shard.receipts.len() == 0 ==> p.can_do_shard(shard),
        shard.transactions == seq![tx] && shard.receipts.len() == 0 ==> (p.can_do_shard(shard)
            <==> p.world.can_include(tx)),
        shard.transactions.len() == 0 && shard.receipts == seq![r] ==> (p.can_do_shard(shard)
            <==> p.can_apply(r)),
{
    assert(shard.transactions.take(0) =~= Seq::empty());
    assert(shard.receipts.take(0) =~= Seq::empty());
    if shard.transactions == seq![tx] {
        assert(shard.transactions[0] == tx);
    }
    if shard.receipts == seq![r] {
        assert(shard.receipts[0] == r);
    }
}

/// A transaction that was sent before can be sent. Another one from no source block can if it
/// changes no other nonce, and its own is in memory and stored. One from a source block can if it
/// is queued and everything that it may change is in memory, stored and waits for it.
pub proof fn txs_can_be_sent(b: Batch, tx: MappedTxView, r: TxRef)
    ensures
        ({
            let t = b.world.tracker;
            let db = b.world.db;
            let key = tx.target_tx.transaction.nonce_key();
            let keys = tx.nonce_updates;
            let sent = t.sent_txs.contains_key(tx.target_tx.hash);
            let known = db.nonces.contains_key(key) && t.nonces.contains_key(key);
            let updater = NonceUpdater::TxRef(r);
            let pending = forall|k: NonceKey| #[trigger]
                keys.contains(k) ==> {
                    &&& db.nonces.contains_key(k)
                    &&& t.nonces.contains_key(k)
                    &&& t.nonces[k].target_nonce.pending_outcomes.contains(updater)
                };
            let listed = if t.updater_to_keys.contains_key(updater) {
                t.updater_to_keys[updater] == keys
            } else {
                keys == Set::<NonceKey>::empty()
            };
            &&& sent ==> b.can_send(None, tx) && b.can_send(Some(r), tx)
            &&& !sent ==> (b.can_send(None, tx) <==> known && forall|k: NonceKey|
                !(#[trigger] keys.contains(k)))
            &&& !sent && nothing_waits(t.nonces, keys) ==> (b.can_send(Some(r), tx) <==> known
                && listed && pending && t.nonces[key].queued_txs.contains(r))
        }),
{
    let t = b.world.tracker;
    let keys = tx.nonce_updates;
    if nothing_waits(t.nonces, keys) {
        lemma_nothing_waits(t.nonces, keys);
    }
    if forall|k: NonceKey| !(#[trigger] keys.contains(k)) {
        assert(keys =~= Set::empty());
    }
}

/// A transaction from no source block can be skipped. One from a source block can if it is queued,
/// and what it may change is what it is listed with, where it is listed.
pub proof fn txs_can_be_skipped(b: Batch, r: TxRef, key: NonceKey, keys: Set<NonceKey>)
    ensures
        ({
            let t = b.world.tracker;
            let updater = NonceUpdater::TxRef(r);
            let queued = t.nonces.contains_key(key) && t.nonces[key].queued_txs.contains(r);
            &&& b.can_skip(None, key, keys)
            &&& !t.updater_to_keys.contains_key(updater) ==> (b.can_skip(Some(r), key, keys)
                <==> queued)
            &&& t.updater_to_keys.contains_key(updater) && nothing_waits(t.nonces, keys) ==> (
            b.can_skip(Some(r), key, keys) <==> queued && t.updater_to_keys[updater] == keys)
        }),
{
    if nothing_waits(b.world.tracker.nonces, keys) {
        lemma_nothing_waits(b.world.tracker.nonces, keys);
    }
}

/// A transaction can be accounted for if it can be sent, where it was, and else if it can be
/// skipped.
pub proof fn txs_can_be_accounted_for(b: Batch, item: SentItemView)
    ensures
        match item.1 {
            TxView::Ready(tx) => {
                &&& tx.sent_successfully ==> (b.can_account(item) <==> b.can_send(item.0, tx))
                &&& !tx.sent_successfully ==> (b.can_account(item) <==> b.can_skip(
                    item.0,
                    tx.target_tx.transaction.nonce_key(),
                    tx.nonce_updates,
                ))
            },
            TxView::AwaitingNonce(tx) => b.can_account(item) <==> b.can_skip(
                item.0,
                tx.target_tx.nonce_key(),
                tx.nonce_updates,
            ),
        },
{
}

/// One more transaction can be accounted for after others if those can, and then it can.
pub proof fn more_txs_can_be_accounted_for(
    b: Batch,
    items: Seq<SentItemView>,
    item: SentItemView,
    target_height: BlockHeight,
    now: u64,
)
    ensures
        b.can_account_all(Seq::empty(), target_height, now),
        b.can_account_all(items.push(item), target_height, now) <==> b.can_account_all(
            items,
            target_height,
            now,
        ) && b.all_accounted(items, items.len() as int, target_height, now).can_account(item),
{
    let all = items.push(item);
    assert forall|i: int| 0 <= i <= items.len() implies #[trigger] b.all_accounted(
        all,
        i,
        target_height,
        now,
    ) == b.all_accounted(items, i, target_height, now) by {
        lemma_same_prefix(b, items, item, i, target_height, now);
    }
    if b.can_account_all(all, target_height, now) {
        assert(b.all_accounted(all, items.len() as int, target_height, now).can_account(
            all[items.len() as int],
        ));
        assert forall|i: int| 0 <= i < items.len() implies #[trigger] b.all_accounted(
            items,
            i,
            target_height,
            now,
        ).can_account(items[i]) by {
            assert(b.all_accounted(all, i, target_height, now).can_account(all[i]));
        }
    }
}

proof fn lemma_same_prefix(
    b: Batch,
    items: Seq<SentItemView>,
    item: SentItemView,
    n: int,
    target_height: BlockHeight,
    now: u64,
)
    requires
        0 <= n <= items.len(),
    ensures
        b.all_accounted(items.push(item), n, target_height, now) == b.all_accounted(
            items,
            n,
            target_height,
            now,
        ),
    decreases n,
{
    if n > 0 {
        lemma_same_prefix(b, items, item, n - 1, target_height, now);
    }
}

/// A batch is opened whenever nothing of it goes back into the queue. Else the queue has to be in
/// order, and without a block of its height.
pub proof fn batches_can_be_opened(t: TrackerView, q: QueueView, b: TxBatchView, txs: Seq<TxView>)
    ensures
        t.can_open(q, SentView::ExtraTxs(txs)),
        ({
            let height = b.source_height;
            let tried_enough = t.requeue_attempts.contains_key(height)
                && t.requeue_attempts[height] >= 5;
            let free = heights_ascend(q) && forall|i: int|
                0 <= i < q.len() ==> (#[trigger] q[i]).source_height != height;
            t.can_open(q, SentView::MappedBlock(b)) <==> waiting(b.txs).len() == 0 || tried_enough
                || free
        }),
{
}

/// Delays fit if a time is set. Else the least delay has to leave room, and the timestamps, if they
/// are enough to go by, have to be in order.
pub proof fn delays_fit_unless_too_long(t: TrackerView)
    ensures
        t.tx_batch_interval is Some ==> t.delays_fit(),
        t.tx_batch_interval is None ==> (t.delays_fit() <==> t.min_block_production_delay
            + 100_000_000 <= 18446744073709551615999999999 && (t.recent_block_timestamps.len() >= 5
            ==> forall|i: int, j: int|
            0 <= i <= j < t.recent_block_timestamps.len() ==> t.recent_block_timestamps[i]
                <= t.recent_block_timestamps[j])),
{
    assert(in_order(t.recent_block_timestamps) <==> forall|i: int, j: int|
        0 <= i <= j < t.recent_block_timestamps.len() ==> t.recent_block_timestamps[i]
            <= t.recent_block_timestamps[j]);
}

/// A batch of no transactions can be finished if the delays fit.
pub proof fn empty_batches_can_be_finished(
    w: World,
    b: TxBatchView,
    target_height: BlockHeight,
    now: u64,
)
    requires
        b.txs.len() == 0,
    ensures
        w.can_finish_batch(SentView::MappedBlock(b), target_height, now)
            <==> w.tracker.delays_fit(),
        w.can_finish_batch(SentView::ExtraTxs(Seq::empty()), target_height, now)
            <==> w.tracker.delays_fit(),
{
    assert(w.tracker.opened(w.queue, SentView::MappedBlock(b)).items.len() == 0);
    assert(w.tracker.opened(w.queue, SentView::ExtraTxs(Seq::empty())).items.len() == 0);
}

/// A transaction can have its turn unless it waits for the nonce after the highest. Others can have
/// theirs before it.
pub proof fn turns_fit_unless_nonces_run_out(
    nonces: Map<NonceKey, InfoView>,
    items: Seq<Item>,
    item: Item,
    tx: TxView,
)
    ensures
        !turn_fits(nonces, tx) <==> tx is AwaitingNonce && nonces.contains_key(tx.nonce_key())
            && nonces[tx.nonce_key()].target_nonce.nonce == Some(u64::MAX),
        turns_fit(nonces, Seq::empty()),
        turns_fit(nonces, items.push(item)) <==> turns_fit(nonces, items) && turn_fits(
            after_turns(nonces, items),
            item.1,
        ),
{
    let all = items.push(item);
    assert(all.take(items.len() as int) =~= items);
    assert forall|n: int| 0 <= n < items.len() implies all.take(n) == #[trigger] items.take(
        n,
    ) by {
        assert(all.take(n) =~= items.take(n));
    }
    if turns_fit(nonces, all) {
        assert(turn_fits(
            after_turns(nonces, all.take(items.len() as int)),
            all[items.len() as int].1,
        ));
        assert forall|n: int| 0 <= n < items.len() implies turn_fits(
            after_turns(nonces, #[trigger] items.take(n)),
            items[n].1,
        ) by {
            assert(turn_fits(after_turns(nonces, all.take(n)), all[n].1));
        }
    }
    if turns_fit(nonces, items) && turn_fits(after_turns(nonces, items), item.1) {
        assert forall|n: int| 0 <= n < all.len() implies turn_fits(
            after_turns(nonces, #[trigger] all.take(n)),
            all[n].1,
        ) by {
            if n < items.len() {
                assert(turn_fits(after_turns(nonces, items.take(n)), items[n].1));
            }
        }
    }
}

proof fn lemma_some_key(keys: Set<NonceKey>) -> (k: NonceKey)
    requires
        keys != Set::<NonceKey>::empty(),
    ensures
        keys.contains(k),
{
    if forall|k: NonceKey| !(#[trigger] keys.contains(k)) {
        assert(keys =~= Set::empty());
    }
    choose|k: NonceKey| keys.contains(k)
}

proof fn lemma_after_queueing(t: TrackerView, db: DbView, items: Seq<Item>, height: BlockHeight)
    ensures
        ({
            let after = t.all_queued(db, items, height);
            &&& forall|k: NonceKey|
                t.nonces.contains_key(k) ==> #[trigger] after.nonces.contains_key(k)
            &&& forall|u: NonceUpdater| #[trigger]
                after.updater_to_keys.contains_key(u) ==> t.updater_to_keys.contains_key(u)
                    || exists|i: int|
                    0 <= i < items.len() && u == NonceUpdater::TxRef((#[trigger] items[i]).0)
                        && items[i].1.nonce_updates() != Set::<NonceKey>::empty()
            &&& forall|u: NonceUpdater|
                t.updater_to_keys.contains_key(u)
                    ==> #[trigger] after.updater_to_keys.contains_key(u)
        }),
    decreases items.len(),
{
    if items.len() > 0 {
        let rest = items.drop_last();
        let last: int = items.len() - 1;
        lemma_after_queueing(t, db, rest, height);
        let before = t.all_queued(db, rest, height);
        let after = t.all_queued(db, items, height);
        assert forall|u: NonceUpdater| #[trigger]
            after.updater_to_keys.contains_key(u) implies t.updater_to_keys.contains_key(u)
            || exists|i: int|
            0 <= i < items.len() && u == NonceUpdater::TxRef((#[trigger] items[i]).0)
                && items[i].1.nonce_updates() != Set::<NonceKey>::empty() by {
            if before.updater_to_keys.contains_key(u) {
                if !t.updater_to_keys.contains_key(u) {
                    let i = choose|i: int|
                        0 <= i < rest.len() && u == NonceUpdater::TxRef((#[trigger] rest[i]).0)
                            && rest[i].1.nonce_updates() != Set::<NonceKey>::empty();
                    assert(items[i] == rest[i]);
                }
            } else {
                assert(u == NonceUpdater::TxRef(items[last].0));
            }
        }
    }
}

/// A block is queued if a height comes next, the nonces that its transactions use are in memory,
/// there are records of those that they may change, and none of them that may change any was queued
/// before. So is one with no transactions.
pub proof fn blocks_of_known_nonces_are_queued(t: TrackerView, db: DbView, block: BlockView)
    requires
        t.next_heights.len() > 0,
        ({
            let items = block_items(block);
            &&& forall|n: int|
                0 <= n < items.len() ==> t.nonces.contains_key((#[trigger] items[n]).1.nonce_key())
            &&& forall|n: int, k: NonceKey|
                #![trigger items[n].1.nonce_updates().contains(k)]
                0 <= n < items.len() && items[n].1.nonce_updates().contains(k) ==> {
                    &&& t.nonces.contains_key(k) || db.nonces.contains_key(k)
                    &&& !t.updater_to_keys.contains_key(NonceUpdater::TxRef(items[n].0))
                }
            &&& forall|m: int, n: int, k: NonceKey, l: NonceKey|
                #![trigger items[m].1.nonce_updates().contains(k), items[n].1.nonce_updates().contains(l)]
                0 <= m < n < items.len() && items[m].1.nonce_updates().contains(k)
                    && items[n].1.nonce_updates().contains(l) ==> items[m].0 != items[n].0
        }),
    ensures
        t.can_queue_block(db, block),
{
    let items = block_items(block);
    let height = block.source_height;
    let u = t.at_height(height);
    assert forall|n: int| 0 <= n < items.len() implies u.all_queued(
        db,
        #[trigger] items.take(n),
        height,
    ).can_queue(db, items[n]) by {
        let first = items.take(n);
        lemma_after_queueing(u, db, first, height);
        let now = u.all_queued(db, first, height);
        let updater = NonceUpdater::TxRef(items[n].0);
        assert(now.nonces.contains_key(items[n].1.nonce_key()));
        let updates = items[n].1.nonce_updates();
        if updates != Set::<NonceKey>::empty() && now.updater_to_keys.contains_key(updater) {
            let l = lemma_some_key(updates);
            assert(items[n].1.nonce_updates().contains(l));
            let i = choose|i: int|
                0 <= i < first.len() && updater == NonceUpdater::TxRef((#[trigger] first[i]).0)
                    && first[i].1.nonce_updates() != Set::<NonceKey>::empty();
            assert(items[i] == first[i]);
            let k = lemma_some_key(items[i].1.nonce_updates());
            assert(items[i].1.nonce_updates().contains(k));
            assert(items[i].0 != items[n].0);
        }
        assert forall|k: NonceKey| #[trigger]
            items[n].1.nonce_updates().contains(k) implies now.counted(items[n]).knows(db, k) by {
            assert(t.nonces.contains_key(k) || db.nonces.contains_key(k));
            assert(t.nonces.contains_key(k) ==> now.nonces.contains_key(k));
        }
    }
}

/// No block is queued if no height comes next, nor if one of its transactions may change nonces
/// and was queued before.
pub proof fn blocks_are_queued_once(t: TrackerView, db: DbView, block: BlockView, n: int)
    requires
        t.can_queue_block(db, block),
        0 <= n < block_items(block).len(),
        exists|k: NonceKey| #[trigger] block_items(block)[n].1.nonce_updates().contains(k),
    ensures
        t.next_heights.len() > 0,
        !t.updater_to_keys.contains_key(NonceUpdater::TxRef(block_items(block)[n].0)),
{
    let items = block_items(block);
    let height = block.source_height;
    let u = t.at_height(height);
    lemma_after_queueing(u, db, items.take(n), height);
    assert(u.all_queued(db, items.take(n), height).can_queue(db, items[n]));
    let k = choose|k: NonceKey| #[trigger] items[n].1.nonce_updates().contains(k);
    assert(items[n].1.nonce_updates() != Set::<NonceKey>::empty());
}

/// The first transaction of a block that is queued uses a nonce in memory, and what it may change
/// is in memory or stored. The block is refused where no height comes next.
pub proof fn blocks_of_unknown_nonces_are_refused(
    t: TrackerView,
    db: DbView,
    block: BlockView,
    k: NonceKey,
)
    ensures
        t.next_heights.len() == 0 ==> !t.can_queue_block(db, block),
        t.can_queue_block(db, block) && block_items(block).len() > 0 ==> {
            let tx = block_items(block)[0].1;
            &&& t.nonces.contains_key(tx.nonce_key())
            &&& tx.nonce_updates().contains(k) ==> t.nonces.contains_key(k)
                || db.nonces.contains_key(k)
        },
{
    let items = block_items(block);
    let height = block.source_height;
    let u = t.at_height(height);
    if t.can_queue_block(db, block) && items.len() > 0 {
        assert(items.take(0) =~= Seq::empty());
        assert(u.all_queued(db, items.take(0), height).can_queue(db, items[0]));
        if items[0].1.nonce_updates().contains(k) {
            assert(u.counted(items[0]).knows(db, k));
        }
    }
}

} // verus!
