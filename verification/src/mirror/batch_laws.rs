//! What a batch does: which of its transactions are accounted for, which go back into the queue,
//! and what is told of it.

use vstd::prelude::*;

use super::batches::{
    keys_of, listed_with, ready, refs_of, sent_count, waiting, was_sent, SentItemView, SentReport,
    SentView, TxBatchView,
};
use super::delay::delays;
use super::ids::{NonceKey, NonceUpdater, TxRef};
use super::laws::lemma_batch_keeps;
use super::queue::{with_block, QueueView};
use super::queueing::Item;
use super::requeueing::{
    deduped, in_shard, keys_to_resolve, lemma_in_shard_len, lemma_renumbered, moved_tx, moves,
    regrouped, renumbered, shards_of, ListingView, MoveView, Retracking,
};
use super::sending::{batch, Batch};
use super::target::World;
use super::tracker::TrackerView;
use super::tx::TxView;
use crate::keys::{BlockHeight, CryptoHash, ShardId};
use crate::ordered::{listing, views};

verus! {

/// The transactions of a batch are split by whether their nonces are set, each part in the order of
/// the batch.
pub proof fn batches_are_split_by_readiness(items: Seq<Item>)
    ensures
        ready(items) == items.filter(|x: Item| x.1 is Ready),
        waiting(items) == items.filter(|x: Item| x.1 is AwaitingNonce),
        ready(items).len() + waiting(items).len() == items.len(),
    decreases items.len(),
{
    reveal(Seq::filter);
    if items.len() > 0 {
        batches_are_split_by_readiness(items.drop_last());
    } else {
        assert(items.filter(|x: Item| x.1 is Ready) =~= Seq::empty());
        assert(items.filter(|x: Item| x.1 is AwaitingNonce) =~= Seq::empty());
    }
}

/// What is to be accounted for of a batch whose transactions all have their nonces: all of them, in
/// order, each under its reference. Nothing goes back. The next batch follows soon only if an
/// earlier one of the height went back.
pub proof fn ready_batches_are_accounted_for(t: TrackerView, q: QueueView, b: TxBatchView)
    requires
        forall|i: int| 0 <= i < b.txs.len() ==> (#[trigger] b.txs[i]).1 is Ready,
    ensures
        ({
            let o = t.opened(q, SentView::MappedBlock(b));
            &&& o.items.len() == b.txs.len()
            &&& forall|i: int|
                0 <= i < b.txs.len() ==> #[trigger] o.items[i] == (Some(b.txs[i].0), b.txs[i].1)
            &&& o.queue == q
            &&& o.nonce_keys.len() == 0
            &&& o.deferred.len() == 0
            &&& o.requeued == 0
            &&& o.given_up == 0
            &&& o.again <==> t.requeue_attempts.contains_key(b.source_height)
            &&& o.tracker.requeue_attempts == t.requeue_attempts
            &&& o.tracker.nonces == t.nonces
            &&& o.tracker.updater_to_keys == t.updater_to_keys
        }),
{
    lemma_all_ready(b.txs);
    assert(b.txs + Seq::<Item>::empty() =~= b.txs);
}

proof fn lemma_all_ready(items: Seq<Item>)
    requires
        forall|i: int| 0 <= i < items.len() ==> (#[trigger] items[i]).1 is Ready,
    ensures
        ready(items) == items,
        waiting(items) == Seq::<Item>::empty(),
    decreases items.len(),
{
    if items.len() > 0 {
        let rest = items.drop_last();
        assert forall|i: int| 0 <= i < rest.len() implies (#[trigger] rest[i]).1 is Ready by {
            assert(items[i].1 is Ready);
        }
        lemma_all_ready(rest);
        assert(items.last() == items[items.len() - 1]);
        assert(rest.push(items.last()) =~= items);
    } else {
        assert(items =~= Seq::empty());
    }
}

/// Transactions that wait go back as long as those of the height did so fewer than five times. Then
/// only the others are accounted for, the next batch follows soon, and this time is counted.
pub proof fn waiting_txs_go_back(t: TrackerView, q: QueueView, b: TxBatchView)
    requires
        waiting(b.txs).len() > 0,
        t.requeue_attempts.contains_key(b.source_height) ==> t.requeue_attempts[b.source_height] < 5,
    ensures
        ({
            let h = b.source_height;
            let o = t.opened(q, SentView::MappedBlock(b));
            let r = ready(b.txs);
            &&& o.requeued == waiting(b.txs).len()
            &&& o.given_up == 0
            &&& o.again
            &&& o.items.len() == r.len()
            &&& forall|i: int|
                0 <= i < r.len() ==> #[trigger] o.items[i] == (Some(r[i].0), r[i].1)
            &&& o.queue == with_block(
                q,
                regrouped(waiting(b.txs), b.source_height, b.source_hash),
            )
            &&& o.nonce_keys == keys_to_resolve(waiting(b.txs))
            &&& o.tracker.requeue_attempts =~= t.requeue_attempts.insert(
                h,
                if t.requeue_attempts.contains_key(h) {
                    (t.requeue_attempts[h] + 1) as usize
                } else {
                    1
                },
            )
        }),
{
    let refs = moves(waiting(b.txs), b.source_height);
    lemma_moves_keep(
        Retracking { tracker: t.popped(b), deferred: Seq::empty() },
        refs,
        refs_of(ready(b.txs)),
        refs.len() as int,
    );
}

proof fn lemma_moves_keep(r: Retracking, refs: Seq<MoveView>, taken: Set<TxRef>, n: int)
    requires
        0 <= n <= refs.len(),
    ensures
        r.all_moved(refs, taken, n).tracker.requeue_attempts == r.tracker.requeue_attempts,
    decreases n,
{
    if n > 0 {
        lemma_moves_keep(r, refs, taken, n - 1);
    }
}

/// Transactions that wait, of a height that went back five times, are given up: they are accounted
/// for behind the others, nothing goes back, and the height is no longer counted.
pub proof fn waiting_txs_are_given_up_after_five_times(
    t: TrackerView,
    q: QueueView,
    b: TxBatchView,
)
    requires
        waiting(b.txs).len() > 0,
        t.requeue_attempts.contains_key(b.source_height),
        t.requeue_attempts[b.source_height] >= 5,
    ensures
        ({
            let o = t.opened(q, SentView::MappedBlock(b));
            let r = ready(b.txs);
            let w = waiting(b.txs);
            &&& o.given_up == w.len()
            &&& o.went_back == t.requeue_attempts[b.source_height]
            &&& o.requeued == 0
            &&& !o.again
            &&& o.queue == q
            &&& o.nonce_keys.len() == 0
            &&& o.deferred.len() == 0
            &&& o.items.len() == r.len() + w.len()
            &&& forall|i: int|
                0 <= i < r.len() ==> #[trigger] o.items[i] == (Some(r[i].0), r[i].1)
            &&& forall|i: int|
                0 <= i < w.len() ==> o.items[r.len() + i] == (
                    Some((#[trigger] w[i]).0),
                    w[i].1,
                )
            &&& o.tracker.requeue_attempts =~= t.requeue_attempts.remove(b.source_height)
        }),
{
}

/// Transactions of no source block are accounted for in order, without references. Nothing goes
/// back, and the tracker is as it was.
pub proof fn extra_txs_are_accounted_for(t: TrackerView, q: QueueView, txs: Seq<TxView>)
    ensures
        ({
            let o = t.opened(q, SentView::ExtraTxs(txs));
            &&& o.tracker == t
            &&& o.queue == q
            &&& o.items.len() == txs.len()
            &&& forall|i: int|
                0 <= i < txs.len() ==> #[trigger] o.items[i] == (None::<TxRef>, txs[i])
            &&& o.requeued == 0
            &&& o.given_up == 0
            &&& !o.again
            &&& o.nonce_keys.len() == 0
            &&& o.deferred.len() == 0
        }),
{
}

/// The height of a batch was sent, and no height that was sent before is forgotten.
pub proof fn sent_height_is_that_of_the_batch(t: TrackerView, b: TxBatchView)
    ensures
        ({
            let after = t.popped(b).height_popped;
            &&& after is Some
            &&& after->0 >= b.source_height
            &&& t.height_popped matches Some(h) ==> after->0 >= h
            &&& after == Some(b.source_height) || after == t.height_popped
        }),
{
}

/// The next batch follows after a tenth of a second where one is to follow soon. Otherwise it does
/// after the time that is set, or else after the second longest of the recent times between blocks,
/// or else, with fewer than five timestamps, a tenth of a second after the least delay.
pub proof fn next_delay_is_short_or_normal(
    report: SentReport,
    t: TrackerView,
    q: QueueView,
    sent: SentView,
)
    requires
        report.tells(t, q, sent),
    ensures
        ({
            let o = t.opened(q, sent);
            let d = delays(t.recent_block_timestamps);
            &&& o.again ==> report.next_delay == 100_000_000
            &&& !o.again ==> (t.tx_batch_interval matches Some(x) ==> report.next_delay == x)
            &&& !o.again && t.tx_batch_interval is None && t.recent_block_timestamps.len() < 5
                ==> report.next_delay == t.min_block_production_delay + 100_000_000
            &&& !o.again && t.tx_batch_interval is None && t.recent_block_timestamps.len() >= 5 ==> {
                &&& d.contains(report.next_delay as int)
                &&& exists|i: int, j: int|
                    0 <= i < d.len() && 0 <= j < d.len() && i != j && #[trigger] d[i]
                        >= report.next_delay && #[trigger] d[j] >= report.next_delay
                &&& forall|i: int, j: int|
                    0 <= i < d.len() && 0 <= j < d.len() && i != j ==> !(#[trigger] d[i]
                        > report.next_delay && #[trigger] d[j] > report.next_delay)
            }
            &&& views(report.nonce_keys@) == o.nonce_keys
            &&& report.requeued == o.requeued
            &&& report.given_up == o.given_up
            &&& report.went_back == o.went_back
        }),
{
    let d = delays(t.recent_block_timestamps);
    if !t.opened(q, sent).again && t.tx_batch_interval is None && t.recent_block_timestamps.len()
        >= 5 {
        let r = report.next_delay as int;
        let (i, j) = choose|i: int, j: int|
            {
                &&& 0 <= i < d.len()
                &&& 0 <= j < d.len()
                &&& i != j
                &&& #[trigger] d[i] >= r
                &&& #[trigger] d[j] == r
                &&& forall|k: int| 0 <= k < d.len() && k != i ==> #[trigger] d[k] <= r
            };
        assert(d[j] == r);
        assert(d[i] >= report.next_delay && d[j] >= report.next_delay);
    }
}

/// The transactions that count as sent are those whose nonces are set and that could be sent.
pub proof fn sent_txs_are_counted(items: Seq<SentItemView>)
    ensures
        sent_count(items) == items.filter(
            |x: SentItemView| x.1 is Ready && x.1->Ready_0.sent_successfully,
        ).len(),
    decreases items.len(),
{
    reveal(Seq::filter);
    if items.len() > 0 {
        sent_txs_are_counted(items.drop_last());
    }
}

/// The nonces that are worth asking for are those of the transactions that go back. No two
/// neighbours are the same.
pub proof fn nonces_to_ask_for_are_those_of_waiting_txs(items: Seq<Item>, k: NonceKey)
    ensures
        keys_to_resolve(items).contains(k) <==> exists|i: int|
            0 <= i < items.len() && (#[trigger] items[i]).1.nonce_key() == k,
        forall|i: int|
            0 < i < keys_to_resolve(items).len() ==> keys_to_resolve(items)[i - 1]
                != #[trigger] keys_to_resolve(items)[i],
{
    let all = items.map_values(|x: Item| x.1.nonce_key());
    lemma_deduped(all, k);
    if all.contains(k) {
        let i = all.index_of(k);
        assert(items[i].1.nonce_key() == k);
    }
    if exists|i: int| 0 <= i < items.len() && (#[trigger] items[i]).1.nonce_key() == k {
        let i = choose|i: int| 0 <= i < items.len() && (#[trigger] items[i]).1.nonce_key() == k;
        assert(all[i] == k);
    }
}

proof fn lemma_deduped(keys: Seq<NonceKey>, k: NonceKey)
    ensures
        deduped(keys).contains(k) <==> keys.contains(k),
        keys.len() > 0 ==> deduped(keys).len() > 0 && deduped(keys).last() == keys.last(),
        forall|i: int|
            0 < i < deduped(keys).len() ==> deduped(keys)[i - 1] != #[trigger] deduped(keys)[i],
    decreases keys.len(),
{
    if keys.len() > 0 {
        let rest = keys.drop_last();
        lemma_deduped(rest, k);
        let d = deduped(keys);
        let e = deduped(rest);
        assert(keys[keys.len() - 1] == keys.last());
        if keys.contains(k) && k != keys.last() {
            let i = keys.index_of(k);
            assert(rest[i] == k);
        }
        if rest.contains(k) {
            let i = rest.index_of(k);
            assert(keys[i] == k);
        }
        if e.contains(k) {
            let i = e.index_of(k);
            assert(d[i] == k);
        }
        assert(d[d.len() - 1] == keys.last());
        if d.contains(k) {
            let i = d.index_of(k);
            if i < e.len() {
                assert(e[i] == k);
            }
        }
    }
}

/// The nonces that a batch needs are those that its transactions use or may change, and no others.
pub proof fn batches_name_the_nonces_of_their_txs(txs: Seq<TxView>, k: NonceKey)
    ensures
        keys_of(txs).contains(k) <==> exists|i: int|
            0 <= i < txs.len() && ((#[trigger] txs[i]).nonce_key() == k
                || txs[i].nonce_updates().contains(k)),
    decreases txs.len(),
{
    if txs.len() > 0 {
        let rest = txs.drop_last();
        batches_name_the_nonces_of_their_txs(rest, k);
        assert(txs[txs.len() - 1] == txs.last());
        assert forall|i: int| 0 <= i < rest.len() implies #[trigger] rest[i] == txs[i] by {}
        assert forall|i: int| 0 <= i < rest.len() implies #[trigger] txs[i] == rest[i] by {}
    }
}

/// A transaction that goes back and waited for itself waits for itself at its new place. It is the
/// same in all else.
pub proof fn moved_txs_wait_for_the_same(tx: TxView, old: TxRef, new: TxRef, u: NonceUpdater)
    ensures
        ({
            let after = moved_tx(tx, old, new);
            &&& tx is Ready ==> after == tx
            &&& !tx.awaits(NonceUpdater::TxRef(old)) ==> after == tx
            &&& tx.awaits(NonceUpdater::TxRef(old)) ==> {
                &&& after.awaits(NonceUpdater::TxRef(new))
                &&& old != new ==> !after.awaits(NonceUpdater::TxRef(old))
            }
            &&& u != NonceUpdater::TxRef(old) && u != NonceUpdater::TxRef(new) ==> after.awaits(u)
                == tx.awaits(u)
            &&& after.target_nonce().nonce == tx.target_nonce().nonce
            &&& after.nonce_key() == tx.nonce_key()
            &&& after.nonce_updates() == tx.nonce_updates()
            &&& after.target_tx() == tx.target_tx()
        }),
{
}

/// Each transaction goes back to a place of the same shard and of the height of the batch. In each
/// shard the places are counted from zero.
pub proof fn new_places_are_counted_by_shard(items: Seq<Item>, height: BlockHeight, i: int)
    requires
        0 <= i < items.len() <= usize::MAX,
    ensures
        ({
            let new = renumbered(items, height)[i].0;
            &&& new.source_height == height
            &&& new.shard_id == items[i].0.shard_id
            &&& new.tx_idx == items.take(i).filter(
                |x: Item| x.0.shard_id == items[i].0.shard_id,
            ).len()
        }),
{
    lemma_renumbered(items, height);
    lemma_new_place(items, height, i);
}

proof fn lemma_new_place(items: Seq<Item>, height: BlockHeight, i: int)
    requires
        0 <= i < items.len() <= usize::MAX,
    ensures
        renumbered(items, height)[i].0.tx_idx == items.take(i).filter(
            |x: Item| x.0.shard_id == items[i].0.shard_id,
        ).len(),
    decreases items.len(),
{
    let rest = items.drop_last();
    lemma_renumbered(rest, height);
    lemma_renumbered(items, height);
    let shard = items[i].0.shard_id;
    if i < rest.len() {
        lemma_new_place(rest, height, i);
        assert(rest.take(i) =~= items.take(i));
        assert(rest[i] == items[i]);
        assert(renumbered(items, height)[i] == renumbered(rest, height)[i]);
    } else {
        assert(items.take(i) =~= rest);
        lemma_shard_count(rest, height, shard);
        lemma_in_shard_len(renumbered(rest, height), shard);
    }
}

proof fn lemma_shard_count(items: Seq<Item>, height: BlockHeight, shard: ShardId)
    ensures
        in_shard(renumbered(items, height), shard).len() == items.filter(
            |x: Item| x.0.shard_id == shard,
        ).len(),
    decreases items.len(),
{
    reveal(Seq::filter);
    if items.len() > 0 {
        lemma_shard_count(items.drop_last(), height, shard);
        lemma_renumbered(items, height);
        assert(renumbered(items, height).drop_last() =~= renumbered(items.drop_last(), height));
    }
}

/// The block that goes back holds the transactions that go back, and no others: each chunk is of a
/// shard of its own and not empty, and each of its transactions is one of them.
pub proof fn block_that_goes_back_holds_nothing_else(
    items: Seq<Item>,
    height: BlockHeight,
    hash: CryptoHash,
    c: int,
    i: int,
)
    requires
        0 <= c < regrouped(items, height, hash).chunks.len(),
        0 <= i < regrouped(items, height, hash).chunks[c].txs.len(),
    ensures
        ({
            let block = regrouped(items, height, hash);
            let moved = renumbered(items, height);
            &&& block.source_height == height
            &&& block.source_hash == hash
            &&& exists|j: int|
                0 <= j < moved.len() && (#[trigger] moved[j]).1 == block.chunks[c].txs[i]
                    && moved[j].0.shard_id == block.chunks[c].shard_id
        }),
{
    let moved = renumbered(items, height);
    let list = listing::<ShardId>(shards_of(moved));
    let j = lemma_in_shard_from(moved, list[c], i);
    assert(moved[j].1 == regrouped(items, height, hash).chunks[c].txs[i]);
}

proof fn lemma_in_shard_from(items: Seq<Item>, shard: ShardId, i: int) -> (j: int)
    requires
        0 <= i < in_shard(items, shard).len(),
    ensures
        0 <= j < items.len(),
        items[j].1 == in_shard(items, shard)[i],
        items[j].0.shard_id == shard,
    decreases items.len(),
{
    let rest = items.drop_last();
    if i < in_shard(rest, shard).len() {
        lemma_in_shard_from(rest, shard, i)
    } else {
        items.len() - 1
    }
}

/// What a moved reference changes of the nonces: that of its key refers to the new place in the
/// place of the old one, and where the old one was pending the new one is. What is known of the
/// nonces and their last heights stay as they were.
pub proof fn moved_references_are_followed(
    s: Retracking,
    m: MoveView,
    taken: Set<TxRef>,
    k: NonceKey,
    r: TxRef,
)
    requires
        s.tracker.nonces.contains_key(k),
    ensures
        ({
            let (old, new, key) = m;
            let t = s.tracker;
            let after = s.moved(m, taken).tracker;
            let before = t.nonces[k];
            let a = after.nonces[k];
            let listed = t.updater_to_keys.contains_key(NonceUpdater::TxRef(old));
            let hands_on = listed && t.updater_to_keys[NonceUpdater::TxRef(old)].contains(k)
                && before.target_nonce.pending_outcomes.contains(NonceUpdater::TxRef(old));
            &&& after.nonces.dom() =~= t.nonces.dom()
            &&& a.target_nonce.nonce == before.target_nonce.nonce
            &&& a.last_height == before.last_height
            &&& k != key ==> a.queued_txs == before.queued_txs && a.txs_awaiting_nonce
                == before.txs_awaiting_nonce
            &&& k == key ==> {
                &&& a.queued_txs.contains(r) <==> r == new || r != old && before.queued_txs.contains(
                    r,
                )
                &&& a.txs_awaiting_nonce.contains(r) <==> r == new || r != old
                    && before.txs_awaiting_nonce.contains(r)
            }
            &&& !hands_on ==> a.target_nonce == before.target_nonce
            &&& hands_on ==> forall|u: NonceUpdater| #[trigger]
                a.target_nonce.pending_outcomes.contains(u) <==> u == NonceUpdater::TxRef(new) || u
                    != NonceUpdater::TxRef(old) && before.target_nonce.pending_outcomes.contains(u)
            &&& after == (TrackerView {
                nonces: after.nonces,
                updater_to_keys: after.updater_to_keys,
                ..t
            })
        }),
{
}

/// Where a moved reference is listed. It takes the place of the old one, unless that place is taken:
/// then it is to be listed later. All others are listed as before.
pub proof fn moved_references_stay_listed(
    s: Retracking,
    m: MoveView,
    taken: Set<TxRef>,
    u: NonceUpdater,
)
    ensures
        ({
            let old = NonceUpdater::TxRef(m.0);
            let new = NonceUpdater::TxRef(m.1);
            let before = s.tracker.updater_to_keys;
            let after = s.moved(m, taken);
            let listed = after.tracker.updater_to_keys;
            let busy = taken.contains(m.1) || new != old && before.contains_key(new);
            &&& !before.contains_key(old) ==> listed == before && after.deferred == s.deferred
            &&& before.contains_key(old) && busy ==> {
                &&& listed =~= before.remove(old)
                &&& after.deferred == s.deferred.push((new, before[old]))
            }
            &&& before.contains_key(old) && !busy ==> {
                &&& listed =~= before.remove(old).insert(new, before[old])
                &&& after.deferred == s.deferred
            }
        }),
{
}

/// Listing what was put off changes nothing for any other updater.
pub proof fn listings_of_others_stay(
    updaters: Map<NonceUpdater, Set<NonceKey>>,
    deferred: Seq<ListingView>,
    n: int,
    u: NonceUpdater,
)
    requires
        0 <= n <= deferred.len(),
        forall|d: int| 0 <= d < n ==> (#[trigger] deferred[d]).0 != u,
    ensures
        ({
            let after = listed_with(updaters, deferred, n);
            &&& after.contains_key(u) <==> updaters.contains_key(u)
            &&& updaters.contains_key(u) ==> after[u] == updaters[u]
        }),
    decreases n,
{
    if n > 0 {
        listings_of_others_stay(updaters, deferred, n - 1, u);
    }
}

proof fn lemma_sent_listed(
    b: Batch,
    items: Seq<SentItemView>,
    n: int,
    target_height: BlockHeight,
    now: u64,
    h: CryptoHash,
)
    requires
        0 <= n <= items.len(),
    ensures
        b.all_accounted(items, n, target_height, now).world.tracker.sent_txs.contains_key(h)
            <==> b.world.tracker.sent_txs.contains_key(h) || exists|i: int|
            0 <= i < n && was_sent((#[trigger] items[i]).1)
                && items[i].1->Ready_0.target_tx.hash == h,
        b.world.tracker.sent_txs.contains_key(h) ==> b.all_accounted(
            items,
            n,
            target_height,
            now,
        ).world.tracker.sent_txs[h] == b.world.tracker.sent_txs[h],
    decreases n,
{
    if n > 0 {
        lemma_sent_listed(b, items, n - 1, target_height, now, h);
        assert(was_sent(items[n - 1].1) ==> items[n - 1].1 is Ready);
    }
}

/// After a batch the sent transactions are those from before, as they were, and those of the batch
/// that could be sent.
pub proof fn sent_txs_of_a_batch_are_listed(
    w: World,
    sent: SentView,
    target_height: BlockHeight,
    now: u64,
    h: CryptoHash,
)
    ensures
        ({
            let after = w.batch_finished(sent, target_height, now).tracker.sent_txs;
            let items = w.tracker.opened(w.queue, sent).items;
            &&& after.contains_key(h) <==> w.tracker.sent_txs.contains_key(h) || exists|i: int|
                0 <= i < items.len() && (#[trigger] items[i]).1 is Ready
                    && items[i].1->Ready_0.sent_successfully
                    && items[i].1->Ready_0.target_tx.hash == h
            &&& w.tracker.sent_txs.contains_key(h) ==> after[h] == w.tracker.sent_txs[h]
        }),
{
    let o = w.tracker.opened(w.queue, sent);
    let start = batch(World { tracker: o.tracker, queue: o.queue, ..w }, Set::empty());
    lemma_sent_listed(start, o.items, o.items.len() as int, target_height, now, h);
    if let SentView::MappedBlock(b) = sent {
        let refs = moves(waiting(b.txs), b.source_height);
        lemma_moves_keep_sent(
            Retracking { tracker: w.tracker.popped(b), deferred: Seq::empty() },
            refs,
            refs_of(ready(b.txs)),
            refs.len() as int,
        );
    }
    assert forall|i: int| 0 <= i < o.items.len() implies was_sent((#[trigger] o.items[i]).1) == (
    o.items[i].1 is Ready && o.items[i].1->Ready_0.sent_successfully) by {}
}

proof fn lemma_moves_keep_sent(r: Retracking, refs: Seq<MoveView>, taken: Set<TxRef>, n: int)
    requires
        0 <= n <= refs.len(),
    ensures
        r.all_moved(refs, taken, n).tracker.sent_txs == r.tracker.sent_txs,
    decreases n,
{
    if n > 0 {
        lemma_moves_keep_sent(r, refs, taken, n - 1);
    }
}

/// A batch changes nothing of the heights ahead, of the last queued ones, of what was seen, of where
/// to stop, of the delays that are set and of the timestamps.
pub proof fn batches_leave_the_rest_alone(
    w: World,
    sent: SentView,
    target_height: BlockHeight,
    now: u64,
)
    ensures
        ({
            let a = w.tracker;
            let b = w.batch_finished(sent, target_height, now).tracker;
            &&& b.next_heights == a.next_heights
            &&& b.height_queued == a.height_queued
            &&& b.nonempty_height_queued == a.nonempty_height_queued
            &&& b.height_seen == a.height_seen
            &&& b.stop_height == a.stop_height
            &&& b.min_block_production_delay == a.min_block_production_delay
            &&& b.tx_batch_interval == a.tx_batch_interval
            &&& b.recent_block_timestamps == a.recent_block_timestamps
            &&& sent matches SentView::MappedBlock(x) ==> forall|h: BlockHeight|
                h != x.source_height ==> (#[trigger] b.requeue_attempts.contains_key(h)
                    <==> a.requeue_attempts.contains_key(h))
            &&& sent is ExtraTxs ==> b.requeue_attempts == a.requeue_attempts && b.height_popped
                == a.height_popped
        }),
{
    lemma_batch_keeps(w, sent, target_height, now);
}

/// Transactions are accounted for one after the other: each one that could be sent as sent, and each
/// other one as skipped.
pub proof fn txs_are_accounted_for_in_order(
    b: Batch,
    items: Seq<SentItemView>,
    n: int,
    target_height: BlockHeight,
    now: u64,
)
    requires
        0 <= n < items.len(),
    ensures
        b.all_accounted(items, 0, target_height, now) == b,
        ({
            let before = b.all_accounted(items, n, target_height, now);
            let after = b.all_accounted(items, n + 1, target_height, now);
            let (r, tx) = items[n];
            &&& tx matches TxView::Ready(m) ==> {
                &&& m.sent_successfully ==> after == before.sent(r, m, target_height, now)
                &&& !m.sent_successfully ==> after == before.skipped(
                    r,
                    m.target_tx.transaction.nonce_key(),
                    m.nonce_updates,
                )
            }
            &&& tx matches TxView::AwaitingNonce(m) ==> after == before.skipped(
                r,
                m.target_tx.nonce_key(),
                m.nonce_updates,
            )
        }),
{
}

} // verus!
