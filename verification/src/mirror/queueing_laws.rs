//! What giving out nonces, queueing a block and setting nonces do to the tracker.

use vstd::prelude::*;

use super::db::{DbView, LatestView};
use super::ids::{NonceKey, NonceUpdater, TxRef};
use super::laws::{assigned_nonces_are_consecutive, given_before, known_nonce};
use super::nonces::{fresh_info, settled_record, with_fetched_nonces};
use super::queue::{
    heights_ascend, holds, leads_to, lemma_tx_at, lemma_with_block, place_of, ref_of, tx_at,
    with_block, BlockView, QueueView,
};
use super::queueing::{
    after_turns, assignments, block_items, chunk_items, items_before, items_of_chunks,
    lemma_all_queued_keeps, lemma_items_prefix, resolved_block, turn_fits, turns_fit, Item,
};
use super::tracker::{InfoView, TrackerView};
use super::tx::TransactionView;
use crate::keys::{BlockHeight, CryptoHash, Nonce};

verus! {

/// What is taken over from a record is its nonce, and its outcomes as pending ones. Nothing is
/// queued for it or waits for it yet.
pub proof fn records_are_taken_over(
    record: LatestView,
    height: Option<BlockHeight>,
    id: CryptoHash,
    r: TxRef,
)
    ensures
        ({
            let info = fresh_info(record, height);
            &&& info.target_nonce.nonce == record.nonce
            &&& info.target_nonce.pending_outcomes.contains(NonceUpdater::ChainObjectId(id))
                <==> record.pending_outcomes.contains(id)
            &&& !info.target_nonce.pending_outcomes.contains(NonceUpdater::TxRef(r))
            &&& info.last_height == height
            &&& info.txs_awaiting_nonce == Set::<TxRef>::empty()
            &&& info.queued_txs == Set::<TxRef>::empty()
        }),
{
}

/// A nonce that is given out is one above the last one: that in memory, or else that of the record.
/// It is then the last one, the height is not above the last one that refers to it, and nothing
/// else of it changes. Nor does any other nonce.
pub proof fn next_nonce_follows_the_last_one(
    t: TrackerView,
    db: DbView,
    key: NonceKey,
    height: BlockHeight,
    other: NonceKey,
)
    requires
        t.knows(db, key),
        t.info(db, key, Some(height)).target_nonce.can_increment(),
        other != key,
    ensures
        ({
            let after = t.with_info(key, t.next_info(db, key, height));
            let given = t.next_info(db, key, height).target_nonce;
            let last = if t.nonces.contains_key(key) {
                t.nonces[key].target_nonce.nonce
            } else {
                db.nonces[key].nonce
            };
            &&& t.knows(db, key) <==> t.nonces.contains_key(key) || db.nonces.contains_key(key)
            &&& last is None ==> given.nonce is None
            &&& last matches Some(n) ==> given.nonce == Some((n + 1) as u64)
            &&& after.nonces.contains_key(key)
            &&& after.nonces[key].target_nonce == given
            &&& after.nonces[key].last_height is Some
            &&& after.nonces[key].last_height->0 >= height
            &&& t.nonces.contains_key(key) ==> {
                let before = t.nonces[key];
                &&& given.pending_outcomes == before.target_nonce.pending_outcomes
                &&& before.last_height matches Some(l) ==> after.nonces[key].last_height->0 >= l
                &&& after.nonces[key].last_height == Some(height)
                    || after.nonces[key].last_height == before.last_height
                &&& after.nonces[key].queued_txs == before.queued_txs
                &&& after.nonces[key].txs_awaiting_nonce == before.txs_awaiting_nonce
            }
            &&& !t.nonces.contains_key(key) ==> after.nonces[key].last_height == Some(height)
                && after.nonces[key].queued_txs == Set::<TxRef>::empty()
            &&& after.nonces.contains_key(other) == t.nonces.contains_key(other)
            &&& after.nonces[other] == t.nonces[other]
            &&& after == (TrackerView { nonces: after.nonces, ..t })
        }),
{
}

/// A nonce that is inserted where no queued transaction uses the key is unknown if the key is in
/// memory, and then nothing changes; else it is one above that of the record. In any case no other
/// nonce changes.
pub proof fn inserted_nonce_without_queued_txs(
    t: TrackerView,
    q: QueueView,
    db: DbView,
    key: NonceKey,
    other: NonceKey,
)
    requires
        t.can_insert(q, db, key),
        other != key,
    ensures
        t.nonces.contains_key(key) && t.nonces[key].queued_txs == Set::<TxRef>::empty() ==> {
            &&& t.inserted_nonce(q, db, key).nonce is None
            &&& t.after_insert(db, key) == t
        },
        !t.nonces.contains_key(key) ==> {
            let given = t.inserted_nonce(q, db, key);
            &&& db.nonces[key].nonce is None ==> given.nonce is None
            &&& db.nonces[key].nonce matches Some(n) ==> given.nonce == Some((n + 1) as u64)
            &&& t.after_insert(db, key).nonces[key].target_nonce == given
            &&& t.after_insert(db, key).nonces[key].last_height is None
            &&& t.shifted_refs(key) == Set::<TxRef>::empty()
        },
        t.nonces.contains_key(key) ==> t.shifted_refs(key) == t.nonces[key].queued_txs,
        t.after_insert(db, key).nonces.contains_key(other) == t.nonces.contains_key(other),
        t.after_insert(db, key).nonces[other] == t.nonces[other],
        t.after_insert(db, key) == (TrackerView { nonces: t.after_insert(db, key).nonces, ..t }),
{
}

/// After what was fetched is stored, there is a record for the key. Without nonces it says that
/// none is known, and no other record changes.
pub proof fn fetched_nonces_leave_a_record(
    db: DbView,
    key: NonceKey,
    nonces: Option<Seq<Nonce>>,
    other: NonceKey,
)
    requires
        other != key,
    ensures
        with_fetched_nonces(db, key, nonces).nonces.contains_key(key),
        nonces is None ==> {
            let after = with_fetched_nonces(db, key, nonces);
            &&& after.nonces[key].nonce is None
            &&& after.nonces[key].pending_outcomes == Set::<CryptoHash>::empty()
            &&& after.nonces.contains_key(other) == db.nonces.contains_key(other)
            &&& after.nonces[other] == db.nonces[other]
        },
        forall|n: Option<Nonce>| #[trigger]
            settled_record(n).nonce == n && settled_record(n).pending_outcomes
                == Set::<CryptoHash>::empty(),
{
}

/// The transactions of a block are those of its chunks, each under its height, its shard and its
/// place.
pub proof fn block_items_are_the_txs_of_its_chunks(block: BlockView)
    requires
        forall|c: int|
            0 <= c < block.chunks.len() ==> (#[trigger] block.chunks[c]).txs.len() <= usize::MAX,
    ensures
        forall|c: int, i: int|
            #![trigger block.chunks[c].txs[i]]
            0 <= c < block.chunks.len() && 0 <= i < block.chunks[c].txs.len() ==> block_items(
                block,
            ).contains(
                (
                    TxRef {
                        source_height: block.source_height,
                        shard_id: block.chunks[c].shard_id,
                        tx_idx: i as usize,
                    },
                    block.chunks[c].txs[i],
                ),
            ),
        forall|x: Item| #[trigger]
            block_items(block).contains(x) ==> exists|c: int, i: int|
                #![trigger block.chunks[c].txs[i]]
                0 <= c < block.chunks.len() && 0 <= i < block.chunks[c].txs.len() && x.1
                    == block.chunks[c].txs[i] && x.0 == (TxRef {
                    source_height: block.source_height,
                    shard_id: block.chunks[c].shard_id,
                    tx_idx: i as usize,
                }),
{
    assert forall|c: int, i: int|
        #![trigger block.chunks[c].txs[i]]
        0 <= c < block.chunks.len() && 0 <= i < block.chunks[c].txs.len() implies block_items(
        block,
    ).contains(
        (
            TxRef {
                source_height: block.source_height,
                shard_id: block.chunks[c].shard_id,
                tx_idx: i as usize,
            },
            block.chunks[c].txs[i],
        ),
    ) by {
        lemma_items_prefix(block, c, i, block.chunks.len() as int);
        let n = items_before(block, c, i).len() as int;
        assert(block_items(block)[n] == (ref_of(block, c, i), block.chunks[c].txs[i]));
    }
    assert forall|x: Item| #[trigger] block_items(block).contains(x) implies exists|c: int, i: int|
        #![trigger block.chunks[c].txs[i]]
        0 <= c < block.chunks.len() && 0 <= i < block.chunks[c].txs.len() && x.1
            == block.chunks[c].txs[i] && x.0 == (TxRef {
            source_height: block.source_height,
            shard_id: block.chunks[c].shard_id,
            tx_idx: i as usize,
        }) by {
        let n = block_items(block).index_of(x);
        let (c, i) = lemma_item_place(block, block.chunks.len() as int, n);
        assert(x.1 == block.chunks[c].txs[i]);
    }
}

proof fn lemma_item_place(block: BlockView, d: int, n: int) -> (p: (int, int))
    requires
        0 <= d <= block.chunks.len(),
        0 <= n < items_of_chunks(block, d).len(),
    ensures
        0 <= p.0 < d,
        0 <= p.1 < block.chunks[p.0].txs.len(),
        items_of_chunks(block, d)[n] == (ref_of(block, p.0, p.1), block.chunks[p.0].txs[p.1]),
    decreases d,
{
    let before = items_of_chunks(block, d - 1);
    if n < before.len() {
        lemma_item_place(block, d - 1, n)
    } else {
        let last = chunk_items(block, d - 1, block.chunks[d - 1].txs.len() as int);
        assert(items_of_chunks(block, d) == before + last);
        (d - 1, n - before.len())
    }
}

/// Queueing a block whose chunks are all empty leaves the last height with transactions as it was.
/// Queueing one with a transaction makes it that of the block.
pub proof fn empty_blocks_have_no_height_to_wait_for(t: TrackerView, db: DbView, block: BlockView)
    ensures
        (forall|c: int| 0 <= c < block.chunks.len() ==> (#[trigger] block.chunks[c]).txs.len() == 0)
            ==> t.with_block_queued(db, block).nonempty_height_queued == t.nonempty_height_queued,
        forall|c: int|
            0 <= c < block.chunks.len() && (#[trigger] block.chunks[c]).txs.len() > 0
                ==> t.with_block_queued(db, block).nonempty_height_queued == Some(
                block.source_height,
            ),
{
    if forall|c: int| 0 <= c < block.chunks.len() ==> (#[trigger] block.chunks[c]).txs.len() == 0 {
        if block_items(block).len() > 0 {
            let (c, i) = lemma_item_place(block, block.chunks.len() as int, 0);
            assert(block.chunks[c].txs.len() == 0);
        }
    }
    assert forall|c: int|
        0 <= c < block.chunks.len() && (#[trigger] block.chunks[c]).txs.len() > 0 implies
        t.with_block_queued(db, block).nonempty_height_queued == Some(block.source_height) by {
        lemma_items_prefix(block, c, 0, block.chunks.len() as int);
    }
    lemma_all_queued_keeps(
        t.at_height(block.source_height),
        db,
        block_items(block),
        block.source_height,
    );
}

/// A queued block takes the first of the next heights, and is the last one that was queued. Nothing
/// is sent or seen by that.
pub proof fn queued_block_takes_the_next_height(t: TrackerView, db: DbView, block: BlockView)
    requires
        t.can_queue_block(db, block),
    ensures
        ({
            let after = t.with_block_queued(db, block);
            &&& t.next_heights.len() > 0
            &&& after.height_queued == Some(block.source_height)
            &&& after.next_heights.len() == t.next_heights.len() - 1
            &&& forall|i: int|
                0 <= i < after.next_heights.len() ==> #[trigger] after.next_heights[i]
                    == t.next_heights[i + 1]
            &&& after.sent_txs == t.sent_txs
            &&& after.txs_by_signer == t.txs_by_signer
            &&& after.height_popped == t.height_popped
            &&& after.height_seen == t.height_seen
            &&& after.stop_height == t.stop_height
            &&& after.min_block_production_delay == t.min_block_production_delay
            &&& after.tx_batch_interval == t.tx_batch_interval
            &&& after.recent_block_timestamps == t.recent_block_timestamps
            &&& after.requeue_attempts == t.requeue_attempts
        }),
{
    lemma_all_queued_keeps(
        t.at_height(block.source_height),
        db,
        block_items(block),
        block.source_height,
    );
}

/// One of the transactions uses the nonce under the reference.
pub open spec fn uses_under(items: Seq<Item>, k: NonceKey, r: TxRef, waiting: bool) -> bool {
    exists|i: int|
        0 <= i < items.len() && (#[trigger] items[i]).0 == r && items[i].1.nonce_key() == k && (
        waiting ==> items[i].1 is AwaitingNonce)
}

/// One of the transactions, under the reference, may change the nonce.
pub open spec fn changes_under(items: Seq<Item>, k: NonceKey, r: TxRef) -> bool {
    exists|i: int|
        0 <= i < items.len() && (#[trigger] items[i]).0 == r && items[i].1.nonce_updates().contains(
            k,
        )
}

/// One of the transactions may change the nonce.
pub open spec fn changes(items: Seq<Item>, k: NonceKey) -> bool {
    exists|i: int|
        0 <= i < items.len() && (#[trigger] items[i]).1.nonce_updates().contains(k)
}

proof fn lemma_last_of(items: Seq<Item>, k: NonceKey, r: TxRef)
    requires
        items.len() > 0,
    ensures
        ({
            let rest = items.drop_last();
            let x = items.last();
            &&& uses_under(items, k, r, false) <==> uses_under(rest, k, r, false) || x.0 == r
                && x.1.nonce_key() == k
            &&& uses_under(items, k, r, true) <==> uses_under(rest, k, r, true) || x.0 == r
                && x.1.nonce_key() == k && x.1 is AwaitingNonce
            &&& changes_under(items, k, r) <==> changes_under(rest, k, r) || x.0 == r
                && x.1.nonce_updates().contains(k)
            &&& changes(items, k) <==> changes(rest, k) || x.1.nonce_updates().contains(k)
        }),
{
    let rest = items.drop_last();
    let n: int = items.len() - 1;
    assert(items[n] == items.last());
    assert forall|i: int| 0 <= i < n implies #[trigger] items[i] == rest[i] by {}
    assert forall|i: int| 0 <= i < rest.len() implies #[trigger] rest[i] == items[i] by {}
}

/// What queueing transactions does to a nonce. It is in memory if it was before, or if one of them
/// may change it. What is known of it is what was, or else what its record says. Each transaction
/// that uses it is queued for it, and waits for it unless its own nonce is set. Each one that may
/// change it is pending. The height of the block is not above the last one that refers to a nonce
/// that may change. Nothing else changes.
pub proof fn queued_txs_are_taken_down(
    t: TrackerView,
    db: DbView,
    items: Seq<Item>,
    height: BlockHeight,
    k: NonceKey,
    r: TxRef,
)
    requires
        t.can_queue_all(db, items, height),
    ensures
        ({
            let after = t.all_queued(db, items, height);
            let had = t.nonces.contains_key(k);
            &&& after.nonces.contains_key(k) <==> had || changes(items, k)
            &&& uses_under(items, k, r, false) ==> after.nonces.contains_key(k)
            &&& after.nonces.contains_key(k) ==> {
                let info = after.nonces[k];
                &&& info.target_nonce.nonce == if had {
                    t.nonces[k].target_nonce.nonce
                } else {
                    db.nonces[k].nonce
                }
                &&& info.queued_txs.contains(r) <==> had && t.nonces[k].queued_txs.contains(r)
                    || uses_under(items, k, r, false)
                &&& info.txs_awaiting_nonce.contains(r) <==> had
                    && t.nonces[k].txs_awaiting_nonce.contains(r) || uses_under(items, k, r, true)
                &&& info.target_nonce.pending_outcomes.contains(NonceUpdater::TxRef(r)) <==> had
                    && t.nonces[k].target_nonce.pending_outcomes.contains(NonceUpdater::TxRef(r))
                    || changes_under(items, k, r)
                &&& changes(items, k) ==> info.last_height is Some && info.last_height->0 >= height
                &&& had ==> (t.nonces[k].last_height matches Some(l) ==> info.last_height is Some
                    && info.last_height->0 >= l)
                &&& had && !changes(items, k) ==> info.last_height == t.nonces[k].last_height
                &&& had ==> info.last_height == t.nonces[k].last_height || info.last_height == Some(
                    height,
                )
                &&& !had ==> info.last_height == Some(height)
            }
        }),
    decreases items.len(),
{
    if items.len() > 0 {
        let rest = items.drop_last();
        let x = items.last();
        assert forall|n: int| 0 <= n < rest.len() implies t.all_queued(
            db,
            #[trigger] rest.take(n),
            height,
        ).can_queue(db, rest[n]) by {
            assert(items.take(n) =~= rest.take(n));
        }
        queued_txs_are_taken_down(t, db, rest, height, k, r);
        lemma_last_of(items, k, r);
        assert(items.take(items.len() - 1) =~= rest);
        let before = t.all_queued(db, rest, height);
        assert(before.can_queue(db, x));
        assert(uses_under(rest, k, r, true) ==> uses_under(rest, k, r, false));
        assert(changes_under(rest, k, r) ==> changes(rest, k));
    }
}

/// Each updater is listed with the nonces that it may change: as before, or as queued now.
pub proof fn queued_updaters_are_listed(
    t: TrackerView,
    db: DbView,
    items: Seq<Item>,
    height: BlockHeight,
    u: NonceUpdater,
)
    requires
        t.can_queue_all(db, items, height),
    ensures
        ({
            let after = t.all_queued(db, items, height).updater_to_keys;
            &&& t.updater_to_keys.contains_key(u) ==> after.contains_key(u) && after[u]
                == t.updater_to_keys[u]
            &&& after.contains_key(u) && !t.updater_to_keys.contains_key(u) ==> exists|i: int|
                0 <= i < items.len() && u == NonceUpdater::TxRef((#[trigger] items[i]).0)
                    && items[i].1.nonce_updates() == after[u]
        }),
    decreases items.len(),
{
    if items.len() > 0 {
        let rest = items.drop_last();
        let x = items.last();
        let n: int = items.len() - 1;
        assert(items[n] == x);
        assert forall|n: int| 0 <= n < rest.len() implies t.all_queued(
            db,
            #[trigger] rest.take(n),
            height,
        ).can_queue(db, rest[n]) by {
            assert(items.take(n) =~= rest.take(n));
        }
        queued_updaters_are_listed(t, db, rest, height, u);
        assert(items.take(items.len() - 1) =~= rest);
        let before = t.all_queued(db, rest, height);
        let after = t.all_queued(db, items, height).updater_to_keys;
        assert(before.can_queue(db, x));
        if after.contains_key(u) && !t.updater_to_keys.contains_key(u) {
            if before.updater_to_keys.contains_key(u) {
                let i = choose|i: int|
                    0 <= i < rest.len() && u == NonceUpdater::TxRef((#[trigger] rest[i]).0)
                        && rest[i].1.nonce_updates() == before.updater_to_keys[u];
                assert(items[i] == rest[i]);
            }
        }
    }
}

/// A reference finds the transaction at its place in the first chunk of its shard in the block of
/// its height.
pub proof fn references_find_their_tx(q: QueueView, b: int, c: int, i: int)
    requires
        heights_ascend(q),
        0 <= b < q.len(),
        0 <= c < q[b].chunks.len(),
        0 <= i < q[b].chunks[c].txs.len(),
        i <= usize::MAX,
        forall|d: int|
            0 <= d < c ==> (#[trigger] q[b].chunks[d]).shard_id != q[b].chunks[c].shard_id,
    ensures
        ({
            let r = TxRef {
                source_height: q[b].source_height,
                shard_id: q[b].chunks[c].shard_id,
                tx_idx: i as usize,
            };
            holds(q, r) && tx_at(q, r) == q[b].chunks[c].txs[i]
        }),
{
    let r = TxRef {
        source_height: q[b].source_height,
        shard_id: q[b].chunks[c].shard_id,
        tx_idx: i as usize,
    };
    assert(leads_to(q, r, b, c));
    lemma_tx_at(q, r, b, c);
}

/// A block that is put in its place stands behind all lower ones and before all higher ones, and
/// all others stay.
pub proof fn blocks_are_put_in_their_place(q: QueueView, block: BlockView, at: int)
    requires
        heights_ascend(q),
        0 <= at <= q.len(),
        forall|j: int| 0 <= j < at ==> (#[trigger] q[j]).source_height < block.source_height,
        forall|j: int| at <= j < q.len() ==> block.source_height < (#[trigger] q[j]).source_height,
    ensures
        ({
            let after = with_block(q, block);
            &&& after.len() == q.len() + 1
            &&& after[at] == block
            &&& forall|j: int| 0 <= j < at ==> #[trigger] after[j] == q[j]
            &&& forall|j: int| at < j < after.len() ==> #[trigger] after[j] == q[j - 1]
        }),
{
    assert(place_of(q, block.source_height, at));
    lemma_with_block(q, block, at);
}

/// Setting the nonces of a block touches those of its transactions alone. One whose nonce is set
/// stays as it is, and so does one whose nonce is not known. Any other one gets a nonce above the
/// known one, and is the same transaction with it.
pub proof fn waiting_txs_of_known_nonces_become_ready(
    nonces: Map<NonceKey, InfoView>,
    block: BlockView,
    c: int,
    i: int,
)
    requires
        turns_fit(nonces, block_items(block)),
        0 <= c < block.chunks.len(),
        0 <= i < block.chunks[c].txs.len(),
    ensures
        ({
            let after = resolved_block(nonces, block);
            let tx = block.chunks[c].txs[i];
            let new = after.chunks[c].txs[i];
            let known = known_nonce(nonces, tx.nonce_key());
            &&& after.source_height == block.source_height
            &&& after.source_hash == block.source_hash
            &&& after.chunks.len() == block.chunks.len()
            &&& after.chunks[c].shard_id == block.chunks[c].shard_id
            &&& after.chunks[c].txs.len() == block.chunks[c].txs.len()
            &&& tx is Ready || known is None ==> new == tx
            &&& tx is AwaitingNonce && known is Some ==> {
                &&& new is Ready
                &&& new->Ready_0.target_tx.transaction.nonce > known->0
                &&& new->Ready_0.target_tx.transaction == (TransactionView {
                    nonce: new->Ready_0.target_tx.transaction.nonce,
                    ..tx->AwaitingNonce_0.target_tx
                })
                &&& new.nonce_updates() == tx.nonce_updates()
                &&& new.nonce_key() == tx.nonce_key()
            }
        }),
{
    let before = items_before(block, c, i);
    let all = block_items(block);
    let tx = block.chunks[c].txs[i];
    lemma_items_prefix(block, c, i, block.chunks.len() as int);
    let n = before.len() as int;
    assert(all.take(n) == before);
    assert forall|m: int| 0 <= m < before.len() implies turn_fits(
        after_turns(nonces, #[trigger] before.take(m)),
        before[m].1,
    ) by {
        assert(before.take(m) =~= all.take(m));
        assert(before[m] == all[m]);
    }
    assert(turn_fits(after_turns(nonces, all.take(n)), all[n].1));
    let key = tx.nonce_key();
    assigned_nonces_are_consecutive(nonces, before);
    lemma_known_later(nonces, before, key);
    if known_nonce(nonces, key) is Some {
        lemma_given_is_some(assignments(nonces, before), key, assignments(nonces, before).len() as int);
    }
}

proof fn lemma_given_is_some(
    a: Seq<(TxRef, NonceKey, Nonce)>,
    key: NonceKey,
    n: int,
)
    ensures
        given_before(a, key, n) >= 0,
    decreases n,
{
    if n > 0 {
        lemma_given_is_some(a, key, n - 1);
    }
}

proof fn lemma_known_later(nonces: Map<NonceKey, InfoView>, items: Seq<Item>, key: NonceKey)
    ensures
        after_turns(nonces, items).dom() == nonces.dom(),
        known_nonce(nonces, key) is None ==> known_nonce(after_turns(nonces, items), key) is None,
    decreases items.len(),
{
    if items.len() > 0 {
        lemma_known_later(nonces, items.drop_last(), key);
        assert(after_turns(nonces, items).dom() =~= nonces.dom());
    }
}

/// When a block is sent, transactions that get their nonces no longer wait. Nothing else of a nonce
/// changes but the last one that was given out, and no nonce comes or goes.
pub proof fn nonces_that_are_set_are_given_out(
    nonces: Map<NonceKey, InfoView>,
    items: Seq<Item>,
    k: NonceKey,
    r: TxRef,
)
    requires
        nonces.contains_key(k),
    ensures
        ({
            let after = after_turns(nonces, items);
            &&& after.dom() == nonces.dom()
            &&& after[k].last_height == nonces[k].last_height
            &&& after[k].queued_txs == nonces[k].queued_txs
            &&& after[k].target_nonce.pending_outcomes == nonces[k].target_nonce.pending_outcomes
            &&& after[k].txs_awaiting_nonce.contains(r) <==> nonces[k].txs_awaiting_nonce.contains(r)
                && !(known_nonce(nonces, k) is Some && uses_under(items, k, r, true))
        }),
    decreases items.len(),
{
    lemma_known_later(nonces, items, k);
    if items.len() > 0 {
        let rest = items.drop_last();
        nonces_that_are_set_are_given_out(nonces, rest, k, r);
        lemma_known_later(nonces, rest, k);
        lemma_known_stays(nonces, rest, k);
        lemma_last_of(items, k, r);
    }
}

proof fn lemma_known_stays(nonces: Map<NonceKey, InfoView>, items: Seq<Item>, key: NonceKey)
    ensures
        known_nonce(nonces, key) is Some <==> known_nonce(after_turns(nonces, items), key) is Some,
    decreases items.len(),
{
    if items.len() > 0 {
        lemma_known_stays(nonces, items.drop_last(), key);
    }
}

} // verus!
