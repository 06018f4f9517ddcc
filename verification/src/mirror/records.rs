//! Which records of the database a step needs: with these at hand it does what it would do with
//! all records.

use vstd::prelude::*;

use super::batches::{keys_of, ready, waiting, SentItemView, SentView};
use super::db::DbView;
use super::ids::NonceKey;
use super::queueing::Item;
use super::sending::{batch, Batch};
use super::target::{
    all_ids, ids_of, with_descendants, Progress, ReceiptView, ShardView, TargetTxView, World,
};
use super::tx::TxView;
use crate::keys::{BlockHeight, CryptoHash};

verus! {

/// Two databases have the same records for these keys.
pub open spec fn same_nonces(a: DbView, b: DbView, keys: Set<NonceKey>) -> bool {
    forall|k: NonceKey| #[trigger]
        keys.contains(k) ==> a.nonces.contains_key(k) == b.nonces.contains_key(k) && (
        a.nonces.contains_key(k) ==> a.nonces[k] == b.nonces[k])
}

/// Two databases have the same pending outcomes for these transactions and receipts.
pub open spec fn same_outcomes(a: DbView, b: DbView, ids: Set<CryptoHash>) -> bool {
    forall|id: CryptoHash| #[trigger]
        ids.contains(id) ==> a.outcomes.contains_key(id) == b.outcomes.contains_key(id) && (
        a.outcomes.contains_key(id) ==> a.outcomes[id] == b.outcomes[id])
}

/// The nonces that the pending outcomes may change are among `keys`.
pub open spec fn outcomes_within(db: DbView, ids: Set<CryptoHash>, keys: Set<NonceKey>) -> bool {
    forall|id: CryptoHash| #[trigger]
        ids.contains(id) && db.outcomes.contains_key(id) ==> db.outcomes[id].subset_of(keys)
}

/// Two states of a block that differ at most in records which are not needed.
pub open spec fn alike(
    a: Progress,
    b: Progress,
    ids: Set<CryptoHash>,
    keys: Set<NonceKey>,
) -> bool {
    &&& a == (Progress { world: World { db: a.world.db, ..b.world }, ..b })
    &&& same_nonces(a.world.db, b.world.db, keys)
    &&& same_outcomes(a.world.db, b.world.db, ids)
    &&& outcomes_within(a.world.db, ids, keys)
}

proof fn lemma_tx_alike(
    a: Progress,
    b: Progress,
    tx: TargetTxView,
    ids: Set<CryptoHash>,
    keys: Set<NonceKey>,
)
    requires
        alike(a, b, ids, keys),
        ids.contains(tx.hash),
    ensures
        alike(a.tx_done(tx), b.tx_done(tx), ids, keys),
        a.world.can_include(tx) == b.world.can_include(tx),
{
    if a.world.db.outcomes.contains_key(tx.hash) {
        let updates = a.world.db.outcomes[tx.hash];
        assert(updates.subset_of(keys));
        assert forall|k: NonceKey| updates.contains(k) implies keys.contains(k) by {}
    }
}

proof fn lemma_descendants_alike(
    a: DbView,
    b: DbView,
    children: Seq<CryptoHash>,
    ids: Set<CryptoHash>,
    keys: Set<NonceKey>,
)
    requires
        same_nonces(a, b, keys),
        same_outcomes(a, b, ids),
        outcomes_within(a, ids, keys),
    ensures
        same_nonces(with_descendants(a, children), with_descendants(b, children), keys),
        same_outcomes(with_descendants(a, children), with_descendants(b, children), ids),
        outcomes_within(with_descendants(a, children), ids, keys),
    decreases children.len(),
{
    if children.len() > 0 {
        lemma_descendants_alike(a, b, children.drop_last(), ids, keys);
    }
}

proof fn lemma_receipt_alike(
    a: Progress,
    b: Progress,
    r: ReceiptView,
    ids: Set<CryptoHash>,
    keys: Set<NonceKey>,
)
    requires
        alike(a, b, ids, keys),
        ids.contains(r.id),
    ensures
        alike(a.receipt_done(r), b.receipt_done(r), ids, keys),
        a.can_apply(r) == b.can_apply(r),
{
    let x = a.world.outcome_done(r.id).db;
    let y = b.world.outcome_done(r.id).db;
    if a.world.db.outcomes.contains_key(r.id) {
        lemma_descendants_alike(x, y, r.receipt_ids, ids, keys);
    }
}

proof fn lemma_txs_alike(
    a: Progress,
    b: Progress,
    txs: Seq<TargetTxView>,
    ids: Set<CryptoHash>,
    keys: Set<NonceKey>,
)
    requires
        alike(a, b, ids, keys),
        forall|i: int| 0 <= i < txs.len() ==> ids.contains((#[trigger] txs[i]).hash),
    ensures
        alike(a.txs_done(txs), b.txs_done(txs), ids, keys),
    decreases txs.len(),
{
    if txs.len() > 0 {
        let rest = txs.drop_last();
        assert forall|i: int| 0 <= i < rest.len() implies ids.contains(
            (#[trigger] rest[i]).hash,
        ) by {
            assert(rest[i] == txs[i]);
        }
        lemma_txs_alike(a, b, rest, ids, keys);
        assert(ids.contains(txs[txs.len() - 1].hash));
        lemma_tx_alike(a.txs_done(rest), b.txs_done(rest), txs.last(), ids, keys);
    }
}

proof fn lemma_receipts_alike(
    a: Progress,
    b: Progress,
    receipts: Seq<ReceiptView>,
    ids: Set<CryptoHash>,
    keys: Set<NonceKey>,
)
    requires
        alike(a, b, ids, keys),
        forall|i: int| 0 <= i < receipts.len() ==> ids.contains((#[trigger] receipts[i]).id),
    ensures
        alike(a.receipts_done(receipts), b.receipts_done(receipts), ids, keys),
    decreases receipts.len(),
{
    if receipts.len() > 0 {
        let rest = receipts.drop_last();
        assert forall|i: int| 0 <= i < rest.len() implies ids.contains((#[trigger] rest[i]).id) by {
            assert(rest[i] == receipts[i]);
        }
        lemma_receipts_alike(a, b, rest, ids, keys);
        assert(ids.contains(receipts[receipts.len() - 1].id));
        lemma_receipt_alike(
            a.receipts_done(rest),
            b.receipts_done(rest),
            receipts.last(),
            ids,
            keys,
        );
    }
}

proof fn lemma_shard_alike(
    a: Progress,
    b: Progress,
    shard: ShardView,
    ids: Set<CryptoHash>,
    keys: Set<NonceKey>,
)
    requires
        alike(a, b, ids, keys),
        ids_of(shard).subset_of(ids),
    ensures
        alike(a.shard_done(shard), b.shard_done(shard), ids, keys),
        a.can_do_shard(shard) == b.can_do_shard(shard),
{
    let txs = shard.transactions;
    let receipts = shard.receipts;
    assert forall|i: int| 0 <= i < txs.len() implies ids.contains((#[trigger] txs[i]).hash) by {
        let hashes = txs.map_values(|t: TargetTxView| t.hash);
        assert(hashes[i] == txs[i].hash);
        assert(hashes.to_set().contains(txs[i].hash));
        assert(ids_of(shard).contains(txs[i].hash));
    }
    assert forall|i: int| 0 <= i < receipts.len() implies ids.contains(
        (#[trigger] receipts[i]).id,
    ) by {
        let all = receipts.map_values(|r: ReceiptView| r.id);
        assert(all[i] == receipts[i].id);
        assert(all.to_set().contains(receipts[i].id));
        assert(ids_of(shard).contains(receipts[i].id));
    }
    assert forall|n: int| 0 <= n < txs.len() implies a.txs_done(
        #[trigger] txs.take(n),
    ).world.can_include(txs[n]) == b.txs_done(txs.take(n)).world.can_include(txs[n]) by {
        assert forall|i: int| 0 <= i < n implies ids.contains(
            (#[trigger] txs.take(n)[i]).hash,
        ) by {
            assert(txs.take(n)[i] == txs[i]);
        }
        lemma_txs_alike(a, b, txs.take(n), ids, keys);
        lemma_tx_alike(a.txs_done(txs.take(n)), b.txs_done(txs.take(n)), txs[n], ids, keys);
    }
    lemma_txs_alike(a, b, txs, ids, keys);
    let c = a.txs_done(txs);
    let d = b.txs_done(txs);
    assert forall|n: int| 0 <= n < receipts.len() implies c.receipts_done(
        #[trigger] receipts.take(n),
    ).can_apply(receipts[n]) == d.receipts_done(receipts.take(n)).can_apply(receipts[n]) by {
        assert forall|i: int| 0 <= i < n implies ids.contains(
            (#[trigger] receipts.take(n)[i]).id,
        ) by {
            assert(receipts.take(n)[i] == receipts[i]);
        }
        lemma_receipts_alike(c, d, receipts.take(n), ids, keys);
        lemma_receipt_alike(
            c.receipts_done(receipts.take(n)),
            d.receipts_done(receipts.take(n)),
            receipts[n],
            ids,
            keys,
        );
    }
    lemma_receipts_alike(c, d, receipts, ids, keys);
}

/// To take in a target block, only the pending outcomes of its transactions and receipts are
/// needed, and the records of the nonces that those may change. Two databases that agree on them
/// give the same result, and agree on them afterwards.
pub proof fn target_block_needs_its_records(
    a: Progress,
    b: Progress,
    shards: Seq<ShardView>,
    ids: Set<CryptoHash>,
    keys: Set<NonceKey>,
)
    requires
        alike(a, b, ids, keys),
        all_ids(shards).subset_of(ids),
    ensures
        alike(a.shards_done(shards), b.shards_done(shards), ids, keys),
        a.can_do_shards(shards) == b.can_do_shards(shards),
    decreases shards.len(),
{
    assert forall|n: int| 0 <= n < shards.len() implies {
        &&& alike(
            a.shards_done(#[trigger] shards.take(n)),
            b.shards_done(shards.take(n)),
            ids,
            keys,
        )
        &&& a.shards_done(shards.take(n)).can_do_shard(shards[n]) == b.shards_done(
            shards.take(n),
        ).can_do_shard(shards[n])
    } by {
        lemma_ids_of_part(shards, n);
        assert(all_ids(shards.take(n)).subset_of(ids)) by {
            assert forall|id: CryptoHash| all_ids(shards.take(n)).contains(id) implies ids.contains(
                id,
            ) by {
                assert(all_ids(shards).contains(id));
            }
        }
        assert(ids_of(shards[n]).subset_of(ids)) by {
            assert forall|id: CryptoHash| ids_of(shards[n]).contains(id) implies ids.contains(
                id,
            ) by {
                assert(all_ids(shards).contains(id));
            }
        }
        target_block_needs_its_records(a, b, shards.take(n), ids, keys);
        lemma_shard_alike(
            a.shards_done(shards.take(n)),
            b.shards_done(shards.take(n)),
            shards[n],
            ids,
            keys,
        );
    }
    if shards.len() > 0 {
        let n: int = shards.len() - 1;
        assert(shards.take(n) =~= shards.drop_last());
        lemma_ids_of_part(shards, n);
        assert(ids_of(shards[n]).subset_of(ids)) by {
            assert forall|id: CryptoHash| ids_of(shards[n]).contains(id) implies ids.contains(
                id,
            ) by {
                assert(all_ids(shards).contains(id));
            }
        }
        lemma_shard_alike(
            a.shards_done(shards.take(n)),
            b.shards_done(shards.take(n)),
            shards[n],
            ids,
            keys,
        );
    }
}

proof fn lemma_ids_of_part(shards: Seq<ShardView>, n: int)
    requires
        0 <= n < shards.len(),
    ensures
        all_ids(shards.take(n)).subset_of(all_ids(shards)),
        ids_of(shards[n]).subset_of(all_ids(shards)),
    decreases shards.len(),
{
    let rest = shards.drop_last();
    if n < shards.len() - 1 {
        lemma_ids_of_part(rest, n);
        assert(rest.take(n) =~= shards.take(n));
        assert(rest[n] == shards[n]);
    } else {
        assert(shards.take(n) =~= rest);
    }
}

/// Two states of a batch that differ at most in records which are not needed.
pub open spec fn batches_alike(a: Batch, b: Batch, keys: Set<NonceKey>) -> bool {
    &&& a == (Batch { world: World { db: a.world.db, ..b.world }, ..b })
    &&& same_nonces(a.world.db, b.world.db, keys)
}

proof fn lemma_accounted_alike(
    a: Batch,
    b: Batch,
    item: SentItemView,
    target_height: BlockHeight,
    now: u64,
    keys: Set<NonceKey>,
)
    requires
        batches_alike(a, b, keys),
        keys.contains(item.1.nonce_key()),
        item.1.nonce_updates().subset_of(keys),
    ensures
        a.can_account(item) == b.can_account(item),
        a.can_account(item) ==> batches_alike(
            a.accounted(item, target_height, now),
            b.accounted(item, target_height, now),
            keys,
        ),
{
    let updates = item.1.nonce_updates();
    assert forall|k: NonceKey| updates.contains(k) implies keys.contains(k) by {}
}

proof fn lemma_all_accounted_alike(
    a: Batch,
    b: Batch,
    items: Seq<SentItemView>,
    n: int,
    target_height: BlockHeight,
    now: u64,
    keys: Set<NonceKey>,
)
    requires
        0 <= n <= items.len(),
        batches_alike(a, b, keys),
        forall|i: int|
            0 <= i < items.len() ==> keys.contains((#[trigger] items[i]).1.nonce_key())
                && items[i].1.nonce_updates().subset_of(keys),
        forall|i: int|
            0 <= i < n ==> #[trigger] a.all_accounted(items, i, target_height, now).can_account(
                items[i],
            ),
    ensures
        batches_alike(
            a.all_accounted(items, n, target_height, now),
            b.all_accounted(items, n, target_height, now),
            keys,
        ),
        forall|i: int|
            0 <= i < n ==> #[trigger] b.all_accounted(items, i, target_height, now).can_account(
                items[i],
            ),
    decreases n,
{
    if n > 0 {
        lemma_all_accounted_alike(a, b, items, n - 1, target_height, now, keys);
        let x = a.all_accounted(items, n - 1, target_height, now);
        let y = b.all_accounted(items, n - 1, target_height, now);
        assert(x.can_account(items[n - 1]));
        lemma_accounted_alike(x, y, items[n - 1], target_height, now, keys);
    }
}

proof fn lemma_items_of_batch(w: World, sent: SentView, i: int)
    requires
        0 <= i < w.tracker.opened(w.queue, sent).items.len(),
    ensures
        exists|j: int|
            0 <= j < sent.txs().len() && #[trigger] sent.txs()[j] == w.tracker.opened(
                w.queue,
                sent,
            ).items[i].1,
{
    let items = w.tracker.opened(w.queue, sent).items;
    match sent {
        SentView::MappedBlock(b) => {
            let r = ready(b.txs);
            if i < r.len() {
                let j = lemma_ready_part(b.txs, i);
                assert(sent.txs()[j] == items[i].1);
            } else {
                let j = lemma_waiting_part(b.txs, i - r.len());
                assert(sent.txs()[j] == items[i].1);
            }
        },
        SentView::ExtraTxs(txs) => {
            assert(sent.txs()[i] == items[i].1);
        },
    }
}

proof fn lemma_ready_part(items: Seq<Item>, i: int) -> (j: int)
    requires
        0 <= i < ready(items).len(),
    ensures
        0 <= j < items.len(),
        ready(items)[i] == items[j],
    decreases items.len(),
{
    if i < ready(items.drop_last()).len() {
        lemma_ready_part(items.drop_last(), i)
    } else {
        items.len() - 1
    }
}

proof fn lemma_waiting_part(items: Seq<Item>, i: int) -> (j: int)
    requires
        0 <= i < waiting(items).len(),
    ensures
        0 <= j < items.len(),
        waiting(items)[i] == items[j],
    decreases items.len(),
{
    if i < waiting(items.drop_last()).len() {
        lemma_waiting_part(items.drop_last(), i)
    } else {
        items.len() - 1
    }
}

/// To account for a batch, only the records of the nonces are needed that its transactions use or
/// may change. Two databases that agree on them give the same result, and agree on them afterwards.
pub proof fn batch_needs_its_records(
    a: World,
    b: World,
    sent: SentView,
    target_height: BlockHeight,
    now: u64,
    keys: Set<NonceKey>,
)
    requires
        a.tracker == b.tracker,
        a.queue == b.queue,
        same_nonces(a.db, b.db, keys),
        keys_of(sent.txs()).subset_of(keys),
        a.can_finish_batch(sent, target_height, now),
    ensures
        b.can_finish_batch(sent, target_height, now),
        a.batch_finished(sent, target_height, now).tracker == b.batch_finished(
            sent,
            target_height,
            now,
        ).tracker,
        a.batch_finished(sent, target_height, now).queue == b.batch_finished(
            sent,
            target_height,
            now,
        ).queue,
        same_nonces(
            a.batch_finished(sent, target_height, now).db,
            b.batch_finished(sent, target_height, now).db,
            keys,
        ),
{
    let o = a.tracker.opened(a.queue, sent);
    let x = batch(World { tracker: o.tracker, queue: o.queue, ..a }, Set::empty());
    let y = batch(World { tracker: o.tracker, queue: o.queue, ..b }, Set::empty());
    assert forall|i: int| 0 <= i < o.items.len() implies keys.contains(
        (#[trigger] o.items[i]).1.nonce_key(),
    ) && o.items[i].1.nonce_updates().subset_of(keys) by {
        lemma_items_of_batch(a, sent, i);
        let j = choose|j: int|
            0 <= j < sent.txs().len() && #[trigger] sent.txs()[j] == o.items[i].1;
        lemma_keys_of_one(sent.txs(), j);
        assert forall|k: NonceKey| o.items[i].1.nonce_updates().contains(k) implies keys.contains(
            k,
        ) by {
            assert(keys_of(sent.txs()).contains(k));
        }
    }
    lemma_all_accounted_alike(x, y, o.items, o.items.len() as int, target_height, now, keys);
}

proof fn lemma_keys_of_one(txs: Seq<TxView>, i: int)
    requires
        0 <= i < txs.len(),
    ensures
        keys_of(txs).contains(txs[i].nonce_key()),
        txs[i].nonce_updates().subset_of(keys_of(txs)),
    decreases txs.len(),
{
    if i < txs.len() - 1 {
        lemma_keys_of_one(txs.drop_last(), i);
    }
}

} // verus!
