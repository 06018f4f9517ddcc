//! What holds of transactions that go back into the queue.

use vstd::prelude::*;

use super::batches::{
    as_sent, listed_with, ready, refs_of, waiting, SentItemView, SentReport, SentView,
    TxBatchView, MAX_REQUEUE_ATTEMPTS,
};
use super::ids::{NonceKey, NonceUpdater, TxRef};
use super::laws::{lemma_batch_keeps, refs_distinct, target_blocks_raise_heights};
use super::queue::{
    edited, first_chunk, heights_ascend, holds, leads_to, lemma_edited, lemma_tx_at,
    lemma_with_block, place_of, tx_at, with_block, BlockView, QueueView,
};
use super::queueing::{block_items, lemma_all_queued_keeps, Item};
use super::requeueing::{
    in_shard, lemma_in_shard_len, lemma_renumbered, moves, regrouped, renumbered, shards_of,
    ListingView, MoveView, Retracking,
};
use super::sending::{batch, Batch};
use super::settling::awaiting_of;
use super::target::{Progress, ShardView, World};
use super::tracker::{InfoView, TrackerView};
use super::tx::{TxEdit, TxView};
use crate::keys::{BlockHeight, CryptoHash, ShardId};
use crate::ordered::{lemma_ascending_distinct, lemma_listing_exists, listing, views};

verus! {

/// The transactions of a block go back into the queue no more than `MAX_REQUEUE_ATTEMPTS` times in
/// a row: each time is counted, and when the count is used up they are given up and the count is
/// dropped. A batch that puts nothing back is not counted, and only where an earlier one of its
/// height was is the next one to follow soon.
pub proof fn requeueing_is_limited(
    w: World,
    b: TxBatchView,
    target_height: BlockHeight,
    now: u64,
)
    ensures
        ({
            let t = w.batch_finished(SentView::MappedBlock(b), target_height, now).tracker;
            let h = b.source_height;
            &&& w.tracker.requeues(b) ==> {
                &&& t.requeue_attempts[h] == w.tracker.attempt(h)
                &&& t.requeue_attempts[h] <= MAX_REQUEUE_ATTEMPTS
                &&& t.attempt(h) == w.tracker.attempt(h) + 1
            }
            &&& waiting(b.txs).len() > 0 && w.tracker.attempt(h) == MAX_REQUEUE_ATTEMPTS + 1
                ==> w.tracker.gives_up(b)
            &&& w.tracker.gives_up(b) ==> !t.requeue_attempts.contains_key(h) && t.attempt(h) == 1
            &&& waiting(b.txs).len() == 0 ==> {
                &&& t.requeue_attempts == w.tracker.requeue_attempts
                &&& w.tracker.opened(w.queue, SentView::MappedBlock(b)).again
                    == w.tracker.requeue_attempts.contains_key(h)
            }
        }),
{
    lemma_batch_keeps(w, SentView::MappedBlock(b), target_height, now);
}

/// The place of a renumbered transaction among those of its shard.
proof fn lemma_place(items: Seq<Item>, height: BlockHeight, i: int)
    requires
        0 <= i < items.len() <= usize::MAX,
    ensures
        ({
            let moved = renumbered(items, height);
            let r = moved[i].0;
            &&& r.tx_idx < in_shard(moved, r.shard_id).len()
            &&& in_shard(moved, r.shard_id)[r.tx_idx as int] == moved[i].1
            &&& forall|j: int| 0 <= j < i ==> (#[trigger] moved[j]).0 != r
        }),
    decreases items.len(),
{
    let rest = items.drop_last();
    let before = renumbered(rest, height);
    let moved = renumbered(items, height);
    lemma_renumbered(items, height);
    lemma_renumbered(rest, height);
    lemma_in_shard_len(before, items.last().0.shard_id);
    assert(moved.drop_last() =~= before);
    if i < rest.len() {
        lemma_place(rest, height, i);
        assert(moved[i] == before[i]);
        assert forall|j: int| 0 <= j < i implies (#[trigger] moved[j]).0 != moved[i].0 by {
            assert(moved[j] == before[j]);
        }
    } else {
        let r = moved[i].0;
        assert forall|j: int| 0 <= j < i implies (#[trigger] moved[j]).0 != r by {
            lemma_place(rest, height, j);
            assert(moved[j] == before[j]);
        }
    }
}

/// No transaction gets lost when those that wait go back into the queue: each is found at its new
/// place, no two have the same place, and each uses and may change the same nonces as before.
pub proof fn requeued_txs_are_held(
    q: QueueView,
    items: Seq<Item>,
    height: BlockHeight,
    hash: CryptoHash,
)
    requires
        items.len() <= usize::MAX,
        heights_ascend(q),
        forall|b: int| 0 <= b < q.len() ==> (#[trigger] q[b]).source_height != height,
    ensures
        ({
            let moved = renumbered(items, height);
            let after = with_block(q, regrouped(items, height, hash));
            &&& moved.len() == items.len()
            &&& refs_distinct(moved)
            &&& heights_ascend(after)
            &&& forall|i: int|
                0 <= i < items.len() ==> {
                    let (r, tx) = #[trigger] moved[i];
                    &&& holds(after, r)
                    &&& tx_at(after, r) == tx
                    &&& tx.nonce_key() == items[i].1.nonce_key()
                    &&& tx.nonce_updates() == items[i].1.nonce_updates()
                    &&& tx is Ready == items[i].1 is Ready
                }
        }),
{
    let moved = renumbered(items, height);
    let block = regrouped(items, height, hash);
    let after = with_block(q, block);
    lemma_renumbered(items, height);
    let at = lemma_some_place(q, height, q.len() as int);
    lemma_with_block(q, block, at);
    assert forall|i: int, j: int| 0 <= i < j < moved.len() implies (#[trigger] moved[i]).0 != (
    #[trigger] moved[j]).0 by {
        lemma_place(items, height, j);
    }
    let shards = shards_of(moved);
    let ids = moved.map_values(|x: Item| x.0.shard_id);
    vstd::seq_lib::seq_to_set_is_finite(ids);
    lemma_listing_exists::<ShardId>(shards);
    let list = listing::<ShardId>(shards);
    lemma_ascending_distinct::<ShardId>(list);
    assert forall|i: int| 0 <= i < items.len() implies {
        let (r, tx) = #[trigger] moved[i];
        &&& holds(after, r)
        &&& tx_at(after, r) == tx
        &&& tx.nonce_key() == items[i].1.nonce_key()
        &&& tx.nonce_updates() == items[i].1.nonce_updates()
        &&& tx is Ready == items[i].1 is Ready
    } by {
        let (r, tx) = moved[i];
        lemma_place(items, height, i);
        assert(ids[i] == r.shard_id);
        assert(shards.contains(r.shard_id));
        assert(list.to_set().contains(r.shard_id));
        let c = list.index_of(r.shard_id);
        assert(list[c] == r.shard_id);
        assert(after[at] == block);
        assert(block.chunks[c].shard_id == r.shard_id);
        assert(first_chunk(block.chunks, c, r.shard_id)) by {
            assert forall|d: int| 0 <= d < c implies (#[trigger] block.chunks[d]).shard_id
                != r.shard_id by {
                assert(block.chunks[d].shard_id == list[d]);
                assert(list[d] != list[c]);
            }
        }
        assert(leads_to(after, r, at, c));
        lemma_tx_at(after, r, at, c);
    }
}

proof fn lemma_some_place(q: QueueView, height: BlockHeight, n: int) -> (at: int)
    requires
        heights_ascend(q),
        0 <= n <= q.len(),
        forall|b: int| 0 <= b < q.len() ==> (#[trigger] q[b]).source_height != height,
        forall|b: int| n <= b < q.len() ==> height < (#[trigger] q[b]).source_height,
    ensures
        place_of(q, height, at),
    decreases n,
{
    if n == 0 {
        0
    } else if q[n - 1].source_height < height {
        assert forall|j: int| 0 <= j < n implies (#[trigger] q[j]).source_height < height by {
            if j < n - 1 {
                assert(q[j].source_height < q[n - 1].source_height);
            }
        }
        n
    } else {
        lemma_some_place(q, height, n - 1)
    }
}

/// The transactions of each shard are in the order of their places.
pub open spec fn in_order_of_places(items: Seq<Item>) -> bool {
    forall|i: int, j: int|
        0 <= i < j < items.len() && (#[trigger] items[i]).0.shard_id == (
        #[trigger] items[j]).0.shard_id ==> items[i].0.tx_idx < items[j].0.tx_idx
}

/// What an updater that waits to be listed again is listed with, after the first `n` moves.
spec fn kept_after(
    start: TrackerView,
    now: Retracking,
    refs: Seq<MoveView>,
    taken: Set<TxRef>,
    n: int,
) -> bool {
    let before = start.updater_to_keys;
    let after = now.tracker.updater_to_keys;
    &&& forall|i: int|
        #![trigger refs[i]]
        n <= i < refs.len() ==> {
            let u = NonceUpdater::TxRef(refs[i].0);
            before.contains_key(u) == after.contains_key(u) && (before.contains_key(u)
                ==> before[u] == after[u])
        }
    &&& forall|i: int|
        #![trigger refs[i]]
        0 <= i < n && before.contains_key(NonceUpdater::TxRef(refs[i].0)) ==> {
            let u = NonceUpdater::TxRef(refs[i].1);
            let keys = before[NonceUpdater::TxRef(refs[i].0)];
            ||| now.deferred.contains((u, keys))
            ||| !taken.contains(refs[i].1) && after.contains_key(u) && after[u] == keys
        }
    &&& forall|d: int|
        0 <= d < now.deferred.len() ==> comes_from(before, refs, n, #[trigger] now.deferred[d])
}

/// The listing is that of one of the first `n` transactions, under its new reference.
spec fn comes_from(
    before: Map<NonceUpdater, Set<NonceKey>>,
    refs: Seq<MoveView>,
    n: int,
    entry: ListingView,
) -> bool {
    exists|i: int|
        0 <= i < n && before.contains_key(NonceUpdater::TxRef((#[trigger] refs[i]).0)) && entry == (
            NonceUpdater::TxRef(refs[i].1),
            before[NonceUpdater::TxRef(refs[i].0)],
        )
}

proof fn lemma_kept(
    t: TrackerView,
    refs: Seq<MoveView>,
    taken: Set<TxRef>,
    n: int,
)
    requires
        0 <= n <= refs.len(),
        forall|i: int, j: int|
            0 <= i < j < refs.len() ==> (#[trigger] refs[i]).0 != (#[trigger] refs[j]).0
                && refs[i].1 != refs[j].1 && refs[i].1 != refs[j].0,
    ensures
        kept_after(
            t,
            (Retracking { tracker: t, deferred: Seq::empty() }).all_moved(refs, taken, n),
            refs,
            taken,
            n,
        ),
    decreases n,
{
    let start = Retracking { tracker: t, deferred: Seq::empty() };
    if n > 0 {
        lemma_kept(t, refs, taken, n - 1);
        let a = start.all_moved(refs, taken, n - 1);
        let b = start.all_moved(refs, taken, n);
        let before = t.updater_to_keys;
        let m: int = n - 1;
        let (old_ref, new_ref, key) = refs[m];
        let old = NonceUpdater::TxRef(old_ref);
        let new = NonceUpdater::TxRef(new_ref);
        assert(b == a.moved(refs[m], taken));
        assert forall|i: int| #![trigger refs[i]] n <= i < refs.len() implies {
            let u = NonceUpdater::TxRef(refs[i].0);
            before.contains_key(u) == b.tracker.updater_to_keys.contains_key(u) && (
            before.contains_key(u) ==> before[u] == b.tracker.updater_to_keys[u])
        } by {
            assert(refs[m].0 != refs[i].0 && refs[m].1 != refs[i].0);
        }
        assert forall|i: int|
            #![trigger refs[i]]
            0 <= i < n && before.contains_key(NonceUpdater::TxRef(refs[i].0)) implies {
            let u = NonceUpdater::TxRef(refs[i].1);
            let keys = before[NonceUpdater::TxRef(refs[i].0)];
            ||| b.deferred.contains((u, keys))
            ||| !taken.contains(refs[i].1) && b.tracker.updater_to_keys.contains_key(u)
                && b.tracker.updater_to_keys[u] == keys
        } by {
            let u = NonceUpdater::TxRef(refs[i].1);
            let keys = before[NonceUpdater::TxRef(refs[i].0)];
            if i < m {
                assert(refs[i].1 != refs[m].0 && refs[i].1 != refs[m].1);
                if a.deferred.contains((u, keys)) {
                    let d = a.deferred.index_of((u, keys));
                    assert(b.deferred[d] == (u, keys));
                }
            } else {
                assert(a.tracker.updater_to_keys.contains_key(old));
                if b.deferred.len() > a.deferred.len() {
                    assert(b.deferred[a.deferred.len() as int] == (u, keys));
                }
            }
        }
        assert forall|d: int| 0 <= d < b.deferred.len() implies comes_from(
            before,
            refs,
            n,
            #[trigger] b.deferred[d],
        ) by {
            if d < a.deferred.len() {
                assert(b.deferred[d] == a.deferred[d]);
                assert(comes_from(before, refs, m, a.deferred[d]));
            } else {
                assert(before.contains_key(NonceUpdater::TxRef(refs[m].0)));
            }
        }
    }
}

proof fn lemma_listed_with(
    updaters: Map<NonceUpdater, Set<NonceKey>>,
    deferred: Seq<ListingView>,
    n: int,
    u: NonceUpdater,
    keys: Set<NonceKey>,
)
    requires
        0 <= n <= deferred.len(),
        forall|d: int|
            0 <= d < deferred.len() && (#[trigger] deferred[d]).0 == u ==> deferred[d].1 == keys,
        (updaters.contains_key(u) && updaters[u] == keys) || (exists|d: int|
            0 <= d < n && (#[trigger] deferred[d]).0 == u),
    ensures
        listed_with(updaters, deferred, n).contains_key(u),
        listed_with(updaters, deferred, n)[u] == keys,
    decreases n,
{
    if n > 0 && deferred[n - 1].0 != u {
        if !(updaters.contains_key(u) && updaters[u] == keys) {
            let d = choose|d: int| 0 <= d < n && (#[trigger] deferred[d]).0 == u;
            assert(0 <= d < n - 1 && deferred[d].0 == u);
        }
        lemma_listed_with(updaters, deferred, n - 1, u, keys);
    }
}

proof fn lemma_accounting_keeps_listing(
    b: Batch,
    items: Seq<SentItemView>,
    n: int,
    target_height: BlockHeight,
    now: u64,
    r: TxRef,
)
    requires
        0 <= n <= items.len(),
        forall|i: int| 0 <= i < items.len() ==> (#[trigger] items[i]).0 != Some(r),
    ensures
        ({
            let u = NonceUpdater::TxRef(r);
            let before = b.world.tracker.updater_to_keys;
            let after = b.all_accounted(
                items,
                n,
                target_height,
                now,
            ).world.tracker.updater_to_keys;
            &&& before.contains_key(u) == after.contains_key(u)
            &&& before.contains_key(u) ==> before[u] == after[u]
        }),
    decreases n,
{
    if n > 0 {
        lemma_accounting_keeps_listing(b, items, n - 1, target_height, now, r);
        assert(items[n - 1].0 != Some(r));
    }
}

proof fn lemma_waiting_in_order(items: Seq<Item>)
    requires
        in_order_of_places(items),
    ensures
        in_order_of_places(waiting(items)),
        forall|i: int|
            0 <= i < waiting(items).len() ==> exists|j: int|
                0 <= j < items.len() && #[trigger] items[j] == #[trigger] waiting(items)[i],
    decreases items.len(),
{
    if items.len() > 0 {
        let rest = items.drop_last();
        assert forall|i: int, j: int|
            0 <= i < j < rest.len() && (#[trigger] rest[i]).0.shard_id == (
            #[trigger] rest[j]).0.shard_id implies rest[i].0.tx_idx < rest[j].0.tx_idx by {
            assert(items[i].0.shard_id == items[j].0.shard_id);
        }
        lemma_waiting_in_order(rest);
        let w = waiting(items);
        let v = waiting(rest);
        let n: int = items.len() - 1;
        assert forall|i: int| 0 <= i < w.len() implies exists|j: int|
            0 <= j < items.len() && #[trigger] items[j] == #[trigger] w[i] by {
            if i < v.len() {
                assert(w[i] == v[i]);
                let j = choose|j: int| 0 <= j < rest.len() && #[trigger] rest[j] == v[i];
                assert(items[j] == w[i]);
            } else {
                assert(items[n] == w[i]);
            }
        }
        assert forall|i: int, j: int|
            0 <= i < j < w.len() && (#[trigger] w[i]).0.shard_id == (
            #[trigger] w[j]).0.shard_id implies w[i].0.tx_idx < w[j].0.tx_idx by {
            assert(w[i] == v[i]);
            if j < v.len() {
                assert(w[j] == v[j]);
            } else {
                let k = choose|k: int| 0 <= k < rest.len() && #[trigger] rest[k] == v[i];
                assert(items[k].0.shard_id == items[n].0.shard_id);
            }
        }
    }
}

/// A new number is no higher than the old one, nor than that of any later transaction.
proof fn lemma_numbers_fall(items: Seq<Item>, height: BlockHeight, i: int)
    requires
        0 <= i < items.len() <= usize::MAX,
        in_order_of_places(items),
    ensures
        renumbered(items, height)[i].0.tx_idx <= items[i].0.tx_idx,
        in_shard(renumbered(items, height), items[i].0.shard_id).len() <= usize::MAX,
        i == items.len() - 1 ==> in_shard(
            renumbered(items, height),
            items[i].0.shard_id,
        ).len() <= items[i].0.tx_idx + 1,
    decreases items.len(), i,
{
    let rest = items.drop_last();
    let shard = items[i].0.shard_id;
    lemma_renumbered(items, height);
    lemma_renumbered(rest, height);
    lemma_in_shard_len(renumbered(items, height), shard);
    assert forall|a: int, b: int|
        0 <= a < b < rest.len() && (#[trigger] rest[a]).0.shard_id == (
        #[trigger] rest[b]).0.shard_id implies rest[a].0.tx_idx < rest[b].0.tx_idx by {
        assert(items[a].0.shard_id == items[b].0.shard_id);
    }
    assert(renumbered(items, height).drop_last() =~= renumbered(rest, height));
    if i < rest.len() {
        lemma_numbers_fall(rest, height, i);
        assert(renumbered(items, height)[i] == renumbered(rest, height)[i]);
    } else {
        lemma_shard_bound(rest, height, shard, items[i].0.tx_idx as int);
    }
}

proof fn lemma_shard_bound(items: Seq<Item>, height: BlockHeight, shard_id: ShardId, bound: int)
    requires
        items.len() <= usize::MAX,
        in_order_of_places(items),
        forall|i: int|
            0 <= i < items.len() && (#[trigger] items[i]).0.shard_id == shard_id
                ==> items[i].0.tx_idx < bound,
        bound >= 0,
    ensures
        in_shard(renumbered(items, height), shard_id).len() <= bound,
    decreases items.len(),
{
    if items.len() > 0 {
        let rest = items.drop_last();
        let last = items.last();
        lemma_renumbered(items, height);
        lemma_renumbered(rest, height);
        assert(renumbered(items, height).drop_last() =~= renumbered(rest, height));
        assert forall|a: int, b: int|
            0 <= a < b < rest.len() && (#[trigger] rest[a]).0.shard_id == (
            #[trigger] rest[b]).0.shard_id implies rest[a].0.tx_idx < rest[b].0.tx_idx by {
            assert(items[a].0.shard_id == items[b].0.shard_id);
        }
        let n: int = items.len() - 1;
        assert(items[n] == last);
        if last.0.shard_id == shard_id {
            assert forall|i: int|
                0 <= i < rest.len() && (#[trigger] rest[i]).0.shard_id == shard_id implies
                rest[i].0.tx_idx < last.0.tx_idx by {
                assert(items[i].0.shard_id == items[n].0.shard_id);
            }
            lemma_shard_bound(rest, height, shard_id, last.0.tx_idx as int);
        } else {
            assert forall|i: int|
                0 <= i < rest.len() && (#[trigger] rest[i]).0.shard_id == shard_id implies
                rest[i].0.tx_idx < bound by {
                assert(items[i].0.shard_id == shard_id);
            }
            lemma_shard_bound(rest, height, shard_id, bound);
        }
    }
}

proof fn lemma_ready_refs(items: Seq<Item>, r: TxRef)
    requires
        !refs_of(ready(items)).contains(r),
    ensures
        forall|i: int|
            0 <= i < as_sent(ready(items)).len() ==> (#[trigger] as_sent(ready(items))[i]).0
                != Some(r),
{
    let a = ready(items).map_values(|x: Item| x.0);
    assert forall|i: int| 0 <= i < as_sent(ready(items)).len() implies (
    #[trigger] as_sent(ready(items))[i]).0 != Some(r) by {
        assert(a[i] == ready(items)[i].0);
        assert(a.to_set().contains(a[i]));
    }
}

/// A transaction that goes back into the queue stays listed, under its new reference, with the
/// nonces that it may change. That reference may have been one of a transaction which was sent in
/// the same batch.
pub proof fn requeued_txs_stay_listed(
    w: World,
    b: TxBatchView,
    target_height: BlockHeight,
    now: u64,
    i: int,
)
    requires
        w.tracker.requeues(b),
        b.txs.len() <= usize::MAX,
        in_order_of_places(b.txs),
        0 <= i < waiting(b.txs).len(),
        w.tracker.updater_to_keys.contains_key(NonceUpdater::TxRef(waiting(b.txs)[i].0)),
    ensures
        ({
            let old = NonceUpdater::TxRef(waiting(b.txs)[i].0);
            let new = NonceUpdater::TxRef(renumbered(waiting(b.txs), b.source_height)[i].0);
            let after = w.batch_finished(
                SentView::MappedBlock(b),
                target_height,
                now,
            ).tracker.updater_to_keys;
            after.contains_key(new) && after[new] == w.tracker.updater_to_keys[old]
        }),
{
    let items = waiting(b.txs);
    let h = b.source_height;
    let moved = renumbered(items, h);
    let refs = moves(items, h);
    let taken = refs_of(ready(b.txs));
    let t = w.tracker.popped(b);
    lemma_waiting_in_order(b.txs);
    lemma_waiting_at_most(b.txs);
    lemma_renumbered(items, h);
    assert forall|x: int, y: int| 0 <= x < y < refs.len() implies (#[trigger] refs[x]).0 != (
    #[trigger] refs[y]).0 && refs[x].1 != refs[y].1 && refs[x].1 != refs[y].0 by {
        lemma_place(items, h, y);
        lemma_numbers_fall(items, h, x);
        assert(moved[x].0 != moved[y].0);
        if items[x].0.shard_id == items[y].0.shard_id {
            assert(items[x].0.tx_idx < items[y].0.tx_idx);
        }
    }
    lemma_kept(t, refs, taken, refs.len() as int);
    let r = t.retracked(b);
    let sent = SentView::MappedBlock(b);
    let o = w.tracker.opened(w.queue, sent);
    assert(o.tracker == r.tracker && o.deferred == r.deferred);
    let old = NonceUpdater::TxRef(items[i].0);
    let new_ref = moved[i].0;
    let new = NonceUpdater::TxRef(new_ref);
    let keys = t.updater_to_keys[old];
    assert(refs[i] == (items[i].0, new_ref, items[i].1.nonce_key()));
    let start = batch(World { tracker: o.tracker, queue: o.queue, ..w }, Set::empty());
    let done = start.all_accounted(o.items, o.items.len() as int, target_height, now);
    assert forall|d: int|
        0 <= d < o.deferred.len() && (#[trigger] o.deferred[d]).0 == new implies o.deferred[d].1
        == keys by {
        assert(comes_from(t.updater_to_keys, refs, refs.len() as int, o.deferred[d]));
        let j = choose|j: int|
            0 <= j < refs.len() && t.updater_to_keys.contains_key(
                NonceUpdater::TxRef((#[trigger] refs[j]).0),
            ) && o.deferred[d] == (
                NonceUpdater::TxRef(refs[j].1),
                t.updater_to_keys[NonceUpdater::TxRef(refs[j].0)],
            );
        if j < i {
            assert(refs[j].1 != refs[i].1);
        } else if i < j {
            assert(refs[i].1 != refs[j].1);
        }
    }
    if o.deferred.contains((new, keys)) {
        let d = o.deferred.index_of((new, keys));
        assert(o.deferred[d].0 == new);
    } else {
        lemma_ready_refs(b.txs, new_ref);
        lemma_accounting_keeps_listing(
            start,
            o.items,
            o.items.len() as int,
            target_height,
            now,
            new_ref,
        );
    }
    lemma_listed_with(
        done.world.tracker.updater_to_keys,
        o.deferred,
        o.deferred.len() as int,
        new,
        keys,
    );
}

proof fn lemma_waiting_at_most(items: Seq<Item>)
    ensures
        waiting(items).len() <= items.len(),
    decreases items.len(),
{
    if items.len() > 0 {
        lemma_waiting_at_most(items.drop_last());
    }
}

/// Two trackers have counted a height as often.
pub open spec fn same_count(a: TrackerView, b: TrackerView, height: BlockHeight) -> bool {
    a.requeue_attempts.contains_key(height) == b.requeue_attempts.contains_key(height) && (
    a.requeue_attempts.contains_key(height) ==> a.requeue_attempts[height]
        == b.requeue_attempts[height])
}

/// The count of a height is changed by its own batches alone: queueing a block, a target block and
/// a batch of another height leave it as it is.
pub proof fn other_steps_keep_counts(
    w: World,
    block: BlockView,
    p: Progress,
    shards: Seq<ShardView>,
    sent: SentView,
    target_height: BlockHeight,
    now: u64,
    height: BlockHeight,
)
    requires
        sent matches SentView::MappedBlock(b) ==> b.source_height != height,
    ensures
        same_count(w.tracker, w.tracker.with_block_queued(w.db, block), height),
        same_count(p.world.tracker, p.shards_done(shards).world.tracker, height),
        same_count(
            w.tracker,
            w.batch_finished(sent, target_height, now).tracker,
            height,
        ),
{
    lemma_all_queued_keeps(
        w.tracker.at_height(block.source_height),
        w.db,
        block_items(block),
        block.source_height,
    );
    target_blocks_raise_heights(p, shards);
    lemma_batch_keeps(w, sent, target_height, now);
}

proof fn lemma_accounted_queue(b: Batch, item: SentItemView, target_height: BlockHeight, now: u64)
    ensures
        ({
            let q = b.world.queue;
            let after = b.accounted(item, target_height, now).world.queue;
            &&& after.len() == q.len()
            &&& forall|i: int|
                0 <= i < q.len() ==> (#[trigger] after[i]).source_height == q[i].source_height
        }),
{
}

/// Accounting for a transaction queues none, and one that is skipped is queued no more.
proof fn lemma_accounted_unqueues(
    b: Batch,
    item: SentItemView,
    target_height: BlockHeight,
    now: u64,
)
    requires
        b.can_account(item),
    ensures
        ({
            let before = b.world.tracker.nonces;
            let after = b.accounted(item, target_height, now).world.tracker.nonces;
            &&& after.dom() == before.dom()
            &&& forall|k: NonceKey, r: TxRef|
                #![trigger after[k].queued_txs.contains(r)]
                after.contains_key(k) && after[k].queued_txs.contains(r)
                    ==> before[k].queued_txs.contains(r)
            &&& item.1 is AwaitingNonce ==> (item.0 matches Some(r)
                ==> !after[item.1.nonce_key()].queued_txs.contains(r))
        }),
{
    let before = b.world.tracker.nonces;
    let after = b.accounted(item, target_height, now).world.tracker.nonces;
    assert(after.dom() =~= before.dom());
}

proof fn lemma_all_accounted_unqueues(
    b: Batch,
    items: Seq<SentItemView>,
    n: int,
    target_height: BlockHeight,
    now: u64,
)
    requires
        0 <= n <= items.len(),
        b.can_account_all(items, target_height, now),
    ensures
        ({
            let done = b.all_accounted(items, n, target_height, now).world;
            let before = b.world.tracker.nonces;
            let after = done.tracker.nonces;
            &&& after.dom() == before.dom()
            &&& forall|k: NonceKey, r: TxRef|
                #![trigger after[k].queued_txs.contains(r)]
                after.contains_key(k) && after[k].queued_txs.contains(r)
                    ==> before[k].queued_txs.contains(r)
            &&& forall|i: int, r: TxRef|
                #![trigger items[i], after[items[i].1.nonce_key()].queued_txs.contains(r)]
                0 <= i < n && items[i].1 is AwaitingNonce && items[i].0 == Some(r)
                    && after.contains_key(items[i].1.nonce_key())
                    ==> !after[items[i].1.nonce_key()].queued_txs.contains(r)
            &&& done.queue.len() == b.world.queue.len()
            &&& forall|i: int|
                0 <= i < done.queue.len() ==> (#[trigger] done.queue[i]).source_height
                    == b.world.queue[i].source_height
        }),
    decreases n,
{
    if n > 0 {
        lemma_all_accounted_unqueues(b, items, n - 1, target_height, now);
        let mid = b.all_accounted(items, n - 1, target_height, now);
        let done = b.all_accounted(items, n, target_height, now);
        let before = b.world.tracker.nonces;
        let between = mid.world.tracker.nonces;
        let after = done.world.tracker.nonces;
        assert(mid.can_account(items[n - 1]));
        lemma_accounted_unqueues(mid, items[n - 1], target_height, now);
        lemma_accounted_queue(mid, items[n - 1], target_height, now);
        assert forall|k: NonceKey, r: TxRef|
            #![trigger after[k].queued_txs.contains(r)]
            after.contains_key(k) && after[k].queued_txs.contains(
                r,
            ) implies before[k].queued_txs.contains(r) by {
            assert(between.dom().contains(k));
            assert(between[k].queued_txs.contains(r));
        }
        assert forall|i: int, r: TxRef|
            #![trigger items[i], after[items[i].1.nonce_key()].queued_txs.contains(r)]
            0 <= i < n && items[i].1 is AwaitingNonce && items[i].0 == Some(r)
                && after.contains_key(
                items[i].1.nonce_key(),
            ) implies !after[items[i].1.nonce_key()].queued_txs.contains(r) by {
            let k = items[i].1.nonce_key();
            assert(between.dom().contains(k));
            if i < n - 1 && after[k].queued_txs.contains(r) {
                assert(between[k].queued_txs.contains(r));
            }
        }
        assert forall|i: int| 0 <= i < done.world.queue.len() implies (
        #[trigger] done.world.queue[i]).source_height == b.world.queue[i].source_height by {
            assert(mid.world.queue[i].source_height == b.world.queue[i].source_height);
        }
    }
}

/// The references of some transactions are queued for the keys that they use, and for no others.
pub open spec fn queued_for_own_keys(nonces: Map<NonceKey, InfoView>, items: Seq<Item>) -> bool {
    forall|i: int, k: NonceKey|
        #![trigger items[i], nonces[k]]
        0 <= i < items.len() && nonces.contains_key(k) && nonces[k].queued_txs.contains(items[i].0)
            ==> k == items[i].1.nonce_key()
}

/// The world after one of several batches.
pub open spec fn after_batch(
    worlds: Seq<World>,
    batches: Seq<TxBatchView>,
    target_heights: Seq<BlockHeight>,
    times: Seq<u64>,
    i: int,
) -> World {
    worlds[i].batch_finished(SentView::MappedBlock(batches[i]), target_heights[i], times[i])
}

/// The batches are of one height, each with transactions that wait, and nothing else counts the
/// height from one to the next.
pub open spec fn come_back(
    worlds: Seq<World>,
    batches: Seq<TxBatchView>,
    target_heights: Seq<BlockHeight>,
    times: Seq<u64>,
    height: BlockHeight,
) -> bool {
    &&& worlds.len() == batches.len()
    &&& forall|i: int|
        0 <= i < batches.len() ==> (#[trigger] batches[i]).source_height == height && waiting(
            batches[i].txs,
        ).len() > 0
    &&& forall|i: int|
        0 <= i < batches.len() - 1 ==> same_count(
            #[trigger] after_batch(worlds, batches, target_heights, times, i).tracker,
            worlds[i + 1].tracker,
            height,
        )
}

proof fn lemma_attempts(
    worlds: Seq<World>,
    batches: Seq<TxBatchView>,
    target_heights: Seq<BlockHeight>,
    times: Seq<u64>,
    height: BlockHeight,
    i: int,
)
    requires
        come_back(worlds, batches, target_heights, times, height),
        0 <= i < batches.len(),
        i <= MAX_REQUEUE_ATTEMPTS,
        !worlds[0].tracker.requeue_attempts.contains_key(height),
    ensures
        worlds[i].tracker.attempt(height) == i + 1,
    decreases i,
{
    if i > 0 {
        lemma_attempts(worlds, batches, target_heights, times, height, i - 1);
        let b = batches[i - 1];
        assert(b.source_height == height && waiting(b.txs).len() > 0);
        requeueing_is_limited(worlds[i - 1], b, target_heights[i - 1], times[i - 1]);
        let t = after_batch(worlds, batches, target_heights, times, i - 1).tracker;
        assert(same_count(t, worlds[i - 1 + 1].tracker, height));
        assert(worlds[i - 1].tracker.requeues(b));
        lemma_batch_keeps(
            worlds[i - 1],
            SentView::MappedBlock(b),
            target_heights[i - 1],
            times[i - 1],
        );
        assert(t.requeue_attempts.contains_key(height));
    }
}

/// Transactions that wait go back into the queue `MAX_REQUEUE_ATTEMPTS` times. With the batch after
/// that they are given up: none goes back, no nonce is to be asked for, the normal delay applies,
/// the queue has no block of the height, and no reference of theirs is left among the queued ones.
pub proof fn waiting_txs_are_given_up(
    worlds: Seq<World>,
    batches: Seq<TxBatchView>,
    target_heights: Seq<BlockHeight>,
    times: Seq<u64>,
    height: BlockHeight,
    report: SentReport,
)
    requires
        come_back(worlds, batches, target_heights, times, height),
        batches.len() == MAX_REQUEUE_ATTEMPTS + 1,
        !worlds[0].tracker.requeue_attempts.contains_key(height),
        ({
            let w = worlds.last();
            let b = batches.last();
            let sent = SentView::MappedBlock(b);
            &&& w.can_finish_batch(sent, target_heights[batches.len() - 1], times[batches.len()
                - 1])
            &&& forall|i: int| 0 <= i < w.queue.len() ==> (#[trigger] w.queue[i]).source_height
                != height
            &&& queued_for_own_keys(w.tracker.nonces, waiting(b.txs))
            &&& report.tells(w.tracker, w.queue, sent)
        }),
    ensures
        forall|i: int|
            0 <= i < MAX_REQUEUE_ATTEMPTS ==> (#[trigger] worlds[i]).tracker.requeues(batches[i]),
        ({
            let w = worlds.last();
            let left = waiting(batches.last().txs);
            let done = after_batch(
                worlds,
                batches,
                target_heights,
                times,
                MAX_REQUEUE_ATTEMPTS as int,
            );
            &&& w.tracker.gives_up(batches.last())
            &&& report.requeued == 0
            &&& report.given_up == left.len()
            &&& report.nonce_keys@.len() == 0
            &&& w.tracker.normal_delay(report.next_delay)
            &&& forall|i: int| 0 <= i < done.queue.len() ==> (
            #[trigger] done.queue[i]).source_height != height
            &&& forall|i: int, k: NonceKey|
                #![trigger left[i], done.tracker.nonces[k]]
                0 <= i < left.len() && done.tracker.nonces.contains_key(k)
                    ==> !done.tracker.nonces[k].queued_txs.contains(left[i].0)
        }),
{
    let m = MAX_REQUEUE_ATTEMPTS as int;
    assert forall|i: int| 0 <= i < m implies (#[trigger] worlds[i]).tracker.requeues(
        batches[i],
    ) by {
        lemma_attempts(worlds, batches, target_heights, times, height, i);
        assert(batches[i].source_height == height && waiting(batches[i].txs).len() > 0);
    }
    lemma_attempts(worlds, batches, target_heights, times, height, m);
    let w = worlds.last();
    let b = batches.last();
    assert(worlds[m] == w && batches[m] == b);
    assert(b.source_height == height && waiting(b.txs).len() > 0);
    let sent = SentView::MappedBlock(b);
    let left = waiting(b.txs);
    let o = w.tracker.opened(w.queue, sent);
    assert(w.tracker.gives_up(b));
    let start = batch(World { tracker: o.tracker, queue: o.queue, ..w }, Set::empty());
    let n = o.items.len() as int;
    lemma_all_accounted_unqueues(start, o.items, n, target_heights[m], times[m]);
    let acc = start.all_accounted(o.items, n, target_heights[m], times[m]).world;
    let done = after_batch(worlds, batches, target_heights, times, m);
    assert(done.queue == acc.queue);
    assert forall|i: int| 0 <= i < done.queue.len() implies (#[trigger] done.queue[i]).source_height
        != height by {
        assert(w.queue[i].source_height != height);
    }
    assert(views(report.nonce_keys@).len() == 0);
    lemma_waiting_wait(b.txs);
    assert forall|i: int, k: NonceKey|
        #![trigger left[i], done.tracker.nonces[k]]
        0 <= i < left.len() && done.tracker.nonces.contains_key(
            k,
        ) implies !done.tracker.nonces[k].queued_txs.contains(left[i].0) by {
        let r = left[i].0;
        let j = ready(b.txs).len() + i;
        assert(o.items[j] == (Some(r), left[i].1));
        let nonces = acc.tracker.nonces;
        assert(done.tracker.nonces[k] == nonces[k]);
        if nonces[k].queued_txs.contains(r) {
            assert(start.world.tracker.nonces.dom().contains(k));
            assert(start.world.tracker.nonces[k].queued_txs.contains(r));
            assert(w.tracker.nonces[k].queued_txs.contains(left[i].0));
            assert(k == o.items[j].1.nonce_key());
            assert(nonces[o.items[j].1.nonce_key()].queued_txs.contains(r));
        }
    }
}

proof fn lemma_waiting_wait(items: Seq<Item>)
    ensures
        forall|i: int|
            0 <= i < waiting(items).len() ==> (#[trigger] waiting(items)[i]).1 is AwaitingNonce,
    decreases items.len(),
{
    if items.len() > 0 {
        lemma_waiting_wait(items.drop_last());
    }
}

/// The references of moved transactions are in the place of the old ones, for the keys that are in
/// memory.
proof fn lemma_refs_moved(
    start: Retracking,
    refs: Seq<MoveView>,
    taken: Set<TxRef>,
    n: int,
    key: NonceKey,
)
    requires
        0 <= n <= refs.len(),
        start.tracker.nonces.contains_key(key),
        forall|i: int, j: int|
            0 <= i < j < refs.len() ==> (#[trigger] refs[i]).1 != (#[trigger] refs[j]).0,
    ensures
        ({
            let after = start.all_moved(refs, taken, n).tracker.nonces;
            &&& after.contains_key(key)
            &&& forall|i: int|
                0 <= i < n && (#[trigger] refs[i]).2 == key ==> after[key].queued_txs.contains(
                    refs[i].1,
                ) && after[key].txs_awaiting_nonce.contains(refs[i].1)
        }),
    decreases n,
{
    if n > 0 {
        lemma_refs_moved(start, refs, taken, n - 1, key);
        let before = start.all_moved(refs, taken, n - 1).tracker.nonces;
        let after = start.all_moved(refs, taken, n).tracker.nonces;
        assert forall|i: int| 0 <= i < n && (#[trigger] refs[i]).2 == key implies
            after[key].queued_txs.contains(refs[i].1) && after[key].txs_awaiting_nonce.contains(
            refs[i].1,
        ) by {
            if i < n - 1 {
                assert(refs[i].1 != refs[n - 1].0);
            }
        }
    }
}

/// A transaction of the queue waits, and is listed as waiting for the nonce of `key`.
spec fn waits_for(b: Batch, r: TxRef, key: NonceKey) -> bool {
    &&& heights_ascend(b.world.queue)
    &&& holds(b.world.queue, r)
    &&& tx_at(b.world.queue, r) is AwaitingNonce
    &&& b.world.tracker.nonces.contains_key(key)
    &&& b.world.tracker.nonces[key].txs_awaiting_nonce.contains(r)
}

/// The transaction uses `key` under the reference `r`.
pub open spec fn uses(item: SentItemView, r: TxRef, key: NonceKey) -> bool {
    item.0 == Some(r) && item.1.nonce_key() == key
}

/// The transaction uses or may change the nonce of `key`.
pub open spec fn touches(tx: TxView, key: NonceKey) -> bool {
    tx.nonce_key() == key || tx.nonce_updates().contains(key)
}

proof fn lemma_accounted_waits(
    b: Batch,
    item: SentItemView,
    target_height: BlockHeight,
    now: u64,
    r: TxRef,
    key: NonceKey,
)
    requires
        waits_for(b, r, key),
        b.can_account(item),
    ensures
        waits_for(b.accounted(item, target_height, now), r, key),
        b.world.tracker.nonces[key].queued_txs.contains(r) && !uses(item, r, key) ==> b.accounted(
            item,
            target_height,
            now,
        ).world.tracker.nonces[key].queued_txs.contains(r),
        !touches(item.1, key) && !b.expired.contains(key) ==> !b.accounted(
            item,
            target_height,
            now,
        ).expired.contains(key),
{
    let t = b.world.tracker;
    let q = b.world.queue;
    let updates = item.1.nonce_updates();
    let after = b.accounted(item, target_height, now);
    lemma_accounted_unqueues(b, item, target_height, now);
    assert(after.world.tracker.nonces.dom().contains(key));
    if let Some(own) = item.0 {
        let updater = NonceUpdater::TxRef(own);
        let edit = match item.1 {
            TxView::Ready(m) if m.sent_successfully => TxEdit::Rename {
                old: updater,
                new: NonceUpdater::ChainObjectId(m.target_tx.hash),
            },
            _ => TxEdit::Forget { updater },
        };
        let refs = awaiting_of(t.nonces, updates);
        lemma_edited(q, refs, edit, r);
        if let TxView::Ready(m) = item.1 {
            if m.sent_successfully && !t.sent_txs.contains_key(m.target_tx.hash) {
                let taken = b.taken_down(item.0, m, target_height, now);
                assert(taken.nonces == t.nonces);
            }
        }
        assert(after.world.queue == q || after.world.queue == edited(q, refs, edit));
    }
}

proof fn lemma_all_accounted_wait(
    b: Batch,
    items: Seq<SentItemView>,
    n: int,
    target_height: BlockHeight,
    now: u64,
    r: TxRef,
    key: NonceKey,
)
    requires
        0 <= n <= items.len(),
        waits_for(b, r, key),
        b.can_account_all(items, target_height, now),
    ensures
        ({
            let after = b.all_accounted(items, n, target_height, now);
            &&& waits_for(after, r, key)
            &&& b.world.tracker.nonces[key].queued_txs.contains(r) && (forall|i: int|
                0 <= i < items.len() ==> !uses(#[trigger] items[i], r, key))
                ==> after.world.tracker.nonces[key].queued_txs.contains(r)
            &&& !b.expired.contains(key) && (forall|i: int|
                0 <= i < items.len() ==> !touches((#[trigger] items[i]).1, key))
                ==> !after.expired.contains(key)
        }),
    decreases n,
{
    if n > 0 {
        lemma_all_accounted_wait(b, items, n - 1, target_height, now, r, key);
        let mid = b.all_accounted(items, n - 1, target_height, now);
        assert(mid.can_account(items[n - 1]));
        lemma_accounted_waits(mid, items[n - 1], target_height, now, r, key);
    }
}

/// A transaction that goes back into the queue is found under its new reference among those that
/// wait for its nonce and among the queued ones of its key. This needs the key to stay in memory,
/// which it does unless a transaction of the same batch, that does not go back, uses or may change
/// its nonce. Such a one with the same key and the same reference takes the reference out of the
/// queued ones.
pub proof fn requeued_txs_stay_followed(
    w: World,
    b: TxBatchView,
    target_height: BlockHeight,
    now: u64,
    i: int,
)
    requires
        w.tracker.requeues(b),
        w.can_finish_batch(SentView::MappedBlock(b), target_height, now),
        b.txs.len() <= usize::MAX,
        in_order_of_places(b.txs),
        0 <= i < waiting(b.txs).len(),
        w.tracker.nonces.contains_key(waiting(b.txs)[i].1.nonce_key()),
    ensures
        ({
            let key = waiting(b.txs)[i].1.nonce_key();
            let new = renumbered(waiting(b.txs), b.source_height)[i].0;
            let sent = as_sent(ready(b.txs));
            let after = w.batch_finished(
                SentView::MappedBlock(b),
                target_height,
                now,
            ).tracker.nonces;
            &&& (forall|j: int| 0 <= j < sent.len() ==> !touches((#[trigger] sent[j]).1, key))
                ==> after.contains_key(key)
            &&& after.contains_key(key) ==> after[key].txs_awaiting_nonce.contains(new)
            &&& after.contains_key(key) && (forall|j: int|
                0 <= j < sent.len() ==> !uses(#[trigger] sent[j], new, key))
                ==> after[key].queued_txs.contains(new)
        }),
{
    let items = waiting(b.txs);
    let h = b.source_height;
    let key = items[i].1.nonce_key();
    let moved = renumbered(items, h);
    let new = moved[i].0;
    let refs = moves(items, h);
    let taken = refs_of(ready(b.txs));
    let t = w.tracker.popped(b);
    let sent = SentView::MappedBlock(b);
    let o = w.tracker.opened(w.queue, sent);
    lemma_waiting_in_order(b.txs);
    lemma_waiting_at_most(b.txs);
    lemma_waiting_wait(b.txs);
    lemma_renumbered(items, h);
    assert forall|x: int, y: int| 0 <= x < y < refs.len() implies (#[trigger] refs[x]).1 != (
    #[trigger] refs[y]).0 by {
        lemma_numbers_fall(items, h, x);
        if items[x].0.shard_id == items[y].0.shard_id {
            assert(items[x].0.tx_idx < items[y].0.tx_idx);
        }
    }
    let start = Retracking { tracker: t, deferred: Seq::empty() };
    lemma_refs_moved(start, refs, taken, refs.len() as int, key);
    assert(refs[i] == (items[i].0, new, key));
    requeued_txs_are_held(w.queue, items, h, b.source_hash);
    assert(moved[i] == (new, moved[i].1));
    let first = batch(World { tracker: o.tracker, queue: o.queue, ..w }, Set::empty());
    assert(items[i].1 is AwaitingNonce);
    assert(waits_for(first, new, key));
    lemma_all_accounted_wait(
        first,
        o.items,
        o.items.len() as int,
        target_height,
        now,
        new,
        key,
    );
}

} // verus!
