//! What holds of the tracker over several steps.

use vstd::prelude::*;

use super::batches::{
    as_sent, ready, refs_of, waiting, was_sent, SentItemView, SentView, TxBatchView,
};
use super::db::DbView;
use super::ids::{NonceKey, NonceLookupKey, NonceUpdater, TxRef};
use super::queue::{
    edited, heights_ascend, holds, lemma_edited, lemma_edited_leads, lemma_some_ref,
    tx_at, QueueView,
};
use super::queueing::{after_turn, after_turns, assigned, assignments, turn_fits, turns_fit, Item};
use super::requeueing::{moves, MoveView, Retracking};
use super::sending::{batch, height_of, Batch};
use super::settling::{awaiting_all, awaiting_apart, awaiting_of, forced};
use super::target::{
    updates_by, with_descendants, Progress, ReceiptView, ShardView, TargetTxView, World,
};
use super::tracker::{InfoView, TrackerView};
use super::tx::{at_most, MappedTxView, TargetNonceView, TxEdit, TxView};
use crate::keys::{BlockHeight, CryptoHash, Nonce};
use crate::ordered::{lemma_listing_exists, listing};

verus! {

/// Nonces that are given out for a key one after the other rise by one.
pub proof fn next_nonces_are_consecutive(
    t: TrackerView,
    db: DbView,
    key: NonceKey,
    first: BlockHeight,
    second: BlockHeight,
)
    requires
        t.knows(db, key),
        t.info(db, key, Some(first)).target_nonce.can_increment(),
        t.next_info(db, key, first).target_nonce.can_increment(),
    ensures
        ({
            let n = t.next_info(db, key, first).target_nonce.nonce;
            let after = t.with_info(key, t.next_info(db, key, first));
            let m = after.next_info(db, key, second).target_nonce.nonce;
            match n {
                Some(x) => m == Some((x + 1) as u64) && x < m->0,
                None => m is None,
            }
        }),
{
}

/// The first queued transaction of a key.
pub open spec fn first_queued(t: TrackerView, key: NonceKey) -> TxRef {
    listing::<TxRef>(t.nonces[key].queued_txs)[0]
}

/// A nonce that is given out before those of all queued transactions is just below that of the
/// first one. Those of all of them rise by one, and so does the last one that was given out.
pub proof fn inserted_nonce_precedes_queued(
    t: TrackerView,
    q: QueueView,
    db: DbView,
    key: NonceKey,
    n: Nonce,
)
    requires
        t.can_insert(q, db, key),
        t.nonces.contains_key(key),
        t.nonces[key].queued_txs.finite(),
        !t.gives_nothing(key),
        t.inserted_nonce(q, db, key).nonce == Some(n),
    ensures
        ({
            let after = edited(q, t.shifted_refs(key), TxEdit::Shift);
            &&& tx_at(after, first_queued(t, key)).target_nonce().nonce == Some((n + 1) as u64)
            &&& n < n + 1 <= u64::MAX
            &&& forall|r: TxRef| #[trigger]
                t.nonces[key].queued_txs.contains(r) ==> tx_at(after, r).target_nonce() == tx_at(
                    q,
                    r,
                ).target_nonce().incremented()
            &&& t.nonces[key].target_nonce.nonce matches Some(last) ==> t.after_insert(
                db,
                key,
            ).nonces[key].target_nonce.nonce == Some((last + 1) as u64)
        }),
{
    let refs = t.nonces[key].queued_txs;
    let after = edited(q, t.shifted_refs(key), TxEdit::Shift);
    lemma_listing_exists::<TxRef>(refs);
    assert(refs.contains(first_queued(t, key))) by {
        if listing::<TxRef>(refs).len() == 0 {
            assert(listing::<TxRef>(refs).to_set() =~= Set::<TxRef>::empty());
        }
        assert(listing::<TxRef>(refs).to_set().contains(listing::<TxRef>(refs)[0]));
    }
    assert(t.shifted_refs(key).contains(first_queued(t, key)));
    lemma_edited(q, t.shifted_refs(key), TxEdit::Shift, first_queued(t, key));
    assert forall|r: TxRef| #[trigger] refs.contains(r) implies tx_at(after, r).target_nonce()
        == tx_at(q, r).target_nonce().incremented() by {
        assert(t.shifted_refs(key).contains(r));
        lemma_edited(q, t.shifted_refs(key), TxEdit::Shift, r);
    }
}

/// The nonce that is known of a key.
pub open spec fn known_nonce(nonces: Map<NonceKey, InfoView>, key: NonceKey) -> Option<Nonce> {
    if nonces.contains_key(key) {
        nonces[key].target_nonce.nonce
    } else {
        None
    }
}

/// How many of the first `n` nonces were given to transactions of `key`.
pub open spec fn given_before(
    assigned: Seq<(TxRef, NonceKey, Nonce)>,
    key: NonceKey,
    n: int,
) -> int
    decreases n,
{
    if n <= 0 {
        0
    } else {
        given_before(assigned, key, n - 1) + if assigned[n - 1].1 == key {
            1int
        } else {
            0
        }
    }
}

proof fn lemma_given_before(
    a: Seq<(TxRef, NonceKey, Nonce)>,
    b: Seq<(TxRef, NonceKey, Nonce)>,
    key: NonceKey,
    n: int,
)
    requires
        n <= a.len(),
        n <= b.len(),
        forall|i: int| 0 <= i < n ==> a[i] == b[i],
    ensures
        given_before(a, key, n) == given_before(b, key, n),
    decreases n,
{
    if n > 0 {
        lemma_given_before(a, b, key, n - 1);
    }
}

/// The nonces that the waiting transactions of a key get are consecutive: the first one follows
/// the nonce that was known, and each one the one before. The last one is then the one that is
/// known.
pub proof fn assigned_nonces_are_consecutive(nonces: Map<NonceKey, InfoView>, items: Seq<Item>)
    requires
        turns_fit(nonces, items),
    ensures
        forall|i: int|
            0 <= i < assignments(nonces, items).len() ==> {
                let (r, key, n) = #[trigger] assignments(nonces, items)[i];
                &&& known_nonce(nonces, key) is Some
                &&& n == known_nonce(nonces, key)->0 + given_before(
                    assignments(nonces, items),
                    key,
                    i,
                ) + 1
            },
        forall|key: NonceKey| #[trigger]
            known_nonce(nonces, key) is Some ==> {
                &&& known_nonce(after_turns(nonces, items), key) is Some
                &&& known_nonce(after_turns(nonces, items), key)->0 == known_nonce(nonces, key)->0
                    + given_before(
                    assignments(nonces, items),
                    key,
                    assignments(nonces, items).len() as int,
                )
            },
    decreases items.len(),
{
    if items.len() > 0 {
        let rest = items.drop_last();
        assert forall|n: int| 0 <= n < rest.len() implies turn_fits(
            after_turns(nonces, #[trigger] rest.take(n)),
            rest[n].1,
        ) by {
            assert(items.take(n) =~= rest.take(n));
        }
        assigned_nonces_are_consecutive(nonces, rest);
        assert(items.take(items.len() - 1) =~= rest);
        let before = after_turns(nonces, rest);
        let after = after_turns(nonces, items);
        let a = assignments(nonces, items);
        let b = assignments(nonces, rest);
        let own = items.last().1.nonce_key();
        let m = b.len() as int;
        assert(turn_fits(before, items.last().1));
        assert(after == after_turn(before, items.last()));
        lemma_turn_keeps_keys(nonces, rest, own);
        assert forall|i: int| 0 <= i < a.len() implies {
            let (r, key, n) = #[trigger] a[i];
            &&& known_nonce(nonces, key) is Some
            &&& n == known_nonce(nonces, key)->0 + given_before(a, key, i) + 1
        } by {
            let (r, key, n) = a[i];
            lemma_given_before(a, b, key, i);
            if i < m {
                assert(a[i] == b[i]);
            } else {
                assert(known_nonce(nonces, own) is Some);
            }
        }
        assert forall|key: NonceKey| #[trigger] known_nonce(nonces, key) is Some implies {
            &&& known_nonce(after, key) is Some
            &&& known_nonce(after, key)->0 == known_nonce(nonces, key)->0 + given_before(
                a,
                key,
                a.len() as int,
            )
        } by {
            lemma_given_before(a, b, key, m);
            assert(known_nonce(before, key) is Some);
        }
    }
}

/// The nonces that waiting transactions get are above the one that was known, and rise from each
/// transaction of a key to the next. The last one is then the one that is known.
pub proof fn assigned_nonces_rise(nonces: Map<NonceKey, InfoView>, items: Seq<Item>)
    requires
        turns_fit(nonces, items),
    ensures
        forall|i: int|
            0 <= i < assignments(nonces, items).len() ==> {
                let (r, key, n) = #[trigger] assignments(nonces, items)[i];
                &&& known_nonce(nonces, key) is Some
                &&& known_nonce(nonces, key)->0 < n
                &&& known_nonce(after_turns(nonces, items), key) is Some
                &&& n <= known_nonce(after_turns(nonces, items), key)->0
            },
        forall|i: int, j: int|
            0 <= i < j < assignments(nonces, items).len() && (
            #[trigger] assignments(nonces, items)[i]).1 == (
            #[trigger] assignments(nonces, items)[j]).1 ==> assignments(nonces, items)[i].2
                < assignments(nonces, items)[j].2,
        forall|key: NonceKey| #[trigger]
            at_most(known_nonce(nonces, key), known_nonce(after_turns(nonces, items), key)),
    decreases items.len(),
{
    if items.len() > 0 {
        let rest = items.drop_last();
        assert forall|n: int| 0 <= n < rest.len() implies turn_fits(
            after_turns(nonces, #[trigger] rest.take(n)),
            rest[n].1,
        ) by {
            assert(items.take(n) =~= rest.take(n));
        }
        assigned_nonces_rise(nonces, rest);
        assert(items.take(items.len() - 1) =~= rest);
        let before = after_turns(nonces, rest);
        let after = after_turns(nonces, items);
        let a = assignments(nonces, items);
        let b = assignments(nonces, rest);
        let key = items.last().1.nonce_key();
        assert(turn_fits(before, items.last().1));
        assert(after == after_turn(before, items.last()));
        assert forall|k: NonceKey| #[trigger]
            at_most(known_nonce(nonces, k), known_nonce(after, k)) by {
            assert(at_most(known_nonce(nonces, k), known_nonce(before, k)));
        }
        assert(at_most(known_nonce(nonces, key), known_nonce(before, key)));
        match assigned(before, items.last().1) {
            Some(n) => {
                assert(a == b.push((items.last().0, key, n)));
                assert(before.contains_key(key));
                lemma_turn_keeps_keys(nonces, rest, key);
                assert forall|i: int| 0 <= i < a.len() implies {
                    let (r, k, m) = #[trigger] a[i];
                    &&& known_nonce(nonces, k) is Some
                    &&& known_nonce(nonces, k)->0 < m
                    &&& known_nonce(after, k) is Some
                    &&& m <= known_nonce(after, k)->0
                } by {
                    if i < b.len() {
                        assert(a[i] == b[i]);
                    }
                }
                assert forall|i: int, j: int|
                    0 <= i < j < a.len() && (#[trigger] a[i]).1 == (
                    #[trigger] a[j]).1 implies a[i].2 < a[j].2 by {
                    assert(a[i] == b[i]);
                    if j < b.len() {
                        assert(a[j] == b[j]);
                    }
                }
            },
            None => {
                assert(a == b);
            },
        }
    } else {
        assert forall|k: NonceKey| #[trigger]
            at_most(known_nonce(nonces, k), known_nonce(after_turns(nonces, items), k)) by {}
    }
}

/// A nonce becomes known by no one's turn.
proof fn lemma_turn_keeps_keys(nonces: Map<NonceKey, InfoView>, items: Seq<Item>, key: NonceKey)
    ensures
        known_nonce(after_turns(nonces, items), key) is Some ==> known_nonce(nonces, key) is Some,
    decreases items.len(),
{
    if items.len() > 0 {
        lemma_turn_keeps_keys(nonces, items.drop_last(), key);
    }
}

/// The tracker knows all that sending or skipping a queued transaction needs.
pub open spec fn followed(t: TrackerView, item: Item) -> bool {
    let updater = NonceUpdater::TxRef(item.0);
    let key = item.1.nonce_key();
    let updates = item.1.nonce_updates();
    &&& t.nonces.contains_key(key)
    &&& t.nonces[key].queued_txs.contains(item.0)
    &&& item.1 is AwaitingNonce ==> t.nonces[key].txs_awaiting_nonce.contains(item.0)
    &&& t.listed(updater) == updates
    &&& forall|k: NonceKey| #[trigger]
        updates.contains(k) ==> t.nonces.contains_key(k)
            && t.nonces[k].target_nonce.pending_outcomes.contains(updater)
}

/// Each transaction has its own reference.
pub open spec fn refs_distinct(items: Seq<Item>) -> bool {
    forall|i: int, j: int|
        0 <= i < j < items.len() ==> (#[trigger] items[i]).0 != (#[trigger] items[j]).0
}

/// After a block was queued, each of its transactions is followed.
pub proof fn queued_txs_are_followed(
    t: TrackerView,
    db: DbView,
    items: Seq<Item>,
    height: BlockHeight,
)
    requires
        t.can_queue_all(db, items, height),
        refs_distinct(items),
        forall|i: int|
            0 <= i < items.len() ==> !t.updater_to_keys.contains_key(
                NonceUpdater::TxRef((#[trigger] items[i]).0),
            ),
    ensures
        forall|i: int|
            0 <= i < items.len() ==> followed(
                t.all_queued(db, items, height),
                #[trigger] items[i],
            ),
        forall|r: TxRef|
            (forall|i: int| 0 <= i < items.len() ==> (#[trigger] items[i]).0 != r)
                ==> #[trigger] t.all_queued(db, items, height).updater_to_keys.contains_key(
                NonceUpdater::TxRef(r),
            ) == t.updater_to_keys.contains_key(NonceUpdater::TxRef(r)),
    decreases items.len(),
{
    if items.len() > 0 {
        let rest = items.drop_last();
        assert forall|n: int| 0 <= n < rest.len() implies t.all_queued(
            db,
            #[trigger] rest.take(n),
            height,
        ).can_queue(db, rest[n]) by {
            assert(items.take(n) =~= rest.take(n));
        }
        queued_txs_are_followed(t, db, rest, height);
        let n: int = items.len() - 1;
        let last = items.last();
        assert(items.take(n) =~= rest);
        let before = t.all_queued(db, rest, height);
        let after = t.all_queued(db, items, height);
        assert(before.can_queue(db, last));
        assert(after == before.queued(db, last, height));
        assert forall|i: int| 0 <= i < rest.len() implies (#[trigger] rest[i]).0 != last.0 by {
            assert(items[i].0 != items[n].0);
        }
        assert(!before.updater_to_keys.contains_key(NonceUpdater::TxRef(last.0))) by {
            assert(!t.updater_to_keys.contains_key(NonceUpdater::TxRef(items[n].0)));
        }
        assert forall|i: int| 0 <= i < items.len() implies followed(after, #[trigger] items[i]) by {
            if i < n {
                assert(items[i] == rest[i]);
                assert(followed(before, rest[i]));
                assert(after.listed(NonceUpdater::TxRef(items[i].0)) == before.listed(
                    NonceUpdater::TxRef(items[i].0),
                ));
            } else {
                assert(after.listed(NonceUpdater::TxRef(last.0)) =~= last.1.nonce_updates());
            }
        }
        assert forall|r: TxRef|
            (forall|i: int| 0 <= i < items.len() ==> (#[trigger] items[i]).0 != r) implies
            #[trigger] after.updater_to_keys.contains_key(NonceUpdater::TxRef(r))
            == t.updater_to_keys.contains_key(NonceUpdater::TxRef(r)) by {
            assert(items[n].0 != r);
            assert forall|i: int| 0 <= i < rest.len() implies (#[trigger] rest[i]).0 != r by {
                assert(items[i].0 != r);
            }
        }
    }
}

/// What waits for the nonces that the transaction may change waits for the transaction, and the
/// database knows them.
pub open spec fn unhindered(w: World, item: Item) -> bool {
    let updates = item.1.nonce_updates();
    &&& w.db.nonces.contains_key(item.1.nonce_key())
    &&& forall|k: NonceKey| #[trigger] updates.contains(k) ==> w.db.nonces.contains_key(k)
    &&& awaiting_all(w.tracker.nonces, updates, w.queue, NonceUpdater::TxRef(item.0))
}

/// All of `items` can be accounted for in some order, and what is to be dropped is there.
pub open spec fn sendable(b: Batch, items: Seq<Item>) -> bool {
    let nonces = b.world.tracker.nonces;
    &&& heights_ascend(b.world.queue)
    &&& awaiting_apart(nonces, nonces.dom())
    &&& forall|i: int|
        0 <= i < items.len() ==> followed(b.world.tracker, #[trigger] items[i]) && unhindered(
            b.world,
            items[i],
        )
    &&& forall|k: NonceKey| #[trigger] b.expired.contains(k) ==> nonces.contains_key(k)
}

proof fn lemma_can_account(b: Batch, item: Item)
    requires
        sendable(b, seq![item]),
        item.1 is Ready,
    ensures
        b.can_account((Some(item.0), item.1)),
{
    let one = seq![item];
    assert(one[0] == item);
    assert(followed(b.world.tracker, one[0]) && unhindered(b.world, one[0]));
    let nonces = b.world.tracker.nonces;
    let q = b.world.queue;
    let updates = item.1.nonce_updates();
    assert forall|x: TxRef| #[trigger] awaiting_of(nonces, updates).contains(x) implies tx_at(
        q,
        x,
    ).awaits(NonceUpdater::TxRef(item.0)) by {
        let k = choose|k: NonceKey| #[trigger]
            updates.contains(k) && nonces.contains_key(k) && nonces[k].txs_awaiting_nonce.contains(
                x,
            );
        assert(updates.contains(k) && nonces[k].txs_awaiting_nonce.contains(x));
    }
    assert forall|k: NonceKey, l: NonceKey, r: TxRef|
        #![trigger nonces[k].txs_awaiting_nonce.contains(r), nonces[l].txs_awaiting_nonce.contains(r)]
        updates.contains(k) && updates.contains(l) && nonces.contains_key(k)
            && nonces.contains_key(l) && nonces[k].txs_awaiting_nonce.contains(r)
            && nonces[l].txs_awaiting_nonce.contains(r) implies k == l by {
        assert(nonces.dom().contains(k) && nonces.dom().contains(l));
    }
}

proof fn lemma_accounted_sendable(
    b: Batch,
    item: Item,
    others: Seq<Item>,
    target_height: BlockHeight,
    now: u64,
)
    requires
        sendable(b, seq![item]),
        sendable(b, others),
        item.1 is Ready,
        forall|i: int| 0 <= i < others.len() ==> (#[trigger] others[i]).0 != item.0,
    ensures
        b.can_account((Some(item.0), item.1)),
        sendable(b.accounted((Some(item.0), item.1), target_height, now), others),
{
    lemma_can_account(b, item);
    let one = seq![item];
    assert(one[0] == item);
    assert(followed(b.world.tracker, one[0]) && unhindered(b.world, one[0]));
    let t = b.world.tracker;
    let q = b.world.queue;
    let updates = item.1.nonce_updates();
    let updater = NonceUpdater::TxRef(item.0);
    let after = b.accounted((Some(item.0), item.1), target_height, now);
    let u = after.world.tracker;
    let hash = item.1->Ready_0.target_tx.hash;
    let edit = if was_sent(item.1) {
        TxEdit::Rename { old: updater, new: NonceUpdater::ChainObjectId(hash) }
    } else {
        TxEdit::Forget { updater }
    };
    let refs = awaiting_of(t.nonces, updates);
    lemma_edited_leads(q, refs, edit);
    assert(after.world.queue == q || after.world.queue == edited(q, refs, edit)) by {
        if was_sent(item.1) && !t.sent_txs.contains_key(hash) {
            let taken = b.taken_down(Some(item.0), item.1->Ready_0, target_height, now);
            assert(taken.nonces == t.nonces);
        }
    }
    assert(u.nonces.dom() =~= t.nonces.dom());
    assert forall|k: NonceKey, r: TxRef|
        #![trigger u.nonces[k].txs_awaiting_nonce.contains(r)]
        u.nonces.contains_key(k) && u.nonces[k].txs_awaiting_nonce.contains(
            r,
        ) implies t.nonces[k].txs_awaiting_nonce.contains(r) by {}
    assert forall|k: NonceKey, l: NonceKey, r: TxRef|
        #![trigger u.nonces[k].txs_awaiting_nonce.contains(r), u.nonces[l].txs_awaiting_nonce.contains(r)]
        u.nonces.dom().contains(k) && u.nonces.dom().contains(l) && u.nonces.contains_key(k)
            && u.nonces.contains_key(l) && u.nonces[k].txs_awaiting_nonce.contains(r)
            && u.nonces[l].txs_awaiting_nonce.contains(r) implies k == l by {
        assert(t.nonces.dom().contains(k) && t.nonces.dom().contains(l));
        assert(t.nonces[k].txs_awaiting_nonce.contains(r));
        assert(t.nonces[l].txs_awaiting_nonce.contains(r));
    }
    assert forall|i: int| 0 <= i < others.len() implies followed(u, #[trigger] others[i])
        && unhindered(after.world, others[i]) by {
        let o = others[i];
        let ou = NonceUpdater::TxRef(o.0);
        let ups = o.1.nonce_updates();
        assert(ou != updater);
        assert(followed(t, o) && unhindered(b.world, o));
        assert(u.listed(ou) == t.listed(ou));
        assert forall|k: NonceKey, r: TxRef|
            #![trigger ups.contains(k), u.nonces[k].txs_awaiting_nonce.contains(r)]
            ups.contains(k) && u.nonces.contains_key(k) && u.nonces[k].txs_awaiting_nonce.contains(
                r,
            ) implies holds(after.world.queue, r) && tx_at(after.world.queue, r).awaits(ou) by {
            assert(t.nonces[k].txs_awaiting_nonce.contains(r));
            assert(holds(q, r) && tx_at(q, r).awaits(ou));
            lemma_edited(q, refs, edit, r);
        }
    }
}

/// Followed transactions whose nonces are set can be accounted for one after the other, provided
/// that what waits for the nonces that they may change waits for them: whatever is done for one
/// leaves the others fit.
pub proof fn followed_txs_can_be_sent(
    b: Batch,
    items: Seq<Item>,
    n: int,
    target_height: BlockHeight,
    now: u64,
)
    requires
        0 <= n <= items.len(),
        refs_distinct(items),
        sendable(b, items),
        forall|i: int| 0 <= i < items.len() ==> (#[trigger] items[i]).1 is Ready,
    ensures
        sendable(b.all_accounted(as_sent(items), n, target_height, now), items.skip(n)),
        forall|i: int|
            0 <= i < n ==> #[trigger] b.all_accounted(
                as_sent(items),
                i,
                target_height,
                now,
            ).can_account(as_sent(items)[i]),
    decreases n,
{
    if n == 0 {
        assert(items.skip(0) =~= items);
    } else {
        followed_txs_can_be_sent(b, items, n - 1, target_height, now);
        let before = b.all_accounted(as_sent(items), n - 1, target_height, now);
        let left = items.skip(n - 1);
        assert(left[0] == items[n - 1]);
        assert(followed(before.world.tracker, left[0]) && unhindered(before.world, left[0]));
        let others = items.skip(n);
        assert forall|i: int| 0 <= i < others.len() implies followed(
            before.world.tracker,
            #[trigger] others[i],
        ) && unhindered(before.world, others[i]) && others[i].0 != items[n - 1].0 by {
            assert(others[i] == left[i + 1]);
            assert(items[n - 1].0 != items[n + i].0);
        }
        lemma_accounted_sendable(before, items[n - 1], others, target_height, now);
    }
}

proof fn lemma_all_ready(items: Seq<Item>)
    requires
        forall|i: int| 0 <= i < items.len() ==> (#[trigger] items[i]).1 is Ready,
    ensures
        ready(items) == items,
        waiting(items) == Seq::<Item>::empty(),
    decreases items.len(),
{
    if items.len() > 0 {
        assert forall|i: int| 0 <= i < items.drop_last().len() implies (
        #[trigger] items.drop_last()[i]).1 is Ready by {
            assert(items[i].1 is Ready);
        }
        lemma_all_ready(items.drop_last());
        assert(items.last() == items[items.len() - 1]);
        assert(items.drop_last().push(items.last()) =~= items);
    } else {
        assert(items =~= Seq::empty());
    }
}

/// A batch of such transactions can be accounted for as a whole.
pub proof fn ready_batch_can_be_finished(
    w: World,
    b: TxBatchView,
    target_height: BlockHeight,
    now: u64,
)
    requires
        w.tracker.delays_fit(),
        refs_distinct(b.txs),
        sendable(batch(w, Set::empty()), b.txs),
        forall|i: int| 0 <= i < b.txs.len() ==> (#[trigger] b.txs[i]).1 is Ready,
    ensures
        w.can_finish_batch(SentView::MappedBlock(b), target_height, now),
{
    lemma_all_ready(b.txs);
    let sent = SentView::MappedBlock(b);
    let o = w.tracker.opened(w.queue, sent);
    assert(b.txs + Seq::<Item>::empty() =~= b.txs);
    assert(o.items == as_sent(b.txs));
    let start = batch(World { tracker: o.tracker, ..w }, Set::empty());
    assert(start.world =~= World { tracker: o.tracker, queue: o.queue, ..w });
    assert forall|i: int| 0 <= i < b.txs.len() implies followed(
        start.world.tracker,
        #[trigger] b.txs[i],
    ) && unhindered(start.world, b.txs[i]) by {
        let item = b.txs[i];
        assert(followed(w.tracker, item) && unhindered(w, item));
        assert(start.world.tracker.listed(NonceUpdater::TxRef(item.0)) == w.tracker.listed(
            NonceUpdater::TxRef(item.0),
        ));
    }
    followed_txs_can_be_sent(start, b.txs, b.txs.len() as int, target_height, now);
}

/// A batch with transactions that still wait can be accounted for as a whole, if those go back into
/// the queue and what is left is such that it can be accounted for one after the other.
pub proof fn batch_with_waiting_txs_can_be_finished(
    w: World,
    b: TxBatchView,
    target_height: BlockHeight,
    now: u64,
)
    requires
        w.tracker.delays_fit(),
        w.tracker.can_open(w.queue, SentView::MappedBlock(b)),
        w.tracker.requeues(b),
        refs_distinct(ready(b.txs)),
        ({
            let o = w.tracker.opened(w.queue, SentView::MappedBlock(b));
            let opened = World { tracker: o.tracker, queue: o.queue, ..w };
            sendable(batch(opened, Set::empty()), ready(b.txs))
        }),
    ensures
        w.can_finish_batch(SentView::MappedBlock(b), target_height, now),
{
    let o = w.tracker.opened(w.queue, SentView::MappedBlock(b));
    let start = batch(World { tracker: o.tracker, queue: o.queue, ..w }, Set::empty());
    lemma_ready_are_ready(b.txs);
    followed_txs_can_be_sent(
        start,
        ready(b.txs),
        ready(b.txs).len() as int,
        target_height,
        now,
    );
}

proof fn lemma_ready_are_ready(items: Seq<Item>)
    ensures
        forall|i: int| 0 <= i < ready(items).len() ==> (#[trigger] ready(items)[i]).1 is Ready,
    decreases items.len(),
{
    if items.len() > 0 {
        lemma_ready_are_ready(items.drop_last());
    }
}

/// A transaction that is sent again changes nothing.
pub proof fn sending_twice_is_sending_once(
    b: Batch,
    tx_ref: Option<TxRef>,
    again_ref: Option<TxRef>,
    tx: MappedTxView,
    target_height: BlockHeight,
    again_height: BlockHeight,
    now: u64,
    again: u64,
)
    ensures
        b.sent(tx_ref, tx, target_height, now).sent(again_ref, tx, again_height, again) == b.sent(
            tx_ref,
            tx,
            target_height,
            now,
        ),
{
}

/// A sent transaction that is found on the chain is no longer waited for, and the source block
/// that it is from counts as seen.
pub proof fn sent_tx_is_found(
    b: Batch,
    tx_ref: Option<TxRef>,
    tx: MappedTxView,
    target_height: BlockHeight,
    now: u64,
    found: TargetTxView,
)
    requires
        !b.world.tracker.sent_txs.contains_key(tx.target_tx.hash),
        found.hash == tx.target_tx.hash,
        found.nonce_key == tx.target_tx.transaction.nonce_key(),
        found.nonce == tx.target_tx.transaction.nonce,
    ensures
        ({
            let t = b.sent(tx_ref, tx, target_height, now).world.tracker;
            let after = t.tx_found(found);
            &&& t.sent_txs.contains_key(found.hash)
            &&& t.txs_by_signer[found.nonce_key].contains(found.id())
            &&& !after.sent_txs.contains_key(found.hash)
            &&& after.txs_by_signer.contains_key(found.nonce_key)
                ==> !after.txs_by_signer[found.nonce_key].contains(found.id())
            &&& at_most(height_of(tx_ref), after.height_seen)
            &&& at_most(t.height_seen, after.height_seen)
        }),
{
}

/// Accounting for a transaction changes only what is known of sent transactions, updaters and
/// nonces.
proof fn lemma_accounted_keeps(b: Batch, item: SentItemView, target_height: BlockHeight, now: u64)
    ensures
        ({
            let t = b.accounted(item, target_height, now).world.tracker;
            t == (TrackerView {
                sent_txs: t.sent_txs,
                txs_by_signer: t.txs_by_signer,
                updater_to_keys: t.updater_to_keys,
                nonces: t.nonces,
                ..b.world.tracker
            })
        }),
        b.expired.subset_of(b.accounted(item, target_height, now).expired),
{
}

proof fn lemma_all_accounted_keeps(
    b: Batch,
    items: Seq<SentItemView>,
    n: int,
    target_height: BlockHeight,
    now: u64,
)
    requires
        0 <= n <= items.len(),
    ensures
        ({
            let t = b.all_accounted(items, n, target_height, now).world.tracker;
            t == (TrackerView {
                sent_txs: t.sent_txs,
                txs_by_signer: t.txs_by_signer,
                updater_to_keys: t.updater_to_keys,
                nonces: t.nonces,
                ..b.world.tracker
            })
        }),
    decreases n,
{
    if n > 0 {
        lemma_all_accounted_keeps(b, items, n - 1, target_height, now);
        let before = b.all_accounted(items, n - 1, target_height, now);
        lemma_accounted_keeps(before, items[n - 1], target_height, now);
    }
}

proof fn lemma_moved_keeps(r: Retracking, refs: Seq<MoveView>, taken: Set<TxRef>, n: int)
    requires
        0 <= n <= refs.len(),
    ensures
        ({
            let t = r.all_moved(refs, taken, n).tracker;
            t == (TrackerView {
                updater_to_keys: t.updater_to_keys,
                nonces: t.nonces,
                ..r.tracker
            })
        }),
    decreases n,
{
    if n > 0 {
        lemma_moved_keeps(r, refs, taken, n - 1);
    }
}

/// What a batch does to the part of the tracker that is not about single transactions.
pub proof fn lemma_batch_keeps(w: World, sent: SentView, target_height: BlockHeight, now: u64)
    ensures
        ({
            let t = w.batch_finished(sent, target_height, now).tracker;
            t == (TrackerView {
                sent_txs: t.sent_txs,
                txs_by_signer: t.txs_by_signer,
                updater_to_keys: t.updater_to_keys,
                nonces: t.nonces,
                ..match sent {
                    SentView::MappedBlock(b) => w.tracker.popped(b),
                    SentView::ExtraTxs(_) => w.tracker,
                }
            })
        }),
{
    let o = w.tracker.opened(w.queue, sent);
    let start = batch(World { tracker: o.tracker, queue: o.queue, ..w }, Set::empty());
    lemma_all_accounted_keeps(start, o.items, o.items.len() as int, target_height, now);
    if let SentView::MappedBlock(b) = sent {
        let t = w.tracker.popped(b);
        let refs = moves(waiting(b.txs), b.source_height);
        lemma_moved_keeps(
            Retracking { tracker: t, deferred: Seq::empty() },
            refs,
            refs_of(ready(b.txs)),
            refs.len() as int,
        );
    }
}

/// The heights only rise: what was sent counts as sent, and nothing that was seen is forgotten.
pub proof fn batches_raise_heights(w: World, sent: SentView, target_height: BlockHeight, now: u64)
    ensures
        ({
            let t = w.batch_finished(sent, target_height, now).tracker;
            &&& at_most(w.tracker.height_popped, t.height_popped)
            &&& sent matches SentView::MappedBlock(b) ==> at_most(
                Some(b.source_height),
                t.height_popped,
            )
            &&& t.height_seen == w.tracker.height_seen
            &&& w.tracker.is_finished() ==> t.is_finished()
        }),
{
    lemma_batch_keeps(w, sent, target_height, now);
}

/// What target blocks leave alone of the tracker, and that they only raise the height that was
/// seen.
pub open spec fn raised(a: TrackerView, b: TrackerView) -> bool {
    &&& at_most(a.height_seen, b.height_seen)
    &&& b.height_popped == a.height_popped
    &&& b.stop_height == a.stop_height
    &&& b.nonempty_height_queued == a.nonempty_height_queued
    &&& b.requeue_attempts == a.requeue_attempts
}

proof fn lemma_txs_raise(p: Progress, txs: Seq<TargetTxView>)
    ensures
        raised(p.world.tracker, p.txs_done(txs).world.tracker),
    decreases txs.len(),
{
    if txs.len() > 0 {
        lemma_txs_raise(p, txs.drop_last());
    }
}

proof fn lemma_receipts_raise(p: Progress, receipts: Seq<ReceiptView>)
    ensures
        raised(p.world.tracker, p.receipts_done(receipts).world.tracker),
    decreases receipts.len(),
{
    if receipts.len() > 0 {
        lemma_receipts_raise(p, receipts.drop_last());
    }
}

/// A target block only raises the height that was seen. Once there is nothing left to send or to
/// wait for, a target block does not change that.
pub proof fn target_blocks_raise_heights(p: Progress, shards: Seq<ShardView>)
    ensures
        raised(p.world.tracker, p.shards_done(shards).world.tracker),
        p.world.tracker.is_finished() ==> p.shards_done(shards).world.tracker.is_finished(),
    decreases shards.len(),
{
    if shards.len() > 0 {
        target_blocks_raise_heights(p, shards.drop_last());
        let before = p.shards_done(shards.drop_last());
        lemma_txs_raise(before, shards.last().transactions);
        lemma_receipts_raise(
            before.txs_done(shards.last().transactions),
            shards.last().receipts,
        );
    }
}

proof fn lemma_expired_grows(
    b: Batch,
    items: Seq<SentItemView>,
    m: int,
    n: int,
    target_height: BlockHeight,
    now: u64,
)
    requires
        0 <= m <= n <= items.len(),
    ensures
        b.all_accounted(items, m, target_height, now).expired.subset_of(
            b.all_accounted(items, n, target_height, now).expired,
        ),
    decreases n,
{
    if m < n {
        lemma_expired_grows(b, items, m, n - 1, target_height, now);
        let before = b.all_accounted(items, n - 1, target_height, now);
        lemma_accounted_keeps(before, items[n - 1], target_height, now);
        let x = b.all_accounted(items, m, target_height, now).expired;
        let y = before.expired;
        let z = b.all_accounted(items, n, target_height, now).expired;
        assert forall|k: NonceKey| x.contains(k) implies z.contains(k) by {
            assert(y.contains(k));
        }
    }
}

/// The nonce of a transaction leaves memory with the batch that is from the last height that
/// refers to it, unless the transaction was sent before.
pub proof fn used_nonces_leave_memory(
    w: World,
    sent: SentView,
    i: int,
    target_height: BlockHeight,
    now: u64,
)
    requires
        0 <= i < w.tracker.opened(w.queue, sent).items.len(),
    ensures
        ({
            let o = w.tracker.opened(w.queue, sent);
            let start = batch(World { tracker: o.tracker, queue: o.queue, ..w }, Set::empty());
            let t = start.all_accounted(o.items, i, target_height, now).world.tracker;
            let (tx_ref, tx) = o.items[i];
            let key = tx.nonce_key();
            tx_ref is Some && t.nonces.contains_key(key) && at_most(
                t.nonces[key].last_height,
                height_of(tx_ref),
            ) && !(tx matches TxView::Ready(m) && t.sent_txs.contains_key(m.target_tx.hash))
                ==> !w.batch_finished(sent, target_height, now).tracker.nonces.contains_key(key)
        }),
{
    let o = w.tracker.opened(w.queue, sent);
    let start = batch(World { tracker: o.tracker, queue: o.queue, ..w }, Set::empty());
    let b = start.all_accounted(o.items, i, target_height, now);
    let next = start.all_accounted(o.items, i + 1, target_height, now);
    let (tx_ref, tx) = o.items[i];
    let key = tx.nonce_key();
    let n = o.items.len() as int;
    lemma_expired_grows(start, o.items, i + 1, n, target_height, now);
    assert(next == b.accounted(o.items[i], target_height, now));
    let t = b.world.tracker;
    if tx_ref is Some && t.nonces.contains_key(key) && at_most(
        t.nonces[key].last_height,
        height_of(tx_ref),
    ) && !(tx matches TxView::Ready(m) && t.sent_txs.contains_key(m.target_tx.hash)) {
        assert(next.expired.contains(key));
        assert(start.all_accounted(o.items, n, target_height, now).expired.contains(key));
    }
}

/// What the target chain says of a nonce never lowers what is known of it.
pub proof fn answers_raise_nonces(
    target: TargetNonceView,
    updater: NonceUpdater,
    answer: Option<Nonce>,
    found: Nonce,
)
    ensures
        at_most(target.nonce, target.settled(updater, answer).nonce),
        at_most(answer, target.settled(updater, answer).nonce),
        at_most(target.nonce, forced(target, found).nonce),
        at_most(Some(found), forced(target, found).nonce),
{
}

/// What waited for a queued transaction waits for it on the chain once it was sent: when it is
/// found there, all can be handed on to its receipt. That some nonces left memory does not matter.
pub proof fn sent_tx_can_turn(
    b: Batch,
    r: TxRef,
    tx: MappedTxView,
    target_height: BlockHeight,
    now: u64,
    gone: Set<NonceKey>,
)
    requires
        !b.world.tracker.sent_txs.contains_key(tx.target_tx.hash),
        b.can_send(Some(r), tx),
        !b.world.tracker.updater_to_keys.contains_key(
            NonceUpdater::ChainObjectId(tx.target_tx.hash),
        ),
    ensures
        ({
            let w = b.sent(Some(r), tx, target_height, now).world;
            let left = World {
                tracker: TrackerView { nonces: w.tracker.nonces.remove_keys(gone), ..w.tracker },
                ..w
            };
            &&& w.db.outcomes.contains_key(tx.target_tx.hash)
            &&& w.db.outcomes[tx.target_tx.hash] == tx.nonce_updates
            &&& left.can_turn(tx.target_tx.hash, tx.nonce_updates)
        }),
{
    let hash = tx.target_tx.hash;
    let keys = tx.nonce_updates;
    let old = NonceUpdater::TxRef(r);
    let new = NonceUpdater::ChainObjectId(hash);
    let t = b.world.tracker;
    let q = b.world.queue;
    let w = b.sent(Some(r), tx, target_height, now).world;
    let nonces = w.tracker.nonces.remove_keys(gone);
    let refs = awaiting_of(t.nonces, keys);
    let edit = TxEdit::Rename { old, new };
    let taken = b.taken_down(Some(r), tx, target_height, now);
    assert(taken.nonces == t.nonces);
    assert(w.queue == edited(q, refs, edit));
    lemma_edited_leads(q, refs, edit);
    let left = awaiting_of(nonces, keys);
    if left != Set::<TxRef>::empty() {
        let x = lemma_some_ref(left);
        let k = choose|k: NonceKey| #[trigger]
            keys.contains(k) && nonces.contains_key(k) && nonces[k].txs_awaiting_nonce.contains(x);
        assert(t.nonces[k].txs_awaiting_nonce.contains(x));
        assert(refs.contains(x));
    }
    assert forall|k: NonceKey, x: TxRef|
        #![trigger keys.contains(k), nonces[k].txs_awaiting_nonce.contains(x)]
        keys.contains(k) && nonces.contains_key(k) && nonces[k].txs_awaiting_nonce.contains(
            x,
        ) implies holds(w.queue, x) && tx_at(w.queue, x).awaits(new) by {
        assert(t.nonces[k].txs_awaiting_nonce.contains(x));
        assert(refs.contains(x));
        lemma_edited(q, refs, edit, x);
    }
    assert forall|k: NonceKey, l: NonceKey, x: TxRef|
        #![trigger nonces[k].txs_awaiting_nonce.contains(x), nonces[l].txs_awaiting_nonce.contains(x)]
        keys.contains(k) && keys.contains(l) && nonces.contains_key(k) && nonces.contains_key(l)
            && nonces[k].txs_awaiting_nonce.contains(x) && nonces[l].txs_awaiting_nonce.contains(
            x,
        ) implies k == l by {
        assert(t.nonces[k].txs_awaiting_nonce.contains(x));
        assert(t.nonces[l].txs_awaiting_nonce.contains(x));
    }
}

/// A receipt that a transaction turned into can be taken in when it is applied. Each nonce that the
/// transaction may have changed is then reported, and nothing is listed for the receipt any more.
pub proof fn receipt_of_turned_tx_is_reported(
    p: Progress,
    tx_hash: CryptoHash,
    keys: Set<NonceKey>,
    receipt: ReceiptView,
    key: NonceKey,
)
    requires
        p.world.can_turn(tx_hash, keys),
        !p.world.tracker.updater_to_keys.contains_key(NonceUpdater::ChainObjectId(receipt.id)),
        keys.finite(),
        keys.contains(key),
    ensures
        ({
            let turned = Progress { world: p.world.turned(tx_hash, receipt.id, keys), ..p };
            let done = turned.receipt_done(receipt);
            &&& turned.can_apply(receipt)
            &&& done.updates.contains((key, receipt.id))
            &&& !done.world.tracker.updater_to_keys.contains_key(
                NonceUpdater::ChainObjectId(receipt.id),
            )
            &&& done.world.db.nonces.contains_key(key)
            &&& done.world.db.nonces[key].pending_outcomes.contains(receipt.id)
        }),
{
    let turned = Progress { world: p.world.turned(tx_hash, receipt.id, keys), ..p };
    let done = turned.receipt_done(receipt);
    let list = listing::<NonceLookupKey>(keys);
    lemma_listing_exists::<NonceLookupKey>(keys);
    assert(list.to_set().contains(key));
    let i = list.index_of(key);
    assert(updates_by(keys, receipt.id)[i] == (key, receipt.id));
    assert(done.updates[turned.updates.len() + i] == (key, receipt.id));
    lemma_descendants_keep_nonces(turned.world.outcome_done(receipt.id).db, receipt.receipt_ids);
}

proof fn lemma_descendants_keep_nonces(db: DbView, ids: Seq<CryptoHash>)
    ensures
        with_descendants(db, ids).nonces == db.nonces,
    decreases ids.len(),
{
    if ids.len() > 0 {
        lemma_descendants_keep_nonces(db, ids.drop_last());
    }
}

} // verus!
