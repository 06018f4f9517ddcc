//! What follows when a batch of transactions was sent.

use vstd::prelude::*;

use super::db::NonceDb;
use super::delay::{SlowBlocks, SHORT_DELAY_NANOS};
use super::ids::{NonceKey, NonceLookupKey, NonceUpdater, TxRef};
use super::queue::{heights_ascend, with_block, BlockQueue, QueueView};
use super::queueing::Item;
use super::requeueing::{
    dedup_keys, keys_to_resolve, moves, regroup, regrouped, Listing, ListingView, MoveView,
    Retracking,
};
use super::sending::{batch, Batch, SendNotice};
use super::target::{world, World};
use super::tracker::{TrackerView, TxTracker};
use super::tx::{later, later_of, TargetChainTx, TxView};
use crate::keys::{BlockHeight, CryptoHash};
use crate::ordered::{ascending, lemma_prefix_step, lemma_to_set_push, views, Key, OrderedSet};

verus! {

/// How often the transactions of a block go back into the queue before they are given up.
pub const MAX_REQUEUE_ATTEMPTS: usize = 5;

/// The transactions of one source block.
pub struct TxBatch {
    pub source_height: BlockHeight,
    pub source_hash: CryptoHash,
    pub txs: Vec<(TxRef, TargetChainTx)>,
}

/// The view of a `TxBatch`.
#[verifier::ext_equal]
pub ghost struct TxBatchView {
    pub source_height: BlockHeight,
    pub source_hash: CryptoHash,
    pub txs: Seq<Item>,
}

impl View for TxBatch {
    type V = TxBatchView;

    open spec fn view(&self) -> TxBatchView {
        TxBatchView {
            source_height: self.source_height,
            source_hash: self.source_hash,
            txs: views(self.txs@),
        }
    }
}

/// What was sent.
pub enum SentBatch {
    MappedBlock(TxBatch),
    /// Transactions that are from no source block.
    ExtraTxs(Vec<TargetChainTx>),
}

/// The view of a `SentBatch`.
#[verifier::ext_equal]
pub ghost enum SentView {
    MappedBlock(TxBatchView),
    ExtraTxs(Seq<TxView>),
}

impl View for SentBatch {
    type V = SentView;

    open spec fn view(&self) -> SentView {
        match self {
            SentBatch::MappedBlock(b) => SentView::MappedBlock(b@),
            SentBatch::ExtraTxs(txs) => SentView::ExtraTxs(views(txs@)),
        }
    }
}

/// The nonces that some transactions use or may change.
pub open spec fn keys_of(txs: Seq<TxView>) -> Set<NonceKey>
    decreases txs.len(),
{
    if txs.len() == 0 {
        Set::empty()
    } else {
        keys_of(txs.drop_last()).union(txs.last().nonce_updates()).insert(txs.last().nonce_key())
    }
}

impl SentView {
    /// The transactions of the batch.
    pub open spec fn txs(self) -> Seq<TxView> {
        match self {
            SentView::MappedBlock(b) => b.txs.map_values(|x: Item| x.1),
            SentView::ExtraTxs(txs) => txs,
        }
    }
}

fn collect_keys(tx: &TargetChainTx, found: &mut OrderedSet<NonceLookupKey>)
    ensures
        final(found)@ == old(found)@.union(tx@.nonce_updates()).insert(tx@.nonce_key()),
{
    let ghost s = found@;
    let updates = tx.nonce_updates();
    let ghost list = updates.list();
    let n: usize = updates.len();
    let mut i: usize = 0;
    assert(s =~= s.union(list.take(0).to_set()));
    while i < n
        invariant
            i <= n,
            n == updates.list().len(),
            list == updates.list(),
            ascending::<NonceLookupKey>(list),
            found@ == s.union(list.take(i as int).to_set()),
        decreases n - i,
    {
        proof {
            lemma_prefix_step::<NonceLookupKey>(list, i as int);
        }
        found.insert(updates.item_at(i).duplicate());
        assert(found@ =~= s.union(list.take(i + 1).to_set()));
        i += 1;
    }
    assert(list.take(n as int) =~= list);
    found.insert(tx.nonce_key());
}

impl SentBatch {
    /// The nonces that the transactions of the batch use or may change, whose records are needed
    /// to account for it.
    pub fn nonce_keys(&self) -> (r: OrderedSet<NonceLookupKey>)
        ensures
            r@ == keys_of(self@.txs()),
    {
        let ghost all = self@.txs();
        let mut r: OrderedSet<NonceLookupKey> = OrderedSet::new();
        let mut i: usize = 0;
        assert(all.take(0) =~= Seq::empty());
        match self {
            SentBatch::MappedBlock(b) => {
                while i < b.txs.len()
                    invariant
                        i <= b.txs@.len(),
                        all == b@.txs.map_values(|x: Item| x.1),
                        r@ == keys_of(all.take(i as int)),
                    decreases b.txs@.len() - i,
                {
                    assert(b@.txs[i as int] == b.txs@[i as int]@);
                    assert(all.take(i + 1).drop_last() =~= all.take(i as int));
                    collect_keys(&b.txs[i].1, &mut r);
                    i += 1;
                }
            },
            SentBatch::ExtraTxs(txs) => {
                while i < txs.len()
                    invariant
                        i <= txs@.len(),
                        all == views(txs@),
                        r@ == keys_of(all.take(i as int)),
                    decreases txs@.len() - i,
                {
                    assert(all.take(i + 1).drop_last() =~= all.take(i as int));
                    collect_keys(&txs[i], &mut r);
                    i += 1;
                }
            },
        }
        assert(all.take(all.len() as int) =~= all);
        r
    }
}

/// What came of a batch.
pub struct SentReport {
    /// How long to wait before the next batch, in nanoseconds.
    pub next_delay: u128,
    /// Nonces that are worth asking the target chain for.
    pub nonce_keys: Vec<NonceLookupKey>,
    /// The number of transactions that were sent.
    pub sent: usize,
    /// The number of transactions that went back into the queue.
    pub requeued: usize,
    /// The number of transactions that were given up.
    pub given_up: usize,
    /// How often those had gone back into the queue.
    pub went_back: usize,
    /// What is out of the ordinary about transactions that were sent, in order.
    pub notices: Vec<SendNotice>,
    /// The delays between recent blocks, where they are longer than expected.
    pub slow_blocks: Option<SlowBlocks>,
}

impl SentReport {
    /// The report is the one for a batch.
    pub open spec fn tells(self, t: TrackerView, q: QueueView, sent: SentView) -> bool {
        let o = t.opened(q, sent);
        &&& views(self.nonce_keys@) == o.nonce_keys
        &&& self.sent == sent_count(o.items)
        &&& self.requeued == o.requeued
        &&& self.given_up == o.given_up
        &&& self.went_back == o.went_back
        &&& t.slow_blocks(self.slow_blocks)
        &&& if o.again {
            self.next_delay == SHORT_DELAY_NANOS
        } else {
            t.normal_delay(self.next_delay)
        }
    }
}

/// A transaction to account for. One from no source block has no reference.
pub type SentItem = (Option<TxRef>, TargetChainTx);

/// The view of a `SentItem`.
pub type SentItemView = (Option<TxRef>, TxView);

/// The transactions that still wait for their nonces, in order.
pub open spec fn waiting(items: Seq<Item>) -> Seq<Item>
    decreases items.len(),
{
    if items.len() == 0 {
        Seq::empty()
    } else {
        let rest = waiting(items.drop_last());
        if items.last().1 is Ready {
            rest
        } else {
            rest.push(items.last())
        }
    }
}

/// The transactions whose nonces are set, in order.
pub open spec fn ready(items: Seq<Item>) -> Seq<Item>
    decreases items.len(),
{
    if items.len() == 0 {
        Seq::empty()
    } else {
        let rest = ready(items.drop_last());
        if items.last().1 is Ready {
            rest.push(items.last())
        } else {
            rest
        }
    }
}

/// The transactions to account for.
pub open spec fn as_sent(items: Seq<Item>) -> Seq<SentItemView> {
    items.map_values(|x: Item| (Some(x.0), x.1))
}

pub open spec fn refs_of(items: Seq<Item>) -> Set<TxRef> {
    items.map_values(|x: Item| x.0).to_set()
}

/// A batch that is ready to be accounted for.
#[verifier::ext_equal]
pub ghost struct OpenedView {
    pub tracker: TrackerView,
    pub queue: QueueView,
    pub items: Seq<SentItemView>,
    pub deferred: Seq<ListingView>,
    pub nonce_keys: Seq<NonceKey>,
    pub requeued: nat,
    pub given_up: nat,
    pub went_back: nat,
    /// The block is to be looked after again soon.
    pub again: bool,
}

impl TrackerView {
    /// How often the block at a height goes back into the queue, with this time.
    pub open spec fn attempt(self, height: BlockHeight) -> int {
        if self.requeue_attempts.contains_key(height) {
            self.requeue_attempts[height] + 1
        } else {
            1
        }
    }

    /// The waiting transactions of the batch are given up.
    pub open spec fn gives_up(self, b: TxBatchView) -> bool {
        waiting(b.txs).len() > 0 && self.attempt(b.source_height) > MAX_REQUEUE_ATTEMPTS
    }

    /// Some transactions of the batch go back into the queue.
    pub open spec fn requeues(self, b: TxBatchView) -> bool {
        waiting(b.txs).len() > 0 && self.attempt(b.source_height) <= MAX_REQUEUE_ATTEMPTS
    }

    pub open spec fn can_open(self, q: QueueView, batch: SentView) -> bool {
        match batch {
            SentView::MappedBlock(b) => {
                self.requeues(b) ==> {
                    &&& heights_ascend(q)
                    &&& forall|i: int|
                        0 <= i < q.len() ==> (#[trigger] q[i]).source_height != b.source_height
                }
            },
            SentView::ExtraTxs(_) => true,
        }
    }

    /// The tracker after the references of requeued transactions changed.
    pub open spec fn retracked(self, b: TxBatchView) -> Retracking {
        let refs = moves(waiting(b.txs), b.source_height);
        (Retracking { tracker: self, deferred: Seq::empty() }).all_moved(
            refs,
            refs_of(ready(b.txs)),
            refs.len() as int,
        )
    }

    /// The tracker that has taken note of a batch. Only batches that go back into the queue are
    /// counted.
    pub open spec fn popped(self, b: TxBatchView) -> TrackerView {
        let height = b.source_height;
        TrackerView {
            requeue_attempts: if self.gives_up(b) {
                self.requeue_attempts.remove(height)
            } else if self.requeues(b) {
                self.requeue_attempts.insert(height, self.attempt(height) as usize)
            } else {
                self.requeue_attempts
            },
            height_popped: later(self.height_popped, Some(height)),
            ..self
        }
    }

    /// What is to be accounted for, once waiting transactions went back into the queue.
    pub open spec fn opened(self, q: QueueView, batch: SentView) -> OpenedView {
        match batch {
            SentView::MappedBlock(b) => {
                let gives_up = self.gives_up(b);
                let t = self.popped(b);
                let left = waiting(b.txs);
                if self.requeues(b) {
                    OpenedView {
                        tracker: t.retracked(b).tracker,
                        queue: with_block(q, regrouped(left, b.source_height, b.source_hash)),
                        items: as_sent(ready(b.txs)),
                        deferred: t.retracked(b).deferred,
                        nonce_keys: keys_to_resolve(left),
                        requeued: left.len(),
                        given_up: 0,
                        went_back: 0,
                        again: true,
                    }
                } else {
                    OpenedView {
                        tracker: t,
                        queue: q,
                        items: as_sent(ready(b.txs) + left),
                        deferred: Seq::empty(),
                        nonce_keys: Seq::empty(),
                        requeued: 0,
                        given_up: if gives_up {
                            left.len()
                        } else {
                            0
                        },
                        went_back: if gives_up {
                            (self.attempt(b.source_height) - 1) as nat
                        } else {
                            0
                        },
                        again: !gives_up && self.requeue_attempts.contains_key(b.source_height),
                    }
                }
            },
            SentView::ExtraTxs(txs) => OpenedView {
                tracker: self,
                queue: q,
                items: txs.map_values(|tx: TxView| (None::<TxRef>, tx)),
                deferred: Seq::empty(),
                nonce_keys: Seq::empty(),
                requeued: 0,
                given_up: 0,
                went_back: 0,
                again: false,
            },
        }
    }
}

/// The transaction was sent.
pub open spec fn was_sent(tx: TxView) -> bool {
    tx matches TxView::Ready(t) && t.sent_successfully
}

/// The number of transactions that were sent.
pub open spec fn sent_count(items: Seq<SentItemView>) -> nat
    decreases items.len(),
{
    if items.len() == 0 {
        0
    } else if was_sent(items.last().1) {
        sent_count(items.drop_last()) + 1
    } else {
        sent_count(items.drop_last())
    }
}

impl Batch {
    pub open spec fn can_account(self, item: SentItemView) -> bool {
        match item.1 {
            TxView::Ready(t) if t.sent_successfully => self.can_send(item.0, t),
            _ => self.can_skip(item.0, item.1.nonce_key(), item.1.nonce_updates()),
        }
    }

    /// One transaction is accounted for.
    pub open spec fn accounted(
        self,
        item: SentItemView,
        target_height: BlockHeight,
        now: u64,
    ) -> Batch {
        match item.1 {
            TxView::Ready(t) if t.sent_successfully => self.sent(item.0, t, target_height, now),
            _ => self.skipped(item.0, item.1.nonce_key(), item.1.nonce_updates()),
        }
    }

    /// What is out of the ordinary about one transaction.
    pub open spec fn item_notices(self, item: SentItemView) -> Seq<SendNotice> {
        match item.1 {
            TxView::Ready(t) if t.sent_successfully => self.notices(t),
            _ => Seq::empty(),
        }
    }

    /// What is out of the ordinary about the first `n` transactions.
    pub open spec fn all_notices(
        self,
        items: Seq<SentItemView>,
        n: int,
        target_height: BlockHeight,
        now: u64,
    ) -> Seq<SendNotice>
        decreases n,
    {
        if n <= 0 {
            Seq::empty()
        } else {
            self.all_notices(items, n - 1, target_height, now) + self.all_accounted(
                items,
                n - 1,
                target_height,
                now,
            ).item_notices(items[n - 1])
        }
    }

    /// The first `n` transactions are accounted for.
    pub open spec fn all_accounted(
        self,
        items: Seq<SentItemView>,
        n: int,
        target_height: BlockHeight,
        now: u64,
    ) -> Batch
        decreases n,
    {
        if n <= 0 {
            self
        } else {
            self.all_accounted(items, n - 1, target_height, now).accounted(
                items[n - 1],
                target_height,
                now,
            )
        }
    }

    pub open spec fn can_account_all(
        self,
        items: Seq<SentItemView>,
        target_height: BlockHeight,
        now: u64,
    ) -> bool {
        forall|i: int|
            0 <= i < items.len() ==> #[trigger] self.all_accounted(
                items,
                i,
                target_height,
                now,
            ).can_account(items[i])
    }
}

/// The updaters with the first `n` of the deferred ones listed.
pub open spec fn listed_with(
    updaters: Map<NonceUpdater, Set<NonceKey>>,
    deferred: Seq<ListingView>,
    n: int,
) -> Map<NonceUpdater, Set<NonceKey>>
    decreases n,
{
    if n <= 0 {
        updaters
    } else {
        listed_with(updaters, deferred, n - 1).insert(deferred[n - 1].0, deferred[n - 1].1)
    }
}

impl World {
    /// The world with all transactions of the batch accounted for, and the nonces to drop.
    pub open spec fn batch_accounted(
        self,
        sent: SentView,
        target_height: BlockHeight,
        now: u64,
    ) -> Batch {
        let o = self.tracker.opened(self.queue, sent);
        batch(World { tracker: o.tracker, queue: o.queue, ..self }, Set::empty()).all_accounted(
            o.items,
            o.items.len() as int,
            target_height,
            now,
        )
    }

    /// What is out of the ordinary about the transactions of the batch.
    pub open spec fn batch_notices(
        self,
        sent: SentView,
        target_height: BlockHeight,
        now: u64,
    ) -> Seq<SendNotice> {
        let o = self.tracker.opened(self.queue, sent);
        batch(World { tracker: o.tracker, queue: o.queue, ..self }, Set::empty()).all_notices(
            o.items,
            o.items.len() as int,
            target_height,
            now,
        )
    }

    /// Everything that the transactions of the batch have to do with is there.
    pub open spec fn can_finish_batch(
        self,
        sent: SentView,
        target_height: BlockHeight,
        now: u64,
    ) -> bool {
        let o = self.tracker.opened(self.queue, sent);
        let b = batch(World { tracker: o.tracker, queue: o.queue, ..self }, Set::empty());
        &&& self.tracker.delays_fit()
        &&& self.tracker.can_open(self.queue, sent)
        &&& b.can_account_all(o.items, target_height, now)
        &&& forall|k: NonceKey| #[trigger]
            self.batch_accounted(sent, target_height, now).expired.contains(k)
                ==> self.batch_accounted(
                sent,
                target_height,
                now,
            ).world.tracker.nonces.contains_key(k)
    }

    /// The world after a batch.
    pub open spec fn batch_finished(
        self,
        sent: SentView,
        target_height: BlockHeight,
        now: u64,
    ) -> World {
        let o = self.tracker.opened(self.queue, sent);
        let b = self.batch_accounted(sent, target_height, now);
        let t = b.world.tracker;
        World {
            tracker: TrackerView {
                updater_to_keys: listed_with(
                    t.updater_to_keys,
                    o.deferred,
                    o.deferred.len() as int,
                ),
                nonces: t.nonces.remove_keys(b.expired),
                ..t
            },
            ..b.world
        }
    }
}

/// A batch that is ready to be accounted for.
struct OpenedBatch {
    items: Vec<SentItem>,
    deferred: Vec<Listing>,
    nonce_keys: Vec<NonceLookupKey>,
    requeued: usize,
    given_up: usize,
    went_back: usize,
    again: bool,
}

/// What accounting for some transactions gave.
struct Accounted {
    expired: OrderedSet<NonceLookupKey>,
    sent: usize,
    notices: Vec<SendNotice>,
}

/// The ready transactions, the waiting ones, and the references of the ready ones.
fn split_batch(txs: Vec<(TxRef, TargetChainTx)>) -> (r: (
    Vec<SentItem>,
    Vec<(TxRef, TargetChainTx)>,
    OrderedSet<TxRef>,
))
    ensures
        views(r.0@) == as_sent(ready(views(txs@))),
        views(r.1@) == waiting(views(txs@)),
        r.2@ == refs_of(ready(views(txs@))),
{
    let ghost all = views(txs@);
    let mut sent: Vec<SentItem> = Vec::new();
    let mut left: Vec<(TxRef, TargetChainTx)> = Vec::new();
    let mut refs: OrderedSet<TxRef> = OrderedSet::new();
    proof {
        assert(all.take(0) =~= Seq::empty());
        assert(views(sent@) =~= as_sent(ready(all.take(0))));
        assert(views(left@) =~= waiting(all.take(0)));
        assert(ready(all.take(0)).map_values(|x: Item| x.0) =~= Seq::empty());
        assert(refs@ =~= refs_of(ready(all.take(0))));
    }
    for item in it: txs.into_iter()
        invariant
            all == views(it.seq()),
            views(sent@) == as_sent(ready(all.take(it.index() as int))),
            views(left@) == waiting(all.take(it.index() as int)),
            refs@ == refs_of(ready(all.take(it.index() as int))),
    {
        let ghost i = it.index() as int;
        let ghost r = ready(all.take(i));
        let ghost sent_before = views(sent@);
        let ghost left_before = views(left@);
        let (tx_ref, tx) = item;
        let ghost x = (tx_ref, tx@);
        assert(all[i] == x);
        assert(all.take(i + 1).drop_last() =~= all.take(i));
        if tx.is_ready() {
            refs.insert(tx_ref);
            sent.push((Some(tx_ref), tx));
            proof {
                assert(views(sent@) =~= sent_before.push((Some(x.0), x.1)));
                assert(as_sent(r.push(x)) =~= as_sent(r).push((Some(x.0), x.1)));
                lemma_refs_push(r, x);
            }
        } else {
            left.push((tx_ref, tx));
            assert(views(left@) =~= left_before.push(x));
        }
    }
    assert(all.take(all.len() as int) =~= all);
    (sent, left, refs)
}

proof fn lemma_refs_push(items: Seq<Item>, x: Item)
    ensures
        refs_of(items.push(x)) == refs_of(items).insert(x.0),
{
    let f = |x: Item| x.0;
    let a = items.map_values(f);
    assert(items.push(x).map_values(f) =~= a.push(x.0));
    lemma_to_set_push(a, x.0);
}

/// Whether some transaction still waits for its nonce.
fn has_waiting(txs: &Vec<(TxRef, TargetChainTx)>) -> (b: bool)
    ensures
        b == (waiting(views(txs@)).len() > 0),
{
    let ghost all = views(txs@);
    let mut i: usize = 0;
    let mut found = false;
    assert(all.take(0) =~= Seq::empty());
    while i < txs.len()
        invariant
            i <= txs@.len(),
            all == views(txs@),
            found == (waiting(all.take(i as int)).len() > 0),
        decreases txs@.len() - i,
    {
        assert(all[i as int] == txs@[i as int]@);
        assert(all.take(i + 1).drop_last() =~= all.take(i as int));
        if !txs[i].1.is_ready() {
            found = true;
        }
        i += 1;
    }
    assert(all.take(i as int) =~= all);
    found
}

/// The transactions of the second list behind those of the first.
fn join_items(sent: Vec<SentItem>, left: Vec<(TxRef, TargetChainTx)>) -> (r: Vec<SentItem>)
    ensures
        views(r@) == views(sent@) + as_sent(views(left@)),
{
    let ghost first = views(sent@);
    let ghost all = views(left@);
    let mut r = sent;
    assert(views(r@) =~= first + as_sent(all.take(0)));
    for item in it: left.into_iter()
        invariant
            all == views(it.seq()),
            views(r@) == first + as_sent(all.take(it.index() as int)),
    {
        let ghost i = it.index() as int;
        let ghost before = views(r@);
        let (tx_ref, tx) = item;
        let ghost x = (tx_ref, tx@);
        assert(all[i] == x);
        r.push((Some(tx_ref), tx));
        assert(views(r@) =~= before.push((Some(x.0), x.1)));
        assert(as_sent(all.take(i + 1)) =~= as_sent(all.take(i)).push((Some(x.0), x.1)));
        assert(views(r@) =~= first + as_sent(all.take(i + 1)));
    }
    assert(all.take(all.len() as int) =~= all);
    r
}

/// The transactions of no source block.
fn extra_items(txs: Vec<TargetChainTx>) -> (r: Vec<SentItem>)
    ensures
        views(r@) == views(txs@).map_values(|tx: TxView| (None::<TxRef>, tx)),
{
    let ghost all = views(txs@);
    let mut r: Vec<SentItem> = Vec::new();
    for tx in it: txs.into_iter()
        invariant
            all == views(it.seq()),
            r@.len() == it.index(),
            forall|j: int| 0 <= j < it.index() ==> (#[trigger] r@[j])@ == (None::<TxRef>, all[j]),
    {
        let ghost i = it.index() as int;
        assert(all[i] == tx@);
        r.push((None, tx));
    }
    assert(views(r@) =~= all.map_values(|tx: TxView| (None::<TxRef>, tx)));
    r
}

impl TxTracker {
    /// Puts waiting transactions back into the queue, and collects the others.
    fn open_batch(&mut self, tx_block_queue: &mut BlockQueue, sent_batch: SentBatch) -> (r:
        OpenedBatch)
        requires
            old(self)@.can_open(old(tx_block_queue)@, sent_batch@),
        ensures
            (OpenedView {
                tracker: final(self)@,
                queue: final(tx_block_queue)@,
                items: views(r.items@),
                deferred: views(r.deferred@),
                nonce_keys: views(r.nonce_keys@),
                requeued: r.requeued as nat,
                given_up: r.given_up as nat,
                went_back: r.went_back as nat,
                again: r.again,
            }) == old(self)@.opened(old(tx_block_queue)@, sent_batch@),
    {
        let ghost t = self@;
        let ghost q = tx_block_queue@;
        let no_keys: Vec<NonceLookupKey> = Vec::new();
        let no_listings: Vec<Listing> = Vec::new();
        assert(views(no_keys@) =~= Seq::empty());
        assert(views(no_listings@) =~= Seq::empty());
        match sent_batch {
            SentBatch::MappedBlock(b) => {
                let ghost v = b@;
                let source_height = b.source_height;
                let (items, left, ready_refs) = split_batch(b.txs);
                let counted: Option<usize> = match self.requeue_attempts.get(&source_height) {
                    Some(n) => Some(*n),
                    None => None,
                };
                self.height_popped = later_of(self.height_popped, Some(source_height));
                let n: usize = left.len();
                assert(views(left@).len() == n);
                if n == 0 {
                    assert(views(items@) =~= as_sent(ready(v.txs) + waiting(v.txs)));
                    return OpenedBatch {
                        items,
                        deferred: no_listings,
                        nonce_keys: no_keys,
                        requeued: 0,
                        given_up: 0,
                        went_back: 0,
                        again: counted.is_some(),
                    };
                }
                let before: usize = match counted {
                    Some(n) => n,
                    None => 0,
                };
                if before >= MAX_REQUEUE_ATTEMPTS {
                    self.requeue_attempts.remove(&source_height);
                    let items = join_items(items, left);
                    assert(views(items@) =~= as_sent(ready(v.txs) + waiting(v.txs)));
                    return OpenedBatch {
                        items,
                        deferred: no_listings,
                        nonce_keys: no_keys,
                        requeued: 0,
                        given_up: n,
                        went_back: before,
                        again: false,
                    };
                }
                self.requeue_attempts.insert(source_height, before + 1);
                assert(self@ == t.popped(v));
                let (block, refs) = regroup(left, source_height, b.source_hash);
                let nonce_keys = dedup_keys(&refs);
                assert(views(refs@).map_values(|m: MoveView| m.2) =~= waiting(v.txs).map_values(
                    |x: Item| x.1.nonce_key(),
                ));
                let deferred = self.retrack(&refs, &ready_refs);
                tx_block_queue.insert_block(block);
                OpenedBatch {
                    items,
                    deferred,
                    nonce_keys,
                    requeued: n,
                    given_up: 0,
                    went_back: 0,
                    again: true,
                }
            },
            SentBatch::ExtraTxs(txs) => OpenedBatch {
                items: extra_items(txs),
                deferred: no_listings,
                nonce_keys: no_keys,
                requeued: 0,
                given_up: 0,
                went_back: 0,
                again: false,
            },
        }
    }

    /// Accounts for one transaction, says whether it was sent, and what is out of the
    /// ordinary.
    fn account(
        &mut self,
        tx_block_queue: &mut BlockQueue,
        db: &mut NonceDb,
        item: SentItem,
        target_height: BlockHeight,
        now: u64,
        keys_to_remove: &mut OrderedSet<NonceLookupKey>,
    ) -> (r: (bool, Vec<SendNotice>))
        requires
            batch(
                world(old(self)@, old(tx_block_queue)@, old(db)@),
                old(keys_to_remove)@,
            ).can_account(item@),
        ensures
            r.0 == was_sent(item@.1),
            r.1@ == batch(
                world(old(self)@, old(tx_block_queue)@, old(db)@),
                old(keys_to_remove)@,
            ).item_notices(item@),
            batch(
                world(final(self)@, final(tx_block_queue)@, final(db)@),
                final(keys_to_remove)@,
            ) == batch(
                world(old(self)@, old(tx_block_queue)@, old(db)@),
                old(keys_to_remove)@,
            ).accounted(item@, target_height, now),
            final(db).loaded() == old(db).loaded(),
    {
        let (tx_ref, tx) = item;
        match tx {
            TargetChainTx::Ready(t) => {
                if t.sent_successfully {
                    let notices = self.on_tx_sent(
                        tx_block_queue,
                        db,
                        tx_ref,
                        t,
                        target_height,
                        now,
                        keys_to_remove,
                    );
                    (true, notices)
                } else {
                    let key = NonceLookupKey::from_tx(&t.target_tx.transaction);
                    self.on_tx_skipped(
                        tx_block_queue,
                        &tx_ref,
                        key,
                        &t.nonce_updates,
                        keys_to_remove,
                    );
                    (false, Vec::new())
                }
            },
            TargetChainTx::AwaitingNonce(t) => {
                let key = NonceLookupKey::from_tx(&t.target_tx);
                self.on_tx_skipped(tx_block_queue, &tx_ref, key, &t.nonce_updates, keys_to_remove);
                (false, Vec::new())
            },
        }
    }

    /// Whether the batch can be opened.
    fn can_open(&self, tx_block_queue: &BlockQueue, sent_batch: &SentBatch) -> (r: bool)
        ensures
            r == self@.can_open(tx_block_queue@, sent_batch@),
    {
        match sent_batch {
            SentBatch::MappedBlock(b) => {
                let counted: usize = match self.requeue_attempts.get(&b.source_height) {
                    Some(n) => *n,
                    None => 0,
                };
                if !has_waiting(&b.txs) || counted >= MAX_REQUEUE_ATTEMPTS {
                    return true;
                }
                if !tx_block_queue.ascends() {
                    return false;
                }
                match tx_block_queue.find_block(b.source_height) {
                    Ok(_) => false,
                    Err(_) => true,
                }
            },
            SentBatch::ExtraTxs(_) => true,
        }
    }

    /// Accounts for transactions one after the other, as long as everything is there that they
    /// need.
    fn account_all(
        &mut self,
        tx_block_queue: &mut BlockQueue,
        db: &mut NonceDb,
        items: Vec<SentItem>,
        target_height: BlockHeight,
        now: u64,
    ) -> (r: Option<Accounted>)
        ensures
            ({
                let start = batch(
                    world(old(self)@, old(tx_block_queue)@, old(db)@),
                    Set::empty(),
                );
                let all = views(items@);
                let n = all.len() as int;
                &&& r is Some <==> start.can_account_all(all, target_height, now)
                &&& r matches Some(done) ==> {
                    &&& batch(
                        world(final(self)@, final(tx_block_queue)@, final(db)@),
                        done.expired@,
                    ) == start.all_accounted(all, n, target_height, now)
                    &&& done.sent == sent_count(all)
                    &&& done.notices@ == start.all_notices(all, n, target_height, now)
                }
            }),
            final(db).loaded() == old(db).loaded(),
    {
        let ghost start = batch(world(self@, tx_block_queue@, db@), Set::empty());
        let ghost all = views(items@);
        let mut notices: Vec<SendNotice> = Vec::new();
        let mut expired: OrderedSet<NonceLookupKey> = OrderedSet::new();
        let mut sent: usize = 0;
        let count: usize = items.len();
        assert(all.take(0) =~= Seq::empty());
        for item in it: items.into_iter()
            invariant
                views(it.seq()) == all,
                all == views(items@),
                sent <= it.index() <= it.seq().len(),
                it.seq().len() == count,
                sent == sent_count(all.take(it.index() as int)),
                notices@ == start.all_notices(all, it.index() as int, target_height, now),
                start == batch(
                    world(old(self)@, old(tx_block_queue)@, old(db)@),
                    Set::empty(),
                ),
                forall|i: int|
                    0 <= i < it.index() ==> #[trigger] start.all_accounted(
                        all,
                        i,
                        target_height,
                        now,
                    ).can_account(all[i]),
                batch(world(self@, tx_block_queue@, db@), expired@) == start.all_accounted(
                    all,
                    it.index() as int,
                    target_height,
                    now,
                ),
                db.loaded() == old(db).loaded(),
        {
            let ghost i = it.index() as int;
            assert(all[i] == item@);
            assert(all.take(i + 1).drop_last() =~= all.take(i));
            if !self.can_account(tx_block_queue, db, &item) {
                assert(!start.all_accounted(all, i, target_height, now).can_account(all[i]));
                return None;
            }
            let (was_sent, mut more) = self.account(
                tx_block_queue,
                db,
                item,
                target_height,
                now,
                &mut expired,
            );
            if was_sent {
                sent += 1;
            }
            notices.append(&mut more);
        }
        assert(all.take(all.len() as int) =~= all);
        Some(Accounted { expired, sent, notices })
    }

    /// Lists updaters whose places were taken.
    fn list_deferred(&mut self, deferred: Vec<Listing>)
        ensures
            final(self)@ == (TrackerView {
                updater_to_keys: listed_with(
                    old(self)@.updater_to_keys,
                    views(deferred@),
                    deferred@.len() as int,
                ),
                ..old(self)@
            }),
    {
        let ghost listed = views(deferred@);
        for listing in it: deferred.into_iter()
            invariant
                views(it.seq()) == listed,
                self@ == (TrackerView {
                    updater_to_keys: listed_with(
                        old(self)@.updater_to_keys,
                        listed,
                        it.index() as int,
                    ),
                    ..old(self)@
                }),
        {
            let (updater, keys) = listing;
            assert(listed[it.index() as int] == (updater, keys@));
            self.updater_to_keys.insert(updater, keys);
        }
    }

    /// A batch was sent. Transactions that still wait for their nonces go back into the queue, for
    /// a limited number of times. Gives nothing where something is missing that the batch needs.
    pub fn try_on_txs_sent(
        &mut self,
        tx_block_queue: &mut BlockQueue,
        db: &mut NonceDb,
        sent_batch: SentBatch,
        target_height: BlockHeight,
        now: u64,
    ) -> (r: Option<SentReport>)
        ensures
            r is Some <==> world(old(self)@, old(tx_block_queue)@, old(db)@).can_finish_batch(
                sent_batch@,
                target_height,
                now,
            ),
            r matches Some(report) ==> {
                &&& world(final(self)@, final(tx_block_queue)@, final(db)@) == world(
                    old(self)@,
                    old(tx_block_queue)@,
                    old(db)@,
                ).batch_finished(sent_batch@, target_height, now)
                &&& report.tells(old(self)@, old(tx_block_queue)@, sent_batch@)
                &&& report.notices@ == world(
                    old(self)@,
                    old(tx_block_queue)@,
                    old(db)@,
                ).batch_notices(sent_batch@, target_height, now)
            },
            final(db).loaded() == old(db).loaded(),
    {
        if !self.do_delays_fit() || !self.can_open(tx_block_queue, &sent_batch) {
            return None;
        }
        let normal_delay = self.normal_delay();
        let slow_blocks = self.slow_blocks();
        let opened = self.open_batch(tx_block_queue, sent_batch);
        let done = match self.account_all(
            tx_block_queue,
            db,
            opened.items,
            target_height,
            now,
        ) {
            Some(done) => done,
            None => {
                return None;
            },
        };
        if !self.has_nonces(&done.expired) {
            return None;
        }
        self.list_deferred(opened.deferred);
        self.forget_nonces(&done.expired);
        let next_delay = if opened.again {
            SHORT_DELAY_NANOS
        } else {
            normal_delay
        };
        Some(
            SentReport {
                next_delay,
                nonce_keys: opened.nonce_keys,
                sent: done.sent,
                requeued: opened.requeued,
                given_up: opened.given_up,
                went_back: opened.went_back,
                notices: done.notices,
                slow_blocks,
            },
        )
    }

    /// A batch was sent. Transactions that still wait for their nonces go back into the queue, for
    /// a limited number of times.
    pub fn on_txs_sent(
        &mut self,
        tx_block_queue: &mut BlockQueue,
        db: &mut NonceDb,
        sent_batch: SentBatch,
        target_height: BlockHeight,
        now: u64,
    ) -> (r: SentReport)
        requires
            world(old(self)@, old(tx_block_queue)@, old(db)@).can_finish_batch(
                sent_batch@,
                target_height,
                now,
            ),
        ensures
            world(final(self)@, final(tx_block_queue)@, final(db)@) == world(
                old(self)@,
                old(tx_block_queue)@,
                old(db)@,
            ).batch_finished(sent_batch@, target_height, now),
            final(db).loaded() == old(db).loaded(),
            r.tells(old(self)@, old(tx_block_queue)@, sent_batch@),
            r.notices@ == world(old(self)@, old(tx_block_queue)@, old(db)@).batch_notices(
                sent_batch@,
                target_height,
                now,
            ),
    {
        self.try_on_txs_sent(tx_block_queue, db, sent_batch, target_height, now).unwrap()
    }

    /// Whether all of the nonces are in memory.
    fn has_nonces(&self, keys: &OrderedSet<NonceLookupKey>) -> (b: bool)
        ensures
            b == (forall|k: NonceKey| #[trigger]
                keys@.contains(k) ==> self@.nonces.contains_key(k)),
    {
        let ghost list = keys.list();
        let n: usize = keys.len();
        let mut i: usize = 0;
        while i < n
            invariant
                i <= n,
                n == keys.list().len(),
                list == keys.list(),
                list.to_set() == keys@,
                forall|j: int| 0 <= j < i ==> self@.nonces.contains_key(#[trigger] list[j]),
            decreases n - i,
        {
            let key = keys.item_at(i);
            assert(keys@.contains(key@));
            if !self.nonces.contains_key(key) {
                return false;
            }
            i += 1;
        }
        proof {
            assert forall|k: NonceKey| #[trigger] keys@.contains(k) implies self@.nonces.contains_key(
                k,
            ) by {
                assert(list.to_set().contains(k));
                let j = list.index_of(k);
                assert(list[j] == k);
            }
        }
        true
    }

    /// Drops nonces from memory.
    fn forget_nonces(&mut self, keys: &OrderedSet<NonceLookupKey>)
        ensures
            final(self)@ == (TrackerView {
                nonces: old(self)@.nonces.remove_keys(keys@),
                ..old(self)@
            }),
    {
        let ghost m = self@.nonces;
        let ghost list = keys.list();
        let n: usize = keys.len();
        let mut i: usize = 0;
        assert(m =~= m.remove_keys(list.take(0).to_set()));
        while i < n
            invariant
                i <= n,
                n == keys.list().len(),
                list == keys.list(),
                ascending::<NonceLookupKey>(list),
                self@ == (TrackerView {
                    nonces: m.remove_keys(list.take(i as int).to_set()),
                    ..old(self)@
                }),
            decreases n - i,
        {
            proof {
                lemma_prefix_step::<NonceLookupKey>(list, i as int);
            }
            self.nonces.remove(keys.item_at(i));
            assert(self@.nonces =~= m.remove_keys(list.take(i + 1).to_set()));
            i += 1;
        }
        assert(list.take(n as int) =~= list);
    }
}

} // verus!
