//! Queueing blocks, and setting the nonces of queued transactions.

use vstd::prelude::*;

use super::db::{DbView, NonceDb};
use super::ids::{NonceKey, NonceLookupKey, NonceUpdater, TxRef};
use super::queue::{ref_of, BlockQueue, BlockView, ChunkView, MappedBlock};
use super::tracker::{InfoView, TrackerView, TxTracker};
use super::tx::{TargetChainTx, TargetNonceView, TxView};
use crate::keys::{BlockHeight, Nonce};
use crate::ordered::views;

verus! {

/// A transaction with its reference.
pub type Item = (TxRef, TxView);

/// The first `n` transactions of a chunk.
pub open spec fn chunk_items(block: BlockView, c: int, n: int) -> Seq<Item> {
    Seq::new(n as nat, |i: int| (ref_of(block, c, i), block.chunks[c].txs[i]))
}

/// The transactions of the first `c` chunks of a block, in order.
pub open spec fn items_of_chunks(block: BlockView, c: int) -> Seq<Item>
    decreases c,
{
    if c <= 0 {
        Seq::empty()
    } else {
        items_of_chunks(block, c - 1) + chunk_items(
            block,
            c - 1,
            block.chunks[c - 1].txs.len() as int,
        )
    }
}

/// The transactions of a block, in order.
pub open spec fn block_items(block: BlockView) -> Seq<Item> {
    items_of_chunks(block, block.chunks.len() as int)
}

/// The transactions of a block that come before the one at `c`, `i`.
pub open spec fn items_before(block: BlockView, c: int, i: int) -> Seq<Item> {
    items_of_chunks(block, c) + chunk_items(block, c, i)
}

pub proof fn lemma_items_step(block: BlockView, c: int, i: int)
    requires
        0 <= c < block.chunks.len(),
        0 <= i < block.chunks[c].txs.len(),
    ensures
        items_before(block, c, i + 1) == items_before(block, c, i).push(
            (ref_of(block, c, i), block.chunks[c].txs[i]),
        ),
{
    assert(items_before(block, c, i + 1) =~= items_before(block, c, i).push(
        (ref_of(block, c, i), block.chunks[c].txs[i]),
    ));
}

/// What comes before a place is a part of the whole.
pub proof fn lemma_items_prefix(block: BlockView, c: int, i: int, d: int)
    requires
        0 <= c < d <= block.chunks.len(),
        0 <= i <= block.chunks[c].txs.len(),
    ensures
        items_before(block, c, i).len() <= items_of_chunks(block, d).len(),
        items_of_chunks(block, d).take(items_before(block, c, i).len() as int) == items_before(
            block,
            c,
            i,
        ),
        i < block.chunks[c].txs.len() ==> items_before(block, c, i).len() < items_of_chunks(
            block,
            d,
        ).len() && items_of_chunks(block, d)[items_before(block, c, i).len() as int] == (
            ref_of(block, c, i),
            block.chunks[c].txs[i],
        ),
    decreases d,
{
    let whole = items_of_chunks(block, d);
    let last = chunk_items(block, d - 1, block.chunks[d - 1].txs.len() as int);
    assert(whole == items_of_chunks(block, d - 1) + last);
    let part = items_before(block, c, i);
    if c == d - 1 {
        assert(whole.take(part.len() as int) =~= part);
        if i < block.chunks[c].txs.len() {
            assert(whole[part.len() as int] == last[i]);
        }
    } else {
        lemma_items_prefix(block, c, i, d - 1);
        assert(whole.take(part.len() as int) =~= items_of_chunks(block, d - 1).take(
            part.len() as int,
        ));
    }
}

/// What is kept of a nonce after a transaction that uses it was queued.
pub open spec fn queued_info(info: InfoView, tx_ref: TxRef, tx: TxView) -> InfoView {
    InfoView {
        queued_txs: info.queued_txs.insert(tx_ref),
        txs_awaiting_nonce: if tx is AwaitingNonce {
            info.txs_awaiting_nonce.insert(tx_ref)
        } else {
            info.txs_awaiting_nonce
        },
        ..info
    }
}

impl TrackerView {
    /// The tracker after a transaction is counted among those that use its nonce.
    pub open spec fn counted(self, item: Item) -> TrackerView {
        let key = item.1.nonce_key();
        self.with_info(key, queued_info(self.nonces[key], item.0, item.1))
    }

    /// The nonce of a transaction was given out, and it was not queued before.
    pub open spec fn can_queue(self, db: DbView, item: Item) -> bool {
        &&& self.nonces.contains_key(item.1.nonce_key())
        &&& self.counted(item).can_update(db, item.0, item.1.nonce_updates())
    }

    /// The tracker after one transaction of a block was queued.
    pub open spec fn queued(self, db: DbView, item: Item, height: BlockHeight) -> TrackerView {
        self.counted(item).with_updates(db, item.0, item.1.nonce_updates(), height)
    }

    /// The tracker after several transactions of a block were queued.
    pub open spec fn all_queued(
        self,
        db: DbView,
        items: Seq<Item>,
        height: BlockHeight,
    ) -> TrackerView
        decreases items.len(),
    {
        if items.len() == 0 {
            self
        } else {
            self.all_queued(db, items.drop_last(), height).queued(db, items.last(), height)
        }
    }

    /// Each transaction can be queued when its turn comes.
    pub open spec fn can_queue_all(
        self,
        db: DbView,
        items: Seq<Item>,
        height: BlockHeight,
    ) -> bool {
        forall|n: int|
            0 <= n < items.len() ==> self.all_queued(
                db,
                #[trigger] items.take(n),
                height,
            ).can_queue(db, items[n])
    }

    /// The tracker when a block of the height comes up.
    pub open spec fn at_height(self, height: BlockHeight) -> TrackerView {
        TrackerView { height_queued: Some(height), next_heights: self.next_heights.skip(1), ..self }
    }

    /// The block is one that comes next, and its transactions can be queued.
    pub open spec fn can_queue_block(self, db: DbView, block: BlockView) -> bool {
        let height = block.source_height;
        &&& self.next_heights.len() > 0
        &&& self.at_height(height).can_queue_all(db, block_items(block), height)
    }

    /// The tracker after a block was queued.
    pub open spec fn with_block_queued(self, db: DbView, block: BlockView) -> TrackerView {
        let height = block.source_height;
        TrackerView {
            nonempty_height_queued: if block_items(block).len() > 0 {
                Some(height)
            } else {
                self.nonempty_height_queued
            },
            ..self.at_height(height).all_queued(db, block_items(block), height)
        }
    }
}

impl TxTracker {
    /// Queues one transaction.
    fn queue_tx(&mut self, db: &NonceDb, tx_ref: TxRef, tx: &TargetChainTx, height: BlockHeight)
        requires
            old(self)@.can_queue(db@, (tx_ref, tx@)),
        ensures
            final(self)@ == old(self)@.queued(db@, (tx_ref, tx@), height),
    {
        let key = tx.nonce_key();
        let info = self.nonces.get_mut(&key).unwrap();
        if !tx.is_ready() {
            info.txs_awaiting_nonce.insert(tx_ref);
        }
        info.queued_txs.insert(tx_ref);
        assert(self@ == old(self)@.counted((tx_ref, tx@)));
        self.insert_access_key_updates(db, &tx_ref, tx.nonce_updates(), height);
    }

    /// Whether a transaction can be queued.
    fn can_queue(&self, db: &NonceDb, tx_ref: &TxRef, tx: &TargetChainTx) -> (b: bool)
        ensures
            b == self@.can_queue(db@, (*tx_ref, tx@)),
    {
        if !self.nonces.contains_key(&tx.nonce_key()) {
            return false;
        }
        let updates = tx.nonce_updates();
        let ghost item = (*tx_ref, tx@);
        let ghost counted = self@.counted(item);
        let ghost list = updates.list();
        let n: usize = updates.len();
        let mut i: usize = 0;
        while i < n
            invariant
                i <= n,
                n == updates.list().len(),
                list == updates.list(),
                list.to_set() == updates@,
                updates@ == tx@.nonce_updates(),
                item == (*tx_ref, tx@),
                counted == self@.counted(item),
                self@.nonces.contains_key(tx@.nonce_key()),
                forall|j: int| 0 <= j < i ==> counted.knows(db@, #[trigger] list[j]),
            decreases n - i,
        {
            let key = updates.item_at(i);
            assert(updates@.contains(key@));
            let known = self.nonces.contains_key(key) || db.read_target_nonce(key).is_some();
            assert(known == counted.knows(db@, key@));
            if !known {
                return false;
            }
            i += 1;
        }
        proof {
            assert forall|k: NonceKey| #[trigger] updates@.contains(k) implies counted.knows(
                db@,
                k,
            ) by {
                assert(list.to_set().contains(k));
                let j = list.index_of(k);
                assert(list[j] == k);
            }
        }
        updates.is_empty() || !self.updater_to_keys.contains_key(&NonceUpdater::TxRef(*tx_ref))
    }

    /// Takes note of the transactions of a block that comes next, if everything is there that they
    /// need.
    pub fn try_queue_txs(&mut self, block: &MappedBlock, db: &NonceDb) -> (r: bool)
        ensures
            r <==> old(self)@.can_queue_block(db@, block@),
            r ==> final(self)@ == old(self)@.with_block_queued(db@, block@),
    {
        let ghost b = block@;
        let height = block.source_height;
        if self.next_heights.len() == 0 {
            return false;
        }
        self.height_queued = Some(height);
        self.next_heights.pop_front();
        let ghost t = old(self)@.at_height(height);
        assert(self@.next_heights =~= t.next_heights);
        let mut nonempty: bool = false;
        let mut c: usize = 0;
        while c < block.chunks.len()
            invariant
                c <= block.chunks@.len(),
                b == block@,
                height == b.source_height,
                t == old(self)@.at_height(height),
                self@ == t.all_queued(db@, items_of_chunks(b, c as int), height),
                nonempty == (items_of_chunks(b, c as int).len() > 0),
                t.can_queue_all(db@, items_of_chunks(b, c as int), height),
            decreases block.chunks@.len() - c,
        {
            let chunk = &block.chunks[c];
            assert(b.chunks[c as int] == chunk@);
            if chunk.txs.len() > 0 {
                nonempty = true;
            }
            let mut i: usize = 0;
            assert(items_before(b, c as int, 0) =~= items_of_chunks(b, c as int));
            while i < chunk.txs.len()
                invariant
                    i <= chunk.txs@.len(),
                    c < block.chunks@.len(),
                    b == block@,
                    height == b.source_height,
                    b.chunks[c as int] == chunk@,
                    t == old(self)@.at_height(height),
                    self@ == t.all_queued(db@, items_before(b, c as int, i as int), height),
                    t.can_queue_all(db@, items_before(b, c as int, i as int), height),
                decreases chunk.txs@.len() - i,
            {
                let tx = &chunk.txs[i];
                let tx_ref = TxRef { source_height: height, shard_id: chunk.shard_id, tx_idx: i };
                let ghost before = items_before(b, c as int, i as int);
                let ghost after = items_before(b, c as int, i + 1);
                proof {
                    lemma_items_prefix(b, c as int, i as int, b.chunks.len() as int);
                    lemma_items_step(b, c as int, i as int);
                    assert(after.drop_last() =~= before);
                    assert(after.last() == (tx_ref, tx@));
                }
                if !self.can_queue(db, &tx_ref, tx) {
                    proof {
                        let n = before.len() as int;
                        assert(block_items(b).take(n) == before);
                        assert(block_items(b)[n] == (tx_ref, tx@));
                    }
                    return false;
                }
                self.queue_tx(db, tx_ref, tx, height);
                proof {
                    assert forall|n: int| 0 <= n < after.len() implies t.all_queued(
                        db@,
                        #[trigger] after.take(n),
                        height,
                    ).can_queue(db@, after[n]) by {
                        if n < before.len() {
                            assert(after.take(n) =~= before.take(n));
                            assert(after[n] == before[n]);
                        } else {
                            assert(after.take(n) =~= before);
                        }
                    }
                }
                i += 1;
            }
            assert(items_before(b, c as int, i as int) =~= items_of_chunks(b, c + 1));
            c += 1;
        }
        if nonempty {
            self.nonempty_height_queued = Some(height);
        }
        proof {
            lemma_all_queued_keeps(t, db@, block_items(b), height);
        }
        true
    }

    /// Takes note of the transactions of a block that comes next.
    pub fn queue_txs(&mut self, block: &MappedBlock, db: &NonceDb)
        requires
            old(self)@.can_queue_block(db@, block@),
        ensures
            final(self)@ == old(self)@.with_block_queued(db@, block@),
    {
        self.try_queue_txs(block, db);
    }

    /// Queues a block, if everything is there that its transactions need.
    pub fn try_queue_block(
        &mut self,
        tx_block_queue: &mut BlockQueue,
        block: MappedBlock,
        db: &NonceDb,
    ) -> (r: bool)
        ensures
            r <==> old(self)@.can_queue_block(db@, block@),
            r ==> final(self)@ == old(self)@.with_block_queued(db@, block@),
            r ==> final(tx_block_queue)@ == old(tx_block_queue)@.push(block@),
    {
        if !self.try_queue_txs(&block, db) {
            return false;
        }
        tx_block_queue.push_back(block);
        true
    }

    /// Queues a block.
    pub fn queue_block(
        &mut self,
        tx_block_queue: &mut BlockQueue,
        block: MappedBlock,
        db: &NonceDb,
    )
        requires
            old(self)@.can_queue_block(db@, block@),
        ensures
            final(self)@ == old(self)@.with_block_queued(db@, block@),
            final(tx_block_queue)@ == old(tx_block_queue)@.push(block@),
    {
        self.try_queue_block(tx_block_queue, block, db);
    }
}

/// Queueing transactions changes only the nonces and what may change them.
pub proof fn lemma_all_queued_keeps(
    t: TrackerView,
    db: DbView,
    items: Seq<Item>,
    height: BlockHeight,
)
    ensures
        t.all_queued(db, items, height) == (TrackerView {
            nonces: t.all_queued(db, items, height).nonces,
            updater_to_keys: t.all_queued(db, items, height).updater_to_keys,
            ..t
        }),
    decreases items.len(),
{
    if items.len() > 0 {
        lemma_all_queued_keeps(t, db, items.drop_last(), height);
    }
}

/// The nonce that a waiting transaction gets, if it can be told.
pub open spec fn assigned(nonces: Map<NonceKey, InfoView>, tx: TxView) -> Option<Nonce> {
    if tx is AwaitingNonce && nonces.contains_key(tx.nonce_key()) {
        match nonces[tx.nonce_key()].target_nonce.nonce {
            Some(n) => Some((n + 1) as u64),
            None => None,
        }
    } else {
        None
    }
}

/// The nonces after a transaction had its turn.
pub open spec fn after_turn(nonces: Map<NonceKey, InfoView>, item: Item) -> Map<
    NonceKey,
    InfoView,
> {
    let key = item.1.nonce_key();
    match assigned(nonces, item.1) {
        Some(n) => nonces.insert(
            key,
            InfoView {
                target_nonce: TargetNonceView { nonce: Some(n), ..nonces[key].target_nonce },
                txs_awaiting_nonce: nonces[key].txs_awaiting_nonce.remove(item.0),
                ..nonces[key]
            },
        ),
        None => nonces,
    }
}

/// A transaction after its turn.
pub open spec fn resolved_tx(nonces: Map<NonceKey, InfoView>, tx: TxView) -> TxView {
    match assigned(nonces, tx) {
        Some(n) => tx.with_nonce(n),
        None => tx,
    }
}

/// The nonces after several transactions had their turns.
pub open spec fn after_turns(nonces: Map<NonceKey, InfoView>, items: Seq<Item>) -> Map<
    NonceKey,
    InfoView,
>
    decreases items.len(),
{
    if items.len() == 0 {
        nonces
    } else {
        after_turn(after_turns(nonces, items.drop_last()), items.last())
    }
}

/// The block after all of its transactions had their turns.
pub open spec fn resolved_block(nonces: Map<NonceKey, InfoView>, block: BlockView) -> BlockView {
    BlockView {
        chunks: Seq::new(
            block.chunks.len(),
            |c: int|
                ChunkView {
                    txs: Seq::new(
                        block.chunks[c].txs.len(),
                        |i: int|
                            resolved_tx(
                                after_turns(nonces, items_before(block, c, i)),
                                block.chunks[c].txs[i],
                            ),
                    ),
                    ..block.chunks[c]
                },
        ),
        ..block
    }
}

/// The nonces that were given to transactions, in order.
pub open spec fn assignments(nonces: Map<NonceKey, InfoView>, items: Seq<Item>) -> Seq<
    (TxRef, NonceKey, Nonce),
>
    decreases items.len(),
{
    if items.len() == 0 {
        Seq::empty()
    } else {
        let before = assignments(nonces, items.drop_last());
        let item = items.last();
        match assigned(after_turns(nonces, items.drop_last()), item.1) {
            Some(n) => before.push((item.0, item.1.nonce_key(), n)),
            None => before,
        }
    }
}

/// No nonce overflows when a transaction has its turn.
pub open spec fn turn_fits(nonces: Map<NonceKey, InfoView>, tx: TxView) -> bool {
    tx is AwaitingNonce && nonces.contains_key(tx.nonce_key())
        ==> nonces[tx.nonce_key()].target_nonce.can_increment()
}

/// No nonce overflows.
pub open spec fn turns_fit(nonces: Map<NonceKey, InfoView>, items: Seq<Item>) -> bool {
    forall|n: int|
        0 <= n < items.len() ==> turn_fits(
            after_turns(nonces, #[trigger] items.take(n)),
            items[n].1,
        )
}

/// A transaction that got its nonce.
pub struct ResolvedNonce {
    pub tx_ref: TxRef,
    pub nonce_key: NonceLookupKey,
    pub nonce: Nonce,
}

impl View for ResolvedNonce {
    type V = (TxRef, NonceKey, Nonce);

    open spec fn view(&self) -> (TxRef, NonceKey, Nonce) {
        (self.tx_ref, self.nonce_key@, self.nonce)
    }
}

impl TxTracker {
    /// The nonce that a waiting transaction gets now, if it can be told.
    fn take_turn(&mut self, tx_ref: &TxRef, tx: &TargetChainTx) -> (r: Option<
        ResolvedNonce,
    >)
        requires
            turn_fits(old(self)@.nonces, tx@),
        ensures
            final(self)@ == (TrackerView {
                nonces: after_turn(old(self)@.nonces, (*tx_ref, tx@)),
                ..old(self)@
            }),
            match r {
                Some(a) => assigned(old(self)@.nonces, tx@) == Some(a.nonce) && a@ == (
                    *tx_ref,
                    tx@.nonce_key(),
                    a.nonce,
                ),
                None => assigned(old(self)@.nonces, tx@) is None,
            },
    {
        if tx.is_ready() {
            return None;
        }
        let key = tx.nonce_key();
        match self.nonces.get_mut(&key) {
            None => None,
            Some(info) => match info.target_nonce.nonce {
                None => {
                    assert(self@.nonces =~= old(self)@.nonces);
                    None
                },
                Some(n) => {
                    let nonce: Nonce = n + 1;
                    info.target_nonce.nonce = Some(nonce);
                    info.txs_awaiting_nonce.remove(tx_ref);
                    Some(ResolvedNonce { tx_ref: *tx_ref, nonce_key: key, nonce })
                },
            },
        }
    }

    /// Whether giving a transaction its nonce does not overflow.
    fn has_room(&self, tx: &TargetChainTx) -> (b: bool)
        ensures
            b == turn_fits(self@.nonces, tx@),
    {
        if tx.is_ready() {
            return true;
        }
        match self.nonces.get(&tx.nonce_key()) {
            Some(info) => match info.target_nonce.nonce {
                Some(n) => n < u64::MAX,
                None => true,
            },
            None => true,
        }
    }

    /// Sets the nonces of the waiting transactions of a block just before it is sent, each one
    /// above the last nonce that was given out for its key. Returns what was set, or nothing where
    /// a nonce would overflow.
    pub fn try_resolve_block_nonces(
        &mut self,
        tx_block_queue: &mut BlockQueue,
        block_idx: usize,
    ) -> (r: Option<Vec<ResolvedNonce>>)
        ensures
            r is Some <==> (block_idx < old(tx_block_queue)@.len() ==> turns_fit(
                old(self)@.nonces,
                block_items(old(tx_block_queue)@[block_idx as int]),
            )),
            block_idx >= old(tx_block_queue)@.len() ==> {
                &&& final(self)@ == old(self)@
                &&& final(tx_block_queue)@ == old(tx_block_queue)@
                &&& r matches Some(found) && found@.len() == 0
            },
            block_idx < old(tx_block_queue)@.len() ==> (r matches Some(found) ==> {
                let block = old(tx_block_queue)@[block_idx as int];
                let nonces = old(self)@.nonces;
                &&& final(self)@ == (TrackerView {
                    nonces: after_turns(nonces, block_items(block)),
                    ..old(self)@
                })
                &&& final(tx_block_queue)@ == old(tx_block_queue)@.update(
                    block_idx as int,
                    resolved_block(nonces, block),
                )
                &&& views(found@) == assignments(nonces, block_items(block))
            }),
    {
        let mut found: Vec<ResolvedNonce> = Vec::new();
        if block_idx >= tx_block_queue.blocks.len() {
            return Some(found);
        }
        let ghost q = tx_block_queue@;
        let ghost b = q[block_idx as int];
        let ghost nonces = self@.nonces;
        let ghost goal = resolved_block(nonces, b);
        let height = tx_block_queue.blocks[block_idx].source_height;
        let mut c: usize = 0;
        assert(views(found@) =~= Seq::empty());
        while c < tx_block_queue.blocks[block_idx].chunks.len()
            invariant
                block_idx < q.len(),
                q == old(tx_block_queue)@,
                c <= b.chunks.len(),
                b == q[block_idx as int],
                height == b.source_height,
                nonces == old(self)@.nonces,
                goal == resolved_block(nonces, b),
                tx_block_queue@.len() == q.len(),
                forall|k: int|
                    0 <= k < q.len() && k != block_idx ==> #[trigger] tx_block_queue@[k] == q[k],
                tx_block_queue@[block_idx as int].source_height == b.source_height,
                tx_block_queue@[block_idx as int].source_hash == b.source_hash,
                tx_block_queue@[block_idx as int].chunks.len() == b.chunks.len(),
                forall|d: int|
                    0 <= d < c ==> #[trigger] tx_block_queue@[block_idx as int].chunks[d]
                        == goal.chunks[d],
                forall|d: int|
                    c <= d < b.chunks.len() ==> #[trigger] tx_block_queue@[block_idx as int].chunks[d]
                        == b.chunks[d],
                self@ == (TrackerView {
                    nonces: after_turns(nonces, items_of_chunks(b, c as int)),
                    ..old(self)@
                }),
                views(found@) == assignments(nonces, items_of_chunks(b, c as int)),
                turns_fit(nonces, items_of_chunks(b, c as int)),
            decreases b.chunks.len() - c,
        {
            assert(tx_block_queue@[block_idx as int].chunks.len()
                == tx_block_queue.blocks@[block_idx as int].chunks@.len());
            assert(tx_block_queue@[block_idx as int].chunks[c as int] == b.chunks[c as int]);
            assert(tx_block_queue@[block_idx as int].chunks[c as int]
                == tx_block_queue.blocks@[block_idx as int].chunks@[c as int]@);
            let shard_id = tx_block_queue.blocks[block_idx].chunks[c].shard_id;
            let n: usize = tx_block_queue.blocks[block_idx].chunks[c].txs.len();
            let ghost pre = tx_block_queue@[block_idx as int];
            let ghost txs = b.chunks[c as int].txs;
            let mut i: usize = 0;
            assert(items_before(b, c as int, 0) =~= items_of_chunks(b, c as int));
            while i < n
                invariant
                    block_idx < q.len(),
                    c < b.chunks.len(),
                    i <= n,
                    n == txs.len(),
                    txs == b.chunks[c as int].txs,
                    shard_id == b.chunks[c as int].shard_id,
                    height == b.source_height,
                    b == q[block_idx as int],
                    nonces == old(self)@.nonces,
                    goal == resolved_block(nonces, b),
                    tx_block_queue@.len() == q.len(),
                    forall|k: int|
                        0 <= k < q.len() && k != block_idx ==> #[trigger] tx_block_queue@[k]
                            == q[k],
                    tx_block_queue@[block_idx as int].source_height == b.source_height,
                    tx_block_queue@[block_idx as int].source_hash == b.source_hash,
                    tx_block_queue@[block_idx as int].chunks.len() == b.chunks.len(),
                    pre.chunks.len() == b.chunks.len(),
                    forall|d: int|
                        0 <= d < b.chunks.len() && d != c
                            ==> #[trigger] tx_block_queue@[block_idx as int].chunks[d]
                            == pre.chunks[d],
                    tx_block_queue@[block_idx as int].chunks[c as int].shard_id == shard_id,
                    tx_block_queue@[block_idx as int].chunks[c as int].txs.len() == n,
                    forall|j: int|
                        0 <= j < i
                            ==> #[trigger] tx_block_queue@[block_idx as int].chunks[c as int].txs[j]
                            == goal.chunks[c as int].txs[j],
                    forall|j: int|
                        i <= j < n
                            ==> #[trigger] tx_block_queue@[block_idx as int].chunks[c as int].txs[j]
                            == txs[j],
                    self@ == (TrackerView {
                        nonces: after_turns(nonces, items_before(b, c as int, i as int)),
                        ..old(self)@
                    }),
                    views(found@) == assignments(nonces, items_before(b, c as int, i as int)),
                    turns_fit(nonces, items_before(b, c as int, i as int)),
                    c < b.chunks.len(),
                    q == old(tx_block_queue)@,
                    block_idx < q.len(),
                decreases n - i,
            {
                let ghost cur = tx_block_queue@;
                assert(cur[block_idx as int].chunks[c as int]
                    == tx_block_queue.blocks@[block_idx as int].chunks@[c as int]@);
                assert(cur[block_idx as int].chunks[c as int].txs[i as int] == txs[i as int]);
                let tx_ref = TxRef { source_height: height, shard_id, tx_idx: i };
                let ghost before = items_before(b, c as int, i as int);
                proof {
                    lemma_items_prefix(b, c as int, i as int, b.chunks.len() as int);
                    lemma_items_step(b, c as int, i as int);
                    assert(block_items(b).take(before.len() as int) == before);
                    let after = items_before(b, c as int, i + 1);
                    assert(after.drop_last() =~= before);
                    assert(after.last() == (tx_ref, txs[i as int]));
                }
                if !self.has_room(&tx_block_queue.blocks[block_idx].chunks[c].txs[i]) {
                    proof {
                        let n = before.len() as int;
                        assert(block_items(b)[n] == (tx_ref, txs[i as int]));
                        assert(!turn_fits(
                            after_turns(nonces, block_items(b).take(n)),
                            block_items(b)[n].1,
                        ));
                    }
                    return None;
                }
                let turn = self.take_turn(
                    &tx_ref,
                    &tx_block_queue.blocks[block_idx].chunks[c].txs[i],
                );
                let ghost list = views(found@);
                if let Some(a) = turn {
                    tx_block_queue.blocks[block_idx].chunks[c].txs[i].set_nonce(a.nonce);
                    found.push(a);
                    assert(views(found@) =~= list.push(a@));
                }
                proof {
                    let after = items_before(b, c as int, i + 1);
                    assert forall|n: int| 0 <= n < after.len() implies turn_fits(
                        after_turns(nonces, #[trigger] after.take(n)),
                        after[n].1,
                    ) by {
                        if n < before.len() {
                            assert(after.take(n) =~= before.take(n));
                            assert(after[n] == before[n]);
                        } else {
                            assert(after.take(n) =~= before);
                        }
                    }
                    let now = tx_block_queue@;
                    assert(now[block_idx as int].chunks[c as int].txs[i as int]
                        == goal.chunks[c as int].txs[i as int]);
                    assert forall|j: int|
                        0 <= j < n && j
                            != i implies #[trigger] now[block_idx as int].chunks[c as int].txs[j]
                        == cur[block_idx as int].chunks[c as int].txs[j] by {}
                    assert forall|d: int|
                        0 <= d < b.chunks.len() && d
                            != c implies #[trigger] now[block_idx as int].chunks[d]
                        == pre.chunks[d] by {
                        assert(cur[block_idx as int].chunks[d] == pre.chunks[d]);
                    }
                    assert forall|k: int| 0 <= k < q.len() && k != block_idx implies #[trigger] now[k]
                        == q[k] by {
                        assert(cur[k] == q[k]);
                    }
                }
                i += 1;
            }
            proof {
                let now = tx_block_queue@[block_idx as int];
                assert(now.chunks[c as int].txs =~= goal.chunks[c as int].txs);
                assert(now.chunks[c as int] == goal.chunks[c as int]);
                assert forall|d: int| 0 <= d < c + 1 implies #[trigger] now.chunks[d]
                    == goal.chunks[d] by {
                    if d < c {
                        assert(now.chunks[d] == pre.chunks[d]);
                    }
                }
                assert(items_before(b, c as int, i as int) =~= items_of_chunks(b, c + 1));
            }
            c += 1;
        }
        proof {
            let now = tx_block_queue@;
            assert(now[block_idx as int].chunks.len()
                == tx_block_queue.blocks@[block_idx as int].chunks@.len());
            assert(now[block_idx as int].chunks =~= goal.chunks);
            assert(now =~= q.update(block_idx as int, goal));
        }
        Some(found)
    }

    /// Sets the nonces of the waiting transactions of a block just before it is sent, each one
    /// above the last nonce that was given out for its key. Returns what was set.
    pub fn resolve_block_nonces(
        &mut self,
        tx_block_queue: &mut BlockQueue,
        block_idx: usize,
    ) -> (r: Vec<ResolvedNonce>)
        requires
            block_idx < old(tx_block_queue)@.len() ==> turns_fit(
                old(self)@.nonces,
                block_items(old(tx_block_queue)@[block_idx as int]),
            ),
        ensures
            block_idx >= old(tx_block_queue)@.len() ==> {
                &&& final(self)@ == old(self)@
                &&& final(tx_block_queue)@ == old(tx_block_queue)@
                &&& r@.len() == 0
            },
            block_idx < old(tx_block_queue)@.len() ==> {
                let block = old(tx_block_queue)@[block_idx as int];
                let nonces = old(self)@.nonces;
                &&& final(self)@ == (TrackerView {
                    nonces: after_turns(nonces, block_items(block)),
                    ..old(self)@
                })
                &&& final(tx_block_queue)@ == old(tx_block_queue)@.update(
                    block_idx as int,
                    resolved_block(nonces, block),
                )
                &&& views(r@) == assignments(nonces, block_items(block))
            },
    {
        self.try_resolve_block_nonces(tx_block_queue, block_idx).unwrap()
    }
}

} // verus!
