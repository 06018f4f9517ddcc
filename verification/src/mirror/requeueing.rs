//! Putting transactions that still wait for their nonces back into the queue.

use vstd::prelude::*;

use super::ids::{NonceKey, NonceLookupKey, NonceUpdater, TxRef};
use super::queue::{BlockView, ChunkView, MappedBlock, MappedChunk};
use super::queueing::Item;
use super::settling::renamed_info;
use super::tracker::{InfoView, NonceInfo, TrackerView, TxTracker};
use super::tx::{TargetChainTx, TxEdit, TxView};
use crate::keys::{BlockHeight, CryptoHash, ShardId};
use crate::ordered::{
    ascending, lemma_prefix_step, lemma_to_set_push, listing, views, Key, KeyOrder, OrderedMap,
    OrderedSet,
};

verus! {

/// A transaction that moved to another place of the queue: its old place, its new place, and the
/// nonce that it waits for.
pub type RefMove = (TxRef, TxRef, NonceLookupKey);

/// The view of a `RefMove`.
pub type MoveView = (TxRef, TxRef, NonceKey);

/// An updater that is to be listed, with the nonces that it may change.
pub type Listing = (NonceUpdater, OrderedSet<NonceLookupKey>);

/// The view of a `Listing`.
pub type ListingView = (NonceUpdater, Set<NonceKey>);

/// The transactions of one shard, in order.
pub open spec fn in_shard(items: Seq<Item>, shard_id: ShardId) -> Seq<TxView>
    decreases items.len(),
{
    if items.len() == 0 {
        Seq::empty()
    } else {
        let rest = in_shard(items.drop_last(), shard_id);
        if items.last().0.shard_id == shard_id {
            rest.push(items.last().1)
        } else {
            rest
        }
    }
}

/// The transaction at a new place. One that waited for what it does itself still does.
pub open spec fn moved_tx(tx: TxView, old: TxRef, new: TxRef) -> TxView {
    if tx.awaits(NonceUpdater::TxRef(old)) {
        tx.edited(TxEdit::Rename { old: NonceUpdater::TxRef(old), new: NonceUpdater::TxRef(new) })
    } else {
        tx
    }
}

/// The transactions under new references: in each shard they are numbered from zero.
pub open spec fn renumbered(items: Seq<Item>, height: BlockHeight) -> Seq<Item>
    decreases items.len(),
{
    if items.len() == 0 {
        Seq::empty()
    } else {
        let rest = renumbered(items.drop_last(), height);
        let (old, tx) = items.last();
        let new = TxRef {
            source_height: height,
            shard_id: old.shard_id,
            tx_idx: in_shard(rest, old.shard_id).len() as usize,
        };
        rest.push((new, moved_tx(tx, old, new)))
    }
}

pub proof fn lemma_renumbered(items: Seq<Item>, height: BlockHeight)
    ensures
        renumbered(items, height).len() == items.len(),
        forall|i: int|
            #![trigger renumbered(items, height)[i]]
            0 <= i < items.len() ==> {
                &&& renumbered(items, height)[i].0.source_height == height
                &&& renumbered(items, height)[i].0.shard_id == items[i].0.shard_id
                &&& renumbered(items, height)[i].1 == moved_tx(
                    items[i].1,
                    items[i].0,
                    renumbered(items, height)[i].0,
                )
            },
    decreases items.len(),
{
    if items.len() > 0 {
        lemma_renumbered(items.drop_last(), height);
    }
}

/// The shards that the transactions are from.
pub open spec fn shards_of(items: Seq<Item>) -> Set<ShardId> {
    items.map_values(|x: Item| x.0.shard_id).to_set()
}

proof fn lemma_shards_push(items: Seq<Item>, x: Item)
    ensures
        shards_of(items.push(x)) == shards_of(items).insert(x.0.shard_id),
{
    let f = |x: Item| x.0.shard_id;
    let a = items.map_values(f);
    assert(items.push(x).map_values(f) =~= a.push(x.0.shard_id));
    lemma_to_set_push(a, x.0.shard_id);
}

pub proof fn lemma_in_shard_len(items: Seq<Item>, shard_id: ShardId)
    ensures
        in_shard(items, shard_id).len() <= items.len(),
        in_shard(items, shard_id).len() == 0 <==> !shards_of(items).contains(shard_id),
    decreases items.len(),
{
    if items.len() > 0 {
        lemma_in_shard_len(items.drop_last(), shard_id);
        assert(items =~= items.drop_last().push(items.last()));
        lemma_shards_push(items.drop_last(), items.last());
    } else {
        assert(items.map_values(|x: Item| x.0.shard_id) =~= Seq::empty());
    }
}

/// The block of transactions that go back into the queue.
pub open spec fn regrouped(
    items: Seq<Item>,
    source_height: BlockHeight,
    source_hash: CryptoHash,
) -> BlockView {
    let moved = renumbered(items, source_height);
    BlockView {
        source_height,
        source_hash,
        chunks: listing::<ShardId>(shards_of(moved)).map_values(
            |shard_id: ShardId| ChunkView { shard_id, txs: in_shard(moved, shard_id) },
        ),
    }
}

/// Where the transactions go.
pub open spec fn moves(items: Seq<Item>, height: BlockHeight) -> Seq<MoveView> {
    Seq::new(
        items.len(),
        |i: int| (items[i].0, renumbered(items, height)[i].0, items[i].1.nonce_key()),
    )
}

/// The block of transactions that go back into the queue, and where they go.
pub fn regroup(
    items: Vec<(TxRef, TargetChainTx)>,
    source_height: BlockHeight,
    source_hash: CryptoHash,
) -> (r: (MappedBlock, Vec<RefMove>))
    ensures
        r.0@ == regrouped(views(items@), source_height, source_hash),
        views(r.1@) == moves(views(items@), source_height),
{
    let ghost all = views(items@);
    let mut chunks: OrderedMap<ShardId, MappedChunk> = OrderedMap::new();
    let mut refs: Vec<RefMove> = Vec::new();
    proof {
        assert(all.take(0) =~= Seq::empty());
        assert(renumbered(all.take(0), source_height) =~= Seq::empty());
        assert(Seq::<Item>::empty().map_values(|x: Item| x.0.shard_id) =~= Seq::empty());
        assert(chunks@.dom() =~= shards_of(renumbered(all.take(0), source_height)));
        assert(views(refs@) =~= moves(all.take(0), source_height));
    }
    for item in it: items.into_iter()
        invariant
            all == views(it.seq()),
            chunks@.dom() == shards_of(renumbered(all.take(it.index() as int), source_height)),
            forall|s: ShardId| #[trigger]
                chunks@.contains_key(s) ==> chunks@[s] == (ChunkView {
                    shard_id: s,
                    txs: in_shard(renumbered(all.take(it.index() as int), source_height), s),
                }),
            views(refs@) == moves(all.take(it.index() as int), source_height),
    {
        let ghost i = it.index() as int;
        let ghost before = renumbered(all.take(i), source_height);
        let ghost after = renumbered(all.take(i + 1), source_height);
        let ghost was = chunks@;
        let (old, mut tx) = item;
        let shard_id = old.shard_id;
        assert(all[i] == (old, tx@));
        assert(all.take(i + 1).drop_last() =~= all.take(i));
        proof {
            lemma_in_shard_len(before, shard_id);
            lemma_renumbered(all.take(i), source_height);
            lemma_renumbered(all.take(i + 1), source_height);
        }
        let mut chunk = match chunks.remove(&shard_id) {
            Some(chunk) => chunk,
            None => MappedChunk { shard_id, txs: Vec::new() },
        };
        assert(chunk@.txs =~= in_shard(before, shard_id));
        let new = TxRef { source_height, shard_id, tx_idx: chunk.txs.len() };
        assert(chunk.txs@.len() == chunk@.txs.len());
        let ghost refs_before = views(refs@);
        let ghost key = tx@.nonce_key();
        refs.push((old, new, tx.nonce_key()));
        assert(views(refs@) =~= refs_before.push((old, new, key)));
        let updater = NonceUpdater::TxRef(old);
        let ghost orig = tx@;
        let own = match &tx {
            TargetChainTx::Ready(_) => false,
            TargetChainTx::AwaitingNonce(t) => t.target_nonce.pending_outcomes.contains(&updater),
        };
        if own {
            tx.edit(&TxEdit::Rename { old: updater, new: NonceUpdater::TxRef(new) });
        }
        let ghost moved = tx@;
        chunk.txs.push(tx);
        proof {
            assert(moved == moved_tx(orig, old, new));
            assert(after == before.push((new, moved)));
            assert(after.drop_last() =~= before);
            lemma_shards_push(before, (new, moved));
            assert(chunk@.txs =~= in_shard(before, shard_id).push(moved));
            assert(chunk@.txs == in_shard(after, shard_id));
        }
        chunks.insert(shard_id, chunk);
        proof {
            assert(chunks@.dom() =~= was.dom().insert(shard_id));
            assert forall|s: ShardId| #[trigger]
                chunks@.contains_key(s) implies chunks@[s] == (ChunkView {
                shard_id: s,
                txs: in_shard(after, s),
            }) by {
                if s != shard_id {
                    assert(was.contains_key(s));
                    assert(chunks@[s] == was[s]);
                }
            }
            assert forall|j: int| 0 <= j < i implies #[trigger] after[j] == before[j] by {}
            let ms = moves(all.take(i + 1), source_height);
            assert forall|j: int| 0 <= j <= i implies views(refs@)[j] == #[trigger] ms[j] by {
                if j < i {
                    assert(refs_before[j] == moves(all.take(i), source_height)[j]);
                    assert(all.take(i + 1)[j] == all.take(i)[j]);
                }
            }
            assert(views(refs@) =~= ms);
        }
    }
    assert(all.take(all.len() as int) =~= all);
    let n: usize = chunks.len();
    let ghost m = chunks@;
    let ghost moved = renumbered(all, source_height);
    let chunks = chunks.into_values();
    let block = MappedBlock { source_height, source_hash, chunks };
    proof {
        let l = listing::<ShardId>(shards_of(moved));
        assert(l.to_set() == m.dom());
        assert forall|i: int| 0 <= i < l.len() implies #[trigger] block@.chunks[i]
            == regrouped(all, source_height, source_hash).chunks[i] by {
            assert(l.to_set().contains(l[i]));
            assert(m.contains_key(l[i]));
            assert(block.chunks@[i]@ == m[l[i]]);
        }
        assert(block@.chunks =~= regrouped(all, source_height, source_hash).chunks);
    }
    (block, refs)
}

/// Neighbours that are equal are listed once.
pub open spec fn deduped(keys: Seq<NonceKey>) -> Seq<NonceKey>
    decreases keys.len(),
{
    if keys.len() == 0 {
        Seq::empty()
    } else {
        let rest = deduped(keys.drop_last());
        if rest.len() > 0 && rest.last() == keys.last() {
            rest
        } else {
            rest.push(keys.last())
        }
    }
}

/// The nonces of transactions that go back into the queue.
pub open spec fn keys_to_resolve(items: Seq<Item>) -> Seq<NonceKey> {
    deduped(items.map_values(|x: Item| x.1.nonce_key()))
}

/// The nonces that moved transactions wait for, neighbours that are equal listed once.
pub(crate) fn dedup_keys(refs: &Vec<RefMove>) -> (r: Vec<NonceLookupKey>)
    ensures
        views(r@) == deduped(views(refs@).map_values(|m: MoveView| m.2)),
{
    let ghost f = |m: MoveView| m.2;
    let ghost all = views(refs@).map_values(f);
    let mut r: Vec<NonceLookupKey> = Vec::new();
    let mut i: usize = 0;
    assert(all.take(0) =~= Seq::empty());
    assert(views(r@) =~= Seq::empty());
    while i < refs.len()
        invariant
            i <= refs@.len(),
            all == views(refs@).map_values(|m: MoveView| m.2),
            views(r@) == deduped(all.take(i as int)),
        decreases refs@.len() - i,
    {
        let key = &refs[i].2;
        let ghost before = views(r@);
        assert(all[i as int] == key@);
        assert(all.take(i + 1).drop_last() =~= all.take(i as int));
        let n: usize = r.len();
        proof {
            NonceLookupKey::before_irreflexive(key@);
        }
        let known = n > 0 && matches!(r[n - 1].order(key), KeyOrder::Equal);
        if !known {
            r.push(key.duplicate());
            assert(views(r@) =~= before.push(key@));
        }
        assert(views(r@) == deduped(all.take(i + 1)));
        i += 1;
    }
    assert(all.take(refs@.len() as int) =~= all);
    r
}

/// A tracker that is being told of moves, and what is to be listed later.
#[verifier::ext_equal]
pub ghost struct Retracking {
    pub tracker: TrackerView,
    pub deferred: Seq<ListingView>,
}

/// In the nonces of `keys`, one updater takes the place of another where it is pending.
pub open spec fn handed_on(
    nonces: Map<NonceKey, InfoView>,
    keys: Set<NonceKey>,
    old: NonceUpdater,
    new: NonceUpdater,
) -> Map<NonceKey, InfoView> {
    Map::new(
        |k: NonceKey| nonces.contains_key(k),
        |k: NonceKey|
            if keys.contains(k) && nonces[k].target_nonce.pending_outcomes.contains(old) {
                renamed_info(nonces[k], old, new)
            } else {
                nonces[k]
            },
    )
}

/// The nonce of `key` refers to the transaction by its new place.
pub open spec fn with_ref_moved(
    nonces: Map<NonceKey, InfoView>,
    key: NonceKey,
    old: TxRef,
    new: TxRef,
) -> Map<NonceKey, InfoView> {
    if nonces.contains_key(key) {
        nonces.insert(
            key,
            InfoView {
                txs_awaiting_nonce: nonces[key].txs_awaiting_nonce.remove(old).insert(new),
                queued_txs: nonces[key].queued_txs.remove(old).insert(new),
                ..nonces[key]
            },
        )
    } else {
        nonces
    }
}

impl Retracking {
    /// One transaction moved. Where its new place is `taken`, or listed already, it is listed
    /// later.
    pub open spec fn moved(self, m: MoveView, taken: Set<TxRef>) -> Retracking {
        let (old_ref, new_ref, key) = m;
        let old = NonceUpdater::TxRef(old_ref);
        let new = NonceUpdater::TxRef(new_ref);
        let t = self.tracker;
        let nonces = with_ref_moved(t.nonces, key, old_ref, new_ref);
        if t.updater_to_keys.contains_key(old) {
            let keys = t.updater_to_keys[old];
            let rest = t.updater_to_keys.remove(old);
            let later = taken.contains(new_ref) || rest.contains_key(new);
            Retracking {
                tracker: TrackerView {
                    nonces: handed_on(nonces, keys, old, new),
                    updater_to_keys: if later {
                        rest
                    } else {
                        rest.insert(new, keys)
                    },
                    ..t
                },
                deferred: if later {
                    self.deferred.push((new, keys))
                } else {
                    self.deferred
                },
            }
        } else {
            Retracking { tracker: TrackerView { nonces, ..t }, ..self }
        }
    }

    /// The first `n` transactions moved.
    pub open spec fn all_moved(self, refs: Seq<MoveView>, taken: Set<TxRef>, n: int) -> Retracking
        decreases n,
    {
        if n <= 0 {
            self
        } else {
            self.all_moved(refs, taken, n - 1).moved(refs[n - 1], taken)
        }
    }
}

/// In the nonces of `keys`, puts one updater in the place of another where it is pending.
fn hand_on(
    nonces: &mut OrderedMap<NonceLookupKey, NonceInfo>,
    keys: &OrderedSet<NonceLookupKey>,
    old_updater: &NonceUpdater,
    new_updater: &NonceUpdater,
)
    ensures
        final(nonces)@ == handed_on(old(nonces)@, keys@, *old_updater, *new_updater),
{
    let ghost m = nonces@;
    let ghost list = keys.list();
    let n: usize = keys.len();
    let mut i: usize = 0;
    assert(m =~= handed_on(m, list.take(0).to_set(), *old_updater, *new_updater));
    while i < n
        invariant
            i <= n,
            n == keys.list().len(),
            list == keys.list(),
            ascending::<NonceLookupKey>(list),
            nonces@ == handed_on(m, list.take(i as int).to_set(), *old_updater, *new_updater),
        decreases n - i,
    {
        let key = keys.item_at(i);
        proof {
            lemma_prefix_step::<NonceLookupKey>(list, i as int);
        }
        let ghost before = nonces@;
        if let Some(info) = nonces.get_mut(key) {
            if info.target_nonce.pending_outcomes.remove(old_updater) {
                info.target_nonce.pending_outcomes.insert(*new_updater);
            } else {
                assert(info.target_nonce.pending_outcomes@
                    =~= before[key@].target_nonce.pending_outcomes);
            }
        }
        assert(nonces@ =~= handed_on(m, list.take(i + 1).to_set(), *old_updater, *new_updater));
        i += 1;
    }
    assert(list.take(n as int) =~= list);
}

impl TxTracker {
    /// Refers to moved transactions by their new places. Returns the updaters whose places are
    /// taken for now, which are to be listed later.
    pub fn retrack(&mut self, refs: &Vec<RefMove>, taken: &OrderedSet<TxRef>) -> (r: Vec<Listing>)
        ensures
            (Retracking { tracker: final(self)@, deferred: views(r@) }) == (Retracking {
                tracker: old(self)@,
                deferred: Seq::empty(),
            }).all_moved(views(refs@), taken@, refs@.len() as int),
    {
        let ghost start = Retracking { tracker: self@, deferred: Seq::empty() };
        let ghost all = views(refs@);
        let mut deferred: Vec<Listing> = Vec::new();
        let mut i: usize = 0;
        assert(views(deferred@) =~= Seq::empty());
        while i < refs.len()
            invariant
                i <= refs@.len(),
                all == views(refs@),
                (Retracking { tracker: self@, deferred: views(deferred@) }) == start.all_moved(
                    all,
                    taken@,
                    i as int,
                ),
            decreases refs@.len() - i,
        {
            let ghost before = self@;
            let ghost deferred_before = views(deferred@);
            let old_ref = refs[i].0;
            let new_ref = refs[i].1;
            let key = &refs[i].2;
            assert(all[i as int] == (old_ref, new_ref, key@));
            if let Some(info) = self.nonces.get_mut(key) {
                info.txs_awaiting_nonce.remove(&old_ref);
                info.txs_awaiting_nonce.insert(new_ref);
                info.queued_txs.remove(&old_ref);
                info.queued_txs.insert(new_ref);
            }
            assert(self@.nonces == with_ref_moved(before.nonces, key@, old_ref, new_ref));
            let old_updater = NonceUpdater::TxRef(old_ref);
            let new_updater = NonceUpdater::TxRef(new_ref);
            if let Some(keys) = self.updater_to_keys.remove(&old_updater) {
                hand_on(&mut self.nonces, &keys, &old_updater, &new_updater);
                if taken.contains(&new_ref) || self.updater_to_keys.contains_key(&new_updater) {
                    let ghost k = keys@;
                    deferred.push((new_updater, keys));
                    assert(views(deferred@) =~= deferred_before.push((new_updater, k)));
                } else {
                    self.updater_to_keys.insert(new_updater, keys);
                }
            } else {
                assert(self@.updater_to_keys =~= before.updater_to_keys);
            }
            i += 1;
        }
        deferred
    }
}

} // verus!
