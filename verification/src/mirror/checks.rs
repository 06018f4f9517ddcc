//! Whether a step finds everything that it needs.

use vstd::prelude::*;

use super::batches::SentItem;
use super::db::{DbView, NonceDb};
use super::delay::{in_order, MAX_DURATION_NANOS, MIN_TIMESTAMPS, SHORT_DELAY_NANOS};
use super::ids::{NonceKey, NonceLookupKey, NonceUpdater, TxRef};
use super::queue::{
    first_chunk, heights_ascend, holds, leads_to, lemma_some_ref, searchable, tx_at,
    BlockQueue, QueueView,
};
use super::sending::batch;
use super::settling::{awaiting_apart, awaiting_held, awaiting_of, UpdatedKey};
use super::target::{world, AppliedReceipt, ExecutionStatus, TargetTx};
use super::tracker::{InfoView, NonceInfo, TxTracker};
use super::tx::{MappedTx, TargetChainTx};
use crate::keys::{BlockHeight, CryptoHash};
use crate::ordered::{ascending, lemma_prefix_step, Key, OrderedMap, OrderedSet};

verus! {

impl BlockQueue {
    /// Whether the source heights go up along the queue.
    pub fn ascends(&self) -> (b: bool)
        ensures
            b == heights_ascend(self@),
    {
        let ghost q = self@;
        let mut i: usize = 1;
        while i < self.blocks.len()
            invariant
                1 <= i,
                q == self@,
                self.blocks@.len() == q.len(),
                forall|a: int, b: int|
                    0 <= a < b < i && b < q.len() ==> (#[trigger] q[a]).source_height < (
                    #[trigger] q[b]).source_height,
            decreases self.blocks@.len() - i,
        {
            assert(q[i - 1].source_height == self.blocks@[i - 1].source_height);
            assert(q[i as int].source_height == self.blocks@[i as int].source_height);
            if self.blocks[i - 1].source_height >= self.blocks[i].source_height {
                return false;
            }
            assert forall|a: int, b: int| 0 <= a < b < i + 1 && b < q.len() implies (
            #[trigger] q[a]).source_height < (#[trigger] q[b]).source_height by {
                if b == i && a < i - 1 {
                    assert(q[a].source_height < q[i - 1].source_height);
                }
            }
            i += 1;
        }
        true
    }

    /// Whether there is a transaction at the reference.
    pub fn has_tx(&self, tx_ref: &TxRef) -> (b: bool)
        requires
            heights_ascend(self@),
        ensures
            b == holds(self@, *tx_ref),
    {
        let ghost q = self@;
        let i: usize = match self.find_block(tx_ref.source_height) {
            Ok(i) => i,
            Err(_) => {
                proof {
                    if holds(q, *tx_ref) {
                        let (b, c) = choose|b: int, c: int| leads_to(q, *tx_ref, b, c);
                        assert(q[b].source_height == tx_ref.source_height);
                    }
                }
                return false;
            },
        };
        let block = &self.blocks[i];
        assert(q[i as int] == block@);
        proof {
            assert forall|b: int, c: int| #[trigger] leads_to(q, *tx_ref, b, c) implies b == i by {
                if b < i {
                    assert(q[b].source_height < q[i as int].source_height);
                } else if i < b {
                    assert(q[i as int].source_height < q[b].source_height);
                }
            }
        }
        let mut k: usize = 0;
        while k < block.chunks.len()
            invariant
                k <= block.chunks@.len(),
                i < q.len(),
                q[i as int] == block@,
                q[i as int].source_height == tx_ref.source_height,
                heights_ascend(q),
                forall|d: int|
                    0 <= d < k ==> (#[trigger] block@.chunks[d]).shard_id != tx_ref.shard_id,
                forall|b: int, c: int| #[trigger] leads_to(q, *tx_ref, b, c) ==> b == i,
                q == self@,
            decreases block.chunks@.len() - k,
        {
            assert(block@.chunks[k as int] == block.chunks@[k as int]@);
            if block.chunks[k].shard_id == tx_ref.shard_id {
                let r = tx_ref.tx_idx < block.chunks[k].txs.len();
                proof {
                    assert(first_chunk(block@.chunks, k as int, tx_ref.shard_id));
                    if r {
                        assert(leads_to(q, *tx_ref, i as int, k as int));
                    } else if holds(q, *tx_ref) {
                        let (b, c) = choose|b: int, c: int| leads_to(q, *tx_ref, b, c);
                        if c < k {
                            assert(block@.chunks[c].shard_id != tx_ref.shard_id);
                        } else if k < c {
                            assert(block@.chunks[k as int].shard_id != tx_ref.shard_id);
                        }
                    }
                }
                return r;
            }
            k += 1;
        }
        proof {
            if holds(q, *tx_ref) {
                let (b, c) = choose|b: int, c: int| leads_to(q, *tx_ref, b, c);
                assert(block@.chunks[c].shard_id != tx_ref.shard_id);
            }
        }
        false
    }
}

/// Whether `updater` may still change the nonce that a transaction waits for.
pub fn awaits(tx: &TargetChainTx, updater: &NonceUpdater) -> (b: bool)
    ensures
        b == tx@.awaits(*updater),
{
    match tx {
        TargetChainTx::Ready(_) => false,
        TargetChainTx::AwaitingNonce(t) => t.target_nonce.pending_outcomes.contains(updater),
    }
}

/// The queue holds the transaction, and it waits for the updater, if there is one, or is ready
/// where that is allowed.
pub open spec fn ref_fits(
    q: QueueView,
    r: TxRef,
    updater: Option<NonceUpdater>,
    ready_ok: bool,
) -> bool {
    holds(q, r) && (updater matches Some(u) ==> (ready_ok && tx_at(q, r) is Ready) || tx_at(
        q,
        r,
    ).awaits(u))
}

fn refs_fit(
    refs: &OrderedSet<TxRef>,
    queue: &BlockQueue,
    updater: Option<NonceUpdater>,
    ready_ok: bool,
) -> (b: bool)
    requires
        searchable(queue@, refs@),
    ensures
        b == (forall|r: TxRef| #[trigger]
            refs@.contains(r) ==> ref_fits(queue@, r, updater, ready_ok)),
{
    if refs.is_empty() {
        return true;
    }
    let ghost list = refs.list();
    let n: usize = refs.len();
    let mut i: usize = 0;
    while i < n
        invariant
            i <= n,
            n == refs.list().len(),
            list == refs.list(),
            list.to_set() == refs@,
            heights_ascend(queue@),
            forall|j: int|
                0 <= j < i ==> ref_fits(queue@, #[trigger] list[j], updater, ready_ok),
        decreases n - i,
    {
        let r = refs.item_at(i);
        assert(refs@.contains(*r));
        if !queue.has_tx(r) {
            return false;
        }
        if let Some(u) = updater {
            let tx = queue.get_tx(r);
            if !(ready_ok && tx.is_ready()) && !awaits(tx, &u) {
                return false;
            }
        }
        i += 1;
    }
    proof {
        assert forall|r: TxRef| #[trigger] refs@.contains(r) implies ref_fits(
            queue@,
            r,
            updater,
            ready_ok,
        ) by {
            assert(list.to_set().contains(r));
            let j = list.index_of(r);
            assert(list[j] == r);
        }
    }
    true
}

/// Whether something waits for the nonces of `keys`.
fn does_anything_wait(
    nonces: &OrderedMap<NonceLookupKey, NonceInfo>,
    keys: &OrderedSet<NonceLookupKey>,
) -> (b: bool)
    ensures
        b == (awaiting_of(nonces@, keys@) != Set::<TxRef>::empty()),
{
    let ghost list = keys.list();
    let n: usize = keys.len();
    let mut i: usize = 0;
    while i < n
        invariant
            i <= n,
            n == keys.list().len(),
            list == keys.list(),
            list.to_set() == keys@,
            forall|j: int|
                0 <= j < i && nonces@.contains_key(#[trigger] list[j])
                    ==> nonces@[list[j]].txs_awaiting_nonce == Set::<TxRef>::empty(),
        decreases n - i,
    {
        let key = keys.item_at(i);
        assert(keys@.contains(key@));
        if let Some(info) = nonces.get(key) {
            if !info.txs_awaiting_nonce.is_empty() {
                proof {
                    let r = lemma_some_ref(info.txs_awaiting_nonce@);
                    assert(nonces@[key@].txs_awaiting_nonce.contains(r));
                    assert(awaiting_of(nonces@, keys@).contains(r));
                }
                return true;
            }
        }
        i += 1;
    }
    proof {
        assert forall|r: TxRef| !awaiting_of(nonces@, keys@).contains(r) by {
            if awaiting_of(nonces@, keys@).contains(r) {
                let k = choose|k: NonceKey| #[trigger]
                    keys@.contains(k) && nonces@.contains_key(k)
                        && nonces@[k].txs_awaiting_nonce.contains(r);
                assert(list.to_set().contains(k));
                let j = list.index_of(k);
                assert(list[j] == k);
            }
        }
        assert(awaiting_of(nonces@, keys@) =~= Set::empty());
    }
    false
}

/// Whether the queue is in order, if something waits for the nonces of `keys`.
fn is_searchable(
    nonces: &OrderedMap<NonceLookupKey, NonceInfo>,
    keys: &OrderedSet<NonceLookupKey>,
    queue: &BlockQueue,
) -> (b: bool)
    ensures
        b == searchable(queue@, awaiting_of(nonces@, keys@)),
{
    !does_anything_wait(nonces, keys) || queue.ascends()
}

/// All that waits for the nonces of `keys` fits.
pub open spec fn awaiting_fits(
    nonces: Map<NonceKey, InfoView>,
    keys: Set<NonceKey>,
    q: QueueView,
    updater: Option<NonceUpdater>,
    ready_ok: bool,
) -> bool {
    forall|k: NonceKey, r: TxRef|
        #![trigger keys.contains(k), nonces[k].txs_awaiting_nonce.contains(r)]
        keys.contains(k) && nonces.contains_key(k) && nonces[k].txs_awaiting_nonce.contains(r)
            ==> ref_fits(q, r, updater, ready_ok)
}

/// Whether all that waits for the nonces of `keys` fits.
fn does_awaiting_fit(
    nonces: &OrderedMap<NonceLookupKey, NonceInfo>,
    keys: &OrderedSet<NonceLookupKey>,
    queue: &BlockQueue,
    updater: Option<NonceUpdater>,
    ready_ok: bool,
) -> (b: bool)
    requires
        searchable(queue@, awaiting_of(nonces@, keys@)),
    ensures
        b == awaiting_fits(nonces@, keys@, queue@, updater, ready_ok),
{
    let ghost list = keys.list();
    let ghost q = queue@;
    let n: usize = keys.len();
    let mut i: usize = 0;
    while i < n
        invariant
            i <= n,
            n == keys.list().len(),
            list == keys.list(),
            list.to_set() == keys@,
            q == queue@,
            searchable(q, awaiting_of(nonces@, keys@)),
            forall|j: int, r: TxRef|
                #![trigger nonces@[list[j]].txs_awaiting_nonce.contains(r)]
                0 <= j < i && nonces@.contains_key(list[j])
                    && nonces@[list[j]].txs_awaiting_nonce.contains(r) ==> ref_fits(
                    q,
                    r,
                    updater,
                    ready_ok,
                ),
        decreases n - i,
    {
        let key = keys.item_at(i);
        assert(keys@.contains(key@));
        if let Some(info) = nonces.get(key) {
            proof {
                let waiting = info.txs_awaiting_nonce@;
                if waiting != Set::<TxRef>::empty() {
                    let r = lemma_some_ref(waiting);
                    assert(awaiting_of(nonces@, keys@).contains(r));
                }
            }
            if !refs_fit(&info.txs_awaiting_nonce, queue, updater, ready_ok) {
                proof {
                    let r = choose|r: TxRef| #[trigger]
                        info.txs_awaiting_nonce@.contains(r) && !ref_fits(
                            q,
                            r,
                            updater,
                            ready_ok,
                        );
                    assert(nonces@[key@].txs_awaiting_nonce.contains(r));
                }
                return false;
            }
        }
        i += 1;
    }
    proof {
        assert forall|k: NonceKey, r: TxRef|
            #![trigger keys@.contains(k), nonces@[k].txs_awaiting_nonce.contains(r)]
            keys@.contains(k) && nonces@.contains_key(k)
                && nonces@[k].txs_awaiting_nonce.contains(r) implies ref_fits(
            q,
            r,
            updater,
            ready_ok,
        ) by {
            assert(list.to_set().contains(k));
            let j = list.index_of(k);
            assert(list[j] == k);
        }
    }
    true
}

/// No transaction waits for two of the nonces, except for one that is ready.
pub open spec fn keys_apart(
    nonces: Map<NonceKey, InfoView>,
    keys: Set<NonceKey>,
    q: QueueView,
) -> bool {
    forall|k: NonceKey, l: NonceKey, x: TxRef|
        #![trigger nonces[k].txs_awaiting_nonce.contains(x), nonces[l].txs_awaiting_nonce.contains(x)]
        keys.contains(k) && keys.contains(l) && nonces.contains_key(k) && nonces.contains_key(l)
            && nonces[k].txs_awaiting_nonce.contains(x) && nonces[l].txs_awaiting_nonce.contains(x)
            ==> k == l || tx_at(q, x) is Ready
}

/// Whether no transaction waits for two of the nonces, except for one that is ready where that is
/// allowed.
pub fn awaiting_is_apart(
    nonces: &OrderedMap<NonceLookupKey, NonceInfo>,
    keys: &OrderedSet<NonceLookupKey>,
    queue: &BlockQueue,
    ready_ok: bool,
) -> (b: bool)
    requires
        ready_ok ==> searchable(queue@, awaiting_of(nonces@, keys@)) && awaiting_held(
            nonces@,
            keys@,
            queue@,
        ),
    ensures
        !ready_ok ==> b == awaiting_apart(nonces@, keys@),
        ready_ok ==> b == keys_apart(nonces@, keys@, queue@),
{
    let ghost list = keys.list();
    let ghost m = nonces@;
    let ghost q = queue@;
    let n: usize = keys.len();
    let mut seen: OrderedSet<TxRef> = OrderedSet::new();
    let mut i: usize = 0;
    assert(seen@ =~= awaiting_of(m, list.take(0).to_set()));
    while i < n
        invariant
            i <= n,
            n == keys.list().len(),
            list == keys.list(),
            list.to_set() == keys@,
            ascending::<NonceLookupKey>(list),
            m == nonces@,
            q == queue@,
            ready_ok ==> searchable(q, awaiting_of(m, keys@)) && awaiting_held(m, keys@, q),
            seen@ == awaiting_of(m, list.take(i as int).to_set()),
            !ready_ok ==> awaiting_apart(m, list.take(i as int).to_set()),
            ready_ok ==> keys_apart(m, list.take(i as int).to_set(), q),
        decreases n - i,
    {
        let key = keys.item_at(i);
        let ghost done = list.take(i as int).to_set();
        let ghost more = list.take(i + 1).to_set();
        proof {
            lemma_prefix_step::<NonceLookupKey>(list, i as int);
            assert(keys@.contains(key@));
            assert forall|k: NonceKey| done.contains(k) implies keys@.contains(k) by {
                let j = list.take(i as int).index_of(k);
                assert(list.take(i as int)[j] == k);
                assert(list[j] == k);
                assert(list.contains(k));
            }
        }
        if let Some(info) = nonces.get(key) {
            let refs = &info.txs_awaiting_nonce;
            let ghost before = seen@;
            let ghost rs = refs.list();
            let k: usize = refs.len();
            let mut j: usize = 0;
            assert(before =~= before.union(rs.take(0).to_set()));
            while j < k
                invariant
                    j <= k,
                    k == refs.list().len(),
                    rs == refs.list(),
                    rs.to_set() == refs@,
                    ascending::<TxRef>(rs),
                    seen@ == before.union(rs.take(j as int).to_set()),
                    before == awaiting_of(m, done),
                    m.contains_key(key@),
                    m[key@].txs_awaiting_nonce == refs@,
                    keys@.contains(key@),
                    !done.contains(key@),
                    forall|x: NonceKey| done.contains(x) ==> keys@.contains(x),
                    m == nonces@,
                    q == queue@,
                    ready_ok ==> searchable(q, awaiting_of(m, keys@)) && awaiting_held(m, keys@, q),
                    forall|d: int|
                        0 <= d < j ==> {
                            let r = #[trigger] rs[d];
                            before.contains(r) ==> ready_ok && tx_at(q, r) is Ready
                        },
                decreases k - j,
            {
                let r = refs.item_at(j);
                proof {
                    lemma_prefix_step::<TxRef>(rs, j as int);
                    assert(m[key@].txs_awaiting_nonce.contains(*r));
                    assert(awaiting_of(m, keys@).contains(*r));
                    if before.contains(*r) {
                        let l = choose|l: NonceKey| #[trigger]
                            done.contains(l) && m.contains_key(l)
                                && m[l].txs_awaiting_nonce.contains(*r);
                        assert(keys@.contains(l) && m[l].txs_awaiting_nonce.contains(*r));
                        assert(l != key@);
                    }
                }
                let fresh = seen.insert(*r);
                assert(fresh == !before.contains(*r));
                if !fresh && !(ready_ok && queue.get_tx(r).is_ready()) {
                    return false;
                }
                assert(seen@ =~= before.union(rs.take(j + 1).to_set()));
                j += 1;
            }
            proof {
                assert(rs.take(k as int) =~= rs);
                assert(seen@ =~= awaiting_of(m, more)) by {
                    assert forall|x: TxRef| seen@.contains(x) == awaiting_of(m, more).contains(
                        x,
                    ) by {
                        if before.contains(x) {
                            let l = choose|l: NonceKey| #[trigger]
                                done.contains(l) && m.contains_key(l)
                                    && m[l].txs_awaiting_nonce.contains(x);
                            assert(more.contains(l));
                        }
                        if refs@.contains(x) {
                            assert(more.contains(key@));
                        }
                        if awaiting_of(m, more).contains(x) {
                            let l = choose|l: NonceKey| #[trigger]
                                more.contains(l) && m.contains_key(l)
                                    && m[l].txs_awaiting_nonce.contains(x);
                            if l != key@ {
                                assert(done.contains(l));
                            }
                        }
                    }
                }
                assert forall|a: NonceKey, b: NonceKey, x: TxRef|
                    #![trigger m[a].txs_awaiting_nonce.contains(x), m[b].txs_awaiting_nonce.contains(x)]
                    more.contains(a) && more.contains(b) && m.contains_key(a) && m.contains_key(b)
                        && m[a].txs_awaiting_nonce.contains(x)
                        && m[b].txs_awaiting_nonce.contains(x) implies a == b || (ready_ok && tx_at(
                    q,
                    x,
                ) is Ready) by {
                    if a != b && (a == key@ || b == key@) {
                        let o = if a == key@ {
                            b
                        } else {
                            a
                        };
                        assert(done.contains(o) && m[o].txs_awaiting_nonce.contains(x));
                        assert(before.contains(x));
                        assert(rs.to_set().contains(x));
                        let d = rs.index_of(x);
                        assert(rs[d] == x);
                    } else if a != b {
                        assert(done.contains(a) && done.contains(b));
                    }
                }
            }
        } else {
            proof {
                assert(seen@ =~= awaiting_of(m, more)) by {
                    assert forall|x: TxRef| seen@.contains(x) == awaiting_of(m, more).contains(
                        x,
                    ) by {
                        if seen@.contains(x) {
                            let l = choose|l: NonceKey| #[trigger]
                                done.contains(l) && m.contains_key(l)
                                    && m[l].txs_awaiting_nonce.contains(x);
                            assert(more.contains(l));
                        }
                    }
                }
                assert forall|a: NonceKey, b: NonceKey, x: TxRef|
                    #![trigger m[a].txs_awaiting_nonce.contains(x), m[b].txs_awaiting_nonce.contains(x)]
                    more.contains(a) && more.contains(b) && m.contains_key(a) && m.contains_key(b)
                        && m[a].txs_awaiting_nonce.contains(x)
                        && m[b].txs_awaiting_nonce.contains(x) implies a == b || (ready_ok && tx_at(
                    q,
                    x,
                ) is Ready) by {
                    assert(done.contains(a) && done.contains(b));
                }
            }
        }
        i += 1;
    }
    assert(list.take(n as int) =~= list);
    true
}

/// Whether the nonces of `keys` have records and are in memory, each with the updater pending.
fn keys_pending(
    nonces: &OrderedMap<NonceLookupKey, NonceInfo>,
    db: &NonceDb,
    keys: &OrderedSet<NonceLookupKey>,
    updater: &NonceUpdater,
) -> (b: bool)
    ensures
        b == (forall|k: NonceKey| #[trigger]
            keys@.contains(k) ==> db@.nonces.contains_key(k) && nonces@.contains_key(k)
                && nonces@[k].target_nonce.pending_outcomes.contains(*updater)),
{
    let ghost list = keys.list();
    let n: usize = keys.len();
    let mut i: usize = 0;
    while i < n
        invariant
            i <= n,
            n == keys.list().len(),
            list == keys.list(),
            list.to_set() == keys@,
            forall|j: int|
                0 <= j < i ==> {
                    let k = #[trigger] list[j];
                    db@.nonces.contains_key(k) && nonces@.contains_key(k)
                        && nonces@[k].target_nonce.pending_outcomes.contains(*updater)
                },
        decreases n - i,
    {
        let key = keys.item_at(i);
        assert(keys@.contains(key@));
        let known = db.read_target_nonce(key).is_some();
        let pending = match nonces.get(key) {
            Some(info) => info.target_nonce.pending_outcomes.contains(updater),
            None => false,
        };
        if !known || !pending {
            return false;
        }
        i += 1;
    }
    proof {
        assert forall|k: NonceKey| #[trigger]
            keys@.contains(k) implies db@.nonces.contains_key(k) && nonces@.contains_key(k)
            && nonces@[k].target_nonce.pending_outcomes.contains(*updater) by {
            assert(list.to_set().contains(k));
            let j = list.index_of(k);
            assert(list[j] == k);
        }
    }
    true
}

/// Whether the nonces of `keys` have records with the outcome pending, and those in memory have the
/// updater pending.
fn outcome_pending(
    nonces: &OrderedMap<NonceLookupKey, NonceInfo>,
    db: &NonceDb,
    keys: &OrderedSet<NonceLookupKey>,
    id: &CryptoHash,
) -> (b: bool)
    ensures
        b == (forall|k: NonceKey| #[trigger]
            keys@.contains(k) ==> {
                &&& db@.nonces.contains_key(k)
                &&& db@.nonces[k].pending_outcomes.contains(*id)
                &&& nonces@.contains_key(k) ==> nonces@[k].target_nonce.pending_outcomes.contains(
                    NonceUpdater::ChainObjectId(*id),
                )
            }),
{
    let ghost list = keys.list();
    let updater = NonceUpdater::ChainObjectId(*id);
    let n: usize = keys.len();
    let mut i: usize = 0;
    while i < n
        invariant
            i <= n,
            n == keys.list().len(),
            list == keys.list(),
            list.to_set() == keys@,
            updater == NonceUpdater::ChainObjectId(*id),
            forall|j: int|
                0 <= j < i ==> {
                    let k = #[trigger] list[j];
                    &&& db@.nonces.contains_key(k)
                    &&& db@.nonces[k].pending_outcomes.contains(*id)
                    &&& nonces@.contains_key(k)
                        ==> nonces@[k].target_nonce.pending_outcomes.contains(updater)
                },
        decreases n - i,
    {
        let key = keys.item_at(i);
        assert(keys@.contains(key@));
        let stored = match db.read_target_nonce(key) {
            Some(record) => record.pending_outcomes.contains(id),
            None => false,
        };
        let pending = match nonces.get(key) {
            Some(info) => info.target_nonce.pending_outcomes.contains(&updater),
            None => true,
        };
        if !stored || !pending {
            return false;
        }
        i += 1;
    }
    proof {
        assert forall|k: NonceKey| #[trigger] keys@.contains(k) implies {
            &&& db@.nonces.contains_key(k)
            &&& db@.nonces[k].pending_outcomes.contains(*id)
            &&& nonces@.contains_key(k) ==> nonces@[k].target_nonce.pending_outcomes.contains(
                updater,
            )
        } by {
            assert(list.to_set().contains(k));
            let j = list.index_of(k);
            assert(list[j] == k);
        }
    }
    true
}

impl TxTracker {
    /// Whether everything is there that sending a transaction needs.
    pub fn can_send(
        &self,
        tx_block_queue: &BlockQueue,
        db: &NonceDb,
        tx_ref: &Option<TxRef>,
        tx: &MappedTx,
    ) -> (b: bool)
        ensures
            b == batch(world(self@, tx_block_queue@, db@), Set::empty()).can_send(*tx_ref, tx@),
    {
        if self.sent_txs.contains_key(&tx.target_tx.get_hash()) {
            return true;
        }
        let key = NonceLookupKey::from_tx(&tx.target_tx.transaction);
        if db.read_target_nonce(&key).is_none() {
            return false;
        }
        let info = match self.nonces.get(&key) {
            Some(info) => info,
            None => {
                return false;
            },
        };
        let keys = &tx.nonce_updates;
        match tx_ref {
            None => keys.is_empty(),
            Some(r) => {
                let updater = NonceUpdater::TxRef(*r);
                let listed = match self.updater_to_keys.get(&updater) {
                    Some(listed) => listed.same(keys),
                    None => keys.is_empty(),
                };
                if !listed || !is_searchable(&self.nonces, keys, tx_block_queue) {
                    return false;
                }
                keys_pending(&self.nonces, db, keys, &updater) && does_awaiting_fit(
                    &self.nonces,
                    keys,
                    tx_block_queue,
                    Some(updater),
                    false,
                ) && awaiting_is_apart(&self.nonces, keys, tx_block_queue, false)
                    && info.queued_txs.contains(r)
            },
        }
    }

    /// Whether everything is there that skipping a transaction needs.
    pub fn can_skip(
        &self,
        tx_block_queue: &BlockQueue,
        tx_ref: &Option<TxRef>,
        nonce_key: &NonceLookupKey,
        nonce_updates: &OrderedSet<NonceLookupKey>,
    ) -> (b: bool)
        ensures
            b == batch(
                world(self@, tx_block_queue@, DbView::empty()),
                Set::empty(),
            ).can_skip(*tx_ref, nonce_key@, nonce_updates@),
    {
        let r = match tx_ref {
            Some(r) => r,
            None => {
                return true;
            },
        };
        let queued = match self.nonces.get(nonce_key) {
            Some(info) => info.queued_txs.contains(r),
            None => false,
        };
        if !queued {
            return false;
        }
        let updater = NonceUpdater::TxRef(*r);
        match self.updater_to_keys.get(&updater) {
            None => true,
            Some(listed) => {
                if !listed.same(nonce_updates) || !is_searchable(
                    &self.nonces,
                    nonce_updates,
                    tx_block_queue,
                ) {
                    return false;
                }
                let ghost nonces = self@.nonces;
                let ghost keys = nonce_updates@;
                let ghost q = tx_block_queue@;
                let fits = does_awaiting_fit(
                    &self.nonces,
                    nonce_updates,
                    tx_block_queue,
                    Some(updater),
                    true,
                );
                proof {
                    if fits {
                        assert forall|x: TxRef| #[trigger]
                            awaiting_of(nonces, keys).contains(x) implies tx_at(q, x) is Ready
                            || tx_at(q, x).awaits(updater) by {
                            let k = choose|k: NonceKey| #[trigger]
                                keys.contains(k) && nonces.contains_key(k)
                                    && nonces[k].txs_awaiting_nonce.contains(x);
                            assert(keys.contains(k) && nonces[k].txs_awaiting_nonce.contains(x));
                        }
                    } else {
                        let (k, x) = choose|k: NonceKey, x: TxRef|
                            #![trigger keys.contains(k), nonces[k].txs_awaiting_nonce.contains(x)]
                            keys.contains(k) && nonces.contains_key(k)
                                && nonces[k].txs_awaiting_nonce.contains(x) && !ref_fits(
                                q,
                                x,
                                Some(updater),
                                true,
                            );
                        assert(keys.contains(k) && nonces[k].txs_awaiting_nonce.contains(x));
                        assert(awaiting_of(nonces, keys).contains(x));
                    }
                }
                fits && awaiting_is_apart(&self.nonces, nonce_updates, tx_block_queue, true)
            },
        }
    }

    /// Whether everything is there that accounting for a transaction needs.
    pub fn can_account(&self, tx_block_queue: &BlockQueue, db: &NonceDb, item: &SentItem) -> (b:
        bool)
        ensures
            b == batch(world(self@, tx_block_queue@, db@), Set::empty()).can_account(item@),
    {
        match &item.1 {
            TargetChainTx::Ready(t) => {
                if t.sent_successfully {
                    self.can_send(tx_block_queue, db, &item.0, t)
                } else {
                    let key = NonceLookupKey::from_tx(&t.target_tx.transaction);
                    self.can_skip(tx_block_queue, &item.0, &key, &t.nonce_updates)
                }
            },
            TargetChainTx::AwaitingNonce(t) => {
                let key = NonceLookupKey::from_tx(&t.target_tx);
                self.can_skip(tx_block_queue, &item.0, &key, &t.nonce_updates)
            },
        }
    }

    /// Whether the clock types can hold the delays.
    pub fn do_delays_fit(&self) -> (b: bool)
        ensures
            b == self@.delays_fit(),
    {
        if self.tx_batch_interval.is_some() {
            return true;
        }
        if self.min_block_production_delay > MAX_DURATION_NANOS - SHORT_DELAY_NANOS {
            return false;
        }
        let n: usize = self.recent_block_timestamps.len();
        if n < MIN_TIMESTAMPS {
            return true;
        }
        let ghost ts = self@.recent_block_timestamps;
        let mut i: usize = 1;
        while i < n
            invariant
                1 <= i <= n,
                n == self.recent_block_timestamps@.len(),
                n >= MIN_TIMESTAMPS,
                self.tx_batch_interval is None,
                ts == self@.recent_block_timestamps,
                ts == self.recent_block_timestamps@,
                in_order(ts.take(i as int)),
            decreases n - i,
        {
            if self.recent_block_timestamps[i - 1] > self.recent_block_timestamps[i] {
                assert(ts[i - 1] > ts[i as int]);
                return false;
            }
            proof {
                let part = ts.take(i + 1);
                assert forall|a: int, b: int| 0 <= a <= b < part.len() implies part[a]
                    <= part[b] by {
                    if a < i {
                        assert(ts.take(i as int)[a] <= ts.take(i as int)[i - 1]);
                    }
                    if b < i {
                        assert(ts.take(i as int)[a] <= ts.take(i as int)[b]);
                    }
                }
            }
            i += 1;
        }
        assert(ts.take(n as int) =~= ts);
        true
    }

    /// Whether everything is there that a transaction of a target block needs.
    pub fn can_include(&self, tx_block_queue: &BlockQueue, db: &NonceDb, tx: &TargetTx) -> (b: bool)
        ensures
            b == world(self@, tx_block_queue@, db@).can_include(tx@),
    {
        let key = NonceLookupKey::from_tx_view(tx);
        if self.sent_txs.contains_key(&tx.hash) && self.txs_by_signer.contains_key(&key) && tx.nonce
            == u64::MAX {
            return false;
        }
        let keys = match db.read_pending_outcome(&tx.hash) {
            Some(keys) => keys,
            None => {
                return true;
            },
        };
        let updater = NonceUpdater::ChainObjectId(tx.hash);
        let listed = match self.updater_to_keys.get(&updater) {
            Some(listed) => listed.same(keys),
            None => true,
        };
        match tx.status {
            ExecutionStatus::SuccessReceiptId(_) => listed && is_searchable(
                &self.nonces,
                keys,
                tx_block_queue,
            )
                && outcome_pending(&self.nonces, db, keys, &tx.hash) && does_awaiting_fit(
                &self.nonces,
                keys,
                tx_block_queue,
                Some(updater),
                false,
            ) && awaiting_is_apart(&self.nonces, keys, tx_block_queue, false),
            ExecutionStatus::Failure => listed,
            ExecutionStatus::SuccessValue => false,
            ExecutionStatus::Unknown => false,
        }
    }

    /// Whether everything is there that an applied receipt needs.
    pub fn can_apply(&self, db: &NonceDb, outcome: &AppliedReceipt) -> (b: bool)
        ensures
            b == (db@.outcomes.contains_key(outcome@.id) ==> self@.lists(
                NonceUpdater::ChainObjectId(outcome@.id),
                db@.outcomes[outcome@.id],
            )),
    {
        match db.read_pending_outcome(&outcome.id) {
            None => true,
            Some(keys) => match self.updater_to_keys.get(
                &NonceUpdater::ChainObjectId(outcome.id),
            ) {
                Some(listed) => listed.same(keys),
                None => true,
            },
        }
    }

    /// Whether a nonce can be given out after all others.
    pub fn can_give_nonce(
        &self,
        db: &NonceDb,
        nonce_key: &NonceLookupKey,
        source_height: BlockHeight,
    ) -> (b: bool)
        ensures
            b == (self@.knows(db@, nonce_key@) && self@.info(
                db@,
                nonce_key@,
                Some(source_height),
            ).target_nonce.can_increment()),
    {
        let nonce = match self.nonces.get(nonce_key) {
            Some(info) => info.target_nonce.nonce,
            None => match db.read_target_nonce(nonce_key) {
                Some(record) => record.nonce,
                None => {
                    return false;
                },
            },
        };
        match nonce {
            Some(n) => n < u64::MAX,
            None => true,
        }
    }

    /// Whether a nonce can be given out before those of all queued transactions.
    pub fn can_insert_nonce(
        &self,
        tx_block_queue: &BlockQueue,
        db: &NonceDb,
        nonce_key: &NonceLookupKey,
    ) -> (b: bool)
        ensures
            b == self@.can_insert(tx_block_queue@, db@, nonce_key@),
    {
        match self.nonces.get(nonce_key) {
            None => match db.read_target_nonce(nonce_key) {
                None => false,
                Some(record) => match record.nonce {
                    Some(n) => n < u64::MAX,
                    None => true,
                },
            },
            Some(info) => {
                let refs = &info.queued_txs;
                let room = match info.target_nonce.nonce {
                    Some(n) => n < u64::MAX,
                    None => true,
                };
                if refs.is_empty() {
                    return true;
                }
                if !room || !tx_block_queue.ascends() {
                    return false;
                }
                let ghost list = refs.list();
                let n: usize = refs.len();
                let mut i: usize = 0;
                while i < n
                    invariant
                        i <= n,
                        n == refs.list().len(),
                        list == refs.list(),
                        list.to_set() == refs@,
                        refs@ == self@.shifted_refs(nonce_key@),
                        heights_ascend(tx_block_queue@),
                        forall|j: int|
                            0 <= j < i ==> holds(tx_block_queue@, #[trigger] list[j]) && tx_at(
                                tx_block_queue@,
                                list[j],
                            ).can_shift(),
                    decreases n - i,
                {
                    let r = refs.item_at(i);
                    assert(refs@.contains(*r));
                    if !tx_block_queue.has_tx(r) {
                        return false;
                    }
                    let fits = match tx_block_queue.get_tx(r).target_nonce().nonce {
                        Some(n) => n < u64::MAX,
                        None => true,
                    };
                    if !fits {
                        return false;
                    }
                    i += 1;
                }
                proof {
                    assert forall|x: TxRef| #[trigger] refs@.contains(x) implies holds(
                        tx_block_queue@,
                        x,
                    ) && tx_at(tx_block_queue@, x).can_shift() by {
                        assert(list.to_set().contains(x));
                        let j = list.index_of(x);
                        assert(list[j] == x);
                    }
                }
                true
            },
        }
    }

    /// Whether everything is there that a nonce from the target chain needs.
    pub fn can_set_nonces(
        &self,
        tx_block_queue: &BlockQueue,
        db: &NonceDb,
        updated_key: &UpdatedKey,
    ) -> (b: bool)
        ensures
            b == (db@.nonces.contains_key(updated_key@.0) && searchable(
                tx_block_queue@,
                awaiting_of(self@.nonces, set![updated_key@.0]),
            ) && awaiting_held(self@.nonces, set![updated_key@.0], tx_block_queue@)),
    {
        if db.read_target_nonce(&updated_key.nonce_key).is_none() {
            return false;
        }
        let mut keys: OrderedSet<NonceLookupKey> = OrderedSet::new();
        keys.insert(updated_key.nonce_key.duplicate());
        assert(keys@ =~= set![updated_key@.0]);
        if !is_searchable(&self.nonces, &keys, tx_block_queue) {
            return false;
        }
        does_awaiting_fit(&self.nonces, &keys, tx_block_queue, None, false)
    }
}

} // verus!
