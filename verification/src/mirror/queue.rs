//! The blocks of transactions that wait to be sent.

use vstd::prelude::*;

use super::ids::{NonceKey, NonceLookupKey, TxRef};
use super::tx::{TargetChainTx, TxEdit, TxView};
use crate::keys::{order_u64, BlockHeight, CryptoHash, ShardId};
use crate::ordered::{
    ascending, lemma_prefix_step, views, Key, KeyOrder, OrderedSet,
};

verus! {

/// The transactions of one shard.
pub struct MappedChunk {
    pub shard_id: ShardId,
    pub txs: Vec<TargetChainTx>,
}

/// The view of a `MappedChunk`.
#[verifier::ext_equal]
pub ghost struct ChunkView {
    pub shard_id: ShardId,
    pub txs: Seq<TxView>,
}

impl View for MappedChunk {
    type V = ChunkView;

    open spec fn view(&self) -> ChunkView {
        ChunkView { shard_id: self.shard_id, txs: views(self.txs@) }
    }
}

/// The transactions made from one source block.
pub struct MappedBlock {
    pub source_height: BlockHeight,
    pub source_hash: CryptoHash,
    pub chunks: Vec<MappedChunk>,
}

/// The view of a `MappedBlock`.
#[verifier::ext_equal]
pub ghost struct BlockView {
    pub source_height: BlockHeight,
    pub source_hash: CryptoHash,
    pub chunks: Seq<ChunkView>,
}

impl View for MappedBlock {
    type V = BlockView;

    open spec fn view(&self) -> BlockView {
        BlockView {
            source_height: self.source_height,
            source_hash: self.source_hash,
            chunks: views(self.chunks@),
        }
    }
}

/// Some transaction of the block may change the nonce of `key`.
pub open spec fn block_updates(block: BlockView, key: NonceKey) -> bool {
    exists|c: int, i: int|
        0 <= c < block.chunks.len() && 0 <= i < block.chunks[c].txs.len()
            && #[trigger] block.chunks[c].txs[i].nonce_updates().contains(key)
}

impl MappedBlock {
    /// The nonces that the transactions of the block may change.
    pub fn nonce_updates(&self) -> (r: OrderedSet<NonceLookupKey>)
        ensures
            forall|k: NonceKey| #[trigger] r@.contains(k) == block_updates(self@, k),
    {
        let mut r: OrderedSet<NonceLookupKey> = OrderedSet::new();
        let ghost chunks = self@.chunks;
        let mut c: usize = 0;
        while c < self.chunks.len()
            invariant
                c <= self.chunks@.len(),
                chunks == views(self.chunks@),
                forall|k: NonceKey| #[trigger]
                    r@.contains(k) == (exists|d: int, i: int|
                        0 <= d < c && 0 <= i < chunks[d].txs.len()
                            && #[trigger] chunks[d].txs[i].nonce_updates().contains(k)),
            decreases self.chunks@.len() - c,
        {
            let chunk = &self.chunks[c];
            let ghost done = r@;
            let ghost txs = chunks[c as int].txs;
            let mut i: usize = 0;
            while i < chunk.txs.len()
                invariant
                    i <= chunk.txs@.len(),
                    txs == views(chunk.txs@),
                    forall|k: NonceKey| #[trigger]
                        r@.contains(k) == (done.contains(k) || exists|j: int|
                            0 <= j < i && #[trigger] txs[j].nonce_updates().contains(k)),
                decreases chunk.txs@.len() - i,
            {
                let updates = chunk.txs[i].nonce_updates();
                let ghost before = r@;
                let n: usize = updates.len();
                let mut u: usize = 0;
                while u < n
                    invariant
                        u <= n,
                        n == updates.list().len(),
                        ascending::<NonceLookupKey>(updates.list()),
                        r@ == before.union(updates.list().take(u as int).to_set()),
                    decreases n - u,
                {
                    let key = updates.item_at(u).duplicate();
                    proof {
                        lemma_prefix_step::<NonceLookupKey>(updates.list(), u as int);
                    }
                    r.insert(key);
                    assert(r@ =~= before.union(updates.list().take(u + 1).to_set()));
                    u += 1;
                }
                proof {
                    assert(updates.list().take(n as int) =~= updates.list());
                    assert(txs[i as int].nonce_updates() == updates@);
                    assert forall|k: NonceKey| #[trigger]
                        r@.contains(k) == (done.contains(k) || exists|j: int|
                            0 <= j < i + 1 && #[trigger] txs[j].nonce_updates().contains(k)) by {
                        if exists|j: int|
                            0 <= j < i + 1 && #[trigger] txs[j].nonce_updates().contains(k) {
                            let j = choose|j: int|
                                0 <= j < i + 1 && #[trigger] txs[j].nonce_updates().contains(k);
                            if j < i {
                                assert(txs[j].nonce_updates().contains(k));
                            }
                        }
                    }
                }
                i += 1;
            }
            proof {
                assert forall|k: NonceKey| #[trigger]
                    r@.contains(k) == (exists|d: int, j: int|
                        0 <= d < c + 1 && 0 <= j < chunks[d].txs.len()
                            && #[trigger] chunks[d].txs[j].nonce_updates().contains(k)) by {
                    if r@.contains(k) {
                        if done.contains(k) {
                            let (d, j) = choose|d: int, j: int|
                                0 <= d < c && 0 <= j < chunks[d].txs.len()
                                    && #[trigger] chunks[d].txs[j].nonce_updates().contains(k);
                            assert(chunks[d].txs[j].nonce_updates().contains(k));
                        } else {
                            let j = choose|j: int|
                                0 <= j < i && #[trigger] txs[j].nonce_updates().contains(k);
                            assert(chunks[c as int].txs[j].nonce_updates().contains(k));
                        }
                    }
                    if exists|d: int, j: int|
                        0 <= d < c + 1 && 0 <= j < chunks[d].txs.len()
                            && #[trigger] chunks[d].txs[j].nonce_updates().contains(k) {
                        let (d, j) = choose|d: int, j: int|
                            0 <= d < c + 1 && 0 <= j < chunks[d].txs.len()
                                && #[trigger] chunks[d].txs[j].nonce_updates().contains(k);
                        if d < c {
                            assert(done.contains(k));
                        } else {
                            assert(txs[j].nonce_updates().contains(k));
                        }
                    }
                }
            }
            c += 1;
        }
        r
    }
}

/// The queue as its blocks.
pub type QueueView = Seq<BlockView>;

/// Source heights go up along the queue.
pub open spec fn heights_ascend(q: QueueView) -> bool {
    forall|a: int, b: int|
        0 <= a < b < q.len() ==> (#[trigger] q[a]).source_height < (#[trigger] q[b]).source_height
}

/// The queue is in order if something is looked up in it.
pub open spec fn searchable(q: QueueView, refs: Set<TxRef>) -> bool {
    refs != Set::<TxRef>::empty() ==> heights_ascend(q)
}

/// Some reference of a set that is not empty.
pub proof fn lemma_some_ref(refs: Set<TxRef>) -> (r: TxRef)
    requires
        refs != Set::<TxRef>::empty(),
    ensures
        refs.contains(r),
{
    if forall|r: TxRef| !refs.contains(r) {
        assert(refs =~= Set::empty());
    }
    choose|r: TxRef| refs.contains(r)
}

/// `c` is the first chunk of a shard.
pub open spec fn first_chunk(chunks: Seq<ChunkView>, c: int, shard_id: ShardId) -> bool {
    &&& 0 <= c < chunks.len()
    &&& chunks[c].shard_id == shard_id
    &&& forall|d: int| 0 <= d < c ==> (#[trigger] chunks[d]).shard_id != shard_id
}

/// A reference leads to chunk `c` of block `b`.
pub open spec fn leads_to(q: QueueView, r: TxRef, b: int, c: int) -> bool {
    &&& 0 <= b < q.len()
    &&& q[b].source_height == r.source_height
    &&& first_chunk(q[b].chunks, c, r.shard_id)
    &&& r.tx_idx < q[b].chunks[c].txs.len()
}

/// The queue holds a transaction at the reference.
pub open spec fn holds(q: QueueView, r: TxRef) -> bool {
    exists|b: int, c: int| leads_to(q, r, b, c)
}

/// The transaction at a reference.
pub open spec fn tx_at(q: QueueView, r: TxRef) -> TxView {
    let (b, c) = choose|b: int, c: int| leads_to(q, r, b, c);
    q[b].chunks[c].txs[r.tx_idx as int]
}

/// The queue with another transaction at chunk `c` of block `b`.
pub open spec fn put_at(q: QueueView, b: int, c: int, i: int, tx: TxView) -> QueueView {
    let chunk = q[b].chunks[c];
    let chunk = ChunkView { txs: chunk.txs.update(i, tx), ..chunk };
    q.update(b, BlockView { chunks: q[b].chunks.update(c, chunk), ..q[b] })
}

/// The reference of a transaction by its place.
pub open spec fn ref_of(block: BlockView, c: int, i: int) -> TxRef {
    TxRef {
        source_height: block.source_height,
        shard_id: block.chunks[c].shard_id,
        tx_idx: i as usize,
    }
}

pub open spec fn edited_chunk(
    block: BlockView,
    c: int,
    refs: Set<TxRef>,
    edit: TxEdit,
) -> ChunkView {
    let chunk = block.chunks[c];
    ChunkView {
        txs: Seq::new(
            chunk.txs.len(),
            |i: int|
                if refs.contains(ref_of(block, c, i)) && first_chunk(
                    block.chunks,
                    c,
                    chunk.shard_id,
                ) && i <= usize::MAX {
                    chunk.txs[i].edited(edit)
                } else {
                    chunk.txs[i]
                },
        ),
        ..chunk
    }
}

pub open spec fn edited_block(block: BlockView, refs: Set<TxRef>, edit: TxEdit) -> BlockView {
    BlockView {
        chunks: Seq::new(block.chunks.len(), |c: int| edited_chunk(block, c, refs, edit)),
        ..block
    }
}

/// The queue with the transactions at `refs` edited.
pub open spec fn edited(q: QueueView, refs: Set<TxRef>, edit: TxEdit) -> QueueView {
    Seq::new(q.len(), |b: int| edited_block(q[b], refs, edit))
}

pub proof fn lemma_leads_to_one(q: QueueView, r: TxRef, b: int, c: int, b2: int, c2: int)
    requires
        heights_ascend(q),
        leads_to(q, r, b, c),
        leads_to(q, r, b2, c2),
    ensures
        b == b2,
        c == c2,
{
    if b < b2 {
        assert(q[b].source_height < q[b2].source_height);
    } else if b2 < b {
        assert(q[b2].source_height < q[b].source_height);
    }
    if c < c2 {
        assert(q[b].chunks[c].shard_id != r.shard_id);
    } else if c2 < c {
        assert(q[b].chunks[c2].shard_id != r.shard_id);
    }
}

pub proof fn lemma_tx_at(q: QueueView, r: TxRef, b: int, c: int)
    requires
        heights_ascend(q),
        leads_to(q, r, b, c),
    ensures
        holds(q, r),
        tx_at(q, r) == q[b].chunks[c].txs[r.tx_idx as int],
{
    let (b2, c2) = choose|b: int, c: int| leads_to(q, r, b, c);
    lemma_leads_to_one(q, r, b, c, b2, c2);
}

pub proof fn lemma_edited_leads(q: QueueView, refs: Set<TxRef>, edit: TxEdit)
    ensures
        forall|r: TxRef, b: int, c: int| #[trigger]
            leads_to(edited(q, refs, edit), r, b, c) == leads_to(q, r, b, c),
        heights_ascend(q) ==> heights_ascend(edited(q, refs, edit)),
{
    let e = edited(q, refs, edit);
    assert forall|r: TxRef, b: int, c: int| #[trigger] leads_to(e, r, b, c) == leads_to(
        q,
        r,
        b,
        c,
    ) by {
        if 0 <= b < q.len() {
            assert(e[b] == edited_block(q[b], refs, edit));
            assert forall|d: int| 0 <= d < q[b].chunks.len() implies #[trigger] e[b].chunks[d]
                == edited_chunk(q[b], d, refs, edit) by {}
            if first_chunk(q[b].chunks, c, r.shard_id) {
                assert(e[b].chunks[c].shard_id == q[b].chunks[c].shard_id);
                assert forall|d: int| 0 <= d < c implies (#[trigger] e[b].chunks[d]).shard_id
                    != r.shard_id by {
                    assert(q[b].chunks[d].shard_id != r.shard_id);
                }
            }
            if first_chunk(e[b].chunks, c, r.shard_id) {
                assert forall|d: int| 0 <= d < c implies (#[trigger] q[b].chunks[d]).shard_id
                    != r.shard_id by {
                    assert(e[b].chunks[d].shard_id != r.shard_id);
                }
            }
        }
    }
    if heights_ascend(q) {
        assert forall|a: int, b: int| 0 <= a < b < e.len() implies (#[trigger] e[a]).source_height
            < (#[trigger] e[b]).source_height by {
            assert(q[a].source_height < q[b].source_height);
        }
    }
}

/// What an edited queue holds.
pub proof fn lemma_edited(q: QueueView, refs: Set<TxRef>, edit: TxEdit, r: TxRef)
    requires
        heights_ascend(q),
        holds(q, r),
    ensures
        holds(edited(q, refs, edit), r),
        tx_at(edited(q, refs, edit), r) == (if refs.contains(r) {
            tx_at(q, r).edited(edit)
        } else {
            tx_at(q, r)
        }),
        heights_ascend(edited(q, refs, edit)),
{
    let e = edited(q, refs, edit);
    lemma_edited_leads(q, refs, edit);
    let (b, c) = choose|b: int, c: int| leads_to(q, r, b, c);
    assert(leads_to(e, r, b, c));
    lemma_tx_at(q, r, b, c);
    lemma_tx_at(e, r, b, c);
    assert(e[b].chunks[c] == edited_chunk(q[b], c, refs, edit));
    assert(ref_of(q[b], c, r.tx_idx as int) == r);
}

/// Editing nothing changes nothing.
pub proof fn lemma_edited_none(q: QueueView, edit: TxEdit)
    ensures
        edited(q, Set::empty(), edit) == q,
{
    let e = edited(q, Set::empty(), edit);
    assert forall|b: int| 0 <= b < q.len() implies #[trigger] e[b] == q[b] by {
        assert forall|c: int| 0 <= c < q[b].chunks.len() implies #[trigger] e[b].chunks[c]
            == q[b].chunks[c] by {
            assert(e[b].chunks[c].txs =~= q[b].chunks[c].txs);
        }
        assert(e[b].chunks =~= q[b].chunks);
    }
    assert(e =~= q);
}

/// A transaction may be edited twice without harm.
pub open spec fn steady(tx: TxView, edit: TxEdit) -> bool {
    tx.edited(edit).edited(edit) == tx.edited(edit)
}

/// Editing in two goes.
pub proof fn lemma_edited_twice(q: QueueView, s: Set<TxRef>, t: Set<TxRef>, edit: TxEdit)
    requires
        heights_ascend(q),
        forall|r: TxRef|
            #![trigger s.contains(r)]
            s.contains(r) && t.contains(r) && holds(q, r) ==> steady(tx_at(q, r), edit),
    ensures
        edited(edited(q, s, edit), t, edit) == edited(q, s.union(t), edit),
{
    let e = edited(q, s, edit);
    let l = edited(e, t, edit);
    let r = edited(q, s.union(t), edit);
    lemma_edited_leads(q, s, edit);
    assert forall|b: int| 0 <= b < q.len() implies #[trigger] l[b] == r[b] by {
        assert(e[b] == edited_block(q[b], s, edit));
        assert forall|c: int| 0 <= c < q[b].chunks.len() implies #[trigger] l[b].chunks[c]
            == r[b].chunks[c] by {
            assert(e[b].chunks[c] == edited_chunk(q[b], c, s, edit));
            assert(l[b].chunks[c] == edited_chunk(e[b], c, t, edit));
            let shard = q[b].chunks[c].shard_id;
            assert(first_chunk(e[b].chunks, c, shard) == first_chunk(q[b].chunks, c, shard)) by {
                assert forall|d: int| 0 <= d < q[b].chunks.len() implies (
                #[trigger] e[b].chunks[d]).shard_id == q[b].chunks[d].shard_id by {}
                if first_chunk(e[b].chunks, c, shard) {
                    assert forall|d: int| 0 <= d < c implies (
                    #[trigger] q[b].chunks[d]).shard_id != shard by {
                        assert(e[b].chunks[d].shard_id != shard);
                    }
                }
            }
            assert forall|i: int| 0 <= i < q[b].chunks[c].txs.len() implies #[trigger] l[b].chunks[c].txs[i]
                == r[b].chunks[c].txs[i] by {
                let x = ref_of(q[b], c, i);
                assert(ref_of(e[b], c, i) == x);
                if first_chunk(q[b].chunks, c, shard) && i <= usize::MAX {
                    assert(leads_to(q, x, b, c));
                    lemma_tx_at(q, x, b, c);
                    if s.contains(x) && t.contains(x) {
                        assert(steady(tx_at(q, x), edit));
                    }
                }
            }
            assert(l[b].chunks[c].txs =~= r[b].chunks[c].txs);
        }
        assert(l[b].chunks =~= r[b].chunks);
    }
    assert(l =~= r);
}

/// Putting the edited transaction in its place is editing it.
pub proof fn lemma_put_edited(q: QueueView, r: TxRef, b: int, c: int, edit: TxEdit)
    requires
        heights_ascend(q),
        leads_to(q, r, b, c),
    ensures
        put_at(q, b, c, r.tx_idx as int, tx_at(q, r).edited(edit)) == edited(
            q,
            set![r],
            edit,
        ),
{
    lemma_tx_at(q, r, b, c);
    let p = put_at(q, b, c, r.tx_idx as int, tx_at(q, r).edited(edit));
    let e = edited(q, set![r], edit);
    assert forall|b2: int| 0 <= b2 < q.len() implies #[trigger] p[b2] == e[b2] by {
        assert(e[b2] == edited_block(q[b2], set![r], edit));
        if b2 != b {
            if b2 < b {
                assert(q[b2].source_height < q[b].source_height);
            } else {
                assert(q[b].source_height < q[b2].source_height);
            }
        }
        assert forall|c2: int| 0 <= c2 < q[b2].chunks.len() implies #[trigger] p[b2].chunks[c2]
            == e[b2].chunks[c2] by {
            assert(e[b2].chunks[c2] == edited_chunk(q[b2], c2, set![r], edit));
            assert forall|i: int|
                0 <= i < q[b2].chunks[c2].txs.len() implies #[trigger] p[b2].chunks[c2].txs[i]
                == e[b2].chunks[c2].txs[i] by {
                let x = ref_of(q[b2], c2, i);
                if i <= usize::MAX && x == r && first_chunk(
                    q[b2].chunks,
                    c2,
                    q[b2].chunks[c2].shard_id,
                ) {
                    assert(leads_to(q, r, b2, c2));
                    lemma_leads_to_one(q, r, b, c, b2, c2);
                    assert(i == r.tx_idx);
                }
            }
            assert(p[b2].chunks[c2].txs =~= e[b2].chunks[c2].txs);
        }
        assert(p[b2].chunks =~= e[b2].chunks);
    }
    assert(p =~= e);
}

/// The blocks that wait to be sent, by source height.
pub struct BlockQueue {
    pub blocks: Vec<MappedBlock>,
}

impl View for BlockQueue {
    type V = QueueView;

    open spec fn view(&self) -> QueueView {
        views(self.blocks@)
    }
}

impl BlockQueue {
    pub fn new() -> (r: BlockQueue)
        ensures
            r@ == QueueView::empty(),
    {
        let r = BlockQueue { blocks: Vec::new() };
        assert(r@ =~= QueueView::empty());
        r
    }

    /// Finds the block of a source height, or the place where it belongs.
    pub fn find_block(&self, source_height: BlockHeight) -> (r: Result<usize, usize>)
        requires
            heights_ascend(self@),
        ensures
            match r {
                Ok(i) => i < self@.len() && self@[i as int].source_height == source_height,
                Err(i) => {
                    &&& i <= self@.len()
                    &&& forall|j: int|
                        0 <= j < i ==> (#[trigger] self@[j]).source_height < source_height
                    &&& forall|j: int|
                        i <= j < self@.len() ==> source_height < (#[trigger] self@[j]).source_height
                },
            },
    {
        let ghost q = self@;
        let mut lo: usize = 0;
        let mut hi: usize = self.blocks.len();
        while lo < hi
            invariant
                lo <= hi <= self.blocks@.len(),
                q == views(self.blocks@),
                heights_ascend(q),
                forall|j: int| 0 <= j < lo ==> (#[trigger] q[j]).source_height < source_height,
                forall|j: int|
                    hi <= j < q.len() ==> source_height < (#[trigger] q[j]).source_height,
            decreases hi - lo,
        {
            let mid: usize = lo + (hi - lo) / 2;
            assert(q[mid as int].source_height == self.blocks@[mid as int].source_height);
            match order_u64(self.blocks[mid].source_height, source_height) {
                KeyOrder::Less => {
                    lo = mid + 1;
                },
                KeyOrder::Equal => {
                    return Ok(mid);
                },
                KeyOrder::Greater => {
                    hi = mid;
                },
            }
        }
        Err(lo)
    }

    /// The place of a queued transaction: its block and its chunk.
    pub fn find_tx(&self, tx_ref: &TxRef) -> (r: (usize, usize))
        requires
            heights_ascend(self@),
            holds(self@, *tx_ref),
        ensures
            leads_to(self@, *tx_ref, r.0 as int, r.1 as int),
    {
        let ghost q = self@;
        let ghost (b, c) = choose|b: int, c: int| leads_to(q, *tx_ref, b, c);
        let found = self.find_block(tx_ref.source_height);
        let i: usize = match found {
            Ok(i) => i,
            Err(i) => {
                assert(q[b].source_height == tx_ref.source_height);
                assert(false);
                i
            },
        };
        proof {
            if b < i {
                assert(q[b].source_height < q[i as int].source_height);
            } else if i < b {
                assert(q[i as int].source_height < q[b].source_height);
            }
        }
        let block = &self.blocks[i];
        assert(q[i as int].chunks == views(block.chunks@));
        let mut k: usize = 0;
        while k < block.chunks.len()
            invariant_except_break
                k <= block.chunks@.len(),
                forall|d: int|
                    0 <= d < k ==> (#[trigger] q[b].chunks[d]).shard_id != tx_ref.shard_id,
            invariant
                q[b].chunks == views(block.chunks@),
                first_chunk(q[b].chunks, c, tx_ref.shard_id),
            ensures
                k == c,
            decreases block.chunks@.len() - k,
        {
            assert(q[b].chunks[k as int].shard_id == block.chunks@[k as int].shard_id);
            if block.chunks[k].shard_id == tx_ref.shard_id {
                assert(k == c) by {
                    if c < k {
                        assert(q[b].chunks[c].shard_id != tx_ref.shard_id);
                    }
                    if k < c {
                        assert(q[b].chunks[k as int].shard_id != tx_ref.shard_id);
                    }
                }
                break;
            }
            k += 1;
        }
        (i, k)
    }

    /// A queued transaction.
    pub fn get_tx(&self, tx_ref: &TxRef) -> (tx: &TargetChainTx)
        requires
            heights_ascend(self@),
            holds(self@, *tx_ref),
        ensures
            tx@ == tx_at(self@, *tx_ref),
    {
        let (b, c) = self.find_tx(tx_ref);
        proof {
            lemma_tx_at(self@, *tx_ref, b as int, c as int);
        }
        assert(self@[b as int].chunks[c as int].txs == views(
            self.blocks@[b as int].chunks@[c as int].txs@,
        ));
        &self.blocks[b].chunks[c].txs[tx_ref.tx_idx]
    }

    /// Edits one queued transaction.
    pub fn edit_tx(&mut self, tx_ref: &TxRef, edit: &TxEdit)
        requires
            heights_ascend(old(self)@),
            holds(old(self)@, *tx_ref),
            edit is Shift ==> tx_at(old(self)@, *tx_ref).can_shift(),
        ensures
            final(self)@ == edited(old(self)@, set![*tx_ref], *edit),
    {
        let (b, c) = self.find_tx(tx_ref);
        let ghost q = self@;
        proof {
            lemma_tx_at(q, *tx_ref, b as int, c as int);
            lemma_put_edited(q, *tx_ref, b as int, c as int, *edit);
        }
        let i: usize = tx_ref.tx_idx;
        assert(q[b as int].chunks[c as int].txs == views(
            self.blocks@[b as int].chunks@[c as int].txs@,
        ));
        self.blocks[b].chunks[c].txs[i].edit(edit);
        proof {
            let p = put_at(q, b as int, c as int, i as int, tx_at(q, *tx_ref).edited(*edit));
            assert(self@[b as int].chunks[c as int].txs =~= p[b as int].chunks[c as int].txs);
            assert(self@[b as int].chunks =~= p[b as int].chunks);
            assert(self@ =~= p);
        }
    }

    /// Edits the queued transactions at all of the references.
    pub fn edit_all(&mut self, refs: &OrderedSet<TxRef>, edit: &TxEdit)
        requires
            searchable(old(self)@, refs@),
            forall|r: TxRef| #[trigger] refs@.contains(r) ==> holds(old(self)@, r),
            edit is Shift ==> forall|r: TxRef| #[trigger]
                refs@.contains(r) ==> tx_at(old(self)@, r).can_shift(),
        ensures
            final(self)@ == edited(old(self)@, refs@, *edit),
            heights_ascend(old(self)@) ==> heights_ascend(final(self)@),
    {
        let ghost q = self@;
        let n: usize = refs.len();
        let ghost list = refs.list();
        proof {
            lemma_edited_none(q, *edit);
            assert(list.take(0).to_set() =~= Set::empty());
        }
        if refs.is_empty() {
            return;
        }
        let mut i: usize = 0;
        while i < n
            invariant
                i <= n,
                n == refs.list().len(),
                list == refs.list(),
                list.to_set() == refs@,
                ascending::<TxRef>(list),
                heights_ascend(q),
                self@ == edited(q, list.take(i as int).to_set(), *edit),
                forall|r: TxRef| #[trigger] refs@.contains(r) ==> holds(q, r),
                edit is Shift ==> forall|r: TxRef| #[trigger]
                    refs@.contains(r) ==> tx_at(q, r).can_shift(),
            decreases n - i,
        {
            let r = *refs.item_at(i);
            let ghost done = list.take(i as int).to_set();
            proof {
                lemma_prefix_step::<TxRef>(list, i as int);
                lemma_edited(q, done, *edit, r);
                lemma_edited_twice(q, done, set![r], *edit);
                assert(done.union(set![r]) =~= list.take(i + 1).to_set());
            }
            self.edit_tx(&r, edit);
            i += 1;
        }
        proof {
            assert(list.take(n as int) =~= list);
            lemma_edited_leads(q, refs@, *edit);
        }
    }

    /// Those of the references that lead to ready transactions.
    pub fn ready_among(&self, refs: &OrderedSet<TxRef>) -> (r: OrderedSet<TxRef>)
        requires
            searchable(self@, refs@),
            forall|r: TxRef| #[trigger] refs@.contains(r) ==> holds(self@, r),
        ensures
            r@ == refs@.filter(|x: TxRef| tx_at(self@, x) is Ready),
    {
        let mut found: OrderedSet<TxRef> = OrderedSet::new();
        let n: usize = refs.len();
        let ghost list = refs.list();
        let ghost ready = |x: TxRef| tx_at(self@, x) is Ready;
        assert(list.take(0).to_set().filter(ready) =~= Set::empty());
        if refs.is_empty() {
            assert(refs@.filter(ready) =~= Set::empty());
            return found;
        }
        let mut i: usize = 0;
        while i < n
            invariant
                i <= n,
                n == refs.list().len(),
                list == refs.list(),
                list.to_set() == refs@,
                ascending::<TxRef>(list),
                heights_ascend(self@),
                ready == (|x: TxRef| tx_at(self@, x) is Ready),
                found@ == list.take(i as int).to_set().filter(ready),
                forall|r: TxRef| #[trigger] refs@.contains(r) ==> holds(self@, r),
            decreases n - i,
        {
            let r = *refs.item_at(i);
            proof {
                lemma_prefix_step::<TxRef>(list, i as int);
            }
            if self.get_tx(&r).is_ready() {
                found.insert(r);
            }
            assert(found@ =~= list.take(i + 1).to_set().filter(ready));
            i += 1;
        }
        assert(list.take(n as int) =~= list);
        found
    }

    /// Puts a block at the end.
    pub fn push_back(&mut self, block: MappedBlock)
        ensures
            final(self)@ == old(self)@.push(block@),
    {
        self.blocks.push(block);
        assert(self@ =~= old(self)@.push(block@));
    }

    /// Puts a block in its place among the others.
    pub fn insert_block(&mut self, block: MappedBlock)
        requires
            heights_ascend(old(self)@),
            forall|b: int|
                0 <= b < old(self)@.len() ==> (#[trigger] old(self)@[b]).source_height
                    != block@.source_height,
        ensures
            final(self)@ == with_block(old(self)@, block@),
            heights_ascend(final(self)@),
    {
        let ghost q = self@;
        let found = self.find_block(block.source_height);
        let at: usize = match found {
            Ok(i) => {
                assert(q[i as int].source_height == block@.source_height);
                assert(false);
                i
            },
            Err(i) => i,
        };
        proof {
            lemma_with_block(q, block@, at as int);
        }
        self.blocks.insert(at, block);
        assert(self@ =~= q.insert(at as int, block@));
    }

    /// Takes the first block out.
    pub fn pop_front(&mut self) -> (r: Option<MappedBlock>)
        ensures
            match r {
                Some(b) => old(self)@.len() > 0 && b@ == old(self)@[0] && final(self)@
                    == old(self)@.skip(1),
                None => old(self)@.len() == 0 && final(self)@ == old(self)@,
            },
    {
        if self.blocks.len() == 0 {
            return None;
        }
        let b = self.blocks.remove(0);
        assert(self@ =~= old(self)@.skip(1));
        Some(b)
    }
}

/// `at` is where a block of the height belongs.
pub open spec fn place_of(q: QueueView, height: BlockHeight, at: int) -> bool {
    &&& 0 <= at <= q.len()
    &&& forall|j: int| 0 <= j < at ==> (#[trigger] q[j]).source_height < height
    &&& forall|j: int| at <= j < q.len() ==> height < (#[trigger] q[j]).source_height
}

/// The queue with one more block, in its place by height.
pub open spec fn with_block(q: QueueView, block: BlockView) -> QueueView {
    q.insert(choose|at: int| place_of(q, block.source_height, at), block)
}

pub proof fn lemma_with_block(q: QueueView, block: BlockView, at: int)
    requires
        heights_ascend(q),
        place_of(q, block.source_height, at),
    ensures
        with_block(q, block) == q.insert(at, block),
        heights_ascend(q.insert(at, block)),
{
    let a2 = choose|at: int| place_of(q, block.source_height, at);
    if a2 < at {
        assert(q[a2].source_height < block.source_height);
    } else if at < a2 {
        assert(q[at].source_height < block.source_height);
    }
    let w = q.insert(at, block);
    assert forall|a: int, b: int| 0 <= a < b < w.len() implies (#[trigger] w[a]).source_height < (
    #[trigger] w[b]).source_height by {
        let sa = if a < at { a } else { a - 1 };
        let sb = if b < at { b } else { b - 1 };
        if a != at {
            assert(w[a] == q[sa]);
        }
        if b != at {
            assert(w[b] == q[sb]);
        }
        if a != at && b != at {
            assert(q[sa].source_height < q[sb].source_height);
        }
    }
}

/// A block may change the nonces that one of its transactions, in any of its chunks, may change.
pub proof fn blocks_may_change_what_their_txs_may(block: BlockView, k: NonceKey)
    ensures
        forall|c: int, i: int|
            0 <= c < block.chunks.len() && 0 <= i < block.chunks[c].txs.len()
                && #[trigger] block.chunks[c].txs[i].nonce_updates().contains(k) ==> block_updates(
                block,
                k,
            ),
        block_updates(block, k) ==> exists|c: int, i: int|
            0 <= c < block.chunks.len() && 0 <= i < block.chunks[c].txs.len()
                && #[trigger] block.chunks[c].txs[i].nonce_updates().contains(k),
{
}

} // verus!
