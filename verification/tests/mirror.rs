use near_tools::keys::{AccountId, CryptoHash, PublicKey};
use near_tools::mirror::batches::{SentBatch, SentReport, TxBatch, MAX_REQUEUE_ATTEMPTS};
use near_tools::mirror::db::{DbWrite, LatestTargetNonce, NonceDb};
use near_tools::mirror::delay::SHORT_DELAY_NANOS;
use near_tools::mirror::ids::{NonceKind, NonceLookupKey, NonceUpdater, TxId, TxRef};
use near_tools::mirror::nonces::{
    store_access_key_nonce, store_gas_key_nonces, store_target_nonce, NonceFetch,
};
use near_tools::mirror::queue::{BlockQueue, MappedBlock, MappedChunk};
use near_tools::mirror::log::append_header;
use near_tools::mirror::sending::SendNotice;
use near_tools::mirror::settling::UpdatedKey;
use near_tools::mirror::target::{
    execution_status_good, AppliedReceipt, ExecutionStatus, ReceiptAction, RemovalNotice,
    TargetBlock, TargetChunk, TargetShard, TargetTx,
};
use near_tools::mirror::tracker::{TxSendInfo, TxTracker};
use near_tools::mirror::tx::{
    MappedTx, SignedTransaction, TargetChainTx, TargetNonce, Transaction, TxAwaitingNonce,
};
use near_tools::ordered::{Key, OrderedMap, OrderedSet};

fn hash(n: u8) -> CryptoHash {
    CryptoHash([n; 32])
}

fn key(name: &str) -> NonceLookupKey {
    NonceLookupKey {
        account_id: AccountId(name.to_string()),
        public_key: PublicKey(vec![0, 1, 2]),
        kind: NonceKind::AccessKey,
    }
}

fn keys(names: &[&str]) -> OrderedSet<NonceLookupKey> {
    let mut s = OrderedSet::new();
    for n in names {
        s.insert(key(n));
    }
    s
}

fn at(height: u64, shard: u64, idx: usize) -> TxRef {
    TxRef { source_height: height, shard_id: shard, tx_idx: idx }
}

fn transaction(signer: &str, nonce: u64) -> Transaction {
    Transaction {
        signer_id: AccountId(signer.to_string()),
        public_key: PublicKey(vec![0, 1, 2]),
        nonce,
        nonce_index: None,
        receiver_id: AccountId("receiver".to_string()),
        actions: vec!["Transfer".to_string()],
        head: signer.as_bytes().to_vec(),
        tail: vec![9],
    }
}

fn ready(signer: &str, nonce: u64, updates: &[&str], sent: bool) -> TargetChainTx {
    TargetChainTx::Ready(MappedTx {
        provenance: "source tx".to_string(),
        source_signer_id: AccountId(signer.to_string()),
        source_receiver_id: AccountId("receiver".to_string()),
        target_tx: SignedTransaction::new(transaction(signer, nonce)),
        nonce_updates: keys(updates),
        sent_successfully: sent,
    })
}

fn waiting(signer: &str, updates: &[&str], target_nonce: TargetNonce) -> TargetChainTx {
    TargetChainTx::AwaitingNonce(TxAwaitingNonce {
        provenance: "source tx".to_string(),
        source_signer_id: AccountId(signer.to_string()),
        source_receiver_id: AccountId("receiver".to_string()),
        target_tx: transaction(signer, 0),
        nonce_updates: keys(updates),
        target_nonce,
    })
}

fn hash_of(tx: &TargetChainTx) -> CryptoHash {
    match tx {
        TargetChainTx::Ready(t) => t.target_tx.get_hash(),
        TargetChainTx::AwaitingNonce(_) => panic!("not ready"),
    }
}

fn nonce_of(tx: &TargetChainTx) -> Option<u64> {
    tx.target_nonce().nonce
}

fn tracker(heights: &[u64], stop: Option<u64>) -> TxTracker {
    TxTracker::new(1_000_000_000, None, heights, stop)
}

fn record(nonce: Option<u64>) -> LatestTargetNonce {
    LatestTargetNonce { nonce, pending_outcomes: OrderedSet::new() }
}

fn block(height: u64, chunks: Vec<(u64, Vec<TargetChainTx>)>) -> MappedBlock {
    MappedBlock {
        source_height: height,
        source_hash: hash(100),
        chunks: chunks.into_iter().map(|(shard_id, txs)| MappedChunk { shard_id, txs }).collect(),
    }
}

/// The batch that a block is sent as.
fn batch_of(b: MappedBlock) -> SentBatch {
    let source_height = b.source_height;
    let mut txs = Vec::new();
    for c in b.chunks {
        for (tx_idx, tx) in c.txs.into_iter().enumerate() {
            txs.push((at(source_height, c.shard_id, tx_idx), tx));
        }
    }
    SentBatch::MappedBlock(TxBatch { source_height, source_hash: b.source_hash, txs })
}

/// Marks the ready transactions of a block as sent.
fn sent(mut b: MappedBlock) -> MappedBlock {
    for c in b.chunks.iter_mut() {
        for tx in c.txs.iter_mut() {
            if let TargetChainTx::Ready(t) = tx {
                t.sent_successfully = true;
            }
        }
    }
    b
}

fn send_front(
    t: &mut TxTracker,
    q: &mut BlockQueue,
    db: &mut NonceDb,
    target_height: u64,
) -> SentReport {
    let b = sent(q.pop_front().unwrap());
    t.on_txs_sent(q, db, batch_of(b), target_height, 1_000)
}

fn target_tx(signer: &str, nonce: u64, hash: CryptoHash, status: ExecutionStatus) -> TargetTx {
    TargetTx {
        hash,
        signer_id: AccountId(signer.to_string()),
        public_key: PublicKey(vec![0, 1, 2]),
        nonce,
        nonce_index: None,
        status,
    }
}

fn receipt(id: CryptoHash, children: Vec<CryptoHash>, status: ExecutionStatus) -> AppliedReceipt {
    AppliedReceipt {
        id,
        receipt_ids: children,
        status,
        receiver_id: AccountId("receiver".to_string()),
        predecessor_id: AccountId("predecessor".to_string()),
        actions: Some(vec![]),
    }
}

fn target_block(height: u64, txs: Vec<TargetTx>, receipts: Vec<AppliedReceipt>) -> TargetBlock {
    TargetBlock {
        height,
        timestamp_nanosec: height * 10,
        shards: vec![TargetShard {
            shard_id: 0,
            chunk: Some(TargetChunk { height_included: height, gas_used: 1, transactions: txs }),
            receipt_execution_outcomes: receipts,
        }],
    }
}

#[test]
fn hash_is_taken_of_the_encoding() {
    let mut tx = transaction("", 0);
    tx.head = vec![];
    tx.tail = vec![];
    assert_eq!(
        SignedTransaction::new(tx.duplicate()).get_hash().0,
        [
            175, 85, 112, 245, 161, 129, 11, 122, 247, 140, 175, 75, 199, 10, 102, 15, 13, 245, 30,
            66, 186, 249, 29, 77, 229, 178, 50, 141, 224, 232, 61, 252
        ]
    );
    tx.head = vec![97, 98];
    tx.nonce = 5;
    tx.tail = vec![99];
    assert_eq!(tx.encode(), vec![97, 98, 5, 0, 0, 0, 0, 0, 0, 0, 99]);
    assert_eq!(
        tx.digest().0,
        [
            166, 40, 152, 122, 5, 168, 236, 33, 63, 81, 100, 34, 240, 190, 185, 111, 67, 137, 0,
            69, 119, 62, 246, 66, 250, 74, 82, 141, 102, 27, 84, 90
        ]
    );
    assert_eq!(
        tx.digest().0,
        near_primitives::hash::CryptoHash::hash_bytes(&tx.encode()).0
    );
}

#[test]
fn next_nonces_are_consecutive() {
    let mut t = tracker(&[1], None);
    let mut db = NonceDb::new();
    db.load_target_nonce(key("a"), record(Some(40)));
    assert_eq!(t.next_nonce(&db, &key("a"), 7).nonce, Some(41));
    assert_eq!(t.next_nonce(&db, &key("a"), 5).nonce, Some(42));
    assert_eq!(t.nonces.get(&key("a")).unwrap().last_height, Some(7));
    assert_eq!(t.next_nonce(&db, &key("a"), 9).nonce, Some(43));
    assert_eq!(t.nonces.get(&key("a")).unwrap().last_height, Some(9));
}

#[test]
fn unknown_nonce_stays_unknown_with_what_is_pending() {
    let mut t = tracker(&[1], None);
    let mut db = NonceDb::new();
    let mut pending = OrderedSet::new();
    pending.insert(hash(3));
    db.load_target_nonce(key("a"), LatestTargetNonce { nonce: None, pending_outcomes: pending });
    let n = t.next_nonce(&db, &key("a"), 7);
    assert_eq!(n.nonce, None);
    assert!(n.pending_outcomes.contains(&NonceUpdater::ChainObjectId(hash(3))));
    assert_eq!(n.pending_outcomes.len(), 1);
}

#[test]
fn fetch_depends_on_the_kind_of_key() {
    let mut db = NonceDb::new();
    let mut gas = key("a");
    gas.kind = NonceKind::GasKey(2);
    assert!(matches!(store_target_nonce(&db, &key("a")), NonceFetch::AccessKeyNonce));
    assert!(matches!(store_target_nonce(&db, &gas), NonceFetch::GasKeyNonces));
    store_access_key_nonce(&mut db, &key("a"), Some(5));
    assert!(matches!(store_target_nonce(&db, &key("a")), NonceFetch::Nothing));
    assert!(matches!(store_target_nonce(&db, &gas), NonceFetch::GasKeyNonces));
    store_gas_key_nonces(&mut db, &gas, Some(vec![10, 11, 12]));
    assert!(matches!(store_target_nonce(&db, &gas), NonceFetch::Nothing));
    for i in 0..3u16 {
        gas.kind = NonceKind::GasKey(i);
        assert_eq!(db.read_target_nonce(&gas).unwrap().nonce, Some(10 + i as u64));
    }
    gas.kind = NonceKind::GasKey(3);
    store_gas_key_nonces(&mut db, &gas, None);
    assert_eq!(db.read_target_nonce(&gas).unwrap().nonce, None);
    assert_eq!(db.read_target_nonce(&key("a")).unwrap().nonce, Some(5));
}

#[test]
fn writes_are_kept_in_order() {
    let mut db = NonceDb::new();
    db.load_target_nonce(key("a"), record(Some(1)));
    db.load_pending_outcome(hash(1), keys(&["a"]));
    store_access_key_nonce(&mut db, &key("b"), Some(2));
    db.put_pending_outcome(hash(2), keys(&["b"]));
    db.delete_pending_outcome(&hash(1));
    assert!(db.read_pending_outcome(&hash(1)).is_none());
    assert!(db.read_pending_outcome(&hash(2)).is_some());
    let writes = db.into_writes();
    assert_eq!(writes.len(), 3);
    assert!(matches!(&writes[0], DbWrite::PutTargetNonce { key: k, value } if *k == key("b") && value.nonce == Some(2)));
    assert!(matches!(&writes[1], DbWrite::PutPendingOutcome { id, keys } if *id == hash(2) && keys.contains(&key("b"))));
    assert!(matches!(&writes[2], DbWrite::DeletePendingOutcome { id } if *id == hash(1)));
}

#[test]
fn inserted_nonce_moves_queued_ones_up() {
    let mut t = tracker(&[5, 6], None);
    let mut q = BlockQueue::new();
    let mut db = NonceDb::new();
    db.load_target_nonce(key("a"), record(Some(10)));
    let first = t.next_nonce(&db, &key("a"), 5).nonce.unwrap();
    let second = t.next_nonce(&db, &key("a"), 5).nonce.unwrap();
    let b = block(5, vec![(0, vec![ready("a", first, &[], false), ready("a", second, &[], false)])]);
    t.queue_block(&mut q, b, &db);
    let before = hash_of(q.get_tx(&at(5, 0, 0)));
    let inserted = t.insert_nonce(&mut q, &db, &key("a"));
    assert_eq!(inserted.nonce, Some(11));
    assert_eq!(nonce_of(q.get_tx(&at(5, 0, 0))), Some(12));
    assert_eq!(nonce_of(q.get_tx(&at(5, 0, 1))), Some(13));
    assert_ne!(hash_of(q.get_tx(&at(5, 0, 0))), before);
    assert_eq!(hash_of(q.get_tx(&at(5, 0, 0))), transaction("a", 12).digest());
    assert_eq!(t.next_nonce(&db, &key("a"), 6).nonce, Some(14));
}

#[test]
fn inserted_nonce_without_queued_ones() {
    let mut t = tracker(&[5], None);
    let mut q = BlockQueue::new();
    let mut db = NonceDb::new();
    db.load_target_nonce(key("a"), record(Some(10)));
    assert_eq!(t.insert_nonce(&mut q, &db, &key("a")).nonce, Some(11));
    let nothing = t.insert_nonce(&mut q, &db, &key("a"));
    assert_eq!(nothing.nonce, None);
    assert!(nothing.pending_outcomes.is_empty());
    assert_eq!(t.nonces.get(&key("a")).unwrap().target_nonce.nonce, Some(11));
}

#[test]
fn queued_block_is_sent_and_found() {
    let mut t = tracker(&[5], Some(5));
    let mut q = BlockQueue::new();
    let mut db = NonceDb::new();
    db.load_target_nonce(key("a"), record(Some(10)));
    let n = t.next_nonce(&db, &key("a"), 5).nonce.unwrap();
    t.queue_block(&mut q, block(5, vec![(0, vec![]), (1, vec![ready("a", n, &[], false)])]), &db);
    assert_eq!(t.nonempty_height_queued, Some(5));
    assert_eq!(t.height_queued, Some(5));
    assert_eq!(t.next_heights.len(), 0);
    let h = hash_of(q.get_tx(&at(5, 1, 0)));
    assert!(t.nonces.get(&key("a")).unwrap().queued_txs.contains(&at(5, 1, 0)));

    let report = send_front(&mut t, &mut q, &mut db, 77);
    assert_eq!(report.sent, 1);
    assert_eq!(report.requeued, 0);
    assert!(report.nonce_keys.is_empty());
    assert_eq!(report.next_delay, 1_000_000_000 + SHORT_DELAY_NANOS);
    assert_eq!(t.requeue_attempts.len(), 0);
    assert!(report.notices.is_empty());
    assert_eq!(t.height_popped, Some(5));
    assert!(!t.nonces.contains_key(&key("a")));
    assert_eq!(db.read_target_nonce(&key("a")).unwrap().nonce, Some(11));
    assert!(db.read_pending_outcome(&h).unwrap().is_empty());
    assert_eq!(t.sent_txs.get(&h).unwrap().sent_at_target_height, 77);
    assert!(!t.finished());

    let msg = target_block(
        80,
        vec![
            target_tx("a", 11, h, ExecutionStatus::SuccessReceiptId(hash(1))),
            target_tx("b", 1, hash(50), ExecutionStatus::SuccessValue),
        ],
        vec![receipt(hash(1), vec![hash(2)], ExecutionStatus::SuccessValue)],
    );
    let info = t.on_target_block(&mut q, &mut db, &msg);
    assert_eq!(info.included, vec![h]);
    assert!(info.access_key_updates.is_empty());
    assert_eq!(t.height_seen, Some(5));
    assert!(!t.sent_txs.contains_key(&h));
    assert!(!t.txs_by_signer.contains_key(&key("a")));
    assert!(db.read_pending_outcome(&h).is_none());
    assert!(db.read_pending_outcome(&hash(1)).is_none());
    assert!(db.read_pending_outcome(&hash(2)).unwrap().is_empty());
    assert!(t.finished());
}

#[test]
fn no_stop_height_means_never_finished() {
    let mut t = tracker(&[5], None);
    assert!(!t.finished());
    t.stop_height = Some(5);
    assert!(!t.finished());
    t.height_popped = Some(6);
    assert!(t.finished());
    t.nonempty_height_queued = Some(6);
    assert!(!t.finished());
    t.height_seen = Some(6);
    assert!(t.finished());
}

/// A block whose first transaction adds the key that the second one waits for.
fn key_flow() -> (TxTracker, BlockQueue, NonceDb) {
    let mut t = tracker(&[5, 6, 7], None);
    let mut q = BlockQueue::new();
    let mut db = NonceDb::new();
    db.load_target_nonce(key("a"), record(Some(10)));
    db.load_target_nonce(key("new"), record(None));
    let n = t.next_nonce(&db, &key("a"), 5).nonce.unwrap();
    t.queue_block(&mut q, block(5, vec![(0, vec![ready("a", n, &["new"], false)])]), &db);
    let target_nonce = t.next_nonce(&db, &key("new"), 6);
    assert_eq!(target_nonce.nonce, None);
    assert!(target_nonce.pending_outcomes.contains(&NonceUpdater::TxRef(at(5, 0, 0))));
    t.queue_block(&mut q, block(6, vec![(0, vec![waiting("new", &[], target_nonce)])]), &db);
    (t, q, db)
}

#[test]
fn waiting_tx_gets_its_nonce_after_the_key_is_there() {
    let (mut t, mut q, mut db) = key_flow();
    let h = hash_of(q.get_tx(&at(5, 0, 0)));
    let info = t.nonces.get(&key("new")).unwrap();
    assert!(info.txs_awaiting_nonce.contains(&at(6, 0, 0)));
    assert!(t.updater_to_keys.contains_key(&NonceUpdater::TxRef(at(5, 0, 0))));

    send_front(&mut t, &mut q, &mut db, 70);
    let pending = q.get_tx(&at(6, 0, 0)).target_nonce().pending_outcomes;
    assert!(pending.contains(&NonceUpdater::ChainObjectId(h)));
    assert_eq!(pending.len(), 1);
    assert!(db.read_target_nonce(&key("new")).unwrap().pending_outcomes.contains(&h));
    assert!(!t.nonces.contains_key(&key("a")));
    assert!(t.nonces.contains_key(&key("new")));

    let included = target_block(
        71,
        vec![target_tx("a", 11, h, ExecutionStatus::SuccessReceiptId(hash(1)))],
        vec![],
    );
    t.on_target_block(&mut q, &mut db, &included);
    let pending = q.get_tx(&at(6, 0, 0)).target_nonce().pending_outcomes;
    assert!(pending.contains(&NonceUpdater::ChainObjectId(hash(1))));
    assert_eq!(pending.len(), 1);
    assert!(db.read_pending_outcome(&hash(1)).unwrap().contains(&key("new")));

    let applied = target_block(
        72,
        vec![],
        vec![receipt(hash(1), vec![], ExecutionStatus::SuccessValue)],
    );
    let info = t.on_target_block(&mut q, &mut db, &applied);
    assert_eq!(info.access_key_updates.len(), 1);
    assert_eq!(info.access_key_updates[0].id, hash(1));
    assert_eq!(info.access_key_updates[0].nonce_key, key("new"));

    t.try_set_nonces(
        &mut q,
        &mut db,
        UpdatedKey { nonce_key: key("new"), id: hash(1) },
        Some(500),
    );
    let nonce = q.get_tx(&at(6, 0, 0)).target_nonce();
    assert_eq!(nonce.nonce, Some(500));
    assert!(nonce.pending_outcomes.is_empty());
    assert!(!q.get_tx(&at(6, 0, 0)).is_ready());
    assert_eq!(db.read_target_nonce(&key("new")).unwrap().nonce, Some(500));

    let resolved = t.resolve_block_nonces(&mut q, 0);
    assert_eq!(resolved.len(), 1);
    assert_eq!(resolved[0].tx_ref, at(6, 0, 0));
    assert_eq!(resolved[0].nonce, 501);
    assert!(q.get_tx(&at(6, 0, 0)).is_ready());
    assert_eq!(hash_of(q.get_tx(&at(6, 0, 0))), transaction("new", 501).digest());
    assert!(t.nonces.get(&key("new")).unwrap().txs_awaiting_nonce.is_empty());

    let report = send_front(&mut t, &mut q, &mut db, 73);
    assert_eq!(report.sent, 1);
    assert!(!t.nonces.contains_key(&key("new")));
    assert_eq!(db.read_target_nonce(&key("new")).unwrap().nonce, Some(501));
}

#[test]
fn failed_tx_ends_the_waiting_for_its_outcome() {
    let (mut t, mut q, mut db) = key_flow();
    let h = hash_of(q.get_tx(&at(5, 0, 0)));
    send_front(&mut t, &mut q, &mut db, 70);
    let failed = target_block(71, vec![target_tx("a", 11, h, ExecutionStatus::Failure)], vec![]);
    let info = t.on_target_block(&mut q, &mut db, &failed);
    assert_eq!(info.included, vec![h]);
    assert!(info.access_key_updates.is_empty());
    assert!(db.read_pending_outcome(&h).is_none());
    assert!(!t.updater_to_keys.contains_key(&NonceUpdater::ChainObjectId(h)));
}

#[test]
fn skipped_tx_is_waited_for_no_more() {
    let (mut t, mut q, mut db) = key_flow();
    let b = q.pop_front().unwrap();
    let report = t.on_txs_sent(&mut q, &mut db, batch_of(b), 70, 1);
    assert_eq!(report.sent, 0);
    assert!(q.get_tx(&at(6, 0, 0)).target_nonce().pending_outcomes.is_empty());
    assert!(!t.updater_to_keys.contains_key(&NonceUpdater::TxRef(at(5, 0, 0))));
    assert_eq!(t.sent_txs.len(), 0);
    assert!(t.nonces.contains_key(&key("new")));
    assert!(!t.nonces.contains_key(&key("a")));
    assert!(t.nonces.get(&key("new")).unwrap().txs_awaiting_nonce.contains(&at(6, 0, 0)));
}

#[test]
fn waiting_txs_go_back_under_new_numbers() {
    let mut t = tracker(&[5], None);
    let mut q = BlockQueue::new();
    let mut db = NonceDb::new();
    for name in ["a", "b", "c"] {
        db.load_target_nonce(key(name), record(if name == "a" { Some(1) } else { None }));
    }
    let n = t.next_nonce(&db, &key("a"), 5).nonce.unwrap();
    let b_nonce = t.next_nonce(&db, &key("b"), 5);
    let b_again = t.next_nonce(&db, &key("b"), 5);
    let c_nonce = t.next_nonce(&db, &key("c"), 5);
    let b = block(
        5,
        vec![
            (3, vec![waiting("c", &[], c_nonce)]),
            (
                1,
                vec![
                    ready("a", n, &[], false),
                    waiting("b", &[], b_nonce),
                    waiting("b", &[], b_again),
                ],
            ),
        ],
    );
    t.queue_block(&mut q, b, &db);
    assert!(t.resolve_block_nonces(&mut q, 0).is_empty());
    let report = send_front(&mut t, &mut q, &mut db, 70);
    assert_eq!(report.sent, 1);
    assert_eq!(report.requeued, 3);
    assert_eq!(report.next_delay, SHORT_DELAY_NANOS);
    assert_eq!(report.nonce_keys, vec![key("c"), key("b")]);
    assert_eq!(q.get_tx(&at(5, 1, 0)).nonce_key(), key("b"));
    assert_eq!(q.get_tx(&at(5, 1, 1)).nonce_key(), key("b"));
    assert_eq!(q.get_tx(&at(5, 3, 0)).nonce_key(), key("c"));
    let info = t.nonces.get(&key("b")).unwrap();
    assert_eq!(info.queued_txs.len(), 2);
    assert!(info.queued_txs.contains(&at(5, 1, 0)));
    assert!(info.txs_awaiting_nonce.contains(&at(5, 1, 1)));
    assert_eq!(*t.requeue_attempts.get(&5).unwrap(), 1);

    t.force_resolve_nonces(&mut db, &key("b"), 30);
    let resolved = t.resolve_block_nonces(&mut q, 0);
    let nonces: Vec<u64> = resolved.iter().map(|r| r.nonce).collect();
    assert_eq!(nonces, vec![31, 32]);
    let report = send_front(&mut t, &mut q, &mut db, 71);
    assert_eq!((report.sent, report.requeued), (2, 1));
    assert_eq!(report.nonce_keys, vec![key("c")]);
}

#[test]
fn requeued_updater_is_listed_under_its_new_number() {
    let mut t = tracker(&[5], None);
    let mut q = BlockQueue::new();
    let mut db = NonceDb::new();
    for name in ["a", "b", "x"] {
        db.load_target_nonce(key(name), record(if name == "a" { Some(1) } else { None }));
    }
    let n = t.next_nonce(&db, &key("a"), 5).nonce.unwrap();
    let b_nonce = t.next_nonce(&db, &key("b"), 6);
    let b = block(
        5,
        vec![(0, vec![ready("a", n, &["x"], false), waiting("b", &["x"], b_nonce)])],
    );
    t.queue_block(&mut q, b, &db);
    assert_eq!(t.nonces.get(&key("x")).unwrap().target_nonce.pending_outcomes.len(), 2);
    t.nonces.get_mut(&key("x")).unwrap().last_height = Some(9);
    send_front(&mut t, &mut q, &mut db, 70);
    let listed = t.updater_to_keys.get(&NonceUpdater::TxRef(at(5, 0, 0))).unwrap();
    assert!(listed.contains(&key("x")));
    assert!(!t.updater_to_keys.contains_key(&NonceUpdater::TxRef(at(5, 0, 1))));
}

#[test]
fn waiting_txs_are_given_up_in_the_end() {
    let mut t = tracker(&[5], None);
    t.tx_batch_interval = Some(42);
    let mut q = BlockQueue::new();
    let mut db = NonceDb::new();
    db.load_target_nonce(key("b"), record(None));
    let b_nonce = t.next_nonce(&db, &key("b"), 5);
    t.queue_block(&mut q, block(5, vec![(0, vec![waiting("b", &[], b_nonce)])]), &db);
    for i in 0..MAX_REQUEUE_ATTEMPTS {
        let report = send_front(&mut t, &mut q, &mut db, 70);
        assert_eq!(report.requeued, 1);
        assert_eq!(report.next_delay, SHORT_DELAY_NANOS);
        assert_eq!(*t.requeue_attempts.get(&5).unwrap(), i + 1);
    }
    let report = send_front(&mut t, &mut q, &mut db, 70);
    assert_eq!(report.requeued, 0);
    assert_eq!((report.given_up, report.went_back), (1, MAX_REQUEUE_ATTEMPTS));
    assert!(report.nonce_keys.is_empty());
    assert_eq!(report.next_delay, 42);
    assert!(!t.requeue_attempts.contains_key(&5));
    assert!(!t.nonces.contains_key(&key("b")));
    assert!(q.pop_front().is_none());
}

#[test]
fn extra_txs_have_no_source_block() {
    let mut t = tracker(&[5], None);
    let mut q = BlockQueue::new();
    let mut db = NonceDb::new();
    db.load_target_nonce(key("a"), record(Some(10)));
    let n = t.insert_nonce(&mut q, &db, &key("a")).nonce.unwrap();
    let tx = ready("a", n, &[], true);
    let h = hash_of(&tx);
    let skipped = ready("z", 1, &[], false);
    let report = t.on_txs_sent(&mut q, &mut db, SentBatch::ExtraTxs(vec![tx, skipped]), 70, 1);
    assert_eq!(report.sent, 1);
    assert_eq!(report.next_delay, 1_000_000_000 + SHORT_DELAY_NANOS);
    assert_eq!(t.sent_txs.get(&h).unwrap().source_height, None);
    assert_eq!(t.height_popped, None);
    assert!(!t.nonces.contains_key(&key("a")));
}

#[test]
fn sending_twice_changes_nothing() {
    let mut t = tracker(&[5], None);
    let mut q = BlockQueue::new();
    let mut db = NonceDb::new();
    db.load_target_nonce(key("a"), record(Some(10)));
    let n = t.insert_nonce(&mut q, &db, &key("a")).nonce.unwrap();
    t.on_txs_sent(&mut q, &mut db, SentBatch::ExtraTxs(vec![ready("a", n, &[], true)]), 70, 1);
    let report =
        t.on_txs_sent(&mut q, &mut db, SentBatch::ExtraTxs(vec![ready("a", n, &[], true)]), 99, 2);
    assert_eq!(report.sent, 1);
    assert_eq!(t.sent_txs.len(), 1);
    let h = transaction("a", n).digest();
    assert_eq!(report.notices, vec![SendNotice::SentTwice { hash: h }]);
    assert_eq!(t.sent_txs.get(&h).unwrap().sent_at_target_height, 70);
}

#[test]
fn included_tx_ends_lower_nonces() {
    let mut t = tracker(&[5], None);
    let mut q = BlockQueue::new();
    let mut db = NonceDb::new();
    db.load_target_nonce(key("a"), record(Some(10)));
    let mut hashes = Vec::new();
    for n in [11u64, 12, 13] {
        t.nonces.remove(&key("a"));
        t.initialize_target_nonce(&db, &key("a"), Some(9));
        let tx = ready("a", n, &[], true);
        hashes.push(hash_of(&tx));
        t.on_txs_sent(&mut q, &mut db, SentBatch::ExtraTxs(vec![tx]), 70, 1);
    }
    assert_eq!(t.txs_by_signer.get(&key("a")).unwrap().len(), 3);
    t.remove_tx(&target_tx("a", 12, hashes[1], ExecutionStatus::Failure));
    assert!(!t.sent_txs.contains_key(&hashes[0]));
    assert!(t.sent_txs.contains_key(&hashes[1]));
    let left = t.txs_by_signer.get(&key("a")).unwrap();
    assert_eq!(left.len(), 1);
    assert!(left.contains(&TxId { hash: hashes[2], nonce: 13 }));
    t.remove_tx(&target_tx("a", 13, hashes[2], ExecutionStatus::Failure));
    assert!(!t.txs_by_signer.contains_key(&key("a")));
    t.remove_tx(&target_tx("a", 13, hashes[2], ExecutionStatus::Failure));
}

#[test]
fn stakes_of_ours_are_to_be_reversed() {
    let mut t = tracker(&[5], None);
    let mut q = BlockQueue::new();
    let mut db = NonceDb::new();
    db.load_pending_outcome(hash(1), keys(&[]));
    db.load_pending_outcome(hash(2), keys(&[]));
    let stake = |k: u8, stake: u128| ReceiptAction::Stake { public_key: PublicKey(vec![k]), stake };
    let mut ours = receipt(hash(1), vec![], ExecutionStatus::SuccessValue);
    ours.actions = Some(vec![ReceiptAction::Other, stake(1, 5), stake(2, 0)]);
    let mut failed = receipt(hash(2), vec![hash(3)], ExecutionStatus::Failure);
    failed.actions = Some(vec![stake(3, 5)]);
    let mut other = receipt(hash(9), vec![hash(10)], ExecutionStatus::SuccessValue);
    other.actions = Some(vec![stake(4, 5)]);
    let info = t.on_target_block(&mut q, &mut db, &target_block(70, vec![], vec![ours, failed, other]));
    assert_eq!(info.staked_accounts.len(), 1);
    let staked = (AccountId("receiver".to_string()), PublicKey(vec![1]));
    assert_eq!(
        *info.staked_accounts.get(&staked).unwrap(),
        AccountId("predecessor".to_string())
    );
    assert!(db.read_pending_outcome(&hash(3)).is_some());
    assert!(db.read_pending_outcome(&hash(10)).is_none());
}

#[test]
fn shard_without_a_chunk_is_passed_over() {
    let mut t = tracker(&[5], None);
    let mut q = BlockQueue::new();
    let mut db = NonceDb::new();
    db.load_pending_outcome(hash(1), keys(&["a"]));
    let mut msg =
        target_block(70, vec![], vec![receipt(hash(1), vec![], ExecutionStatus::SuccessValue)]);
    msg.shards[0].chunk = None;
    let info = t.on_target_block(&mut q, &mut db, &msg);
    assert!(info.access_key_updates.is_empty());
    assert!(db.read_pending_outcome(&hash(1)).is_some());
}

#[test]
fn statuses_of_success() {
    assert!(execution_status_good(&ExecutionStatus::SuccessValue));
    assert!(execution_status_good(&ExecutionStatus::SuccessReceiptId(hash(1))));
    assert!(!execution_status_good(&ExecutionStatus::Failure));
    assert!(!execution_status_good(&ExecutionStatus::Unknown));
}

#[test]
fn forced_nonce_clears_what_is_pending() {
    let mut t = tracker(&[5], None);
    let mut db = NonceDb::new();
    let mut pending = OrderedSet::new();
    pending.insert(hash(3));
    db.load_target_nonce(key("a"), LatestTargetNonce { nonce: Some(50), pending_outcomes: pending });
    t.initialize_target_nonce(&db, &key("a"), None);
    t.force_resolve_nonces(&mut db, &key("a"), 40);
    let info = t.nonces.get(&key("a")).unwrap();
    assert_eq!(info.target_nonce.nonce, Some(50));
    assert!(info.target_nonce.pending_outcomes.is_empty());
    assert!(db.read_target_nonce(&key("a")).unwrap().pending_outcomes.is_empty());
    t.force_resolve_nonces(&mut db, &key("a"), 60);
    assert_eq!(t.nonces.get(&key("a")).unwrap().target_nonce.nonce, Some(60));
    assert_eq!(db.read_target_nonce(&key("a")).unwrap().nonce, Some(60));
    t.force_resolve_nonces(&mut db, &key("unheard"), 60);
    assert!(db.read_target_nonce(&key("unheard")).is_none());
}

#[test]
fn delay_is_the_second_longest_of_the_last_ten_blocks() {
    let mut t = tracker(&[5], None);
    for ts in [100u64, 110, 130] {
        t.record_block_timestamp(ts);
    }
    assert_eq!(t.second_longest_recent_block_delay(), None);
    assert_eq!(t.normal_delay(), 1_100_000_000);
    for ts in [170u64, 200] {
        t.record_block_timestamp(ts);
    }
    assert_eq!(t.second_longest_recent_block_delay(), Some(30));
    assert_eq!(t.normal_delay(), 30);
    for i in 0..9u64 {
        t.record_block_timestamp(205 + 5 * i);
    }
    assert_eq!(t.recent_block_timestamps.len(), 10);
    assert_eq!(t.second_longest_recent_block_delay(), Some(5));
    t.tx_batch_interval = Some(7);
    assert_eq!(t.normal_delay(), 7);
}

#[test]
fn lookahead_asks_until_enough_is_known() {
    let mut t = tracker(&[5], None);
    let mut l = t.look_ahead(2);
    assert_eq!(l.query(), Some(5));
    l.found(7);
    assert_eq!(l.query(), Some(7));
    l.found(8);
    assert_eq!(l.query(), None);
    assert_eq!(t.next_heights(l), (Some(5), Some(8)));
    assert_eq!(t.next_heights.len(), 3);

    t.next_heights.clear();
    t.height_queued = Some(8);
    let l = t.look_ahead(2);
    assert_eq!(l.query(), Some(8));
    assert_eq!(t.next_heights(l), (None, None));
}

#[test]
fn block_names_the_nonces_that_it_may_change() {
    let b = block(
        5,
        vec![
            (0, vec![ready("a", 1, &["x", "y"], false)]),
            (1, vec![ready("a", 2, &[], false), ready("a", 3, &["y", "z"], false)]),
        ],
    );
    let u = b.nonce_updates();
    assert_eq!(u.len(), 3);
    for name in ["x", "y", "z"] {
        assert!(u.contains(&key(name)));
    }
}

#[test]
fn log_names_sent_txs_and_counts_others() {
    let mut t = tracker(&[5], None);
    let mut q = BlockQueue::new();
    let mut db = NonceDb::new();
    db.load_target_nonce(key("a"), record(Some(10)));
    let n = t.insert_nonce(&mut q, &db, &key("a")).nonce.unwrap();
    let tx = ready("a", n, &[], true);
    let h = hash_of(&tx);
    t.on_txs_sent(&mut q, &mut db, SentBatch::ExtraTxs(vec![tx]), 70, 1_000_000_000);
    let mut msg = target_block(
        71,
        vec![
            target_tx("x", 1, hash(1), ExecutionStatus::Failure),
            target_tx("a", n, h, ExecutionStatus::Failure),
            target_tx("x", 2, hash(2), ExecutionStatus::Failure),
        ],
        vec![],
    );
    msg.shards[0].chunk.as_mut().unwrap().gas_used = 1_234_567_000_000;
    msg.shards.push(TargetShard {
        shard_id: 1,
        chunk: Some(TargetChunk { height_included: 60, gas_used: 3, transactions: vec![] }),
        receipt_execution_outcomes: vec![],
    });
    msg.shards.push(TargetShard { shard_id: 12, chunk: None, receipt_execution_outcomes: vec![] });
    assert_eq!(
        t.log_target_block(&msg, 3_500_000_000),
        "-------- shard 0 gas used: 1.3 Tgas ---------\n\
         source tx signer: \"a\" receiver: \"receiver\" actions: <Transfer> sent 2.5s ago @ target #70\n    \
         ...    \n2 other txs (not ours, or sent before a restart)\n    ...    \n\
         -------- shard 1 old chunk (#60) ---------\n\
         -------- shard 12 chunk missing ---------\n"
    );
}

#[test]
fn log_names_accounts_of_both_chains() {
    let info = TxSendInfo {
        sent_at: 0,
        source_height: Some(1),
        provenance: "p".to_string(),
        source_signer_id: AccountId("s".to_string()),
        source_receiver_id: AccountId("r".to_string()),
        target_signer_id: Some(AccountId("ts".to_string())),
        target_receiver_id: Some(AccountId("tr".to_string())),
        actions: vec!["A".to_string(), "B".to_string()],
        sent_at_target_height: 9,
    };
    let mut text = String::new();
    info.append_line(&mut text, "1ms");
    assert_eq!(
        text,
        "p signer: \"s\" (mapped to \"ts\") receiver: \"r\" (mapped to \"tr\") actions: <A, B> sent 1ms ago @ target #9\n"
    );
}

#[test]
fn send_info_names_the_target_where_it_differs() {
    let TargetChainTx::Ready(mut tx) = ready("a", 1, &[], true) else { panic!("not ready") };
    let info = TxSendInfo::new(&tx, Some(4), 8, 15);
    assert!(info.target_signer_id.is_none() && info.target_receiver_id.is_none());
    assert_eq!((info.source_height, info.sent_at_target_height, info.sent_at), (Some(4), 8, 15));
    tx.source_signer_id = AccountId("b".to_string());
    tx.source_receiver_id = AccountId("c".to_string());
    let info = TxSendInfo::new(&tx, None, 8, 15);
    assert_eq!(info.target_signer_id, Some(AccountId("a".to_string())));
    assert_eq!(info.target_receiver_id, Some(AccountId("receiver".to_string())));
    assert_eq!(info.actions, vec!["Transfer".to_string()]);
}

#[test]
fn sent_txs_are_ordered_by_nonce() {
    let mut s = OrderedSet::new();
    for (h, n) in [(9u8, 5u64), (1, 7), (2, 5)] {
        assert!(s.insert(TxId { hash: hash(h), nonce: n }));
    }
    assert!(!s.insert(TxId { hash: hash(2), nonce: 5 }));
    let order: Vec<(u8, u64)> = (0..s.len()).map(|i| (s.item_at(i).hash.0[0], s.item_at(i).nonce)).collect();
    assert_eq!(order, vec![(2, 5), (9, 5), (1, 7)]);
    let upper = s.split_off(&TxId { hash: hash(0), nonce: 6 });
    assert_eq!((s.len(), upper.len()), (2, 1));
}

#[test]
fn map_keeps_the_last_value_of_a_key() {
    let mut m: OrderedMap<u64, AccountId> = OrderedMap::new();
    assert!(m.insert(5, AccountId("a".to_string())).is_none());
    assert!(m.insert(3, AccountId("b".to_string())).is_none());
    assert_eq!(m.insert(5, AccountId("c".to_string())), Some(AccountId("a".to_string())));
    assert_eq!(m.len(), 2);
    assert_eq!((*m.key_at(0), *m.key_at(1)), (3, 5));
    assert_eq!(m.remove(&3), Some(AccountId("b".to_string())));
    assert_eq!(m.remove(&3), None);
    assert_eq!(m.into_values(), vec![AccountId("c".to_string())]);
}

#[test]
fn keys_are_ordered_by_account_then_key_then_kind() {
    let mut s = OrderedSet::new();
    let mut gas = key("a");
    gas.kind = NonceKind::GasKey(1);
    let mut other = key("a");
    other.public_key = PublicKey(vec![0, 1]);
    for k in [key("b"), gas.duplicate(), key("a"), other.duplicate()] {
        s.insert(k);
    }
    assert_eq!(*s.item_at(0), other);
    assert_eq!(*s.item_at(1), key("a"));
    assert_eq!(*s.item_at(2), gas);
    assert_eq!(*s.item_at(3), key("b"));
}

#[test]
fn batch_names_the_nonces_that_it_needs() {
    let b = batch_of(block(
        5,
        vec![(0, vec![ready("a", 1, &["x", "y"], false)]), (1, vec![ready("b", 2, &["x"], false)])],
    ));
    let needed = b.nonce_keys();
    assert_eq!(needed.len(), 4);
    for name in ["a", "b", "x", "y"] {
        assert!(needed.contains(&key(name)));
    }
    assert!(SentBatch::ExtraTxs(vec![]).nonce_keys().is_empty());
    assert_eq!(SentBatch::ExtraTxs(vec![ready("c", 1, &[], true)]).nonce_keys().len(), 1);
}

#[test]
fn target_block_names_the_outcomes_that_it_needs() {
    let mut msg = target_block(
        70,
        vec![target_tx("a", 1, hash(1), ExecutionStatus::Failure)],
        vec![
            receipt(hash(2), vec![hash(3)], ExecutionStatus::Failure),
            receipt(hash(1), vec![], ExecutionStatus::Failure),
        ],
    );
    let ids = msg.object_ids();
    assert_eq!(ids.len(), 2);
    assert!(ids.contains(&hash(1)) && ids.contains(&hash(2)));
    msg.shards[0].chunk = None;
    assert!(msg.object_ids().is_empty());
}

#[test]
fn records_that_are_not_needed_make_no_difference() {
    let mut written = Vec::new();
    for all in [false, true] {
        let mut t = tracker(&[5], None);
        let mut q = BlockQueue::new();
        let mut db = NonceDb::new();
        db.load_target_nonce(key("a"), record(Some(10)));
        if all {
            db.load_target_nonce(key("z"), record(Some(99)));
            db.load_pending_outcome(hash(77), keys(&["z"]));
        }
        let n = t.next_nonce(&db, &key("a"), 5).nonce.unwrap();
        t.queue_block(&mut q, block(5, vec![(0, vec![ready("a", n, &[], false)])]), &db);
        send_front(&mut t, &mut q, &mut db, 70);
        let mut writes = Vec::new();
        for w in db.into_writes() {
            writes.push(match w {
                DbWrite::PutTargetNonce { key, value } => format!("{:?} {:?}", key, value.nonce),
                DbWrite::PutPendingOutcome { id, keys } => format!("{:?} {}", id, keys.len()),
                DbWrite::DeletePendingOutcome { id } => format!("{:?}", id),
            });
        }
        written.push(writes);
    }
    assert_eq!(written[0].len(), 2);
    assert_eq!(written[0], written[1]);
}

#[test]
fn heights_never_fall() {
    let mut t = tracker(&[5, 6], Some(6));
    t.height_popped = Some(9);
    t.height_seen = Some(9);
    let mut q = BlockQueue::new();
    let mut db = NonceDb::new();
    db.load_target_nonce(key("a"), record(Some(10)));
    assert!(t.finished());
    let n = t.next_nonce(&db, &key("a"), 5).nonce.unwrap();
    t.queue_block(&mut q, block(5, vec![(0, vec![ready("a", n, &[], false)])]), &db);
    let h = hash_of(q.get_tx(&at(5, 0, 0)));
    send_front(&mut t, &mut q, &mut db, 70);
    assert_eq!(t.height_popped, Some(9));
    let msg = target_block(
        71,
        vec![target_tx("a", n, h, ExecutionStatus::SuccessReceiptId(hash(1)))],
        vec![],
    );
    t.on_target_block(&mut q, &mut db, &msg);
    assert_eq!(t.height_seen, Some(9));
    assert!(t.finished());
}

#[test]
fn block_that_nothing_is_known_of_is_not_queued() {
    let mut t = tracker(&[5], None);
    let mut q = BlockQueue::new();
    let mut db = NonceDb::new();
    assert!(!t.try_queue_block(&mut q, block(5, vec![(0, vec![ready("a", 1, &[], false)])]), &db));
    assert!(q.blocks.is_empty());

    let mut t = tracker(&[5], None);
    db.load_target_nonce(key("a"), record(Some(10)));
    t.next_nonce(&db, &key("a"), 5);
    assert!(!t.try_queue_block(
        &mut q,
        block(5, vec![(0, vec![ready("a", 11, &["x"], false)])]),
        &db
    ));

    let mut t = tracker(&[], None);
    assert!(!t.try_queue_block(&mut q, block(5, vec![]), &db));
    let mut t = tracker(&[5], None);
    assert!(t.try_queue_block(&mut q, block(5, vec![]), &db));
    assert_eq!(q.blocks.len(), 1);
}

#[test]
fn batch_that_is_not_queued_is_not_accounted_for() {
    let mut q = BlockQueue::new();
    let mut db = NonceDb::new();
    db.load_target_nonce(key("a"), record(Some(10)));
    let mut t = tracker(&[5], None);
    let b = batch_of(block(5, vec![(0, vec![ready("a", 11, &[], true)])]));
    assert!(t.try_on_txs_sent(&mut q, &mut db, b, 70, 1).is_none());

    let mut t = tracker(&[5], None);
    t.next_nonce(&db, &key("a"), 5);
    let b = batch_of(block(5, vec![(0, vec![ready("a", 11, &[], true)])]));
    assert!(t.try_on_txs_sent(&mut q, &mut db, b, 70, 1).is_none());

    let mut t = tracker(&[5], None);
    t.min_block_production_delay = u128::MAX;
    assert!(t.try_on_txs_sent(&mut q, &mut db, SentBatch::ExtraTxs(vec![]), 70, 1).is_none());
    t.tx_batch_interval = Some(1);
    assert_eq!(
        t.try_on_txs_sent(&mut q, &mut db, SentBatch::ExtraTxs(vec![]), 70, 1).unwrap().next_delay,
        1
    );
}

#[test]
fn updates_that_are_not_listed_are_noticed() {
    let (mut t, mut q, mut db) = key_flow();
    t.updater_to_keys.remove(&NonceUpdater::TxRef(at(5, 0, 0)));
    let b = sent(q.pop_front().unwrap());
    assert!(t.try_on_txs_sent(&mut q, &mut db, batch_of(b), 70, 1).is_none());
}

#[test]
fn waiting_tx_that_does_not_wait_for_the_sent_one_is_noticed() {
    let (mut t, mut q, mut db) = key_flow();
    if let TargetChainTx::AwaitingNonce(tx) = &mut q.blocks[1].chunks[0].txs[0] {
        tx.target_nonce.pending_outcomes = OrderedSet::new();
    }
    let b = sent(q.pop_front().unwrap());
    assert!(t.try_on_txs_sent(&mut q, &mut db, batch_of(b), 70, 1).is_none());
}

#[test]
fn waiting_block_goes_back_only_where_there_is_room() {
    let mut t = tracker(&[5], None);
    let mut q = BlockQueue::new();
    let mut db = NonceDb::new();
    db.load_target_nonce(key("b"), record(None));
    let b_nonce = t.next_nonce(&db, &key("b"), 5);
    t.queue_block(&mut q, block(5, vec![(0, vec![waiting("b", &[], b_nonce)])]), &db);
    let b = batch_of(q.pop_front().unwrap());
    q.push_back(block(5, vec![]));
    assert!(t.try_on_txs_sent(&mut q, &mut db, b, 70, 1).is_none());
}

#[test]
fn target_block_with_an_impossible_status_is_noticed() {
    for status in [ExecutionStatus::SuccessValue, ExecutionStatus::Unknown] {
        let mut t = tracker(&[5], None);
        let mut q = BlockQueue::new();
        let mut db = NonceDb::new();
        db.load_pending_outcome(hash(1), keys(&[]));
        let msg = target_block(70, vec![target_tx("a", 1, hash(1), status)], vec![]);
        assert!(t.try_on_target_block(&mut q, &mut db, &msg).is_none());
    }
    let mut t = tracker(&[5], None);
    let mut q = BlockQueue::new();
    let mut db = NonceDb::new();
    db.load_pending_outcome(hash(1), keys(&["a"]));
    let turned = target_tx("a", 1, hash(1), ExecutionStatus::SuccessReceiptId(hash(2)));
    assert!(t.try_on_target_block(&mut q, &mut db, &target_block(70, vec![turned], vec![])).is_none());
    t.updater_to_keys.insert(NonceUpdater::ChainObjectId(hash(1)), keys(&["b"]));
    let done = receipt(hash(1), vec![], ExecutionStatus::Failure);
    assert!(t.try_on_target_block(&mut q, &mut db, &target_block(70, vec![], vec![done])).is_none());
}

#[test]
fn nonces_do_not_overflow() {
    let mut t = tracker(&[5], None);
    let mut q = BlockQueue::new();
    let mut db = NonceDb::new();
    db.load_target_nonce(key("a"), record(Some(u64::MAX)));
    db.load_target_nonce(key("b"), record(None));
    assert!(!t.can_give_nonce(&db, &key("a"), 5));
    assert!(t.can_give_nonce(&db, &key("b"), 5));
    assert!(!t.can_give_nonce(&db, &key("c"), 5));
    assert!(!t.can_insert_nonce(&q, &db, &key("a")));
    assert!(t.can_insert_nonce(&q, &db, &key("b")));
    assert!(!t.can_insert_nonce(&q, &db, &key("c")));
    let b_nonce = t.next_nonce(&db, &key("b"), 5);
    t.queue_block(&mut q, block(5, vec![(0, vec![waiting("b", &[], b_nonce)])]), &db);
    assert!(t.can_insert_nonce(&q, &db, &key("b")));
    t.force_resolve_nonces(&mut db, &key("b"), u64::MAX);
    assert!(!t.can_insert_nonce(&q, &db, &key("b")));
    assert!(t.try_resolve_block_nonces(&mut q, 0).is_none());
    assert!(t.try_resolve_block_nonces(&mut q, 1).unwrap().is_empty());
}

#[test]
fn nonce_of_an_unheard_key_cannot_be_set() {
    let (t, mut q, db) = key_flow();
    let update = |name: &str| UpdatedKey { nonce_key: key(name), id: hash(1) };
    assert!(!t.can_set_nonces(&q, &db, &update("unheard")));
    assert!(t.can_set_nonces(&q, &db, &update("new")));
    q.blocks.remove(1);
    assert!(!t.can_set_nonces(&q, &db, &update("new")));
}

#[test]
fn queue_finds_its_transactions() {
    let mut q = BlockQueue::new();
    q.push_back(block(5, vec![(3, vec![ready("a", 1, &[], false)]), (3, vec![])]));
    q.push_back(block(7, vec![]));
    assert!(q.ascends());
    assert!(q.has_tx(&at(5, 3, 0)));
    for r in [at(5, 3, 1), at(5, 4, 0), at(6, 3, 0), at(7, 3, 0)] {
        assert!(!q.has_tx(&r));
    }
    assert_eq!(q.find_block(7), Ok(1));
    assert_eq!(q.find_block(6), Err(1));
    q.insert_block(block(6, vec![]));
    assert_eq!(q.blocks[1].source_height, 6);
    q.push_back(block(7, vec![]));
    assert!(!q.ascends());
}

#[test]
fn batch_that_puts_nothing_back_waits_for_the_send_interval() {
    let mut t = TxTracker::new(1_000_000_000, Some(250_000_000), &[10], None);
    let mut q = BlockQueue::new();
    let mut db = NonceDb::new();
    let b = batch_of(block(10, vec![]));
    let report = t.on_txs_sent(&mut q, &mut db, b, 5, 1);
    assert_eq!(report.next_delay, 250_000_000);
    assert!(report.nonce_keys.is_empty());
    assert_eq!(t.requeue_attempts.len(), 0);
}

#[test]
fn rest_of_a_requeued_block_is_followed_soon() {
    let mut t = tracker(&[5], None);
    t.tx_batch_interval = Some(42);
    let mut q = BlockQueue::new();
    let mut db = NonceDb::new();
    db.load_target_nonce(key("b"), record(None));
    let b_nonce = t.next_nonce(&db, &key("b"), 5);
    t.queue_block(&mut q, block(5, vec![(0, vec![waiting("b", &[], b_nonce)])]), &db);
    send_front(&mut t, &mut q, &mut db, 70);
    t.force_resolve_nonces(&mut db, &key("b"), 30);
    t.resolve_block_nonces(&mut q, 0);
    let report = send_front(&mut t, &mut q, &mut db, 71);
    assert_eq!((report.sent, report.requeued, report.given_up), (1, 0, 0));
    assert_eq!(report.next_delay, SHORT_DELAY_NANOS);
    assert_eq!(*t.requeue_attempts.get(&5).unwrap(), 1);
}

#[test]
fn fetched_list_that_does_not_reach_the_index_leaves_a_record() {
    let mut gas = key("a");
    gas.kind = NonceKind::GasKey(2);
    for nonces in [vec![], vec![10], vec![10, 11]] {
        let mut db = NonceDb::new();
        let n = nonces.len();
        store_gas_key_nonces(&mut db, &gas, Some(nonces));
        assert_eq!(db.read_target_nonce(&gas).unwrap().nonce, None);
        assert!(matches!(store_target_nonce(&db, &gas), NonceFetch::Nothing));
        assert_eq!(db.into_writes().len(), n + 1);
    }
}

#[test]
fn nonces_out_of_order_are_noticed() {
    let mut t = tracker(&[5], None);
    let mut q = BlockQueue::new();
    let mut db = NonceDb::new();
    db.load_target_nonce(key("a"), record(Some(10)));
    let mut noticed = Vec::new();
    for n in [12u64, 11] {
        t.initialize_target_nonce(&db, &key("a"), Some(9));
        let tx = ready("a", n, &[], true);
        let report = t.on_txs_sent(&mut q, &mut db, SentBatch::ExtraTxs(vec![tx]), 70, 1);
        noticed.extend(report.notices);
    }
    let h = transaction("a", 11).digest();
    assert_eq!(noticed, vec![SendNotice::OutOfOrder { hash: h, nonce: 11 }]);

    t.sent_txs.remove(&h);
    t.initialize_target_nonce(&db, &key("a"), Some(9));
    let again = SentBatch::ExtraTxs(vec![ready("a", 11, &[], true)]);
    let report = t.on_txs_sent(&mut q, &mut db, again, 70, 1);
    assert_eq!(
        report.notices,
        vec![SendNotice::OutOfOrder { hash: h, nonce: 11 }, SendNotice::ListedTwice { hash: h }]
    );
}

#[test]
fn unknown_txs_that_got_in_are_noticed() {
    let mut t = tracker(&[5], None);
    let gone = t.remove_tx(&target_tx("a", 5, hash(1), ExecutionStatus::Failure));
    assert_eq!(gone, vec![RemovalNotice::NoKey { hash: hash(1) }]);
    let mut txs = OrderedSet::new();
    txs.insert(TxId { hash: hash(2), nonce: 3 });
    txs.insert(TxId { hash: hash(3), nonce: 9 });
    t.txs_by_signer.insert(key("a"), txs);
    let gone = t.remove_tx(&target_tx("a", 5, hash(1), ExecutionStatus::Failure));
    assert_eq!(
        gone,
        vec![
            RemovalNotice::NotListed { hash: hash(1) },
            RemovalNotice::Skipped { hash: hash(2) },
            RemovalNotice::NotSent { hash: hash(2) }
        ]
    );
}

#[test]
fn slow_blocks_are_noticed() {
    let mut t = tracker(&[5], None);
    t.min_block_production_delay = 10;
    for ts in [0u64, 10, 20, 45, 75] {
        t.record_block_timestamp(ts);
    }
    let slow = t.slow_blocks().unwrap();
    assert_eq!((slow.delay, slow.longest), (25, 30));
    t.min_block_production_delay = 13;
    assert!(t.slow_blocks().is_none());
    t.min_block_production_delay = 10;
    t.tx_batch_interval = Some(5);
    assert!(t.slow_blocks().is_none());
}

#[test]
fn header_of_a_shard_names_the_gas() {
    let mut text = String::from("x");
    append_header(&mut text, 7, "0.002 Tgas");
    assert_eq!(text, "x-------- shard 7 gas used: 0.002 Tgas ---------\n");
}

#[test]
fn gas_is_logged_with_its_unit() {
    let t = tracker(&[5], None);
    for (gas, text) in [
        (0u64, "0 Tgas"),
        (1, "<0.001 Tgas"),
        (999_999_999, "<0.001 Tgas"),
        (1_000_000_000, "0.001 Tgas"),
        (1_000_000_001, "0.002 Tgas"),
        (200_000_000_000, "0.200 Tgas"),
        (999_000_000_000, "0.999 Tgas"),
        (999_000_000_001, "1.0 Tgas"),
        (1_234_567_000_000, "1.3 Tgas"),
        (u64::MAX, "18446744.0 Tgas"),
    ] {
        let mut msg = target_block(71, vec![], vec![]);
        msg.shards[0].chunk.as_mut().unwrap().gas_used = gas;
        assert_eq!(
            t.log_target_block(&msg, 0),
            format!("-------- shard 0 gas used: {} ---------\n", text)
        );
    }
}

#[test]
fn order_of_the_queue_matters_only_where_something_is_looked_up() {
    let mut t = tracker(&[5], None);
    let mut q = BlockQueue::new();
    let mut db = NonceDb::new();
    db.load_target_nonce(key("a"), record(Some(10)));
    db.load_target_nonce(key("x"), record(None));
    assert!(t.can_set_nonces(&q, &db, &UpdatedKey { nonce_key: key("a"), id: hash(1) }));
    let n = t.next_nonce(&db, &key("a"), 5).nonce.unwrap();
    t.queue_block(&mut q, block(5, vec![(0, vec![ready("a", n, &["x"], false)])]), &db);
    let b = sent(q.pop_front().unwrap());
    q.push_back(block(9, vec![]));
    q.push_back(block(8, vec![]));
    assert!(!q.ascends());
    assert!(!t.can_insert_nonce(&q, &db, &key("a")));
    assert!(t.can_insert_nonce(&q, &db, &key("x")));
    assert!(t.can_set_nonces(&q, &db, &UpdatedKey { nonce_key: key("x"), id: hash(1) }));
    let report = t.try_on_txs_sent(&mut q, &mut db, batch_of(b), 70, 1).unwrap();
    assert_eq!(report.sent, 1);
    let h = transaction("a", n).digest();
    let msg = target_block(
        71,
        vec![target_tx("a", n, h, ExecutionStatus::SuccessReceiptId(hash(1)))],
        vec![],
    );
    assert!(t.try_on_target_block(&mut q, &mut db, &msg).is_some());
    let heights: Vec<u64> = q.blocks.iter().map(|b| b.source_height).collect();
    assert_eq!(heights, vec![9, 8]);
}
