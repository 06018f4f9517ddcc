//! Transactions on their way to the target chain.

use vstd::bytes::u64_to_le_bytes;
use vstd::prelude::*;

use super::ids::{NonceKey, NonceKind, NonceLookupKey, NonceUpdater};
use crate::keys::{
    duplicate_bytes, lemma_hash_bytes, AccountId, CryptoHash, Nonce, NonceIndex, PublicKey,
};
use crate::ordered::{views, Key, OrderedSet};

verus! {

/// Option order: nothing comes before everything else.
pub open spec fn at_most(a: Option<u64>, b: Option<u64>) -> bool {
    match (a, b) {
        (None, _) => true,
        (Some(_), None) => false,
        (Some(x), Some(y)) => x <= y,
    }
}

/// The later one in option order.
pub open spec fn later(a: Option<u64>, b: Option<u64>) -> Option<u64> {
    if at_most(a, b) {
        b
    } else {
        a
    }
}

pub fn is_at_most(a: Option<u64>, b: Option<u64>) -> (r: bool)
    ensures
        r == at_most(a, b),
{
    match a {
        None => true,
        Some(x) => match b {
            None => false,
            Some(y) => x <= y,
        },
    }
}

pub fn later_of(a: Option<u64>, b: Option<u64>) -> (r: Option<u64>)
    ensures
        r == later(a, b),
{
    if is_at_most(a, b) {
        b
    } else {
        a
    }
}

/// The hash that `near_primitives` gives a byte string.
pub uninterp spec fn hash_of_bytes(data: Seq<u8>) -> Seq<u8>;

/// Calls `near_primitives::hash::CryptoHash::hash_bytes`, the SHA-256 digest of its argument. The
/// contract says that the bytes of the digest depend on the argument alone.
#[verifier::external_body]
fn hash_bytes(data: &[u8]) -> (h: CryptoHash)
    ensures
        h.0@ == hash_of_bytes(data@),
{
    CryptoHash(near_primitives::hash::CryptoHash::hash_bytes(data).0)
}

/// A transaction of the target chain. `head` and `tail` are the bytes of its encoding before and
/// after the nonce, so that the encoding for any nonce is at hand.
pub struct Transaction {
    pub signer_id: AccountId,
    pub public_key: PublicKey,
    pub nonce: Nonce,
    pub nonce_index: Option<NonceIndex>,
    pub receiver_id: AccountId,
    /// The names of its actions.
    pub actions: Vec<String>,
    pub head: Vec<u8>,
    pub tail: Vec<u8>,
}

/// The view of a `Transaction`.
#[verifier::ext_equal]
pub ghost struct TransactionView {
    pub signer_id: Seq<char>,
    pub public_key: Seq<u8>,
    pub nonce: Nonce,
    pub nonce_index: Option<NonceIndex>,
    pub receiver_id: Seq<char>,
    pub actions: Seq<Seq<char>>,
    pub head: Seq<u8>,
    pub tail: Seq<u8>,
}

impl View for Transaction {
    type V = TransactionView;

    open spec fn view(&self) -> TransactionView {
        TransactionView {
            signer_id: self.signer_id@,
            public_key: self.public_key@,
            nonce: self.nonce,
            nonce_index: self.nonce_index,
            receiver_id: self.receiver_id@,
            actions: views(self.actions@),
            head: self.head@,
            tail: self.tail@,
        }
    }
}

impl TransactionView {
    /// The bytes that are hashed and signed.
    pub open spec fn encoding(self) -> Seq<u8> {
        self.head + vstd::bytes::spec_u64_to_le_bytes(self.nonce) + self.tail
    }

    /// Whether `h` is the hash of the transaction.
    pub open spec fn hashes_to(self, h: CryptoHash) -> bool {
        h.0@ == hash_of_bytes(self.encoding())
    }

    /// The hash of the transaction.
    pub open spec fn hash(self) -> CryptoHash {
        choose|h: CryptoHash| self.hashes_to(h)
    }

    /// The nonce that the transaction uses.
    pub open spec fn nonce_key(self) -> NonceKey {
        NonceKey {
            account_id: self.signer_id,
            public_key: self.public_key,
            kind: match self.nonce_index {
                None => NonceKind::AccessKey,
                Some(i) => NonceKind::GasKey(i),
            },
        }
    }
}

/// A second vector with the same strings.
pub fn duplicate_strings(v: &Vec<String>) -> (r: Vec<String>)
    ensures
        views(r@) == views(v@),
{
    let mut r: Vec<String> = Vec::new();
    let mut i: usize = 0;
    while i < v.len()
        invariant
            i <= v@.len(),
            r@.len() == i,
            forall|j: int| 0 <= j < i ==> (#[trigger] r@[j])@ == v@[j]@,
        decreases v@.len() - i,
    {
        r.push(v[i].clone());
        i += 1;
    }
    assert(views(r@) =~= views(v@));
    r
}

impl Transaction {
    pub fn duplicate(&self) -> (r: Transaction)
        ensures
            r@ == self@,
    {
        Transaction {
            signer_id: self.signer_id.duplicate(),
            public_key: self.public_key.duplicate(),
            nonce: self.nonce,
            nonce_index: self.nonce_index,
            receiver_id: self.receiver_id.duplicate(),
            actions: duplicate_strings(&self.actions),
            head: duplicate_bytes(&self.head),
            tail: duplicate_bytes(&self.tail),
        }
    }

    /// The bytes that are hashed and signed.
    pub fn encode(&self) -> (r: Vec<u8>)
        ensures
            r@ == self@.encoding(),
    {
        let mut r = duplicate_bytes(&self.head);
        let mut nonce = u64_to_le_bytes(self.nonce);
        let mut tail = duplicate_bytes(&self.tail);
        r.append(&mut nonce);
        r.append(&mut tail);
        r
    }

    /// The hash of the transaction.
    pub fn digest(&self) -> (h: CryptoHash)
        ensures
            h == self@.hash(),
            h.0@ == hash_of_bytes(self@.encoding()),
    {
        let bytes = self.encode();
        let h = hash_bytes(bytes.as_slice());
        proof {
            assert(self@.hashes_to(h));
            lemma_hash_bytes(h, self@.hash());
        }
        h
    }
}

/// A transaction with its hash, which is taken when it is signed.
pub struct SignedTransaction {
    pub transaction: Transaction,
    pub hash: CryptoHash,
}

/// The view of a `SignedTransaction`.
#[verifier::ext_equal]
pub ghost struct SignedView {
    pub transaction: TransactionView,
    pub hash: CryptoHash,
}

impl View for SignedTransaction {
    type V = SignedView;

    open spec fn view(&self) -> SignedView {
        SignedView { transaction: self.transaction@, hash: self.hash }
    }
}

impl TransactionView {
    pub open spec fn signed(self) -> SignedView {
        SignedView { transaction: self, hash: self.hash() }
    }
}

impl SignedTransaction {
    pub fn new(transaction: Transaction) -> (r: SignedTransaction)
        ensures
            r@ == transaction@.signed(),
    {
        let hash = transaction.digest();
        SignedTransaction { transaction, hash }
    }

    pub fn get_hash(&self) -> (h: CryptoHash)
        ensures
            h == self@.hash,
    {
        self.hash
    }
}

impl NonceLookupKey {
    /// The nonce that a transaction uses.
    pub fn from_tx(tx: &Transaction) -> (r: NonceLookupKey)
        ensures
            r@ == tx@.nonce_key(),
    {
        NonceLookupKey {
            account_id: tx.signer_id.duplicate(),
            public_key: tx.public_key.duplicate(),
            kind: match tx.nonce_index {
                None => NonceKind::AccessKey,
                Some(i) => NonceKind::GasKey(i),
            },
        }
    }
}

/// What is known of a nonce on the target chain, and what may still change it.
pub struct TargetNonce {
    pub nonce: Option<Nonce>,
    pub pending_outcomes: OrderedSet<NonceUpdater>,
}

/// The view of a `TargetNonce`.
#[verifier::ext_equal]
pub ghost struct TargetNonceView {
    pub nonce: Option<Nonce>,
    pub pending_outcomes: Set<NonceUpdater>,
}

impl View for TargetNonce {
    type V = TargetNonceView;

    open spec fn view(&self) -> TargetNonceView {
        TargetNonceView { nonce: self.nonce, pending_outcomes: self.pending_outcomes@ }
    }
}

impl TargetNonceView {
    /// One updater takes the place of another.
    pub open spec fn renamed(self, old: NonceUpdater, new: NonceUpdater) -> TargetNonceView {
        TargetNonceView {
            pending_outcomes: self.pending_outcomes.remove(old).insert(new),
            ..self
        }
    }

    pub open spec fn without(self, updater: NonceUpdater) -> TargetNonceView {
        TargetNonceView { pending_outcomes: self.pending_outcomes.remove(updater), ..self }
    }

    /// An updater is done, and left the nonce at `nonce` or above.
    pub open spec fn settled(self, updater: NonceUpdater, nonce: Option<Nonce>) -> TargetNonceView {
        TargetNonceView {
            nonce: later(self.nonce, nonce),
            pending_outcomes: self.pending_outcomes.remove(updater),
        }
    }

    /// The nonce is one higher, where it is known.
    pub open spec fn incremented(self) -> TargetNonceView {
        TargetNonceView {
            nonce: match self.nonce {
                Some(n) => Some((n + 1) as u64),
                None => None,
            },
            ..self
        }
    }

    /// Incrementing does not overflow.
    pub open spec fn can_increment(self) -> bool {
        self.nonce matches Some(n) ==> n < u64::MAX
    }
}

impl TargetNonce {
    /// Nothing known and nothing pending.
    pub fn unknown() -> (r: TargetNonce)
        ensures
            r@ == (TargetNonceView { nonce: None, pending_outcomes: Set::empty() }),
    {
        TargetNonce { nonce: None, pending_outcomes: OrderedSet::new() }
    }

    pub fn duplicate(&self) -> (r: TargetNonce)
        ensures
            r@ == self@,
    {
        TargetNonce { nonce: self.nonce, pending_outcomes: self.pending_outcomes.duplicate() }
    }

    /// Makes the nonce one higher, where it is known.
    pub fn increment(&mut self)
        requires
            old(self)@.can_increment(),
        ensures
            final(self)@ == old(self)@.incremented(),
    {
        if let Some(n) = self.nonce {
            self.nonce = Some(n + 1);
        }
    }
}

/// A transaction whose nonce is set.
pub struct MappedTx {
    pub provenance: String,
    pub source_signer_id: AccountId,
    pub source_receiver_id: AccountId,
    pub target_tx: SignedTransaction,
    /// The nonces that it may change.
    pub nonce_updates: OrderedSet<NonceLookupKey>,
    pub sent_successfully: bool,
}

/// The view of a `MappedTx`.
#[verifier::ext_equal]
pub ghost struct MappedTxView {
    pub provenance: Seq<char>,
    pub source_signer_id: Seq<char>,
    pub source_receiver_id: Seq<char>,
    pub target_tx: SignedView,
    pub nonce_updates: Set<NonceKey>,
    pub sent_successfully: bool,
}

impl View for MappedTx {
    type V = MappedTxView;

    open spec fn view(&self) -> MappedTxView {
        MappedTxView {
            provenance: self.provenance@,
            source_signer_id: self.source_signer_id@,
            source_receiver_id: self.source_receiver_id@,
            target_tx: self.target_tx@,
            nonce_updates: self.nonce_updates@,
            sent_successfully: self.sent_successfully,
        }
    }
}

/// A transaction whose nonce is not known yet.
pub struct TxAwaitingNonce {
    pub provenance: String,
    pub source_signer_id: AccountId,
    pub source_receiver_id: AccountId,
    pub target_tx: Transaction,
    /// The nonces that it may change.
    pub nonce_updates: OrderedSet<NonceLookupKey>,
    /// What is known of the nonce that it waits for.
    pub target_nonce: TargetNonce,
}

/// The view of a `TxAwaitingNonce`.
#[verifier::ext_equal]
pub ghost struct AwaitingView {
    pub provenance: Seq<char>,
    pub source_signer_id: Seq<char>,
    pub source_receiver_id: Seq<char>,
    pub target_tx: TransactionView,
    pub nonce_updates: Set<NonceKey>,
    pub target_nonce: TargetNonceView,
}

impl View for TxAwaitingNonce {
    type V = AwaitingView;

    open spec fn view(&self) -> AwaitingView {
        AwaitingView {
            provenance: self.provenance@,
            source_signer_id: self.source_signer_id@,
            source_receiver_id: self.source_receiver_id@,
            target_tx: self.target_tx@,
            nonce_updates: self.nonce_updates@,
            target_nonce: self.target_nonce@,
        }
    }
}

/// A transaction for the target chain.
pub enum TargetChainTx {
    Ready(MappedTx),
    AwaitingNonce(TxAwaitingNonce),
}

/// The view of a `TargetChainTx`.
#[verifier::ext_equal]
pub ghost enum TxView {
    Ready(MappedTxView),
    AwaitingNonce(AwaitingView),
}

impl View for TargetChainTx {
    type V = TxView;

    open spec fn view(&self) -> TxView {
        match self {
            TargetChainTx::Ready(t) => TxView::Ready(t@),
            TargetChainTx::AwaitingNonce(t) => TxView::AwaitingNonce(t@),
        }
    }
}

/// A change to one queued transaction.
#[derive(Clone, Copy)]
pub enum TxEdit {
    /// One updater takes the place of another.
    Rename { old: NonceUpdater, new: NonceUpdater },
    /// An updater will never be.
    Forget { updater: NonceUpdater },
    /// An updater is done, and left the nonce at `nonce` or above.
    Settle { updater: NonceUpdater, nonce: Option<Nonce> },
    /// The nonce is one higher.
    Shift,
}

impl TxView {
    pub open spec fn target_tx(self) -> TransactionView {
        match self {
            TxView::Ready(t) => t.target_tx.transaction,
            TxView::AwaitingNonce(t) => t.target_tx,
        }
    }

    pub open spec fn nonce_updates(self) -> Set<NonceKey> {
        match self {
            TxView::Ready(t) => t.nonce_updates,
            TxView::AwaitingNonce(t) => t.nonce_updates,
        }
    }

    pub open spec fn nonce_key(self) -> NonceKey {
        self.target_tx().nonce_key()
    }

    /// What is known of the nonce that the transaction will use.
    pub open spec fn target_nonce(self) -> TargetNonceView {
        match self {
            TxView::Ready(t) => TargetNonceView {
                nonce: Some(t.target_tx.transaction.nonce),
                pending_outcomes: Set::empty(),
            },
            TxView::AwaitingNonce(t) => t.target_nonce,
        }
    }

    /// The transaction waits for its nonce, and `updater` may still change it.
    pub open spec fn awaits(self, updater: NonceUpdater) -> bool {
        self matches TxView::AwaitingNonce(t) && t.target_nonce.pending_outcomes.contains(updater)
    }

    pub open spec fn edited(self, edit: TxEdit) -> TxView {
        match self {
            TxView::Ready(t) => match edit {
                TxEdit::Shift => TxView::Ready(
                    MappedTxView {
                        target_tx: TransactionView {
                            nonce: (t.target_tx.transaction.nonce + 1) as u64,
                            ..t.target_tx.transaction
                        }.signed(),
                        ..t
                    },
                ),
                _ => self,
            },
            TxView::AwaitingNonce(t) => TxView::AwaitingNonce(
                AwaitingView {
                    target_nonce: match edit {
                        TxEdit::Rename { old, new } => t.target_nonce.renamed(old, new),
                        TxEdit::Forget { updater } => t.target_nonce.without(updater),
                        TxEdit::Settle { updater, nonce } => t.target_nonce.settled(updater, nonce),
                        TxEdit::Shift => t.target_nonce.incremented(),
                    },
                    ..t
                },
            ),
        }
    }

    /// Shifting does not overflow.
    pub open spec fn can_shift(self) -> bool {
        self.target_nonce().can_increment()
    }

    /// The waiting transaction with its nonce set.
    pub open spec fn with_nonce(self, nonce: Nonce) -> TxView {
        match self {
            TxView::Ready(_) => self,
            TxView::AwaitingNonce(t) => TxView::Ready(
                MappedTxView {
                    provenance: t.provenance,
                    source_signer_id: t.source_signer_id,
                    source_receiver_id: t.source_receiver_id,
                    target_tx: TransactionView { nonce, ..t.target_tx }.signed(),
                    nonce_updates: t.nonce_updates,
                    sent_successfully: false,
                },
            ),
        }
    }
}

impl TargetChainTx {
    pub fn is_ready(&self) -> (b: bool)
        ensures
            b == (self@ is Ready),
    {
        match self {
            TargetChainTx::Ready(_) => true,
            TargetChainTx::AwaitingNonce(_) => false,
        }
    }

    pub fn nonce_key(&self) -> (r: NonceLookupKey)
        ensures
            r@ == self@.nonce_key(),
    {
        match self {
            TargetChainTx::Ready(t) => NonceLookupKey::from_tx(&t.target_tx.transaction),
            TargetChainTx::AwaitingNonce(t) => NonceLookupKey::from_tx(&t.target_tx),
        }
    }

    pub fn nonce_updates(&self) -> (r: &OrderedSet<NonceLookupKey>)
        ensures
            r@ == self@.nonce_updates(),
    {
        match self {
            TargetChainTx::Ready(t) => &t.nonce_updates,
            TargetChainTx::AwaitingNonce(t) => &t.nonce_updates,
        }
    }

    /// What is known of the nonce that the transaction will use.
    pub fn target_nonce(&self) -> (r: TargetNonce)
        ensures
            r@ == self@.target_nonce(),
    {
        match self {
            TargetChainTx::Ready(t) => TargetNonce {
                nonce: Some(t.target_tx.transaction.nonce),
                pending_outcomes: OrderedSet::new(),
            },
            TargetChainTx::AwaitingNonce(t) => t.target_nonce.duplicate(),
        }
    }

    pub fn edit(&mut self, edit: &TxEdit)
        requires
            edit is Shift ==> old(self)@.can_shift(),
        ensures
            final(self)@ == old(self)@.edited(*edit),
    {
        match self {
            TargetChainTx::Ready(t) => {
                if let TxEdit::Shift = edit {
                    let mut target_tx = t.target_tx.transaction.duplicate();
                    target_tx.nonce = target_tx.nonce + 1;
                    t.target_tx = SignedTransaction::new(target_tx);
                }
            },
            TargetChainTx::AwaitingNonce(t) => {
                match edit {
                    TxEdit::Rename { old, new } => {
                        t.target_nonce.pending_outcomes.remove(old);
                        t.target_nonce.pending_outcomes.insert(*new);
                    },
                    TxEdit::Forget { updater } => {
                        t.target_nonce.pending_outcomes.remove(updater);
                    },
                    TxEdit::Settle { updater, nonce } => {
                        t.target_nonce.pending_outcomes.remove(updater);
                        t.target_nonce.nonce = later_of(t.target_nonce.nonce, *nonce);
                    },
                    TxEdit::Shift => {
                        t.target_nonce.increment();
                    },
                }
            },
        }
    }

    /// Sets the nonce of a waiting transaction, which makes it ready.
    pub fn set_nonce(&mut self, nonce: Nonce)
        ensures
            final(self)@ == old(self)@.with_nonce(nonce),
    {
        let ready = match self {
            TargetChainTx::Ready(_) => None,
            TargetChainTx::AwaitingNonce(t) => {
                let mut target_tx = t.target_tx.duplicate();
                target_tx.nonce = nonce;
                Some(
                    MappedTx {
                        provenance: t.provenance.clone(),
                        source_signer_id: t.source_signer_id.duplicate(),
                        source_receiver_id: t.source_receiver_id.duplicate(),
                        target_tx: SignedTransaction::new(target_tx),
                        nonce_updates: t.nonce_updates.duplicate(),
                        sent_successfully: false,
                    },
                )
            },
        };
        if let Some(t) = ready {
            *self = TargetChainTx::Ready(t);
        }
    }
}

} // verus!
