//! What transactions, access keys and nonce updates are told apart by.

use vstd::prelude::*;

use crate::keys::{
    order_u64, AccountId, BlockHeight, CryptoHash, Nonce, NonceIndex, PublicKey, ShardId,
};
use crate::ordered::{Key, KeyOrder};

verus! {

/// The place of a transaction among the queued blocks.
#[derive(Clone, Copy, Debug, PartialEq, Eq)]
pub struct TxRef {
    pub source_height: BlockHeight,
    pub shard_id: ShardId,
    pub tx_idx: usize,
}

impl View for TxRef {
    type V = TxRef;

    open spec fn view(&self) -> TxRef {
        *self
    }
}

/// By height, then by shard, then by index.
impl Key for TxRef {
    open spec fn before(a: TxRef, b: TxRef) -> bool {
        ||| a.source_height < b.source_height
        ||| a.source_height == b.source_height && a.shard_id < b.shard_id
        ||| a.source_height == b.source_height && a.shard_id == b.shard_id && a.tx_idx < b.tx_idx
    }

    proof fn before_irreflexive(a: TxRef) {
    }

    proof fn before_transitive(a: TxRef, b: TxRef, c: TxRef) {
    }

    proof fn before_total(a: TxRef, b: TxRef) {
    }

    fn order(&self, other: &TxRef) -> (o: KeyOrder) {
        match order_u64(self.source_height, other.source_height) {
            KeyOrder::Less => KeyOrder::Less,
            KeyOrder::Greater => KeyOrder::Greater,
            KeyOrder::Equal => match order_u64(self.shard_id, other.shard_id) {
                KeyOrder::Less => KeyOrder::Less,
                KeyOrder::Greater => KeyOrder::Greater,
                KeyOrder::Equal => if self.tx_idx < other.tx_idx {
                    KeyOrder::Less
                } else if other.tx_idx < self.tx_idx {
                    KeyOrder::Greater
                } else {
                    KeyOrder::Equal
                },
            },
        }
    }

    fn duplicate(&self) -> (r: TxRef) {
        *self
    }
}

/// A sent transaction, by its nonce and its hash.
#[derive(Clone, Copy, Debug, PartialEq, Eq)]
pub struct TxId {
    pub hash: CryptoHash,
    pub nonce: Nonce,
}

impl View for TxId {
    type V = TxId;

    open spec fn view(&self) -> TxId {
        *self
    }
}

/// By nonce, then by hash.
impl Key for TxId {
    open spec fn before(a: TxId, b: TxId) -> bool {
        a.nonce < b.nonce || (a.nonce == b.nonce && CryptoHash::before(a.hash, b.hash))
    }

    proof fn before_irreflexive(a: TxId) {
        CryptoHash::before_irreflexive(a.hash);
    }

    proof fn before_transitive(a: TxId, b: TxId, c: TxId) {
        if a.nonce == b.nonce && b.nonce == c.nonce {
            CryptoHash::before_transitive(a.hash, b.hash, c.hash);
        }
    }

    proof fn before_total(a: TxId, b: TxId) {
        CryptoHash::before_total(a.hash, b.hash);
    }

    fn order(&self, other: &TxId) -> (o: KeyOrder) {
        match order_u64(self.nonce, other.nonce) {
            KeyOrder::Less => KeyOrder::Less,
            KeyOrder::Greater => KeyOrder::Greater,
            KeyOrder::Equal => self.hash.order(&other.hash),
        }
    }

    fn duplicate(&self) -> (r: TxId) {
        *self
    }
}

/// What may change the nonce of an access key: a queued transaction that was not sent yet, or a
/// transaction or receipt on the target chain.
#[derive(Clone, Copy, Debug, PartialEq, Eq)]
pub enum NonceUpdater {
    TxRef(TxRef),
    ChainObjectId(CryptoHash),
}

impl View for NonceUpdater {
    type V = NonceUpdater;

    open spec fn view(&self) -> NonceUpdater {
        *self
    }
}

/// Queued transactions come before objects on the chain.
impl Key for NonceUpdater {
    open spec fn before(a: NonceUpdater, b: NonceUpdater) -> bool {
        match (a, b) {
            (NonceUpdater::TxRef(x), NonceUpdater::TxRef(y)) => TxRef::before(x, y),
            (NonceUpdater::TxRef(_), NonceUpdater::ChainObjectId(_)) => true,
            (NonceUpdater::ChainObjectId(_), NonceUpdater::TxRef(_)) => false,
            (NonceUpdater::ChainObjectId(x), NonceUpdater::ChainObjectId(y)) => CryptoHash::before(
                x,
                y,
            ),
        }
    }

    proof fn before_irreflexive(a: NonceUpdater) {
        if let NonceUpdater::ChainObjectId(x) = a {
            CryptoHash::before_irreflexive(x);
        }
    }

    proof fn before_transitive(a: NonceUpdater, b: NonceUpdater, c: NonceUpdater) {
        match (a, b, c) {
            (
                NonceUpdater::ChainObjectId(x),
                NonceUpdater::ChainObjectId(y),
                NonceUpdater::ChainObjectId(z),
            ) => CryptoHash::before_transitive(x, y, z),
            _ => {},
        }
    }

    proof fn before_total(a: NonceUpdater, b: NonceUpdater) {
        match (a, b) {
            (NonceUpdater::ChainObjectId(x), NonceUpdater::ChainObjectId(y)) => {
                CryptoHash::before_total(x, y);
            },
            _ => {},
        }
    }

    fn order(&self, other: &NonceUpdater) -> (o: KeyOrder) {
        match self {
            NonceUpdater::TxRef(x) => match other {
                NonceUpdater::TxRef(y) => x.order(y),
                NonceUpdater::ChainObjectId(_) => KeyOrder::Less,
            },
            NonceUpdater::ChainObjectId(x) => match other {
                NonceUpdater::TxRef(_) => KeyOrder::Greater,
                NonceUpdater::ChainObjectId(y) => x.order(y),
            },
        }
    }

    fn duplicate(&self) -> (r: NonceUpdater) {
        *self
    }
}

/// Whether a key has one nonce, or several of which one is meant.
#[derive(Clone, Copy, Debug, PartialEq, Eq)]
pub enum NonceKind {
    AccessKey,
    GasKey(NonceIndex),
}

impl View for NonceKind {
    type V = NonceKind;

    open spec fn view(&self) -> NonceKind {
        *self
    }
}

impl Key for NonceKind {
    open spec fn before(a: NonceKind, b: NonceKind) -> bool {
        match (a, b) {
            (_, NonceKind::AccessKey) => false,
            (NonceKind::AccessKey, NonceKind::GasKey(_)) => true,
            (NonceKind::GasKey(x), NonceKind::GasKey(y)) => x < y,
        }
    }

    proof fn before_irreflexive(a: NonceKind) {
    }

    proof fn before_transitive(a: NonceKind, b: NonceKind, c: NonceKind) {
    }

    proof fn before_total(a: NonceKind, b: NonceKind) {
    }

    fn order(&self, other: &NonceKind) -> (o: KeyOrder) {
        match self {
            NonceKind::AccessKey => match other {
                NonceKind::AccessKey => KeyOrder::Equal,
                NonceKind::GasKey(_) => KeyOrder::Less,
            },
            NonceKind::GasKey(x) => match other {
                NonceKind::AccessKey => KeyOrder::Greater,
                NonceKind::GasKey(y) => if *x < *y {
                    KeyOrder::Less
                } else if *y < *x {
                    KeyOrder::Greater
                } else {
                    KeyOrder::Equal
                },
            },
        }
    }

    fn duplicate(&self) -> (r: NonceKind) {
        *self
    }
}

/// A nonce on the target chain: the account, the key and which of its nonces.
#[derive(Debug, PartialEq, Eq)]
pub struct NonceLookupKey {
    pub account_id: AccountId,
    pub public_key: PublicKey,
    pub kind: NonceKind,
}

/// The view of a `NonceLookupKey`.
#[verifier::ext_equal]
pub ghost struct NonceKey {
    pub account_id: Seq<char>,
    pub public_key: Seq<u8>,
    pub kind: NonceKind,
}

impl View for NonceLookupKey {
    type V = NonceKey;

    open spec fn view(&self) -> NonceKey {
        NonceKey { account_id: self.account_id@, public_key: self.public_key@, kind: self.kind }
    }
}

/// By account, then by key, then by kind.
impl Key for NonceLookupKey {
    open spec fn before(a: NonceKey, b: NonceKey) -> bool {
        ||| AccountId::before(a.account_id, b.account_id)
        ||| a.account_id == b.account_id && PublicKey::before(a.public_key, b.public_key)
        ||| a.account_id == b.account_id && a.public_key == b.public_key && NonceKind::before(
            a.kind,
            b.kind,
        )
    }

    proof fn before_irreflexive(a: NonceKey) {
        AccountId::before_irreflexive(a.account_id);
        PublicKey::before_irreflexive(a.public_key);
    }

    proof fn before_transitive(a: NonceKey, b: NonceKey, c: NonceKey) {
        if AccountId::before(a.account_id, b.account_id) && AccountId::before(
            b.account_id,
            c.account_id,
        ) {
            AccountId::before_transitive(a.account_id, b.account_id, c.account_id);
        }
        if PublicKey::before(a.public_key, b.public_key) && PublicKey::before(
            b.public_key,
            c.public_key,
        ) {
            PublicKey::before_transitive(a.public_key, b.public_key, c.public_key);
        }
    }

    proof fn before_total(a: NonceKey, b: NonceKey) {
        AccountId::before_total(a.account_id, b.account_id);
        PublicKey::before_total(a.public_key, b.public_key);
    }

    fn order(&self, other: &NonceLookupKey) -> (o: KeyOrder) {
        match self.account_id.order(&other.account_id) {
            KeyOrder::Less => KeyOrder::Less,
            KeyOrder::Greater => KeyOrder::Greater,
            KeyOrder::Equal => match self.public_key.order(&other.public_key) {
                KeyOrder::Less => KeyOrder::Less,
                KeyOrder::Greater => KeyOrder::Greater,
                KeyOrder::Equal => self.kind.order(&other.kind),
            },
        }
    }

    fn duplicate(&self) -> (r: NonceLookupKey) {
        NonceLookupKey {
            account_id: self.account_id.duplicate(),
            public_key: self.public_key.duplicate(),
            kind: self.kind,
        }
    }
}

} // verus!
