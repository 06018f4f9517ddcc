//! The key types that the tools share, and their orders.

use vstd::prelude::*;

use crate::ordered::{Key, KeyOrder};

verus! {

pub type BlockHeight = u64;

pub type Nonce = u64;

pub type NonceIndex = u16;

pub type ShardId = u64;

/// Lexicographic order: at the first place where they differ, `a` is smaller or has ended.
pub open spec fn lexically_before(a: Seq<u8>, b: Seq<u8>) -> bool {
    exists|i: int| #[trigger] parts_at(a, b, i) && (i < a.len() ==> a[i] < b[i])
}

/// `a` and `b` agree before `i`, and `b` goes on there.
pub open spec fn parts_at(a: Seq<u8>, b: Seq<u8>, i: int) -> bool {
    &&& 0 <= i <= a.len()
    &&& i < b.len()
    &&& forall|j: int| 0 <= j < i ==> a[j] == b[j]
}

pub proof fn lemma_lexical_irreflexive(a: Seq<u8>)
    ensures
        !lexically_before(a, a),
{
}

pub proof fn lemma_lexical_transitive(a: Seq<u8>, b: Seq<u8>, c: Seq<u8>)
    requires
        lexically_before(a, b),
        lexically_before(b, c),
    ensures
        lexically_before(a, c),
{
    let i = choose|i: int| #[trigger] parts_at(a, b, i) && (i < a.len() ==> a[i] < b[i]);
    let j = choose|j: int| #[trigger] parts_at(b, c, j) && (j < b.len() ==> b[j] < c[j]);
    if i <= j {
        assert(parts_at(a, c, i));
    } else {
        assert(parts_at(a, c, j));
    }
}

/// Two byte strings are equal, or one stands before the other.
pub proof fn lemma_lexical_total(a: Seq<u8>, b: Seq<u8>)
    ensures
        lexically_before(a, b) || a == b || lexically_before(b, a),
{
    lemma_lexical_total_from(a, b, 0);
}

proof fn lemma_lexical_total_from(a: Seq<u8>, b: Seq<u8>, i: int)
    requires
        0 <= i <= a.len(),
        i <= b.len(),
        forall|j: int| 0 <= j < i ==> a[j] == b[j],
    ensures
        lexically_before(a, b) || a == b || lexically_before(b, a),
    decreases a.len() - i,
{
    if i == a.len() && i == b.len() {
        assert(a =~= b);
    } else if i == a.len() {
        assert(parts_at(a, b, i));
    } else if i == b.len() {
        assert(parts_at(b, a, i));
    } else if a[i] < b[i] {
        assert(parts_at(a, b, i));
    } else if b[i] < a[i] {
        assert(parts_at(b, a, i));
    } else {
        lemma_lexical_total_from(a, b, i + 1);
    }
}

/// Orders two byte strings.
pub fn order_bytes(a: &[u8], b: &[u8]) -> (o: KeyOrder)
    ensures
        match o {
            KeyOrder::Less => lexically_before(a@, b@),
            KeyOrder::Equal => a@ == b@,
            KeyOrder::Greater => lexically_before(b@, a@),
        },
{
    let mut i: usize = 0;
    while i < a.len() && i < b.len()
        invariant
            i <= a@.len(),
            i <= b@.len(),
            forall|j: int| 0 <= j < i ==> a@[j] == b@[j],
        decreases a@.len() - i,
    {
        if a[i] < b[i] {
            assert(parts_at(a@, b@, i as int));
            return KeyOrder::Less;
        }
        if b[i] < a[i] {
            assert(parts_at(b@, a@, i as int));
            return KeyOrder::Greater;
        }
        i += 1;
    }
    if i < b.len() {
        assert(parts_at(a@, b@, i as int));
        KeyOrder::Less
    } else if i < a.len() {
        assert(parts_at(b@, a@, i as int));
        KeyOrder::Greater
    } else {
        assert(a@ =~= b@);
        KeyOrder::Equal
    }
}

/// Orders two numbers.
pub fn order_u64(a: u64, b: u64) -> (o: KeyOrder)
    ensures
        match o {
            KeyOrder::Less => a < b,
            KeyOrder::Equal => a == b,
            KeyOrder::Greater => b < a,
        },
{
    if a < b {
        KeyOrder::Less
    } else if b < a {
        KeyOrder::Greater
    } else {
        KeyOrder::Equal
    }
}

impl Key for u64 {
    open spec fn before(a: u64, b: u64) -> bool {
        a < b
    }

    proof fn before_irreflexive(a: u64) {
    }

    proof fn before_transitive(a: u64, b: u64, c: u64) {
    }

    proof fn before_total(a: u64, b: u64) {
    }

    fn order(&self, other: &u64) -> (o: KeyOrder) {
        order_u64(*self, *other)
    }

    fn duplicate(&self) -> (r: u64) {
        *self
    }
}

/// Pairs are ordered by the first part, then by the second.
impl<A: Key, B: Key> Key for (A, B) {
    open spec fn before(a: (A::V, B::V), b: (A::V, B::V)) -> bool {
        A::before(a.0, b.0) || (a.0 == b.0 && B::before(a.1, b.1))
    }

    proof fn before_irreflexive(a: (A::V, B::V)) {
        A::before_irreflexive(a.0);
        B::before_irreflexive(a.1);
    }

    proof fn before_transitive(a: (A::V, B::V), b: (A::V, B::V), c: (A::V, B::V)) {
        if A::before(a.0, b.0) && A::before(b.0, c.0) {
            A::before_transitive(a.0, b.0, c.0);
        } else if a.0 == b.0 && b.0 == c.0 {
            B::before_transitive(a.1, b.1, c.1);
        }
    }

    proof fn before_total(a: (A::V, B::V), b: (A::V, B::V)) {
        A::before_total(a.0, b.0);
        B::before_total(a.1, b.1);
    }

    fn order(&self, other: &(A, B)) -> (o: KeyOrder) {
        match self.0.order(&other.0) {
            KeyOrder::Less => KeyOrder::Less,
            KeyOrder::Greater => KeyOrder::Greater,
            KeyOrder::Equal => self.1.order(&other.1),
        }
    }

    fn duplicate(&self) -> (r: (A, B)) {
        (self.0.duplicate(), self.1.duplicate())
    }
}

/// The identifier of a transaction, a receipt or a block.
#[derive(Clone, Copy, Debug, PartialEq, Eq)]
pub struct CryptoHash(pub [u8; 32]);

impl View for CryptoHash {
    type V = CryptoHash;

    open spec fn view(&self) -> CryptoHash {
        *self
    }
}

/// Hashes are equal when their bytes are.
pub proof fn lemma_hash_bytes(a: CryptoHash, b: CryptoHash)
    ensures
        a.0@ == b.0@ ==> a == b,
{
    if a.0@ == b.0@ {
        assert forall|i: int| 0 <= i < 32 implies a.0[i] == b.0[i] by {
            assert(a.0@[i] == b.0@[i]);
        }
        assert(a.0 =~= b.0);
    }
}

impl Key for CryptoHash {
    open spec fn before(a: CryptoHash, b: CryptoHash) -> bool {
        lexically_before(a.0@, b.0@)
    }

    proof fn before_irreflexive(a: CryptoHash) {
        lemma_lexical_irreflexive(a.0@);
    }

    proof fn before_transitive(a: CryptoHash, b: CryptoHash, c: CryptoHash) {
        lemma_lexical_transitive(a.0@, b.0@, c.0@);
    }

    proof fn before_total(a: CryptoHash, b: CryptoHash) {
        lemma_lexical_total(a.0@, b.0@);
        lemma_hash_bytes(a, b);
    }

    fn order(&self, other: &CryptoHash) -> (o: KeyOrder) {
        proof {
            lemma_hash_bytes(*self, *other);
        }
        order_bytes(self.0.as_slice(), other.0.as_slice())
    }

    fn duplicate(&self) -> (r: CryptoHash) {
        *self
    }
}

/// An account of a chain, by its name.
#[derive(Debug, PartialEq, Eq)]
pub struct AccountId(pub String);

impl View for AccountId {
    type V = Seq<char>;

    open spec fn view(&self) -> Seq<char> {
        self.0@
    }
}

impl AccountId {
    /// Whether two names are the same.
    pub fn same(&self, other: &AccountId) -> (b: bool)
        ensures
            b == (self@ == other@),
    {
        self.0 == other.0
    }
}

proof fn lemma_utf8_injective(a: Seq<char>, b: Seq<char>)
    requires
        vstd::utf8::encode_utf8(a) == vstd::utf8::encode_utf8(b),
    ensures
        a == b,
{
    vstd::utf8::encode_utf8_decode_utf8(a);
    vstd::utf8::encode_utf8_decode_utf8(b);
}

/// Names are ordered by their bytes.
impl Key for AccountId {
    open spec fn before(a: Seq<char>, b: Seq<char>) -> bool {
        lexically_before(vstd::utf8::encode_utf8(a), vstd::utf8::encode_utf8(b))
    }

    proof fn before_irreflexive(a: Seq<char>) {
        lemma_lexical_irreflexive(vstd::utf8::encode_utf8(a));
    }

    proof fn before_transitive(a: Seq<char>, b: Seq<char>, c: Seq<char>) {
        lemma_lexical_transitive(
            vstd::utf8::encode_utf8(a),
            vstd::utf8::encode_utf8(b),
            vstd::utf8::encode_utf8(c),
        );
    }

    proof fn before_total(a: Seq<char>, b: Seq<char>) {
        lemma_lexical_total(vstd::utf8::encode_utf8(a), vstd::utf8::encode_utf8(b));
        if vstd::utf8::encode_utf8(a) == vstd::utf8::encode_utf8(b) {
            lemma_utf8_injective(a, b);
        }
    }

    fn order(&self, other: &AccountId) -> (o: KeyOrder) {
        let a = self.0.as_str().as_bytes();
        let b = other.0.as_str().as_bytes();
        proof {
            if a@ == b@ {
                lemma_utf8_injective(self@, other@);
            }
        }
        order_bytes(a, b)
    }

    fn duplicate(&self) -> (r: AccountId) {
        AccountId(self.0.clone())
    }
}

/// A public key in its encoded form: the byte of its kind, then the key's bytes.
#[derive(Debug, PartialEq, Eq)]
pub struct PublicKey(pub Vec<u8>);

impl View for PublicKey {
    type V = Seq<u8>;

    open spec fn view(&self) -> Seq<u8> {
        self.0@
    }
}

/// A second vector with the same bytes.
pub fn duplicate_bytes(v: &Vec<u8>) -> (r: Vec<u8>)
    ensures
        r@ == v@,
{
    let r = v.clone();
    assert(r@ =~= v@);
    r
}

impl Key for PublicKey {
    open spec fn before(a: Seq<u8>, b: Seq<u8>) -> bool {
        lexically_before(a, b)
    }

    proof fn before_irreflexive(a: Seq<u8>) {
        lemma_lexical_irreflexive(a);
    }

    proof fn before_transitive(a: Seq<u8>, b: Seq<u8>, c: Seq<u8>) {
        lemma_lexical_transitive(a, b, c);
    }

    proof fn before_total(a: Seq<u8>, b: Seq<u8>) {
        lemma_lexical_total(a, b);
    }

    fn order(&self, other: &PublicKey) -> (o: KeyOrder) {
        order_bytes(self.0.as_slice(), other.0.as_slice())
    }

    fn duplicate(&self) -> (r: PublicKey) {
        PublicKey(duplicate_bytes(&self.0))
    }
}

/// Whether two vectors hold the same bytes.
pub fn same_bytes(a: &Vec<u8>, b: &Vec<u8>) -> (r: bool)
    ensures
        r == (a@ == b@),
{
    if a.len() != b.len() {
        return false;
    }
    let mut i: usize = 0;
    while i < a.len()
        invariant
            i <= a@.len(),
            a@.len() == b@.len(),
            forall|j: int| 0 <= j < i ==> a@[j] == b@[j],
        decreases a@.len() - i,
    {
        if a[i] != b[i] {
            assert(a@[i as int] != b@[i as int]);
            return false;
        }
        i += 1;
    }
    assert(a@ =~= b@);
    true
}

} // verus!
