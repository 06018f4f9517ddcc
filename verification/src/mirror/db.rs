//! What the tracker keeps in the database: the part of it that one operation works on, and the
//! writes that the operation makes.

use vstd::prelude::*;

use super::ids::{NonceKey, NonceLookupKey};
use crate::keys::{CryptoHash, Nonce};
use crate::ordered::{views, Key, OrderedMap, OrderedSet};

verus! {

/// The stored record of a nonce.
pub struct LatestTargetNonce {
    pub nonce: Option<Nonce>,
    pub pending_outcomes: OrderedSet<CryptoHash>,
}

/// The view of a `LatestTargetNonce`.
#[verifier::ext_equal]
pub ghost struct LatestView {
    pub nonce: Option<Nonce>,
    pub pending_outcomes: Set<CryptoHash>,
}

impl View for LatestTargetNonce {
    type V = LatestView;

    open spec fn view(&self) -> LatestView {
        LatestView { nonce: self.nonce, pending_outcomes: self.pending_outcomes@ }
    }
}

impl LatestTargetNonce {
    pub fn duplicate(&self) -> (r: LatestTargetNonce)
        ensures
            r@ == self@,
    {
        LatestTargetNonce { nonce: self.nonce, pending_outcomes: self.pending_outcomes.duplicate() }
    }
}

/// A write to the database.
pub enum DbWrite {
    PutTargetNonce { key: NonceLookupKey, value: LatestTargetNonce },
    PutPendingOutcome { id: CryptoHash, keys: OrderedSet<NonceLookupKey> },
    DeletePendingOutcome { id: CryptoHash },
}

/// The view of a `DbWrite`.
pub ghost enum WriteView {
    PutTargetNonce { key: NonceKey, value: LatestView },
    PutPendingOutcome { id: CryptoHash, keys: Set<NonceKey> },
    DeletePendingOutcome { id: CryptoHash },
}

impl View for DbWrite {
    type V = WriteView;

    open spec fn view(&self) -> WriteView {
        match self {
            DbWrite::PutTargetNonce { key, value } => WriteView::PutTargetNonce {
                key: key@,
                value: value@,
            },
            DbWrite::PutPendingOutcome { id, keys } => WriteView::PutPendingOutcome {
                id: *id,
                keys: keys@,
            },
            DbWrite::DeletePendingOutcome { id } => WriteView::DeletePendingOutcome { id: *id },
        }
    }
}

/// The stored records: of nonces, and of the nonces that each pending outcome may change.
#[verifier::ext_equal]
pub ghost struct DbView {
    pub nonces: Map<NonceKey, LatestView>,
    pub outcomes: Map<CryptoHash, Set<NonceKey>>,
}

impl DbView {
    /// No records.
    pub open spec fn empty() -> DbView {
        DbView { nonces: Map::empty(), outcomes: Map::empty() }
    }

    pub open spec fn put_nonce(self, key: NonceKey, value: LatestView) -> DbView {
        DbView { nonces: self.nonces.insert(key, value), ..self }
    }

    pub open spec fn put_outcome(self, id: CryptoHash, keys: Set<NonceKey>) -> DbView {
        DbView { outcomes: self.outcomes.insert(id, keys), ..self }
    }

    pub open spec fn delete_outcome(self, id: CryptoHash) -> DbView {
        DbView { outcomes: self.outcomes.remove(id), ..self }
    }

    pub open spec fn written(self, w: WriteView) -> DbView {
        match w {
            WriteView::PutTargetNonce { key, value } => self.put_nonce(key, value),
            WriteView::PutPendingOutcome { id, keys } => self.put_outcome(id, keys),
            WriteView::DeletePendingOutcome { id } => self.delete_outcome(id),
        }
    }
}

/// The database after a run of writes.
pub open spec fn replay(db: DbView, writes: Seq<WriteView>) -> DbView
    decreases writes.len(),
{
    if writes.len() == 0 {
        db
    } else {
        replay(db, writes.drop_last()).written(writes.last())
    }
}

/// The records that an operation works on. They are loaded first; from then on every change is
/// also kept as a write.
pub struct NonceDb {
    nonces: OrderedMap<NonceLookupKey, LatestTargetNonce>,
    outcomes: OrderedMap<CryptoHash, OrderedSet<NonceLookupKey>>,
    writes: Vec<DbWrite>,
    loaded: Ghost<DbView>,
}

impl View for NonceDb {
    type V = DbView;

    closed spec fn view(&self) -> DbView {
        DbView { nonces: self.nonces@, outcomes: self.outcomes@ }
    }
}

impl NonceDb {
    /// What the records were when they were loaded.
    pub closed spec fn loaded(&self) -> DbView {
        self.loaded@
    }

    /// The writes so far.
    pub closed spec fn log(&self) -> Seq<WriteView> {
        views(self.writes@)
    }

    #[verifier::type_invariant]
    spec fn inv(self) -> bool {
        replay(self.loaded@, views(self.writes@)) == (DbView {
            nonces: self.nonces@,
            outcomes: self.outcomes@,
        })
    }

    pub fn new() -> (r: NonceDb)
        ensures
            r@ == DbView::empty(),
            r.loaded() == r@,
            r.log() == Seq::<WriteView>::empty(),
    {
        let writes = Vec::new();
        assert(views::<DbWrite>(writes@) =~= Seq::empty());
        NonceDb {
            nonces: OrderedMap::new(),
            outcomes: OrderedMap::new(),
            writes,
            loaded: Ghost(DbView::empty()),
        }
    }

    /// Adds a stored record of a nonce.
    pub fn load_target_nonce(&mut self, key: NonceLookupKey, value: LatestTargetNonce)
        requires
            old(self).log().len() == 0,
        ensures
            final(self)@ == old(self)@.put_nonce(key@, value@),
            final(self).loaded() == final(self)@,
            final(self).log() == old(self).log(),
    {
        proof {
            use_type_invariant(&*self);
        }
        let mut db = NonceDb::new();
        std::mem::swap(&mut db, self);
        let NonceDb { mut nonces, outcomes, writes, loaded: _ } = db;
        nonces.insert(key, value);
        *self = NonceDb {
            nonces,
            outcomes,
            writes,
            loaded: Ghost(DbView { nonces: nonces@, outcomes: outcomes@ }),
        };
    }

    /// Adds a stored record of a pending outcome.
    pub fn load_pending_outcome(&mut self, id: CryptoHash, keys: OrderedSet<NonceLookupKey>)
        requires
            old(self).log().len() == 0,
        ensures
            final(self)@ == old(self)@.put_outcome(id, keys@),
            final(self).loaded() == final(self)@,
            final(self).log() == old(self).log(),
    {
        proof {
            use_type_invariant(&*self);
        }
        let mut db = NonceDb::new();
        std::mem::swap(&mut db, self);
        let NonceDb { nonces, mut outcomes, writes, loaded: _ } = db;
        outcomes.insert(id, keys);
        *self = NonceDb {
            nonces,
            outcomes,
            writes,
            loaded: Ghost(DbView { nonces: nonces@, outcomes: outcomes@ }),
        };
    }

    /// The stored record of a nonce.
    pub fn read_target_nonce(&self, key: &NonceLookupKey) -> (r: Option<&LatestTargetNonce>)
        ensures
            match r {
                Some(v) => self@.nonces.contains_key(key@) && v@ == self@.nonces[key@],
                None => !self@.nonces.contains_key(key@),
            },
    {
        self.nonces.get(key)
    }

    /// The nonces that a pending outcome may change.
    pub fn read_pending_outcome(&self, id: &CryptoHash) -> (r: Option<&OrderedSet<NonceLookupKey>>)
        ensures
            match r {
                Some(v) => self@.outcomes.contains_key(*id) && v@ == self@.outcomes[*id],
                None => !self@.outcomes.contains_key(*id),
            },
    {
        self.outcomes.get(id)
    }

    pub fn put_target_nonce(&mut self, key: &NonceLookupKey, value: LatestTargetNonce)
        ensures
            final(self)@ == old(self)@.put_nonce(key@, value@),
            final(self).loaded() == old(self).loaded(),
            final(self).log() == old(self).log().push(
                WriteView::PutTargetNonce { key: key@, value: value@ },
            ),
    {
        proof {
            use_type_invariant(&*self);
        }
        let mut db = NonceDb::new();
        std::mem::swap(&mut db, self);
        let NonceDb { mut nonces, outcomes, mut writes, loaded } = db;
        let ghost w = WriteView::PutTargetNonce { key: key@, value: value@ };
        let ghost before = views(writes@);
        writes.push(DbWrite::PutTargetNonce { key: key.duplicate(), value: value.duplicate() });
        nonces.insert(key.duplicate(), value);
        proof {
            assert(views(writes@) =~= before.push(w));
            assert(before.push(w).drop_last() =~= before);
        }
        *self = NonceDb { nonces, outcomes, writes, loaded };
    }

    pub fn put_pending_outcome(&mut self, id: CryptoHash, keys: OrderedSet<NonceLookupKey>)
        ensures
            final(self)@ == old(self)@.put_outcome(id, keys@),
            final(self).loaded() == old(self).loaded(),
            final(self).log() == old(self).log().push(
                WriteView::PutPendingOutcome { id, keys: keys@ },
            ),
    {
        proof {
            use_type_invariant(&*self);
        }
        let mut db = NonceDb::new();
        std::mem::swap(&mut db, self);
        let NonceDb { nonces, mut outcomes, mut writes, loaded } = db;
        let ghost w = WriteView::PutPendingOutcome { id, keys: keys@ };
        let ghost before = views(writes@);
        writes.push(DbWrite::PutPendingOutcome { id, keys: keys.duplicate() });
        outcomes.insert(id, keys);
        proof {
            assert(views(writes@) =~= before.push(w));
            assert(before.push(w).drop_last() =~= before);
        }
        *self = NonceDb { nonces, outcomes, writes, loaded };
    }

    pub fn delete_pending_outcome(&mut self, id: &CryptoHash)
        ensures
            final(self)@ == old(self)@.delete_outcome(*id),
            final(self).loaded() == old(self).loaded(),
            final(self).log() == old(self).log().push(WriteView::DeletePendingOutcome { id: *id }),
    {
        proof {
            use_type_invariant(&*self);
        }
        let mut db = NonceDb::new();
        std::mem::swap(&mut db, self);
        let NonceDb { nonces, mut outcomes, mut writes, loaded } = db;
        let ghost w = WriteView::DeletePendingOutcome { id: *id };
        let ghost before = views(writes@);
        writes.push(DbWrite::DeletePendingOutcome { id: *id });
        outcomes.remove(id);
        proof {
            assert(views(writes@) =~= before.push(w));
            assert(before.push(w).drop_last() =~= before);
        }
        *self = NonceDb { nonces, outcomes, writes, loaded };
    }

    /// Ends the operation. The writes, made in their order on the records as they were loaded,
    /// give the records as they are now.
    pub fn into_writes(self) -> (r: Vec<DbWrite>)
        ensures
            views(r@) == self.log(),
            replay(self.loaded(), views(r@)) == self@,
    {
        proof {
            use_type_invariant(&self);
        }
        self.writes
    }
}

} // verus!
