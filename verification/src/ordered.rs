//! Maps and sets kept as vectors in ascending key order.
//!
//! Lookups are by binary search. Walking a collection by index visits its keys in ascending
//! order, so every result that depends on a walk is determined by the contents alone.

use vstd::prelude::*;

verus! {

/// How one key stands to another.
pub enum KeyOrder {
    Less,
    Equal,
    Greater,
}

/// A type whose values can be ordered by their views: `before` is a strict total order.
pub trait Key: View + Sized {
    spec fn before(a: Self::V, b: Self::V) -> bool;

    proof fn before_irreflexive(a: Self::V)
        ensures
            !Self::before(a, a),
    ;

    proof fn before_transitive(a: Self::V, b: Self::V, c: Self::V)
        requires
            Self::before(a, b),
            Self::before(b, c),
        ensures
            Self::before(a, c),
    ;

    proof fn before_total(a: Self::V, b: Self::V)
        ensures
            Self::before(a, b) || a == b || Self::before(b, a),
    ;

    fn order(&self, other: &Self) -> (o: KeyOrder)
        ensures
            match o {
                KeyOrder::Less => Self::before(self@, other@),
                KeyOrder::Equal => self@ == other@,
                KeyOrder::Greater => Self::before(other@, self@),
            },
    ;

    fn duplicate(&self) -> (r: Self)
        ensures
            r@ == self@,
    ;
}

/// The views of the items of a sequence.
pub open spec fn views<T: View>(s: Seq<T>) -> Seq<T::V> {
    Seq::new(s.len(), |i: int| s[i]@)
}

/// Each item stands before all later ones.
pub open spec fn ascending<K: Key>(s: Seq<K::V>) -> bool {
    forall|i: int, j: int| 0 <= i < j < s.len() ==> K::before(#[trigger] s[i], #[trigger] s[j])
}

/// The map from `ks[i]` to `vs[i]`.
pub open spec fn map_of<A, B>(ks: Seq<A>, vs: Seq<B>) -> Map<A, B> {
    Map::new(|k: A| ks.contains(k), |k: A| vs[ks.index_of(k)])
}

/// Where a key belongs in an ascending sequence that does not hold it.
pub open spec fn gap_at<K: Key>(s: Seq<K::V>, i: int, k: K::V) -> bool {
    &&& 0 <= i <= s.len()
    &&& forall|j: int| 0 <= j < i ==> K::before(#[trigger] s[j], k)
    &&& forall|j: int| i <= j < s.len() ==> K::before(k, #[trigger] s[j])
}

pub proof fn lemma_ascending_distinct<K: Key>(s: Seq<K::V>)
    requires
        ascending::<K>(s),
    ensures
        s.no_duplicates(),
{
    assert forall|i: int, j: int| 0 <= i < s.len() && 0 <= j < s.len() && i != j implies s[i]
        != s[j] by {
        K::before_irreflexive(s[i]);
        if i < j {
            assert(K::before(s[i], s[j]));
        } else {
            assert(K::before(s[j], s[i]));
        }
    }
}

pub proof fn lemma_gap_absent<K: Key>(s: Seq<K::V>, i: int, k: K::V)
    requires
        gap_at::<K>(s, i, k),
    ensures
        !s.contains(k),
{
    K::before_irreflexive(k);
    if s.contains(k) {
        let j = s.index_of(k);
        assert(s[j] == k);
        if j < i {
            assert(K::before(s[j], k));
        } else {
            assert(K::before(k, s[j]));
        }
    }
}

proof fn lemma_insert<K: Key>(s: Seq<K::V>, i: int, k: K::V)
    requires
        ascending::<K>(s),
        gap_at::<K>(s, i, k),
    ensures
        ascending::<K>(s.insert(i, k)),
        s.insert(i, k).to_set() == s.to_set().insert(k),
{
    let t = s.insert(i, k);
    assert forall|a: int, b: int| 0 <= a < b < t.len() implies K::before(
        #[trigger] t[a],
        #[trigger] t[b],
    ) by {
        let sa = if a < i { a } else { a - 1 };
        let sb = if b < i { b } else { b - 1 };
        if a == i {
            assert(t[b] == s[sb]);
        } else if b == i {
            assert(t[a] == s[sa]);
        } else {
            assert(t[a] == s[sa]);
            assert(t[b] == s[sb]);
        }
    }
    assert forall|x: K::V| t.contains(x) == s.to_set().insert(k).contains(x) by {
        if t.contains(x) {
            let j = t.index_of(x);
            assert(t[j] == x);
            if j < i {
                assert(s[j] == x);
            } else if j > i {
                assert(s[j - 1] == x);
            }
        }
        if s.contains(x) {
            let j = s.index_of(x);
            assert(s[j] == x);
            if j < i {
                assert(t[j] == x);
            } else {
                assert(t[j + 1] == x);
            }
        }
        if x == k {
            assert(t[i] == k);
        }
    }
    assert(t.to_set() =~= s.to_set().insert(k));
}

proof fn lemma_remove<K: Key>(s: Seq<K::V>, i: int)
    requires
        ascending::<K>(s),
        0 <= i < s.len(),
    ensures
        ascending::<K>(s.remove(i)),
        s.remove(i).to_set() == s.to_set().remove(s[i]),
{
    let t = s.remove(i);
    lemma_ascending_distinct::<K>(s);
    assert forall|a: int, b: int| 0 <= a < b < t.len() implies K::before(
        #[trigger] t[a],
        #[trigger] t[b],
    ) by {
        let sa = if a < i { a } else { a + 1 };
        let sb = if b < i { b } else { b + 1 };
        assert(t[a] == s[sa]);
        assert(t[b] == s[sb]);
    }
    assert forall|x: K::V| t.contains(x) == s.to_set().remove(s[i]).contains(x) by {
        if t.contains(x) {
            let j = t.index_of(x);
            assert(t[j] == x);
            if j < i {
                assert(s[j] == x);
            } else {
                assert(s[j + 1] == x);
            }
        }
        if s.contains(x) && x != s[i] {
            let j = s.index_of(x);
            assert(s[j] == x);
            if j < i {
                assert(t[j] == x);
            } else {
                assert(t[j - 1] == x);
            }
        }
    }
    assert(t.to_set() =~= s.to_set().remove(s[i]));
}

proof fn lemma_map_index<K: Key, B>(ks: Seq<K::V>, vs: Seq<B>, i: int)
    requires
        ascending::<K>(ks),
        0 <= i < ks.len(),
    ensures
        map_of(ks, vs).contains_key(ks[i]),
        map_of(ks, vs)[ks[i]] == vs[i],
{
    lemma_ascending_distinct::<K>(ks);
    assert(ks.contains(ks[i]));
    assert(ks.index_of(ks[i]) == i);
}

proof fn lemma_map_insert<K: Key, B>(ks: Seq<K::V>, vs: Seq<B>, i: int, k: K::V, v: B)
    requires
        ascending::<K>(ks),
        ks.len() == vs.len(),
        gap_at::<K>(ks, i, k),
    ensures
        map_of(ks.insert(i, k), vs.insert(i, v)) == map_of(ks, vs).insert(k, v),
        !map_of(ks, vs).contains_key(k),
{
    lemma_gap_absent::<K>(ks, i, k);
    lemma_insert::<K>(ks, i, k);
    let kt = ks.insert(i, k);
    let vt = vs.insert(i, v);
    let l = map_of(kt, vt);
    let r = map_of(ks, vs).insert(k, v);
    assert forall|x: K::V| l.contains_key(x) == r.contains_key(x) by {
        assert(kt.to_set().contains(x) == ks.to_set().insert(k).contains(x));
    }
    assert forall|x: K::V| l.contains_key(x) implies l[x] == r[x] by {
        let j = kt.index_of(x);
        assert(kt[j] == x);
        lemma_map_index::<K, B>(kt, vt, j);
        if j < i {
            lemma_map_index::<K, B>(ks, vs, j);
        } else if j > i {
            lemma_map_index::<K, B>(ks, vs, j - 1);
        }
    }
    assert(l =~= r);
}

proof fn lemma_map_update<K: Key, B>(ks: Seq<K::V>, vs: Seq<B>, i: int, v: B)
    requires
        ascending::<K>(ks),
        ks.len() == vs.len(),
        0 <= i < ks.len(),
    ensures
        map_of(ks, vs.update(i, v)) == map_of(ks, vs).insert(ks[i], v),
{
    let l = map_of(ks, vs.update(i, v));
    let r = map_of(ks, vs).insert(ks[i], v);
    lemma_ascending_distinct::<K>(ks);
    assert(ks.contains(ks[i]));
    assert forall|x: K::V| l.contains_key(x) implies l[x] == r[x] by {
        let j = ks.index_of(x);
        assert(ks[j] == x);
    }
    assert(l =~= r);
}

proof fn lemma_map_remove<K: Key, B>(ks: Seq<K::V>, vs: Seq<B>, i: int)
    requires
        ascending::<K>(ks),
        ks.len() == vs.len(),
        0 <= i < ks.len(),
    ensures
        map_of(ks.remove(i), vs.remove(i)) == map_of(ks, vs).remove(ks[i]),
{
    lemma_remove::<K>(ks, i);
    let kt = ks.remove(i);
    let vt = vs.remove(i);
    let l = map_of(kt, vt);
    let r = map_of(ks, vs).remove(ks[i]);
    assert forall|x: K::V| l.contains_key(x) == r.contains_key(x) by {
        assert(kt.to_set().contains(x) == ks.to_set().remove(ks[i]).contains(x));
    }
    assert forall|x: K::V| l.contains_key(x) implies l[x] == r[x] by {
        let j = kt.index_of(x);
        assert(kt[j] == x);
        lemma_map_index::<K, B>(kt, vt, j);
        if j < i {
            lemma_map_index::<K, B>(ks, vs, j);
        } else {
            lemma_map_index::<K, B>(ks, vs, j + 1);
        }
    }
    assert(l =~= r);
}

/// A set has one ascending listing.
pub proof fn lemma_ascending_unique<K: Key>(a: Seq<K::V>, b: Seq<K::V>)
    requires
        ascending::<K>(a),
        ascending::<K>(b),
        a.to_set() == b.to_set(),
    ensures
        a == b,
    decreases a.len(),
{
    if a.len() == 0 {
        if b.len() > 0 {
            assert(b.to_set().contains(b[0]));
            assert(a.to_set().contains(b[0]));
        }
        assert(a =~= b);
    } else {
        assert(a.to_set().contains(a[0]));
        assert(b.to_set().contains(a[0]));
        let x = a.last();
        let y = b.last();
        assert(a.to_set().contains(x));
        assert(b.to_set().contains(y));
        assert(a.contains(y));
        assert(b.contains(x));
        let i = a.index_of(y);
        let j = b.index_of(x);
        if x != y {
            assert(K::before(a[i], a[a.len() - 1]));
            assert(K::before(b[j], b[b.len() - 1]));
            K::before_transitive(x, y, x);
            K::before_irreflexive(x);
        }
        lemma_remove::<K>(a, a.len() - 1);
        lemma_remove::<K>(b, b.len() - 1);
        assert(a.remove(a.len() - 1) =~= a.drop_last());
        assert(b.remove(b.len() - 1) =~= b.drop_last());
        lemma_ascending_unique::<K>(a.drop_last(), b.drop_last());
        assert(a =~= a.drop_last().push(x));
        assert(b =~= b.drop_last().push(y));
    }
}

pub proof fn lemma_to_set_push<A>(s: Seq<A>, x: A)
    ensures
        s.push(x).to_set() == s.to_set().insert(x),
{
    let t = s.push(x);
    assert forall|y: A| #[trigger] t.contains(y) == (s.contains(y) || y == x) by {
        assert(t[s.len() as int] == x);
        if s.contains(y) {
            let j = s.index_of(y);
            assert(t[j] == y);
        }
    }
    assert(t.to_set() =~= s.to_set().insert(x));
}

/// The ascending listing of a finite set.
pub open spec fn listing<K: Key>(s: Set<K::V>) -> Seq<K::V> {
    choose|l: Seq<K::V>| ascending::<K>(l) && l.to_set() == s
}

pub proof fn lemma_listing<K: Key>(l: Seq<K::V>)
    requires
        ascending::<K>(l),
    ensures
        listing::<K>(l.to_set()) == l,
{
    let m = listing::<K>(l.to_set());
    lemma_ascending_unique::<K>(m, l);
}

proof fn lemma_gap<K: Key>(s: Seq<K::V>, k: K::V) -> (i: int)
    requires
        ascending::<K>(s),
        !s.contains(k),
    ensures
        gap_at::<K>(s, i, k),
    decreases s.len(),
{
    if s.len() == 0 {
        0
    } else {
        let rest = s.drop_last();
        let n: int = s.len() - 1;
        assert forall|a: int, b: int| 0 <= a < b < rest.len() implies K::before(
            #[trigger] rest[a],
            #[trigger] rest[b],
        ) by {
            assert(K::before(s[a], s[b]));
        }
        assert(s.contains(s[n]));
        K::before_total(k, s[n]);
        if K::before(k, s[n]) {
            if rest.contains(k) {
                let j = rest.index_of(k);
                assert(s[j] == k);
            }
            let i = lemma_gap::<K>(rest, k);
            assert forall|j: int| 0 <= j < i implies K::before(#[trigger] s[j], k) by {
                assert(rest[j] == s[j]);
            }
            assert forall|j: int| i <= j < s.len() implies K::before(k, #[trigger] s[j]) by {
                if j < n {
                    assert(rest[j] == s[j]);
                }
            }
            i
        } else {
            assert forall|j: int| 0 <= j < s.len() implies K::before(#[trigger] s[j], k) by {
                if j < n {
                    assert(K::before(s[j], s[n]));
                    K::before_transitive(s[j], s[n], k);
                }
            }
            s.len() as int
        }
    }
}

/// A finite set has an ascending listing.
pub proof fn lemma_listing_exists<K: Key>(s: Set<K::V>)
    requires
        s.finite(),
    ensures
        ascending::<K>(listing::<K>(s)),
        listing::<K>(s).to_set() == s,
    decreases s.len(),
{
    if s.len() == 0 {
        let l = Seq::<K::V>::empty();
        assert(l.to_set() =~= s);
        lemma_listing::<K>(l);
    } else {
        let k = s.choose();
        let rest = s.remove(k);
        lemma_listing_exists::<K>(rest);
        let l = listing::<K>(rest);
        assert(!l.to_set().contains(k));
        let i = lemma_gap::<K>(l, k);
        lemma_insert::<K>(l, i, k);
        assert(rest.insert(k) =~= s);
        lemma_listing::<K>(l.insert(i, k));
    }
}

/// The part of an ascending listing before an index, and the item at the index.
pub proof fn lemma_prefix_step<K: Key>(s: Seq<K::V>, i: int)
    requires
        ascending::<K>(s),
        0 <= i < s.len(),
    ensures
        s.take(i + 1).to_set() == s.take(i).to_set().insert(s[i]),
        !s.take(i).to_set().contains(s[i]),
        s.to_set().contains(s[i]),
{
    lemma_ascending_distinct::<K>(s);
    assert(s.take(i + 1) =~= s.take(i).push(s[i]));
    assert forall|x: K::V|
        s.take(i + 1).contains(x) == s.take(i).to_set().insert(s[i]).contains(x) by {
        if s.take(i + 1).contains(x) {
            let j = s.take(i + 1).index_of(x);
            assert(s.take(i + 1)[j] == x);
            if j < i {
                assert(s.take(i)[j] == x);
            }
        }
        if s.take(i).contains(x) {
            let j = s.take(i).index_of(x);
            assert(s.take(i)[j] == x);
            assert(s.take(i + 1)[j] == x);
        }
        if x == s[i] {
            assert(s.take(i + 1)[i] == x);
        }
    }
    assert(s.take(i + 1).to_set() =~= s.take(i).to_set().insert(s[i]));
    if s.take(i).contains(s[i]) {
        let j = s.take(i).index_of(s[i]);
        assert(s.take(i)[j] == s[i]);
        assert(s[j] == s[i]);
    }
    assert(s.contains(s[i]));
}

/// Finds a key in an ascending vector, or the place where it belongs.
fn search<K: Key>(keys: &Vec<K>, key: &K) -> (r: Result<usize, usize>)
    requires
        ascending::<K>(views(keys@)),
    ensures
        match r {
            Ok(i) => i < keys@.len() && views(keys@)[i as int] == key@,
            Err(i) => gap_at::<K>(views(keys@), i as int, key@),
        },
{
    let ghost ks = views(keys@);
    let mut lo: usize = 0;
    let mut hi: usize = keys.len();
    while lo < hi
        invariant
            lo <= hi <= keys@.len(),
            ks == views(keys@),
            ascending::<K>(ks),
            forall|j: int| 0 <= j < lo ==> K::before(#[trigger] ks[j], key@),
            forall|j: int| hi <= j < ks.len() ==> K::before(key@, #[trigger] ks[j]),
        decreases hi - lo,
    {
        let mid: usize = lo + (hi - lo) / 2;
        match keys[mid].order(key) {
            KeyOrder::Less => {
                proof {
                    assert forall|j: int| 0 <= j < mid + 1 implies K::before(
                        #[trigger] ks[j],
                        key@,
                    ) by {
                        if j < mid {
                            assert(K::before(ks[j], ks[mid as int]));
                            K::before_transitive(ks[j], ks[mid as int], key@);
                        }
                    }
                }
                lo = mid + 1;
            },
            KeyOrder::Equal => {
                return Ok(mid);
            },
            KeyOrder::Greater => {
                proof {
                    assert forall|j: int| mid <= j < ks.len() implies K::before(
                        key@,
                        #[trigger] ks[j],
                    ) by {
                        if j > mid {
                            assert(K::before(ks[mid as int], ks[j]));
                            K::before_transitive(key@, ks[mid as int], ks[j]);
                        }
                    }
                }
                hi = mid;
            },
        }
    }
    Err(lo)
}

/// A map from keys to values.
pub struct OrderedMap<K: Key, V: View> {
    keys: Vec<K>,
    values: Vec<V>,
}

impl<K: Key, V: View> View for OrderedMap<K, V> {
    type V = Map<K::V, V::V>;

    closed spec fn view(&self) -> Map<K::V, V::V> {
        map_of(views(self.keys@), views(self.values@))
    }
}

impl<K: Key, V: View> OrderedMap<K, V> {
    #[verifier::type_invariant]
    spec fn inv(self) -> bool {
        &&& self.keys@.len() == self.values@.len()
        &&& ascending::<K>(views(self.keys@))
    }

    /// The keys in ascending order.
    pub closed spec fn list(&self) -> Seq<K::V> {
        views(self.keys@)
    }

    pub fn new() -> (r: Self)
        ensures
            r@ == Map::<K::V, V::V>::empty(),
    {
        let r = OrderedMap { keys: Vec::new(), values: Vec::new() };
        assert(r@ =~= Map::<K::V, V::V>::empty());
        r
    }

    /// The number of entries.
    pub fn len(&self) -> (n: usize)
        ensures
            n == self.list().len(),
            ascending::<K>(self.list()),
            self.list().to_set() == self@.dom(),
            self.list() == listing::<K>(self@.dom()),
    {
        proof {
            use_type_invariant(self);
            assert(self.list().to_set() =~= self@.dom());
            lemma_listing::<K>(self.list());
        }
        self.keys.len()
    }

    /// The values, in the order of their keys.
    pub fn into_values(self) -> (r: Vec<V>)
        ensures
            r@.len() == listing::<K>(self@.dom()).len(),
            forall|i: int|
                0 <= i < r@.len() ==> (#[trigger] r@[i])@ == self@[listing::<K>(self@.dom())[i]],
    {
        let n: usize = self.len();
        let ghost m = self@;
        let ghost ks = views(self.keys@);
        let ghost vs = views(self.values@);
        proof {
            use_type_invariant(&self);
            assert forall|i: int| 0 <= i < ks.len() implies m[#[trigger] ks[i]] == vs[i] by {
                lemma_map_index::<K, V::V>(ks, vs, i);
            }
        }
        let OrderedMap { keys, values } = self;
        assert(ks == views(keys@) && vs == views(values@));
        assert forall|i: int| 0 <= i < values@.len() implies (#[trigger] values@[i])@ == m[ks[i]] by {
            assert(vs[i] == values@[i]@);
        }
        values
    }

    /// The key at a place of the listing.
    pub fn key_at(&self, i: usize) -> (k: &K)
        requires
            i < self.list().len(),
        ensures
            k@ == self.list()[i as int],
            self@.contains_key(k@),
    {
        proof {
            use_type_invariant(self);
            lemma_map_index::<K, V::V>(views(self.keys@), views(self.values@), i as int);
        }
        &self.keys[i]
    }

    pub fn contains_key(&self, key: &K) -> (b: bool)
        ensures
            b == self@.contains_key(key@),
    {
        proof {
            use_type_invariant(self);
        }
        let ghost ks = views(self.keys@);
        match search(&self.keys, key) {
            Ok(i) => {
                proof {
                    lemma_map_index::<K, V::V>(ks, views(self.values@), i as int);
                }
                true
            },
            Err(i) => {
                proof {
                    lemma_gap_absent::<K>(ks, i as int, key@);
                }
                false
            },
        }
    }

    pub fn get(&self, key: &K) -> (r: Option<&V>)
        ensures
            match r {
                Some(v) => self@.contains_key(key@) && v@ == self@[key@],
                None => !self@.contains_key(key@),
            },
    {
        proof {
            use_type_invariant(self);
        }
        let ghost ks = views(self.keys@);
        match search(&self.keys, key) {
            Ok(i) => {
                proof {
                    lemma_map_index::<K, V::V>(ks, views(self.values@), i as int);
                }
                Some(&self.values[i])
            },
            Err(i) => {
                proof {
                    lemma_gap_absent::<K>(ks, i as int, key@);
                }
                None
            },
        }
    }

    /// The value of a key, open for change.
    pub fn get_mut(&mut self, key: &K) -> (r: Option<&mut V>)
        ensures
            match r {
                Some(v) => {
                    &&& old(self)@.contains_key(key@)
                    &&& v@ == old(self)@[key@]
                    &&& final(self)@ == old(self)@.insert(key@, final(v)@)
                },
                None => !old(self)@.contains_key(key@) && final(self)@ == old(self)@,
            },
    {
        proof {
            use_type_invariant(&*self);
        }
        let ghost ks = views(self.keys@);
        let ghost vs = self.values@;
        match search(&self.keys, key) {
            Ok(i) => {
                proof {
                    lemma_map_index::<K, V::V>(ks, views(vs), i as int);
                    assert forall|v: V| map_of(ks, #[trigger] views(vs.update(i as int, v)))
                        == map_of(ks, views(vs)).insert(key@, v@) by {
                        lemma_map_update::<K, V::V>(ks, views(vs), i as int, v@);
                        assert(views(vs.update(i as int, v)) =~= views(vs).update(i as int, v@));
                    }
                }
                Some(&mut self.values[i])
            },
            Err(i) => {
                proof {
                    lemma_gap_absent::<K>(ks, i as int, key@);
                }
                None
            },
        }
    }

    /// Sets the value of a key; returns the value that it had.
    pub fn insert(&mut self, key: K, value: V) -> (r: Option<V>)
        ensures
            final(self)@ == old(self)@.insert(key@, value@),
            match r {
                Some(v) => old(self)@.contains_key(key@) && v@ == old(self)@[key@],
                None => !old(self)@.contains_key(key@),
            },
    {
        proof {
            use_type_invariant(&*self);
        }
        let ghost ks = views(self.keys@);
        let ghost vs = views(self.values@);
        let mut taken = OrderedMap::new();
        std::mem::swap(&mut taken, self);
        let OrderedMap { mut keys, mut values } = taken;
        let found = search(&keys, &key);
        let r = match found {
            Ok(i) => {
                proof {
                    lemma_map_index::<K, V::V>(ks, vs, i as int);
                    lemma_map_update::<K, V::V>(ks, vs, i as int, value@);
                }
                let mut slot = value;
                std::mem::swap(&mut slot, &mut values[i]);
                assert(views(values@) =~= vs.update(i as int, value@));
                Some(slot)
            },
            Err(i) => {
                proof {
                    lemma_map_insert::<K, V::V>(ks, vs, i as int, key@, value@);
                    lemma_insert::<K>(ks, i as int, key@);
                }
                keys.insert(i, key);
                values.insert(i, value);
                assert(views(keys@) =~= ks.insert(i as int, key@));
                assert(views(values@) =~= vs.insert(i as int, value@));
                None
            },
        };
        *self = OrderedMap { keys, values };
        r
    }

    /// Takes out the entry of a key.
    pub fn remove(&mut self, key: &K) -> (r: Option<V>)
        ensures
            final(self)@ == old(self)@.remove(key@),
            match r {
                Some(v) => old(self)@.contains_key(key@) && v@ == old(self)@[key@],
                None => !old(self)@.contains_key(key@),
            },
    {
        proof {
            use_type_invariant(&*self);
        }
        let ghost ks = views(self.keys@);
        let ghost vs = views(self.values@);
        match search(&self.keys, key) {
            Ok(i) => {
                proof {
                    lemma_map_index::<K, V::V>(ks, vs, i as int);
                    lemma_map_remove::<K, V::V>(ks, vs, i as int);
                    lemma_remove::<K>(ks, i as int);
                }
                let mut taken = OrderedMap::new();
                std::mem::swap(&mut taken, self);
                let OrderedMap { mut keys, mut values } = taken;
                keys.remove(i);
                let v = values.remove(i);
                assert(views(keys@) =~= ks.remove(i as int));
                assert(views(values@) =~= vs.remove(i as int));
                *self = OrderedMap { keys, values };
                Some(v)
            },
            Err(i) => {
                proof {
                    lemma_gap_absent::<K>(ks, i as int, key@);
                    assert(self@ =~= self@.remove(key@));
                }
                None
            },
        }
    }
}

/// A set of keys.
pub struct OrderedSet<K: Key> {
    items: Vec<K>,
}

impl<K: Key> View for OrderedSet<K> {
    type V = Set<K::V>;

    closed spec fn view(&self) -> Set<K::V> {
        views(self.items@).to_set()
    }
}

impl<K: Key> OrderedSet<K> {
    #[verifier::type_invariant]
    spec fn inv(self) -> bool {
        ascending::<K>(views(self.items@))
    }

    /// The items in ascending order.
    pub closed spec fn list(&self) -> Seq<K::V> {
        views(self.items@)
    }

    pub fn new() -> (r: Self)
        ensures
            r@ == Set::<K::V>::empty(),
    {
        let r = OrderedSet { items: Vec::new() };
        assert(r@ =~= Set::<K::V>::empty());
        r
    }

    /// The number of items.
    pub fn len(&self) -> (n: usize)
        ensures
            n == self.list().len(),
            ascending::<K>(self.list()),
            self.list().to_set() == self@,
            self.list() == listing::<K>(self@),
    {
        proof {
            use_type_invariant(self);
            lemma_listing::<K>(self.list());
        }
        self.items.len()
    }

    pub fn is_empty(&self) -> (b: bool)
        ensures
            b == (self@ == Set::<K::V>::empty()),
    {
        proof {
            let s = views(self.items@);
            if s.len() > 0 {
                assert(s.to_set().contains(s[0]));
            } else {
                assert(self@ =~= Set::<K::V>::empty());
            }
        }
        self.items.len() == 0
    }

    /// The item at a place of the listing.
    pub fn item_at(&self, i: usize) -> (k: &K)
        requires
            i < self.list().len(),
        ensures
            k@ == self.list()[i as int],
            self@.contains(k@),
    {
        assert(views(self.items@).contains(self.items@[i as int]@)) by {
            assert(views(self.items@)[i as int] == self.items@[i as int]@);
        }
        &self.items[i]
    }

    pub fn contains(&self, key: &K) -> (b: bool)
        ensures
            b == self@.contains(key@),
    {
        proof {
            use_type_invariant(self);
        }
        let ghost ks = views(self.items@);
        match search(&self.items, key) {
            Ok(i) => {
                assert(ks[i as int] == key@);
                true
            },
            Err(i) => {
                proof {
                    lemma_gap_absent::<K>(ks, i as int, key@);
                }
                false
            },
        }
    }

    /// Puts an item in; says whether it is new.
    pub fn insert(&mut self, key: K) -> (b: bool)
        ensures
            final(self)@ == old(self)@.insert(key@),
            b == !old(self)@.contains(key@),
    {
        proof {
            use_type_invariant(&*self);
        }
        let ghost ks = views(self.items@);
        match search(&self.items, &key) {
            Ok(i) => {
                assert(ks[i as int] == key@);
                assert(self@ =~= self@.insert(key@));
                false
            },
            Err(i) => {
                proof {
                    lemma_gap_absent::<K>(ks, i as int, key@);
                    lemma_insert::<K>(ks, i as int, key@);
                }
                let mut taken = OrderedSet::new();
                std::mem::swap(&mut taken, self);
                let OrderedSet { mut items } = taken;
                items.insert(i, key);
                assert(views(items@) =~= ks.insert(i as int, key@));
                *self = OrderedSet { items };
                true
            },
        }
    }

    /// Takes an item out; says whether it was there.
    pub fn remove(&mut self, key: &K) -> (b: bool)
        ensures
            final(self)@ == old(self)@.remove(key@),
            b == old(self)@.contains(key@),
    {
        proof {
            use_type_invariant(&*self);
        }
        let ghost ks = views(self.items@);
        match search(&self.items, key) {
            Ok(i) => {
                assert(ks[i as int] == key@);
                proof {
                    lemma_remove::<K>(ks, i as int);
                }
                let mut taken = OrderedSet::new();
                std::mem::swap(&mut taken, self);
                let OrderedSet { mut items } = taken;
                items.remove(i);
                assert(views(items@) =~= ks.remove(i as int));
                *self = OrderedSet { items };
                true
            },
            Err(i) => {
                proof {
                    lemma_gap_absent::<K>(ks, i as int, key@);
                    assert(self@ =~= self@.remove(key@));
                }
                false
            },
        }
    }

    /// A second set with the same items.
    pub fn duplicate(&self) -> (r: Self)
        ensures
            r@ == self@,
            r.list() == self.list(),
    {
        proof {
            use_type_invariant(self);
        }
        let mut items: Vec<K> = Vec::new();
        let mut i: usize = 0;
        while i < self.items.len()
            invariant
                i <= self.items@.len(),
                items@.len() == i,
                forall|j: int| 0 <= j < i ==> (#[trigger] items@[j])@ == self.items@[j]@,
            decreases self.items@.len() - i,
        {
            items.push(self.items[i].duplicate());
            i += 1;
        }
        assert(views(items@) =~= views(self.items@));
        OrderedSet { items }
    }

    /// Whether two sets have the same items.
    pub fn same(&self, other: &Self) -> (b: bool)
        ensures
            b == (self@ == other@),
    {
        proof {
            use_type_invariant(self);
            use_type_invariant(other);
        }
        let ghost a = views(self.items@);
        let ghost c = views(other.items@);
        proof {
            if self@ == other@ {
                lemma_ascending_unique::<K>(a, c);
            }
        }
        if self.items.len() != other.items.len() {
            assert(a.len() != c.len());
            return false;
        }
        let mut i: usize = 0;
        while i < self.items.len()
            invariant
                i <= self.items@.len(),
                self.items@.len() == other.items@.len(),
                a == views(self.items@),
                c == views(other.items@),
                self@ == other@ ==> a == c,
                forall|j: int| 0 <= j < i ==> a[j] == c[j],
            decreases self.items@.len() - i,
        {
            match self.items[i].order(&other.items[i]) {
                KeyOrder::Equal => {},
                KeyOrder::Less => {
                    proof {
                        K::before_irreflexive(a[i as int]);
                    }
                    return false;
                },
                KeyOrder::Greater => {
                    proof {
                        K::before_irreflexive(a[i as int]);
                    }
                    return false;
                },
            }
            i += 1;
        }
        assert(a =~= c);
        true
    }

    /// Leaves the items before `key` and returns the others.
    pub fn split_off(&mut self, key: &K) -> (r: Self)
        ensures
            final(self)@ == old(self)@.filter(|k: K::V| K::before(k, key@)),
            r@ == old(self)@.filter(|k: K::V| !K::before(k, key@)),
    {
        proof {
            use_type_invariant(&*self);
        }
        let ghost ks = views(self.items@);
        let found = search(&self.items, key);
        let at: usize = match found {
            Ok(i) => i,
            Err(i) => i,
        };
        let mut taken = OrderedSet::new();
        std::mem::swap(&mut taken, self);
        let OrderedSet { mut items } = taken;
        let tail = items.split_off(at);
        let ghost lo = views(items@);
        let ghost hi = views(tail@);
        proof {
            assert(lo =~= ks.take(at as int));
            assert(hi =~= ks.skip(at as int));
            assert forall|j: int| 0 <= j < at implies K::before(#[trigger] ks[j], key@) by {
                if found is Ok {
                    assert(K::before(ks[j], ks[at as int]));
                }
            }
            assert forall|j: int| at <= j < ks.len() implies !K::before(#[trigger] ks[j], key@) by {
                K::before_irreflexive(key@);
                if K::before(ks[j], key@) {
                    if j > at || found is Err {
                        assert(K::before(key@, ks[j])) by {
                            if found is Ok {
                                assert(K::before(ks[at as int], ks[j]));
                            }
                        }
                        K::before_transitive(ks[j], key@, ks[j]);
                        K::before_irreflexive(ks[j]);
                    }
                }
            }
            let below = ks.to_set().filter(|k: K::V| K::before(k, key@));
            let rest = ks.to_set().filter(|k: K::V| !K::before(k, key@));
            assert forall|x: K::V| lo.contains(x) == below.contains(x) by {
                if lo.contains(x) {
                    let j = lo.index_of(x);
                    assert(ks[j] == x);
                }
                if below.contains(x) {
                    let j = ks.index_of(x);
                    assert(ks[j] == x);
                    assert(lo[j] == x);
                }
            }
            assert forall|x: K::V| hi.contains(x) == rest.contains(x) by {
                if hi.contains(x) {
                    let j = hi.index_of(x);
                    assert(hi[j] == x);
                    assert(ks[j + at] == x);
                }
                if rest.contains(x) {
                    let j = ks.index_of(x);
                    assert(ks[j] == x);
                    assert(hi[j - at] == x);
                }
            }
            assert(lo.to_set() =~= below);
            assert(hi.to_set() =~= rest);
        }
        *self = OrderedSet { items };
        OrderedSet { items: tail }
    }
}

} // verus!
