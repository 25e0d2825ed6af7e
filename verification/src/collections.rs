//! Ordered sets and maps backed by a sorted vector.
//!
//! Both collections keep their keys strictly ascending, so walking one by
//! index visits its keys in order, each once.

use vstd::prelude::*;

verus! {

/// A key type with a strict total order that is decided on its view.
pub trait SortKey: View + Sized {
    /// `a` comes strictly before `b`.
    spec fn before(a: Self::V, b: Self::V) -> bool;

    proof fn before_irreflexive(a: Self::V)
        ensures
            !Self::before(a, a),
    ;

    proof fn before_transitive(a: Self::V, b: Self::V, c: Self::V)
        requires
            Self::before(a, b),
            Self::before(b, c),
        ensures
            Self::before(a, c),
    ;

    proof fn before_total(a: Self::V, b: Self::V)
        ensures
            a == b || Self::before(a, b) || Self::before(b, a),
    ;

    fn is_before(&self, other: &Self) -> (r: bool)
        ensures
            r == Self::before(self@, other@),
    ;

    fn same_key(&self, other: &Self) -> (r: bool)
        ensures
            r == (self@ == other@),
    ;

    fn duplicate(&self) -> (r: Self)
        ensures
            r@ == self@,
    ;
}

impl SortKey for u64 {
    open spec fn before(a: u64, b: u64) -> bool {
        a < b
    }

    proof fn before_irreflexive(a: u64) {
    }

    proof fn before_transitive(a: u64, b: u64, c: u64) {
    }

    proof fn before_total(a: u64, b: u64) {
    }

    fn is_before(&self, other: &u64) -> (r: bool) {
        *self < *other
    }

    fn same_key(&self, other: &u64) -> (r: bool) {
        *self == *other
    }

    fn duplicate(&self) -> (r: u64) {
        *self
    }
}

impl SortKey for usize {
    open spec fn before(a: usize, b: usize) -> bool {
        a < b
    }

    proof fn before_irreflexive(a: usize) {
    }

    proof fn before_transitive(a: usize, b: usize, c: usize) {
    }

    proof fn before_total(a: usize, b: usize) {
    }

    fn is_before(&self, other: &usize) -> (r: bool) {
        *self < *other
    }

    fn same_key(&self, other: &usize) -> (r: bool) {
        *self == *other
    }

    fn duplicate(&self) -> (r: usize) {
        *self
    }
}

/// The keys of `s` are strictly ascending.
pub open spec fn ascending<K: SortKey>(s: Seq<K::V>) -> bool {
    forall|i: int, j: int|
        0 <= i < j < s.len() ==> #[trigger] K::before(#[trigger] s[i], #[trigger] s[j])
}

/// Two strictly ascending sequences over the same keys are the same sequence.
pub proof fn lemma_ascending_unique<K: SortKey>(s: Seq<K::V>, t: Seq<K::V>)
    requires
        ascending::<K>(s),
        ascending::<K>(t),
        s.to_set() == t.to_set(),
    ensures
        s == t,
    decreases s.len(),
{
    if s.len() == 0 {
        if t.len() > 0 {
            assert(t.to_set().contains(t[0]));
            assert(s.to_set().contains(t[0]));
        }
        assert(s =~= t);
    } else {
        let m = s.last();
        assert(s.to_set().contains(m));
        assert(t.to_set().contains(m));
        let j = choose|j: int| 0 <= j < t.len() && t[j] == m;
        if j < t.len() - 1 {
            let n = t.last();
            assert(t.to_set().contains(n));
            assert(s.to_set().contains(n));
            let i = choose|i: int| 0 <= i < s.len() && s[i] == n;
            assert(K::before(t[j], t[t.len() - 1]));
            if i < s.len() - 1 {
                assert(K::before(s[i], s[s.len() - 1]));
                K::before_transitive(m, n, m);
            }
            K::before_irreflexive(m);
        }
        let s1 = s.drop_last();
        let t1 = t.drop_last();
        assert(forall|x: K::V| #[trigger] s1.to_set().contains(x) ==> t1.to_set().contains(x)) by {
            assert forall|x: K::V| #[trigger] s1.to_set().contains(x) implies t1.to_set().contains(
                x,
            ) by {
                lemma_drop_last_members::<K>(s, t, x);
            }
        }
        assert(forall|x: K::V| #[trigger] t1.to_set().contains(x) ==> s1.to_set().contains(x)) by {
            assert forall|x: K::V| #[trigger] t1.to_set().contains(x) implies s1.to_set().contains(
                x,
            ) by {
                lemma_drop_last_members::<K>(t, s, x);
            }
        }
        assert(s1.to_set() =~= t1.to_set());
        lemma_ascending_unique::<K>(s1, t1);
        assert(s =~= s1.push(m));
        assert(t =~= t1.push(m));
    }
}

/// The elements of `s` in ascending order.
pub open spec fn sorted<K: SortKey>(s: Set<K::V>) -> Seq<K::V> {
    choose|q: Seq<K::V>| ascending::<K>(q) && q.to_set() == s
}

/// An ascending sequence is the sorted one of its elements.
pub proof fn lemma_sorted<K: SortKey>(q: Seq<K::V>)
    requires
        ascending::<K>(q),
    ensures
        sorted::<K>(q.to_set()) == q,
{
    let t = sorted::<K>(q.to_set());
    assert(ascending::<K>(q) && q.to_set() == q.to_set());
    lemma_ascending_unique::<K>(t, q);
}

/// Every finite set has its elements in ascending order.
pub proof fn lemma_sorted_of_finite<K: SortKey>(s: Set<K::V>)
    requires
        s.finite(),
    ensures
        ascending::<K>(sorted::<K>(s)),
        sorted::<K>(s).to_set() == s,
    decreases s.len(),
{
    if s.len() == 0 {
        let q = Seq::<K::V>::empty();
        assert(q.to_set() =~= s);
        assert(ascending::<K>(q) && q.to_set() == s);
    } else {
        let x = s.choose();
        lemma_sorted_of_finite::<K>(s.remove(x));
        let q = sorted::<K>(s.remove(x));
        let p = lemma_split_exists::<K>(q, x);
        if q.contains(x) {
            assert(q.to_set().contains(x));
        }
        lemma_insert_ascending::<K>(q, p, x);
        let t = q.insert(p, x);
        assert(t.to_set() =~= s);
        assert(ascending::<K>(t) && t.to_set() == s);
    }
}

/// A set with one element more, after all others, has it last.
pub proof fn lemma_sorted_push<K: SortKey>(s: Set<K::V>, x: K::V)
    requires
        s.finite(),
        forall|y: K::V| #[trigger] s.contains(y) ==> K::before(y, x),
    ensures
        sorted::<K>(s.insert(x)) == sorted::<K>(s).push(x),
{
    lemma_sorted_of_finite::<K>(s);
    let q = sorted::<K>(s);
    let t = q.push(x);
    assert forall|i: int, j: int| 0 <= i < j < t.len() implies #[trigger] K::before(
        #[trigger] t[i],
        #[trigger] t[j],
    ) by {
        if j < q.len() {
            assert(K::before(q[i], q[j]));
        } else {
            assert(q.to_set().contains(q[i]));
        }
    }
    assert forall|y: K::V| t.to_set().contains(y) <==> s.insert(x).contains(y) by {
        if s.contains(y) {
            assert(q.to_set().contains(y));
            let i = choose|i: int| 0 <= i < q.len() && q[i] == y;
            assert(t[i] == y);
        }
        if t.to_set().contains(y) {
            let i = choose|i: int| 0 <= i < t.len() && t[i] == y;
            if i < q.len() {
                assert(q.to_set().contains(q[i]));
            }
        }
        assert(t[q.len() as int] == x);
    }
    assert(t.to_set() =~= s.insert(x));
    lemma_sorted::<K>(t);
}

/// Every key parts an ascending sequence somewhere.
proof fn lemma_split_exists<K: SortKey>(s: Seq<K::V>, key: K::V) -> (p: int)
    requires
        ascending::<K>(s),
    ensures
        splits_at::<K>(s, p, key),
    decreases s.len(),
{
    if s.len() == 0 {
        0
    } else if K::before(s.last(), key) {
        lemma_before_prefix::<K>(s, s.len() - 1, key);
        s.len() as int
    } else {
        let t = s.drop_last();
        assert(ascending::<K>(t)) by {
            assert forall|i: int, j: int| 0 <= i < j < t.len() implies #[trigger] K::before(
                #[trigger] t[i],
                #[trigger] t[j],
            ) by {
                assert(K::before(s[i], s[j]));
            }
        }
        let p = lemma_split_exists::<K>(t, key);
        assert forall|i: int| 0 <= i < p implies K::before(#[trigger] s[i], key) by {
            assert(t[i] == s[i]);
        }
        assert forall|i: int| p <= i < s.len() implies !K::before(#[trigger] s[i], key) by {
            if i < t.len() {
                assert(t[i] == s[i]);
            }
        }
        p
    }
}

proof fn lemma_drop_last_members<K: SortKey>(s: Seq<K::V>, t: Seq<K::V>, x: K::V)
    requires
        ascending::<K>(s),
        s.len() > 0,
        t.len() > 0,
        s.last() == t.last(),
        s.to_set() == t.to_set(),
        s.drop_last().to_set().contains(x),
    ensures
        t.drop_last().to_set().contains(x),
{
    let i = choose|i: int| 0 <= i < s.drop_last().len() && s.drop_last()[i] == x;
    assert(s[i] == x);
    assert(s.to_set().contains(x));
    assert(t.to_set().contains(x));
    let j = choose|j: int| 0 <= j < t.len() && t[j] == x;
    if j == t.len() - 1 {
        assert(K::before(s[i], s[s.len() - 1]));
        K::before_irreflexive(x);
    }
    assert(t.drop_last()[j] == x);
}

/// A set of keys, kept in ascending order.
#[derive(Debug, PartialEq, Eq)]
#[verifier::reject_recursive_types(K)]
pub struct OrdSet<K: SortKey> {
    items: Vec<K>,
}

impl<K: SortKey> View for OrdSet<K> {
    type V = Set<K::V>;

    open spec fn view(&self) -> Set<K::V> {
        self.ordered().to_set()
    }
}

impl<K: SortKey> OrdSet<K> {
    /// The keys in ascending order.
    pub closed spec fn ordered(&self) -> Seq<K::V> {
        self.items@.map_values(|k: K| k@)
    }

    #[verifier::type_invariant]
    pub closed spec fn inv(self) -> bool {
        ascending::<K>(self.ordered())
    }

    pub fn new() -> (r: Self)
        ensures
            r@ == Set::<K::V>::empty(),
            r.ordered() == Seq::<K::V>::empty(),
    {
        let r = OrdSet { items: Vec::new() };
        assert(r.ordered() =~= Seq::<K::V>::empty());
        assert(r@ =~= Set::<K::V>::empty());
        r
    }

    /// The number of keys; along with it, that the keys ascend.
    pub fn len(&self) -> (n: usize)
        ensures
            n == self.ordered().len(),
            n == self@.len(),
            self@.finite(),
            ascending::<K>(self.ordered()),
            self.ordered() == sorted::<K>(self@),
    {
        proof {
            use_type_invariant(&*self);
            lemma_sorted::<K>(self.ordered());
            lemma_ascending_no_duplicates::<K>(self.ordered());
            self.ordered().unique_seq_to_set();
        }
        self.items.len()
    }

    pub fn is_empty(&self) -> (r: bool)
        ensures
            r == (self@ == Set::<K::V>::empty()),
            r == (self.ordered().len() == 0),
    {
        proof {
            if self.ordered().len() > 0 {
                assert(self@.contains(self.ordered()[0]));
            } else {
                assert(self@ =~= Set::<K::V>::empty());
            }
        }
        self.items.len() == 0
    }

    /// The key at position `i` of the ascending order.
    pub fn at(&self, i: usize) -> (k: &K)
        requires
            i < self.ordered().len(),
        ensures
            k@ == self.ordered()[i as int],
            self@.contains(k@),
    {
        assert(self@.contains(self.ordered()[i as int]));
        &self.items[i]
    }

    /// The first position whose key does not come before `key`.
    fn lower_bound(&self, key: &K) -> (p: usize)
        ensures
            splits_at::<K>(self.ordered(), p as int, key@),
    {
        proof {
            use_type_invariant(&*self);
        }
        let mut lo: usize = 0;
        let mut hi: usize = self.items.len();
        while lo < hi
            invariant
                lo <= hi <= self.items.len(),
                ascending::<K>(self.ordered()),
                self.ordered().len() == self.items.len(),
                forall|i: int|
                    0 <= i < lo ==> K::before(#[trigger] self.ordered()[i], key@),
                forall|i: int|
                    hi <= i < self.ordered().len() ==> !K::before(#[trigger] self.ordered()[i], key@),
            decreases hi - lo,
        {
            let mid: usize = lo + (hi - lo) / 2;
            assert(self.ordered()[mid as int] == self.items[mid as int]@);
            if self.items[mid].is_before(key) {
                proof {
                    lemma_before_prefix::<K>(self.ordered(), mid as int, key@);
                }
                lo = mid + 1;
            } else {
                proof {
                    lemma_not_before_suffix::<K>(self.ordered(), mid as int, key@);
                }
                hi = mid;
            }
        }
        lo
    }

    pub fn contains(&self, key: &K) -> (r: bool)
        ensures
            r == self@.contains(key@),
    {
        proof {
            use_type_invariant(&*self);
        }
        let p = self.lower_bound(key);
        proof {
            lemma_found_at::<K>(self.ordered(), p as int, key@);
        }
        p < self.items.len() && self.items[p].same_key(key)
    }

    /// Adds `key`; answers whether it was absent before.
    pub fn insert(&mut self, key: K) -> (added: bool)
        ensures
            final(self)@ == old(self)@.insert(key@),
            added == !old(self)@.contains(key@),
    {
        proof {
            use_type_invariant(&*self);
        }
        let p = self.lower_bound(&key);
        let ghost before_keys = self.ordered();
        proof {
            lemma_found_at::<K>(before_keys, p as int, key@);
        }
        if p < self.items.len() && self.items[p].same_key(&key) {
            assert(self@ =~= old(self)@.insert(key@));
            return false;
        }
        let mut items: Vec<K> = Vec::new();
        std::mem::swap(&mut items, &mut self.items);
        items.insert(p, key);
        proof {
            lemma_insert_ascending::<K>(before_keys, p as int, key@);
            assert(items@.map_values(|k: K| k@) =~= before_keys.insert(p as int, key@));
        }
        self.items = items;
        true
    }

    /// Takes `key` out; answers whether it was present before.
    pub fn remove(&mut self, key: &K) -> (present: bool)
        ensures
            final(self)@ == old(self)@.remove(key@),
            present == old(self)@.contains(key@),
    {
        proof {
            use_type_invariant(&*self);
        }
        let p = self.lower_bound(key);
        let ghost before_keys = self.ordered();
        proof {
            lemma_found_at::<K>(before_keys, p as int, key@);
        }
        if p < self.items.len() && self.items[p].same_key(key) {
            let mut items: Vec<K> = Vec::new();
            std::mem::swap(&mut items, &mut self.items);
            let _ = items.remove(p);
            proof {
                lemma_remove_ascending::<K>(before_keys, p as int);
                assert(items@.map_values(|k: K| k@) =~= before_keys.remove(p as int));
            }
            self.items = items;
            true
        } else {
            assert(self@ =~= old(self)@.remove(key@));
            false
        }
    }

    /// Whether both sets hold the same keys.
    pub fn same_as(&self, other: &Self) -> (r: bool)
        ensures
            r == (self@ == other@),
            r == (self.ordered() == other.ordered()),
    {
        proof {
            use_type_invariant(&*self);
            use_type_invariant(&*other);
            if self@ == other@ {
                lemma_ascending_unique::<K>(self.ordered(), other.ordered());
            }
        }
        if self.items.len() != other.items.len() {
            assert(self.ordered().len() != other.ordered().len());
            return false;
        }
        let mut i: usize = 0;
        while i < self.items.len()
            invariant
                i <= self.items.len(),
                self.items.len() == other.items.len(),
                forall|j: int| 0 <= j < i ==> self.ordered()[j] == other.ordered()[j],
                self@ == other@ ==> self.ordered() == other.ordered(),
            decreases self.items.len() - i,
        {
            if !self.items[i].same_key(&other.items[i]) {
                assert(self.ordered()[i as int] != other.ordered()[i as int]);
                return false;
            }
            i += 1;
        }
        assert(self.ordered() =~= other.ordered());
        true
    }

    /// Whether the sets have no key in common.
    pub fn is_disjoint(&self, other: &Self) -> (r: bool)
        ensures
            r == self@.disjoint(other@),
    {
        let mut i: usize = 0;
        while i < self.items.len()
            invariant
                i <= self.items.len(),
                forall|j: int| 0 <= j < i ==> !other@.contains(#[trigger] self.ordered()[j]),
            decreases self.items.len() - i,
        {
            assert(self.ordered()[i as int] == self.items[i as int]@);
            if other.contains(&self.items[i]) {
                assert(self@.contains(self.ordered()[i as int]));
                return false;
            }
            i += 1;
        }
        assert(self@.disjoint(other@));
        true
    }

    /// Whether every key of this set is in `other`.
    pub fn is_subset(&self, other: &Self) -> (r: bool)
        ensures
            r == self@.subset_of(other@),
    {
        let mut i: usize = 0;
        while i < self.items.len()
            invariant
                i <= self.items.len(),
                forall|j: int| 0 <= j < i ==> other@.contains(#[trigger] self.ordered()[j]),
            decreases self.items.len() - i,
        {
            assert(self.ordered()[i as int] == self.items[i as int]@);
            if !other.contains(&self.items[i]) {
                assert(self@.contains(self.ordered()[i as int]));
                return false;
            }
            i += 1;
        }
        assert(self@.subset_of(other@));
        true
    }

    /// The keys of this set that are not in `other`.
    pub fn difference(&self, other: &Self) -> (r: Self)
        ensures
            r@ == self@.difference(other@),
    {
        let mut r: OrdSet<K> = OrdSet::new();
        let mut i: usize = 0;
        assert(r@ =~= self.ordered().take(0).to_set().difference(other@));
        while i < self.items.len()
            invariant
                i <= self.items.len(),
                r@ == self.ordered().take(i as int).to_set().difference(other@),
            decreases self.items.len() - i,
        {
            assert(self.ordered()[i as int] == self.items[i as int]@);
            proof {
                lemma_take_to_set(self.ordered(), i as int);
            }
            if !other.contains(&self.items[i]) {
                let _ = r.insert(self.items[i].duplicate());
            }
            assert(r@ =~= self.ordered().take(i + 1).to_set().difference(other@));
            i += 1;
        }
        assert(self.ordered().take(i as int) =~= self.ordered());
        r
    }

    /// Adds every key of `other`.
    pub fn extend(&mut self, other: &Self)
        ensures
            final(self)@ == old(self)@.union(other@),
    {
        let mut i: usize = 0;
        assert(self@ =~= old(self)@.union(other.ordered().take(0).to_set()));
        while i < other.items.len()
            invariant
                i <= other.items.len(),
                self@ == old(self)@.union(other.ordered().take(i as int).to_set()),
            decreases other.items.len() - i,
        {
            assert(other.ordered()[i as int] == other.items[i as int]@);
            proof {
                lemma_take_to_set(other.ordered(), i as int);
            }
            let _ = self.insert(other.items[i].duplicate());
            assert(self@ =~= old(self)@.union(other.ordered().take(i + 1).to_set()));
            i += 1;
        }
        assert(other.ordered().take(i as int) =~= other.ordered());
    }
}

impl<K: SortKey> Clone for OrdSet<K> {
    fn clone(&self) -> (r: Self)
        ensures
            r@ == self@,
            r.ordered() == self.ordered(),
    {
        proof {
            use_type_invariant(&*self);
        }
        let mut items: Vec<K> = Vec::new();
        let mut i: usize = 0;
        while i < self.items.len()
            invariant
                i <= self.items.len(),
                items@.len() == i,
                forall|j: int| 0 <= j < i ==> items@[j]@ == self.items@[j]@,
            decreases self.items.len() - i,
        {
            items.push(self.items[i].duplicate());
            i += 1;
        }
        assert(items@.map_values(|k: K| k@) =~= self.ordered());
        OrdSet { items }
    }
}

/// `p` parts `s` into the keys before `key` and the rest.
pub open spec fn splits_at<K: SortKey>(s: Seq<K::V>, p: int, key: K::V) -> bool {
    &&& 0 <= p <= s.len()
    &&& forall|i: int| 0 <= i < p ==> K::before(#[trigger] s[i], key)
    &&& forall|i: int| p <= i < s.len() ==> !K::before(#[trigger] s[i], key)
}

proof fn lemma_before_prefix<K: SortKey>(s: Seq<K::V>, m: int, key: K::V)
    requires
        ascending::<K>(s),
        0 <= m < s.len(),
        K::before(s[m], key),
    ensures
        forall|i: int| 0 <= i <= m ==> K::before(#[trigger] s[i], key),
{
    assert forall|i: int| 0 <= i <= m implies K::before(#[trigger] s[i], key) by {
        if i < m {
            K::before_transitive(s[i], s[m], key);
        }
    }
}

proof fn lemma_not_before_suffix<K: SortKey>(s: Seq<K::V>, m: int, key: K::V)
    requires
        ascending::<K>(s),
        0 <= m < s.len(),
        !K::before(s[m], key),
    ensures
        forall|i: int| m <= i < s.len() ==> !K::before(#[trigger] s[i], key),
{
    assert forall|i: int| m <= i < s.len() implies !K::before(#[trigger] s[i], key) by {
        if m < i && K::before(s[i], key) {
            K::before_transitive(s[m], s[i], key);
        }
    }
}

/// Where `p` parts `s` at `key`, `key` occurs in `s` exactly if it stands at `p`.
proof fn lemma_found_at<K: SortKey>(s: Seq<K::V>, p: int, key: K::V)
    requires
        ascending::<K>(s),
        splits_at::<K>(s, p, key),
    ensures
        s.to_set().contains(key) <==> (p < s.len() && s[p] == key),
        s.contains(key) <==> (p < s.len() && s[p] == key),
{
    if p < s.len() && s[p] == key {
        assert(s.contains(key));
    }
    if s.contains(key) {
        let i = choose|i: int| 0 <= i < s.len() && s[i] == key;
        K::before_irreflexive(key);
        if p < i {
            assert(K::before(s[p], s[i]));
        }
    }
}

proof fn lemma_insert_ascending<K: SortKey>(s: Seq<K::V>, p: int, key: K::V)
    requires
        ascending::<K>(s),
        splits_at::<K>(s, p, key),
        !s.contains(key),
    ensures
        ascending::<K>(s.insert(p, key)),
        s.insert(p, key).to_set() == s.to_set().insert(key),
{
    let t = s.insert(p, key);
    assert forall|i: int, j: int| 0 <= i < j < t.len() implies #[trigger] K::before(
        #[trigger] t[i],
        #[trigger] t[j],
    ) by {
        if i < p && j < p {
            assert(K::before(s[i], s[j]));
        } else if i < p && j == p {
            assert(t[i] == s[i]);
        } else if i < p {
            assert(K::before(s[i], s[j - 1]));
        } else if i == p {
            K::before_total(s[j - 1], key);
            assert(!K::before(s[j - 1], key));
            assert(s.contains(s[j - 1]));
        } else {
            assert(K::before(s[i - 1], s[j - 1]));
        }
    }
    assert(t.to_set() =~= s.to_set().insert(key)) by {
        assert forall|x: K::V| #[trigger] t.to_set().contains(x) <==> s.to_set().insert(
            key,
        ).contains(x) by {
            if t.contains(x) {
                let i = choose|i: int| 0 <= i < t.len() && t[i] == x;
                if i < p {
                    assert(s[i] == x);
                } else if i > p {
                    assert(s[i - 1] == x);
                }
            }
            if s.contains(x) {
                let i = choose|i: int| 0 <= i < s.len() && s[i] == x;
                if i < p {
                    assert(t[i] == x);
                } else {
                    assert(t[i + 1] == x);
                }
            }
            assert(t[p] == key);
        }
    }
}

proof fn lemma_remove_ascending<K: SortKey>(s: Seq<K::V>, p: int)
    requires
        ascending::<K>(s),
        0 <= p < s.len(),
    ensures
        ascending::<K>(s.remove(p)),
        s.remove(p).to_set() == s.to_set().remove(s[p]),
{
    let t = s.remove(p);
    assert forall|i: int, j: int| 0 <= i < j < t.len() implies #[trigger] K::before(
        #[trigger] t[i],
        #[trigger] t[j],
    ) by {
        let i1 = if i < p { i } else { i + 1 };
        let j1 = if j < p { j } else { j + 1 };
        assert(K::before(s[i1], s[j1]));
    }
    lemma_ascending_no_duplicates::<K>(s);
    assert(t.to_set() =~= s.to_set().remove(s[p])) by {
        assert forall|x: K::V| #[trigger] t.to_set().contains(x) <==> s.to_set().remove(
            s[p],
        ).contains(x) by {
            if t.contains(x) {
                let i = choose|i: int| 0 <= i < t.len() && t[i] == x;
                if i < p {
                    assert(s[i] == x);
                } else {
                    assert(s[i + 1] == x);
                }
            }
            if s.contains(x) && x != s[p] {
                let i = choose|i: int| 0 <= i < s.len() && s[i] == x;
                if i < p {
                    assert(t[i] == x);
                } else {
                    assert(t[i - 1] == x);
                }
            }
        }
    }
}

/// Taking one element more adds that element.
pub proof fn lemma_take_to_set<A>(s: Seq<A>, i: int)
    requires
        0 <= i < s.len(),
    ensures
        s.take(i + 1).to_set() == s.take(i).to_set().insert(s[i]),
{
    let a = s.take(i + 1);
    let b = s.take(i);
    assert forall|x: A| #[trigger] a.to_set().contains(x) <==> b.to_set().insert(s[i]).contains(
        x,
    ) by {
        if a.contains(x) {
            let j = choose|j: int| 0 <= j < a.len() && a[j] == x;
            if j < i {
                assert(b[j] == x);
            }
        }
        if b.contains(x) {
            let j = choose|j: int| 0 <= j < b.len() && b[j] == x;
            assert(a[j] == x);
        }
        assert(a[i] == s[i]);
    }
    assert(a.to_set() =~= b.to_set().insert(s[i]));
}

pub proof fn lemma_ascending_no_duplicates<K: SortKey>(s: Seq<K::V>)
    requires
        ascending::<K>(s),
    ensures
        s.no_duplicates(),
{
    assert forall|i: int, j: int| 0 <= i < s.len() && 0 <= j < s.len() && i != j implies s[i]
        != s[j] by {
        K::before_irreflexive(s[i]);
        if i < j {
            assert(K::before(s[i], s[j]));
        } else {
            assert(K::before(s[j], s[i]));
        }
    }
}

/// The map that sends each key to the value at the same position.
pub open spec fn zip_map<A, V>(keys: Seq<A>, values: Seq<V>) -> Map<A, V> {
    Map::new(|k: A| keys.contains(k), |k: A| values[keys.index_of(k)])
}

proof fn lemma_zip_map<K: SortKey, V>(keys: Seq<K::V>, values: Seq<V>)
    requires
        ascending::<K>(keys),
        keys.len() == values.len(),
    ensures
        zip_map(keys, values).dom() == keys.to_set(),
        forall|i: int|
            0 <= i < keys.len() ==> zip_map(keys, values).contains_key(#[trigger] keys[i]) && zip_map(
                keys,
                values,
            )[keys[i]] == values[i],
{
    lemma_ascending_no_duplicates::<K>(keys);
    assert(zip_map(keys, values).dom() =~= keys.to_set());
    assert forall|i: int| 0 <= i < keys.len() implies zip_map(keys, values).contains_key(
        #[trigger] keys[i],
    ) && zip_map(keys, values)[keys[i]] == values[i] by {
        assert(keys.contains(keys[i]));
        let j = keys.index_of(keys[i]);
        assert(0 <= j < keys.len() && keys[j] == keys[i]);
    }
}

proof fn lemma_zip_insert<K: SortKey, V>(keys: Seq<K::V>, values: Seq<V>, p: int, k: K::V, v: V)
    requires
        ascending::<K>(keys),
        keys.len() == values.len(),
        splits_at::<K>(keys, p, k),
        !keys.contains(k),
    ensures
        zip_map(keys.insert(p, k), values.insert(p, v)) == zip_map(keys, values).insert(k, v),
{
    lemma_insert_ascending::<K>(keys, p, k);
    let keys1 = keys.insert(p, k);
    let values1 = values.insert(p, v);
    lemma_zip_map::<K, V>(keys, values);
    lemma_zip_map::<K, V>(keys1, values1);
    let m = zip_map(keys, values).insert(k, v);
    let m1 = zip_map(keys1, values1);
    assert(m1.dom() =~= m.dom());
    assert forall|x: K::V| m1.contains_key(x) implies m1[x] == m[x] by {
        assert(keys1.contains(x));
        let i = choose|i: int| 0 <= i < keys1.len() && keys1[i] == x;
        assert(m1[keys1[i]] == values1[i]);
        if i < p {
            assert(keys[i] == x);
            assert(keys.contains(x));
        } else if i > p {
            assert(keys[i - 1] == x);
            assert(keys.contains(x));
        }
    }
    assert(m1 =~= m);
}

proof fn lemma_zip_update<K: SortKey, V>(keys: Seq<K::V>, values: Seq<V>, p: int, v: V)
    requires
        ascending::<K>(keys),
        keys.len() == values.len(),
        0 <= p < keys.len(),
    ensures
        zip_map(keys, values.update(p, v)) == zip_map(keys, values).insert(keys[p], v),
{
    let values1 = values.update(p, v);
    lemma_zip_map::<K, V>(keys, values);
    lemma_zip_map::<K, V>(keys, values1);
    lemma_ascending_no_duplicates::<K>(keys);
    let m = zip_map(keys, values).insert(keys[p], v);
    let m1 = zip_map(keys, values1);
    assert(keys.contains(keys[p]));
    assert(m1.dom() =~= m.dom());
    assert forall|x: K::V| m1.contains_key(x) implies m1[x] == m[x] by {
        assert(keys.contains(x));
        let i = choose|i: int| 0 <= i < keys.len() && keys[i] == x;
        assert(m1[keys[i]] == values1[i]);
        assert(zip_map(keys, values)[keys[i]] == values[i]);
    }
    assert(m1 =~= m);
}

proof fn lemma_zip_remove<K: SortKey, V>(keys: Seq<K::V>, values: Seq<V>, p: int)
    requires
        ascending::<K>(keys),
        keys.len() == values.len(),
        0 <= p < keys.len(),
    ensures
        zip_map(keys.remove(p), values.remove(p)) == zip_map(keys, values).remove(keys[p]),
{
    lemma_remove_ascending::<K>(keys, p);
    let keys1 = keys.remove(p);
    let values1 = values.remove(p);
    lemma_zip_map::<K, V>(keys, values);
    lemma_zip_map::<K, V>(keys1, values1);
    let m = zip_map(keys, values).remove(keys[p]);
    let m1 = zip_map(keys1, values1);
    assert(m1.dom() =~= m.dom());
    assert forall|x: K::V| m1.contains_key(x) implies m1[x] == m[x] by {
        assert(keys1.contains(x));
        let i = choose|i: int| 0 <= i < keys1.len() && keys1[i] == x;
        assert(m1[keys1[i]] == values1[i]);
        if i < p {
            assert(zip_map(keys, values)[keys[i]] == values[i]);
        } else {
            assert(zip_map(keys, values)[keys[i + 1]] == values[i + 1]);
        }
    }
    assert(m1 =~= m);
}

/// A map whose keys are kept in ascending order.
#[derive(Debug, PartialEq, Eq)]
#[verifier::reject_recursive_types(K)]
#[verifier::reject_recursive_types(V)]
pub struct OrdMap<K: SortKey, V> {
    keys: OrdSet<K>,
    values: Vec<V>,
}

impl<K: SortKey, V> View for OrdMap<K, V> {
    type V = Map<K::V, V>;

    open spec fn view(&self) -> Map<K::V, V> {
        zip_map(self.ordered(), self.ordered_values())
    }
}

impl<K: SortKey, V> OrdMap<K, V> {
    /// The keys in ascending order.
    pub closed spec fn ordered(&self) -> Seq<K::V> {
        self.keys.ordered()
    }

    /// The values, each at the position of its key.
    pub closed spec fn ordered_values(&self) -> Seq<V> {
        self.values@
    }

    #[verifier::type_invariant]
    pub closed spec fn inv(self) -> bool {
        self.values@.len() == self.keys.ordered().len()
    }

    pub fn new() -> (r: Self)
        ensures
            r@ == Map::<K::V, V>::empty(),
            r.ordered() == Seq::<K::V>::empty(),
    {
        let r = OrdMap { keys: OrdSet::new(), values: Vec::new() };
        assert(r@ =~= Map::<K::V, V>::empty());
        r
    }

    /// The number of keys; along with it, how order and contents hang together.
    pub fn len(&self) -> (n: usize)
        ensures
            n == self.ordered().len(),
            n == self.ordered_values().len(),
            n == self@.dom().len(),
            self@.dom().finite(),
            self@.dom() == self.ordered().to_set(),
            ascending::<K>(self.ordered()),
            self.ordered() == sorted::<K>(self@.dom()),
            forall|i: int|
                0 <= i < n ==> self@.contains_key(#[trigger] self.ordered()[i])
                    && self@[self.ordered()[i]] == self.ordered_values()[i],
    {
        proof {
            use_type_invariant(&*self);
        }
        let n = self.keys.len();
        proof {
            lemma_zip_map::<K, V>(self.ordered(), self.ordered_values());
        }
        n
    }

    pub fn is_empty(&self) -> (r: bool)
        ensures
            r == (self@ == Map::<K::V, V>::empty()),
    {
        let n = self.len();
        proof {
            if n > 0 {
                assert(self@.contains_key(self.ordered()[0]));
            } else {
                assert(self@ =~= Map::<K::V, V>::empty());
            }
        }
        n == 0
    }

    /// The key at position `i` of the ascending order.
    pub fn key_at(&self, i: usize) -> (k: &K)
        requires
            i < self.ordered().len(),
        ensures
            k@ == self.ordered()[i as int],
            self@.contains_key(k@),
    {
        let k = self.keys.at(i);
        assert(self.ordered().contains(k@));
        k
    }

    /// The value at position `i` of the ascending order.
    pub fn value_at(&self, i: usize) -> (v: &V)
        requires
            i < self.ordered().len(),
        ensures
            *v == self.ordered_values()[i as int],
            self@.contains_key(self.ordered()[i as int]),
            *v == self@[self.ordered()[i as int]],
    {
        let _ = self.len();
        proof {
            use_type_invariant(&*self);
        }
        assert(self@.contains_key(self.ordered()[i as int]));
        &self.values[i]
    }

    pub fn contains_key(&self, key: &K) -> (r: bool)
        ensures
            r == self@.contains_key(key@),
    {
        self.keys.contains(key)
    }

    pub fn get(&self, key: &K) -> (r: Option<&V>)
        ensures
            match r {
                Some(v) => self@.contains_key(key@) && *v == self@[key@],
                None => !self@.contains_key(key@),
            },
    {
        let n = self.len();
        let p = self.keys.lower_bound(key);
        proof {
            use_type_invariant(&*self);
            lemma_found_at::<K>(self.ordered(), p as int, key@);
        }
        if p < n && self.keys.at(p).same_key(key) {
            assert(self@.contains_key(self.ordered()[p as int]));
            Some(&self.values[p])
        } else {
            None
        }
    }

    /// Binds `key` to `value`; gives back what it was bound to.
    pub fn insert(&mut self, key: K, value: V) -> (r: Option<V>)
        ensures
            final(self)@ == old(self)@.insert(key@, value),
            match r {
                Some(v) => old(self)@.contains_key(key@) && v == old(self)@[key@],
                None => !old(self)@.contains_key(key@),
            },
    {
        let n = self.len();
        let ghost ks = self.ordered();
        let ghost vs = self.ordered_values();
        let mut whole: OrdMap<K, V> = OrdMap::new();
        std::mem::swap(&mut whole, self);
        let OrdMap { mut keys, mut values } = whole;
        let p = keys.lower_bound(&key);
        proof {
            lemma_found_at::<K>(ks, p as int, key@);
        }
        if p < n && keys.at(p).same_key(&key) {
            proof {
                lemma_zip_update::<K, V>(ks, vs, p as int, value);
                assert(old(self)@.contains_key(ks[p as int]));
            }
            values.push(value);
            let r = values.swap_remove(p);
            assert(values@ =~= vs.update(p as int, value));
            *self = OrdMap { keys, values };
            Some(r)
        } else {
            let mut items: Vec<K> = Vec::new();
            std::mem::swap(&mut items, &mut keys.items);
            items.insert(p, key);
            proof {
                lemma_insert_ascending::<K>(ks, p as int, key@);
                lemma_zip_insert::<K, V>(ks, vs, p as int, key@, value);
                assert(items@.map_values(|k: K| k@) =~= ks.insert(p as int, key@));
            }
            values.insert(p, value);
            *self = OrdMap { keys: OrdSet { items }, values };
            None
        }
    }

    /// Takes the binding of `key` out and gives it back.
    pub fn remove(&mut self, key: &K) -> (r: Option<V>)
        ensures
            final(self)@ == old(self)@.remove(key@),
            match r {
                Some(v) => old(self)@.contains_key(key@) && v == old(self)@[key@],
                None => !old(self)@.contains_key(key@),
            },
    {
        let n = self.len();
        let ghost ks = self.ordered();
        let ghost vs = self.ordered_values();
        let mut whole: OrdMap<K, V> = OrdMap::new();
        std::mem::swap(&mut whole, self);
        let OrdMap { mut keys, mut values } = whole;
        let p = keys.lower_bound(key);
        proof {
            lemma_found_at::<K>(ks, p as int, key@);
        }
        if p < n && keys.at(p).same_key(key) {
            let mut items: Vec<K> = Vec::new();
            std::mem::swap(&mut items, &mut keys.items);
            let _ = items.remove(p);
            let v = values.remove(p);
            proof {
                lemma_remove_ascending::<K>(ks, p as int);
                lemma_zip_remove::<K, V>(ks, vs, p as int);
                assert(old(self)@.contains_key(ks[p as int]));
                assert(items@.map_values(|k: K| k@) =~= ks.remove(p as int));
            }
            *self = OrdMap { keys: OrdSet { items }, values };
            Some(v)
        } else {
            *self = OrdMap { keys, values };
            assert(self@ =~= old(self)@.remove(key@));
            None
        }
    }

    /// The set of the keys.
    pub fn key_set(&self) -> (r: OrdSet<K>)
        ensures
            r@ == self@.dom(),
            r.ordered() == self.ordered(),
    {
        let _ = self.len();
        self.keys.clone()
    }
}

impl<K: SortKey, V: Copy> Clone for OrdMap<K, V> {
    fn clone(&self) -> (r: Self)
        ensures
            r@ == self@,
            r.ordered() == self.ordered(),
            r.ordered_values() == self.ordered_values(),
    {
        proof {
            use_type_invariant(&*self);
        }
        let mut values: Vec<V> = Vec::new();
        let mut i: usize = 0;
        while i < self.values.len()
            invariant
                i <= self.values.len(),
                values@ == self.values@.take(i as int),
            decreases self.values.len() - i,
        {
            values.push(self.values[i]);
            i += 1;
            assert(self.values@.take(i as int) =~= self.values@.take(i - 1).push(
                self.values@[i - 1],
            ));
        }
        assert(values@ =~= self.values@);
        OrdMap { keys: self.keys.clone(), values }
    }
}

} // verus!
