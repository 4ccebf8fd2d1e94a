//! Collections kept sorted by key, so that every walk over them is in key
//! order.

use vstd::prelude::*;

use crate::order::Key;

verus! {

/// Strictly ascending by key: in particular, nothing occurs twice.
pub open spec fn ascending<K: Key>(s: Seq<K>) -> bool {
    forall|i: int, j: int| 0 <= i < j < s.len() ==> (#[trigger] s[i]).before(#[trigger] s[j])
}

pub proof fn lemma_ascending_no_duplicates<K: Key>(s: Seq<K>)
    requires
        ascending(s),
    ensures
        s.no_duplicates(),
{
    assert forall|i: int, j: int| 0 <= i < s.len() && 0 <= j < s.len() && i != j implies s[i] != s[j] by {
        if i < j {
            K::lemma_irreflexive(s[i]);
            assert(s[i].before(s[j]));
        } else {
            K::lemma_irreflexive(s[i]);
            assert(s[j].before(s[i]));
        }
    }
}

/// An ascending walk is determined by what it visits: two ascending sequences
/// over the same elements are the same sequence.
pub proof fn lemma_ascending_unique<K: Key>(a: Seq<K>, b: Seq<K>)
    requires
        ascending(a),
        ascending(b),
        forall|k: K| a.contains(k) <==> b.contains(k),
    ensures
        a == b,
    decreases a.len(),
{
    if a.len() == 0 {
        if b.len() > 0 {
            assert(b.contains(b[0]));
            assert(a.contains(b[0]));
        }
        assert(a =~= b);
    } else {
        assert(a.contains(a[0]));
        assert(b.contains(a[0]));
        let i = choose|i: int| 0 <= i < b.len() && b[i] == a[0];
        assert(b.contains(b[0]));
        assert(a.contains(b[0]));
        let j = choose|j: int| 0 <= j < a.len() && a[j] == b[0];
        if i > 0 {
            assert(b[0].before(b[i]));
            if j > 0 {
                assert(a[0].before(a[j]));
                K::lemma_transitive(a[0], b[0], a[0]);
            }
            K::lemma_irreflexive(a[0]);
        }
        assert(a[0] == b[0]);
        let ra = a.drop_first();
        let rb = b.drop_first();
        lemma_ascending_no_duplicates(a);
        lemma_ascending_no_duplicates(b);
        assert(ascending(ra)) by {
            assert forall|i: int, j: int| 0 <= i < j < ra.len() implies (#[trigger] ra[i]).before(#[trigger] ra[j]) by {
                assert(a[i + 1].before(a[j + 1]));
            }
        }
        assert(ascending(rb)) by {
            assert forall|i: int, j: int| 0 <= i < j < rb.len() implies (#[trigger] rb[i]).before(#[trigger] rb[j]) by {
                assert(b[i + 1].before(b[j + 1]));
            }
        }
        assert forall|k: K| ra.contains(k) <==> rb.contains(k) by {
            if ra.contains(k) {
                let m = choose|m: int| 0 <= m < ra.len() && ra[m] == k;
                assert(a[m + 1] == k);
                assert(a.contains(k));
                assert(b.contains(k));
                let n = choose|n: int| 0 <= n < b.len() && b[n] == k;
                assert(n != 0);
                assert(rb[n - 1] == k);
            }
            if rb.contains(k) {
                let m = choose|m: int| 0 <= m < rb.len() && rb[m] == k;
                assert(b[m + 1] == k);
                assert(b.contains(k));
                assert(a.contains(k));
                let n = choose|n: int| 0 <= n < a.len() && a[n] == k;
                assert(n != 0);
                assert(ra[n - 1] == k);
            }
        }
        lemma_ascending_unique(ra, rb);
        assert(a =~= seq![a[0]] + ra);
        assert(b =~= seq![b[0]] + rb);
    }
}

/// Where `k` stands, or would stand, in an ascending sequence.
pub fn lower_bound<K: Key>(keys: &Vec<K>, k: &K) -> (p: usize)
    requires
        ascending(keys@),
    ensures
        p <= keys@.len(),
        forall|i: int| 0 <= i < p ==> (#[trigger] keys@[i]).before(*k),
        forall|i: int| p <= i < keys@.len() ==> !(#[trigger] keys@[i]).before(*k),
{
    let mut lo: usize = 0;
    let mut hi: usize = keys.len();
    while lo < hi
        invariant
            lo <= hi <= keys@.len(),
            ascending(keys@),
            forall|i: int| 0 <= i < lo ==> (#[trigger] keys@[i]).before(*k),
            forall|i: int| hi <= i < keys@.len() ==> !(#[trigger] keys@[i]).before(*k),
        decreases hi - lo,
    {
        let mid: usize = lo + (hi - lo) / 2;
        if keys[mid].is_before(k) {
            proof {
                assert forall|i: int| 0 <= i < mid + 1 implies (#[trigger] keys@[i]).before(*k) by {
                    if i < mid {
                        K::lemma_transitive(keys@[i], keys@[mid as int], *k);
                    }
                }
            }
            lo = mid + 1;
        } else {
            proof {
                assert forall|i: int| mid <= i < keys@.len() implies !(#[trigger] keys@[i]).before(*k) by {
                    if i > mid && keys@[i].before(*k) {
                        K::lemma_transitive(keys@[mid as int], keys@[i], *k);
                    }
                }
            }
            hi = mid;
        }
    }
    lo
}

/// The position of `k`, if it occurs.
pub fn find<K: Key>(keys: &Vec<K>, k: &K) -> (r: Option<usize>)
    requires
        ascending(keys@),
    ensures
        match r {
            Some(p) => p < keys@.len() && keys@[p as int] == *k,
            None => !keys@.contains(*k),
        },
{
    let p: usize = lower_bound(keys, k);
    if p < keys.len() && keys[p].same(k) {
        return Some(p);
    }
    proof {
        if keys@.contains(*k) {
            let i = choose|i: int| 0 <= i < keys@.len() && keys@[i] == *k;
            K::lemma_irreflexive(*k);
            if i > p {
                assert(keys@[p as int].before(keys@[i]));
            }
        }
    }
    None
}

proof fn lemma_ascending_insert<K: Key>(s: Seq<K>, k: K, p: int)
    requires
        ascending(s),
        0 <= p <= s.len(),
        forall|i: int| 0 <= i < p ==> (#[trigger] s[i]).before(k),
        forall|i: int| p <= i < s.len() ==> !(#[trigger] s[i]).before(k),
        p < s.len() ==> s[p] != k,
    ensures
        ascending(s.insert(p, k)),
        forall|x: K| s.insert(p, k).contains(x) <==> s.contains(x) || x == k,
        !s.contains(k),
{
    let t = s.insert(p, k);
    assert forall|i: int| p <= i < s.len() implies k.before(#[trigger] s[i]) by {
        if i > p {
            assert(s[p].before(s[i]));
            K::lemma_total(k, s[p]);
            if k.before(s[p]) {
                K::lemma_transitive(k, s[p], s[i]);
            }
        } else {
            K::lemma_total(k, s[p]);
        }
    }
    assert forall|i: int, j: int| 0 <= i < j < t.len() implies (#[trigger] t[i]).before(#[trigger] t[j]) by {
        if i < p {
            if j < p {
                assert(s[i].before(s[j]));
            } else if j > p {
                assert(s[i].before(s[j - 1]));
            } else {
                assert(s[i].before(k));
            }
        } else if i == p {
            assert(k.before(s[j - 1]));
        } else {
            assert(s[i - 1].before(s[j - 1]));
        }
    }
    assert forall|x: K| t.contains(x) <==> s.contains(x) || x == k by {
        if s.contains(x) {
            let i = choose|i: int| 0 <= i < s.len() && s[i] == x;
            if i < p {
                assert(t[i] == x);
            } else {
                assert(t[i + 1] == x);
            }
        }
        if x == k {
            assert(t[p] == k);
        }
        if t.contains(x) {
            let i = choose|i: int| 0 <= i < t.len() && t[i] == x;
            if i < p {
                assert(s[i] == x);
            } else if i > p {
                assert(s[i - 1] == x);
            }
        }
    }
    if s.contains(k) {
        let i = choose|i: int| 0 <= i < s.len() && s[i] == k;
        K::lemma_irreflexive(k);
        if i >= p {
            assert(k.before(s[i]));
        } else {
            assert(s[i].before(k));
        }
    }
}

proof fn lemma_ascending_remove<K: Key>(s: Seq<K>, p: int)
    requires
        ascending(s),
        0 <= p < s.len(),
    ensures
        ascending(s.remove(p)),
        forall|x: K| s.remove(p).contains(x) <==> s.contains(x) && x != s[p],
{
    let t = s.remove(p);
    lemma_ascending_no_duplicates(s);
    assert forall|i: int, j: int| 0 <= i < j < t.len() implies (#[trigger] t[i]).before(#[trigger] t[j]) by {
        let a = if i < p { i } else { i + 1 };
        let b = if j < p { j } else { j + 1 };
        assert(s[a].before(s[b]));
    }
    assert forall|x: K| t.contains(x) <==> s.contains(x) && x != s[p] by {
        if t.contains(x) {
            let i = choose|i: int| 0 <= i < t.len() && t[i] == x;
            let a = if i < p { i } else { i + 1 };
            assert(s[a] == x);
        }
        if s.contains(x) && x != s[p] {
            let i = choose|i: int| 0 <= i < s.len() && s[i] == x;
            if i < p {
                assert(t[i] == x);
            } else {
                assert(t[i - 1] == x);
            }
        }
    }
}

/// Where `k` would stand in an ascending sequence.
proof fn lemma_place_exists<K: Key>(s: Seq<K>, k: K) -> (p: int)
    requires
        ascending(s),
    ensures
        0 <= p <= s.len(),
        forall|i: int| 0 <= i < p ==> (#[trigger] s[i]).before(k),
        forall|i: int| p <= i < s.len() ==> !(#[trigger] s[i]).before(k),
    decreases s.len(),
{
    if s.len() == 0 {
        0
    } else if s.last().before(k) {
        assert forall|i: int| 0 <= i < s.len() implies (#[trigger] s[i]).before(k) by {
            if i < s.len() - 1 {
                K::lemma_transitive(s[i], s.last(), k);
            }
        }
        s.len() as int
    } else {
        let init = s.drop_last();
        assert(ascending(init)) by {
            assert forall|i: int, j: int| 0 <= i < j < init.len() implies (#[trigger] init[i]).before(
                #[trigger] init[j],
            ) by {
                assert(s[i].before(s[j]));
            }
        }
        let p = lemma_place_exists(init, k);
        assert forall|i: int| 0 <= i < p implies (#[trigger] s[i]).before(k) by {
            assert(init[i] == s[i]);
        }
        assert forall|i: int| p <= i < s.len() implies !(#[trigger] s[i]).before(k) by {
            if i < init.len() {
                assert(init[i] == s[i]);
            }
        }
        p
    }
}

/// Every finite set can be walked in key order.
pub proof fn lemma_walk_exists<K: Key>(s: Set<K>) -> (walk: Seq<K>)
    requires
        s.finite(),
    ensures
        ascending(walk),
        walk.to_set() == s,
    decreases s.len(),
{
    if s.len() == 0 {
        assert(s =~= Set::<K>::empty());
        assert(Seq::<K>::empty().to_set() =~= s);
        Seq::empty()
    } else {
        let k = s.choose();
        let rest = lemma_walk_exists(s.remove(k));
        let p = lemma_place_exists(rest, k);
        if p < rest.len() && rest[p] == k {
            assert(rest.to_set().contains(k));
        }
        lemma_ascending_insert(rest, k, p);
        let walk = rest.insert(p, k);
        assert(walk.to_set() =~= s) by {
            assert forall|x: K| walk.to_set().contains(x) <==> s.contains(x) by {
                assert(walk.contains(x) <==> rest.contains(x) || x == k);
                assert(rest.to_set().contains(x) <==> rest.contains(x));
            }
        }
        walk
    }
}

/// The elements of `s` in key order.
pub open spec fn in_order<K: Key>(s: Set<K>) -> Seq<K> {
    choose|walk: Seq<K>| ascending(walk) && walk.to_set() == s
}

/// An ascending sequence is the walk over its elements.
pub proof fn lemma_in_order<K: Key>(s: Set<K>, walk: Seq<K>)
    requires
        ascending(walk),
        walk.to_set() == s,
    ensures
        in_order(s) == walk,
{
    let w = in_order(s);
    assert(ascending(w) && w.to_set() == s);
    assert forall|k: K| w.contains(k) <==> walk.contains(k) by {
        assert(w.to_set().contains(k) <==> walk.to_set().contains(k));
    }
    lemma_ascending_unique(w, walk);
}

/// The elements of a finite set are all listed, once each, in order, and nothing else
/// is.
pub proof fn law_in_order_lists_each_once<K: Key>(s: Set<K>, k: K)
    requires
        s.finite(),
    ensures
        in_order(s).contains(k) <==> s.contains(k),
        in_order(s).no_duplicates(),
        in_order(s).len() == s.len(),
        ascending(in_order(s)),
{
    let walk = lemma_walk_exists(s);
    lemma_in_order(s, walk);
    lemma_ascending_no_duplicates(walk);
    walk.unique_seq_to_set();
    assert(walk.to_set().contains(k) <==> walk.contains(k));
}

/// A copy of a list of keys.
pub fn copy_keys<K: Key>(keys: &Vec<K>) -> (r: Vec<K>)
    ensures
        r@ == keys@,
{
    let mut r: Vec<K> = Vec::new();
    let mut i: usize = 0;
    while i < keys.len()
        invariant
            i <= keys@.len(),
            r@ == keys@.take(i as int),
        decreases keys@.len() - i,
    {
        r.push(keys[i]);
        assert(keys@.take(i + 1) =~= keys@.take(i as int).push(keys@[i as int]));
        i = i + 1;
    }
    assert(keys@.take(i as int) =~= keys@);
    r
}

/// Whether `k` occurs in a list of keys.
pub fn lists<K: Key>(keys: &Vec<K>, k: &K) -> (r: bool)
    ensures
        r == keys@.contains(*k),
{
    let mut i: usize = 0;
    while i < keys.len()
        invariant
            i <= keys@.len(),
            forall|j: int| 0 <= j < i ==> keys@[j] != *k,
        decreases keys@.len() - i,
    {
        if keys[i].same(k) {
            return true;
        }
        i = i + 1;
    }
    false
}

/// A set walked in key order.
#[derive(Debug, Clone, PartialEq, Eq)]
pub struct SortedSet<K: Key> {
    items: Vec<K>,
}

impl<K: Key> View for SortedSet<K> {
    type V = Set<K>;

    closed spec fn view(&self) -> Set<K> {
        self.items@.to_set()
    }
}

impl<K: Key> SortedSet<K> {
    /// The elements, in the order in which a walk visits them.
    pub closed spec fn walk(&self) -> Seq<K> {
        self.items@
    }

    pub closed spec fn wf(&self) -> bool {
        ascending(self.items@)
    }

    pub proof fn lemma_walk(&self)
        requires
            self.wf(),
        ensures
            ascending(self.walk()),
            self.walk().no_duplicates(),
            self.walk().to_set() == self@,
            self@.finite(),
            self@.len() == self.walk().len(),
    {
        lemma_ascending_no_duplicates(self.items@);
        self.items@.unique_seq_to_set();
    }

    pub fn new() -> (r: Self)
        ensures
            r.wf(),
            r@ == Set::<K>::empty(),
            r.walk() == Seq::<K>::empty(),
    {
        let r = SortedSet { items: Vec::new() };
        assert(r.items@.to_set() =~= Set::<K>::empty());
        r
    }

    pub fn len(&self) -> (n: usize)
        requires
            self.wf(),
        ensures
            n == self@.len(),
            n == self.walk().len(),
    {
        proof {
            self.lemma_walk();
        }
        self.items.len()
    }

    pub fn contains(&self, k: &K) -> (r: bool)
        requires
            self.wf(),
        ensures
            r == self@.contains(*k),
    {
        find(&self.items, k).is_some()
    }

    pub fn at(&self, i: usize) -> (k: K)
        requires
            i < self.walk().len(),
        ensures
            k == self.walk()[i as int],
    {
        self.items[i]
    }

    /// Adds `k`; tells whether it was new.
    pub fn insert(&mut self, k: K) -> (added: bool)
        requires
            old(self).wf(),
        ensures
            final(self).wf(),
            final(self)@ == old(self)@.insert(k),
            added == !old(self)@.contains(k),
    {
        let p: usize = lower_bound(&self.items, &k);
        if p < self.items.len() && self.items[p].same(&k) {
            assert(self.items@.contains(k));
            assert(old(self)@.insert(k) =~= old(self)@);
            return false;
        }
        proof {
            lemma_ascending_insert(self.items@, k, p as int);
        }
        self.items.insert(p, k);
        assert(self@ =~= old(self)@.insert(k)) by {
            assert forall|x: K| self@.contains(x) <==> old(self)@.insert(k).contains(x) by {
                assert(self.items@.contains(x) <==> old(self).items@.contains(x) || x == k);
            }
        }
        true
    }

    /// Takes `k` out; tells whether it was there.
    pub fn remove(&mut self, k: &K) -> (removed: bool)
        requires
            old(self).wf(),
        ensures
            final(self).wf(),
            final(self)@ == old(self)@.remove(*k),
            removed == old(self)@.contains(*k),
    {
        match find(&self.items, k) {
            Some(p) => {
                proof {
                    lemma_ascending_remove(self.items@, p as int);
                }
                self.items.remove(p);
                assert(self@ =~= old(self)@.remove(*k)) by {
                    assert forall|x: K| self@.contains(x) <==> old(self)@.remove(*k).contains(x) by {
                        assert(self.items@.contains(x) <==> old(self).items@.contains(x) && x != *k);
                    }
                }
                assert(old(self).items@.contains(*k));
                true
            },
            None => {
                assert(old(self)@.remove(*k) =~= old(self)@);
                false
            },
        }
    }

    /// The elements in key order.
    pub fn to_vec(&self) -> (r: Vec<K>)
        ensures
            r@ == self.walk(),
    {
        let mut r: Vec<K> = Vec::new();
        let mut i: usize = 0;
        while i < self.items.len()
            invariant
                i <= self.items@.len(),
                r@ == self.items@.take(i as int),
            decreases self.items@.len() - i,
        {
            r.push(self.items[i]);
            assert(self.items@.take(i + 1) =~= self.items@.take(i as int).push(self.items@[i as int]));
            i = i + 1;
        }
        assert(self.items@.take(i as int) =~= self.items@);
        r
    }

    /// An independent copy.
    pub fn copied(&self) -> (r: Self)
        ensures
            r@ == self@,
            r.walk() == self.walk(),
            self.wf() ==> r.wf(),
    {
        let items: Vec<K> = self.to_vec();
        SortedSet { items }
    }
}

/// A map walked in key order.
#[derive(Debug, Clone, PartialEq, Eq)]
pub struct SortedMap<K: Key, V> {
    keys: Vec<K>,
    values: Vec<V>,
}

/// The map that sends `keys[i]` to `values[i]`.
pub open spec fn zip_map<K, V>(keys: Seq<K>, values: Seq<V>) -> Map<K, V> {
    Map::new(|k: K| keys.contains(k), |k: K| values[keys.index_of(k)])
}

proof fn lemma_zip_at<K, V>(keys: Seq<K>, values: Seq<V>, i: int)
    requires
        keys.no_duplicates(),
        0 <= i < keys.len(),
    ensures
        zip_map(keys, values).contains_key(keys[i]),
        zip_map(keys, values)[keys[i]] == values[i],
{
    assert(keys.contains(keys[i]));
    let j = keys.index_of(keys[i]);
    assert(0 <= j < keys.len() && keys[j] == keys[i]);
}

impl<K: Key, V> View for SortedMap<K, V> {
    type V = Map<K, V>;

    closed spec fn view(&self) -> Map<K, V> {
        zip_map(self.keys@, self.values@)
    }
}

impl<K: Key, V> SortedMap<K, V> {
    /// The keys, in the order in which a walk visits them.
    pub closed spec fn walk(&self) -> Seq<K> {
        self.keys@
    }

    pub closed spec fn wf(&self) -> bool {
        &&& ascending(self.keys@)
        &&& self.keys@.len() == self.values@.len()
    }

    pub proof fn lemma_walk(&self)
        requires
            self.wf(),
        ensures
            ascending(self.walk()),
            self.walk().no_duplicates(),
            self.walk().to_set() == self@.dom(),
            forall|k: K| self.walk().contains(k) <==> self@.contains_key(k),
            self@.dom().finite(),
            self@.dom().len() == self.walk().len(),
    {
        lemma_ascending_no_duplicates(self.keys@);
        self.keys@.unique_seq_to_set();
        assert(self.keys@.to_set() =~= self@.dom());
    }

    pub fn new() -> (r: Self)
        ensures
            r.wf(),
            r@ == Map::<K, V>::empty(),
            r.walk() == Seq::<K>::empty(),
    {
        let r = SortedMap { keys: Vec::new(), values: Vec::new() };
        assert(r@ =~= Map::<K, V>::empty());
        r
    }

    pub fn len(&self) -> (n: usize)
        requires
            self.wf(),
        ensures
            n == self@.dom().len(),
            n == self.walk().len(),
    {
        proof {
            self.lemma_walk();
        }
        self.keys.len()
    }

    pub fn contains_key(&self, k: &K) -> (r: bool)
        requires
            self.wf(),
        ensures
            r == self@.contains_key(*k),
    {
        find(&self.keys, k).is_some()
    }

    pub fn get(&self, k: &K) -> (r: Option<&V>)
        requires
            self.wf(),
        ensures
            match r {
                Some(v) => self@.contains_key(*k) && *v == self@[*k],
                None => !self@.contains_key(*k),
            },
    {
        match find(&self.keys, k) {
            Some(p) => {
                proof {
                    lemma_ascending_no_duplicates(self.keys@);
                    lemma_zip_at(self.keys@, self.values@, p as int);
                }
                Some(&self.values[p])
            },
            None => None,
        }
    }

    /// The place of `k` in the walk.
    pub fn index(&self, k: &K) -> (r: Option<usize>)
        requires
            self.wf(),
        ensures
            match r {
                Some(p) => p < self.walk().len() && self.walk()[p as int] == *k
                    && self@.contains_key(*k),
                None => !self@.contains_key(*k),
            },
    {
        find(&self.keys, k)
    }

    pub fn key_at(&self, i: usize) -> (k: K)
        requires
            i < self.walk().len(),
        ensures
            k == self.walk()[i as int],
    {
        self.keys[i]
    }

    pub fn value_at(&self, i: usize) -> (v: &V)
        requires
            self.wf(),
            i < self.walk().len(),
        ensures
            self@.contains_key(self.walk()[i as int]),
            *v == self@[self.walk()[i as int]],
    {
        proof {
            lemma_ascending_no_duplicates(self.keys@);
            lemma_zip_at(self.keys@, self.values@, i as int);
        }
        &self.values[i]
    }

    /// Puts `v` under `k`, in place of what was there.
    pub fn insert(&mut self, k: K, v: V)
        requires
            old(self).wf(),
        ensures
            final(self).wf(),
            final(self)@ == old(self)@.insert(k, v),
    {
        let p: usize = lower_bound(&self.keys, &k);
        proof {
            lemma_ascending_no_duplicates(self.keys@);
        }
        if p < self.keys.len() && self.keys[p].same(&k) {
            self.values[p] = v;
            proof {
                assert(self.keys@ == old(self).keys@);
                assert forall|x: K| self@.contains_key(x) <==> old(self)@.insert(k, v).contains_key(x) by {
                    assert(self.keys@[p as int] == k);
                }
                assert forall|x: K| self@.contains_key(x) implies self@[x] == old(self)@.insert(k, v)[x] by {
                    let i = self.keys@.index_of(x);
                    assert(self.keys@[i] == x);
                }
                assert(self@ =~= old(self)@.insert(k, v));
            }
        } else {
            proof {
                lemma_ascending_insert(self.keys@, k, p as int);
            }
            self.keys.insert(p, k);
            self.values.insert(p, v);
            proof {
                lemma_ascending_no_duplicates(self.keys@);
                let ok = old(self).keys@;
                let nk = self.keys@;
                assert forall|x: K| self@.contains_key(x) <==> old(self)@.insert(k, v).contains_key(x) by {
                    assert(nk.contains(x) <==> ok.contains(x) || x == k);
                }
                assert forall|x: K| self@.contains_key(x) implies self@[x] == old(self)@.insert(k, v)[x] by {
                    if x == k {
                        assert(nk[p as int] == k);
                        lemma_zip_at(nk, self.values@, p as int);
                    } else {
                        assert(ok.contains(x));
                        let i = ok.index_of(x);
                        let j = if i < p { i } else { i + 1 };
                        assert(nk[j] == x);
                        lemma_zip_at(nk, self.values@, j);
                        lemma_zip_at(ok, old(self).values@, i);
                    }
                }
                assert(self@ =~= old(self)@.insert(k, v));
            }
        }
    }

    /// Takes out what stands under `k`.
    pub fn remove(&mut self, k: &K) -> (r: Option<V>)
        requires
            old(self).wf(),
        ensures
            final(self).wf(),
            final(self)@ == old(self)@.remove(*k),
            match r {
                Some(v) => old(self)@.contains_key(*k) && v == old(self)@[*k],
                None => !old(self)@.contains_key(*k),
            },
    {
        match find(&self.keys, k) {
            Some(p) => {
                proof {
                    lemma_ascending_no_duplicates(self.keys@);
                    lemma_zip_at(self.keys@, self.values@, p as int);
                    lemma_ascending_remove(self.keys@, p as int);
                }
                self.keys.remove(p);
                let v = self.values.remove(p);
                proof {
                    lemma_ascending_no_duplicates(self.keys@);
                    let ok = old(self).keys@;
                    let nk = self.keys@;
                    assert forall|x: K| self@.contains_key(x) <==> old(self)@.remove(*k).contains_key(x) by {
                        assert(nk.contains(x) <==> ok.contains(x) && x != *k);
                    }
                    assert forall|x: K| self@.contains_key(x) implies self@[x] == old(self)@.remove(*k)[x] by {
                        assert(ok.contains(x) && x != *k);
                        let i = ok.index_of(x);
                        let j = if i < p { i } else { i - 1 };
                        assert(nk[j] == x);
                        lemma_zip_at(nk, self.values@, j);
                        lemma_zip_at(ok, old(self).values@, i);
                    }
                    assert(self@ =~= old(self)@.remove(*k));
                }
                Some(v)
            },
            None => {
                assert(old(self)@.remove(*k) =~= old(self)@);
                None
            },
        }
    }

    /// What stands under `k`, to be changed in place.
    pub fn get_mut(&mut self, k: &K) -> (r: Option<&mut V>)
        requires
            old(self).wf(),
        ensures
            final(self).wf(),
            match r {
                Some(v) => old(self)@.contains_key(*k) && *v == old(self)@[*k]
                    && final(self)@ == old(self)@.insert(*k, *final(v)),
                None => !old(self)@.contains_key(*k) && final(self)@ == old(self)@,
            },
    {
        match find(&self.keys, k) {
            Some(p) => {
                proof {
                    lemma_ascending_no_duplicates(self.keys@);
                    lemma_zip_at(self.keys@, self.values@, p as int);
                }
                Some(&mut self.values[p])
            },
            None => None,
        }
    }

    /// The keys in order.
    pub fn keys(&self) -> (r: Vec<K>)
        ensures
            r@ == self.walk(),
    {
        let mut r: Vec<K> = Vec::new();
        let mut i: usize = 0;
        while i < self.keys.len()
            invariant
                i <= self.keys@.len(),
                r@ == self.keys@.take(i as int),
            decreases self.keys@.len() - i,
        {
            r.push(self.keys[i]);
            assert(self.keys@.take(i + 1) =~= self.keys@.take(i as int).push(self.keys@[i as int]));
            i = i + 1;
        }
        assert(self.keys@.take(i as int) =~= self.keys@);
        r
    }
}

} // verus!
