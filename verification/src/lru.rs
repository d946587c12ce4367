use vstd::prelude::*;

verus! {

/// Keys that a recency cache can compare and copy by value.
pub trait CacheKey: Sized + View {
    /// Compares two keys by their views.
    fn key_eq(&self, other: &Self) -> (r: bool)
        ensures
            r == (self@ == other@),
    ;

    /// Copies a key.
    fn key_clone(&self) -> (r: Self)
        ensures
            r@ == self@,
    ;
}

impl CacheKey for u32 {
    fn key_eq(&self, other: &Self) -> (r: bool) {
        *self == *other
    }

    fn key_clone(&self) -> (r: Self) {
        *self
    }
}

impl CacheKey for u64 {
    fn key_eq(&self, other: &Self) -> (r: bool) {
        *self == *other
    }

    fn key_clone(&self) -> (r: Self) {
        *self
    }
}

impl CacheKey for usize {
    fn key_eq(&self, other: &Self) -> (r: bool) {
        *self == *other
    }

    fn key_clone(&self) -> (r: Self) {
        *self
    }
}

impl CacheKey for i32 {
    fn key_eq(&self, other: &Self) -> (r: bool) {
        *self == *other
    }

    fn key_clone(&self) -> (r: Self) {
        *self
    }
}

impl CacheKey for i64 {
    fn key_eq(&self, other: &Self) -> (r: bool) {
        *self == *other
    }

    fn key_clone(&self) -> (r: Self) {
        *self
    }
}

impl CacheKey for String {
    fn key_eq(&self, other: &Self) -> (r: bool) {
        crate::text::str_eq(self.as_str(), other.as_str())
    }

    fn key_clone(&self) -> (r: Self) {
        self.clone()
    }
}

/// The most entries a cache of the given capacity holds (a capacity of 0 still keeps
/// the entry inserted last).
pub open spec fn lru_bound(capacity: usize) -> nat {
    if capacity == 0 {
        1
    } else {
        capacity as nat
    }
}

/// Whether the recency sequence holds an entry for `k`.
pub open spec fn has_key<KV, V>(s: Seq<(KV, V)>, k: KV) -> bool {
    exists|i: int| 0 <= i < s.len() && s[i].0 == k
}

/// The position of the entry for `k` (meaningful when `has_key(s, k)`).
pub open spec fn find_key<KV, V>(s: Seq<(KV, V)>, k: KV) -> int {
    choose|i: int| 0 <= i < s.len() && s[i].0 == k
}

/// No key occurs twice.
pub open spec fn keys_unique<KV, V>(s: Seq<(KV, V)>) -> bool {
    forall|i: int, j: int| 0 <= i < s.len() && 0 <= j < s.len() && i != j ==> s[i].0 != s[j].0
}

/// The value stored for `k`, if any.
pub open spec fn lookup<KV, V>(s: Seq<(KV, V)>, k: KV) -> Option<V> {
    if has_key(s, k) {
        Some(s[find_key(s, k)].1)
    } else {
        None
    }
}

/// The recency sequence after an insertion of `(k, v)`: an existing entry for `k` is
/// replaced and becomes most recent; otherwise, when the cache is full, the least
/// recently used entry (the first) is evicted before the new entry is appended.
pub open spec fn after_insert<KV, V>(s: Seq<(KV, V)>, capacity: usize, k: KV, v: V) -> Seq<(KV, V)> {
    if has_key(s, k) {
        s.remove(find_key(s, k)).push((k, v))
    } else if s.len() >= capacity && s.len() > 0 {
        s.drop_first().push((k, v))
    } else {
        s.push((k, v))
    }
}

/// The entries of `s` that satisfy `keep`, in their order.
pub open spec fn kept<A>(s: Seq<A>, keep: spec_fn(A) -> bool) -> Seq<A>
    decreases s.len(),
{
    if s.len() == 0 {
        s
    } else if keep(s.last()) {
        kept(s.drop_last(), keep).push(s.last())
    } else {
        kept(s.drop_last(), keep)
    }
}

/// Every element kept from `s` occurs in `s`, and no more of them than `s` has.
pub proof fn lemma_kept_sub<A>(s: Seq<A>, keep: spec_fn(A) -> bool)
    ensures
        kept(s, keep).len() <= s.len(),
        forall|i: int| 0 <= i < kept(s, keep).len() ==> s.contains(#[trigger] kept(s, keep)[i]),
        forall|i: int| 0 <= i < kept(s, keep).len() ==> keep(#[trigger] kept(s, keep)[i]),
    decreases s.len(),
{
    if s.len() > 0 {
        let t = s.drop_last();
        lemma_kept_sub(t, keep);
        let k = kept(s, keep);
        assert forall|i: int| 0 <= i < k.len() implies s.contains(#[trigger] k[i]) && keep(k[i]) by {
            if i < kept(t, keep).len() {
                assert(t.contains(k[i]));
                let j = choose|j: int| 0 <= j < t.len() && t[j] == k[i];
                assert(s[j] == k[i]);
            } else {
                assert(k[i] == s.last());
                assert(s[s.len() - 1] == k[i]);
            }
        }
    }
}

/// Keeping from one more element of a sequence.
pub proof fn lemma_kept_take<A>(s: Seq<A>, keep: spec_fn(A) -> bool, i: int)
    requires
        0 <= i < s.len(),
    ensures
        kept(s.take(i + 1), keep) == if keep(s[i]) {
            kept(s.take(i), keep).push(s[i])
        } else {
            kept(s.take(i), keep)
        },
{
    assert(s.take(i + 1).drop_last() =~= s.take(i));
    assert(s.take(i + 1).last() == s[i]);
}

/// An element that passes the filter is kept.
pub proof fn lemma_kept_contains<A>(s: Seq<A>, keep: spec_fn(A) -> bool, i: int)
    requires
        0 <= i < s.len(),
        keep(s[i]),
    ensures
        kept(s, keep).contains(s[i]),
    decreases s.len(),
{
    let t = s.drop_last();
    if i == s.len() - 1 {
        assert(kept(s, keep) == kept(t, keep).push(s[i]));
        assert(kept(s, keep)[kept(t, keep).len() as int] == s[i]);
    } else {
        assert(t[i] == s[i]);
        lemma_kept_contains(t, keep, i);
        let j = choose|j: int| 0 <= j < kept(t, keep).len() && kept(t, keep)[j] == s[i];
        if keep(s.last()) {
            assert(kept(s, keep)[j] == kept(t, keep)[j]);
        }
    }
}

/// Keeping from a prefix gives a prefix of what is kept from the whole.
pub proof fn lemma_kept_prefix<A>(s: Seq<A>, keep: spec_fn(A) -> bool, i: int)
    requires
        0 <= i <= s.len(),
    ensures
        kept(s.take(i), keep).len() <= kept(s, keep).len(),
        kept(s, keep).take(kept(s.take(i), keep).len() as int) == kept(s.take(i), keep),
    decreases s.len(),
{
    if i == s.len() {
        assert(s.take(i) =~= s);
        assert(kept(s, keep).take(kept(s, keep).len() as int) =~= kept(s, keep));
    } else {
        let t = s.drop_last();
        assert(t.take(i) =~= s.take(i));
        lemma_kept_prefix(t, keep, i);
        let a = kept(t, keep);
        let p = kept(s.take(i), keep);
        if keep(s.last()) {
            assert(kept(s, keep) == a.push(s.last()));
            assert(kept(s, keep).take(p.len() as int) =~= a.take(p.len() as int));
        }
    }
}

/// Keeping by `p` and then by `q` keeps what satisfies both.
pub proof fn lemma_kept_twice<A>(s: Seq<A>, p: spec_fn(A) -> bool, q: spec_fn(A) -> bool)
    ensures
        kept(kept(s, p), q) == kept(s, |x: A| p(x) && q(x)),
    decreases s.len(),
{
    let pq = |x: A| p(x) && q(x);
    if s.len() > 0 {
        lemma_kept_twice(s.drop_last(), p, q);
        let x = s.last();
        if p(x) {
            let kp = kept(s, p);
            assert(kp.drop_last() == kept(s.drop_last(), p));
            assert(kp.last() == x);
        }
    }
}

/// Keeping by two predicates that agree on every element gives the same result.
pub proof fn lemma_kept_ext<A>(s: Seq<A>, p: spec_fn(A) -> bool, q: spec_fn(A) -> bool)
    requires
        forall|i: int| 0 <= i < s.len() ==> p(#[trigger] s[i]) == q(s[i]),
    ensures
        kept(s, p) == kept(s, q),
    decreases s.len(),
{
    if s.len() > 0 {
        let t = s.drop_last();
        assert forall|i: int| 0 <= i < t.len() implies p(#[trigger] t[i]) == q(t[i]) by {
            assert(t[i] == s[i]);
        }
        lemma_kept_ext(t, p, q);
        assert(p(s[s.len() - 1]) == q(s[s.len() - 1]));
    }
}

/// The recency sequence after removing the entry for `k`.
pub open spec fn after_remove<KV, V>(s: Seq<(KV, V)>, k: KV) -> Seq<(KV, V)> {
    if has_key(s, k) {
        s.remove(find_key(s, k))
    } else {
        s
    }
}

/// Removing the entry at `i` and appending an entry with the same key keeps keys unique.
pub proof fn lemma_move_to_back_unique<KV, V>(s: Seq<(KV, V)>, i: int, v: V)
    requires
        keys_unique(s),
        0 <= i < s.len(),
    ensures
        keys_unique(s.remove(i).push((s[i].0, v))),
{
    let t = s.remove(i).push((s[i].0, v));
    assert forall|a: int, b: int| 0 <= a < t.len() && 0 <= b < t.len() && a != b implies t[a].0 != t[b].0 by {
        let ia = if a < i { a } else if a < s.len() - 1 { a + 1 } else { i };
        let ib = if b < i { b } else if b < s.len() - 1 { b + 1 } else { i };
        assert(t[a].0 == s[ia].0);
        assert(t[b].0 == s[ib].0);
    }
}

/// With unique keys, the entry found for a key is the one at its position.
pub proof fn lemma_find_key_unique<KV, V>(s: Seq<(KV, V)>, i: int)
    requires
        keys_unique(s),
        0 <= i < s.len(),
    ensures
        has_key(s, s[i].0),
        find_key(s, s[i].0) == i,
        lookup(s, s[i].0) == Some(s[i].1),
{
    let f = find_key(s, s[i].0);
    assert(0 <= f < s.len() && s[f].0 == s[i].0);
}

/// Law (read after write): right after `insert(k, v)`, looking up `k` yields `v`.
pub proof fn law_lookup_after_insert<KV, V>(s: Seq<(KV, V)>, capacity: usize, k: KV, v: V)
    requires
        keys_unique(s),
    ensures
        lookup(after_insert(s, capacity, k, v), k) == Some(v),
{
    let t = after_insert(s, capacity, k, v);
    lemma_insert_keeps_bounds(s, capacity, k, v);
    lemma_find_key_unique(t, t.len() - 1);
}

/// Law (invariant): insertion keeps keys unique and never lets the cache grow beyond its
/// capacity (or beyond one entry for a capacity of 0).
pub proof fn law_insert_keeps_bounds<KV, V>(s: Seq<(KV, V)>, capacity: usize, k: KV, v: V)
    requires
        keys_unique(s),
        s.len() <= lru_bound(capacity),
    ensures
        keys_unique(after_insert(s, capacity, k, v)),
        after_insert(s, capacity, k, v).len() <= lru_bound(capacity),
        has_key(s, k) ==> after_insert(s, capacity, k, v).len() == s.len(),
{
    lemma_insert_keeps_bounds(s, capacity, k, v);
}

proof fn lemma_insert_keeps_bounds<KV, V>(s: Seq<(KV, V)>, capacity: usize, k: KV, v: V)
    requires
        keys_unique(s),
    ensures
        keys_unique(after_insert(s, capacity, k, v)),
        s.len() <= lru_bound(capacity) ==> after_insert(s, capacity, k, v).len() <= lru_bound(capacity),
        has_key(s, k) ==> after_insert(s, capacity, k, v).len() == s.len(),
        after_insert(s, capacity, k, v).len() > 0,
        after_insert(s, capacity, k, v).last() == (k, v),
{
    let t = after_insert(s, capacity, k, v);
    if has_key(s, k) {
        let i = find_key(s, k);
        lemma_move_to_back_unique(s, i, v);
    } else {
        let base = if s.len() >= capacity && s.len() > 0 { s.drop_first() } else { s };
        assert(t == base.push((k, v)));
        assert forall|a: int, b: int| 0 <= a < t.len() && 0 <= b < t.len() && a != b implies t[a].0 != t[b].0 by {
            if s.len() >= capacity && s.len() > 0 {
                if a < base.len() {
                    assert(t[a] == s[a + 1]);
                }
                if b < base.len() {
                    assert(t[b] == s[b + 1]);
                }
            } else {
                if a < base.len() {
                    assert(t[a] == s[a]);
                }
                if b < base.len() {
                    assert(t[b] == s[b]);
                }
            }
        }
    }
}

/// Law (eviction order): inserting a new key into a full cache evicts exactly the least
/// recently used entry; every other entry keeps its value.
pub proof fn law_insert_evicts_least_recent<KV, V>(s: Seq<(KV, V)>, capacity: usize, k: KV, v: V, k2: KV)
    requires
        keys_unique(s),
        k2 != k,
    ensures
        (!has_key(s, k) && s.len() >= capacity && s.len() > 0) ==> !has_key(
            after_insert(s, capacity, k, v),
            s[0].0,
        ),
        !(!has_key(s, k) && s.len() >= capacity && s.len() > 0 && s[0].0 == k2) ==> lookup(
            after_insert(s, capacity, k, v),
            k2,
        ) == lookup(s, k2),
{
    let t = after_insert(s, capacity, k, v);
    lemma_insert_keeps_bounds(s, capacity, k, v);
    if !has_key(s, k) && s.len() >= capacity && s.len() > 0 {
        if has_key(t, s[0].0) {
            let j = find_key(t, s[0].0);
            if j < t.len() - 1 {
                assert(t[j] == s[j + 1]);
            }
        }
    }
    if !(!has_key(s, k) && s.len() >= capacity && s.len() > 0 && s[0].0 == k2) {
        if has_key(s, k2) {
            let i = find_key(s, k2);
            lemma_find_key_unique(s, i);
            let j: int = if has_key(s, k) {
                let f = find_key(s, k);
                if i < f { i } else { i - 1 }
            } else if s.len() >= capacity && s.len() > 0 {
                i - 1
            } else {
                i
            };
            assert(t[j] == s[i]);
            lemma_find_key_unique(t, j);
        } else {
            if has_key(t, k2) {
                let j = find_key(t, k2);
                if j < t.len() - 1 {
                    if has_key(s, k) {
                        let f = find_key(s, k);
                        if j < f {
                            assert(t[j] == s[j]);
                        } else {
                            assert(t[j] == s[j + 1]);
                        }
                    } else if s.len() >= capacity && s.len() > 0 {
                        assert(t[j] == s[j + 1]);
                    } else {
                        assert(t[j] == s[j]);
                    }
                }
            }
        }
    }
}

/// Law: after `remove(k)` no entry for `k` is left, and other keys keep their values.
pub proof fn law_remove_deletes_only_key<KV, V>(s: Seq<(KV, V)>, k: KV, k2: KV)
    requires
        keys_unique(s),
    ensures
        lookup(after_remove(s, k), k) is None,
        keys_unique(after_remove(s, k)),
        k2 != k ==> lookup(after_remove(s, k), k2) == lookup(s, k2),
{
    let t = after_remove(s, k);
    if has_key(s, k) {
        let f = find_key(s, k);
        assert forall|a: int, b: int| 0 <= a < t.len() && 0 <= b < t.len() && a != b implies t[a].0 != t[b].0 by {
            let ia = if a < f { a } else { a + 1 };
            let ib = if b < f { b } else { b + 1 };
            assert(t[a] == s[ia]);
            assert(t[b] == s[ib]);
        }
        if has_key(t, k) {
            let j = find_key(t, k);
            let ij = if j < f { j } else { j + 1 };
            assert(t[j] == s[ij]);
        }
        if k2 != k {
            if has_key(s, k2) {
                let i = find_key(s, k2);
                lemma_find_key_unique(s, i);
                let j = if i < f { i } else { i - 1 };
                assert(t[j] == s[i]);
                lemma_find_key_unique(t, j);
            } else if has_key(t, k2) {
                let j = find_key(t, k2);
                let ij = if j < f { j } else { j + 1 };
                assert(t[j] == s[ij]);
            }
        }
    }
}

/// Law: a lookup that finds `k` only reorders — moving the entry to the most recent
/// position leaves every key's value as it was.
pub proof fn law_touch_keeps_contents<KV, V>(s: Seq<(KV, V)>, k: KV, k2: KV)
    requires
        keys_unique(s),
        has_key(s, k),
    ensures
        keys_unique(s.remove(find_key(s, k)).push(s[find_key(s, k)])),
        lookup(s.remove(find_key(s, k)).push(s[find_key(s, k)]), k2) == lookup(s, k2),
        s.remove(find_key(s, k)).push(s[find_key(s, k)]).last().0 == k,
{
    let f = find_key(s, k);
    let t = s.remove(f).push(s[f]);
    lemma_move_to_back_unique(s, f, s[f].1);
    assert(t == s.remove(f).push((s[f].0, s[f].1)));
    if has_key(s, k2) {
        let i = find_key(s, k2);
        lemma_find_key_unique(s, i);
        let j = if i == f { t.len() - 1 } else if i < f { i } else { i - 1 };
        assert(t[j] == s[i]);
        lemma_find_key_unique(t, j);
    } else if has_key(t, k2) {
        let j = find_key(t, k2);
        let ij = if j == t.len() - 1 { f } else if j < f { j } else { j + 1 };
        assert(t[j] == s[ij]);
    }
}

/// Least-recently-used cache: a bounded map whose entries are kept in order of use,
/// the least recently used first.
#[derive(Debug)]
pub struct LruCache<K: CacheKey, V> {
    entries: Vec<(K, V)>,
    capacity: usize,
}

impl<K: CacheKey, V> View for LruCache<K, V> {
    type V = Seq<(K::V, V)>;

    closed spec fn view(&self) -> Seq<(K::V, V)> {
        self.entries@.map_values(|e: (K, V)| (e.0@, e.1))
    }
}

impl<K: CacheKey, V> LruCache<K, V> {
    /// The capacity the cache was made with.
    pub closed spec fn cap(&self) -> usize {
        self.capacity
    }

    /// Keys are unique and the size stays within the capacity.
    pub closed spec fn wf(&self) -> bool {
        &&& forall|i: int, j: int|
            0 <= i < self.entries@.len() && 0 <= j < self.entries@.len() && i != j
                ==> #[trigger] self.entries@[i].0@ != #[trigger] self.entries@[j].0@
        &&& self.entries@.len() <= lru_bound(self.capacity)
    }

    /// What validity means for the recency sequence.
    pub proof fn lemma_wf(&self)
        ensures
            self.wf() <==> (keys_unique(self@) && self@.len() <= lru_bound(self.cap())),
    {
        self.lemma_view_len();
        if keys_unique(self@) {
            assert forall|i: int, j: int|
                0 <= i < self.entries@.len() && 0 <= j < self.entries@.len() && i != j
                    implies #[trigger] self.entries@[i].0@ != #[trigger] self.entries@[j].0@ by {
                assert(self@[i].0 == self.entries@[i].0@);
                assert(self@[j].0 == self.entries@[j].0@);
            }
        }
        if self.wf() {
            assert forall|i: int, j: int|
                0 <= i < self@.len() && 0 <= j < self@.len() && i != j implies self@[i].0
                    != self@[j].0 by {
                assert(self@[i].0 == self.entries@[i].0@);
                assert(self@[j].0 == self.entries@[j].0@);
            }
        }
    }

    proof fn lemma_view_len(&self)
        ensures
            self@.len() == self.entries@.len(),
            forall|i: int|
                0 <= i < self.entries@.len() ==> #[trigger] self@[i] == (
                self.entries@[i].0@,
                self.entries@[i].1,
            ),
    {
    }

    /// An empty cache with the given capacity.
    pub fn new(capacity: usize) -> (r: Self)
        ensures
            r.wf(),
            r@ == Seq::<(K::V, V)>::empty(),
            r.cap() == capacity,
    {
        let r = LruCache { entries: Vec::new(), capacity };
        assert(r@ =~= Seq::<(K::V, V)>::empty());
        proof {
            r.lemma_wf();
        }
        r
    }

    fn position(&self, key: &K) -> (r: Option<usize>)
        requires
            self.wf(),
        ensures
            match r {
                Some(i) => i < self@.len() && has_key(self@, key@) && i == find_key(self@, key@),
                None => !has_key(self@, key@),
            },
    {
        proof {
            self.lemma_view_len();
        }
        let mut i: usize = 0;
        while i < self.entries.len()
            invariant
                i <= self.entries@.len(),
                self.wf(),
                self@.len() == self.entries@.len(),
                forall|j: int| 0 <= j < i ==> self@[j].0 != key@,
            decreases self.entries@.len() - i,
        {
            if self.entries[i].0.key_eq(key) {
                proof {
                    self.lemma_view_len();
                    assert(self@[i as int].0 == key@);
                    let f = find_key(self@, key@);
                    assert(0 <= f < self@.len() && self@[f].0 == key@);
                }
                return Some(i);
            }
            proof {
                self.lemma_view_len();
            }
            i = i + 1;
        }
        None
    }

    /// Whether an entry for `key` is present (does not change the recency order).
    pub fn contains_key(&self, key: &K) -> (r: bool)
        requires
            self.wf(),
        ensures
            r == has_key(self@, key@),
    {
        self.position(key).is_some()
    }

    /// Looks up `key`; when present its entry becomes the most recently used and a
    /// mutable reference to its value is returned.
    pub fn get(&mut self, key: &K) -> (r: Option<&mut V>)
        requires
            old(self).wf(),
        ensures
            final(self).cap() == old(self).cap(),
            r is None <==> !has_key(old(self)@, key@),
            r is None ==> final(self)@ == old(self)@,
            r matches Some(v) ==> {
                &&& *v == old(self)@[find_key(old(self)@, key@)].1
                &&& final(self)@ == old(self)@.remove(find_key(old(self)@, key@)).push(
                    (key@, *final(v)),
                )
            },
            final(self).wf(),
    {
        match self.position(key) {
            None => None,
            Some(i) => {
                proof {
                    self.lemma_view_len();
                }
                let entry = self.entries.remove(i);
                self.entries.push(entry);
                let last = self.entries.len() - 1;
                proof {
                    self.lemma_view_len();
                    old(self).lemma_wf();
                    lemma_move_to_back_unique(old(self)@, i as int, old(self)@[i as int].1);
                    assert(self@ =~= old(self)@.remove(i as int).push(old(self)@[i as int]));
                    self.lemma_wf();
                }
                Some(&mut self.entries[last].1)
            },
        }
    }

    /// Inserts or replaces the value for `key`; the entry becomes the most recently
    /// used. A new key in a full cache first evicts the least recently used entry.
    pub fn insert(&mut self, key: K, value: V)
        requires
            old(self).wf(),
        ensures
            final(self).cap() == old(self).cap(),
            final(self)@ == after_insert(old(self)@, old(self).cap(), key@, value),
            final(self).wf(),
    {
        let ghost s = self@;
        let ghost kv = key@;
        proof {
            self.lemma_view_len();
            self.lemma_wf();
        }
        match self.position(&key) {
            Some(i) => {
                let _ = self.entries.remove(i);
                self.entries.push((key, value));
                proof {
                    self.lemma_view_len();
                    lemma_move_to_back_unique(s, i as int, value);
                    assert(self@ =~= s.remove(i as int).push((kv, value)));
                    self.lemma_wf();
                }
            },
            None => {
                if self.entries.len() >= self.capacity && self.entries.len() > 0 {
                    let _ = self.entries.remove(0);
                    proof {
                        self.lemma_view_len();
                        assert(self@ =~= s.drop_first());
                    }
                }
                let ghost before_push = self@;
                self.entries.push((key, value));
                proof {
                    self.lemma_view_len();
                    assert(self@ =~= before_push.push((kv, value)));
                    assert forall|a: int, b: int|
                        0 <= a < self@.len() && 0 <= b < self@.len() && a != b implies self@[a].0
                        != self@[b].0 by {
                        if a < before_push.len() && b < before_push.len() {
                            if s.len() >= self.capacity && s.len() > 0 {
                                assert(before_push[a] == s[a + 1]);
                                assert(before_push[b] == s[b + 1]);
                            } else {
                                assert(before_push[a] == s[a]);
                                assert(before_push[b] == s[b]);
                            }
                        } else if a < before_push.len() {
                            if s.len() >= self.capacity && s.len() > 0 {
                                assert(before_push[a] == s[a + 1]);
                            }
                        } else if b < before_push.len() {
                            if s.len() >= self.capacity && s.len() > 0 {
                                assert(before_push[b] == s[b + 1]);
                            }
                        }
                    }
                    self.lemma_wf();
                }
            },
        }
    }

    /// Removes the entry for `key` and returns its value.
    pub fn remove(&mut self, key: &K) -> (r: Option<V>)
        requires
            old(self).wf(),
        ensures
            final(self).cap() == old(self).cap(),
            r == lookup(old(self)@, key@),
            final(self)@ == after_remove(old(self)@, key@),
            final(self).wf(),
    {
        let ghost s = self@;
        proof {
            self.lemma_view_len();
            self.lemma_wf();
        }
        match self.position(key) {
            Some(i) => {
                let (_, v) = self.entries.remove(i);
                proof {
                    self.lemma_view_len();
                    assert(self@ =~= s.remove(i as int));
                    assert forall|a: int, b: int|
                        0 <= a < self@.len() && 0 <= b < self@.len() && a != b implies self@[a].0
                        != self@[b].0 by {
                        let ia = if a < i { a } else { a + 1 };
                        let ib = if b < i { b } else { b + 1 };
                        assert(self@[a] == s[ia]);
                        assert(self@[b] == s[ib]);
                    }
                    self.lemma_wf();
                }
                Some(v)
            },
            None => None,
        }
    }

    /// Copies of the keys, least recently used first.
    pub fn keys(&self) -> (r: Vec<K>)
        ensures
            r@.len() == self@.len(),
            forall|i: int| 0 <= i < r@.len() ==> (#[trigger] r@[i])@ == self@[i].0,
    {
        proof {
            self.lemma_view_len();
        }
        let mut r: Vec<K> = Vec::new();
        let mut i: usize = 0;
        while i < self.entries.len()
            invariant
                i <= self.entries@.len(),
                r@.len() == i,
                self@.len() == self.entries@.len(),
                forall|j: int| 0 <= j < i ==> (#[trigger] r@[j])@ == self@[j].0,
            decreases self.entries@.len() - i,
        {
            r.push(self.entries[i].0.key_clone());
            proof {
                self.lemma_view_len();
            }
            i = i + 1;
        }
        r
    }

    /// Drops the entries flagged in `drop` (one flag per entry, in recency order) and
    /// keeps the others in their order.
    pub(crate) fn retain_where(&mut self, drop: &Vec<bool>, Ghost(keep): Ghost<spec_fn((K::V, V)) -> bool>)
        requires
            old(self).wf(),
            drop@.len() == old(self)@.len(),
            forall|i: int| 0 <= i < drop@.len() ==> #[trigger] drop@[i] == !keep(old(self)@[i]),
        ensures
            final(self).cap() == old(self).cap(),
            final(self)@ == kept(old(self)@, keep),
            final(self).wf(),
    {
        let ghost s = self@;
        proof {
            self.lemma_view_len();
            self.lemma_wf();
        }
        let mut rest: Vec<(K, V)> = Vec::new();
        std::mem::swap(&mut rest, &mut self.entries);
        let ghost orig = rest@;
        let n: usize = rest.len();
        let mut i: usize = 0;
        while rest.len() > 0
            invariant
                orig.len() == s.len(),
                orig.len() == n,
                forall|j: int| 0 <= j < orig.len() ==> #[trigger] s[j] == (orig[j].0@, orig[j].1),
                keys_unique(s),
                i <= orig.len(),
                rest@ == orig.subrange(i as int, orig.len() as int),
                drop@.len() == s.len(),
                forall|j: int| 0 <= j < drop@.len() ==> #[trigger] drop@[j] == !keep(s[j]),
                self@ == kept(s.take(i as int), keep),
                self@.len() == self.entries@.len(),
                self.entries@.len() <= i,
                self.capacity == old(self).capacity,
                keys_unique(self@),
            decreases rest@.len(),
        {
            proof {
                assert(rest@.len() == orig.len() - i);
            }
            let e = rest.remove(0);
            proof {
                assert(e == orig[i as int]);
                lemma_kept_sub(s.take(i as int), keep);
                assert(s.take(i + 1).drop_last() =~= s.take(i as int));
                assert(s.take(i + 1).last() == s[i as int]);
            }
            if !drop[i] {
                let ghost before = self@;
                self.entries.push(e);
                proof {
                    self.lemma_view_len();
                    assert(self@ =~= before.push(s[i as int]));
                    assert forall|a: int, b: int|
                        0 <= a < self@.len() && 0 <= b < self@.len() && a != b implies self@[a].0
                        != self@[b].0 by {
                        if a < before.len() && b < before.len() {
                        } else if a < before.len() {
                            assert(s.take(i as int).contains(before[a]));
                            let j = choose|j: int| 0 <= j < i && s.take(i as int)[j] == before[a];
                            assert(s[j] == before[a]);
                        } else if b < before.len() {
                            assert(s.take(i as int).contains(before[b]));
                            let j = choose|j: int| 0 <= j < i && s.take(i as int)[j] == before[b];
                            assert(s[j] == before[b]);
                        }
                    }
                }
            }
            i = i + 1;
        }
        proof {
            assert(s.take(s.len() as int) =~= s);
            lemma_kept_sub(s, keep);
            self.lemma_wf();
        }
    }

    /// Removes every entry.
    pub fn clear(&mut self)
        requires
            old(self).wf(),
        ensures
            final(self).cap() == old(self).cap(),
            final(self)@ == Seq::<(K::V, V)>::empty(),
            final(self).wf(),
    {
        self.entries.clear();
        proof {
            assert(self@ =~= Seq::<(K::V, V)>::empty());
            self.lemma_wf();
        }
    }

    /// Number of entries.
    pub fn len(&self) -> (r: usize)
        ensures
            r == self@.len(),
    {
        proof {
            self.lemma_view_len();
        }
        self.entries.len()
    }

    /// Whether there is no entry.
    pub fn is_empty(&self) -> (r: bool)
        ensures
            r == (self@.len() == 0),
    {
        proof {
            self.lemma_view_len();
        }
        self.entries.len() == 0
    }

    /// The capacity the cache was made with.
    pub fn capacity(&self) -> (r: usize)
        ensures
            r == self.cap(),
    {
        self.capacity
    }
}

} // verus!
