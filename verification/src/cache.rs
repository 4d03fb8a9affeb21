//! A fixed-capacity cache with least-recently-used eviction.
//!
//! `Cache<K, V>` keeps at most `size` entries.  Every entry carries a
//! rank taken from a strictly increasing counter (`max_index`); a `get`
//! or `put` of a key refreshes its rank to a fresh counter value, so the
//! entry with the lowest rank is always the least recently used one and
//! the only eviction candidate.
//!
//! The abstract state of a cache is a sequence of `EntryModel` values in
//! ascending rank order (oldest first); the spec functions `put_model`
//! and `get_model` say how `put` and `get` transform it.

use vstd::prelude::*;

verus! {

/// The abstract content of one cache entry: the key's and value's
/// mathematical views, and the recency rank.
pub struct EntryModel<KV, VV> {
    pub key: KV,
    pub rank: nat,
    pub value: VV,
}

/// Whether some entry of `s` holds the key `k`.
pub open spec fn has_key<KV, VV>(s: Seq<EntryModel<KV, VV>>, k: KV) -> bool {
    exists|i: int| 0 <= i < s.len() && s[i].key == k
}

/// The position of the entry holding `k`, meaningful when `has_key(s, k)`.
pub open spec fn idx_of<KV, VV>(s: Seq<EntryModel<KV, VV>>, k: KV) -> int {
    choose|i: int| 0 <= i < s.len() && s[i].key == k
}

/// The rank of the entry holding `k`, meaningful when `has_key(s, k)`.
pub open spec fn rank_of<KV, VV>(s: Seq<EntryModel<KV, VV>>, k: KV) -> nat {
    s[idx_of(s, k)].rank
}

/// The value of the entry holding `k`, meaningful when `has_key(s, k)`.
pub open spec fn value_of<KV, VV>(s: Seq<EntryModel<KV, VV>>, k: KV) -> VV {
    s[idx_of(s, k)].value
}

/// Well-formedness of a cache's abstract state with capacity `cap` and
/// rank counter `nr`: within capacity, ranks strictly increasing along
/// the sequence (hence distinct, with the minimum first), every rank
/// drawn from `1..=nr`, and keys pairwise distinct.
pub open spec fn wf_entries<KV, VV>(s: Seq<EntryModel<KV, VV>>, cap: nat, nr: nat) -> bool {
    &&& s.len() <= cap
    &&& forall|i: int, j: int| 0 <= i < j < s.len() ==> s[i].rank < s[j].rank
    &&& forall|i: int| 0 <= i < s.len() ==> 1 <= #[trigger] s[i].rank <= nr
    &&& forall|i: int, j: int| 0 <= i < s.len() && 0 <= j < s.len() && i != j ==> s[i].key
        != s[j].key
}

/// How `put` transforms the abstract state: a present key is re-entered
/// at the newest position with rank `nr + 1` and the new value; an
/// absent key is appended, after dropping the oldest entry if the cache
/// is full.
pub open spec fn put_model<KV, VV>(
    s: Seq<EntryModel<KV, VV>>,
    cap: nat,
    nr: nat,
    k: KV,
    v: VV,
) -> Seq<EntryModel<KV, VV>> {
    let fresh = EntryModel { key: k, rank: (nr + 1) as nat, value: v };
    if has_key(s, k) {
        s.remove(idx_of(s, k)).push(fresh)
    } else if s.len() < cap {
        s.push(fresh)
    } else {
        s.drop_first().push(fresh)
    }
}

/// How `get` transforms the abstract state: a present key keeps its
/// value but moves to the newest position with rank `nr + 1`; a miss
/// changes nothing.
pub open spec fn get_model<KV, VV>(s: Seq<EntryModel<KV, VV>>, nr: nat, k: KV) -> Seq<
    EntryModel<KV, VV>,
> {
    if has_key(s, k) {
        s.remove(idx_of(s, k)).push(
            EntryModel { key: k, rank: (nr + 1) as nat, value: value_of(s, k) },
        )
    } else {
        s
    }
}

/// A key type of the cache: the executable equality test must decide
/// equality of the keys' mathematical views.
pub trait CacheKey: DeepView + Sized {
    /// Whether `self` and `other` are the same key.
    fn eq_key(&self, other: &Self) -> (r: bool)
        ensures
            r <==> self.deep_view() == other.deep_view(),
    ;
}

impl CacheKey for usize {
    fn eq_key(&self, other: &Self) -> (r: bool) {
        *self == *other
    }
}

impl CacheKey for String {
    fn eq_key(&self, other: &Self) -> (r: bool) {
        self.eq(other)
    }
}

/// Relies on `<str as PartialEq>::eq`: two string slices compare equal
/// exactly when they hold the same text, that is, when their views are
/// the same sequence of characters.
pub assume_specification[ <str as PartialEq<str>>::eq ](x: &str, y: &str) -> (r: bool)
    ensures
        r == (x@ == y@),
;

impl<'a> CacheKey for &'a str {
    fn eq_key(&self, other: &Self) -> (r: bool) {
        let a: &str = *self;
        let b: &str = *other;
        a.eq(b)
    }
}

/// One stored cache entry: the value together with its recency rank.
#[derive(Debug, Clone)]
pub struct Element<V> {
    pub index: usize,
    pub value: V,
}

/// A least-recently-used cache with fixed capacity `size`.
///
/// The entries are held in ascending rank order, oldest first, so the
/// front entry is always the eviction candidate.  `max_index` is the
/// strictly increasing rank counter; it never decreases, not even
/// across evictions.
#[derive(Debug, Clone)]
pub struct Cache<K, V> {
    entries: Vec<(K, Element<V>)>,
    size: usize,
    max_index: usize,
}

/// The operations of a least-recently-used cache over keys `K` and
/// values `V`, together with the spec-level state they are specified
/// against: a well-formed sequence of entries in ascending rank order
/// (`model`), a capacity (`cap`) and a rank counter (`next_rank`).
pub trait CacheTrait<K: DeepView, V: DeepView>: Sized {
    /// The cache's invariant, established by `new` and preserved by
    /// every operation.
    spec fn inv(&self) -> bool;

    /// The entries, oldest first.
    spec fn model(&self) -> Seq<EntryModel<K::V, V::V>>;

    /// The capacity.
    spec fn cap(&self) -> nat;

    /// The current value of the rank counter.
    spec fn next_rank(&self) -> nat;

    /// Creates an empty cache with the given capacity.
    fn new(size: usize) -> (r: Self)
        requires
            size >= 1,
        ensures
            r.inv(),
            r.model() == Seq::<EntryModel<K::V, V::V>>::empty(),
            r.cap() == size,
            r.next_rank() == 0,
    ;

    /// Looks a key up.  On a hit the entry's rank is refreshed to the
    /// new counter value, now the strict maximum among all entries, and
    /// the value is returned unchanged; a miss changes nothing.
    fn get(&mut self, key: &K) -> (r: Option<&V>)
        requires
            old(self).inv(),
            has_key(old(self).model(), key.deep_view()) ==> old(self).next_rank() < usize::MAX,
        ensures
            final(self).inv(),
            final(self).cap() == old(self).cap(),
            final(self).model() == get_model(
                old(self).model(),
                old(self).next_rank(),
                key.deep_view(),
            ),
            has_key(old(self).model(), key.deep_view()) ==> {
                &&& r matches Some(v) && v.deep_view() == value_of(
                    old(self).model(),
                    key.deep_view(),
                )
                &&& final(self).next_rank() == old(self).next_rank() + 1
                &&& rank_of(final(self).model(), key.deep_view()) == final(self).next_rank()
                &&& forall|kk: K::V|
                    has_key(final(self).model(), kk) && kk != key.deep_view() ==> rank_of(
                        final(self).model(),
                        kk,
                    ) < final(self).next_rank()
            },
            !has_key(old(self).model(), key.deep_view()) ==> r is None && *final(self) == *old(
                self,
            ),
    ;

    /// Inserts or updates a key.  An existing key keeps its place in the
    /// map but is refreshed to the new counter value, the strict maximum
    /// among all entries, and the prior value is returned.  A new key is
    /// inserted with that fresh rank, after evicting the entry with the
    /// lowest rank if the cache is full; `None` is returned.
    fn put(&mut self, key: K, value: V) -> (r: Option<V>)
        requires
            old(self).inv(),
            old(self).next_rank() < usize::MAX,
        ensures
            final(self).inv(),
            final(self).cap() == old(self).cap(),
            final(self).next_rank() == old(self).next_rank() + 1,
            final(self).model() == put_model(
                old(self).model(),
                old(self).cap(),
                old(self).next_rank(),
                key.deep_view(),
                value.deep_view(),
            ),
            has_key(old(self).model(), key.deep_view()) ==> (r matches Some(v) && v.deep_view()
                == value_of(old(self).model(), key.deep_view())),
            !has_key(old(self).model(), key.deep_view()) ==> r is None,
            has_key(final(self).model(), key.deep_view()),
            value_of(final(self).model(), key.deep_view()) == value.deep_view(),
            rank_of(final(self).model(), key.deep_view()) == final(self).next_rank(),
            forall|kk: K::V|
                has_key(final(self).model(), kk) && kk != key.deep_view() ==> rank_of(
                    final(self).model(),
                    kk,
                ) < final(self).next_rank(),
    ;

    /// Reads an entry (value and rank) without touching the recency
    /// order or the counter.
    fn get_elt(&self, key: &K) -> (r: Option<&Element<V>>)
        requires
            self.inv(),
        ensures
            match r {
                Some(e) => {
                    &&& has_key(self.model(), key.deep_view())
                    &&& e.index as nat == rank_of(self.model(), key.deep_view())
                    &&& e.value.deep_view() == value_of(self.model(), key.deep_view())
                },
                None => !has_key(self.model(), key.deep_view()),
            },
    ;
}

impl<K: CacheKey, V: DeepView> Cache<K, V> {
    /// The position of the stored entry whose key matches `key`.
    fn find_index(&self, key: &K) -> (r: Option<usize>)
        ensures
            match r {
                Some(i) => i < self.model().len() && self.model()[i as int].key
                    == key.deep_view(),
                None => !has_key(self.model(), key.deep_view()),
            },
    {
        let n = self.entries.len();
        let mut i: usize = 0;
        while i < n
            invariant
                n == self.model().len(),
                i <= n,
                forall|j: int| 0 <= j < i ==> self.model()[j].key != key.deep_view(),
            decreases n - i,
        {
            if self.entries[i].0.eq_key(key) {
                return Some(i);
            }
            i = i + 1;
        }
        None
    }

    /// The key and entry at position `i` of the recency order.
    pub(crate) fn entry_at(&self, i: usize) -> (r: (&K, &Element<V>))
        requires
            i < self.model().len(),
        ensures
            r.0.deep_view() == self.model()[i as int].key,
            r.1.index as nat == self.model()[i as int].rank,
            r.1.value.deep_view() == self.model()[i as int].value,
    {
        let e = &self.entries[i];
        (&e.0, &e.1)
    }

    /// The number of entries currently held.
    pub fn len(&self) -> (r: usize)
        ensures
            r == self.model().len(),
    {
        self.entries.len()
    }

    /// Whether the cache holds no entry.
    pub fn is_empty(&self) -> (r: bool)
        ensures
            r <==> self.model().len() == 0,
    {
        self.entries.is_empty()
    }

    /// The capacity the cache was created with.
    pub fn size(&self) -> (r: usize)
        ensures
            r == self.cap(),
    {
        self.size
    }

    /// The current value of the rank counter.
    pub fn max_index(&self) -> (r: usize)
        ensures
            r == self.next_rank(),
    {
        self.max_index
    }

    /// Whether the cache holds an entry for `key`, without touching the
    /// recency order.
    pub fn contains_key(&self, key: &K) -> (r: bool)
        ensures
            r <==> has_key(self.model(), key.deep_view()),
    {
        match self.find_index(key) {
            Some(_) => true,
            None => false,
        }
    }
}

impl<K: CacheKey, V: DeepView> CacheTrait<K, V> for Cache<K, V> {
    open spec fn inv(&self) -> bool {
        self.cap() >= 1 && wf_entries(self.model(), self.cap(), self.next_rank())
    }

    closed spec fn model(&self) -> Seq<EntryModel<K::V, V::V>> {
        Seq::new(
            self.entries@.len(),
            |i: int|
                EntryModel {
                    key: self.entries@[i].0.deep_view(),
                    rank: self.entries@[i].1.index as nat,
                    value: self.entries@[i].1.value.deep_view(),
                },
        )
    }

    closed spec fn cap(&self) -> nat {
        self.size as nat
    }

    closed spec fn next_rank(&self) -> nat {
        self.max_index as nat
    }

    fn new(size: usize) -> (r: Self) {
        let r = Cache { entries: Vec::new(), size, max_index: 0 };
        proof {
            assert(r.model() =~= Seq::<EntryModel<K::V, V::V>>::empty());
        }
        r
    }

    fn get(&mut self, key: &K) -> (r: Option<&V>) {
        match self.find_index(key) {
            Some(i) => {
                proof {
                    lemma_key_lookup(self.model(), key.deep_view(), i as int);
                }
                let (k0, el) = self.entries.remove(i);
                self.max_index = self.max_index + 1;
                self.entries.push((k0, Element { index: self.max_index, value: el.value }));
                proof {
                    let m0 = old(self).model();
                    let kdv = key.deep_view();
                    assert(self.model() =~= get_model(m0, old(self).next_rank(), kdv));
                    lemma_refresh_wf(m0, self.cap(), old(self).next_rank(), kdv, self.model());
                }
                let n = self.entries.len();
                Some(&self.entries[n - 1].1.value)
            },
            None => {
                proof {
                    assert(self.model() =~= get_model(
                        old(self).model(),
                        old(self).next_rank(),
                        key.deep_view(),
                    ));
                }
                None
            },
        }
    }

    fn put(&mut self, key: K, value: V) -> (r: Option<V>) {
        let ghost m0 = self.model();
        let ghost kdv = key.deep_view();
        match self.find_index(&key) {
            Some(i) => {
                proof {
                    lemma_key_lookup(m0, kdv, i as int);
                }
                let (_old_key, el) = self.entries.remove(i);
                let old_value = el.value;
                self.max_index = self.max_index + 1;
                self.entries.push((key, Element { index: self.max_index, value }));
                proof {
                    assert(self.model() =~= put_model(
                        m0,
                        old(self).cap(),
                        old(self).next_rank(),
                        kdv,
                        value.deep_view(),
                    ));
                    lemma_refresh_wf(m0, self.cap(), old(self).next_rank(), kdv, self.model());
                }
                Some(old_value)
            },
            None => {
                if self.entries.len() >= self.size {
                    let _ = self.entries.remove(0);
                }
                self.max_index = self.max_index + 1;
                self.entries.push((key, Element { index: self.max_index, value }));
                proof {
                    assert(self.model() =~= put_model(
                        m0,
                        old(self).cap(),
                        old(self).next_rank(),
                        kdv,
                        value.deep_view(),
                    ));
                    lemma_append_wf(m0, self.cap(), old(self).next_rank(), kdv, self.model());
                }
                None
            },
        }
    }

    fn get_elt(&self, key: &K) -> (r: Option<&Element<V>>) {
        match self.find_index(key) {
            Some(i) => {
                proof {
                    lemma_key_lookup(self.model(), key.deep_view(), i as int);
                }
                Some(&self.entries[i].1)
            },
            None => None,
        }
    }
}

/// When the keys of `s` are pairwise distinct, any position holding the
/// key `k` is the position `idx_of(s, k)`.
proof fn lemma_key_lookup<KV, VV>(s: Seq<EntryModel<KV, VV>>, k: KV, i: int)
    requires
        forall|p: int, q: int|
            0 <= p < s.len() && 0 <= q < s.len() && p != q ==> s[p].key != s[q].key,
        0 <= i < s.len(),
        s[i].key == k,
    ensures
        has_key(s, k),
        idx_of(s, k) == i,
        rank_of(s, k) == s[i].rank,
        value_of(s, k) == s[i].value,
{
    assert(has_key(s, k));
    let j = idx_of(s, k);
    assert(0 <= j < s.len() && s[j].key == k);
    if i != j {
        assert(s[i].key != s[j].key);
        assert(false);
    }
}

/// Re-entering a present key at the back with the fresh rank `nr + 1`
/// preserves well-formedness and makes that key's rank the strict
/// maximum.
proof fn lemma_refresh_wf<KV, VV>(
    s: Seq<EntryModel<KV, VV>>,
    cap: nat,
    nr: nat,
    k: KV,
    s1: Seq<EntryModel<KV, VV>>,
)
    requires
        wf_entries(s, cap, nr),
        has_key(s, k),
        s1.len() == s.len(),
        s1 == s.remove(idx_of(s, k)).push(
            EntryModel { key: k, rank: (nr + 1) as nat, value: s1.last().value },
        ),
    ensures
        wf_entries(s1, cap, (nr + 1) as nat),
        has_key(s1, k),
        rank_of(s1, k) == nr + 1,
        value_of(s1, k) == s1.last().value,
        forall|kk: KV| has_key(s1, kk) && kk != k ==> rank_of(s1, kk) < nr + 1,
{
    let i = idx_of(s, k);
    assert(0 <= i < s.len() && s[i].key == k);
    let t = s.remove(i);
    lemma_remove_frame(s, i, t);
    assert forall|p: int, q: int|
        0 <= p < s1.len() && 0 <= q < s1.len() && p != q implies s1[p].key != s1[q].key by {
        lemma_remove_frame(s, i, t);
    }
    lemma_key_lookup(s1, k, s1.len() - 1);
    assert forall|kk: KV| has_key(s1, kk) && kk != k implies rank_of(s1, kk) < nr + 1 by {
        let j = idx_of(s1, kk);
        assert(0 <= j < s1.len() && s1[j].key == kk);
        lemma_remove_frame(s, i, t);
    }
}

/// `s.remove(i)` keeps every other element, shifted past `i`.
proof fn lemma_remove_frame<KV, VV>(s: Seq<EntryModel<KV, VV>>, i: int, t: Seq<EntryModel<KV, VV>>)
    requires
        0 <= i < s.len(),
        t == s.remove(i),
    ensures
        t.len() == s.len() - 1,
        forall|j: int| 0 <= j < i ==> t[j] == s[j],
        forall|j: int| i <= j < t.len() ==> t[j] == s[j + 1],
{
}

/// Appending an absent key at the back with the fresh rank `nr + 1`,
/// after dropping the front entry if the cache is full, preserves
/// well-formedness and makes that key's rank the strict maximum.
proof fn lemma_append_wf<KV, VV>(
    s: Seq<EntryModel<KV, VV>>,
    cap: nat,
    nr: nat,
    k: KV,
    s1: Seq<EntryModel<KV, VV>>,
)
    requires
        wf_entries(s, cap, nr),
        !has_key(s, k),
        cap >= 1,
        s1 == (if s.len() < cap {
            s
        } else {
            s.drop_first()
        }).push(EntryModel { key: k, rank: (nr + 1) as nat, value: s1.last().value }),
    ensures
        wf_entries(s1, cap, (nr + 1) as nat),
        has_key(s1, k),
        rank_of(s1, k) == nr + 1,
        value_of(s1, k) == s1.last().value,
        forall|kk: KV| has_key(s1, kk) && kk != k ==> rank_of(s1, kk) < nr + 1,
{
    let base = if s.len() < cap {
        s
    } else {
        s.drop_first()
    };
    assert forall|j: int| 0 <= j < base.len() implies base[j].key != k by {
        if s.len() < cap {
            assert(base[j] == s[j]);
        } else {
            assert(base[j] == s[j + 1]);
        }
    }
    lemma_key_lookup(s1, k, s1.len() - 1);
    assert forall|kk: KV| has_key(s1, kk) && kk != k implies rank_of(s1, kk) < nr + 1 by {
        let j = idx_of(s1, kk);
        assert(0 <= j < s1.len() && s1[j].key == kk);
    }
}

/// The state after a sequence of `put` operations `ps`, applied in
/// order to the state `s0` whose rank counter stands at `nr0`.
pub open spec fn puts_model<KV, VV>(
    s0: Seq<EntryModel<KV, VV>>,
    cap: nat,
    nr0: nat,
    ps: Seq<(KV, VV)>,
) -> Seq<EntryModel<KV, VV>>
    decreases ps.len(),
{
    if ps.len() == 0 {
        s0
    } else {
        put_model(
            puts_model(s0, cap, nr0, ps.drop_last()),
            cap,
            (nr0 + ps.len() - 1) as nat,
            ps.last().0,
            ps.last().1,
        )
    }
}

/// Whether `ps[i]` is the last `put` of its key within `ps`.
pub open spec fn is_last_put_of_key<KV, VV>(ps: Seq<(KV, VV)>, i: int) -> bool {
    forall|j: int| i < j < ps.len() ==> ps[j].0 != ps[i].0
}

/// A sequence of `put` operations no longer than the capacity, applied
/// to an empty cache, evicts nothing: every key put remains present,
/// and it holds the value of the last `put` of that key.
pub proof fn lemma_puts_within_capacity_keep_all<KV, VV>(cap: nat, ps: Seq<(KV, VV)>)
    requires
        1 <= cap,
        ps.len() <= cap,
    ensures
        ({
            let s1 = puts_model(Seq::<EntryModel<KV, VV>>::empty(), cap, 0, ps);
            &&& wf_entries(s1, cap, ps.len() as nat)
            &&& s1.len() <= ps.len()
            &&& forall|i: int| 0 <= i < ps.len() ==> has_key(s1, ps[i].0)
            &&& forall|i: int|
                0 <= i < ps.len() && is_last_put_of_key(ps, i) ==> value_of(s1, ps[i].0)
                    == ps[i].1
        }),
    decreases ps.len(),
{
    let s1 = puts_model(Seq::<EntryModel<KV, VV>>::empty(), cap, 0, ps);
    if ps.len() == 0 {
        assert(wf_entries(s1, cap, 0nat));
    } else {
        let qs = ps.drop_last();
        let s0 = puts_model(Seq::<EntryModel<KV, VV>>::empty(), cap, 0, qs);
        let nr = qs.len() as nat;
        let (k, v) = ps.last();
        lemma_puts_within_capacity_keep_all::<KV, VV>(cap, qs);
        assert(s1 == put_model(s0, cap, nr, k, v));
        if has_key(s0, k) {
            let i = idx_of(s0, k);
            let t = s0.remove(i);
            lemma_remove_frame(s0, i, t);
            lemma_refresh_wf(s0, cap, nr, k, s1);
            assert(wf_entries(s1, cap, (nr + 1) as nat));
            assert forall|m: int| 0 <= m < ps.len() implies has_key(s1, ps[m].0) by {
                if m < qs.len() {
                    assert(qs[m] == ps[m]);
                    assert(has_key(s0, ps[m].0));
                    let j = idx_of(s0, ps[m].0);
                    assert(0 <= j < s0.len() && s0[j].key == ps[m].0);
                    if j == i {
                        assert(s1.last().key == k);
                    } else if j < i {
                        assert(s1[j].key == ps[m].0);
                    } else {
                        assert(s1[j - 1].key == ps[m].0);
                    }
                } else {
                    assert(s1.last().key == k);
                }
            }
            assert forall|m: int|
                0 <= m < ps.len() && is_last_put_of_key(ps, m) implies value_of(s1, ps[m].0)
                == ps[m].1 by {
                if m == ps.len() - 1 {
                    lemma_key_lookup(s1, k, s1.len() - 1);
                } else {
                    assert(qs[m] == ps[m]);
                    assert(ps[m].0 != k);
                    assert(is_last_put_of_key(qs, m));
                    assert(value_of(s0, ps[m].0) == ps[m].1);
                    let j = idx_of(s0, ps[m].0);
                    assert(0 <= j < s0.len() && s0[j].key == ps[m].0);
                    if j < i {
                        lemma_key_lookup(s1, ps[m].0, j);
                    } else {
                        assert(j != i);
                        lemma_key_lookup(s1, ps[m].0, j - 1);
                    }
                }
            }
        } else {
            assert(s0.len() <= qs.len() < ps.len() <= cap);
            assert(s1 == s0.push(EntryModel { key: k, rank: (nr + 1) as nat, value: v }));
            lemma_append_wf(s0, cap, nr, k, s1);
            assert(wf_entries(s1, cap, (nr + 1) as nat));
            assert forall|m: int| 0 <= m < ps.len() implies has_key(s1, ps[m].0) by {
                if m < qs.len() {
                    assert(qs[m] == ps[m]);
                    assert(has_key(s0, ps[m].0));
                    let j = idx_of(s0, ps[m].0);
                    assert(0 <= j < s0.len() && s0[j].key == ps[m].0);
                    assert(s1[j].key == ps[m].0);
                } else {
                    assert(s1.last().key == k);
                }
            }
            assert forall|m: int|
                0 <= m < ps.len() && is_last_put_of_key(ps, m) implies value_of(s1, ps[m].0)
                == ps[m].1 by {
                if m == ps.len() - 1 {
                    lemma_key_lookup(s1, k, s1.len() - 1);
                } else {
                    assert(qs[m] == ps[m]);
                    assert(ps[m].0 != k);
                    assert(is_last_put_of_key(qs, m));
                    assert(value_of(s0, ps[m].0) == ps[m].1);
                    let j = idx_of(s0, ps[m].0);
                    assert(0 <= j < s0.len() && s0[j].key == ps[m].0);
                    lemma_key_lookup(s1, ps[m].0, j);
                }
            }
        }
    }
}

/// Putting an absent key into a cache that stands exactly at its
/// capacity evicts the entry with the globally lowest rank — the front
/// one — and no other: every other entry keeps its rank and value, and
/// the new key enters with the fresh maximal rank.
pub proof fn lemma_put_at_capacity_evicts_lru<KV, VV>(
    s: Seq<EntryModel<KV, VV>>,
    cap: nat,
    nr: nat,
    k: KV,
    v: VV,
)
    requires
        wf_entries(s, cap, nr),
        !has_key(s, k),
        1 <= cap,
        s.len() == cap,
    ensures
        ({
            let s1 = put_model(s, cap, nr, k, v);
            &&& s1.len() == cap
            &&& forall|i: int| 0 < i < s.len() ==> s[0].rank < #[trigger] s[i].rank
            &&& !has_key(s1, s[0].key)
            &&& forall|i: int|
                0 < i < s.len() ==> has_key(s1, s[i].key) && rank_of(s1, s[i].key) == s[i].rank
                    && value_of(s1, s[i].key) == s[i].value
            &&& has_key(s1, k) && rank_of(s1, k) == nr + 1 && value_of(s1, k) == v
        }),
{
    let s1 = put_model(s, cap, nr, k, v);
    assert(s1 == s.drop_first().push(EntryModel { key: k, rank: (nr + 1) as nat, value: v }));
    lemma_append_wf(s, cap, nr, k, s1);
    assert forall|i: int|
        0 < i < s.len() implies has_key(s1, s[i].key) && rank_of(s1, s[i].key) == s[i].rank
        && value_of(s1, s[i].key) == s[i].value by {
        assert(s1[i - 1] == s[i]);
        lemma_key_lookup(s1, s[i].key, i - 1);
    }
    lemma_key_lookup(s1, k, s1.len() - 1);
    if has_key(s1, s[0].key) {
        let j = idx_of(s1, s[0].key);
        assert(0 <= j < s1.len() && s1[j].key == s[0].key);
        if j < s1.len() - 1 {
            assert(s1[j] == s[j + 1]);
        }
        assert(false);
    }
}

} // verus!
