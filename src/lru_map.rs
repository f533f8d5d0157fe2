//! A bounded cache that evicts the least recently used entry.
use vstd::prelude::*;

verus! {

pub struct Entry<V> {
    pub key: u64,
    pub value: V,
}

/// `s` without the entries whose key is `k`.
pub open spec fn remove_key<V>(s: Seq<(u64, V)>, k: u64) -> Seq<(u64, V)>
    decreases s.len(),
{
    if s.len() == 0 {
        s
    } else if s[0].0 == k {
        remove_key(s.skip(1), k)
    } else {
        seq![s[0]] + remove_key(s.skip(1), k)
    }
}

/// The value of the first entry of `s` whose key is `k`.
pub open spec fn lookup<V>(s: Seq<(u64, V)>, k: u64) -> Option<V>
    decreases s.len(),
{
    if s.len() == 0 {
        None
    } else if s[0].0 == k {
        Some(s[0].1)
    } else {
        lookup(s.skip(1), k)
    }
}

pub open spec fn distinct_keys<V>(s: Seq<(u64, V)>) -> bool {
    forall|i: int, j: int| 0 <= i < j < s.len() ==> s[i].0 != s[j].0
}

/// The entries, most recently used first, after `(k, v)` is inserted into a
/// cache of capacity `n` that holds `s`.
pub open spec fn lru_insert<V>(s: Seq<(u64, V)>, k: u64, v: V, n: nat) -> Seq<(u64, V)> {
    let t = seq![(k, v)] + remove_key(s, k);
    if t.len() > n {
        t.take(n as int)
    } else {
        t
    }
}

/// The entries after a lookup of `k`: a hit moves to the front.
pub open spec fn lru_touch<V>(s: Seq<(u64, V)>, k: u64) -> Seq<(u64, V)> {
    match lookup(s, k) {
        Some(v) => seq![(k, v)] + remove_key(s, k),
        None => s,
    }
}

/// The entries after each pair of `ks` is inserted in turn.
pub open spec fn lru_insert_all<V>(s: Seq<(u64, V)>, ks: Seq<(u64, V)>, n: nat) -> Seq<(u64, V)>
    decreases ks.len(),
{
    if ks.len() == 0 {
        s
    } else {
        lru_insert(lru_insert_all(s, ks.drop_last(), n), ks.last().0, ks.last().1, n)
    }
}

proof fn lemma_remove_key<V>(s: Seq<(u64, V)>, k: u64)
    requires
        distinct_keys(s),
    ensures
        forall|i: int|
            0 <= i < s.len() && s[i].0 == k ==> remove_key(s, k) == s.remove(i) && lookup(s, k)
                == Some(s[i].1),
        (forall|i: int| 0 <= i < s.len() ==> s[i].0 != k) ==> remove_key(s, k) == s && lookup(
            s,
            k,
        ) is None,
        distinct_keys(remove_key(s, k)),
        forall|i: int|
            0 <= i < remove_key(s, k).len() ==> s.contains(#[trigger] remove_key(s, k)[i])
                && remove_key(s, k)[i].0 != k,
    decreases s.len(),
{
    if s.len() > 0 {
        let t = s.skip(1);
        lemma_remove_key(t, k);
        assert forall|i: int| 0 <= i < s.len() && s[i].0 == k implies remove_key(s, k) == s.remove(
            i,
        ) && lookup(s, k) == Some(s[i].1) by {
            if i == 0 {
                assert forall|j: int| 0 <= j < t.len() implies t[j].0 != k by {
                    assert(s[j + 1] == t[j]);
                }
                assert(s.remove(0) =~= t);
            } else {
                assert(t[i - 1].0 == k);
                assert(s.remove(i) =~= seq![s[0]] + t.remove(i - 1));
            }
        }
        if forall|i: int| 0 <= i < s.len() ==> s[i].0 != k {
            assert forall|j: int| 0 <= j < t.len() implies t[j].0 != k by {
                assert(s[j + 1] == t[j]);
            }
            assert(seq![s[0]] + t =~= s);
        }
        let r = remove_key(s, k);
        let rt = remove_key(t, k);
        if s[0].0 != k {
            assert(r == seq![s[0]] + rt);
            assert forall|i: int| 0 <= i < r.len() implies s.contains(#[trigger] r[i]) && r[i].0
                != k by {
                if i > 0 {
                    assert(r[i] == rt[i - 1]);
                    assert(t.contains(rt[i - 1]));
                    let j = choose|j: int| 0 <= j < t.len() && t[j] == rt[i - 1];
                    assert(s[j + 1] == r[i]);
                } else {
                    assert(s[0] == r[0]);
                }
            }
            assert forall|i: int, j: int| 0 <= i < j < r.len() implies r[i].0 != r[j].0 by {
                if i == 0 {
                    assert(r[j] == rt[j - 1]);
                    let q = choose|q: int| 0 <= q < t.len() && t[q] == rt[j - 1];
                    assert(s[q + 1] == r[j]);
                } else {
                    assert(r[i] == rt[i - 1] && r[j] == rt[j - 1]);
                }
            }
        } else {
            assert forall|i: int| 0 <= i < r.len() implies s.contains(#[trigger] r[i]) && r[i].0
                != k by {
                let j = choose|j: int| 0 <= j < t.len() && t[j] == rt[i];
                assert(s[j + 1] == r[i]);
            }
        }
    }
}

/// Inserting keeps no entry that was not there or inserted.
pub proof fn lemma_lru_insert_entries<V>(s: Seq<(u64, V)>, k: u64, v: V, n: nat)
    requires
        distinct_keys(s),
    ensures
        forall|e: (u64, V)| #[trigger] lru_insert(s, k, v, n).contains(e) ==> e == (k, v) || s.contains(e),
{
    lemma_remove_key(s, k);
    let r = remove_key(s, k);
    let t = seq![(k, v)] + r;
    assert forall|e: (u64, V)| #[trigger] lru_insert(s, k, v, n).contains(e) implies e == (k, v)
        || s.contains(e) by {
        let u = lru_insert(s, k, v, n);
        let i = choose|i: int| 0 <= i < u.len() && u[i] == e;
        if i > 0 {
            assert(u[i] == t[i] && t[i] == r[i - 1]);
        }
    }
}

/// A lookup only reorders entries.
pub proof fn lemma_lru_touch_entries<V>(s: Seq<(u64, V)>, k: u64)
    requires
        distinct_keys(s),
    ensures
        forall|e: (u64, V)| #[trigger] lru_touch(s, k).contains(e) ==> s.contains(e),
{
    lemma_remove_key(s, k);
    let r = remove_key(s, k);
    match lookup(s, k) {
        Some(w) => {
            if forall|i: int| 0 <= i < s.len() ==> s[i].0 != k {
            } else {
                let i = choose|i: int| 0 <= i < s.len() && s[i].0 == k;
                assert(remove_key(s, k) == s.remove(i) && lookup(s, k) == Some(s[i].1));
                assert(s[i] == (k, w));
            }
            assert forall|e: (u64, V)| #[trigger] lru_touch(s, k).contains(e) implies s.contains(e) by {
                let u = lru_touch(s, k);
                let j = choose|j: int| 0 <= j < u.len() && u[j] == e;
                if j > 0 {
                    assert(u[j] == r[j - 1]);
                } else {
                    let i = choose|i: int| 0 <= i < s.len() && s[i].0 == k;
                    assert(s[i] == e);
                }
            }
        },
        None => {},
    }
}

/// A cache of at most `N` entries with distinct keys, most recently used first.
pub struct LruMap<V, const N: usize> {
    pub cache: Vec<Entry<V>>,
}

impl<V, const N: usize> View for LruMap<V, N> {
    type V = Seq<(u64, V)>;

    open spec fn view(&self) -> Seq<(u64, V)> {
        self.cache@.map_values(|e: Entry<V>| (e.key, e.value))
    }
}

impl<V, const N: usize> LruMap<V, N> {
    pub open spec fn wf(&self) -> bool {
        self@.len() <= N && distinct_keys(self@)
    }

    pub fn new() -> (r: Self)
        ensures
            r.wf(),
            r@.len() == 0,
    {
        LruMap { cache: Vec::new() }
    }

    fn position(&self, key: u64) -> (r: Option<usize>)
        ensures
            match r {
                Some(i) => i < self@.len() && self@[i as int].0 == key,
                None => forall|i: int| 0 <= i < self@.len() ==> self@[i].0 != key,
            },
    {
        let mut i: usize = 0;
        while i < self.cache.len()
            invariant
                i <= self.cache@.len(),
                forall|j: int| 0 <= j < i ==> self@[j].0 != key,
            decreases self.cache@.len() - i,
        {
            if self.cache[i].key == key {
                return Some(i);
            }
            i += 1;
        }
        None
    }

    /// Inserts `value` under `key` as the most recently used entry, replacing
    /// an entry with the same key and evicting the least recently used one
    /// when the cache is full.
    pub fn insert(&mut self, key: u64, value: V)
        requires
            old(self).wf(),
            N > 0,
        ensures
            final(self).wf(),
            final(self)@ == lru_insert(old(self)@, key, value, N as nat),
    {
        let ghost s = self@;
        proof {
            lemma_remove_key(s, key);
        }
        match self.position(key) {
            Some(i) => {
                self.cache.remove(i);
                assert(self@ =~= s.remove(i as int));
            },
            None => {},
        }
        let ghost rest = self@;
        assert(rest == remove_key(s, key));
        if self.cache.len() == N {
            self.cache.pop();
        }
        self.cache.insert(0, Entry { key, value });
        proof {
            let t = seq![(key, value)] + rest;
            assert(self@ =~= lru_insert(s, key, value, N as nat)) by {
                if t.len() > N {
                    assert(self@ =~= t.take(N as int));
                } else {
                    assert(self@ =~= t);
                }
            }
            assert forall|i: int, j: int| 0 <= i < j < self@.len() implies self@[i].0 != self@[j].0 by {
                if i == 0 {
                    assert(self@[j] == rest[j - 1]);
                } else {
                    assert(self@[i] == rest[i - 1] && self@[j] == rest[j - 1]);
                }
            }
        }
    }

    /// The value under `key`, which becomes the most recently used entry.
    pub fn get(&mut self, key: u64) -> (r: Option<&V>)
        requires
            old(self).wf(),
        ensures
            final(self).wf(),
            final(self)@ == lru_touch(old(self)@, key),
            match r {
                Some(v) => lookup(old(self)@, key) == Some(*v),
                None => lookup(old(self)@, key) is None,
            },
    {
        let ghost s = self@;
        proof {
            lemma_remove_key(s, key);
        }
        match self.position(key) {
            Some(i) => {
                let e = self.cache.remove(i);
                assert(self@ =~= s.remove(i as int));
                let ghost rest = self@;
                self.cache.insert(0, e);
                proof {
                    assert(self@ =~= seq![(key, e.value)] + rest);
                    assert forall|a: int, b: int| 0 <= a < b < self@.len() implies self@[a].0
                        != self@[b].0 by {
                        if a == 0 {
                            assert(self@[b] == rest[b - 1]);
                        } else {
                            assert(self@[a] == rest[a - 1] && self@[b] == rest[b - 1]);
                        }
                    }
                }
                Some(&self.cache[0].value)
            },
            None => None,
        }
    }
}

/// A call on a cache, as the law below speaks of it.
pub enum LruOp<V> {
    Insert(u64, V),
    Get(u64),
}

/// The first `n` entries of `s`, or all of them where it has fewer.
pub open spec fn first_n<V>(s: Seq<(u64, V)>, n: nat) -> Seq<(u64, V)> {
    if s.len() > n {
        s.take(n as int)
    } else {
        s
    }
}

/// Every key used so far with its value, most recently used first: an
/// insert or a hit in the cache (its first `n` entries) moves a key to the
/// front; a miss changes nothing.
pub open spec fn recency<V>(ops: Seq<LruOp<V>>, n: nat) -> Seq<(u64, V)>
    decreases ops.len(),
{
    if ops.len() == 0 {
        seq![]
    } else {
        let r = recency(ops.drop_last(), n);
        match ops.last() {
            LruOp::Insert(k, v) => seq![(k, v)] + remove_key(r, k),
            LruOp::Get(k) => if lookup(first_n(r, n), k) is Some {
                lru_touch(r, k)
            } else {
                r
            },
        }
    }
}

/// The entries of a cache of capacity `n`, made empty, after `ops`.
pub open spec fn lru_run<V>(ops: Seq<LruOp<V>>, n: nat) -> Seq<(u64, V)>
    decreases ops.len(),
{
    if ops.len() == 0 {
        seq![]
    } else {
        let c = lru_run(ops.drop_last(), n);
        match ops.last() {
            LruOp::Insert(k, v) => lru_insert(c, k, v, n),
            LruOp::Get(k) => lru_touch(c, k),
        }
    }
}

proof fn lemma_front_of_moved<V>(r: Seq<(u64, V)>, k: u64, v: V, n: nat)
    requires
        n > 0,
        distinct_keys(r),
    ensures
        first_n(seq![(k, v)] + remove_key(r, k), n) == lru_insert(first_n(r, n), k, v, n),
        distinct_keys(seq![(k, v)] + remove_key(r, k)),
{
    let t = first_n(r, n);
    lemma_remove_key(r, k);
    assert(distinct_keys(t));
    lemma_remove_key(t, k);
    let a = seq![(k, v)] + remove_key(r, k);
    let c = seq![(k, v)] + remove_key(t, k);
    assert(distinct_keys(a)) by {
        assert forall|i: int, j: int| 0 <= i < j < a.len() implies a[i].0 != a[j].0 by {
            if i > 0 {
                assert(a[i] == remove_key(r, k)[i - 1] && a[j] == remove_key(r, k)[j - 1]);
            } else {
                assert(a[j] == remove_key(r, k)[j - 1]);
            }
        }
    }
    if exists|i: int| 0 <= i < t.len() && t[i].0 == k {
        let i = choose|i: int| 0 <= i < t.len() && t[i].0 == k;
        assert(r[i] == t[i]);
        assert(remove_key(r, k) == r.remove(i));
        assert(remove_key(t, k) == t.remove(i));
        if r.len() > n {
            assert(first_n(a, n) =~= c);
        } else {
            assert(a =~= c);
        }
    } else {
        assert(remove_key(t, k) == t);
        if r.len() > n {
            assert forall|i: int| 0 <= i < n implies r[i].0 != k by {
                assert(t[i] == r[i]);
            }
            lemma_remove_key_keeps_prefix(r, k, n as int);
            assert(first_n(a, n) =~= first_n(c, n));
        } else {
            assert forall|i: int| 0 <= i < r.len() implies r[i].0 != k by {
                assert(t[i] == r[i]);
            }
            assert(remove_key(r, k) == r);
        }
    }
}

/// Whatever inserts and lookups a cache of capacity `n` has seen, it holds
/// exactly the `n` most recently used keys, each with its last inserted
/// value, most recent first.
pub proof fn lemma_lru_holds_most_recent<V>(ops: Seq<LruOp<V>>, n: nat)
    requires
        n > 0,
    ensures
        lru_run(ops, n) == first_n(recency(ops, n), n),
        distinct_keys(recency(ops, n)),
    decreases ops.len(),
{
    if ops.len() > 0 {
        let pre = ops.drop_last();
        lemma_lru_holds_most_recent(pre, n);
        let r = recency(pre, n);
        match ops.last() {
            LruOp::Insert(k, v) => {
                lemma_front_of_moved(r, k, v, n);
            },
            LruOp::Get(k) => {
                let t = first_n(r, n);
                lemma_remove_key(r, k);
                lemma_remove_key(t, k);
                if lookup(t, k) is Some {
                    assert(exists|i: int| 0 <= i < t.len() && t[i].0 == k);
                    let i = choose|i: int| 0 <= i < t.len() && t[i].0 == k;
                    assert(r[i] == t[i]);
                    assert(remove_key(r, k) == r.remove(i) && lookup(r, k) == Some(r[i].1));
                    assert(remove_key(t, k) == t.remove(i) && lookup(t, k) == Some(t[i].1));
                    let v = r[i].1;
                    lemma_front_of_moved(r, k, v, n);
                    assert(lru_insert(t, k, v, n) == lru_touch(t, k));
                }
            },
        }
    }
}

/// After distinct keys, at least as many as the capacity, are inserted in
/// turn, the cache holds exactly the last `n` of them, most recent first.
pub proof fn lemma_lru_keeps_recent<V>(s: Seq<(u64, V)>, ks: Seq<(u64, V)>, n: nat)
    requires
        n > 0,
        ks.len() >= n,
        distinct_keys(ks),
    ensures
        lru_insert_all(s, ks, n).len() == n,
        forall|i: int| 0 <= i < n ==> #[trigger] lru_insert_all(s, ks, n)[i] == ks[ks.len() - 1 - i],
{
    lemma_lru_prefix(s, ks, n);
}

proof fn lemma_remove_key_keeps_prefix<V>(s: Seq<(u64, V)>, k: u64, m: int)
    requires
        0 <= m <= s.len(),
        forall|i: int| 0 <= i < m ==> s[i].0 != k,
    ensures
        remove_key(s, k).len() >= m,
        forall|i: int| 0 <= i < m ==> #[trigger] remove_key(s, k)[i] == s[i],
    decreases s.len(),
{
    if m > 0 {
        let t = s.skip(1);
        assert forall|i: int| 0 <= i < m - 1 implies t[i].0 != k by {
            assert(t[i] == s[i + 1]);
        }
        lemma_remove_key_keeps_prefix(t, k, m - 1);
        assert forall|i: int| 0 <= i < m implies #[trigger] remove_key(s, k)[i] == s[i] by {
            if i > 0 {
                assert(remove_key(s, k)[i] == remove_key(t, k)[i - 1]);
            }
        }
    }
}

proof fn lemma_lru_prefix<V>(s: Seq<(u64, V)>, ks: Seq<(u64, V)>, n: nat)
    requires
        n > 0,
        distinct_keys(ks),
    ensures
        lru_insert_all(s, ks, n).len() >= if ks.len() < n { ks.len() } else { n },
        ks.len() > 0 ==> lru_insert_all(s, ks, n).len() <= n,
        forall|i: int|
            0 <= i < ks.len() && i < n ==> #[trigger] lru_insert_all(s, ks, n)[i] == ks[ks.len() - 1 - i],
    decreases ks.len(),
{
    if ks.len() > 0 {
        let pre = ks.drop_last();
        let j = pre.len() as int;
        lemma_lru_prefix(s, pre, n);
        let r = lru_insert_all(s, pre, n);
        let k = ks.last().0;
        let m = if j < n { j } else { n as int };
        assert forall|i: int| 0 <= i < m implies r[i].0 != k by {
            assert(r[i] == ks[j - 1 - i]);
        }
        lemma_remove_key_keeps_prefix(r, k, m);
        let t = seq![(k, ks.last().1)] + remove_key(r, k);
        assert(remove_key(r, k).len() <= r.len()) by {
            lemma_remove_key_len(r, k);
        }
        assert forall|i: int| 0 <= i < ks.len() && i < n implies #[trigger] lru_insert_all(
            s,
            ks,
            n,
        )[i] == ks[ks.len() - 1 - i] by {
            if i > 0 {
                assert(t[i] == remove_key(r, k)[i - 1]);
            }
        }
    }
}

proof fn lemma_remove_key_len<V>(s: Seq<(u64, V)>, k: u64)
    ensures
        remove_key(s, k).len() <= s.len(),
    decreases s.len(),
{
    if s.len() > 0 {
        lemma_remove_key_len(s.skip(1), k);
    }
}

} // verus!
