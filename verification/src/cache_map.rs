//! A bounded mapping from path keys to values, with per-entry expiration and
//! least-recently-used eviction on overflow.
//!
//! Keys are resolved path strings as raw bytes; values are arbitrary. Time is
//! supplied by the caller as a seconds count, so that every decision the cache
//! makes is a pure function of its state and that instant.

use vstd::prelude::*;

verus! {

/// One cached value together with the instants that govern recency and expiry.
pub struct CacheEntry<V> {
    pub value: V,
    pub last_accessed: u64,
    pub expires_at: u64,
}

/// A mapping with unique keys, a default time-to-live for new entries, and a
/// capacity enforced by evicting the least-recently-used entry.
pub struct CacheMap<V> {
    entries: Vec<(Vec<u8>, CacheEntry<V>)>,
    default_ttl: u64,
    max_size: usize,
}

spec fn seq_has<V>(s: Seq<(Vec<u8>, CacheEntry<V>)>, k: Seq<u8>) -> bool {
    exists|i: int| 0 <= i < s.len() && s[i].0@ == k
}

spec fn seq_idx<V>(s: Seq<(Vec<u8>, CacheEntry<V>)>, k: Seq<u8>) -> int {
    choose|i: int| 0 <= i < s.len() && s[i].0@ == k
}

spec fn seq_entry<V>(s: Seq<(Vec<u8>, CacheEntry<V>)>, k: Seq<u8>) -> CacheEntry<V> {
    s[seq_idx(s, k)].1
}

spec fn seq_wf<V>(s: Seq<(Vec<u8>, CacheEntry<V>)>) -> bool {
    forall|i: int, j: int| 0 <= i < j < s.len() ==> s[i].0@ != s[j].0@
}

/// Every index holding key `k` is the chosen one, when keys are unique.
proof fn lemma_at_idx<V>(s: Seq<(Vec<u8>, CacheEntry<V>)>, k: Seq<u8>)
    requires
        seq_wf(s),
        seq_has(s, k),
    ensures
        0 <= seq_idx(s, k) < s.len(),
        s[seq_idx(s, k)].0@ == k,
        forall|i: int| 0 <= i < s.len() && s[i].0@ == k ==> i == seq_idx(s, k),
{
    let x = seq_idx(s, k);
    assert(0 <= x < s.len() && s[x].0@ == k);
    assert forall|i: int| 0 <= i < s.len() && s[i].0@ == k implies i == x by {
        if i < x {
            assert(s[i].0@ != s[x].0@);
        } else if x < i {
            assert(s[x].0@ != s[i].0@);
        }
    }
}

/// Removing index `i` drops exactly the key at `i` and keeps every other
/// binding.
proof fn lemma_seq_remove<V>(s: Seq<(Vec<u8>, CacheEntry<V>)>, i: int)
    requires
        seq_wf(s),
        0 <= i < s.len(),
    ensures
        seq_wf(s.remove(i)),
        !seq_has(s.remove(i), s[i].0@),
        forall|k: Seq<u8>| k != s[i].0@ ==> (#[trigger] seq_has(s.remove(i), k) <==> seq_has(s, k)),
        forall|k: Seq<u8>|
            k != s[i].0@ && #[trigger] seq_has(s, k) ==> seq_entry(s.remove(i), k) == seq_entry(s, k),
{
    let t = s.remove(i);
    assert(forall|j: int| 0 <= j < i ==> t[j] == s[j]);
    assert(forall|j: int| i <= j < t.len() ==> t[j] == s[j + 1]);
    assert forall|k: Seq<u8>| k != s[i].0@ && #[trigger] seq_has(s, k) implies seq_has(t, k) by {
        let j = seq_idx(s, k);
        if j < i {
            assert(t[j].0@ == k);
        } else {
            assert(t[j - 1].0@ == k);
        }
    }
    assert forall|k: Seq<u8>| k != s[i].0@ && #[trigger] seq_has(s, k) implies seq_entry(t, k)
        == seq_entry(s, k) by {
        lemma_at_idx(s, k);
        lemma_at_idx(t, k);
        let j = seq_idx(t, k);
        if j < i {
            assert(s[j].0@ == k);
        } else {
            assert(s[j + 1].0@ == k);
        }
    }
    if seq_has(t, s[i].0@) {
        let j = seq_idx(t, s[i].0@);
        if j < i {
            assert(s[j].0@ == s[i].0@);
        } else {
            assert(s[j + 1].0@ == s[i].0@);
        }
    }
}

/// Replacing the entry at index `i` (key unchanged) rebinds that key alone.
proof fn lemma_seq_update<V>(s: Seq<(Vec<u8>, CacheEntry<V>)>, i: int, p: (Vec<u8>, CacheEntry<V>))
    requires
        seq_wf(s),
        0 <= i < s.len(),
        p.0@ == s[i].0@,
    ensures
        seq_wf(s.update(i, p)),
        seq_has(s.update(i, p), s[i].0@),
        seq_entry(s.update(i, p), s[i].0@) == p.1,
        forall|k: Seq<u8>| #[trigger] seq_has(s.update(i, p), k) <==> seq_has(s, k),
        forall|k: Seq<u8>|
            k != s[i].0@ && #[trigger] seq_has(s, k) ==> seq_entry(s.update(i, p), k) == seq_entry(
                s,
                k,
            ),
{
    let t = s.update(i, p);
    assert(forall|j: int| 0 <= j < s.len() && j != i ==> t[j] == s[j]);
    assert(t[i] == p);
    lemma_at_idx(t, s[i].0@);
    assert forall|k: Seq<u8>| k != s[i].0@ && #[trigger] seq_has(s, k) implies seq_entry(t, k)
        == seq_entry(s, k) by {
        lemma_at_idx(s, k);
        lemma_at_idx(t, k);
    }
    assert forall|k: Seq<u8>| #[trigger] seq_has(t, k) implies seq_has(s, k) by {
        let j = seq_idx(t, k);
        if j == i {
            assert(s[i].0@ == k);
        } else {
            assert(s[j].0@ == k);
        }
    }
}

/// Appending a binding for a fresh key adds that key alone.
proof fn lemma_seq_push<V>(s: Seq<(Vec<u8>, CacheEntry<V>)>, p: (Vec<u8>, CacheEntry<V>))
    requires
        seq_wf(s),
        !seq_has(s, p.0@),
    ensures
        seq_wf(s.push(p)),
        seq_has(s.push(p), p.0@),
        seq_entry(s.push(p), p.0@) == p.1,
        forall|k: Seq<u8>| k != p.0@ ==> (#[trigger] seq_has(s.push(p), k) <==> seq_has(s, k)),
        forall|k: Seq<u8>|
            k != p.0@ && #[trigger] seq_has(s, k) ==> seq_entry(s.push(p), k) == seq_entry(s, k),
{
    let t = s.push(p);
    assert(forall|j: int| 0 <= j < s.len() ==> t[j] == s[j]);
    assert(t[s.len() as int] == p);
    assert forall|i: int, j: int| 0 <= i < j < t.len() implies t[i].0@ != t[j].0@ by {
        if j == s.len() {
            assert(t[i] == s[i]);
            if t[i].0@ == p.0@ {
                assert(seq_has(s, p.0@));
            }
        }
    }
    lemma_at_idx(t, p.0@);
    assert forall|k: Seq<u8>| k != p.0@ && #[trigger] seq_has(t, k) implies seq_has(s, k) by {
        let j = seq_idx(t, k);
        assert(s[j].0@ == k);
    }
    assert forall|k: Seq<u8>| k != p.0@ && #[trigger] seq_has(s, k) implies seq_entry(t, k)
        == seq_entry(s, k) by {
        lemma_at_idx(s, k);
        lemma_at_idx(t, k);
        let j = seq_idx(t, k);
        assert(s[j].0@ == k);
    }
}

impl<V> CacheMap<V> {
    /// Number of entries currently held.
    pub closed spec fn spec_len(self) -> nat {
        self.entries@.len()
    }

    /// The time-to-live given to entries on insertion, in seconds.
    pub closed spec fn ttl(self) -> u64 {
        self.default_ttl
    }

    /// The capacity: insertions keep the entry count at or under this bound.
    pub closed spec fn cap(self) -> nat {
        self.max_size as nat
    }

    /// Whether an entry for key `k` is present.
    pub closed spec fn has(self, k: Seq<u8>) -> bool {
        seq_has(self.entries@, k)
    }

    /// The entry stored under key `k` (meaningful only when `has(k)`).
    pub closed spec fn entry(self, k: Seq<u8>) -> CacheEntry<V> {
        seq_entry(self.entries@, k)
    }

    /// Well-formed: no two entries share a key.
    pub closed spec fn wf(self) -> bool {
        seq_wf(self.entries@)
    }

    /// Key `m` is held and no held entry was used less recently.
    pub open spec fn is_min_lru(self, m: Seq<u8>) -> bool {
        &&& self.has(m)
        &&& forall|k: Seq<u8>|
            #[trigger] self.has(k) ==> self.entry(m).last_accessed <= self.entry(k).last_accessed
    }

    /// `post` is `self` with exactly the binding of a least-recently-used key
    /// `m` dropped.
    pub open spec fn evicted_to(self, post: Self, m: Seq<u8>) -> bool {
        &&& self.is_min_lru(m)
        &&& !post.has(m)
        &&& post.spec_len() == self.spec_len() - 1
        &&& post.agrees_except(self, m)
    }

    /// Both caches agree on every key except `except`, and on ttl and
    /// capacity.
    pub open spec fn agrees_except(self, other: Self, except: Seq<u8>) -> bool {
        &&& self.ttl() == other.ttl()
        &&& self.cap() == other.cap()
        &&& forall|k: Seq<u8>| k != except ==> (#[trigger] self.has(k) <==> other.has(k))
        &&& forall|k: Seq<u8>|
            k != except && #[trigger] other.has(k) && self.has(k) ==> self.entry(k) == other.entry(
                k,
            )
    }

    /// What `insert` leaves behind: `post` is `pre` with `k` bound to a
    /// fresh entry, after evicting one least-recently-used entry when `pre`
    /// was at capacity.
    pub open spec fn insert_post(pre: Self, post: Self, k: Seq<u8>, value: V, now: u64) -> bool {
        &&& post.wf()
        &&& post.ttl() == pre.ttl()
        &&& post.cap() == pre.cap()
        &&& post.has(k)
        &&& post.entry(k) == (CacheEntry::<V> {
            value,
            last_accessed: now,
            expires_at: (now + pre.ttl()) as u64,
        })
        &&& pre.spec_len() < pre.cap() ==> {
            &&& post.agrees_except(pre, k)
            &&& post.spec_len() == pre.spec_len() + (if pre.has(k) {
                0int
            } else {
                1int
            })
        }
        &&& pre.spec_len() >= pre.cap() && pre.spec_len() > 0 ==> (exists|m: Seq<u8>|
            {
                &&& #[trigger] pre.is_min_lru(m)
                &&& m != k ==> !post.has(m)
                &&& forall|j: Seq<u8>|
                    j != k && j != m ==> (#[trigger] post.has(j) <==> pre.has(j))
                &&& forall|j: Seq<u8>|
                    j != k && j != m && #[trigger] pre.has(j) ==> post.entry(j) == pre.entry(j)
                &&& post.spec_len() == pre.spec_len() - 1 + (if pre.has(k) && m != k {
                    0int
                } else {
                    1int
                })
            })
        &&& pre.spec_len() == 0 && pre.cap() == 0 ==> post.spec_len() == 1
        &&& pre.spec_len() <= pre.cap() && pre.cap() >= 1 ==> post.spec_len() <= pre.cap()
    }

    /// A fresh cache: empty, with a one-hour time-to-live and room for 100
    /// entries.
    pub fn new() -> (r: Self)
        ensures
            r.wf(),
            r.spec_len() == 0,
            r.ttl() == 3600,
            r.cap() == 100,
            forall|k: Seq<u8>| !r.has(k),
    {
        CacheMap { entries: Vec::new(), default_ttl: 3600, max_size: 100 }
    }

    /// The same cache with the default time-to-live replaced.
    pub fn with_ttl(self, ttl: u64) -> (r: Self)
        ensures
            r.ttl() == ttl,
            r.cap() == self.cap(),
            r.spec_len() == self.spec_len(),
            r.wf() == self.wf(),
            forall|k: Seq<u8>| #[trigger] r.has(k) <==> self.has(k),
            forall|k: Seq<u8>| #[trigger] self.has(k) ==> r.entry(k) == self.entry(k),
    {
        CacheMap { entries: self.entries, default_ttl: ttl, max_size: self.max_size }
    }

    /// The same cache with the capacity replaced.
    pub fn with_max_size(self, max_size: usize) -> (r: Self)
        ensures
            r.cap() == max_size,
            r.ttl() == self.ttl(),
            r.spec_len() == self.spec_len(),
            r.wf() == self.wf(),
            forall|k: Seq<u8>| #[trigger] r.has(k) <==> self.has(k),
            forall|k: Seq<u8>| #[trigger] self.has(k) ==> r.entry(k) == self.entry(k),
    {
        CacheMap { entries: self.entries, default_ttl: self.default_ttl, max_size }
    }

    /// Index of the entry holding `key`, if one is held.
    fn find_index(&self, key: &Vec<u8>) -> (r: Option<usize>)
        requires
            self.wf(),
        ensures
            match r {
                Some(i) => i < self.entries@.len() && self.entries@[i as int].0@ == key@
                    && self.has(key@) && i == seq_idx(self.entries@, key@),
                None => !self.has(key@),
            },
    {
        let n = self.entries.len();
        let mut i: usize = 0;
        while i < n
            invariant
                n == self.entries@.len(),
                i <= n,
                self.wf(),
                forall|j: int| 0 <= j < i ==> self.entries@[j].0@ != key@,
            decreases n - i,
        {
            if self.entries[i].0 == *key {
                proof {
                    assert(self.entries@[i as int].0@ =~= key@);
                    lemma_at_idx(self.entries@, key@);
                }
                return Some(i);
            }
            proof {
                if self.entries@[i as int].0@ == key@ {
                    assert(self.entries@[i as int].0@ =~= key@);
                    assert(false);
                }
            }
            i = i + 1;
        }
        None
    }

    /// Look up `key` at instant `now`. An entry whose expiry has passed is
    /// removed and reported absent; a live entry has its recency refreshed to
    /// `now` and its value returned.
    pub fn get(&mut self, key: &Vec<u8>, now: u64) -> (r: Option<&V>)
        requires
            old(self).wf(),
        ensures
            final(self).wf(),
            final(self).agrees_except(*old(self), key@),
            // an expired entry is purged and reported absent
            old(self).has(key@) && now >= old(self).entry(key@).expires_at ==> {
                &&& r is None
                &&& !final(self).has(key@)
                &&& final(self).spec_len() == old(self).spec_len() - 1
            },
            // a live entry is returned, with its recency refreshed
            old(self).has(key@) && now < old(self).entry(key@).expires_at ==> {
                &&& (r matches Some(v) && *v == old(self).entry(key@).value)
                &&& final(self).has(key@)
                &&& final(self).entry(key@) == (CacheEntry {
                    value: old(self).entry(key@).value,
                    last_accessed: now,
                    expires_at: old(self).entry(key@).expires_at,
                })
                &&& final(self).spec_len() == old(self).spec_len()
            },
            !old(self).has(key@) ==> {
                &&& r is None
                &&& !final(self).has(key@)
                &&& final(self).spec_len() == old(self).spec_len()
            },
    {
        let found = self.find_index(key);
        match found {
            None => None,
            Some(i) => {
                proof {
                    lemma_at_idx(self.entries@, key@);
                }
                if now >= self.entries[i].1.expires_at {
                    self.entries.remove(i);
                    proof {
                        lemma_seq_remove(old(self).entries@, i as int);
                    }
                    None
                } else {
                    let mut pair = self.entries.remove(i);
                    let ghost prev = old(self).entries@;
                    pair.1.last_accessed = now;
                    self.entries.insert(i, pair);
                    proof {
                        assert(self.entries@ =~= prev.update(i as int, self.entries@[i as int]));
                        lemma_seq_update(prev, i as int, self.entries@[i as int]);
                    }
                    Some(&self.entries[i].1.value)
                }
            },
        }
    }

    /// Insert `value` under `key` at instant `now`, expiring one time-to-live
    /// later. At capacity, the least-recently-used entry is evicted first.
    pub fn insert(&mut self, key: Vec<u8>, value: V, now: u64)
        requires
            old(self).wf(),
            now + old(self).ttl() <= u64::MAX,
        ensures
            Self::insert_post(*old(self), *final(self), key@, value, now),
    {
        let expires_at = now + self.default_ttl;
        let entry = CacheEntry { value, last_accessed: now, expires_at };
        if self.entries.len() >= self.max_size {
            self.evict_lru();
        }
        let ghost mid = *self;
        let found = self.find_index(&key);
        match found {
            Some(i) => {
                let mut pair = self.entries.remove(i);
                let ghost prev = mid.entries@;
                pair.1 = entry;
                self.entries.insert(i, pair);
                proof {
                    lemma_at_idx(prev, key@);
                    assert(self.entries@ =~= prev.update(i as int, self.entries@[i as int]));
                    lemma_seq_update(prev, i as int, self.entries@[i as int]);
                }
            },
            None => {
                self.entries.push((key, entry));
                proof {
                    lemma_seq_push(mid.entries@, self.entries@.last());
                    assert(self.entries@ =~= mid.entries@.push(self.entries@.last()));
                }
            },
        }
        proof {
            if old(self).spec_len() >= old(self).cap() && old(self).spec_len() > 0 {
                let m = choose|m: Seq<u8>| old(self).evicted_to(mid, m);
                assert(old(self).evicted_to(mid, m));
                assert(old(self).is_min_lru(m));
                if m != key@ {
                    assert(!self.has(m));
                }
                assert forall|k: Seq<u8>| k != key@ && k != m implies (#[trigger] self.has(k)
                    <==> old(self).has(k)) by {
                    assert(self.has(k) <==> mid.has(k));
                    assert(mid.has(k) <==> old(self).has(k));
                }
                assert forall|k: Seq<u8>| k != key@ && k != m && #[trigger] old(self).has(k)
                    implies self.entry(k) == old(self).entry(k) by {
                    assert(mid.has(k));
                    assert(mid.entry(k) == old(self).entry(k));
                    assert(self.entry(k) == mid.entry(k));
                }
                if old(self).has(key@) && m != key@ {
                    assert(mid.has(key@));
                    assert(self.spec_len() == old(self).spec_len() - 1);
                } else {
                    assert(!mid.has(key@));
                    assert(self.spec_len() == old(self).spec_len());
                }
            }
        }
    }

    /// Drop any entry held under `key`, so a deleted or overwritten file
    /// can never be served from memory afterwards.
    pub fn invalidate(&mut self, key: &Vec<u8>)
        requires
            old(self).wf(),
        ensures
            final(self).wf(),
            !final(self).has(key@),
            final(self).agrees_except(*old(self), key@),
            final(self).spec_len() == old(self).spec_len() - (if old(self).has(key@) {
                1int
            } else {
                0int
            }),
    {
        let found = self.find_index(key);
        match found {
            None => {},
            Some(i) => {
                proof {
                    lemma_at_idx(self.entries@, key@);
                }
                self.entries.remove(i);
                proof {
                    lemma_seq_remove(old(self).entries@, i as int);
                }
            },
        }
    }

    /// Remove the least-recently-used entry, if the cache holds any.
    pub fn evict_lru(&mut self)
        requires
            old(self).wf(),
        ensures
            final(self).wf(),
            final(self).ttl() == old(self).ttl(),
            final(self).cap() == old(self).cap(),
            old(self).spec_len() == 0 ==> *final(self) == *old(self),
            old(self).spec_len() > 0 ==> (exists|m: Seq<u8>|
                #[trigger] old(self).evicted_to(*final(self), m)),
    {
        let n = self.entries.len();
        if n == 0 {
            return ;
        }
        let mut best: usize = 0;
        let mut i: usize = 1;
        while i < n
            invariant
                n == self.entries@.len(),
                0 < n,
                best < i <= n,
                forall|j: int|
                    0 <= j < i ==> self.entries@[best as int].1.last_accessed
                        <= self.entries@[j].1.last_accessed,
            decreases n - i,
        {
            if self.entries[i].1.last_accessed < self.entries[best].1.last_accessed {
                best = i;
            }
            i = i + 1;
        }
        let ghost s = self.entries@;
        let ghost m = s[best as int].0@;
        proof {
            assert forall|k: Seq<u8>| #[trigger] old(self).has(k) implies old(self).entry(
                m,
            ).last_accessed <= old(self).entry(k).last_accessed by {
                lemma_at_idx(s, k);
                lemma_at_idx(s, m);
            }
            assert(old(self).is_min_lru(m));
        }
        self.entries.remove(best);
        proof {
            lemma_seq_remove(s, best as int);
            assert(old(self).evicted_to(*self, m));
        }
    }
}

} // verus!
