//! The in-memory key/value store with read-time freshness.
//!
//! A stored entry keeps the key, the value and the time of the write that
//! produced it. A read supplies the freshness window and the current time:
//! the value counts only if its own write time lies within the window, and a
//! read first sweeps out every entry that is stale for that window. Because
//! staleness is judged against the write time carried by the current entry,
//! an overwrite can never be evicted on the strength of an older write's
//! timestamp.

use vstd::prelude::*;
use crate::bytes::{bytes_eq, clone_bytes};

verus! {

/// One stored entry: a key, its value, and the time the value was written,
/// in milliseconds.
pub struct CacheEntry {
    pub key: Vec<u8>,
    pub value: Vec<u8>,
    pub write_time_ms: u64,
}

/// No two entries share a key.
pub open spec fn keys_unique(s: Seq<CacheEntry>) -> bool {
    forall|i: int, j: int|
        0 <= i < s.len() && 0 <= j < s.len() && s[i].key@ == s[j].key@ ==> i == j
}

/// Some entry holds key `k`.
pub open spec fn has_key(s: Seq<CacheEntry>, k: Seq<u8>) -> bool {
    exists|i: int| 0 <= i < s.len() && s[i].key@ == k
}

/// The value and write time stored under key `k`.
pub open spec fn entry_for(s: Seq<CacheEntry>, k: Seq<u8>) -> (Seq<u8>, u64) {
    let i = choose|i: int| 0 <= i < s.len() && s[i].key@ == k;
    (s[i].value@, s[i].write_time_ms)
}

/// The entries as a map from key to (value, write time).
pub open spec fn entries_view(s: Seq<CacheEntry>) -> Map<Seq<u8>, (Seq<u8>, u64)> {
    Map::new(|k: Seq<u8>| has_key(s, k), |k: Seq<u8>| entry_for(s, k))
}

/// A write at time `t` is still fresh at time `now` for window `f`:
/// it lies in `[now - f, now]`.
pub open spec fn is_fresh(t: u64, f: u64, now: u64) -> bool {
    t <= now && now - t <= f
}

/// The cache map after a sweep at time `now` with window `f`:
/// exactly the entries whose own write time is still fresh.
pub open spec fn swept(m: Map<Seq<u8>, (Seq<u8>, u64)>, f: u64, now: u64) -> Map<
    Seq<u8>,
    (Seq<u8>, u64),
> {
    Map::new(|k: Seq<u8>| m.dom().contains(k) && is_fresh(m[k].1, f, now), |k: Seq<u8>| m[k])
}

/// What a read of `k` at time `now` with window `f` returns: the stored
/// value when its write time is fresh, absence otherwise.
pub open spec fn lookup(m: Map<Seq<u8>, (Seq<u8>, u64)>, k: Seq<u8>, f: u64, now: u64) -> Option<
    Seq<u8>,
> {
    if m.dom().contains(k) && is_fresh(m[k].1, f, now) {
        Some(m[k].0)
    } else {
        None
    }
}

/// With unique keys, the entry at index `i` is what the map view stores
/// under its key.
pub proof fn lemma_entry_at(s: Seq<CacheEntry>, i: int)
    requires
        keys_unique(s),
        0 <= i < s.len(),
    ensures
        has_key(s, s[i].key@),
        entry_for(s, s[i].key@) == (s[i].value@, s[i].write_time_ms),
{
    assert(has_key(s, s[i].key@));
    let j = choose|j: int| 0 <= j < s.len() && s[j].key@ == s[i].key@;
    assert(j == i);
}

/// Removing the entry at index `i` removes exactly its key from the view
/// and leaves every other key's entry unchanged.
pub proof fn lemma_remove_entry(s: Seq<CacheEntry>, i: int)
    requires
        keys_unique(s),
        0 <= i < s.len(),
    ensures
        keys_unique(s.remove(i)),
        forall|k: Seq<u8>| #[trigger] has_key(s.remove(i), k) <==> (has_key(s, k) && k != s[i].key@),
        forall|k: Seq<u8>|
            #[trigger] has_key(s.remove(i), k) ==> entry_for(s.remove(i), k) == entry_for(s, k),
{
    let s2 = s.remove(i);
    assert(forall|j: int| 0 <= j < i ==> s2[j] == s[j]);
    assert(forall|j: int| i <= j < s2.len() ==> s2[j] == s[j + 1]);
    assert forall|j1: int, j2: int|
        0 <= j1 < s2.len() && 0 <= j2 < s2.len() && s2[j1].key@ == s2[j2].key@ implies j1 == j2 by {
        let m1: int = if j1 < i { j1 } else { j1 + 1 };
        let m2: int = if j2 < i { j2 } else { j2 + 1 };
        assert(s[m1].key@ == s[m2].key@);
        assert(m1 == m2);
    }
    assert forall|k: Seq<u8>| #[trigger] has_key(s2, k) implies (has_key(s, k) && k != s[i].key@) by {
        let j = choose|j: int| 0 <= j < s2.len() && s2[j].key@ == k;
        let m: int = if j < i { j } else { j + 1 };
        assert(s[m].key@ == k);
        if k == s[i].key@ {
            assert(m == i);
            assert(false);
        }
    }
    assert forall|k: Seq<u8>| has_key(s, k) && k != s[i].key@ implies #[trigger] has_key(s2, k) by {
        let j = choose|j: int| 0 <= j < s.len() && s[j].key@ == k;
        assert(j != i);
        if j < i {
            assert(s2[j].key@ == k);
        } else {
            assert(s2[j - 1].key@ == k);
        }
    }
    assert forall|k: Seq<u8>| #[trigger] has_key(s2, k) implies entry_for(s2, k) == entry_for(s, k) by {
        let j = choose|j: int| 0 <= j < s2.len() && s2[j].key@ == k;
        let m: int = if j < i { j } else { j + 1 };
        assert(s[m].key@ == k);
        lemma_entry_at(s2, j);
        lemma_entry_at(s, m);
    }
}

/// Appending an entry with a fresh key adds exactly that key to the view
/// and leaves every other key's entry unchanged.
pub proof fn lemma_push_entry(s: Seq<CacheEntry>, e: CacheEntry)
    requires
        keys_unique(s),
        !has_key(s, e.key@),
    ensures
        keys_unique(s.push(e)),
        forall|k: Seq<u8>| #[trigger] has_key(s.push(e), k) <==> (has_key(s, k) || k == e.key@),
        forall|k: Seq<u8>|
            #[trigger] has_key(s.push(e), k) && k != e.key@ ==> entry_for(s.push(e), k)
                == entry_for(s, k),
        entry_for(s.push(e), e.key@) == (e.value@, e.write_time_ms),
{
    let s2 = s.push(e);
    assert(forall|j: int| 0 <= j < s.len() ==> s2[j] == s[j]);
    assert(s2[s.len() as int] == e);
    assert forall|j1: int, j2: int|
        0 <= j1 < s2.len() && 0 <= j2 < s2.len() && s2[j1].key@ == s2[j2].key@ implies j1 == j2 by {
        if j1 < s.len() && j2 == s.len() {
            assert(has_key(s, e.key@));
        }
        if j2 < s.len() && j1 == s.len() {
            assert(has_key(s, e.key@));
        }
    }
    assert forall|k: Seq<u8>| #[trigger] has_key(s2, k) implies (has_key(s, k) || k == e.key@) by {
        let j = choose|j: int| 0 <= j < s2.len() && s2[j].key@ == k;
        if j < s.len() {
            assert(s[j].key@ == k);
        }
    }
    assert forall|k: Seq<u8>| has_key(s, k) || k == e.key@ implies #[trigger] has_key(s2, k) by {
        if k == e.key@ {
            assert(s2[s.len() as int].key@ == k);
        } else {
            let j = choose|j: int| 0 <= j < s.len() && s[j].key@ == k;
            assert(s2[j].key@ == k);
        }
    }
    assert forall|k: Seq<u8>| #[trigger] has_key(s2, k) && k != e.key@ implies entry_for(s2, k)
        == entry_for(s, k) by {
        let j = choose|j: int| 0 <= j < s2.len() && s2[j].key@ == k;
        assert(j < s.len());
        lemma_entry_at(s2, j);
        lemma_entry_at(s, j);
    }
    lemma_entry_at(s2, s.len() as int);
}

/// Replacing the entry at index `i` by one with the same key rewrites
/// exactly that key's value and write time in the view.
pub proof fn lemma_update_entry(s: Seq<CacheEntry>, i: int, e: CacheEntry)
    requires
        keys_unique(s),
        0 <= i < s.len(),
        e.key@ == s[i].key@,
    ensures
        keys_unique(s.update(i, e)),
        forall|k: Seq<u8>| #[trigger] has_key(s.update(i, e), k) <==> has_key(s, k),
        forall|k: Seq<u8>|
            #[trigger] has_key(s.update(i, e), k) && k != e.key@ ==> entry_for(s.update(i, e), k)
                == entry_for(s, k),
        entry_for(s.update(i, e), e.key@) == (e.value@, e.write_time_ms),
{
    let s2 = s.update(i, e);
    assert(forall|j: int| 0 <= j < s2.len() ==> s2[j].key@ == s[j].key@);
    assert forall|j1: int, j2: int|
        0 <= j1 < s2.len() && 0 <= j2 < s2.len() && s2[j1].key@ == s2[j2].key@ implies j1 == j2 by {
        assert(s[j1].key@ == s[j2].key@);
    }
    assert forall|k: Seq<u8>| #[trigger] has_key(s2, k) implies has_key(s, k) by {
        let j = choose|j: int| 0 <= j < s2.len() && s2[j].key@ == k;
        assert(s[j].key@ == k);
    }
    assert forall|k: Seq<u8>| has_key(s, k) implies #[trigger] has_key(s2, k) by {
        let j = choose|j: int| 0 <= j < s.len() && s[j].key@ == k;
        assert(s2[j].key@ == k);
    }
    assert forall|k: Seq<u8>| #[trigger] has_key(s2, k) && k != e.key@ implies entry_for(s2, k)
        == entry_for(s, k) by {
        let j = choose|j: int| 0 <= j < s2.len() && s2[j].key@ == k;
        assert(j != i);
        lemma_entry_at(s2, j);
        lemma_entry_at(s, j);
    }
    lemma_entry_at(s2, i);
}

/// Idempotence of reads: two identical reads of the same key, both within
/// the freshness window of its last write, return the identical value, even
/// though the first read sweeps the store.
pub proof fn lemma_read_idempotent(
    m: Map<Seq<u8>, (Seq<u8>, u64)>,
    k: Seq<u8>,
    f: u64,
    n1: u64,
    n2: u64,
)
    requires
        m.dom().contains(k),
        is_fresh(m[k].1, f, n1),
        is_fresh(m[k].1, f, n2),
    ensures
        lookup(m, k, f, n1) == Some(m[k].0),
        lookup(swept(m, f, n1), k, f, n2) == lookup(m, k, f, n1),
{
}

/// Freshness: once more than the window has elapsed since a key's last
/// write, a read of it returns nothing, the sweep drops the entry, and the
/// key is again a candidate for a fresh fetch.
pub proof fn lemma_freshness_expiry(m: Map<Seq<u8>, (Seq<u8>, u64)>, k: Seq<u8>, f: u64, now: u64)
    requires
        m.dom().contains(k),
        m[k].1 <= now,
        now - m[k].1 > f,
    ensures
        lookup(m, k, f, now) is None,
        !swept(m, f, now).dom().contains(k),
{
}

/// Overwrite-expiry correctness: after a value written at `t0` is
/// overwritten at `t1`, a read whose window has outlived `t0` but not `t1`
/// returns the newer value; the older write's timestamp cannot evict it.
pub proof fn lemma_overwrite_expiry(
    m: Map<Seq<u8>, (Seq<u8>, u64)>,
    k: Seq<u8>,
    v1: Seq<u8>,
    v2: Seq<u8>,
    t0: u64,
    t1: u64,
    f: u64,
    now: u64,
)
    requires
        t0 <= now && now - t0 > f,
        t1 <= now && now - t1 <= f,
    ensures
        lookup(m.insert(k, (v1, t0)).insert(k, (v2, t1)), k, f, now) == Some(v2),
        swept(m.insert(k, (v1, t0)).insert(k, (v2, t1)), f, now).dom().contains(k),
{
}

/// The opaque key/value store with time-bounded freshness.
pub struct MemCache {
    pub entries: Vec<CacheEntry>,
}

impl View for MemCache {
    type V = Map<Seq<u8>, (Seq<u8>, u64)>;

    open spec fn view(&self) -> Map<Seq<u8>, (Seq<u8>, u64)> {
        entries_view(self.entries@)
    }
}

impl MemCache {
    /// At most one live entry per key.
    pub open spec fn wf(&self) -> bool {
        keys_unique(self.entries@)
    }

    /// An empty store.
    pub fn new() -> (c: Self)
        ensures
            c.wf(),
            c@ == Map::<Seq<u8>, (Seq<u8>, u64)>::empty(),
    {
        let c = MemCache { entries: Vec::new() };
        proof {
            assert(c@ =~= Map::<Seq<u8>, (Seq<u8>, u64)>::empty());
        }
        c
    }

    /// Drops every entry; the "clean" startup directive.
    pub fn clear(&mut self)
        ensures
            final(self).wf(),
            final(self)@ == Map::<Seq<u8>, (Seq<u8>, u64)>::empty(),
    {
        self.entries.clear();
        proof {
            assert(self@ =~= Map::<Seq<u8>, (Seq<u8>, u64)>::empty());
        }
    }

    /// The index of the entry holding `key`, if one does.
    fn find_index(&self, key: &Vec<u8>) -> (r: Option<usize>)
        requires
            self.wf(),
        ensures
            match r {
                Some(i) => i < self.entries@.len() && self.entries@[i as int].key@ == key@,
                None => !has_key(self.entries@, key@),
            },
    {
        let mut i: usize = 0;
        while i < self.entries.len()
            invariant
                i <= self.entries@.len(),
                forall|j: int| 0 <= j < i ==> self.entries@[j].key@ != key@,
            decreases self.entries@.len() - i,
        {
            if bytes_eq(&self.entries[i].key, key) {
                return Some(i);
            }
            i = i + 1;
        }
        None
    }

    /// Stores or overwrites `key`, recording the write as `now_ms`.
    /// Never fails. An overwrite replaces both value and write time.
    pub fn put(&mut self, key: &Vec<u8>, value: Vec<u8>, now_ms: u64)
        requires
            old(self).wf(),
        ensures
            final(self).wf(),
            final(self)@ == old(self)@.insert(key@, (value@, now_ms)),
    {
        let ghost s0 = self.entries@;
        match self.find_index(key) {
            Some(i) => {
                let mut e = self.entries.remove(i);
                e.value = value;
                e.write_time_ms = now_ms;
                self.entries.insert(i, e);
                proof {
                    assert(self.entries@ =~= s0.update(i as int, self.entries@[i as int]));
                    lemma_update_entry(s0, i as int, self.entries@[i as int]);
                    assert forall|k: Seq<u8>| #[trigger] self@.dom().contains(k)
                        <==> old(self)@.insert(key@, (value@, now_ms)).dom().contains(k) by {}
                    assert(self@ =~= old(self)@.insert(key@, (value@, now_ms)));
                }
            },
            None => {
                let e = CacheEntry { key: clone_bytes(key), value, write_time_ms: now_ms };
                self.entries.push(e);
                proof {
                    lemma_push_entry(s0, self.entries@.last());
                    assert(self.entries@ =~= s0.push(self.entries@.last()));
                    assert(self@ =~= old(self)@.insert(key@, (value@, now_ms)));
                }
            },
        }
    }

    /// Removes every entry whose own write time is outside the window
    /// `[now_ms - freshness_ms, now_ms]`. Staleness is judged per entry
    /// against its current write time, so an overwrite is never evicted
    /// on the strength of an earlier write's timestamp.
    fn sweep(&mut self, freshness_ms: u64, now_ms: u64)
        requires
            old(self).wf(),
        ensures
            final(self).wf(),
            final(self)@ == swept(old(self)@, freshness_ms, now_ms),
    {
        let ghost s0 = self.entries@;
        let mut i: usize = 0;
        while i < self.entries.len()
            invariant
                keys_unique(s0),
                keys_unique(self.entries@),
                i <= self.entries@.len(),
                forall|j: int|
                    0 <= j < i ==> is_fresh(
                        #[trigger] self.entries@[j].write_time_ms,
                        freshness_ms,
                        now_ms,
                    ),
                forall|k: Seq<u8>|
                    #[trigger] has_key(self.entries@, k) ==> has_key(s0, k) && entry_for(
                        self.entries@,
                        k,
                    ) == entry_for(s0, k),
                forall|k: Seq<u8>|
                    has_key(s0, k) && is_fresh(entry_for(s0, k).1, freshness_ms, now_ms)
                        ==> #[trigger] has_key(self.entries@, k),
            decreases self.entries@.len() - i,
        {
            let t = self.entries[i].write_time_ms;
            if t <= now_ms && now_ms - t <= freshness_ms {
                i = i + 1;
            } else {
                let ghost sb = self.entries@;
                let ghost stale_key = self.entries@[i as int].key@;
                let _ = self.entries.remove(i);
                proof {
                    lemma_remove_entry(sb, i as int);
                    lemma_entry_at(sb, i as int);
                    assert(!is_fresh(entry_for(sb, stale_key).1, freshness_ms, now_ms));
                    assert forall|k: Seq<u8>|
                        has_key(s0, k) && is_fresh(entry_for(s0, k).1, freshness_ms, now_ms)
                            implies #[trigger] has_key(self.entries@, k) by {
                        assert(has_key(sb, k));
                        if k == stale_key {
                            assert(entry_for(sb, k) == entry_for(s0, k));
                        }
                    }
                }
            }
        }
        proof {
            assert forall|k: Seq<u8>| #[trigger] has_key(self.entries@, k) implies is_fresh(
                entry_for(self.entries@, k).1,
                freshness_ms,
                now_ms,
            ) by {
                let j = choose|j: int|
                    0 <= j < self.entries@.len() && self.entries@[j].key@ == k;
                lemma_entry_at(self.entries@, j);
            }
            assert(self@ =~= swept(entries_view(s0), freshness_ms, now_ms));
        }
    }

    /// Returns the value under `key` only if its current write time lies
    /// within `[now_ms - freshness_ms, now_ms]`; otherwise behaves as
    /// absent. Entries stale for this window are swept out first.
    pub fn get(&mut self, key: &Vec<u8>, freshness_ms: u64, now_ms: u64) -> (r: Option<Vec<u8>>)
        requires
            old(self).wf(),
        ensures
            final(self).wf(),
            final(self)@ == swept(old(self)@, freshness_ms, now_ms),
            match r {
                Some(v) => lookup(old(self)@, key@, freshness_ms, now_ms) == Some(v@),
                None => lookup(old(self)@, key@, freshness_ms, now_ms) is None,
            },
    {
        self.sweep(freshness_ms, now_ms);
        match self.find_index(key) {
            Some(i) => {
                let v = clone_bytes(&self.entries[i].value);
                proof {
                    lemma_entry_at(self.entries@, i as int);
                    assert(self@.dom().contains(key@));
                    assert(self@[key@] == entry_for(self.entries@, key@));
                    assert(old(self)@.dom().contains(key@));
                    assert(is_fresh(old(self)@[key@].1, freshness_ms, now_ms));
                    assert(old(self)@[key@] == self@[key@]);
                }
                Some(v)
            },
            None => {
                proof {
                    assert(!self@.dom().contains(key@));
                }
                None
            },
        }
    }
}

} // verus!
