//! The single-flight coordinator: at most one in-flight fetch per key.
//!
//! A request first consults the cache; a fresh value is a hit. Otherwise the
//! request either registers a new in-flight call for its key and becomes the
//! leader — the one caller that performs the upstream fetch — or joins the
//! waiter set of the call already in flight and becomes a follower. When the
//! leader publishes, every waiter that joined meanwhile is released with the
//! leader's one outcome: a success is written to the cache, a failure is
//! not. Leadership, not arrival time, breaks ties; the state never holds
//! two calls for one key.
//!
//! The coordinator is the decision core alone: it is driven with the
//! current time and the fetch outcome as plain values, and the surrounding
//! program performs the fetch and suspends the followers.

use vstd::prelude::*;
use crate::bytes::{bytes_eq, clone_bytes};
use crate::cache::{MemCache, lookup, swept};
use crate::errors::FetchError;

verus! {

/// One in-flight upstream fetch: the key it serves and the followers
/// waiting for its result, in join order.
pub struct InFlightCall {
    pub key: Vec<u8>,
    pub waiters: Vec<u64>,
}

/// No two in-flight calls share a key.
pub open spec fn call_keys_unique(s: Seq<InFlightCall>) -> bool {
    forall|i: int, j: int|
        0 <= i < s.len() && 0 <= j < s.len() && s[i].key@ == s[j].key@ ==> i == j
}

/// Some call is in flight for key `k`.
pub open spec fn has_call(s: Seq<InFlightCall>, k: Seq<u8>) -> bool {
    exists|i: int| 0 <= i < s.len() && s[i].key@ == k
}

/// The waiters of the call in flight for key `k`.
pub open spec fn waiters_for(s: Seq<InFlightCall>, k: Seq<u8>) -> Seq<u64> {
    let i = choose|i: int| 0 <= i < s.len() && s[i].key@ == k;
    s[i].waiters@
}

/// The in-flight calls as a map from key to waiter sequence.
pub open spec fn calls_view(s: Seq<InFlightCall>) -> Map<Seq<u8>, Seq<u64>> {
    Map::new(|k: Seq<u8>| has_call(s, k), |k: Seq<u8>| waiters_for(s, k))
}

/// With unique keys, the call at index `i` is what the map view stores
/// under its key.
proof fn lemma_call_at(s: Seq<InFlightCall>, i: int)
    requires
        call_keys_unique(s),
        0 <= i < s.len(),
    ensures
        has_call(s, s[i].key@),
        waiters_for(s, s[i].key@) == s[i].waiters@,
{
    assert(has_call(s, s[i].key@));
    let j = choose|j: int| 0 <= j < s.len() && s[j].key@ == s[i].key@;
    assert(j == i);
}

/// Removing the call at index `i` removes exactly its key from the view.
proof fn lemma_call_remove(s: Seq<InFlightCall>, i: int)
    requires
        call_keys_unique(s),
        0 <= i < s.len(),
    ensures
        call_keys_unique(s.remove(i)),
        forall|k: Seq<u8>| #[trigger] has_call(s.remove(i), k) <==> (has_call(s, k) && k != s[i].key@),
        forall|k: Seq<u8>|
            #[trigger] has_call(s.remove(i), k) ==> waiters_for(s.remove(i), k) == waiters_for(s, k),
{
    let s2 = s.remove(i);
    assert(forall|j: int| 0 <= j < i ==> s2[j] == s[j]);
    assert(forall|j: int| i <= j < s2.len() ==> s2[j] == s[j + 1]);
    assert forall|j1: int, j2: int|
        0 <= j1 < s2.len() && 0 <= j2 < s2.len() && s2[j1].key@ == s2[j2].key@ implies j1 == j2 by {
        let m1: int = if j1 < i { j1 } else { j1 + 1 };
        let m2: int = if j2 < i { j2 } else { j2 + 1 };
        assert(s[m1].key@ == s[m2].key@);
        assert(m1 == m2);
    }
    assert forall|k: Seq<u8>| #[trigger] has_call(s2, k) implies (has_call(s, k) && k != s[i].key@) by {
        let j = choose|j: int| 0 <= j < s2.len() && s2[j].key@ == k;
        let m: int = if j < i { j } else { j + 1 };
        assert(s[m].key@ == k);
        if k == s[i].key@ {
            assert(m == i);
            assert(false);
        }
    }
    assert forall|k: Seq<u8>| has_call(s, k) && k != s[i].key@ implies #[trigger] has_call(s2, k) by {
        let j = choose|j: int| 0 <= j < s.len() && s[j].key@ == k;
        assert(j != i);
        if j < i {
            assert(s2[j].key@ == k);
        } else {
            assert(s2[j - 1].key@ == k);
        }
    }
    assert forall|k: Seq<u8>| #[trigger] has_call(s2, k) implies waiters_for(s2, k) == waiters_for(
        s,
        k,
    ) by {
        let j = choose|j: int| 0 <= j < s2.len() && s2[j].key@ == k;
        let m: int = if j < i { j } else { j + 1 };
        assert(s[m].key@ == k);
        lemma_call_at(s2, j);
        lemma_call_at(s, m);
    }
}

/// Registering a call for a key with none in flight adds exactly that key.
proof fn lemma_call_push(s: Seq<InFlightCall>, e: InFlightCall)
    requires
        call_keys_unique(s),
        !has_call(s, e.key@),
    ensures
        call_keys_unique(s.push(e)),
        forall|k: Seq<u8>| #[trigger] has_call(s.push(e), k) <==> (has_call(s, k) || k == e.key@),
        forall|k: Seq<u8>|
            #[trigger] has_call(s.push(e), k) && k != e.key@ ==> waiters_for(s.push(e), k)
                == waiters_for(s, k),
        waiters_for(s.push(e), e.key@) == e.waiters@,
{
    let s2 = s.push(e);
    assert(forall|j: int| 0 <= j < s.len() ==> s2[j] == s[j]);
    assert(s2[s.len() as int] == e);
    assert forall|j1: int, j2: int|
        0 <= j1 < s2.len() && 0 <= j2 < s2.len() && s2[j1].key@ == s2[j2].key@ implies j1 == j2 by {
        if j1 < s.len() && j2 == s.len() {
            assert(has_call(s, e.key@));
        }
        if j2 < s.len() && j1 == s.len() {
            assert(has_call(s, e.key@));
        }
    }
    assert forall|k: Seq<u8>| #[trigger] has_call(s2, k) implies (has_call(s, k) || k == e.key@) by {
        let j = choose|j: int| 0 <= j < s2.len() && s2[j].key@ == k;
        if j < s.len() {
            assert(s[j].key@ == k);
        }
    }
    assert forall|k: Seq<u8>| has_call(s, k) || k == e.key@ implies #[trigger] has_call(s2, k) by {
        if k == e.key@ {
            assert(s2[s.len() as int].key@ == k);
        } else {
            let j = choose|j: int| 0 <= j < s.len() && s[j].key@ == k;
            assert(s2[j].key@ == k);
        }
    }
    assert forall|k: Seq<u8>| #[trigger] has_call(s2, k) && k != e.key@ implies waiters_for(s2, k)
        == waiters_for(s, k) by {
        let j = choose|j: int| 0 <= j < s2.len() && s2[j].key@ == k;
        assert(j < s.len());
        lemma_call_at(s2, j);
        lemma_call_at(s, j);
    }
    lemma_call_at(s2, s.len() as int);
}

/// Replacing the call at index `i` by one with the same key rewrites
/// exactly that key's waiters.
proof fn lemma_call_update(s: Seq<InFlightCall>, i: int, e: InFlightCall)
    requires
        call_keys_unique(s),
        0 <= i < s.len(),
        e.key@ == s[i].key@,
    ensures
        call_keys_unique(s.update(i, e)),
        forall|k: Seq<u8>| #[trigger] has_call(s.update(i, e), k) <==> has_call(s, k),
        forall|k: Seq<u8>|
            #[trigger] has_call(s.update(i, e), k) && k != e.key@ ==> waiters_for(s.update(i, e), k)
                == waiters_for(s, k),
        waiters_for(s.update(i, e), e.key@) == e.waiters@,
{
    let s2 = s.update(i, e);
    assert(forall|j: int| 0 <= j < s2.len() ==> s2[j].key@ == s[j].key@);
    assert forall|j1: int, j2: int|
        0 <= j1 < s2.len() && 0 <= j2 < s2.len() && s2[j1].key@ == s2[j2].key@ implies j1 == j2 by {
        assert(s[j1].key@ == s[j2].key@);
    }
    assert forall|k: Seq<u8>| #[trigger] has_call(s2, k) implies has_call(s, k) by {
        let j = choose|j: int| 0 <= j < s2.len() && s2[j].key@ == k;
        assert(s[j].key@ == k);
    }
    assert forall|k: Seq<u8>| has_call(s, k) implies #[trigger] has_call(s2, k) by {
        let j = choose|j: int| 0 <= j < s.len() && s[j].key@ == k;
        assert(s2[j].key@ == k);
    }
    assert forall|k: Seq<u8>| #[trigger] has_call(s2, k) && k != e.key@ implies waiters_for(s2, k)
        == waiters_for(s, k) by {
        let j = choose|j: int| 0 <= j < s2.len() && s2[j].key@ == k;
        assert(j != i);
        lemma_call_at(s2, j);
        lemma_call_at(s, j);
    }
    lemma_call_at(s2, i);
}

/// How a request resolves: served from the cache, elected to fetch, or
/// joined to the fetch already in flight.
#[derive(Debug)]
pub enum Resolution {
    /// A fresh cached value answered the request.
    Hit(Vec<u8>),
    /// No fresh value and no call in flight: this caller is the leader and
    /// must perform the one upstream fetch, then publish its outcome.
    Lead,
    /// A call for the key was already in flight: this caller joined its
    /// waiter set and suspends until the leader publishes.
    Follow,
}

/// The three ways a request can resolve, as pure data for specifications.
pub enum ResolutionKind {
    Hit,
    Lead,
    Follow,
}

/// What `resolve` decides, as a function of the cache, the in-flight map,
/// the key, the freshness window and the time.
pub open spec fn decision(
    cm: Map<Seq<u8>, (Seq<u8>, u64)>,
    km: Map<Seq<u8>, Seq<u64>>,
    k: Seq<u8>,
    f: u64,
    now: u64,
) -> ResolutionKind {
    if lookup(cm, k, f, now) is Some {
        ResolutionKind::Hit
    } else if km.dom().contains(k) {
        ResolutionKind::Follow
    } else {
        ResolutionKind::Lead
    }
}

/// What an upstream fetch came to; the leader publishes exactly one of
/// these for its call.
#[derive(Debug)]
pub enum FetchOutcome {
    /// The complete response bytes the upstream returned.
    Success(Vec<u8>),
    /// Why the fetch failed; nothing is cached.
    Failure(FetchError),
}

/// The coordinator: the in-flight call per key, at most one.
pub struct JoinCoordinator {
    pub calls: Vec<InFlightCall>,
}

impl View for JoinCoordinator {
    type V = Map<Seq<u8>, Seq<u64>>;

    open spec fn view(&self) -> Map<Seq<u8>, Seq<u64>> {
        calls_view(self.calls@)
    }
}

impl JoinCoordinator {
    /// At most one in-flight call per key.
    pub open spec fn wf(&self) -> bool {
        call_keys_unique(self.calls@)
    }

    /// A coordinator with nothing in flight.
    pub fn new() -> (c: Self)
        ensures
            c.wf(),
            c@ == Map::<Seq<u8>, Seq<u64>>::empty(),
    {
        let c = JoinCoordinator { calls: Vec::new() };
        proof {
            assert(c@ =~= Map::<Seq<u8>, Seq<u64>>::empty());
        }
        c
    }

    /// Forgets every in-flight call; the "clean" startup directive.
    pub fn clear(&mut self)
        ensures
            final(self).wf(),
            final(self)@ == Map::<Seq<u8>, Seq<u64>>::empty(),
    {
        self.calls.clear();
        proof {
            assert(self@ =~= Map::<Seq<u8>, Seq<u64>>::empty());
        }
    }

    /// The index of the in-flight call for `key`, if one exists.
    fn find_call(&self, key: &Vec<u8>) -> (r: Option<usize>)
        requires
            self.wf(),
        ensures
            match r {
                Some(i) => i < self.calls@.len() && self.calls@[i as int].key@ == key@,
                None => !has_call(self.calls@, key@),
            },
    {
        let mut i: usize = 0;
        while i < self.calls.len()
            invariant
                i <= self.calls@.len(),
                forall|j: int| 0 <= j < i ==> self.calls@[j].key@ != key@,
            decreases self.calls@.len() - i,
        {
            if bytes_eq(&self.calls[i].key, key) {
                return Some(i);
            }
            i = i + 1;
        }
        None
    }

    /// Resolves one request: a fresh cached value is a hit; otherwise the
    /// caller either registers the one in-flight call for the key and
    /// leads, or joins the existing call's waiters and follows. The cache
    /// is read with the given window, sweeping entries stale for it.
    pub fn resolve(
        &mut self,
        cache: &mut MemCache,
        key: &Vec<u8>,
        freshness_ms: u64,
        now_ms: u64,
        waiter: u64,
    ) -> (r: Resolution)
        requires
            old(self).wf(),
            old(cache).wf(),
        ensures
            final(self).wf(),
            final(cache).wf(),
            final(cache)@ == swept(old(cache)@, freshness_ms, now_ms),
            match r {
                Resolution::Hit(v) => decision(old(cache)@, old(self)@, key@, freshness_ms, now_ms)
                    is Hit && lookup(old(cache)@, key@, freshness_ms, now_ms) == Some(v@)
                    && final(self)@ == old(self)@,
                Resolution::Lead => decision(old(cache)@, old(self)@, key@, freshness_ms, now_ms)
                    is Lead && final(self)@ == old(self)@.insert(key@, Seq::<u64>::empty()),
                Resolution::Follow => decision(old(cache)@, old(self)@, key@, freshness_ms, now_ms)
                    is Follow && final(self)@ == old(self)@.insert(
                    key@,
                    old(self)@[key@].push(waiter),
                ),
            },
    {
        match cache.get(key, freshness_ms, now_ms) {
            Some(v) => Resolution::Hit(v),
            None => {
                let ghost s0 = self.calls@;
                match self.find_call(key) {
                    Some(i) => {
                        let mut c = self.calls.remove(i);
                        c.waiters.push(waiter);
                        self.calls.insert(i, c);
                        proof {
                            lemma_call_at(s0, i as int);
                            assert(self.calls@ =~= s0.update(i as int, self.calls@[i as int]));
                            lemma_call_update(s0, i as int, self.calls@[i as int]);
                            assert(self@ =~= old(self)@.insert(
                                key@,
                                old(self)@[key@].push(waiter),
                            ));
                        }
                        Resolution::Follow
                    },
                    None => {
                        let c = InFlightCall { key: clone_bytes(key), waiters: Vec::new() };
                        self.calls.push(c);
                        proof {
                            lemma_call_push(s0, self.calls@.last());
                            assert(self.calls@ =~= s0.push(self.calls@.last()));
                            assert(self@ =~= old(self)@.insert(key@, Seq::<u64>::empty()));
                        }
                        Resolution::Lead
                    },
                }
            },
        }
    }

    /// The leader publishes its fetch's outcome: the in-flight call is
    /// destroyed, every waiter that joined it is returned — each observes
    /// this one outcome — and a success is written to the cache as of
    /// `now_ms` while a failure leaves the cache untouched.
    pub fn publish(
        &mut self,
        cache: &mut MemCache,
        key: &Vec<u8>,
        outcome: &FetchOutcome,
        now_ms: u64,
    ) -> (ws: Vec<u64>)
        requires
            old(self).wf(),
            old(cache).wf(),
            old(self)@.dom().contains(key@),
        ensures
            final(self).wf(),
            final(cache).wf(),
            final(self)@ == old(self)@.remove(key@),
            ws@ == old(self)@[key@],
            match outcome {
                FetchOutcome::Success(v) => final(cache)@ == old(cache)@.insert(
                    key@,
                    (v@, now_ms),
                ),
                FetchOutcome::Failure(_) => final(cache)@ == old(cache)@,
            },
    {
        let ghost s0 = self.calls@;
        match self.find_call(key) {
            Some(i) => {
                let c = self.calls.remove(i);
                proof {
                    lemma_call_at(s0, i as int);
                    lemma_call_remove(s0, i as int);
                    assert(self@ =~= old(self)@.remove(key@));
                }
                match outcome {
                    FetchOutcome::Success(v) => {
                        cache.put(key, clone_bytes(v), now_ms);
                    },
                    FetchOutcome::Failure(_) => {},
                }
                c.waiters
            },
            None => unreached(),
        }
    }

    /// A follower that stops waiting leaves its call's waiter set: the
    /// first occurrence of `waiter` under `key` is removed, and nothing
    /// else changes. With no such call or no such waiter the state is left
    /// as it is.
    pub fn abandon(&mut self, key: &Vec<u8>, waiter: u64)
        requires
            old(self).wf(),
        ensures
            final(self).wf(),
            !old(self)@.dom().contains(key@) ==> final(self)@ == old(self)@,
            old(self)@.dom().contains(key@) ==> {
                let ws = old(self)@[key@];
                if exists|i: int| 0 <= i < ws.len() && ws[i] == waiter {
                    exists|i: int|
                        0 <= i < ws.len() && ws[i] == waiter && (forall|j: int|
                            0 <= j < i ==> ws[j] != waiter) && final(self)@ == old(self)@.insert(
                            key@,
                            ws.remove(i),
                        )
                } else {
                    final(self)@ == old(self)@
                }
            },
    {
        let ghost s0 = self.calls@;
        match self.find_call(key) {
            Some(ci) => {
                proof {
                    lemma_call_at(s0, ci as int);
                }
                let mut wi: usize = 0;
                let mut found: bool = false;
                while wi < self.calls[ci].waiters.len() && !found
                    invariant
                        self.calls@ == s0,
                        ci < self.calls@.len(),
                        wi <= self.calls@[ci as int].waiters@.len(),
                        !found ==> forall|j: int|
                            0 <= j < wi ==> self.calls@[ci as int].waiters@[j] != waiter,
                        found ==> wi < self.calls@[ci as int].waiters@.len() && self.calls@[
                            ci as int
                        ].waiters@[wi as int] == waiter && forall|j: int|
                            0 <= j < wi ==> self.calls@[ci as int].waiters@[j] != waiter,
                    decreases self.calls@[ci as int].waiters@.len() - wi, (if found { 0int } else { 1int }),
                {
                    if self.calls[ci].waiters[wi] == waiter {
                        found = true;
                    } else {
                        wi = wi + 1;
                    }
                }
                if found {
                    let mut c = self.calls.remove(ci);
                    let _ = c.waiters.remove(wi);
                    self.calls.insert(ci, c);
                    proof {
                        assert(self.calls@ =~= s0.update(ci as int, self.calls@[ci as int]));
                        lemma_call_update(s0, ci as int, self.calls@[ci as int]);
                        assert(self@ =~= old(self)@.insert(
                            key@,
                            old(self)@[key@].remove(wi as int),
                        ));
                    }
                } else {
                    proof {
                        assert(forall|j: int|
                            0 <= j < old(self)@[key@].len() ==> old(self)@[key@][j] != waiter);
                    }
                }
            },
            None => {},
        }
    }

    /// How many followers wait on the call for `key`; none when no call is
    /// in flight. A leader whose caller goes away may cancel its fetch only
    /// when this is zero.
    pub fn waiter_count(&self, key: &Vec<u8>) -> (n: usize)
        requires
            self.wf(),
        ensures
            self@.dom().contains(key@) ==> n == self@[key@].len(),
            !self@.dom().contains(key@) ==> n == 0,
    {
        match self.find_call(key) {
            Some(i) => {
                proof {
                    lemma_call_at(self.calls@, i as int);
                }
                self.calls[i].waiters.len()
            },
            None => 0,
        }
    }
}

/// The single-flight invariant, over the decision function that `resolve`
/// is proved to follow. Among any number of requests for one key issued
/// while none of them has published: the first to register leads — and it
/// does so only when no call was in flight — and every later one, for as
/// long as the call is registered and the cache still has no fresh value,
/// joins that call as a follower; joining keeps the call registered. So of
/// N such requests exactly one leads (a miss) and N − 1 follow (hits on the
/// leader's published value), and the upstream is contacted once.
/// Freshness at the coordinator: once more than the window has elapsed
/// since a key's last write, a request for it is never served the stale
/// value — with no call in flight it leads and so triggers a new fetch.
pub proof fn lemma_stale_triggers_new_fetch(
    cm: Map<Seq<u8>, (Seq<u8>, u64)>,
    km: Map<Seq<u8>, Seq<u64>>,
    k: Seq<u8>,
    f: u64,
    now: u64,
)
    requires
        cm.dom().contains(k) ==> cm[k].1 <= now && now - cm[k].1 > f,
    ensures
        decision(cm, km, k, f, now) is Hit == false,
        !km.dom().contains(k) ==> decision(cm, km, k, f, now) is Lead,
{
}

pub proof fn lemma_single_flight(
    cm: Map<Seq<u8>, (Seq<u8>, u64)>,
    km: Map<Seq<u8>, Seq<u64>>,
    k: Seq<u8>,
    f: u64,
    now: u64,
    w: u64,
)
    ensures
        decision(cm, km, k, f, now) is Lead <==> (lookup(cm, k, f, now) is None && !km.dom()
            .contains(k)),
        decision(cm, km, k, f, now) is Follow <==> (lookup(cm, k, f, now) is None && km.dom()
            .contains(k)),
        km.insert(k, Seq::<u64>::empty()).dom().contains(k),
        km.dom().contains(k) ==> km.insert(k, km[k].push(w)).dom().contains(k) && km.insert(
            k,
            km[k].push(w),
        )[k].len() == km[k].len() + 1,
{
}

} // verus!
