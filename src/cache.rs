//! The per-worker cache of outbound sockets: a bounded, time-expiring map
//! from destination endpoint to the id of a socket connected to it.
//!
//! The cache is kept by `lru_time_cache::LruCache`. Its contents are modelled
//! as the sequence of entries from least to most recently used; a lookup or
//! an insertion first drops the entries whose time to live has run out, which
//! are always the oldest ones, so a prefix of that sequence.
use vstd::prelude::*;
use lru_time_cache::LruCache;
use crate::endpoint::{Endpoint, EndpointKey};

verus! {

/// `lru_time_cache::LruCache`, opaque: its contents are known only through
/// `lru_entries`, `lru_capacity` and `lru_expires`.
#[verifier::external_type_specification]
#[verifier::external_body]
#[verifier::reject_recursive_types(Key)]
#[verifier::reject_recursive_types(Value)]
pub struct ExLruCache<Key, Value>(LruCache<Key, Value>);

/// What an LRU cache holds, from least to most recently used.
pub uninterp spec fn lru_entries(c: LruCache<(u8, u128, u16), u64>) -> Seq<((u8, u128, u16), u64)>;

/// The capacity that an LRU cache was made with.
pub uninterp spec fn lru_capacity(c: LruCache<(u8, u128, u16), u64>) -> nat;

/// Whether an LRU cache was made with a time to live.
pub uninterp spec fn lru_expires(c: LruCache<(u8, u128, u16), u64>) -> bool;

pub type Entry = (EndpointKey, u64);

/// Whether some entry is filed under `k`.
pub open spec fn has_key(s: Seq<Entry>, k: EndpointKey) -> bool {
    exists|i: int| 0 <= i < s.len() && #[trigger] s[i].0 == k
}

/// No two entries are filed under one key.
pub open spec fn keys_unique(s: Seq<Entry>) -> bool {
    forall|i: int, j: int| 0 <= i < s.len() && 0 <= j < s.len() && i != j ==> #[trigger] s[i].0 != #[trigger] s[j].0
}

/// The entries kept when a new key comes into a cache of capacity `cap`:
/// the least recently used ones leave until there is room.
pub open spec fn room_for_one(s: Seq<Entry>, cap: nat) -> Seq<Entry> {
    if s.len() >= cap {
        s.skip(s.len() - cap + 1)
    } else {
        s
    }
}

/// The entries after a lookup of `k` in `rest` (what is left once expired
/// entries are gone) that returned `r`.
pub open spec fn looked_up(rest: Seq<Entry>, k: EndpointKey, r: Option<u64>, fin: Seq<Entry>) -> bool {
    match r {
        Some(v) => exists|i: int| 0 <= i < rest.len() && #[trigger] rest[i] == (k, v) && fin == rest.remove(i).push((k, v)),
        None => !has_key(rest, k) && fin == rest,
    }
}

/// The entries after `k` was filed with `v` in `rest` (what is left once
/// expired entries are gone).
pub open spec fn inserted(rest: Seq<Entry>, k: EndpointKey, v: u64, cap: nat, fin: Seq<Entry>) -> bool {
    if has_key(rest, k) {
        exists|i: int| 0 <= i < rest.len() && #[trigger] rest[i].0 == k && fin == rest.remove(i).push((k, v))
    } else {
        fin == room_for_one(rest, cap).push((k, v))
    }
}

/// The largest capacity a cache takes. The cache reserves room for that
/// many keys up front, 32 bytes each, and a reservation must stay within
/// `isize::MAX` bytes.
pub const MAX_CAPACITY: usize = usize::MAX / 64;

/// The longest time to live a cache takes, in seconds (about a century);
/// the cache adds it to instants, which must not overflow.
pub const MAX_TTL_SECS: u64 = 3_200_000_000;

/// Relies on `LruCache::with_expiry_duration_and_capacity`: an empty cache
/// with the given capacity and time to live.
#[verifier::external_body]
fn lru_new_expiring(ttl_secs: u64, capacity: usize) -> (r: LruCache<EndpointKey, u64>)
    requires
        capacity <= MAX_CAPACITY,
        ttl_secs <= MAX_TTL_SECS,
    ensures
        lru_entries(r) == Seq::<Entry>::empty(),
        lru_capacity(r) == capacity,
        lru_expires(r),
{
    LruCache::with_expiry_duration_and_capacity(std::time::Duration::from_secs(ttl_secs), capacity)
}

/// Relies on `LruCache::with_capacity`: an empty cache with the given
/// capacity and no time to live.
#[verifier::external_body]
fn lru_new(capacity: usize) -> (r: LruCache<EndpointKey, u64>)
    requires
        capacity <= MAX_CAPACITY,
    ensures
        lru_entries(r) == Seq::<Entry>::empty(),
        lru_capacity(r) == capacity,
        !lru_expires(r),
{
    LruCache::with_capacity(capacity)
}

/// Relies on `LruCache::get`: drops the expired entries, then returns the
/// value filed under the key and marks it most recently used.
#[verifier::external_body]
fn lru_get(c: &mut LruCache<EndpointKey, u64>, k: &EndpointKey) -> (r: Option<u64>)
    ensures
        lru_capacity(*final(c)) == lru_capacity(*old(c)),
        lru_expires(*final(c)) == lru_expires(*old(c)),
        exists|j: int|
            0 <= j <= lru_entries(*old(c)).len() && (!lru_expires(*old(c)) ==> j == 0)
                && looked_up(#[trigger] lru_entries(*old(c)).skip(j), *k, r, lru_entries(*final(c))),
{
    c.get(k).copied()
}

/// Relies on `LruCache::insert`: drops the expired entries, then files the
/// value under the key as most recently used, making room by dropping the
/// least recently used entries when the key is new and the cache is full.
#[verifier::external_body]
fn lru_insert(c: &mut LruCache<EndpointKey, u64>, k: EndpointKey, v: u64)
    requires
        lru_capacity(*old(c)) > 0,
    ensures
        lru_capacity(*final(c)) == lru_capacity(*old(c)),
        lru_expires(*final(c)) == lru_expires(*old(c)),
        exists|j: int|
            0 <= j <= lru_entries(*old(c)).len() && (!lru_expires(*old(c)) ==> j == 0)
                && inserted(#[trigger] lru_entries(*old(c)).skip(j), k, v, lru_capacity(*old(c)), lru_entries(*final(c))),
{
    let _ = c.insert(k, v);
}

/// Relies on `LruCache::peek`: the value filed under the key, unless it has
/// expired; nothing is changed.
#[verifier::external_body]
fn lru_peek(c: &LruCache<EndpointKey, u64>, k: &EndpointKey) -> (r: Option<u64>)
    ensures
        r matches Some(v) ==> lru_entries(*c).contains((*k, v)),
        !lru_expires(*c) && has_key(lru_entries(*c), *k) ==> r is Some,
{
    c.peek(k).copied()
}

proof fn lemma_skip_no_key(s: Seq<Entry>, j: int, k: EndpointKey)
    requires
        0 <= j <= s.len(),
        !has_key(s, k),
    ensures
        !has_key(s.skip(j), k),
{
    assert forall|i: int| 0 <= i < s.skip(j).len() implies #[trigger] s.skip(j)[i].0 != k by {
        assert(s.skip(j)[i] == s[i + j]);
    }
}

proof fn lemma_skip_keeps(s: Seq<Entry>, j: int, next: u64)
    requires
        0 <= j <= s.len(),
        keys_unique(s),
        forall|i: int| 0 <= i < s.len() ==> #[trigger] s[i].1 < next,
    ensures
        keys_unique(s.skip(j)),
        s.skip(j).len() <= s.len(),
        forall|i: int| 0 <= i < s.skip(j).len() ==> #[trigger] s.skip(j)[i].1 < next,
{
    assert forall|a: int, b: int| 0 <= a < s.skip(j).len() && 0 <= b < s.skip(j).len() && a != b implies
        #[trigger] s.skip(j)[a].0 != #[trigger] s.skip(j)[b].0 by {
        assert(s.skip(j)[a] == s[a + j]);
        assert(s.skip(j)[b] == s[b + j]);
    }
    assert forall|i: int| 0 <= i < s.skip(j).len() implies #[trigger] s.skip(j)[i].1 < next by {
        assert(s.skip(j)[i] == s[i + j]);
    }
}

proof fn lemma_touch_keeps(s: Seq<Entry>, i: int, k: EndpointKey, v: u64, next: u64)
    requires
        0 <= i < s.len(),
        s[i].0 == k,
        v < next,
        keys_unique(s),
        forall|a: int| 0 <= a < s.len() ==> #[trigger] s[a].1 < next,
    ensures
        keys_unique(s.remove(i).push((k, v))),
        s.remove(i).push((k, v)).len() == s.len(),
        forall|a: int| 0 <= a < s.len() ==> #[trigger] s.remove(i).push((k, v))[a].1 < next,
{
    let t = s.remove(i).push((k, v));
    assert forall|a: int| 0 <= a < t.len() - 1 implies #[trigger] t[a] == (if a < i { s[a] } else { s[a + 1] }) by {}
    assert forall|a: int, b: int| 0 <= a < t.len() && 0 <= b < t.len() && a != b implies
        #[trigger] t[a].0 != #[trigger] t[b].0 by {
        if a < t.len() - 1 {
            assert(t[a] == (if a < i { s[a] } else { s[a + 1] }));
        }
        if b < t.len() - 1 {
            assert(t[b] == (if b < i { s[b] } else { s[b + 1] }));
        }
    }
    assert forall|a: int| 0 <= a < s.len() implies #[trigger] t[a].1 < next by {
        if a < t.len() - 1 {
            assert(t[a] == (if a < i { s[a] } else { s[a + 1] }));
        }
    }
}

proof fn lemma_add_keeps(s: Seq<Entry>, cap: nat, k: EndpointKey, v: u64, next: u64)
    requires
        cap > 0,
        s.len() <= cap,
        !has_key(s, k),
        v < next,
        keys_unique(s),
        forall|a: int| 0 <= a < s.len() ==> #[trigger] s[a].1 < next,
    ensures
        keys_unique(room_for_one(s, cap).push((k, v))),
        room_for_one(s, cap).push((k, v)).len() <= cap,
        forall|a: int| 0 <= a < room_for_one(s, cap).push((k, v)).len() ==> #[trigger] room_for_one(s, cap).push((k, v))[a].1 < next,
{
    let r = room_for_one(s, cap);
    if s.len() >= cap {
        lemma_skip_keeps(s, s.len() - cap + 1, next);
        lemma_skip_no_key(s, s.len() - cap + 1, k);
    }
    let t = r.push((k, v));
    assert forall|a: int, b: int| 0 <= a < t.len() && 0 <= b < t.len() && a != b implies
        #[trigger] t[a].0 != #[trigger] t[b].0 by {
        if a < r.len() && b < r.len() {
            assert(t[a] == r[a] && t[b] == r[b]);
        } else if a < r.len() {
            assert(t[a] == r[a]);
            assert(r[a].0 != k);
        } else if b < r.len() {
            assert(t[b] == r[b]);
            assert(r[b].0 != k);
        }
    }
    assert forall|a: int| 0 <= a < t.len() implies #[trigger] t[a].1 < next by {
        if a < r.len() {
            assert(t[a] == r[a]);
        }
    }
}

/// The outbound sockets of one worker, by destination. Each socket is known
/// by an id that the cache hands out; the worker holds the sockets themselves.
pub struct SocketCache {
    lru: LruCache<EndpointKey, u64>,
    next_id: u64,
}

impl SocketCache {
    /// The entries, from least to most recently used.
    pub closed spec fn entries(&self) -> Seq<Entry> {
        lru_entries(self.lru)
    }

    pub closed spec fn capacity(&self) -> nat {
        lru_capacity(self.lru)
    }

    /// Whether entries expire.
    pub closed spec fn expires(&self) -> bool {
        lru_expires(self.lru)
    }

    /// The id that the next new socket gets.
    pub closed spec fn next_id(&self) -> u64 {
        self.next_id
    }

    /// At most one entry per endpoint, at most `capacity` entries, and every
    /// id in use below the next one handed out.
    pub open spec fn wf(&self) -> bool {
        &&& self.capacity() > 0
        &&& keys_unique(self.entries())
        &&& self.entries().len() <= self.capacity()
        &&& forall|i: int| 0 <= i < self.entries().len() ==> #[trigger] self.entries()[i].1 < self.next_id()
    }

    /// What holds after `get_or_create` of key `k` returned `r`.
    pub open spec fn get_or_create_post(
        old: SocketCache,
        k: EndpointKey,
        r: Option<(u64, bool)>,
        fin: SocketCache,
    ) -> bool {
        let e = old.entries();
        &&& fin.capacity() == old.capacity()
        &&& fin.expires() == old.expires()
        &&& match r {
            Some((v, false)) => exists|j: int|
                0 <= j <= e.len() && (!old.expires() ==> j == 0) && looked_up(
                    #[trigger] e.skip(j),
                    k,
                    Some(v),
                    fin.entries(),
                ),
            Some((v, true)) => v == old.next_id() && fin.next_id() == v + 1 && exists|j1: int, j2: int|
                0 <= j1 <= j2 <= e.len() && (!old.expires() ==> j2 == 0) && !has_key(
                    #[trigger] e.skip(j1),
                    k,
                ) && fin.entries() == room_for_one(#[trigger] e.skip(j2), old.capacity()).push(
                    (k, v),
                ),
            None => old.next_id() == u64::MAX && exists|j: int|
                0 <= j <= e.len() && (!old.expires() ==> j == 0) && !has_key(#[trigger] e.skip(j), k)
                    && fin.entries() == e.skip(j),
        }
    }

    /// An empty cache whose entries expire `ttl_secs` seconds after their
    /// last use, holding at most `capacity` entries.
    pub fn new(ttl_secs: u64, capacity: usize) -> (r: SocketCache)
        requires
            0 < capacity <= MAX_CAPACITY,
            ttl_secs <= MAX_TTL_SECS,
        ensures
            r.wf(),
            r.entries() == Seq::<Entry>::empty(),
            r.capacity() == capacity,
            r.expires(),
            r.next_id() == 0,
    {
        SocketCache { lru: lru_new_expiring(ttl_secs, capacity), next_id: 0 }
    }

    /// An empty cache whose entries do not expire, holding at most
    /// `capacity` entries.
    pub fn without_expiry(capacity: usize) -> (r: SocketCache)
        requires
            0 < capacity <= MAX_CAPACITY,
        ensures
            r.wf(),
            r.entries() == Seq::<Entry>::empty(),
            r.capacity() == capacity,
            !r.expires(),
            r.next_id() == 0,
    {
        SocketCache { lru: lru_new(capacity), next_id: 0 }
    }

    /// Looks up the socket for `e`, dropping expired entries first; a hit
    /// marks the entry most recently used.
    pub fn lookup(&mut self, e: &Endpoint) -> (r: Option<u64>)
        requires
            old(self).wf(),
        ensures
            final(self).wf(),
            final(self).capacity() == old(self).capacity(),
            final(self).expires() == old(self).expires(),
            final(self).next_id() == old(self).next_id(),
            exists|j: int|
                0 <= j <= old(self).entries().len() && (!old(self).expires() ==> j == 0) && looked_up(
                    #[trigger] old(self).entries().skip(j),
                    e.key_of(),
                    r,
                    final(self).entries(),
                ),
    {
        let k = e.key();
        let ghost before = self.entries();
        let r = lru_get(&mut self.lru, &k);
        proof {
            let j = choose|j: int|
                0 <= j <= before.len() && (!old(self).expires() ==> j == 0) && looked_up(
                    #[trigger] before.skip(j),
                    k,
                    r,
                    self.entries(),
                );
            lemma_skip_keeps(before, j, self.next_id);
            if let Some(v) = r {
                let i = choose|i: int|
                    0 <= i < before.skip(j).len() && #[trigger] before.skip(j)[i] == (k, v)
                        && self.entries() == before.skip(j).remove(i).push((k, v));
                assert(before.skip(j)[i].1 < self.next_id);
                lemma_touch_keeps(before.skip(j), i, k, v, self.next_id);
            }
        }
        r
    }

    /// Files a new socket id for `e` as most recently used, dropping expired
    /// entries first and, when the cache is full, the least recently used
    /// ones. `None`, with nothing changed, once every id has been handed out.
    pub fn file_new(&mut self, e: &Endpoint) -> (r: Option<u64>)
        requires
            old(self).wf(),
        ensures
            final(self).wf(),
            final(self).capacity() == old(self).capacity(),
            final(self).expires() == old(self).expires(),
            old(self).next_id() == u64::MAX ==> r is None && *final(self) == *old(self),
            old(self).next_id() < u64::MAX ==> r == Some(old(self).next_id()) && final(self).next_id()
                == old(self).next_id() + 1 && exists|j: int|
                0 <= j <= old(self).entries().len() && (!old(self).expires() ==> j == 0) && inserted(
                    #[trigger] old(self).entries().skip(j),
                    e.key_of(),
                    old(self).next_id(),
                    old(self).capacity(),
                    final(self).entries(),
                ),
    {
        if self.next_id == u64::MAX {
            return None;
        }
        let k = e.key();
        let id = self.next_id;
        let ghost before = self.entries();
        lru_insert(&mut self.lru, k, id);
        self.next_id = id + 1;
        proof {
            let cap = self.capacity();
            let j = choose|j: int|
                0 <= j <= before.len() && (!old(self).expires() ==> j == 0) && inserted(
                    #[trigger] before.skip(j),
                    k,
                    id,
                    cap,
                    self.entries(),
                );
            lemma_skip_keeps(before, j, id);
            let rest = before.skip(j);
            if has_key(rest, k) {
                let i = choose|i: int|
                    0 <= i < rest.len() && #[trigger] rest[i].0 == k && self.entries() == rest.remove(
                        i,
                    ).push((k, id));
                lemma_touch_keeps(rest, i, k, id, self.next_id);
            } else {
                lemma_add_keeps(rest, cap, k, id, self.next_id);
            }
        }
        Some(id)
    }

    /// The socket for `e`: the cached one, marked most recently used, or else
    /// a new id filed for it (`true` in the second place). Expired entries
    /// are dropped first; when the cache is full the least recently used
    /// entries leave. `None` only once every id has been handed out.
    pub fn get_or_create(&mut self, e: &Endpoint) -> (r: Option<(u64, bool)>)
        requires
            old(self).wf(),
        ensures
            final(self).wf(),
            SocketCache::get_or_create_post(*old(self), e.key_of(), r, *final(self)),
    {
        let ghost s0 = *self;
        let found = self.lookup(e);
        match found {
            Some(v) => Some((v, false)),
            None => {
                let ghost s1 = *self;
                let r = self.file_new(e);
                proof {
                    let k = e.key_of();
                    let j1 = choose|j: int|
                        0 <= j <= s0.entries().len() && (!s0.expires() ==> j == 0) && looked_up(
                            #[trigger] s0.entries().skip(j),
                            k,
                            None,
                            s1.entries(),
                        );
                    if r is Some {
                        let j = choose|j: int|
                            0 <= j <= s1.entries().len() && (!s1.expires() ==> j == 0) && inserted(
                                #[trigger] s1.entries().skip(j),
                                k,
                                s1.next_id(),
                                s1.capacity(),
                                self.entries(),
                            );
                        assert(s0.entries().skip(j1).skip(j) =~= s0.entries().skip(j1 + j));
                        lemma_skip_no_key(s1.entries(), j, k);
                        assert(!has_key(s0.entries().skip(j1), k));
                        assert(self.entries() == room_for_one(s0.entries().skip(j1 + j), s0.capacity()).push((k, s0.next_id())));
                    } else {
                        assert(self.entries() == s0.entries().skip(j1));
                    }
                }
                match r {
                    Some(id) => Some((id, true)),
                    None => None,
                }
            },
        }
    }

    /// Whether a live socket for `e` is in the cache; nothing is changed.
    pub fn contains(&self, e: &Endpoint) -> (r: bool)
        ensures
            r ==> has_key(self.entries(), e.key_of()),
            !self.expires() ==> (r == has_key(self.entries(), e.key_of())),
    {
        let k = e.key();
        match lru_peek(&self.lru, &k) {
            Some(v) => {
                proof {
                    let i = choose|i: int| 0 <= i < self.entries().len() && self.entries()[i] == (k, v);
                    assert(self.entries()[i].0 == k);
                }
                true
            },
            None => false,
        }
    }
}

/// Two successive `get_or_create` calls for one endpoint give the same
/// socket: on a cache whose entries do not expire the second call always
/// finds it and creates nothing; on any cache, whenever the second call
/// finds an entry, it is the socket of the first call.
pub proof fn lemma_get_or_create_reuses(
    c0: SocketCache,
    c1: SocketCache,
    c2: SocketCache,
    k: EndpointKey,
    r1: Option<(u64, bool)>,
    r2: Option<(u64, bool)>,
)
    requires
        c0.wf(),
        c1.wf(),
        SocketCache::get_or_create_post(c0, k, r1, c1),
        SocketCache::get_or_create_post(c1, k, r2, c2),
        r1 is Some,
    ensures
        !c0.expires() ==> r2 == Some((r1.unwrap().0, false)),
        !c0.expires() ==> c2.entries() == c1.entries(),
        r2 matches Some((w, false)) ==> w == r1.unwrap().0,
{
    let v = r1.unwrap().0;
    let e0 = c0.entries();
    let e1 = c1.entries();
    let n = e1.len() - 1;
    assert(e1.len() > 0 && e1[n] == (k, v)) by {
        if !r1.unwrap().1 {
            let j = choose|j: int|
                0 <= j <= e0.len() && (!c0.expires() ==> j == 0) && looked_up(#[trigger] e0.skip(j), k, Some(v), e1);
        } else {
            let (j1, j2) = choose|j1: int, j2: int|
                0 <= j1 <= j2 <= e0.len() && (!c0.expires() ==> j2 == 0) && !has_key(#[trigger] e0.skip(j1), k)
                    && e1 == room_for_one(#[trigger] e0.skip(j2), c0.capacity()).push((k, v));
        }
    }
    assert(e1.skip(0) =~= e1);
    match r2 {
        Some((w, false)) => {
            let j = choose|j: int|
                0 <= j <= e1.len() && (!c1.expires() ==> j == 0) && looked_up(#[trigger] e1.skip(j), k, Some(w), c2.entries());
            let i = choose|i: int|
                0 <= i < e1.skip(j).len() && #[trigger] e1.skip(j)[i] == (k, w) && c2.entries() == e1.skip(j).remove(i).push((k, w));
            assert(e1.skip(j)[i] == e1[i + j]);
            assert(0 <= i + j < e1.len());
            assert(e1[i + j].0 == e1[n].0);
            assert(i + j == n);
            assert(w == v);
            if !c0.expires() {
                assert(j == 0);
                assert(e1.skip(j).remove(i).push((k, w)) =~= e1);
                assert(c2.entries() == e1);
            }
            assert(r2 == Some((v, false)));
        },
        Some((w, true)) => {
            if !c0.expires() {
                let (j1, j2) = choose|j1: int, j2: int|
                    0 <= j1 <= j2 <= e1.len() && (!c1.expires() ==> j2 == 0) && !has_key(#[trigger] e1.skip(j1), k)
                        && c2.entries() == room_for_one(#[trigger] e1.skip(j2), c1.capacity()).push((k, w));
                assert(j1 == 0);
                assert(e1.skip(j1)[n] == e1[n]);
                assert(e1.skip(j1)[n].0 == k);
            }
        },
        None => {
            if !c0.expires() {
                let j = choose|j: int|
                    0 <= j <= e1.len() && (!c1.expires() ==> j == 0) && !has_key(#[trigger] e1.skip(j), k)
                        && c2.entries() == e1.skip(j);
                assert(j == 0);
                assert(e1.skip(j)[n] == e1[n]);
                assert(e1.skip(j)[n].0 == k);
            }
        },
    }
}

/// On a full cache whose entries do not expire, a socket for an endpoint
/// it does not hold is created, the least recently used entry leaves, and
/// every other entry stays in its order.
pub proof fn lemma_least_recent_evicted_first(
    c0: SocketCache,
    c1: SocketCache,
    k: EndpointKey,
    r: Option<(u64, bool)>,
)
    requires
        c0.wf(),
        !c0.expires(),
        !has_key(c0.entries(), k),
        c0.entries().len() == c0.capacity(),
        SocketCache::get_or_create_post(c0, k, r, c1),
        r is Some,
    ensures
        r.unwrap().1,
        c1.entries() == c0.entries().skip(1).push((k, r.unwrap().0)),
{
    let e0 = c0.entries();
    assert(e0.skip(0) =~= e0);
    if !r.unwrap().1 {
        let j = choose|j: int|
            0 <= j <= e0.len() && (!c0.expires() ==> j == 0) && looked_up(#[trigger] e0.skip(j), k, Some(r.unwrap().0), c1.entries());
        let i = choose|i: int|
            0 <= i < e0.skip(j).len() && #[trigger] e0.skip(j)[i] == (k, r.unwrap().0) && c1.entries() == e0.skip(j).remove(i).push((k, r.unwrap().0));
        assert(e0[i].0 == k);
    }
}

/// A socket that `get_or_create` creates is new: its id differs from the id
/// of every entry the cache held before, so an entry that expired is
/// replaced by a fresh socket rather than handed out again.
pub proof fn lemma_created_socket_is_fresh(
    c0: SocketCache,
    c1: SocketCache,
    k: EndpointKey,
    r: Option<(u64, bool)>,
)
    requires
        c0.wf(),
        SocketCache::get_or_create_post(c0, k, r, c1),
        r matches Some((_, true)),
    ensures
        forall|i: int| 0 <= i < c0.entries().len() ==> #[trigger] c0.entries()[i].1 != r.unwrap().0,
{
}

/// The keys of entries, in the same order.
pub open spec fn keys_of(s: Seq<Entry>) -> Seq<EndpointKey> {
    s.map_values(|e: Entry| e.0)
}

/// The keys still held after the first `m` of `ks` were filed, one after
/// another, into an empty cache of capacity `cap` whose entries do not expire.
pub open spec fn last_filed(ks: Seq<EndpointKey>, m: int, cap: nat) -> Seq<EndpointKey> {
    if m > cap {
        ks.subrange(m - cap, m)
    } else {
        ks.subrange(0, m)
    }
}

/// `get_or_create` called on distinct endpoints one after another, starting
/// from an empty cache whose entries do not expire, leaves exactly the last
/// `capacity` of them, from least to most recently used: the earlier ones
/// were evicted, oldest first. `cs[i]` is the cache before the call for
/// `ks[i]` and `rs[i]` its result.
pub proof fn lemma_keeps_most_recent(
    cs: Seq<SocketCache>,
    ks: Seq<EndpointKey>,
    rs: Seq<Option<(u64, bool)>>,
)
    requires
        cs.len() == ks.len() + 1,
        rs.len() == ks.len(),
        cs[0].wf(),
        !cs[0].expires(),
        cs[0].entries().len() == 0,
        ks.no_duplicates(),
        forall|i: int| 0 <= i < ks.len() ==> (#[trigger] cs[i + 1]).wf(),
        forall|i: int|
            0 <= i < ks.len() ==> SocketCache::get_or_create_post(
                cs[i],
                ks[i],
                #[trigger] rs[i],
                cs[i + 1],
            ),
        forall|i: int| 0 <= i < ks.len() ==> (#[trigger] rs[i]) is Some,
    ensures
        keys_of(cs[ks.len() as int].entries()) == last_filed(ks, ks.len() as int, cs[0].capacity()),
{
    lemma_keeps_most_recent_upto(cs, ks, rs, ks.len() as int);
}

proof fn lemma_keeps_most_recent_upto(
    cs: Seq<SocketCache>,
    ks: Seq<EndpointKey>,
    rs: Seq<Option<(u64, bool)>>,
    m: int,
)
    requires
        0 <= m <= ks.len(),
        cs.len() == ks.len() + 1,
        rs.len() == ks.len(),
        cs[0].wf(),
        !cs[0].expires(),
        cs[0].entries().len() == 0,
        ks.no_duplicates(),
        forall|i: int| 0 <= i < ks.len() ==> (#[trigger] cs[i + 1]).wf(),
        forall|i: int|
            0 <= i < ks.len() ==> SocketCache::get_or_create_post(
                cs[i],
                ks[i],
                #[trigger] rs[i],
                cs[i + 1],
            ),
        forall|i: int| 0 <= i < ks.len() ==> (#[trigger] rs[i]) is Some,
    ensures
        keys_of(cs[m].entries()) == last_filed(ks, m, cs[0].capacity()),
        !cs[m].expires(),
        cs[m].capacity() == cs[0].capacity(),
        cs[m].wf(),
    decreases m,
{
    let cap = cs[0].capacity();
    if m == 0 {
        assert(keys_of(cs[0].entries()) =~= last_filed(ks, 0, cap));
    } else {
        let i = m - 1;
        lemma_keeps_most_recent_upto(cs, ks, rs, i);
        let c0 = cs[i];
        let c1 = cs[i + 1];
        let k = ks[i];
        let r = rs[i];
        let e0 = c0.entries();
        let prev = last_filed(ks, i, cap);
        assert(e0.skip(0) =~= e0);
        assert(!has_key(e0, k)) by {
            if has_key(e0, k) {
                let a = choose|a: int| 0 <= a < e0.len() && #[trigger] e0[a].0 == k;
                assert(keys_of(e0)[a] == k);
                assert(keys_of(e0).len() == e0.len());
                if i > cap {
                    assert(prev[a] == ks[i - cap + a]);
                    assert(ks[i - cap + a] != ks[i]);
                } else {
                    assert(prev[a] == ks[a]);
                    assert(ks[a] != ks[i]);
                }
            }
        }
        if !r.unwrap().1 {
            let j = choose|j: int|
                0 <= j <= e0.len() && (!c0.expires() ==> j == 0) && looked_up(#[trigger] e0.skip(j), k, Some(r.unwrap().0), c1.entries());
            let b = choose|b: int|
                0 <= b < e0.skip(j).len() && #[trigger] e0.skip(j)[b] == (k, r.unwrap().0) && c1.entries() == e0.skip(j).remove(b).push((k, r.unwrap().0));
            assert(e0[b].0 == k);
        }
        let v = r.unwrap().0;
        assert(c1.entries() == room_for_one(e0, cap).push((k, v)));
        assert(e0.len() == prev.len());
        if e0.len() >= cap {
            assert(i >= cap);
            assert(prev =~= ks.subrange(i - cap, i));
            assert(e0.len() - cap + 1 == 1);
            let t = c1.entries();
            assert(t =~= e0.skip(1).push((k, v)));
            assert forall|x: int| 0 <= x < t.len() implies #[trigger] keys_of(t)[x] == last_filed(ks, m, cap)[x] by {
                if x < t.len() - 1 {
                    assert(t[x] == e0[x + 1]);
                    assert(keys_of(e0)[x + 1] == prev[x + 1]);
                }
            }
            assert(keys_of(c1.entries()) =~= last_filed(ks, m, cap));
        } else {
            assert(keys_of(c1.entries()) =~= last_filed(ks, m, cap));
        }
    }
}

} // verus!
