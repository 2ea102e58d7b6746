use vstd::prelude::*;

use crate::config::{opt_str_view, KeyEntry};
use crate::text::{default_label, format_default_label};
use vstd::string::*;
use vstd::utf8::{decode_utf8, encode_utf8, is_char_boundary};

verus! {

/// Per-key concurrency ceiling used when no limit is configured.
pub const DEFAULT_MAX_IN_FLIGHT_PER_KEY: usize = 1_000_000;

/// Successful requests needed before a shrunken key window grows by one slot.
pub const AIMD_SUCCESS_THRESHOLD: usize = 8;

#[verifier::external_type_specification]
#[verifier::external_body]
pub struct ExInstant(std::time::Instant);

/// Reads the monotonic clock through `Instant::now`. Nothing is claimed of the value.
#[verifier::external_body]
fn clock_start() -> std::time::Instant {
    std::time::Instant::now()
}

/// Milliseconds elapsed since `start`, through `Instant::elapsed`. The clock is outside the
/// library, so nothing is claimed of the value.
#[verifier::external_body]
fn clock_elapsed_ms(start: &std::time::Instant) -> u64 {
    start.elapsed().as_millis() as u64
}

/// Whether a cooldown expiry lies in the future at time `now` (milliseconds on the pool clock).
pub open spec fn is_cooling(cd: Option<u64>, now: u64) -> bool {
    match cd {
        Some(expiry) => now < expiry,
        None => false,
    }
}

/// Cooldown expiry `secs` seconds after `now`, saturating at the end of the clock.
pub open spec fn expiry_after_secs(now: u64, secs: u64) -> u64 {
    if now as int + secs as int * 1000 > u64::MAX as int {
        u64::MAX
    } else {
        (now as int + secs as int * 1000) as u64
    }
}

/// Cooldown expiry `ms` milliseconds after `now`, saturating at the end of the clock.
pub open spec fn expiry_after_ms(now: u64, ms: u64) -> u64 {
    if now as int + ms as int > u64::MAX as int {
        u64::MAX
    } else {
        (now as int + ms as int) as u64
    }
}

/// Position `off` steps after `start` on a ring of `n` slots.
pub open spec fn ring_pos(start: int, off: int, n: int) -> int {
    (start + off) % n
}

/// First slot, probing `start`, `start + 1`, ... around a ring of `n` slots from offset `off`,
/// that satisfies `p`.
pub open spec fn scan(n: int, start: int, off: int, p: spec_fn(int) -> bool) -> Option<int>
    decreases n - off,
{
    if n <= 0 || off >= n || off < 0 {
        None
    } else if p(ring_pos(start, off, n)) {
        Some(ring_pos(start, off, n))
    } else {
        scan(n, start, off + 1, p)
    }
}

/// The AIMD window of one key.
pub struct KeyWindow {
    pub current: usize,
    pub successes_since_increase: usize,
}

/// Why no key could be leased.
#[derive(Debug, Clone, Copy, PartialEq, Eq, Structural)]
pub enum KeyAcquireError {
    NoKeys,
    AllCoolingDown,
    AllBusy,
}

/// A leased key slot. Return it with [`KeyPool::release`] when the upstream call finishes.
pub struct KeyLease {
    pub key: String,
    pub idx: usize,
    pub label: Option<String>,
}

/// Live status of one key, for the health and stats endpoints.
pub struct KeyStatus {
    pub label: String,
    pub key_hint: String,
    pub active: bool,
    pub cooldown_secs_remaining: u64,
    pub in_flight: usize,
    pub max_in_flight: usize,
    pub configured_max_in_flight: usize,
    pub auth_failures: u64,
}

/// Round-robin pool of API keys with cooldowns, per-key in-flight slots and an AIMD window
/// that shrinks on rate limits and reopens after successes.
pub struct KeyPool {
    keys: Vec<KeyEntry>,
    index: usize,
    cooldowns: Vec<Option<u64>>,
    in_flight: Vec<usize>,
    windows: Vec<KeyWindow>,
    max_in_flight_per_key: usize,
    auth_failures: Vec<u64>,
    clock: std::time::Instant,
}

impl KeyPool {
    /// Number of keys.
    pub closed spec fn n(&self) -> nat {
        self.keys@.len()
    }

    /// The key text at `i`.
    pub closed spec fn key_at(&self, i: int) -> Seq<char> {
        self.keys@[i].key@
    }

    /// The configured label of key `i`.
    pub closed spec fn label_at(&self, i: int) -> Option<Seq<char>> {
        opt_str_view(self.keys@[i].label)
    }

    /// The round-robin counter.
    pub closed spec fn cursor(&self) -> usize {
        self.index
    }

    /// Cooldown expiry of key `i`, if any was set.
    pub closed spec fn cooldown_at(&self, i: int) -> Option<u64> {
        self.cooldowns@[i]
    }

    /// Leased slots of key `i`.
    pub closed spec fn in_flight_at(&self, i: int) -> nat {
        self.in_flight@[i] as nat
    }

    /// Current AIMD window of key `i`.
    pub closed spec fn window_at(&self, i: int) -> nat {
        self.windows@[i].current as nat
    }

    /// Successes counted toward the next window increase of key `i`.
    pub closed spec fn successes_at(&self, i: int) -> nat {
        self.windows@[i].successes_since_increase as nat
    }

    /// Configured per-key ceiling.
    pub closed spec fn max_per_key(&self) -> nat {
        self.max_in_flight_per_key as nat
    }

    /// Cumulative auth failures of key `i`.
    pub closed spec fn auth_failures_at(&self, i: int) -> u64 {
        self.auth_failures@[i]
    }

    /// Internal consistency: one entry per key in every table, windows between one and the
    /// ceiling, leases never above the ceiling.
    pub closed spec fn wf(&self) -> bool {
        &&& self.cooldowns@.len() == self.keys@.len()
        &&& self.in_flight@.len() == self.keys@.len()
        &&& self.windows@.len() == self.keys@.len()
        &&& self.auth_failures@.len() == self.keys@.len()
        &&& self.max_in_flight_per_key >= 1
        &&& forall|i: int|
            0 <= i < self.keys@.len() ==> 1 <= #[trigger] self.windows@[i].current
                <= self.max_in_flight_per_key && self.windows@[i].successes_since_increase
                < AIMD_SUCCESS_THRESHOLD
        &&& forall|i: int|
            0 <= i < self.keys@.len() ==> #[trigger] self.in_flight@[i]
                <= self.max_in_flight_per_key
    }

    /// Whether key `i` is cooling down at `now`.
    pub open spec fn cooling(&self, i: int, now: u64) -> bool {
        is_cooling(self.cooldown_at(i), now)
    }

    /// Whether key `i` can take another lease at `now`.
    pub open spec fn leasable(&self, i: int, now: u64) -> bool {
        !self.cooling(i, now) && self.in_flight_at(i) < self.window_at(i)
    }

    /// Where the next round-robin probe starts.
    pub open spec fn probe_start(&self) -> int {
        self.cursor() as int % self.n() as int
    }

    /// The round-robin counter after one more pick.
    pub open spec fn next_cursor(&self) -> usize {
        if self.cursor() == usize::MAX {
            0
        } else {
            (self.cursor() + 1) as usize
        }
    }

    /// The key that `next_key` picks at `now`: the first key, probing round-robin from the
    /// counter, that is not cooling down.
    pub open spec fn pick_at(&self, now: u64) -> Option<int> {
        scan(self.n() as int, self.probe_start(), 0, |i: int| !self.cooling(i, now))
    }

    /// The key that `next_key_with_permit` leases at `now`.
    pub open spec fn lease_at(&self, now: u64) -> Option<int> {
        scan(self.n() as int, self.probe_start(), 0, |i: int| self.leasable(i, now))
    }

    /// Keys, labels, cooldowns, auth-failure counts and the ceiling are those of `other`.
    pub closed spec fn same_keys_and_cooldowns(&self, other: &Self) -> bool {
        &&& self.keys@ == other.keys@
        &&& self.cooldowns@ == other.cooldowns@
        &&& self.auth_failures@ == other.auth_failures@
        &&& self.max_in_flight_per_key == other.max_in_flight_per_key
    }

    /// Leases and windows are those of `other`.
    pub closed spec fn same_slots(&self, other: &Self) -> bool {
        &&& self.in_flight@ == other.in_flight@
        &&& self.windows@ == other.windows@
    }

    /// What `same_keys_and_cooldowns` means key by key.
    pub proof fn lemma_same_keys(&self, other: &Self)
        requires
            self.same_keys_and_cooldowns(other),
        ensures
            self.n() == other.n(),
            self.max_per_key() == other.max_per_key(),
            forall|i: int| #[trigger] self.key_at(i) == other.key_at(i),
            forall|i: int| #[trigger] self.label_at(i) == other.label_at(i),
            forall|i: int| #[trigger] self.cooldown_at(i) == other.cooldown_at(i),
            forall|i: int| #[trigger] self.auth_failures_at(i) == other.auth_failures_at(i),
    {
    }

    /// Sameness of keys, cooldowns, leases and windows holds of a pool and itself, and
    /// carries over from one pool to the next.
    pub proof fn lemma_same_chain(a: &Self, b: &Self, c: &Self)
        ensures
            a.same_keys_and_cooldowns(a) && a.same_slots(a),
            a.same_keys_and_cooldowns(b) && b.same_keys_and_cooldowns(c) ==> a.same_keys_and_cooldowns(c),
            a.same_slots(b) && b.same_slots(c) ==> a.same_slots(c),
            a.same_keys_and_cooldowns(b) ==> b.same_keys_and_cooldowns(a),
    {
    }

    /// What `same_slots` means key by key.
    pub proof fn lemma_same_slots(&self, other: &Self)
        requires
            self.same_slots(other),
        ensures
            forall|i: int| #[trigger] self.in_flight_at(i) == other.in_flight_at(i),
            forall|i: int| #[trigger] self.window_at(i) == other.window_at(i),
            forall|i: int| #[trigger] self.successes_at(i) == other.successes_at(i),
    {
    }

    /// Contract of the operation at time `now`: `self` before, `fin` after.
    pub open spec fn next_key_post(self, fin: Self, res: Option<(String, usize)>, now: u64) -> bool {
        &&& fin.wf()
        &&& fin.same_keys_and_cooldowns(&self)
        &&& fin.same_slots(&self)
        &&& fin.cursor() == if self.n() == 0 {
            self.cursor()
        } else {
            self.next_cursor()
        }
        &&& match self.pick_at(now) {
            Some(i) => res matches Some(r) && r.1 == i && r.0@ == self.key_at(i),
            None => res is None
        }
    }

    /// Contract of the operation at time `now`: `self` before, `fin` after.
    pub open spec fn lease_post(self, fin: Self, res: Result<KeyLease, KeyAcquireError>, now: u64) -> bool {
        &&& fin.wf()
        &&& fin.same_keys_and_cooldowns(&self)
        &&& fin.cursor() == if self.n() == 0 {
            self.cursor()
        } else {
            self.next_cursor()
        }
        &&& self.n() == 0 ==> res == Err::<KeyLease, KeyAcquireError>(KeyAcquireError::NoKeys)
        &&& self.n() > 0 ==> match self.lease_at(now) {
            Some(i) => {
                &&& res matches Ok(lease) && lease.idx == i && lease.key@ == self.key_at(i)
                    && opt_str_view(lease.label) == Some(self.key_label_at(i))
                &&& fin.in_flight_at(i) == self.in_flight_at(i) + 1
                &&& forall|j: int|
                    0 <= j < self.n() && j != i ==> #[trigger] fin.in_flight_at(j)
                        == self.in_flight_at(j)
                &&& forall|j: int|
                    0 <= j < self.n() ==> #[trigger] fin.window_at(j)
                        == self.window_at(j) && fin.successes_at(j)
                        == self.successes_at(j)
            },
            None => {
                &&& fin.same_slots(&self)
                &&& (exists|j: int| 0 <= j < self.n() && !self.cooling(j, now))
                    ==> res == Err::<KeyLease, KeyAcquireError>(KeyAcquireError::AllBusy)
                &&& (forall|j: int| 0 <= j < self.n() ==> self.cooling(j, now))
                    ==> res == Err::<KeyLease, KeyAcquireError>(KeyAcquireError::AllCoolingDown)
            }
        }
    }

    /// Contract of `release(idx)`: `self` before, `fin` after. The lease count of key
    /// `idx` drops by one (not below zero); nothing else changes.
    pub open spec fn release_post(self, fin: Self, idx: usize) -> bool {
        &&& fin.wf()
        &&& fin.same_keys_and_cooldowns(&self)
        &&& fin.cursor() == self.cursor()
        &&& forall|j: int|
            0 <= j < self.n() ==> #[trigger] fin.window_at(j) == self.window_at(j)
                && fin.successes_at(j) == self.successes_at(j)
        &&& forall|j: int|
            0 <= j < self.n() ==> #[trigger] fin.in_flight_at(j) == if j == idx
                && self.in_flight_at(j) > 0 {
                (self.in_flight_at(j) - 1) as nat
            } else {
                self.in_flight_at(j)
            }
    }

    /// Contract of the operation at time `now`: `self` before, `fin` after.
    pub open spec fn rate_limited_post(self, fin: Self, idx: usize, secs: u64, now: u64) -> bool {
        &&& fin.wf()
        &&& fin.cursor() == self.cursor()
        &&& fin.n() == self.n()
        &&& fin.max_per_key() == self.max_per_key()
        &&& fin.window_updated(&self, idx as int, halved_window(self.window_at(idx as int)), 0)
        &&& forall|j: int| 0 <= j < self.n() ==> {
            &&& #[trigger] fin.key_at(j) == self.key_at(j)
            &&& fin.label_at(j) == self.label_at(j)
            &&& fin.auth_failures_at(j) == self.auth_failures_at(j)
            &&& fin.cooldown_at(j) == if j == idx {
                Some(expiry_after_secs(now, secs))
            } else {
                self.cooldown_at(j)
            }
        }
    }

    /// Contract of the operation at time `now`: `self` before, `fin` after.
    pub open spec fn auth_failed_post(self, fin: Self, idx: usize, cooldown_ms: u64, now: u64) -> bool {
        &&& fin.wf()
        &&& fin.cursor() == self.cursor()
        &&& fin.n() == self.n()
        &&& fin.max_per_key() == self.max_per_key()
        &&& fin.same_slots(&self)
        &&& forall|j: int| 0 <= j < self.n() ==> {
            &&& #[trigger] fin.key_at(j) == self.key_at(j)
            &&& fin.label_at(j) == self.label_at(j)
            &&& fin.auth_failures_at(j) == if j == idx {
                if self.auth_failures_at(j) == u64::MAX { 0 } else { (self.auth_failures_at(j) + 1) as u64 }
            } else {
                self.auth_failures_at(j)
            }
            &&& fin.cooldown_at(j) == if j == idx && cooldown_ms > 0 {
                Some(expiry_after_ms(now, cooldown_ms))
            } else {
                self.cooldown_at(j)
            }
        }
    }

    /// A pool whose keys take at most `DEFAULT_MAX_IN_FLIGHT_PER_KEY` leases each.
    pub fn new(keys: Vec<KeyEntry>) -> (pool: Self)
        ensures
            pool.wf(),
            pool.n() == keys@.len(),
            pool.cursor() == 0,
            pool.max_per_key() == DEFAULT_MAX_IN_FLIGHT_PER_KEY,
            forall|i: int|
                0 <= i < keys@.len() ==> {
                    &&& #[trigger] pool.key_at(i) == keys@[i].key@
                    &&& pool.label_at(i) == opt_str_view(keys@[i].label)
                    &&& pool.cooldown_at(i) == None::<u64>
                    &&& pool.in_flight_at(i) == 0
                    &&& pool.window_at(i) == DEFAULT_MAX_IN_FLIGHT_PER_KEY
                    &&& pool.successes_at(i) == 0
                    &&& pool.auth_failures_at(i) == 0
                },
    {
        Self::with_max_in_flight(keys, DEFAULT_MAX_IN_FLIGHT_PER_KEY)
    }

    /// A pool whose keys take at most `max_in_flight_per_key` leases each (at least one).
    pub fn with_max_in_flight(keys: Vec<KeyEntry>, max_in_flight_per_key: usize) -> (pool: Self)
        ensures
            pool.wf(),
            pool.n() == keys@.len(),
            pool.cursor() == 0,
            pool.max_per_key() == if max_in_flight_per_key < 1 { 1 } else { max_in_flight_per_key },
            forall|i: int|
                0 <= i < keys@.len() ==> {
                    &&& #[trigger] pool.key_at(i) == keys@[i].key@
                    &&& pool.label_at(i) == opt_str_view(keys@[i].label)
                    &&& pool.cooldown_at(i) == None::<u64>
                    &&& pool.in_flight_at(i) == 0
                    &&& pool.window_at(i) == pool.max_per_key()
                    &&& pool.successes_at(i) == 0
                    &&& pool.auth_failures_at(i) == 0
                },
    {
        let n = keys.len();
        let max = if max_in_flight_per_key < 1 { 1 } else { max_in_flight_per_key };
        let mut cooldowns: Vec<Option<u64>> = Vec::new();
        let mut in_flight: Vec<usize> = Vec::new();
        let mut windows: Vec<KeyWindow> = Vec::new();
        let mut auth_failures: Vec<u64> = Vec::new();
        let mut i: usize = 0;
        while i < n
            invariant
                i <= n,
                n == keys@.len(),
                cooldowns@.len() == i,
                in_flight@.len() == i,
                windows@.len() == i,
                auth_failures@.len() == i,
                max >= 1,
                forall|j: int| 0 <= j < i ==> #[trigger] cooldowns@[j] == None::<u64>,
                forall|j: int| 0 <= j < i ==> #[trigger] in_flight@[j] == 0,
                forall|j: int|
                    0 <= j < i ==> (#[trigger] windows@[j]).current == max
                        && windows@[j].successes_since_increase == 0,
                forall|j: int| 0 <= j < i ==> #[trigger] auth_failures@[j] == 0,
            decreases n - i,
        {
            cooldowns.push(None);
            in_flight.push(0);
            windows.push(KeyWindow { current: max, successes_since_increase: 0 });
            auth_failures.push(0);
            i = i + 1;
        }
        let pool = KeyPool {
            keys,
            index: 0,
            cooldowns,
            in_flight,
            windows,
            max_in_flight_per_key: max,
            auth_failures,
            clock: clock_start(),
        };
        assert(pool.n() == n);
        assert forall|i: int| 0 <= i < keys@.len() implies #[trigger] pool.key_at(i) == keys@[i].key@ by {}
        assert forall|i: int| 0 <= i < keys@.len() implies #[trigger] pool.label_at(i) == opt_str_view(keys@[i].label) by {}
        assert forall|i: int| 0 <= i < keys@.len() implies #[trigger] pool.cooldown_at(i) == None::<u64> by {}
        assert forall|i: int| 0 <= i < keys@.len() implies #[trigger] pool.in_flight_at(i) == 0 by {}
        assert forall|i: int| 0 <= i < keys@.len() implies #[trigger] pool.window_at(i) == pool.max_per_key() by {}
        assert forall|i: int| 0 <= i < keys@.len() implies #[trigger] pool.successes_at(i) == 0 by {}
        assert forall|i: int| 0 <= i < keys@.len() implies #[trigger] pool.auth_failures_at(i) == 0 by {}
        pool
    }

    /// Number of keys.
    pub fn len(&self) -> (n: usize)
        ensures
            n == self.n(),
    {
        self.keys.len()
    }

    /// Milliseconds since the pool was built, on its monotonic clock.
    pub fn now_ms(&self) -> u64 {
        clock_elapsed_ms(&self.clock)
    }

    /// Advances the round-robin counter and returns where this pick starts probing.
    fn advance_cursor(&mut self) -> (start: usize)
        requires
            old(self).wf(),
            old(self).n() > 0,
        ensures
            final(self).wf(),
            start == old(self).probe_start(),
            final(self).cursor() == old(self).next_cursor(),
            final(self).same_keys_and_cooldowns(old(self)),
            final(self).same_slots(old(self)),
    {
        let n = self.keys.len();
        let start = self.index % n;
        self.index = if self.index == usize::MAX { 0 } else { self.index + 1 };
        start
    }

    /// Picks the next key that is not cooling down at `now`, probing round-robin from the
    /// counter. The counter advances by one whenever the pool is not empty.
    pub fn next_key_at(&mut self, now: u64) -> (res: Option<(String, usize)>)
        requires
            old(self).wf(),
        ensures
            old(self).next_key_post(*final(self), res, now),
    {
        let n = self.keys.len();
        if n == 0 {
            return None;
        }
        let ghost pre = *self;
        let start = self.advance_cursor();
        let mut i: usize = 0;
        while i < n
            invariant
                self.wf(),
                n == self.n(),
                n == pre.n(),
                0 <= start < n,
                start == pre.probe_start(),
                i <= n,
                self.same_keys_and_cooldowns(&pre),
                pre == *old(self),
                self.same_slots(&pre),
                self.cursor() == pre.next_cursor(),
                scan(n as int, start as int, i as int, |j: int| !pre.cooling(j, now))
                    == pre.pick_at(now),
            decreases n - i,
        {
            let idx = if i < n - start { start + i } else { i - (n - start) };
            proof {
                lemma_ring_step(start as int, i as int, n as int);
            }
            let available = match self.cooldowns[idx] {
                Some(expiry) => !(now < expiry),
                None => true,
            };
            if available {
                return Some((self.keys[idx].key.clone(), idx));
            }
            i = i + 1;
        }
        None
    }

    /// Leases a slot on the next key that is neither cooling down nor at its window at `now`.
    /// Fails with `NoKeys` on an empty pool, `AllCoolingDown` when every key cools down, and
    /// `AllBusy` when some key is active but none has a free slot.
    pub fn next_key_with_permit_at(&mut self, now: u64) -> (res: Result<KeyLease, KeyAcquireError>)
        requires
            old(self).wf(),
        ensures
            old(self).lease_post(*final(self), res, now),
    {
        let n = self.keys.len();
        if n == 0 {
            return Err(KeyAcquireError::NoKeys);
        }
        let ghost pre = *self;
        let start = self.advance_cursor();
        let mut active_seen = false;
        let mut i: usize = 0;
        while i < n
            invariant
                self.wf(),
                n == self.n(),
                n == pre.n(),
                0 <= start < n,
                start == pre.probe_start(),
                i <= n,
                self.same_keys_and_cooldowns(&pre),
                pre == *old(self),
                self.same_slots(&pre),
                self.cursor() == pre.next_cursor(),
                scan(n as int, start as int, i as int, |j: int| pre.leasable(j, now))
                    == pre.lease_at(now),
                active_seen ==> exists|j: int| 0 <= j < n && !pre.cooling(j, now),
                !active_seen ==> forall|o: int|
                    0 <= o < i ==> pre.cooling(#[trigger] ring_pos(start as int, o, n as int), now),
            decreases n - i,
        {
            let idx = if i < n - start { start + i } else { i - (n - start) };
            proof {
                lemma_ring_step(start as int, i as int, n as int);
            }
            let cooling = match self.cooldowns[idx] {
                Some(expiry) => now < expiry,
                None => false,
            };
            if !cooling {
                assert(!pre.cooling(idx as int, now));
                active_seen = true;
                if self.in_flight[idx] < self.windows[idx].current {
                    let label = self.get_key_label(idx);
                    let key = self.keys[idx].key.clone();
                    let cur = self.in_flight[idx];
                    let ghost before = *self;
                    self.in_flight.set(idx, cur + 1);
                    proof {
                        assert forall|j: int| 0 <= j < n implies #[trigger] self.in_flight@[j]
                            <= self.max_in_flight_per_key by {
                            if j != idx {
                                assert(self.in_flight@[j] == before.in_flight@[j]);
                            }
                        }
                        assert forall|j: int| 0 <= j < n && j != idx implies
                            #[trigger] self.in_flight_at(j) == pre.in_flight_at(j) by {
                            assert(self.in_flight@[j] == before.in_flight@[j]);
                        }
                    }
                    return Ok(KeyLease { key, idx, label });
                }
            }
            i = i + 1;
        }
        proof {
            if !active_seen {
                assert forall|j: int| 0 <= j < n implies pre.cooling(j, now) by {
                    lemma_ring_covers(start as int, j, n as int);
                    let o = (j - start + n) % (n as int);
                    assert(ring_pos(start as int, o, n as int) == j);
                }
            }
        }
        if active_seen {
            Err(KeyAcquireError::AllBusy)
        } else {
            Err(KeyAcquireError::AllCoolingDown)
        }
    }

    /// Returns a slot leased on key `idx`. Out-of-range indices and keys with no lease are
    /// left alone.
    pub fn release(&mut self, idx: usize)
        requires
            old(self).wf(),
        ensures
            old(self).release_post(*final(self), idx),
    {
        if idx < self.in_flight.len() && self.in_flight[idx] > 0 {
            let cur = self.in_flight[idx];
            self.in_flight.set(idx, cur - 1);
        }
    }

    /// Halves the window of key `idx` (never below one slot) and restarts its success count.
    /// Out-of-range indices are ignored.
    pub fn record_rate_limited(&mut self, idx: usize)
        requires
            old(self).wf(),
        ensures
            final(self).wf(),
            final(self).same_keys_and_cooldowns(old(self)),
            final(self).cursor() == old(self).cursor(),
            final(self).window_updated(old(self), idx as int, halved_window(old(self).window_at(idx as int)), 0),
    {
        if idx < self.windows.len() {
            let cur = self.windows[idx].current;
            let half = cur / 2;
            let next = if half < 1 { 1 } else { half };
            let ghost before = self.windows@;
            self.windows.set(idx, KeyWindow { current: next, successes_since_increase: 0 });
            assert forall|j: int| 0 <= j < self.keys@.len() implies 1 <= #[trigger] self.windows@[j].current
                <= self.max_in_flight_per_key && self.windows@[j].successes_since_increase
                < AIMD_SUCCESS_THRESHOLD by {
                if j != idx {
                    assert(self.windows@[j] == before[j]);
                }
            }
        }
    }

    /// Counts one success on key `idx`. Below the ceiling, every
    /// `AIMD_SUCCESS_THRESHOLD`-th success grows the window by one slot; at the ceiling the
    /// count restarts. Out-of-range indices are ignored.
    pub fn record_success(&mut self, idx: usize)
        requires
            old(self).wf(),
        ensures
            final(self).wf(),
            final(self).same_keys_and_cooldowns(old(self)),
            final(self).cursor() == old(self).cursor(),
            ({
                let w = old(self).window_at(idx as int);
                let s = old(self).successes_at(idx as int);
                if w < old(self).max_per_key() {
                    if s + 1 >= AIMD_SUCCESS_THRESHOLD {
                        final(self).window_updated(old(self), idx as int, w + 1, 0)
                    } else {
                        final(self).window_updated(old(self), idx as int, w, s + 1)
                    }
                } else {
                    final(self).window_updated(old(self), idx as int, w, 0)
                }
            }),
    {
        if idx < self.windows.len() {
            let cur = self.windows[idx].current;
            let succ = self.windows[idx].successes_since_increase;
            if cur < self.max_in_flight_per_key {
                if succ + 1 >= AIMD_SUCCESS_THRESHOLD {
                    self.windows.set(idx, KeyWindow { current: cur + 1, successes_since_increase: 0 });
                } else {
                    self.windows.set(idx, KeyWindow { current: cur, successes_since_increase: succ + 1 });
                }
            } else {
                self.windows.set(idx, KeyWindow { current: cur, successes_since_increase: 0 });
            }
        }
    }

    /// For an in-range `idx`, only key `idx`'s window changed, to `w` with success count `s`,
    /// and the leases are unchanged; for an out-of-range `idx` nothing changed.
    pub closed spec fn window_updated(&self, old_pool: &Self, idx: int, w: nat, s: nat) -> bool {
        &&& self.in_flight@ == old_pool.in_flight@
        &&& if 0 <= idx < old_pool.n() {
            &&& self.windows@.len() == old_pool.windows@.len()
            &&& self.windows@[idx].current == w
            &&& self.windows@[idx].successes_since_increase == s
            &&& forall|j: int|
                0 <= j < old_pool.n() && j != idx ==> #[trigger] self.windows@[j] == old_pool.windows@[j]
        } else {
            self.windows@ == old_pool.windows@
        }
    }

    /// What `window_updated` means key by key.
    pub proof fn lemma_window_updated(&self, old_pool: &Self, idx: int, w: nat, s: nat)
        requires
            self.window_updated(old_pool, idx, w, s),
            self.same_keys_and_cooldowns(old_pool),
            old_pool.wf(),
        ensures
            forall|j: int| 0 <= j < self.n() ==> #[trigger] self.in_flight_at(j) == old_pool.in_flight_at(j),
            0 <= idx < self.n() ==> self.window_at(idx) == w && self.successes_at(idx) == s,
            forall|j: int|
                0 <= j < self.n() && j != idx ==> #[trigger] self.window_at(j) == old_pool.window_at(j)
                    && self.successes_at(j) == old_pool.successes_at(j),
    {
    }

    /// Puts key `idx` on cooldown for `secs` seconds from `now` and halves its window.
    /// Out-of-range indices are ignored.
    pub fn mark_rate_limited_at(&mut self, idx: usize, secs: u64, now: u64)
        requires
            old(self).wf(),
        ensures
            old(self).rate_limited_post(*final(self), idx, secs, now),
    {
        if idx < self.cooldowns.len() {
            self.record_rate_limited(idx);
            let expiry = if secs > (u64::MAX - now) / 1000 {
                u64::MAX
            } else {
                now + secs * 1000
            };
            proof {
                if secs > (u64::MAX - now) / 1000 {
                    assert(secs * 1000 > u64::MAX - now) by (nonlinear_arith)
                        requires secs > (u64::MAX - now) / 1000;
                } else {
                    assert(secs * 1000 <= u64::MAX - now) by (nonlinear_arith)
                        requires secs <= (u64::MAX - now) / 1000, now <= u64::MAX;
                }
            }
            self.cooldowns.set(idx, Some(expiry));
        }
    }

    /// Counts one upstream auth failure on key `idx` and, for a cooldown above zero, puts the
    /// key on cooldown for `cooldown_ms` milliseconds from `now`. Out-of-range indices are
    /// ignored.
    pub fn mark_auth_failed_at(&mut self, idx: usize, cooldown_ms: u64, now: u64)
        requires
            old(self).wf(),
        ensures
            old(self).auth_failed_post(*final(self), idx, cooldown_ms, now),
    {
        if idx >= self.cooldowns.len() {
            return;
        }
        let count = self.auth_failures[idx];
        let bumped = if count == u64::MAX { 0 } else { count + 1 };
        self.auth_failures.set(idx, bumped);
        if cooldown_ms > 0 {
            let expiry = if cooldown_ms > u64::MAX - now { u64::MAX } else { now + cooldown_ms };
            self.cooldowns.set(idx, Some(expiry));
        }
    }

    /// Keys among the first `k` that are not cooling down at `now`.
    pub open spec fn count_active(&self, now: u64, k: int) -> nat
        decreases k,
    {
        if k <= 0 {
            0
        } else {
            self.count_active(now, k - 1) + if self.cooling(k - 1, now) { 0nat } else { 1nat }
        }
    }

    /// Free slots (window minus leases, never negative) over the first `k` keys that are not
    /// cooling down at `now`.
    pub open spec fn sum_free(&self, now: u64, k: int) -> nat
        decreases k,
    {
        if k <= 0 {
            0
        } else {
            self.sum_free(now, k - 1) + if self.cooling(k - 1, now) {
                0nat
            } else if self.in_flight_at(k - 1) >= self.window_at(k - 1) {
                0nat
            } else {
                (self.window_at(k - 1) - self.in_flight_at(k - 1)) as nat
            }
        }
    }

    /// Window sizes over the first `k` keys that are not cooling down at `now`.
    pub open spec fn sum_window(&self, now: u64, k: int) -> nat
        decreases k,
    {
        if k <= 0 {
            0
        } else {
            self.sum_window(now, k - 1) + if self.cooling(k - 1, now) {
                0nat
            } else {
                self.window_at(k - 1)
            }
        }
    }

    /// Number of keys that are not cooling down at `now`.
    pub fn active_count_at(&self, now: u64) -> (c: usize)
        requires
            self.wf(),
        ensures
            c == self.count_active(now, self.n() as int),
    {
        let n = self.keys.len();
        let mut total: usize = 0;
        let mut i: usize = 0;
        while i < n
            invariant
                self.wf(),
                n == self.n(),
                i <= n,
                total == self.count_active(now, i as int),
                total <= i,
            decreases n - i,
        {
            let cooling = match self.cooldowns[i] {
                Some(expiry) => now < expiry,
                None => false,
            };
            if !cooling {
                total = total + 1;
            }
            i = i + 1;
        }
        total
    }

    /// Free slots over the keys that are not cooling down at `now`.
    pub fn available_permits_at(&self, now: u64) -> (c: usize)
        requires
            self.wf(),
            self.n() * self.max_per_key() <= usize::MAX,
        ensures
            c == self.sum_free(now, self.n() as int),
    {
        let n = self.keys.len();
        let max = self.max_in_flight_per_key;
        let mut total: usize = 0;
        let mut i: usize = 0;
        while i < n
            invariant
                self.wf(),
                n == self.n(),
                max == self.max_per_key(),
                n * max <= usize::MAX,
                i <= n,
                total == self.sum_free(now, i as int),
                total <= i * max,
            decreases n - i,
        {
            let cooling = match self.cooldowns[i] {
                Some(expiry) => now < expiry,
                None => false,
            };
            proof {
                assert((i + 1) * max <= n * max) by (nonlinear_arith) requires i < n;
                assert((i + 1) * max == i * max + max) by (nonlinear_arith);
            }
            if !cooling {
                let w = self.windows[i].current;
                let used = self.in_flight[i];
                if used < w {
                    total = total + (w - used);
                }
            }
            i = i + 1;
        }
        total
    }

    /// Window sizes over the keys that are not cooling down at `now`.
    pub fn window_capacity_at(&self, now: u64) -> (c: usize)
        requires
            self.wf(),
            self.n() * self.max_per_key() <= usize::MAX,
        ensures
            c == self.sum_window(now, self.n() as int),
    {
        let n = self.keys.len();
        let max = self.max_in_flight_per_key;
        let mut total: usize = 0;
        let mut i: usize = 0;
        while i < n
            invariant
                self.wf(),
                n == self.n(),
                max == self.max_per_key(),
                n * max <= usize::MAX,
                i <= n,
                total == self.sum_window(now, i as int),
                total <= i * max,
            decreases n - i,
        {
            let cooling = match self.cooldowns[i] {
                Some(expiry) => now < expiry,
                None => false,
            };
            proof {
                assert((i + 1) * max <= n * max) by (nonlinear_arith) requires i < n;
                assert((i + 1) * max == i * max + max) by (nonlinear_arith);
            }
            if !cooling {
                total = total + self.windows[i].current;
            }
            i = i + 1;
        }
        total
    }

    /// Every key's text has a character boundary four bytes before its end (true of ASCII
    /// keys); this is where the hint is cut.
    pub open spec fn keys_hintable(&self) -> bool {
        forall|i: int| 0 <= i < self.n() ==> hintable(#[trigger] self.key_at(i))
    }

    /// Whole seconds of cooldown left for key `i` at `now`.
    pub open spec fn cooldown_secs_left(&self, i: int, now: u64) -> u64 {
        match self.cooldown_at(i) {
            Some(expiry) => if now < expiry { ((expiry - now) / 1000) as u64 } else { 0 },
            None => 0,
        }
    }

    /// What `status_at` reports for key `i` at `now`.
    pub open spec fn status_matches(&self, st: KeyStatus, i: int, now: u64) -> bool {
        &&& st.label@ == self.key_label_at(i)
        &&& st.key_hint@ == hint_of(self.key_at(i))
        &&& st.active == !self.cooling(i, now)
        &&& st.cooldown_secs_remaining == self.cooldown_secs_left(i, now)
        &&& st.in_flight == self.in_flight_at(i)
        &&& st.max_in_flight == self.window_at(i)
        &&& st.configured_max_in_flight == self.max_per_key()
        &&& st.auth_failures == self.auth_failures_at(i)
    }

    /// Every key's status at `now`, in pool order.
    pub open spec fn all_status_match(&self, res: Seq<KeyStatus>, now: u64) -> bool {
        &&& res.len() == self.n()
        &&& forall|i: int| 0 <= i < self.n() ==> self.status_matches(#[trigger] res[i], i, now)
    }

    /// Status of every key at `now`, in pool order.
    pub fn status_at(&self, now: u64) -> (res: Vec<KeyStatus>)
        requires
            self.wf(),
            self.keys_hintable(),
        ensures
            res@.len() == self.n(),
            forall|i: int| 0 <= i < self.n() ==> self.status_matches(#[trigger] res@[i], i, now),
    {
        let n = self.keys.len();
        let mut out: Vec<KeyStatus> = Vec::new();
        let mut i: usize = 0;
        while i < n
            invariant
                self.wf(),
                self.keys_hintable(),
                n == self.n(),
                i <= n,
                out@.len() == i,
                forall|j: int| 0 <= j < i ==> self.status_matches(#[trigger] out@[j], j, now),
            decreases n - i,
        {
            let (active, remaining) = match self.cooldowns[i] {
                Some(expiry) => if now < expiry { (false, (expiry - now) / 1000) } else { (true, 0) },
                None => (true, 0),
            };
            let label = match self.get_key_label(i) {
                Some(l) => l,
                None => String::new(),
            };
            assert(hintable(self.key_at(i as int)));
            let key_hint = key_hint(self.keys[i].key.as_str());
            let st = KeyStatus {
                label,
                key_hint,
                active,
                cooldown_secs_remaining: remaining,
                in_flight: self.in_flight[i],
                max_in_flight: self.windows[i].current,
                configured_max_in_flight: self.max_in_flight_per_key,
                auth_failures: self.auth_failures[i],
            };
            out.push(st);
            i = i + 1;
        }
        out
    }

    /// `next_key_at` at the current time of the pool clock.
    pub fn next_key(&mut self) -> (res: Option<(String, usize)>)
        requires
            old(self).wf(),
        ensures
            exists|now: u64| old(self).next_key_post(*final(self), res, now),
    {
        let now = self.now_ms();
        self.next_key_at(now)
    }

    /// `next_key_with_permit_at` at the current time of the pool clock.
    pub fn next_key_with_permit(&mut self) -> (res: Result<KeyLease, KeyAcquireError>)
        requires
            old(self).wf(),
        ensures
            exists|now: u64| old(self).lease_post(*final(self), res, now),
    {
        let now = self.now_ms();
        self.next_key_with_permit_at(now)
    }

    /// `mark_rate_limited_at` at the current time of the pool clock.
    pub fn mark_rate_limited(&mut self, idx: usize, secs: u64)
        requires
            old(self).wf(),
        ensures
            exists|now: u64| old(self).rate_limited_post(*final(self), idx, secs, now),
    {
        let now = self.now_ms();
        self.mark_rate_limited_at(idx, secs, now)
    }

    /// `mark_auth_failed_at` at the current time of the pool clock.
    pub fn mark_auth_failed(&mut self, idx: usize, cooldown_ms: u64)
        requires
            old(self).wf(),
        ensures
            exists|now: u64| old(self).auth_failed_post(*final(self), idx, cooldown_ms, now),
    {
        let now = self.now_ms();
        self.mark_auth_failed_at(idx, cooldown_ms, now)
    }

    /// `active_count_at` at the current time of the pool clock.
    pub fn active_count(&self) -> (c: usize)
        requires
            self.wf(),
        ensures
            exists|now: u64| c == self.count_active(now, self.n() as int),
    {
        let now = self.now_ms();
        self.active_count_at(now)
    }

    /// `available_permits_at` at the current time of the pool clock.
    pub fn available_permits(&self) -> (c: usize)
        requires
            self.wf(),
            self.n() * self.max_per_key() <= usize::MAX,
        ensures
            exists|now: u64| c == self.sum_free(now, self.n() as int),
    {
        let now = self.now_ms();
        self.available_permits_at(now)
    }

    /// `window_capacity_at` at the current time of the pool clock.
    pub fn window_capacity(&self) -> (c: usize)
        requires
            self.wf(),
            self.n() * self.max_per_key() <= usize::MAX,
        ensures
            exists|now: u64| c == self.sum_window(now, self.n() as int),
    {
        let now = self.now_ms();
        self.window_capacity_at(now)
    }

    /// `status_at` at the current time of the pool clock.
    pub fn status(&self) -> (res: Vec<KeyStatus>)
        requires
            self.wf(),
            self.keys_hintable(),
        ensures
            res@.len() == self.n(),
            exists|now: u64| #[trigger] self.all_status_match(res@, now),
    {
        let now = self.now_ms();
        let res = self.status_at(now);
        assert(self.all_status_match(res@, now));
        res
    }

    /// The label reported for key `i`: its configured label, or `key-<i>`.
    pub open spec fn key_label_at(&self, i: int) -> Seq<char> {
        match self.label_at(i) {
            Some(l) => l,
            None => default_label(i as nat),
        }
    }

    /// Label of key `idx`, or `None` when there is no such key.
    pub fn get_key_label(&self, idx: usize) -> (res: Option<String>)
        requires
            self.wf(),
        ensures
            idx < self.n() ==> opt_str_view(res) == Some(self.key_label_at(idx as int)),
            idx >= self.n() ==> res is None,
    {
        if idx < self.keys.len() {
            match &self.keys[idx].label {
                Some(l) => Some(l.clone()),
                None => Some(format_default_label(idx)),
            }
        } else {
            None
        }
    }
}

/// The key's text has a character boundary four bytes before its end whenever it is four
/// bytes or longer.
pub open spec fn hintable(key: Seq<char>) -> bool {
    let b = encode_utf8(key);
    b.len() >= 4 ==> is_char_boundary(b, b.len() - 4)
}

/// The shown form of a key: `...` and its last four bytes, or `****` for keys shorter than
/// four bytes.
pub open spec fn hint_of(key: Seq<char>) -> Seq<char> {
    let b = encode_utf8(key);
    if b.len() >= 4 {
        seq!['.', '.', '.'] + decode_utf8(b.subrange(b.len() - 4, b.len() as int))
    } else {
        seq!['*', '*', '*', '*']
    }
}

/// The shown form of a key (see [`hint_of`]).
pub fn key_hint(key: &str) -> (h: String)
    requires
        hintable(key@),
    ensures
        h@ == hint_of(key@),
{
    let len = key.as_bytes().len();
    if len >= 4 {
        let (_, tail) = key.split_at(len - 4);
        let mut h = "...".to_owned();
        proof {
            reveal_strlit("...");
            vstd::utf8::encode_utf8_decode_utf8(tail@);
        }
        h.append(tail);
        h
    } else {
        proof {
            reveal_strlit("****");
        }
        "****".to_owned()
    }
}

/// Window left after a rate limit: half, but at least one slot.
pub open spec fn halved_window(w: nat) -> nat {
    if w / 2 < 1 { 1 } else { w / 2 }
}

/// One probe step around the ring, computed without overflow.
proof fn lemma_ring_step(start: int, i: int, n: int)
    requires
        0 <= start < n,
        0 <= i < n,
    ensures
        ring_pos(start, i, n) == if i < n - start { start + i } else { i - (n - start) },
{
    if start + i < n {
        vstd::arithmetic::div_mod::lemma_small_mod((start + i) as nat, n as nat);
    } else {
        vstd::arithmetic::div_mod::lemma_small_mod((start + i - n) as nat, n as nat);
        vstd::arithmetic::div_mod::lemma_mod_sub_multiples_vanish(start + i, n);
    }
}

/// Every slot is reached by some probe offset.
proof fn lemma_ring_covers(start: int, j: int, n: int)
    requires
        0 <= start < n,
        0 <= j < n,
    ensures
        0 <= (j - start + n) % n < n,
        ring_pos(start, (j - start + n) % n, n) == j,
{
    let o = j - start + n;
    if o < n {
        vstd::arithmetic::div_mod::lemma_small_mod(o as nat, n as nat);
        vstd::arithmetic::div_mod::lemma_mod_add_multiples_vanish(j, n);
        vstd::arithmetic::div_mod::lemma_small_mod(j as nat, n as nat);
        assert(start + o == n + j);
    } else {
        vstd::arithmetic::div_mod::lemma_small_mod((o - n) as nat, n as nat);
        vstd::arithmetic::div_mod::lemma_mod_sub_multiples_vanish(o, n);
        vstd::arithmetic::div_mod::lemma_small_mod(j as nat, n as nat);
        assert(-n + o == o - n);
    }
}

/// What a probe of the ring finds: a slot in range that satisfies `p`; and when it finds
/// none, no slot from the offset on satisfies it.
proof fn lemma_scan(n: int, start: int, off: int, p: spec_fn(int) -> bool)
    requires
        0 <= start < n,
        0 <= off,
    ensures
        scan(n, start, off, p) matches Some(i) ==> 0 <= i < n && p(i),
        scan(n, start, off, p) is None ==> forall|o: int| off <= o < n ==> !p(#[trigger] ring_pos(start, o, n)),
    decreases n - off,
{
    if off < n {
        lemma_scan(n, start, off + 1, p);
        lemma_ring_step(start, off, n);
        assert forall|o: int| off <= o < n && scan(n, start, off, p) is None implies !p(#[trigger] ring_pos(start, o, n)) by {
        }
    }
}

impl KeyPool {
    /// Every window lies between one slot and the per-key ceiling, and no key holds more
    /// leases than the ceiling.
    pub proof fn law_window_bounds(&self)
        requires
            self.wf(),
        ensures
            self.max_per_key() >= 1,
            forall|i: int| 0 <= i < self.n() ==> 1 <= #[trigger] self.window_at(i) <= self.max_per_key(),
            forall|i: int| 0 <= i < self.n() ==> #[trigger] self.in_flight_at(i) <= self.max_per_key(),
    {
    }

    /// Rotation never hands out a key that is cooling down: the key `next_key` picks exists
    /// and is not cooling, and it picks none only when every key is cooling (or there is
    /// none).
    pub proof fn law_pick_not_cooling(&self, now: u64)
        requires
            self.wf(),
        ensures
            self.pick_at(now) matches Some(i) ==> 0 <= i < self.n() && !self.cooling(i, now),
            self.pick_at(now) is None <==> forall|j: int| 0 <= j < self.n() ==> self.cooling(j, now),
    {
        if self.n() > 0 {
            let start = self.probe_start();
            let p = |i: int| !self.cooling(i, now);
            lemma_scan(self.n() as int, start, 0, p);
            if self.pick_at(now) is None {
                assert forall|j: int| 0 <= j < self.n() implies self.cooling(j, now) by {
                    lemma_ring_covers(start, j, self.n() as int);
                    assert(!p(ring_pos(start, (j - start + self.n()) % (self.n() as int), self.n() as int)));
                }
            } else {
                let i = self.pick_at(now)->0;
                assert(p(i));
            }
        }
    }

    /// A lease goes only to a key that is not cooling and holds fewer leases than its
    /// window, which is at most the ceiling; none is leased only when no key qualifies.
    pub proof fn law_lease_within_window(&self, now: u64)
        requires
            self.wf(),
        ensures
            self.lease_at(now) matches Some(i) ==> 0 <= i < self.n() && !self.cooling(i, now)
                && self.in_flight_at(i) < self.window_at(i) <= self.max_per_key(),
            self.lease_at(now) is None <==> forall|j: int| 0 <= j < self.n() ==> !self.leasable(j, now),
    {
        if self.n() > 0 {
            let start = self.probe_start();
            let p = |i: int| self.leasable(i, now);
            lemma_scan(self.n() as int, start, 0, p);
            if self.lease_at(now) is None {
                assert forall|j: int| 0 <= j < self.n() implies !self.leasable(j, now) by {
                    lemma_ring_covers(start, j, self.n() as int);
                    assert(!p(ring_pos(start, (j - start + self.n()) % (self.n() as int), self.n() as int)));
                }
            } else {
                let i = self.lease_at(now)->0;
                assert(p(i));
            }
        }
    }

    /// The free slots of the first `k` keys of `p1` are one fewer than those of `p0` once
    /// key `i` is counted, when `p1` differs from `p0` only by one more lease on key `i`,
    /// which had room.
    proof fn lemma_sum_free_step(p0: Self, p1: Self, i: int, now: u64, k: int)
        requires
            0 <= i < p0.n(),
            k <= p0.n(),
            !p0.cooling(i, now),
            p0.in_flight_at(i) < p0.window_at(i),
            p1.in_flight_at(i) == p0.in_flight_at(i) + 1,
            forall|j: int| 0 <= j < p0.n() && j != i ==> #[trigger] p1.in_flight_at(j) == p0.in_flight_at(j),
            forall|j: int| 0 <= j < p0.n() ==> #[trigger] p1.window_at(j) == p0.window_at(j),
            forall|j: int| #[trigger] p1.cooldown_at(j) == p0.cooldown_at(j),
        ensures
            k <= i ==> p1.sum_free(now, k) == p0.sum_free(now, k),
            k > i ==> p1.sum_free(now, k) + 1 == p0.sum_free(now, k),
        decreases k,
    {
        if k > 0 {
            Self::lemma_sum_free_step(p0, p1, i, now, k - 1);
            assert(p1.window_at(k - 1) == p0.window_at(k - 1));
            assert(p1.cooldown_at(k - 1) == p0.cooldown_at(k - 1));
        }
    }

    /// A lease takes one free slot: the available permits are one fewer after it.
    pub proof fn law_lease_takes_one_permit(p0: Self, p1: Self, lease: KeyLease, now: u64)
        requires
            p0.wf(),
            p0.lease_post(p1, Ok(lease), now),
        ensures
            p1.sum_free(now, p0.n() as int) + 1 == p0.sum_free(now, p0.n() as int),
            p1.n() == p0.n(),
    {
        p1.lemma_same_keys(&p0);
        p0.law_lease_within_window(now);
        let i = p0.lease_at(now)->0;
        Self::lemma_sum_free_step(p0, p1, i, now, p0.n() as int);
    }

    /// Releasing a lease undoes taking it: the lease counts and windows are back to what
    /// they were.
    pub proof fn law_lease_then_release(p0: Self, p1: Self, p2: Self, res: Result<KeyLease, KeyAcquireError>, now: u64)
        requires
            p0.wf(),
            p0.lease_post(p1, res, now),
            res is Ok,
            p1.release_post(p2, res->Ok_0.idx),
        ensures
            p2.n() == p0.n(),
            forall|j: int| 0 <= j < p0.n() ==> #[trigger] p2.in_flight_at(j) == p0.in_flight_at(j),
            forall|j: int| 0 <= j < p0.n() ==> #[trigger] p2.window_at(j) == p0.window_at(j),
    {
        p1.lemma_same_keys(&p0);
        p2.lemma_same_keys(&p1);
        if p0.n() == 0 {
        } else {
            let i = p0.lease_at(now)->0;
            assert forall|j: int| 0 <= j < p0.n() implies #[trigger] p2.in_flight_at(j) == p0.in_flight_at(j) by {
                if j == i {
                    assert(p1.in_flight_at(j) == p0.in_flight_at(j) + 1);
                } else {
                    assert(p1.in_flight_at(j) == p0.in_flight_at(j));
                }
            }
            assert forall|j: int| 0 <= j < p0.n() implies #[trigger] p2.window_at(j) == p0.window_at(j) by {
                assert(p1.window_at(j) == p0.window_at(j));
            }
        }
    }
}

} // verus!
