use vstd::prelude::*;
use crate::config::{at_least, KeyEntry, ModelCompat, ModelParams};
use crate::key_pool::KeyPool;
use crate::model_refresh::ids;
use crate::model_router::ModelRouter;
use crate::model_stats::ModelStatsStore;

verus! {

/// `acc` with `m` appended, unless `m` is empty or already present.
pub open spec fn push_unique(acc: Seq<Seq<char>>, m: Seq<char>) -> Seq<Seq<char>> {
    if m.len() > 0 && !acc.contains(m) { acc.push(m) } else { acc }
}

/// `acc` with each of `ms` appended in order by [`push_unique`].
pub open spec fn push_all_unique(acc: Seq<Seq<char>>, ms: Seq<Seq<char>>) -> Seq<Seq<char>>
    decreases ms.len(),
{
    if ms.len() == 0 { acc } else { push_unique(push_all_unique(acc, ms.drop_last()), ms.last()) }
}

/// Appends `model` to `models` unless it is empty or already listed.
pub fn push_unique_model(models: &mut Vec<String>, model: &str)
    ensures
        ids(final(models)@) == push_unique(ids(old(models)@), model@),
{
    if model.is_empty() {
        return;
    }
    assert(model@.len() > 0);
    let key = model.to_owned();
    let mut k: usize = 0;
    while k < models.len()
        invariant
            key@ == model@,
            k <= models@.len(),
            forall|j: int| 0 <= j < k ==> (#[trigger] models@[j])@ != model@,
        decreases models@.len() - k,
    {
        if models[k] == key {
            assert(ids(models@)[k as int] == model@);
            assert(ids(models@).contains(model@));
            return;
        }
        k = k + 1;
    }
    let ghost before = models@;
    assert(!ids(before).contains(model@)) by {
        if ids(before).contains(model@) {
            let j = choose|j: int| 0 <= j < ids(before).len() && ids(before)[j] == model@;
            assert(before[j]@ == model@);
        }
    }
    models.push(key);
    assert(ids(models@) =~= ids(before).push(model@));
}

/// Appends each of `more` to `models` by [`push_unique_model`].
fn push_all(models: &mut Vec<String>, more: &[String])
    ensures
        ids(final(models)@) == push_all_unique(ids(old(models)@), ids(more@)),
{
    let ghost start = ids(models@);
    let mut i: usize = 0;
    while i < more.len()
        invariant
            i <= more@.len(),
            ids(models@) == push_all_unique(start, ids(more@).take(i as int)),
        decreases more@.len() - i,
    {
        assert(ids(more@).take(i + 1).drop_last() =~= ids(more@).take(i as int));
        push_unique_model(models, more[i].as_str());
        i = i + 1;
    }
    assert(ids(more@).take(i as int) =~= ids(more@));
}

/// The ids routed to by `router`, or none.
pub open spec fn router_ids(router: Option<&ModelRouter>) -> Seq<Seq<char>> {
    match router {
        Some(r) => r.model_ids(),
        None => Seq::empty(),
    }
}

/// The ids routed to by `router`, or none.
pub open spec fn routed_ids(router: Option<ModelRouter>) -> Seq<Seq<char>> {
    match router {
        Some(r) => r.model_ids(),
        None => Seq::empty(),
    }
}

/// Every configured model id once, in order of first mention: the router's models, then
/// the racing models, then the available models, skipping empty ids.
pub fn collect_configured_models(router: Option<&ModelRouter>, racing_models: &[String], available_models: &[String]) -> (r: Vec<String>)
    ensures
        ids(r@) == push_all_unique(push_all_unique(push_all_unique(Seq::empty(), router_ids(router)), ids(racing_models@)), ids(available_models@)),
{
    let mut models: Vec<String> = Vec::new();
    assert(ids(models@) =~= Seq::<Seq<char>>::empty());
    match router {
        Some(rt) => {
            let l = rt.model_list();
            assert(ids(l@) =~= rt.model_ids());
            push_all(&mut models, l);
        },
        None => {},
    }
    push_all(&mut models, racing_models);
    push_all(&mut models, available_models);
    models
}

/// Racing, admission and timeout settings of the gateway.
pub struct RuntimeControls {
    pub racing_adaptive: bool,
    pub racing_min_parallel: usize,
    pub racing_pressure_parallel: usize,
    pub racing_degraded_parallel: usize,
    pub racing_fast_models: Vec<String>,
    pub racing_fallback_models: Vec<String>,
    pub racing_large_prompt_char_threshold: usize,
    pub racing_large_prompt_parallel: usize,
    pub racing_solo_fallback: bool,
    pub racing_max_total_request_ms: u64,
    pub max_upstream_in_flight: usize,
    pub max_in_flight_per_key: usize,
    pub admission_wait_ms: u64,
    /// Seconds a key is quarantined after an upstream 401 or 403 (0: no quarantine).
    pub auth_failure_cooldown_secs: u64,
    pub min_dynamic_timeout_ms: u64,
    pub dynamic_sample_floor: usize,
}

impl Default for RuntimeControls {
    fn default() -> (c: Self)
        ensures
            !c.racing_adaptive,
            c.racing_min_parallel == 2,
            c.racing_pressure_parallel == 6,
            c.racing_degraded_parallel == 3,
            c.racing_fast_models@.len() == 0,
            c.racing_fallback_models@.len() == 0,
            c.racing_large_prompt_char_threshold == 0,
            c.racing_large_prompt_parallel == 1,
            c.racing_solo_fallback,
            c.racing_max_total_request_ms == 30000,
            c.max_upstream_in_flight == 48,
            c.max_in_flight_per_key == 3,
            c.admission_wait_ms == 1500,
            c.auth_failure_cooldown_secs == 900,
            c.min_dynamic_timeout_ms == 8000,
            c.dynamic_sample_floor == 10,
    {
        RuntimeControls {
            racing_adaptive: false,
            racing_min_parallel: 2,
            racing_pressure_parallel: 6,
            racing_degraded_parallel: 3,
            racing_fast_models: Vec::new(),
            racing_fallback_models: Vec::new(),
            racing_large_prompt_char_threshold: 0,
            racing_large_prompt_parallel: 1,
            racing_solo_fallback: true,
            racing_max_total_request_ms: 30000,
            max_upstream_in_flight: 48,
            max_in_flight_per_key: 3,
            admission_wait_ms: 1500,
            auth_failure_cooldown_secs: 900,
            min_dynamic_timeout_ms: 8000,
            dynamic_sample_floor: 10,
        }
    }
}

/// `x + y` modulo 2^64, as the gateway's counters wrap.
pub open spec fn wrap_add(x: u64, y: u64) -> u64 {
    if x + y > u64::MAX { (x + y - 0x1_0000_0000_0000_0000) as u64 } else { (x + y) as u64 }
}

/// `x - 1` modulo 2^64.
pub open spec fn wrap_dec(x: u64) -> u64 {
    if x == 0 { u64::MAX } else { (x - 1) as u64 }
}

/// Racing wins of one model.
pub struct WinCount {
    pub model: String,
    pub wins: u64,
}

/// Gateway-wide request counters.
pub struct GatewayMetrics {
    pub request_total: u64,
    pub direct_requests: u64,
    pub racing_requests: u64,
    pub upstream_attempts: u64,
    pub upstream_in_flight: u64,
    pub overload_rejects: u64,
    pub no_key_rejects: u64,
    pub timeout_count: u64,
    pub rate_limit_count: u64,
    pub fanout_total: u64,
    pub fanout_samples: u64,
    pub solo_fallbacks: u64,
    pub sequential_fallbacks: u64,
    pub racing_all_failed: u64,
    pub racing_deadline_exceeded: u64,
    /// Wins per model, each model listed once.
    pub racing_wins: Vec<WinCount>,
}

/// A copy of every counter of [`GatewayMetrics`] at one moment (the average fan-out is
/// `fanout_total / fanout_samples`, zero without samples).
pub struct GatewayMetricsSnapshot {
    pub request_total: u64,
    pub direct_requests: u64,
    pub racing_requests: u64,
    pub upstream_attempts: u64,
    pub upstream_in_flight: u64,
    pub overload_rejects: u64,
    pub no_key_rejects: u64,
    pub timeout_count: u64,
    pub rate_limit_count: u64,
    pub fanout_total: u64,
    pub fanout_samples: u64,
    pub solo_fallbacks: u64,
    pub sequential_fallbacks: u64,
    pub racing_all_failed: u64,
    pub racing_deadline_exceeded: u64,
    pub racing_wins: Vec<(String, u64)>,
}

impl GatewayMetrics {
    /// No model is listed twice among the wins.
    pub open spec fn wf(&self) -> bool {
        forall|a: int, b: int| 0 <= a < b < self.racing_wins@.len() ==> #[trigger] self.racing_wins@[a].model@ != #[trigger] self.racing_wins@[b].model@
    }

    /// Wins per model id.
    pub open spec fn wins(&self) -> Map<Seq<char>, u64> {
        Map::new(
            |m: Seq<char>| exists|k: int| 0 <= k < self.racing_wins@.len() && (#[trigger] self.racing_wins@[k]).model@ == m,
            |m: Seq<char>| self.racing_wins@[choose|k: int| 0 <= k < self.racing_wins@.len() && (#[trigger] self.racing_wins@[k]).model@ == m].wins,
        )
    }

    /// Whether every counter but those named by the caller is as in `other`.
    pub open spec fn same_counters(&self, other: &Self) -> bool {
        &&& self.request_total == other.request_total
        &&& self.direct_requests == other.direct_requests
        &&& self.racing_requests == other.racing_requests
        &&& self.upstream_attempts == other.upstream_attempts
        &&& self.upstream_in_flight == other.upstream_in_flight
        &&& self.overload_rejects == other.overload_rejects
        &&& self.no_key_rejects == other.no_key_rejects
        &&& self.timeout_count == other.timeout_count
        &&& self.rate_limit_count == other.rate_limit_count
        &&& self.fanout_total == other.fanout_total
        &&& self.fanout_samples == other.fanout_samples
        &&& self.solo_fallbacks == other.solo_fallbacks
        &&& self.sequential_fallbacks == other.sequential_fallbacks
        &&& self.racing_all_failed == other.racing_all_failed
        &&& self.racing_deadline_exceeded == other.racing_deadline_exceeded
    }

    /// All counters at zero, no wins.
    pub fn new() -> (m: Self)
        ensures
            m.wf(),
            m.request_total == 0 && m.direct_requests == 0 && m.racing_requests == 0,
            m.upstream_attempts == 0 && m.upstream_in_flight == 0,
            m.overload_rejects == 0 && m.no_key_rejects == 0 && m.timeout_count == 0,
            m.rate_limit_count == 0 && m.fanout_total == 0 && m.fanout_samples == 0,
            m.solo_fallbacks == 0 && m.sequential_fallbacks == 0,
            m.racing_all_failed == 0 && m.racing_deadline_exceeded == 0,
            m.racing_wins@.len() == 0,
    {
        GatewayMetrics {
            request_total: 0,
            direct_requests: 0,
            racing_requests: 0,
            upstream_attempts: 0,
            upstream_in_flight: 0,
            overload_rejects: 0,
            no_key_rejects: 0,
            timeout_count: 0,
            rate_limit_count: 0,
            fanout_total: 0,
            fanout_samples: 0,
            solo_fallbacks: 0,
            sequential_fallbacks: 0,
            racing_all_failed: 0,
            racing_deadline_exceeded: 0,
            racing_wins: Vec::new(),
        }
    }

    /// Counts one request, racing or direct.
    pub fn record_request(&mut self, racing: bool)
        ensures
            final(self).request_total == wrap_add(old(self).request_total, 1),
            final(self).racing_requests == if racing { wrap_add(old(self).racing_requests, 1) } else { old(self).racing_requests },
            final(self).direct_requests == if racing { old(self).direct_requests } else { wrap_add(old(self).direct_requests, 1) },
            final(self).racing_wins@ == old(self).racing_wins@,
            final(self).same_counters(&(GatewayMetrics { request_total: final(self).request_total, racing_requests: final(self).racing_requests, direct_requests: final(self).direct_requests, ..*old(self) })),
    {
        self.request_total = self.request_total.wrapping_add(1);
        if racing {
            self.racing_requests = self.racing_requests.wrapping_add(1);
        } else {
            self.direct_requests = self.direct_requests.wrapping_add(1);
        }
    }

    /// Counts one upstream attempt, now in flight.
    pub fn record_upstream_start(&mut self)
        ensures
            final(self).upstream_attempts == wrap_add(old(self).upstream_attempts, 1),
            final(self).upstream_in_flight == wrap_add(old(self).upstream_in_flight, 1),
            final(self).racing_wins@ == old(self).racing_wins@,
            final(self).same_counters(&(GatewayMetrics { upstream_attempts: final(self).upstream_attempts, upstream_in_flight: final(self).upstream_in_flight, ..*old(self) })),
    {
        self.upstream_attempts = self.upstream_attempts.wrapping_add(1);
        self.upstream_in_flight = self.upstream_in_flight.wrapping_add(1);
    }

    /// One upstream attempt is over.
    pub fn record_upstream_finish(&mut self)
        ensures
            final(self).upstream_in_flight == wrap_dec(old(self).upstream_in_flight),
            final(self).racing_wins@ == old(self).racing_wins@,
            final(self).same_counters(&(GatewayMetrics { upstream_in_flight: final(self).upstream_in_flight, ..*old(self) })),
    {
        self.upstream_in_flight = self.upstream_in_flight.wrapping_sub(1);
    }

    /// Counts a request refused for overload.
    pub fn record_overload(&mut self)
        ensures
            final(self).overload_rejects == wrap_add(old(self).overload_rejects, 1),
            final(self).racing_wins@ == old(self).racing_wins@,
            final(self).same_counters(&(GatewayMetrics { overload_rejects: final(self).overload_rejects, ..*old(self) })),
    {
        self.overload_rejects = self.overload_rejects.wrapping_add(1);
    }

    /// Counts a request refused for want of a key.
    pub fn record_no_key(&mut self)
        ensures
            final(self).no_key_rejects == wrap_add(old(self).no_key_rejects, 1),
            final(self).racing_wins@ == old(self).racing_wins@,
            final(self).same_counters(&(GatewayMetrics { no_key_rejects: final(self).no_key_rejects, ..*old(self) })),
    {
        self.no_key_rejects = self.no_key_rejects.wrapping_add(1);
    }

    /// Counts a timeout.
    pub fn record_timeout(&mut self)
        ensures
            final(self).timeout_count == wrap_add(old(self).timeout_count, 1),
            final(self).racing_wins@ == old(self).racing_wins@,
            final(self).same_counters(&(GatewayMetrics { timeout_count: final(self).timeout_count, ..*old(self) })),
    {
        self.timeout_count = self.timeout_count.wrapping_add(1);
    }

    /// Counts an upstream rate limit.
    pub fn record_rate_limit(&mut self)
        ensures
            final(self).rate_limit_count == wrap_add(old(self).rate_limit_count, 1),
            final(self).racing_wins@ == old(self).racing_wins@,
            final(self).same_counters(&(GatewayMetrics { rate_limit_count: final(self).rate_limit_count, ..*old(self) })),
    {
        self.rate_limit_count = self.rate_limit_count.wrapping_add(1);
    }

    /// Records the fan-out of one race.
    pub fn record_fanout(&mut self, fanout: usize)
        ensures
            final(self).fanout_total == wrap_add(old(self).fanout_total, fanout as u64),
            final(self).fanout_samples == wrap_add(old(self).fanout_samples, 1),
            final(self).racing_wins@ == old(self).racing_wins@,
            final(self).same_counters(&(GatewayMetrics { fanout_total: final(self).fanout_total, fanout_samples: final(self).fanout_samples, ..*old(self) })),
    {
        self.fanout_total = self.fanout_total.wrapping_add(fanout as u64);
        self.fanout_samples = self.fanout_samples.wrapping_add(1);
    }

    /// Counts a race that fell back to a single model.
    pub fn record_solo_fallback(&mut self)
        ensures
            final(self).solo_fallbacks == wrap_add(old(self).solo_fallbacks, 1),
            final(self).racing_wins@ == old(self).racing_wins@,
            final(self).same_counters(&(GatewayMetrics { solo_fallbacks: final(self).solo_fallbacks, ..*old(self) })),
    {
        self.solo_fallbacks = self.solo_fallbacks.wrapping_add(1);
    }

    /// Counts a race that fell back to trying models one by one.
    pub fn record_sequential_fallback(&mut self)
        ensures
            final(self).sequential_fallbacks == wrap_add(old(self).sequential_fallbacks, 1),
            final(self).racing_wins@ == old(self).racing_wins@,
            final(self).same_counters(&(GatewayMetrics { sequential_fallbacks: final(self).sequential_fallbacks, ..*old(self) })),
    {
        self.sequential_fallbacks = self.sequential_fallbacks.wrapping_add(1);
    }

    /// Counts a race in which every racer failed.
    pub fn record_all_racers_failed(&mut self)
        ensures
            final(self).racing_all_failed == wrap_add(old(self).racing_all_failed, 1),
            final(self).racing_wins@ == old(self).racing_wins@,
            final(self).same_counters(&(GatewayMetrics { racing_all_failed: final(self).racing_all_failed, ..*old(self) })),
    {
        self.racing_all_failed = self.racing_all_failed.wrapping_add(1);
    }

    /// Counts a race that ran out of its time budget.
    pub fn record_deadline_exceeded(&mut self)
        ensures
            final(self).racing_deadline_exceeded == wrap_add(old(self).racing_deadline_exceeded, 1),
            final(self).racing_wins@ == old(self).racing_wins@,
            final(self).same_counters(&(GatewayMetrics { racing_deadline_exceeded: final(self).racing_deadline_exceeded, ..*old(self) })),
    {
        self.racing_deadline_exceeded = self.racing_deadline_exceeded.wrapping_add(1);
    }

    /// Counts a racing win of `model_id`.
    pub fn record_racing_win(&mut self, model_id: &str)
        requires
            old(self).wf(),
        ensures
            final(self).wf(),
            final(self).wins() == old(self).wins().insert(model_id@,
                if old(self).wins().contains_key(model_id@) { wrap_add(old(self).wins()[model_id@], 1) } else { 1 }),
            final(self).same_counters(old(self)),
    {
        let key = model_id.to_owned();
        let mut k: usize = 0;
        while k < self.racing_wins.len()
            invariant
                self.wf(),
                *self == *old(self),
                key@ == model_id@,
                k <= self.racing_wins@.len(),
                forall|j: int| 0 <= j < k ==> (#[trigger] self.racing_wins@[j]).model@ != model_id@,
            decreases self.racing_wins@.len() - k,
        {
            if self.racing_wins[k].model == key {
                let ghost before = *self;
                let w = self.racing_wins[k].wins.wrapping_add(1);
                let m = self.racing_wins[k].model.clone();
                self.racing_wins.set(k, WinCount { model: m, wins: w });
                proof {
                    assert(before.wins().contains_key(model_id@));
                    let kk = choose|j: int| 0 <= j < before.racing_wins@.len() && (#[trigger] before.racing_wins@[j]).model@ == model_id@;
                    assert(kk == k);
                    assert forall|a: int, b: int| 0 <= a < b < self.racing_wins@.len() implies #[trigger] self.racing_wins@[a].model@ != #[trigger] self.racing_wins@[b].model@ by {
                        assert(self.racing_wins@[a].model@ == before.racing_wins@[a].model@);
                        assert(self.racing_wins@[b].model@ == before.racing_wins@[b].model@);
                    }
                    assert forall|m: Seq<char>| #[trigger] self.wins().contains_key(m) == before.wins().insert(model_id@, w).contains_key(m) by {
                        if before.wins().contains_key(m) {
                            let j = choose|j: int| 0 <= j < before.racing_wins@.len() && (#[trigger] before.racing_wins@[j]).model@ == m;
                            assert(self.racing_wins@[j].model@ == m);
                        }
                        if self.wins().contains_key(m) {
                            let j = choose|j: int| 0 <= j < self.racing_wins@.len() && (#[trigger] self.racing_wins@[j]).model@ == m;
                            assert(before.racing_wins@[j].model@ == m);
                        }
                    }
                    assert forall|m: Seq<char>| self.wins().contains_key(m) implies #[trigger] self.wins()[m] == before.wins().insert(model_id@, w)[m] by {
                        let j = choose|j: int| 0 <= j < self.racing_wins@.len() && (#[trigger] self.racing_wins@[j]).model@ == m;
                        assert(before.racing_wins@[j].model@ == m);
                        if m != model_id@ {
                            let j2 = choose|j: int| 0 <= j < before.racing_wins@.len() && (#[trigger] before.racing_wins@[j]).model@ == m;
                            assert(j2 == j);
                        }
                    }
                    assert(self.wins() =~= before.wins().insert(model_id@, w));
                }
                return;
            }
            k = k + 1;
        }
        let ghost before = *self;
        self.racing_wins.push(WinCount { model: key, wins: 1 });
        proof {
            assert(!before.wins().contains_key(model_id@));
            assert forall|m: Seq<char>| #[trigger] self.wins().contains_key(m) == before.wins().insert(model_id@, 1).contains_key(m) by {
                if before.wins().contains_key(m) {
                    let j = choose|j: int| 0 <= j < before.racing_wins@.len() && (#[trigger] before.racing_wins@[j]).model@ == m;
                    assert(self.racing_wins@[j].model@ == m);
                }
                if m == model_id@ {
                    assert(self.racing_wins@[k as int].model@ == m);
                }
                if self.wins().contains_key(m) {
                    let j = choose|j: int| 0 <= j < self.racing_wins@.len() && (#[trigger] self.racing_wins@[j]).model@ == m;
                    if j < k {
                        assert(before.racing_wins@[j].model@ == m);
                    }
                }
            }
            assert forall|m: Seq<char>| self.wins().contains_key(m) implies #[trigger] self.wins()[m] == before.wins().insert(model_id@, 1)[m] by {
                let j = choose|j: int| 0 <= j < self.racing_wins@.len() && (#[trigger] self.racing_wins@[j]).model@ == m;
                if j < k {
                    assert(before.racing_wins@[j].model@ == m);
                    let j2 = choose|j: int| 0 <= j < before.racing_wins@.len() && (#[trigger] before.racing_wins@[j]).model@ == m;
                    assert(j2 == j);
                }
            }
            assert(self.wins() =~= before.wins().insert(model_id@, 1));
        }
    }

    /// Upstream attempts now in flight.
    pub fn upstream_in_flight(&self) -> (n: u64)
        ensures
            n == self.upstream_in_flight,
    {
        self.upstream_in_flight
    }

    /// A copy of every counter and of the wins, in the order models first won.
    pub fn snapshot(&self) -> (s: GatewayMetricsSnapshot)
        ensures
            s.request_total == self.request_total,
            s.direct_requests == self.direct_requests,
            s.racing_requests == self.racing_requests,
            s.upstream_attempts == self.upstream_attempts,
            s.upstream_in_flight == self.upstream_in_flight,
            s.overload_rejects == self.overload_rejects,
            s.no_key_rejects == self.no_key_rejects,
            s.timeout_count == self.timeout_count,
            s.rate_limit_count == self.rate_limit_count,
            s.fanout_total == self.fanout_total,
            s.fanout_samples == self.fanout_samples,
            s.solo_fallbacks == self.solo_fallbacks,
            s.sequential_fallbacks == self.sequential_fallbacks,
            s.racing_all_failed == self.racing_all_failed,
            s.racing_deadline_exceeded == self.racing_deadline_exceeded,
            s.racing_wins@.len() == self.racing_wins@.len(),
            forall|k: int| 0 <= k < s.racing_wins@.len() ==> (#[trigger] s.racing_wins@[k]).0@ == self.racing_wins@[k].model@
                && s.racing_wins@[k].1 == self.racing_wins@[k].wins,
    {
        let mut wins: Vec<(String, u64)> = Vec::new();
        let mut k: usize = 0;
        while k < self.racing_wins.len()
            invariant
                k <= self.racing_wins@.len(),
                wins@.len() == k,
                forall|j: int| 0 <= j < k ==> (#[trigger] wins@[j]).0@ == self.racing_wins@[j].model@
                    && wins@[j].1 == self.racing_wins@[j].wins,
            decreases self.racing_wins@.len() - k,
        {
            wins.push((self.racing_wins[k].model.clone(), self.racing_wins[k].wins));
            k = k + 1;
        }
        GatewayMetricsSnapshot {
            request_total: self.request_total,
            direct_requests: self.direct_requests,
            racing_requests: self.racing_requests,
            upstream_attempts: self.upstream_attempts,
            upstream_in_flight: self.upstream_in_flight,
            overload_rejects: self.overload_rejects,
            no_key_rejects: self.no_key_rejects,
            timeout_count: self.timeout_count,
            rate_limit_count: self.rate_limit_count,
            fanout_total: self.fanout_total,
            fanout_samples: self.fanout_samples,
            solo_fallbacks: self.solo_fallbacks,
            sequential_fallbacks: self.sequential_fallbacks,
            racing_all_failed: self.racing_all_failed,
            racing_deadline_exceeded: self.racing_deadline_exceeded,
            racing_wins: wins,
        }
    }
}

/// Shared state of the proxy: keys, routing, statistics and the settings requests read.
pub struct AppState {
    pub pool: KeyPool,
    pub target: String,
    pub router: Option<ModelRouter>,
    pub model_stats: ModelStatsStore,
    pub racing_models: Vec<String>,
    pub racing_max_parallel: usize,
    pub racing_timeout_ms: u64,
    pub racing_strategy: String,
    pub racing_adaptive: bool,
    pub racing_min_parallel: usize,
    pub racing_pressure_parallel: usize,
    pub racing_degraded_parallel: usize,
    pub racing_fast_models: Vec<String>,
    pub racing_fallback_models: Vec<String>,
    pub racing_large_prompt_char_threshold: usize,
    pub racing_large_prompt_parallel: usize,
    pub racing_solo_fallback: bool,
    pub racing_max_total_request_ms: u64,
    pub racing_cursor: usize,
    pub available_models: Vec<String>,
    pub model_params: Vec<(String, ModelParams)>,
    pub model_compat: ModelCompat,
    pub max_upstream_in_flight: usize,
    pub max_in_flight_per_key: usize,
    pub admission_wait_ms: u64,
    /// Seconds a key is quarantined after an upstream 401 or 403 (0: no quarantine).
    pub auth_failure_cooldown_secs: u64,
    pub min_dynamic_timeout_ms: u64,
    pub dynamic_sample_floor: usize,
    /// Upstream slots taken, at most `max_upstream_in_flight`.
    pub upstream_permits_used: usize,
    pub gateway_metrics: GatewayMetrics,
}

impl AppState {
    /// The parts with invariants are well formed.
    pub open spec fn wf(&self) -> bool {
        &&& self.pool.wf()
        &&& self.model_stats.wf()
        &&& self.gateway_metrics.wf()
        &&& self.upstream_permits_used <= self.max_upstream_in_flight
    }

    /// A state with the default runtime controls (see [`AppState::new_with_controls`]).
    pub fn new(
        keys: Vec<KeyEntry>,
        target: String,
        router: Option<ModelRouter>,
        model_stats: ModelStatsStore,
        racing_models: Vec<String>,
        racing_max_parallel: usize,
        racing_timeout_ms: u64,
        racing_strategy: String,
        model_params: Vec<(String, ModelParams)>,
        model_compat: ModelCompat,
    ) -> (st: Self)
        requires
            model_stats.wf(),
        ensures
            st.wf(),
            st.pool.n() == keys@.len(),
            st.pool.max_per_key() == 3,
            st.racing_min_parallel == 2 && st.racing_pressure_parallel == 6,
            st.racing_degraded_parallel == 3 && st.racing_large_prompt_parallel == 1,
            !st.racing_adaptive && st.racing_solo_fallback,
            st.racing_max_total_request_ms == 30000,
            st.max_upstream_in_flight == 48 && st.max_in_flight_per_key == 3,
            st.admission_wait_ms == 1500 && st.min_dynamic_timeout_ms == 8000,
            st.auth_failure_cooldown_secs == 900,
            st.dynamic_sample_floor == 10,
            st.racing_fast_models@.len() == 0 && st.racing_fallback_models@.len() == 0,
            st.racing_large_prompt_char_threshold == 0,
            st.target@ == target@,
            st.router == router,
            st.model_stats == model_stats,
            st.racing_strategy@ == racing_strategy@,
            st.model_params@ == model_params@,
            st.model_compat == model_compat,
            st.racing_cursor == 0,
            st.upstream_permits_used == 0,
            st.racing_max_parallel == racing_max_parallel,
            st.racing_timeout_ms == racing_timeout_ms,
            ids(st.racing_models@) == ids(racing_models@),
            ids(st.available_models@) == push_all_unique(push_all_unique(Seq::empty(), routed_ids(router)), ids(racing_models@)),
    {
        let st = Self::new_with_controls(keys, target, router, model_stats, racing_models, racing_max_parallel,
            racing_timeout_ms, racing_strategy, model_params, model_compat, RuntimeControls::default());
        assert(ids(st.racing_fast_models@).len() == st.racing_fast_models@.len());
        assert(ids(st.racing_fallback_models@).len() == st.racing_fallback_models@.len());
        st
    }

    /// A state over `keys` and the given settings: parallelism floors of two (one for large
    /// prompts and per-key and upstream limits), a dynamic timeout of at least one second and
    /// a sample floor of at least two; the available models are the routed and raced ones.
    pub fn new_with_controls(
        keys: Vec<KeyEntry>,
        target: String,
        router: Option<ModelRouter>,
        model_stats: ModelStatsStore,
        racing_models: Vec<String>,
        racing_max_parallel: usize,
        racing_timeout_ms: u64,
        racing_strategy: String,
        model_params: Vec<(String, ModelParams)>,
        model_compat: ModelCompat,
        controls: RuntimeControls,
    ) -> (st: Self)
        requires
            model_stats.wf(),
        ensures
            st.wf(),
            st.pool.n() == keys@.len(),
            st.pool.max_per_key() == at_least(controls.max_in_flight_per_key as int, 1),
            st.target@ == target@,
            st.router == router,
            st.model_stats == model_stats,
            ids(st.racing_models@) == ids(racing_models@),
            st.racing_max_parallel == racing_max_parallel,
            st.racing_timeout_ms == racing_timeout_ms,
            st.racing_strategy@ == racing_strategy@,
            st.racing_adaptive == controls.racing_adaptive,
            st.racing_min_parallel == at_least(controls.racing_min_parallel as int, 2),
            st.racing_pressure_parallel == at_least(controls.racing_pressure_parallel as int, 2),
            st.racing_degraded_parallel == at_least(controls.racing_degraded_parallel as int, 2),
            ids(st.racing_fast_models@) == ids(controls.racing_fast_models@),
            ids(st.racing_fallback_models@) == ids(controls.racing_fallback_models@),
            st.racing_large_prompt_char_threshold == controls.racing_large_prompt_char_threshold,
            st.racing_large_prompt_parallel == at_least(controls.racing_large_prompt_parallel as int, 1),
            st.racing_solo_fallback == controls.racing_solo_fallback,
            st.racing_max_total_request_ms == controls.racing_max_total_request_ms,
            st.racing_cursor == 0,
            ids(st.available_models@) == push_all_unique(push_all_unique(Seq::empty(), routed_ids(router)), ids(racing_models@)),
            st.model_params@ == model_params@,
            st.model_compat == model_compat,
            st.max_upstream_in_flight == at_least(controls.max_upstream_in_flight as int, 1),
            st.max_in_flight_per_key == at_least(controls.max_in_flight_per_key as int, 1),
            st.admission_wait_ms == controls.admission_wait_ms,
            st.auth_failure_cooldown_secs == controls.auth_failure_cooldown_secs,
            st.min_dynamic_timeout_ms == at_least(controls.min_dynamic_timeout_ms as int, 1000),
            st.dynamic_sample_floor == at_least(controls.dynamic_sample_floor as int, 2),
            st.gateway_metrics.racing_wins@.len() == 0,
            st.gateway_metrics.request_total == 0,
            st.gateway_metrics.upstream_in_flight == 0,
            st.upstream_permits_used == 0,
    {
        let no_more: Vec<String> = Vec::new();
        let rref = router.as_ref();
        assert(router_ids(rref) == routed_ids(router));
        let available_models = collect_configured_models(rref, racing_models.as_slice(), no_more.as_slice());
        proof {
            assert(ids(no_more@) =~= Seq::<Seq<char>>::empty());
        }
        let pool = KeyPool::with_max_in_flight(keys, controls.max_in_flight_per_key);
        let c = controls;
        AppState {
            pool,
            target,
            router,
            model_stats,
            racing_models,
            racing_max_parallel,
            racing_timeout_ms,
            racing_strategy,
            racing_adaptive: c.racing_adaptive,
            racing_min_parallel: if c.racing_min_parallel < 2 { 2 } else { c.racing_min_parallel },
            racing_pressure_parallel: if c.racing_pressure_parallel < 2 { 2 } else { c.racing_pressure_parallel },
            racing_degraded_parallel: if c.racing_degraded_parallel < 2 { 2 } else { c.racing_degraded_parallel },
            racing_fast_models: c.racing_fast_models,
            racing_fallback_models: c.racing_fallback_models,
            racing_large_prompt_char_threshold: c.racing_large_prompt_char_threshold,
            racing_large_prompt_parallel: if c.racing_large_prompt_parallel < 1 { 1 } else { c.racing_large_prompt_parallel },
            racing_solo_fallback: c.racing_solo_fallback,
            racing_max_total_request_ms: c.racing_max_total_request_ms,
            racing_cursor: 0,
            available_models,
            model_params,
            model_compat,
            max_upstream_in_flight: if c.max_upstream_in_flight < 1 { 1 } else { c.max_upstream_in_flight },
            max_in_flight_per_key: if c.max_in_flight_per_key < 1 { 1 } else { c.max_in_flight_per_key },
            admission_wait_ms: c.admission_wait_ms,
            auth_failure_cooldown_secs: c.auth_failure_cooldown_secs,
            min_dynamic_timeout_ms: if c.min_dynamic_timeout_ms < 1000 { 1000 } else { c.min_dynamic_timeout_ms },
            dynamic_sample_floor: if c.dynamic_sample_floor < 2 { 2 } else { c.dynamic_sample_floor },
            upstream_permits_used: 0,
            gateway_metrics: GatewayMetrics::new(),
        }
    }

    /// `new` is `old` with one more upstream slot taken and one more attempt in flight.
    pub open spec fn upstream_taken(old: AppState, new: AppState) -> bool {
        &&& new.upstream_permits_used == old.upstream_permits_used + 1
        &&& new.gateway_metrics.upstream_attempts == wrap_add(old.gateway_metrics.upstream_attempts, 1)
        &&& new.gateway_metrics.upstream_in_flight == wrap_add(old.gateway_metrics.upstream_in_flight, 1)
        &&& new.gateway_metrics.racing_wins@ == old.gateway_metrics.racing_wins@
        &&& new.gateway_metrics.same_counters(&(GatewayMetrics {
                upstream_attempts: new.gateway_metrics.upstream_attempts,
                upstream_in_flight: new.gateway_metrics.upstream_in_flight,
                ..old.gateway_metrics
            }))
        &&& new == (AppState { upstream_permits_used: new.upstream_permits_used, gateway_metrics: new.gateway_metrics, ..old })
    }

    /// `new` is `old` with one upstream slot given back and one attempt fewer in flight.
    pub open spec fn upstream_given_back(old: AppState, new: AppState) -> bool {
        &&& new.upstream_permits_used == old.upstream_permits_used - 1
        &&& new.gateway_metrics.upstream_in_flight == wrap_dec(old.gateway_metrics.upstream_in_flight)
        &&& new.gateway_metrics.racing_wins@ == old.gateway_metrics.racing_wins@
        &&& new.gateway_metrics.same_counters(&(GatewayMetrics {
                upstream_in_flight: new.gateway_metrics.upstream_in_flight,
                ..old.gateway_metrics
            }))
        &&& new == (AppState { upstream_permits_used: new.upstream_permits_used, gateway_metrics: new.gateway_metrics, ..old })
    }

    /// Takes an upstream slot when fewer than `max_upstream_in_flight` are taken, and counts
    /// the attempt as started; otherwise changes nothing.
    pub fn try_acquire_upstream(&mut self) -> (r: bool)
        requires
            old(self).wf(),
        ensures
            final(self).wf(),
            r == (old(self).upstream_permits_used < old(self).max_upstream_in_flight),
            r ==> Self::upstream_taken(*old(self), *final(self)),
            !r ==> *final(self) == *old(self),
    {
        if self.upstream_permits_used < self.max_upstream_in_flight {
            self.upstream_permits_used = self.upstream_permits_used + 1;
            self.gateway_metrics.record_upstream_start();
            proof {
                let m = self.gateway_metrics;
                assert forall|a: int, b: int| 0 <= a < b < m.racing_wins@.len() implies
                    #[trigger] m.racing_wins@[a].model@ != #[trigger] m.racing_wins@[b].model@ by {
                    assert(old(self).gateway_metrics.racing_wins@[a] == m.racing_wins@[a]);
                    assert(old(self).gateway_metrics.racing_wins@[b] == m.racing_wins@[b]);
                }
            }
            true
        } else {
            false
        }
    }

    /// Gives back a taken upstream slot and counts the attempt as over.
    pub fn release_upstream(&mut self)
        requires
            old(self).wf(),
            old(self).upstream_permits_used > 0,
        ensures
            final(self).wf(),
            Self::upstream_given_back(*old(self), *final(self)),
    {
        self.upstream_permits_used = self.upstream_permits_used - 1;
        self.gateway_metrics.record_upstream_finish();
        proof {
            let m = self.gateway_metrics;
            assert forall|a: int, b: int| 0 <= a < b < m.racing_wins@.len() implies
                #[trigger] m.racing_wins@[a].model@ != #[trigger] m.racing_wins@[b].model@ by {
                assert(old(self).gateway_metrics.racing_wins@[a] == m.racing_wins@[a]);
                assert(old(self).gateway_metrics.racing_wins@[b] == m.racing_wins@[b]);
            }
        }
    }

    /// Every configured model once (see [`collect_configured_models`]): routed, raced, then
    /// available models.
    pub fn configured_models(&self) -> (r: Vec<String>)
        ensures
            ids(r@) == push_all_unique(push_all_unique(push_all_unique(Seq::empty(), routed_ids(self.router)),
                ids(self.racing_models@)), ids(self.available_models@)),
    {
        let rref = self.router.as_ref();
        assert(router_ids(rref) == routed_ids(self.router));
        collect_configured_models(rref, self.racing_models.as_slice(), self.available_models.as_slice())
    }

    /// Whether auto-routing is on: a router with at least one model.
    pub fn routing_enabled(&self) -> (r: bool)
        ensures
            r == (self.router matches Some(rt) && rt.model_ids().len() > 0),
    {
        match &self.router {
            Some(rt) => rt.model_list().len() > 0,
            None => false,
        }
    }

    /// Whether racing is on: at least two models and a fan-out of at least two.
    pub fn racing_enabled(&self) -> (r: bool)
        ensures
            r == (self.racing_models@.len() >= 2 && self.racing_max_parallel >= 2),
    {
        self.racing_models.len() >= 2 && self.racing_max_parallel >= 2
    }
}

/// Collecting models keeps each non-empty id once: the result lists no id twice and no
/// empty id, and it lists every non-empty id of the input.
pub proof fn law_push_all_unique(acc: Seq<Seq<char>>, ms: Seq<Seq<char>>)
    requires
        forall|a: int, b: int| 0 <= a < b < acc.len() ==> #[trigger] acc[a] != #[trigger] acc[b],
        forall|a: int| 0 <= a < acc.len() ==> (#[trigger] acc[a]).len() > 0,
    ensures
        forall|a: int, b: int| 0 <= a < b < push_all_unique(acc, ms).len()
            ==> #[trigger] push_all_unique(acc, ms)[a] != #[trigger] push_all_unique(acc, ms)[b],
        forall|a: int| 0 <= a < push_all_unique(acc, ms).len() ==> (#[trigger] push_all_unique(acc, ms)[a]).len() > 0,
        forall|k: int| 0 <= k < ms.len() && (#[trigger] ms[k]).len() > 0 ==> push_all_unique(acc, ms).contains(ms[k]),
        forall|a: int| 0 <= a < acc.len() ==> push_all_unique(acc, ms).contains(#[trigger] acc[a]),
    decreases ms.len(),
{
    if ms.len() > 0 {
        law_push_all_unique(acc, ms.drop_last());
        let r = push_all_unique(acc, ms.drop_last());
        let m = ms.last();
        let r2 = push_unique(r, m);
        assert forall|a: int| 0 <= a < acc.len() implies r2.contains(#[trigger] acc[a]) by {
            assert(r.contains(acc[a]));
            let i = choose|i: int| 0 <= i < r.len() && r[i] == acc[a];
            assert(r2[i] == r[i]);
        }
        assert forall|k: int| 0 <= k < ms.len() && (#[trigger] ms[k]).len() > 0 implies r2.contains(ms[k]) by {
            if k < ms.len() - 1 {
                assert(ms.drop_last()[k] == ms[k]);
                assert(r.contains(ms[k]));
                let i = choose|i: int| 0 <= i < r.len() && r[i] == ms[k];
                assert(r2[i] == r[i]);
            } else {
                if !r.contains(m) {
                    assert(r2[r.len() as int] == m);
                }
            }
        }
    }
}

/// Counting a request keeps the total equal to the direct plus the raced requests, while
/// no counter is at its limit.
pub proof fn law_request_split(m0: GatewayMetrics, m1: GatewayMetrics, racing: bool)
    requires
        m0.request_total as int == m0.direct_requests as int + m0.racing_requests as int,
        m0.request_total < u64::MAX,
        m1.request_total == wrap_add(m0.request_total, 1),
        m1.racing_requests == if racing { wrap_add(m0.racing_requests, 1) } else { m0.racing_requests },
        m1.direct_requests == if racing { m0.direct_requests } else { wrap_add(m0.direct_requests, 1) },
    ensures
        m1.request_total as int == m1.direct_requests as int + m1.racing_requests as int,
{
}

/// Taking an upstream slot and giving it back leaves the taken slots and the attempts in
/// flight as they were, with one more attempt counted; nothing else changes.
pub proof fn law_upstream_slot_roundtrip(s0: AppState, s1: AppState, s2: AppState)
    requires
        AppState::upstream_taken(s0, s1),
        AppState::upstream_given_back(s1, s2),
    ensures
        s2.upstream_permits_used == s0.upstream_permits_used,
        s2.gateway_metrics.upstream_in_flight == s0.gateway_metrics.upstream_in_flight,
        s2.gateway_metrics.upstream_attempts == wrap_add(s0.gateway_metrics.upstream_attempts, 1),
        s2 == (AppState { gateway_metrics: s2.gateway_metrics, ..s0 }),
        s2.gateway_metrics.racing_wins@ == s0.gateway_metrics.racing_wins@,
        s2.gateway_metrics.same_counters(&(GatewayMetrics {
            upstream_attempts: s2.gateway_metrics.upstream_attempts,
            ..s0.gateway_metrics
        })),
{
}

/// How many times `m` occurs in `ms`.
pub open spec fn occurrences(ms: Seq<Seq<char>>, m: Seq<char>) -> nat
    decreases ms.len(),
{
    if ms.len() == 0 { 0 } else { occurrences(ms.drop_last(), m) + if ms.last() == m { 1nat } else { 0nat } }
}

/// Over a run of `record_fanout` calls from fresh counters (`hist[k + 1]` after the k-th
/// call), the sample count is the number of calls, while it stays below the counter's limit.
pub proof fn law_fanout_samples_count_calls(hist: Seq<GatewayMetrics>)
    requires
        hist.len() > 0,
        hist[0].fanout_samples == 0,
        hist.len() - 1 < u64::MAX,
        forall|k: int| 0 <= k < hist.len() - 1 ==> #[trigger] hist[k + 1].fanout_samples == wrap_add(hist[k].fanout_samples, 1),
    ensures
        hist.last().fanout_samples == hist.len() - 1,
    decreases hist.len(),
{
    if hist.len() > 1 {
        let h = hist.drop_last();
        assert forall|k: int| 0 <= k < h.len() - 1 implies #[trigger] h[k + 1].fanout_samples == wrap_add(h[k].fanout_samples, 1) by {
            assert(h[k + 1] == hist[k + 1]);
            assert(h[k] == hist[k]);
        }
        law_fanout_samples_count_calls(h);
        assert(hist[hist.len() - 1].fanout_samples == wrap_add(hist[hist.len() - 2].fanout_samples, 1));
    }
}

/// Over a run of `record_racing_win` calls from no wins (`hist[k + 1]` after the call for
/// `models[k]`), each model's win count is the number of calls for it, while every count
/// stays below the counter's limit.
pub proof fn law_wins_count_calls(hist: Seq<GatewayMetrics>, models: Seq<Seq<char>>, m: Seq<char>)
    requires
        hist.len() == models.len() + 1,
        hist[0].wins() == Map::<Seq<char>, u64>::empty(),
        models.len() < u64::MAX,
        forall|k: int| 0 <= k < models.len() ==> #[trigger] hist[k + 1].wins() == hist[k].wins().insert(models[k],
            if hist[k].wins().contains_key(models[k]) { wrap_add(hist[k].wins()[models[k]], 1) } else { 1 }),
    ensures
        hist.last().wins().contains_key(m) == (occurrences(models, m) > 0),
        occurrences(models, m) > 0 ==> hist.last().wins()[m] == occurrences(models, m),
    decreases models.len(),
{
    if models.len() > 0 {
        let h = hist.drop_last();
        let ms = models.drop_last();
        assert forall|k: int| 0 <= k < ms.len() implies #[trigger] h[k + 1].wins() == h[k].wins().insert(ms[k],
            if h[k].wins().contains_key(ms[k]) { wrap_add(h[k].wins()[ms[k]], 1) } else { 1 }) by {
            assert(h[k + 1] == hist[k + 1]);
            assert(h[k] == hist[k]);
            assert(ms[k] == models[k]);
        }
        law_wins_count_calls(h, ms, m);
        let n = models.len() - 1;
        assert(hist[n + 1].wins() == hist[n].wins().insert(models[n],
            if hist[n].wins().contains_key(models[n]) { wrap_add(hist[n].wins()[models[n]], 1) } else { 1 }));
        assert(occurrences(ms, m) <= ms.len()) by {
            lemma_occurrences_bound(ms, m);
        }
    } else {
        assert(hist.last() == hist[0]);
    }
}

proof fn lemma_occurrences_bound(ms: Seq<Seq<char>>, m: Seq<char>)
    ensures
        occurrences(ms, m) <= ms.len(),
    decreases ms.len(),
{
    if ms.len() > 0 {
        lemma_occurrences_bound(ms.drop_last(), m);
    }
}

} // verus!