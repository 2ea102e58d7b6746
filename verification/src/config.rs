use vstd::prelude::*;
use crate::json::{members_view, Json, JsonV};
use crate::model_refresh::{ids, listed};

verus! {

/// One API key from the `[[keys]]` table, with its optional display label.
pub struct KeyEntry {
    pub key: String,
    pub label: Option<String>,
}

/// The optional label of an entry, as a plain character sequence.
pub open spec fn opt_str_view(o: Option<String>) -> Option<Seq<char>> {
    match o {
        Some(s) => Some(s@),
        None => None,
    }
}

/// The ids of an optional list.
pub open spec fn opt_ids(o: Option<Vec<String>>) -> Option<Seq<Seq<char>>> {
    match o {
        Some(v) => Some(ids(v@)),
        None => None,
    }
}

/// A setting of an optional section: the section's field when both are present, else
/// `default`.
pub open spec fn pick<S, T>(section: Option<S>, field: spec_fn(S) -> Option<T>, default: T) -> T {
    match section {
        Some(s) => match field(s) {
            Some(v) => v,
            None => default,
        },
        None => default,
    }
}

/// `v`, raised to `lo` when below it.
pub open spec fn at_least(v: int, lo: int) -> int {
    if v < lo { lo } else { v }
}

/// Whether a compatibility list exempts `model`: it lists `model`, or lists `all`.
pub open spec fn exempts(list: Option<Vec<String>>, model: Seq<char>) -> bool {
    match list {
        Some(l) => listed(l@, "all"@) || listed(l@, model),
        None => false,
    }
}

/// Which models support request features natively; the others get their requests rewritten.
pub struct ModelCompat {
    pub supports_developer_role: Option<Vec<String>>,
    pub supports_tool_messages: Option<Vec<String>>,
}

impl Default for ModelCompat {
    /// No compatibility lists: every model gets the rewrites.
    fn default() -> (c: Self)
        ensures
            c.supports_developer_role is None,
            c.supports_tool_messages is None,
    {
        ModelCompat { supports_developer_role: None, supports_tool_messages: None }
    }
}

/// Whether some string of `list` equals `s`.
fn list_has(list: &Vec<String>, s: &str) -> (r: bool)
    ensures
        r == listed(list@, s@),
{
    let key = s.to_owned();
    let mut k: usize = 0;
    while k < list.len()
        invariant
            key@ == s@,
            k <= list@.len(),
            forall|j: int| 0 <= j < k ==> (#[trigger] list@[j])@ != s@,
        decreases list@.len() - k,
    {
        if list[k] == key {
            return true;
        }
        k = k + 1;
    }
    false
}

/// Whether a compatibility list exempts `model` (see [`exempts`]).
fn list_exempts(list: &Option<Vec<String>>, model: &str) -> (r: bool)
    ensures
        r == exempts(*list, model@),
{
    match list {
        Some(l) => list_has(l, "all") || list_has(l, model),
        None => false,
    }
}

impl ModelCompat {
    /// Whether `developer` roles in requests to `model_id` must be rewritten: unless the
    /// list of models that support them names the model or `all` (no list: rewrite for all).
    pub fn should_transform_developer_role(&self, model_id: &str) -> (r: bool)
        ensures
            r == !exempts(self.supports_developer_role, model_id@),
    {
        !list_exempts(&self.supports_developer_role, model_id)
    }

    /// Whether tool messages in requests to `model_id` must be rewritten: unless the list of
    /// models that support them names the model or `all` (no list: rewrite for all).
    pub fn should_transform_tool_messages(&self, model_id: &str) -> (r: bool)
        ensures
            r == !exempts(self.supports_tool_messages, model_id@),
    {
        !list_exempts(&self.supports_tool_messages, model_id)
    }
}

/// Request parameters configured for one model. Numeric values are JSON numbers.
pub struct ModelParams {
    pub temperature: Option<Json>,
    pub top_p: Option<Json>,
    pub top_k: Option<Json>,
    pub max_tokens: Option<Json>,
    pub reasoning_budget: Option<Json>,
    pub stream: Option<bool>,
    /// Penalty for frequency of repeated tokens.
    pub frequency_penalty: Option<Json>,
    pub presence_penalty: Option<Json>,
    pub repetition_penalty: Option<Json>,
    pub min_p: Option<Json>,
    pub reasoning_effort: Option<String>,
    pub seed: Option<Json>,
    pub chat_template_kwargs: Option<Vec<(String, Json)>>,
}

impl Default for ModelParams {
    /// No parameter configured.
    fn default() -> (p: Self)
        ensures
            p.temperature is None && p.top_p is None && p.top_k is None && p.max_tokens is None,
            p.reasoning_budget is None && p.stream is None && p.frequency_penalty is None,
            p.presence_penalty is None && p.repetition_penalty is None && p.min_p is None,
            p.reasoning_effort is None && p.seed is None && p.chat_template_kwargs is None,
    {
        ModelParams {
            temperature: None,
            top_p: None,
            top_k: None,
            max_tokens: None,
            reasoning_budget: None,
            stream: None,
            frequency_penalty: None,
            presence_penalty: None,
            repetition_penalty: None,
            min_p: None,
            reasoning_effort: None,
            seed: None,
            chat_template_kwargs: None,
        }
    }
}

impl ModelParams {
    /// The chat-template argument `key`, if configured.
    pub fn get(&self, key: &str) -> (r: Option<&Json>)
        ensures
            match r {
                Some(v) => self.chat_template_kwargs matches Some(kw)
                    && members_view(kw@).contains_key(key@) && members_view(kw@)[key@] == v@,
                None => !(self.chat_template_kwargs matches Some(kw) && members_view(kw@).contains_key(key@)),
            },
    {
        match &self.chat_template_kwargs {
            Some(kw) => {
                let mut i: usize = 0;
                proof { crate::json::lemma_key_index(kw@, key@); }
                while i < kw.len()
                    invariant
                        self.chat_template_kwargs == Some(*kw),
                        i <= kw@.len(),
                        -1 <= crate::json::key_index(kw@, key@) < kw@.len(),
                        crate::json::key_index(kw@, key@) >= 0 ==> kw@[crate::json::key_index(kw@, key@)].0@ == key@,
                        forall|j: int| 0 <= j < kw@.len() && (j < crate::json::key_index(kw@, key@) || crate::json::key_index(kw@, key@) < 0) ==> (#[trigger] kw@[j]).0@ != key@,
                        forall|j: int| 0 <= j < i ==> (#[trigger] kw@[j]).0@ != key@,
                    decreases kw@.len() - i,
                {
                    if crate::text::text_eq(kw[i].0.as_str(), key) {
                        assert(crate::json::key_index(kw@, key@) == i);
                        return Some(&kw[i].1);
                    }
                    i = i + 1;
                }
                None
            },
            None => None,
        }
    }
}

/// Circuit-breaker limits as written in the configuration, each optional.
pub struct CircuitBreakerConfig {
    pub max_output_tokens: Option<u32>,
    pub max_repetitions: Option<u32>,
    pub max_consecutive_assistant_turns: Option<u32>,
}

/// The `[routing]` section.
pub struct RoutingConfig {
    /// `round_robin` (default) or `latency_aware`.
    pub strategy: Option<String>,
    /// Model list for auto-routing.
    pub models: Option<Vec<String>>,
    /// Average latency in milliseconds above which a model counts as degraded.
    pub spike_threshold_ms: Option<u64>,
}

/// The `[racing]` section.
pub struct RacingConfig {
    pub enabled: Option<bool>,
    pub models: Option<Vec<String>>,
    pub max_parallel: Option<usize>,
    pub timeout_ms: Option<u64>,
    pub max_total_request_ms: Option<u64>,
    pub strategy: Option<String>,
    pub adaptive: Option<bool>,
    pub min_parallel: Option<usize>,
    pub pressure_parallel: Option<usize>,
    pub degraded_parallel: Option<usize>,
    pub fast_models: Option<Vec<String>>,
    pub fallback_models: Option<Vec<String>>,
    pub large_prompt_char_threshold: Option<usize>,
    pub large_prompt_parallel: Option<usize>,
    pub solo_fallback: Option<bool>,
    pub model_check_interval_secs: Option<u64>,
}

/// The `[limits]` section.
pub struct LimitsConfig {
    pub max_upstream_in_flight: Option<usize>,
    pub max_in_flight_per_key: Option<usize>,
    pub admission_wait_ms: Option<u64>,
    /// Seconds a key stays quarantined after a 401 or 403; 0 disables the quarantine.
    pub auth_failure_cooldown_secs: Option<u64>,
}

/// The `[timeouts]` section.
pub struct TimeoutsConfig {
    pub min_dynamic_timeout_ms: Option<u64>,
    pub dynamic_sample_floor: Option<usize>,
}

/// The `[logging]` section.
pub struct LoggingConfig {
    pub enabled: Option<bool>,
    pub path: Option<String>,
}

/// The proxy configuration.
pub struct Config {
    pub listen: Option<String>,
    pub target: Option<String>,
    pub keys: Vec<KeyEntry>,
    pub routing: Option<RoutingConfig>,
    pub racing: Option<RacingConfig>,
    pub limits: Option<LimitsConfig>,
    pub timeouts: Option<TimeoutsConfig>,
    pub logging: Option<LoggingConfig>,
    /// Request parameters per model id, each id once.
    pub model_params: Option<Vec<(String, ModelParams)>>,
    pub model_compat: Option<ModelCompat>,
    pub circuit_breaker: Option<CircuitBreakerConfig>,
}

/// An optional list, copied (empty when absent).
fn list_or_empty(o: &Option<Vec<String>>) -> (r: Vec<String>)
    ensures
        ids(r@) == match opt_ids(*o) { Some(v) => v, None => Seq::empty() },
{
    match o {
        Some(v) => {
            let c = v.clone();
            assert(ids(c@) =~= ids(v@));
            c
        },
        None => {
            let e: Vec<String> = Vec::new();
            assert(ids(e@) =~= Seq::empty());
            e
        },
    }
}

/// An optional text, copied, or `default`.
fn text_or(o: &Option<String>, default: &str) -> (r: String)
    ensures
        r@ == match opt_str_view(*o) { Some(s) => s, None => default@ },
{
    match o {
        Some(s) => s.clone(),
        None => default.to_owned(),
    }
}

impl Config {
    /// The circuit-breaker limits, with defaults 32000 output tokens, 5 repetitions and 10
    /// consecutive assistant turns.
    pub fn circuit_breaker_config(&self) -> (cb: crate::model_stats::CircuitBreakerConfig)
        ensures
            cb.max_output_tokens == pick(self.circuit_breaker, |c: CircuitBreakerConfig| c.max_output_tokens, 32000u32),
            cb.max_repetitions == pick(self.circuit_breaker, |c: CircuitBreakerConfig| c.max_repetitions, 5u32),
            cb.max_consecutive_assistant_turns == pick(self.circuit_breaker, |c: CircuitBreakerConfig| c.max_consecutive_assistant_turns, 10u32),
    {
        let (t, r, a) = match &self.circuit_breaker {
            Some(c) => (
                match c.max_output_tokens { Some(v) => v, None => 32000 },
                match c.max_repetitions { Some(v) => v, None => 5 },
                match c.max_consecutive_assistant_turns { Some(v) => v, None => 10 },
            ),
            None => (32000, 5, 10),
        };
        crate::model_stats::CircuitBreakerConfig {
            max_output_tokens: t,
            max_repetitions: r,
            max_consecutive_assistant_turns: a,
        }
    }

    /// Address to listen on (default `127.0.0.1:8080`).
    pub fn listen_addr(&self) -> (r: String)
        ensures
            r@ == match opt_str_view(self.listen) { Some(s) => s, None => "127.0.0.1:8080"@ },
    {
        text_or(&self.listen, "127.0.0.1:8080")
    }

    /// Upstream base URL (default `https://integrate.api.nvidia.com`).
    pub fn target_url(&self) -> (r: String)
        ensures
            r@ == match opt_str_view(self.target) { Some(s) => s, None => "https://integrate.api.nvidia.com"@ },
    {
        text_or(&self.target, "https://integrate.api.nvidia.com")
    }

    /// Whether racing is enabled (default yes).
    pub fn racing_enabled(&self) -> (r: bool)
        ensures
            r == pick(self.racing, |c: RacingConfig| c.enabled, true),
    {
        match &self.racing {
            Some(c) => match c.enabled { Some(v) => v, None => true },
            None => true,
        }
    }

    /// Models to race (default none).
    pub fn racing_models(&self) -> (r: Vec<String>)
        ensures
            ids(r@) == pick(self.racing, |c: RacingConfig| opt_ids(c.models), Seq::empty()),
    {
        match &self.racing {
            Some(c) => list_or_empty(&c.models),
            None => {
                let e: Vec<String> = Vec::new();
                assert(ids(e@) =~= Seq::empty());
                e
            },
        }
    }

    /// Maximum racing fan-out (default 3, at least 2).
    pub fn racing_max_parallel(&self) -> (r: usize)
        ensures
            r == at_least(pick(self.racing, |c: RacingConfig| c.max_parallel, 3usize) as int, 2),
    {
        let v = match &self.racing {
            Some(c) => match c.max_parallel { Some(v) => v, None => 3 },
            None => 3,
        };
        if v < 2 { 2 } else { v }
    }

    /// Per-request racing timeout in milliseconds (default 8000).
    pub fn racing_timeout_ms(&self) -> (r: u64)
        ensures
            r == pick(self.racing, |c: RacingConfig| c.timeout_ms, 8000u64),
    {
        match &self.racing {
            Some(c) => match c.timeout_ms { Some(v) => v, None => 8000 },
            None => 8000,
        }
    }

    /// Wall-clock budget for racing plus fallback in milliseconds (default 30000; 0
    /// disables it).
    pub fn racing_max_total_request_ms(&self) -> (r: u64)
        ensures
            r == pick(self.racing, |c: RacingConfig| c.max_total_request_ms, 30000u64),
    {
        match &self.racing {
            Some(c) => match c.max_total_request_ms { Some(v) => v, None => 30000 },
            None => 30000,
        }
    }

    /// Racing strategy name (default `complete`).
    pub fn racing_strategy(&self) -> (r: String)
        ensures
            r@ == pick(self.racing, |c: RacingConfig| opt_str_view(c.strategy), "complete"@),
    {
        match &self.racing {
            Some(c) => text_or(&c.strategy, "complete"),
            None => "complete".to_owned(),
        }
    }

    /// Whether racing fan-out adapts to pressure (default no).
    pub fn racing_adaptive(&self) -> (r: bool)
        ensures
            r == pick(self.racing, |c: RacingConfig| c.adaptive, false),
    {
        match &self.racing {
            Some(c) => match c.adaptive { Some(v) => v, None => false },
            None => false,
        }
    }

    /// Minimum adaptive fan-out (default 2, at least 2).
    pub fn racing_min_parallel(&self) -> (r: usize)
        ensures
            r == at_least(pick(self.racing, |c: RacingConfig| c.min_parallel, 2usize) as int, 2),
    {
        let v = match &self.racing {
            Some(c) => match c.min_parallel { Some(v) => v, None => 2 },
            None => 2,
        };
        if v < 2 { 2 } else { v }
    }

    /// Fan-out under moderate pressure (default 6, at least 2).
    pub fn racing_pressure_parallel(&self) -> (r: usize)
        ensures
            r == at_least(pick(self.racing, |c: RacingConfig| c.pressure_parallel, 6usize) as int, 2),
    {
        let v = match &self.racing {
            Some(c) => match c.pressure_parallel { Some(v) => v, None => 6 },
            None => 6,
        };
        if v < 2 { 2 } else { v }
    }

    /// Fan-out when degraded (default 3, at least 2).
    pub fn racing_degraded_parallel(&self) -> (r: usize)
        ensures
            r == at_least(pick(self.racing, |c: RacingConfig| c.degraded_parallel, 3usize) as int, 2),
    {
        let v = match &self.racing {
            Some(c) => match c.degraded_parallel { Some(v) => v, None => 3 },
            None => 3,
        };
        if v < 2 { 2 } else { v }
    }

    /// Preferred fast racing models (default none).
    pub fn racing_fast_models(&self) -> (r: Vec<String>)
        ensures
            ids(r@) == pick(self.racing, |c: RacingConfig| opt_ids(c.fast_models), Seq::empty()),
    {
        match &self.racing {
            Some(c) => list_or_empty(&c.fast_models),
            None => {
                let e: Vec<String> = Vec::new();
                assert(ids(e@) =~= Seq::empty());
                e
            },
        }
    }

    /// Fallback racing models (default none).
    pub fn racing_fallback_models(&self) -> (r: Vec<String>)
        ensures
            ids(r@) == pick(self.racing, |c: RacingConfig| opt_ids(c.fallback_models), Seq::empty()),
    {
        match &self.racing {
            Some(c) => list_or_empty(&c.fallback_models),
            None => {
                let e: Vec<String> = Vec::new();
                assert(ids(e@) =~= Seq::empty());
                e
            },
        }
    }

    /// Prompt size in characters above which fan-out is capped (default 0, no cap).
    pub fn racing_large_prompt_char_threshold(&self) -> (r: usize)
        ensures
            r == pick(self.racing, |c: RacingConfig| c.large_prompt_char_threshold, 0usize),
    {
        match &self.racing {
            Some(c) => match c.large_prompt_char_threshold { Some(v) => v, None => 0 },
            None => 0,
        }
    }

    /// Fan-out cap for large prompts (default 1, at least 1).
    pub fn racing_large_prompt_parallel(&self) -> (r: usize)
        ensures
            r == at_least(pick(self.racing, |c: RacingConfig| c.large_prompt_parallel, 1usize) as int, 1),
    {
        let v = match &self.racing {
            Some(c) => match c.large_prompt_parallel { Some(v) => v, None => 1 },
            None => 1,
        };
        if v < 1 { 1 } else { v }
    }

    /// Whether racing may fall back to a single model (default yes).
    pub fn racing_solo_fallback(&self) -> (r: bool)
        ensures
            r == pick(self.racing, |c: RacingConfig| c.solo_fallback, true),
    {
        match &self.racing {
            Some(c) => match c.solo_fallback { Some(v) => v, None => true },
            None => true,
        }
    }

    /// Seconds between upstream model rechecks (default 3600; 0 disables them).
    pub fn racing_model_check_interval_secs(&self) -> (r: u64)
        ensures
            r == pick(self.racing, |c: RacingConfig| c.model_check_interval_secs, 3600u64),
    {
        match &self.racing {
            Some(c) => match c.model_check_interval_secs { Some(v) => v, None => 3600 },
            None => 3600,
        }
    }

    /// Upstream requests in flight at once (default 48, at least 1).
    pub fn max_upstream_in_flight(&self) -> (r: usize)
        ensures
            r == at_least(pick(self.limits, |c: LimitsConfig| c.max_upstream_in_flight, 48usize) as int, 1),
    {
        let v = match &self.limits {
            Some(c) => match c.max_upstream_in_flight { Some(v) => v, None => 48 },
            None => 48,
        };
        if v < 1 { 1 } else { v }
    }

    /// Requests in flight per key (default 3, at least 1).
    pub fn max_in_flight_per_key(&self) -> (r: usize)
        ensures
            r == at_least(pick(self.limits, |c: LimitsConfig| c.max_in_flight_per_key, 3usize) as int, 1),
    {
        let v = match &self.limits {
            Some(c) => match c.max_in_flight_per_key { Some(v) => v, None => 3 },
            None => 3,
        };
        if v < 1 { 1 } else { v }
    }

    /// How long a request waits for admission, in milliseconds (default 1500).
    pub fn admission_wait_ms(&self) -> (r: u64)
        ensures
            r == pick(self.limits, |c: LimitsConfig| c.admission_wait_ms, 1500u64),
    {
        match &self.limits {
            Some(c) => match c.admission_wait_ms { Some(v) => v, None => 1500 },
            None => 1500,
        }
    }

    /// Seconds a key is quarantined after an upstream 401 or 403 (default 900; 0 disables).
    pub fn auth_failure_cooldown_secs(&self) -> (r: u64)
        ensures
            r == pick(self.limits, |c: LimitsConfig| c.auth_failure_cooldown_secs, 900u64),
    {
        match &self.limits {
            Some(c) => match c.auth_failure_cooldown_secs { Some(v) => v, None => 900 },
            None => 900,
        }
    }

    /// Floor of the per-model dynamic timeout in milliseconds (default 8000, at least 1000).
    pub fn min_dynamic_timeout_ms(&self) -> (r: u64)
        ensures
            r == at_least(pick(self.timeouts, |c: TimeoutsConfig| c.min_dynamic_timeout_ms, 8000u64) as int, 1000),
    {
        let v = match &self.timeouts {
            Some(c) => match c.min_dynamic_timeout_ms { Some(v) => v, None => 8000 },
            None => 8000,
        };
        if v < 1000 { 1000 } else { v }
    }

    /// Samples needed before the dynamic timeout applies (default 10, at least 2).
    pub fn dynamic_sample_floor(&self) -> (r: usize)
        ensures
            r == at_least(pick(self.timeouts, |c: TimeoutsConfig| c.dynamic_sample_floor, 10usize) as int, 2),
    {
        let v = match &self.timeouts {
            Some(c) => match c.dynamic_sample_floor { Some(v) => v, None => 10 },
            None => 10,
        };
        if v < 2 { 2 } else { v }
    }

    /// Models for auto-routing (default none).
    pub fn routing_models(&self) -> (r: Vec<String>)
        ensures
            ids(r@) == pick(self.routing, |c: RoutingConfig| opt_ids(c.models), Seq::empty()),
    {
        match &self.routing {
            Some(c) => list_or_empty(&c.models),
            None => {
                let e: Vec<String> = Vec::new();
                assert(ids(e@) =~= Seq::empty());
                e
            },
        }
    }

    /// Routing strategy name (default `round_robin`).
    pub fn routing_strategy(&self) -> (r: String)
        ensures
            r@ == pick(self.routing, |c: RoutingConfig| opt_str_view(c.strategy), "round_robin"@),
    {
        match &self.routing {
            Some(c) => text_or(&c.strategy, "round_robin"),
            None => "round_robin".to_owned(),
        }
    }

    /// Latency in milliseconds above which a model counts as degraded (default 3000).
    pub fn routing_spike_threshold_ms(&self) -> (r: u64)
        ensures
            r == pick(self.routing, |c: RoutingConfig| c.spike_threshold_ms, 3000u64),
    {
        match &self.routing {
            Some(c) => match c.spike_threshold_ms { Some(v) => v, None => 3000 },
            None => 3000,
        }
    }

    /// Whether routing is enabled: unless the routing section lists an empty model list.
    pub fn routing_enabled(&self) -> (r: bool)
        ensures
            r == match self.routing {
                Some(c) => match c.models { Some(m) => m@.len() > 0, None => true },
                None => true,
            },
    {
        match &self.routing {
            Some(c) => match &c.models { Some(m) => m.len() > 0, None => true },
            None => true,
        }
    }

    /// Whether `developer` roles to `model_id` are rewritten (see
    /// [`ModelCompat::should_transform_developer_role`]; yes without a compatibility section).
    pub fn should_transform_developer_role(&self, model_id: &str) -> (r: bool)
        ensures
            r == match self.model_compat {
                Some(c) => !exempts(c.supports_developer_role, model_id@),
                None => true,
            },
    {
        match &self.model_compat {
            Some(c) => c.should_transform_developer_role(model_id),
            None => true,
        }
    }

    /// Whether tool messages to `model_id` are rewritten (see
    /// [`ModelCompat::should_transform_tool_messages`]; yes without a compatibility section).
    pub fn should_transform_tool_messages(&self, model_id: &str) -> (r: bool)
        ensures
            r == match self.model_compat {
                Some(c) => !exempts(c.supports_tool_messages, model_id@),
                None => true,
            },
    {
        match &self.model_compat {
            Some(c) => c.should_transform_tool_messages(model_id),
            None => true,
        }
    }

    /// Whether turn logging is enabled (default no).
    pub fn logging_enabled(&self) -> (r: bool)
        ensures
            r == pick(self.logging, |c: LoggingConfig| c.enabled, false),
    {
        match &self.logging {
            Some(c) => match c.enabled { Some(v) => v, None => false },
            None => false,
        }
    }

    /// Turn log path (default `/var/log/nimaproxy/turns.jsonl`).
    pub fn logging_path(&self) -> (r: String)
        ensures
            r@ == pick(self.logging, |c: LoggingConfig| opt_str_view(c.path), "/var/log/nimaproxy/turns.jsonl"@),
    {
        match &self.logging {
            Some(c) => text_or(&c.path, "/var/log/nimaproxy/turns.jsonl"),
            None => "/var/log/nimaproxy/turns.jsonl".to_owned(),
        }
    }
    /// The parameters configured for `model_id`, if any.
    pub fn get_model_params(&self, model_id: &str) -> (r: Option<&ModelParams>)
        ensures
            match self.model_params {
                Some(list) => match r {
                    Some(p) => crate::request::params_for(list@, model_id@) == Some(*p),
                    None => crate::request::params_for(list@, model_id@) is None,
                },
                None => r is None,
            },
    {
        match &self.model_params {
            Some(list) => crate::request::find_params_pub(list, model_id),
            None => None,
        }
    }
}

} // verus!
