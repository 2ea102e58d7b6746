use vstd::prelude::*;
use crate::config::{at_least, opt_str_view};
use crate::gateway::{routed_ids, AppState};
use crate::model_refresh::ids;
use crate::json::{field, items_of, items_view, lemma_view_shapes, Json, JsonV};
use crate::json_text::{json_parse, json_render, parse_json, render_json};
use vstd::string::*;
use crate::key_pool::KeyStatus;
use crate::model_stats::{ModelSnapshot, after_key_outcome, after_record, after_record_cb, after_server_degraded, ModelStatsStore};
use crate::proxy::{count_repetitions, lowercase_of, repetition_score};
use crate::request::{
    apply_overrides, apply_params, field_in, fix_message_ordering, inject_minimax_system_message,
    inject_mistral_tool_params, overrides, params_for, requested_model, rewrite_for, sanitize_tool_calls,
    transform_message_roles,
};
use crate::text::{contains_text, decimal, decimal_string, parse_u64, text_contains, text_eq, u64_text};

verus! {

/// Upstream attempts per request at most.
pub const MAX_RETRIES: usize = 8;

/// Upstream attempts a request may make with `pool_len` keys: one per key, between one and
/// [`MAX_RETRIES`].
pub fn retry_budget(pool_len: usize) -> (n: usize)
    ensures
        n == at_least(if pool_len < MAX_RETRIES { pool_len as int } else { MAX_RETRIES as int }, 1),
{
    let n = if pool_len < MAX_RETRIES { pool_len } else { MAX_RETRIES };
    if n < 1 { 1 } else { n }
}

/// Which kind of forwarded request an attempt belongs to; their refusals are worded apart.
#[derive(Clone, Copy, Debug, PartialEq, Eq, Structural)]
pub enum Forwarded {
    /// A chat completion.
    Chat,
    /// A legacy completion or an embedding.
    Legacy,
}

/// The next step of a forwarded request's retry loop.
pub enum AttemptStep {
    /// Send the request upstream with this key.
    Send { key: String, idx: usize },
    /// Answer the client with this status and message.
    Refuse { status: u16, message: String },
    /// Give the client the upstream answer held back from an earlier attempt.
    DeliverHeld,
}

/// The refusal when no key is free: 429, worded by the kind of request.
pub open spec fn no_key_text(kind: Forwarded) -> Seq<char> {
    match kind {
        Forwarded::Chat => "all API keys rate-limited"@,
        Forwarded::Legacy => "all keys rate-limited"@,
    }
}

/// Whether `step` is what a key pick `res` leads to; with an answer held back, no free key
/// means that answer is delivered.
pub open spec fn step_for_pick(step: AttemptStep, res: Option<(String, usize)>, kind: Forwarded, holding: bool) -> bool {
    match res {
        Some((k, i)) => step matches AttemptStep::Send { key, idx } && key@ == k@ && idx == i,
        None => if holding {
            step is DeliverHeld
        } else {
            step matches AttemptStep::Refuse { status, message } && status == 429 && message@ == no_key_text(kind)
        },
    }
}

/// The step before attempt number `attempt` (from zero) of a request allowed `budget`
/// attempts, `holding` telling whether an upstream answer is held back (a 401 or 403 whose
/// key was quarantined): once the budget is spent, deliver the held answer or refuse with
/// 429; else pick the next key, and when none is free deliver the held answer or refuse
/// with 429. Only the key pool changes.
pub fn next_attempt(state: &mut AppState, attempt: usize, budget: usize, kind: Forwarded, holding: bool) -> (step: AttemptStep)
    requires
        old(state).wf(),
    ensures
        final(state).wf(),
        attempt >= budget ==> *final(state) == *old(state) && if holding {
            step is DeliverHeld
        } else {
            step matches AttemptStep::Refuse { status, message }
                && status == 429 && message@ == "all keys exhausted after retries"@
        },
        attempt < budget ==> *final(state) == (AppState { pool: final(state).pool, ..*old(state) })
            && exists|now: u64, res: Option<(String, usize)>|
                #[trigger] old(state).pool.next_key_post(final(state).pool, res, now) && step_for_pick(step, res, kind, holding),
{
    if attempt >= budget {
        if holding {
            return AttemptStep::DeliverHeld;
        }
        return AttemptStep::Refuse { status: 429, message: "all keys exhausted after retries".to_owned() };
    }
    let ghost before = *state;
    let res = state.pool.next_key();
    assert(*state == (AppState { pool: state.pool, ..before }));
    let step = match &res {
        Some((k, i)) => AttemptStep::Send { key: k.clone(), idx: *i },
        None => if holding {
            AttemptStep::DeliverHeld
        } else {
            match kind {
                Forwarded::Chat => AttemptStep::Refuse { status: 429, message: "all API keys rate-limited".to_owned() },
                Forwarded::Legacy => AttemptStep::Refuse { status: 429, message: "all keys rate-limited".to_owned() },
            }
        },
    };
    assert(step_for_pick(step, res, kind, holding));
    step
}

/// The model a raw request body names before routing: empty when the body is not JSON or
/// names none.
pub fn body_model(body: &[u8]) -> (r: String)
    ensures
        r@ == match json_parse(body@) {
            Some(j) => requested_model(j),
            None => Seq::empty(),
        },
{
    match parse_json(body) {
        Ok(j) => model_before_routing(Some(&j)),
        Err(_) => model_before_routing(None),
    }
}

/// The model a request body names before routing: empty when the body is not JSON or
/// names none.
pub fn model_before_routing(parsed: Option<&Json>) -> (r: String)
    ensures
        r@ == match parsed {
            Some(j) => requested_model(j@),
            None => Seq::empty(),
        },
{
    match parsed {
        Some(j) => match j.field_text("model") {
            Some(s) => s.clone(),
            None => String::new(),
        },
        None => String::new(),
    }
}

/// Whether a chat request is raced: it asked for `auto` (or its alias `nimaproxy/auto`)
/// and at least two racing models are configured.
pub fn should_race(requested: &str, state: &AppState) -> (r: bool)
    ensures
        r == ((requested@ == "auto"@ || requested@ == "nimaproxy/auto"@) && state.racing_models@.len() >= 2),
{
    (text_eq(requested, "auto") || text_eq(requested, "nimaproxy/auto")) && state.racing_models.len() >= 2
}

/// Seconds to cool a rate-limited key: the `retry-after` header as a number, else 60.
pub open spec fn retry_after_spec(header: Option<Seq<char>>) -> u64 {
    match header {
        Some(h) => match u64_text(h) {
            Some(v) => v,
            None => 60,
        },
        None => 60,
    }
}

/// Seconds to cool a rate-limited key (see [`retry_after_spec`]).
pub fn retry_after_secs(header: Option<&str>) -> (r: u64)
    ensures
        r == retry_after_spec(match header { Some(h) => Some(h@), None => None }),
{
    match header {
        Some(h) => match parse_u64(h) {
            Some(v) => v,
            None => 60,
        },
        None => 60,
    }
}

/// What to do with an upstream answer to a chat request.
#[derive(Clone, Copy, Debug, PartialEq, Eq, Structural)]
pub enum UpstreamVerdict {
    /// 429: cool the key down this many seconds and retry.
    RateLimited { retry_after_secs: u64 },
    /// 401 or 403: the key is bad; quarantine it and retry with another key.
    AuthFailed,
    /// 400 naming a degraded function: mark the model degraded and retry.
    ServerDegraded,
    /// 400 rejecting the assistant message structure: a deterministic error, so the model
    /// is marked degraded too, and the request retried.
    InvalidAssistant,
    /// Anything else goes back to the client.
    Deliver,
}

/// The verdict on an upstream answer with `status`, `retry-after` header and body text.
pub open spec fn verdict_spec(status: u16, retry_after: Option<Seq<char>>, body: Seq<char>) -> UpstreamVerdict {
    if status == 429 {
        UpstreamVerdict::RateLimited { retry_after_secs: retry_after_spec(retry_after) }
    } else if status == 401 || status == 403 {
        UpstreamVerdict::AuthFailed
    } else if status == 400 && (text_contains(body, "DEGRADED"@) || text_contains(body, "degraded"@)) {
        UpstreamVerdict::ServerDegraded
    } else if status == 400 && (text_contains(body, "Invalid assistant message"@) || text_contains(body, "invalid assistant"@)) {
        UpstreamVerdict::InvalidAssistant
    } else {
        UpstreamVerdict::Deliver
    }
}

/// Judges an upstream answer (see [`verdict_spec`]).
pub fn classify_upstream(status: u16, retry_after: Option<&str>, body: &str) -> (v: UpstreamVerdict)
    ensures
        v == verdict_spec(status, opt_str(retry_after), body@),
{
    if status == 429 {
        return UpstreamVerdict::RateLimited { retry_after_secs: retry_after_secs(retry_after) };
    }
    if status == 401 || status == 403 {
        return UpstreamVerdict::AuthFailed;
    }
    if status == 400 && (contains_text(body, "DEGRADED") || contains_text(body, "degraded")) {
        return UpstreamVerdict::ServerDegraded;
    }
    if status == 400 && (contains_text(body, "Invalid assistant message") || contains_text(body, "invalid assistant")) {
        return UpstreamVerdict::InvalidAssistant;
    }
    UpstreamVerdict::Deliver
}

/// What `as_u64` gives for a JSON number's text: its value when it is a plain non-negative
/// integer that fits.
pub open spec fn number_u64(t: Seq<char>) -> Option<u64> {
    if t.len() > 0 && t[0] != '+' { u64_text(t) } else { None }
}

/// The completion-token count a response reports, if any.
pub open spec fn usage_tokens(parsed: Option<JsonV>) -> Option<u64> {
    match field_in(field_in(parsed, "usage"@), "completion_tokens"@) {
        Some(JsonV::Number(t)) => number_u64(t),
        _ => None,
    }
}

/// Whether some choice of a response has a message with tool calls.
pub open spec fn has_tool_call_spec(parsed: Option<JsonV>) -> bool {
    match items_of(field_in(parsed, "choices"@)) {
        Some(cs) => exists|i: int| 0 <= i < cs.len() && field_in(field(#[trigger] cs[i], "message"@), "tool_calls"@) is Some,
        None => false,
    }
}

/// Output tokens, repetition score and tool use of a response body `text` (parsed as
/// `parsed` when it is JSON): the reported completion tokens (cut to 32 bits), or a quarter
/// of the body's byte length when none are reported.
pub open spec fn metrics_spec(text: Seq<char>, byte_len: usize, parsed: Option<JsonV>) -> (u32, u32, bool) {
    let reported: u32 = match usage_tokens(parsed) {
        Some(t) => (t % 0x1_0000_0000) as u32,
        None => 0,
    };
    let out: u32 = if reported == 0 { ((byte_len as u32) / 4) as u32 } else { reported };
    (out, repetition_score(lowercase_of(text)) as u32, has_tool_call_spec(parsed))
}

/// The view of an optional JSON reference.
pub open spec fn opt_view(p: Option<&Json>) -> Option<JsonV> {
    match p {
        Some(j) => Some(j@),
        None => None,
    }
}

/// Output tokens, repetition score and tool use of a response body `text` (see
/// [`metrics_spec`]), the body read as JSON when it is JSON.
pub fn extract_response_metrics(text: &str) -> (r: (u32, u32, bool))
    ensures
        r == metrics_spec(text@, text.len(), json_parse(text.spec_bytes())),
{
    let parsed = parse_json(text.as_bytes());
    match &parsed {
        Ok(j) => response_metrics(text, Some(j)),
        Err(_) => response_metrics(text, None),
    }
}

/// Output tokens, repetition score and tool use of a response (see [`metrics_spec`]);
/// `parsed` is what the body reads as, when it is JSON.
pub fn response_metrics(text: &str, parsed: Option<&Json>) -> (r: (u32, u32, bool))
    ensures
        r == metrics_spec(text@, text.len(), opt_view(parsed)),
{
    let repetition_count = count_repetitions(text);
    let mut output_tokens: u32 = 0;
    let mut has_tool_call = false;
    match parsed {
        Some(json) => {
            match json.get_field("usage") {
                Some(usage) => match usage.get_field("completion_tokens") {
                    Some(Json::Number(t)) => {
                        let is_plain = t.as_str().unicode_len() > 0 && t.as_str().get_char(0) != '+';
                        if is_plain {
                            match parse_u64(t.as_str()) {
                                Some(v) => {
                                    output_tokens = v as u32;
                                    assert(output_tokens == (v % 0x1_0000_0000) as u32) by (bit_vector)
                                        requires output_tokens == v as u32;
                                },
                                None => {},
                            }
                        }
                    },
                    _ => {},
                },
                None => {},
            }
            match json.get_field("choices") {
                Some(c) => {
                    proof { lemma_view_shapes(*c); }
                    match c {
                        Json::Array(choices) => {
                            let ghost cs = items_view(choices@);
                            let mut i: usize = 0;
                            while i < choices.len()
                                invariant
                                    cs == items_view(choices@),
                                    items_of(field_in(opt_view(parsed), "choices"@)) == Some(cs),
                                    i <= choices@.len(),
                                    has_tool_call == exists|k: int| 0 <= k < i && field_in(field(#[trigger] cs[k], "message"@), "tool_calls"@) is Some,
                                decreases choices@.len() - i,
                            {
                                let found = match choices[i].get_field("message") {
                                    Some(m) => m.get_field("tool_calls").is_some(),
                                    None => false,
                                };
                                if found {
                                    assert(field_in(field(cs[i as int], "message"@), "tool_calls"@) is Some);
                                    has_tool_call = true;
                                }
                                i = i + 1;
                            }
                        },
                        _ => {},
                    }
                },
                None => {},
            }
        },
        None => {},
    }
    if output_tokens == 0 {
        output_tokens = (text.len() as u32) / 4;
    }
    (output_tokens, repetition_count, has_tool_call)
}

/// `state` with only its statistics replaced by `stats`.
pub open spec fn with_stats(state: AppState, stats: ModelStatsStore) -> AppState {
    AppState { model_stats: stats, ..state }
}

/// How recording one outcome of `model` through key `key_idx` changes the statistics: the
/// outcome is recorded, and counted against the key's label when the key exists.
pub open spec fn keyed_record_post(old_st: AppState, new_st: AppState, model: Seq<char>, key_idx: usize, ms: u64, ok: bool) -> bool {
    &&& new_st == with_stats(old_st, new_st.model_stats)
    &&& new_st.wf()
    &&& new_st.model_stats.stats() == old_st.model_stats.stats().insert(model, after_record(old_st.model_stats.state_or_fresh(model), ms, ok))
    &&& new_st.model_stats.failure_map() == if key_idx < old_st.pool.n() {
        old_st.model_stats.failure_map().insert(model,
            after_key_outcome(old_st.model_stats.tracker_or_empty(model), old_st.pool.key_label_at(key_idx as int), ok))
    } else {
        old_st.model_stats.failure_map()
    }
    &&& new_st.model_stats.threshold() == old_st.model_stats.threshold()
    &&& new_st.model_stats.cb() == old_st.model_stats.cb()
}

/// Records one outcome of `model_id` served through key `key_idx` (see
/// [`keyed_record_post`]).
pub fn record_keyed(state: &mut AppState, model_id: &str, key_idx: usize, ms: u64, ok: bool)
    requires
        old(state).wf(),
    ensures
        keyed_record_post(*old(state), *final(state), model_id@, key_idx, ms, ok),
{
    let label = state.pool.get_key_label(key_idx);
    match label {
        Some(l) => state.model_stats.record_with_key(model_id, l.as_str(), ms, ok),
        None => state.model_stats.record(model_id, ms, ok),
    }
}

/// How recording a completed response changes the statistics: with output tokens or
/// repetitions, the circuit-breaker record; else the keyed record.
pub open spec fn completion_record_post(old_st: AppState, new_st: AppState, model: Seq<char>, key_idx: usize, ms: u64, ok: bool, m: (u32, u32, bool)) -> bool {
    if m.0 > 0 || m.1 > 0 {
        &&& new_st == with_stats(old_st, new_st.model_stats)
        &&& new_st.wf()
        &&& new_st.model_stats.stats() == old_st.model_stats.stats().insert(model,
            after_record_cb(old_st.model_stats.state_or_fresh(model), ms, ok, m.0, m.1, m.2))
        &&& new_st.model_stats.failure_map() == old_st.model_stats.failure_map()
        &&& new_st.model_stats.threshold() == old_st.model_stats.threshold()
        &&& new_st.model_stats.cb() == old_st.model_stats.cb()
    } else {
        keyed_record_post(old_st, new_st, model, key_idx, ms, ok)
    }
}

/// Records a completed response of `model_id` with its metrics (see
/// [`completion_record_post`]).
pub fn record_completion(state: &mut AppState, model_id: &str, key_idx: usize, ms: u64, ok: bool, metrics: (u32, u32, bool))
    requires
        old(state).wf(),
    ensures
        completion_record_post(*old(state), *final(state), model_id@, key_idx, ms, ok, metrics),
{
    let (output_tokens, repetition_count, had_tool_call) = metrics;
    if output_tokens > 0 || repetition_count > 0 {
        state.model_stats.record_with_circuit_breaker(model_id, ms, ok, output_tokens, repetition_count, had_tool_call);
    } else {
        record_keyed(state, model_id, key_idx, ms, ok);
    }
}

/// Whether an HTTP status is a success (2xx).
pub open spec fn is_success(status: u16) -> bool {
    200 <= status <= 299
}

/// The next step of a chat request after an upstream answer.
#[derive(Clone, Copy, Debug, PartialEq, Eq, Structural)]
pub enum ChatAction {
    /// Try again with the next key.
    Retry,
    /// Hold this answer back and try again with the next key; the held answer goes to the
    /// client when no key is left.
    RetryHolding,
    /// Route the request again (to another model) and try again.
    Reroute,
    /// Send the answer to the client.
    Deliver,
}

/// The view of an optional text.
pub open spec fn opt_str(o: Option<&str>) -> Option<Seq<char>> {
    match o {
        Some(h) => Some(h@),
        None => None,
    }
}

/// Key `idx` of `p` was put on cooldown for `secs` seconds at some moment.
pub open spec fn cooled(p: crate::key_pool::KeyPool, q: crate::key_pool::KeyPool, idx: usize, secs: u64) -> bool {
    exists|now: u64| p.rate_limited_post(q, idx, secs, now)
}

/// `secs` seconds in milliseconds, stopping at the largest value.
pub open spec fn secs_to_ms(secs: u64) -> u64 {
    if secs > u64::MAX / 1000 { u64::MAX } else { (secs * 1000) as u64 }
}

/// Key `idx` of `p` was counted as failing authentication, and quarantined for `secs`
/// seconds (not at all for 0), at some moment.
pub open spec fn auth_quarantined(p: crate::key_pool::KeyPool, q: crate::key_pool::KeyPool, idx: usize, secs: u64) -> bool {
    exists|now: u64| p.auth_failed_post(q, idx, secs_to_ms(secs), now)
}

/// Counts an authentication failure of key `key_idx` and quarantines it for the configured
/// time; only the key pool changes.
fn quarantine_key(state: &mut AppState, key_idx: usize)
    requires
        old(state).wf(),
    ensures
        final(state).wf(),
        auth_quarantined(old(state).pool, final(state).pool, key_idx, old(state).auth_failure_cooldown_secs),
        *final(state) == (AppState { pool: final(state).pool, ..*old(state) }),
{
    let secs = state.auth_failure_cooldown_secs;
    let ms: u64 = if secs > u64::MAX / 1000 { u64::MAX } else { secs * 1000 };
    let ghost before = *state;
    assert(ms == secs_to_ms(secs));
    state.pool.mark_auth_failed(key_idx, ms);
    assert(*state == (AppState { pool: state.pool, ..before }));
    assert(auth_quarantined(before.pool, state.pool, key_idx, secs));
}

/// Acts on an upstream answer to a chat request for `model_id` sent through key `key_idx`:
/// a rate limit cools the key down and retries; a 401 or 403 quarantines the key and
/// retries, holding the answer back; a degraded-function error marks the model degraded and
/// routes the request again when it was auto-routed (else retries); a rejected assistant
/// message marks the model degraded and retries; any other answer is recorded with its
/// metrics and delivered.
pub fn after_chat_response(
    state: &mut AppState,
    model_id: &str,
    key_idx: usize,
    status: u16,
    retry_after: Option<&str>,
    body: &str,
    ttfc_ms: u64,
    auto_routed: bool,
) -> (a: ChatAction)
    requires
        old(state).wf(),
    ensures
        final(state).wf(),
        ({
            let v = verdict_spec(status, opt_str(retry_after), body@);
            match v {
                UpstreamVerdict::RateLimited { retry_after_secs } => a == ChatAction::Retry
                    && cooled(old(state).pool, final(state).pool, key_idx, retry_after_secs)
                    && *final(state) == (AppState { pool: final(state).pool, ..*old(state) }),
                UpstreamVerdict::AuthFailed => a == ChatAction::RetryHolding
                    && auth_quarantined(old(state).pool, final(state).pool, key_idx, old(state).auth_failure_cooldown_secs)
                    && *final(state) == (AppState { pool: final(state).pool, ..*old(state) }),
                UpstreamVerdict::ServerDegraded | UpstreamVerdict::InvalidAssistant => {
                    &&& a == if auto_routed && v is ServerDegraded { ChatAction::Reroute } else { ChatAction::Retry }
                    &&& *final(state) == with_stats(*old(state), final(state).model_stats)
                    &&& final(state).model_stats.stats() == old(state).model_stats.stats().insert(model_id@,
                        after_server_degraded(old(state).model_stats.state_or_fresh(model_id@)))
                    &&& final(state).model_stats.failure_map() == old(state).model_stats.failure_map()
                    &&& final(state).model_stats.threshold() == old(state).model_stats.threshold()
                    &&& final(state).model_stats.cb() == old(state).model_stats.cb()
                },
                UpstreamVerdict::Deliver => a == ChatAction::Deliver
                    && completion_record_post(*old(state), *final(state), model_id@, key_idx, ttfc_ms, is_success(status),
                        metrics_spec(body@, body.len(), json_parse(body.spec_bytes()))),
            }
        }),
{
    let verdict = classify_upstream(status, retry_after, body);
    match verdict {
        UpstreamVerdict::RateLimited { retry_after_secs } => {
            let ghost before = *state;
            state.pool.mark_rate_limited(key_idx, retry_after_secs);
            assert(*state == (AppState { pool: state.pool, ..before }));
            assert(cooled(before.pool, state.pool, key_idx, retry_after_secs));
            ChatAction::Retry
        },
        UpstreamVerdict::AuthFailed => {
            quarantine_key(state, key_idx);
            ChatAction::RetryHolding
        },
        UpstreamVerdict::ServerDegraded => {
            state.model_stats.record_server_degraded(model_id);
            if auto_routed { ChatAction::Reroute } else { ChatAction::Retry }
        },
        UpstreamVerdict::InvalidAssistant => {
            state.model_stats.record_server_degraded(model_id);
            ChatAction::Retry
        },
        UpstreamVerdict::Deliver => {
            let metrics = extract_response_metrics(body);
            let ok = 200 <= status && status <= 299;
            record_completion(state, model_id, key_idx, ttfc_ms, ok, metrics);
            ChatAction::Deliver
        },
    }
}

/// Acts on an upstream answer to a legacy completion (`with_metrics`) or embedding request
/// for `model_id` sent through key `key_idx`: a 401 or 403 quarantines the key and retries,
/// holding the answer back; any other answer is recorded (with its output metrics for a
/// completion) and delivered.
pub fn after_legacy_response(
    state: &mut AppState,
    model_id: &str,
    key_idx: usize,
    status: u16,
    body: &str,
    ttfc_ms: u64,
    with_metrics: bool,
) -> (a: ChatAction)
    requires
        old(state).wf(),
    ensures
        final(state).wf(),
        status == 401 || status == 403 ==> a == ChatAction::RetryHolding
            && auth_quarantined(old(state).pool, final(state).pool, key_idx, old(state).auth_failure_cooldown_secs)
            && *final(state) == (AppState { pool: final(state).pool, ..*old(state) }),
        !(status == 401 || status == 403) ==> a == ChatAction::Deliver && if with_metrics {
            completion_record_post(*old(state), *final(state), model_id@, key_idx, ttfc_ms, is_success(status),
                metrics_spec(body@, body.len(), json_parse(body.spec_bytes())))
        } else {
            keyed_record_post(*old(state), *final(state), model_id@, key_idx, ttfc_ms, is_success(status))
        },
{
    if status == 401 || status == 403 {
        quarantine_key(state, key_idx);
        return ChatAction::RetryHolding;
    }
    let ok = 200 <= status && status <= 299;
    if with_metrics {
        let metrics = extract_response_metrics(body);
        record_completion(state, model_id, key_idx, ttfc_ms, ok, metrics);
    } else {
        record_keyed(state, model_id, key_idx, ttfc_ms, ok);
    }
    ChatAction::Deliver
}

/// The models in racing order starting at `cursor`, wrapping around.
pub open spec fn rotated(models: Seq<Seq<char>>, cursor: usize) -> Seq<Seq<char>> {
    Seq::new(models.len(), |i: int| models[((cursor as int) + i) % (models.len() as int)])
}

/// The racers chosen from `models` (at most `max_parallel` of them, in racing order, see
/// [`ModelStatsStore::race_order`]) when the rotation starts at `cursor`.
pub open spec fn race_pick(stats: ModelStatsStore, models: Seq<Seq<char>>, cursor: usize, max_parallel: int) -> Seq<Seq<char>> {
    let cands = rotated(models, cursor);
    let order = stats.race_order(cands);
    let k = if max_parallel < order.len() { max_parallel } else { order.len() as int };
    Seq::new(k as nat, |j: int| cands[order[j]])
}

/// The fan-out of a race over `n` models: the configured maximum, at most `n`.
pub open spec fn race_width(state: AppState, n: int) -> int {
    if (state.racing_max_parallel as int) < n { state.racing_max_parallel as int } else { n }
}

/// Chooses the racers for a raced request among `models` and advances the racing cursor
/// by the fan-out. Fails with 400 when the fan-out is below two and with 502 when fewer than
/// two of the candidates are viable; the state is then unchanged.
pub fn plan_race(state: &mut AppState, models: &[String]) -> (r: Result<Vec<String>, (u16, String)>)
    requires
        old(state).wf(),
    ensures
        ({
            let ms = models@.map_values(|m: String| m@);
            let w = race_width(*old(state), ms.len() as int);
            let picked = race_pick(old(state).model_stats, ms, old(state).racing_cursor, w);
            match r {
                Ok(v) => w >= 2 && picked.len() >= 2
                    && v@.map_values(|m: String| m@) == picked
                    && *final(state) == (AppState { racing_cursor: final(state).racing_cursor, ..*old(state) })
                    && final(state).racing_cursor as int == ((old(state).racing_cursor as int) + w) % (ms.len() as int),
                Err((code, msg)) => *final(state) == *old(state) && (
                    (w < 2 && code == 400 && msg@ == "racing requires at least 2 models"@)
                    || (w >= 2 && picked.len() < 2 && code == 502 && msg@ == "not enough viable racing models"@)),
            }
        }),
{
    let ghost ms = models@.map_values(|m: String| m@);
    let n = models.len();
    let max_parallel = if state.racing_max_parallel < n { state.racing_max_parallel } else { n };
    if max_parallel < 2 {
        return Err((400, "racing requires at least 2 models".to_owned()));
    }
    let cursor = state.racing_cursor;
    let c = cursor % n;
    let mut candidates: Vec<String> = Vec::new();
    let mut i: usize = 0;
    while i < n
        invariant
            n == models@.len(),
            n >= 2,
            c == cursor % n,
            ms == models@.map_values(|m: String| m@),
            i <= n,
            candidates@.len() == i,
            forall|k: int| 0 <= k < i ==> (#[trigger] candidates@[k])@ == rotated(ms, cursor)[k],
        decreases n - i,
    {
        let j = if c >= n - i { c - (n - i) } else { c + i };
        proof {
            vstd::arithmetic::div_mod::lemma_add_mod_noop(cursor as int, i as int, n as int);
            vstd::arithmetic::div_mod::lemma_small_mod(i as nat, n as nat);
            vstd::arithmetic::div_mod::lemma_small_mod(j as nat, n as nat);
            vstd::arithmetic::div_mod::lemma_mod_add_multiples_vanish((c + i) as int - n as int, n as int);
            assert(j as int == ((cursor as int) + (i as int)) % (n as int));
        }
        candidates.push(models[j].clone());
        i = i + 1;
    }
    let ghost cands = candidates@.map_values(|m: String| m@);
    assert(cands =~= rotated(ms, cursor));
    let chosen = state.model_stats.racing_candidates(candidates.as_slice(), max_parallel);
    proof {
        state.model_stats.lemma_race_order_range(cands);
        let picked = race_pick(state.model_stats, ms, cursor, max_parallel as int);
        assert(chosen@.map_values(|m: String| m@) =~= picked);
    }
    if chosen.len() < 2 {
        return Err((502, "not enough viable racing models".to_owned()));
    }
    let next = if c >= n - max_parallel { c - (n - max_parallel) } else { c + max_parallel };
    proof {
        vstd::arithmetic::div_mod::lemma_add_mod_noop(cursor as int, max_parallel as int, n as int);
        vstd::arithmetic::div_mod::lemma_small_mod(next as nat, n as nat);
        if max_parallel < n {
            vstd::arithmetic::div_mod::lemma_small_mod(max_parallel as nat, n as nat);
        } else {
            vstd::arithmetic::div_mod::lemma_mod_self_0(n as int);
        }
        vstd::arithmetic::div_mod::lemma_mod_add_multiples_vanish((c + max_parallel) as int - n as int, n as int);
        vstd::arithmetic::div_mod::lemma_mod_add_multiples_vanish(c as int, n as int);
        assert(next as int == ((cursor as int) + (max_parallel as int)) % (n as int));
    }
    state.racing_cursor = next;
    Ok(chosen)
}

/// The request sent to one racer: the model set, the rewrites for it, then its parameters.
pub open spec fn racer_request_spec(j: JsonV, model: Seq<char>, state: AppState) -> JsonV {
    let j1 = crate::json::with_field(j, "model"@, JsonV::Str(model));
    let j2 = rewrite_for(j1, model, state.model_compat);
    match params_for(state.model_params@, model) {
        Some(p) => apply_overrides(j2, overrides(p, false)),
        None => j2,
    }
}

/// Builds the request for one racer from the client's request (see
/// [`racer_request_spec`]).
pub fn racer_request(json: Json, model_id: &str, state: &AppState) -> (r: Json)
    requires
        json@ is Object || json@ is Null,
    ensures
        r@ == racer_request_spec(json@, model_id@, *state),
{
    let mut json = json;
    json.set_field("model", Json::Str(model_id.to_owned()));
    inject_mistral_tool_params(&mut json, model_id);
    inject_minimax_system_message(&mut json, model_id);
    sanitize_tool_calls(&mut json);
    transform_message_roles(&mut json, model_id, &state.model_compat);
    fix_message_ordering(&mut json);
    match crate::request::find_params_pub(&state.model_params, model_id) {
        Some(p) => apply_params(&mut json, p, false),
        None => {},
    }
    json
}

/// The request text sent to one racer from the client's raw body (see
/// [`racer_request_spec`]): `Some(None)` when the body is not JSON, and the racer is
/// skipped; none when it is JSON but neither an object nor null, which cannot take a model.
pub fn racer_body(body: &[u8], model_id: &str, state: &AppState) -> (r: Option<Option<String>>)
    ensures
        match json_parse(body@) {
            Some(j) => if j is Object || j is Null {
                r matches Some(Some(t)) && t@ == json_render(racer_request_spec(j, model_id@, *state))
            } else {
                r is None
            },
            None => r == Some(None::<String>),
        },
{
    match parse_json(body) {
        Ok(j) => {
            proof { lemma_view_shapes(j); }
            let settable = match &j {
                Json::Object(_) => true,
                Json::Null => true,
                _ => false,
            };
            if !settable {
                return None;
            }
            let req = racer_request(j, model_id, state);
            Some(Some(render_json(&req)))
        },
        Err(_) => Some(None),
    }
}

/// How the outcome of one racer counts.
#[derive(Clone, Copy, Debug, PartialEq, Eq, Structural)]
pub enum RaceVerdict {
    /// A 2xx answer: it goes to the client.
    Winner,
    /// 429: a loss; its key cools down only if no racer wins.
    RateLimited,
    /// 401 or 403: a loss; its key is quarantined at once.
    AuthFailed,
    /// Any other status: a loss; wait for the others.
    Rejected,
}

/// The verdict on a racer's answer with `status`: only a 2xx answer wins.
pub open spec fn race_verdict_spec(status: u16) -> RaceVerdict {
    if is_success(status) {
        RaceVerdict::Winner
    } else if status == 429 {
        RaceVerdict::RateLimited
    } else if status == 401 || status == 403 {
        RaceVerdict::AuthFailed
    } else {
        RaceVerdict::Rejected
    }
}

/// Judges a racer's answer (see [`race_verdict_spec`]). A 401 or 403 quarantines the
/// racer's key at once; nothing else changes the state (a 429 is settled with the race).
/// The error text, for a losing answer, names the key or the status and model.
pub fn after_race_response(state: &mut AppState, model_id: &str, status: u16, key_idx: usize) -> (r: (RaceVerdict, Option<String>))
    requires
        old(state).wf(),
    ensures
        final(state).wf(),
        r.0 == race_verdict_spec(status),
        r.0 == RaceVerdict::AuthFailed ==> auth_quarantined(old(state).pool, final(state).pool, key_idx, old(state).auth_failure_cooldown_secs)
            && *final(state) == (AppState { pool: final(state).pool, ..*old(state) }),
        r.0 != RaceVerdict::AuthFailed ==> *final(state) == *old(state),
        r.0 == RaceVerdict::RateLimited ==> (r.1 matches Some(e) && e@ == "429 rate-limited (key "@ + decimal(key_idx as nat) + ")"@),
        r.0 == RaceVerdict::Rejected || r.0 == RaceVerdict::AuthFailed
            ==> (r.1 matches Some(e) && e@ == "HTTP "@ + decimal(status as nat) + " from "@ + model_id@),
        r.0 == RaceVerdict::Winner ==> r.1 is None,
{
    if 200 <= status && status <= 299 {
        (RaceVerdict::Winner, None)
    } else if status == 429 {
        let mut e = "429 rate-limited (key ".to_owned();
        e.append(decimal_string(key_idx as u64).as_str());
        e.append(")");
        (RaceVerdict::RateLimited, Some(e))
    } else {
        let auth = status == 401 || status == 403;
        if auth {
            quarantine_key(state, key_idx);
        }
        let mut e = "HTTP ".to_owned();
        e.append(decimal_string(status as u64).as_str());
        e.append(" from ");
        e.append(model_id);
        if auth { (RaceVerdict::AuthFailed, Some(e)) } else { (RaceVerdict::Rejected, Some(e)) }
    }
}

/// The pool `q` is `p` with each listed key cooled, in order, for its seconds, all at
/// time `now`.
pub open spec fn cooled_list(p: crate::key_pool::KeyPool, q: crate::key_pool::KeyPool, l: Seq<(usize, u64)>, now: u64) -> bool
    decreases l.len(),
{
    if l.len() == 0 {
        q == p
    } else {
        exists|m: crate::key_pool::KeyPool| cooled_list(p, m, l.drop_last(), now) && #[trigger] m.rate_limited_post(q, l.last().0, l.last().1, now)
    }
}

/// What one racer brought back.
pub enum RacerReply {
    /// An HTTP answer with this status, through key `key_idx`, with its `retry-after` seconds.
    Answered { status: u16, key_idx: usize, retry_after_secs: u64 },
    /// A transport error or a timeout, with its text.
    Failed { error: String },
}

/// The losses of a race so far.
pub struct RaceTally {
    /// Racers that lost.
    pub losers: usize,
    /// Keys that answered 429, with their `retry-after` seconds, in order.
    pub rate_limited: Vec<(usize, u64)>,
    /// The error of the last racer that lost.
    pub last_error: Option<String>,
}

/// The error text of a losing answer: the key for a 429, else the status and model.
pub open spec fn race_error_text(status: u16, key_idx: usize, model: Seq<char>) -> Seq<char> {
    if status == 429 {
        "429 rate-limited (key "@ + decimal(key_idx as nat) + ")"@
    } else {
        "HTTP "@ + decimal(status as nat) + " from "@ + model
    }
}

/// One more loser, stopping at the largest count.
pub open spec fn one_more(n: usize) -> usize {
    if n == usize::MAX { n } else { (n + 1) as usize }
}

impl RaceTally {
    /// No loss yet.
    pub fn new() -> (t: Self)
        ensures
            t.losers == 0 && t.rate_limited@.len() == 0 && t.last_error is None,
    {
        RaceTally { losers: 0, rate_limited: Vec::new(), last_error: None }
    }
}

/// Counts one racer's reply: a 2xx answer wins and changes nothing here; any other answer
/// or failure is one more loss, with its error kept as the last one and, for a 429, its key
/// and seconds noted for the settlement. A 401 or 403 quarantines the key at once (see
/// [`after_race_response`]); nothing else changes the state.
pub fn tally_racer(state: &mut AppState, tally: &mut RaceTally, model_id: &str, reply: RacerReply) -> (won: bool)
    requires
        old(state).wf(),
    ensures
        final(state).wf(),
        match reply {
            RacerReply::Answered { status, key_idx, retry_after_secs } => {
                let v = race_verdict_spec(status);
                &&& won == (v == RaceVerdict::Winner)
                &&& v == RaceVerdict::AuthFailed ==> auth_quarantined(old(state).pool, final(state).pool, key_idx, old(state).auth_failure_cooldown_secs)
                    && *final(state) == (AppState { pool: final(state).pool, ..*old(state) })
                &&& v != RaceVerdict::AuthFailed ==> *final(state) == *old(state)
                &&& won ==> final(tally).losers == old(tally).losers
                    && final(tally).rate_limited@ == old(tally).rate_limited@
                    && final(tally).last_error == old(tally).last_error
                &&& !won ==> final(tally).losers == one_more(old(tally).losers)
                    && final(tally).rate_limited@ == if v == RaceVerdict::RateLimited {
                        old(tally).rate_limited@.push((key_idx, retry_after_secs))
                    } else {
                        old(tally).rate_limited@
                    }
                    && (final(tally).last_error matches Some(e) && e@ == race_error_text(status, key_idx, model_id@))
            },
            RacerReply::Failed { error } => !won && *final(state) == *old(state)
                && final(tally).losers == one_more(old(tally).losers)
                && final(tally).rate_limited@ == old(tally).rate_limited@
                && final(tally).last_error == Some(error),
        },
{
    match reply {
        RacerReply::Answered { status, key_idx, retry_after_secs } => {
            let (verdict, err) = after_race_response(state, model_id, status, key_idx);
            if verdict == RaceVerdict::Winner {
                return true;
            }
            if verdict == RaceVerdict::RateLimited {
                tally.rate_limited.push((key_idx, retry_after_secs));
            }
            tally.losers = if tally.losers == usize::MAX { tally.losers } else { tally.losers + 1 };
            tally.last_error = err;
            false
        },
        RacerReply::Failed { error } => {
            tally.losers = if tally.losers == usize::MAX { tally.losers } else { tally.losers + 1 };
            tally.last_error = Some(error);
            false
        },
    }
}

/// Ends a race that no racer won: the keys that answered 429 cool down now, and the client
/// gets 429 when every losing racer was rate-limited, else 502, with the last racer's error.
pub fn settle_lost_race(state: &mut AppState, tally: RaceTally) -> (r: (u16, String))
    requires
        old(state).wf(),
    ensures
        final(state).wf(),
        *final(state) == (AppState { pool: final(state).pool, ..*old(state) }),
        exists|now: u64| cooled_list(old(state).pool, final(state).pool, tally.rate_limited@, now),
        r.0 == if tally.losers > 0 && tally.rate_limited@.len() == tally.losers { 429u16 } else { 502u16 },
        r.1@ == match tally.last_error {
            Some(e) => e@,
            None => "all racing models failed"@,
        },
{
    let rate_limited = &tally.rate_limited;
    let now = state.pool.now_ms();
    let ghost p0 = state.pool;
    let mut i: usize = 0;
    assert(rate_limited@.take(0) =~= Seq::<(usize, u64)>::empty());
    while i < rate_limited.len()
        invariant
            state.wf(),
            *state == (AppState { pool: state.pool, ..*old(state) }),
            p0 == old(state).pool,
            i <= rate_limited@.len(),
            cooled_list(p0, state.pool, rate_limited@.take(i as int), now),
        decreases rate_limited@.len() - i,
    {
        let (idx, secs) = rate_limited[i];
        let ghost m = state.pool;
        let ghost before = *state;
        state.pool.mark_rate_limited_at(idx, secs, now);
        assert(*state == (AppState { pool: state.pool, ..before }));
        proof {
            let l = rate_limited@.take(i + 1);
            assert(l.drop_last() =~= rate_limited@.take(i as int));
            assert(l.last() == (idx, secs));
            assert(m.rate_limited_post(state.pool, l.last().0, l.last().1, now));
            assert(cooled_list(p0, state.pool, l, now));
        }
        i = i + 1;
    }
    assert(rate_limited@.take(i as int) =~= rate_limited@);
    let status: u16 = if tally.losers > 0 && rate_limited.len() == tally.losers { 429 } else { 502 };
    (status, race_failure_text(tally.last_error))
}

/// Records one racer's outcome: its reply's status (`None` for a transport error or a
/// timeout), counted against the key labelled `key_label` when it has one. A 401 or 403
/// tells about the key, not the model, and records nothing; any other status counts as a
/// success exactly when it is 2xx.
pub fn record_racer(stats: &mut ModelStatsStore, model_id: &str, key_label: Option<&str>, ms: u64, status: Option<u16>)
    requires
        old(stats).wf(),
    ensures
        final(stats).wf(),
        final(stats).threshold() == old(stats).threshold(),
        final(stats).cb() == old(stats).cb(),
        status matches Some(s) && (s == 401 || s == 403) ==> *final(stats) == *old(stats),
        !(status matches Some(s) && (s == 401 || s == 403)) ==> {
            let ok = status matches Some(s) && is_success(s);
            &&& final(stats).stats() == old(stats).stats().insert(model_id@, after_record(old(stats).state_or_fresh(model_id@), ms, ok))
            &&& final(stats).failure_map() == match key_label {
                Some(l) => old(stats).failure_map().insert(model_id@, after_key_outcome(old(stats).tracker_or_empty(model_id@), l@, ok)),
                None => old(stats).failure_map(),
            }
        },
{
    let ok = match status {
        Some(s) => {
            if s == 401 || s == 403 {
                return;
            }
            200 <= s && s <= 299
        },
        None => false,
    };
    match key_label {
        Some(l) => stats.record_with_key(model_id, l, ms, ok),
        None => stats.record(model_id, ms, ok),
    }
}

/// The key a racer was given.
pub struct RacerKey {
    pub model: String,
    pub key: String,
    pub idx: usize,
    pub label: Option<String>,
}

/// A racer's model, key text and key index, as plain values.
pub open spec fn racer_triple(r: RacerKey) -> (Seq<char>, Seq<char>, usize) {
    (r.model@, r.key@, r.idx)
}

/// The racers' models, keys and key indices, in order.
pub open spec fn racer_triples(v: Seq<RacerKey>) -> Seq<(Seq<char>, Seq<char>, usize)> {
    v.map_values(|r: RacerKey| racer_triple(r))
}

/// Picking keys for the models `ms` in order, each with one `next_key` pick of the pool as
/// the earlier picks left it (at some moment), takes pool `p` to `q` and gives the racers
/// `out`: a model whose pick found a key races with it, one whose pick found none is left
/// out.
pub open spec fn picks_chain(p: crate::key_pool::KeyPool, q: crate::key_pool::KeyPool, ms: Seq<Seq<char>>,
    out: Seq<(Seq<char>, Seq<char>, usize)>) -> bool
    decreases ms.len(),
{
    if ms.len() == 0 {
        q == p && out.len() == 0
    } else {
        exists|m: crate::key_pool::KeyPool, now: u64, res: Option<(String, usize)>|
            #[trigger] m.next_key_post(q, res, now) && match res {
                Some((k, i)) => out.len() > 0 && out.last() == (ms.last(), k@, i)
                    && picks_chain(p, m, ms.drop_last(), out.drop_last()),
                None => picks_chain(p, m, ms.drop_last(), out),
            }
    }
}

/// Gives each racer, in order, its own pick of the next key (see [`picks_chain`]); a racer
/// whose pick finds no key free is left out. Fails with 400 when there is no racer, and with
/// 429 when no racer got a key. Only the key pool's rotation changes.
pub fn assign_racer_keys(state: &mut AppState, models: &[String]) -> (r: Result<Vec<RacerKey>, (u16, String)>)
    requires
        old(state).wf(),
    ensures
        final(state).wf(),
        *final(state) == (AppState { pool: final(state).pool, ..*old(state) }),
        final(state).pool.same_keys_and_cooldowns(&old(state).pool),
        final(state).pool.same_slots(&old(state).pool),
        match r {
            Ok(v) => 0 < v@.len() <= models@.len()
                && picks_chain(old(state).pool, final(state).pool, ids(models@), racer_triples(v@))
                && forall|k: int| 0 <= k < v@.len() ==> opt_str_view((#[trigger] v@[k]).label)
                    == Some(old(state).pool.key_label_at(v@[k].idx as int)),
            Err((code, msg)) => (models@.len() == 0 && code == 400 && msg@ == "no valid models to race"@ && *final(state) == *old(state))
                || (models@.len() > 0 && code == 429 && msg@ == "all API keys rate-limited"@
                    && picks_chain(old(state).pool, final(state).pool, ids(models@), Seq::empty())),
        },
{
    let ghost p0 = state.pool;
    let ghost ms = ids(models@);
    proof { crate::key_pool::KeyPool::lemma_same_chain(&p0, &p0, &p0); }
    if models.len() == 0 {
        return Err((400, "no valid models to race".to_owned()));
    }
    let mut out: Vec<RacerKey> = Vec::new();
    let mut i: usize = 0;
    assert(ms.take(0) =~= Seq::<Seq<char>>::empty());
    assert(racer_triples(out@) =~= Seq::<(Seq<char>, Seq<char>, usize)>::empty());
    while i < models.len()
        invariant
            state.wf(),
            *state == (AppState { pool: state.pool, ..*old(state) }),
            p0 == old(state).pool,
            ms == ids(models@),
            state.pool.same_keys_and_cooldowns(&p0),
            state.pool.same_slots(&p0),
            i <= models@.len(),
            out@.len() <= i,
            picks_chain(p0, state.pool, ms.take(i as int), racer_triples(out@)),
            forall|k: int| 0 <= k < out@.len() ==> opt_str_view((#[trigger] out@[k]).label)
                == Some(p0.key_label_at(out@[k].idx as int)),
        decreases models@.len() - i,
    {
        let ghost m = state.pool;
        let ghost before = *state;
        let ghost out0 = out@;
        let res = state.pool.next_key();
        assert(*state == (AppState { pool: state.pool, ..before }));
        let ghost now = choose|now: u64| m.next_key_post(state.pool, res, now);
        proof {
            crate::key_pool::KeyPool::lemma_same_chain(&state.pool, &m, &p0);
            m.lemma_same_keys(&p0);
            assert(ms.take(i + 1).drop_last() =~= ms.take(i as int));
            assert(ms.take(i + 1).last() == models@[i as int]@);
        }
        match res {
            Some((key, idx)) => {
                let label = state.pool.get_key_label(idx);
                proof {
                    state.pool.lemma_same_keys(&p0);
                    m.law_pick_not_cooling(now);
                }
                let ghost kv = key@;
                out.push(RacerKey { model: models[i].clone(), key, idx, label });
                proof {
                    assert(racer_triples(out@).drop_last() =~= racer_triples(out0));
                    assert(racer_triples(out@).last() == (models@[i as int]@, kv, idx));
                    assert(m.next_key_post(state.pool, res, now));
                    assert(picks_chain(p0, state.pool, ms.take(i + 1), racer_triples(out@)));
                }
            },
            None => {
                proof {
                    assert(m.next_key_post(state.pool, res, now));
                    assert(picks_chain(p0, state.pool, ms.take(i + 1), racer_triples(out@)));
                }
            },
        }
        i = i + 1;
    }
    assert(ms.take(i as int) =~= ms);
    if out.len() == 0 {
        assert(racer_triples(out@) =~= Seq::<(Seq<char>, Seq<char>, usize)>::empty());
        return Err((429, "all API keys rate-limited".to_owned()));
    }
    Ok(out)
}

/// The error a race ends with when no racer won: the last racer's error, else a generic
/// one.
pub fn race_failure_text(last_error: Option<String>) -> (r: String)
    ensures
        r@ == match last_error {
            Some(e) => e@,
            None => "all racing models failed"@,
        },
{
    match last_error {
        Some(e) => e,
        None => "all racing models failed".to_owned(),
    }
}

/// A JSON number with the decimal text of `n`.
pub open spec fn number_json(n: nat) -> JsonV {
    JsonV::Number(decimal(n))
}

/// Number of active keys.
pub open spec fn count_active(s: Seq<KeyStatus>) -> nat
    decreases s.len(),
{
    if s.len() == 0 { 0 } else { count_active(s.drop_last()) + if s.last().active { 1nat } else { 0nat } }
}

/// The health entry of one key.
pub open spec fn key_health(k: KeyStatus) -> JsonV {
    JsonV::Object(Map::empty()
        .insert("label"@, JsonV::Str(k.label@))
        .insert("key_hint"@, JsonV::Str(k.key_hint@))
        .insert("active"@, JsonV::Bool(k.active))
        .insert("cooldown_secs_remaining"@, number_json(k.cooldown_secs_remaining as nat)))
}

/// A JSON array of texts.
pub open spec fn texts_json(ids: Seq<Seq<char>>) -> JsonV {
    JsonV::Array(ids.map_values(|m: Seq<char>| JsonV::Str(m)))
}

/// The health report: `UP` while a key is active, else `DEGRADED`, with the key counts and
/// one entry per key, and whether routing and racing are on, with their models.
pub open spec fn health_spec(s: Seq<KeyStatus>, st: AppState) -> JsonV {
    JsonV::Object(Map::empty()
        .insert("status"@, JsonV::Str(if count_active(s) > 0 { "UP"@ } else { "DEGRADED"@ }))
        .insert("keys_total"@, number_json(s.len()))
        .insert("keys_active"@, number_json(count_active(s)))
        .insert("keys"@, JsonV::Array(s.map_values(|k: KeyStatus| key_health(k))))
        .insert("routing_enabled"@, JsonV::Bool(routed_ids(st.router).len() > 0))
        .insert("racing_enabled"@, JsonV::Bool(st.racing_models@.len() >= 2 && st.racing_max_parallel >= 2))
        .insert("routing_models"@, texts_json(routed_ids(st.router)))
        .insert("racing_models"@, texts_json(ids(st.racing_models@))))
}

/// The catalog entry of one configured model.
pub open spec fn model_entry(m: Seq<char>) -> JsonV {
    JsonV::Object(Map::empty().insert("id"@, JsonV::Str(m)).insert("object"@, JsonV::Str("model"@)))
}

/// The model list the proxy answers itself: every configured model once, as a catalog.
pub open spec fn models_listing_spec(ms: Seq<Seq<char>>) -> JsonV {
    JsonV::Object(Map::empty()
        .insert("object"@, JsonV::Str("list"@))
        .insert("data"@, JsonV::Array(ms.map_values(|m: Seq<char>| model_entry(m)))))
}

/// The answer to a model-list request when models are configured: every configured model
/// once (see [`crate::model_refresh::configured_ids`]); none, and the request goes
/// upstream, when no model is configured.
pub fn models_listing(state: &AppState) -> (r: Option<Json>)
    ensures
        match r {
            Some(j) => crate::model_refresh::configured_ids(*state).len() > 0
                && j@ == models_listing_spec(crate::model_refresh::configured_ids(*state)),
            None => crate::model_refresh::configured_ids(*state).len() == 0,
        },
{
    let ms = state.configured_models();
    let ghost mv = ids(ms@);
    if ms.len() == 0 {
        return None;
    }
    let mut items: Vec<Json> = Vec::new();
    let mut i: usize = 0;
    while i < ms.len()
        invariant
            mv == ids(ms@),
            i <= ms@.len(),
            items_view(items@) == mv.take(i as int).map_values(|m: Seq<char>| model_entry(m)),
        decreases ms@.len() - i,
    {
        let ghost before = items_view(items@);
        let mut e = empty_object();
        e.set_field("id", Json::Str(ms[i].clone()));
        e.set_field("object", Json::Str("model".to_owned()));
        items.push(e);
        proof {
            assert(items_view(items@) =~= before.push(model_entry(ms@[i as int]@)));
            assert(mv.take(i + 1).map_values(|m: Seq<char>| model_entry(m))
                =~= mv.take(i as int).map_values(|m: Seq<char>| model_entry(m)).push(model_entry(mv[i as int])));
        }
        i = i + 1;
    }
    assert(mv.take(i as int) =~= mv);
    let mut o = empty_object();
    o.set_field("object", Json::Str("list".to_owned()));
    let a = Json::Array(items);
    proof { lemma_view_shapes(a); }
    o.set_field("data", a);
    Some(o)
}

/// A JSON array of the given texts.
fn texts_to_json(v: &[String]) -> (r: Json)
    ensures
        r@ == texts_json(ids(v@)),
{
    let mut items: Vec<Json> = Vec::new();
    let mut i: usize = 0;
    while i < v.len()
        invariant
            i <= v@.len(),
            items_view(items@) == ids(v@).take(i as int).map_values(|m: Seq<char>| JsonV::Str(m)),
        decreases v@.len() - i,
    {
        let ghost before = items_view(items@);
        items.push(Json::Str(v[i].clone()));
        proof {
            assert(items_view(items@) =~= before.push(JsonV::Str(v@[i as int]@)));
            assert(ids(v@).take(i + 1).map_values(|m: Seq<char>| JsonV::Str(m))
                =~= ids(v@).take(i as int).map_values(|m: Seq<char>| JsonV::Str(m)).push(JsonV::Str(v@[i as int]@)));
        }
        i = i + 1;
    }
    assert(ids(v@).take(i as int) =~= ids(v@));
    let a = Json::Array(items);
    proof { lemma_view_shapes(a); }
    a
}

/// An empty JSON object.
fn empty_object() -> (r: Json)
    ensures
        r@ == JsonV::Object(Map::empty()),
{
    let r = Json::Object(Vec::new());
    proof {
        lemma_view_shapes(r);
        assert(crate::json::members_view(Seq::empty()) =~= Map::empty());
    }
    r
}

/// The health entry of one key (see [`key_health`]).
fn key_health_json(k: &KeyStatus) -> (r: Json)
    ensures
        r@ == key_health(*k),
{
    let mut o = empty_object();
    o.set_field("label", Json::Str(k.label.clone()));
    o.set_field("key_hint", Json::Str(k.key_hint.clone()));
    o.set_field("active", Json::Bool(k.active));
    o.set_field("cooldown_secs_remaining", Json::Number(decimal_string(k.cooldown_secs_remaining)));
    o
}

/// The health report of a key pool (see [`health_spec`]).
pub fn health_report(statuses: &Vec<KeyStatus>, state: &AppState) -> (r: Json)
    ensures
        r@ == health_spec(statuses@, *state),
{
    let mut keys: Vec<Json> = Vec::new();
    let mut active: usize = 0;
    let mut i: usize = 0;
    while i < statuses.len()
        invariant
            i <= statuses@.len(),
            active == count_active(statuses@.take(i as int)),
            active <= i,
            items_view(keys@) == statuses@.take(i as int).map_values(|k: KeyStatus| key_health(k)),
        decreases statuses@.len() - i,
    {
        let ghost before = items_view(keys@);
        proof {
            assert(statuses@.take(i + 1).drop_last() =~= statuses@.take(i as int));
            assert(statuses@.take(i + 1).last() == statuses@[i as int]);
        }
        if statuses[i].active {
            active = active + 1;
        }
        keys.push(key_health_json(&statuses[i]));
        proof {
            assert(items_view(keys@) =~= before.push(key_health(statuses@[i as int])));
            assert(statuses@.take(i + 1).map_values(|k: KeyStatus| key_health(k))
                =~= statuses@.take(i as int).map_values(|k: KeyStatus| key_health(k)).push(key_health(statuses@[i as int])));
        }
        i = i + 1;
    }
    proof {
        assert(statuses@.take(i as int) =~= statuses@);
    }
    let mut o = empty_object();
    if active > 0 {
        o.set_field("status", Json::Str("UP".to_owned()));
    } else {
        o.set_field("status", Json::Str("DEGRADED".to_owned()));
    }
    o.set_field("keys_total", Json::Number(decimal_string(statuses.len() as u64)));
    o.set_field("keys_active", Json::Number(decimal_string(active as u64)));
    let arr = Json::Array(keys);
    proof { lemma_view_shapes(arr); }
    o.set_field("keys", arr);
    o.set_field("routing_enabled", Json::Bool(state.routing_enabled()));
    o.set_field("racing_enabled", Json::Bool(state.racing_enabled()));
    let routed: &[String] = match &state.router {
        Some(r) => r.model_list(),
        None => &[],
    };
    assert(ids(routed@) == routed_ids(state.router)) by {
        match state.router {
            Some(r) => {},
            None => { assert(ids(routed@) =~= Seq::<Seq<char>>::empty()); },
        }
    }
    o.set_field("routing_models", texts_to_json(routed));
    o.set_field("racing_models", texts_to_json(state.racing_models.as_slice()));
    o
}

/// The stats entry of one model. The average latency and the success rate are derived by
/// the caller from `latency_sum_ms`, `sample_count`, `success` and `total`.
pub open spec fn model_stats_entry(s: ModelSnapshot) -> JsonV {
    JsonV::Object(Map::empty()
        .insert("model"@, JsonV::Str(s.id@))
        .insert("p95_ms"@, match s.p95_ms { Some(p) => number_json(p as nat), None => JsonV::Null })
        .insert("total"@, number_json(s.total as nat))
        .insert("success"@, number_json(s.success as nat))
        .insert("sample_count"@, number_json(s.sample_count as nat))
        .insert("consecutive_failures"@, number_json(s.consecutive_failures as nat))
        .insert("degraded"@, JsonV::Bool(s.degraded)))
}

/// The stats entry of one key: its health entry and its count of authentication failures.
pub open spec fn key_stats(k: KeyStatus) -> JsonV {
    crate::json::with_field(key_health(k), "auth_failures"@, number_json(k.auth_failures as nat))
}

/// The stats report: one entry per model, one per key, the racing models and the racing
/// limits, the key quarantine time, and the models pruned at startup.
pub open spec fn stats_spec(models: Seq<ModelSnapshot>, keys: Seq<KeyStatus>, racing: Seq<String>, max_parallel: usize,
    timeout_ms: u64, auth_cooldown_secs: u64, pruned: Seq<String>) -> JsonV {
    JsonV::Object(Map::empty()
        .insert("models"@, JsonV::Array(models.map_values(|s: ModelSnapshot| model_stats_entry(s))))
        .insert("keys"@, JsonV::Array(keys.map_values(|k: KeyStatus| key_stats(k))))
        .insert("racing_models"@, JsonV::Array(racing.map_values(|m: String| JsonV::Str(m@))))
        .insert("racing_max_parallel"@, number_json(max_parallel as nat))
        .insert("racing_timeout_ms"@, number_json(timeout_ms as nat))
        .insert("auth_failure_cooldown_secs"@, number_json(auth_cooldown_secs as nat))
        .insert("pruned_models"@, texts_json(ids(pruned))))
}

/// The stats entry of one model (see [`model_stats_entry`]).
fn model_stats_json(s: &ModelSnapshot) -> (r: Json)
    ensures
        r@ == model_stats_entry(*s),
{
    let mut o = empty_object();
    o.set_field("model", Json::Str(s.id.clone()));
    match s.p95_ms {
        Some(p) => o.set_field("p95_ms", Json::Number(decimal_string(p))),
        None => o.set_field("p95_ms", Json::Null),
    }
    o.set_field("total", Json::Number(decimal_string(s.total)));
    o.set_field("success", Json::Number(decimal_string(s.success)));
    o.set_field("sample_count", Json::Number(decimal_string(s.sample_count as u64)));
    o.set_field("consecutive_failures", Json::Number(decimal_string(s.consecutive_failures as u64)));
    o.set_field("degraded", Json::Bool(s.degraded));
    o
}

/// The stats report (see [`stats_spec`]).
pub fn stats_report(models: &Vec<ModelSnapshot>, keys: &Vec<KeyStatus>, racing: &Vec<String>, max_parallel: usize,
    timeout_ms: u64, auth_cooldown_secs: u64, pruned: &Vec<String>) -> (r: Json)
    ensures
        r@ == stats_spec(models@, keys@, racing@, max_parallel, timeout_ms, auth_cooldown_secs, pruned@),
{
    let mut model_rows: Vec<Json> = Vec::new();
    let mut i: usize = 0;
    while i < models.len()
        invariant
            i <= models@.len(),
            items_view(model_rows@) == models@.take(i as int).map_values(|s: ModelSnapshot| model_stats_entry(s)),
        decreases models@.len() - i,
    {
        let ghost before = items_view(model_rows@);
        model_rows.push(model_stats_json(&models[i]));
        proof {
            assert(items_view(model_rows@) =~= before.push(model_stats_entry(models@[i as int])));
            assert(models@.take(i + 1).map_values(|s: ModelSnapshot| model_stats_entry(s))
                =~= models@.take(i as int).map_values(|s: ModelSnapshot| model_stats_entry(s)).push(model_stats_entry(models@[i as int])));
        }
        i = i + 1;
    }
    assert(models@.take(i as int) =~= models@);
    let mut key_rows: Vec<Json> = Vec::new();
    let mut j: usize = 0;
    while j < keys.len()
        invariant
            j <= keys@.len(),
            items_view(key_rows@) == keys@.take(j as int).map_values(|k: KeyStatus| key_stats(k)),
        decreases keys@.len() - j,
    {
        let ghost before = items_view(key_rows@);
        let mut row = key_health_json(&keys[j]);
        row.set_field("auth_failures", Json::Number(decimal_string(keys[j].auth_failures)));
        key_rows.push(row);
        proof {
            assert(items_view(key_rows@) =~= before.push(key_stats(keys@[j as int])));
            assert(keys@.take(j + 1).map_values(|k: KeyStatus| key_stats(k))
                =~= keys@.take(j as int).map_values(|k: KeyStatus| key_stats(k)).push(key_stats(keys@[j as int])));
        }
        j = j + 1;
    }
    assert(keys@.take(j as int) =~= keys@);
    let mut racing_rows: Vec<Json> = Vec::new();
    let mut k: usize = 0;
    while k < racing.len()
        invariant
            k <= racing@.len(),
            items_view(racing_rows@) == racing@.take(k as int).map_values(|m: String| JsonV::Str(m@)),
        decreases racing@.len() - k,
    {
        let ghost before = items_view(racing_rows@);
        racing_rows.push(Json::Str(racing[k].clone()));
        proof {
            assert(items_view(racing_rows@) =~= before.push(JsonV::Str(racing@[k as int]@)));
            assert(racing@.take(k + 1).map_values(|m: String| JsonV::Str(m@))
                =~= racing@.take(k as int).map_values(|m: String| JsonV::Str(m@)).push(JsonV::Str(racing@[k as int]@)));
        }
        k = k + 1;
    }
    assert(racing@.take(k as int) =~= racing@);
    let mut o = empty_object();
    let a = Json::Array(model_rows);
    proof { lemma_view_shapes(a); }
    o.set_field("models", a);
    let b = Json::Array(key_rows);
    proof { lemma_view_shapes(b); }
    o.set_field("keys", b);
    let c = Json::Array(racing_rows);
    proof { lemma_view_shapes(c); }
    o.set_field("racing_models", c);
    o.set_field("racing_max_parallel", Json::Number(decimal_string(max_parallel as u64)));
    o.set_field("racing_timeout_ms", Json::Number(decimal_string(timeout_ms)));
    o.set_field("auth_failure_cooldown_secs", Json::Number(decimal_string(auth_cooldown_secs)));
    o.set_field("pruned_models", texts_to_json(pruned.as_slice()));
    o
}

} // verus!
