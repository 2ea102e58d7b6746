use nimaproxy::config::{KeyEntry, ModelCompat, ModelParams};
use nimaproxy::dispatch::{
    after_chat_response, after_legacy_response, after_race_response, assign_racer_keys,
    classify_upstream, health_report, model_before_routing, plan_race, race_failure_text,
    racer_body, racer_request, record_completion, record_keyed, record_racer,
    settle_lost_race, tally_racer, models_listing, RaceTally, RacerReply,
    next_attempt, retry_after_secs, retry_budget, should_race, stats_report, AttemptStep, ChatAction,
    Forwarded, RaceVerdict, UpstreamVerdict, MAX_RETRIES,
};
use nimaproxy::gateway::{collect_configured_models, push_unique_model, AppState, GatewayMetrics};
use nimaproxy::json::Json;
use nimaproxy::model_refresh::{catalog_ids_checked, model_ids_from_catalog, recheck_models};
use nimaproxy::model_router::{ModelRouter, Strategy};
use nimaproxy::model_stats::ModelStatsStore;
use nimaproxy::request::{resolve_body, resolve_model, resolve_model_checked};
use serde_json::Value;

fn to_json(v: &Value) -> Json {
    match v {
        Value::Null => Json::Null,
        Value::Bool(b) => Json::Bool(*b),
        Value::Number(n) => Json::Number(n.to_string()),
        Value::String(s) => Json::Str(s.clone()),
        Value::Array(a) => Json::Array(a.iter().map(to_json).collect()),
        Value::Object(m) => Json::Object(m.iter().map(|(k, v)| (k.clone(), to_json(v))).collect()),
    }
}

fn from_json(j: &Json) -> Value {
    match j {
        Json::Null => Value::Null,
        Json::Bool(b) => Value::Bool(*b),
        Json::Number(t) => serde_json::from_str(t).unwrap(),
        Json::Str(s) => Value::String(s.clone()),
        Json::Array(a) => Value::Array(a.iter().map(from_json).collect()),
        Json::Object(m) => {
            let mut out = serde_json::Map::new();
            for (k, v) in m {
                if !out.contains_key(k) {
                    out.insert(k.clone(), from_json(v));
                }
            }
            Value::Object(out)
        }
    }
}

fn parse(text: &str) -> Json {
    to_json(&serde_json::from_str::<Value>(text).unwrap())
}

fn strings(v: &[&str]) -> Vec<String> {
    v.iter().map(|s| s.to_string()).collect()
}

fn keys(n: usize) -> Vec<KeyEntry> {
    (0..n).map(|i| KeyEntry { key: format!("key-{}", i), label: Some(format!("k{}", i)) }).collect()
}

fn state(n_keys: usize, router: Option<ModelRouter>, racing: Vec<String>, max_parallel: usize) -> AppState {
    AppState::new(
        keys(n_keys),
        "https://t".to_string(),
        router,
        ModelStatsStore::new(3000),
        racing,
        max_parallel,
        8000,
        "complete".to_string(),
        vec![],
        ModelCompat::default(),
    )
}

#[test]
fn retry_budget_is_between_one_and_max() {
    assert_eq!(retry_budget(0), 1);
    assert_eq!(retry_budget(3), 3);
    assert_eq!(retry_budget(100), MAX_RETRIES);
}

#[test]
fn model_before_routing_reads_model_field() {
    assert_eq!(model_before_routing(Some(&parse(r#"{"model":"auto"}"#))), "auto");
    assert_eq!(model_before_routing(Some(&parse(r#"{"model":5}"#))), "");
    assert_eq!(model_before_routing(None), "");
}

#[test]
fn racing_needs_auto_and_two_models() {
    let st = state(1, None, strings(&["a", "b"]), 3);
    assert!(should_race("auto", &st));
    assert!(should_race("nimaproxy/auto", &st));
    assert!(!should_race("a", &st));
    let st = state(1, None, strings(&["a"]), 3);
    assert!(!should_race("auto", &st));
}

#[test]
fn upstream_verdicts() {
    assert_eq!(retry_after_secs(Some("17")), 17);
    assert_eq!(retry_after_secs(Some("soon")), 60);
    assert_eq!(retry_after_secs(None), 60);
    assert_eq!(classify_upstream(429, Some("5"), ""), UpstreamVerdict::RateLimited { retry_after_secs: 5 });
    assert_eq!(classify_upstream(400, None, "function DEGRADED"), UpstreamVerdict::ServerDegraded);
    assert_eq!(classify_upstream(400, None, "Invalid assistant message"), UpstreamVerdict::InvalidAssistant);
    assert_eq!(classify_upstream(400, None, "bad request"), UpstreamVerdict::Deliver);
    assert_eq!(classify_upstream(500, None, "DEGRADED"), UpstreamVerdict::Deliver);
    assert_eq!(classify_upstream(200, None, "ok"), UpstreamVerdict::Deliver);
}

#[test]
fn chat_response_rate_limit_cools_key() {
    let mut st = state(2, None, vec![], 3);
    let a = after_chat_response(&mut st, "m", 0, 429, Some("30"), "", 10, false);
    assert_eq!(a, ChatAction::Retry);
    let (_k, idx) = st.pool.next_key().unwrap();
    assert_eq!(idx, 1);
    assert!(st.model_stats.snapshot().is_empty());
}

#[test]
fn chat_response_degraded_marks_model() {
    let mut st = state(1, None, vec![], 3);
    let a = after_chat_response(&mut st, "m", 0, 400, None, "DEGRADED function", 10, false);
    assert_eq!(a, ChatAction::Retry);
    let snap = st.model_stats.snapshot();
    assert_eq!(snap.len(), 1);
    assert!(snap[0].degraded);
    assert_eq!(snap[0].total, 0);
}

#[test]
fn chat_response_delivered_is_recorded() {
    let mut st = state(1, None, vec![], 3);
    let body = r#"{"usage":{"completion_tokens":7},"choices":[]}"#;
    let a = after_chat_response(&mut st, "m", 0, 200, None, body, 120, false);
    assert_eq!(a, ChatAction::Deliver);
    let snap = st.model_stats.snapshot();
    assert_eq!(snap[0].total, 1);
    assert_eq!(snap[0].success, 1);
    assert_eq!(snap[0].latency_sum_ms, 120);
}

#[test]
fn keyed_and_completion_records() {
    let mut st = state(1, None, vec![], 3);
    record_keyed(&mut st, "m", 0, 50, false);
    record_keyed(&mut st, "m", 0, 50, false);
    let summary = st.model_stats.get_key_failure_summary();
    assert_eq!(summary, vec![("m".to_string(), vec![("k0".to_string(), 2)])]);
    // a key that does not exist is not counted
    record_keyed(&mut st, "m", 9, 50, false);
    assert_eq!(st.model_stats.get_key_failure_summary()[0].1, vec![("k0".to_string(), 2)]);
    // output metrics go through the circuit breaker record
    record_completion(&mut st, "n", 0, 10, true, (5, 0, false));
    assert!(st.model_stats.get_key_failure_summary().iter().all(|(m, _)| m != "n"));
    record_completion(&mut st, "n", 0, 10, true, (0, 0, false));
    assert!(st.model_stats.get_key_failure_summary().iter().any(|(m, _)| m == "n"));
}

#[test]
fn race_plan_rotates_and_checks() {
    let mut st = state(3, None, strings(&["a", "b", "c"]), 2);
    let models = strings(&["a", "b", "c"]);
    assert_eq!(plan_race(&mut st, &models).unwrap(), strings(&["a", "b"]));
    assert_eq!(st.racing_cursor, 2);
    assert_eq!(plan_race(&mut st, &models).unwrap(), strings(&["c", "a"]));
    assert_eq!(st.racing_cursor, 1);

    let mut narrow = state(3, None, strings(&["a", "b"]), 1);
    assert_eq!(
        plan_race(&mut narrow, &strings(&["a", "b"])),
        Err((400, "racing requires at least 2 models".to_string()))
    );
    assert_eq!(narrow.racing_cursor, 0);

    let mut st = state(3, None, strings(&["a", "b"]), 2);
    st.model_stats.record_server_degraded("a");
    assert_eq!(
        plan_race(&mut st, &strings(&["a", "b"])),
        Err((502, "not enough viable racing models".to_string()))
    );
}

#[test]
fn racer_request_sets_model_and_params() {
    let mut st = state(1, None, vec![], 2);
    st.model_params = vec![(
        "m1".to_string(),
        ModelParams { max_tokens: Some(Json::Number("64".to_string())), ..Default::default() },
    )];
    let req = racer_request(parse(r#"{"model":"auto","messages":[{"role":"developer","content":"x"}]}"#), "m1", &st);
    let v = from_json(&req);
    assert_eq!(v["model"], "m1");
    assert_eq!(v["max_tokens"], 64);
    assert_eq!(v["messages"][0]["role"], "user");
}

#[test]
fn race_responses() {
    let mut st = state(2, None, vec![], 2);
    let (v, e) = after_race_response(&mut st, "m", 429, 1);
    assert_eq!(v, RaceVerdict::RateLimited);
    assert_eq!(e, Some("429 rate-limited (key 1)".to_string()));
    // a 429 alone cools nothing: the race decides
    assert!(st.pool.status().iter().all(|s| s.active));
    let (v, e) = after_race_response(&mut st, "m", 503, 0);
    assert_eq!(v, RaceVerdict::Rejected);
    assert_eq!(e, Some("HTTP 503 from m".to_string()));
    let (v, _) = after_race_response(&mut st, "m", 302, 0);
    assert_eq!(v, RaceVerdict::Rejected);
    let (v, e) = after_race_response(&mut st, "m", 200, 0);
    assert_eq!(v, RaceVerdict::Winner);
    assert_eq!(e, None);
    let (v, e) = after_race_response(&mut st, "m", 401, 1);
    assert_eq!(v, RaceVerdict::AuthFailed);
    assert_eq!(e, Some("HTTP 401 from m".to_string()));
    let status = st.pool.status();
    assert!(!status[1].active);
    assert_eq!(status[1].auth_failures, 1);
    assert_eq!(race_failure_text(None), "all racing models failed");
    assert_eq!(race_failure_text(Some("timeout after 5ms".to_string())), "timeout after 5ms");
}

#[test]
fn lost_race_settles() {
    let mut st = state(3, None, vec![], 2);
    // every racer rate-limited: 429, and their keys cool down
    let mut tally = RaceTally::new();
    assert!(!tally_racer(&mut st, &mut tally, "a", RacerReply::Answered { status: 429, key_idx: 0, retry_after_secs: 30 }));
    assert!(!tally_racer(&mut st, &mut tally, "b", RacerReply::Answered { status: 429, key_idx: 2, retry_after_secs: 30 }));
    assert!(st.pool.status().iter().all(|k| k.active));
    assert_eq!(tally.losers, 2);
    let (code, msg) = settle_lost_race(&mut st, tally);
    assert_eq!(code, 429);
    assert_eq!(msg, "429 rate-limited (key 2)");
    let status = st.pool.status();
    assert!(!status[0].active && status[1].active && !status[2].active);
    // one racer failed otherwise: 502 with its error
    let mut st = state(3, None, vec![], 2);
    let mut tally = RaceTally::new();
    tally_racer(&mut st, &mut tally, "a", RacerReply::Answered { status: 429, key_idx: 0, retry_after_secs: 30 });
    tally_racer(&mut st, &mut tally, "b", RacerReply::Failed { error: "timeout after 5ms".to_string() });
    let (code, msg) = settle_lost_race(&mut st, tally);
    assert_eq!(code, 502);
    assert_eq!(msg, "timeout after 5ms");
    // a winner ends the race with no key cooled, though another racer answered 429
    let mut st = state(2, None, vec![], 2);
    let mut tally = RaceTally::new();
    tally_racer(&mut st, &mut tally, "a", RacerReply::Answered { status: 429, key_idx: 0, retry_after_secs: 30 });
    assert!(tally_racer(&mut st, &mut tally, "b", RacerReply::Answered { status: 200, key_idx: 1, retry_after_secs: 60 }));
    assert!(st.pool.status().iter().all(|k| k.active));
    assert_eq!(tally.losers, 1);
    // nothing lost at all
    let mut st = state(1, None, vec![], 2);
    assert_eq!(settle_lost_race(&mut st, RaceTally::new()), (502, "all racing models failed".to_string()));
}

#[test]
fn racer_picks_rotate_and_skip_cooling_keys() {
    let mut st = state(3, None, vec![], 2);
    st.pool.mark_rate_limited(1, 60);
    let v = assign_racer_keys(&mut st, &strings(&["a", "b", "c"])).ok().unwrap();
    let picked: Vec<usize> = v.iter().map(|r| r.idx).collect();
    // each racer probes from the next position: 0; 1 is cooling, so 2; 2
    assert_eq!(picked, vec![0, 2, 2]);
    // the cursor moved once per racer: the next pick starts at position 3, that is key 0
    let next = assign_racer_keys(&mut st, &strings(&["d"])).ok().unwrap();
    assert_eq!(next[0].idx, 0);
}

#[test]
fn models_listed_from_configuration() {
    let st = state(0, None, strings(&["model-a", "model-b"]), 2);
    let v = from_json(&models_listing(&st).unwrap());
    let ids: Vec<&str> = v["data"].as_array().unwrap().iter().map(|m| m["id"].as_str().unwrap()).collect();
    assert_eq!(ids, vec!["model-a", "model-b"]);
    assert_eq!(v["object"], "list");
    let router = ModelRouter::new(strings(&["router-a", "router-b"]), Strategy::RoundRobin);
    let st = state(0, Some(router), vec![], 2);
    let v = from_json(&models_listing(&st).unwrap());
    let ids: Vec<&str> = v["data"].as_array().unwrap().iter().map(|m| m["id"].as_str().unwrap()).collect();
    assert_eq!(ids, vec!["router-a", "router-b"]);
    assert!(models_listing(&state(1, None, vec![], 2)).is_none());
}

#[test]
fn racers_get_keys() {
    let mut st = state(2, None, vec![], 2);
    let v = assign_racer_keys(&mut st, &strings(&["a", "b", "c"])).ok().unwrap();
    let picked: Vec<(String, usize)> = v.iter().map(|r| (r.model.clone(), r.idx)).collect();
    assert_eq!(picked, vec![("a".to_string(), 0), ("b".to_string(), 1), ("c".to_string(), 0)]);
    assert_eq!(v[1].label, Some("k1".to_string()));
    assert_eq!(v[1].key, "key-1");
    st.pool.mark_rate_limited(0, 60);
    st.pool.mark_rate_limited(1, 60);
    match assign_racer_keys(&mut st, &strings(&["a", "b"])) {
        Err((code, msg)) => {
            assert_eq!(code, 429);
            assert_eq!(msg, "all API keys rate-limited");
        }
        Ok(_) => panic!("no key is free"),
    }
    match assign_racer_keys(&mut st, &[]) {
        Err((code, _)) => assert_eq!(code, 400),
        Ok(_) => panic!("no racer"),
    }
}

#[test]
fn racer_bodies() {
    let st = state(1, None, vec![], 2);
    assert_eq!(racer_body(b"[1]", "m", &st), None);
    assert_eq!(racer_body(b"not json", "m", &st), Some(None));
    let t = racer_body(br#"{"model":"auto"}"#, "m1", &st).unwrap().unwrap();
    let v: Value = serde_json::from_str(&t).unwrap();
    assert_eq!(v["model"], "m1");
}

#[test]
fn auth_failures_quarantine_keys() {
    let mut st = state(2, None, vec![], 2);
    let a = after_chat_response(&mut st, "m", 0, 401, None, "unauthorized", 10, false);
    assert_eq!(a, ChatAction::RetryHolding);
    let status = st.pool.status();
    assert!(!status[0].active);
    assert_eq!(status[0].auth_failures, 1);
    assert!(st.model_stats.snapshot().is_empty());
    // the next attempt goes to the other key
    match next_attempt(&mut st, 1, 2, Forwarded::Chat, true) {
        AttemptStep::Send { idx, .. } => assert_eq!(idx, 1),
        _ => panic!("key 1 is free"),
    }
    let a = after_legacy_response(&mut st, "m", 1, 403, "forbidden", 10, true);
    assert_eq!(a, ChatAction::RetryHolding);
    // no key left: the held answer goes to the client
    assert!(matches!(next_attempt(&mut st, 2, 8, Forwarded::Legacy, true), AttemptStep::DeliverHeld));
    // a zero cooldown counts the failure without quarantine
    let mut st = state(1, None, vec![], 2);
    st.auth_failure_cooldown_secs = 0;
    after_legacy_response(&mut st, "m", 0, 401, "", 10, false);
    assert!(st.pool.status()[0].active);
    assert_eq!(st.pool.status()[0].auth_failures, 1);
}

#[test]
fn legacy_answers_are_recorded() {
    let mut st = state(1, None, vec![], 2);
    let a = after_legacy_response(&mut st, "m", 0, 500, "oops", 10, false);
    assert_eq!(a, ChatAction::Deliver);
    let snap = st.model_stats.snapshot();
    assert_eq!(snap[0].total, 1);
    assert_eq!(snap[0].success, 0);
}

#[test]
fn degraded_auto_request_is_rerouted() {
    let router = ModelRouter::new(strings(&["model-a", "model-b"]), Strategy::RoundRobin);
    let mut st = state(2, Some(router), vec![], 2);
    let body = br#"{"model":"auto","messages":[{"role":"user","content":"test"}]}"#;
    let (m, _) = resolve_body(body, &mut st).unwrap();
    assert_eq!(m, "model-a");
    let a = after_chat_response(&mut st, &m, 0, 400, None, r#"{"status":400,"detail":"DEGRADED function cannot be invoked"}"#, 10, true);
    assert_eq!(a, ChatAction::Reroute);
    let (m, t) = resolve_body(body, &mut st).unwrap();
    assert_eq!(m, "model-b");
    let v: Value = serde_json::from_str(&t.unwrap()).unwrap();
    assert_eq!(v["model"], "model-b");
    assert!(st.model_stats.snapshot().iter().any(|s| s.id == "model-a" && s.degraded));
    // not JSON: forwarded as it is, for model `unknown`
    assert_eq!(resolve_body(b"xyz", &mut st), Some(("unknown".to_string(), None)));
}

#[test]
fn health_report_counts_active_keys() {
    let mut st = state(2, None, vec![], 2);
    st.pool.mark_rate_limited(0, 60);
    let v = from_json(&health_report(&st.pool.status(), &st));
    assert_eq!(v["status"], "UP");
    assert_eq!(v["keys_total"], 2);
    assert_eq!(v["keys_active"], 1);
    assert_eq!(v["keys"][0]["active"], false);
    assert_eq!(v["keys"][1]["label"], "k1");
    st.pool.mark_rate_limited(1, 60);
    let v = from_json(&health_report(&st.pool.status(), &st));
    assert_eq!(v["status"], "DEGRADED");
}

#[test]
fn stats_report_lists_models_keys_and_racing() {
    let mut st = state(1, None, strings(&["r1", "r2"]), 4);
    st.model_stats.record("m", 100, true);
    st.model_stats.record("m", 300, true);
    let v = from_json(&stats_report(&st.model_stats.snapshot(), &st.pool.status(), &st.racing_models, st.racing_max_parallel, st.racing_timeout_ms, 900, &strings(&["gone"])));
    assert_eq!(v["auth_failure_cooldown_secs"], 900);
    assert_eq!(v["pruned_models"], serde_json::from_str::<Value>(r#"["gone"]"#).unwrap());
    assert_eq!(v["keys"][0]["auth_failures"], 0);
    assert_eq!(v["models"][0]["model"], "m");
    assert_eq!(v["models"][0]["p95_ms"], 300);
    assert_eq!(v["models"][0]["total"], 2);
    assert_eq!(v["models"][0]["degraded"], false);
    assert_eq!(v["keys"][0]["label"], "k0");
    assert_eq!(v["racing_models"], serde_json::from_str::<Value>(r#"["r1","r2"]"#).unwrap());
    assert_eq!(v["racing_max_parallel"], 4);
    assert_eq!(v["racing_timeout_ms"], 8000);
}

#[test]
fn resolve_auto_uses_router() {
    let router = ModelRouter::new(strings(&["x", "y"]), Strategy::RoundRobin);
    let mut st = state(1, Some(router), vec![], 2);
    let (m, j) = resolve_model(parse(r#"{"model":"auto","messages":[]}"#), &mut st);
    assert_eq!(m, "x");
    assert_eq!(from_json(&j)["model"], "x");
    let (m, _) = resolve_model(parse(r#"{"model":"","messages":[]}"#), &mut st);
    assert_eq!(m, "y");
    let (m, _) = resolve_model(parse(r#"{"model":"z","messages":[]}"#), &mut st);
    assert_eq!(m, "z");
    let (m, _) = resolve_model(parse(r#"{"messages":[]}"#), &mut st);
    assert_eq!(m, "x");
}

#[test]
fn resolve_without_router_keeps_model() {
    let mut st = state(1, None, vec![], 2);
    let (m, _) = resolve_model(parse(r#"{"model":"auto"}"#), &mut st);
    assert_eq!(m, "auto");
    let (m, _) = resolve_model(parse(r#"{"messages":[]}"#), &mut st);
    assert_eq!(m, "unknown");
    assert!(resolve_model_checked(parse(r#"[1,2]"#), &mut st).is_some());
    let router = ModelRouter::new(strings(&["x"]), Strategy::RoundRobin);
    let mut st = state(1, Some(router), vec![], 2);
    assert!(resolve_model_checked(parse(r#"[1,2]"#), &mut st).is_none());
}

#[test]
fn resolve_applies_requested_model_params() {
    let mut st = state(1, None, vec![], 2);
    st.model_params = vec![(
        "m".to_string(),
        ModelParams {
            temperature: Some(Json::Number("0.5".to_string())),
            chat_template_kwargs: Some(vec![
                ("thinking".to_string(), Json::Bool(true)),
                ("continue_final_message".to_string(), Json::Bool(false)),
            ]),
            ..Default::default()
        },
    )];
    let (_, j) = resolve_model(parse(r#"{"model":"m","messages":[{"role":"user","content":"a"}]}"#), &mut st);
    let v = from_json(&j);
    assert_eq!(v["temperature"], 0.5);
    assert_eq!(v["thinking"], true);
    assert!(v.get("continue_final_message").is_none());
}

#[test]
fn gateway_metrics_counters() {
    let mut m = GatewayMetrics::new();
    m.record_request(true);
    m.record_request(false);
    m.record_fanout(3);
    m.record_fanout(5);
    m.record_racing_win("a");
    m.record_racing_win("b");
    m.record_racing_win("a");
    m.record_upstream_start();
    m.record_upstream_finish();
    m.record_upstream_finish();
    m.record_overload();
    m.record_no_key();
    m.record_timeout();
    m.record_rate_limit();
    m.record_solo_fallback();
    m.record_sequential_fallback();
    m.record_all_racers_failed();
    m.record_deadline_exceeded();
    let s = m.snapshot();
    assert_eq!(s.request_total, 2);
    assert_eq!(s.racing_requests, 1);
    assert_eq!(s.direct_requests, 1);
    assert_eq!(s.fanout_total, 8);
    assert_eq!(s.fanout_samples, 2);
    assert_eq!(s.racing_wins, vec![("a".to_string(), 2), ("b".to_string(), 1)]);
    assert_eq!(s.upstream_attempts, 1);
    assert_eq!(m.upstream_in_flight(), u64::MAX);
    assert_eq!(s.overload_rejects + s.no_key_rejects + s.timeout_count + s.rate_limit_count, 4);
    assert_eq!(s.solo_fallbacks + s.sequential_fallbacks + s.racing_all_failed + s.racing_deadline_exceeded, 4);
}

#[test]
fn configured_models_once_each() {
    let mut v = strings(&["a"]);
    push_unique_model(&mut v, "a");
    push_unique_model(&mut v, "");
    push_unique_model(&mut v, "b");
    assert_eq!(v, strings(&["a", "b"]));
    let router = ModelRouter::new(strings(&["r", "s"]), Strategy::RoundRobin);
    let all = collect_configured_models(Some(&router), &strings(&["s", "t"]), &strings(&["u", "r"]));
    assert_eq!(all, strings(&["r", "s", "t", "u"]));
    let st = state(1, Some(ModelRouter::new(strings(&["r"]), Strategy::RoundRobin)), strings(&["q", "r"]), 2);
    assert_eq!(st.available_models, strings(&["r", "q"]));
    assert_eq!(st.configured_models(), strings(&["r", "q"]));
    assert!(st.routing_enabled());
    assert!(st.racing_enabled());
}

#[test]
fn catalog_ids_and_recheck() {
    let body = parse(r#"{"data":[{"id":"a"},{"id":"b"},{"id":"a"},{"x":1}]}"#);
    assert_eq!(model_ids_from_catalog(&body), strings(&["a", "b"]));
    assert_eq!(catalog_ids_checked(&body, "u").unwrap(), strings(&["a", "b"]));
    assert_eq!(
        catalog_ids_checked(&parse(r#"{"data":[]}"#), "https://h/v1/models"),
        Err("upstream https://h/v1/models returned an empty model list".to_string())
    );

    let router = ModelRouter::new(strings(&["a", "gone"]), Strategy::RoundRobin);
    let mut st = state(1, Some(router), strings(&["b", "lost"]), 2);
    let missing = recheck_models(&mut st, &strings(&["a", "b"]));
    assert_eq!(missing, strings(&["gone", "lost"]));
    let snap = st.model_stats.snapshot();
    assert_eq!(snap.len(), 2);
    assert!(snap.iter().all(|s| s.degraded && s.consecutive_failures == 3));
}

#[test]
fn attempts_pick_keys_until_budget_or_cooldown() {
    let mut st = state(2, None, vec![], 2);
    match next_attempt(&mut st, 0, 2, Forwarded::Chat, false) {
        AttemptStep::Send { key, idx } => {
            assert_eq!(idx, 0);
            assert_eq!(key, "key-0");
        }
        _ => panic!("a key is free"),
    }
    match next_attempt(&mut st, 2, 2, Forwarded::Chat, false) {
        AttemptStep::Refuse { status, message } => {
            assert_eq!(status, 429);
            assert_eq!(message, "all keys exhausted after retries");
        }
        _ => panic!("budget spent"),
    }
    st.pool.mark_rate_limited(0, 60);
    st.pool.mark_rate_limited(1, 60);
    match next_attempt(&mut st, 0, 2, Forwarded::Chat, false) {
        AttemptStep::Refuse { status, message } => {
            assert_eq!(status, 429);
            assert_eq!(message, "all API keys rate-limited");
        }
        _ => panic!("keys are cooling"),
    }
    match next_attempt(&mut st, 0, 2, Forwarded::Legacy, false) {
        AttemptStep::Refuse { message, .. } => assert_eq!(message, "all keys rate-limited"),
        _ => panic!("keys are cooling"),
    }
}

#[test]
fn test_health_exposes_routing_and_racing_metadata() {
    let router = ModelRouter::new(vec!["router-a".to_string()], Strategy::RoundRobin);
    let st = AppState::new(
        vec![KeyEntry { key: "test-key".to_string(), label: Some("test".to_string()) }],
        "http://example.invalid".to_string(),
        Some(router),
        ModelStatsStore::new(3000),
        vec!["race-a".to_string(), "race-b".to_string()],
        2,
        5000,
        "complete".to_string(),
        vec![],
        ModelCompat::default(),
    );
    let v = from_json(&health_report(&st.pool.status(), &st));
    assert_eq!(v["routing_enabled"], true);
    assert_eq!(v["racing_enabled"], true);
    assert_eq!(v["routing_models"], serde_json::from_str::<Value>(r#"["router-a"]"#).unwrap());
    assert_eq!(v["racing_models"], serde_json::from_str::<Value>(r#"["race-a","race-b"]"#).unwrap());
    assert_eq!(v["status"], "UP");
    assert_eq!(v["keys_total"], 1);
    assert_eq!(v["keys_active"], 1);
}

#[test]
fn auth_statuses_classified() {
    assert_eq!(classify_upstream(401, None, ""), UpstreamVerdict::AuthFailed);
    assert_eq!(classify_upstream(403, None, "DEGRADED"), UpstreamVerdict::AuthFailed);
}
