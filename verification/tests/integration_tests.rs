use nimaproxy::config::{KeyEntry, ModelCompat, ModelParams};
use nimaproxy::gateway::AppState;
use nimaproxy::json::Json;
use nimaproxy::key_pool::KeyPool;
use nimaproxy::model_router::{ModelRouter, Strategy};
use nimaproxy::model_stats::{CircuitBreakerConfig, ModelStatsStore};
use nimaproxy::request::validate_model_exists;
use nimaproxy::test_utils::{
    create_model_with_params, create_racing_scenario, create_strategy_test, create_test_key_pool,
    create_test_model_stats, create_test_state, MockAppStateBuilder,
};

fn make_key_pool() -> KeyPool {
    let keys = vec![
        KeyEntry { key: "test-key-1".to_string(), label: Some("test1".to_string()) },
        KeyEntry { key: "test-key-2".to_string(), label: Some("test2".to_string()) },
    ];
    KeyPool::new(keys)
}

fn make_stats() -> ModelStatsStore {
    ModelStatsStore::new(3000)
}

fn make_router() -> ModelRouter {
    ModelRouter::new(vec!["nvidia/test-model".to_string()], Strategy::RoundRobin)
}

fn state_with(keys: Vec<KeyEntry>, router: Option<ModelRouter>, max_parallel: usize, timeout: u64, strategy: &str, compat: ModelCompat) -> AppState {
    AppState::new(
        keys,
        "https://test.com".to_string(),
        router,
        make_stats(),
        vec![],
        max_parallel,
        timeout,
        strategy.to_string(),
        vec![],
        compat,
    )
}

#[test]
fn test_model_params_get_helper() {
    let params_empty = ModelParams::default();
    assert!(params_empty.get("any_key").is_none());

    let kwargs = vec![
        ("test_key".to_string(), Json::Str("test_value".to_string())),
        ("number_key".to_string(), Json::Number("42".to_string())),
    ];
    let params_with_kwargs = ModelParams { chat_template_kwargs: Some(kwargs), ..Default::default() };

    let result = params_with_kwargs.get("test_key");
    assert!(result.is_some());
    assert_eq!(result.unwrap().as_text().map(|s| s.as_str()), Some("test_value"));

    let result = params_with_kwargs.get("number_key");
    assert!(result.is_some());
    assert!(matches!(result.unwrap(), Json::Number(t) if t == "42"));

    let result = params_with_kwargs.get("nonexistent");
    assert!(result.is_none());
}

#[test]
fn test_model_stats_circuit_breaker_config_getter() {
    let store_default = ModelStatsStore::new(3000);
    let config = store_default.circuit_breaker_config();
    assert_eq!(config.max_output_tokens, 32000);
    assert_eq!(config.max_repetitions, 5);
    assert_eq!(config.max_consecutive_assistant_turns, 10);

    let custom_config = CircuitBreakerConfig {
        max_output_tokens: 16000,
        max_repetitions: 3,
        max_consecutive_assistant_turns: 5,
    };
    let store_custom = ModelStatsStore::with_circuit_breaker(3000, custom_config.clone());
    let retrieved = store_custom.circuit_breaker_config();
    assert_eq!(retrieved.max_output_tokens, custom_config.max_output_tokens);
    assert_eq!(retrieved.max_repetitions, custom_config.max_repetitions);
    assert_eq!(retrieved.max_consecutive_assistant_turns, custom_config.max_consecutive_assistant_turns);
}

#[test]
fn test_model_stats_best_model_empty_candidates() {
    let stats = ModelStatsStore::new(3000);
    let result = stats.best_model(&[]);
    assert!(result.is_none());
}

#[test]
fn test_model_stats_best_model_all_degraded() {
    let mut stats = ModelStatsStore::new(3000);
    for _ in 0..5 {
        stats.record("degraded-model-1", 5000, false);
        stats.record("degraded-model-2", 6000, false);
    }
    let result = stats.best_model(&["degraded-model-1".to_string(), "degraded-model-2".to_string()]);
    assert!(result.is_some());
}

#[test]
fn test_mock_app_state_builder_custom_racing_models() {
    let custom_models = vec![
        "meta/llama-3.1-405b-instruct".to_string(),
        "nvidia/nemotron-4-340b-instruct".to_string(),
    ];
    let state = MockAppStateBuilder::new()
        .with_custom_racing_models(custom_models.clone())
        .build();
    assert_eq!(state.racing_models.len(), 2);
    assert_eq!(state.racing_models, custom_models);
}

#[test]
fn test_mock_app_state_builder_custom_keys() {
    let custom_keys = vec![
        KeyEntry { key: "custom-key-1".to_string(), label: Some("custom-1".to_string()) },
        KeyEntry { key: "custom-key-2".to_string(), label: None },
    ];
    let state = MockAppStateBuilder::new().with_custom_keys(custom_keys).build();
    assert_eq!(state.pool.len(), 2);
}

#[test]
fn test_mock_app_state_builder_with_model_param() {
    let model_params = ModelParams {
        temperature: Some(Json::Number("0.7".to_string())),
        top_p: Some(Json::Number("0.9".to_string())),
        max_tokens: Some(Json::Number("2048".to_string())),
        ..Default::default()
    };
    let state = MockAppStateBuilder::new()
        .with_model_param("test-model", model_params)
        .build();
    let params = nimaproxy::request::find_params_pub(&state.model_params, "test-model");
    assert!(params.is_some());
    let params = params.unwrap();
    assert!(matches!(&params.temperature, Some(Json::Number(t)) if t == "0.7"));
    assert!(matches!(&params.top_p, Some(Json::Number(t)) if t == "0.9"));
    assert!(matches!(&params.max_tokens, Some(Json::Number(t)) if t == "2048"));
}

#[test]
fn test_mock_app_state_builder_with_model_compat() {
    let compat = ModelCompat {
        supports_developer_role: Some(vec!["model1".to_string()]),
        supports_tool_messages: Some(vec!["model2".to_string()]),
    };
    let state = MockAppStateBuilder::new().with_model_compat(compat).build();
    assert!(!state.model_compat.should_transform_developer_role("model1"));
    assert!(!state.model_compat.should_transform_tool_messages("model2"));
}

#[test]
fn test_mock_app_state_builder_racing_config() {
    let state = MockAppStateBuilder::new()
        .with_racing_max_parallel(5)
        .with_racing_timeout_ms(10000)
        .with_racing_strategy("latency-based")
        .build();
    assert_eq!(state.racing_max_parallel, 5);
    assert_eq!(state.racing_timeout_ms, 10000);
    assert_eq!(state.racing_strategy, "latency-based");
}

#[test]
fn test_integration_key_round_robin() {
    let mut pool = make_key_pool();
    let (key1, idx1) = pool.next_key().unwrap();
    let (key2, idx2) = pool.next_key().unwrap();
    assert_ne!(idx1, idx2);
    assert!(key1.starts_with("test-key-"));
    assert!(key2.starts_with("test-key-"));
}

#[test]
fn test_integration_stats_recording() {
    let mut stats = make_stats();
    stats.record("test-model", 100, true);
    stats.record("test-model", 200, true);
    stats.record("test-model", 300, true);
    let snapshots = stats.snapshot();
    assert_eq!(snapshots.len(), 1);
    assert_eq!(snapshots[0].id, "test-model");
    assert_eq!(snapshots[0].total, 3);
    assert_eq!(snapshots[0].success, 3);
}

#[test]
fn test_integration_stats_failure_tracking() {
    let mut stats = make_stats();
    stats.record("test-model", 0, false);
    stats.record("test-model", 0, false);
    stats.record("test-model", 0, false);
    let snapshots = stats.snapshot();
    assert_eq!(snapshots[0].consecutive_failures, 3);
    assert!(snapshots[0].degraded);
}

#[test]
fn test_integration_router_pick() {
    let stats = make_stats();
    let mut router = make_router();
    let picked = router.pick(&stats);
    assert!(picked.is_some());
    assert_eq!(picked.unwrap(), "nvidia/test-model");
}

#[test]
fn test_integration_key_rate_limit() {
    let mut pool = make_key_pool();
    pool.mark_rate_limited(0, 1);
    let (key, idx) = pool.next_key().unwrap();
    assert_eq!(idx, 1);
    assert!(key.starts_with("test-key-2"));
}

#[test]
fn test_integration_latency_aware_selection() {
    let mut stats = make_stats();
    stats.record("fast-model", 100, true);
    stats.record("fast-model", 150, true);
    stats.record("fast-model", 200, true);
    stats.record("slow-model", 2000, true);
    stats.record("slow-model", 2500, true);
    stats.record("slow-model", 3000, true);
    let mut router = ModelRouter::new(
        vec!["fast-model".to_string(), "slow-model".to_string()],
        Strategy::LatencyAware,
    );
    let picked = router.pick(&stats).unwrap();
    assert_eq!(picked, "fast-model");
}

#[test]
fn test_integration_app_state_creation() {
    let keys = vec![KeyEntry { key: "key1".to_string(), label: Some("primary".to_string()) }];
    let state = AppState::new(
        keys,
        "https://api.example.com".to_string(),
        Some(make_router()),
        make_stats(),
        vec![],
        3,
        8000,
        "complete".to_string(),
        vec![],
        ModelCompat::default(),
    );
    assert_eq!(state.pool.len(), 1);
    assert_eq!(state.target, "https://api.example.com");
    assert!(state.router.is_some());
}

#[test]
fn test_integration_key_pool_status() {
    let pool = make_key_pool();
    let statuses = pool.status();
    assert_eq!(statuses.len(), 2);
    assert_eq!(statuses[0].label, "test1");
    assert_eq!(statuses[0].key_hint, "...ey-1");
    assert!(statuses[0].active);
    assert_eq!(statuses[1].label, "test2");
    assert_eq!(statuses[1].key_hint, "...ey-2");
    assert!(statuses[1].active);
}

#[test]
fn test_integration_model_snapshot() {
    let mut stats = make_stats();
    stats.record("model-a", 100, true);
    stats.record("model-a", 200, true);
    stats.record("model-a", 300, true);
    stats.record("model-b", 5000, true);
    stats.record("model-b", 6000, true);
    stats.record("model-b", 7000, true);
    let snapshots = stats.snapshot();
    assert_eq!(snapshots.len(), 2);
    let model_a = snapshots.iter().find(|s| s.id == "model-a").unwrap();
    let model_b = snapshots.iter().find(|s| s.id == "model-b").unwrap();
    // averages compared without division: a_sum / a_n < b_sum / b_n
    assert!(model_a.latency_sum_ms * (model_b.sample_count as u128) < model_b.latency_sum_ms * (model_a.sample_count as u128));
    assert!(!model_a.degraded);
    assert!(model_b.degraded);
}

#[test]
fn test_integration_empty_key_pool() {
    let mut pool = KeyPool::new(vec![]);
    assert_eq!(pool.next_key(), None);
    assert_eq!(pool.len(), 0);
}

#[test]
fn test_integration_all_keys_cooldown() {
    let mut pool = make_key_pool();
    pool.mark_rate_limited(0, 60);
    pool.mark_rate_limited(1, 60);
    assert_eq!(pool.next_key(), None);
}

#[test]
fn test_integration_auto_routing_picks_fastest() {
    let mut stats = make_stats();
    stats.record("fast-model", 150, true);
    stats.record("fast-model", 200, true);
    stats.record("fast-model", 250, true);
    stats.record("slow-model", 3000, true);
    stats.record("slow-model", 3500, true);
    stats.record("slow-model", 4000, true);
    let mut router = ModelRouter::new(
        vec!["slow-model".to_string(), "fast-model".to_string()],
        Strategy::LatencyAware,
    );
    let picked = router.pick(&stats);
    assert_eq!(picked, Some("fast-model".to_string()));
}

#[test]
fn test_integration_auto_routing_skips_degraded() {
    let mut stats = make_stats();
    stats.record("model-a", 6000, true);
    stats.record("model-a", 7000, true);
    stats.record("model-a", 8000, true);
    stats.record("model-b", 500, true);
    let mut router = ModelRouter::new(
        vec!["model-a".to_string(), "model-b".to_string()],
        Strategy::LatencyAware,
    );
    let picked = router.pick(&stats);
    assert_eq!(picked, Some("model-b".to_string()));
}

#[test]
fn test_integration_auto_routing_untried_model() {
    let stats = make_stats();
    let mut router = ModelRouter::new(vec!["never-tried-model".to_string()], Strategy::LatencyAware);
    let picked = router.pick(&stats);
    assert_eq!(picked, Some("never-tried-model".to_string()));
}

#[test]
fn test_integration_auto_routing_no_router() {
    let keys = vec![KeyEntry { key: "test-key".to_string(), label: None }];
    let state = AppState::new(
        keys,
        "https://api.example.com".to_string(),
        None,
        make_stats(),
        vec![],
        3,
        8000,
        "complete".to_string(),
        vec![],
        ModelCompat::default(),
    );
    assert!(state.router.is_none());
}

#[test]
fn test_integration_auto_routing_with_multiple_healthy_models() {
    let mut stats = make_stats();
    stats.record("model-a", 100, true);
    stats.record("model-a", 110, true);
    stats.record("model-a", 120, true);
    stats.record("model-b", 400, true);
    stats.record("model-b", 420, true);
    stats.record("model-b", 440, true);
    stats.record("model-c", 800, true);
    stats.record("model-c", 850, true);
    stats.record("model-c", 900, true);
    let mut router = ModelRouter::new(
        vec!["model-c".to_string(), "model-a".to_string(), "model-b".to_string()],
        Strategy::LatencyAware,
    );
    let picked = router.pick(&stats);
    assert_eq!(picked, Some("model-a".to_string()));
}

fn make_pool_3keys() -> KeyPool {
    KeyPool::new(vec![
        KeyEntry { key: "key-a1".to_string(), label: Some("k1".to_string()) },
        KeyEntry { key: "key-b2".to_string(), label: Some("k2".to_string()) },
        KeyEntry { key: "key-c3".to_string(), label: Some("k3".to_string()) },
    ])
}

fn make_pool_2keys() -> KeyPool {
    KeyPool::new(vec![
        KeyEntry { key: "key-x1".to_string(), label: Some("x1".to_string()) },
        KeyEntry { key: "key-y2".to_string(), label: Some("y2".to_string()) },
    ])
}

fn racing_keys(pool: &mut KeyPool, models: &[String]) -> Vec<(String, usize, Option<String>)> {
    let mut out = Vec::new();
    for _ in models {
        if let Some((key, idx)) = pool.next_key() {
            let label = pool.get_key_label(idx);
            out.push((key, idx, label));
        }
    }
    out
}

fn strings(v: &[&str]) -> Vec<String> {
    v.iter().map(|s| s.to_string()).collect()
}

#[test]
fn test_racing_preallocate_distributes_keys_to_models() {
    let mut pool = make_pool_3keys();
    let models = strings(&["model-1", "model-2", "model-3"]);
    let keys = racing_keys(&mut pool, &models);
    assert_eq!(keys.len(), 3, "should get one key per model");
    let mut indices: Vec<usize> = keys.iter().map(|(_, idx, _)| *idx).collect();
    indices.sort();
    indices.dedup();
    assert_eq!(indices.len(), 3, "each model should get a different key index");
}

#[test]
fn test_racing_preallocate_insufficient_keys_uses_available() {
    let mut pool = make_pool_2keys();
    let models = strings(&["model-1", "model-2", "model-3"]);
    let keys = racing_keys(&mut pool, &models);
    assert_eq!(keys.len(), 3, "key count is capped by model count, not pool size");
}

#[test]
fn test_racing_preallocate_exact_match_keys_models() {
    let mut pool = make_pool_3keys();
    let models = strings(&["model-1", "model-2", "model-3"]);
    let keys = racing_keys(&mut pool, &models);
    assert_eq!(keys.len(), 3);
    let indices: Vec<usize> = keys.iter().map(|(_, idx, _)| *idx).collect();
    assert!(
        indices.contains(&0) && indices.contains(&1) && indices.contains(&2),
        "all three keys should be used"
    );
}

#[test]
fn test_racing_preallocate_one_key_per_model_round_robin() {
    let mut pool = make_pool_3keys();
    let models = strings(&["model-a", "model-b"]);
    let keys1 = racing_keys(&mut pool, &models);
    let keys2 = racing_keys(&mut pool, &models);
    assert_eq!(keys1.len(), 2);
    assert_eq!(keys2.len(), 2);
    let idx1: Vec<usize> = keys1.iter().map(|(_, idx, _)| *idx).collect();
    let idx2: Vec<usize> = keys2.iter().map(|(_, idx, _)| *idx).collect();
    assert!(idx1 != idx2, "second call should use different keys (round-robin)");
}

#[test]
fn test_racing_preallocate_with_cooldown_skips_cooldown_key() {
    let mut pool = make_pool_3keys();
    pool.mark_rate_limited(1, 60);
    let models = strings(&["m1", "m2"]);
    let keys = racing_keys(&mut pool, &models);
    assert_eq!(keys.len(), 2);
    let indices: Vec<usize> = keys.iter().map(|(_, idx, _)| *idx).collect();
    assert!(!indices.contains(&1), "cooldown key 1 should be skipped");
}

#[test]
fn test_racing_preallocate_all_cooldown_returns_empty() {
    let mut pool = make_pool_3keys();
    pool.mark_rate_limited(0, 60);
    pool.mark_rate_limited(1, 60);
    pool.mark_rate_limited(2, 60);
    let models = strings(&["m1"]);
    let keys = racing_keys(&mut pool, &models);
    assert_eq!(keys.len(), 0, "all keys in cooldown — nothing to allocate");
}

#[test]
fn test_racing_preallocate_empty_models_returns_empty() {
    let mut pool = make_pool_3keys();
    let models: Vec<String> = vec![];
    let keys = racing_keys(&mut pool, &models);
    assert_eq!(keys.len(), 0, "no models means no keys allocated");
}

#[test]
fn test_racing_preallocate_key_labels_preserved() {
    let mut pool = make_pool_3keys();
    let models = strings(&["m1"]);
    let keys = racing_keys(&mut pool, &models);
    assert_eq!(keys.len(), 1);
    let (_, _, label) = &keys[0];
    assert!(label.is_some());
    let label = label.as_ref().unwrap();
    assert!(label == "k1" || label == "k2" || label == "k3");
}

#[test]
fn test_racing_preallocate_5models_3keys_gives_3() {
    let mut pool = make_pool_3keys();
    let models = strings(&["m1", "m2", "m3", "m4", "m5"]);
    let keys = racing_keys(&mut pool, &models);
    assert_eq!(keys.len(), 5, "key count is capped by model count, pool cycles round-robin");
}

#[test]
fn test_racing_preallocate_concurrent_calls_are_deterministic() {
    let mut pool = make_pool_3keys();
    let models = strings(&["m1", "m2", "m3"]);
    let run1 = racing_keys(&mut pool, &models);
    let run2 = racing_keys(&mut pool, &models);
    let run3 = racing_keys(&mut pool, &models);
    let idx1: Vec<usize> = run1.iter().map(|(_, idx, _)| *idx).collect();
    let idx2: Vec<usize> = run2.iter().map(|(_, idx, _)| *idx).collect();
    let idx3: Vec<usize> = run3.iter().map(|(_, idx, _)| *idx).collect();
    assert_eq!(idx1, idx2, "round-robin should be deterministic");
    assert_eq!(idx2, idx3, "round-robin should be deterministic");
}

#[test]
fn test_racing_preallocate_max_parallel_capped_at_model_count() {
    let mut pool = make_pool_3keys();
    let models = strings(&["m1"]);
    let keys = racing_keys(&mut pool, &models);
    assert_eq!(keys.len(), 1, "only 1 model, only 1 key allocated");
}

#[test]
fn test_model_validation_rejects_invalid_model() {
    let mut state = state_with(
        vec![KeyEntry { key: "test".to_string(), label: Some("test".to_string()) }],
        None, 8, 15000, "round_robin", ModelCompat::default(),
    );
    state.available_models = strings(&["google/gemma-3-27b-it", "qwen/qwen2.5-coder-32b-instruct"]);
    let result = validate_model_exists("google/gemma-3-27b-it", &state);
    assert!(result.is_ok(), "valid model should pass");
    let result = validate_model_exists("nvidia/invalid-model-xyz", &state);
    assert!(result.is_err(), "invalid model should fail");
    assert!(result.unwrap_err().contains("not found"), "error should mention 'not found'");
}

#[test]
fn test_model_validation_allows_auto_and_empty() {
    let mut state = state_with(
        vec![KeyEntry { key: "test".to_string(), label: Some("test".to_string()) }],
        None, 8, 15000, "round_robin", ModelCompat::default(),
    );
    state.available_models = strings(&["some-model"]);
    let result = validate_model_exists("auto", &state);
    assert!(result.is_ok(), "auto should always pass");
    let result = validate_model_exists("", &state);
    assert!(result.is_ok(), "empty should always pass");
}

#[test]
fn test_model_validation_passes_when_no_cache() {
    let state = state_with(
        vec![KeyEntry { key: "test".to_string(), label: Some("test".to_string()) }],
        None, 8, 15000, "round_robin", ModelCompat::default(),
    );
    let result = validate_model_exists("any-model", &state);
    assert!(result.is_ok(), "should pass when no cache available");
}

// The builder and its helpers.

#[test]
fn test_mock_app_state_builder_default() {
    let state = MockAppStateBuilder::new().build();
    assert_eq!(state.pool.len(), 1);
    assert_eq!(state.racing_max_parallel, 3);
    assert_eq!(state.racing_timeout_ms, 5000);
}

#[test]
fn test_mock_app_state_builder_keys() {
    let state = MockAppStateBuilder::new().with_keys(10).build();
    assert_eq!(state.pool.len(), 10);
}

#[test]
fn test_mock_app_state_builder_racing_models() {
    let state = MockAppStateBuilder::new().with_racing_models(5).build();
    assert_eq!(state.racing_models.len(), 5);
}

#[test]
fn test_mock_app_state_builder_custom_target() {
    let state = MockAppStateBuilder::new().with_target("http://custom:9000").build();
    assert!(state.target.contains("custom"));
}

#[test]
fn test_create_test_state() {
    let state = create_test_state();
    assert!(state.pool.len() >= 1);
}

#[test]
fn test_create_test_key_pool() {
    let state = create_test_key_pool(20);
    assert_eq!(state.pool.len(), 20);
}

#[test]
fn test_create_test_model_stats() {
    let state = create_test_model_stats(7);
    assert_eq!(state.racing_models.len(), 7);
}

#[test]
fn test_create_racing_scenario() {
    let state = create_racing_scenario(4, 2);
    assert_eq!(state.racing_models.len(), 4);
    assert_eq!(state.racing_max_parallel, 2);
}

#[test]
fn test_create_strategy_test() {
    let state = create_strategy_test("error-rate");
    assert_eq!(state.racing_strategy, "error-rate");
}

#[test]
fn builder_generates_numbered_names() {
    let state = MockAppStateBuilder::new().with_keys(2).with_racing_models(2).build();
    assert_eq!(state.pool.get_key_label(1), Some("test-key-2".to_string()));
    assert_eq!(state.racing_models, strings(&["nvidia/test-model-1", "nvidia/test-model-2"]));
    assert_eq!(state.target, "http://127.0.0.1:8080");
    assert_eq!(state.racing_strategy, "round-robin");
}

#[test]
fn builder_model_param_replaces_earlier_setting() {
    let first = ModelParams { max_tokens: Some(Json::Number("1".to_string())), ..Default::default() };
    let second = ModelParams { max_tokens: Some(Json::Number("2".to_string())), ..Default::default() };
    let state = MockAppStateBuilder::new()
        .with_model_param("m", first)
        .with_model_param("m", second)
        .build();
    assert_eq!(state.model_params.len(), 1);
    let p = nimaproxy::request::find_params_pub(&state.model_params, "m").unwrap();
    assert!(matches!(&p.max_tokens, Some(Json::Number(t)) if t == "2"));
}

#[test]
fn create_model_with_params_sets_max_tokens() {
    let state = create_model_with_params(vec!["a", "b"], -5);
    assert_eq!(state.racing_models, strings(&["a", "b"]));
    let p = nimaproxy::request::find_params_pub(&state.model_params, "b").unwrap();
    assert!(matches!(&p.max_tokens, Some(Json::Number(t)) if t == "-5"));
    let state = create_model_with_params(vec!["c"], 4096);
    let p = nimaproxy::request::find_params_pub(&state.model_params, "c").unwrap();
    assert!(matches!(&p.max_tokens, Some(Json::Number(t)) if t == "4096"));
}

#[test]
fn upstream_slots_are_limited() {
    let mut state = state_with(vec![], None, 3, 8000, "complete", ModelCompat::default());
    state.max_upstream_in_flight = 2;
    assert!(state.try_acquire_upstream());
    assert!(state.try_acquire_upstream());
    assert!(!state.try_acquire_upstream());
    assert_eq!(state.gateway_metrics.upstream_in_flight, 2);
    assert_eq!(state.gateway_metrics.upstream_attempts, 2);
    state.release_upstream();
    assert_eq!(state.gateway_metrics.upstream_in_flight, 1);
    assert!(state.try_acquire_upstream());
    assert_eq!(state.gateway_metrics.upstream_attempts, 3);
}

#[test]
fn test_app_state_new() {
    let keys = vec![KeyEntry { key: "nvapi-YOUR_TEST_KEY_HERE".to_string(), label: Some("test-key".to_string()) }];
    let state = AppState::new(
        keys,
        "http://localhost:8080".to_string(),
        None,
        ModelStatsStore::new(100),
        vec!["nvidia/nemotron-3b".to_string()],
        3,
        5000,
        "round_robin".to_string(),
        vec![],
        ModelCompat::default(),
    );
    assert_eq!(state.racing_models.len(), 1);
    assert_eq!(state.racing_max_parallel, 3);
    assert_eq!(state.racing_timeout_ms, 5000);
    assert_eq!(state.racing_strategy, "round_robin");
    assert_eq!(state.target, "http://localhost:8080");
}
