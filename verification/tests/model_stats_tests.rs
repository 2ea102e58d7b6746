use nimaproxy::model_stats::{CircuitBreakerConfig, ModelEntry, ModelStatsStore};

fn cands(ids: &[&str]) -> Vec<String> {
    ids.iter().map(|s| s.to_string()).collect()
}

#[test]
fn test_ring_buffer_wrap() {
    let mut entry = ModelEntry::new();
    for i in 0..150u64 {
        entry.push(i * 10);
    }
    assert_eq!(entry.ring_len, 100);
}

#[test]
fn test_p95_calculation() {
    let mut entry = ModelEntry::new();
    for i in 1..=100u64 {
        entry.push(i);
    }
    let p95 = entry.p95_ms().unwrap();
    assert!(p95 >= 95);
}

#[test]
fn test_p95_insufficient_samples() {
    let entry = ModelEntry::new();
    assert_eq!(entry.p95_ms(), None);

    let mut entry2 = ModelEntry::new();
    entry2.push(100);
    assert_eq!(entry2.p95_ms(), None);
}

#[test]
fn test_is_degraded_consecutive_failures() {
    let mut entry = ModelEntry::new();
    entry.consecutive_failures = 3;
    let cb = CircuitBreakerConfig::default();
    assert!(entry.is_degraded(3000, &cb));
}

#[test]
fn test_is_degraded_high_latency() {
    let mut entry = ModelEntry::new();
    entry.consecutive_failures = 1;
    entry.push(5000);
    entry.push(5000);
    entry.push(5000);
    let cb = CircuitBreakerConfig::default();
    assert!(entry.is_degraded(3000, &cb));
}

#[test]
fn test_not_degraded() {
    let mut entry = ModelEntry::new();
    entry.push(500);
    entry.push(600);
    entry.push(550);
    let cb = CircuitBreakerConfig::default();
    assert!(!entry.is_degraded(3000, &cb));
}

#[test]
fn test_is_degraded_token_threshold() {
    let mut entry = ModelEntry::new();
    entry.output_token_count = 35000;
    let cb = CircuitBreakerConfig {
        max_output_tokens: 32000,
        max_repetitions: 0,
        max_consecutive_assistant_turns: 0,
    };
    assert!(entry.is_degraded(3000, &cb));
}

#[test]
fn test_is_degraded_repetition_threshold() {
    let mut entry = ModelEntry::new();
    entry.repetition_count = 7;
    let cb = CircuitBreakerConfig {
        max_output_tokens: 0,
        max_repetitions: 5,
        max_consecutive_assistant_turns: 0,
    };
    assert!(entry.is_degraded(3000, &cb));
}

#[test]
fn test_is_degraded_consecutive_turns_threshold() {
    let mut entry = ModelEntry::new();
    entry.consecutive_assistant_turns = 12;
    let cb = CircuitBreakerConfig {
        max_output_tokens: 0,
        max_repetitions: 0,
        max_consecutive_assistant_turns: 10,
    };
    assert!(entry.is_degraded(3000, &cb));
}

#[test]
fn test_circuit_breaker_disabled() {
    let mut entry = ModelEntry::new();
    entry.output_token_count = 35000;
    entry.repetition_count = 7;
    entry.consecutive_assistant_turns = 12;
    let cb = CircuitBreakerConfig {
        max_output_tokens: 0,
        max_repetitions: 0,
        max_consecutive_assistant_turns: 0,
    };
    assert!(!entry.is_degraded(3000, &cb));
}

#[test]
fn test_model_stats_store_record_success() {
    let mut store = ModelStatsStore::new(3000);
    store.record("test-model", 500, true);
    let snapshot = store.snapshot();
    assert_eq!(snapshot.len(), 1);
    assert_eq!(snapshot[0].id, "test-model");
    assert_eq!(snapshot[0].total, 1);
    assert_eq!(snapshot[0].success, 1);
}

#[test]
fn test_model_stats_store_record_failure() {
    let mut store = ModelStatsStore::new(3000);
    store.record("test-model", 0, false);
    let snapshot = store.snapshot();
    assert_eq!(snapshot[0].total, 1);
    assert_eq!(snapshot[0].success, 0);
    assert_eq!(snapshot[0].consecutive_failures, 1);
}

#[test]
fn test_best_model_untried_first() {
    let store = ModelStatsStore::new(3000);
    let candidates = cands(&["model-a", "model-b"]);
    let best = store.best_model(&candidates).unwrap();
    assert!(candidates.contains(&best));
}

#[test]
fn test_best_model_skips_degraded() {
    let mut store = ModelStatsStore::new(3000);
    store.record("model-a", 5000, true);
    store.record("model-a", 5000, true);
    store.record("model-a", 5000, true);
    store.record("model-b", 500, true);
    let candidates = cands(&["model-a", "model-b"]);
    let best = store.best_model(&candidates).unwrap();
    assert_eq!(best, "model-b");
}

#[test]
fn test_best_model_latency_aware() {
    let mut store = ModelStatsStore::new(3000);
    store.record("fast-model", 200, true);
    store.record("fast-model", 250, true);
    store.record("fast-model", 300, true);
    store.record("slow-model", 2000, true);
    store.record("slow-model", 2500, true);
    store.record("slow-model", 3000, true);
    let candidates = cands(&["fast-model", "slow-model"]);
    let best = store.best_model(&candidates).unwrap();
    assert_eq!(best, "fast-model");
}

#[test]
fn test_best_model_empty_candidates() {
    let store = ModelStatsStore::new(3000);
    assert_eq!(store.best_model(&[]), None);
}

#[test]
fn test_snapshot_fields() {
    let mut store = ModelStatsStore::new(3000);
    store.record("model-a", 100, true);
    store.record("model-a", 200, true);
    store.record("model-a", 300, true);
    let snaps = store.snapshot();
    let snap = &snaps[0];
    assert_eq!(snap.id, "model-a");
    assert_eq!(snap.latency_sum_ms, 600);
    assert!(snap.p95_ms.is_some());
    assert_eq!(snap.total, 3);
    assert_eq!(snap.success, 3);
    assert!(snap.sample_count > 0);
}

#[test]
fn test_record_with_circuit_breaker_tracks_tokens() {
    let mut store = ModelStatsStore::new(3000);
    store.record_with_circuit_breaker("model-a", 500, true, 15000, 2, true);
    let snap = &store.snapshot()[0];
    assert_eq!(snap.degraded, false);
}

#[test]
fn test_record_with_circuit_breaker_degrades_on_high_tokens() {
    let cb_config = CircuitBreakerConfig {
        max_output_tokens: 10000,
        ..Default::default()
    };
    let mut store = ModelStatsStore::with_circuit_breaker(3000, cb_config);
    store.record_with_circuit_breaker("model-a", 500, true, 15000, 2, true);
    let snap = &store.snapshot()[0];
    assert!(
        snap.degraded,
        "Model should be degraded when output tokens exceed threshold"
    );
}

#[test]
fn test_record_with_circuit_breaker_degrades_on_repetitions() {
    let cb_config = CircuitBreakerConfig {
        max_output_tokens: 0,
        max_repetitions: 3,
        max_consecutive_assistant_turns: 0,
    };
    let mut store = ModelStatsStore::with_circuit_breaker(3000, cb_config);
    store.record_with_circuit_breaker("model-a", 500, true, 500, 5, true);
    let snap = &store.snapshot()[0];
    assert!(
        snap.degraded,
        "Model should be degraded when repetition count exceeds threshold"
    );
}

#[test]
fn test_record_with_circuit_breaker_degrades_on_no_tool_calls() {
    let cb_config = CircuitBreakerConfig {
        max_output_tokens: 0,
        max_repetitions: 0,
        max_consecutive_assistant_turns: 3,
    };
    let mut store = ModelStatsStore::with_circuit_breaker(3000, cb_config);
    store.record_with_circuit_breaker("model-a", 500, true, 500, 0, false);
    store.record_with_circuit_breaker("model-a", 500, true, 500, 0, false);
    store.record_with_circuit_breaker("model-a", 500, true, 500, 0, false);
    let snap = &store.snapshot()[0];
    assert!(
        snap.degraded,
        "Model should be degraded after max consecutive assistant turns without tool calls"
    );
}

#[test]
fn test_record_with_circuit_breaker_resets_on_tool_call() {
    let cb_config = CircuitBreakerConfig {
        max_output_tokens: 0,
        max_repetitions: 0,
        max_consecutive_assistant_turns: 3,
    };
    let mut store = ModelStatsStore::with_circuit_breaker(3000, cb_config);
    store.record_with_circuit_breaker("model-a", 500, true, 500, 0, false);
    store.record_with_circuit_breaker("model-a", 500, true, 500, 0, false);
    store.record_with_circuit_breaker("model-a", 500, true, 500, 0, true);
    let snap = &store.snapshot()[0];
    assert!(
        !snap.degraded,
        "Model should NOT be degraded after tool call resets counter"
    );
}

#[test]
fn test_best_model_skips_circuit_breaker_degraded() {
    let cb_config = CircuitBreakerConfig {
        max_output_tokens: 1000,
        ..Default::default()
    };
    let mut store = ModelStatsStore::with_circuit_breaker(3000, cb_config);
    store.record_with_circuit_breaker("model-a", 500, true, 1500, 0, true);
    store.record_with_circuit_breaker("model-a", 500, true, 1500, 0, true);
    store.record_with_circuit_breaker("model-a", 500, true, 1500, 0, true);
    store.record_with_circuit_breaker("model-b", 500, true, 500, 0, true);
    store.record_with_circuit_breaker("model-b", 500, true, 500, 0, true);
    store.record_with_circuit_breaker("model-b", 500, true, 500, 0, true);
    let candidates = cands(&["model-a", "model-b"]);
    let best = store.best_model(&candidates).unwrap();
    assert_eq!(best, "model-b");
}

#[test]
fn test_record_with_key_tracks_per_key_failures() {
    let mut store = ModelStatsStore::new(3000);
    store.record_with_key("model-a", "key-a", 500, false);
    store.record_with_key("model-a", "key-a", 500, false);
    store.record_with_key("model-a", "key-a", 500, false);
    store.record_with_key("model-a", "key-b", 500, true);
    assert!(!store.all_keys_failing_for_model("model-a"));
}

#[test]
fn test_all_keys_failing_when_all_keys_have_3_failures() {
    let mut store = ModelStatsStore::new(3000);
    store.record_with_key("model-a", "key-a", 500, false);
    store.record_with_key("model-a", "key-a", 500, false);
    store.record_with_key("model-a", "key-a", 500, false);
    store.record_with_key("model-a", "key-b", 500, false);
    store.record_with_key("model-a", "key-b", 500, false);
    store.record_with_key("model-a", "key-b", 500, false);
    assert!(store.all_keys_failing_for_model("model-a"));
}

#[test]
fn test_all_keys_failing_returns_false_for_unknown_model() {
    let store = ModelStatsStore::new(3000);
    assert!(!store.all_keys_failing_for_model("unknown-model"));
}

#[test]
fn test_record_with_key_updates_consecutive_failures() {
    let mut store = ModelStatsStore::new(3000);
    store.record_with_key("model-a", "key-a", 500, false);
    store.record_with_key("model-a", "key-a", 500, false);
    let snap = store.snapshot();
    assert_eq!(snap.len(), 1);
    assert_eq!(snap[0].consecutive_failures, 2);

    store.record_with_key("model-a", "key-a", 500, true);
    let snap = store.snapshot();
    assert_eq!(snap[0].consecutive_failures, 0);
}

#[test]
fn test_record_with_key_success_increments_success_count() {
    let mut store = ModelStatsStore::new(3000);
    store.record_with_key("model-a", "key-a", 500, true);
    store.record_with_key("model-a", "key-a", 500, true);
    store.record_with_key("model-a", "key-a", 500, false);
    let snap = store.snapshot();
    assert_eq!(snap[0].success, 2);
    assert_eq!(snap[0].total, 3);
}

#[test]
fn test_racing_candidates_skips_all_keys_failed() {
    let mut store = ModelStatsStore::new(3000);
    store.record_with_key("model-a", "key-a", 500, false);
    store.record_with_key("model-a", "key-a", 500, false);
    store.record_with_key("model-a", "key-a", 500, false);
    store.record_with_key("model-a", "key-b", 500, false);
    store.record_with_key("model-a", "key-b", 500, false);
    store.record_with_key("model-a", "key-b", 500, false);
    store.record_with_key("model-b", "key-a", 500, true);
    let candidates = cands(&["model-a", "model-b"]);
    let viable = store.racing_candidates(&candidates, 2);
    assert!(viable.contains(&"model-b".to_string()));
    assert!(!viable.contains(&"model-a".to_string()));
}

#[test]
fn test_get_model_timeout_default() {
    let store = ModelStatsStore::new(3000);
    let max_timeout = 30000u64;
    let timeout = store.get_model_timeout("unknown-model", max_timeout);
    assert_eq!(timeout, max_timeout);
}

#[test]
fn test_get_model_timeout_configured() {
    let mut store = ModelStatsStore::new(3000);
    let max_timeout = 30000u64;
    store.record("test-model", 1000, true);
    store.record("test-model", 1200, true);
    store.record("test-model", 1100, true);
    let timeout = store.get_model_timeout("test-model", max_timeout);
    assert!(timeout >= 1000);
    assert!(timeout <= max_timeout);
}

#[test]
fn test_get_model_timeout_unknown_model() {
    let store = ModelStatsStore::new(3000);
    let max_timeout = 60000u64;
    let timeout = store.get_model_timeout("nonexistent", max_timeout);
    assert_eq!(timeout, max_timeout);
}

#[test]
fn test_racing_candidates_empty() {
    let store = ModelStatsStore::new(3000);
    let candidates: Vec<String> = vec![];
    let result = store.racing_candidates(&candidates, 5);
    assert!(result.is_empty());
}

#[test]
fn test_racing_candidates_filters_degraded() {
    let mut store = ModelStatsStore::new(3000);
    store.record("model-a", 5000, true);
    store.record("model-a", 5000, true);
    store.record("model-a", 5000, true);
    store.record("model-a", 5000, true);
    store.record("model-b", 500, true);
    store.record("model-b", 500, true);
    store.record("model-b", 500, true);
    let candidates = cands(&["model-a", "model-b"]);
    let result = store.racing_candidates(&candidates, 5);
    assert!(!result.contains(&"model-a".to_string()));
    assert!(result.contains(&"model-b".to_string()));
}

#[test]
fn test_racing_candidates_orders_by_latency() {
    let mut store = ModelStatsStore::new(3000);
    store.record("slow", 2000, true);
    store.record("slow", 2000, true);
    store.record("slow", 2000, true);
    store.record("fast", 500, true);
    store.record("fast", 500, true);
    store.record("fast", 500, true);
    store.record("medium", 1000, true);
    store.record("medium", 1000, true);
    store.record("medium", 1000, true);
    let candidates = cands(&["slow", "fast", "medium"]);
    let result = store.racing_candidates(&candidates, 5);
    assert_eq!(result[0], "fast");
    assert_eq!(result[1], "medium");
    assert_eq!(result[2], "slow");
}

#[test]
fn model_stats_test_best_model_empty_candidates() {
    let store = ModelStatsStore::new(3000);
    let candidates: Vec<String> = vec![];
    let result = store.best_model(&candidates);
    assert_eq!(result, None);
}

#[test]
fn test_best_model_all_degraded() {
    let mut store = ModelStatsStore::new(3000);
    store.record("model-a", 5000, true);
    store.record("model-a", 5000, true);
    store.record("model-a", 5000, true);
    store.record("model-a", 5000, true);
    store.record("model-b", 6000, true);
    store.record("model-b", 6000, true);
    store.record("model-b", 6000, true);
    store.record("model-b", 6000, true);
    let candidates = cands(&["model-a", "model-b"]);
    let result = store.best_model(&candidates);
    assert!(result.is_some());
    assert_eq!(result.unwrap(), "model-a");
}

#[test]
fn test_best_model_picks_fastest() {
    let mut store = ModelStatsStore::new(3000);
    store.record("slow", 2000, true);
    store.record("slow", 2000, true);
    store.record("slow", 2000, true);
    store.record("fast", 500, true);
    store.record("fast", 500, true);
    store.record("fast", 500, true);
    let candidates = cands(&["slow", "fast"]);
    let result = store.best_model(&candidates).unwrap();
    assert_eq!(result, "fast");
}

#[test]
fn test_snapshot_empty_store() {
    let store = ModelStatsStore::new(3000);
    let snapshot = store.snapshot();
    assert!(snapshot.is_empty());
}

#[test]
fn test_snapshot_single_model() {
    let mut store = ModelStatsStore::new(3000);
    store.record("single-model", 100, true);
    let snapshot = store.snapshot();
    assert_eq!(snapshot.len(), 1);
    assert_eq!(snapshot[0].id, "single-model");
    assert_eq!(snapshot[0].total, 1);
    assert_eq!(snapshot[0].success, 1);
}

#[test]
fn test_snapshot_multiple_models_sorted() {
    let mut store = ModelStatsStore::new(3000);
    store.record("zebra", 100, true);
    store.record("alpha", 200, true);
    store.record("mango", 300, true);
    let snapshot = store.snapshot();
    assert_eq!(snapshot.len(), 3);
    assert_eq!(snapshot[0].id, "alpha");
    assert_eq!(snapshot[1].id, "mango");
    assert_eq!(snapshot[2].id, "zebra");
}

#[test]
fn test_circuit_breaker_token_threshold() {
    let cb_config = CircuitBreakerConfig {
        max_output_tokens: 100,
        max_repetitions: 3,
        max_consecutive_assistant_turns: 5,
    };
    let mut entry = ModelEntry::new();
    assert!(!entry.is_degraded(3000, &cb_config));
    entry.output_token_count = 150;
    assert!(entry.is_degraded(3000, &cb_config), "Should be degraded due to token count");
}

#[test]
fn test_best_model_all_degraded_by_failures() {
    let mut store = ModelStatsStore::new(3000);
    store.record("model-a", 5000, false);
    store.record("model-a", 5000, false);
    store.record("model-a", 5000, false);
    store.record("model-b", 5000, false);
    store.record("model-b", 5000, false);
    store.record("model-b", 5000, false);
    let candidates = cands(&["model-a", "model-b"]);
    let best = store.best_model(&candidates);
    assert!(best.is_some(), "Should return a model even if all are degraded");
}

#[test]
fn test_server_degraded_flag_initially_false() {
    let entry = ModelEntry::new();
    assert!(!entry.server_degraded);
}

#[test]
fn test_mark_server_degraded() {
    let mut entry = ModelEntry::new();
    assert!(!entry.server_degraded);
    entry.mark_server_degraded();
    assert!(entry.server_degraded);
}

#[test]
fn test_server_degraded_increments_consecutive_failures() {
    let mut entry = ModelEntry::new();
    let initial_failures = entry.consecutive_failures;
    entry.mark_server_degraded();
    assert!(entry.consecutive_failures >= initial_failures + 3);
}

#[test]
fn test_is_degraded_server_degraded_takes_precedence() {
    let mut entry = ModelEntry::new();
    let cb_config = CircuitBreakerConfig::default();
    assert!(!entry.is_degraded(3000, &cb_config));
    entry.mark_server_degraded();
    assert!(entry.is_degraded(3000, &cb_config));
}

#[test]
fn test_record_server_degraded() {
    let mut store = ModelStatsStore::new(3000);
    store.record_server_degraded("test-model");
    let snapshot = store.snapshot();
    let model_snapshot = snapshot.iter().find(|s| s.id == "test-model").unwrap();
    assert!(model_snapshot.degraded);
}

#[test]
fn test_server_degraded_model_excluded_from_best_model() {
    let mut store = ModelStatsStore::new(3000);
    store.record("healthy-model", 500, true);
    store.record("healthy-model", 600, true);
    store.record("healthy-model", 550, true);
    store.record_server_degraded("server-degraded-model");
    let candidates = cands(&["healthy-model", "server-degraded-model"]);
    let best = store.best_model(&candidates).unwrap();
    assert_eq!(best, "healthy-model");
}

#[test]
fn test_server_degraded_racing_candidates_excluded() {
    let mut store = ModelStatsStore::new(3000);
    store.record("fast-model", 200, true);
    store.record("fast-model", 250, true);
    store.record("fast-model", 300, true);
    store.record_server_degraded("degraded-model");
    let candidates = cands(&["fast-model", "degraded-model"]);
    let racing = store.racing_candidates(&candidates, 2);
    assert_eq!(racing.len(), 1);
    assert_eq!(racing[0], "fast-model");
}

#[test]
fn test_server_degraded_persists_across_snapshots() {
    let mut store = ModelStatsStore::new(3000);
    store.record_server_degraded("persistent-model");
    for _ in 0..3 {
        let snapshot = store.snapshot();
        let model = snapshot.iter().find(|s| s.id == "persistent-model").unwrap();
        assert!(model.degraded, "Model should remain degraded across snapshots");
    }
}

#[test]
fn test_server_degraded_vs_local_degraded() {
    let mut store = ModelStatsStore::new(3000);
    store.record("local-degraded", 5000, false);
    store.record("local-degraded", 5000, false);
    store.record("local-degraded", 5000, false);
    store.record_server_degraded("server-degraded");
    store.record("healthy", 500, true);
    store.record("healthy", 600, true);
    store.record("healthy", 550, true);
    let candidates = cands(&["local-degraded", "server-degraded", "healthy"]);
    let best = store.best_model(&candidates).unwrap();
    assert_eq!(best, "healthy");
}

// Exact values of the formulas, and the laws on concrete inputs.

#[test]
fn stats_dynamic_timeout_exact() {
    let mut store = ModelStatsStore::new(3000);
    // p95 of two samples is the larger one: 4000 + max(2000, 2000) = 6000.
    store.record("m", 1000, true);
    store.record("m", 4000, true);
    assert_eq!(store.get_model_timeout("m", 30000), 6000);
    // capped at the maximum
    assert_eq!(store.get_model_timeout("m", 5000), 5000);
    // never below one second
    assert_eq!(store.get_model_timeout("m", 10), 1000);
    // warming up (one sample, no p95): the configured maximum
    let mut entry = ModelEntry::new();
    entry.push(10);
    assert_eq!(entry.dynamic_timeout_ms(60000), 60000);
    let mut store = ModelStatsStore::new(3000);
    store.record("w", 100, true);
    assert_eq!(store.get_model_timeout("w", 30000), 30000);
}

#[test]
fn stats_two_slow_samples_do_not_degrade() {
    let mut entry = ModelEntry::new();
    entry.push(9000);
    entry.push(9000);
    assert!(!entry.is_degraded(3000, &CircuitBreakerConfig::default()));
    entry.push(9000);
    assert!(entry.is_degraded(3000, &CircuitBreakerConfig::default()));
}

#[test]
fn stats_three_failures_degrade_and_success_resets() {
    let mut store = ModelStatsStore::new(3000);
    store.record("m", 100, false);
    store.record("m", 100, false);
    assert!(!store.snapshot()[0].degraded);
    store.record("m", 100, false);
    assert!(store.snapshot()[0].degraded);
    store.record("m", 100, true);
    let snap = store.snapshot();
    assert!(!snap[0].degraded);
    assert_eq!(snap[0].consecutive_failures, 0);
    assert_eq!(snap[0].total, 4);
    assert_eq!(snap[0].success, 1);
    assert_eq!(snap[0].sample_count, 1);
}

#[test]
fn stats_ring_keeps_latest_samples() {
    let mut entry = ModelEntry::new();
    for i in 0..150u64 {
        entry.push(i);
    }
    // the 100 kept samples are 50..=149
    assert_eq!(entry.latency_sum_ms(), (50..150u128).sum::<u128>());
}

#[test]
fn stats_key_failure_summary_lists_counts() {
    let mut store = ModelStatsStore::new(3000);
    store.record_with_key("m", "k1", 10, false);
    store.record_with_key("m", "k1", 10, false);
    store.record_with_key("m", "k2", 10, true);
    let summary = store.get_key_failure_summary();
    assert_eq!(summary.len(), 1);
    assert_eq!(summary[0].0, "m");
    let mut counts = summary[0].1.clone();
    counts.sort();
    assert_eq!(counts, vec![("k1".to_string(), 2), ("k2".to_string(), 0)]);
}

#[test]
fn stats_racing_candidates_respects_max() {
    let store = ModelStatsStore::new(3000);
    let candidates = cands(&["a", "b", "c"]);
    assert_eq!(store.racing_candidates(&candidates, 2).len(), 2);
    assert_eq!(store.racing_candidates(&candidates, 0).len(), 0);
}

#[test]
fn test_proxy_http_error_recording() {
    let mut stats = ModelStatsStore::new(100);
    stats.record("test-model", 1000, false);
    let snapshot = stats.snapshot();
    assert!(snapshot.iter().any(|s| s.id == "test-model"));
}

#[test]
fn test_circuit_breaker_state_transitions() {
    let mut stats = ModelStatsStore::new(100);
    for _ in 0..10 {
        stats.record("degraded-model", 5000, false);
    }
    let snapshot = stats.snapshot();
    assert!(snapshot.iter().any(|s| s.id == "degraded-model"));
}
