use nimaproxy::config::{
    CircuitBreakerConfig, Config, LimitsConfig, LoggingConfig, ModelCompat, RacingConfig,
    RoutingConfig, TimeoutsConfig,
};

fn strings(v: &[&str]) -> Vec<String> {
    v.iter().map(|s| s.to_string()).collect()
}

fn bare_config() -> Config {
    Config {
        listen: None,
        target: None,
        keys: Vec::new(),
        routing: None,
        racing: None,
        limits: None,
        timeouts: None,
        logging: None,
        model_params: None,
        model_compat: None,
        circuit_breaker: None,
    }
}

fn racing_section() -> RacingConfig {
    RacingConfig {
        enabled: None,
        models: None,
        max_parallel: None,
        timeout_ms: None,
        max_total_request_ms: None,
        strategy: None,
        adaptive: None,
        min_parallel: None,
        pressure_parallel: None,
        degraded_parallel: None,
        fast_models: None,
        fallback_models: None,
        large_prompt_char_threshold: None,
        large_prompt_parallel: None,
        solo_fallback: None,
        model_check_interval_secs: None,
    }
}

#[test]
fn test_transform_role_helper_logic() {
    let compat = ModelCompat {
        supports_developer_role: Some(vec!["allowed-model".to_string()]),
        supports_tool_messages: Some(vec!["allowed-model".to_string()]),
    };

    assert!(!compat.should_transform_developer_role("allowed-model"));
    assert!(!compat.should_transform_tool_messages("allowed-model"));
    assert!(compat.should_transform_developer_role("blocked-model"));
    assert!(compat.should_transform_tool_messages("blocked-model"));
}

#[test]
fn compat_all_exempts_every_model() {
    let compat = ModelCompat {
        supports_developer_role: Some(strings(&["all"])),
        supports_tool_messages: Some(strings(&["all"])),
    };
    assert!(!compat.should_transform_developer_role("any-model"));
    assert!(!compat.should_transform_tool_messages("any-model"));
}

#[test]
fn compat_without_lists_rewrites_every_model() {
    let compat = ModelCompat { supports_developer_role: None, supports_tool_messages: None };
    assert!(compat.should_transform_developer_role("m"));
    assert!(compat.should_transform_tool_messages("m"));
    let empty = ModelCompat { supports_developer_role: Some(Vec::new()), supports_tool_messages: Some(Vec::new()) };
    assert!(empty.should_transform_developer_role("m"));
    assert!(empty.should_transform_tool_messages("m"));
}

#[test]
fn config_defaults_without_sections() {
    let c = bare_config();
    assert_eq!(c.listen_addr(), "127.0.0.1:8080");
    assert_eq!(c.target_url(), "https://integrate.api.nvidia.com");
    assert!(c.racing_enabled());
    assert!(c.racing_models().is_empty());
    assert_eq!(c.racing_max_parallel(), 3);
    assert_eq!(c.racing_timeout_ms(), 8000);
    assert_eq!(c.racing_max_total_request_ms(), 30000);
    assert_eq!(c.racing_strategy(), "complete");
    assert!(!c.racing_adaptive());
    assert_eq!(c.racing_min_parallel(), 2);
    assert_eq!(c.racing_pressure_parallel(), 6);
    assert_eq!(c.racing_degraded_parallel(), 3);
    assert_eq!(c.racing_large_prompt_char_threshold(), 0);
    assert_eq!(c.racing_large_prompt_parallel(), 1);
    assert!(c.racing_solo_fallback());
    assert_eq!(c.racing_model_check_interval_secs(), 3600);
    assert_eq!(c.max_upstream_in_flight(), 48);
    assert_eq!(c.max_in_flight_per_key(), 3);
    assert_eq!(c.admission_wait_ms(), 1500);
    assert_eq!(c.min_dynamic_timeout_ms(), 8000);
    assert_eq!(c.dynamic_sample_floor(), 10);
    assert!(c.routing_models().is_empty());
    assert_eq!(c.routing_strategy(), "round_robin");
    assert_eq!(c.routing_spike_threshold_ms(), 3000);
    assert!(c.routing_enabled());
    assert!(c.should_transform_developer_role("m"));
    assert!(c.should_transform_tool_messages("m"));
    assert!(!c.logging_enabled());
    assert_eq!(c.logging_path(), "/var/log/nimaproxy/turns.jsonl");
    let cb = c.circuit_breaker_config();
    assert_eq!(cb.max_output_tokens, 32000);
    assert_eq!(cb.max_repetitions, 5);
    assert_eq!(cb.max_consecutive_assistant_turns, 10);
}

#[test]
fn config_values_and_floors() {
    let mut c = bare_config();
    c.listen = Some("0.0.0.0:9090".to_string());
    c.target = Some("https://custom.api.com".to_string());
    let mut r = racing_section();
    r.enabled = Some(false);
    r.models = Some(strings(&["a", "b"]));
    r.max_parallel = Some(1);
    r.min_parallel = Some(0);
    r.pressure_parallel = Some(9);
    r.degraded_parallel = Some(1);
    r.large_prompt_parallel = Some(0);
    r.strategy = Some("first_token".to_string());
    c.racing = Some(r);
    c.limits = Some(LimitsConfig { max_upstream_in_flight: Some(0), max_in_flight_per_key: Some(0), admission_wait_ms: Some(5000), auth_failure_cooldown_secs: None });
    c.timeouts = Some(TimeoutsConfig { min_dynamic_timeout_ms: Some(10), dynamic_sample_floor: Some(1) });
    c.logging = Some(LoggingConfig { enabled: Some(true), path: Some("/tmp/t.jsonl".to_string()) });
    c.routing = Some(RoutingConfig { strategy: Some("latency_aware".to_string()), models: Some(Vec::new()), spike_threshold_ms: Some(12000) });
    c.circuit_breaker = Some(CircuitBreakerConfig { max_output_tokens: Some(100), max_repetitions: None, max_consecutive_assistant_turns: Some(0) });
    assert_eq!(c.listen_addr(), "0.0.0.0:9090");
    assert_eq!(c.target_url(), "https://custom.api.com");
    assert!(!c.racing_enabled());
    assert_eq!(c.racing_models(), strings(&["a", "b"]));
    assert_eq!(c.racing_max_parallel(), 2);
    assert_eq!(c.racing_min_parallel(), 2);
    assert_eq!(c.racing_pressure_parallel(), 9);
    assert_eq!(c.racing_degraded_parallel(), 2);
    assert_eq!(c.racing_large_prompt_parallel(), 1);
    assert_eq!(c.racing_strategy(), "first_token");
    assert_eq!(c.max_upstream_in_flight(), 1);
    assert_eq!(c.max_in_flight_per_key(), 1);
    assert_eq!(c.admission_wait_ms(), 5000);
    assert_eq!(c.min_dynamic_timeout_ms(), 1000);
    assert_eq!(c.dynamic_sample_floor(), 2);
    assert!(c.logging_enabled());
    assert_eq!(c.logging_path(), "/tmp/t.jsonl");
    assert!(!c.routing_enabled());
    assert_eq!(c.routing_strategy(), "latency_aware");
    assert_eq!(c.routing_spike_threshold_ms(), 12000);
    let cb = c.circuit_breaker_config();
    assert_eq!(cb.max_output_tokens, 100);
    assert_eq!(cb.max_repetitions, 5);
    assert_eq!(cb.max_consecutive_assistant_turns, 0);
}

// The integration tests `test_role_transformation_developer_to_user`,
// `..._tool_to_assistant`, `..._no_change_for_allowed_model` and `..._all_mistral_models`
// expect a model *listed* as supporting a role to have that role rewritten, and an unlisted
// one not to. The helper's own test and the README say the opposite: a listed model keeps
// its roles. These cases use the same inputs and follow the README.

#[test]
fn listed_model_keeps_developer_role() {
    let compat = ModelCompat { supports_developer_role: Some(strings(&["blocked-model"])), supports_tool_messages: None };
    assert!(!compat.should_transform_developer_role("blocked-model"));
    let compat = ModelCompat { supports_developer_role: Some(strings(&["allowed-model"])), supports_tool_messages: None };
    assert!(!compat.should_transform_developer_role("allowed-model"));
}

#[test]
fn listed_model_keeps_tool_role() {
    let compat = ModelCompat { supports_developer_role: None, supports_tool_messages: Some(strings(&["allowed-model"])) };
    assert!(!compat.should_transform_tool_messages("allowed-model"));
}

#[test]
fn unlisted_mistral_model_gets_developer_role_rewritten() {
    let compat = ModelCompat {
        supports_developer_role: Some(strings(&["mistralai/mistral-small-4-119b-2603"])),
        supports_tool_messages: None,
    };
    assert!(compat.should_transform_developer_role("mistralai/mistral-large-3-675b-instruct-2512"));
}
