use nimaproxy::config::{
    CircuitBreakerConfig, Config, KeyEntry, LimitsConfig, LoggingConfig, ModelCompat, ModelParams,
    RacingConfig, RoutingConfig, TimeoutsConfig,
};
use nimaproxy::json::Json;
use toml::Value;

// Reads a configuration text into the library's `Config`, field by field.

fn text(t: &toml::Table, k: &str) -> Option<String> {
    t.get(k).and_then(|v| v.as_str()).map(|s| s.to_string())
}

fn texts(t: &toml::Table, k: &str) -> Option<Vec<String>> {
    t.get(k).and_then(|v| v.as_array()).map(|a| a.iter().filter_map(|x| x.as_str().map(|s| s.to_string())).collect())
}

fn integer(t: &toml::Table, k: &str) -> Option<i64> {
    t.get(k).and_then(|v| v.as_integer())
}

fn boolean(t: &toml::Table, k: &str) -> Option<bool> {
    t.get(k).and_then(|v| v.as_bool())
}

fn number(t: &toml::Table, k: &str) -> Option<Json> {
    match t.get(k) {
        Some(Value::Integer(i)) => Some(Json::Number(i.to_string())),
        Some(Value::Float(f)) => Some(Json::Number(serde_json::Value::from(*f).to_string())),
        _ => None,
    }
}

fn json_of(v: &Value) -> Json {
    match v {
        Value::String(s) => Json::Str(s.clone()),
        Value::Integer(i) => Json::Number(i.to_string()),
        Value::Float(f) => Json::Number(serde_json::Value::from(*f).to_string()),
        Value::Boolean(b) => Json::Bool(*b),
        Value::Datetime(d) => Json::Str(d.to_string()),
        Value::Array(a) => Json::Array(a.iter().map(json_of).collect()),
        Value::Table(t) => Json::Object(t.iter().map(|(k, v)| (k.clone(), json_of(v))).collect()),
    }
}

fn section<'a>(t: &'a toml::Table, k: &str) -> Option<&'a toml::Table> {
    t.get(k).and_then(|v| v.as_table())
}

fn params(t: &toml::Table) -> ModelParams {
    ModelParams {
        temperature: number(t, "temperature"),
        top_p: number(t, "top_p"),
        top_k: number(t, "top_k"),
        max_tokens: number(t, "max_tokens"),
        reasoning_budget: number(t, "reasoning_budget"),
        stream: boolean(t, "stream"),
        frequency_penalty: number(t, "frequency_penalty"),
        presence_penalty: number(t, "presence_penalty"),
        repetition_penalty: number(t, "repetition_penalty"),
        min_p: number(t, "min_p"),
        reasoning_effort: text(t, "reasoning_effort"),
        seed: number(t, "seed"),
        chat_template_kwargs: section(t, "chat_template_kwargs")
            .map(|kw| kw.iter().map(|(k, v)| (k.clone(), json_of(v))).collect()),
    }
}

fn load_str(content: &str) -> Config {
    let t: toml::Table = content.parse().unwrap();
    Config {
        listen: text(&t, "listen"),
        target: text(&t, "target"),
        keys: t
            .get("keys")
            .and_then(|v| v.as_array())
            .map(|a| {
                a.iter()
                    .filter_map(|k| k.as_table())
                    .map(|k| KeyEntry { key: text(k, "key").unwrap(), label: text(k, "label") })
                    .collect()
            })
            .unwrap_or_default(),
        routing: section(&t, "routing").map(|r| RoutingConfig {
            strategy: text(r, "strategy"),
            models: texts(r, "models"),
            spike_threshold_ms: match r.get("spike_threshold_ms") {
                Some(Value::Integer(i)) => Some(*i as u64),
                Some(Value::Float(f)) => Some(f.round() as u64),
                _ => None,
            },
        }),
        racing: section(&t, "racing").map(|r| RacingConfig {
            enabled: boolean(r, "enabled"),
            models: texts(r, "models"),
            max_parallel: integer(r, "max_parallel").map(|v| v as usize),
            timeout_ms: integer(r, "timeout_ms").map(|v| v as u64),
            max_total_request_ms: integer(r, "max_total_request_ms").map(|v| v as u64),
            strategy: text(r, "strategy"),
            adaptive: boolean(r, "adaptive"),
            min_parallel: integer(r, "min_parallel").map(|v| v as usize),
            pressure_parallel: integer(r, "pressure_parallel").map(|v| v as usize),
            degraded_parallel: integer(r, "degraded_parallel").map(|v| v as usize),
            fast_models: texts(r, "fast_models"),
            fallback_models: texts(r, "fallback_models"),
            large_prompt_char_threshold: integer(r, "large_prompt_char_threshold").map(|v| v as usize),
            large_prompt_parallel: integer(r, "large_prompt_parallel").map(|v| v as usize),
            solo_fallback: boolean(r, "solo_fallback"),
            model_check_interval_secs: integer(r, "model_check_interval_secs").map(|v| v as u64),
        }),
        limits: section(&t, "limits").map(|l| LimitsConfig {
            max_upstream_in_flight: integer(l, "max_upstream_in_flight").map(|v| v as usize),
            max_in_flight_per_key: integer(l, "max_in_flight_per_key").map(|v| v as usize),
            admission_wait_ms: integer(l, "admission_wait_ms").map(|v| v as u64),
            auth_failure_cooldown_secs: integer(l, "auth_failure_cooldown_secs").map(|v| v as u64),
        }),
        timeouts: section(&t, "timeouts").map(|l| TimeoutsConfig {
            min_dynamic_timeout_ms: integer(l, "min_dynamic_timeout_ms").map(|v| v as u64),
            dynamic_sample_floor: integer(l, "dynamic_sample_floor").map(|v| v as usize),
        }),
        logging: section(&t, "logging").map(|l| LoggingConfig { enabled: boolean(l, "enabled"), path: text(l, "path") }),
        model_params: section(&t, "model_params")
            .map(|m| m.iter().filter_map(|(k, v)| v.as_table().map(|p| (k.clone(), params(p)))).collect()),
        model_compat: section(&t, "model_compat").map(|c| ModelCompat {
            supports_developer_role: texts(c, "supports_developer_role"),
            supports_tool_messages: texts(c, "supports_tool_messages"),
        }),
        circuit_breaker: section(&t, "circuit_breaker").map(|c| CircuitBreakerConfig {
            max_output_tokens: integer(c, "max_output_tokens").map(|v| v as u32),
            max_repetitions: integer(c, "max_repetitions").map(|v| v as u32),
            max_consecutive_assistant_turns: integer(c, "max_consecutive_assistant_turns").map(|v| v as u32),
        }),
    }
}

fn is_number(j: &Option<Json>, text: &str) -> bool {
    matches!(j, Some(Json::Number(t)) if t == text)
}

const ONE_KEY: &str = r#"
[[keys]]
key = "test"
"#;

#[test]
fn test_load_valid_config() {
    let config = load_str(
        r#"
listen = "127.0.0.1:9000"
target = "https://custom.api.com"

[[keys]]
key = "nvapi-test"
label = "test-key"

[routing]
strategy = "latency_aware"
"#,
    );
    assert_eq!(config.listen_addr(), "127.0.0.1:9000");
    assert_eq!(config.target_url(), "https://custom.api.com");
    assert_eq!(config.keys.len(), 1);
    assert_eq!(config.keys[0].key, "nvapi-test");
}

#[test]
fn test_defaults() {
    let config = load_str(ONE_KEY);
    assert_eq!(config.listen_addr(), "127.0.0.1:8080");
    assert_eq!(config.target_url(), "https://integrate.api.nvidia.com");
}

#[test]
fn test_multiple_keys() {
    let config = load_str(
        r#"
[[keys]]
key = "key1"
label = "doltares"

[[keys]]
key = "key2"
label = "ares"

[[keys]]
key = "key3"
"#,
    );
    assert_eq!(config.keys.len(), 3);
    assert_eq!(config.keys[0].label, Some("doltares".to_string()));
    assert_eq!(config.keys[1].label, Some("ares".to_string()));
    assert_eq!(config.keys[2].label, None);
}

#[test]
fn test_routing_config_parsing() {
    let config = load_str(
        r#"
[[keys]]
key = "test"

[routing]
strategy = "latency_aware"
spike_threshold_ms = 5000.0
"#,
    );
    assert_eq!(config.keys.len(), 1);
    assert_eq!(config.routing_spike_threshold_ms(), 5000);
}

#[test]
fn test_model_params_parsing() {
    let config = load_str(
        r#"
[[keys]]
key = "test"

[model_params."nvidia/llama"]
temperature = 0.7
top_p = 0.95
top_k = 40
max_tokens = 16384
reasoning_budget = 16384
stream = false
repetition_penalty = 1.0
reasoning_effort = "high"
chat_template_kwargs = { thinking = true, enable_thinking = true }

[model_params."nvidia/coder"]
temperature = 0.3
top_p = 0.9
max_tokens = 4096
"#,
    );
    let llama = config.get_model_params("nvidia/llama").unwrap();
    assert!(is_number(&llama.temperature, "0.7"));
    assert!(is_number(&llama.top_p, "0.95"));
    assert!(is_number(&llama.top_k, "40"));
    assert!(is_number(&llama.max_tokens, "16384"));
    assert!(is_number(&llama.reasoning_budget, "16384"));
    assert_eq!(llama.stream, Some(false));
    assert!(is_number(&llama.repetition_penalty, "1.0"));
    assert_eq!(llama.reasoning_effort, Some("high".to_string()));
    assert!(matches!(llama.get("thinking"), Some(Json::Bool(true))));
    assert!(matches!(llama.get("enable_thinking"), Some(Json::Bool(true))));

    let coder = config.get_model_params("nvidia/coder").unwrap();
    assert!(is_number(&coder.temperature, "0.3"));
    assert!(is_number(&coder.top_p, "0.9"));
    assert!(is_number(&coder.max_tokens, "4096"));
}

#[test]
fn test_model_params_returns_none_for_unknown_model() {
    let config = load_str(
        r#"
[[keys]]
key = "test"

[model_params."known-model"]
temperature = 0.5
"#,
    );
    assert!(config.get_model_params("unknown-model").is_none());
    assert!(config.get_model_params("known-model").is_some());
}

#[test]
fn test_model_params_returns_none_when_not_configured() {
    let config = load_str(ONE_KEY);
    assert!(config.get_model_params("any-model").is_none());
}

#[test]
fn test_model_params_partial_config() {
    let config = load_str(
        r#"
[[keys]]
key = "test"

[model_params."fast-model"]
temperature = 1.0
"#,
    );
    let params = config.get_model_params("fast-model").unwrap();
    assert!(is_number(&params.temperature, "1.0"));
    assert!(params.top_p.is_none());
    assert!(params.top_k.is_none());
    assert!(params.max_tokens.is_none());
    assert!(params.reasoning_budget.is_none());
    assert_eq!(params.stream, None);
    assert!(params.repetition_penalty.is_none());
}

#[test]
fn test_circuit_breaker_config_parsing() {
    let config = load_str(
        r#"
[[keys]]
key = "test"

[circuit_breaker]
max_output_tokens = 16000
max_repetitions = 3
max_consecutive_assistant_turns = 5
"#,
    );
    let cb = config.circuit_breaker_config();
    assert_eq!(cb.max_output_tokens, 16000);
    assert_eq!(cb.max_repetitions, 3);
    assert_eq!(cb.max_consecutive_assistant_turns, 5);
}

#[test]
fn test_circuit_breaker_config_uses_defaults() {
    let cb = load_str(ONE_KEY).circuit_breaker_config();
    assert_eq!(cb.max_output_tokens, 32000);
    assert_eq!(cb.max_repetitions, 5);
    assert_eq!(cb.max_consecutive_assistant_turns, 10);
}

#[test]
fn test_model_compat_parsing() {
    let config = load_str(
        r#"
[[keys]]
key = "test"

[model_compat]
supports_developer_role = ["mistralai/model1", "mistralai/model2"]
supports_tool_messages = ["mistralai/model1"]
"#,
    );
    assert!(config.model_compat.is_some());
    let compat = config.model_compat.as_ref().unwrap();
    assert!(!compat.should_transform_developer_role("mistralai/model1"));
    assert!(!compat.should_transform_developer_role("mistralai/model2"));
    assert!(compat.should_transform_developer_role("unknown-model"));
    assert!(compat.should_transform_developer_role("stepfun-ai/step-3.7-flash"));
    assert!(!compat.should_transform_tool_messages("mistralai/model1"));
    assert!(compat.should_transform_tool_messages("mistralai/model2"));
    assert!(compat.should_transform_tool_messages("unknown-model"));
}

#[test]
fn test_model_compat_empty_returns_false() {
    let config = load_str(ONE_KEY);
    assert!(config.should_transform_developer_role("any-model"));
    assert!(config.should_transform_tool_messages("any-model"));
}

#[test]
fn test_listen_addr_default() {
    assert_eq!(load_str(ONE_KEY).listen_addr(), "127.0.0.1:8080");
}

#[test]
fn test_listen_addr_custom() {
    let config = load_str("listen = \"0.0.0.0:9090\"\n[[keys]]\nkey = \"test\"\n");
    assert_eq!(config.listen_addr(), "0.0.0.0:9090");
}

#[test]
fn test_target_url_default() {
    assert_eq!(load_str(ONE_KEY).target_url(), "https://integrate.api.nvidia.com");
}

#[test]
fn test_target_url_custom() {
    let config = load_str("target = \"https://custom.endpoint.com\"\n[[keys]]\nkey = \"test\"\n");
    assert_eq!(config.target_url(), "https://custom.endpoint.com");
}

#[test]
fn test_racing_enabled_default() {
    assert_eq!(load_str(ONE_KEY).racing_enabled(), true);
}

#[test]
fn test_racing_enabled_true() {
    let config = load_str("[[keys]]\nkey = \"test\"\n[racing]\nenabled = true\n");
    assert_eq!(config.racing_enabled(), true);
}

#[test]
fn test_racing_models_empty() {
    assert!(load_str(ONE_KEY).racing_models().is_empty());
}

#[test]
fn test_racing_models_with_config() {
    let config = load_str("[[keys]]\nkey = \"test\"\n[racing]\nmodels = [\"model1\", \"model2\", \"model3\"]\n");
    let models = config.racing_models();
    assert_eq!(models.len(), 3);
    assert_eq!(models[0], "model1");
    assert_eq!(models[2], "model3");
}

#[test]
fn test_racing_max_parallel_default() {
    assert_eq!(load_str(ONE_KEY).racing_max_parallel(), 3);
}

#[test]
fn test_racing_max_parallel_configured() {
    let config = load_str("[[keys]]\nkey = \"test\"\n[racing]\nmax_parallel = 5\n");
    assert_eq!(config.racing_max_parallel(), 5);
}

#[test]
fn test_racing_timeout_ms_default() {
    assert_eq!(load_str(ONE_KEY).racing_timeout_ms(), 8000);
}

#[test]
fn test_racing_timeout_ms_configured() {
    let config = load_str("[[keys]]\nkey = \"test\"\n[racing]\ntimeout_ms = 12000\nmax_total_request_ms = 30000\n");
    assert_eq!(config.racing_timeout_ms(), 12000);
    assert_eq!(config.racing_max_total_request_ms(), 30000);
}

#[test]
fn test_racing_max_total_request_ms_default() {
    assert_eq!(load_str(ONE_KEY).racing_max_total_request_ms(), 30000);
}

#[test]
fn test_racing_max_total_request_ms_can_be_disabled() {
    let config = load_str("[[keys]]\nkey = \"test\"\n[racing]\nmax_total_request_ms = 0\n");
    assert_eq!(config.racing_max_total_request_ms(), 0);
}

#[test]
fn test_racing_strategy_default() {
    assert_eq!(load_str(ONE_KEY).racing_strategy(), "complete");
}

#[test]
fn test_racing_strategy_configured() {
    let config = load_str("[[keys]]\nkey = \"test\"\n[racing]\nstrategy = \"first_token\"\n");
    assert_eq!(config.racing_strategy(), "first_token");
}

#[test]
fn test_racing_model_check_interval_secs_default() {
    assert_eq!(load_str(ONE_KEY).racing_model_check_interval_secs(), 3600);
}

#[test]
fn test_racing_model_check_interval_secs_configured() {
    let config = load_str("[[keys]]\nkey = \"test\"\n[racing]\nmodel_check_interval_secs = 900\n");
    assert_eq!(config.racing_model_check_interval_secs(), 900);
}

#[test]
fn test_racing_model_check_interval_secs_can_be_disabled() {
    let config = load_str("[[keys]]\nkey = \"test\"\n[racing]\nmodel_check_interval_secs = 0\n");
    assert_eq!(config.racing_model_check_interval_secs(), 0);
}

#[test]
fn test_adaptive_racing_limits_and_timeouts_configured() {
    let config = load_str(
        r#"
[[keys]]
key = "test"

[racing]
adaptive = true
min_parallel = 2
pressure_parallel = 6
degraded_parallel = 3
fast_models = ["fast-a", "fast-b"]
fallback_models = ["slow-a"]
large_prompt_char_threshold = 12000
large_prompt_parallel = 1
solo_fallback = true
max_total_request_ms = 45000

[limits]
max_upstream_in_flight = 48
max_in_flight_per_key = 3
admission_wait_ms = 5000

[logging]
enabled = true
path = "/tmp/nimaproxy-turns.jsonl"

[timeouts]
min_dynamic_timeout_ms = 8000
dynamic_sample_floor = 10
"#,
    );
    assert!(config.racing_adaptive());
    assert_eq!(config.racing_min_parallel(), 2);
    assert_eq!(config.racing_pressure_parallel(), 6);
    assert_eq!(config.racing_degraded_parallel(), 3);
    assert_eq!(config.racing_fast_models(), vec!["fast-a", "fast-b"]);
    assert_eq!(config.racing_fallback_models(), vec!["slow-a"]);
    assert_eq!(config.racing_large_prompt_char_threshold(), 12000);
    assert_eq!(config.racing_large_prompt_parallel(), 1);
    assert!(config.racing_solo_fallback());
    assert_eq!(config.racing_max_total_request_ms(), 45000);
    assert_eq!(config.max_upstream_in_flight(), 48);
    assert_eq!(config.max_in_flight_per_key(), 3);
    assert_eq!(config.admission_wait_ms(), 5000);
    assert!(config.logging_enabled());
    assert_eq!(config.logging_path(), "/tmp/nimaproxy-turns.jsonl");
    assert_eq!(config.min_dynamic_timeout_ms(), 8000);
    assert_eq!(config.dynamic_sample_floor(), 10);
}

#[test]
fn test_adaptive_racing_defaults() {
    let config = load_str(ONE_KEY);
    assert!(!config.racing_adaptive());
    assert_eq!(config.racing_min_parallel(), 2);
    assert_eq!(config.racing_pressure_parallel(), 6);
    assert_eq!(config.racing_degraded_parallel(), 3);
    assert_eq!(config.racing_large_prompt_char_threshold(), 0);
    assert_eq!(config.racing_large_prompt_parallel(), 1);
    assert!(config.racing_solo_fallback());
    assert_eq!(config.racing_max_total_request_ms(), 30000);
    assert_eq!(config.max_upstream_in_flight(), 48);
    assert_eq!(config.max_in_flight_per_key(), 3);
    assert_eq!(config.admission_wait_ms(), 1500);
    assert!(!config.logging_enabled());
    assert_eq!(config.logging_path(), "/var/log/nimaproxy/turns.jsonl");
    assert_eq!(config.min_dynamic_timeout_ms(), 8000);
    assert_eq!(config.dynamic_sample_floor(), 10);
}

#[test]
fn test_routing_models_empty() {
    assert!(load_str(ONE_KEY).routing_models().is_empty());
}

#[test]
fn test_routing_models_with_config() {
    let config = load_str("[[keys]]\nkey = \"test\"\n[routing]\nmodels = [\"auto-model-1\", \"auto-model-2\"]\n");
    let models = config.routing_models();
    assert_eq!(models.len(), 2);
    assert_eq!(models[0], "auto-model-1");
    assert_eq!(models[1], "auto-model-2");
}

#[test]
fn test_routing_strategy_default() {
    assert_eq!(load_str(ONE_KEY).routing_strategy(), "round_robin");
}

#[test]
fn test_routing_strategy_configured() {
    let config = load_str("[[keys]]\nkey = \"test\"\n[routing]\nstrategy = \"latency_aware\"\n");
    assert_eq!(config.routing_strategy(), "latency_aware");
}

#[test]
fn test_routing_spike_threshold_default() {
    assert_eq!(load_str(ONE_KEY).routing_spike_threshold_ms(), 3000);
}

#[test]
fn test_routing_spike_threshold_configured() {
    let config = load_str("[[keys]]\nkey = \"test\"\n[routing]\nspike_threshold_ms = 4500.0\n");
    assert_eq!(config.routing_spike_threshold_ms(), 4500);
}

#[test]
fn test_routing_enabled_with_models() {
    let config = load_str("[[keys]]\nkey = \"test\"\n[routing]\nmodels = [\"model1\"]\n");
    assert_eq!(config.routing_enabled(), true);
}

#[test]
fn test_routing_enabled_empty() {
    let config = load_str("[[keys]]\nkey = \"test\"\n[routing]\nstrategy = \"round_robin\"\n");
    assert_eq!(config.routing_enabled(), true);
}

#[test]
fn test_get_model_params_none() {
    assert!(load_str(ONE_KEY).get_model_params("any-model").is_none());
}

#[test]
fn test_circuit_breaker_defaults() {
    let cb = load_str(ONE_KEY).circuit_breaker_config();
    assert_eq!(cb.max_output_tokens, 32000);
    assert_eq!(cb.max_repetitions, 5);
    assert_eq!(cb.max_consecutive_assistant_turns, 10);
}

#[test]
fn test_circuit_breaker_configured() {
    let config = load_str(
        "[[keys]]\nkey = \"test\"\n[circuit_breaker]\nmax_output_tokens = 8000\nmax_repetitions = 2\nmax_consecutive_assistant_turns = 3\n",
    );
    let cb = config.circuit_breaker_config();
    assert_eq!(cb.max_output_tokens, 8000);
    assert_eq!(cb.max_repetitions, 2);
    assert_eq!(cb.max_consecutive_assistant_turns, 3);
}

#[test]
fn test_model_params_get_missing_key() {
    let params = ModelParams {
        chat_template_kwargs: Some(vec![("existing_key".to_string(), Json::Str("value".to_string()))]),
        ..Default::default()
    };
    assert!(params.get("existing_key").is_some());
    assert!(params.get("missing_key").is_none());
    let params_no_kwargs = ModelParams::default();
    assert!(params_no_kwargs.get("any_key").is_none());
}
