use nimaproxy::config::ModelCompat;
use nimaproxy::dispatch::extract_response_metrics;
use nimaproxy::gateway::AppState;
use nimaproxy::json::Json;
use nimaproxy::model_router::{ModelRouter, Strategy};
use nimaproxy::model_stats::ModelStatsStore;
use nimaproxy::proxy::{is_minimax_model, is_mistral_model};
use nimaproxy::request::{
    fix_message_ordering, inject_minimax_system_message, inject_mistral_tool_params,
    sanitize_tool_calls, validate_model_exists,
};
use nimaproxy::tool_ids::validate_mistral_tool_call_ids;
use serde_json::Value;

fn to_json(v: &Value) -> Json {
    match v {
        Value::Null => Json::Null,
        Value::Bool(b) => Json::Bool(*b),
        Value::Number(n) => Json::Number(n.to_string()),
        Value::String(s) => Json::Str(s.clone()),
        Value::Array(a) => Json::Array(a.iter().map(to_json).collect()),
        Value::Object(m) => Json::Object(m.iter().map(|(k, v)| (k.clone(), to_json(v))).collect()),
    }
}

fn from_json(j: &Json) -> Value {
    match j {
        Json::Null => Value::Null,
        Json::Bool(b) => Value::Bool(*b),
        Json::Number(t) => serde_json::from_str(t).unwrap(),
        Json::Str(s) => Value::String(s.clone()),
        Json::Array(a) => Value::Array(a.iter().map(from_json).collect()),
        Json::Object(m) => {
            let mut out = serde_json::Map::new();
            for (k, v) in m {
                if !out.contains_key(k) {
                    out.insert(k.clone(), from_json(v));
                }
            }
            Value::Object(out)
        }
    }
}

fn parse(text: &str) -> Json {
    to_json(&serde_json::from_str::<Value>(text).unwrap())
}

fn metrics(text: &str) -> (u32, u32, bool) {
    extract_response_metrics(text)
}

fn create_test_app_state() -> AppState {
    AppState::new(
        vec![],
        "https://test.api.nvidia.com".to_string(),
        None,
        ModelStatsStore::new(3000),
        vec![],
        3,
        8000,
        "complete".to_string(),
        vec![],
        ModelCompat::default(),
    )
}

// validate_model_exists

#[test]
fn test_validate_model_exists_empty_model() {
    let state = create_test_app_state();
    assert!(validate_model_exists("", &state).is_ok());
}

#[test]
fn test_validate_model_exists_auto_model() {
    let state = create_test_app_state();
    assert!(validate_model_exists("auto", &state).is_ok());
}

#[test]
fn test_validate_model_exists_in_available_models() {
    let mut state = create_test_app_state();
    state.available_models.push("openai/gpt-4".to_string());
    assert!(validate_model_exists("openai/gpt-4", &state).is_ok());
}

#[test]
fn test_validate_model_exists_not_in_available_models() {
    let mut state = create_test_app_state();
    state.available_models.push("openai/gpt-4".to_string());
    let result = validate_model_exists("acme/unlisted-model", &state);
    assert!(result.is_err());
    assert!(result.unwrap_err().contains("not found"));
}

#[test]
fn test_validate_model_exists_in_racing_models() {
    let mut state = create_test_app_state();
    state.racing_models = vec!["mistralai/mistral-large".to_string()];
    assert!(validate_model_exists("mistralai/mistral-large", &state).is_ok());
}

#[test]
fn test_validate_model_exists_with_router() {
    let mut state = create_test_app_state();
    state.router = Some(ModelRouter::new(
        vec!["model1".to_string(), "model2".to_string()],
        Strategy::RoundRobin,
    ));
    assert!(validate_model_exists("any-model", &state).is_ok());
}

#[test]
fn test_validate_model_exists_passthrough_mode() {
    let state = create_test_app_state();
    assert!(validate_model_exists("some-random-model", &state).is_ok());
}

#[test]
fn validate_model_exists_error_text() {
    let mut state = create_test_app_state();
    state.available_models.push("a".to_string());
    assert_eq!(
        validate_model_exists("b", &state),
        Err("model 'b' not found in available models".to_string())
    );
    assert!(validate_model_exists("nimaproxy/auto", &state).is_ok());
}

// extract_response_metrics

#[test]
fn test_extract_response_metrics_empty_string() {
    let (tokens, reps, tool) = metrics("");
    assert_eq!(tokens, 0);
    assert_eq!(reps, 0);
    assert_eq!(tool, false);
}

#[test]
fn test_extract_response_metrics_invalid_json() {
    let (tokens, _reps, tool) = metrics("Hello, this is a test response");
    assert!(tokens > 0);
    assert_eq!(tool, false);
}

#[test]
fn test_extract_response_metrics_with_usage() {
    let json = r#"{"usage": {"completion_tokens": 42}, "choices": []}"#;
    let (tokens, reps, tool) = metrics(json);
    assert_eq!(tokens, 42);
    assert_eq!(reps, 0);
    assert_eq!(tool, false);
}

#[test]
fn test_extract_response_metrics_with_tool_call() {
    let json = r#"{"usage": {"completion_tokens": 10}, "choices": [{"message": {"tool_calls": [{"id": "1"}]}}]}"#;
    let (tokens, _reps, tool) = metrics(json);
    assert_eq!(tokens, 10);
    assert_eq!(tool, true);
}

#[test]
fn test_extract_response_metrics_without_tool_call() {
    let json = r#"{"usage": {"completion_tokens": 10}, "choices": [{"message": {"content": "Hello"}}]}"#;
    let (tokens, _reps, tool) = metrics(json);
    assert_eq!(tokens, 10);
    assert_eq!(tool, false);
}

#[test]
fn test_extract_response_metrics_no_usage_field() {
    let json = r#"{"choices": [{"message": {"content": "Hello"}}]}"#;
    let (tokens, _reps, _tool) = metrics(json);
    assert!(tokens > 0);
}

#[test]
fn test_extract_response_metrics_repetition_in_json() {
    let json = r#"{"usage": {"completion_tokens": 5}, "choices": []}"#;
    let (tokens, _reps, tool) = metrics(json);
    assert_eq!(tokens, 5);
    assert_eq!(tool, false);
}

#[test]
fn test_extract_response_metrics_multiple_choices() {
    let json = r#"{"usage": {"completion_tokens": 20}, "choices": [{"message": {"content": "A"}}, {"message": {"tool_calls": [{"id": "1"}]}}]}"#;
    let (tokens, _reps, tool) = metrics(json);
    assert_eq!(tokens, 20);
    assert_eq!(tool, true);
}

#[test]
fn extract_response_metrics_falls_back_to_quarter_of_length() {
    // 48 bytes, no usage: 12 tokens
    let text = r#"{"choices": [{"message": {"content": "Hello"}}]}"#;
    assert_eq!(text.len(), 48);
    assert_eq!(metrics(text).0, 12);
    // a zero count also falls back
    let text = r#"{"usage": {"completion_tokens": 0}}"#;
    assert_eq!(metrics(text).0, (text.len() / 4) as u32);
}

// inject_minimax_system_message

#[test]
fn test_inject_minimax_system_message_adds_to_empty_messages() {
    let mut json = parse(r#"{"model": "minimaxai/minimax-01", "messages": []}"#);
    inject_minimax_system_message(&mut json, "minimaxai/minimax-01");
    let v = from_json(&json);
    assert_eq!(v["messages"].as_array().unwrap().len(), 1);
    assert_eq!(v["messages"][0]["role"], "system");
    assert!(v["messages"][0]["content"].as_str().unwrap().contains("When using tools, output JSON"));
}

#[test]
fn test_inject_minimax_system_message_prepends_to_existing_system() {
    let mut json = parse(
        r#"{"model": "minimaxai/minimax-01", "messages": [{"role": "system", "content": "Original system message"}]}"#,
    );
    inject_minimax_system_message(&mut json, "minimaxai/minimax-01");
    let v = from_json(&json);
    let content = v["messages"][0]["content"].as_str().unwrap();
    assert!(content.contains("Original system message"));
    assert!(content.contains("When using tools, output JSON"));
}

#[test]
fn test_inject_minimax_system_message_prepends_to_non_system_first_message() {
    let mut json = parse(
        r#"{"model": "minimaxai/minimax-01", "messages": [{"role": "user", "content": "Hello"}]}"#,
    );
    inject_minimax_system_message(&mut json, "minimaxai/minimax-01");
    let v = from_json(&json);
    assert_eq!(v["messages"].as_array().unwrap().len(), 2);
    assert_eq!(v["messages"][0]["role"], "system");
    assert_eq!(v["messages"][1]["role"], "user");
    assert!(v["messages"][0]["content"].as_str().unwrap().contains("When using tools, output JSON"));
}

#[test]
fn test_inject_minimax_system_message_only_for_minimax_models() {
    let mut json_gpt = parse(r#"{"model": "openai/gpt-4", "messages": []}"#);
    inject_minimax_system_message(&mut json_gpt, "openai/gpt-4");
    assert_eq!(from_json(&json_gpt)["messages"].as_array().unwrap().len(), 0);

    let mut json_mistral = parse(r#"{"model": "mistralai/mistral-large", "messages": []}"#);
    inject_minimax_system_message(&mut json_mistral, "mistralai/mistral-large");
    assert_eq!(from_json(&json_mistral)["messages"].as_array().unwrap().len(), 0);
}

#[test]
fn test_inject_minimax_system_message_empty_model_string() {
    let mut json = parse(r#"{"model": "", "messages": []}"#);
    inject_minimax_system_message(&mut json, "");
    assert_eq!(from_json(&json)["messages"].as_array().unwrap().len(), 0);
}

// inject_mistral_tool_params

#[test]
fn test_inject_mistral_tool_params_adds_generation_prompt_for_tool_messages() {
    let mut json = parse(
        r#"{"model": "mistralai/mistral-large", "messages": [{"role": "user", "content": "Weather?"}, {"role": "tool", "content": "Sunny"}]}"#,
    );
    inject_mistral_tool_params(&mut json, "mistralai/mistral-large");
    assert_eq!(from_json(&json)["add_generation_prompt"], Value::Bool(false));
}

#[test]
fn test_inject_mistral_tool_params_continues_final_message_from_assistant() {
    let mut json = parse(
        r#"{"model": "mistralai/mistral-large", "messages": [{"role": "user", "content": "Hello"}, {"role": "assistant", "content": "Hi"}]}"#,
    );
    inject_mistral_tool_params(&mut json, "mistralai/mistral-large");
    assert_eq!(from_json(&json)["continue_final_message"], Value::Bool(true));
}

#[test]
fn test_inject_mistral_tool_params_only_for_mistral_models() {
    let mut json_gpt = parse(
        r#"{"model": "openai/gpt-4", "messages": [{"role": "user", "content": "Hello"}, {"role": "assistant", "content": "Hi"}]}"#,
    );
    inject_mistral_tool_params(&mut json_gpt, "openai/gpt-4");
    let v = from_json(&json_gpt);
    assert!(!v.as_object().unwrap().contains_key("add_generation_prompt"));
    assert!(!v.as_object().unwrap().contains_key("continue_final_message"));
}

#[test]
fn test_inject_mistral_tool_params_no_tool_messages_no_injection() {
    let mut json = parse(
        r#"{"model": "mistralai/mistral-large", "messages": [{"role": "user", "content": "Hello"}, {"role": "assistant", "content": "Hi"}]}"#,
    );
    inject_mistral_tool_params(&mut json, "mistralai/mistral-large");
    let v = from_json(&json);
    assert!(!v.as_object().unwrap().contains_key("add_generation_prompt"));
    assert_eq!(v["continue_final_message"], Value::Bool(true));
}

#[test]
fn test_inject_mistral_tool_params_empty_messages() {
    let mut json = parse(r#"{"model": "mistralai/mistral-large", "messages": []}"#);
    inject_mistral_tool_params(&mut json, "mistralai/mistral-large");
    let v = from_json(&json);
    assert!(!v.as_object().unwrap().contains_key("add_generation_prompt"));
    assert!(!v.as_object().unwrap().contains_key("continue_final_message"));
}

// sanitize_tool_calls

#[test]
fn test_sanitize_tool_calls_removes_empty_named_tool_calls() {
    let mut json = parse(
        r#"{"messages": [{"role": "assistant", "tool_calls": [
            {"id": "call_1", "function": {"name": "get_weather", "arguments": "{}"}},
            {"id": "call_2", "function": {"name": "", "arguments": "{}"}},
            {"id": "call_3", "function": {"name": "get_time", "arguments": "{}"}}
        ]}]}"#,
    );
    sanitize_tool_calls(&mut json);
    let v = from_json(&json);
    let tool_calls = v["messages"][0]["tool_calls"].as_array().unwrap();
    assert_eq!(tool_calls.len(), 2);
    assert_eq!(tool_calls[0]["function"]["name"], "get_weather");
    assert_eq!(tool_calls[1]["function"]["name"], "get_time");
}

#[test]
fn test_sanitize_tool_calls_removes_empty_tools_array() {
    let mut json = parse(
        r#"{"tools": [
            {"function": {"name": "valid_tool", "description": "A tool"}},
            {"function": {"name": "", "description": "Empty name tool"}}
        ], "messages": []}"#,
    );
    sanitize_tool_calls(&mut json);
    let v = from_json(&json);
    let tools = v["tools"].as_array().unwrap();
    assert_eq!(tools.len(), 1);
    assert_eq!(tools[0]["function"]["name"], "valid_tool");
}

#[test]
fn test_sanitize_tool_calls_removes_all_empty_tool_calls() {
    let mut json = parse(
        r#"{"messages": [{"role": "assistant", "tool_calls": [
            {"id": "call_1", "function": {"name": "", "arguments": "{}"}}
        ]}]}"#,
    );
    sanitize_tool_calls(&mut json);
    let v = from_json(&json);
    assert!(!v["messages"][0].as_object().unwrap().contains_key("tool_calls"));
}

#[test]
fn test_sanitize_tool_calls_removes_all_empty_tools() {
    let mut json = parse(r#"{"tools": [{"function": {"name": "", "description": "Empty"}}], "messages": []}"#);
    sanitize_tool_calls(&mut json);
    assert!(!from_json(&json).as_object().unwrap().contains_key("tools"));
}

#[test]
fn test_sanitize_tool_calls_keeps_valid_tool_calls() {
    let mut json = parse(
        r#"{"messages": [{"role": "assistant", "tool_calls": [
            {"id": "call_1", "function": {"name": "get_weather", "arguments": "{}"}}
        ]}]}"#,
    );
    sanitize_tool_calls(&mut json);
    let v = from_json(&json);
    let tool_calls = v["messages"][0]["tool_calls"].as_array().unwrap();
    assert_eq!(tool_calls.len(), 1);
    assert_eq!(tool_calls[0]["function"]["name"], "get_weather");
}

#[test]
fn test_sanitize_tool_calls_no_messages_field() {
    let mut json = parse(r#"{"model": "test"}"#);
    sanitize_tool_calls(&mut json);
    assert!(!from_json(&json).as_object().unwrap().contains_key("tool_calls"));
}

#[test]
fn test_sanitize_tool_calls_empty_messages_array() {
    let mut json = parse(r#"{"messages": []}"#);
    sanitize_tool_calls(&mut json);
    assert_eq!(from_json(&json)["messages"].as_array().unwrap().len(), 0);
}

#[test]
fn test_sanitize_tool_calls_message_without_tool_calls() {
    let mut json = parse(
        r#"{"messages": [{"role": "user", "content": "Hello"}, {"role": "assistant", "content": "Hi"}]}"#,
    );
    sanitize_tool_calls(&mut json);
    assert_eq!(from_json(&json)["messages"].as_array().unwrap().len(), 2);
}

#[test]
fn test_sanitize_tool_calls_mixed_valid_and_empty_tools() {
    let mut json = parse(
        r#"{"tools": [
            {"function": {"name": "tool1", "description": "First"}},
            {"function": {"name": "", "description": "Empty"}},
            {"function": {"name": "tool2", "description": "Second"}},
            {"function": {"name": "", "description": "Another empty"}}
        ], "messages": []}"#,
    );
    sanitize_tool_calls(&mut json);
    let v = from_json(&json);
    let tools = v["tools"].as_array().unwrap();
    assert_eq!(tools.len(), 2);
    assert_eq!(tools[0]["function"]["name"], "tool1");
    assert_eq!(tools[1]["function"]["name"], "tool2");
}

#[test]
fn test_sanitize_strips_tool_call_id_from_assistant() {
    let mut json = parse(
        r#"{"messages": [{"role": "assistant", "content": "Let me call a tool", "tool_call_id": "call_123"}]}"#,
    );
    sanitize_tool_calls(&mut json);
    assert!(!from_json(&json)["messages"][0].as_object().unwrap().contains_key("tool_call_id"));
}

#[test]
fn test_sanitize_keeps_tool_call_id_in_tool_messages() {
    let mut json = parse(
        r#"{"messages": [{"role": "tool", "content": "Tool result", "tool_call_id": "call_123"}]}"#,
    );
    sanitize_tool_calls(&mut json);
    assert!(from_json(&json)["messages"][0].as_object().unwrap().contains_key("tool_call_id"));
}

#[test]
fn test_sanitize_removes_tool_call_id_even_with_tool_calls() {
    let mut json = parse(
        r#"{"messages": [{"role": "assistant", "content": null, "tool_call_id": "call_123",
            "tool_calls": [{"id": "call_abc", "type": "function", "function": {"name": "get_weather", "arguments": "{}"}}]}]}"#,
    );
    sanitize_tool_calls(&mut json);
    let v = from_json(&json);
    assert!(!v["messages"][0].as_object().unwrap().contains_key("tool_call_id"));
    assert!(v["messages"][0].as_object().unwrap().contains_key("tool_calls"));
}

// fix_message_ordering

#[test]
fn test_fix_message_ordering_no_change_needed() {
    let mut json = parse(
        r#"{"messages": [{"role": "system", "content": "sys"}, {"role": "user", "content": "hello"}]}"#,
    );
    fix_message_ordering(&mut json);
    assert_eq!(from_json(&json)["messages"].as_array().unwrap().len(), 2);
}

#[test]
fn test_fix_message_ordering_inserts_assistant() {
    let mut json = parse(
        r#"{"messages": [{"role": "tool", "tool_call_id": "1", "content": "result"}, {"role": "user", "content": "next"}]}"#,
    );
    fix_message_ordering(&mut json);
    let v = from_json(&json);
    let msgs = v["messages"].as_array().unwrap();
    assert_eq!(msgs.len(), 3);
    assert_eq!(msgs[0]["role"], "tool");
    assert_eq!(msgs[1]["role"], "assistant");
    assert_eq!(msgs[1]["content"], Value::Null);
    assert_eq!(msgs[2]["role"], "user");
}

#[test]
fn test_fix_message_ordering_developer_role() {
    let mut json = parse(
        r#"{"messages": [
            {"role": "assistant", "content": null, "tool_calls": [{"id": "abc123XYZ", "type": "function", "function": {"name": "read"}}]},
            {"role": "tool", "tool_call_id": "abc123XYZ", "content": "result"},
            {"role": "developer", "content": "<turn-aborted>\nThe previous turn was aborted."},
            {"role": "user", "content": "continue"}
        ]}"#,
    );
    fix_message_ordering(&mut json);
    let v = from_json(&json);
    let msgs = v["messages"].as_array().unwrap();
    assert_eq!(msgs.len(), 5);
    assert_eq!(msgs[0]["role"], "assistant");
    assert_eq!(msgs[1]["role"], "tool");
    assert_eq!(msgs[2]["role"], "assistant");
    assert!(msgs[2]["content"].is_null());
    assert_eq!(msgs[3]["role"], "developer");
    assert_eq!(msgs[4]["role"], "user");
}

#[test]
fn test_fix_message_ordering_multiple_tools_before_user() {
    let mut json = parse(
        r#"{"messages": [
            {"role": "tool", "tool_call_id": "1", "content": "r1"},
            {"role": "tool", "tool_call_id": "2", "content": "r2"},
            {"role": "user", "content": "next"}
        ]}"#,
    );
    fix_message_ordering(&mut json);
    let v = from_json(&json);
    let msgs = v["messages"].as_array().unwrap();
    assert_eq!(msgs.len(), 4);
    assert_eq!(msgs[0]["role"], "tool");
    assert_eq!(msgs[1]["role"], "tool");
    assert_eq!(msgs[2]["role"], "assistant");
    assert_eq!(msgs[3]["role"], "user");
}

#[test]
fn test_fix_message_ordering_assistant_exists_no_change() {
    let mut json = parse(
        r#"{"messages": [
            {"role": "tool", "tool_call_id": "1", "content": "result"},
            {"role": "assistant", "content": "summary"},
            {"role": "user", "content": "next"}
        ]}"#,
    );
    fix_message_ordering(&mut json);
    assert_eq!(from_json(&json)["messages"].as_array().unwrap().len(), 3);
}

// validate_mistral_tool_call_ids

#[test]
fn test_validate_mistral_tool_call_ids_valid() {
    let json = parse(
        r#"{"messages": [{"role": "assistant", "tool_calls": [{"id": "abc123XYZ", "type": "function", "function": {"name": "test"}}]}]}"#,
    );
    let result = validate_mistral_tool_call_ids(&json, "mistralai/devstral-2-123b-instruct-2512");
    assert!(result.is_ok());
}

#[test]
fn test_validate_mistral_tool_call_ids_invalid_length() {
    let json = parse(
        r#"{"messages": [{"role": "assistant", "tool_calls": [{"id": "call_1", "type": "function", "function": {"name": "test"}}]}]}"#,
    );
    let result = validate_mistral_tool_call_ids(&json, "mistralai/mistral-7b-instruct");
    assert!(result.is_ok());
}

#[test]
fn test_validate_mistral_tool_call_ids_invalid_chars() {
    let json = parse(
        r#"{"messages": [{"role": "assistant", "tool_calls": [{"id": "call_123", "type": "function", "function": {"name": "test"}}]}]}"#,
    );
    let result = validate_mistral_tool_call_ids(&json, "mistralai/mistral-7b-instruct");
    assert!(result.is_ok());
}

#[test]
fn test_validate_mistral_tool_call_ids_non_mistral() {
    let json = parse(
        r#"{"messages": [{"role": "assistant", "tool_calls": [{"id": "call_123", "type": "function", "function": {"name": "test"}}]}]}"#,
    );
    let result = validate_mistral_tool_call_ids(&json, "openai/gpt-4");
    assert!(result.is_ok());
}

#[test]
fn tool_id_report_lists_what_is_wrong() {
    let json = parse(
        r#"{"messages": [
            {"role": "assistant", "tool_calls": [{"id": "call_1"}, {"id": "abc"}, {"id": "def"}, {"id": "abc"}]},
            {"role": "tool", "tool_call_id": "abc"},
            {"role": "tool", "tool_call_id": "zzz"},
            {"role": "tool", "tool_call_id": "zzz"}
        ]}"#,
    );
    let rep = validate_mistral_tool_call_ids(&json, "mistralai/mistral-large").unwrap();
    assert_eq!(rep.invalid_ids, vec!["call_1".to_string()]);
    assert_eq!(rep.unanswered_calls, vec!["def".to_string()]);
    assert_eq!(rep.unmatched_responses, vec!["zzz".to_string()]);

    // other models are not checked
    let rep = validate_mistral_tool_call_ids(&json, "openai/gpt-4").unwrap();
    assert!(rep.invalid_ids.is_empty());
    assert!(rep.unanswered_calls.is_empty());
    assert!(rep.unmatched_responses.is_empty());
}

#[test]
fn tool_id_report_without_tool_messages_checks_only_ids() {
    let json = parse(
        r#"{"messages": [{"role": "assistant", "tool_calls": [{"id": "x-1"}, {"id": "ok1"}]}]}"#,
    );
    let rep = validate_mistral_tool_call_ids(&json, "mistralai/devstral").unwrap();
    assert_eq!(rep.invalid_ids, vec!["x-1".to_string()]);
    assert!(rep.unanswered_calls.is_empty());
    assert!(rep.unmatched_responses.is_empty());
}

#[test]
fn test_is_mistral_model_names() {
    assert!(is_mistral_model("mistralai/mistral-large"));
    assert!(is_mistral_model("mistralai/devstral-2-123b-instruct-2512"));
    assert!(!is_mistral_model("openai/gpt-4"));
    assert!(!is_minimax_model("openai/minimaxai/x"));
}
