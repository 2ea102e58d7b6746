use nimaproxy::json::Json;
use nimaproxy::ping::{discovery_error_body, models_from_csv, ping_outcome, ping_payload, PING_URL};
use nimaproxy::text::{
    contains_text, decimal_string, format_default_label, parse_u64, split_whitespace_strs,
    starts_with_text, text_eq, text_less, trim_text,
};
use nimaproxy::turn_log::{log_turn_request, rotated_log_path, TurnLog};

fn strings(v: &[&str]) -> Vec<String> {
    v.iter().map(|s| s.to_string()).collect()
}

#[test]
fn csv_models_skip_empty_pieces() {
    assert_eq!(models_from_csv("a,b,,c,"), strings(&["a", "b", "c"]));
    assert_eq!(models_from_csv(""), Vec::<String>::new());
    assert_eq!(models_from_csv(",,"), Vec::<String>::new());
}

#[test]
fn ping_payload_shape() {
    let p = ping_payload("m1");
    match &p {
        Json::Object(members) => {
            let get = |k: &str| members.iter().find(|(key, _)| key == k).map(|(_, v)| v);
            assert!(matches!(get("model"), Some(Json::Str(s)) if s == "m1"));
            assert!(matches!(get("max_tokens"), Some(Json::Number(t)) if t == "1"));
            assert!(matches!(get("stream"), Some(Json::Bool(false))));
            match get("messages") {
                Some(Json::Array(items)) => {
                    assert_eq!(items.len(), 1);
                    assert_eq!(items[0].field_text("role").map(|s| s.as_str()), Some("user"));
                    assert_eq!(items[0].field_text("content").map(|s| s.as_str()), Some("hi"));
                }
                _ => panic!("messages missing"),
            }
        }
        _ => panic!("not an object"),
    }
    assert!(PING_URL.ends_with("/v1/chat/completions"));
}

#[test]
fn ping_outcomes() {
    let ok = ping_outcome("m", Ok(200));
    assert_eq!((ok.model.as_str(), ok.status_code, ok.error.as_str()), ("m", 200, ""));
    let err = ping_outcome("m", Err("timed out".to_string()));
    assert_eq!((err.status_code, err.error.as_str()), (0, "timed out"));
    assert_eq!(discovery_error_body("boom"), "{\"error\":\"boom\"}");
}

#[test]
fn turn_log_entries() {
    let t = TurnLog::new("auto".to_string(), "m".to_string(), 12, true, 200, 3, 1, false, 0, None, false);
    assert!(!t.timestamp.is_empty());
    assert_eq!(t.requested_model, "auto");
    assert_eq!(t.responding_model, "m");
    assert!(t.error.is_none() && t.request_id.is_none() && t.racing_winner.is_none());

    let t = log_turn_request("auto", "m", 1u128 << 70 | 5, false, 502, 4, true, 2, Some("k1"), true, Some("e".to_string()));
    assert_eq!(t.latency_ms, 5);
    assert_eq!(t.response_message_count, 1);
    assert_eq!(t.request_message_count, 4);
    assert_eq!(t.key_label, Some("k1".to_string()));
    assert_eq!(t.error, Some("e".to_string()));
    assert!(t.is_racing && t.has_tool_calls);
    assert_eq!(rotated_log_path("/var/log/t.jsonl", "20240101_000000"), "/var/log/t.jsonl.20240101_000000");
}

#[test]
fn text_helpers() {
    assert_eq!(format_default_label(7), "key-7");
    assert_eq!(decimal_string(0), "0");
    assert_eq!(decimal_string(18446744073709551615), "18446744073709551615");
    assert_eq!(parse_u64("18446744073709551615"), Some(u64::MAX));
    assert_eq!(parse_u64("18446744073709551616"), None);
    assert_eq!(parse_u64("+5"), Some(5));
    assert_eq!(parse_u64(""), None);
    assert_eq!(parse_u64("12a"), None);
    assert!(contains_text("mistralai/x", "mistral"));
    assert!(!contains_text("mis", "mistral"));
    assert!(starts_with_text("minimaxai/x", "minimaxai/"));
    assert!(text_eq("a", "a") && !text_eq("a", "b"));
    assert!(text_less("alpha", "beta") && !text_less("b", "a") && !text_less("a", "a"));
    assert_eq!(trim_text("  x y \n"), "x y");
    assert_eq!(split_whitespace_strs(" a\tb  c\n"), strings(&["a", "b", "c"]));
}

#[test]
fn json_field_edits() {
    let mut j = Json::Null;
    j.set_field("a", Json::Bool(true));
    assert!(matches!(j.get_field("a"), Some(Json::Bool(true))));
    j.set_field("a", Json::Str("x".to_string()));
    assert_eq!(j.field_text("a").map(|s| s.as_str()), Some("x"));
    let taken = j.take_field("a");
    assert!(matches!(taken, Some(Json::Str(s)) if s == "x"));
    assert!(j.get_field("a").is_none());
    j.set_field("b", Json::Null);
    assert!(j.get_field("b").unwrap().is_null());
    j.remove_field("b");
    assert!(j.get_field("b").is_none());
    let mut arr = Json::Array(vec![]);
    arr.set_field("a", Json::Null);
    assert!(matches!(arr, Json::Array(ref v) if v.is_empty()));
}

#[test]
fn rejoined_words_keep_their_repetitions() {
    let text = "The  cat sat\tthe cat sat\n the cat sat";
    let joined = text.split_whitespace().collect::<Vec<_>>().join(" ");
    assert_eq!(
        nimaproxy::proxy::count_repetitions(text),
        nimaproxy::proxy::count_repetitions(&joined)
    );
}
