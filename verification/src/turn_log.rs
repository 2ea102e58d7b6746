use vstd::prelude::*;

verus! {

/// Metadata about a completed turn (request and response).
pub struct TurnLog {
    /// RFC 3339 time of the turn.
    pub timestamp: String,
    pub request_id: Option<String>,
    /// Model that was requested.
    pub requested_model: String,
    /// Model that responded (after routing).
    pub responding_model: String,
    /// Time to first byte, in milliseconds.
    pub latency_ms: u64,
    pub success: bool,
    pub status_code: u16,
    pub request_message_count: usize,
    pub response_message_count: usize,
    pub request_tokens: Option<u32>,
    pub response_tokens: Option<u32>,
    pub has_tool_calls: bool,
    pub tool_call_count: usize,
    pub error: Option<String>,
    pub key_label: Option<String>,
    pub is_racing: bool,
    /// How many models were raced.
    pub racing_models_count: Option<usize>,
    /// Whether this model won the race.
    pub racing_winner: Option<bool>,
}

/// Reads the system clock with `SystemTime::now` and measures it from the Unix epoch with
/// `duration_since`: whole seconds and nanoseconds after the epoch, or, for a clock before
/// it, how long before. The nanoseconds are below one second, as `subsec_nanos` documents;
/// nothing else is stated of the clock.
#[verifier::external_body]
fn system_time_since_epoch() -> (r: Result<(u64, u32), (u64, u32)>)
    ensures
        match r {
            Ok((_, n)) => n < 1_000_000_000,
            Err((_, n)) => n < 1_000_000_000,
        },
{
    match std::time::SystemTime::now().duration_since(std::time::UNIX_EPOCH) {
        Ok(d) => Ok((d.as_secs(), d.subsec_nanos())),
        Err(e) => Err((e.duration().as_secs(), e.duration().subsec_nanos())),
    }
}

/// The RFC 3339 text of a UTC time given as seconds and nanoseconds from the Unix epoch, as
/// `chrono`'s `DateTime::from_timestamp` and `to_rfc3339` write it; none when the time is
/// out of `chrono`'s range.
pub uninterp spec fn rfc3339_text(secs: i64, nsecs: u32) -> Option<Seq<char>>;

/// Formats a UTC time with `chrono::DateTime::from_timestamp` (which answers none out of
/// range) and `to_rfc3339`. Its result is named by [`rfc3339_text`].
#[verifier::external_body]
fn rfc3339_at(secs: i64, nsecs: u32) -> (r: Option<String>)
    ensures
        match r {
            Some(t) => rfc3339_text(secs, nsecs) == Some(t@),
            None => rfc3339_text(secs, nsecs) is None,
        },
{
    match chrono::DateTime::<chrono::Utc>::from_timestamp(secs, nsecs) {
        Some(d) => Some(d.to_rfc3339()),
        None => None,
    }
}

/// The current UTC time in RFC 3339: the system clock as seconds and nanoseconds from the
/// epoch (counted back for a clock before it), formatted by `chrono`; empty when the clock
/// lies outside what can be written.
fn utc_now_text() -> (r: String)
{
    let at: Option<(i64, u32)> = match system_time_since_epoch() {
        Ok((s, n)) => if s <= i64::MAX as u64 { Some((s as i64, n)) } else { None },
        Err((s, n)) => {
            if s >= i64::MAX as u64 {
                None
            } else if n == 0 {
                Some((-(s as i64), 0))
            } else {
                Some((-(s as i64) - 1, 1_000_000_000 - n))
            }
        },
    };
    match at {
        Some((secs, nsecs)) => match rfc3339_at(secs, nsecs) {
            Some(t) => t,
            None => String::new(),
        },
        None => String::new(),
    }
}

impl TurnLog {
    /// A log entry for a turn at the current time, with the given fields and no request
    /// id, token counts, error or racing details.
    pub fn new(
        requested_model: String,
        responding_model: String,
        latency_ms: u64,
        success: bool,
        status_code: u16,
        request_message_count: usize,
        response_message_count: usize,
        has_tool_calls: bool,
        tool_call_count: usize,
        key_label: Option<String>,
        is_racing: bool,
    ) -> (t: Self)
        ensures
            t.request_id is None,
            t.requested_model == requested_model,
            t.responding_model == responding_model,
            t.latency_ms == latency_ms,
            t.success == success,
            t.status_code == status_code,
            t.request_message_count == request_message_count,
            t.response_message_count == response_message_count,
            t.request_tokens is None,
            t.response_tokens is None,
            t.has_tool_calls == has_tool_calls,
            t.tool_call_count == tool_call_count,
            t.error is None,
            t.key_label == key_label,
            t.is_racing == is_racing,
            t.racing_models_count is None,
            t.racing_winner is None,
    {
        TurnLog {
            timestamp: utc_now_text(),
            request_id: None,
            requested_model,
            responding_model,
            latency_ms,
            success,
            status_code,
            request_message_count,
            response_message_count,
            request_tokens: None,
            response_tokens: None,
            has_tool_calls,
            tool_call_count,
            error: None,
            key_label,
            is_racing,
            racing_models_count: None,
            racing_winner: None,
        }
    }
}

/// The log entry for one proxied request: one response message, the latency cut to 64
/// bits, and the error if any.
pub fn log_turn_request(
    requested_model: &str,
    responding_model: &str,
    latency_ms: u128,
    success: bool,
    status_code: u16,
    message_count: usize,
    has_tool_calls: bool,
    tool_call_count: usize,
    key_label: Option<&str>,
    is_racing: bool,
    error: Option<String>,
) -> (t: TurnLog)
    ensures
        t.requested_model@ == requested_model@,
        t.responding_model@ == responding_model@,
        t.latency_ms == latency_ms as u64,
        t.success == success,
        t.status_code == status_code,
        t.request_message_count == message_count,
        t.response_message_count == 1,
        t.has_tool_calls == has_tool_calls,
        t.tool_call_count == tool_call_count,
        crate::config::opt_str_view(t.key_label) == match key_label { Some(l) => Some(l@), None => None },
        t.is_racing == is_racing,
        t.error == error,
        t.request_id is None,
        t.racing_models_count is None,
        t.racing_winner is None,
{
    let label = match key_label {
        Some(l) => Some(l.to_owned()),
        None => None,
    };
    let mut turn = TurnLog::new(
        requested_model.to_owned(),
        responding_model.to_owned(),
        latency_ms as u64,
        success,
        status_code,
        message_count,
        1,
        has_tool_calls,
        tool_call_count,
        label,
        is_racing,
    );
    turn.error = error;
    turn
}

/// Where a rotated log goes: the log's path, a dot and the rotation stamp.
pub fn rotated_log_path(path: &str, stamp: &str) -> (r: String)
    ensures
        r@ == path@ + "."@ + stamp@,
{
    let mut s = path.to_owned();
    s.append(".");
    s.append(stamp);
    s
}

} // verus!