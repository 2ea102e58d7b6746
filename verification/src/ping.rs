use vstd::prelude::*;
use crate::json::{lemma_view_shapes, members_view, Json, JsonV};
use crate::model_refresh::{filter_ids, ids};
use crate::startup::{split_on, split_parts};

verus! {

/// The NIM endpoint that model pings are sent to.
pub const PING_URL: &'static str = "https://integrate.api.nvidia.com/v1/chat/completions";

/// The NIM endpoint that lists the models.
pub const MODELS_URL: &'static str = "https://integrate.api.nvidia.com/v1/models";

/// Whether a piece of text is non-empty.
pub open spec fn non_empty() -> spec_fn(Seq<char>) -> bool {
    |s: Seq<char>| s.len() > 0
}

/// The model ids of a comma-separated list, empty pieces left out.
pub open spec fn csv_models(csv: Seq<char>) -> Seq<Seq<char>> {
    filter_ids(split_parts(csv, ','), non_empty())
}

/// The model ids of a comma-separated list (see [`csv_models`]).
pub fn models_from_csv(csv: &str) -> (r: Vec<String>)
    ensures
        ids(r@) == csv_models(csv@),
{
    let parts = split_on(csv, ',');
    let ghost ps = split_parts(csv@, ',');
    assert(ids(parts@) =~= ps);
    let mut out: Vec<String> = Vec::new();
    let mut i: usize = 0;
    assert(ps.take(0) =~= Seq::<Seq<char>>::empty());
    assert(ids(out@) =~= Seq::<Seq<char>>::empty());
    while i < parts.len()
        invariant
            ps == split_parts(csv@, ','),
            ids(parts@) == ps,
            i <= parts@.len(),
            ids(out@) == filter_ids(ps.take(i as int), non_empty()),
        decreases parts@.len() - i,
    {
        assert(ps.take(i + 1).drop_last() =~= ps.take(i as int));
        assert(ps.take(i + 1).last() == parts@[i as int]@);
        if parts[i].unicode_len() > 0 {
            out.push(parts[i].clone());
            assert(ids(out@) =~= filter_ids(ps.take(i as int), non_empty()).push(parts@[i as int]@));
        }
        i = i + 1;
    }
    assert(ps.take(i as int) =~= ps);
    out
}

/// The request body of a ping: one `hi` from the user, one token at most, no streaming.
pub open spec fn ping_payload_spec(model: Seq<char>) -> JsonV {
    JsonV::Object(Map::empty()
        .insert("model"@, JsonV::Str(model))
        .insert("messages"@, JsonV::Array(seq![JsonV::Object(Map::empty()
            .insert("role"@, JsonV::Str("user"@))
            .insert("content"@, JsonV::Str("hi"@)))]))
        .insert("max_tokens"@, JsonV::Number("1"@))
        .insert("stream"@, JsonV::Bool(false)))
}

/// An empty JSON object.
fn new_object() -> (r: Json)
    ensures
        r@ == JsonV::Object(Map::empty()),
{
    let r = Json::Object(Vec::new());
    proof {
        lemma_view_shapes(r);
        assert(members_view(Seq::empty()) =~= Map::empty());
    }
    r
}

/// The request body of a ping (see [`ping_payload_spec`]).
pub fn ping_payload(model: &str) -> (r: Json)
    ensures
        r@ == ping_payload_spec(model@),
{
    let mut msg = new_object();
    msg.set_field("role", Json::Str("user".to_owned()));
    msg.set_field("content", Json::Str("hi".to_owned()));
    let ghost mv = msg@;
    let mut items: Vec<Json> = Vec::new();
    items.push(msg);
    let arr = Json::Array(items);
    proof {
        lemma_view_shapes(arr);
        assert(crate::json::items_view(items@) =~= seq![mv]);
    }
    let mut o = new_object();
    o.set_field("model", Json::Str(model.to_owned()));
    o.set_field("messages", arr);
    o.set_field("max_tokens", Json::Number("1".to_owned()));
    o.set_field("stream", Json::Bool(false));
    o
}

/// The outcome of one ping, without its latency.
pub struct PingOutcome {
    pub model: String,
    /// The HTTP status, or 0 when no response came.
    pub status_code: u16,
    /// The transport error, or empty when a response came.
    pub error: String,
}

/// The outcome of one ping from what the HTTP call gave: a status, or the text of the
/// transport error.
pub fn ping_outcome(model: &str, reply: Result<u16, String>) -> (r: PingOutcome)
    ensures
        r.model@ == model@,
        match reply {
            Ok(status) => r.status_code == status && r.error@ == Seq::<char>::empty(),
            Err(e) => r.status_code == 0 && r.error@ == e@,
        },
{
    match reply {
        Ok(status) => PingOutcome { model: model.to_owned(), status_code: status, error: String::new() },
        Err(e) => PingOutcome { model: model.to_owned(), status_code: 0, error: e },
    }
}

/// What model discovery answers when the catalog could not be fetched: `{"error":"<e>"}`,
/// with the error text as it is.
pub fn discovery_error_body(e: &str) -> (r: String)
    ensures
        r@ == "{\"error\":\""@ + e@ + "\"}"@,
{
    let mut s = "{\"error\":\"".to_owned();
    s.append(e);
    s.append("\"}");
    s
}

} // verus!
