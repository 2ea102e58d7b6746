use vstd::prelude::*;
use crate::config::{exempts, ModelCompat, ModelParams};
use crate::gateway::AppState;
use crate::model_refresh::listed;
use crate::model_router::{ModelRouter, Strategy};
use crate::json::{
    field, items_of, items_view, lemma_view_shapes, str_of, with_field, without_field, Json, JsonV,
};
use crate::proxy::{is_minimax_model, is_mistral_model};
use crate::json_text::{json_parse, json_render, parse_json, render_json};
use crate::model_refresh::ids;
use crate::tool_ids::{
    all_call_ids, checked_messages, has_tool_role, unanswered_calls, unmatched_responses,
    validate_mistral_tool_call_ids, ToolIdReport,
};
use crate::text::{text_contains, text_eq, text_starts_with};

verus! {

/// The hint given to MiniMax models to make them call tools in JSON.
pub const MINIMAX_TOOL_HINT: &'static str = "When using tools, output JSON in this exact format:\n{\"tool_calls\": [{\"id\": \"call_1\", \"type\": \"function\", \"function\": {\"name\": \"function_name\", \"arguments\": {\"arg\": \"value\"}}}]}\nDo NOT use XML tags like <minimax:tool_call> or <invoke>.";

/// The messages of a request, when it has an array of them.
pub open spec fn messages_of(j: JsonV) -> Option<Seq<JsonV>> {
    items_of(field(j, "messages"@))
}

/// The role of a message, when it has a string one.
pub open spec fn role_of(m: JsonV) -> Option<Seq<char>> {
    str_of(field(m, "role"@))
}

/// Member `k` of an optional value.
pub open spec fn field_in(o: Option<JsonV>, k: Seq<char>) -> Option<JsonV> {
    match o {
        Some(v) => field(v, k),
        None => None,
    }
}

/// Whether the conversation is in a tool-calling flow: a message has role `tool` or a
/// `tool_calls` member.
pub open spec fn has_tools_spec(j: JsonV) -> bool {
    match messages_of(j) {
        Some(ms) => exists|i: int| 0 <= i < ms.len() && (role_of(#[trigger] ms[i]) == Some("tool"@) || field(ms[i], "tool_calls"@) is Some),
        None => false,
    }
}

/// Whether the last message has role `assistant`.
pub open spec fn last_from_assistant_spec(j: JsonV) -> bool {
    match messages_of(j) {
        Some(ms) => ms.len() > 0 && role_of(ms.last()) == Some("assistant"@),
        None => false,
    }
}

/// `with_field` over a value taken out and put back: member `k` of `j` is replaced.
pub proof fn lemma_put(j: JsonV, k: Seq<char>, v: JsonV)
    requires
        field(j, k) is Some,
    ensures
        with_field(without_field(j, k), k, v) == with_field(j, k, v),
{
    let m = j->Object_0;
    assert(m.remove(k).insert(k, v) =~= m.insert(k, v));
}

/// Putting back what was taken out gives the value back.
pub proof fn lemma_put_back(j: JsonV, k: Seq<char>)
    requires
        field(j, k) is Some,
    ensures
        with_field(without_field(j, k), k, field(j, k)->0) == j,
{
    let m = j->Object_0;
    assert(m.remove(k).insert(k, m[k]) =~= m);
}

/// Taking out a member that is not there changes nothing.
pub proof fn lemma_take_absent(j: JsonV, k: Seq<char>)
    requires
        field(j, k) is None,
    ensures
        without_field(j, k) == j,
{
    if j is Object {
        let m = j->Object_0;
        assert(m.remove(k) =~= m);
    }
}

/// The messages of `json`, when it has an array of them.
fn messages_ref(json: &Json) -> (r: Option<&Vec<Json>>)
    ensures
        match r {
            Some(v) => messages_of(json@) == Some(items_view(v@)),
            None => messages_of(json@) is None,
        },
{
    match json.get_field("messages") {
        Some(m) => {
            proof { lemma_view_shapes(*m); }
            match m {
                Json::Array(v) => Some(v),
                _ => None,
            }
        },
        None => None,
    }
}

/// Whether the role of `m` is `role`.
fn role_is(m: &Json, role: &str) -> (r: bool)
    ensures
        r == (role_of(m@) == Some(role@)),
{
    match m.field_text("role") {
        Some(s) => text_eq(s.as_str(), role),
        None => false,
    }
}

/// Whether the conversation is in a tool-calling flow (see [`has_tools_spec`]).
pub fn has_tool_messages(json: &Json) -> (r: bool)
    ensures
        r == has_tools_spec(json@),
{
    match messages_ref(json) {
        Some(ms) => {
            let ghost v = items_view(ms@);
            let mut i: usize = 0;
            while i < ms.len()
                invariant
                    v == items_view(ms@),
                    messages_of(json@) == Some(v),
                    i <= ms@.len(),
                    forall|k: int| 0 <= k < i ==> !(role_of(#[trigger] v[k]) == Some("tool"@) || field(v[k], "tool_calls"@) is Some),
                decreases ms@.len() - i,
            {
                if role_is(&ms[i], "tool") || ms[i].get_field("tool_calls").is_some() {
                    assert(role_of(v[i as int]) == Some("tool"@) || field(v[i as int], "tool_calls"@) is Some);
                    return true;
                }
                i = i + 1;
            }
            false
        },
        None => false,
    }
}

/// Whether the last message has role `assistant`.
pub fn is_last_message_from_assistant(json: &Json) -> (r: bool)
    ensures
        r == last_from_assistant_spec(json@),
{
    match messages_ref(json) {
        Some(ms) => {
            if ms.len() == 0 {
                return false;
            }
            role_is(&ms[ms.len() - 1], "assistant")
        },
        None => false,
    }
}

/// The request after the Mistral parameters are added: for a Mistral model, in a
/// tool-calling flow `add_generation_prompt` is false, and after an assistant message
/// `continue_final_message` is true.
pub open spec fn mistral_params_spec(j: JsonV, model: Seq<char>) -> JsonV {
    if text_contains(model, "mistral"@) || text_contains(model, "devstral"@) {
        let j1 = if has_tools_spec(j) { with_field(j, "add_generation_prompt"@, JsonV::Bool(false)) } else { j };
        if last_from_assistant_spec(j) { with_field(j1, "continue_final_message"@, JsonV::Bool(true)) } else { j1 }
    } else {
        j
    }
}

/// Adds the parameters Mistral models need for tool calling and for continuing an
/// assistant message (see [`mistral_params_spec`]).
pub fn inject_mistral_tool_params(json: &mut Json, model_id: &str)
    ensures
        final(json)@ == mistral_params_spec(old(json)@, model_id@),
{
    let is_mistral = is_mistral_model(model_id);
    let has_tools = has_tool_messages(json);
    let last_from_assistant = is_last_message_from_assistant(json);
    if is_mistral {
        if has_tools {
            json.set_field("add_generation_prompt", Json::Bool(false));
        }
        if last_from_assistant {
            json.set_field("continue_final_message", Json::Bool(true));
        }
    }
}

/// The system message that carries the MiniMax hint.
pub open spec fn minimax_system_message() -> JsonV {
    JsonV::Object(Map::empty().insert("role"@, JsonV::Str("system"@)).insert("content"@, JsonV::Str(MINIMAX_TOOL_HINT@)))
}

/// The messages with the MiniMax hint: appended to the text of a leading system message,
/// or in a system message of its own put first.
pub open spec fn minimax_messages(ms: Seq<JsonV>) -> Seq<JsonV> {
    if ms.len() > 0 && role_of(ms[0]) == Some("system"@) {
        match str_of(field(ms[0], "content"@)) {
            Some(s) => ms.update(0, with_field(ms[0], "content"@, JsonV::Str(s + "\n\n"@ + MINIMAX_TOOL_HINT@))),
            None => ms,
        }
    } else {
        ms.insert(0, minimax_system_message())
    }
}

/// The request after the MiniMax hint is added (only for MiniMax models, and only to an
/// array of messages).
pub open spec fn minimax_spec(j: JsonV, model: Seq<char>) -> JsonV {
    if text_starts_with(model, "minimaxai/"@) {
        match messages_of(j) {
            Some(ms) => with_field(j, "messages"@, JsonV::Array(minimax_messages(ms))),
            None => j,
        }
    } else {
        j
    }
}

/// A new JSON string.
fn text_value(s: &str) -> (r: Json)
    ensures
        r@ == JsonV::Str(s@),
{
    Json::Str(s.to_owned())
}

/// The system message that carries the MiniMax hint.
fn minimax_message() -> (r: Json)
    ensures
        r@ == minimax_system_message(),
{
    let mut m = Json::Object(Vec::new());
    proof {
        lemma_view_shapes(m);
        assert(crate::json::members_view(Seq::empty()) =~= Map::empty());
    }
    m.set_field("role", text_value("system"));
    m.set_field("content", text_value(MINIMAX_TOOL_HINT));
    m
}

/// Adds the MiniMax hint to the messages (see [`minimax_spec`]).
pub fn inject_minimax_system_message(json: &mut Json, model_id: &str)
    ensures
        final(json)@ == minimax_spec(old(json)@, model_id@),
{
    if !is_minimax_model(model_id) {
        return;
    }
    let ghost j0 = json@;
    let taken = json.take_field("messages");
    match taken {
        Some(Json::Array(items)) => {
            let ghost orig = items_view(items@);
            proof { lemma_view_shapes(Json::Array(items)); }
            let mut items = items;
            let starts_with_system = items.len() > 0 && role_is(&items[0], "system");
            if starts_with_system {
                let first = items.remove(0);
                let mut first = first;
                let content = match first.field_text("content") {
                    Some(s) => {
                        let mut t = s.clone();
                        t.append("\n\n");
                        t.append(MINIMAX_TOOL_HINT);
                        Some(t)
                    },
                    None => None,
                };
                match content {
                    Some(t) => {
                        first.set_field("content", Json::Str(t));
                    },
                    None => {},
                }
                items.insert(0, first);
                proof {
                    assert(items_view(items@) =~= minimax_messages(orig));
                }
            } else {
                let sys = minimax_message();
                items.insert(0, sys);
                proof {
                    assert(items_view(items@) =~= minimax_messages(orig));
                }
            }
            let arr = Json::Array(items);
            proof { lemma_view_shapes(arr); }
            json.set_field("messages", arr);
            proof { lemma_put(j0, "messages"@, arr@); }
        },
        Some(other) => {
            proof { lemma_view_shapes(other); }
            json.set_field("messages", other);
            proof { lemma_put_back(j0, "messages"@); }
        },
        None => {
            proof { lemma_take_absent(j0, "messages"@); }
        },
    }
}

/// A message with its role rewritten: `developer` to `user` when `td`, else `tool` to
/// `assistant` when `tt`.
pub open spec fn role_fix(m: JsonV, td: bool, tt: bool) -> JsonV {
    if td && role_of(m) == Some("developer"@) {
        with_field(m, "role"@, JsonV::Str("user"@))
    } else if tt && role_of(m) == Some("tool"@) {
        with_field(m, "role"@, JsonV::Str("assistant"@))
    } else {
        m
    }
}

/// The request with every message's role rewritten by [`role_fix`] (unchanged when neither
/// rewrite applies).
pub open spec fn transform_roles_spec(j: JsonV, td: bool, tt: bool) -> JsonV {
    if !td && !tt {
        j
    } else {
        match messages_of(j) {
            Some(ms) => with_field(j, "messages"@, JsonV::Array(ms.map_values(|m: JsonV| role_fix(m, td, tt)))),
            None => j,
        }
    }
}

/// One message with its role rewritten (see [`role_fix`]).
fn fix_role(m: Json, td: bool, tt: bool) -> (r: Json)
    ensures
        r@ == role_fix(m@, td, tt),
{
    let mut m = m;
    if td && role_is(&m, "developer") {
        m.set_field("role", text_value("user"));
    } else if tt && role_is(&m, "tool") {
        m.set_field("role", text_value("assistant"));
    }
    m
}

/// Rewrites message roles the upstream does not accept for `model_id`: `developer` to
/// `user` and `tool` to `assistant`, each unless `compat` exempts the model.
pub fn transform_message_roles(json: &mut Json, model_id: &str, compat: &ModelCompat)
    ensures
        final(json)@ == transform_roles_spec(old(json)@,
            !exempts(compat.supports_developer_role, model_id@),
            !exempts(compat.supports_tool_messages, model_id@)),
{
    let td = compat.should_transform_developer_role(model_id);
    let tt = compat.should_transform_tool_messages(model_id);
    if !td && !tt {
        return;
    }
    let ghost j0 = json@;
    let taken = json.take_field("messages");
    match taken {
        Some(Json::Array(items)) => {
            let ghost src = items@;
            proof { lemma_view_shapes(Json::Array(items)); }
            let mut rest = items;
            let mut out: Vec<Json> = Vec::new();
            let ghost mut i: int = 0;
            while rest.len() > 0
                invariant
                    0 <= i <= src.len(),
                    rest@ == src.skip(i),
                    items_view(out@) == items_view(src).take(i).map_values(|m: JsonV| role_fix(m, td, tt)),
                decreases rest@.len(),
            {
                let m = rest.remove(0);
                assert(m == src[i]);
                let ghost before = items_view(out@);
                let fixed = fix_role(m, td, tt);
                out.push(fixed);
                proof {
                    let f = |m: JsonV| role_fix(m, td, tt);
                    assert(rest@ =~= src.skip(i + 1));
                    assert(items_view(out@) =~= before.push(role_fix(src[i]@, td, tt)));
                    assert(items_view(src).take(i + 1).map_values(f) =~= items_view(src).take(i).map_values(f).push(f(src[i]@)));
                    i = i + 1;
                }
            }
            proof {
                assert(i == src.len());
                assert(items_view(src).take(i) =~= items_view(src));
            }
            let arr = Json::Array(out);
            proof { lemma_view_shapes(arr); }
            json.set_field("messages", arr);
            proof { lemma_put(j0, "messages"@, arr@); }
        },
        Some(other) => {
            proof { lemma_view_shapes(other); }
            json.set_field("messages", other);
            proof { lemma_put_back(j0, "messages"@); }
        },
        None => {
            proof { lemma_take_absent(j0, "messages"@); }
        },
    }
}

/// Whether an assistant message must follow message `i`: it is a tool result and the next
/// message is from the user (or the developer).
pub open spec fn needs_assistant_after(ms: Seq<JsonV>, i: int) -> bool {
    &&& role_of(ms[i]) == Some("tool"@)
    &&& i + 1 < ms.len()
    &&& (role_of(ms[i + 1]) == Some("user"@) || role_of(ms[i + 1]) == Some("developer"@))
}

/// An assistant message with null content and nothing else.
pub open spec fn empty_assistant() -> JsonV {
    JsonV::Object(Map::empty().insert("role"@, JsonV::Str("assistant"@)).insert("content"@, JsonV::Null))
}

/// The messages from position `i` on, with an empty assistant message after every tool
/// result that a user message follows.
pub open spec fn ordered_from(ms: Seq<JsonV>, i: int) -> Seq<JsonV>
    decreases ms.len() - i,
{
    if i < 0 || i >= ms.len() {
        Seq::empty()
    } else {
        seq![ms[i]] + (if needs_assistant_after(ms, i) { seq![empty_assistant()] } else { Seq::empty() })
            + ordered_from(ms, i + 1)
    }
}

/// The request with its messages put in an order the upstream accepts (see
/// [`ordered_from`]).
pub open spec fn fix_order_spec(j: JsonV) -> JsonV {
    match messages_of(j) {
        Some(ms) => with_field(j, "messages"@, JsonV::Array(ordered_from(ms, 0))),
        None => j,
    }
}

/// An assistant message with null content.
fn empty_assistant_message() -> (r: Json)
    ensures
        r@ == empty_assistant(),
{
    let mut m = Json::Object(Vec::new());
    proof {
        lemma_view_shapes(m);
        assert(crate::json::members_view(Seq::empty()) =~= Map::empty());
    }
    m.set_field("role", text_value("assistant"));
    m.set_field("content", Json::Null);
    m
}

/// Inserts an empty assistant message after every tool result that a user or developer
/// message follows, as the upstream requires (see [`fix_order_spec`]).
pub fn fix_message_ordering(json: &mut Json)
    ensures
        final(json)@ == fix_order_spec(old(json)@),
{
    let ghost j0 = json@;
    let taken = json.take_field("messages");
    match taken {
        Some(Json::Array(items)) => {
            let ghost src = items@;
            let ghost ms = items_view(src);
            proof { lemma_view_shapes(Json::Array(items)); }
            let mut flags: Vec<bool> = Vec::new();
            let mut k: usize = 0;
            while k < items.len()
                invariant
                    items@ == src,
                    ms == items_view(src),
                    k <= items@.len(),
                    flags@.len() == k,
                    forall|j: int| 0 <= j < k ==> #[trigger] flags@[j] == needs_assistant_after(ms, j),
                decreases items@.len() - k,
            {
                let f = role_is(&items[k], "tool") && k + 1 < items.len()
                    && (role_is(&items[k + 1], "user") || role_is(&items[k + 1], "developer"));
                flags.push(f);
                k = k + 1;
            }
            let mut rest = items;
            let n = rest.len();
            let mut out: Vec<Json> = Vec::new();
            let mut i: usize = 0;
            while rest.len() > 0
                invariant
                    n == src.len(),
                    ms == items_view(src),
                    flags@.len() == src.len(),
                    forall|j: int| 0 <= j < src.len() ==> #[trigger] flags@[j] == needs_assistant_after(ms, j),
                    i <= src.len(),
                    rest@ == src.skip(i as int),
                    items_view(out@) + ordered_from(ms, i as int) == ordered_from(ms, 0),
                decreases rest@.len(),
            {
                let m = rest.remove(0);
                assert(m == src[i as int]);
                let ghost before = items_view(out@);
                out.push(m);
                if flags[i] {
                    out.push(empty_assistant_message());
                }
                proof {
                    assert(rest@ =~= src.skip(i + 1));
                    assert(items_view(out@) + ordered_from(ms, i + 1) =~= before + ordered_from(ms, i as int));
                }
                i = i + 1;
            }
            proof {
                assert(items_view(out@) =~= items_view(out@) + ordered_from(ms, i as int));
            }
            let arr = Json::Array(out);
            proof { lemma_view_shapes(arr); }
            json.set_field("messages", arr);
            proof { lemma_put(j0, "messages"@, arr@); }
        },
        Some(other) => {
            proof { lemma_view_shapes(other); }
            json.set_field("messages", other);
            proof { lemma_put_back(j0, "messages"@); }
        },
        None => {
            proof { lemma_take_absent(j0, "messages"@); }
        },
    }
}

/// The items of `s` that `p` accepts, in order.
pub open spec fn keep_json(s: Seq<JsonV>, p: spec_fn(JsonV) -> bool) -> Seq<JsonV>
    decreases s.len(),
{
    if s.len() == 0 {
        Seq::empty()
    } else {
        let r = keep_json(s.drop_last(), p);
        if p(s.last()) { r.push(s.last()) } else { r }
    }
}

/// Whether a tool call or tool definition may stay: unless its function's name is an empty
/// string.
pub open spec fn named_ok(x: JsonV) -> bool {
    match str_of(field_in(field(x, "function"@), "name"@)) {
        Some(n) => n.len() > 0,
        None => true,
    }
}

/// An assistant message without `tool_call_id` and `reasoning` (other messages are left
/// as they are).
pub open spec fn strip_assistant(m: JsonV) -> JsonV {
    if role_of(m) == Some("assistant"@) {
        without_field(without_field(m, "tool_call_id"@), "reasoning"@)
    } else {
        m
    }
}

/// Whether a message carries tool calls to make: a non-empty array of them, or a
/// `tool_calls` member of another kind.
pub open spec fn has_usable_tool_calls(m: JsonV) -> bool {
    match field(m, "tool_calls"@) {
        Some(JsonV::Array(a)) => a.len() > 0,
        Some(_) => true,
        None => false,
    }
}

/// The content an assistant message is sent with: null when it makes tool calls; else its
/// text, or an empty text when it has none.
pub open spec fn normalize_content(m: JsonV) -> JsonV {
    if has_usable_tool_calls(m) {
        with_field(m, "content"@, JsonV::Null)
    } else if str_of(field(m, "content"@)) is Some {
        m
    } else {
        with_field(m, "content"@, JsonV::Str(Seq::empty()))
    }
}

/// A message whose array of tool calls keeps only the named ones; a non-empty array that
/// loses all of them is removed.
pub open spec fn filter_tool_calls(m: JsonV) -> JsonV {
    match items_of(field(m, "tool_calls"@)) {
        Some(tcs) => {
            let kept = keep_json(tcs, |x: JsonV| named_ok(x));
            if tcs.len() > 0 && kept.len() == 0 {
                without_field(m, "tool_calls"@)
            } else {
                with_field(m, "tool_calls"@, JsonV::Array(kept))
            }
        },
        None => m,
    }
}

/// One message made acceptable upstream: an assistant message loses `tool_call_id` and
/// `reasoning`, unnamed tool calls are dropped, and an assistant message's content is
/// normalized (see [`normalize_content`]).
pub open spec fn sanitize_message_spec(m: JsonV) -> JsonV {
    let m1 = filter_tool_calls(strip_assistant(m));
    if role_of(m) == Some("assistant"@) { normalize_content(m1) } else { m1 }
}

/// The schema given to a tool definition without parameters: an object with no properties.
pub open spec fn default_parameters() -> JsonV {
    JsonV::Object(Map::empty().insert("type"@, JsonV::Str("object"@)).insert("properties"@, JsonV::Object(Map::empty())))
}

/// Whether a member is missing or null.
pub open spec fn missing_or_null(o: Option<JsonV>) -> bool {
    o is None || o == Some(JsonV::Null)
}

/// A tool definition whose function object has a description (empty when it had none)
/// and parameters (see [`default_parameters`]).
pub open spec fn fix_tool_def(t: JsonV) -> JsonV {
    match field(t, "function"@) {
        Some(JsonV::Object(f)) => {
            let f1 = if missing_or_null(field(JsonV::Object(f), "description"@)) {
                f.insert("description"@, JsonV::Str(Seq::empty()))
            } else {
                f
            };
            let f2 = if missing_or_null(field(JsonV::Object(f1), "parameters"@)) {
                f1.insert("parameters"@, default_parameters())
            } else {
                f1
            };
            with_field(t, "function"@, JsonV::Object(f2))
        },
        _ => t,
    }
}

/// The request with its tool definitions fixed and the unnamed ones dropped; no `tools`
/// member stays when none is left.
pub open spec fn sanitize_tools_spec(j: JsonV) -> JsonV {
    match items_of(field(j, "tools"@)) {
        Some(ts) => {
            let kept = keep_json(ts.map_values(|t: JsonV| fix_tool_def(t)), |x: JsonV| named_ok(x));
            if kept.len() == 0 {
                without_field(j, "tools"@)
            } else {
                with_field(j, "tools"@, JsonV::Array(kept))
            }
        },
        None => j,
    }
}

/// The request with every message sanitized, then its tool definitions.
pub open spec fn sanitize_spec(j: JsonV) -> JsonV {
    let j1 = match messages_of(j) {
        Some(ms) => with_field(j, "messages"@, JsonV::Array(ms.map_values(|m: JsonV| sanitize_message_spec(m)))),
        None => j,
    };
    sanitize_tools_spec(j1)
}

/// Whether `x` may stay (see [`named_ok`]).
fn is_named_ok(x: &Json) -> (r: bool)
    ensures
        r == named_ok(x@),
{
    match x.get_field("function") {
        Some(f) => match f.field_text("name") {
            Some(n) => !n.as_str().is_empty(),
            None => true,
        },
        None => true,
    }
}

/// The items of `items` that [`named_ok`] accepts, in order.
fn keep_named(items: Vec<Json>) -> (r: Vec<Json>)
    ensures
        items_view(r@) == keep_json(items_view(items@), |x: JsonV| named_ok(x)),
{
    let ghost src = items@;
    let ghost p = |x: JsonV| named_ok(x);
    let mut rest = items;
    let n = rest.len();
    let mut out: Vec<Json> = Vec::new();
    let mut i: usize = 0;
    while rest.len() > 0
        invariant
            n == src.len(),
            p == (|x: JsonV| named_ok(x)),
            i <= src.len(),
            rest@ == src.skip(i as int),
            items_view(out@) == keep_json(items_view(src).take(i as int), p),
        decreases rest@.len(),
    {
        let x = rest.remove(0);
        assert(x == src[i as int]);
        proof {
            assert(items_view(src).take(i + 1).drop_last() =~= items_view(src).take(i as int));
            assert(items_view(src).take(i + 1).last() == x@);
            assert(rest@ =~= src.skip(i + 1));
        }
        let ghost before = items_view(out@);
        if is_named_ok(&x) {
            out.push(x);
            assert(items_view(out@) =~= before.push(x@));
        } else {
            assert(items_view(out@) =~= before);
        }
        i = i + 1;
    }
    proof {
        assert(items_view(src).take(i as int) =~= items_view(src));
    }
    out
}

/// One message made acceptable upstream (see [`sanitize_message_spec`]).
fn sanitize_message(m: Json) -> (r: Json)
    ensures
        r@ == sanitize_message_spec(m@),
{
    let mut m = m;
    let ghost m0 = m@;
    let is_assistant = role_is(&m, "assistant");
    if is_assistant {
        m.remove_field("tool_call_id");
        m.remove_field("reasoning");
    }
    let ghost m1 = m@;
    assert(m1 == strip_assistant(m0));
    let taken = m.take_field("tool_calls");
    match taken {
        Some(Json::Array(tcs)) => {
            proof { lemma_view_shapes(Json::Array(tcs)); }
            let before_len = tcs.len();
            let kept = keep_named(tcs);
            if before_len > 0 && kept.len() == 0 {
                assert(m@ == without_field(m1, "tool_calls"@));
            } else {
                let arr = Json::Array(kept);
                proof { lemma_view_shapes(arr); }
                m.set_field("tool_calls", arr);
                proof { lemma_put(m1, "tool_calls"@, arr@); }
            }
        },
        Some(other) => {
            proof { lemma_view_shapes(other); }
            m.set_field("tool_calls", other);
            proof { lemma_put_back(m1, "tool_calls"@); }
        },
        None => {
            proof { lemma_take_absent(m1, "tool_calls"@); }
        },
    }
    assert(m@ == filter_tool_calls(m1));
    if is_assistant {
        let usable = match m.get_field("tool_calls") {
            Some(tc) => {
                proof { lemma_view_shapes(*tc); }
                match tc {
                    Json::Array(a) => a.len() > 0,
                    _ => true,
                }
            },
            None => false,
        };
        if usable {
            m.set_field("content", Json::Null);
        } else if m.field_text("content").is_none() {
            m.set_field("content", text_value(""));
            proof {
                reveal_strlit("");
                assert(Seq::<char>::empty() == ""@);
            }
        }
    }
    m
}

/// Whether member `key` of `f` is missing or null.
fn member_missing_or_null(f: &Json, key: &str) -> (r: bool)
    ensures
        r == missing_or_null(field(f@, key@)),
{
    match f.get_field(key) {
        Some(v) => v.is_null(),
        None => true,
    }
}

/// The schema given to a tool definition without parameters.
fn default_parameters_value() -> (r: Json)
    ensures
        r@ == default_parameters(),
{
    let mut props = Json::Object(Vec::new());
    let mut m = Json::Object(Vec::new());
    proof {
        lemma_view_shapes(m);
        lemma_view_shapes(props);
        assert(crate::json::members_view(Seq::empty()) =~= Map::empty());
    }
    m.set_field("type", text_value("object"));
    m.set_field("properties", props);
    m
}

/// A tool definition with its description and parameters filled in (see
/// [`fix_tool_def`]).
fn fix_tool(t: Json) -> (r: Json)
    ensures
        r@ == fix_tool_def(t@),
{
    let mut t = t;
    let ghost t0 = t@;
    let taken = t.take_field("function");
    match taken {
        Some(Json::Object(members)) => {
            let mut f = Json::Object(members);
            proof { lemma_view_shapes(f); }
            let ghost f0 = f@;
            if member_missing_or_null(&f, "description") {
                f.set_field("description", text_value(""));
            }
            proof { lemma_view_shapes(f); }
            if member_missing_or_null(&f, "parameters") {
                f.set_field("parameters", default_parameters_value());
            }
            proof {
                reveal_strlit("");
                assert(Seq::<char>::empty() == ""@);
            }
            let ghost fv = f@;
            t.set_field("function", f);
            proof { lemma_put(t0, "function"@, fv); }
        },
        Some(other) => {
            proof { lemma_view_shapes(other); }
            t.set_field("function", other);
            proof { lemma_put_back(t0, "function"@); }
        },
        None => {
            proof { lemma_take_absent(t0, "function"@); }
        },
    }
    t
}

/// Makes a request acceptable upstream: assistant messages lose `tool_call_id` and
/// `reasoning` (and their content when they carry tool calls), unnamed tool calls and tool
/// definitions are dropped, and tool definitions get a description and parameters (see
/// [`sanitize_spec`]).
pub fn sanitize_tool_calls(json: &mut Json)
    ensures
        final(json)@ == sanitize_spec(old(json)@),
{
    let ghost j0 = json@;
    let taken = json.take_field("messages");
    match taken {
        Some(Json::Array(items)) => {
            let ghost src = items@;
            proof { lemma_view_shapes(Json::Array(items)); }
            let mut rest = items;
            let mut out: Vec<Json> = Vec::new();
            let ghost mut i: int = 0;
            while rest.len() > 0
                invariant
                    0 <= i <= src.len(),
                    rest@ == src.skip(i),
                    items_view(out@) == items_view(src).take(i).map_values(|m: JsonV| sanitize_message_spec(m)),
                decreases rest@.len(),
            {
                let m = rest.remove(0);
                assert(m == src[i]);
                let ghost before = items_view(out@);
                let fixed = sanitize_message(m);
                out.push(fixed);
                proof {
                    let f = |m: JsonV| sanitize_message_spec(m);
                    assert(rest@ =~= src.skip(i + 1));
                    assert(items_view(out@) =~= before.push(sanitize_message_spec(src[i]@)));
                    assert(items_view(src).take(i + 1).map_values(f) =~= items_view(src).take(i).map_values(f).push(f(src[i]@)));
                    i = i + 1;
                }
            }
            proof {
                assert(items_view(src).take(i) =~= items_view(src));
            }
            let arr = Json::Array(out);
            proof { lemma_view_shapes(arr); }
            json.set_field("messages", arr);
            proof { lemma_put(j0, "messages"@, arr@); }
        },
        Some(other) => {
            proof { lemma_view_shapes(other); }
            json.set_field("messages", other);
            proof { lemma_put_back(j0, "messages"@); }
        },
        None => {
            proof { lemma_take_absent(j0, "messages"@); }
        },
    }
    let ghost j1 = json@;
    let taken = json.take_field("tools");
    match taken {
        Some(Json::Array(items)) => {
            let ghost src = items@;
            proof { lemma_view_shapes(Json::Array(items)); }
            let mut rest = items;
            let mut fixed: Vec<Json> = Vec::new();
            let ghost mut i: int = 0;
            while rest.len() > 0
                invariant
                    0 <= i <= src.len(),
                    rest@ == src.skip(i),
                    items_view(fixed@) == items_view(src).take(i).map_values(|t: JsonV| fix_tool_def(t)),
                decreases rest@.len(),
            {
                let t = rest.remove(0);
                assert(t == src[i]);
                let ghost before = items_view(fixed@);
                let ft = fix_tool(t);
                fixed.push(ft);
                proof {
                    let f = |t: JsonV| fix_tool_def(t);
                    assert(rest@ =~= src.skip(i + 1));
                    assert(items_view(fixed@) =~= before.push(fix_tool_def(src[i]@)));
                    assert(items_view(src).take(i + 1).map_values(f) =~= items_view(src).take(i).map_values(f).push(f(src[i]@)));
                    i = i + 1;
                }
            }
            proof {
                assert(items_view(src).take(i) =~= items_view(src));
            }
            let kept = keep_named(fixed);
            if kept.len() == 0 {
                assert(json@ == without_field(j1, "tools"@));
            } else {
                let arr = Json::Array(kept);
                proof { lemma_view_shapes(arr); }
                json.set_field("tools", arr);
                proof { lemma_put(j1, "tools"@, arr@); }
            }
        },
        Some(other) => {
            proof { lemma_view_shapes(other); }
            json.set_field("tools", other);
            proof { lemma_put_back(j1, "tools"@); }
        },
        None => {
            proof { lemma_take_absent(j1, "tools"@); }
        },
    }
}

/// Position of the first parameter set configured for `id`, or -1.
pub open spec fn params_index(list: Seq<(String, ModelParams)>, id: Seq<char>) -> int
    decreases list.len(),
{
    if list.len() == 0 {
        -1
    } else {
        let r = params_index(list.drop_last(), id);
        if r >= 0 { r } else if list.last().0@ == id { list.len() - 1 } else { -1 }
    }
}

/// The parameters configured for `id`, if any.
pub open spec fn params_for(list: Seq<(String, ModelParams)>, id: Seq<char>) -> Option<ModelParams> {
    let i = params_index(list, id);
    if 0 <= i < list.len() { Some(list[i].1) } else { None }
}

/// `params_index` is the first position holding `id`, or -1 when none does.
pub proof fn lemma_params_index(list: Seq<(String, ModelParams)>, id: Seq<char>)
    ensures
        -1 <= params_index(list, id) < list.len(),
        params_index(list, id) >= 0 ==> list[params_index(list, id)].0@ == id,
        forall|j: int| 0 <= j < list.len() && (j < params_index(list, id) || params_index(list, id) < 0) ==> (#[trigger] list[j]).0@ != id,
    decreases list.len(),
{
    if list.len() > 0 {
        lemma_params_index(list.drop_last(), id);
        assert forall|j: int| 0 <= j < list.len() - 1 implies #[trigger] list[j] == list.drop_last()[j] by {}
    }
}

/// The parameters configured for `id`, if any.
fn find_params<'a>(list: &'a Vec<(String, ModelParams)>, id: &str) -> (r: Option<&'a ModelParams>)
    ensures
        match r {
            Some(p) => params_for(list@, id@) == Some(*p),
            None => params_for(list@, id@) is None,
        },
{
    proof { lemma_params_index(list@, id@); }
    let mut i: usize = 0;
    while i < list.len()
        invariant
            i <= list@.len(),
            -1 <= params_index(list@, id@) < list@.len(),
            params_index(list@, id@) >= 0 ==> list@[params_index(list@, id@)].0@ == id@,
            forall|j: int| 0 <= j < list@.len() && (j < params_index(list@, id@) || params_index(list@, id@) < 0) ==> (#[trigger] list@[j]).0@ != id@,
            forall|j: int| 0 <= j < i ==> (#[trigger] list@[j]).0@ != id@,
        decreases list@.len() - i,
    {
        if text_eq(list[i].0.as_str(), id) {
            assert(params_index(list@, id@) == i);
            return Some(&list[i].1);
        }
        i = i + 1;
    }
    None
}

/// The parameters configured for `id`, if any.
pub fn find_params_pub<'a>(list: &'a Vec<(String, ModelParams)>, id: &str) -> (r: Option<&'a ModelParams>)
    ensures
        match r {
            Some(p) => params_for(list@, id@) == Some(*p),
            None => params_for(list@, id@) is None,
        },
{
    find_params(list, id)
}

/// One override, when the parameter is set.
pub open spec fn opt_override(k: Seq<char>, o: Option<Json>) -> Seq<(Seq<char>, JsonV)> {
    match o {
        Some(v) => seq![(k, v@)],
        None => Seq::empty(),
    }
}

/// The typed parameters a request receives, in order: temperature, top_p, top_k,
/// frequency_penalty, presence_penalty, max_tokens, reasoning_effort, seed.
pub open spec fn typed_overrides(p: ModelParams) -> Seq<(Seq<char>, JsonV)> {
    opt_override("temperature"@, p.temperature) + opt_override("top_p"@, p.top_p)
        + opt_override("top_k"@, p.top_k) + opt_override("frequency_penalty"@, p.frequency_penalty)
        + opt_override("presence_penalty"@, p.presence_penalty) + opt_override("max_tokens"@, p.max_tokens)
        + effort_override(p.reasoning_effort) + opt_override("seed"@, p.seed)
}

/// The reasoning-effort override, when set.
pub open spec fn effort_override(o: Option<String>) -> Seq<(Seq<char>, JsonV)> {
    match o {
        Some(s) => seq![("reasoning_effort"@, JsonV::Str(s@))],
        None => Seq::empty(),
    }
}

/// Whether a chat-template argument is one of the continuation flags set for Mistral.
pub open spec fn is_continuation_flag(k: Seq<char>) -> bool {
    k == "add_generation_prompt"@ || k == "continue_final_message"@
}

/// The chat-template arguments a request receives, in order, without the continuation
/// flags when `skip_flags`.
pub open spec fn kwarg_overrides(kw: Seq<(String, Json)>, skip_flags: bool) -> Seq<(Seq<char>, JsonV)>
    decreases kw.len(),
{
    if kw.len() == 0 {
        Seq::empty()
    } else {
        let r = kwarg_overrides(kw.drop_last(), skip_flags);
        if skip_flags && is_continuation_flag(kw.last().0@) { r } else { r.push((kw.last().0@, kw.last().1@)) }
    }
}

/// Every member a parameter set writes into a request, in order.
pub open spec fn overrides(p: ModelParams, skip_flags: bool) -> Seq<(Seq<char>, JsonV)> {
    typed_overrides(p) + match p.chat_template_kwargs {
        Some(kw) => kwarg_overrides(kw@, skip_flags),
        None => Seq::empty(),
    }
}

/// `j` with each override written in turn.
pub open spec fn apply_overrides(j: JsonV, o: Seq<(Seq<char>, JsonV)>) -> JsonV
    decreases o.len(),
{
    if o.len() == 0 { j } else { with_field(apply_overrides(j, o.drop_last()), o.last().0, o.last().1) }
}

/// Writes `v` (when set) as member `k`, extending the overrides written so far.
fn put_opt(json: &mut Json, k: &str, v: &Option<Json>, Ghost(j0): Ghost<JsonV>, Ghost(done): Ghost<Seq<(Seq<char>, JsonV)>>)
    requires
        old(json)@ == apply_overrides(j0, done),
    ensures
        final(json)@ == apply_overrides(j0, done + opt_override(k@, *v)),
{
    match v {
        Some(x) => {
            let c = x.deep_clone();
            json.set_field(k, c);
            assert((done + opt_override(k@, *v)).drop_last() =~= done);
        },
        None => {
            assert(done + opt_override(k@, *v) =~= done);
        },
    }
}

/// Writes the parameters `p` into a request (see [`overrides`]).
pub fn apply_params(json: &mut Json, p: &ModelParams, skip_flags: bool)
    ensures
        final(json)@ == apply_overrides(old(json)@, overrides(*p, skip_flags)),
{
    let ghost j0 = json@;
    let ghost mut done: Seq<(Seq<char>, JsonV)> = Seq::empty();
    put_opt(json, "temperature", &p.temperature, Ghost(j0), Ghost(done));
    proof { done = done + opt_override("temperature"@, p.temperature); }
    put_opt(json, "top_p", &p.top_p, Ghost(j0), Ghost(done));
    proof { done = done + opt_override("top_p"@, p.top_p); }
    put_opt(json, "top_k", &p.top_k, Ghost(j0), Ghost(done));
    proof { done = done + opt_override("top_k"@, p.top_k); }
    put_opt(json, "frequency_penalty", &p.frequency_penalty, Ghost(j0), Ghost(done));
    proof { done = done + opt_override("frequency_penalty"@, p.frequency_penalty); }
    put_opt(json, "presence_penalty", &p.presence_penalty, Ghost(j0), Ghost(done));
    proof { done = done + opt_override("presence_penalty"@, p.presence_penalty); }
    put_opt(json, "max_tokens", &p.max_tokens, Ghost(j0), Ghost(done));
    proof { done = done + opt_override("max_tokens"@, p.max_tokens); }
    match &p.reasoning_effort {
        Some(s) => {
            json.set_field("reasoning_effort", Json::Str(s.clone()));
            proof {
                let e = seq![("reasoning_effort"@, JsonV::Str(s@))];
                assert((done + e).drop_last() =~= done);
                done = done + e;
            }
        },
        None => {},
    }
    let ghost re = effort_override(p.reasoning_effort);
    assert(done =~= opt_override("temperature"@, p.temperature) + opt_override("top_p"@, p.top_p)
        + opt_override("top_k"@, p.top_k) + opt_override("frequency_penalty"@, p.frequency_penalty)
        + opt_override("presence_penalty"@, p.presence_penalty) + opt_override("max_tokens"@, p.max_tokens) + re);
    put_opt(json, "seed", &p.seed, Ghost(j0), Ghost(done));
    proof {
        done = done + opt_override("seed"@, p.seed);
        assert(done =~= typed_overrides(*p));
    }
    match &p.chat_template_kwargs {
        Some(kw) => {
            let ghost base = done;
            let mut i: usize = 0;
            while i < kw.len()
                invariant
                    i <= kw@.len(),
                    json@ == apply_overrides(j0, base + kwarg_overrides(kw@.take(i as int), skip_flags)),
                decreases kw@.len() - i,
            {
                proof {
                    assert(kw@.take(i + 1).drop_last() =~= kw@.take(i as int));
                    assert(kw@.take(i + 1).last() == kw@[i as int]);
                }
                let k = kw[i].0.as_str();
                let skip = skip_flags && (text_eq(k, "add_generation_prompt") || text_eq(k, "continue_final_message"));
                if !skip {
                    let c = kw[i].1.deep_clone();
                    json.set_field(k, c);
                    proof {
                        let prev = base + kwarg_overrides(kw@.take(i as int), skip_flags);
                        assert(base + kwarg_overrides(kw@.take(i + 1), skip_flags) =~= prev.push((kw@[i as int].0@, kw@[i as int].1@)));
                        assert(prev.push((kw@[i as int].0@, kw@[i as int].1@)).drop_last() =~= prev);
                    }
                } else {
                    proof {
                        assert(base + kwarg_overrides(kw@.take(i + 1), skip_flags) =~= base + kwarg_overrides(kw@.take(i as int), skip_flags));
                    }
                }
                i = i + 1;
            }
            proof {
                assert(kw@.take(i as int) =~= kw@);
            }
        },
        None => {
            assert(done + Seq::<(Seq<char>, JsonV)>::empty() =~= done);
        },
    }
}

/// The model a request names (empty when it names none).
pub open spec fn requested_model(j: JsonV) -> Seq<char> {
    match str_of(field(j, "model"@)) {
        Some(s) => s,
        None => Seq::empty(),
    }
}

/// Whether a requested model leaves the choice to the router: empty, `auto`, or its alias
/// `nimaproxy/auto`.
pub open spec fn is_auto(m: Seq<char>) -> bool {
    m.len() == 0 || m == "auto"@ || m == "nimaproxy/auto"@
}

/// Whether a requested model leaves the choice to the router (see [`is_auto`]).
pub fn is_auto_model(m: &str) -> (r: bool)
    ensures
        r == is_auto(m@),
{
    m.is_empty() || text_eq(m, "auto") || text_eq(m, "nimaproxy/auto")
}

/// The model the router of `state` would pick next, if any.
pub open spec fn router_choice(state: AppState) -> Option<Seq<char>> {
    match state.router {
        Some(r) => r.choice(state.model_stats),
        None => None,
    }
}

/// The request after routing: the picked model, with its parameters written in.
pub open spec fn routed_request(j: JsonV, choice: Option<Seq<char>>, params: Seq<(String, ModelParams)>) -> JsonV {
    match choice {
        Some(m) => {
            let j1 = with_field(j, "model"@, JsonV::Str(m));
            match params_for(params, m) {
                Some(p) => apply_overrides(j1, overrides(p, false)),
                None => j1,
            }
        },
        None => j,
    }
}

/// The model a request names, or `unknown`.
pub open spec fn model_or_unknown(j: JsonV) -> Seq<char> {
    match str_of(field(j, "model"@)) {
        Some(s) => s,
        None => "unknown"@,
    }
}

/// The rewrites every request to `model` goes through, in order: Mistral parameters,
/// MiniMax hint, tool-call sanitizing, role rewriting, message ordering.
pub open spec fn rewrite_for(j: JsonV, model: Seq<char>, compat: ModelCompat) -> JsonV {
    fix_order_spec(transform_roles_spec(
        sanitize_spec(minimax_spec(mistral_params_spec(j, model), model)),
        !exempts(compat.supports_developer_role, model),
        !exempts(compat.supports_tool_messages, model),
    ))
}

/// The model a request goes to and the request sent: auto requests are routed; the
/// request is rewritten for its model; then the parameters of the model first requested
/// are written in, except the continuation flags.
pub open spec fn resolved(j: JsonV, choice: Option<Seq<char>>, params: Seq<(String, ModelParams)>, compat: ModelCompat) -> (Seq<char>, JsonV) {
    let req = requested_model(j);
    let j1 = if is_auto(req) { routed_request(j, choice, params) } else { j };
    let model = model_or_unknown(j1);
    let j2 = rewrite_for(j1, model, compat);
    let j3 = match params_for(params, req) {
        Some(p) => apply_overrides(j2, overrides(p, true)),
        None => j2,
    };
    (model, j3)
}

/// The router after one pick by a request that asks for auto routing.
pub open spec fn router_after_pick(r: ModelRouter, r2: ModelRouter) -> bool {
    &&& r2.model_ids() == r.model_ids()
    &&& r2.strategy_spec() == r.strategy_spec()
    &&& r2.cursor() == if r.model_ids().len() > 0 && r.strategy_spec() == Strategy::RoundRobin {
        if r.cursor() == usize::MAX { 0 } else { (r.cursor() + 1) as usize }
    } else {
        r.cursor()
    }
}

/// Resolves the model of a request and rewrites it for that model (see [`resolved`]). A
/// request asking for auto routing advances the router; nothing else in `state` changes.
pub fn resolve_model(json: Json, state: &mut AppState) -> (r: (String, Json))
    requires
        old(state).wf(),
        json@ is Object || json@ is Null
            || (!(is_auto(requested_model(json@)) && router_choice(*old(state)) is Some)
                && params_for(old(state).model_params@, requested_model(json@)) is None),
    ensures
        r.0@ == resolved(json@, router_choice(*old(state)), old(state).model_params@, old(state).model_compat).0,
        r.1@ == resolved(json@, router_choice(*old(state)), old(state).model_params@, old(state).model_compat).1,
        *final(state) == (AppState { router: final(state).router, ..*old(state) }),
        is_auto(requested_model(json@)) ==> match old(state).router {
            Some(r) => final(state).router matches Some(r2) && router_after_pick(r, r2),
            None => final(state).router is None,
        },
        !is_auto(requested_model(json@)) ==> final(state).router == old(state).router,
{
    let mut json = json;
    let ghost j0 = json@;
    let requested: String = match json.field_text("model") {
        Some(s) => s.clone(),
        None => String::new(),
    };
    assert(requested@ == requested_model(j0));
    let auto = is_auto_model(requested.as_str());
    if auto {
        let mut router = state.router.take();
        let ghost r0 = router;
        match &mut router {
            Some(rt) => {
                let picked = rt.pick(&state.model_stats);
                match picked {
                    Some(m) => {
                        json.set_field("model", Json::Str(m.clone()));
                        match find_params(&state.model_params, m.as_str()) {
                            Some(p) => {
                                apply_params(&mut json, p, false);
                            },
                            None => {},
                        }
                    },
                    None => {},
                }
            },
            None => {},
        }
        state.router = router;
    }
    let model_id: String = match json.field_text("model") {
        Some(s) => s.clone(),
        None => "unknown".to_owned(),
    };
    inject_mistral_tool_params(&mut json, model_id.as_str());
    inject_minimax_system_message(&mut json, model_id.as_str());
    sanitize_tool_calls(&mut json);
    transform_message_roles(&mut json, model_id.as_str(), &state.model_compat);
    fix_message_ordering(&mut json);
    match find_params(&state.model_params, requested.as_str()) {
        Some(p) => {
            apply_params(&mut json, p, true);
        },
        None => {},
    }
    (model_id, json)
}

/// Whether a request can be resolved: the request is an object or null, or it neither
/// gets a routed model nor has parameters to write (a member cannot be written into any
/// other value).
pub open spec fn resolvable(j: JsonV, state: AppState) -> bool {
    j is Object || j is Null
        || (!(is_auto(requested_model(j)) && router_choice(state) is Some)
            && params_for(state.model_params@, requested_model(j)) is None)
}

/// Resolves a request (see [`resolve_model`]) when it can be resolved (see
/// [`resolvable`]); none, with `state` unchanged, otherwise.
pub fn resolve_model_checked(json: Json, state: &mut AppState) -> (r: Option<(String, Json)>)
    requires
        old(state).wf(),
    ensures
        resolvable(json@, *old(state)) ==> (r matches Some(p)
            && p.0@ == resolved(json@, router_choice(*old(state)), old(state).model_params@, old(state).model_compat).0
            && p.1@ == resolved(json@, router_choice(*old(state)), old(state).model_params@, old(state).model_compat).1),
        *final(state) == (AppState { router: final(state).router, ..*old(state) }),
        resolvable(json@, *old(state)) && is_auto(requested_model(json@)) ==> match old(state).router {
            Some(r) => final(state).router matches Some(r2) && router_after_pick(r, r2),
            None => final(state).router is None,
        },
        resolvable(json@, *old(state)) && !is_auto(requested_model(json@)) ==> final(state).router == old(state).router,
        !resolvable(json@, *old(state)) ==> r is None && *final(state) == *old(state),
{
    let obj_or_null = match &json {
        Json::Object(_) => true,
        Json::Null => true,
        _ => false,
    };
    proof { lemma_view_shapes(json); }
    if !obj_or_null {
        let requested: String = match json.field_text("model") {
            Some(s) => s.clone(),
            None => String::new(),
        };
        let routes = is_auto_model(requested.as_str()) && match &state.router {
            Some(rt) => rt.peek(&state.model_stats).is_some(),
            None => false,
        };
        let has_params = find_params(&state.model_params, requested.as_str()).is_some();
        if routes || has_params {
            return None;
        }
    }
    Some(resolve_model(json, state))
}

/// The message of a request for a model that is not available.
pub open spec fn not_found_message(model: Seq<char>) -> Seq<char> {
    "model '"@ + model + "' not found in available models"@
}

/// Whether a chat request may name `model`: always when it asks for routing (see
/// [`is_auto`]); otherwise,
/// when the available-model list is set, only a model on it (any other model passes
/// through).
pub fn validate_model_exists(model: &str, state: &AppState) -> (r: Result<(), String>)
    ensures
        match r {
            Ok(()) => is_auto(model@) || state.available_models@.len() == 0
                || listed(state.available_models@, model@),
            Err(msg) => msg@ == not_found_message(model@) && !is_auto(model@)
                && state.available_models@.len() > 0 && !listed(state.available_models@, model@),
        },
{
    if is_auto_model(model) {
        return Ok(());
    }
    if state.available_models.len() > 0 {
        let mut i: usize = 0;
        while i < state.available_models.len()
            invariant
                i <= state.available_models@.len(),
                forall|j: int| 0 <= j < i ==> (#[trigger] state.available_models@[j])@ != model@,
            decreases state.available_models@.len() - i,
        {
            if text_eq(state.available_models[i].as_str(), model) {
                return Ok(());
            }
            i = i + 1;
        }
        let mut msg = "model '".to_owned();
        msg.append(model);
        msg.append("' not found in available models");
        return Err(msg);
    }
    Ok(())
}

/// Role texts used in rewriting differ from one another.
proof fn lemma_role_texts()
    ensures
        "user"@ != "developer"@,
        "user"@ != "tool"@,
        "assistant"@ != "developer"@,
        "assistant"@ != "tool"@,
        "assistant"@ != "user"@,
        "role"@ != "content"@,
{
    reveal_strlit("user");
    reveal_strlit("assistant");
    reveal_strlit("developer");
    reveal_strlit("tool");
    reveal_strlit("role");
    reveal_strlit("content");
    assert("user"@[0] != "developer"@[0]);
    assert("user"@[0] != "tool"@[0]);
    assert("assistant"@[0] != "developer"@[0]);
    assert("assistant"@[0] != "tool"@[0]);
    assert("assistant"@[0] != "user"@[0]);
    assert("role"@[0] != "content"@[0]);
}

/// The inserted assistant message has role `assistant`.
proof fn lemma_empty_assistant_role()
    ensures
        role_of(empty_assistant()) == Some("assistant"@),
{
    lemma_role_texts();
    let m = Map::<Seq<char>, JsonV>::empty().insert("role"@, JsonV::Str("assistant"@)).insert("content"@, JsonV::Null);
    assert(m.contains_key("role"@));
    assert(m["role"@] == JsonV::Str("assistant"@));
}

/// With both rewrites on, no message keeps a `developer` or `tool` role.
pub proof fn law_roles_rewritten(j: JsonV)
    requires
        messages_of(j) is Some,
    ensures
        messages_of(transform_roles_spec(j, true, true)) matches Some(ms)
            && ms.len() == messages_of(j)->0.len()
            && forall|i: int| 0 <= i < ms.len() ==> role_of(#[trigger] ms[i]) != Some("developer"@)
                && role_of(ms[i]) != Some("tool"@),
{
    lemma_role_texts();
    let ms = messages_of(j)->0;
    let out = ms.map_values(|m: JsonV| role_fix(m, true, true));
    assert(messages_of(transform_roles_spec(j, true, true)) == Some(out));
    assert forall|i: int| 0 <= i < out.len() implies role_of(#[trigger] out[i]) != Some("developer"@)
        && role_of(out[i]) != Some("tool"@) by {
        let m = ms[i];
        assert(out[i] == role_fix(m, true, true));
    }
}

/// What `ordered_from` yields: its first message is the one at position `i`, and in it no
/// tool result is directly followed by a user or developer message.
proof fn lemma_ordered_from(ms: Seq<JsonV>, i: int)
    requires
        0 <= i,
    ensures
        i < ms.len() ==> ordered_from(ms, i).len() > 0 && ordered_from(ms, i)[0] == ms[i],
        i >= ms.len() ==> ordered_from(ms, i).len() == 0,
        forall|k: int| 0 <= k < ordered_from(ms, i).len() - 1 && role_of(#[trigger] ordered_from(ms, i)[k]) == Some("tool"@)
            ==> role_of(ordered_from(ms, i)[k + 1]) != Some("user"@) && role_of(ordered_from(ms, i)[k + 1]) != Some("developer"@),
    decreases ms.len() - i,
{
    if i < ms.len() {
        lemma_ordered_from(ms, i + 1);
        lemma_empty_assistant_role();
        lemma_role_texts();
        let rest = ordered_from(ms, i + 1);
        let o = ordered_from(ms, i);
        if needs_assistant_after(ms, i) {
            assert(o =~= seq![ms[i], empty_assistant()] + rest);
            assert forall|k: int| 0 <= k < o.len() - 1 && role_of(#[trigger] o[k]) == Some("tool"@)
                implies role_of(o[k + 1]) != Some("user"@) && role_of(o[k + 1]) != Some("developer"@) by {
                if k >= 2 {
                    assert(o[k] == rest[k - 2]);
                    assert(o[k + 1] == rest[k - 1]);
                } else if k == 1 {
                    assert(o[1] == empty_assistant());
                }
            }
        } else {
            assert(o =~= seq![ms[i]] + rest);
            assert forall|k: int| 0 <= k < o.len() - 1 && role_of(#[trigger] o[k]) == Some("tool"@)
                implies role_of(o[k + 1]) != Some("user"@) && role_of(o[k + 1]) != Some("developer"@) by {
                if k >= 1 {
                    assert(o[k] == rest[k - 1]);
                    assert(o[k + 1] == rest[k]);
                } else {
                    assert(o[1] == rest[0]);
                }
            }
        }
    }
}

/// After reordering, no tool result is directly followed by a user or developer message.
pub proof fn law_no_user_right_after_tool(j: JsonV)
    requires
        messages_of(j) is Some,
    ensures
        messages_of(fix_order_spec(j)) matches Some(ms)
            && forall|k: int| 0 <= k < ms.len() - 1 && role_of(#[trigger] ms[k]) == Some("tool"@)
                ==> role_of(ms[k + 1]) != Some("user"@) && role_of(ms[k + 1]) != Some("developer"@),
{
    lemma_ordered_from(messages_of(j)->0, 0);
    assert(messages_of(fix_order_spec(j)) == Some(ordered_from(messages_of(j)->0, 0)));
}

/// Resolves a raw request body: a body that is not JSON goes on unchanged for model
/// `unknown` (the inner `None`); a JSON body is resolved (see [`resolve_model_checked`]) and
/// written back as text; none, with `state` unchanged, when it cannot be resolved.
pub fn resolve_body(body: &[u8], state: &mut AppState) -> (r: Option<(String, Option<String>)>)
    requires
        old(state).wf(),
    ensures
        *final(state) == (AppState { router: final(state).router, ..*old(state) }),
        match json_parse(body@) {
            None => (r matches Some((m, t)) && m@ == "unknown"@ && t is None) && *final(state) == *old(state),
            Some(j) => {
                let res = resolved(j, router_choice(*old(state)), old(state).model_params@, old(state).model_compat);
                &&& resolvable(j, *old(state)) ==> (r matches Some((m, t)) && m@ == res.0
                    && (t matches Some(text) && text@ == json_render(res.1)))
                &&& resolvable(j, *old(state)) && is_auto(requested_model(j)) ==> match old(state).router {
                    Some(rt) => final(state).router matches Some(r2) && router_after_pick(rt, r2),
                    None => final(state).router is None,
                }
                &&& resolvable(j, *old(state)) && !is_auto(requested_model(j)) ==> final(state).router == old(state).router
                &&& !resolvable(j, *old(state)) ==> r is None && *final(state) == *old(state)
            },
        },
{
    match parse_json(body) {
        Err(_) => Some(("unknown".to_owned(), None)),
        Ok(j) => match resolve_model_checked(j, state) {
            Some((m, out)) => Some((m, Some(render_json(&out)))),
            None => None,
        },
    }
}

/// Checks the tool call ids of a raw request body (see [`validate_mistral_tool_call_ids`]);
/// a body that is not JSON has nothing to report.
pub fn validate_body_tool_call_ids(body: &[u8], model_id: &str) -> (r: Result<ToolIdReport, (u16, String)>)
    ensures
        r matches Ok(rep) && ({
            let ms = match json_parse(body@) {
                Some(j) => checked_messages(j, model_id@),
                None => Seq::empty(),
            };
            &&& ids(rep.invalid_ids@) == all_call_ids(ms, false)
            &&& ids(rep.unanswered_calls@) == unanswered_calls(ms)
            &&& ids(rep.unmatched_responses@) == unmatched_responses(ms)
        }),
{
    match parse_json(body) {
        Ok(j) => validate_mistral_tool_call_ids(&j, model_id),
        Err(_) => {
            let rep = ToolIdReport { invalid_ids: Vec::new(), unanswered_calls: Vec::new(), unmatched_responses: Vec::new() };
            proof {
                let e = Seq::<JsonV>::empty();
                assert(ids(rep.invalid_ids@) =~= all_call_ids(e, false));
                assert(!has_tool_role(e));
                assert(ids(rep.unanswered_calls@) =~= unanswered_calls(e));
                assert(ids(rep.unmatched_responses@) =~= unmatched_responses(e));
            }
            Ok(rep)
        },
    }
}

/// A conversation is in a tool-calling flow when any message carries `tool_calls` or has
/// role `tool`, and only then; for a Mistral model such a request gets
/// `add_generation_prompt: false`.
pub proof fn law_tool_calls_mean_tool_flow(j: JsonV, model: Seq<char>)
    ensures
        (messages_of(j) matches Some(ms) && exists|i: int| 0 <= i < ms.len() && field(#[trigger] ms[i], "tool_calls"@) is Some)
            ==> has_tools_spec(j),
        (messages_of(j) matches Some(ms) && exists|i: int| 0 <= i < ms.len() && role_of(#[trigger] ms[i]) == Some("tool"@))
            ==> has_tools_spec(j),
        has_tools_spec(j) ==> (messages_of(j) matches Some(ms) && exists|i: int| 0 <= i < ms.len()
            && (field(#[trigger] ms[i], "tool_calls"@) is Some || role_of(ms[i]) == Some("tool"@))),
        j is Object && has_tools_spec(j) && text_contains(model, "mistral"@)
            ==> field(mistral_params_spec(j, model), "add_generation_prompt"@) == Some(JsonV::Bool(false)),
        j is Object && last_from_assistant_spec(j) && text_contains(model, "mistral"@)
            ==> field(mistral_params_spec(j, model), "continue_final_message"@) == Some(JsonV::Bool(true)),
        !has_tools_spec(j) ==> field(mistral_params_spec(j, model), "add_generation_prompt"@) == field(j, "add_generation_prompt"@),
        !(text_contains(model, "mistral"@) || text_contains(model, "devstral"@)) ==> mistral_params_spec(j, model) == j,
{
    reveal_strlit("add_generation_prompt");
    reveal_strlit("continue_final_message");
    assert("add_generation_prompt"@.len() != "continue_final_message"@.len());
}

} // verus!