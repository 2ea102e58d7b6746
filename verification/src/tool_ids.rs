use vstd::prelude::*;
use crate::json::{field, items_of, items_view, lemma_view_shapes, str_of, Json, JsonV};
use crate::model_refresh::{filter_ids, ids};
use crate::proxy::is_mistral_model;
use crate::request::{messages_of, role_of};
use crate::text::{chars_of, text_contains, text_eq};

verus! {

/// What `char::is_alphanumeric` answers for `c` (Unicode letters and numbers).
pub uninterp spec fn alphanumeric(c: char) -> bool;

/// `char::is_alphanumeric`. Its answer is named by [`alphanumeric`]; the Unicode tables
/// behind it are not written out.
#[verifier::external_body]
fn char_is_alphanumeric(c: char) -> (r: bool)
    ensures
        r == alphanumeric(c),
{
    c.is_alphanumeric()
}

/// Every character of `s` is alphanumeric; Mistral models accept only such tool call ids.
pub open spec fn all_alphanumeric(s: Seq<char>) -> bool {
    forall|i: int| 0 <= i < s.len() ==> alphanumeric(#[trigger] s[i])
}

/// The string ids of the tool calls `tcs`, in order: the alphanumeric ones when `valid`,
/// the others otherwise.
pub open spec fn call_ids(tcs: Seq<JsonV>, valid: bool) -> Seq<Seq<char>>
    decreases tcs.len(),
{
    if tcs.len() == 0 {
        Seq::empty()
    } else {
        let rest = call_ids(tcs.drop_last(), valid);
        match str_of(field(tcs.last(), "id"@)) {
            Some(id) => if all_alphanumeric(id) == valid { rest.push(id) } else { rest },
            None => rest,
        }
    }
}

/// The tool call ids of one message: those of an assistant message's `tool_calls` array.
pub open spec fn message_call_ids(m: JsonV, valid: bool) -> Seq<Seq<char>> {
    if role_of(m) == Some("assistant"@) {
        match items_of(field(m, "tool_calls"@)) {
            Some(tcs) => call_ids(tcs, valid),
            None => Seq::empty(),
        }
    } else {
        Seq::empty()
    }
}

/// The id a tool message answers, when it has a string `tool_call_id`.
pub open spec fn message_response_ids(m: JsonV) -> Seq<Seq<char>> {
    if role_of(m) == Some("tool"@) {
        match str_of(field(m, "tool_call_id"@)) {
            Some(id) => seq![id],
            None => Seq::empty(),
        }
    } else {
        Seq::empty()
    }
}

/// The tool call ids of all messages, in order.
pub open spec fn all_call_ids(ms: Seq<JsonV>, valid: bool) -> Seq<Seq<char>>
    decreases ms.len(),
{
    if ms.len() == 0 {
        Seq::empty()
    } else {
        all_call_ids(ms.drop_last(), valid) + message_call_ids(ms.last(), valid)
    }
}

/// The ids answered by tool messages, in order.
pub open spec fn all_response_ids(ms: Seq<JsonV>) -> Seq<Seq<char>>
    decreases ms.len(),
{
    if ms.len() == 0 {
        Seq::empty()
    } else {
        all_response_ids(ms.drop_last()) + message_response_ids(ms.last())
    }
}

/// Whether some message has role `tool`.
pub open spec fn has_tool_role(ms: Seq<JsonV>) -> bool {
    exists|i: int| 0 <= i < ms.len() && role_of(#[trigger] ms[i]) == Some("tool"@)
}

/// The ids of `s` without repeats, each where it first occurs.
pub open spec fn distinct(s: Seq<Seq<char>>) -> Seq<Seq<char>>
    decreases s.len(),
{
    if s.len() == 0 {
        Seq::empty()
    } else {
        let d = distinct(s.drop_last());
        if d.contains(s.last()) { d } else { d.push(s.last()) }
    }
}

/// Whether an id is missing from `s`.
pub open spec fn absent_from(s: Seq<Seq<char>>) -> spec_fn(Seq<char>) -> bool {
    |id: Seq<char>| !s.contains(id)
}

/// Valid tool call ids that no tool message answers (only in a conversation with tool
/// messages).
pub open spec fn unanswered_calls(ms: Seq<JsonV>) -> Seq<Seq<char>> {
    if has_tool_role(ms) {
        filter_ids(distinct(all_call_ids(ms, true)), absent_from(all_response_ids(ms)))
    } else {
        Seq::empty()
    }
}

/// Answered ids that no valid tool call carries (only in a conversation with tool
/// messages).
pub open spec fn unmatched_responses(ms: Seq<JsonV>) -> Seq<Seq<char>> {
    if has_tool_role(ms) {
        filter_ids(distinct(all_response_ids(ms)), absent_from(all_call_ids(ms, true)))
    } else {
        Seq::empty()
    }
}

/// The messages that are checked: those of a request to a Mistral model.
pub open spec fn checked_messages(j: JsonV, model: Seq<char>) -> Seq<JsonV> {
    if text_contains(model, "mistral"@) || text_contains(model, "devstral"@) {
        match messages_of(j) {
            Some(ms) => ms,
            None => Seq::empty(),
        }
    } else {
        Seq::empty()
    }
}

/// What is wrong with the tool call ids of a request. None of it rejects the request.
pub struct ToolIdReport {
    /// Tool call ids with a character that is not alphanumeric, in order.
    pub invalid_ids: Vec<String>,
    /// Valid tool call ids without a tool message that answers them.
    pub unanswered_calls: Vec<String>,
    /// Answered ids without a valid tool call.
    pub unmatched_responses: Vec<String>,
}

/// An id occurs in the list without repeats exactly when it occurs in the list.
pub proof fn lemma_distinct_contains(s: Seq<Seq<char>>, x: Seq<char>)
    ensures
        distinct(s).contains(x) == s.contains(x),
    decreases s.len(),
{
    if s.len() > 0 {
        lemma_distinct_contains(s.drop_last(), x);
        let d = distinct(s.drop_last());
        if s.drop_last().contains(x) {
            let k = choose|k: int| 0 <= k < s.drop_last().len() && s.drop_last()[k] == x;
            assert(s[k] == x);
        }
        if s.contains(x) && x != s.last() {
            let k = choose|k: int| 0 <= k < s.len() && s[k] == x;
            assert(s.drop_last()[k] == x);
        }
        if !d.contains(s.last()) {
            assert(d.push(s.last())[d.len() as int] == s.last());
            if d.contains(x) {
                let k = choose|k: int| 0 <= k < d.len() && d[k] == x;
                assert(d.push(s.last())[k] == x);
            }
            if d.push(s.last()).contains(x) && x != s.last() {
                let k = choose|k: int| 0 <= k < d.len() + 1 && d.push(s.last())[k] == x;
                assert(d[k] == x);
            }
        }
        if x == s.last() {
            assert(s[s.len() - 1] == x);
        }
    }
}

/// Whether every character of `s` is alphanumeric.
fn is_all_alphanumeric(s: &str) -> (r: bool)
    ensures
        r == all_alphanumeric(s@),
{
    let cs = chars_of(s);
    let mut i: usize = 0;
    while i < cs.len()
        invariant
            cs@ == s@,
            i <= cs@.len(),
            forall|k: int| 0 <= k < i ==> alphanumeric(#[trigger] cs@[k]),
        decreases cs@.len() - i,
    {
        if !char_is_alphanumeric(cs[i]) {
            return false;
        }
        i = i + 1;
    }
    true
}

/// Whether `s` is among `v`.
fn has_text(v: &Vec<String>, s: &str) -> (r: bool)
    ensures
        r == ids(v@).contains(s@),
{
    let mut i: usize = 0;
    while i < v.len()
        invariant
            i <= v@.len(),
            forall|k: int| 0 <= k < i ==> v@[k]@ != s@,
        decreases v@.len() - i,
    {
        if text_eq(v[i].as_str(), s) {
            assert(ids(v@)[i as int] == s@);
            return true;
        }
        i = i + 1;
    }
    proof {
        if ids(v@).contains(s@) {
            let k = choose|k: int| 0 <= k < ids(v@).len() && ids(v@)[k] == s@;
            assert(v@[k]@ == s@);
        }
    }
    false
}

/// Appends `s` to `v` unless it is already there.
fn push_new(v: &mut Vec<String>, s: &str)
    ensures
        ids(final(v)@) == if ids(old(v)@).contains(s@) { ids(old(v)@) } else { ids(old(v)@).push(s@) },
{
    if !has_text(v, s) {
        v.push(s.to_string());
        assert(ids(v@) =~= ids(old(v)@).push(s@));
    }
}

/// The ids of the tool calls of one assistant message, added to what the earlier messages
/// gave.
fn scan_calls(tcs: &Vec<Json>, invalid: &mut Vec<String>, valid: &mut Vec<String>, Ghost(inv0): Ghost<Seq<Seq<char>>>, Ghost(val0): Ghost<Seq<Seq<char>>>)
    requires
        ids(old(invalid)@) == inv0,
        ids(old(valid)@) == distinct(val0),
    ensures
        ids(final(invalid)@) == inv0 + call_ids(items_view(tcs@), false),
        ids(final(valid)@) == distinct(val0 + call_ids(items_view(tcs@), true)),
{
    let ghost t = items_view(tcs@);
    let mut k: usize = 0;
    assert(val0 + call_ids(t.take(0), true) =~= val0);
    assert(inv0 + call_ids(t.take(0), false) =~= inv0);
    while k < tcs.len()
        invariant
            t == items_view(tcs@),
            k <= tcs@.len(),
            ids(invalid@) == inv0 + call_ids(t.take(k as int), false),
            ids(valid@) == distinct(val0 + call_ids(t.take(k as int), true)),
        decreases tcs@.len() - k,
    {
        assert(t.take(k + 1).drop_last() =~= t.take(k as int));
        assert(t.take(k + 1).last() == tcs@[k as int]@);
        match tcs[k].field_text("id") {
            Some(id) => {
                if is_all_alphanumeric(id.as_str()) {
                    let ghost before = val0 + call_ids(t.take(k as int), true);
                    assert(val0 + call_ids(t.take(k + 1), true) =~= before.push(id@));
                    assert(before.push(id@).drop_last() =~= before);
                    push_new(valid, id.as_str());
                    assert(inv0 + call_ids(t.take(k + 1), false) =~= inv0 + call_ids(t.take(k as int), false));
                } else {
                    invalid.push(id.clone());
                    assert(ids(invalid@) =~= (inv0 + call_ids(t.take(k as int), false)).push(id@));
                    assert(inv0 + call_ids(t.take(k + 1), false) =~= (inv0 + call_ids(t.take(k as int), false)).push(id@));
                    assert(val0 + call_ids(t.take(k + 1), true) =~= val0 + call_ids(t.take(k as int), true));
                }
            },
            None => {
                assert(inv0 + call_ids(t.take(k + 1), false) =~= inv0 + call_ids(t.take(k as int), false));
                assert(val0 + call_ids(t.take(k + 1), true) =~= val0 + call_ids(t.take(k as int), true));
            },
        }
        k = k + 1;
    }
    assert(t.take(k as int) =~= t);
}

/// The ids of all messages: invalid call ids in order, valid call ids and answered ids
/// without repeats, and whether a tool message occurs.
fn scan_messages(ms: &Vec<Json>) -> (r: (Vec<String>, Vec<String>, Vec<String>, bool))
    ensures
        ids(r.0@) == all_call_ids(items_view(ms@), false),
        ids(r.1@) == distinct(all_call_ids(items_view(ms@), true)),
        ids(r.2@) == distinct(all_response_ids(items_view(ms@))),
        r.3 == has_tool_role(items_view(ms@)),
{
    let ghost v = items_view(ms@);
    let mut invalid: Vec<String> = Vec::new();
    let mut valid: Vec<String> = Vec::new();
    let mut answered: Vec<String> = Vec::new();
    let mut has_tool = false;
    let mut i: usize = 0;
    assert(ids(invalid@) =~= Seq::<Seq<char>>::empty());
    assert(ids(valid@) =~= Seq::<Seq<char>>::empty());
    assert(ids(answered@) =~= Seq::<Seq<char>>::empty());
    assert(v.take(0) =~= Seq::<JsonV>::empty());
    while i < ms.len()
        invariant
            v == items_view(ms@),
            i <= ms@.len(),
            ids(invalid@) == all_call_ids(v.take(i as int), false),
            ids(valid@) == distinct(all_call_ids(v.take(i as int), true)),
            ids(answered@) == distinct(all_response_ids(v.take(i as int))),
            has_tool == has_tool_role(v.take(i as int)),
        decreases ms@.len() - i,
    {
        let ghost pre = v.take(i as int);
        let ghost next = v.take(i + 1);
        assert(next.drop_last() =~= pre);
        assert(next.last() == ms@[i as int]@);
        let m = &ms[i];
        let ghost inv0 = ids(invalid@);
        let ghost val_all = all_call_ids(pre, true);
        if role_is_text(m, "assistant") {
            match m.get_field("tool_calls") {
                Some(tc) => {
                    proof { lemma_view_shapes(*tc); }
                    match tc {
                        Json::Array(tcs) => {
                            scan_calls(tcs, &mut invalid, &mut valid, Ghost(inv0), Ghost(val_all));
                        },
                        _ => {
                            assert(message_call_ids(m@, true) =~= Seq::<Seq<char>>::empty());
                            assert(message_call_ids(m@, false) =~= Seq::<Seq<char>>::empty());
                        },
                    }
                },
                None => {
                    assert(message_call_ids(m@, true) =~= Seq::<Seq<char>>::empty());
                    assert(message_call_ids(m@, false) =~= Seq::<Seq<char>>::empty());
                },
            }
            proof {
                reveal_strlit("assistant");
                reveal_strlit("tool");
                assert("assistant"@.len() != "tool"@.len());
            }
            assert(message_response_ids(m@) =~= Seq::<Seq<char>>::empty());
            assert(all_response_ids(next) =~= all_response_ids(pre));
            assert(all_call_ids(next, true) =~= all_call_ids(pre, true) + message_call_ids(m@, true));
            assert(all_call_ids(next, false) =~= all_call_ids(pre, false) + message_call_ids(m@, false));
            assert(role_of(next[i as int]) != Some("tool"@));
        } else {
            assert(message_call_ids(m@, true) =~= Seq::<Seq<char>>::empty());
            assert(message_call_ids(m@, false) =~= Seq::<Seq<char>>::empty());
            assert(all_call_ids(next, true) =~= all_call_ids(pre, true));
            assert(all_call_ids(next, false) =~= all_call_ids(pre, false));
            if role_is_text(m, "tool") {
                has_tool = true;
                assert(role_of(next[i as int]) == Some("tool"@));
                match m.field_text("tool_call_id") {
                    Some(id) => {
                        let ghost before = all_response_ids(pre);
                        assert(all_response_ids(next) =~= before.push(id@));
                        assert(before.push(id@).drop_last() =~= before);
                        push_new(&mut answered, id.as_str());
                    },
                    None => {
                        assert(all_response_ids(next) =~= all_response_ids(pre));
                    },
                }
            } else {
                assert(all_response_ids(next) =~= all_response_ids(pre));
            }
        }
        proof {
            if has_tool_role(pre) {
                let k = choose|k: int| 0 <= k < pre.len() && role_of(#[trigger] pre[k]) == Some("tool"@);
                assert(next[k] == pre[k]);
            }
            if has_tool_role(next) && role_of(next[i as int]) != Some("tool"@) {
                let k = choose|k: int| 0 <= k < next.len() && role_of(#[trigger] next[k]) == Some("tool"@);
                assert(pre[k] == next[k]);
            }
        }
        i = i + 1;
    }
    assert(v.take(i as int) =~= v);
    (invalid, valid, answered, has_tool)
}

/// Whether the role of `m` is `role`.
fn role_is_text(m: &Json, role: &str) -> (r: bool)
    ensures
        r == (role_of(m@) == Some(role@)),
{
    match m.field_text("role") {
        Some(s) => text_eq(s.as_str(), role),
        None => false,
    }
}

/// The ids of `from` that are not in `other`, in order.
fn keep_absent(from: &Vec<String>, other: &Vec<String>, Ghost(all_other): Ghost<Seq<Seq<char>>>) -> (r: Vec<String>)
    requires
        ids(other@) == distinct(all_other),
    ensures
        ids(r@) == filter_ids(ids(from@), absent_from(all_other)),
{
    let ghost keep = absent_from(all_other);
    let mut out: Vec<String> = Vec::new();
    let mut i: usize = 0;
    assert(ids(from@).take(0) =~= Seq::<Seq<char>>::empty());
    assert(ids(out@) =~= Seq::<Seq<char>>::empty());
    while i < from.len()
        invariant
            keep == absent_from(all_other),
            ids(other@) == distinct(all_other),
            i <= from@.len(),
            ids(out@) == filter_ids(ids(from@).take(i as int), keep),
        decreases from@.len() - i,
    {
        assert(ids(from@).take(i + 1).drop_last() =~= ids(from@).take(i as int));
        assert(ids(from@).take(i + 1).last() == from@[i as int]@);
        proof { lemma_distinct_contains(all_other, from@[i as int]@); }
        if !has_text(other, from[i].as_str()) {
            out.push(from[i].clone());
            assert(ids(out@) =~= filter_ids(ids(from@).take(i as int), keep).push(from@[i as int]@));
        }
        i = i + 1;
    }
    assert(ids(from@).take(i as int) =~= ids(from@));
    out
}

/// Checks the tool call ids of a request to a Mistral model, which wants alphanumeric ids
/// and every call answered by a tool message. Nothing found rejects the request: what was
/// found is reported, and requests to other models are not checked.
pub fn validate_mistral_tool_call_ids(json: &Json, model_id: &str) -> (r: Result<ToolIdReport, (u16, String)>)
    ensures
        r matches Ok(rep) && ({
            let ms = checked_messages(json@, model_id@);
            &&& ids(rep.invalid_ids@) == all_call_ids(ms, false)
            &&& ids(rep.unanswered_calls@) == unanswered_calls(ms)
            &&& ids(rep.unmatched_responses@) == unmatched_responses(ms)
        }),
{
    let empty = ToolIdReport { invalid_ids: Vec::new(), unanswered_calls: Vec::new(), unmatched_responses: Vec::new() };
    proof {
        let e = Seq::<JsonV>::empty();
        assert(ids(empty.invalid_ids@) =~= all_call_ids(e, false));
        assert(!has_tool_role(e));
        assert(ids(empty.unanswered_calls@) =~= unanswered_calls(e));
        assert(ids(empty.unmatched_responses@) =~= unmatched_responses(e));
    }
    if !is_mistral_model(model_id) {
        return Ok(empty);
    }
    let ms = match json.get_field("messages") {
        Some(m) => {
            proof { lemma_view_shapes(*m); }
            match m {
                Json::Array(v) => v,
                _ => return Ok(empty),
            }
        },
        None => return Ok(empty),
    };
    let ghost v = items_view(ms@);
    assert(checked_messages(json@, model_id@) == v);
    let (invalid, valid, answered, has_tool) = scan_messages(ms);
    if !has_tool {
        let rep = ToolIdReport { invalid_ids: invalid, unanswered_calls: Vec::new(), unmatched_responses: Vec::new() };
        assert(ids(rep.unanswered_calls@) =~= unanswered_calls(v));
        assert(ids(rep.unmatched_responses@) =~= unmatched_responses(v));
        return Ok(rep);
    }
    let unanswered = keep_absent(&valid, &answered, Ghost(all_response_ids(v)));
    let unmatched = keep_absent(&answered, &valid, Ghost(all_call_ids(v, true)));
    Ok(ToolIdReport { invalid_ids: invalid, unanswered_calls: unanswered, unmatched_responses: unmatched })
}

/// What `filter_ids` keeps comes from the list and passes the test.
proof fn lemma_filter_ids_member(s: Seq<Seq<char>>, keep: spec_fn(Seq<char>) -> bool, x: Seq<char>)
    ensures
        filter_ids(s, keep).contains(x) ==> keep(x) && s.contains(x),
    decreases s.len(),
{
    if s.len() > 0 {
        lemma_filter_ids_member(s.drop_last(), keep, x);
        let r = filter_ids(s.drop_last(), keep);
        if filter_ids(s, keep).contains(x) {
            let k = choose|k: int| 0 <= k < filter_ids(s, keep).len() && filter_ids(s, keep)[k] == x;
            if keep(s.last()) && k == r.len() {
                assert(x == s.last());
                assert(s[s.len() - 1] == x);
            } else {
                assert(r[k] == x);
                assert(r.contains(x));
                let j = choose|j: int| 0 <= j < s.drop_last().len() && s.drop_last()[j] == x;
                assert(s[j] == x);
            }
        }
    }
}

/// No id is reported both as a call without an answer and as an answer without a call; an
/// unanswered call is a valid call id, and an unmatched answer is an answered id.
pub proof fn law_tool_id_reports_disjoint(ms: Seq<JsonV>, id: Seq<char>)
    ensures
        unanswered_calls(ms).contains(id) ==> all_call_ids(ms, true).contains(id) && !all_response_ids(ms).contains(id),
        unmatched_responses(ms).contains(id) ==> all_response_ids(ms).contains(id) && !all_call_ids(ms, true).contains(id),
        !(unanswered_calls(ms).contains(id) && unmatched_responses(ms).contains(id)),
{
    let calls = all_call_ids(ms, true);
    let answers = all_response_ids(ms);
    if has_tool_role(ms) {
        lemma_filter_ids_member(distinct(calls), absent_from(answers), id);
        lemma_filter_ids_member(distinct(answers), absent_from(calls), id);
        lemma_distinct_contains(calls, id);
        lemma_distinct_contains(answers, id);
    }
}

} // verus!