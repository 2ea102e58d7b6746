use vstd::prelude::*;
use crate::gateway::{push_all_unique, routed_ids, AppState};
use crate::json_text::{json_parse, parse_json};
use vstd::string::*;
use crate::json::{field, items_of, items_view, lemma_view_shapes, str_of, Json, JsonV};
use crate::model_stats::{after_server_degraded, fresh_state, EntryState};

verus! {

/// Whether some id of `upstream` equals `m`.
pub open spec fn listed(upstream: Seq<String>, m: Seq<char>) -> bool {
    exists|k: int| 0 <= k < upstream.len() && (#[trigger] upstream[k])@ == m
}

/// The ids of `models`, in order, that `keep` accepts.
pub open spec fn filter_ids(models: Seq<Seq<char>>, keep: spec_fn(Seq<char>) -> bool) -> Seq<Seq<char>>
    decreases models.len(),
{
    if models.len() == 0 {
        Seq::empty()
    } else {
        let r = filter_ids(models.drop_last(), keep);
        if keep(models.last()) { r.push(models.last()) } else { r }
    }
}

/// Whether an id is in the catalog `upstream`.
pub open spec fn in_catalog(upstream: Seq<String>) -> spec_fn(Seq<char>) -> bool {
    |m: Seq<char>| listed(upstream, m)
}

/// Whether an id is missing from the catalog `upstream`.
pub open spec fn not_in_catalog(upstream: Seq<String>) -> spec_fn(Seq<char>) -> bool {
    |m: Seq<char>| !listed(upstream, m)
}

/// The ids of a list of strings.
pub open spec fn ids(v: Seq<String>) -> Seq<Seq<char>> {
    v.map_values(|s: String| s@)
}

/// Whether `m` is among `upstream`.
fn is_listed(upstream: &[String], m: &String) -> (r: bool)
    ensures
        r == listed(upstream@, m@),
{
    let mut k: usize = 0;
    while k < upstream.len()
        invariant
            k <= upstream@.len(),
            forall|j: int| 0 <= j < k ==> (#[trigger] upstream@[j])@ != m@,
        decreases upstream@.len() - k,
    {
        if upstream[k] == *m {
            return true;
        }
        k = k + 1;
    }
    false
}

/// Splits `models` into the ids present in `upstream` and those absent from it, each in
/// the order given.
pub fn prune_missing_models(models: &[String], upstream: &[String]) -> (r: (Vec<String>, Vec<String>))
    ensures
        ids(r.0@) == filter_ids(ids(models@), in_catalog(upstream@)),
        ids(r.1@) == filter_ids(ids(models@), not_in_catalog(upstream@)),
{
    let ghost inside = in_catalog(upstream@);
    let ghost outside = not_in_catalog(upstream@);
    let mut kept: Vec<String> = Vec::new();
    let mut pruned: Vec<String> = Vec::new();
    let mut i: usize = 0;
    while i < models.len()
        invariant
            inside == in_catalog(upstream@),
            outside == not_in_catalog(upstream@),
            i <= models@.len(),
            ids(kept@) == filter_ids(ids(models@).take(i as int), inside),
            ids(pruned@) == filter_ids(ids(models@).take(i as int), outside),
        decreases models@.len() - i,
    {
        assert(ids(models@).take(i + 1).drop_last() =~= ids(models@).take(i as int));
        assert(ids(models@).take(i + 1).last() == models@[i as int]@);
        let m = models[i].clone();
        if is_listed(upstream, &models[i]) {
            kept.push(m);
            assert(inside(models@[i as int]@) && !outside(models@[i as int]@));
            assert(ids(kept@) =~= filter_ids(ids(models@).take(i as int), inside).push(models@[i as int]@));
            assert(ids(pruned@) =~= filter_ids(ids(models@).take(i + 1), outside));
        } else {
            pruned.push(m);
            assert(!inside(models@[i as int]@) && outside(models@[i as int]@));
            assert(ids(pruned@) =~= filter_ids(ids(models@).take(i as int), outside).push(models@[i as int]@));
            assert(ids(kept@) =~= filter_ids(ids(models@).take(i + 1), inside));
        }
        i = i + 1;
    }
    assert(ids(models@).take(i as int) =~= ids(models@));
    (kept, pruned)
}

/// Prunes `models` against `upstream`, appends the pruned ids to `pruned_out` and returns
/// the kept ids. `list_name` names the list for the caller's log of what was pruned.
pub fn prune_and_log(models: Vec<String>, upstream: &[String], list_name: &str, pruned_out: &mut Vec<String>) -> (kept: Vec<String>)
    ensures
        ids(kept@) == filter_ids(ids(models@), in_catalog(upstream@)),
        ids(final(pruned_out)@) == ids(old(pruned_out)@) + filter_ids(ids(models@), not_in_catalog(upstream@)),
{
    let (kept, mut pruned) = prune_missing_models(models.as_slice(), upstream);
    let ghost before = pruned_out@;
    let ghost p = pruned@;
    pruned_out.append(&mut pruned);
    assert(ids(pruned_out@) =~= ids(before) + ids(p));
    kept
}

/// Pruning splits a list: every id goes to exactly one side, so the two sides together
/// are as long as the list; the kept ids are all listed upstream and the pruned ones are
/// not.
pub proof fn law_prune_partition(models: Seq<Seq<char>>, upstream: Seq<String>)
    ensures
        filter_ids(models, in_catalog(upstream)).len()
            + filter_ids(models, not_in_catalog(upstream)).len() == models.len(),
        forall|i: int| 0 <= i < filter_ids(models, in_catalog(upstream)).len()
            ==> listed(upstream, #[trigger] filter_ids(models, in_catalog(upstream))[i]),
        forall|i: int| 0 <= i < filter_ids(models, not_in_catalog(upstream)).len()
            ==> !listed(upstream, #[trigger] filter_ids(models, not_in_catalog(upstream))[i]),
    decreases models.len(),
{
    if models.len() > 0 {
        law_prune_partition(models.drop_last(), upstream);
        let a = filter_ids(models.drop_last(), in_catalog(upstream));
        let b = filter_ids(models.drop_last(), not_in_catalog(upstream));
        assert forall|i: int| 0 <= i < filter_ids(models, in_catalog(upstream)).len()
            implies listed(upstream, #[trigger] filter_ids(models, in_catalog(upstream))[i]) by {
            if i < a.len() {
                assert(filter_ids(models, in_catalog(upstream))[i] == a[i]);
            }
        }
        assert forall|i: int| 0 <= i < filter_ids(models, not_in_catalog(upstream)).len()
            implies !listed(upstream, #[trigger] filter_ids(models, not_in_catalog(upstream))[i]) by {
            if i < b.len() {
                assert(filter_ids(models, not_in_catalog(upstream))[i] == b[i]);
            }
        }
    }
}

/// The model ids a `/v1/models` catalog lists: the string `id` of each entry of its `data`
/// array, each once, in order of first appearance.
pub open spec fn catalog_ids_spec(entries: Seq<JsonV>) -> Seq<Seq<char>>
    decreases entries.len(),
{
    if entries.len() == 0 {
        Seq::empty()
    } else {
        let r = catalog_ids_spec(entries.drop_last());
        match str_of(field(entries.last(), "id"@)) {
            Some(id) => if r.contains(id) { r } else { r.push(id) },
            None => r,
        }
    }
}

/// The entries of a catalog's `data` array, if it has one.
pub open spec fn catalog_entries(body: JsonV) -> Seq<JsonV> {
    match items_of(field(body, "data"@)) {
        Some(e) => e,
        None => Seq::empty(),
    }
}

/// The model ids of a `/v1/models` catalog (see [`catalog_ids_spec`]).
pub fn model_ids_from_catalog(body: &Json) -> (r: Vec<String>)
    ensures
        ids(r@) == catalog_ids_spec(catalog_entries(body@)),
{
    let mut out: Vec<String> = Vec::new();
    match body.get_field("data") {
        Some(d) => {
            proof { lemma_view_shapes(*d); }
            match d {
                Json::Array(entries) => {
                    let ghost es = items_view(entries@);
                    let mut i: usize = 0;
                    while i < entries.len()
                        invariant
                            es == items_view(entries@),
                            catalog_entries(body@) == es,
                            i <= entries@.len(),
                            ids(out@) == catalog_ids_spec(es.take(i as int)),
                        decreases entries@.len() - i,
                    {
                        proof {
                            assert(es.take(i + 1).drop_last() =~= es.take(i as int));
                            assert(es.take(i + 1).last() == entries@[i as int]@);
                        }
                        match entries[i].field_text("id") {
                            Some(id) => {
                                let present = is_listed(out.as_slice(), id);
                                proof {
                                    if ids(out@).contains(id@) {
                                        let k = choose|k: int| 0 <= k < ids(out@).len() && ids(out@)[k] == id@;
                                        assert(out@[k]@ == id@);
                                    }
                                    if listed(out@, id@) {
                                        let k = choose|k: int| 0 <= k < out@.len() && (#[trigger] out@[k])@ == id@;
                                        assert(ids(out@)[k] == id@);
                                    }
                                }
                                if !present {
                                    let ghost before = ids(out@);
                                    out.push(id.clone());
                                    assert(ids(out@) =~= before.push(id@));
                                }
                            },
                            None => {},
                        }
                        i = i + 1;
                    }
                    proof { assert(es.take(i as int) =~= es); }
                    return out;
                },
                _ => {},
            }
        },
        None => {},
    }
    assert(ids(out@) =~= Seq::<Seq<char>>::empty());
    out
}

/// The model ids of a catalog, or the error a catalog without models is answered with.
pub fn catalog_ids_checked(body: &Json, url: &str) -> (r: Result<Vec<String>, String>)
    ensures
        match r {
            Ok(v) => ids(v@) == catalog_ids_spec(catalog_entries(body@)) && v@.len() > 0,
            Err(e) => catalog_ids_spec(catalog_entries(body@)).len() == 0
                && e@ == "upstream "@ + url@ + " returned an empty model list"@,
        },
{
    let v = model_ids_from_catalog(body);
    if v.len() == 0 {
        let mut e = "upstream ".to_owned();
        e.append(url);
        e.append(" returned an empty model list");
        Err(e)
    } else {
        Ok(v)
    }
}

/// Every model configured on a state, once: routed, raced, then available models.
pub open spec fn configured_ids(st: AppState) -> Seq<Seq<char>> {
    push_all_unique(push_all_unique(push_all_unique(Seq::empty(), routed_ids(st.router)),
        ids(st.racing_models@)), ids(st.available_models@))
}

/// The histories after each of `ms`, in order, is marked declared degraded.
pub open spec fn degrade_each(stats: Map<Seq<char>, EntryState>, ms: Seq<Seq<char>>) -> Map<Seq<char>, EntryState>
    decreases ms.len(),
{
    if ms.len() == 0 {
        stats
    } else {
        let s = degrade_each(stats, ms.drop_last());
        let m = ms.last();
        s.insert(m, after_server_degraded(if s.contains_key(m) { s[m] } else { fresh_state() }))
    }
}

/// One periodic check against a freshly fetched catalog: every configured model missing
/// from it is marked declared degraded, in order. Returns the models marked.
pub fn recheck_models(state: &mut AppState, upstream: &[String]) -> (missing: Vec<String>)
    requires
        old(state).wf(),
    ensures
        final(state).wf(),
        ids(missing@) == filter_ids(configured_ids(*old(state)), not_in_catalog(upstream@)),
        final(state).model_stats.stats() == degrade_each(old(state).model_stats.stats(), ids(missing@)),
        final(state).model_stats.failure_map() == old(state).model_stats.failure_map(),
        final(state).model_stats.threshold() == old(state).model_stats.threshold(),
        final(state).model_stats.cb() == old(state).model_stats.cb(),
        *final(state) == (AppState { model_stats: final(state).model_stats, ..*old(state) }),
{
    let configured = state.configured_models();
    let (_present, missing) = prune_missing_models(configured.as_slice(), upstream);
    let ghost ms = ids(missing@);
    let mut i: usize = 0;
    assert(ms.take(0) =~= Seq::<Seq<char>>::empty());
    while i < missing.len()
        invariant
            state.wf(),
            ms == ids(missing@),
            i <= missing@.len(),
            state.model_stats.stats() == degrade_each(old(state).model_stats.stats(), ms.take(i as int)),
            state.model_stats.failure_map() == old(state).model_stats.failure_map(),
            state.model_stats.threshold() == old(state).model_stats.threshold(),
            state.model_stats.cb() == old(state).model_stats.cb(),
            *state == (AppState { model_stats: state.model_stats, ..*old(state) }),
        decreases missing@.len() - i,
    {
        assert(ms.take(i + 1).drop_last() =~= ms.take(i as int));
        assert(ms.take(i + 1).last() == missing@[i as int]@);
        state.model_stats.record_server_degraded(missing[i].as_str());
        i = i + 1;
    }
    assert(ms.take(i as int) =~= ms);
    missing
}

/// The model ids of a catalog body's text (see [`catalog_ids_checked`]), or an error when
/// the text is not JSON: `invalid JSON from <url>: ` and the parser's message.
pub fn catalog_ids_from_text(text: &str, url: &str) -> (r: Result<Vec<String>, String>)
    ensures
        match json_parse(text.spec_bytes()) {
            Some(body) => match r {
                Ok(v) => ids(v@) == catalog_ids_spec(catalog_entries(body)) && v@.len() > 0,
                Err(e) => catalog_ids_spec(catalog_entries(body)).len() == 0
                    && e@ == "upstream "@ + url@ + " returned an empty model list"@,
            },
            None => r matches Err(e) && exists|m: Seq<char>| e@ == "invalid JSON from "@ + url@ + ": "@ + m,
        },
{
    match parse_json(text.as_bytes()) {
        Ok(body) => catalog_ids_checked(&body, url),
        Err(m) => {
            let mut e = "invalid JSON from ".to_owned();
            e.append(url);
            e.append(": ");
            e.append(m.as_str());
            Err(e)
        },
    }
}

} // verus!