use vstd::prelude::*;
use crate::gateway::wrap_add;
use crate::model_stats::{insert_pos, lemma_stable_sort_members, stable_sort};
use crate::text::{
    contains_text, parse_u64, split_whitespace_strs, text_contains, text_eq, trim_spec, trim_text,
    u64_text, ws_words,
};

verus! {

/// One logged turn, as the query tool reads it.
pub struct TurnRecord {
    /// ISO 8601 time of the turn.
    pub timestamp: String,
    pub requested_model: String,
    pub responding_model: String,
    pub latency_ms: u64,
    pub success: bool,
    pub status_code: u16,
    pub has_tool_calls: bool,
    pub tool_call_count: usize,
    pub error: Option<String>,
    pub is_racing: bool,
}

/// A query over the turn log: filters, and which report to print.
pub struct Query {
    pub model_filter: Option<String>,
    pub success_filter: Option<bool>,
    pub latency_min: Option<u64>,
    pub error_pattern: Option<String>,
    pub tool_calls_filter: Option<bool>,
    pub is_count: bool,
    pub is_latest: bool,
    pub is_stats: bool,
}

/// The filters of a query, as plain values.
pub struct Filters {
    pub model: Option<Seq<char>>,
    pub success: Option<bool>,
    pub latency: Option<u64>,
    pub error: Option<Seq<char>>,
    pub tools: Option<bool>,
}

/// Whether `w` begins with `p`.
pub open spec fn has_prefix(w: Seq<char>, p: Seq<char>) -> bool {
    p.len() <= w.len() && w.subrange(0, p.len() as int) == p
}

/// `w` after its prefix `p`.
pub open spec fn after_prefix(w: Seq<char>, p: Seq<char>) -> Seq<char> {
    w.subrange(p.len() as int, w.len() as int)
}

/// The filters after one word of a query: `model=M`, `success=B`, `has_tool_calls=B`
/// (true exactly when `B` is `true`), `latency>N` (no latency filter when `N` is not a
/// number) and `error~P` set their filter; other words change nothing.
pub open spec fn word_effect(f: Filters, w: Seq<char>) -> Filters {
    if has_prefix(w, "model="@) {
        Filters { model: Some(after_prefix(w, "model="@)), ..f }
    } else if has_prefix(w, "success="@) {
        Filters { success: Some(after_prefix(w, "success="@) == "true"@), ..f }
    } else if has_prefix(w, "has_tool_calls="@) {
        Filters { tools: Some(after_prefix(w, "has_tool_calls="@) == "true"@), ..f }
    } else if has_prefix(w, "latency>"@) {
        Filters { latency: u64_text(after_prefix(w, "latency>"@)), ..f }
    } else if has_prefix(w, "error~"@) {
        Filters { error: Some(trim_spec(after_prefix(w, "error~"@))), ..f }
    } else {
        f
    }
}

/// The filters of a query's words, applied in order from no filter.
pub open spec fn words_filters(ws: Seq<Seq<char>>) -> Filters
    decreases ws.len(),
{
    if ws.len() == 0 {
        Filters { model: None, success: None, latency: None, error: None, tools: None }
    } else {
        word_effect(words_filters(ws.drop_last()), ws.last())
    }
}

/// The optional text of an optional string.
pub open spec fn opt_text(o: Option<String>) -> Option<Seq<char>> {
    match o {
        Some(s) => Some(s@),
        None => None,
    }
}

/// Whether a turn passes the filters: its responding model contains the model filter, its
/// outcome, tool use and latency (at least the minimum) agree, and it has an error that
/// contains the error pattern.
pub open spec fn passes(f: Filters, log: TurnRecord) -> bool {
    &&& (f.model matches Some(m) ==> text_contains(log.responding_model@, m))
    &&& (f.success matches Some(b) ==> log.success == b)
    &&& (f.latency matches Some(min) ==> log.latency_ms >= min)
    &&& (f.error matches Some(p) ==> (log.error matches Some(e) && text_contains(e@, p)))
    &&& (f.tools matches Some(t) ==> log.has_tool_calls == t)
}

/// `w` after the prefix `p`, when it has it.
fn strip_prefix_text<'a>(w: &'a str, p: &str) -> (r: Option<&'a str>)
    ensures
        match r {
            Some(rest) => has_prefix(w@, p@) && rest@ == after_prefix(w@, p@),
            None => !has_prefix(w@, p@),
        },
{
    let wn = w.unicode_len();
    let pn = p.unicode_len();
    if pn > wn {
        return None;
    }
    let mut k: usize = 0;
    while k < pn
        invariant
            wn == w@.len(),
            pn == p@.len(),
            pn <= wn,
            k <= pn,
            forall|j: int| 0 <= j < k ==> w@[j] == p@[j],
        decreases pn - k,
    {
        if w.get_char(k) != p.get_char(k) {
            assert(w@.subrange(0, pn as int)[k as int] != p@[k as int]);
            return None;
        }
        k = k + 1;
    }
    assert(w@.subrange(0, pn as int) =~= p@);
    Some(w.substring_char(pn, wn))
}

impl Query {
    /// The filters the query sets.
    pub open spec fn filters(&self) -> Filters {
        Filters {
            model: opt_text(self.model_filter),
            success: self.success_filter,
            latency: self.latency_min,
            error: opt_text(self.error_pattern),
            tools: self.tool_calls_filter,
        }
    }

    /// Parses a query: its words set filters (see [`word_effect`]), and the whole query,
    /// trimmed, may be `count`, `latest` or `stats`.
    pub fn parse(query_str: &str) -> (q: Self)
        ensures
            q.filters() == words_filters(ws_words(query_str@)),
            q.is_count == (trim_spec(query_str@) == "count"@),
            q.is_latest == (trim_spec(query_str@) == "latest"@),
            q.is_stats == (trim_spec(query_str@) == "stats"@),
    {
        let trimmed = trim_text(query_str);
        let mut q = Query {
            model_filter: None,
            success_filter: None,
            latency_min: None,
            error_pattern: None,
            tool_calls_filter: None,
            is_count: text_eq(trimmed, "count"),
            is_latest: text_eq(trimmed, "latest"),
            is_stats: text_eq(trimmed, "stats"),
        };
        let parts = split_whitespace_strs(query_str);
        let ghost ws = ws_words(query_str@);
        let mut i: usize = 0;
        while i < parts.len()
            invariant
                parts@.len() == ws.len(),
                forall|k: int| 0 <= k < parts@.len() ==> #[trigger] parts@[k]@ == ws[k],
                i <= parts@.len(),
                q.filters() == words_filters(ws.take(i as int)),
                q.is_count == (trim_spec(query_str@) == "count"@),
                q.is_latest == (trim_spec(query_str@) == "latest"@),
                q.is_stats == (trim_spec(query_str@) == "stats"@),
            decreases parts@.len() - i,
        {
            let part = parts[i].as_str();
            assert(ws.take(i + 1).drop_last() =~= ws.take(i as int));
            assert(ws.take(i + 1).last() == part@);
            if let Some(model) = strip_prefix_text(part, "model=") {
                q.model_filter = Some(model.to_owned());
            } else if let Some(val) = strip_prefix_text(part, "success=") {
                q.success_filter = Some(text_eq(val, "true"));
            } else if let Some(val) = strip_prefix_text(part, "has_tool_calls=") {
                q.tool_calls_filter = Some(text_eq(val, "true"));
            } else if let Some(val) = strip_prefix_text(part, "latency>") {
                q.latency_min = parse_u64(val);
            } else if let Some(pattern) = strip_prefix_text(part, "error~") {
                q.error_pattern = Some(trim_text(pattern).to_owned());
            }
            i = i + 1;
        }
        assert(ws.take(i as int) =~= ws);
        q
    }

    /// Whether a turn passes the query's filters (see [`passes`]).
    pub fn matches(&self, log: &TurnRecord) -> (r: bool)
        ensures
            r == passes(self.filters(), *log),
    {
        if let Some(model) = &self.model_filter {
            if !contains_text(log.responding_model.as_str(), model.as_str()) {
                return false;
            }
        }
        if let Some(success) = self.success_filter {
            if log.success != success {
                return false;
            }
        }
        if let Some(min) = self.latency_min {
            if log.latency_ms < min {
                return false;
            }
        }
        if let Some(pattern) = &self.error_pattern {
            match &log.error {
                Some(error) => {
                    if !contains_text(error.as_str(), pattern.as_str()) {
                        return false;
                    }
                },
                None => {
                    return false;
                },
            }
        }
        if let Some(has_tools) = self.tool_calls_filter {
            if log.has_tool_calls != has_tools {
                return false;
            }
        }
        true
    }
}

/// A query without filter words passes every turn.
pub proof fn law_no_filter_passes_all(log: TurnRecord)
    ensures
        passes(words_filters(Seq::empty()), log),
{
}

/// The last word that sets a filter decides it: a later `model=` word replaces an earlier
/// one.
pub proof fn law_last_model_word_wins(ws: Seq<Seq<char>>, w: Seq<char>)
    requires
        has_prefix(w, "model="@),
    ensures
        words_filters(ws.push(w)).model == Some(after_prefix(w, "model="@)),
{
    assert(ws.push(w).drop_last() =~= ws);
}

/// How many times one text was seen.
pub struct CountEntry {
    pub key: String,
    pub count: u64,
}

/// No text is counted twice.
pub open spec fn counts_wf(v: Seq<CountEntry>) -> bool {
    forall|a: int, b: int| 0 <= a < b < v.len() ==> #[trigger] v[a].key@ != #[trigger] v[b].key@
}

/// The count of each text.
pub open spec fn counts_map(v: Seq<CountEntry>) -> Map<Seq<char>, u64> {
    Map::new(
        |k: Seq<char>| exists|i: int| 0 <= i < v.len() && (#[trigger] v[i]).key@ == k,
        |k: Seq<char>| v[choose|i: int| 0 <= i < v.len() && (#[trigger] v[i]).key@ == k].count,
    )
}

/// Counts one more sighting of `key`.
pub fn bump(v: &mut Vec<CountEntry>, key: &str)
    requires
        counts_wf(old(v)@),
    ensures
        counts_wf(final(v)@),
        counts_map(final(v)@) == counts_map(old(v)@).insert(key@,
            if counts_map(old(v)@).contains_key(key@) { wrap_add(counts_map(old(v)@)[key@], 1) } else { 1 }),
{
    let mut k: usize = 0;
    while k < v.len()
        invariant
            counts_wf(v@),
            v@ == old(v)@,
            k <= v@.len(),
            forall|j: int| 0 <= j < k ==> (#[trigger] v@[j]).key@ != key@,
        decreases v@.len() - k,
    {
        if text_eq(v[k].key.as_str(), key) {
            let ghost before = v@;
            let c = v[k].count.wrapping_add(1);
            let name = v[k].key.clone();
            v.set(k, CountEntry { key: name, count: c });
            proof {
                assert(counts_map(before).contains_key(key@));
                let kk = choose|j: int| 0 <= j < before.len() && (#[trigger] before[j]).key@ == key@;
                assert(kk == k);
                assert forall|a: int, b: int| 0 <= a < b < v@.len() implies #[trigger] v@[a].key@ != #[trigger] v@[b].key@ by {
                    assert(v@[a].key@ == before[a].key@);
                    assert(v@[b].key@ == before[b].key@);
                }
                assert forall|m: Seq<char>| #[trigger] counts_map(v@).contains_key(m) == counts_map(before).insert(key@, c).contains_key(m) by {
                    if counts_map(before).contains_key(m) {
                        let j = choose|j: int| 0 <= j < before.len() && (#[trigger] before[j]).key@ == m;
                        assert(v@[j].key@ == m);
                    }
                    if counts_map(v@).contains_key(m) {
                        let j = choose|j: int| 0 <= j < v@.len() && (#[trigger] v@[j]).key@ == m;
                        assert(before[j].key@ == m);
                    }
                }
                assert forall|m: Seq<char>| counts_map(v@).contains_key(m) implies #[trigger] counts_map(v@)[m] == counts_map(before).insert(key@, c)[m] by {
                    let j = choose|j: int| 0 <= j < v@.len() && (#[trigger] v@[j]).key@ == m;
                    assert(before[j].key@ == m);
                    if m != key@ {
                        let j2 = choose|j: int| 0 <= j < before.len() && (#[trigger] before[j]).key@ == m;
                        assert(j2 == j);
                    }
                }
                assert(counts_map(v@) =~= counts_map(before).insert(key@, c));
            }
            return;
        }
        k = k + 1;
    }
    let ghost before = v@;
    v.push(CountEntry { key: key.to_owned(), count: 1 });
    proof {
        assert(!counts_map(before).contains_key(key@));
        assert forall|m: Seq<char>| #[trigger] counts_map(v@).contains_key(m) == counts_map(before).insert(key@, 1).contains_key(m) by {
            if counts_map(before).contains_key(m) {
                let j = choose|j: int| 0 <= j < before.len() && (#[trigger] before[j]).key@ == m;
                assert(v@[j].key@ == m);
            }
            if m == key@ {
                assert(v@[k as int].key@ == m);
            }
            if counts_map(v@).contains_key(m) {
                let j = choose|j: int| 0 <= j < v@.len() && (#[trigger] v@[j]).key@ == m;
                if j < k {
                    assert(before[j].key@ == m);
                }
            }
        }
        assert forall|m: Seq<char>| counts_map(v@).contains_key(m) implies #[trigger] counts_map(v@)[m] == counts_map(before).insert(key@, 1)[m] by {
            let j = choose|j: int| 0 <= j < v@.len() && (#[trigger] v@[j]).key@ == m;
            if j < k {
                assert(before[j].key@ == m);
                let j2 = choose|j: int| 0 <= j < before.len() && (#[trigger] before[j]).key@ == m;
                assert(j2 == j);
            }
        }
        assert(counts_map(v@) =~= counts_map(before).insert(key@, 1));
    }
}

/// Totals over the turns a query matched.
pub struct QueryTally {
    pub count: u64,
    pub total_latency: u64,
    pub min_latency: u64,
    pub max_latency: u64,
    /// Matched turns per error text.
    pub errors: Vec<CountEntry>,
    /// Matched turns per responding model.
    pub models: Vec<CountEntry>,
    /// The last matched turn.
    pub latest: Option<TurnRecord>,
}

impl QueryTally {
    /// No text is counted twice.
    pub open spec fn wf(&self) -> bool {
        counts_wf(self.errors@) && counts_wf(self.models@)
    }

    /// Nothing matched yet (the minimum starts at the largest value).
    pub fn new() -> (t: Self)
        ensures
            t.wf(),
            t.count == 0 && t.total_latency == 0 && t.min_latency == u64::MAX && t.max_latency == 0,
            counts_map(t.errors@) == Map::<Seq<char>, u64>::empty(),
            counts_map(t.models@) == Map::<Seq<char>, u64>::empty(),
            t.latest is None,
    {
        let t = QueryTally {
            count: 0,
            total_latency: 0,
            min_latency: u64::MAX,
            max_latency: 0,
            errors: Vec::new(),
            models: Vec::new(),
            latest: None,
        };
        assert(counts_map(t.errors@) =~= Map::<Seq<char>, u64>::empty());
        assert(counts_map(t.models@) =~= Map::<Seq<char>, u64>::empty());
        t
    }

    /// Counts one matched turn: its latency in the total (modulo 2^64), minimum and
    /// maximum, its error and responding model in their counts, and it as the latest.
    pub fn add(&mut self, log: TurnRecord)
        requires
            old(self).wf(),
        ensures
            final(self).wf(),
            final(self).count == wrap_add(old(self).count, 1),
            final(self).total_latency == wrap_add(old(self).total_latency, log.latency_ms),
            final(self).min_latency == if log.latency_ms < old(self).min_latency { log.latency_ms } else { old(self).min_latency },
            final(self).max_latency == if log.latency_ms > old(self).max_latency { log.latency_ms } else { old(self).max_latency },
            counts_map(final(self).errors@) == match log.error {
                Some(e) => counts_map(old(self).errors@).insert(e@,
                    if counts_map(old(self).errors@).contains_key(e@) { wrap_add(counts_map(old(self).errors@)[e@], 1) } else { 1 }),
                None => counts_map(old(self).errors@),
            },
            counts_map(final(self).models@) == counts_map(old(self).models@).insert(log.responding_model@,
                if counts_map(old(self).models@).contains_key(log.responding_model@) {
                    wrap_add(counts_map(old(self).models@)[log.responding_model@], 1)
                } else {
                    1
                }),
            final(self).latest == Some(log),
    {
        self.count = self.count.wrapping_add(1);
        self.total_latency = self.total_latency.wrapping_add(log.latency_ms);
        if log.latency_ms < self.min_latency {
            self.min_latency = log.latency_ms;
        }
        if log.latency_ms > self.max_latency {
            self.max_latency = log.latency_ms;
        }
        match &log.error {
            Some(e) => bump(&mut self.errors, e.as_str()),
            None => {},
        }
        bump(&mut self.models, log.responding_model.as_str());
        self.latest = Some(log);
    }
}

/// Whether entry `a` of `v` has a larger count than entry `b`.
pub open spec fn count_gt(v: Seq<CountEntry>) -> spec_fn(int, int) -> bool {
    |a: int, b: int| v[a].count > v[b].count
}

/// Positions `0..n`, in order.
pub open spec fn positions(n: nat) -> Seq<int> {
    Seq::new(n, |i: int| i)
}

/// The `k` largest counts, largest first; equal counts keep the order of first sighting.
pub open spec fn top_spec(v: Seq<CountEntry>, k: nat) -> Seq<CountEntry> {
    let order = stable_sort(positions(v.len()), count_gt(v));
    let m = if k < order.len() { k } else { order.len() };
    Seq::new(m, |j: int| v[order[j]])
}

/// The `k` largest counts (see [`top_spec`]).
pub fn top_counts(v: &Vec<CountEntry>, k: usize) -> (r: Vec<CountEntry>)
    ensures
        r@.len() == top_spec(v@, k as nat).len(),
        forall|j: int| 0 <= j < r@.len() ==> (#[trigger] r@[j]).key@ == top_spec(v@, k as nat)[j].key@
            && r@[j].count == top_spec(v@, k as nat)[j].count,
{
    let ghost gt = count_gt(v@);
    let mut ranked: Vec<usize> = Vec::new();
    let mut i: usize = 0;
    while i < v.len()
        invariant
            gt == count_gt(v@),
            i <= v@.len(),
            ranked@.map_values(|x: usize| x as int) == stable_sort(positions(v@.len()).take(i as int), gt),
            forall|j: int| 0 <= j < ranked@.len() ==> (#[trigger] ranked@[j]) < i,
        decreases v@.len() - i,
    {
        let ghost rs = ranked@.map_values(|x: usize| x as int);
        let mut pos: usize = 0;
        while pos < ranked.len() && !(v[i].count > v[ranked[pos]].count)
            invariant
                gt == count_gt(v@),
                i < v@.len(),
                rs == ranked@.map_values(|x: usize| x as int),
                pos <= ranked@.len(),
                insert_pos(rs, i as int, gt, 0) == insert_pos(rs, i as int, gt, pos as int),
                forall|j: int| 0 <= j < ranked@.len() ==> (#[trigger] ranked@[j]) < i,
            decreases ranked@.len() - pos,
        {
            assert(rs[pos as int] == ranked@[pos as int] as int);
            pos = pos + 1;
        }
        if pos < ranked.len() {
            assert(rs[pos as int] == ranked@[pos as int] as int);
        }
        ranked.insert(pos, i);
        proof {
            let p = positions(v@.len());
            assert(p.take(i + 1).drop_last() =~= p.take(i as int));
            assert(p.take(i + 1).last() == i as int);
            assert(ranked@.map_values(|x: usize| x as int) =~= rs.insert(pos as int, i as int));
        }
        i = i + 1;
    }
    proof {
        assert(positions(v@.len()).take(i as int) =~= positions(v@.len()));
    }
    let mut out: Vec<CountEntry> = Vec::new();
    let mut j: usize = 0;
    while j < ranked.len() && j < k
        invariant
            j <= ranked@.len(),
            j <= k,
            out@.len() == j,
            ranked@.map_values(|x: usize| x as int) == stable_sort(positions(v@.len()), count_gt(v@)),
            forall|a: int| 0 <= a < ranked@.len() ==> (#[trigger] ranked@[a]) < v@.len(),
            forall|a: int| 0 <= a < j ==> (#[trigger] out@[a]).key@ == v@[ranked@[a] as int].key@ && out@[a].count == v@[ranked@[a] as int].count,
        decreases ranked@.len() - j,
    {
        let idx = ranked[j];
        out.push(CountEntry { key: v[idx].key.clone(), count: v[idx].count });
        j = j + 1;
    }
    proof {
        let order = stable_sort(positions(v@.len()), count_gt(v@));
        assert forall|a: int| 0 <= a < out@.len() implies (#[trigger] out@[a]).key@ == top_spec(v@, k as nat)[a].key@
            && out@[a].count == top_spec(v@, k as nat)[a].count by {
            assert(order[a] == ranked@[a] as int);
        }
    }
    out
}

/// A turn passes a query exactly when it meets every filter the query sets: its
/// responding model contains the model filter, its success and tool use equal those asked
/// for, its latency is at least the minimum, and it has an error containing the pattern.
pub proof fn law_filters_are_enforced(f: Filters, log: TurnRecord)
    ensures
        (passes(f, log) && (f.success matches Some(b))) ==> log.success == f.success->0,
        (passes(f, log) && (f.tools matches Some(t))) ==> log.has_tool_calls == f.tools->0,
        (passes(f, log) && (f.latency matches Some(min))) ==> log.latency_ms >= f.latency->0,
        (passes(f, log) && (f.model matches Some(m))) ==> text_contains(log.responding_model@, f.model->0),
        (passes(f, log) && (f.error matches Some(p))) ==> (log.error matches Some(e) && text_contains(e@, f.error->0)),
        ((f.success is Some ==> log.success == f.success->0)
            && (f.tools is Some ==> log.has_tool_calls == f.tools->0)
            && (f.latency is Some ==> log.latency_ms >= f.latency->0)
            && (f.model is Some ==> text_contains(log.responding_model@, f.model->0))
            && (f.error is Some ==> (log.error matches Some(e) && text_contains(e@, f.error->0))))
            ==> passes(f, log),
{
}

/// A `success=` word sets the success filter: to true for `success=true`, to false for any
/// other value.
pub proof fn law_success_word_sets_filter(ws: Seq<Seq<char>>, w: Seq<char>)
    requires
        has_prefix(w, "success="@),
    ensures
        words_filters(ws.push(w)).success == Some(after_prefix(w, "success="@) == "true"@),
{
    reveal_strlit("success=");
    reveal_strlit("model=");
    assert(ws.push(w).drop_last() =~= ws);
    assert(ws.push(w).last() == w);
    assert(w.subrange(0, 8) == "success="@);
    assert(w.subrange(0, 8)[0] == 's');
    assert(w[0] == 's');
    if has_prefix(w, "model="@) {
        assert(w.subrange(0, 6) == "model="@);
        assert(w.subrange(0, 6)[0] == w[0]);
        assert("model="@[0] == 'm');
    }
}

/// The first character of a word with a prefix is the prefix's first character.
proof fn lemma_prefix_first(w: Seq<char>, p: Seq<char>)
    requires
        has_prefix(w, p),
        p.len() > 0,
    ensures
        w[0] == p[0],
{
    assert(w.subrange(0, p.len() as int)[0] == w[0]);
}

/// `has_tool_calls=`, `latency>` and `error~` words set their filters: tool use to whether
/// the value is `true`, the latency minimum to the value read as a number (none when it is
/// not one), the error pattern to the value trimmed.
pub proof fn law_filter_words_set_filters(ws: Seq<Seq<char>>, w: Seq<char>)
    ensures
        has_prefix(w, "has_tool_calls="@) ==> words_filters(ws.push(w)).tools == Some(after_prefix(w, "has_tool_calls="@) == "true"@),
        has_prefix(w, "latency>"@) ==> words_filters(ws.push(w)).latency == u64_text(after_prefix(w, "latency>"@)),
        has_prefix(w, "error~"@) ==> words_filters(ws.push(w)).error == Some(trim_spec(after_prefix(w, "error~"@))),
{
    reveal_strlit("model=");
    reveal_strlit("success=");
    reveal_strlit("has_tool_calls=");
    reveal_strlit("latency>");
    reveal_strlit("error~");
    assert(ws.push(w).drop_last() =~= ws);
    assert(ws.push(w).last() == w);
    if has_prefix(w, "model="@) { lemma_prefix_first(w, "model="@); }
    if has_prefix(w, "success="@) { lemma_prefix_first(w, "success="@); }
    if has_prefix(w, "has_tool_calls="@) { lemma_prefix_first(w, "has_tool_calls="@); }
    if has_prefix(w, "latency>"@) { lemma_prefix_first(w, "latency>"@); }
    if has_prefix(w, "error~"@) { lemma_prefix_first(w, "error~"@); }
}

} // verus!