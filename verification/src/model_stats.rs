use vstd::prelude::*;
use vstd::relations::{sorted_by, total_ordering};

use crate::text::{lemma_bytes_lt_asymmetric, lemma_bytes_lt_irreflexive, lemma_bytes_lt_transitive, lemma_text_lt_total, text_less, text_lt};

verus! {

broadcast use vstd::seq_lib::group_to_multiset_ensures, vstd::multiset::group_multiset_properties;

/// Number of latency samples each model keeps.
pub const RING_SIZE: usize = 100;

/// Health of a model as the router sees it.
#[derive(Clone, Copy, Debug, PartialEq, Eq, Structural)]
pub enum ModelStatus {
    /// Healthy and operational.
    Healthy,
    /// Given up on by local heuristics (latency, failures, output shape).
    Dead,
    /// Declared degraded by the upstream API.
    Degraded,
}

/// Outcome of one recorded request.
#[derive(Clone, Copy, Debug, PartialEq, Eq, Structural)]
pub enum RecordOutcome {
    Success,
    Failed,
    ServerDegraded,
}

/// Limits past which a model's output marks it degraded; a limit of zero is switched off.
#[derive(Clone, Copy, Debug)]
pub struct CircuitBreakerConfig {
    /// Output tokens of the last success above which the model is degraded.
    pub max_output_tokens: u32,
    /// Repeated phrases in the last success at or above which the model is degraded.
    pub max_repetitions: u32,
    /// Consecutive successes without a tool call at or above which the model is degraded.
    pub max_consecutive_assistant_turns: u32,
}

impl Default for CircuitBreakerConfig {
    fn default() -> (cb: Self)
        ensures
            cb.max_output_tokens == 32000,
            cb.max_repetitions == 5,
            cb.max_consecutive_assistant_turns == 10,
    {
        CircuitBreakerConfig {
            max_output_tokens: 32000,
            max_repetitions: 5,
            max_consecutive_assistant_turns: 10,
        }
    }
}

/// Sum of a sequence of samples.
pub open spec fn seq_sum(s: Seq<u64>) -> int
    decreases s.len(),
{
    if s.len() == 0 {
        0
    } else {
        seq_sum(s.drop_last()) + s.last()
    }
}

/// The usual order on samples.
pub open spec fn sample_leq() -> spec_fn(u64, u64) -> bool {
    |a: u64, b: u64| a <= b
}

/// Index of the 95th-percentile sample among `n` sorted samples.
pub open spec fn p95_index(n: nat) -> int {
    if (n * 95) / 100 < n { ((n * 95) / 100) as int } else { n - 1 }
}

/// The 95th-percentile sample: none below two samples, else the sample at `p95_index` in
/// ascending order.
pub open spec fn p95_of(samples: Seq<u64>) -> Option<u64> {
    if samples.len() < 2 {
        None
    } else {
        Some(samples.sort_by(sample_leq())[p95_index(samples.len())])
    }
}

/// Request timeout derived from a model's p95: while the model is warming up (no p95, that
/// is fewer than two samples) the configured maximum; else p95 plus half of it or 2000 ms,
/// whichever is more, at most `max_timeout_ms`, at least 1000 ms.
pub open spec fn dynamic_timeout(p95: Option<u64>, max_timeout_ms: u64) -> u64 {
    match p95 {
        None => max_timeout_ms,
        Some(v) => {
            let p = v as int;
            let buffer = if p / 2 > 2000 { p / 2 } else { 2000 };
            let capped = if p + buffer < max_timeout_ms { p + buffer } else { max_timeout_ms as int };
            if capped < 1000 { 1000 } else { capped as u64 }
        },
    }
}

/// The timeout leaves room above a known p95: at least p95 plus 2000 ms and p95 plus half of
/// it, up to the maximum, and never below one second; exactly the larger of those two sums
/// when it fits under the maximum; the maximum while warming up.
pub proof fn law_timeout_buffer(v: u64, max: u64)
    ensures
        dynamic_timeout(None, max) == max,
        dynamic_timeout(Some(v), max) >= 1000,
        dynamic_timeout(Some(v), max) as int >= if v as int + 2000 < max as int { v as int + 2000 } else { max as int },
        dynamic_timeout(Some(v), max) as int >= if v as int + v as int / 2 < max as int { v as int + v as int / 2 } else { max as int },
        dynamic_timeout(Some(v), max) as int <= if max < 1000 { 1000 } else { max as int },
        v as int / 2 <= 2000 && v as int + 2000 <= max as int ==> dynamic_timeout(Some(v), max) == v as int + 2000,
        v as int / 2 > 2000 && v as int + v as int / 2 <= max as int ==> dynamic_timeout(Some(v), max) == v as int + v as int / 2,
{
}

/// The counters of one model's history.
#[derive(Clone, Copy, Debug, PartialEq, Eq, Structural)]
pub struct EntryCounters {
    pub total: u64,
    pub success: u64,
    pub consecutive_failures: u32,
    pub last_ms: u64,
    pub output_token_count: u32,
    pub repetition_count: u32,
    pub consecutive_assistant_turns: u32,
    pub server_degraded: bool,
}

/// Abstract state of one model: kept samples, next ring slot, counters.
pub type EntryState = (Seq<u64>, nat, EntryCounters);

/// Counters of a model with no history.
pub open spec fn zero_counters() -> EntryCounters {
    EntryCounters {
        total: 0,
        success: 0,
        consecutive_failures: 0,
        last_ms: 0,
        output_token_count: 0,
        repetition_count: 0,
        consecutive_assistant_turns: 0,
        server_degraded: false,
    }
}

/// State of a model with no history.
pub open spec fn fresh_state() -> EntryState {
    (Seq::<u64>::empty(), 0nat, zero_counters())
}

/// Adds one, stopping at the largest value.
pub open spec fn inc64(x: u64) -> u64 {
    if x == u64::MAX { x } else { (x + 1) as u64 }
}

/// Adds one, stopping at the largest value.
pub open spec fn inc32(x: u32) -> u32 {
    if x == u32::MAX { x } else { (x + 1) as u32 }
}

/// Keeps one sample: appended until `RING_SIZE` are kept, then written over the slot at the
/// ring position; the position moves one slot on.
pub open spec fn push_sample(st: EntryState, ms: u64) -> EntryState {
    let samples = if st.0.len() < RING_SIZE { st.0.push(ms) } else { st.0.update(st.1 as int, ms) };
    (samples, (st.1 + 1) % (RING_SIZE as nat), st.2)
}

/// One request outcome recorded: total and last latency always; on success one more
/// success, the failure streak reset and the latency kept as a sample; on failure the
/// failure streak grows.
pub open spec fn after_record(st: EntryState, ms: u64, ok: bool) -> EntryState {
    let c = st.2;
    let c1 = EntryCounters { total: inc64(c.total), last_ms: ms, ..c };
    if ok {
        push_sample((st.0, st.1, EntryCounters { success: inc64(c.success), consecutive_failures: 0, ..c1 }), ms)
    } else {
        (st.0, st.1, EntryCounters { consecutive_failures: inc32(c.consecutive_failures), ..c1 })
    }
}

/// `after_record`, and on success also the output size, repetitions and tool-call streak of
/// the response.
pub open spec fn after_record_cb(
    st: EntryState,
    ms: u64,
    ok: bool,
    output_tokens: u32,
    repetition_count: u32,
    had_tool_call: bool,
) -> EntryState {
    let r = after_record(st, ms, ok);
    if ok {
        (r.0, r.1, EntryCounters {
            output_token_count: output_tokens,
            repetition_count: repetition_count,
            consecutive_assistant_turns: if had_tool_call { 0 } else { inc32(r.2.consecutive_assistant_turns) },
            ..r.2
        })
    } else {
        r
    }
}

/// Declared degraded upstream: the flag set and three more consecutive failures.
pub open spec fn after_server_degraded(st: EntryState) -> EntryState {
    let c = st.2;
    (st.0, st.1, EntryCounters {
        server_degraded: true,
        consecutive_failures: if c.consecutive_failures > u32::MAX - 3 { u32::MAX } else { (c.consecutive_failures + 3) as u32 },
        ..c
    })
}

/// Whether the average of the kept samples is above `threshold_ms`; it counts from three
/// samples on, so that one slow call does not sideline a model.
pub open spec fn state_avg_above(st: EntryState, threshold_ms: u64) -> bool {
    st.0.len() >= 3 && seq_sum(st.0) > threshold_ms as int * st.0.len()
}

/// The degradation rule: server-declared, three consecutive failures, average latency above
/// the threshold, or an enabled circuit-breaker limit reached.
pub open spec fn state_degraded(st: EntryState, threshold_ms: u64, cb: CircuitBreakerConfig) -> bool {
    let c = st.2;
    ||| c.server_degraded
    ||| c.consecutive_failures >= 3
    ||| state_avg_above(st, threshold_ms)
    ||| cb.max_output_tokens > 0 && c.output_token_count > cb.max_output_tokens
    ||| cb.max_repetitions > 0 && c.repetition_count >= cb.max_repetitions
    ||| cb.max_consecutive_assistant_turns > 0 && c.consecutive_assistant_turns
        >= cb.max_consecutive_assistant_turns
}


/// Latency order: a model with samples is faster than one without; two models with samples
/// compare by average latency (`sum1 / n1 < sum2 / n2`).
pub open spec fn avg_lt(sum1: int, n1: int, sum2: int, n2: int) -> bool {
    n1 > 0 && (n2 == 0 || sum1 * n2 < sum2 * n1)
}

/// Positions, among the first `k` of `s`, of the items that satisfy `p`, in order.
pub open spec fn select_idx(s: Seq<Seq<char>>, k: int, p: spec_fn(Seq<char>) -> bool) -> Seq<int>
    decreases k,
{
    if k <= 0 {
        Seq::empty()
    } else {
        let r = select_idx(s, k - 1, p);
        if p(s[k - 1]) { r.push(k - 1) } else { r }
    }
}

/// Position, among the first `k` items of `s` that satisfy `p`, of the first one whose key
/// is below every earlier one's (the first of the lowest).
pub open spec fn first_lowest(s: Seq<Seq<char>>, k: int, p: spec_fn(Seq<char>) -> bool, lt: spec_fn(int, int) -> bool) -> Option<int>
    decreases k,
{
    if k <= 0 {
        None
    } else {
        let r = first_lowest(s, k - 1, p, lt);
        if !p(s[k - 1]) {
            r
        } else {
            match r {
                None => Some(k - 1),
                Some(b) => if lt(k - 1, b) { Some(k - 1) } else { Some(b) },
            }
        }
    }
}

/// Where a stable insertion puts `x` into `r`: before the first element that `x` is below,
/// searching from `p`.
pub open spec fn insert_pos(r: Seq<int>, x: int, lt: spec_fn(int, int) -> bool, p: int) -> int
    decreases r.len() - p,
{
    if p >= r.len() || p < 0 {
        r.len() as int
    } else if lt(x, r[p]) {
        p
    } else {
        insert_pos(r, x, lt, p + 1)
    }
}

/// Stable sort of `s` by `lt`: each element inserted after all earlier ones it is not below.
pub open spec fn stable_sort(s: Seq<int>, lt: spec_fn(int, int) -> bool) -> Seq<int>
    decreases s.len(),
{
    if s.len() == 0 {
        s
    } else {
        let r = stable_sort(s.drop_last(), lt);
        r.insert(insert_pos(r, s.last(), lt, 0), s.last())
    }
}

/// Every position `select_idx` lists is below `k`, and they rise strictly.
pub proof fn lemma_select_idx_range(s: Seq<Seq<char>>, k: int, p: spec_fn(Seq<char>) -> bool)
    ensures
        forall|j: int| 0 <= j < select_idx(s, k, p).len() ==> 0 <= #[trigger] select_idx(s, k, p)[j] < k,
        forall|a: int, b: int| 0 <= a < b < select_idx(s, k, p).len() ==> #[trigger] select_idx(s, k, p)[a] < #[trigger] select_idx(s, k, p)[b],
        select_idx(s, k, p).len() <= if k < 0 { 0 } else { k },
    decreases k,
{
    if k > 0 {
        lemma_select_idx_range(s, k - 1, p);
    }
}

/// Every position `select_idx` lists holds an item that satisfies `p`.
pub proof fn lemma_select_idx_members(s: Seq<Seq<char>>, k: int, p: spec_fn(Seq<char>) -> bool)
    ensures
        forall|j: int| 0 <= j < select_idx(s, k, p).len() ==> #[trigger] p(s[select_idx(s, k, p)[j]]),
    decreases k,
{
    if k > 0 {
        lemma_select_idx_members(s, k - 1, p);
        let r = select_idx(s, k - 1, p);
        if p(s[k - 1]) {
            assert forall|j: int| 0 <= j < select_idx(s, k, p).len() implies #[trigger] p(s[select_idx(s, k, p)[j]]) by {
                if j < r.len() {
                    assert(select_idx(s, k, p)[j] == r[j]);
                }
            }
        }
    }
}

/// A position whose item satisfies `p` is listed by `select_idx`.
pub proof fn lemma_select_idx_contains(s: Seq<Seq<char>>, k: int, p: spec_fn(Seq<char>) -> bool, j: int)
    requires
        0 <= j < k,
        p(s[j]),
    ensures
        select_idx(s, k, p).contains(j),
    decreases k,
{
    if j < k - 1 {
        lemma_select_idx_contains(s, k - 1, p, j);
        let r = select_idx(s, k - 1, p);
        let i = choose|i: int| 0 <= i < r.len() && r[i] == j;
        if p(s[k - 1]) {
            assert(select_idx(s, k, p)[i] == j);
        }
    } else {
        assert(select_idx(s, k, p).last() == j);
    }
}

/// How many of the first `k` items of `s` satisfy `p`.
pub open spec fn count_where(s: Seq<Seq<char>>, k: int, p: spec_fn(Seq<char>) -> bool) -> nat
    decreases k,
{
    if k <= 0 { 0 } else { count_where(s, k - 1, p) + if p(s[k - 1]) { 1nat } else { 0nat } }
}

/// Counts under two tests that agree on the items counted are equal.
proof fn lemma_count_where_agree(s: Seq<Seq<char>>, k: int, p: spec_fn(Seq<char>) -> bool, q: spec_fn(Seq<char>) -> bool)
    requires
        k <= s.len(),
        forall|j: int| 0 <= j < k ==> p(#[trigger] s[j]) == q(s[j]),
    ensures
        count_where(s, k, p) == count_where(s, k, q),
    decreases k,
{
    if k > 0 {
        lemma_count_where_agree(s, k - 1, p, q);
    }
}

/// The `m`-th selected position has exactly `m` satisfying items before it, and the
/// selection is as long as the count.
proof fn lemma_select_idx_count(s: Seq<Seq<char>>, k: int, p: spec_fn(Seq<char>) -> bool)
    requires
        0 <= k <= s.len(),
    ensures
        select_idx(s, k, p).len() == count_where(s, k, p),
        forall|m: int| 0 <= m < select_idx(s, k, p).len() ==> count_where(s, #[trigger] select_idx(s, k, p)[m], p) == m,
    decreases k,
{
    if k > 0 {
        lemma_select_idx_count(s, k - 1, p);
        lemma_select_idx_range(s, k - 1, p);
        let r = select_idx(s, k - 1, p);
        assert forall|m: int| 0 <= m < select_idx(s, k, p).len() implies count_where(s, #[trigger] select_idx(s, k, p)[m], p) == m by {
            if m < r.len() {
                assert(select_idx(s, k, p)[m] == r[m]);
            } else {
                assert(select_idx(s, k, p)[m] == k - 1);
            }
        }
    }
}

/// A sum of samples is never negative.
pub proof fn lemma_seq_sum_nonneg(s: Seq<u64>)
    ensures
        seq_sum(s) >= 0,
    decreases s.len(),
{
    if s.len() > 0 {
        lemma_seq_sum_nonneg(s.drop_last());
    }
}

/// The position `first_lowest` finds is below `k`.
pub proof fn lemma_first_lowest_range(s: Seq<Seq<char>>, k: int, p: spec_fn(Seq<char>) -> bool, lt: spec_fn(int, int) -> bool)
    ensures
        first_lowest(s, k, p, lt) matches Some(i) ==> 0 <= i < k && p(s[i]),
    decreases k,
{
    if k > 0 {
        lemma_first_lowest_range(s, k - 1, p, lt);
    }
}

/// The position of a stable insertion lies within the sequence.
pub proof fn lemma_insert_pos_range(r: Seq<int>, x: int, lt: spec_fn(int, int) -> bool, p: int)
    requires
        0 <= p,
    ensures
        p <= r.len() ==> p <= insert_pos(r, x, lt, p) <= r.len(),
        p > r.len() ==> insert_pos(r, x, lt, p) == r.len(),
    decreases r.len() - p,
{
    if p < r.len() && !lt(x, r[p]) {
        lemma_insert_pos_range(r, x, lt, p + 1);
    }
}

/// No later item of `r` is below an earlier one.
pub open spec fn sorted_by_lt(r: Seq<int>, lt: spec_fn(int, int) -> bool) -> bool {
    forall|a: int, b: int| 0 <= a < b < r.len() ==> !lt(#[trigger] r[b], #[trigger] r[a])
}

/// The insertion point passes over items `x` is not below and stops at one it is below.
proof fn lemma_insert_pos_stop(r: Seq<int>, x: int, lt: spec_fn(int, int) -> bool, p: int)
    requires
        0 <= p <= r.len(),
    ensures
        p <= insert_pos(r, x, lt, p) <= r.len(),
        forall|t: int| p <= t < insert_pos(r, x, lt, p) ==> !lt(x, #[trigger] r[t]),
        insert_pos(r, x, lt, p) < r.len() ==> lt(x, r[insert_pos(r, x, lt, p)]),
    decreases r.len() - p,
{
    if p < r.len() && !lt(x, r[p]) {
        lemma_insert_pos_stop(r, x, lt, p + 1);
    }
}

/// The stable sort keeps every item.
proof fn lemma_stable_sort_keeps(s: Seq<int>, lt: spec_fn(int, int) -> bool, v: int)
    requires
        s.contains(v),
    ensures
        stable_sort(s, lt).contains(v),
    decreases s.len(),
{
    let r = stable_sort(s.drop_last(), lt);
    lemma_insert_pos_range(r, s.last(), lt, 0);
    let q = insert_pos(r, s.last(), lt, 0);
    let r2 = r.insert(q, s.last());
    if v == s.last() {
        assert(r2[q] == v);
    } else {
        let k = choose|k: int| 0 <= k < s.len() && s[k] == v;
        assert(s.drop_last()[k] == v);
        lemma_stable_sort_keeps(s.drop_last(), lt, v);
        let t = choose|t: int| 0 <= t < r.len() && r[t] == v;
        if t < q { assert(r2[t] == v); } else { assert(r2[t + 1] == v); }
    }
}

/// For a transitive, irreflexive order, the stable sort yields no item below an earlier one.
proof fn lemma_stable_sort_sorted(s: Seq<int>, lt: spec_fn(int, int) -> bool)
    requires
        forall|a: int, b: int, c: int| #[trigger] lt(a, b) && #[trigger] lt(b, c) ==> lt(a, c),
        forall|a: int| !#[trigger] lt(a, a),
    ensures
        sorted_by_lt(stable_sort(s, lt), lt),
    decreases s.len(),
{
    if s.len() > 0 {
        let r = stable_sort(s.drop_last(), lt);
        lemma_stable_sort_sorted(s.drop_last(), lt);
        let x = s.last();
        lemma_insert_pos_stop(r, x, lt, 0);
        let q = insert_pos(r, x, lt, 0);
        let r2 = r.insert(q, x);
        assert forall|a: int, b: int| 0 <= a < b < r2.len() implies !lt(#[trigger] r2[b], #[trigger] r2[a]) by {
            if b < q {
                assert(r2[a] == r[a] && r2[b] == r[b]);
            } else if b == q {
                assert(r2[a] == r[a]);
                assert(r2[b] == x);
            } else if a < q {
                assert(r2[a] == r[a] && r2[b] == r[b - 1]);
            } else if a == q {
                assert(r2[a] == x && r2[b] == r[b - 1]);
                if lt(r[b - 1], x) {
                    assert(lt(x, r[q]));
                    assert(lt(r[b - 1], r[q]));
                    if q < b - 1 {
                        assert(!lt(r[b - 1], r[q]));
                    }
                }
            } else {
                assert(r2[a] == r[a - 1] && r2[b] == r[b - 1]);
            }
        }
    }
}

/// A stable sort keeps the length, and every item it yields lies in `[lo, hi)` when every
/// item of its input does.
pub proof fn lemma_stable_sort_range(s: Seq<int>, lt: spec_fn(int, int) -> bool, lo: int, hi: int)
    requires
        forall|j: int| 0 <= j < s.len() ==> lo <= #[trigger] s[j] < hi,
    ensures
        stable_sort(s, lt).len() == s.len(),
        forall|j: int| 0 <= j < s.len() ==> lo <= #[trigger] stable_sort(s, lt)[j] < hi,
    decreases s.len(),
{
    if s.len() > 0 {
        let t = s.drop_last();
        assert forall|j: int| 0 <= j < t.len() implies lo <= #[trigger] t[j] < hi by {
            assert(t[j] == s[j]);
        }
        lemma_stable_sort_range(t, lt, lo, hi);
        let r = stable_sort(t, lt);
        lemma_insert_pos_range(r, s.last(), lt, 0);
        let q = insert_pos(r, s.last(), lt, 0);
        assert forall|j: int| 0 <= j < s.len() implies lo <= #[trigger] stable_sort(s, lt)[j] < hi by {
            if j < q {
                assert(stable_sort(s, lt)[j] == r[j]);
            } else if j > q {
                assert(stable_sort(s, lt)[j] == r[j - 1]);
            }
        }
    }
}

/// Every item a stable sort yields is an item of its input.
pub proof fn lemma_stable_sort_members(s: Seq<int>, lt: spec_fn(int, int) -> bool)
    ensures
        stable_sort(s, lt).len() == s.len(),
        forall|j: int| 0 <= j < s.len() ==> s.contains(#[trigger] stable_sort(s, lt)[j]),
    decreases s.len(),
{
    if s.len() > 0 {
        let t = s.drop_last();
        lemma_stable_sort_members(t, lt);
        let r = stable_sort(t, lt);
        lemma_insert_pos_range(r, s.last(), lt, 0);
        let q = insert_pos(r, s.last(), lt, 0);
        assert forall|j: int| 0 <= j < s.len() implies s.contains(#[trigger] stable_sort(s, lt)[j]) by {
            if j < q {
                assert(stable_sort(s, lt)[j] == r[j]);
                assert(t.contains(r[j]));
                let k = choose|k: int| 0 <= k < t.len() && t[k] == r[j];
                assert(s[k] == t[k]);
            } else if j > q {
                assert(stable_sort(s, lt)[j] == r[j - 1]);
                assert(t.contains(r[j - 1]));
                let k = choose|k: int| 0 <= k < t.len() && t[k] == r[j - 1];
                assert(s[k] == t[k]);
            } else {
                assert(s[s.len() - 1] == s.last());
            }
        }
    }
}

/// The average order is transitive.
pub proof fn lemma_avg_lt_transitive(s1: int, n1: int, s2: int, n2: int, s3: int, n3: int)
    requires
        s1 >= 0, s2 >= 0, s3 >= 0, n1 >= 0, n2 >= 0, n3 >= 0,
        avg_lt(s1, n1, s2, n2),
        avg_lt(s2, n2, s3, n3),
    ensures
        avg_lt(s1, n1, s3, n3),
{
    if n3 != 0 {
        assert(s1 * n3 < s3 * n1) by (nonlinear_arith)
            requires n1 > 0, n2 > 0, n3 > 0, s1 * n2 < s2 * n1, s2 * n3 < s3 * n2, s1 >= 0, s2 >= 0, s3 >= 0;
    }
}

/// `first_lowest` finds an item whenever one satisfies `p`, and no item it passed over is
/// below the one it found (for a transitive, irreflexive order).
pub proof fn lemma_first_lowest_min(s: Seq<Seq<char>>, k: int, p: spec_fn(Seq<char>) -> bool, lt: spec_fn(int, int) -> bool)
    requires
        forall|a: int, b: int, c: int| #[trigger] lt(a, b) && #[trigger] lt(b, c) ==> lt(a, c),
        forall|a: int| !#[trigger] lt(a, a),
    ensures
        (exists|j: int| 0 <= j < k && #[trigger] p(s[j])) ==> first_lowest(s, k, p, lt) is Some,
        first_lowest(s, k, p, lt) matches Some(b) ==> forall|j: int| 0 <= j < k && p(s[j]) ==> !#[trigger] lt(j, b),
    decreases k,
{
    if k > 0 {
        lemma_first_lowest_min(s, k - 1, p, lt);
        lemma_first_lowest_range(s, k - 1, p, lt);
        let r = first_lowest(s, k - 1, p, lt);
        if exists|j: int| 0 <= j < k && #[trigger] p(s[j]) {
            let j = choose|j: int| 0 <= j < k && #[trigger] p(s[j]);
            if j < k - 1 {
                assert(r is Some);
            }
        }
        if p(s[k - 1]) {
            match r {
                Some(b) => {
                    if lt(k - 1, b) {
                        assert forall|j: int| 0 <= j < k && p(s[j]) implies !#[trigger] lt(j, k - 1) by {
                            if j < k - 1 && lt(j, k - 1) {
                                assert(lt(j, b));
                            }
                        }
                    }
                },
                None => {
                    assert forall|j: int| 0 <= j < k && p(s[j]) implies !#[trigger] lt(j, k - 1) by {
                        if j < k - 1 {
                            assert(exists|i: int| 0 <= i < k - 1 && #[trigger] p(s[i]));
                        }
                    }
                },
            }
        }
    }
}

/// Three failed requests in a row degrade a model with no history.
pub proof fn law_three_failures_degrade(ms1: u64, ms2: u64, ms3: u64, threshold_ms: u64, cb: CircuitBreakerConfig)
    ensures
        state_degraded(after_record(after_record(after_record(fresh_state(), ms1, false), ms2, false), ms3, false), threshold_ms, cb),
{
}

/// One recorded outcome: the total grows by one (stopping at the largest value), a success
/// counts and clears the failure streak and keeps its latency as a sample, a failure
/// lengthens the streak and keeps no sample; an upstream degradation mark is kept.
pub proof fn law_record_outcome(st: EntryState, ms: u64, ok: bool)
    requires
        st.0.len() <= RING_SIZE,
        st.1 < RING_SIZE,
    ensures
        after_record(st, ms, ok).2.total == inc64(st.2.total),
        after_record(st, ms, ok).2.last_ms == ms,
        after_record(st, ms, ok).2.server_degraded == st.2.server_degraded,
        ok ==> after_record(st, ms, ok).2.success == inc64(st.2.success)
            && after_record(st, ms, ok).2.consecutive_failures == 0
            && after_record(st, ms, ok).0.contains(ms)
            && after_record(st, ms, ok).0.len() == if st.0.len() < RING_SIZE { st.0.len() + 1 } else { RING_SIZE as nat },
        !ok ==> after_record(st, ms, ok).2.success == st.2.success
            && after_record(st, ms, ok).2.consecutive_failures == inc32(st.2.consecutive_failures)
            && after_record(st, ms, ok).0 == st.0,
{
    if ok {
        let r = after_record(st, ms, ok);
        if st.0.len() < RING_SIZE {
            assert(r.0[st.0.len() as int] == ms);
        } else {
            let pos = st.1 as int;
            if 0 <= pos < st.0.len() {
                assert(r.0[pos] == ms);
            }
        }
    }
}

/// A success clears a key's failure count, so a model with a key that just succeeded does
/// not have all its keys failing; a failure counts one more (stopping at the largest value).
pub proof fn law_key_outcome(counts: Map<Seq<char>, u32>, label: Seq<char>)
    ensures
        after_key_outcome(counts, label, true)[label] == 0,
        !all_failed(after_key_outcome(counts, label, true)),
        after_key_outcome(counts, label, false)[label] == if counts.contains_key(label) { inc32(counts[label]) } else { 1 },
        forall|l: Seq<char>| l != label ==> #[trigger] after_key_outcome(counts, label, false).contains_key(l) == counts.contains_key(l),
{
    assert(after_key_outcome(counts, label, true).contains_key(label));
}

/// Sum of the request totals of a sequence of records.
pub open spec fn totals_sum(recs: Seq<ModelRecord>) -> int
    decreases recs.len(),
{
    if recs.len() == 0 {
        0
    } else {
        totals_sum(recs.drop_last()) + recs.last().entry.total
    }
}

/// Inserting a record adds its total to the sum.
proof fn lemma_totals_sum_insert(r: Seq<ModelRecord>, i: int, x: ModelRecord)
    requires
        0 <= i <= r.len(),
    ensures
        totals_sum(r.insert(i, x)) == totals_sum(r) + x.entry.total,
    decreases r.len(),
{
    if i == r.len() {
        assert(r.insert(i, x).drop_last() =~= r);
    } else {
        lemma_totals_sum_insert(r.drop_last(), i, x);
        assert(r.insert(i, x).drop_last() =~= r.drop_last().insert(i, x));
        assert(r.insert(i, x).last() == r.last());
    }
}

/// Replacing a record changes the sum by the difference of the totals.
proof fn lemma_totals_sum_update(r: Seq<ModelRecord>, i: int, x: ModelRecord)
    requires
        0 <= i < r.len(),
    ensures
        totals_sum(r.update(i, x)) == totals_sum(r) - r[i].entry.total + x.entry.total,
    decreases r.len(),
{
    if i == r.len() - 1 {
        assert(r.update(i, x).drop_last() =~= r.drop_last());
    } else {
        lemma_totals_sum_update(r.drop_last(), i, x);
        assert(r.update(i, x).drop_last() =~= r.drop_last().update(i, x));
        assert(r.update(i, x).last() == r.last());
    }
}

/// Latency and outcome history of one model.
pub struct ModelEntry {
    /// Latency samples, `RING_SIZE` slots.
    pub ring: Vec<u64>,
    /// Next slot to write.
    pub ring_pos: usize,
    /// Number of slots holding samples.
    pub ring_len: usize,
    pub total: u64,
    pub success: u64,
    pub consecutive_failures: u32,
    pub last_ms: u64,
    pub output_token_count: u32,
    pub repetition_count: u32,
    pub consecutive_assistant_turns: u32,
    /// Set when the upstream API declared the model degraded.
    pub server_degraded: bool,
}

impl ModelEntry {
    /// Ring consistency: a full-size ring, a write position inside it, and, until the ring
    /// first fills, samples written from the start.
    pub open spec fn wf(&self) -> bool {
        &&& self.ring@.len() == RING_SIZE
        &&& self.ring_pos < RING_SIZE
        &&& self.ring_len <= RING_SIZE
        &&& self.ring_len < RING_SIZE ==> self.ring_pos == self.ring_len
    }

    /// The kept latency samples (successes only), in ring order.
    pub open spec fn samples(&self) -> Seq<u64> {
        self.ring@.subrange(0, self.ring_len as int)
    }

    /// The counters.
    pub open spec fn counters(&self) -> EntryCounters {
        EntryCounters {
            total: self.total,
            success: self.success,
            consecutive_failures: self.consecutive_failures,
            last_ms: self.last_ms,
            output_token_count: self.output_token_count,
            repetition_count: self.repetition_count,
            consecutive_assistant_turns: self.consecutive_assistant_turns,
            server_degraded: self.server_degraded,
        }
    }

    /// Abstract state: samples, ring position, counters.
    pub open spec fn state(&self) -> EntryState {
        (self.samples(), self.write_pos(), self.counters())
    }

    /// Next ring slot to be written.
    pub open spec fn write_pos(&self) -> nat {
        self.ring_pos as nat
    }

    /// Number of kept samples.
    pub open spec fn sample_count(&self) -> nat {
        self.samples().len()
    }

    /// Sum of the kept samples.
    pub open spec fn latency_sum(&self) -> int {
        seq_sum(self.samples())
    }

    /// Whether the average latency is above `threshold_ms`; it counts from three samples on.
    pub open spec fn avg_above(&self, threshold_ms: u64) -> bool {
        self.sample_count() >= 3 && self.latency_sum() > threshold_ms as int * self.sample_count()
    }

    /// The degradation rule: server-declared, three consecutive failures, average latency
    /// above the threshold, or an enabled circuit-breaker limit reached.
    pub open spec fn degraded_spec(&self, threshold_ms: u64, cb: CircuitBreakerConfig) -> bool {
        ||| self.server_degraded
        ||| self.consecutive_failures >= 3
        ||| self.avg_above(threshold_ms)
        ||| cb.max_output_tokens > 0 && self.output_token_count > cb.max_output_tokens
        ||| cb.max_repetitions > 0 && self.repetition_count >= cb.max_repetitions
        ||| cb.max_consecutive_assistant_turns > 0 && self.consecutive_assistant_turns
            >= cb.max_consecutive_assistant_turns
    }

    /// A model with no history.
    pub fn new() -> (e: Self)
        ensures
            e.wf(),
            e.samples() == Seq::<u64>::empty(),
            e.write_pos() == 0,
            e.total == 0,
            e.success == 0,
            e.consecutive_failures == 0,
            e.last_ms == 0,
            e.output_token_count == 0,
            e.repetition_count == 0,
            e.consecutive_assistant_turns == 0,
            !e.server_degraded,
    {
        let mut ring: Vec<u64> = Vec::new();
        let mut i: usize = 0;
        while i < RING_SIZE
            invariant
                i <= RING_SIZE,
                ring@.len() == i,
            decreases RING_SIZE - i,
        {
            ring.push(0);
            i = i + 1;
        }
        let e = ModelEntry {
            ring,
            ring_pos: 0,
            ring_len: 0,
            total: 0,
            success: 0,
            consecutive_failures: 0,
            last_ms: 0,
            output_token_count: 0,
            repetition_count: 0,
            consecutive_assistant_turns: 0,
            server_degraded: false,
        };
        assert(e.samples() =~= Seq::<u64>::empty());
        e
    }

    /// Number of kept samples.
    pub fn ring_len(&self) -> (n: usize)
        requires
            self.wf(),
        ensures
            n == self.sample_count(),
    {
        self.ring_len
    }

    /// Keeps one latency sample: appended until the ring holds `RING_SIZE` samples, then
    /// written over the oldest.
    pub fn push(&mut self, ms: u64)
        requires
            old(self).wf(),
        ensures
            final(self).wf(),
            final(self).samples() == if old(self).sample_count() < RING_SIZE {
                old(self).samples().push(ms)
            } else {
                old(self).samples().update(old(self).write_pos() as int, ms)
            },
            final(self).write_pos() == (old(self).write_pos() + 1) % (RING_SIZE as nat),
            final(self).total == old(self).total,
            final(self).success == old(self).success,
            final(self).consecutive_failures == old(self).consecutive_failures,
            final(self).last_ms == old(self).last_ms,
            final(self).output_token_count == old(self).output_token_count,
            final(self).repetition_count == old(self).repetition_count,
            final(self).consecutive_assistant_turns == old(self).consecutive_assistant_turns,
            final(self).server_degraded == old(self).server_degraded,
    {
        let ghost before = self.samples();
        self.ring.set(self.ring_pos, ms);
        self.ring_pos = if self.ring_pos + 1 == RING_SIZE { 0 } else { self.ring_pos + 1 };
        if self.ring_len < RING_SIZE {
            self.ring_len = self.ring_len + 1;
            assert(self.samples() =~= before.push(ms));
        } else {
            assert(self.samples() =~= before.update(old(self).ring_pos as int, ms));
        }
    }

    /// Sum of the kept samples.
    pub fn latency_sum_ms(&self) -> (s: u128)
        requires
            self.wf(),
        ensures
            s == self.latency_sum(),
            s <= self.sample_count() * (u64::MAX as int),
    {
        let mut sum: u128 = 0;
        let mut i: usize = 0;
        while i < self.ring_len
            invariant
                self.wf(),
                i <= self.ring_len,
                sum == seq_sum(self.samples().take(i as int)),
                sum <= i * (u64::MAX as int),
            decreases self.ring_len - i,
        {
            assert(self.samples().take(i + 1).drop_last() =~= self.samples().take(i as int));
            sum = sum + self.ring[i] as u128;
            i = i + 1;
        }
        assert(self.samples().take(i as int) =~= self.samples());
        sum
    }

    /// Whether the average latency is above `threshold_ms`, from three samples on.
    pub fn avg_above_threshold(&self, threshold_ms: u64) -> (r: bool)
        requires
            self.wf(),
        ensures
            r == self.avg_above(threshold_ms),
    {
        if self.ring_len < 3 {
            return false;
        }
        let sum = self.latency_sum_ms();
        proof {
            assert(threshold_ms as int * self.ring_len <= u64::MAX as int * 100) by (nonlinear_arith)
                requires self.ring_len <= 100;
        }
        sum > threshold_ms as u128 * self.ring_len as u128
    }

    /// The degradation rule (see [`ModelEntry::degraded_spec`]).
    pub fn is_degraded(&self, spike_threshold_ms: u64, cb_config: &CircuitBreakerConfig) -> (r: bool)
        requires
            self.wf(),
        ensures
            r == self.degraded_spec(spike_threshold_ms, *cb_config),
    {
        if self.server_degraded {
            return true;
        }
        if self.consecutive_failures >= 3 {
            return true;
        }
        if self.avg_above_threshold(spike_threshold_ms) {
            return true;
        }
        if cb_config.max_output_tokens > 0 && self.output_token_count > cb_config.max_output_tokens {
            return true;
        }
        if cb_config.max_repetitions > 0 && self.repetition_count >= cb_config.max_repetitions {
            return true;
        }
        if cb_config.max_consecutive_assistant_turns > 0 && self.consecutive_assistant_turns
            >= cb_config.max_consecutive_assistant_turns {
            return true;
        }
        false
    }


    /// Records one request outcome (see [`after_record`]).
    pub fn apply_record(&mut self, ms: u64, ok: bool)
        requires
            old(self).wf(),
        ensures
            final(self).wf(),
            final(self).state() == after_record(old(self).state(), ms, ok),
    {
        self.total = if self.total == u64::MAX { u64::MAX } else { self.total + 1 };
        self.last_ms = ms;
        if ok {
            self.success = if self.success == u64::MAX { u64::MAX } else { self.success + 1 };
            self.consecutive_failures = 0;
            self.push(ms);
        } else {
            self.consecutive_failures = if self.consecutive_failures == u32::MAX {
                u32::MAX
            } else {
                self.consecutive_failures + 1
            };
        }
    }

    /// Records one request outcome with the shape of its response (see [`after_record_cb`]).
    pub fn apply_record_cb(
        &mut self,
        ms: u64,
        ok: bool,
        output_tokens: u32,
        repetition_count: u32,
        had_tool_call: bool,
    )
        requires
            old(self).wf(),
        ensures
            final(self).wf(),
            final(self).state() == after_record_cb(old(self).state(), ms, ok, output_tokens, repetition_count, had_tool_call),
    {
        self.apply_record(ms, ok);
        if ok {
            self.output_token_count = output_tokens;
            self.repetition_count = repetition_count;
            if had_tool_call {
                self.consecutive_assistant_turns = 0;
            } else {
                self.consecutive_assistant_turns = if self.consecutive_assistant_turns == u32::MAX {
                    u32::MAX
                } else {
                    self.consecutive_assistant_turns + 1
                };
            }
        }
    }

    /// Marks the model as declared degraded upstream and adds three consecutive failures
    /// (saturating).
    pub fn mark_server_degraded(&mut self)
        requires
            old(self).wf(),
        ensures
            final(self).wf(),
            final(self).server_degraded,
            final(self).consecutive_failures == if old(self).consecutive_failures > u32::MAX - 3 {
                u32::MAX
            } else {
                (old(self).consecutive_failures + 3) as u32
            },
            final(self).samples() == old(self).samples(),
            final(self).write_pos() == old(self).write_pos(),
            final(self).total == old(self).total,
            final(self).success == old(self).success,
            final(self).last_ms == old(self).last_ms,
            final(self).output_token_count == old(self).output_token_count,
            final(self).repetition_count == old(self).repetition_count,
            final(self).consecutive_assistant_turns == old(self).consecutive_assistant_turns,
    {
        self.server_degraded = true;
        self.consecutive_failures = if self.consecutive_failures > u32::MAX - 3 {
            u32::MAX
        } else {
            self.consecutive_failures + 3
        };
    }

    /// The 95th-percentile latency (see [`p95_of`]).
    pub fn p95_ms(&self) -> (r: Option<u64>)
        requires
            self.wf(),
        ensures
            r == p95_of(self.samples()),
    {
        if self.ring_len < 2 {
            return None;
        }
        let sorted = sorted_copy(&self.ring, self.ring_len);
        let n = self.ring_len;
        let idx = (n * 95) / 100;
        let idx = if idx < n { idx } else { n - 1 };
        proof {
            let s = self.samples();
            lemma_sample_leq_total();
            s.lemma_sort_by_ensures(sample_leq());
            vstd::seq_lib::lemma_sorted_unique(sorted@, s.sort_by(sample_leq()), sample_leq());
        }
        Some(sorted[idx])
    }

    /// Timeout for the next request to this model (see [`dynamic_timeout`]).
    pub fn dynamic_timeout_ms(&self, max_timeout_ms: u64) -> (t: u64)
        requires
            self.wf(),
        ensures
            t == dynamic_timeout(p95_of(self.samples()), max_timeout_ms),
    {
        let p: u128 = match self.p95_ms() {
            Some(v) => v as u128,
            None => return max_timeout_ms,
        };
        let buffer: u128 = if p / 2 > 2000 { p / 2 } else { 2000 };
        let capped: u128 = if p + buffer < max_timeout_ms as u128 { p + buffer } else { max_timeout_ms as u128 };
        if capped < 1000 { 1000 } else { capped as u64 }
    }
}


/// Stats of one model for the stats endpoint. The average latency is
/// `latency_sum_ms / sample_count`; the success rate is `success / total`.
pub struct ModelSnapshot {
    pub id: String,
    pub key_label: Option<String>,
    pub latency_sum_ms: u128,
    pub p95_ms: Option<u64>,
    pub total: u64,
    pub success: u64,
    pub sample_count: usize,
    pub consecutive_failures: u32,
    pub degraded: bool,
}


/// Failure count of one key label.
pub struct KeyCount {
    pub label: String,
    pub count: u32,
}

/// Consecutive failures of each key label on one model.
pub struct KeyFailureTracker {
    pub failures: Vec<KeyCount>,
}

impl KeyFailureTracker {
    /// Each label appears once.
    pub open spec fn wf(&self) -> bool {
        forall|i: int, j: int|
            0 <= i < j < self.failures@.len() ==> #[trigger] self.failures@[i].label@ != #[trigger] self.failures@[j].label@
    }

    /// Whether `label` has a count.
    pub open spec fn has(&self, label: Seq<char>) -> bool {
        exists|i: int| 0 <= i < self.failures@.len() && #[trigger] self.failures@[i].label@ == label
    }

    /// Stored position of `label` (meaningful when `has(label)`).
    pub open spec fn index_of(&self, label: Seq<char>) -> int {
        choose|i: int| 0 <= i < self.failures@.len() && #[trigger] self.failures@[i].label@ == label
    }

    /// Count of each label.
    pub open spec fn counts(&self) -> Map<Seq<char>, u32> {
        Map::new(|l: Seq<char>| self.has(l), |l: Seq<char>| self.failures@[self.index_of(l)].count)
    }

    proof fn lemma_index(&self, i: int)
        requires
            self.wf(),
            0 <= i < self.failures@.len(),
        ensures
            self.has(self.failures@[i].label@),
            self.index_of(self.failures@[i].label@) == i,
            self.counts().contains_key(self.failures@[i].label@),
            self.counts()[self.failures@[i].label@] == self.failures@[i].count,
    {
        let l = self.failures@[i].label@;
        let j = self.index_of(l);
        if j != i {
            if j < i {
                assert(self.failures@[j].label@ != self.failures@[i].label@);
            } else {
                assert(self.failures@[i].label@ != self.failures@[j].label@);
            }
        }
    }

    /// No labels yet.
    pub fn new() -> (t: Self)
        ensures
            t.wf(),
            t.counts() == Map::<Seq<char>, u32>::empty(),
    {
        let t = KeyFailureTracker { failures: Vec::new() };
        assert(t.counts() =~= Map::<Seq<char>, u32>::empty());
        t
    }

    /// Sets the count of `label` to `f(old count, or none)`.
    fn set_count(&mut self, label: &str, fail: bool)
        requires
            old(self).wf(),
        ensures
            final(self).wf(),
            final(self).counts() == old(self).counts().insert(
                label@,
                if fail {
                    if old(self).counts().contains_key(label@) { inc32(old(self).counts()[label@]) } else { 1 }
                } else {
                    0
                },
            ),
    {
        let key = label.to_owned();
        let mut i: usize = 0;
        while i < self.failures.len()
            invariant
                self.wf(),
                *self == *old(self),
                key@ == label@,
                i <= self.failures@.len(),
                forall|k: int| 0 <= k < i ==> self.failures@[k].label@ != label@,
            decreases self.failures@.len() - i,
        {
            if self.failures[i].label == key {
                let ghost before = *self;
                proof { before.lemma_index(i as int); }
                let c = self.failures[i].count;
                let next = if fail { if c == u32::MAX { u32::MAX } else { c + 1 } } else { 0 };
                self.failures.set(i, KeyCount { label: key, count: next });
                proof {
                    assert forall|l: Seq<char>| #[trigger] self.counts().contains_key(l) == before.counts().insert(label@, next).contains_key(l)
                        && (self.counts().contains_key(l) ==> self.counts()[l] == before.counts().insert(label@, next)[l]) by {
                        if self.has(l) {
                            let k = self.index_of(l);
                            self.lemma_index(k);
                            if k != i {
                                assert(before.failures@[k] == self.failures@[k]);
                                before.lemma_index(k);
                            }
                        }
                        if before.has(l) {
                            let k = before.index_of(l);
                            before.lemma_index(k);
                            if k != i {
                                assert(before.failures@[k] == self.failures@[k]);
                            }
                            self.lemma_index(k);
                        }
                    }
                    assert(self.counts() =~= before.counts().insert(label@, next));
                }
                return;
            }
            i = i + 1;
        }
        let ghost before = *self;
        let next: u32 = if fail { 1 } else { 0 };
        self.failures.push(KeyCount { label: key, count: next });
        proof {
            assert(!before.has(label@));
            assert forall|l: Seq<char>| #[trigger] self.counts().contains_key(l) == before.counts().insert(label@, next).contains_key(l)
                && (self.counts().contains_key(l) ==> self.counts()[l] == before.counts().insert(label@, next)[l]) by {
                if self.has(l) {
                    let k = self.index_of(l);
                    self.lemma_index(k);
                    if k < before.failures@.len() {
                        assert(before.failures@[k] == self.failures@[k]);
                        before.lemma_index(k);
                    }
                }
                if before.has(l) {
                    let k = before.index_of(l);
                    before.lemma_index(k);
                    assert(before.failures@[k] == self.failures@[k]);
                    self.lemma_index(k);
                }
                if l == label@ {
                    self.lemma_index(before.failures@.len() as int);
                }
            }
            assert(self.counts() =~= before.counts().insert(label@, next));
        }
    }

    /// Counts one more failure for `label`.
    pub fn record_failure(&mut self, key_label: &str)
        requires
            old(self).wf(),
        ensures
            final(self).wf(),
            final(self).counts() == old(self).counts().insert(
                key_label@,
                if old(self).counts().contains_key(key_label@) { inc32(old(self).counts()[key_label@]) } else { 1 },
            ),
    {
        self.set_count(key_label, true)
    }

    /// Resets the failure count of `label` to zero.
    pub fn record_success(&mut self, key_label: &str)
        requires
            old(self).wf(),
        ensures
            final(self).wf(),
            final(self).counts() == old(self).counts().insert(key_label@, 0),
    {
        self.set_count(key_label, false)
    }

    /// Whether every tracked label has failed at least three times in a row (true when no
    /// label is tracked).
    pub fn all_keys_failed(&self) -> (r: bool)
        requires
            self.wf(),
        ensures
            r == all_failed(self.counts()),
    {
        let mut i: usize = 0;
        while i < self.failures.len()
            invariant
                self.wf(),
                i <= self.failures@.len(),
                forall|k: int| 0 <= k < i ==> #[trigger] self.failures@[k].count >= 3,
            decreases self.failures@.len() - i,
        {
            if self.failures[i].count < 3 {
                proof { self.lemma_index(i as int); }
                return false;
            }
            i = i + 1;
        }
        proof {
            assert forall|l: Seq<char>| #[trigger] self.counts().contains_key(l) implies self.counts()[l] >= 3 by {
                let k = self.index_of(l);
                self.lemma_index(k);
            }
        }
        true
    }
}

/// Failure counts after one outcome of the key labelled `label`: one more failure, or reset to
/// zero on success.
pub open spec fn after_key_outcome(counts: Map<Seq<char>, u32>, label: Seq<char>, ok: bool) -> Map<Seq<char>, u32> {
    if ok {
        counts.insert(label, 0)
    } else {
        counts.insert(label, if counts.contains_key(label) { inc32(counts[label]) } else { 1 })
    }
}

/// `pairs` lists exactly the entries of `counts`, each label once.
pub open spec fn pairs_list(pairs: Seq<(String, u32)>, counts: Map<Seq<char>, u32>) -> bool {
    &&& forall|k: int| 0 <= k < pairs.len() ==> counts.contains_key(#[trigger] pairs[k].0@) && counts[pairs[k].0@] == pairs[k].1
    &&& forall|a: int, b: int| 0 <= a < b < pairs.len() ==> #[trigger] pairs[a].0@ != #[trigger] pairs[b].0@
    &&& forall|l: Seq<char>| #[trigger] counts.contains_key(l) ==> exists|k: int| 0 <= k < pairs.len() && pairs[k].0@ == l
}

/// Every tracked label has at least three consecutive failures.
pub open spec fn all_failed(counts: Map<Seq<char>, u32>) -> bool {
    forall|l: Seq<char>| #[trigger] counts.contains_key(l) ==> counts[l] >= 3
}

/// Per-key failure counts of one model.
pub struct ModelKeyFailures {
    pub model: String,
    pub tracker: KeyFailureTracker,
}

/// One model's history, under its id.
pub struct ModelRecord {
    pub id: String,
    pub entry: ModelEntry,
}

/// Per-model statistics for the router, kept in ascending order of model id.
pub struct ModelStatsStore {
    records: Vec<ModelRecord>,
    key_failures: Vec<ModelKeyFailures>,
    /// Average latency above which a model is degraded.
    pub spike_threshold_ms: u64,
    circuit_breaker: CircuitBreakerConfig,
}

impl ModelStatsStore {
    /// The ids, in stored order.
    pub closed spec fn id_at(&self, i: int) -> Seq<char> {
        self.records@[i].id@
    }

    /// Number of models with history.
    pub closed spec fn len_spec(&self) -> nat {
        self.records@.len()
    }

    /// History of the model stored at `i`.
    pub closed spec fn state_at(&self, i: int) -> EntryState {
        self.records@[i].entry.state()
    }

    /// The average latency above which a model is degraded.
    pub closed spec fn threshold(&self) -> u64 {
        self.spike_threshold_ms
    }

    /// The circuit-breaker limits.
    pub closed spec fn cb(&self) -> CircuitBreakerConfig {
        self.circuit_breaker
    }

    /// Models in strictly ascending id order, every history consistent.
    pub closed spec fn wf(&self) -> bool {
        &&& forall|i: int, j: int|
            0 <= i < j < self.records@.len() ==> text_lt(#[trigger] self.records@[i].id@, #[trigger] self.records@[j].id@)
        &&& forall|i: int| 0 <= i < self.records@.len() ==> (#[trigger] self.records@[i]).entry.wf()
        &&& self.failures_wf()
    }

    /// Each model has at most one failure tracker, each tracker consistent.
    pub closed spec fn failures_wf(&self) -> bool {
        &&& forall|i: int, j: int|
            0 <= i < j < self.key_failures@.len() ==> #[trigger] self.key_failures@[i].model@
                != #[trigger] self.key_failures@[j].model@
        &&& forall|i: int| 0 <= i < self.key_failures@.len() ==> (#[trigger] self.key_failures@[i]).tracker.wf()
    }

    /// Whether `model` has a failure tracker.
    pub closed spec fn has_tracker(&self, model: Seq<char>) -> bool {
        exists|i: int| 0 <= i < self.key_failures@.len() && #[trigger] self.key_failures@[i].model@ == model
    }

    /// Stored position of `model`'s tracker.
    pub closed spec fn tracker_index(&self, model: Seq<char>) -> int {
        choose|i: int| 0 <= i < self.key_failures@.len() && #[trigger] self.key_failures@[i].model@ == model
    }

    /// Consecutive failures of each key on each model that has seen a keyed request.
    pub closed spec fn failure_map(&self) -> Map<Seq<char>, Map<Seq<char>, u32>> {
        Map::new(
            |m: Seq<char>| self.has_tracker(m),
            |m: Seq<char>| self.key_failures@[self.tracker_index(m)].tracker.counts(),
        )
    }

    proof fn lemma_tracker_index(&self, i: int)
        requires
            self.failures_wf(),
            0 <= i < self.key_failures@.len(),
        ensures
            self.has_tracker(self.key_failures@[i].model@),
            self.tracker_index(self.key_failures@[i].model@) == i,
            self.failure_map().contains_key(self.key_failures@[i].model@),
            self.failure_map()[self.key_failures@[i].model@] == self.key_failures@[i].tracker.counts(),
    {
        let m = self.key_failures@[i].model@;
        let j = self.tracker_index(m);
        if j != i {
            if j < i {
                assert(self.key_failures@[j].model@ != self.key_failures@[i].model@);
            } else {
                assert(self.key_failures@[i].model@ != self.key_failures@[j].model@);
            }
        }
    }

    /// Whether `id` has history.
    pub open spec fn has(&self, id: Seq<char>) -> bool {
        exists|i: int| 0 <= i < self.len_spec() && #[trigger] self.id_at(i) == id
    }

    /// Stored position of `id` (meaningful when `has(id)`).
    pub open spec fn index_of(&self, id: Seq<char>) -> int {
        choose|i: int| 0 <= i < self.len_spec() && #[trigger] self.id_at(i) == id
    }

    /// Every model's history by id.
    pub open spec fn stats(&self) -> Map<Seq<char>, EntryState> {
        Map::new(|id: Seq<char>| self.has(id), |id: Seq<char>| self.state_at(self.index_of(id)))
    }

    /// History of `id`, or the empty history.
    pub open spec fn state_or_fresh(&self, id: Seq<char>) -> EntryState {
        if self.stats().contains_key(id) { self.stats()[id] } else { fresh_state() }
    }

    /// The model stored at `i` is found at `i`.
    proof fn lemma_index(&self, i: int)
        requires
            self.wf(),
            0 <= i < self.len_spec(),
        ensures
            self.has(self.id_at(i)),
            self.index_of(self.id_at(i)) == i,
            self.stats().contains_key(self.id_at(i)),
            self.stats()[self.id_at(i)] == self.state_at(i),
    {
        let id = self.id_at(i);
        assert(self.id_at(i) == id);
        let j = self.index_of(id);
        if j != i {
            lemma_bytes_lt_irreflexive(vstd::utf8::encode_utf8(id));
            if j < i {
                assert(text_lt(self.records@[j].id@, self.records@[i].id@));
            } else {
                assert(text_lt(self.records@[i].id@, self.records@[j].id@));
            }
        }
    }

    /// An empty store with the default circuit-breaker limits.
    pub fn new(spike_threshold_ms: u64) -> (st: Self)
        ensures
            st.all_requests() == 0,
            st.wf(),
            st.stats() == Map::<Seq<char>, EntryState>::empty(),
            st.failure_map() == Map::<Seq<char>, Map<Seq<char>, u32>>::empty(),
            st.threshold() == spike_threshold_ms,
            st.cb() == (CircuitBreakerConfig { max_output_tokens: 32000, max_repetitions: 5, max_consecutive_assistant_turns: 10 }),
    {
        Self::with_circuit_breaker(spike_threshold_ms, CircuitBreakerConfig::default())
    }

    /// An empty store with the given circuit-breaker limits.
    pub fn with_circuit_breaker(spike_threshold_ms: u64, cb_config: CircuitBreakerConfig) -> (st: Self)
        ensures
            st.all_requests() == 0,
            st.wf(),
            st.stats() == Map::<Seq<char>, EntryState>::empty(),
            st.failure_map() == Map::<Seq<char>, Map<Seq<char>, u32>>::empty(),
            st.threshold() == spike_threshold_ms,
            st.cb() == cb_config,
    {
        let st = ModelStatsStore {
            records: Vec::new(),
            key_failures: Vec::new(),
            spike_threshold_ms,
            circuit_breaker: cb_config,
        };
        assert(st.stats() =~= Map::<Seq<char>, EntryState>::empty());
        assert(st.failure_map() =~= Map::<Seq<char>, Map<Seq<char>, u32>>::empty());
        st
    }

    /// The circuit-breaker limits.
    pub fn circuit_breaker_config(&self) -> (cb: CircuitBreakerConfig)
        ensures
            cb == self.cb(),
    {
        self.circuit_breaker
    }


    /// Records one request outcome for `model_id`, creating its history if needed.
    pub fn record(&mut self, model_id: &str, ms: u64, ok: bool)
        requires
            old(self).wf(),
        ensures
            final(self).wf(),
            final(self).stats() == old(self).stats().insert(model_id@, after_record(old(self).state_or_fresh(model_id@), ms, ok)),
            final(self).threshold() == old(self).threshold(),
            final(self).cb() == old(self).cb(),
            final(self).failure_map() == old(self).failure_map(),
            final(self).all_requests() == old(self).all_requests()
                + if old(self).state_or_fresh(model_id@).2.total < u64::MAX { 1int } else { 0int },
    {
        let idx = self.ensure_entry(model_id);
        let ghost mid = *self;
        self.records[idx].entry.apply_record(ms, ok);
        proof {
            assert(self.records@ =~= mid.records@.update(idx as int, self.records@[idx as int]));
            lemma_totals_sum_update(mid.records@, idx as int, self.records@[idx as int]);
            mid.lemma_index(idx as int);
            self.lemma_update_at(&mid, idx as int);
            assert(self.stats() =~= old(self).stats().insert(model_id@, after_record(old(self).state_or_fresh(model_id@), ms, ok)));
        }
    }

    /// Records one request outcome with the shape of its response for `model_id`.
    pub fn record_with_circuit_breaker(
        &mut self,
        model_id: &str,
        ms: u64,
        ok: bool,
        output_tokens: u32,
        repetition_count: u32,
        had_tool_call: bool,
    )
        requires
            old(self).wf(),
        ensures
            final(self).wf(),
            final(self).stats() == old(self).stats().insert(
                model_id@,
                after_record_cb(old(self).state_or_fresh(model_id@), ms, ok, output_tokens, repetition_count, had_tool_call),
            ),
            final(self).threshold() == old(self).threshold(),
            final(self).cb() == old(self).cb(),
            final(self).failure_map() == old(self).failure_map(),
    {
        let idx = self.ensure_entry(model_id);
        let ghost mid = *self;
        self.records[idx].entry.apply_record_cb(ms, ok, output_tokens, repetition_count, had_tool_call);
        proof {
            mid.lemma_index(idx as int);
            self.lemma_update_at(&mid, idx as int);
            assert(self.stats() =~= old(self).stats().insert(model_id@, after_record_cb(old(self).state_or_fresh(model_id@), ms, ok, output_tokens, repetition_count, had_tool_call)));
        }
    }

    /// Marks `model_id` as declared degraded upstream, creating its history if needed.
    pub fn record_server_degraded(&mut self, model_id: &str)
        requires
            old(self).wf(),
        ensures
            final(self).wf(),
            final(self).stats() == old(self).stats().insert(model_id@, after_server_degraded(old(self).state_or_fresh(model_id@))),
            final(self).threshold() == old(self).threshold(),
            final(self).cb() == old(self).cb(),
            final(self).failure_map() == old(self).failure_map(),
    {
        let idx = self.ensure_entry(model_id);
        let ghost mid = *self;
        self.records[idx].entry.mark_server_degraded();
        proof {
            mid.lemma_index(idx as int);
            self.lemma_update_at(&mid, idx as int);
            assert(self.stats() =~= old(self).stats().insert(model_id@, after_server_degraded(old(self).state_or_fresh(model_id@))));
        }
    }

    /// `self` is `mid` with only the entry at `idx` changed (still consistent): the store stays
    /// consistent and its map changes only at that id.
    proof fn lemma_update_at(&self, mid: &Self, idx: int)
        requires
            mid.wf(),
            0 <= idx < mid.len_spec(),
            self.records@.len() == mid.records@.len(),
            self.records@[idx].id@ == mid.records@[idx].id@,
            self.records@[idx].entry.wf(),
            self.key_failures@ == mid.key_failures@,
            forall|k: int| 0 <= k < mid.records@.len() && k != idx ==> #[trigger] self.records@[k] == mid.records@[k],
        ensures
            self.wf(),
            self.stats() == mid.stats().insert(mid.id_at(idx), self.state_at(idx)),
    {
        assert forall|i: int, j: int| 0 <= i < j < self.records@.len() implies text_lt(#[trigger] self.records@[i].id@, #[trigger] self.records@[j].id@) by {
            assert(text_lt(mid.records@[i].id@, mid.records@[j].id@));
        }
        assert forall|i: int| 0 <= i < self.records@.len() implies (#[trigger] self.records@[i]).entry.wf() by {
            if i != idx {
                assert(self.records@[i] == mid.records@[i]);
            }
        }
        assert forall|id2: Seq<char>| #[trigger] self.stats().contains_key(id2) == mid.stats().insert(mid.id_at(idx), self.state_at(idx)).contains_key(id2)
            && (self.stats().contains_key(id2) ==> self.stats()[id2] == mid.stats().insert(mid.id_at(idx), self.state_at(idx))[id2]) by {
            if self.has(id2) {
                let k = self.index_of(id2);
                self.lemma_index(k);
                assert(mid.id_at(k) == id2);
                mid.lemma_index(k);
            }
            if mid.has(id2) {
                let k = mid.index_of(id2);
                mid.lemma_index(k);
                assert(self.id_at(k) == id2);
                self.lemma_index(k);
            }
            if id2 == mid.id_at(idx) {
                self.lemma_index(idx);
            }
        }
        assert(self.stats() =~= mid.stats().insert(mid.id_at(idx), self.state_at(idx)));
    }


    /// Timeout for the next request to `model_id`: from its p95 (see [`dynamic_timeout`]),
    /// or `max_timeout_ms` for a model without history.
    pub fn get_model_timeout(&self, model_id: &str, max_timeout_ms: u64) -> (t: u64)
        requires
            self.wf(),
        ensures
            t == if self.stats().contains_key(model_id@) {
                dynamic_timeout(p95_of(self.stats()[model_id@].0), max_timeout_ms)
            } else {
                max_timeout_ms
            },
    {
        match self.find(model_id) {
            Some(i) => {
                proof { self.lemma_index(i as int); }
                self.records[i].entry.dynamic_timeout_ms(max_timeout_ms)
            },
            None => max_timeout_ms,
        }
    }

    /// What a snapshot row reports for a model with state `st`.
    pub open spec fn snapshot_matches(&self, row: ModelSnapshot, st: EntryState) -> bool {
        &&& row.key_label is None
        &&& row.latency_sum_ms == seq_sum(st.0)
        &&& row.p95_ms == p95_of(st.0)
        &&& row.total == st.2.total
        &&& row.success == st.2.success
        &&& row.sample_count == st.0.len()
        &&& row.consecutive_failures == st.2.consecutive_failures
        &&& row.degraded == state_degraded(st, self.threshold(), self.cb())
    }

    /// Stats of every model with history, in ascending id order.
    pub fn snapshot(&self) -> (rows: Vec<ModelSnapshot>)
        requires
            self.wf(),
        ensures
            forall|i: int, j: int| 0 <= i < j < rows@.len() ==> text_lt(#[trigger] rows@[i].id@, #[trigger] rows@[j].id@),
            forall|i: int| 0 <= i < rows@.len() ==> self.stats().contains_key(#[trigger] rows@[i].id@)
                && self.snapshot_matches(rows@[i], self.stats()[rows@[i].id@]),
            forall|id: Seq<char>| #[trigger] self.stats().contains_key(id) ==> exists|i: int| 0 <= i < rows@.len() && rows@[i].id@ == id,
    {
        let mut rows: Vec<ModelSnapshot> = Vec::new();
        let mut i: usize = 0;
        while i < self.records.len()
            invariant
                self.wf(),
                i <= self.records@.len(),
                rows@.len() == i,
                forall|k: int| 0 <= k < i ==> (#[trigger] rows@[k]).id@ == self.id_at(k)
                    && self.snapshot_matches(rows@[k], self.state_at(k)),
            decreases self.records@.len() - i,
        {
            let e = &self.records[i].entry;
            assert(self.records@[i as int].entry.wf());
            let row = ModelSnapshot {
                id: self.records[i].id.clone(),
                key_label: None,
                latency_sum_ms: e.latency_sum_ms(),
                p95_ms: e.p95_ms(),
                total: e.total,
                success: e.success,
                sample_count: e.ring_len(),
                consecutive_failures: e.consecutive_failures,
                degraded: e.is_degraded(self.spike_threshold_ms, &self.circuit_breaker),
            };
            rows.push(row);
            i = i + 1;
        }
        proof {
            assert forall|k: int| 0 <= k < rows@.len() implies self.stats().contains_key(#[trigger] rows@[k].id@)
                && self.snapshot_matches(rows@[k], self.stats()[rows@[k].id@]) by {
                self.lemma_index(k);
            }
            assert forall|id: Seq<char>| #[trigger] self.stats().contains_key(id) implies exists|k: int| 0 <= k < rows@.len() && rows@[k].id@ == id by {
                let k = self.index_of(id);
                assert(rows@[k].id@ == id);
            }
        }
        rows
    }


    /// Records one outcome of `model_id` with the key labelled `key_label`: the model's
    /// history as `record`, and the key's failure count on that model grown by one on
    /// failure or reset to zero on success.
    pub fn record_with_key(&mut self, model_id: &str, key_label: &str, ms: u64, ok: bool)
        requires
            old(self).wf(),
        ensures
            final(self).wf(),
            final(self).stats() == old(self).stats().insert(model_id@, after_record(old(self).state_or_fresh(model_id@), ms, ok)),
            final(self).failure_map() == old(self).failure_map().insert(
                model_id@,
                after_key_outcome(old(self).tracker_or_empty(model_id@), key_label@, ok),
            ),
            final(self).threshold() == old(self).threshold(),
            final(self).cb() == old(self).cb(),
    {
        self.record(model_id, ms, ok);
        let ghost mid = *self;
        let model = model_id.to_owned();
        let mut i: usize = 0;
        while i < self.key_failures.len()
            invariant
                self.wf(),
                *self == mid,
                mid.stats() == old(self).stats().insert(model_id@, after_record(old(self).state_or_fresh(model_id@), ms, ok)),
                mid.failure_map() == old(self).failure_map(),
                mid.threshold() == old(self).threshold(),
                mid.cb() == old(self).cb(),
                model@ == model_id@,
                i <= self.key_failures@.len(),
                forall|k: int| 0 <= k < i ==> self.key_failures@[k].model@ != model_id@,
            decreases self.key_failures@.len() - i,
        {
            if self.key_failures[i].model == model {
                proof { mid.lemma_tracker_index(i as int); }
                assert(self.key_failures@[i as int].tracker.wf());
                if ok {
                    self.key_failures[i].tracker.record_success(key_label);
                } else {
                    self.key_failures[i].tracker.record_failure(key_label);
                }
                proof { self.lemma_tracker_updated(&mid, i as int); }
                return;
            }
            i = i + 1;
        }
        let mut tracker = KeyFailureTracker::new();
        if ok {
            tracker.record_success(key_label);
        } else {
            tracker.record_failure(key_label);
        }
        self.key_failures.push(ModelKeyFailures { model, tracker });
        proof {
            self.lemma_same_records(&mid);
            assert(!mid.has_tracker(model_id@));
            assert forall|a: int, b: int| 0 <= a < b < self.key_failures@.len() implies #[trigger] self.key_failures@[a].model@
                != #[trigger] self.key_failures@[b].model@ by {
                if b < mid.key_failures@.len() {
                    assert(mid.key_failures@[a].model@ != mid.key_failures@[b].model@);
                }
            }
            assert forall|a: int| 0 <= a < self.key_failures@.len() implies (#[trigger] self.key_failures@[a]).tracker.wf() by {
                if a < mid.key_failures@.len() {
                    assert(self.key_failures@[a] == mid.key_failures@[a]);
                }
            }
            assert forall|m: Seq<char>| #[trigger] self.failure_map().contains_key(m) == mid.failure_map().insert(model_id@, tracker.counts()).contains_key(m)
                && (self.failure_map().contains_key(m) ==> self.failure_map()[m] == mid.failure_map().insert(model_id@, tracker.counts())[m]) by {
                if self.has_tracker(m) {
                    let k = self.tracker_index(m);
                    self.lemma_tracker_index(k);
                    if k < mid.key_failures@.len() {
                        mid.lemma_tracker_index(k);
                    }
                }
                if mid.has_tracker(m) {
                    let k = mid.tracker_index(m);
                    mid.lemma_tracker_index(k);
                    assert(self.key_failures@[k] == mid.key_failures@[k]);
                    self.lemma_tracker_index(k);
                }
                if m == model_id@ {
                    self.lemma_tracker_index(mid.key_failures@.len() as int);
                }
            }
            assert(self.failure_map() =~= mid.failure_map().insert(model_id@, tracker.counts()));
            assert(tracker.counts() == after_key_outcome(mid.tracker_or_empty(model_id@), key_label@, ok));
        }
    }

    /// `self` is `mid` with only the tracker at `i` changed (still consistent).
    proof fn lemma_tracker_updated(&self, mid: &Self, i: int)
        requires
            mid.wf(),
            0 <= i < mid.key_failures@.len(),
            self.records@ == mid.records@,
            self.spike_threshold_ms == mid.spike_threshold_ms,
            self.circuit_breaker == mid.circuit_breaker,
            self.key_failures@.len() == mid.key_failures@.len(),
            self.key_failures@[i].model@ == mid.key_failures@[i].model@,
            self.key_failures@[i].tracker.wf(),
            forall|k: int| 0 <= k < mid.key_failures@.len() && k != i ==> #[trigger] self.key_failures@[k] == mid.key_failures@[k],
        ensures
            self.wf(),
            self.stats() == mid.stats(),
            self.failure_map() == mid.failure_map().insert(mid.key_failures@[i].model@, self.key_failures@[i].tracker.counts()),
    {
        assert forall|a: int, b: int| 0 <= a < b < self.key_failures@.len() implies #[trigger] self.key_failures@[a].model@
            != #[trigger] self.key_failures@[b].model@ by {
            assert(mid.key_failures@[a].model@ != mid.key_failures@[b].model@);
        }
        assert forall|a: int| 0 <= a < self.key_failures@.len() implies (#[trigger] self.key_failures@[a]).tracker.wf() by {
            if a != i {
                assert(self.key_failures@[a] == mid.key_failures@[a]);
            }
        }
        let m0 = mid.key_failures@[i].model@;
        assert forall|m: Seq<char>| #[trigger] self.failure_map().contains_key(m) == mid.failure_map().insert(m0, self.key_failures@[i].tracker.counts()).contains_key(m)
            && (self.failure_map().contains_key(m) ==> self.failure_map()[m] == mid.failure_map().insert(m0, self.key_failures@[i].tracker.counts())[m]) by {
            if self.has_tracker(m) {
                let k = self.tracker_index(m);
                self.lemma_tracker_index(k);
                assert(mid.key_failures@[k].model@ == m);
                mid.lemma_tracker_index(k);
            }
            if mid.has_tracker(m) {
                let k = mid.tracker_index(m);
                mid.lemma_tracker_index(k);
                assert(self.key_failures@[k].model@ == m);
                self.lemma_tracker_index(k);
            }
            if m == m0 {
                self.lemma_tracker_index(i);
            }
        }
        assert(self.failure_map() =~= mid.failure_map().insert(m0, self.key_failures@[i].tracker.counts()));
        self.lemma_same_records(mid);
    }

    /// Stores with the same histories have the same stats.
    proof fn lemma_same_records(&self, other: &Self)
        requires
            self.records@ == other.records@,
            other.wf(),
        ensures
            self.stats() == other.stats(),
    {
        assert forall|id: Seq<char>| #[trigger] self.stats().contains_key(id) == other.stats().contains_key(id)
            && (self.stats().contains_key(id) ==> self.stats()[id] == other.stats()[id]) by {
            if self.has(id) {
                let k = self.index_of(id);
                assert(other.id_at(k) == id);
                other.lemma_index(k);
                assert forall|j: int| 0 <= j < self.len_spec() && #[trigger] self.id_at(j) == id implies j == k by {
                    assert(other.id_at(j) == id);
                    other.lemma_index(j);
                }
            }
            if other.has(id) {
                let k = other.index_of(id);
                other.lemma_index(k);
                assert(self.id_at(k) == id);
            }
        }
        assert(self.stats() =~= other.stats());
    }

    /// Failure counts of `model`, or none.
    pub open spec fn tracker_or_empty(&self, model: Seq<char>) -> Map<Seq<char>, u32> {
        if self.failure_map().contains_key(model) { self.failure_map()[model] } else { Map::empty() }
    }

    /// Whether every key that served `model_id` has failed at least three times in a row
    /// (false for a model without keyed requests).
    pub fn all_keys_failing_for_model(&self, model_id: &str) -> (r: bool)
        requires
            self.wf(),
        ensures
            r == (self.failure_map().contains_key(model_id@) && all_failed(self.failure_map()[model_id@])),
    {
        let model = model_id.to_owned();
        let mut i: usize = 0;
        while i < self.key_failures.len()
            invariant
                self.wf(),
                model@ == model_id@,
                i <= self.key_failures@.len(),
                forall|k: int| 0 <= k < i ==> self.key_failures@[k].model@ != model_id@,
            decreases self.key_failures@.len() - i,
        {
            if self.key_failures[i].model == model {
                proof { self.lemma_tracker_index(i as int); }
                assert(self.key_failures@[i as int].tracker.wf());
                return self.key_failures[i].tracker.all_keys_failed();
            }
            i = i + 1;
        }
        false
    }

    /// Failure counts of every key on every model that has seen a keyed request.
    pub fn get_key_failure_summary(&self) -> (res: Vec<(String, Vec<(String, u32)>)>)
        requires
            self.wf(),
        ensures
            res@.len() == self.failure_map().dom().len(),
            forall|i: int| 0 <= i < res@.len() ==> self.failure_map().contains_key(#[trigger] res@[i].0@)
                && pairs_list(res@[i].1@, self.failure_map()[res@[i].0@]),
            forall|m: Seq<char>| #[trigger] self.failure_map().contains_key(m) ==> exists|i: int| 0 <= i < res@.len() && res@[i].0@ == m,
    {
        let mut res: Vec<(String, Vec<(String, u32)>)> = Vec::new();
        let mut i: usize = 0;
        while i < self.key_failures.len()
            invariant
                self.wf(),
                i <= self.key_failures@.len(),
                res@.len() == i,
                forall|k: int| 0 <= k < i ==> (#[trigger] res@[k]).0@ == self.key_failures@[k].model@
                    && pairs_list(res@[k].1@, self.key_failures@[k].tracker.counts()),
            decreases self.key_failures@.len() - i,
        {
            let t = &self.key_failures[i].tracker;
            assert(self.key_failures@[i as int].tracker.wf());
            let mut pairs: Vec<(String, u32)> = Vec::new();
            let mut j: usize = 0;
            while j < t.failures.len()
                invariant
                    t.wf(),
                    j <= t.failures@.len(),
                    pairs@.len() == j,
                    forall|k: int| 0 <= k < j ==> (#[trigger] pairs@[k]).0@ == t.failures@[k].label@ && pairs@[k].1 == t.failures@[k].count,
                decreases t.failures@.len() - j,
            {
                pairs.push((t.failures[j].label.clone(), t.failures[j].count));
                j = j + 1;
            }
            proof {
                assert forall|k: int| 0 <= k < pairs@.len() implies t.counts().contains_key(#[trigger] pairs@[k].0@)
                    && t.counts()[pairs@[k].0@] == pairs@[k].1 by {
                    t.lemma_index(k);
                }
                assert forall|a: int, b: int| 0 <= a < b < pairs@.len() implies #[trigger] pairs@[a].0@ != #[trigger] pairs@[b].0@ by {
                    assert(t.failures@[a].label@ != t.failures@[b].label@);
                }
                assert forall|l: Seq<char>| #[trigger] t.counts().contains_key(l) implies exists|k: int| 0 <= k < pairs@.len() && pairs@[k].0@ == l by {
                    let k = t.index_of(l);
                    assert(pairs@[k].0@ == l);
                }
            }
            res.push((self.key_failures[i].model.clone(), pairs));
            i = i + 1;
        }
        proof {
            assert forall|k: int| 0 <= k < res@.len() implies self.failure_map().contains_key(#[trigger] res@[k].0@)
                && pairs_list(res@[k].1@, self.failure_map()[res@[k].0@]) by {
                self.lemma_tracker_index(k);
            }
            assert forall|m: Seq<char>| #[trigger] self.failure_map().contains_key(m) implies exists|k: int| 0 <= k < res@.len() && res@[k].0@ == m by {
                let k = self.tracker_index(m);
                assert(res@[k].0@ == m);
            }
            let models = Seq::new(res@.len(), |k: int| res@[k].0@);
            assert forall|a: int, b: int| 0 <= a < b < models.len() implies models[a] != models[b] by {
                assert(self.key_failures@[a].model@ != self.key_failures@[b].model@);
            }
            models.unique_seq_to_set();
            assert(models.to_set() =~= self.failure_map().dom()) by {
                assert forall|m: Seq<char>| models.to_set().contains(m) <==> self.failure_map().dom().contains(m) by {
                    if self.failure_map().contains_key(m) {
                        let k = self.tracker_index(m);
                        assert(models[k] == m);
                    }
                    if models.contains(m) {
                        let k = choose|k: int| 0 <= k < models.len() && models[k] == m;
                        self.lemma_tracker_index(k);
                    }
                }
            }
        }
        res
    }


    /// Requests recorded over all models.
    pub closed spec fn all_requests(&self) -> int {
        totals_sum(self.records@)
    }

    /// Untried for routing: no history, or fewer than three requests and not declared
    /// degraded upstream.
    pub open spec fn is_untried(&self, c: Seq<char>) -> bool {
        !self.stats().contains_key(c) || (!self.stats()[c].2.server_degraded && self.stats()[c].2.total < 3)
    }

    /// Tried at least three times, not declared degraded upstream, and healthy or not.
    pub open spec fn is_tried(&self, c: Seq<char>, degraded: bool) -> bool {
        &&& self.stats().contains_key(c)
        &&& !self.stats()[c].2.server_degraded
        &&& self.stats()[c].2.total >= 3
        &&& state_degraded(self.stats()[c], self.threshold(), self.cb()) == degraded
    }

    /// Latency order of two candidates by position in `cands`.
    pub open spec fn cand_lt(&self, cands: Seq<Seq<char>>) -> spec_fn(int, int) -> bool {
        |i: int, j: int| {
            let a = self.state_or_fresh(cands[i]);
            let b = self.state_or_fresh(cands[j]);
            avg_lt(seq_sum(a.0), a.0.len() as int, seq_sum(b.0), b.0.len() as int)
        }
    }

    /// The model `best_model` picks: among untried candidates, the one at the total request
    /// count modulo their number; else the first fastest healthy tried candidate; else the
    /// first fastest degraded one. Candidates declared degraded upstream are never picked.
    pub open spec fn best_pick(&self, cands: Seq<Seq<char>>) -> Option<int> {
        let untried = select_idx(cands, cands.len() as int, |c: Seq<char>| self.is_untried(c));
        if cands.len() == 0 {
            None
        } else if untried.len() > 0 {
            Some(untried[self.all_requests() % (untried.len() as int)])
        } else {
            match first_lowest(cands, cands.len() as int, |c: Seq<char>| self.is_tried(c, false), self.cand_lt(cands)) {
                Some(i) => Some(i),
                None => first_lowest(cands, cands.len() as int, |c: Seq<char>| self.is_tried(c, true), self.cand_lt(cands)),
            }
        }
    }

    /// The model `best_pick` chooses is one of the candidates, and never one declared
    /// degraded upstream.
    pub proof fn lemma_best_pick_in_range(&self, cands: Seq<Seq<char>>)
        ensures
            self.best_pick(cands) matches Some(i) ==> {
                &&& 0 <= i < cands.len()
                &&& !(self.stats().contains_key(cands[i]) && self.stats()[cands[i]].2.server_degraded)
            },
    {
        let k = cands.len() as int;
        let p = |c: Seq<char>| self.is_untried(c);
        let untried = select_idx(cands, k, p);
        lemma_select_idx_range(cands, k, p);
        lemma_select_idx_members(cands, k, p);
        lemma_first_lowest_range(cands, k, |c: Seq<char>| self.is_tried(c, false), self.cand_lt(cands));
        lemma_first_lowest_range(cands, k, |c: Seq<char>| self.is_tried(c, true), self.cand_lt(cands));
        if k > 0 && untried.len() > 0 {
            let j = self.all_requests() % (untried.len() as int);
            assert(0 <= j < untried.len());
            assert(0 <= untried[j] < k);
            assert(p(cands[untried[j]]));
        }
    }

    /// The latency order of candidates is transitive and irreflexive.
    pub proof fn lemma_cand_lt_order(&self, cands: Seq<Seq<char>>)
        ensures
            forall|a: int, b: int, c: int| #[trigger] self.cand_lt(cands)(a, b) && #[trigger] self.cand_lt(cands)(b, c) ==> self.cand_lt(cands)(a, c),
            forall|a: int| !#[trigger] self.cand_lt(cands)(a, a),
    {
        assert forall|a: int, b: int, c: int| #[trigger] self.cand_lt(cands)(a, b) && #[trigger] self.cand_lt(cands)(b, c) implies self.cand_lt(cands)(a, c) by {
            let x = self.state_or_fresh(cands[a]);
            let y = self.state_or_fresh(cands[b]);
            let z = self.state_or_fresh(cands[c]);
            lemma_seq_sum_nonneg(x.0);
            lemma_seq_sum_nonneg(y.0);
            lemma_seq_sum_nonneg(z.0);
            lemma_avg_lt_transitive(seq_sum(x.0), x.0.len() as int, seq_sum(y.0), y.0.len() as int, seq_sum(z.0), z.0.len() as int);
        }
    }

    /// Routing preferences: an untried candidate is picked while there is one; otherwise a
    /// healthy tried candidate while there is one, and then no healthy candidate is faster
    /// than the one picked.
    pub proof fn law_best_pick_preferences(&self, cands: Seq<Seq<char>>)
        ensures
            (exists|j: int| 0 <= j < cands.len() && self.is_untried(#[trigger] cands[j]))
                ==> (self.best_pick(cands) matches Some(i) && self.is_untried(cands[i])),
            (forall|j: int| 0 <= j < cands.len() ==> !self.is_untried(#[trigger] cands[j]))
                && (exists|j: int| 0 <= j < cands.len() && self.is_tried(#[trigger] cands[j], false))
                ==> (self.best_pick(cands) matches Some(i) && self.is_tried(cands[i], false)
                    && forall|j: int| 0 <= j < cands.len() && self.is_tried(#[trigger] cands[j], false)
                        ==> !self.cand_lt(cands)(j, i)),
    {
        let k = cands.len() as int;
        let pu = |c: Seq<char>| self.is_untried(c);
        let ph = |c: Seq<char>| self.is_tried(c, false);
        lemma_select_idx_range(cands, k, pu);
        lemma_select_idx_members(cands, k, pu);
        self.lemma_cand_lt_order(cands);
        lemma_first_lowest_min(cands, k, ph, self.cand_lt(cands));
        lemma_first_lowest_range(cands, k, ph, self.cand_lt(cands));
        if exists|j: int| 0 <= j < cands.len() && self.is_untried(#[trigger] cands[j]) {
            let j = choose|j: int| 0 <= j < cands.len() && self.is_untried(#[trigger] cands[j]);
            lemma_select_idx_contains(cands, k, pu, j);
            let untried = select_idx(cands, k, pu);
            let m = self.all_requests() % (untried.len() as int);
            assert(pu(cands[untried[m]]));
        }
        if (forall|j: int| 0 <= j < cands.len() ==> !self.is_untried(#[trigger] cands[j]))
            && (exists|j: int| 0 <= j < cands.len() && self.is_tried(#[trigger] cands[j], false)) {
            let j = choose|j: int| 0 <= j < cands.len() && self.is_tried(#[trigger] cands[j], false);
            assert(ph(cands[j]));
            if select_idx(cands, k, pu).len() > 0 {
                let u = select_idx(cands, k, pu)[0];
                assert(pu(cands[u]));
            }
            let i = first_lowest(cands, k, ph, self.cand_lt(cands))->0;
            assert(ph(cands[i]));
            assert forall|j: int| 0 <= j < cands.len() && self.is_tried(#[trigger] cands[j], false) implies !self.cand_lt(cands)(j, i) by {
                assert(ph(cands[j]));
            }
        }
    }

    /// No model that the degradation rule of `is_degraded` and `best_model` sidelines is
    /// raced once it has three samples, none declared degraded upstream is raced, and none
    /// whose every key is failing.
    pub proof fn law_raced_models_not_degraded(&self, cands: Seq<Seq<char>>)
        ensures
            forall|j: int| 0 <= j < self.race_order(cands).len() ==> {
                let c = cands[#[trigger] self.race_order(cands)[j]];
                &&& !(self.failure_map().contains_key(c) && all_failed(self.failure_map()[c]))
                &&& self.stats().contains_key(c) ==> !self.stats()[c].2.server_degraded
                    && !(self.stats()[c].0.len() >= 3 && state_degraded(self.stats()[c], self.threshold(), self.cb()))
            },
    {
        self.law_racers_viable(cands);
        assert forall|j: int| 0 <= j < self.race_order(cands).len() implies {
            let c = cands[#[trigger] self.race_order(cands)[j]];
            &&& !(self.failure_map().contains_key(c) && all_failed(self.failure_map()[c]))
            &&& self.stats().contains_key(c) ==> !self.stats()[c].2.server_degraded
                && !(self.stats()[c].0.len() >= 3 && state_degraded(self.stats()[c], self.threshold(), self.cb()))
        } by {
            assert(self.is_viable(cands[self.race_order(cands)[j]]));
        }
    }

    /// While some candidates are untried, routing rotates among them: the pick is an untried
    /// candidate with exactly (requests recorded over all models) mod (number of untried
    /// candidates) untried candidates before it.
    pub proof fn law_untried_rotation(&self, cands: Seq<Seq<char>>)
        ensures
            ({
                let untried = |c: Seq<char>| self.is_untried(c);
                let n = count_where(cands, cands.len() as int, untried);
                n > 0 ==> (self.best_pick(cands) matches Some(i) && 0 <= i < cands.len() && self.is_untried(cands[i])
                    && count_where(cands, i, untried) == self.all_requests() % (n as int))
            }),
    {
        let untried = |c: Seq<char>| self.is_untried(c);
        let k = cands.len() as int;
        lemma_select_idx_count(cands, k, untried);
        lemma_select_idx_range(cands, k, untried);
        lemma_select_idx_members(cands, k, untried);
        let sel = select_idx(cands, k, untried);
        if sel.len() > 0 {
            let m = self.all_requests() % (sel.len() as int);
            assert(0 <= m < sel.len());
            assert(untried(cands[sel[m]]));
            assert(count_where(cands, sel[m], untried) == m);
        }
    }

    /// Consecutive requests rotate while candidates are untried: when one more request has
    /// been recorded and the same candidates are untried, the pick moves one untried
    /// candidate on, wrapping around.
    pub proof fn law_warmup_rotates(s0: Self, s1: Self, cands: Seq<Seq<char>>)
        requires
            s1.all_requests() == s0.all_requests() + 1,
            forall|j: int| 0 <= j < cands.len() ==> s0.is_untried(#[trigger] cands[j]) == s1.is_untried(cands[j]),
            count_where(cands, cands.len() as int, |c: Seq<char>| s0.is_untried(c)) > 0,
        ensures
            ({
                let u0 = |c: Seq<char>| s0.is_untried(c);
                let n = count_where(cands, cands.len() as int, u0) as int;
                s0.best_pick(cands) matches Some(i0) && s1.best_pick(cands) matches Some(i1)
                    && count_where(cands, i1, u0) as int == (count_where(cands, i0, u0) as int + 1) % n
            }),
    {
        let u0 = |c: Seq<char>| s0.is_untried(c);
        let u1 = |c: Seq<char>| s1.is_untried(c);
        let k = cands.len() as int;
        s0.law_untried_rotation(cands);
        s1.law_untried_rotation(cands);
        lemma_count_where_agree(cands, k, u0, u1);
        let n = count_where(cands, k, u0) as int;
        let i0 = s0.best_pick(cands)->0;
        let i1 = s1.best_pick(cands)->0;
        lemma_count_where_agree(cands, i1, u0, u1);
        vstd::arithmetic::div_mod::lemma_add_mod_noop(s0.all_requests(), 1, n);
        if n > 1 {
            vstd::arithmetic::div_mod::lemma_small_mod(1, n as nat);
        } else {
            vstd::arithmetic::div_mod::lemma_mod_self_0(1);
        }
    }

    /// When every candidate has been tried and all are degraded, the least slow degraded one
    /// is picked; when none can be picked (no candidates, or all declared degraded upstream),
    /// there is no pick.
    pub proof fn law_degraded_fallback(&self, cands: Seq<Seq<char>>)
        ensures
            (forall|j: int| 0 <= j < cands.len() ==> !self.is_untried(#[trigger] cands[j]) && !self.is_tried(cands[j], false))
                && (exists|j: int| 0 <= j < cands.len() && self.is_tried(#[trigger] cands[j], true))
                ==> (self.best_pick(cands) matches Some(i) && 0 <= i < cands.len() && self.is_tried(cands[i], true)
                    && forall|j: int| 0 <= j < cands.len() && self.is_tried(#[trigger] cands[j], true)
                        ==> !self.cand_lt(cands)(j, i)),
            (forall|j: int| 0 <= j < cands.len() ==> !self.is_untried(#[trigger] cands[j])
                && !self.is_tried(cands[j], false) && !self.is_tried(cands[j], true))
                ==> self.best_pick(cands) is None,
    {
        let k = cands.len() as int;
        let pu = |c: Seq<char>| self.is_untried(c);
        let ph = |c: Seq<char>| self.is_tried(c, false);
        let pd = |c: Seq<char>| self.is_tried(c, true);
        lemma_select_idx_range(cands, k, pu);
        lemma_select_idx_members(cands, k, pu);
        self.lemma_cand_lt_order(cands);
        lemma_first_lowest_min(cands, k, ph, self.cand_lt(cands));
        lemma_first_lowest_range(cands, k, ph, self.cand_lt(cands));
        lemma_first_lowest_min(cands, k, pd, self.cand_lt(cands));
        lemma_first_lowest_range(cands, k, pd, self.cand_lt(cands));
        if forall|j: int| 0 <= j < cands.len() ==> !self.is_untried(#[trigger] cands[j]) && !self.is_tried(cands[j], false) {
            if select_idx(cands, k, pu).len() > 0 {
                let u = select_idx(cands, k, pu)[0];
                assert(pu(cands[u]));
            }
            if first_lowest(cands, k, ph, self.cand_lt(cands)) is Some {
                let h = first_lowest(cands, k, ph, self.cand_lt(cands))->0;
                assert(ph(cands[h]));
            }
            if exists|j: int| 0 <= j < cands.len() && self.is_tried(#[trigger] cands[j], true) {
                let j = choose|j: int| 0 <= j < cands.len() && self.is_tried(#[trigger] cands[j], true);
                assert(pd(cands[j]));
                let i = first_lowest(cands, k, pd, self.cand_lt(cands))->0;
                assert(pd(cands[i]));
                assert forall|j: int| 0 <= j < cands.len() && self.is_tried(#[trigger] cands[j], true) implies !self.cand_lt(cands)(j, i) by {
                    assert(pd(cands[j]));
                }
            }
            if forall|j: int| 0 <= j < cands.len() ==> !self.is_tried(#[trigger] cands[j], true) {
                if first_lowest(cands, k, pd, self.cand_lt(cands)) is Some {
                    let d = first_lowest(cands, k, pd, self.cand_lt(cands))->0;
                    assert(pd(cands[d]));
                }
            }
        }
    }

    /// Every candidate that is not sidelined (by all its keys failing, an upstream
    /// degradation mark, or the degradation rule once it has three samples) is in the racing
    /// order.
    pub proof fn law_healthy_candidates_raced(&self, cands: Seq<Seq<char>>, j: int)
        requires
            0 <= j < cands.len(),
            !(self.failure_map().contains_key(cands[j]) && all_failed(self.failure_map()[cands[j]])),
            self.stats().contains_key(cands[j]) ==> !self.stats()[cands[j]].2.server_degraded
                && !(self.stats()[cands[j]].0.len() >= 3 && state_degraded(self.stats()[cands[j]], self.threshold(), self.cb())),
        ensures
            self.race_order(cands).contains(j),
    {
        let p = |c: Seq<char>| self.is_viable(c);
        assert(p(cands[j]));
        lemma_select_idx_contains(cands, cands.len() as int, p, j);
        lemma_stable_sort_keeps(select_idx(cands, cands.len() as int, p), self.cand_lt(cands), j);
    }

    /// Racers come fastest first: no racer has a lower average latency than one raced
    /// before it, and a racer with samples is never placed after one without.
    pub proof fn law_race_order_fastest_first(&self, cands: Seq<Seq<char>>)
        ensures
            forall|a: int, b: int| 0 <= a < b < self.race_order(cands).len() ==> {
                let x = self.state_or_fresh(cands[#[trigger] self.race_order(cands)[a]]);
                let y = self.state_or_fresh(cands[#[trigger] self.race_order(cands)[b]]);
                !avg_lt(seq_sum(y.0), y.0.len() as int, seq_sum(x.0), x.0.len() as int)
            },
    {
        self.lemma_cand_lt_order(cands);
        let sel = select_idx(cands, cands.len() as int, |c: Seq<char>| self.is_viable(c));
        lemma_stable_sort_sorted(sel, self.cand_lt(cands));
        let o = self.race_order(cands);
        assert forall|a: int, b: int| 0 <= a < b < o.len() implies {
            let x = self.state_or_fresh(cands[#[trigger] o[a]]);
            let y = self.state_or_fresh(cands[#[trigger] o[b]]);
            !avg_lt(seq_sum(y.0), y.0.len() as int, seq_sum(x.0), x.0.len() as int)
        } by {
            assert(!self.cand_lt(cands)(o[b], o[a]));
        }
    }

    /// Every candidate raced is viable: not declared degraded upstream, not degraded on
    /// three or more samples, and not with every key failing.
    pub proof fn law_racers_viable(&self, cands: Seq<Seq<char>>)
        ensures
            forall|j: int| 0 <= j < self.race_order(cands).len() ==> self.is_viable(cands[#[trigger] self.race_order(cands)[j]]),
    {
        let p = |c: Seq<char>| self.is_viable(c);
        let sel = select_idx(cands, cands.len() as int, p);
        lemma_select_idx_members(cands, cands.len() as int, p);
        lemma_stable_sort_members(sel, self.cand_lt(cands));
        assert forall|j: int| 0 <= j < self.race_order(cands).len() implies self.is_viable(cands[#[trigger] self.race_order(cands)[j]]) by {
            let x = self.race_order(cands)[j];
            assert(sel.contains(x));
            let i = choose|i: int| 0 <= i < sel.len() && sel[i] == x;
            assert(p(cands[sel[i]]));
        }
    }

    /// Sum of the request totals of every model.
    fn total_requests(&self) -> (t: u128)
        requires
            self.wf(),
        ensures
            t == self.all_requests(),
    {
        let mut t: u128 = 0;
        let mut i: usize = 0;
        let n = self.records.len();
        while i < n
            invariant
                n == self.records@.len(),
                i <= n,
                t == totals_sum(self.records@.take(i as int)),
                t <= i * (u64::MAX as int),
            decreases self.records@.len() - i,
        {
            assert(self.records@.take(i + 1).drop_last() =~= self.records@.take(i as int));
            proof {
                assert(i * (u64::MAX as int) + u64::MAX as int == (i + 1) * (u64::MAX as int)) by (nonlinear_arith);
                assert((i + 1) * (u64::MAX as int) <= usize::MAX as int * u64::MAX as int) by (nonlinear_arith)
                    requires i + 1 <= usize::MAX;
            }
            t = t + self.records[i].entry.total as u128;
            i = i + 1;
        }
        assert(self.records@.take(i as int) =~= self.records@);
        t
    }

    /// Latency key of a candidate: sum of its samples and their number (zero samples for a
    /// model without history).
    fn latency_key(&self, c: &str) -> (r: (u128, u128))
        requires
            self.wf(),
        ensures
            r.0 == seq_sum(self.state_or_fresh(c@).0),
            r.1 == self.state_or_fresh(c@).0.len(),
            r.1 <= RING_SIZE,
            r.0 <= (RING_SIZE as int) * (u64::MAX as int),
    {
        match self.find(c) {
            Some(i) => {
                proof { self.lemma_index(i as int); }
                assert(self.records@[i as int].entry.wf());
                let s = self.records[i].entry.latency_sum_ms();
                proof {
                    let c = self.records@[i as int].entry.sample_count();
                    assert(c * (u64::MAX as int) <= (RING_SIZE as int) * (u64::MAX as int)) by (nonlinear_arith)
                        requires c <= RING_SIZE;
                }
                (s, self.records[i].entry.ring_len as u128)
            },
            None => {
                proof { self.lemma_no_entry(c@); }
                (0, 0)
            },
        }
    }

    /// A model without history reads as the empty history.
    proof fn lemma_no_entry(&self, c: Seq<char>)
        requires
            !self.has(c),
        ensures
            !self.stats().contains_key(c),
            self.state_or_fresh(c) == fresh_state(),
    {
    }

    /// Picks the model for the next auto-routed request (see [`ModelStatsStore::best_pick`]).
    pub fn best_model(&self, candidates: &[String]) -> (r: Option<String>)
        requires
            self.wf(),
        ensures
            match self.best_pick(candidates@.map_values(|c: String| c@)) {
                Some(i) => r matches Some(m) && m@ == candidates@[i]@,
                None => r is None,
            },
    {
        let ghost cands = candidates@.map_values(|c: String| c@);
        if candidates.len() == 0 {
            return None;
        }
        let mut untried: Vec<usize> = Vec::new();
        let mut best_ok: Option<(usize, u128, u128)> = None;
        let mut best_deg: Option<(usize, u128, u128)> = None;
        let mut i: usize = 0;
        while i < candidates.len()
            invariant
                self.wf(),
                cands == candidates@.map_values(|c: String| c@),
                i <= candidates@.len(),
                untried@.map_values(|x: usize| x as int) == select_idx(cands, i as int, |c: Seq<char>| self.is_untried(c)),
                forall|k: int| 0 <= k < untried@.len() ==> #[trigger] untried@[k] < i,
                match best_ok {
                    Some(b) => first_lowest(cands, i as int, |c: Seq<char>| self.is_tried(c, false), self.cand_lt(cands)) == Some(b.0 as int)
                        && b.0 < i && b.1 == seq_sum(self.state_or_fresh(cands[b.0 as int]).0)
                        && b.2 == self.state_or_fresh(cands[b.0 as int]).0.len() && b.2 <= RING_SIZE && b.1 <= (RING_SIZE as int) * (u64::MAX as int),
                    None => first_lowest(cands, i as int, |c: Seq<char>| self.is_tried(c, false), self.cand_lt(cands)) is None,
                },
                match best_deg {
                    Some(b) => first_lowest(cands, i as int, |c: Seq<char>| self.is_tried(c, true), self.cand_lt(cands)) == Some(b.0 as int)
                        && b.0 < i && b.1 == seq_sum(self.state_or_fresh(cands[b.0 as int]).0)
                        && b.2 == self.state_or_fresh(cands[b.0 as int]).0.len() && b.2 <= RING_SIZE && b.1 <= (RING_SIZE as int) * (u64::MAX as int),
                    None => first_lowest(cands, i as int, |c: Seq<char>| self.is_tried(c, true), self.cand_lt(cands)) is None,
                },
            decreases candidates@.len() - i,
        {
            let c = candidates[i].as_str();
            assert(c@ == cands[i as int]);
            let (sum, n) = self.latency_key(c);
            let class: u8 = match self.find(c) {
                None => {
                    proof { self.lemma_no_entry(c@); }
                    0
                },
                Some(k) => {
                    proof { self.lemma_index(k as int); }
                    assert(self.records@[k as int].entry.wf());
                    let e = &self.records[k].entry;
                    if e.server_degraded {
                        3
                    } else if e.total < 3 {
                        0
                    } else if e.is_degraded(self.spike_threshold_ms, &self.circuit_breaker) {
                        2
                    } else {
                        1
                    }
                },
            };
            let ghost ui = select_idx(cands, i as int, |c: Seq<char>| self.is_untried(c));
            if class == 0 {
                untried.push(i);
                assert(untried@.map_values(|x: usize| x as int) =~= ui.push(i as int));
            } else {
                assert(untried@.map_values(|x: usize| x as int) =~= ui);
            }
            if class == 1 {
                best_ok = match best_ok {
                    None => Some((i, sum, n)),
                    Some(b) => {
                        proof {
                            assert(b.1 * n <= (RING_SIZE as int) * u64::MAX as int * RING_SIZE as int) by (nonlinear_arith)
                                requires b.1 <= (RING_SIZE as int) * u64::MAX as int, n <= RING_SIZE;
                            assert(sum * b.2 <= (RING_SIZE as int) * u64::MAX as int * RING_SIZE as int) by (nonlinear_arith)
                                requires sum <= (RING_SIZE as int) * u64::MAX as int, b.2 <= RING_SIZE;
                        }
                        if n > 0 && (b.2 == 0 || sum * b.2 < b.1 * n) { Some((i, sum, n)) } else { Some(b) }
                    },
                };
            } else if class == 2 {
                best_deg = match best_deg {
                    None => Some((i, sum, n)),
                    Some(b) => {
                        proof {
                            assert(b.1 * n <= (RING_SIZE as int) * u64::MAX as int * RING_SIZE as int) by (nonlinear_arith)
                                requires b.1 <= (RING_SIZE as int) * u64::MAX as int, n <= RING_SIZE;
                            assert(sum * b.2 <= (RING_SIZE as int) * u64::MAX as int * RING_SIZE as int) by (nonlinear_arith)
                                requires sum <= (RING_SIZE as int) * u64::MAX as int, b.2 <= RING_SIZE;
                        }
                        if n > 0 && (b.2 == 0 || sum * b.2 < b.1 * n) { Some((i, sum, n)) } else { Some(b) }
                    },
                };
            }
            i = i + 1;
        }
        if untried.len() > 0 {
            let total = self.total_requests();
            let k = (total % (untried.len() as u128)) as usize;
            let j = untried[k];
            assert(untried@.map_values(|x: usize| x as int)[k as int] == j as int);
            return Some(candidates[j].clone());
        }
        match best_ok {
            Some(b) => Some(candidates[b.0].clone()),
            None => match best_deg {
                Some(b) => Some(candidates[b.0].clone()),
                None => None,
            },
        }
    }

    /// Whether `racing_candidates` keeps `c`: not every key failing for it and, when it has
    /// history, not declared degraded upstream and not degraded on three or more samples.
    pub open spec fn is_viable(&self, c: Seq<char>) -> bool {
        &&& !(self.failure_map().contains_key(c) && all_failed(self.failure_map()[c]))
        &&& self.stats().contains_key(c) ==> {
            &&& !self.stats()[c].2.server_degraded
            &&& !(self.stats()[c].0.len() >= 3 && state_degraded(self.stats()[c], self.threshold(), self.cb()))
        }
    }

    /// Positions of the viable candidates, fastest first, ties and models without samples
    /// kept in candidate order (models without samples last).
    pub open spec fn race_order(&self, cands: Seq<Seq<char>>) -> Seq<int> {
        stable_sort(select_idx(cands, cands.len() as int, |c: Seq<char>| self.is_viable(c)), self.cand_lt(cands))
    }

    /// The racing order lists positions of candidates, no more of them than candidates.
    pub proof fn lemma_race_order_range(&self, cands: Seq<Seq<char>>)
        ensures
            self.race_order(cands).len() <= cands.len(),
            forall|j: int| 0 <= j < self.race_order(cands).len() ==> 0 <= #[trigger] self.race_order(cands)[j] < cands.len(),
    {
        let p = |c: Seq<char>| self.is_viable(c);
        lemma_select_idx_range(cands, cands.len() as int, p);
        lemma_stable_sort_range(select_idx(cands, cands.len() as int, p), self.cand_lt(cands), 0, cands.len() as int);
    }

    /// Up to `max` candidates to race, in [`ModelStatsStore::race_order`].
    pub fn racing_candidates(&self, candidates: &[String], max: usize) -> (r: Vec<String>)
        requires
            self.wf(),
        ensures
            ({
                let order = self.race_order(candidates@.map_values(|c: String| c@));
                &&& r@.len() == if max < order.len() { max as int } else { order.len() as int }
                &&& forall|k: int| 0 <= k < r@.len() ==> #[trigger] r@[k]@ == candidates@[order[k]]@
            }),
    {
        let ghost cands = candidates@.map_values(|c: String| c@);
        let ghost lt = self.cand_lt(cands);
        let mut ranked: Vec<(usize, u128, u128)> = Vec::new();
        let mut i: usize = 0;
        while i < candidates.len()
            invariant
                self.wf(),
                cands == candidates@.map_values(|c: String| c@),
                lt == self.cand_lt(cands),
                i <= candidates@.len(),
                ranked@.map_values(|t: (usize, u128, u128)| t.0 as int)
                    == stable_sort(select_idx(cands, i as int, |c: Seq<char>| self.is_viable(c)), lt),
                forall|k: int| 0 <= k < ranked@.len() ==> {
                    let t = #[trigger] ranked@[k];
                    &&& t.0 < i
                    &&& t.1 == seq_sum(self.state_or_fresh(cands[t.0 as int]).0)
                    &&& t.2 == self.state_or_fresh(cands[t.0 as int]).0.len()
                    &&& t.2 <= RING_SIZE
                    &&& t.1 <= (RING_SIZE as int) * (u64::MAX as int)
                },
            decreases candidates@.len() - i,
        {
            let c = candidates[i].as_str();
            assert(c@ == cands[i as int]);
            let failing = self.all_keys_failing_for_model(c);
            let viable = if failing {
                false
            } else {
                match self.find(c) {
                    None => {
                        proof { self.lemma_no_entry(c@); }
                        true
                    },
                    Some(k) => {
                        proof { self.lemma_index(k as int); }
                        assert(self.records@[k as int].entry.wf());
                        let e = &self.records[k].entry;
                        !e.server_degraded && !(e.ring_len >= 3 && e.is_degraded(self.spike_threshold_ms, &self.circuit_breaker))
                    },
                }
            };
            assert(viable == self.is_viable(cands[i as int]));
            let ghost sel = select_idx(cands, i as int, |c: Seq<char>| self.is_viable(c));
            let ghost before = ranked@;
            if viable {
                let (sum, n) = self.latency_key(c);
                let ghost rs = stable_sort(sel, lt);
                let mut pos: usize = 0;
                while pos < ranked.len() && !key_lt(sum, n, ranked[pos].1, ranked[pos].2)
                    invariant
                        self.wf(),
                        cands == candidates@.map_values(|c: String| c@),
                        lt == self.cand_lt(cands),
                        i < candidates@.len(),
                        ranked@ == before,
                        rs == before.map_values(|t: (usize, u128, u128)| t.0 as int),
                        pos <= ranked@.len(),
                        sum == seq_sum(self.state_or_fresh(cands[i as int]).0),
                        n == self.state_or_fresh(cands[i as int]).0.len(),
                        n <= RING_SIZE,
                        sum <= (RING_SIZE as int) * (u64::MAX as int),
                        insert_pos(rs, i as int, lt, 0) == insert_pos(rs, i as int, lt, pos as int),
                        forall|k: int| 0 <= k < ranked@.len() ==> {
                            let t = #[trigger] ranked@[k];
                            &&& t.0 < i
                            &&& t.1 == seq_sum(self.state_or_fresh(cands[t.0 as int]).0)
                            &&& t.2 == self.state_or_fresh(cands[t.0 as int]).0.len()
                            &&& t.2 <= RING_SIZE
                            &&& t.1 <= (RING_SIZE as int) * (u64::MAX as int)
                        },
                    decreases ranked@.len() - pos,
                {
                    assert(rs[pos as int] == ranked@[pos as int].0 as int);
                    pos = pos + 1;
                }
                if pos < ranked.len() {
                    assert(rs[pos as int] == ranked@[pos as int].0 as int);
                }
                ranked.insert(pos, (i, sum, n));
                proof {
                    assert(sel.push(i as int).drop_last() =~= sel);
                    assert(ranked@.map_values(|t: (usize, u128, u128)| t.0 as int) =~= rs.insert(pos as int, i as int));
                }
            } else {
                assert(ranked@.map_values(|t: (usize, u128, u128)| t.0 as int) =~= stable_sort(sel, lt));
            }
            i = i + 1;
        }
        assert(cands.len() == candidates@.len());
        let mut out: Vec<String> = Vec::new();
        let mut k: usize = 0;
        while k < ranked.len() && k < max
            invariant
                k <= ranked@.len(),
                k <= max,
                out@.len() == k,
                cands == candidates@.map_values(|c: String| c@),
                ranked@.map_values(|t: (usize, u128, u128)| t.0 as int) == self.race_order(cands),
                forall|j: int| 0 <= j < ranked@.len() ==> (#[trigger] ranked@[j]).0 < candidates@.len(),
                forall|j: int| 0 <= j < k ==> #[trigger] out@[j]@ == candidates@[ranked@[j].0 as int]@,
            decreases ranked@.len() - k,
        {
            let j = ranked[k].0;
            out.push(candidates[j].clone());
            k = k + 1;
        }
        proof {
            let order = self.race_order(cands);
            assert forall|j: int| 0 <= j < out@.len() implies #[trigger] out@[j]@ == candidates@[order[j]]@ by {
                assert(order[j] == ranked@[j].0 as int);
            }
        }
        out
    }

    /// Stored position of `id`, if it has history.
    fn find(&self, id: &str) -> (r: Option<usize>)
        requires
            self.wf(),
        ensures
            match r {
                Some(i) => i < self.len_spec() && self.id_at(i as int) == id@,
                None => !self.has(id@),
            },
    {
        let key = id.to_owned();
        let mut i: usize = 0;
        while i < self.records.len()
            invariant
                self.wf(),
                key@ == id@,
                i <= self.records@.len(),
                forall|k: int| 0 <= k < i ==> self.records@[k].id@ != id@,
            decreases self.records@.len() - i,
        {
            if self.records[i].id == key {
                return Some(i);
            }
            i = i + 1;
        }
        None
    }

    /// Stored position of `id`, inserting an empty history in id order when it has none.
    fn ensure_entry(&mut self, id: &str) -> (idx: usize)
        requires
            old(self).wf(),
        ensures
            final(self).wf(),
            idx < final(self).len_spec(),
            final(self).id_at(idx as int) == id@,
            final(self).stats() == old(self).stats().insert(id@, old(self).state_or_fresh(id@)),
            final(self).threshold() == old(self).threshold(),
            final(self).cb() == old(self).cb(),
            final(self).key_failures@ == old(self).key_failures@,
            final(self).all_requests() == old(self).all_requests(),
    {
        let key = id.to_owned();
        let mut pos: usize = 0;
        while pos < self.records.len() && text_less(self.records[pos].id.as_str(), id)
            invariant
                self.wf(),
                key@ == id@,
                pos <= self.records@.len(),
                forall|k: int| 0 <= k < pos ==> text_lt(#[trigger] self.records@[k].id@, id@),
            decreases self.records@.len() - pos,
        {
            pos = pos + 1;
        }
        if pos < self.records.len() && self.records[pos].id == key {
            proof {
                self.lemma_index(pos as int);
                assert(self.stats() =~= self.stats().insert(id@, self.state_or_fresh(id@)));
            }
            return pos;
        }
        proof {
            // every stored id differs from `id`
            assert forall|k: int| 0 <= k < self.records@.len() implies #[trigger] self.records@[k].id@ != id@ by {
                if k < pos {
                    lemma_bytes_lt_irreflexive(vstd::utf8::encode_utf8(id@));
                } else if k == pos {
                } else {
                    if pos < self.records@.len() {
                        lemma_text_lt_total(self.records@[pos as int].id@, id@);
                        assert(text_lt(self.records@[pos as int].id@, self.records@[k].id@));
                        if self.records@[k].id@ == id@ {
                            lemma_bytes_lt_asymmetric(vstd::utf8::encode_utf8(self.records@[pos as int].id@), vstd::utf8::encode_utf8(id@));
                        }
                    }
                }
            }
        }
        let ghost before = *self;
        let entry = ModelEntry::new();
        let rec = ModelRecord { id: key, entry };
        let ghost recv = rec;
        self.records.insert(pos, rec);
        proof {
            lemma_totals_sum_insert(before.records@, pos as int, recv);
            assert(self.records@ =~= before.records@.insert(pos as int, recv));
            if pos < before.records@.len() {
                lemma_text_lt_total(before.records@[pos as int].id@, id@);
            }
            assert forall|i: int, j: int| 0 <= i < j < self.records@.len() implies text_lt(#[trigger] self.records@[i].id@, #[trigger] self.records@[j].id@) by {
                if j < pos {
                    assert(text_lt(before.records@[i].id@, before.records@[j].id@));
                } else if j == pos {
                    assert(text_lt(before.records@[i].id@, id@));
                } else if i == pos {
                    if j - 1 > pos {
                        assert(text_lt(before.records@[pos as int].id@, before.records@[j - 1].id@));
                        lemma_bytes_lt_transitive(vstd::utf8::encode_utf8(id@), vstd::utf8::encode_utf8(before.records@[pos as int].id@), vstd::utf8::encode_utf8(before.records@[j - 1].id@));
                    }
                } else if i < pos {
                    assert(text_lt(before.records@[i].id@, before.records@[j - 1].id@));
                } else {
                    assert(text_lt(before.records@[i - 1].id@, before.records@[j - 1].id@));
                }
            }
            assert forall|i: int| 0 <= i < self.records@.len() implies (#[trigger] self.records@[i]).entry.wf() by {
                if i < pos {
                    assert(self.records@[i] == before.records@[i]);
                } else if i > pos {
                    assert(self.records@[i] == before.records@[i - 1]);
                }
            }
            assert(self.wf());
            assert forall|id2: Seq<char>| #[trigger] self.stats().contains_key(id2) == before.stats().insert(id@, fresh_state()).contains_key(id2)
                && (self.stats().contains_key(id2) ==> self.stats()[id2] == before.stats().insert(id@, fresh_state())[id2]) by {
                if id2 == id@ {
                    self.lemma_index(pos as int);
                    assert(self.records@[pos as int].entry.samples() =~= Seq::<u64>::empty());
                } else if before.has(id2) {
                    let k = before.index_of(id2);
                    before.lemma_index(k);
                    let k2 = if k < pos { k } else { k + 1 };
                    assert(self.id_at(k2) == id2);
                    self.lemma_index(k2);
                } else {
                    if self.has(id2) {
                        let k2 = self.index_of(id2);
                        if k2 < pos {
                            assert(before.id_at(k2) == id2);
                        } else if k2 > pos {
                            assert(before.id_at(k2 - 1) == id2);
                        }
                    }
                }
            }
            assert(self.stats() =~= before.stats().insert(id@, before.state_or_fresh(id@)));
        }
        pos
    }
}

/// Executable form of [`avg_lt`] on bounded sums and counts.
fn key_lt(sum1: u128, n1: u128, sum2: u128, n2: u128) -> (r: bool)
    requires
        n1 <= RING_SIZE,
        n2 <= RING_SIZE,
        sum1 <= (RING_SIZE as int) * (u64::MAX as int),
        sum2 <= (RING_SIZE as int) * (u64::MAX as int),
    ensures
        r == avg_lt(sum1 as int, n1 as int, sum2 as int, n2 as int),
{
    proof {
        assert(sum1 * n2 <= (RING_SIZE as int) * (u64::MAX as int) * (RING_SIZE as int)) by (nonlinear_arith)
            requires sum1 <= (RING_SIZE as int) * (u64::MAX as int), n2 <= RING_SIZE;
        assert(sum2 * n1 <= (RING_SIZE as int) * (u64::MAX as int) * (RING_SIZE as int)) by (nonlinear_arith)
            requires sum2 <= (RING_SIZE as int) * (u64::MAX as int), n1 <= RING_SIZE;
    }
    n1 > 0 && (n2 == 0 || sum1 * n2 < sum2 * n1)
}

/// `a <= b` is a total order on samples.
proof fn lemma_sample_leq_total()
    ensures
        total_ordering(sample_leq()),
{
}

/// The first `n` entries of `ring`, in ascending order.
fn sorted_copy(ring: &Vec<u64>, n: usize) -> (out: Vec<u64>)
    requires
        n <= ring@.len(),
    ensures
        sorted_by(out@, sample_leq()),
        out@.to_multiset() == ring@.subrange(0, n as int).to_multiset(),
        out@.len() == n,
{
    let mut out: Vec<u64> = Vec::new();
    let mut i: usize = 0;
    while i < n
        invariant
            i <= n,
            n <= ring@.len(),
            out@.len() == i,
            sorted_by(out@, sample_leq()),
            out@.to_multiset() == ring@.subrange(0, i as int).to_multiset(),
        decreases n - i,
    {
        let x = ring[i];
        let mut pos: usize = 0;
        while pos < out.len() && out[pos] <= x
            invariant
                pos <= out@.len(),
                i < n,
                n <= ring@.len(),
                x == ring@[i as int],
                out@.len() == i,
                sorted_by(out@, sample_leq()),
                out@.to_multiset() == ring@.subrange(0, i as int).to_multiset(),
                forall|k: int| 0 <= k < pos ==> out@[k] <= x,
            decreases out@.len() - pos,
        {
            pos = pos + 1;
        }
        let ghost before = out@;
        out.insert(pos, x);
        proof {
            assert forall|a: int, b: int| 0 <= a < b < out@.len() implies #[trigger] sample_leq()(out@[a], out@[b]) by {
                if b < pos {
                } else if a < pos && b == pos {
                } else if a < pos {
                    assert(sample_leq()(before[a], before[b - 1]));
                } else if a == pos {
                    assert(sample_leq()(before[pos as int], before[b - 1]) || b - 1 == pos);
                } else {
                    assert(sample_leq()(before[a - 1], before[b - 1]));
                }
            }
            vstd::seq_lib::to_multiset_insert(before, pos as int, x);
            assert(ring@.subrange(0, i + 1) =~= ring@.subrange(0, i as int).push(x));
            vstd::seq_lib::to_multiset_build(ring@.subrange(0, i as int), x);
        }
        i = i + 1;
    }
    out
}

} // verus!
