use vstd::prelude::*;
use crate::config::{opt_str_view, KeyEntry, ModelCompat, ModelParams};
use crate::gateway::AppState;
use crate::json::{Json, JsonV};
use crate::model_refresh::ids;
use crate::model_stats::ModelStatsStore;
use crate::request::{lemma_params_index, params_for, params_index};
use crate::text::{decimal, decimal_string, text_eq};

verus! {

/// The key (and label) of the `n`-th generated test key: `test-key-<n>`.
pub open spec fn test_key_name(n: nat) -> Seq<char> {
    "test-key-"@ + decimal(n)
}

/// The `n`-th generated racing model: `nvidia/test-model-<n>`.
pub open spec fn test_model_name(n: nat) -> Seq<char> {
    "nvidia/test-model-"@ + decimal(n)
}

/// The decimal text of a signed number, with a minus sign when negative.
pub open spec fn signed_decimal(n: i32) -> Seq<char> {
    if n < 0 { "-"@ + decimal((-n) as nat) } else { decimal(n as nat) }
}

/// The decimal text of a signed number (see [`signed_decimal`]).
fn signed_decimal_string(n: i32) -> (r: String)
    ensures
        r@ == signed_decimal(n),
{
    if n < 0 {
        let m: u64 = (-(n as i64)) as u64;
        let mut s = "-".to_owned();
        s.append(decimal_string(m).as_str());
        s
    } else {
        decimal_string(n as u64)
    }
}

/// `text` followed by the decimal text of `n`.
fn numbered(text: &str, n: usize) -> (r: String)
    ensures
        r@ == text@ + decimal(n as nat),
{
    let mut s = text.to_owned();
    s.append(decimal_string(n as u64).as_str());
    s
}

/// Parameters are configured with only `max_tokens` set, to `max_tokens`.
pub open spec fn only_max_tokens(o: Option<ModelParams>, max_tokens: i32) -> bool {
    match o {
        Some(p) => {
            &&& p.max_tokens matches Some(j) && j@ == JsonV::Number(signed_decimal(max_tokens))
            &&& p.temperature is None && p.top_p is None && p.top_k is None
            &&& p.chat_template_kwargs is None && p.reasoning_effort is None && p.seed is None
        },
        None => false,
    }
}

/// Lists with the same ids at every position find the same position for every id.
proof fn lemma_params_index_same_ids(a: Seq<(String, ModelParams)>, b: Seq<(String, ModelParams)>, id: Seq<char>)
    requires
        a.len() == b.len(),
        forall|j: int| 0 <= j < a.len() ==> (#[trigger] a[j]).0@ == b[j].0@,
    ensures
        params_index(a, id) == params_index(b, id),
    decreases a.len(),
{
    if a.len() > 0 {
        assert forall|j: int| 0 <= j < a.drop_last().len() implies (#[trigger] a.drop_last()[j]).0@ == b.drop_last()[j].0@ by {
            assert(a.drop_last()[j] == a[j]);
            assert(b.drop_last()[j] == b[j]);
        }
        lemma_params_index_same_ids(a.drop_last(), b.drop_last(), id);
        assert(a.last().0@ == b.last().0@);
    }
}

/// Builder of an [`AppState`] for tests: one key, a local target, no racing models, three
/// racers at most, a 5000 ms racing timeout and round-robin racing, unless set otherwise.
pub struct MockAppStateBuilder {
    keys: Vec<KeyEntry>,
    target: String,
    racing_models: Vec<String>,
    racing_max_parallel: usize,
    racing_timeout_ms: u64,
    racing_strategy: String,
    model_params: Vec<(String, ModelParams)>,
    model_compat: ModelCompat,
}

impl MockAppStateBuilder {
    /// The keys the state will have.
    pub closed spec fn keys_spec(&self) -> Seq<KeyEntry> {
        self.keys@
    }

    /// The target URL.
    pub closed spec fn target_spec(&self) -> Seq<char> {
        self.target@
    }

    /// The racing models.
    pub closed spec fn racing_models_spec(&self) -> Seq<Seq<char>> {
        ids(self.racing_models@)
    }

    /// The racing limits: most racers, timeout and strategy.
    pub closed spec fn racing_spec(&self) -> (usize, u64, Seq<char>) {
        (self.racing_max_parallel, self.racing_timeout_ms, self.racing_strategy@)
    }

    /// The per-model parameters.
    pub closed spec fn params_spec(&self) -> Seq<(String, ModelParams)> {
        self.model_params@
    }

    /// The compatibility lists.
    pub closed spec fn compat_spec(&self) -> ModelCompat {
        self.model_compat
    }

    /// The defaults: key `test-key-1` labelled `test-key`, target `http://127.0.0.1:8080`,
    /// no racing models, three racers at most, 5000 ms, `round-robin`, no parameters, no
    /// compatibility lists.
    pub fn new() -> (b: Self)
        ensures
            b.keys_spec().len() == 1,
            b.keys_spec()[0].key@ == "test-key-1"@,
            opt_str_view(b.keys_spec()[0].label) == Some("test-key"@),
            b.target_spec() == "http://127.0.0.1:8080"@,
            b.racing_models_spec().len() == 0,
            b.racing_spec() == (3usize, 5000u64, "round-robin"@),
            b.params_spec().len() == 0,
            b.compat_spec().supports_developer_role is None,
            b.compat_spec().supports_tool_messages is None,
    {
        let mut keys: Vec<KeyEntry> = Vec::new();
        keys.push(KeyEntry { key: "test-key-1".to_owned(), label: Some("test-key".to_owned()) });
        let b = MockAppStateBuilder {
            keys,
            target: "http://127.0.0.1:8080".to_owned(),
            racing_models: Vec::new(),
            racing_max_parallel: 3,
            racing_timeout_ms: 5000,
            racing_strategy: "round-robin".to_owned(),
            model_params: Vec::new(),
            model_compat: ModelCompat::default(),
        };
        assert(b.racing_models_spec() =~= Seq::<Seq<char>>::empty());
        b
    }

    /// `count` generated keys, `test-key-1` to `test-key-<count>`, each labelled as its key.
    pub fn with_keys(self, count: usize) -> (b: Self)
        ensures
            b.keys_spec().len() == count,
            forall|i: int| 0 <= i < count ==> (#[trigger] b.keys_spec()[i]).key@ == test_key_name((i + 1) as nat)
                && opt_str_view(b.keys_spec()[i].label) == Some(test_key_name((i + 1) as nat)),
            b.target_spec() == self.target_spec(),
            b.racing_models_spec() == self.racing_models_spec(),
            b.racing_spec() == self.racing_spec(),
            b.params_spec() == self.params_spec(),
            b.compat_spec() == self.compat_spec(),
    {
        let mut b = self;
        let mut keys: Vec<KeyEntry> = Vec::new();
        let mut n: usize = 0;
        while n < count
            invariant
                n <= count,
                keys@.len() == n,
                forall|i: int| 0 <= i < n ==> (#[trigger] keys@[i]).key@ == test_key_name((i + 1) as nat)
                    && opt_str_view(keys@[i].label) == Some(test_key_name((i + 1) as nat)),
            decreases count - n,
        {
            let name = numbered("test-key-", n + 1);
            let label = numbered("test-key-", n + 1);
            keys.push(KeyEntry { key: name, label: Some(label) });
            n = n + 1;
        }
        b.keys = keys;
        b
    }

    /// The given keys.
    pub fn with_custom_keys(self, keys: Vec<KeyEntry>) -> (b: Self)
        ensures
            b.keys_spec() == keys@,
            b.target_spec() == self.target_spec(),
            b.racing_models_spec() == self.racing_models_spec(),
            b.racing_spec() == self.racing_spec(),
            b.params_spec() == self.params_spec(),
            b.compat_spec() == self.compat_spec(),
    {
        let mut b = self;
        b.keys = keys;
        b
    }

    /// The given target URL.
    pub fn with_target(self, target: &str) -> (b: Self)
        ensures
            b.target_spec() == target@,
            b.keys_spec() == self.keys_spec(),
            b.racing_models_spec() == self.racing_models_spec(),
            b.racing_spec() == self.racing_spec(),
            b.params_spec() == self.params_spec(),
            b.compat_spec() == self.compat_spec(),
    {
        let mut b = self;
        b.target = target.to_owned();
        b
    }

    /// `count` generated racing models, `nvidia/test-model-1` to `nvidia/test-model-<count>`.
    pub fn with_racing_models(self, count: usize) -> (b: Self)
        ensures
            b.racing_models_spec().len() == count,
            forall|i: int| 0 <= i < count ==> #[trigger] b.racing_models_spec()[i] == test_model_name((i + 1) as nat),
            b.keys_spec() == self.keys_spec(),
            b.target_spec() == self.target_spec(),
            b.racing_spec() == self.racing_spec(),
            b.params_spec() == self.params_spec(),
            b.compat_spec() == self.compat_spec(),
    {
        let mut b = self;
        let mut models: Vec<String> = Vec::new();
        let mut n: usize = 0;
        while n < count
            invariant
                n <= count,
                models@.len() == n,
                forall|i: int| 0 <= i < n ==> (#[trigger] models@[i])@ == test_model_name((i + 1) as nat),
            decreases count - n,
        {
            models.push(numbered("nvidia/test-model-", n + 1));
            n = n + 1;
        }
        b.racing_models = models;
        b
    }

    /// The given racing models.
    pub fn with_custom_racing_models(self, models: Vec<String>) -> (b: Self)
        ensures
            b.racing_models_spec() == ids(models@),
            b.keys_spec() == self.keys_spec(),
            b.target_spec() == self.target_spec(),
            b.racing_spec() == self.racing_spec(),
            b.params_spec() == self.params_spec(),
            b.compat_spec() == self.compat_spec(),
    {
        let mut b = self;
        b.racing_models = models;
        b
    }

    /// The given number of racers at most.
    pub fn with_racing_max_parallel(self, max: usize) -> (b: Self)
        ensures
            b.racing_spec() == (max, self.racing_spec().1, self.racing_spec().2),
            b.keys_spec() == self.keys_spec(),
            b.target_spec() == self.target_spec(),
            b.racing_models_spec() == self.racing_models_spec(),
            b.params_spec() == self.params_spec(),
            b.compat_spec() == self.compat_spec(),
    {
        let mut b = self;
        b.racing_max_parallel = max;
        b
    }

    /// The given racing timeout.
    pub fn with_racing_timeout_ms(self, timeout: u64) -> (b: Self)
        ensures
            b.racing_spec() == (self.racing_spec().0, timeout, self.racing_spec().2),
            b.keys_spec() == self.keys_spec(),
            b.target_spec() == self.target_spec(),
            b.racing_models_spec() == self.racing_models_spec(),
            b.params_spec() == self.params_spec(),
            b.compat_spec() == self.compat_spec(),
    {
        let mut b = self;
        b.racing_timeout_ms = timeout;
        b
    }

    /// The given racing strategy.
    pub fn with_racing_strategy(self, strategy: &str) -> (b: Self)
        ensures
            b.racing_spec() == (self.racing_spec().0, self.racing_spec().1, strategy@),
            b.keys_spec() == self.keys_spec(),
            b.target_spec() == self.target_spec(),
            b.racing_models_spec() == self.racing_models_spec(),
            b.params_spec() == self.params_spec(),
            b.compat_spec() == self.compat_spec(),
    {
        let mut b = self;
        b.racing_strategy = strategy.to_owned();
        b
    }

    /// `params` for `model`, replacing what was set for it before.
    pub fn with_model_param(self, model: &str, params: ModelParams) -> (b: Self)
        ensures
            forall|id: Seq<char>| #[trigger] params_for(b.params_spec(), id)
                == if id == model@ { Some(params) } else { params_for(self.params_spec(), id) },
            b.keys_spec() == self.keys_spec(),
            b.target_spec() == self.target_spec(),
            b.racing_models_spec() == self.racing_models_spec(),
            b.racing_spec() == self.racing_spec(),
            b.compat_spec() == self.compat_spec(),
    {
        let ghost orig = self;
        let mut b = self;
        let ghost old_list = b.model_params@;
        let mut i: usize = 0;
        while i < b.model_params.len()
            invariant
                b == orig,
                self == orig,
                b.model_params@ == old_list,
                i <= old_list.len(),
                forall|j: int| 0 <= j < i ==> (#[trigger] old_list[j]).0@ != model@,
            decreases old_list.len() - i,
        {
            if text_eq(b.model_params[i].0.as_str(), model) {
                b.model_params.set(i, (model.to_owned(), params));
                proof {
                    let new_list = b.model_params@;
                    assert forall|j: int| 0 <= j < old_list.len() implies (#[trigger] old_list[j]).0@ == new_list[j].0@ by {}
                    assert forall|id: Seq<char>| #[trigger] params_for(new_list, id)
                        == if id == model@ { Some(params) } else { params_for(old_list, id) } by {
                        lemma_params_index_same_ids(old_list, new_list, id);
                        lemma_params_index(old_list, id);
                        if id == model@ {
                            assert(params_index(old_list, id) == i);
                        } else {
                            let k = params_index(old_list, id);
                            if k >= 0 {
                                assert(k != i);
                                assert(new_list[k] == old_list[k]);
                            }
                        }
                    }
                }
                return b;
            }
            i = i + 1;
        }
        b.model_params.push((model.to_owned(), params));
        proof {
            let new_list = b.model_params@;
            assert(new_list.drop_last() =~= old_list);
            assert forall|id: Seq<char>| #[trigger] params_for(new_list, id)
                == if id == model@ { Some(params) } else { params_for(old_list, id) } by {
                lemma_params_index(old_list, id);
                let k = params_index(old_list, id);
                if id == model@ {
                    assert(k < 0);
                } else if k >= 0 {
                    assert(new_list[k] == old_list[k]);
                }
            }
        }
        b
    }

    /// The given compatibility lists.
    pub fn with_model_compat(self, compat: ModelCompat) -> (b: Self)
        ensures
            b.compat_spec() == compat,
            b.keys_spec() == self.keys_spec(),
            b.target_spec() == self.target_spec(),
            b.racing_models_spec() == self.racing_models_spec(),
            b.racing_spec() == self.racing_spec(),
            b.params_spec() == self.params_spec(),
    {
        let mut b = self;
        b.model_compat = compat;
        b
    }

    /// The state: the set keys, target, racing settings, parameters and compatibility
    /// lists, no router, and an empty statistics store with a 5000 ms spike threshold.
    pub fn build(self) -> (st: AppState)
        ensures
            st.wf(),
            st.pool.n() == self.keys_spec().len(),
            st.target@ == self.target_spec(),
            st.router is None,
            st.model_stats.threshold() == 5000,
            st.model_stats.stats().dom().len() == 0,
            ids(st.racing_models@) == self.racing_models_spec(),
            st.racing_max_parallel == self.racing_spec().0,
            st.racing_timeout_ms == self.racing_spec().1,
            st.racing_strategy@ == self.racing_spec().2,
            st.model_params@ == self.params_spec(),
            st.model_compat == self.compat_spec(),
    {
        let stats = ModelStatsStore::new(5000);
        AppState::new(
            self.keys,
            self.target,
            None,
            stats,
            self.racing_models,
            self.racing_max_parallel,
            self.racing_timeout_ms,
            self.racing_strategy,
            self.model_params,
            self.model_compat,
        )
    }
}

impl Default for MockAppStateBuilder {
    /// The same as [`MockAppStateBuilder::new`].
    fn default() -> (b: Self)
        ensures
            b.keys_spec().len() == 1,
            b.target_spec() == "http://127.0.0.1:8080"@,
            b.racing_models_spec().len() == 0,
            b.racing_spec() == (3usize, 5000u64, "round-robin"@),
            b.params_spec().len() == 0,
    {
        Self::new()
    }
}

/// A state from the builder's defaults.
pub fn create_test_state() -> (st: AppState)
    ensures
        st.wf(),
        st.pool.n() == 1,
        st.target@ == "http://127.0.0.1:8080"@,
        st.racing_models@.len() == 0,
        st.racing_max_parallel == 3,
        st.racing_timeout_ms == 5000,
        st.racing_strategy@ == "round-robin"@,
{
    let st = MockAppStateBuilder::new().build();
    assert(ids(st.racing_models@).len() == st.racing_models@.len());
    st
}

/// A state with `key_count` generated keys.
pub fn create_test_key_pool(key_count: usize) -> (st: AppState)
    ensures
        st.wf(),
        st.pool.n() == key_count,
{
    MockAppStateBuilder::new().with_keys(key_count).build()
}

/// A state with `model_count` generated racing models.
pub fn create_test_model_stats(model_count: usize) -> (st: AppState)
    ensures
        st.wf(),
        ids(st.racing_models@).len() == model_count,
        forall|i: int| 0 <= i < model_count ==> #[trigger] ids(st.racing_models@)[i] == test_model_name((i + 1) as nat),
{
    MockAppStateBuilder::new().with_racing_models(model_count).build()
}

/// A state with `model_count` generated racing models and `parallel` racers at most.
pub fn create_racing_scenario(model_count: usize, parallel: usize) -> (st: AppState)
    ensures
        st.wf(),
        ids(st.racing_models@).len() == model_count,
        forall|i: int| 0 <= i < model_count ==> #[trigger] ids(st.racing_models@)[i] == test_model_name((i + 1) as nat),
        st.racing_max_parallel == parallel,
{
    MockAppStateBuilder::new().with_racing_models(model_count).with_racing_max_parallel(parallel).build()
}

/// A state racing `models`, each configured with `max_tokens`.
pub fn create_model_with_params(models: Vec<&str>, max_tokens: i32) -> (st: AppState)
    ensures
        st.wf(),
        st.racing_models@.len() == models@.len(),
        forall|i: int| 0 <= i < models@.len() ==> (#[trigger] st.racing_models@[i])@ == models@[i]@,
        forall|i: int| 0 <= i < models@.len() ==> only_max_tokens(#[trigger] params_for(st.model_params@, models@[i]@), max_tokens),
{
    let mut names: Vec<String> = Vec::new();
    let mut i: usize = 0;
    while i < models.len()
        invariant
            i <= models@.len(),
            names@.len() == i,
            forall|k: int| 0 <= k < i ==> (#[trigger] names@[k])@ == models@[k]@,
        decreases models@.len() - i,
    {
        names.push(models[i].to_owned());
        i = i + 1;
    }
    let mut builder = MockAppStateBuilder::new().with_custom_racing_models(names);
    let ghost racing = builder.racing_models_spec();
    let mut j: usize = 0;
    while j < models.len()
        invariant
            j <= models@.len(),
            builder.racing_models_spec() == racing,
            racing.len() == models@.len(),
            forall|k: int| 0 <= k < models@.len() ==> #[trigger] racing[k] == models@[k]@,
            forall|k: int| 0 <= k < j ==> only_max_tokens(#[trigger] params_for(builder.params_spec(), models@[k]@), max_tokens),
        decreases models@.len() - j,
    {
        let mut p = ModelParams::default();
        p.max_tokens = Some(Json::Number(signed_decimal_string(max_tokens)));
        let ghost pv = p;
        let ghost before = builder.params_spec();
        builder = builder.with_model_param(models[j], p);
        proof {
            assert forall|k: int| 0 <= k < j + 1 implies only_max_tokens(#[trigger] params_for(builder.params_spec(), models@[k]@), max_tokens) by {
                if models@[k]@ != models@[j as int]@ {
                    assert(params_for(builder.params_spec(), models@[k]@) == params_for(before, models@[k]@));
                } else {
                    assert(params_for(builder.params_spec(), models@[k]@) == Some(pv));
                }
            }
        }
        j = j + 1;
    }
    let st = builder.build();
    proof {
        assert forall|k: int| 0 <= k < models@.len() implies (#[trigger] st.racing_models@[k])@ == models@[k]@ by {
            assert(ids(st.racing_models@)[k] == racing[k]);
        }
    }
    st
}

/// A state racing with the given strategy.
pub fn create_strategy_test(strategy: &str) -> (st: AppState)
    ensures
        st.wf(),
        st.racing_strategy@ == strategy@,
{
    MockAppStateBuilder::new().with_racing_strategy(strategy).build()
}

} // verus!
