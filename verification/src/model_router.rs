use vstd::prelude::*;
use crate::model_stats::ModelStatsStore;
use crate::text::text_eq;

verus! {

/// How the router picks a model.
#[derive(Clone, Copy, Debug, PartialEq, Eq, Structural)]
pub enum Strategy {
    /// Cycle through the models in order, ignoring latency data.
    RoundRobin,
    /// Defer to [`ModelStatsStore::best_model`].
    LatencyAware,
}

/// The strategy a configuration name selects: `latency_aware` or `latency-aware` select
/// latency-aware routing, anything else round robin.
pub open spec fn strategy_named(s: Seq<char>) -> Strategy {
    if s == "latency_aware"@ || s == "latency-aware"@ {
        Strategy::LatencyAware
    } else {
        Strategy::RoundRobin
    }
}

impl Strategy {
    /// Parses a strategy name (see [`strategy_named`]).
    pub fn from_str(s: &str) -> (r: Self)
        ensures
            r == strategy_named(s@),
    {
        if text_eq(s, "latency_aware") || text_eq(s, "latency-aware") {
            Strategy::LatencyAware
        } else {
            Strategy::RoundRobin
        }
    }
}

/// Routes incoming requests to a configured model list.
pub struct ModelRouter {
    pub models: Vec<String>,
    rr_index: usize,
    strategy: Strategy,
}

impl ModelRouter {
    /// The configured model ids, in order.
    pub closed spec fn model_ids(&self) -> Seq<Seq<char>> {
        self.models@.map_values(|c: String| c@)
    }

    /// The configured models, in order.
    pub fn model_list(&self) -> (r: &[String])
        ensures
            r@.map_values(|c: String| c@) == self.model_ids(),
    {
        self.models.as_slice()
    }

    /// Position of the next round-robin pick, before reduction modulo the model count.
    pub closed spec fn cursor(&self) -> usize {
        self.rr_index
    }

    /// The configured strategy.
    pub closed spec fn strategy_spec(&self) -> Strategy {
        self.strategy
    }

    /// The model the next pick returns: none without models; else the model at the cursor
    /// (round robin) or the one [`ModelStatsStore::best_pick`] chooses, else the first
    /// (latency-aware).
    pub open spec fn choice(&self, stats: ModelStatsStore) -> Option<Seq<char>> {
        if self.model_ids().len() == 0 {
            None
        } else if self.strategy_spec() == Strategy::RoundRobin {
            Some(self.model_ids()[(self.cursor() as int) % (self.model_ids().len() as int)])
        } else {
            match stats.best_pick(self.model_ids()) {
                Some(i) => Some(self.model_ids()[i]),
                None => Some(self.model_ids()[0]),
            }
        }
    }

    /// A router over `models` with the round-robin cursor at the start.
    pub fn new(models: Vec<String>, strategy: Strategy) -> (r: Self)
        ensures
            r.model_ids() == models@.map_values(|c: String| c@),
            r.cursor() == 0,
            r.strategy_spec() == strategy,
    {
        ModelRouter { models, rr_index: 0, strategy }
    }

    /// The configured strategy.
    pub fn strategy(&self) -> (s: Strategy)
        ensures
            s == self.strategy_spec(),
    {
        self.strategy
    }

    /// Picks a model for the next request: `None` only when the model list is empty.
    /// Round robin takes the model at the cursor (modulo the model count) and advances the
    /// cursor, wrapping at `usize::MAX`; latency-aware routing takes the model
    /// [`ModelStatsStore::best_pick`] chooses, or the first model when it chooses none.
    pub fn pick(&mut self, stats: &ModelStatsStore) -> (r: Option<String>)
        requires
            stats.wf(),
        ensures
            final(self).model_ids() == old(self).model_ids(),
            final(self).strategy_spec() == old(self).strategy_spec(),
            match r {
                Some(m) => old(self).choice(*stats) == Some(m@),
                None => old(self).choice(*stats) is None,
            },
            old(self).model_ids().len() == 0 ==> r is None && final(self).cursor() == old(self).cursor(),
            old(self).model_ids().len() > 0 && old(self).strategy_spec() == Strategy::RoundRobin ==> {
                &&& r matches Some(m) && m@ == old(self).model_ids()[(old(self).cursor() as int) % (old(self).model_ids().len() as int)]
                &&& final(self).cursor() == (if old(self).cursor() == usize::MAX { 0 } else { old(self).cursor() + 1 })
            },
            old(self).model_ids().len() > 0 && old(self).strategy_spec() == Strategy::LatencyAware ==> {
                &&& final(self).cursor() == old(self).cursor()
                &&& r matches Some(m) && m@ == (match stats.best_pick(old(self).model_ids()) {
                    Some(i) => old(self).model_ids()[i],
                    None => old(self).model_ids()[0],
                })
            },
    {
        if self.models.len() == 0 {
            return None;
        }
        match self.strategy {
            Strategy::RoundRobin => {
                let idx = self.rr_index % self.models.len();
                self.rr_index = self.rr_index.wrapping_add(1);
                Some(self.models[idx].clone())
            },
            Strategy::LatencyAware => {
                proof { stats.lemma_best_pick_in_range(self.model_ids()); }
                match stats.best_model(self.models.as_slice()) {
                    Some(m) => Some(m),
                    None => Some(self.models[0].clone()),
                }
            },
        }
    }
}

impl ModelRouter {
    /// Round robin cycles: after one pick, the next pick is the model after the one just
    /// picked, wrapping to the first after the last.
    pub proof fn law_round_robin_cycles(r: ModelRouter, r2: ModelRouter, stats: ModelStatsStore)
        requires
            r.strategy_spec() == Strategy::RoundRobin,
            r.model_ids().len() > 0,
            r.cursor() < usize::MAX,
            r2.model_ids() == r.model_ids(),
            r2.strategy_spec() == r.strategy_spec(),
            r2.cursor() == r.cursor() + 1,
        ensures
            ({
                let n = r.model_ids().len() as int;
                let i = (r.cursor() as int) % n;
                &&& r.choice(stats) == Some(r.model_ids()[i])
                &&& r2.choice(stats) == Some(r.model_ids()[if i + 1 == n { 0 } else { i + 1 }])
            }),
    {
        let n = r.model_ids().len() as int;
        let c = r.cursor() as int;
        vstd::arithmetic::div_mod::lemma_add_mod_noop(c, 1, n);
        if n == 1 {
            vstd::arithmetic::div_mod::lemma_mod_self_0(1);
        } else {
            vstd::arithmetic::div_mod::lemma_small_mod(1, n as nat);
        }
        vstd::arithmetic::div_mod::lemma_mod_bound(c, n);
        if c % n + 1 == n {
            vstd::arithmetic::div_mod::lemma_mod_self_0(n);
        } else {
            vstd::arithmetic::div_mod::lemma_small_mod((c % n + 1) as nat, n as nat);
        }
    }
}

impl ModelRouter {
    /// The model the next pick would return, without picking it (see
    /// [`ModelRouter::choice`]).
    pub fn peek(&self, stats: &ModelStatsStore) -> (r: Option<String>)
        requires
            stats.wf(),
        ensures
            match r {
                Some(m) => self.choice(*stats) == Some(m@),
                None => self.choice(*stats) is None,
            },
    {
        if self.models.len() == 0 {
            return None;
        }
        match self.strategy {
            Strategy::RoundRobin => {
                let idx = self.rr_index % self.models.len();
                Some(self.models[idx].clone())
            },
            Strategy::LatencyAware => {
                proof { stats.lemma_best_pick_in_range(self.model_ids()); }
                match stats.best_model(self.models.as_slice()) {
                    Some(m) => Some(m),
                    None => Some(self.models[0].clone()),
                }
            },
        }
    }
}

} // verus!
