//! Counters of running A/B experiments. Which variant to show is a policy of
//! the host; the engine keeps impressions and conversions per variant.
use vstd::prelude::*;
use crate::value::{owned, str_eq, Value, ValueModel};

verus! {

#[derive(Clone, Copy, Debug, PartialEq, Eq, Structural)]
pub enum ExperimentStatus {
    Active,
    Paused,
    Completed,
}

/// One variant of an experiment and its counters.
#[derive(Debug)]
pub struct Variant {
    pub id: String,
    pub conversions: u32,
    pub impressions: u32,
    pub styles_override: Value,
}

/// An experiment on one element.
#[derive(Debug)]
pub struct Experiment {
    pub id: String,
    pub element_id: String,
    pub variants: Vec<Variant>,
    pub status: ExperimentStatus,
}

/// Which counter an outcome bumps.
pub open spec fn first_with_id_exp(es: Seq<Experiment>, id: Seq<char>) -> Option<int> {
    if exists|i: int| 0 <= i < es.len() && es[i].id@ == id {
        Some(choose|i: int| 0 <= i < es.len() && es[i].id@ == id && forall|j: int| 0 <= j < i ==> es[j].id@ != id)
    } else {
        None
    }
}

pub open spec fn first_with_id_var(vs: Seq<Variant>, id: Seq<char>) -> Option<int> {
    if exists|i: int| 0 <= i < vs.len() && vs[i].id@ == id {
        Some(choose|i: int| 0 <= i < vs.len() && vs[i].id@ == id && forall|j: int| 0 <= j < i ==> vs[j].id@ != id)
    } else {
        None
    }
}

pub open spec fn bumped(n: u32) -> u32 {
    if n == u32::MAX { n } else { (n + 1) as u32 }
}

/// The counters of every experiment, by position: (impressions, conversions)
/// of each variant.
pub open spec fn counters(es: Seq<Experiment>) -> Seq<Seq<(u32, u32)>> {
    es.map_values(|e: Experiment| e.variants@.map_values(|v: Variant| (v.impressions, v.conversions)))
}

/// Everything of the experiments but the counters: each experiment's id,
/// element and status, and each variant's id and style override.
pub open spec fn shape(es: Seq<Experiment>) -> Seq<(Seq<char>, Seq<char>, ExperimentStatus, Seq<(Seq<char>, ValueModel)>)> {
    es.map_values(
        |e: Experiment|
            (e.id@, e.element_id@, e.status, e.variants@.map_values(|v: Variant| (v.id@, v.styles_override@))),
    )
}

/// The counters after one outcome for variant (i, j), or unchanged when none.
pub open spec fn after_outcome(c: Seq<Seq<(u32, u32)>>, at: Option<(int, int)>, conversion: bool) -> Seq<Seq<(u32, u32)>> {
    match at {
        Some((i, j)) => c.update(i, c[i].update(j, if conversion {
            (c[i][j].0, bumped(c[i][j].1))
        } else {
            (bumped(c[i][j].0), c[i][j].1)
        })),
        None => c,
    }
}

/// Running experiments.
#[derive(Debug)]
pub struct AutonomousEngine {
    pub experiments: Vec<Experiment>,
}

fn find_experiment(es: &Vec<Experiment>, id: &str) -> (r: Option<usize>)
    ensures
        r matches Some(i) ==> first_with_id_exp(es@, id@) == Some(i as int) && i < es@.len()
            && es@[i as int].id@ == id@ && forall|j: int| 0 <= j < i ==> es@[j].id@ != id@,
        r is None ==> first_with_id_exp(es@, id@) is None && forall|j: int| 0 <= j < es@.len() ==> es@[j].id@ != id@,
{
    let mut i: usize = 0;
    while i < es.len()
        invariant
            i <= es@.len(),
            forall|j: int| 0 <= j < i ==> es@[j].id@ != id@,
        decreases es@.len() - i,
    {
        if str_eq(es[i].id.as_str(), id) {
            proof {
                let c = choose|c: int| 0 <= c < es@.len() && es@[c].id@ == id@ && forall|j: int| 0 <= j < c ==> es@[j].id@ != id@;
                assert(c == i) by {
                    if c > i {
                        assert(es@[i as int].id@ == id@);
                    }
                }
            }
            return Some(i);
        }
        i = i + 1;
    }
    None
}

fn find_variant(vs: &Vec<Variant>, id: &str) -> (r: Option<usize>)
    ensures
        r matches Some(i) ==> first_with_id_var(vs@, id@) == Some(i as int) && i < vs@.len(),
        r is None ==> first_with_id_var(vs@, id@) is None,
{
    let mut i: usize = 0;
    while i < vs.len()
        invariant
            i <= vs@.len(),
            forall|j: int| 0 <= j < i ==> vs@[j].id@ != id@,
        decreases vs@.len() - i,
    {
        if str_eq(vs[i].id.as_str(), id) {
            proof {
                let c = choose|c: int| 0 <= c < vs@.len() && vs@[c].id@ == id@ && forall|j: int| 0 <= j < c ==> vs@[j].id@ != id@;
                assert(c == i) by {
                    if c > i {
                        assert(vs@[i as int].id@ == id@);
                    }
                }
            }
            return Some(i);
        }
        i = i + 1;
    }
    None
}

impl AutonomousEngine {
    pub fn new() -> (r: AutonomousEngine)
        ensures
            r.experiments@.len() == 0,
    {
        AutonomousEngine { experiments: Vec::new() }
    }

    /// Where an outcome for (experiment, variant) lands.
    pub open spec fn slot(&self, experiment_id: Seq<char>, variant_id: Seq<char>) -> Option<(int, int)> {
        match first_with_id_exp(self.experiments@, experiment_id) {
            Some(i) => match first_with_id_var(self.experiments@[i].variants@, variant_id) {
                Some(j) => Some((i, j)),
                None => None,
            },
            None => None,
        }
    }

    fn record(&mut self, experiment_id: &str, variant_id: &str, conversion: bool)
        ensures
            shape(final(self).experiments@) == shape(old(self).experiments@),
            final(self).experiments@.len() == old(self).experiments@.len(),
            counters(final(self).experiments@) == after_outcome(
                counters(old(self).experiments@),
                old(self).slot(experiment_id@, variant_id@),
                conversion,
            ),
    {
        let i = match find_experiment(&self.experiments, experiment_id) {
            Some(i) => i,
            None => return,
        };
        let j = match find_variant(&self.experiments[i].variants, variant_id) {
            Some(j) => j,
            None => return,
        };
        let ghost c0 = counters(self.experiments@);
        let mut e = self.experiments.remove(i);
        let mut v = e.variants.remove(j);
        if conversion {
            v.conversions = if v.conversions == u32::MAX { v.conversions } else { v.conversions + 1 };
        } else {
            v.impressions = if v.impressions == u32::MAX { v.impressions } else { v.impressions + 1 };
        }
        e.variants.insert(j, v);
        self.experiments.insert(i, e);
        proof {
            let c1 = counters(self.experiments@);
            let want = after_outcome(c0, Some((i as int, j as int)), conversion);
            assert forall|k: int| 0 <= k < c1.len() implies #[trigger] c1[k] =~= want[k] by {
                if k == i {
                    assert forall|l: int| 0 <= l < c1[k].len() implies c1[k][l] == want[k][l] by {}
                }
            }
            assert(c1 =~= want);
            let s0 = shape(old(self).experiments@);
            let s1 = shape(self.experiments@);
            assert forall|k: int| 0 <= k < s1.len() implies #[trigger] s1[k] == s0[k] by {
                if k == i {
                    assert(s1[k].3 =~= s0[k].3);
                }
            }
            assert(s1 =~= s0);
        }
    }

    /// Counts one showing of a variant; unknown ids change nothing.
    pub fn record_impression(&mut self, experiment_id: &str, variant_id: &str)
        ensures
            shape(final(self).experiments@) == shape(old(self).experiments@),
            counters(final(self).experiments@) == after_outcome(
                counters(old(self).experiments@),
                old(self).slot(experiment_id@, variant_id@),
                false,
            ),
    {
        self.record(experiment_id, variant_id, false);
    }

    /// Counts one conversion of a variant; unknown ids change nothing.
    pub fn record_conversion(&mut self, experiment_id: &str, variant_id: &str)
        ensures
            shape(final(self).experiments@) == shape(old(self).experiments@),
            counters(final(self).experiments@) == after_outcome(
                counters(old(self).experiments@),
                old(self).slot(experiment_id@, variant_id@),
                true,
            ),
    {
        self.record(experiment_id, variant_id, true);
    }

    /// Starts an experiment, replacing one with the same id.
    pub fn create_experiment(&mut self, id: &str, element_id: &str, variants: Vec<Variant>)
        ensures
            exists|k: int|
                0 <= k < final(self).experiments@.len() && #[trigger] final(self).experiments@[k].id@ == id@
                    && (forall|j: int| 0 <= j < k ==> final(self).experiments@[j].id@ != id@)
                    && final(self).experiments@[k].element_id@ == element_id@
                    && final(self).experiments@[k].variants == variants
                    && final(self).experiments@[k].status == ExperimentStatus::Active
                    && final(self).experiments@.len() == (if k < old(self).experiments@.len() {
                    old(self).experiments@.len() as int
                } else {
                    old(self).experiments@.len() + 1int
                })
                    && forall|j: int|
                    0 <= j < old(self).experiments@.len() && j != k ==> final(self).experiments@[j]
                        == old(self).experiments@[j],
    {
        let e = Experiment { id: owned(id), element_id: owned(element_id), variants, status: ExperimentStatus::Active };
        match find_experiment(&self.experiments, id) {
            Some(i) => {
                self.experiments.set(i, e);
                assert(self.experiments@[i as int].id@ == id@);
            },
            None => {
                let n = self.experiments.len();
                self.experiments.push(e);
                assert(self.experiments@[n as int].id@ == id@);
            },
        }
    }
}

} // verus!
