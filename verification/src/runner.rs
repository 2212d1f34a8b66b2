//! Batch driver: holds a list of named scenarios and runs one
//! propagation over each in turn.

use vstd::prelude::*;
use crate::block::Block;
use crate::engine::{run_outcome, PropagationReport, SimulationEngine};
use crate::scenario::SimulationScenario;

verus! {

/// One named scenario held by the runner.
pub struct Scenario {
    /// Label used when the caller prints results.
    pub name: String,
    /// The graph the propagation will run over.
    pub scenario: SimulationScenario,
}

/// Collects scenarios and runs a block through each of them.
pub struct ScenarioRunner {
    /// The scenarios, in the order they were added.
    pub scenarios: Vec<Scenario>,
}

impl ScenarioRunner {
    /// A runner holding no scenarios yet.
    pub fn new() -> (r: ScenarioRunner)
        ensures
            r.scenarios@ == Seq::<Scenario>::empty(),
    {
        ScenarioRunner { scenarios: Vec::new() }
    }

    /// Appends one named scenario, builder style.
    pub fn add_scenario(self, name: &str, scenario: SimulationScenario) -> (r: ScenarioRunner)
        ensures
            r.scenarios@.len() == self.scenarios@.len() + 1,
            r.scenarios@.subrange(0, self.scenarios@.len() as int) == self.scenarios@,
            r.scenarios@.last().name@ == name@,
            r.scenarios@.last().scenario == scenario,
    {
        let mut s = self;
        s.scenarios.push(Scenario { name: name.to_owned(), scenario });
        proof {
            assert(s.scenarios@.subrange(0, s.scenarios@.len() - 1) =~= self.scenarios@);
        }
        s
    }

    /// Runs `block` once through every scenario, entering each at its
    /// first registered node, and returns one report per scenario, in
    /// order. A scenario with no nodes is left untouched and reported
    /// as zero reached out of zero.
    pub fn run_all(&mut self, block: &Block) -> (reports: Vec<PropagationReport>)
        requires
            forall|j: int|
                0 <= j < old(self).scenarios@.len()
                    ==> (#[trigger] old(self).scenarios@[j]).scenario.wf(),
        ensures
            final(self).scenarios@.len() == old(self).scenarios@.len(),
            reports@.len() == old(self).scenarios@.len(),
            forall|j: int|
                0 <= j < old(self).scenarios@.len()
                    ==> (#[trigger] final(self).scenarios@[j]).name == old(
                    self,
                ).scenarios@[j].name,
            forall|j: int|
                0 <= j < old(self).scenarios@.len()
                    ==> (#[trigger] final(self).scenarios@[j]).scenario.wf(),
            forall|j: int|
                0 <= j < old(self).scenarios@.len()
                    && old(self).scenarios@[j].scenario.nodes@.len() > 0 ==> run_outcome(
                    old(self).scenarios@[j].scenario,
                    (#[trigger] final(self).scenarios@[j]).scenario,
                    block.id@,
                    old(self).scenarios@[j].scenario.nodes@[0].id@,
                    reports@[j],
                ),
            forall|j: int|
                0 <= j < old(self).scenarios@.len()
                    && old(self).scenarios@[j].scenario.nodes@.len() == 0
                    ==> (#[trigger] final(self).scenarios@[j]).scenario == old(
                    self,
                ).scenarios@[j].scenario && reports@[j].reached == 0 && reports@[j].total == 0
                    && reports@[j].visits@.len() == 0,
    {
        let ghost bid = block.id@;
        let mut reports: Vec<PropagationReport> = Vec::new();
        let m = self.scenarios.len();
        let mut k: usize = 0;
        while k < m
            invariant
                bid == block.id@,
                m == old(self).scenarios@.len(),
                self.scenarios@.len() == m,
                k <= m,
                reports@.len() == k,
                forall|j: int|
                    0 <= j < old(self).scenarios@.len()
                        ==> (#[trigger] old(self).scenarios@[j]).scenario.wf(),
                forall|j: int|
                    k <= j < m ==> (#[trigger] self.scenarios@[j]) == old(self).scenarios@[j],
                forall|j: int|
                    0 <= j < m
                        ==> (#[trigger] self.scenarios@[j]).name == old(self).scenarios@[j].name,
                forall|j: int|
                    0 <= j < m ==> (#[trigger] self.scenarios@[j]).scenario.wf(),
                forall|j: int|
                    0 <= j < k && old(self).scenarios@[j].scenario.nodes@.len() > 0
                        ==> run_outcome(
                        old(self).scenarios@[j].scenario,
                        (#[trigger] self.scenarios@[j]).scenario,
                        bid,
                        old(self).scenarios@[j].scenario.nodes@[0].id@,
                        reports@[j],
                    ),
                forall|j: int|
                    0 <= j < k && old(self).scenarios@[j].scenario.nodes@.len() == 0
                        ==> (#[trigger] self.scenarios@[j]).scenario == old(
                        self,
                    ).scenarios@[j].scenario,
                forall|j: int|
                    0 <= j < k && old(self).scenarios@[j].scenario.nodes@.len() == 0
                        ==> (#[trigger] reports@[j]).reached == 0,
                forall|j: int|
                    0 <= j < k && old(self).scenarios@[j].scenario.nodes@.len() == 0
                        ==> (#[trigger] reports@[j]).total == 0,
                forall|j: int|
                    0 <= j < k && old(self).scenarios@[j].scenario.nodes@.len() == 0
                        ==> (#[trigger] reports@[j]).visits@.len() == 0,
            decreases m - k,
        {
            if self.scenarios[k].scenario.nodes.len() == 0 {
                proof {
                    assert(self.scenarios@[k as int] == old(self).scenarios@[k as int]);
                    assert(old(self).scenarios@[k as int].scenario.nodes@.len() == 0);
                }
                reports.push(PropagationReport { reached: 0, total: 0, visits: Vec::new() });
                proof {
                    assert(reports@[k as int].visits@.len() == 0);
                    assert(reports@[k as int].reached == 0);
                    assert(reports@[k as int].total == 0);
                }
            } else {
                let entry = self.scenarios[k].scenario.nodes[0].id.clone();
                let ghost pre = self.scenarios@[k as int].scenario;
                let res = SimulationEngine::run(
                    &mut self.scenarios[k].scenario,
                    block,
                    entry.as_str(),
                );
                match res {
                    Ok(rep) => {
                        reports.push(rep);
                    },
                    Err(_) => {
                        proof {
                            assert(pre.nodes@[0].id@ == entry@);
                            assert(pre.has_id(entry@));
                            assert(false);
                        }
                        reports.push(
                            PropagationReport { reached: 0, total: 0, visits: Vec::new() },
                        );
                    },
                }
            }
            k += 1;
        }
        reports
    }
}

} // verus!
