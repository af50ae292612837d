//! The decision core of the generic polling state checker: given the last
//! reported execution state and a fresh observation, decide whether to send
//! a report and whether the checker is done. The surrounding task plumbing
//! (timers, channels) lives outside the library and feeds observations in.
use vstd::prelude::*;

use crate::objects::{ExecutionState, WorkloadState, WorkloadStateView};

verus! {

/// What one observation step decided: the report to send, if any, and
/// whether the checker terminates.
pub struct PollOutcome {
    pub report: Option<WorkloadState>,
    pub terminate: bool,
}

/// The per-workload state of a polling checker: whom it reports for and the
/// last execution state it reported. A fresh checker has reported nothing,
/// so it holds `ExecUnknown` and the first real observation is always sent.
pub struct PollingChecker {
    pub agent_name: String,
    pub workload_name: String,
    pub last_state: ExecutionState,
}

impl PollingChecker {
    /// A fresh checker for one workload.
    pub fn new(agent_name: String, workload_name: String) -> (r: PollingChecker)
        ensures
            r.agent_name@ == agent_name@,
            r.workload_name@ == workload_name@,
            r.last_state == ExecutionState::ExecUnknown,
    {
        PollingChecker { agent_name, workload_name, last_state: ExecutionState::ExecUnknown }
    }

    /// Takes one observation: a report goes out exactly when the state
    /// differs from the last reported one, and a reported `ExecRemoved`
    /// terminates the checker.
    pub fn observe(&mut self, current: ExecutionState) -> (r: PollOutcome)
        ensures
            current == old(self).last_state ==> r.report is None && *final(self) == *old(self)
                && !r.terminate,
            current != old(self).last_state ==> (r.report matches Some(w) && w@ == (
            WorkloadStateView {
                agent_name: old(self).agent_name@,
                workload_name: old(self).workload_name@,
                execution_state: current,
            })) && final(self).last_state == current && final(self).agent_name == old(
                self,
            ).agent_name && final(self).workload_name == old(self).workload_name,
            r.terminate == (current != old(self).last_state && current
                == ExecutionState::ExecRemoved),
    {
        if current == self.last_state {
            PollOutcome { report: None, terminate: false }
        } else {
            self.last_state = current;
            let report = WorkloadState {
                agent_name: self.agent_name.clone(),
                workload_name: self.workload_name.clone(),
                execution_state: current,
            };
            PollOutcome {
                report: Some(report),
                terminate: current == ExecutionState::ExecRemoved,
            }
        }
    }
}

} // verus!
