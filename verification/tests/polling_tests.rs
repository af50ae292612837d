use ankaios_core::objects::{ExecutionState, WorkloadState};
use ankaios_core::polling::PollingChecker;

const AGENT_NAME: &str = "agent_x";
const WORKLOAD_1_NAME: &str = "workload1";

#[test]
fn utest_generic_polling_state_checker_success() {
    let mut checker = PollingChecker::new(AGENT_NAME.to_string(), WORKLOAD_1_NAME.to_string());

    // the getter answers `Running` on every poll; two polling intervals pass
    let mut reports: Vec<WorkloadState> = Vec::new();
    for _ in 0..2 {
        let outcome = checker.observe(ExecutionState::ExecRunning);
        if let Some(report) = outcome.report {
            reports.push(report);
        }
        assert!(!outcome.terminate);
    }

    let expected_state = vec![WorkloadState {
        workload_name: WORKLOAD_1_NAME.to_string(),
        agent_name: AGENT_NAME.to_string(),
        execution_state: ExecutionState::ExecRunning,
    }];
    assert_eq!(reports, expected_state);
}

#[test]
fn utest_polling_state_checker_removed_terminates() {
    let mut checker = PollingChecker::new(AGENT_NAME.to_string(), WORKLOAD_1_NAME.to_string());

    let outcome = checker.observe(ExecutionState::ExecRemoved);
    let report = outcome.report.unwrap();
    assert_eq!(report.execution_state, ExecutionState::ExecRemoved);
    assert!(outcome.terminate);

    // once removed has been reported, a stable state stays silent
    let outcome = checker.observe(ExecutionState::ExecRemoved);
    assert!(outcome.report.is_none());
}

#[test]
fn utest_polling_state_checker_stable_state_stays_silent() {
    let mut checker = PollingChecker::new(AGENT_NAME.to_string(), WORKLOAD_1_NAME.to_string());

    let mut count = 0;
    let states = [
        ExecutionState::ExecPending,
        ExecutionState::ExecPending,
        ExecutionState::ExecRunning,
        ExecutionState::ExecRunning,
        ExecutionState::ExecRunning,
        ExecutionState::ExecSucceeded,
    ];
    for s in states {
        if checker.observe(s).report.is_some() {
            count += 1;
        }
    }
    // one report per distinct transition: Pending, Running, Succeeded
    assert_eq!(count, 3);
}
