use ankaios_core::cycle_check::dfs_all_workloads;
use ankaios_core::doc::{parse_index, parse_path};
use ankaios_core::objects::{DeleteCondition, WorkloadSpec};
use ankaios_core::server_state::UpdateStateError;
use ankaios_core::state::State;

fn spec_with_deps(name: &str, deps: &[&str]) -> WorkloadSpec {
    WorkloadSpec {
        name: name.to_string(),
        agent: "agent_A".to_string(),
        runtime: "runtime".to_string(),
        runtime_config: String::new(),
        dependencies: deps
            .iter()
            .map(|d| (d.to_string(), DeleteCondition::DelCondRunning))
            .collect(),
        tags: Vec::new(),
        restart: false,
    }
}

#[test]
fn utest_parse_path_splits_and_drops_empty_segments() {
    let segs = parse_path(&"currentState.workloads.workload_1".to_string());
    assert_eq!(segs, vec!["currentState".to_string(), "workloads".to_string(), "workload_1".to_string()]);

    let segs = parse_path(&"a..b.".to_string());
    assert_eq!(segs, vec!["a".to_string(), "b".to_string()]);

    let segs = parse_path(&"".to_string());
    assert_eq!(segs, Vec::<String>::new());
}

#[test]
fn utest_parse_index_reads_digit_segments() {
    assert_eq!(parse_index(&"0".to_string()), Some(0));
    assert_eq!(parse_index(&"007".to_string()), Some(7));
    assert_eq!(parse_index(&"42".to_string()), Some(42));
    assert_eq!(parse_index(&"x1".to_string()), None);
    assert_eq!(parse_index(&"".to_string()), None);
}

#[test]
fn utest_update_state_error_messages() {
    assert_eq!(
        UpdateStateError::FieldNotFound("f".to_string()).message(),
        "Could not find field f".to_string()
    );
    assert_eq!(
        UpdateStateError::ResultInvalid("broken".to_string()).message(),
        "Resulting State is invalid, reason: 'broken'".to_string()
    );
    assert_eq!(
        UpdateStateError::CycleInDependencies("w".to_string()).message(),
        "workload dependency 'w' is part of a cycle.".to_string()
    );
}

#[test]
fn utest_dfs_all_workloads_scans_every_workload() {
    // a two-node cycle is found without naming any start node
    let mut cyclic = State::new();
    cyclic.add("a".to_string(), spec_with_deps("a", &["b"]));
    cyclic.add("b".to_string(), spec_with_deps("b", &["a"]));
    assert!(dfs_all_workloads(&cyclic).is_some());

    // a chain is clean
    let mut chain = State::new();
    chain.add("a".to_string(), spec_with_deps("a", &["b"]));
    chain.add("b".to_string(), spec_with_deps("b", &[]));
    assert!(dfs_all_workloads(&chain).is_none());
}
