use ankaios_core::objects::{DeleteCondition, DeletedWorkload, ExecutionState, Tag, WorkloadSpec, WorkloadState};
use ankaios_core::server_state::{ServerState, UpdateStateError};
use ankaios_core::state::{CompleteState, CompleteStateRequest, State};
use ankaios_core::workload_state_db::WorkloadStateDB;

const AGENT_A: &str = "agent_A";
const AGENT_B: &str = "agent_B";
const WORKLOAD_NAME_1: &str = "workload_1";
const WORKLOAD_NAME_2: &str = "workload_2";
const WORKLOAD_NAME_3: &str = "workload_3";
const WORKLOAD_NAME_4: &str = "workload_4";
const RUNTIME: &str = "runtime";

fn generate_test_workload_spec_with_param(agent: String, name: String, runtime: String) -> WorkloadSpec {
    WorkloadSpec {
        name,
        agent,
        runtime,
        runtime_config: "generalOptions: [\"--version\"]\ncommandOptions: [\"--network=host\"]\nimage: alpine:latest\ncommandArgs: [\"bash\"]\n".to_string(),
        dependencies: vec![
            ("workload A".to_string(), DeleteCondition::DelCondRunning),
            ("workload C".to_string(), DeleteCondition::DelCondNotPendingNorRunning),
        ],
        tags: vec![Tag { key: "key".to_string(), value: "value".to_string() }],
        restart: true,
    }
}

fn generate_test_complete_state(workloads: Vec<WorkloadSpec>) -> CompleteState {
    let mut cur = State::new();
    let mut ws = Vec::new();
    for w in workloads {
        ws.push(WorkloadState {
            agent_name: w.agent.clone(),
            workload_name: w.name.clone(),
            execution_state: ExecutionState::ExecRunning,
        });
        cur.add(w.name.clone(), w);
    }
    CompleteState { current_state: cur, startup_state: State::new(), workload_states: ws }
}

fn generate_test_old_state() -> CompleteState {
    generate_test_complete_state(vec![
        generate_test_workload_spec_with_param("agent_A".into(), "workload_1".into(), "runtime_1".into()),
        generate_test_workload_spec_with_param("agent_A".into(), "workload_2".into(), "runtime_2".into()),
        generate_test_workload_spec_with_param("agent_B".into(), "workload_3".into(), "runtime_1".into()),
    ])
}

fn generate_test_update_state() -> CompleteState {
    generate_test_complete_state(vec![
        generate_test_workload_spec_with_param("agent_B".into(), "workload_1".into(), "runtime_2".into()),
        generate_test_workload_spec_with_param("agent_B".into(), "workload_3".into(), "runtime_2".into()),
        generate_test_workload_spec_with_param("agent_A".into(), "workload_4".into(), "runtime_1".into()),
    ])
}

fn default_workload_spec() -> WorkloadSpec {
    WorkloadSpec {
        name: String::new(),
        agent: String::new(),
        runtime: String::new(),
        runtime_config: String::new(),
        dependencies: Vec::new(),
        tags: Vec::new(),
        restart: false,
    }
}

#[test]
fn utest_server_state_get_complete_state_by_field_mask_empty_mask() {
    let w1 = generate_test_workload_spec_with_param(AGENT_A.to_string(), WORKLOAD_NAME_1.to_string(), RUNTIME.to_string());
    let w2 = generate_test_workload_spec_with_param(AGENT_A.to_string(), WORKLOAD_NAME_2.to_string(), RUNTIME.to_string());
    let w3 = generate_test_workload_spec_with_param(AGENT_B.to_string(), WORKLOAD_NAME_3.to_string(), RUNTIME.to_string());

    let state = generate_test_complete_state(vec![w1.clone(), w2.clone(), w3.clone()]);
    let expected_complete_state = state.duplicate();
    let mut workload_state_db = WorkloadStateDB::new();
    workload_state_db.insert(state.workload_states.clone());
    let server_state = ServerState::with_state(state);

    let request_complete_state = CompleteStateRequest { field_mask: vec![] };
    let complete_state = server_state
        .get_complete_state_by_field_mask(&request_complete_state, &workload_state_db)
        .unwrap();

    assert_eq!(expected_complete_state, complete_state);
}

#[test]
fn utest_server_state_get_complete_state_by_field_mask() {
    let w1 = generate_test_workload_spec_with_param(AGENT_A.to_string(), WORKLOAD_NAME_1.to_string(), RUNTIME.to_string());
    let w2 = generate_test_workload_spec_with_param(AGENT_A.to_string(), WORKLOAD_NAME_2.to_string(), RUNTIME.to_string());
    let w3 = generate_test_workload_spec_with_param(AGENT_B.to_string(), WORKLOAD_NAME_3.to_string(), RUNTIME.to_string());

    let state = generate_test_complete_state(vec![w1.clone(), w2.clone(), w3.clone()]);
    let mut workload_state_db = WorkloadStateDB::new();
    workload_state_db.insert(state.workload_states.clone());
    let server_state = ServerState::with_state(state);

    let request_complete_state = CompleteStateRequest {
        field_mask: vec![
            format!("currentState.workloads.{}", WORKLOAD_NAME_1),
            format!("currentState.workloads.{}.agent", WORKLOAD_NAME_3),
        ],
    };

    let complete_state = server_state
        .get_complete_state_by_field_mask(&request_complete_state, &workload_state_db)
        .unwrap();

    let mut expected_current = State::new();
    expected_current.add(w1.name.clone(), w1.clone());
    let mut w3_projected = default_workload_spec();
    w3_projected.agent = AGENT_B.to_string();
    expected_current.add(w3.name.clone(), w3_projected);
    let expected_complete_state = CompleteState {
        current_state: expected_current,
        startup_state: State::new(),
        workload_states: Vec::new(),
    };

    assert_eq!(expected_complete_state, complete_state);
}

#[test]
fn utest_server_state_get_complete_state_by_field_mask_continue_on_invalid_mask() {
    let w1 = generate_test_workload_spec_with_param(AGENT_A.to_string(), WORKLOAD_NAME_1.to_string(), RUNTIME.to_string());

    let state = generate_test_complete_state(vec![w1.clone()]);
    let mut workload_state_db = WorkloadStateDB::new();
    workload_state_db.insert(state.workload_states.clone());
    let server_state = ServerState::with_state(state);

    let request_complete_state = CompleteStateRequest {
        field_mask: vec![
            "workloads.invalidMask".to_string(),
            format!("currentState.workloads.{}", WORKLOAD_NAME_1),
        ],
    };

    let complete_state = server_state
        .get_complete_state_by_field_mask(&request_complete_state, &workload_state_db)
        .unwrap();

    let mut expected_current = State::new();
    expected_current.add(w1.name.clone(), w1.clone());
    let expected_complete_state = CompleteState {
        current_state: expected_current,
        startup_state: State::new(),
        workload_states: Vec::new(),
    };

    assert_eq!(expected_complete_state, complete_state);
}

#[test]
fn utest_server_state_get_workloads_per_agent() {
    let w1 = generate_test_workload_spec_with_param(AGENT_A.to_string(), WORKLOAD_NAME_1.to_string(), RUNTIME.to_string());
    let w2 = generate_test_workload_spec_with_param(AGENT_A.to_string(), WORKLOAD_NAME_2.to_string(), RUNTIME.to_string());
    let w3 = generate_test_workload_spec_with_param(AGENT_B.to_string(), WORKLOAD_NAME_3.to_string(), RUNTIME.to_string());

    let server_state = ServerState::with_state(generate_test_complete_state(vec![
        w1.clone(),
        w2.clone(),
        w3.clone(),
    ]));

    let mut workloads = server_state.get_workloads_for_agent(&AGENT_A.to_string());
    workloads.sort_by(|left, right| left.name.cmp(&right.name));
    assert_eq!(workloads, vec![w1, w2]);

    let workloads = server_state.get_workloads_for_agent(&AGENT_B.to_string());
    assert_eq!(workloads, vec![w3]);

    let workloads = server_state.get_workloads_for_agent(&"unknown_agent".to_string());
    assert_eq!(workloads.len(), 0);
}

#[test]
fn utest_server_state_update_state_reject_state_with_cyclic_dependencies() {
    let workload = generate_test_workload_spec_with_param(AGENT_A.to_string(), WORKLOAD_NAME_1.to_string(), RUNTIME.to_string());

    // workload has a self cycle to workload A
    let new_workload_1 = generate_test_workload_spec_with_param(AGENT_A.to_string(), "workload A".to_string(), RUNTIME.to_string());

    let mut new_workload_2 = generate_test_workload_spec_with_param(AGENT_A.to_string(), WORKLOAD_NAME_1.to_string(), RUNTIME.to_string());
    new_workload_2.dependencies.clear();

    let old_state = generate_test_complete_state(vec![workload]);
    let rejected_new_state = generate_test_complete_state(vec![new_workload_1, new_workload_2]);

    let old_state_copy = old_state.duplicate();
    let mut server_state = ServerState::with_state(old_state);

    let result = server_state.update(rejected_new_state, vec![]);
    assert_eq!(result, Err(UpdateStateError::CycleInDependencies("workload A".to_string())));

    // server state shall be the old state, new state shall be rejected
    assert_eq!(old_state_copy, *server_state.held_state());
}

#[test]
fn utest_server_state_update_state_replace_all_if_update_mask_empty() {
    let old_state = generate_test_old_state();
    let update_state = generate_test_update_state();
    let update_mask = vec![];

    let expected = update_state.duplicate();
    let mut server_state = ServerState::with_state(old_state);
    server_state.update(update_state, update_mask).unwrap();

    assert_eq!(expected, *server_state.held_state());
}

#[test]
fn utest_server_state_update_state_replace_workload() {
    let old_state = generate_test_old_state();
    let update_state = generate_test_update_state();
    let update_mask = vec![format!("currentState.workloads.{}", WORKLOAD_NAME_1)];

    let new_workload = update_state
        .current_state
        .get(&WORKLOAD_NAME_1.to_string())
        .unwrap()
        .duplicate();

    let mut expected = old_state.duplicate();
    expected.current_state.add(new_workload.name.clone(), new_workload);

    let mut server_state = ServerState::with_state(old_state);
    server_state.update(update_state, update_mask).unwrap();

    assert_eq!(expected, *server_state.held_state());
}

#[test]
fn utest_server_state_update_state_add_workload() {
    let old_state = generate_test_old_state();
    let update_state = generate_test_update_state();
    let update_mask = vec![format!("currentState.workloads.{}", WORKLOAD_NAME_4)];

    let new_workload = update_state
        .current_state
        .get(&WORKLOAD_NAME_4.to_string())
        .unwrap()
        .duplicate();

    let mut expected = old_state.duplicate();
    expected.current_state.add(WORKLOAD_NAME_4.into(), new_workload);

    let mut server_state = ServerState::with_state(old_state);
    server_state.update(update_state, update_mask).unwrap();

    assert_eq!(expected, *server_state.held_state());
}

#[test]
fn utest_server_state_update_state_remove_workload() {
    let old_state = generate_test_old_state();
    let update_state = generate_test_update_state();
    let update_mask = vec![format!("currentState.workloads.{}", WORKLOAD_NAME_2)];

    let mut expected_current = State::new();
    expected_current.add(
        "workload_1".to_string(),
        generate_test_workload_spec_with_param("agent_A".into(), "workload_1".into(), "runtime_1".into()),
    );
    expected_current.add(
        "workload_3".to_string(),
        generate_test_workload_spec_with_param("agent_B".into(), "workload_3".into(), "runtime_1".into()),
    );
    let expected = CompleteState {
        current_state: expected_current,
        startup_state: State::new(),
        workload_states: old_state.workload_states.clone(),
    };

    let mut server_state = ServerState::with_state(old_state);
    server_state.update(update_state, update_mask).unwrap();

    assert_eq!(expected, *server_state.held_state());
}

#[test]
fn utest_server_state_update_state_remove_non_existing_workload() {
    let old_state = generate_test_old_state();
    let update_state = generate_test_update_state();
    let update_mask = vec!["currentState.workloads.workload_5".into()];

    let expected = old_state.duplicate();
    let mut server_state = ServerState::with_state(old_state);
    server_state.update(update_state, update_mask).unwrap();

    assert_eq!(expected, *server_state.held_state());
}

#[test]
fn utest_server_state_update_state_remove_fails_from_non_map() {
    let old_state = generate_test_old_state();
    let update_state = generate_test_update_state();
    let update_mask = vec!["currentState.workloads.workload_2.tags.x".into()];

    let expected = old_state.duplicate();
    let mut server_state = ServerState::with_state(old_state);
    let result = server_state.update(update_state, update_mask);

    assert!(result.is_err());
    assert_eq!(*server_state.held_state(), expected);
}

#[test]
fn utest_server_state_update_state_fails_with_update_mask_empty_string() {
    let old_state = generate_test_old_state();
    let update_state = generate_test_update_state();
    let update_mask = vec!["".into()];

    let expected = old_state.duplicate();
    let mut server_state = ServerState::with_state(old_state);
    let result = server_state.update(update_state, update_mask);
    assert!(result.is_err());
    assert_eq!(*server_state.held_state(), expected);
}

#[test]
fn utest_server_state_update_state_no_update() {
    let mut server_state = ServerState::with_state(CompleteState::default());

    let added_deleted_workloads = server_state.update(CompleteState::default(), vec![]).unwrap();
    assert!(added_deleted_workloads.is_none());
    assert_eq!(*server_state.held_state(), CompleteState::default());
}

#[test]
fn utest_server_state_update_state_new_workloads() {
    let new_state = generate_test_update_state();
    let update_mask = vec![];

    let new_state_copy = new_state.duplicate();
    let mut server_state = ServerState::with_state(CompleteState::default());

    let added_deleted_workloads = server_state.update(new_state, update_mask).unwrap();
    assert!(added_deleted_workloads.is_some());

    let (mut added_workloads, deleted_workloads) = added_deleted_workloads.unwrap();
    added_workloads.sort_by(|left, right| left.name.cmp(&right.name));

    let mut expected_added_workloads: Vec<WorkloadSpec> = new_state_copy
        .current_state
        .entries()
        .iter()
        .map(|(_, w)| w.clone())
        .collect();
    expected_added_workloads.sort_by(|left, right| left.name.cmp(&right.name));

    assert_eq!(added_workloads, expected_added_workloads);

    let expected_deleted_workloads: Vec<DeletedWorkload> = Vec::new();
    assert_eq!(deleted_workloads, expected_deleted_workloads);
    assert_eq!(*server_state.held_state(), new_state_copy);
}

#[test]
fn utest_server_state_update_state_deleted_workloads() {
    let current_complete_state = generate_test_old_state();
    let update_state = CompleteState::default();
    let update_mask = vec![];

    let current_copy = current_complete_state.duplicate();
    let mut server_state = ServerState::with_state(current_complete_state);

    let added_deleted_workloads = server_state.update(update_state, update_mask).unwrap();
    assert!(added_deleted_workloads.is_some());

    let (added_workloads, mut deleted_workloads) = added_deleted_workloads.unwrap();
    let expected_added_workloads: Vec<WorkloadSpec> = Vec::new();
    assert_eq!(added_workloads, expected_added_workloads);

    deleted_workloads.sort_by(|left, right| left.name.cmp(&right.name));
    let mut expected_deleted_workloads: Vec<DeletedWorkload> = current_copy
        .current_state
        .entries()
        .iter()
        .map(|(k, v)| DeletedWorkload {
            agent: v.agent.clone(),
            name: k.clone(),
            dependencies: Vec::new(),
        })
        .collect();
    expected_deleted_workloads.sort_by(|left, right| left.name.cmp(&right.name));
    assert_eq!(deleted_workloads, expected_deleted_workloads);

    assert_eq!(*server_state.held_state(), CompleteState::default());
}

#[test]
fn utest_server_state_update_state_updated_workload() {
    let current_complete_state = generate_test_old_state();
    let update_mask = vec![];

    let workload_to_update = current_complete_state
        .current_state
        .get(&WORKLOAD_NAME_1.to_string())
        .unwrap()
        .duplicate();

    let updated_workload = generate_test_workload_spec_with_param(
        AGENT_B.into(),
        workload_to_update.name.clone(),
        "runtime_2".into(),
    );

    let mut new_current = current_complete_state.current_state.duplicate();
    new_current.add(workload_to_update.name.clone(), updated_workload.clone());
    let new_complete_state = CompleteState {
        current_state: new_current,
        startup_state: State::new(),
        workload_states: current_complete_state.workload_states.clone(),
    };

    let expected_state = new_complete_state.duplicate();
    let mut server_state = ServerState::with_state(current_complete_state);

    let added_deleted_workloads = server_state.update(new_complete_state, update_mask).unwrap();
    assert!(added_deleted_workloads.is_some());

    let (added_workloads, deleted_workloads) = added_deleted_workloads.unwrap();

    assert_eq!(added_workloads, vec![updated_workload]);

    assert_eq!(
        deleted_workloads,
        vec![DeletedWorkload {
            agent: workload_to_update.agent.clone(),
            name: workload_to_update.name.clone(),
            dependencies: Vec::new(),
        }]
    );

    assert_eq!(*server_state.held_state(), expected_state);
}

#[test]
fn utest_server_state_update_state_store_and_add_delete_conditions() {
    let workload = generate_test_workload_spec_with_param(AGENT_A.to_string(), WORKLOAD_NAME_1.to_string(), RUNTIME.to_string());

    let current_complete_state = generate_test_complete_state(vec![workload.clone()]);

    let mut new_workload = workload.clone();
    new_workload.agent = AGENT_B.to_string();
    let new_complete_state = generate_test_complete_state(vec![new_workload.clone()]);

    let update_mask = vec![];

    let mut server_state = ServerState::with_state(current_complete_state);

    let added_deleted_workloads = server_state.update(new_complete_state, update_mask).unwrap();
    assert!(added_deleted_workloads.is_some());

    let (added_workloads, deleted_workloads) = added_deleted_workloads.unwrap();
    assert_eq!(added_workloads, vec![new_workload]);
    assert_eq!(
        deleted_workloads,
        vec![DeletedWorkload {
            name: workload.name.clone(),
            agent: workload.agent.clone(),
            dependencies: Vec::new(),
        }]
    );
}

#[test]
fn utest_server_state_full_coverage_mask_equals_unfiltered_read() {
    let w1 = generate_test_workload_spec_with_param(AGENT_A.to_string(), WORKLOAD_NAME_1.to_string(), RUNTIME.to_string());
    let w2 = generate_test_workload_spec_with_param(AGENT_B.to_string(), WORKLOAD_NAME_2.to_string(), RUNTIME.to_string());

    let state = generate_test_complete_state(vec![w1, w2]);
    let mut workload_state_db = WorkloadStateDB::new();
    workload_state_db.insert(state.workload_states.clone());
    let server_state = ServerState::with_state(state);

    let unfiltered = server_state
        .get_complete_state_by_field_mask(&CompleteStateRequest { field_mask: vec![] }, &workload_state_db)
        .unwrap();

    // full coverage in another order, one field named twice
    let shuffled = CompleteStateRequest {
        field_mask: vec![
            "workloadStates".to_string(),
            "startupState".to_string(),
            "currentState".to_string(),
            "currentState".to_string(),
        ],
    };
    let filtered = server_state
        .get_complete_state_by_field_mask(&shuffled, &workload_state_db)
        .unwrap();

    assert_eq!(unfiltered, filtered);
}
