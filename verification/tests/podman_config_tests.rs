use ankaios_core::objects::{DeleteCondition, Tag, WorkloadSpec};
use ankaios_core::podman_config::{podman_runtime_name, PodmanRuntimeConfig};

const DIFFERENT_RUNTIME_NAME: &str = "different-runtime-name";
const AGENT_NAME: &str = "agent_x";
const WORKLOAD_1_NAME: &str = "workload1";

fn generate_test_workload_spec_with_param(agent: String, name: String, runtime: String) -> WorkloadSpec {
    WorkloadSpec {
        name,
        agent,
        runtime,
        runtime_config: "generalOptions: [\"--version\"]\ncommandOptions: [\"--network=host\"]\nimage: alpine:latest\ncommandArgs: [\"bash\"]\n".to_string(),
        dependencies: vec![("workload A".to_string(), DeleteCondition::DelCondRunning)],
        tags: vec![Tag { key: "key".to_string(), value: "value".to_string() }],
        restart: true,
    }
}

#[test]
fn utest_podman_config_failure_missing_image() {
    let mut workload_spec = generate_test_workload_spec_with_param(
        AGENT_NAME.to_string(),
        WORKLOAD_1_NAME.to_string(),
        podman_runtime_name().to_string(),
    );

    workload_spec.runtime_config = "something without an image".to_string();

    assert!(PodmanRuntimeConfig::try_from(&workload_spec).is_err());
}

#[test]
fn utest_podman_config_failure_wrong_runtime() {
    let workload_spec = generate_test_workload_spec_with_param(
        AGENT_NAME.to_string(),
        WORKLOAD_1_NAME.to_string(),
        DIFFERENT_RUNTIME_NAME.to_string(),
    );

    assert!(PodmanRuntimeConfig::try_from(&workload_spec).is_err());
}

#[test]
fn utest_podman_config_success() {
    let mut workload_spec = generate_test_workload_spec_with_param(
        AGENT_NAME.to_string(),
        WORKLOAD_1_NAME.to_string(),
        podman_runtime_name().to_string(),
    );

    let expected_podman_config = PodmanRuntimeConfig {
        general_options: Some(vec!["--version".to_string()]),
        command_options: Some(vec!["--network=host".to_string()]),
        image: "alpine:latest".to_string(),
        command_args: Some(vec!["bash".to_string()]),
    };

    workload_spec.runtime_config = "generalOptions: [\"--version\"]\ncommandOptions: [\"--network=host\"]\nimage: alpine:latest\ncommandArgs: [\"bash\"]\n".to_string();

    assert_eq!(
        PodmanRuntimeConfig::try_from(&workload_spec).unwrap(),
        expected_podman_config
    );
}

#[test]
fn utest_podman_config_snake_case_alias() {
    let mut workload_spec = generate_test_workload_spec_with_param(
        AGENT_NAME.to_string(),
        WORKLOAD_1_NAME.to_string(),
        podman_runtime_name().to_string(),
    );
    workload_spec.runtime_config =
        "general_options: [\"-a\"]\nimage: busybox:latest\n".to_string();

    let config = PodmanRuntimeConfig::try_from(&workload_spec).unwrap();
    assert_eq!(config.general_options, Some(vec!["-a".to_string()]));
    assert_eq!(config.image, "busybox:latest".to_string());
    assert_eq!(config.command_options, None);
    assert_eq!(config.command_args, None);
}
