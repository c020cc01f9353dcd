//! The comparison container.

use praxis::agentgateway::AgentgatewayConfig;

#[test]
fn agentgateway_config_defaults() {
    let config = AgentgatewayConfig::default();

    assert_eq!(config.name(), "agentgateway");
    assert_eq!(config.listen_address(), "127.0.0.1:18094");
    assert_eq!(config.container_name(), Some("praxis-bench-agentgateway"));
    assert_eq!(config.health_url(), None, "agentgateway has no built-in health URL");
}

#[test]
fn agentgateway_start_command_uses_docker() {
    let config = AgentgatewayConfig {
        image: Some("cr.agentgateway.dev/agentgateway:v1.4.1".into()),
        ..Default::default()
    };
    let (cmd, args) = config.start_command(None);

    assert_eq!(cmd, "docker");
    assert!(args.contains(&"run".into()));
    assert!(args.contains(&"--network".into()));
    assert!(args.contains(&"host".into()));
    assert!(args.contains(&"--cpus=4.0".into()));
    assert!(args.contains(&"--memory=2g".into()));
    assert!(args.contains(&"--user".into()));
    assert!(args.contains(&"0:0".into()));
    assert!(args.contains(&"-f".into()));
    assert!(args.contains(&"/config.yaml".into()));
    assert!(args.iter().any(|a| a.contains("agentgateway")));
}

#[test]
fn configuration_is_mounted_read_only() {
    let config = AgentgatewayConfig { image: Some("mine".into()), ..Default::default() };
    let (_, args) = config.start_command(Some("/abs/agentgateway.yaml"));
    assert!(args.contains(&"/abs/agentgateway.yaml:/config.yaml:ro,z".into()));
    assert_eq!(args[12], "mine");
    let (_, unresolved) = AgentgatewayConfig::default().start_command(None);
    assert_eq!(unresolved[11], "benchmarks/comparison/configs/agentgateway.yaml:/config.yaml:ro,z");
    assert_eq!(unresolved[12], "cr.agentgateway.dev/agentgateway:v1.4.1");
    assert_eq!(
        AgentgatewayConfig::default().config_path(),
        "benchmarks/comparison/configs/agentgateway.yaml"
    );
}
