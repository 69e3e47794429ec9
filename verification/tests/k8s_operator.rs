use minikv::k8s_operator::{
    default_coordinator_image, default_volume_image, AutoscalingSpec, BackupSpec, ClusterPhase,
    ControllerConfig, CoordinatorSpec, GeoSpec, MiniKVClusterSpec, MiniKVClusterState,
    MiniKVClusterStatus, MiniKVController, ObservabilitySpec, ReconcileAction, ResourceRequirements,
    SecuritySpec, StorageSpec, TieringSpec, TimeseriesSpec, VolumeSpec,
};

fn sample_spec() -> MiniKVClusterSpec {
    MiniKVClusterSpec {
        coordinators: CoordinatorSpec {
            replicas: 3,
            image: default_coordinator_image(),
            resources: ResourceRequirements::default(),
            storage: StorageSpec::default(),
        },
        volumes: VolumeSpec {
            replicas: 3,
            image: default_volume_image(),
            replication_factor: 3,
            resources: ResourceRequirements::default(),
            storage: StorageSpec::default(),
        },
        security: SecuritySpec::default(),
        observability: ObservabilitySpec::default(),
        autoscaling: AutoscalingSpec::default(),
        backup: BackupSpec::default(),
        geo: GeoSpec::default(),
        timeseries: TimeseriesSpec::default(),
        tiering: TieringSpec::default(),
    }
}

#[test]
fn test_default_spec() {
    let spec = sample_spec();

    assert_eq!(spec.coordinators.replicas, 3);
    assert_eq!(spec.volumes.replication_factor, 3);
    assert!(!spec.autoscaling.enabled);
}

#[test]
fn test_generate_labels() {
    let controller = MiniKVController::new(ControllerConfig::default());
    let labels = controller.generate_labels("test-cluster", "coordinator");

    assert_eq!(labels.get("app.kubernetes.io/name").unwrap(), "minikv");
    assert_eq!(labels.get("app.kubernetes.io/instance").unwrap(), "test-cluster");
    assert_eq!(labels.get("app.kubernetes.io/component").unwrap(), "coordinator");
}

#[test]
fn test_cluster_phases() {
    assert_eq!(ClusterPhase::default(), ClusterPhase::Pending);
}

fn state(spec: MiniKVClusterSpec) -> MiniKVClusterState {
    MiniKVClusterState {
        name: "prod".to_string(),
        namespace: "db".to_string(),
        spec,
        status: MiniKVClusterStatus::default(),
        generation: 2,
        last_reconciled_generation: 1,
    }
}

#[test]
fn k8s_coordinator_env_follows_switches() {
    let controller = MiniKVController::new(ControllerConfig::default());
    let mut spec = sample_spec();
    let plain = controller.generate_coordinator_env(&state(sample_spec()));
    let names: Vec<&str> = plain.iter().map(|e| e.name.as_str()).collect();
    assert_eq!(names, vec!["MINIKV_NODE_ROLE", "MINIKV_CLUSTER_NAME"]);
    assert_eq!(plain[0].value, "coordinator");
    assert_eq!(plain[1].value, "prod");

    spec.security.tls.enabled = true;
    spec.geo.enabled = true;
    spec.geo.region = "eu-west".to_string();
    spec.geo.zone = "a".to_string();
    let env = controller.generate_coordinator_env(&state(spec));
    let pairs: Vec<(&str, &str)> = env.iter().map(|e| (e.name.as_str(), e.value.as_str())).collect();
    assert_eq!(
        pairs,
        vec![
            ("MINIKV_NODE_ROLE", "coordinator"),
            ("MINIKV_CLUSTER_NAME", "prod"),
            ("MINIKV_TLS_ENABLED", "true"),
            ("MINIKV_GEO_REGION", "eu-west"),
            ("MINIKV_GEO_ZONE", "a"),
        ]
    );
}

#[test]
fn k8s_volume_env_and_statefulset() {
    let controller = MiniKVController::new(ControllerConfig::default());
    let mut spec = sample_spec();
    spec.timeseries.enabled = true;
    spec.timeseries.retention_days = 45;
    let st = state(spec);
    let env = controller.generate_volume_env(&st);
    let pairs: Vec<(&str, &str)> = env.iter().map(|e| (e.name.as_str(), e.value.as_str())).collect();
    assert_eq!(
        pairs,
        vec![
            ("MINIKV_NODE_ROLE", "volume"),
            ("MINIKV_CLUSTER_NAME", "prod"),
            ("MINIKV_REPLICATION_FACTOR", "3"),
            ("MINIKV_TIMESERIES_ENABLED", "true"),
            ("MINIKV_TIMESERIES_RETENTION_DAYS", "45"),
        ]
    );
    let sts = controller.generate_volume_statefulset(&st);
    assert_eq!(sts.name, "prod-volume");
    assert_eq!(sts.namespace, "db");
    assert_eq!(sts.ports.len(), 2);
    assert_eq!(sts.ports[1].port, 6000);
    let coord = controller.generate_coordinator_statefulset(&st);
    assert_eq!(coord.name, "prod-coordinator");
    assert_eq!(coord.ports[2].name, "raft");
    assert_eq!(coord.ports[2].port, 5001);
}

#[test]
fn k8s_generated_config() {
    let controller = MiniKVController::new(ControllerConfig::default());
    let text = controller.generate_config(&state(sample_spec()));
    let expected = "# MiniKV Configuration (generated by operator)\n# Cluster: prod\n\n\
[coordinator]\nreplicas = 3\n\n\
[volume]\nreplicas = 3\nreplication_factor = 3\n\n\
[security]\ntls_enabled = false\nauth_enabled = false\nencryption_at_rest = false\n\n\
[observability]\nmetrics_enabled = true\nmetrics_port = 9090\n\n\
[geo]\nenabled = false\nregion = \"\"\nzone = \"\"\n\n\
[timeseries]\nenabled = false\nretention_days = 0\n\n\
[tiering]\nenabled = false\n";
    assert_eq!(text, expected);
}

#[test]
fn k8s_reconcile_unknown_cluster_skips() {
    let mut controller = MiniKVController::new(ControllerConfig::default());
    assert_eq!(controller.reconcile("nope", "default").unwrap(), ReconcileAction::Skip);
    assert!(controller.handle_delete("nope", "default").is_ok());
}

#[test]
fn k8s_autoscaler_and_backup_job() {
    let controller = MiniKVController::new(ControllerConfig::default());
    let mut spec = sample_spec();
    spec.backup.schedule = "0 3 * * *".to_string();
    spec.backup.retention = 5;
    let st = state(spec);
    let hpa = controller.generate_autoscaler(&st);
    assert_eq!(hpa.name, "prod-volume");
    assert_eq!(hpa.min_replicas, 3);
    assert_eq!(hpa.max_replicas, 10);
    let job = controller.generate_backup_job(&st);
    assert_eq!(job.name, "prod-backup");
    assert_eq!(job.schedule, "0 3 * * *");
    assert_eq!(job.retention, 5);
    assert_eq!(job.image, "ghcr.io/whispem/minikv-coord:latest");
}
