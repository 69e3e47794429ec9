//! Kubernetes operator for the MiniKVCluster custom resource.
//!
//! The resource's spec and status types, and the controller's decisions:
//! what StatefulSets, environments, labels, configuration, autoscaler and
//! backup jobs a cluster spec calls for, and how a reconciliation updates a
//! cluster's status.

use vstd::prelude::*;
use crate::clock::now_nanos;
use crate::error::Error;
use crate::strmap::StrMap;
use crate::text::{decimal, u64_to_decimal};

verus! {

/// The default coordinator image.
pub fn default_coordinator_image() -> (r: String)
    ensures
        r@ == "ghcr.io/whispem/minikv-coord:latest"@,
{
    "ghcr.io/whispem/minikv-coord:latest".to_owned()
}

/// The default volume image.
pub fn default_volume_image() -> (r: String)
    ensures
        r@ == "ghcr.io/whispem/minikv-volume:latest"@,
{
    "ghcr.io/whispem/minikv-volume:latest".to_owned()
}

/// The default data replication factor.
pub fn default_replication_factor() -> (r: u32)
    ensures
        r == 3,
{
    3
}

/// The default CPU request.
pub fn default_cpu_request() -> (r: String)
    ensures
        r@ == "100m"@,
{
    "100m".to_owned()
}

/// The default memory request.
pub fn default_memory_request() -> (r: String)
    ensures
        r@ == "256Mi"@,
{
    "256Mi".to_owned()
}

/// The default volume size.
pub fn default_storage_size() -> (r: String)
    ensures
        r@ == "10Gi"@,
{
    "10Gi".to_owned()
}

/// `true`, the default of the switches that are on unless configured off.
pub fn default_true() -> (r: bool)
    ensures
        r,
{
    true
}

/// The default metrics port.
pub fn default_metrics_port() -> (r: u16)
    ensures
        r == 9090,
{
    9090
}

/// The default minimum number of replicas under autoscaling.
pub fn default_min_replicas() -> (r: u32)
    ensures
        r == 3,
{
    3
}

/// The default maximum number of replicas under autoscaling.
pub fn default_max_replicas() -> (r: u32)
    ensures
        r == 10,
{
    10
}

/// The default CPU utilization target, in percent.
pub fn default_cpu_target() -> (r: u32)
    ensures
        r == 70,
{
    70
}

/// The default memory utilization target, in percent.
pub fn default_memory_target() -> (r: u32)
    ensures
        r == 80,
{
    80
}

/// The default scale-down stabilization window, in seconds.
pub fn default_scale_down_stabilization() -> (r: u32)
    ensures
        r == 300,
{
    300
}

/// The default backup schedule (cron syntax).
pub fn default_backup_schedule() -> (r: String)
    ensures
        r@ == "0 2 * * *"@,
{
    "0 2 * * *".to_owned()
}

/// The default number of backups kept.
pub fn default_backup_retention() -> (r: u32)
    ensures
        r == 7,
{
    7
}

/// The default backup destination type.
pub fn default_backup_type() -> (r: String)
    ensures
        r@ == "s3"@,
{
    "s3".to_owned()
}

/// The default time-series retention, in days.
pub fn default_retention_days() -> (r: u32)
    ensures
        r == 30,
{
    30
}

/// Resource list (CPU, memory)
#[derive(Debug, Clone)]
pub struct ResourceList {
    pub cpu: String,
    pub memory: String,
}

impl Default for ResourceList {
    fn default() -> (r: Self)
        ensures
            r.cpu@ == "100m"@,
            r.memory@ == "256Mi"@,
    {
        Self { cpu: default_cpu_request(), memory: default_memory_request() }
    }
}

/// Resource requirements
#[derive(Debug, Clone)]
pub struct ResourceRequirements {
    pub requests: ResourceList,
    pub limits: ResourceList,
}

impl Default for ResourceRequirements {
    fn default() -> (r: Self)
        ensures
            r.requests.cpu@ == "100m"@,
            r.requests.memory@ == "256Mi"@,
            r.limits.cpu@ == "100m"@,
            r.limits.memory@ == "256Mi"@,
    {
        Self { requests: ResourceList::default(), limits: ResourceList::default() }
    }
}

/// Storage specification
#[derive(Debug, Clone)]
pub struct StorageSpec {
    pub size: String,
    pub storage_class_name: String,
}

impl Default for StorageSpec {
    fn default() -> (r: Self)
        ensures
            r.size@ == "10Gi"@,
            r.storage_class_name@ == Seq::<char>::empty(),
    {
        Self { size: default_storage_size(), storage_class_name: String::new() }
    }
}

/// Coordinator node specification
#[derive(Debug, Clone)]
pub struct CoordinatorSpec {
    /// Number of coordinator replicas (should be odd for Raft)
    pub replicas: u32,
    /// Container image
    pub image: String,
    /// Resource requirements
    pub resources: ResourceRequirements,
    /// Storage configuration
    pub storage: StorageSpec,
}

/// Volume server specification
#[derive(Debug, Clone)]
pub struct VolumeSpec {
    /// Number of volume server replicas
    pub replicas: u32,
    /// Container image
    pub image: String,
    /// Data replication factor
    pub replication_factor: u32,
    /// Resource requirements
    pub resources: ResourceRequirements,
    /// Storage configuration
    pub storage: StorageSpec,
}

/// TLS configuration
#[derive(Debug, Clone)]
pub struct TlsSpec {
    pub enabled: bool,
    pub secret_name: String,
}

impl Default for TlsSpec {
    fn default() -> (r: Self)
        ensures
            !r.enabled,
            r.secret_name@ == Seq::<char>::empty(),
    {
        Self { enabled: false, secret_name: String::new() }
    }
}

/// Authentication configuration
#[derive(Debug, Clone)]
pub struct AuthSpec {
    pub enabled: bool,
    pub admin_secret_name: String,
}

impl Default for AuthSpec {
    fn default() -> (r: Self)
        ensures
            !r.enabled,
            r.admin_secret_name@ == Seq::<char>::empty(),
    {
        Self { enabled: false, admin_secret_name: String::new() }
    }
}

/// Encryption configuration
#[derive(Debug, Clone)]
pub struct EncryptionSpec {
    pub at_rest: bool,
    pub key_secret_name: String,
}

impl Default for EncryptionSpec {
    fn default() -> (r: Self)
        ensures
            !r.at_rest,
            r.key_secret_name@ == Seq::<char>::empty(),
    {
        Self { at_rest: false, key_secret_name: String::new() }
    }
}

/// Security configuration
#[derive(Debug, Clone)]
pub struct SecuritySpec {
    pub tls: TlsSpec,
    pub authentication: AuthSpec,
    pub encryption: EncryptionSpec,
}

impl Default for SecuritySpec {
    fn default() -> (r: Self)
        ensures
            !r.tls.enabled,
            r.tls.secret_name@ == Seq::<char>::empty(),
            !r.authentication.enabled,
            r.authentication.admin_secret_name@ == Seq::<char>::empty(),
            !r.encryption.at_rest,
            r.encryption.key_secret_name@ == Seq::<char>::empty(),
    {
        Self {
            tls: TlsSpec::default(),
            authentication: AuthSpec::default(),
            encryption: EncryptionSpec::default(),
        }
    }
}

/// Metrics configuration
#[derive(Debug, Clone, Copy, PartialEq, Eq, Structural)]
pub struct MetricsSpec {
    pub enabled: bool,
    pub port: u16,
}

impl Default for MetricsSpec {
    fn default() -> (r: Self)
        ensures
            r.enabled,
            r.port == 9090,
    {
        Self { enabled: true, port: default_metrics_port() }
    }
}

/// Tracing configuration
#[derive(Debug, Clone)]
pub struct TracingSpec {
    pub enabled: bool,
    pub endpoint: String,
}

impl Default for TracingSpec {
    fn default() -> (r: Self)
        ensures
            !r.enabled,
            r.endpoint@ == Seq::<char>::empty(),
    {
        Self { enabled: false, endpoint: String::new() }
    }
}

/// Observability configuration
#[derive(Debug, Clone)]
pub struct ObservabilitySpec {
    pub metrics: MetricsSpec,
    pub tracing: TracingSpec,
}

impl Default for ObservabilitySpec {
    fn default() -> (r: Self)
        ensures
            r.metrics.enabled,
            r.metrics.port == 9090,
            !r.tracing.enabled,
    {
        Self { metrics: MetricsSpec::default(), tracing: TracingSpec::default() }
    }
}

/// Autoscaling configuration
#[derive(Debug, Clone, Copy, PartialEq, Eq, Structural)]
pub struct AutoscalingSpec {
    pub enabled: bool,
    pub min_replicas: u32,
    pub max_replicas: u32,
    pub target_cpu_utilization: u32,
    pub target_memory_utilization: u32,
    pub scale_down_stabilization: u32,
}

impl Default for AutoscalingSpec {
    fn default() -> (r: Self)
        ensures
            r == (AutoscalingSpec {
                enabled: false,
                min_replicas: 3,
                max_replicas: 10,
                target_cpu_utilization: 70,
                target_memory_utilization: 80,
                scale_down_stabilization: 300,
            }),
    {
        Self {
            enabled: false,
            min_replicas: default_min_replicas(),
            max_replicas: default_max_replicas(),
            target_cpu_utilization: default_cpu_target(),
            target_memory_utilization: default_memory_target(),
            scale_down_stabilization: default_scale_down_stabilization(),
        }
    }
}

/// Backup destination configuration
#[derive(Debug, Clone)]
pub struct BackupDestinationSpec {
    pub destination_type: String,
    pub bucket: String,
    pub secret_name: String,
}

impl Default for BackupDestinationSpec {
    /// Every field empty.
    fn default() -> (r: Self)
        ensures
            r.destination_type@ == Seq::<char>::empty(),
            r.bucket@ == Seq::<char>::empty(),
            r.secret_name@ == Seq::<char>::empty(),
    {
        Self { destination_type: String::new(), bucket: String::new(), secret_name: String::new() }
    }
}

/// Backup configuration
#[derive(Debug, Clone)]
pub struct BackupSpec {
    pub enabled: bool,
    pub schedule: String,
    pub retention: u32,
    pub destination: BackupDestinationSpec,
}

impl Default for BackupSpec {
    /// Off, every field empty or zero.
    fn default() -> (r: Self)
        ensures
            !r.enabled,
            r.schedule@ == Seq::<char>::empty(),
            r.retention == 0,
            r.destination.destination_type@ == Seq::<char>::empty(),
    {
        Self {
            enabled: false,
            schedule: String::new(),
            retention: 0,
            destination: BackupDestinationSpec::default(),
        }
    }
}

/// Remote region configuration
#[derive(Debug, Clone)]
pub struct RemoteRegionSpec {
    pub name: String,
    pub endpoint: String,
    pub priority: u32,
}

/// Geo-distribution configuration
#[derive(Debug, Clone)]
pub struct GeoSpec {
    pub enabled: bool,
    pub region: String,
    pub zone: String,
    pub remote_regions: Vec<RemoteRegionSpec>,
}

impl Default for GeoSpec {
    fn default() -> (r: Self)
        ensures
            !r.enabled,
            r.region@ == Seq::<char>::empty(),
            r.zone@ == Seq::<char>::empty(),
            r.remote_regions@.len() == 0,
    {
        Self { enabled: false, region: String::new(), zone: String::new(), remote_regions: Vec::new() }
    }
}

/// Downsample rule for time-series data
#[derive(Debug, Clone)]
pub struct DownsampleRule {
    pub after: String,
    pub resolution: String,
}

/// Time-series configuration
#[derive(Debug, Clone)]
pub struct TimeseriesSpec {
    pub enabled: bool,
    pub retention_days: u32,
    pub downsample_rules: Vec<DownsampleRule>,
}

impl Default for TimeseriesSpec {
    /// Off, no retention, no rule.
    fn default() -> (r: Self)
        ensures
            !r.enabled,
            r.retention_days == 0,
            r.downsample_rules@.len() == 0,
    {
        Self { enabled: false, retention_days: 0, downsample_rules: Vec::new() }
    }
}

/// Tier configuration
#[derive(Debug, Clone)]
pub struct TierConfig {
    pub max_age: String,
    pub storage_class: String,
}

impl Default for TierConfig {
    fn default() -> (r: Self)
        ensures
            r.max_age@ == Seq::<char>::empty(),
            r.storage_class@ == Seq::<char>::empty(),
    {
        Self { max_age: String::new(), storage_class: String::new() }
    }
}

/// Data tiering configuration
#[derive(Debug, Clone)]
pub struct TieringSpec {
    pub enabled: bool,
    pub hot_tier: TierConfig,
    pub warm_tier: TierConfig,
    pub cold_tier: TierConfig,
}

impl Default for TieringSpec {
    fn default() -> (r: Self)
        ensures
            !r.enabled,
            r.hot_tier.max_age@ == Seq::<char>::empty(),
            r.hot_tier.storage_class@ == Seq::<char>::empty(),
            r.warm_tier.max_age@ == Seq::<char>::empty(),
            r.warm_tier.storage_class@ == Seq::<char>::empty(),
            r.cold_tier.max_age@ == Seq::<char>::empty(),
            r.cold_tier.storage_class@ == Seq::<char>::empty(),
    {
        Self {
            enabled: false,
            hot_tier: TierConfig::default(),
            warm_tier: TierConfig::default(),
            cold_tier: TierConfig::default(),
        }
    }
}

/// MiniKVCluster custom resource specification
#[derive(Debug, Clone)]
pub struct MiniKVClusterSpec {
    /// Coordinator configuration
    pub coordinators: CoordinatorSpec,
    /// Volume server configuration
    pub volumes: VolumeSpec,
    /// Security configuration
    pub security: SecuritySpec,
    /// Observability configuration
    pub observability: ObservabilitySpec,
    /// Autoscaling configuration
    pub autoscaling: AutoscalingSpec,
    /// Backup configuration
    pub backup: BackupSpec,
    /// Geo-distribution configuration
    pub geo: GeoSpec,
    /// Time-series optimization
    pub timeseries: TimeseriesSpec,
    /// Data tiering configuration
    pub tiering: TieringSpec,
}

/// Cluster phase
#[derive(Debug, Clone, Copy, PartialEq, Eq, Structural)]
pub enum ClusterPhase {
    Pending,
    Creating,
    Running,
    Updating,
    Failed,
    Deleting,
}

impl Default for ClusterPhase {
    fn default() -> (r: Self)
        ensures
            r == ClusterPhase::Pending,
    {
        ClusterPhase::Pending
    }
}

/// Cluster condition
#[derive(Debug, Clone)]
pub struct ClusterCondition {
    pub condition_type: String,
    pub status: String,
    /// When the condition last changed, in nanoseconds since the epoch
    pub last_transition_time: i64,
    pub reason: String,
    pub message: String,
}

/// Component status
#[derive(Debug, Clone)]
pub struct ComponentStatus {
    pub ready: u32,
    pub total: u32,
    pub leader: String,
}

impl Default for ComponentStatus {
    fn default() -> (r: Self)
        ensures
            r.ready == 0,
            r.total == 0,
            r.leader@ == Seq::<char>::empty(),
    {
        Self { ready: 0, total: 0, leader: String::new() }
    }
}

/// Volume status with storage info
#[derive(Debug, Clone)]
pub struct VolumeStatus {
    pub ready: u32,
    pub total: u32,
    pub total_storage: String,
    pub used_storage: String,
}

impl Default for VolumeStatus {
    fn default() -> (r: Self)
        ensures
            r.ready == 0,
            r.total == 0,
            r.total_storage@ == Seq::<char>::empty(),
            r.used_storage@ == Seq::<char>::empty(),
    {
        Self { ready: 0, total: 0, total_storage: String::new(), used_storage: String::new() }
    }
}

/// Cluster endpoints
#[derive(Debug, Clone)]
pub struct ClusterEndpoints {
    pub http: String,
    pub grpc: String,
    pub metrics: String,
}

impl Default for ClusterEndpoints {
    fn default() -> (r: Self)
        ensures
            r.http@ == Seq::<char>::empty(),
            r.grpc@ == Seq::<char>::empty(),
            r.metrics@ == Seq::<char>::empty(),
    {
        Self { http: String::new(), grpc: String::new(), metrics: String::new() }
    }
}

/// MiniKVCluster status
#[derive(Debug, Clone)]
pub struct MiniKVClusterStatus {
    /// Current phase
    pub phase: ClusterPhase,
    /// Status conditions
    pub conditions: Vec<ClusterCondition>,
    /// Coordinator status
    pub coordinator_status: ComponentStatus,
    /// Volume status
    pub volume_status: VolumeStatus,
    /// Service endpoints
    pub endpoints: ClusterEndpoints,
    /// Current version
    pub version: String,
    /// Last backup time, in nanoseconds since the epoch
    pub last_backup: Option<i64>,
}

impl Default for MiniKVClusterStatus {
    /// Pending, with no condition, empty statuses and no backup.
    fn default() -> (r: Self)
        ensures
            r.phase == ClusterPhase::Pending,
            r.conditions@.len() == 0,
            r.version@ == Seq::<char>::empty(),
            r.last_backup is None,
    {
        Self {
            phase: ClusterPhase::default(),
            conditions: Vec::new(),
            coordinator_status: ComponentStatus::default(),
            volume_status: VolumeStatus::default(),
            endpoints: ClusterEndpoints::default(),
            version: String::new(),
            last_backup: None,
        }
    }
}

/// Controller configuration
#[derive(Debug, Clone)]
pub struct ControllerConfig {
    /// Namespace to watch (empty = all namespaces)
    pub watch_namespace: String,
    /// Reconciliation interval in seconds
    pub reconcile_interval_secs: u64,
    /// Leader election enabled
    pub leader_election: bool,
    /// Metrics bind address
    pub metrics_bind_address: String,
    /// Health probe bind address
    pub health_probe_bind_address: String,
}

impl Default for ControllerConfig {
    fn default() -> (r: Self)
        ensures
            r.watch_namespace@ == Seq::<char>::empty(),
            r.reconcile_interval_secs == 30,
            r.leader_election,
            r.metrics_bind_address@ == ":8080"@,
            r.health_probe_bind_address@ == ":8081"@,
    {
        Self {
            watch_namespace: String::new(),
            reconcile_interval_secs: 30,
            leader_election: true,
            metrics_bind_address: ":8080".to_owned(),
            health_probe_bind_address: ":8081".to_owned(),
        }
    }
}

/// A watched cluster: its name, namespace, spec and status, and which
/// generation of the spec was last reconciled.
#[derive(Debug, Clone)]
pub struct MiniKVClusterState {
    pub name: String,
    pub namespace: String,
    pub spec: MiniKVClusterSpec,
    pub status: MiniKVClusterStatus,
    pub generation: u64,
    pub last_reconciled_generation: u64,
}

/// An environment variable.
#[derive(Debug, Clone)]
pub struct EnvVar {
    pub name: String,
    pub value: String,
}

/// A container port.
#[derive(Debug, Clone)]
pub struct ContainerPort {
    pub name: String,
    pub port: u16,
}

/// A StatefulSet to run.
#[derive(Debug, Clone)]
pub struct StatefulSetSpec {
    pub name: String,
    pub namespace: String,
    pub replicas: u32,
    pub image: String,
    pub resources: ResourceRequirements,
    pub storage: StorageSpec,
    pub labels: StrMap<String>,
    pub env: Vec<EnvVar>,
    pub ports: Vec<ContainerPort>,
}

/// A HorizontalPodAutoscaler to run.
#[derive(Debug, Clone)]
pub struct HpaSpec {
    pub name: String,
    pub namespace: String,
    pub target_ref: String,
    pub min_replicas: u32,
    pub max_replicas: u32,
    pub target_cpu_utilization: u32,
    pub target_memory_utilization: u32,
    pub scale_down_stabilization_secs: u32,
}

/// A backup CronJob to run.
#[derive(Debug, Clone)]
pub struct CronJobSpec {
    pub name: String,
    pub namespace: String,
    pub schedule: String,
    pub image: String,
    pub destination_type: String,
    pub destination_bucket: String,
    pub retention: u32,
}

/// What to do after a reconciliation.
#[derive(Debug, Clone, Copy, PartialEq, Eq, Structural)]
pub enum ReconcileAction {
    /// Continue reconciliation
    Continue,
    /// Skip reconciliation
    Skip,
    /// Requeue after this many seconds
    RequeueAfter(u64),
    /// Requeue immediately
    Requeue,
}

/// The abstract value of environment variables: name and value pairs.
pub open spec fn env_view(v: Seq<EnvVar>) -> Seq<(Seq<char>, Seq<char>)> {
    v.map_values(|e: EnvVar| (e.name@, e.value@))
}

/// The abstract value of container ports.
pub open spec fn ports_view(v: Seq<ContainerPort>) -> Seq<(Seq<char>, u16)> {
    v.map_values(|p: ContainerPort| (p.name@, p.port))
}

/// The abstract value of a label map.
pub open spec fn labels_view(m: StrMap<String>) -> Map<Seq<char>, Seq<char>> {
    Map::new(|k: Seq<char>| m@.contains_key(k), |k: Seq<char>| m@[k]@)
}

/// `"true"` or `"false"`.
pub open spec fn bool_text(b: bool) -> Seq<char> {
    if b {
        "true"@
    } else {
        "false"@
    }
}

/// The standard labels of a component of a cluster.
pub open spec fn standard_labels(cluster_name: Seq<char>, component: Seq<char>) -> Map<
    Seq<char>,
    Seq<char>,
> {
    map![
        "app.kubernetes.io/name"@ => "minikv"@,
        "app.kubernetes.io/instance"@ => cluster_name,
        "app.kubernetes.io/component"@ => component,
        "app.kubernetes.io/managed-by"@ => "minikv-operator"@,
    ]
}

/// The environment of a coordinator: its role and cluster, then the TLS and
/// authentication switches if on, then the region and zone if
/// geo-distribution is on.
pub open spec fn coordinator_env(c: MiniKVClusterState) -> Seq<(Seq<char>, Seq<char>)> {
    let base = seq![
        ("MINIKV_NODE_ROLE"@, "coordinator"@),
        ("MINIKV_CLUSTER_NAME"@, c.name@),
    ];
    let tls = if c.spec.security.tls.enabled {
        seq![("MINIKV_TLS_ENABLED"@, "true"@)]
    } else {
        Seq::empty()
    };
    let auth = if c.spec.security.authentication.enabled {
        seq![("MINIKV_AUTH_ENABLED"@, "true"@)]
    } else {
        Seq::empty()
    };
    let geo = if c.spec.geo.enabled {
        seq![("MINIKV_GEO_REGION"@, c.spec.geo.region@), ("MINIKV_GEO_ZONE"@, c.spec.geo.zone@)]
    } else {
        Seq::empty()
    };
    base + tls + auth + geo
}

/// The environment of a volume server: its role, cluster and replication
/// factor, then the tiering switch if on, then the time-series switch and
/// retention if time-series optimization is on.
pub open spec fn volume_env(c: MiniKVClusterState) -> Seq<(Seq<char>, Seq<char>)> {
    let base = seq![
        ("MINIKV_NODE_ROLE"@, "volume"@),
        ("MINIKV_CLUSTER_NAME"@, c.name@),
        ("MINIKV_REPLICATION_FACTOR"@, decimal(c.spec.volumes.replication_factor as nat)),
    ];
    let tiering = if c.spec.tiering.enabled {
        seq![("MINIKV_TIERING_ENABLED"@, "true"@)]
    } else {
        Seq::empty()
    };
    let ts = if c.spec.timeseries.enabled {
        seq![
            ("MINIKV_TIMESERIES_ENABLED"@, "true"@),
            ("MINIKV_TIMESERIES_RETENTION_DAYS"@, decimal(c.spec.timeseries.retention_days as nat)),
        ]
    } else {
        Seq::empty()
    };
    base + tiering + ts
}

/// The configuration file of a cluster.
pub open spec fn config_text(c: MiniKVClusterState) -> Seq<char> {
    let s = c.spec;
    "# MiniKV Configuration (generated by operator)\n# Cluster: "@ + c.name@
        + "\n\n[coordinator]\nreplicas = "@ + decimal(s.coordinators.replicas as nat)
        + "\n\n[volume]\nreplicas = "@ + decimal(s.volumes.replicas as nat)
        + "\nreplication_factor = "@ + decimal(s.volumes.replication_factor as nat)
        + "\n\n[security]\ntls_enabled = "@ + bool_text(s.security.tls.enabled)
        + "\nauth_enabled = "@ + bool_text(s.security.authentication.enabled)
        + "\nencryption_at_rest = "@ + bool_text(s.security.encryption.at_rest)
        + "\n\n[observability]\nmetrics_enabled = "@ + bool_text(s.observability.metrics.enabled)
        + "\nmetrics_port = "@ + decimal(s.observability.metrics.port as nat)
        + "\n\n[geo]\nenabled = "@ + bool_text(s.geo.enabled) + "\nregion = \""@ + s.geo.region@
        + "\"\nzone = \""@ + s.geo.zone@ + "\"\n\n[timeseries]\nenabled = "@ + bool_text(
        s.timeseries.enabled,
    ) + "\nretention_days = "@ + decimal(s.timeseries.retention_days as nat)
        + "\n\n[tiering]\nenabled = "@ + bool_text(s.tiering.enabled) + "\n"@
}

fn env_var(name: &str, value: String) -> (r: EnvVar)
    ensures
        r.name@ == name@,
        r.value@ == value@,
{
    EnvVar { name: name.to_owned(), value }
}

fn container_port(name: &str, port: u16) -> (r: ContainerPort)
    ensures
        r.name@ == name@,
        r.port == port,
{
    ContainerPort { name: name.to_owned(), port }
}

fn bool_str(b: bool) -> (r: &'static str)
    ensures
        r@ == bool_text(b),
{
    if b {
        "true"
    } else {
        "false"
    }
}

fn append_str(out: &mut String, s: &str)
    ensures
        final(out)@ == old(out)@ + s@,
{
    out.append(s);
}

fn append_decimal(out: &mut String, n: u64)
    ensures
        final(out)@ == old(out)@ + decimal(n as nat),
{
    let d = u64_to_decimal(n);
    out.append(d.as_str());
}

/// Watches MiniKV clusters and reconciles them.
pub struct MiniKVController {
    config: ControllerConfig,
    /// Watched clusters, by `namespace/name`
    clusters: StrMap<MiniKVClusterState>,
}

/// The key a cluster is watched under: `namespace/name`.
pub open spec fn cluster_key(name: Seq<char>, namespace: Seq<char>) -> Seq<char> {
    namespace + seq!['/'] + name
}

fn make_cluster_key(name: &str, namespace: &str) -> (r: String)
    ensures
        r@ == cluster_key(name@, namespace@),
{
    let mut k = namespace.to_owned();
    proof {
        reveal_strlit("/");
    }
    k.append("/");
    k.append(name);
    k
}

/// The status condition a successful reconciliation records.
pub open spec fn ready_condition(c: ClusterCondition, now: i64) -> bool {
    &&& c.condition_type@ == "Ready"@
    &&& c.status@ == "True"@
    &&& c.last_transition_time == now
    &&& c.reason@ == "ReconcileSucceeded"@
    &&& c.message@ == "Cluster reconciled successfully"@
}

/// Reconciliation settles: a cluster that a reconciliation brought up to
/// date (its generation kept, its last reconciled generation set to it)
/// counts as reconciled, so reconciling it again changes nothing until its
/// generation moves.
pub proof fn lemma_reconcile_settles(before: MiniKVClusterState, after: MiniKVClusterState)
    requires
        after.generation == before.generation,
        after.last_reconciled_generation == before.generation,
    ensures
        after.generation == after.last_reconciled_generation,
{
}

/// What a status update at `now` makes of a cluster: the same cluster,
/// running, its current generation marked reconciled, with one more status
/// condition, a Ready one made at `now`.
pub open spec fn status_updated(before: MiniKVClusterState, after: MiniKVClusterState, now: i64) -> bool {
    &&& after.status.phase == ClusterPhase::Running
    &&& after.generation == before.generation
    &&& after.last_reconciled_generation == before.generation
    &&& after.name == before.name
    &&& after.namespace == before.namespace
    &&& after.status.conditions@.len() == before.status.conditions@.len() + 1
    &&& after.status.conditions@.take(before.status.conditions@.len() as int)
        == before.status.conditions@
    &&& ready_condition(after.status.conditions@.last(), now)
}

impl MiniKVController {
    /// The controller's configuration.
    pub closed spec fn config_view(&self) -> ControllerConfig {
        self.config
    }

    /// The watched clusters, by `namespace/name`.
    pub closed spec fn clusters_view(&self) -> Map<Seq<char>, MiniKVClusterState> {
        self.clusters@
    }

    /// A controller that watches no cluster yet.
    pub fn new(config: ControllerConfig) -> (r: Self)
        ensures
            r.config_view() == config,
            r.clusters_view() == Map::<Seq<char>, MiniKVClusterState>::empty(),
    {
        Self { config, clusters: StrMap::new() }
    }

    /// The standard labels of `component` of cluster `cluster_name`.
    pub fn generate_labels(&self, cluster_name: &str, component: &str) -> (r: StrMap<String>)
        ensures
            labels_view(r) == standard_labels(cluster_name@, component@),
    {
        let mut labels: StrMap<String> = StrMap::new();
        labels.insert("app.kubernetes.io/name".to_owned(), "minikv".to_owned());
        labels.insert("app.kubernetes.io/instance".to_owned(), cluster_name.to_owned());
        labels.insert("app.kubernetes.io/component".to_owned(), component.to_owned());
        labels.insert("app.kubernetes.io/managed-by".to_owned(), "minikv-operator".to_owned());
        proof {
            assert(labels_view(labels) =~= standard_labels(cluster_name@, component@));
        }
        labels
    }

    /// The environment of the coordinators of `cluster`.
    pub fn generate_coordinator_env(&self, cluster: &MiniKVClusterState) -> (r: Vec<EnvVar>)
        ensures
            env_view(r@) == coordinator_env(*cluster),
    {
        let mut env: Vec<EnvVar> = Vec::new();
        env.push(env_var("MINIKV_NODE_ROLE", "coordinator".to_owned()));
        env.push(env_var("MINIKV_CLUSTER_NAME", cluster.name.clone()));
        if cluster.spec.security.tls.enabled {
            env.push(env_var("MINIKV_TLS_ENABLED", "true".to_owned()));
        }
        if cluster.spec.security.authentication.enabled {
            env.push(env_var("MINIKV_AUTH_ENABLED", "true".to_owned()));
        }
        if cluster.spec.geo.enabled {
            env.push(env_var("MINIKV_GEO_REGION", cluster.spec.geo.region.clone()));
            env.push(env_var("MINIKV_GEO_ZONE", cluster.spec.geo.zone.clone()));
        }
        proof {
            assert(env_view(env@) =~= coordinator_env(*cluster));
        }
        env
    }

    /// The environment of the volume servers of `cluster`.
    pub fn generate_volume_env(&self, cluster: &MiniKVClusterState) -> (r: Vec<EnvVar>)
        ensures
            env_view(r@) == volume_env(*cluster),
    {
        let mut env: Vec<EnvVar> = Vec::new();
        env.push(env_var("MINIKV_NODE_ROLE", "volume".to_owned()));
        env.push(env_var("MINIKV_CLUSTER_NAME", cluster.name.clone()));
        env.push(
            env_var(
                "MINIKV_REPLICATION_FACTOR",
                u64_to_decimal(cluster.spec.volumes.replication_factor as u64),
            ),
        );
        if cluster.spec.tiering.enabled {
            env.push(env_var("MINIKV_TIERING_ENABLED", "true".to_owned()));
        }
        if cluster.spec.timeseries.enabled {
            env.push(env_var("MINIKV_TIMESERIES_ENABLED", "true".to_owned()));
            env.push(
                env_var(
                    "MINIKV_TIMESERIES_RETENTION_DAYS",
                    u64_to_decimal(cluster.spec.timeseries.retention_days as u64),
                ),
            );
        }
        proof {
            assert(env_view(env@) =~= volume_env(*cluster));
        }
        env
    }

    /// The StatefulSet of the coordinators of `cluster`: `<name>-coordinator`,
    /// with the coordinator spec, standard labels and environment, and the
    /// http (8080), grpc (5000) and raft (5001) ports.
    pub fn generate_coordinator_statefulset(&self, cluster: &MiniKVClusterState) -> (r:
        StatefulSetSpec)
        ensures
            r.name@ == cluster.name@ + "-coordinator"@,
            r.namespace@ == cluster.namespace@,
            r.replicas == cluster.spec.coordinators.replicas,
            r.image@ == cluster.spec.coordinators.image@,
            labels_view(r.labels) == standard_labels(cluster.name@, "coordinator"@),
            env_view(r.env@) == coordinator_env(*cluster),
            ports_view(r.ports@) == seq![("http"@, 8080u16), ("grpc"@, 5000u16), ("raft"@, 5001u16)],
    {
        let spec = &cluster.spec.coordinators;
        let mut name = cluster.name.clone();
        name.append("-coordinator");
        let mut ports: Vec<ContainerPort> = Vec::new();
        ports.push(container_port("http", 8080));
        ports.push(container_port("grpc", 5000));
        ports.push(container_port("raft", 5001));
        proof {
            assert(ports_view(ports@) =~= seq![("http"@, 8080u16), ("grpc"@, 5000u16), ("raft"@, 5001u16)]);
        }
        StatefulSetSpec {
            name,
            namespace: cluster.namespace.clone(),
            replicas: spec.replicas,
            image: spec.image.clone(),
            resources: spec.resources.clone(),
            storage: spec.storage.clone(),
            labels: self.generate_labels(cluster.name.as_str(), "coordinator"),
            env: self.generate_coordinator_env(cluster),
            ports,
        }
    }

    /// The StatefulSet of the volume servers of `cluster`: `<name>-volume`,
    /// with the volume spec, standard labels and environment, and the http
    /// (8080) and grpc (6000) ports.
    pub fn generate_volume_statefulset(&self, cluster: &MiniKVClusterState) -> (r: StatefulSetSpec)
        ensures
            r.name@ == cluster.name@ + "-volume"@,
            r.namespace@ == cluster.namespace@,
            r.replicas == cluster.spec.volumes.replicas,
            r.image@ == cluster.spec.volumes.image@,
            labels_view(r.labels) == standard_labels(cluster.name@, "volume"@),
            env_view(r.env@) == volume_env(*cluster),
            ports_view(r.ports@) == seq![("http"@, 8080u16), ("grpc"@, 6000u16)],
    {
        let spec = &cluster.spec.volumes;
        let mut name = cluster.name.clone();
        name.append("-volume");
        let mut ports: Vec<ContainerPort> = Vec::new();
        ports.push(container_port("http", 8080));
        ports.push(container_port("grpc", 6000));
        proof {
            assert(ports_view(ports@) =~= seq![("http"@, 8080u16), ("grpc"@, 6000u16)]);
        }
        StatefulSetSpec {
            name,
            namespace: cluster.namespace.clone(),
            replicas: spec.replicas,
            image: spec.image.clone(),
            resources: spec.resources.clone(),
            storage: spec.storage.clone(),
            labels: self.generate_labels(cluster.name.as_str(), "volume"),
            env: self.generate_volume_env(cluster),
            ports,
        }
    }

    /// The MiniKV configuration file of `cluster`.
    pub fn generate_config(&self, cluster: &MiniKVClusterState) -> (r: String)
        ensures
            r@ == config_text(*cluster),
    {
        let s = &cluster.spec;
        let mut out = String::new();
        append_str(&mut out, "# MiniKV Configuration (generated by operator)\n# Cluster: ");
        append_str(&mut out, cluster.name.as_str());
        append_str(&mut out, "\n\n[coordinator]\nreplicas = ");
        append_decimal(&mut out, s.coordinators.replicas as u64);
        append_str(&mut out, "\n\n[volume]\nreplicas = ");
        append_decimal(&mut out, s.volumes.replicas as u64);
        append_str(&mut out, "\nreplication_factor = ");
        append_decimal(&mut out, s.volumes.replication_factor as u64);
        append_str(&mut out, "\n\n[security]\ntls_enabled = ");
        append_str(&mut out, bool_str(s.security.tls.enabled));
        append_str(&mut out, "\nauth_enabled = ");
        append_str(&mut out, bool_str(s.security.authentication.enabled));
        append_str(&mut out, "\nencryption_at_rest = ");
        append_str(&mut out, bool_str(s.security.encryption.at_rest));
        append_str(&mut out, "\n\n[observability]\nmetrics_enabled = ");
        append_str(&mut out, bool_str(s.observability.metrics.enabled));
        append_str(&mut out, "\nmetrics_port = ");
        append_decimal(&mut out, s.observability.metrics.port as u64);
        append_str(&mut out, "\n\n[geo]\nenabled = ");
        append_str(&mut out, bool_str(s.geo.enabled));
        append_str(&mut out, "\nregion = \"");
        append_str(&mut out, s.geo.region.as_str());
        append_str(&mut out, "\"\nzone = \"");
        append_str(&mut out, s.geo.zone.as_str());
        append_str(&mut out, "\"\n\n[timeseries]\nenabled = ");
        append_str(&mut out, bool_str(s.timeseries.enabled));
        append_str(&mut out, "\nretention_days = ");
        append_decimal(&mut out, s.timeseries.retention_days as u64);
        append_str(&mut out, "\n\n[tiering]\nenabled = ");
        append_str(&mut out, bool_str(s.tiering.enabled));
        append_str(&mut out, "\n");
        proof {
            assert(out@ =~= config_text(*cluster));
        }
        out
    }

    /// The autoscaler of the volume servers of `cluster`.
    pub fn generate_autoscaler(&self, cluster: &MiniKVClusterState) -> (r: HpaSpec)
        ensures
            r.name@ == cluster.name@ + "-volume"@,
            r.namespace@ == cluster.namespace@,
            r.target_ref@ == cluster.name@ + "-volume"@,
            r.min_replicas == cluster.spec.autoscaling.min_replicas,
            r.max_replicas == cluster.spec.autoscaling.max_replicas,
            r.target_cpu_utilization == cluster.spec.autoscaling.target_cpu_utilization,
            r.target_memory_utilization == cluster.spec.autoscaling.target_memory_utilization,
            r.scale_down_stabilization_secs == cluster.spec.autoscaling.scale_down_stabilization,
    {
        let mut name = cluster.name.clone();
        name.append("-volume");
        let mut target = cluster.name.clone();
        target.append("-volume");
        HpaSpec {
            name,
            namespace: cluster.namespace.clone(),
            target_ref: target,
            min_replicas: cluster.spec.autoscaling.min_replicas,
            max_replicas: cluster.spec.autoscaling.max_replicas,
            target_cpu_utilization: cluster.spec.autoscaling.target_cpu_utilization,
            target_memory_utilization: cluster.spec.autoscaling.target_memory_utilization,
            scale_down_stabilization_secs: cluster.spec.autoscaling.scale_down_stabilization,
        }
    }

    /// The backup job of `cluster`: `<name>-backup`, on the backup schedule,
    /// with the coordinator image, to the configured destination.
    pub fn generate_backup_job(&self, cluster: &MiniKVClusterState) -> (r: CronJobSpec)
        ensures
            r.name@ == cluster.name@ + "-backup"@,
            r.namespace@ == cluster.namespace@,
            r.schedule@ == cluster.spec.backup.schedule@,
            r.image@ == cluster.spec.coordinators.image@,
            r.destination_type@ == cluster.spec.backup.destination.destination_type@,
            r.destination_bucket@ == cluster.spec.backup.destination.bucket@,
            r.retention == cluster.spec.backup.retention,
    {
        let mut name = cluster.name.clone();
        name.append("-backup");
        CronJobSpec {
            name,
            namespace: cluster.namespace.clone(),
            schedule: cluster.spec.backup.schedule.clone(),
            image: cluster.spec.coordinators.image.clone(),
            destination_type: cluster.spec.backup.destination.destination_type.clone(),
            destination_bucket: cluster.spec.backup.destination.bucket.clone(),
            retention: cluster.spec.backup.retention,
        }
    }

    /// Marks cluster `namespace/name`, if watched, as running, reconciled at
    /// its current generation, with a `Ready` condition recorded at `now`.
    pub fn update_status_at(&mut self, name: &str, namespace: &str, now: i64)
        ensures
            final(self).config_view() == old(self).config_view(),
            final(self).clusters_view().dom() == old(self).clusters_view().dom(),
            forall|k: Seq<char>|
                #[trigger] old(self).clusters_view().contains_key(k) && k != cluster_key(
                    name@,
                    namespace@,
                ) ==> final(self).clusters_view()[k] == old(self).clusters_view()[k],
            old(self).clusters_view().contains_key(cluster_key(name@, namespace@)) ==> {
                let before = old(self).clusters_view()[cluster_key(name@, namespace@)];
                let after = final(self).clusters_view()[cluster_key(name@, namespace@)];
                &&& after.status.phase == ClusterPhase::Running
                &&& after.last_reconciled_generation == before.generation
                &&& after.generation == before.generation
                &&& after.name == before.name
                &&& after.namespace == before.namespace
                &&& after.status.conditions@.len() == before.status.conditions@.len() + 1
                &&& after.status.conditions@.take(before.status.conditions@.len() as int)
                    == before.status.conditions@
                &&& ready_condition(after.status.conditions@.last(), now)
            },
    {
        let key = make_cluster_key(name, namespace);
        let mut clusters: StrMap<MiniKVClusterState> = StrMap::new();
        std::mem::swap(&mut clusters, &mut self.clusters);
        match clusters.find(key.as_str()) {
            Some(i) => {
                proof {
                    use_type_invariant(&clusters);
                    clusters.lemma_view();
                    assert(clusters@[key@] == clusters.value_seq()[i as int]);
                }
                let mut c = clusters.replace_value_at(i, placeholder_state());
                let ghost before = c;
                c.status.phase = ClusterPhase::Running;
                c.last_reconciled_generation = c.generation;
                c.status.conditions.push(
                    ClusterCondition {
                        condition_type: "Ready".to_owned(),
                        status: "True".to_owned(),
                        last_transition_time: now,
                        reason: "ReconcileSucceeded".to_owned(),
                        message: "Cluster reconciled successfully".to_owned(),
                    },
                );
                proof {
                    assert(c.status.conditions@.take(before.status.conditions@.len() as int)
                        =~= before.status.conditions@);
                }
                clusters.set_value_at(i, c);
            },
            None => {},
        }
        self.clusters = clusters;
    }

    /// Marks cluster `namespace/name`, if watched, as reconciled now.
    pub fn update_status(&mut self, name: &str, namespace: &str)
        ensures
            final(self).config_view() == old(self).config_view(),
            final(self).clusters_view().dom() == old(self).clusters_view().dom(),
            forall|k: Seq<char>|
                #[trigger] old(self).clusters_view().contains_key(k) && k != cluster_key(
                    name@,
                    namespace@,
                ) ==> final(self).clusters_view()[k] == old(self).clusters_view()[k],
            old(self).clusters_view().contains_key(cluster_key(name@, namespace@)) ==> {
                let before = old(self).clusters_view()[cluster_key(name@, namespace@)];
                let after = final(self).clusters_view()[cluster_key(name@, namespace@)];
                &&& after.status.phase == ClusterPhase::Running
                &&& after.last_reconciled_generation == before.generation
                &&& after.status.conditions@.len() == before.status.conditions@.len() + 1
            },
    {
        let now = now_nanos();
        self.update_status_at(name, namespace, now);
    }

    /// Reconciles cluster `namespace/name` at `now`: `Skip` if it is not
    /// watched; if its current generation was already reconciled, nothing
    /// changes; otherwise the resources its spec calls for are generated
    /// and its status is updated. Then it is requeued after the
    /// reconciliation interval.
    pub fn reconcile_at(&mut self, name: &str, namespace: &str, now: i64) -> (r: Result<
        ReconcileAction,
        Error,
    >)
        ensures
            final(self).config_view() == old(self).config_view(),
            final(self).clusters_view().dom() == old(self).clusters_view().dom(),
            !old(self).clusters_view().contains_key(cluster_key(name@, namespace@)) ==> {
                &&& r == Ok::<ReconcileAction, Error>(ReconcileAction::Skip)
                &&& final(self).clusters_view() == old(self).clusters_view()
            },
            old(self).clusters_view().contains_key(cluster_key(name@, namespace@)) ==> {
                let before = old(self).clusters_view()[cluster_key(name@, namespace@)];
                let after = final(self).clusters_view()[cluster_key(name@, namespace@)];
                &&& r == Ok::<ReconcileAction, Error>(
                    ReconcileAction::RequeueAfter(old(self).config_view().reconcile_interval_secs),
                )
                &&& before.generation == before.last_reconciled_generation
                    ==> final(self).clusters_view() == old(self).clusters_view()
                &&& before.generation != before.last_reconciled_generation ==> status_updated(
                    before,
                    after,
                    now,
                )
            },
            forall|k: Seq<char>|
                #[trigger] old(self).clusters_view().contains_key(k) && k != cluster_key(
                    name@,
                    namespace@,
                ) ==> final(self).clusters_view()[k] == old(self).clusters_view()[k],
    {
        let key = make_cluster_key(name, namespace);
        let (generation, last) = match self.clusters.get(key.as_str()) {
            Some(c) => (c.generation, c.last_reconciled_generation),
            None => {
                return Ok(ReconcileAction::Skip);
            },
        };
        if generation == last {
            return Ok(ReconcileAction::RequeueAfter(self.config.reconcile_interval_secs));
        }
        match self.clusters.get(key.as_str()) {
            Some(c) => {
                let _coordinators = self.generate_coordinator_statefulset(c);
                let _volumes = self.generate_volume_statefulset(c);
                let _config = self.generate_config(c);
                if c.spec.autoscaling.enabled {
                    let _hpa = self.generate_autoscaler(c);
                }
                if c.spec.backup.enabled {
                    let _backup = self.generate_backup_job(c);
                }
            },
            None => {},
        }
        self.update_status_at(name, namespace, now);
        Ok(ReconcileAction::RequeueAfter(self.config.reconcile_interval_secs))
    }

    /// Reconciles cluster `namespace/name` now.
    pub fn reconcile(&mut self, name: &str, namespace: &str) -> (r: Result<ReconcileAction, Error>)
        ensures
            final(self).config_view() == old(self).config_view(),
            final(self).clusters_view().dom() == old(self).clusters_view().dom(),
            !old(self).clusters_view().contains_key(cluster_key(name@, namespace@)) ==> {
                &&& r == Ok::<ReconcileAction, Error>(ReconcileAction::Skip)
                &&& final(self).clusters_view() == old(self).clusters_view()
            },
            old(self).clusters_view().contains_key(cluster_key(name@, namespace@)) ==> {
                let before = old(self).clusters_view()[cluster_key(name@, namespace@)];
                let after = final(self).clusters_view()[cluster_key(name@, namespace@)];
                &&& r == Ok::<ReconcileAction, Error>(
                    ReconcileAction::RequeueAfter(old(self).config_view().reconcile_interval_secs),
                )
                &&& before.generation == before.last_reconciled_generation
                    ==> final(self).clusters_view() == old(self).clusters_view()
                &&& before.generation != before.last_reconciled_generation ==> exists|now: i64|
                    #[trigger] status_updated(before, after, now)
            },
            forall|k: Seq<char>|
                #[trigger] old(self).clusters_view().contains_key(k) && k != cluster_key(
                    name@,
                    namespace@,
                ) ==> final(self).clusters_view()[k] == old(self).clusters_view()[k],
    {
        let now = now_nanos();
        self.reconcile_at(name, namespace, now)
    }

    /// Stops watching cluster `namespace/name`.
    pub fn handle_delete(&mut self, name: &str, namespace: &str) -> (r: Result<(), Error>)
        ensures
            r is Ok,
            final(self).config_view() == old(self).config_view(),
            final(self).clusters_view() == old(self).clusters_view().remove(
                cluster_key(name@, namespace@),
            ),
    {
        let key = make_cluster_key(name, namespace);
        let mut clusters: StrMap<MiniKVClusterState> = StrMap::new();
        std::mem::swap(&mut clusters, &mut self.clusters);
        let _removed = clusters.remove(key.as_str());
        self.clusters = clusters;
        Ok(())
    }
}

/// A cluster state that stands in while the real one is being updated: no
/// name or namespace, no replicas, pending, generation zero.
fn placeholder_state() -> (r: MiniKVClusterState)
    ensures
        r.name@ == Seq::<char>::empty(),
        r.namespace@ == Seq::<char>::empty(),
        r.spec.coordinators.replicas == 0,
        r.spec.volumes.replicas == 0,
        r.spec.volumes.replication_factor == 0,
        r.status.phase == ClusterPhase::Pending,
        r.status.conditions@.len() == 0,
        r.generation == 0,
        r.last_reconciled_generation == 0,
{
    MiniKVClusterState {
        name: String::new(),
        namespace: String::new(),
        spec: MiniKVClusterSpec {
            coordinators: CoordinatorSpec {
                replicas: 0,
                image: String::new(),
                resources: ResourceRequirements::default(),
                storage: StorageSpec::default(),
            },
            volumes: VolumeSpec {
                replicas: 0,
                image: String::new(),
                replication_factor: 0,
                resources: ResourceRequirements::default(),
                storage: StorageSpec::default(),
            },
            security: SecuritySpec::default(),
            observability: ObservabilitySpec::default(),
            autoscaling: AutoscalingSpec::default(),
            backup: BackupSpec::default(),
            geo: GeoSpec::default(),
            timeseries: TimeseriesSpec::default(),
            tiering: TieringSpec::default(),
        },
        status: MiniKVClusterStatus::default(),
        generation: 0,
        last_reconciled_generation: 0,
    }
}

} // verus!
