//! Response types of the admin dashboard's API.

use vstd::prelude::*;

verus! {

/// Cluster overview shown on the dashboard.
#[derive(Debug, Clone)]
pub struct DashboardStats {
    pub cluster_status: String,
    pub role: String,
    pub volume_count: u32,
    pub object_count: u64,
    pub storage_bytes: u64,
    pub node_id: String,
    pub raft_term: u64,
    pub leader: Option<String>,
    pub uptime_secs: u64,
}

/// Plugin summary for UI
#[derive(Debug, Clone)]
pub struct PluginSummary {
    pub id: String,
    pub name: String,
    pub plugin_type: String,
    pub version: String,
    pub status: String,
}

/// Plugin list response
#[derive(Debug, Clone)]
pub struct PluginListResponse {
    pub plugins: Vec<PluginSummary>,
}

/// Remote datacenter status for UI
#[derive(Debug, Clone)]
pub struct RemoteDCStatus {
    pub id: String,
    pub name: String,
    pub healthy: bool,
    pub lag_secs: u64,
    pub pending_events: usize,
    pub last_sync: Option<String>,
}

/// Replication status response
#[derive(Debug, Clone)]
pub struct ReplicationStatusResponse {
    pub enabled: bool,
    pub local_dc: String,
    pub remote_dcs: Vec<RemoteDCStatus>,
}

} // verus!
