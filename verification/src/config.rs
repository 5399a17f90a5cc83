//! Engine configuration: who the local actor is, which controller the
//! host wires, where the store lives, what the host declares about
//! itself, and the edge-strategy knobs.

use vstd::prelude::*;

verus! {

#[derive(Debug, Clone, PartialEq, Eq)]
pub struct MotifConfig {
    pub identity: IdentityConfig,
    pub controller: ControllerConfig,
    pub storage: StorageConfig,
    pub capability: CapabilityConfig,
    pub edge: EdgeConfig,
}

/// The actor stamped on every mutation this engine produces.
#[derive(Debug, Clone, PartialEq, Eq)]
pub struct IdentityConfig {
    pub user_id: String,
    pub device_id: String,
}

/// The kind of controller the host means to wire.
#[derive(Debug, Clone, PartialEq, Eq)]
pub struct ControllerConfig {
    pub kind: String,
}

/// Where the store lives.
#[derive(Debug, Clone, PartialEq, Eq)]
pub struct StorageConfig {
    pub path: String,
}

/// Facts the host declares about itself; `None` means undeclared.
#[derive(Debug, Clone, PartialEq, Eq)]
pub struct CapabilityConfig {
    pub ram_mb: Option<u64>,
    pub cpu_cores: Option<u32>,
    pub storage_mb: Option<u64>,
    pub arch: Option<String>,
    pub gpu_present: Option<bool>,
}

impl Default for CapabilityConfig {
    fn default() -> (r: CapabilityConfig)
        ensures
            r.ram_mb is None,
            r.cpu_cores is None,
            r.storage_mb is None,
            r.arch is None,
            r.gpu_present is None,
    {
        CapabilityConfig { ram_mb: None, cpu_cores: None, storage_mb: None, arch: None, gpu_present: None }
    }
}

/// Edge-strategy settings. The controller worker's retry policy reads
/// the last two.
#[derive(Debug, Clone, PartialEq, Eq)]
pub struct EdgeConfig {
    pub foreshadow_eager: bool,
    pub retention_confirmed_secs: u64,
    pub schema_cache: String,
    pub controller_retry_max_backoff_ms: u64,
    /// 0 means retry without limit.
    pub controller_retry_max_attempts: u32,
}

/// Default retention of confirmed mutations, in seconds.
pub const DEFAULT_RETENTION_SECS: u64 = 3600;

/// Default ceiling of the retry backoff, in milliseconds.
pub const DEFAULT_RETRY_MAX_BACKOFF_MS: u64 = 30000;

impl Default for EdgeConfig {
    fn default() -> (r: EdgeConfig)
        ensures
            r.foreshadow_eager,
            r.retention_confirmed_secs == DEFAULT_RETENTION_SECS,
            r.schema_cache@ == "push"@,
            r.controller_retry_max_backoff_ms == DEFAULT_RETRY_MAX_BACKOFF_MS,
            r.controller_retry_max_attempts == 0,
    {
        proof {
            reveal_strlit("push");
        }
        EdgeConfig {
            foreshadow_eager: true,
            retention_confirmed_secs: DEFAULT_RETENTION_SECS,
            schema_cache: "push".to_owned(),
            controller_retry_max_backoff_ms: DEFAULT_RETRY_MAX_BACKOFF_MS,
            controller_retry_max_attempts: 0,
        }
    }
}

} // verus!
