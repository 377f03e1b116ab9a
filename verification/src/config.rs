//! Agent configuration: score thresholds and the identity of this agent.

use vstd::prelude::*;

verus! {

/// Score thresholds of the risk engine, in thousandths of a risk point
/// (a score of 40 points is written 40_000).
#[derive(Clone, Copy, Debug)]
pub struct Thresholds {
    /// Score at which an entity becomes suspicious.
    pub suspicious: u64,
    /// Score at which an entity becomes blocked (containment triggers).
    pub blocked: u64,
    /// Score removed per minute of inactivity by the decay pass.
    pub decay_per_min: u64,
}

impl Default for Thresholds {
    /// 40 points suspicious, 80 points blocked, 5 points of decay per minute.
    fn default() -> (t: Self)
        ensures
            t.suspicious == 40_000,
            t.blocked == 80_000,
            t.decay_per_min == 5_000,
    {
        Thresholds { suspicious: 40_000, blocked: 80_000, decay_per_min: 5_000 }
    }
}


/// Agent configuration.
pub struct AgentConfig {
    /// Unique identifier for this agent instance.
    pub agent_id: String,
    pub hostname: String,
    pub os_info: String,
    /// Backend URL (e.g. `https://192.168.1.100:8443`).
    pub backend_url: String,
    /// Directory holding `ca.crt`, `agent.crt` and `agent.key`.
    pub cert_dir: String,
    /// Risk-engine thresholds.
    pub thresholds: Thresholds,
    /// Telemetry batching interval in seconds.
    pub batch_interval_secs: u64,
}

/// The configuration used when no configuration file can be read: the agent
/// id `agent_id` (a fresh random UUID that the caller draws), the host name (`"unknown"` when it cannot be read), the
/// operating system, the backend URL and certificate directory from the
/// environment when set (else `https://localhost:8443` and
/// `/etc/aegisec/certs`), default thresholds and a 10-second batch interval.
pub fn fallback_config(
    hostname: Option<String>,
    os_info: String,
    backend_env: Option<String>,
    cert_dir_env: Option<String>,
    agent_id: String,
) -> (cfg: AgentConfig)
    ensures
        cfg.agent_id@ == agent_id@,
        cfg.hostname@ == (match hostname {
            Some(h) => h@,
            None => "unknown"@,
        }),
        cfg.os_info@ == os_info@,
        cfg.backend_url@ == (match backend_env {
            Some(b) => b@,
            None => "https://localhost:8443"@,
        }),
        cfg.cert_dir@ == (match cert_dir_env {
            Some(c) => c@,
            None => "/etc/aegisec/certs"@,
        }),
        cfg.thresholds.suspicious == 40_000,
        cfg.thresholds.blocked == 80_000,
        cfg.thresholds.decay_per_min == 5_000,
        cfg.batch_interval_secs == 10,
{
    let hostname = match hostname {
        Some(h) => h,
        None => "unknown".to_owned(),
    };
    let backend_url = match backend_env {
        Some(b) => b,
        None => "https://localhost:8443".to_owned(),
    };
    let cert_dir = match cert_dir_env {
        Some(c) => c,
        None => "/etc/aegisec/certs".to_owned(),
    };
    AgentConfig {
        agent_id,
        hostname,
        os_info,
        backend_url,
        cert_dir,
        thresholds: Thresholds::default(),
        batch_interval_secs: 10,
    }
}

} // verus!
