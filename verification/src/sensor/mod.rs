//! Sensor events and the parsers behind the process, network and file sensors.

use vstd::prelude::*;

pub mod fim;
pub mod network;
pub mod process;

verus! {

/// Unified event type emitted by all sensors.
#[derive(Debug, Clone)]
pub enum SensorEvent {
    /// A new process was spawned (fork/exec seen by the process sensor).
    ProcessSpawn { pid: u32, ppid: u32, uid: u32, comm: String, cmdline: String },
    /// A process exited.
    ProcessExit { pid: u32 },
    /// Outbound TCP connection, correlated to a PID.
    NetConnect { pid: u32, comm: String, src_ip: String, dst_ip: String, dst_port: u16 },
    /// A critical file was modified.
    FileModified { path: String },
    /// SSH/PAM authentication failure.
    AuthFailure { user: String, src_ip: Option<String> },
}

} // verus!
