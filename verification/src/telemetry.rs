//! Telemetry framing: the payload reported for each scored event, the
//! heartbeat, the routing between the priority and the batched channel, and
//! the batch that is flushed at 50 events or on each tick.

use vstd::prelude::*;
use vstd::string::StringExecFns;
use crate::config::AgentConfig;
use crate::drs::{ActionView, ContainmentAction, EntityState, ScoreResult};
use crate::sensor::SensorEvent;
use crate::text::{decimal, push_char, push_decimal};

verus! {

/// The payload sent to the backend for one scored event.
pub struct TelemetryPayload {
    pub agent_id: String,
    pub hostname: String,
    pub os_info: String,
    pub timestamp: String,
    pub event_type: String,
    pub process_name: Option<String>,
    pub cmdline: Option<String>,
    /// The entity's score, in thousandths of a point.
    pub risk_score: u64,
    pub severity: String,
    pub action_taken: String,
}

/// The mathematical value of a [`TelemetryPayload`].
pub struct PayloadView {
    pub agent_id: Seq<char>,
    pub hostname: Seq<char>,
    pub os_info: Seq<char>,
    pub timestamp: Seq<char>,
    pub event_type: Seq<char>,
    pub process_name: Option<Seq<char>>,
    pub cmdline: Option<Seq<char>>,
    pub risk_score: u64,
    pub severity: Seq<char>,
    pub action_taken: Seq<char>,
}

/// The value of an optional string.
pub open spec fn opt_chars(s: Option<String>) -> Option<Seq<char>> {
    match s {
        Some(x) => Some(x@),
        None => None,
    }
}

impl View for TelemetryPayload {
    type V = PayloadView;

    open spec fn view(&self) -> PayloadView {
        PayloadView {
            agent_id: self.agent_id@,
            hostname: self.hostname@,
            os_info: self.os_info@,
            timestamp: self.timestamp@,
            event_type: self.event_type@,
            process_name: opt_chars(self.process_name),
            cmdline: opt_chars(self.cmdline),
            risk_score: self.risk_score,
            severity: self.severity@,
            action_taken: self.action_taken@,
        }
    }
}

/// The event type, process name and command line a payload reports for
/// `event`.
pub open spec fn event_fields(event: SensorEvent) -> (Seq<char>, Option<Seq<char>>, Option<
    Seq<char>,
>) {
    match event {
        SensorEvent::ProcessSpawn { pid, ppid, uid, comm, cmdline } => (
            "PROCESS_SPAWN"@,
            Some(comm@),
            Some(cmdline@),
        ),
        SensorEvent::NetConnect { pid, comm, src_ip, dst_ip, dst_port } => (
            "NET_CONNECT"@,
            Some(comm@),
            Some(dst_ip@ + seq![':'] + decimal(dst_port as nat)),
        ),
        SensorEvent::FileModified { path } => ("FILE_MODIFIED"@, None, Some(path@)),
        SensorEvent::AuthFailure { user, src_ip } => (
            "AUTH_FAILURE"@,
            Some(user@),
            opt_chars(src_ip),
        ),
        SensorEvent::ProcessExit { pid } => (
            "PROCESS_EXIT"@,
            None,
            Some("pid="@ + decimal(pid as nat)),
        ),
    }
}

/// The severity a payload reports for an entity state.
pub open spec fn severity_of(state: EntityState) -> Seq<char> {
    match state {
        EntityState::Blocked => "BLOCKED"@,
        EntityState::Suspicious => "SUSPICIOUS"@,
        EntityState::Clean => "INFO"@,
    }
}

/// The action a payload reports.
pub open spec fn action_text(action: Option<ActionView>) -> Seq<char> {
    match action {
        Some(ActionView::KillProcess { pid, uid }) => "KILL_PROCESS:"@ + decimal(pid as nat),
        Some(ActionView::BlockIp { ip, uid }) => "BLOCK_IP:"@ + ip,
        Some(ActionView::AlertOnly) => "ALERT_ONLY"@,
        None => "NONE"@,
    }
}

/// The payload for `event` scored as `result`, stamped `timestamp`.
pub open spec fn payload_of(
    cfg: AgentConfig,
    event: SensorEvent,
    result: ScoreResult,
    timestamp: Seq<char>,
) -> PayloadView {
    let (event_type, process_name, cmdline) = event_fields(event);
    PayloadView {
        agent_id: cfg.agent_id@,
        hostname: cfg.hostname@,
        os_info: cfg.os_info@,
        timestamp,
        event_type,
        process_name,
        cmdline,
        risk_score: result.score,
        severity: severity_of(result.state),
        action_taken: action_text(result@.action),
    }
}

fn opt_clone(s: &Option<String>) -> (r: Option<String>)
    ensures
        opt_chars(r) == opt_chars(*s),
{
    match s {
        Some(x) => Some(x.clone()),
        None => None,
    }
}

/// The payload for `event` scored as `result`, stamped `timestamp` (the
/// current UTC time in RFC 3339 form, as the caller reads it from the clock).
pub fn build_payload(cfg: &AgentConfig, event: &SensorEvent, result: &ScoreResult, timestamp: String) -> (p:
    TelemetryPayload)
    ensures
        p@ == payload_of(*cfg, *event, *result, timestamp@),
        p.agent_id@ == cfg.agent_id@,
        p.hostname@ == cfg.hostname@,
        p.os_info@ == cfg.os_info@,
        p.timestamp@ == timestamp@,
        p.risk_score == result.score,
        match *event {
            SensorEvent::ProcessSpawn { comm, cmdline, .. } => p.event_type@ == "PROCESS_SPAWN"@
                && p@.process_name == Some(comm@) && p@.cmdline == Some(cmdline@),
            SensorEvent::NetConnect { comm, dst_ip, dst_port, .. } => p.event_type@
                == "NET_CONNECT"@ && p@.process_name == Some(comm@) && p@.cmdline == Some(
                dst_ip@ + seq![':'] + decimal(dst_port as nat),
            ),
            SensorEvent::FileModified { path } => p.event_type@ == "FILE_MODIFIED"@
                && p@.process_name is None && p@.cmdline == Some(path@),
            SensorEvent::AuthFailure { user, src_ip } => p.event_type@ == "AUTH_FAILURE"@
                && p@.process_name == Some(user@) && p@.cmdline == opt_chars(src_ip),
            SensorEvent::ProcessExit { pid } => p.event_type@ == "PROCESS_EXIT"@
                && p@.process_name is None && p@.cmdline == Some("pid="@ + decimal(pid as nat)),
        },
        p.severity@ == match result.state {
            EntityState::Blocked => "BLOCKED"@,
            EntityState::Suspicious => "SUSPICIOUS"@,
            EntityState::Clean => "INFO"@,
        },
        p.action_taken@ == match result.action {
            Some(ContainmentAction::KillProcess { pid, .. }) => "KILL_PROCESS:"@ + decimal(
                pid as nat,
            ),
            Some(ContainmentAction::BlockIp { ip, .. }) => "BLOCK_IP:"@ + ip@,
            Some(ContainmentAction::AlertOnly) => "ALERT_ONLY"@,
            None => "NONE"@,
        },
{
    let (event_type, process_name, cmdline) = match event {
        SensorEvent::ProcessSpawn { comm, cmdline, .. } => (
            "PROCESS_SPAWN".to_owned(),
            Some(comm.clone()),
            Some(cmdline.clone()),
        ),
        SensorEvent::NetConnect { comm, dst_ip, dst_port, .. } => {
            let mut c = dst_ip.clone();
            push_char(&mut c, ':');
            push_decimal(&mut c, *dst_port as u64);
            assert(c@ =~= dst_ip@ + seq![':'] + decimal(*dst_port as nat));
            ("NET_CONNECT".to_owned(), Some(comm.clone()), Some(c))
        },
        SensorEvent::FileModified { path } => ("FILE_MODIFIED".to_owned(), None, Some(path.clone())),
        SensorEvent::AuthFailure { user, src_ip } => (
            "AUTH_FAILURE".to_owned(),
            Some(user.clone()),
            opt_clone(src_ip),
        ),
        SensorEvent::ProcessExit { pid } => {
            let mut c = "pid=".to_owned();
            push_decimal(&mut c, *pid as u64);
            assert(c@ =~= "pid="@ + decimal(*pid as nat));
            ("PROCESS_EXIT".to_owned(), None, Some(c))
        },
    };
    let severity = match result.state {
        EntityState::Blocked => "BLOCKED".to_owned(),
        EntityState::Suspicious => "SUSPICIOUS".to_owned(),
        EntityState::Clean => "INFO".to_owned(),
    };
    let action_taken = match &result.action {
        Some(ContainmentAction::KillProcess { pid, .. }) => {
            let mut a = "KILL_PROCESS:".to_owned();
            push_decimal(&mut a, *pid as u64);
            assert(a@ =~= "KILL_PROCESS:"@ + decimal(*pid as nat));
            a
        },
        Some(ContainmentAction::BlockIp { ip, .. }) => {
            let mut a = "BLOCK_IP:".to_owned();
            a.append(ip.as_str());
            a
        },
        Some(ContainmentAction::AlertOnly) => "ALERT_ONLY".to_owned(),
        None => "NONE".to_owned(),
    };
    assert((event_type@, opt_chars(process_name), opt_chars(cmdline)) == event_fields(*event));
    assert(severity@ == severity_of(result.state));
    assert(action_taken@ == action_text(result@.action));
    TelemetryPayload {
        agent_id: cfg.agent_id.clone(),
        hostname: cfg.hostname.clone(),
        os_info: cfg.os_info.clone(),
        timestamp,
        event_type,
        process_name,
        cmdline,
        risk_score: result.score,
        severity,
        action_taken,
    }
}

/// The heartbeat sent to the backend.
pub struct HeartbeatPayload {
    pub agent_id: String,
    pub hostname: String,
    pub timestamp: String,
    pub status: String,
}

/// The heartbeat of the agent `cfg`, stamped `timestamp` (the current UTC
/// time, as the caller reads it from the clock), with status `ACTIVE`.
pub fn heartbeat(cfg: &AgentConfig, timestamp: String) -> (h: HeartbeatPayload)
    ensures
        h.agent_id@ == cfg.agent_id@,
        h.hostname@ == cfg.hostname@,
        h.timestamp@ == timestamp@,
        h.status@ == "ACTIVE"@,
{
    HeartbeatPayload {
        agent_id: cfg.agent_id.clone(),
        hostname: cfg.hostname.clone(),
        timestamp,
        status: "ACTIVE".to_owned(),
    }
}

/// A payload on its way to the backend, with the channel it takes.
pub enum TelemetryMessage {
    /// Sent at once (containment events).
    Priority(TelemetryPayload),
    /// Batched.
    Normal(TelemetryPayload),
}

/// Whether a result is reported at all: results that raised nothing are not.
pub fn is_reportable(result: &ScoreResult) -> (b: bool)
    ensures
        b == (result.delta != 0),
{
    result.delta != 0
}

/// Whether a result calls for active containment: any action but an alert.
pub fn needs_containment(result: &ScoreResult) -> (b: bool)
    ensures
        b == (result.action is Some && !(result.action->0 is AlertOnly)),
{
    match &result.action {
        Some(ContainmentAction::AlertOnly) => false,
        Some(_) => true,
        None => false,
    }
}

/// Routes the payload of `result`: results with an action (an alert too)
/// take the priority channel, the others the batched one.
pub fn route(payload: TelemetryPayload, result: &ScoreResult) -> (m: TelemetryMessage)
    ensures
        result.action is Some ==> (m matches TelemetryMessage::Priority(p) && p@ == payload@),
        result.action is None ==> (m matches TelemetryMessage::Normal(p) && p@ == payload@),
{
    if result.action.is_some() {
        TelemetryMessage::Priority(payload)
    } else {
        TelemetryMessage::Normal(payload)
    }
}

/// The number of queued payloads at which the batch is flushed at once.
pub const BATCH_FLUSH_LEN: usize = 50;

/// The payloads waiting for the next batched send.
pub struct Batch {
    items: Vec<TelemetryPayload>,
}

impl Batch {
    /// The queued payloads, oldest first.
    pub closed spec fn pending(&self) -> Seq<PayloadView> {
        self.items@.map_values(|p: TelemetryPayload| p@)
    }

    /// An empty batch.
    pub fn new() -> (b: Self)
        ensures
            b.pending() == Seq::<PayloadView>::empty(),
    {
        let b = Batch { items: Vec::new() };
        assert(b.pending() =~= Seq::<PayloadView>::empty());
        b
    }

    /// The number of queued payloads.
    pub fn len(&self) -> (n: usize)
        ensures
            n == self.pending().len(),
    {
        self.items.len()
    }

    /// Queues `payload`; returns whether the batch must be flushed now
    /// (50 payloads or more).
    pub fn push(&mut self, payload: TelemetryPayload) -> (flush_now: bool)
        ensures
            final(self).pending() == old(self).pending().push(payload@),
            flush_now == (final(self).pending().len() >= BATCH_FLUSH_LEN),
            flush_now <==> old(self).pending().len() + 1 >= 50,
    {
        let ghost before = self.items@;
        let ghost pv = payload@;
        self.items.push(payload);
        assert(self.pending() =~= before.map_values(|p: TelemetryPayload| p@).push(pv));
        self.items.len() >= BATCH_FLUSH_LEN
    }

    /// Whether a tick of the batching interval must flush the batch: when it
    /// is not empty.
    pub fn on_tick(&self) -> (flush_now: bool)
        ensures
            flush_now == (self.pending().len() > 0),
    {
        self.items.len() > 0
    }

    /// Takes the queued payloads for sending, leaving the batch empty.
    pub fn take(&mut self) -> (items: Vec<TelemetryPayload>)
        ensures
            items@.map_values(|p: TelemetryPayload| p@) == old(self).pending(),
            final(self).pending() == Seq::<PayloadView>::empty(),
    {
        let mut items: Vec<TelemetryPayload> = Vec::new();
        std::mem::swap(&mut items, &mut self.items);
        assert(self.pending() =~= Seq::<PayloadView>::empty());
        items
    }
}

/// `endpoint` followed by `path`.
fn join_url(endpoint: &str, path: &str) -> (u: String)
    ensures
        u@ == endpoint@ + path@,
{
    let mut u = endpoint.to_owned();
    u.append(path);
    u
}

/// The URL single events are posted to.
pub fn events_url(endpoint: &str) -> (u: String)
    ensures
        u@ == endpoint@ + "/api/v1/events"@,
{
    join_url(endpoint, "/api/v1/events")
}

/// The URL batches are posted to.
pub fn batch_url(endpoint: &str) -> (u: String)
    ensures
        u@ == endpoint@ + "/api/v1/events/batch"@,
{
    join_url(endpoint, "/api/v1/events/batch")
}

/// The URL heartbeats are posted to.
pub fn heartbeat_url(endpoint: &str) -> (u: String)
    ensures
        u@ == endpoint@ + "/api/v1/heartbeat"@,
{
    join_url(endpoint, "/api/v1/heartbeat")
}

/// The paths of the agent certificate, the agent key and the CA certificate
/// in `cert_dir`.
pub fn cert_paths(cert_dir: &str) -> (paths: (String, String, String))
    ensures
        paths.0@ == cert_dir@ + "/agent.crt"@,
        paths.1@ == cert_dir@ + "/agent.key"@,
        paths.2@ == cert_dir@ + "/ca.crt"@,
{
    (join_url(cert_dir, "/agent.crt"), join_url(cert_dir, "/agent.key"), join_url(cert_dir, "/ca.crt"))
}

/// The PEM identity presented for mutual TLS: the agent certificate, a
/// newline, then the agent key.
pub fn identity_pem(cert: &[u8], key: &[u8]) -> (pem: Vec<u8>)
    ensures
        pem@ == cert@ + seq![10u8] + key@,
{
    let mut pem: Vec<u8> = Vec::new();
    let mut i: usize = 0;
    while i < cert.len()
        invariant
            i <= cert@.len(),
            pem@ == cert@.take(i as int),
        decreases cert@.len() - i,
    {
        pem.push(cert[i]);
        assert(cert@.take(i + 1) == cert@.take(i as int).push(cert@[i as int]));
        i = i + 1;
    }
    assert(cert@.take(cert@.len() as int) == cert@);
    pem.push(10u8);
    let ghost mid = pem@;
    let mut j: usize = 0;
    while j < key.len()
        invariant
            j <= key@.len(),
            mid == cert@ + seq![10u8],
            pem@ == mid + key@.take(j as int),
        decreases key@.len() - j,
    {
        pem.push(key[j]);
        assert(key@.take(j + 1) == key@.take(j as int).push(key@[j as int]));
        assert(pem@ =~= mid + key@.take(j + 1));
        j = j + 1;
    }
    assert(key@.take(key@.len() as int) == key@);
    pem
}

/// The mutual-TLS material when the agent certificate, the agent key and the
/// CA certificate could all be read: the PEM identity (certificate, newline,
/// key) and the CA certificate; none (the client then runs in development
/// mode) when any of them is missing.
pub fn mtls_material(cert: Option<Vec<u8>>, key: Option<Vec<u8>>, ca: Option<Vec<u8>>) -> (r: Option<
    (Vec<u8>, Vec<u8>),
>)
    ensures
        r is Some <==> (cert is Some && key is Some && ca is Some),
        r matches Some((pem, ca_pem)) ==> pem@ == cert->0@ + seq![10u8] + key->0@ && ca_pem@
            == ca->0@,
{
    match (cert, key, ca) {
        (Some(c), Some(k), Some(a)) => Some((identity_pem(c.as_slice(), k.as_slice()), a)),
        _ => None,
    }
}


/// What a payload reports, stated on the event's own fields: a process spawn
/// reports `PROCESS_SPAWN` with its comm and command line; a connection
/// `NET_CONNECT` with its comm and `<dst_ip>:<dst_port>`; a file change
/// `FILE_MODIFIED` with its path; an authentication failure `AUTH_FAILURE`
/// with its user and source IP; an exit `PROCESS_EXIT` with `pid=<pid>`. The
/// severity is `BLOCKED`, `SUSPICIOUS` or `INFO` by state, and the action
/// `KILL_PROCESS:<pid>`, `BLOCK_IP:<ip>`, `ALERT_ONLY` or `NONE`.
pub proof fn lemma_payload_fields(
    cfg: AgentConfig,
    event: SensorEvent,
    result: ScoreResult,
    t: Seq<char>,
)
    ensures
        ({
            let p = payload_of(cfg, event, result, t);
            &&& p.agent_id == cfg.agent_id@ && p.hostname == cfg.hostname@ && p.os_info
                == cfg.os_info@ && p.timestamp == t && p.risk_score == result.score
            &&& match event {
                SensorEvent::ProcessSpawn { comm, cmdline, .. } => p.event_type == "PROCESS_SPAWN"@
                    && p.process_name == Some(comm@) && p.cmdline == Some(cmdline@),
                SensorEvent::NetConnect { comm, dst_ip, dst_port, .. } => p.event_type
                    == "NET_CONNECT"@ && p.process_name == Some(comm@) && p.cmdline == Some(
                    dst_ip@ + seq![':'] + decimal(dst_port as nat),
                ),
                SensorEvent::FileModified { path } => p.event_type == "FILE_MODIFIED"@
                    && p.process_name is None && p.cmdline == Some(path@),
                SensorEvent::AuthFailure { user, src_ip } => p.event_type == "AUTH_FAILURE"@
                    && p.process_name == Some(user@) && p.cmdline == opt_chars(src_ip),
                SensorEvent::ProcessExit { pid } => p.event_type == "PROCESS_EXIT"@
                    && p.process_name is None && p.cmdline == Some("pid="@ + decimal(pid as nat)),
            }
            &&& p.severity == match result.state {
                EntityState::Blocked => "BLOCKED"@,
                EntityState::Suspicious => "SUSPICIOUS"@,
                EntityState::Clean => "INFO"@,
            }
            &&& p.action_taken == match result.action {
                Some(ContainmentAction::KillProcess { pid, .. }) => "KILL_PROCESS:"@ + decimal(
                    pid as nat,
                ),
                Some(ContainmentAction::BlockIp { ip, .. }) => "BLOCK_IP:"@ + ip@,
                Some(ContainmentAction::AlertOnly) => "ALERT_ONLY"@,
                None => "NONE"@,
            }
        }),
{
}
} // verus!
