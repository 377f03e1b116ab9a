use aegisec_agent::config::{fallback_config, AgentConfig, Thresholds};
use aegisec_agent::drs::{ContainmentAction, EntityState, ScoreResult};
use aegisec_agent::sensor::fim::{change_path, watch_paths};
use aegisec_agent::sensor::SensorEvent;
use aegisec_agent::telemetry::{
    mtls_material,
    batch_url, build_payload, cert_paths, events_url, heartbeat, heartbeat_url, identity_pem,
    is_reportable, needs_containment, route, Batch, TelemetryMessage,
};

fn cfg() -> AgentConfig {
    AgentConfig {
        agent_id: "agent-1".to_string(),
        hostname: "web01".to_string(),
        os_info: "linux".to_string(),
        backend_url: "https://10.0.0.1:8443".to_string(),
        cert_dir: "/etc/aegisec/certs".to_string(),
        thresholds: Thresholds::default(),
        batch_interval_secs: 10,
    }
}

fn result(action: Option<ContainmentAction>, state: EntityState) -> ScoreResult {
    ScoreResult { entity: "uid_1000".to_string(), score: 85_000, delta: 85_000, action, state }
}

#[test]
fn payload_for_a_connection() {
    let ev = SensorEvent::NetConnect {
        pid: 9,
        comm: "bash".to_string(),
        src_ip: "10.0.2.15".to_string(),
        dst_ip: "34.216.184.93".to_string(),
        dst_port: 4444,
    };
    let r = result(
        Some(ContainmentAction::BlockIp { ip: "34.216.184.93".to_string(), uid: 1000 }),
        EntityState::Blocked,
    );
    let p = build_payload(&cfg(), &ev, &r, "2024-01-01T00:00:00+00:00".to_string());
    assert_eq!(p.agent_id, "agent-1");
    assert_eq!(p.event_type, "NET_CONNECT");
    assert_eq!(p.process_name.as_deref(), Some("bash"));
    assert_eq!(p.cmdline.as_deref(), Some("34.216.184.93:4444"));
    assert_eq!(p.risk_score, 85_000);
    assert_eq!(p.severity, "BLOCKED");
    assert_eq!(p.action_taken, "BLOCK_IP:34.216.184.93");
    assert_eq!(p.timestamp, "2024-01-01T00:00:00+00:00");
}

#[test]
fn payload_fields_per_event() {
    let kill = result(Some(ContainmentAction::KillProcess { pid: 77, uid: 0 }), EntityState::Suspicious);
    let exit = build_payload(&cfg(), &SensorEvent::ProcessExit { pid: 77 }, &kill, String::new());
    assert_eq!(exit.event_type, "PROCESS_EXIT");
    assert_eq!(exit.cmdline.as_deref(), Some("pid=77"));
    assert_eq!(exit.process_name, None);
    assert_eq!(exit.action_taken, "KILL_PROCESS:77");
    assert_eq!(exit.severity, "SUSPICIOUS");
    let none = result(None, EntityState::Clean);
    let auth = build_payload(
        &cfg(),
        &SensorEvent::AuthFailure { user: "root".to_string(), src_ip: None },
        &none,
        String::new(),
    );
    assert_eq!(auth.event_type, "AUTH_FAILURE");
    assert_eq!(auth.cmdline, None);
    assert_eq!(auth.action_taken, "NONE");
    assert_eq!(auth.severity, "INFO");
    let fim = build_payload(
        &cfg(),
        &SensorEvent::FileModified { path: "/etc/passwd".to_string() },
        &result(Some(ContainmentAction::AlertOnly), EntityState::Blocked),
        String::new(),
    );
    assert_eq!(fim.event_type, "FILE_MODIFIED");
    assert_eq!(fim.cmdline.as_deref(), Some("/etc/passwd"));
    assert_eq!(fim.action_taken, "ALERT_ONLY");
}

#[test]
fn built_payload_is_stamped() {
    let p = build_payload(
        &cfg(),
        &SensorEvent::FileModified { path: "/etc/passwd".to_string() },
        &result(None, EntityState::Clean),
        "2025-03-01T12:00:00.250+00:00".to_string(),
    );
    assert_eq!(p.timestamp, "2025-03-01T12:00:00.250+00:00");
    assert_eq!(p.hostname, "web01");
}

#[test]
fn routing_by_action() {
    let p = build_payload(&cfg(), &SensorEvent::ProcessExit { pid: 1 }, &result(None, EntityState::Clean), String::new());
    assert!(matches!(route(p, &result(None, EntityState::Clean)), TelemetryMessage::Normal(_)));
    let alert = result(Some(ContainmentAction::AlertOnly), EntityState::Blocked);
    let p = build_payload(&cfg(), &SensorEvent::ProcessExit { pid: 1 }, &alert, String::new());
    assert!(matches!(route(p, &alert), TelemetryMessage::Priority(_)));
    assert!(!needs_containment(&alert));
    assert!(needs_containment(&result(
        Some(ContainmentAction::KillProcess { pid: 1, uid: 1 }),
        EntityState::Blocked
    )));
    let mut zero = result(None, EntityState::Clean);
    zero.delta = 0;
    assert!(!is_reportable(&zero));
}

#[test]
fn batch_flushes_at_fifty() {
    let mut b = Batch::new();
    assert!(!b.on_tick());
    for i in 0..49u32 {
        let p = build_payload(&cfg(), &SensorEvent::ProcessExit { pid: i }, &result(None, EntityState::Clean), String::new());
        assert!(!b.push(p));
    }
    assert!(b.on_tick());
    let p = build_payload(&cfg(), &SensorEvent::ProcessExit { pid: 49 }, &result(None, EntityState::Clean), String::new());
    assert!(b.push(p));
    let items = b.take();
    assert_eq!(items.len(), 50);
    assert_eq!(items[0].cmdline.as_deref(), Some("pid=0"));
    assert_eq!(b.len(), 0);
    assert!(!b.on_tick());
}

#[test]
fn urls_and_paths() {
    assert_eq!(events_url("https://h:8443"), "https://h:8443/api/v1/events");
    assert_eq!(batch_url("https://h:8443"), "https://h:8443/api/v1/events/batch");
    assert_eq!(heartbeat_url("https://h:8443"), "https://h:8443/api/v1/heartbeat");
    let (c, k, ca) = cert_paths("/certs");
    assert_eq!((c.as_str(), k.as_str(), ca.as_str()), ("/certs/agent.crt", "/certs/agent.key", "/certs/ca.crt"));
    assert_eq!(identity_pem(b"CERT", b"KEY"), b"CERT\nKEY".to_vec());
}

#[test]
fn heartbeat_is_active() {
    let h = heartbeat(&cfg(), "2025-03-01T12:00:30+00:00".to_string());
    assert_eq!(h.status, "ACTIVE");
    assert_eq!(h.agent_id, "agent-1");
    assert_eq!(h.hostname, "web01");
    assert_eq!(h.timestamp, "2025-03-01T12:00:30+00:00");
}

#[test]
fn fallback_configuration() {
    let id = "0b6a6a43-6f0e-4d0e-9a53-6c8f0b3f5b21".to_string();
    let c = fallback_config(None, "linux".to_string(), None, Some("/opt/certs".to_string()), id.clone());
    assert_eq!(c.agent_id, id);
    assert_eq!(c.hostname, "unknown");
    assert_eq!(c.os_info, "linux");
    assert_eq!(c.backend_url, "https://localhost:8443");
    assert_eq!(c.cert_dir, "/opt/certs");
    assert_eq!(c.thresholds.suspicious, 40_000);
    assert_eq!(c.thresholds.blocked, 80_000);
    assert_eq!(c.thresholds.decay_per_min, 5_000);
    assert_eq!(c.batch_interval_secs, 10);
    let other = fallback_config(
        Some("web01".to_string()),
        "linux".to_string(),
        Some("https://10.0.0.1:8443".to_string()),
        None,
        "other".to_string(),
    );
    assert_eq!(other.hostname, "web01");
    assert_eq!(other.backend_url, "https://10.0.0.1:8443");
    assert_eq!(other.cert_dir, "/etc/aegisec/certs");
}

#[test]
fn change_paths() {
    let w = "/etc/cron.d".to_string();
    assert_eq!(change_path(Some(&w), "evil"), "/etc/cron.d/evil");
    assert_eq!(change_path(Some(&w), ""), "/etc/cron.d");
    assert_eq!(change_path(None, ""), "unknown");
    assert_eq!(watch_paths().len(), 7);
    assert_eq!(watch_paths()[1], "/etc/shadow");
}

#[test]
fn mtls_needs_all_three_files() {
    let (pem, ca) = mtls_material(Some(b"CERT".to_vec()), Some(b"KEY".to_vec()), Some(b"CA".to_vec())).unwrap();
    assert_eq!(pem, b"CERT\nKEY".to_vec());
    assert_eq!(ca, b"CA".to_vec());
    assert!(mtls_material(Some(b"CERT".to_vec()), None, Some(b"CA".to_vec())).is_none());
    assert!(mtls_material(None, None, None).is_none());
}
