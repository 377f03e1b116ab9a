use aegisec_agent::config::Thresholds;
use aegisec_agent::drs::{
    spawn_findings, ContainmentAction, DrsEngine, EntityState, ProcContext,
};
use aegisec_agent::sensor::SensorEvent;

fn ctx(parent: &str, status: &str) -> ProcContext {
    ProcContext { parent_comm: parent.to_string(), status: status.to_string() }
}

fn spawn(pid: u32, uid: u32, comm: &str, cmdline: &str) -> SensorEvent {
    SensorEvent::ProcessSpawn {
        pid,
        ppid: 1,
        uid,
        comm: comm.to_string(),
        cmdline: cmdline.to_string(),
    }
}

#[test]
fn blacklisted_binary_scores_forty_points() {
    let mut engine = DrsEngine::new(Thresholds::default());
    let r = engine.score(&spawn(100, 1000, "nc", "nc -lvp 4444"), &ctx("bash\n", ""), 0).unwrap();
    assert_eq!(r.entity, "uid_1000");
    assert_eq!(r.delta, 40_000);
    assert_eq!(r.score, 40_000);
    assert_eq!(r.state, EntityState::Suspicious);
    assert!(r.action.is_none());
}

#[test]
fn uppercase_comm_is_lowercased_before_matching() {
    let mut engine = DrsEngine::new(Thresholds::default());
    let r = engine.score(&spawn(7, 1001, "NC", ""), &ctx("", ""), 0).unwrap();
    assert_eq!(r.delta, 40_000);
}

#[test]
fn web_shell_is_killed() {
    let mut engine = DrsEngine::new(Thresholds::default());
    let r = engine
        .score(&spawn(4242, 33, "bash", "bash"), &ctx("nginx\n", ""), 0)
        .unwrap();
    assert_eq!(r.delta, 100_000);
    assert_eq!(r.score, 100_000);
    assert_eq!(r.state, EntityState::Blocked);
    match r.action {
        Some(ContainmentAction::KillProcess { pid, uid }) => {
            assert_eq!(pid, 4242);
            assert_eq!(uid, 33);
        }
        _ => panic!("expected a kill"),
    }
}

#[test]
fn findings_on_lowercased_texts() {
    let f = spawn_findings("sh", "python -c 'import pty;pty.spawn(\"/bin/sh\")'", "python3\n");
    assert!(f.reverse_shell);
    assert!(!f.web_shell);
    let g = spawn_findings("getcap", "getcap -r /", "bash");
    assert!(g.enumeration && g.high_value && !g.blacklisted);
}

fn status_with_uid(uid: u32) -> String {
    format!("Name:\tcurl\nState:\tS (sleeping)\nUid:\t{}\t{}\t{}\t{}\nGid:\t0\t0\t0\t0\n", uid, uid, uid, uid)
}

#[test]
fn three_distinct_tools_in_a_minute_is_an_enumeration_burst() {
    let mut engine = DrsEngine::new(Thresholds::default());
    assert!(engine.score(&spawn(10, 1000, "whoami", "whoami"), &ctx("", ""), 0).is_none());
    assert!(engine.score(&spawn(11, 1000, "id", "id"), &ctx("", ""), 1_000).is_none());
    let r = engine.score(&spawn(12, 1000, "uname", "uname -a"), &ctx("", ""), 2_000).unwrap();
    assert_eq!(r.delta, 50_000);
    assert_eq!(r.score, 50_000);
    assert_eq!(r.state, EntityState::Suspicious);
    // the burst cleared the list: a fourth tool alone does not fire again
    assert!(engine.score(&spawn(13, 1000, "ps", "ps aux"), &ctx("", ""), 3_000).is_none());
    let p = engine.profile(&"uid_1000".to_string()).unwrap();
    assert_eq!(p.recent_comms.len(), 1);
    assert_eq!(p.last_pid, 13);
}

#[test]
fn tools_older_than_the_window_do_not_count() {
    let mut engine = DrsEngine::new(Thresholds::default());
    assert!(engine.score(&spawn(10, 1000, "whoami", ""), &ctx("", ""), 0).is_none());
    assert!(engine.score(&spawn(11, 1000, "id", ""), &ctx("", ""), 30_000).is_none());
    assert!(engine.score(&spawn(12, 1000, "uname", ""), &ctx("", ""), 70_000).is_none());
    let p = engine.profile(&"uid_1000".to_string()).unwrap();
    assert_eq!(p.recent_comms.len(), 2);
}

#[test]
fn repeated_tool_counts_once() {
    let mut engine = DrsEngine::new(Thresholds::default());
    assert!(engine.score(&spawn(10, 5, "id", ""), &ctx("", ""), 0).is_none());
    assert!(engine.score(&spawn(11, 5, "id", ""), &ctx("", ""), 1).is_none());
    assert!(engine.score(&spawn(12, 5, "whoami", ""), &ctx("", ""), 2).is_none());
    let r = engine.score(&spawn(13, 5, "ps", ""), &ctx("", ""), 3).unwrap();
    assert_eq!(r.delta, 50_000);
}

#[test]
fn getcap_is_high_value() {
    let mut engine = DrsEngine::new(Thresholds::default());
    let r = engine.score(&spawn(10, 1000, "getcap", "getcap -r /"), &ctx("", ""), 0).unwrap();
    assert_eq!(r.delta, 20_000);
    assert_eq!(r.state, EntityState::Clean);
}

#[test]
fn sudo_is_a_high_value_single_command() {
    let mut engine = DrsEngine::new(Thresholds::default());
    let r = engine.score(&spawn(4242, 1000, "sudo", "sudo -l"), &ctx("bash", ""), 0).unwrap();
    assert_eq!(r.entity, "uid_1000");
    assert_eq!(r.delta, 20_000);
    assert_eq!(r.score, 20_000);
    assert!(r.action.is_none());
    assert_eq!(r.state, EntityState::Clean);
    let f = spawn_findings("passwd", "passwd", "bash");
    assert!(f.high_value && !f.enumeration);
}

#[test]
fn accumulated_score_blocks_and_kills_the_last_process() {
    let mut engine = DrsEngine::new(Thresholds::default());
    let first = engine.score(&spawn(100, 1000, "curl", ""), &ctx("", ""), 0).unwrap();
    assert_eq!(first.state, EntityState::Suspicious);
    let r = engine.score(&spawn(101, 1000, "wget", ""), &ctx("", ""), 10).unwrap();
    assert_eq!(r.score, 80_000);
    assert_eq!(r.state, EntityState::Blocked);
    match r.action {
        Some(ContainmentAction::KillProcess { pid, uid }) => {
            assert_eq!(pid, 101);
            assert_eq!(uid, 1000);
        }
        _ => panic!("expected a kill"),
    }
}

#[test]
fn score_is_capped_at_two_hundred_points() {
    let mut engine = DrsEngine::new(Thresholds::default());
    for i in 0..3u32 {
        let r = engine.score(&spawn(i, 33, "sh", ""), &ctx("apache2\n", ""), 0).unwrap();
        assert!(r.score <= 200_000);
    }
    let p = engine.profile(&"uid_33".to_string()).unwrap();
    assert_eq!(p.score, 200_000);
    assert_eq!(p.state, EntityState::Blocked);
}

#[test]
fn suspicious_port_blocks_the_destination() {
    let mut engine = DrsEngine::new(Thresholds::default());
    let ev = SensorEvent::NetConnect {
        pid: 900,
        comm: "bash".to_string(),
        src_ip: "10.0.2.15".to_string(),
        dst_ip: "34.216.184.93".to_string(),
        dst_port: 4444,
    };
    let r = engine.score(&ev, &ctx("", &status_with_uid(1000)), 0).unwrap();
    assert_eq!(r.entity, "uid_1000");
    assert_eq!(r.delta, 85_000);
    assert_eq!(r.state, EntityState::Blocked);
    match r.action {
        Some(ContainmentAction::BlockIp { ip, uid }) => {
            assert_eq!(ip, "34.216.184.93");
            assert_eq!(uid, 1000);
        }
        _ => panic!("expected an IP block"),
    }
}

#[test]
fn ordinary_port_scores_nothing_but_records_the_entity() {
    let mut engine = DrsEngine::new(Thresholds::default());
    let ev = SensorEvent::NetConnect {
        pid: 901,
        comm: "curl".to_string(),
        src_ip: "10.0.2.15".to_string(),
        dst_ip: "1.1.1.1".to_string(),
        dst_port: 443,
    };
    assert!(engine.score(&ev, &ctx("", "no status"), 0).is_none());
    assert_eq!(engine.len(), 1);
    assert!(engine.profile(&"uid_0".to_string()).is_some());
}

#[test]
fn auth_failures_accumulate_per_source_ip() {
    let mut engine = DrsEngine::new(Thresholds::default());
    let ev = SensorEvent::AuthFailure { user: "root".to_string(), src_ip: Some("10.0.0.9".to_string()) };
    let r1 = engine.score(&ev, &ctx("", ""), 0).unwrap();
    assert_eq!(r1.entity, "ip_10.0.0.9");
    assert_eq!(r1.delta, 15_000);
    assert_eq!(r1.state, EntityState::Clean);
    engine.score(&ev, &ctx("", ""), 1).unwrap();
    let r3 = engine.score(&ev, &ctx("", ""), 2).unwrap();
    assert_eq!(r3.score, 45_000);
    assert_eq!(r3.state, EntityState::Suspicious);
    let by_user = SensorEvent::AuthFailure { user: "alice".to_string(), src_ip: None };
    assert_eq!(engine.score(&by_user, &ctx("", ""), 3).unwrap().entity, "user_alice");
}

#[test]
fn blocked_auth_source_asks_to_kill_its_last_process() {
    let mut engine = DrsEngine::new(Thresholds::default());
    let ev = SensorEvent::AuthFailure { user: "root".to_string(), src_ip: Some("10.0.0.9".to_string()) };
    let mut last = None;
    for t in 0..6u64 {
        last = engine.score(&ev, &ctx("", ""), t);
    }
    let r = last.unwrap();
    assert_eq!(r.score, 90_000);
    assert_eq!(r.state, EntityState::Blocked);
    // the profile of an authentication source has PID 0; the kill plan for
    // PID 0 is empty
    assert!(matches!(r.action, Some(ContainmentAction::KillProcess { pid: 0, uid: 0 })));
}

#[test]
fn file_change_always_alerts() {
    let mut engine = DrsEngine::new(Thresholds::default());
    let ev = SensorEvent::FileModified { path: "/etc/shadow".to_string() };
    let r = engine.score(&ev, &ctx("", ""), 0).unwrap();
    assert_eq!(r.entity, "fim:/etc/shadow");
    assert_eq!(r.score, 90_000);
    assert_eq!(r.delta, 90_000);
    assert_eq!(r.state, EntityState::Blocked);
    assert!(matches!(r.action, Some(ContainmentAction::AlertOnly)));
    assert_eq!(engine.len(), 0);
}

#[test]
fn process_exit_changes_nothing() {
    let mut engine = DrsEngine::new(Thresholds::default());
    assert!(engine.score(&SensorEvent::ProcessExit { pid: 5 }, &ctx("", ""), 0).is_none());
    assert_eq!(engine.len(), 0);
}

#[test]
fn decay_cools_suspicious_entities_down() {
    let mut engine = DrsEngine::new(Thresholds::default());
    engine.score(&spawn(1, 1000, "nc", ""), &ctx("", ""), 0).unwrap();
    let n = engine.decay(120_000);
    assert_eq!(n, 1);
    let p = engine.profile(&"uid_1000".to_string()).unwrap();
    assert_eq!(p.score, 30_000);
    assert_eq!(p.state, EntityState::Clean);
}

#[test]
fn decay_leaves_blocked_entities_alone() {
    let mut engine = DrsEngine::new(Thresholds::default());
    engine.score(&spawn(1, 33, "bash", ""), &ctx("nginx", ""), 0).unwrap();
    assert_eq!(engine.decay(3_600_000), 0);
    let p = engine.profile(&"uid_33".to_string()).unwrap();
    assert_eq!(p.score, 100_000);
    assert_eq!(p.state, EntityState::Blocked);
}

#[test]
fn idle_entities_at_zero_leave_after_ten_minutes() {
    let mut engine = DrsEngine::new(Thresholds::default());
    assert!(engine.score(&spawn(1, 1000, "ls", "ls"), &ctx("", ""), 0).is_none());
    assert_eq!(engine.decay(599_999), 0);
    assert_eq!(engine.len(), 1);
    assert_eq!(engine.decay(600_000), 0);
    assert_eq!(engine.len(), 0);
}

#[test]
fn decay_rounds_down_to_the_unit() {
    let mut engine = DrsEngine::new(Thresholds::default());
    engine.score(&spawn(1, 1000, "nc", ""), &ctx("", ""), 0).unwrap();
    // 11 ms at 5 points a minute is less than a thousandth of a point
    assert_eq!(engine.decay(11), 0);
    assert_eq!(engine.decay(90_000), 1);
    assert_eq!(engine.profile(&"uid_1000".to_string()).unwrap().score, 32_500);
}

#[test]
fn each_idle_minute_is_decayed_once() {
    let mut engine = DrsEngine::new(Thresholds::default());
    engine.score(&spawn(1, 1000, "nc", ""), &ctx("", ""), 0).unwrap();
    assert_eq!(engine.decay(60_000), 1);
    assert_eq!(engine.profile(&"uid_1000".to_string()).unwrap().score, 35_000);
    assert_eq!(engine.decay(120_000), 1);
    assert_eq!(engine.profile(&"uid_1000".to_string()).unwrap().score, 30_000);
    // a second pass at the same moment removes nothing
    assert_eq!(engine.decay(120_000), 0);
    assert_eq!(engine.profile(&"uid_1000".to_string()).unwrap().score, 30_000);
}
