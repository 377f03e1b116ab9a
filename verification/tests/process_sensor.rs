use aegisec_agent::sensor::process::{
    cmdline_text, join_args, parse_netlink_message, read_proc_info, run, send_mcast_listen,
    status_field, PolledProcess, ProcConnectorEvent, ProcessPoller, SensorPhase,
};
use aegisec_agent::sensor::SensorEvent;

fn datagram(what: u32, fields: &[u32]) -> Vec<u8> {
    let mut b = vec![0u8; 36];
    b.extend_from_slice(&what.to_le_bytes());
    b.extend_from_slice(&[0u8; 12]);
    for f in fields {
        b.extend_from_slice(&f.to_le_bytes());
    }
    b
}

#[test]
fn status_fields() {
    let s = "Name:\tsshd\nUmask:\t0022\nState:\tS (sleeping)\nPPid:\t1\nUid:\t1000\t1000\t1000\t1000\n";
    assert_eq!(status_field(s, "Uid:"), Some(1000));
    assert_eq!(status_field(s, "PPid:"), Some(1));
    assert_eq!(status_field(s, "Gid:"), None);
    assert_eq!(status_field("Uid:\n", "Uid:"), None);
    assert_eq!(status_field("Uid:\t99999999999\n", "Uid:"), None);
}

#[test]
fn netlink_fork_exec_exit() {
    assert_eq!(
        parse_netlink_message(&datagram(2, &[10, 10, 11, 11])),
        Some(ProcConnectorEvent::Fork { parent_pid: 10, child_pid: 11 })
    );
    assert_eq!(
        parse_netlink_message(&datagram(4, &[12, 12])),
        Some(ProcConnectorEvent::Exec { pid: 12 })
    );
    assert_eq!(
        parse_netlink_message(&datagram(0x8000_0000, &[13, 13, 0, 9])),
        Some(ProcConnectorEvent::Exit { pid: 13 })
    );
}

#[test]
fn netlink_short_or_other_events() {
    assert_eq!(parse_netlink_message(&datagram(2, &[10, 10])), None);
    assert_eq!(parse_netlink_message(&datagram(1, &[10, 10, 11, 11])), None);
    assert_eq!(parse_netlink_message(&[0u8; 40]), None);
}

#[test]
fn subscription_request_bytes() {
    let m = send_mcast_listen(0x01020304);
    assert_eq!(m.len(), 40);
    assert_eq!(&m[0..4], &40u32.to_le_bytes());
    assert_eq!(&m[4..6], &16u16.to_le_bytes());
    assert_eq!(&m[12..16], &0x01020304u32.to_le_bytes());
    assert_eq!(&m[16..20], &1u32.to_le_bytes());
    assert_eq!(&m[20..24], &1u32.to_le_bytes());
    assert_eq!(&m[32..34], &4u16.to_le_bytes());
    assert_eq!(&m[36..40], &1u32.to_le_bytes());
}

#[test]
fn cmdline_nuls_become_spaces() {
    assert_eq!(cmdline_text(b"python3\0-c\0print(1)\0"), "python3 -c print(1)");
    assert_eq!(cmdline_text(b""), "");
}

#[test]
fn cmdline_invalid_utf8_is_replaced() {
    assert_eq!(cmdline_text(b"a\xffb"), "a\u{fffd}b");
}

#[test]
fn proc_info_reads_three_files() {
    let (uid, comm, cmd) =
        read_proc_info("Uid:\t33\t33\t33\t33\n", "nginx\n", b"nginx: worker\0");
    assert_eq!(uid, 33);
    assert_eq!(comm, "nginx");
    assert_eq!(cmd, "nginx: worker");
    let (uid0, _, _) = read_proc_info("", "", b"");
    assert_eq!(uid0, 0);
}

#[test]
fn args_join_with_spaces() {
    assert_eq!(join_args(&vec!["ls".to_string(), "-la".to_string()]), "ls -la");
    assert_eq!(join_args(&vec![]), "");
}

#[test]
fn poller_reports_new_processes_once() {
    let mut p = ProcessPoller::new();
    let snapshot = || {
        vec![
            PolledProcess { pid: 1, info: Some((0, 0, "init".to_string(), "/sbin/init".to_string())) },
            PolledProcess { pid: 2, info: None },
            PolledProcess { pid: 3, info: Some((1, 1000, "bash".to_string(), String::new())) },
        ]
    };
    let first = p.observe(snapshot());
    assert_eq!(first.len(), 2);
    match &first[1] {
        SensorEvent::ProcessSpawn { pid, ppid, uid, comm, .. } => {
            assert_eq!((*pid, *ppid, *uid), (3, 1, 1000));
            assert_eq!(comm, "bash");
        }
        _ => panic!("expected a spawn"),
    }
    assert!(p.observe(snapshot()).is_empty());
    p.retain_alive(&vec![1]);
    let again = p.observe(snapshot());
    assert_eq!(again.len(), 1);
}

#[test]
fn sensor_falls_back_to_polling() {
    let s = run(SensorPhase::OpenSocket, false);
    assert_eq!(s.next, SensorPhase::Poll);
    assert!(!s.close_socket);
    let s = run(SensorPhase::BindSocket, false);
    assert_eq!(s.next, SensorPhase::Poll);
    assert!(s.close_socket);
    let s = run(SensorPhase::Subscribe, true);
    assert_eq!(s.next, SensorPhase::Receive);
    let s = run(SensorPhase::Receive, false);
    assert_eq!(s.next, SensorPhase::Stopped);
    assert!(s.close_socket);
    assert_eq!(run(SensorPhase::Poll, false).next, SensorPhase::Poll);
}
