use aegisec_agent::drs::ContainmentAction;
use aegisec_agent::isolator::{
    block_by_uid, block_ip_outbound, execute, find_all_children, kill_tree, read_ppid,
    next_firewall_step, step_command, ContainmentStep, FirewallStep, Signal,
};

fn table() -> Vec<(u32, u32)> {
    // 1 ─ 100 ─┬ 101 ── 103
    //          └ 102
    //     200
    vec![(1, 0), (100, 1), (101, 100), (102, 100), (103, 101), (200, 1)]
}

#[test]
fn children_of_a_subtree() {
    let mut c = find_all_children(100, &table());
    c.sort();
    assert_eq!(c, vec![101, 102, 103]);
}

#[test]
fn children_come_after_their_parents() {
    let c = find_all_children(100, &table());
    let pos = |p: u32| c.iter().position(|&x| x == p).unwrap();
    assert!(pos(101) < pos(103));
}

#[test]
fn children_are_listed_breadth_first() {
    // 1 ─ 2 ─┬ 3 ── 5 ── 7
    //        └ 4 ── 6
    let t = vec![(7, 5), (5, 3), (3, 2), (6, 4), (4, 2), (2, 1)];
    assert_eq!(find_all_children(2, &t), vec![3, 4, 5, 6, 7]);
    assert_eq!(find_all_children(100, &table()), vec![101, 102, 103]);
}

#[test]
fn leaf_has_no_children() {
    assert!(find_all_children(103, &table()).is_empty());
    assert!(find_all_children(999, &table()).is_empty());
}

#[test]
fn root_is_never_its_own_child() {
    // a table where the root's parent is its child
    let t = vec![(5, 6), (6, 5)];
    assert_eq!(find_all_children(5, &t), vec![6]);
}

#[test]
fn kill_tree_stops_then_kills_leaves_first() {
    let plan = kill_tree(100, &table());
    assert_eq!(plan.len(), 8);
    assert_eq!((plan[0].pid, plan[0].signal), (100, Signal::Stop));
    for step in &plan[..4] {
        assert_eq!(step.signal, Signal::Stop);
    }
    for step in &plan[4..] {
        assert_eq!(step.signal, Signal::Kill);
    }
    let mut stopped: Vec<u32> = plan[..4].iter().map(|s| s.pid).collect();
    stopped.sort();
    assert_eq!(stopped, vec![100, 101, 102, 103]);
    assert_eq!((plan[7].pid, plan[7].signal), (100, Signal::Kill));
    let kill_pos = |p: u32| plan.iter().position(|s| s.pid == p && s.signal == Signal::Kill).unwrap();
    assert!(kill_pos(103) < kill_pos(101));
    assert!(kill_pos(101) < kill_pos(100));
    assert!(kill_pos(102) < kill_pos(100));
}

#[test]
fn lone_process_is_stopped_then_killed() {
    let plan = kill_tree(42, &vec![]);
    assert_eq!(plan.len(), 2);
    assert_eq!((plan[0].pid, plan[0].signal), (42, Signal::Stop));
    assert_eq!((plan[1].pid, plan[1].signal), (42, Signal::Kill));
}

#[test]
fn pid_zero_is_never_signalled() {
    assert!(kill_tree(0, &table()).is_empty());
}

#[test]
fn root_and_invalid_uids_are_never_blocked() {
    assert!(block_by_uid(0).is_none());
    assert!(block_by_uid(65001).is_none());
    assert!(block_by_uid(65000).is_some());
}

#[test]
fn uid_rule_uses_nft_then_iptables() {
    let r = block_by_uid(1000).unwrap();
    assert_eq!(r.primary.program, "nft");
    assert_eq!(
        r.primary.args,
        vec!["add", "rule", "inet", "filter", "output", "meta", "skuid", "1000", "drop"]
    );
    assert_eq!(r.fallback.program, "iptables");
    assert_eq!(
        r.fallback.args,
        vec!["-A", "OUTPUT", "-m", "owner", "--uid-owner", "1000", "-j", "DROP"]
    );
}

#[test]
fn ip_rule_drops_the_destination() {
    let r = block_ip_outbound("34.216.184.93");
    assert_eq!(
        r.primary.args,
        vec!["add", "rule", "inet", "filter", "output", "ip", "daddr", "34.216.184.93", "drop"]
    );
    assert_eq!(r.fallback.args, vec!["-A", "OUTPUT", "-d", "34.216.184.93", "-j", "DROP"]);
}

#[test]
fn execute_plans() {
    let kill = execute(&ContainmentAction::KillProcess { pid: 7, uid: 1000 });
    assert!(matches!(kill[0], ContainmentStep::KillTree { pid: 7 }));
    assert!(matches!(kill[1], ContainmentStep::BlockUid { uid: 1000 }));
    let ip = execute(&ContainmentAction::BlockIp { ip: "1.2.3.4".to_string(), uid: 0 });
    assert_eq!(ip.len(), 1);
    match &ip[0] {
        ContainmentStep::BlockIp { ip } => assert_eq!(ip, "1.2.3.4"),
        _ => panic!("expected an IP block"),
    }
    let ip_uid = execute(&ContainmentAction::BlockIp { ip: "1.2.3.4".to_string(), uid: 5 });
    assert_eq!(ip_uid.len(), 2);
    assert!(execute(&ContainmentAction::AlertOnly).is_empty());
}

#[test]
fn ppid_from_status() {
    assert_eq!(read_ppid("Name:\tbash\nPid:\t10\nPPid:\t7\n"), 7);
    assert_eq!(read_ppid("Name:\tbash\n"), 0);
    assert_eq!(read_ppid("PPid:\tx\n"), 0);
}

#[test]
fn iptables_runs_only_when_nft_fails() {
    let rule = block_by_uid(1000).unwrap();
    assert_eq!(step_command(&rule, FirewallStep::RunPrimary).unwrap().program, "nft");
    assert_eq!(next_firewall_step(FirewallStep::RunPrimary, true), FirewallStep::Done);
    let s = next_firewall_step(FirewallStep::RunPrimary, false);
    assert_eq!(s, FirewallStep::RunFallback);
    assert_eq!(step_command(&rule, s).unwrap().program, "iptables");
    assert_eq!(next_firewall_step(s, false), FirewallStep::Done);
    assert_eq!(next_firewall_step(s, true), FirewallStep::Done);
    assert!(step_command(&rule, FirewallStep::Done).is_none());
}
