//! Dynamic Risk Scoring engine.
//!
//! Keeps one risk profile per entity (a UID, a source IP or a user name),
//! raises its score when a sensor event matches a detection heuristic,
//! moves it between `Clean`, `Suspicious` and `Blocked`, and lets scores
//! decay while an entity stays quiet. Scores are counted in thousandths
//! of a risk point and capped at 200 points.

use vstd::prelude::*;
use crate::config::Thresholds;
use crate::sensor::SensorEvent;
use crate::sensor::process::{status_field, status_value};
use crate::text::{
    chars_of, contains_seq, contains_str, decimal, equals_str, lower_text, push_decimal,
    to_lowercase,
};
use vstd::string::StringExecFns;

verus! {

/// Lifecycle state of a monitored entity.
#[derive(Debug, Clone, Copy, PartialEq, Eq, Structural)]
pub enum EntityState {
    Clean,
    Suspicious,
    Blocked,
}

/// One risk point, in the engine's unit.
pub const POINT: u64 = 1000;

/// The highest score an entity can reach (200 points).
pub const SCORE_CAP: u64 = 200_000;

/// Web shell: a web server spawning a shell (100 points).
pub const WEB_SHELL_DELTA: u64 = 100_000;

/// Reverse shell: a script interpreter spawning a shell with a redirecting
/// command line (100 points).
pub const REVERSE_SHELL_DELTA: u64 = 100_000;

/// A blacklisted binary (40 points).
pub const BLACKLIST_DELTA: u64 = 40_000;

/// A high-value single command (20 points).
pub const HIGH_VALUE_DELTA: u64 = 20_000;

/// Three distinct enumeration tools within a minute (50 points).
pub const ENUMERATION_BURST_DELTA: u64 = 50_000;

/// A connection to a suspicious port (85 points).
pub const SUSPICIOUS_PORT_DELTA: u64 = 85_000;

/// A change to a watched file (90 points).
pub const FILE_CHANGE_SCORE: u64 = 90_000;

/// One authentication failure (15 points).
pub const AUTH_FAILURE_DELTA: u64 = 15_000;

/// The window of the enumeration velocity heuristic, in milliseconds.
pub const VELOCITY_WINDOW_MS: u64 = 60_000;

/// Comm names of shells.
pub open spec fn is_shell_name(s: Seq<char>) -> bool {
    ||| s == "sh"@
    ||| s == "bash"@
    ||| s == "dash"@
    ||| s == "zsh"@
    ||| s == "csh"@
    ||| s == "tcsh"@
}

/// Whether a (lower-cased) parent comm text names a web server.
pub open spec fn is_web_parent(parent: Seq<char>) -> bool {
    ||| contains_seq(parent, "apache"@)
    ||| contains_seq(parent, "httpd"@)
    ||| contains_seq(parent, "nginx"@)
    ||| contains_seq(parent, "tomcat"@)
    ||| contains_seq(parent, "php"@)
    ||| contains_seq(parent, "php-fpm"@)
    ||| contains_seq(parent, "gunicorn"@)
    ||| contains_seq(parent, "lighttpd"@)
}

/// Whether a (lower-cased) parent comm text names a script interpreter.
pub open spec fn is_script_parent(parent: Seq<char>) -> bool {
    ||| contains_seq(parent, "python"@)
    ||| contains_seq(parent, "python3"@)
    ||| contains_seq(parent, "python2"@)
    ||| contains_seq(parent, "perl"@)
    ||| contains_seq(parent, "ruby"@)
    ||| contains_seq(parent, "php"@)
}

/// Whether a (lower-cased) command line holds a reverse-shell keyword.
pub open spec fn has_reverse_keyword(cmd: Seq<char>) -> bool {
    ||| contains_seq(cmd, "pty.spawn"@)
    ||| contains_seq(cmd, "socket"@)
    ||| contains_seq(cmd, "dup2"@)
    ||| contains_seq(cmd, "/dev/tcp"@)
    ||| contains_seq(cmd, "/dev/udp"@)
    ||| contains_seq(cmd, "os.system"@)
    ||| contains_seq(cmd, "-e /bin"@)
    ||| contains_seq(cmd, "-c bash"@)
    ||| contains_seq(cmd, "bash -i"@)
}

/// Binaries that score on any occurrence.
pub open spec fn is_blacklisted(s: Seq<char>) -> bool {
    ||| s == "nc"@
    ||| s == "netcat"@
    ||| s == "ncat"@
    ||| s == "socat"@
    ||| s == "msfconsole"@
    ||| s == "msfvenom"@
    ||| s == "base64"@
    ||| s == "curl"@
    ||| s == "wget"@
}

/// Enumeration commands, scored through their velocity.
pub open spec fn is_enumeration_cmd(s: Seq<char>) -> bool {
    ||| s == "whoami"@
    ||| s == "id"@
    ||| s == "uname"@
    ||| s == "getcap"@
    ||| s == "getfacl"@
    ||| s == "netstat"@
    ||| s == "ss"@
    ||| s == "lsof"@
    ||| s == "ps"@
    ||| s == "hostname"@
    ||| s == "ip"@
    ||| s == "ifconfig"@
    ||| s == "find"@
    ||| s == "env"@
    ||| s == "printenv"@
    ||| s == "cat"@
    ||| s == "awk"@
    ||| s == "grep"@
}

/// High-value single commands.
pub open spec fn is_high_value(s: Seq<char>) -> bool {
    ||| s == "getcap"@
    ||| s == "sudo"@
    ||| s == "su"@
    ||| s == "passwd"@
    ||| s == "chpasswd"@
    ||| s == "visudo"@
}

/// Outbound ports that indicate a command-and-control channel.
pub open spec fn is_suspicious_port(port: u16) -> bool {
    ||| port == 4444
    ||| port == 1337
    ||| port == 9001
    ||| port == 31337
    ||| port == 4445
    ||| port == 12345
    ||| port == 6666
    ||| port == 7777
    ||| port == 8888
}

/// Which process-spawn heuristics match a lower-cased comm, command line and
/// parent comm text.
#[derive(Debug, Clone, Copy, PartialEq, Eq, Structural)]
pub struct SpawnFindings {
    /// A web server spawned a shell.
    pub web_shell: bool,
    /// A script interpreter spawned a shell with a reverse-shell keyword.
    pub reverse_shell: bool,
    /// The binary is blacklisted.
    pub blacklisted: bool,
    /// The binary is an enumeration command.
    pub enumeration: bool,
    /// The binary is a high-value single command.
    pub high_value: bool,
}

/// The heuristics that match, on lower-cased texts.
pub open spec fn findings_of(comm: Seq<char>, cmd: Seq<char>, parent: Seq<char>) -> SpawnFindings {
    SpawnFindings {
        web_shell: is_web_parent(parent) && is_shell_name(comm),
        reverse_shell: is_script_parent(parent) && is_shell_name(comm) && has_reverse_keyword(cmd),
        blacklisted: is_blacklisted(comm),
        enumeration: is_enumeration_cmd(comm),
        high_value: is_high_value(comm),
    }
}

fn shell_name(s: &Vec<char>) -> (b: bool)
    ensures
        b == is_shell_name(s@),
{
    equals_str(s, "sh") || equals_str(s, "bash") || equals_str(s, "dash") || equals_str(s, "zsh")
        || equals_str(s, "csh") || equals_str(s, "tcsh")
}

fn web_parent(s: &Vec<char>) -> (b: bool)
    ensures
        b == is_web_parent(s@),
{
    contains_str(s, "apache") || contains_str(s, "httpd") || contains_str(s, "nginx")
        || contains_str(s, "tomcat") || contains_str(s, "php") || contains_str(s, "php-fpm")
        || contains_str(s, "gunicorn") || contains_str(s, "lighttpd")
}

fn script_parent(s: &Vec<char>) -> (b: bool)
    ensures
        b == is_script_parent(s@),
{
    contains_str(s, "python") || contains_str(s, "python3") || contains_str(s, "python2")
        || contains_str(s, "perl") || contains_str(s, "ruby") || contains_str(s, "php")
}

fn reverse_keyword(s: &Vec<char>) -> (b: bool)
    ensures
        b == has_reverse_keyword(s@),
{
    contains_str(s, "pty.spawn") || contains_str(s, "socket") || contains_str(s, "dup2")
        || contains_str(s, "/dev/tcp") || contains_str(s, "/dev/udp") || contains_str(
        s,
        "os.system",
    ) || contains_str(s, "-e /bin") || contains_str(s, "-c bash") || contains_str(s, "bash -i")
}

fn blacklisted(s: &Vec<char>) -> (b: bool)
    ensures
        b == is_blacklisted(s@),
{
    equals_str(s, "nc") || equals_str(s, "netcat") || equals_str(s, "ncat") || equals_str(
        s,
        "socat",
    ) || equals_str(s, "msfconsole") || equals_str(s, "msfvenom") || equals_str(s, "base64")
        || equals_str(s, "curl") || equals_str(s, "wget")
}

fn enumeration_cmd(s: &Vec<char>) -> (b: bool)
    ensures
        b == is_enumeration_cmd(s@),
{
    equals_str(s, "whoami") || equals_str(s, "id") || equals_str(s, "uname") || equals_str(
        s,
        "getcap",
    ) || equals_str(s, "getfacl") || equals_str(s, "netstat") || equals_str(s, "ss")
        || equals_str(s, "lsof") || equals_str(s, "ps") || equals_str(s, "hostname") || equals_str(
        s,
        "ip",
    ) || equals_str(s, "ifconfig") || equals_str(s, "find") || equals_str(s, "env")
        || equals_str(s, "printenv") || equals_str(s, "cat") || equals_str(s, "awk") || equals_str(
        s,
        "grep",
    )
}

fn high_value(s: &Vec<char>) -> (b: bool)
    ensures
        b == is_high_value(s@),
{
    equals_str(s, "getcap") || equals_str(s, "sudo") || equals_str(s, "su") || equals_str(
        s,
        "passwd",
    ) || equals_str(s, "chpasswd") || equals_str(s, "visudo")
}

/// Whether `port` is one of the suspicious outbound ports.
pub fn suspicious_port(port: u16) -> (b: bool)
    ensures
        b == is_suspicious_port(port),
{
    port == 4444 || port == 1337 || port == 9001 || port == 31337 || port == 4445 || port == 12345
        || port == 6666 || port == 7777 || port == 8888
}

/// The process-spawn heuristics that match the lower-cased comm, command line
/// and parent comm text.
pub fn spawn_findings(comm_lc: &str, cmd_lc: &str, parent_lc: &str) -> (f: SpawnFindings)
    ensures
        f == findings_of(comm_lc@, cmd_lc@, parent_lc@),
{
    let comm = chars_of(comm_lc);
    let cmd = chars_of(cmd_lc);
    let parent = chars_of(parent_lc);
    let shell = shell_name(&comm);
    let web_shell = web_parent(&parent) && shell;
    let reverse_shell = script_parent(&parent) && shell && reverse_keyword(&cmd);
    let enumeration = enumeration_cmd(&comm);
    SpawnFindings {
        web_shell,
        reverse_shell,
        blacklisted: blacklisted(&comm),
        enumeration,
        high_value: high_value(&comm),
    }
}


/// A containment response requested by the engine.
#[derive(Debug, Clone)]
pub enum ContainmentAction {
    /// Kill the process tree rooted at `pid` and cut the traffic of `uid`.
    KillProcess { pid: u32, uid: u32 },
    /// Block outbound traffic to `ip` (and of `uid` when it is not root).
    BlockIp { ip: String, uid: u32 },
    /// Report only.
    AlertOnly,
}

/// The mathematical value of a [`ContainmentAction`].
pub enum ActionView {
    KillProcess { pid: u32, uid: u32 },
    BlockIp { ip: Seq<char>, uid: u32 },
    AlertOnly,
}

impl View for ContainmentAction {
    type V = ActionView;

    open spec fn view(&self) -> ActionView {
        match self {
            ContainmentAction::KillProcess { pid, uid } => ActionView::KillProcess {
                pid: *pid,
                uid: *uid,
            },
            ContainmentAction::BlockIp { ip, uid } => ActionView::BlockIp { ip: ip@, uid: *uid },
            ContainmentAction::AlertOnly => ActionView::AlertOnly,
        }
    }
}

/// The value of an optional action.
pub open spec fn action_view(a: Option<ContainmentAction>) -> Option<ActionView> {
    match a {
        Some(x) => Some(x@),
        None => None,
    }
}

/// Per-entity risk profile.
pub struct RiskProfile {
    /// Current score, in thousandths of a point.
    pub score: u64,
    pub state: EntityState,
    /// Time of the last event, in milliseconds of the agent's clock.
    pub last_event: u64,
    /// Time up to which decay has been applied, in milliseconds of the
    /// agent's clock.
    pub decayed_until: u64,
    /// Recent enumeration tools seen, with the time each was seen.
    pub recent_comms: Vec<(u64, String)>,
    /// PID last associated with this entity (for containment).
    pub last_pid: u32,
    /// UID of this entity.
    pub uid: u32,
}

/// The mathematical value of a [`RiskProfile`].
pub struct ProfileView {
    pub score: u64,
    pub state: EntityState,
    pub last_event: u64,
    pub decayed_until: u64,
    pub recent: Seq<(u64, Seq<char>)>,
    pub last_pid: u32,
    pub uid: u32,
}

/// The values of a list of timed tool names.
pub open spec fn comm_views(s: Seq<(u64, String)>) -> Seq<(u64, Seq<char>)> {
    s.map_values(|e: (u64, String)| (e.0, e.1@))
}

impl View for RiskProfile {
    type V = ProfileView;

    open spec fn view(&self) -> ProfileView {
        ProfileView {
            score: self.score,
            state: self.state,
            last_event: self.last_event,
            decayed_until: self.decayed_until,
            recent: comm_views(self.recent_comms@),
            last_pid: self.last_pid,
            uid: self.uid,
        }
    }
}

/// A profile first seen at `now`.
pub open spec fn fresh_profile(uid: u32, pid: u32, now: u64) -> ProfileView {
    ProfileView {
        score: 0,
        state: EntityState::Clean,
        last_event: now,
        decayed_until: now,
        recent: Seq::empty(),
        last_pid: pid,
        uid,
    }
}

impl RiskProfile {
    fn new(uid: u32, pid: u32, now: u64) -> (p: Self)
        ensures
            p@ == fresh_profile(uid, pid, now),
    {
        let p = RiskProfile {
            score: 0,
            state: EntityState::Clean,
            last_event: now,
            decayed_until: now,
            recent_comms: Vec::new(),
            last_pid: pid,
            uid,
        };
        assert(comm_views(p.recent_comms@) =~= Seq::empty());
        p
    }
}

/// Whether a tool seen at `t` is still inside the velocity window at `now`
/// (a time after `now` counts as age zero).
pub open spec fn in_window(now: u64, t: u64) -> bool {
    now < t + VELOCITY_WINDOW_MS
}

/// The tool names of a timed list.
pub open spec fn tool_names(recent: Seq<(u64, Seq<char>)>) -> Seq<Seq<char>> {
    recent.map_values(|e: (u64, Seq<char>)| e.1)
}

/// The number of distinct tool names in a timed list.
pub open spec fn distinct_tools(recent: Seq<(u64, Seq<char>)>) -> nat {
    tool_names(recent).to_set().len()
}

/// The recent tools after `comm` is seen at `now`: those still in the window,
/// then `comm`.
pub open spec fn windowed(recent: Seq<(u64, Seq<char>)>, now: u64, comm: Seq<char>) -> Seq<
    (u64, Seq<char>),
> {
    recent.filter(|e: (u64, Seq<char>)| in_window(now, e.0)).push((now, comm))
}

/// Whether seeing `comm` at `now` completes three distinct tools in the window.
pub open spec fn enumeration_burst(recent: Seq<(u64, Seq<char>)>, now: u64, comm: Seq<char>) -> bool {
    distinct_tools(windowed(recent, now, comm)) >= 3
}

/// The recent tools kept after `comm` is seen at `now` (emptied by a burst).
pub open spec fn after_enumeration(recent: Seq<(u64, Seq<char>)>, now: u64, comm: Seq<char>) -> Seq<
    (u64, Seq<char>),
> {
    if enumeration_burst(recent, now, comm) {
        Seq::empty()
    } else {
        windowed(recent, now, comm)
    }
}

/// The score that a process spawn adds.
pub open spec fn spawn_delta(f: SpawnFindings, burst: bool) -> u64 {
    ((if f.web_shell { WEB_SHELL_DELTA } else { 0 }) + (if f.reverse_shell {
        REVERSE_SHELL_DELTA
    } else {
        0
    }) + (if f.blacklisted { BLACKLIST_DELTA } else { 0 }) + (if f.high_value {
        HIGH_VALUE_DELTA
    } else {
        0
    }) + (if burst { ENUMERATION_BURST_DELTA } else { 0 })) as u64
}

/// `score + delta`, capped at [`SCORE_CAP`].
pub open spec fn capped(score: u64, delta: u64) -> u64 {
    if score + delta > SCORE_CAP {
        SCORE_CAP
    } else {
        (score + delta) as u64
    }
}

/// The state after a score rise to `score`.
pub open spec fn state_after(state: EntityState, score: u64, th: Thresholds) -> EntityState {
    if score >= th.blocked {
        EntityState::Blocked
    } else if score >= th.suspicious {
        EntityState::Suspicious
    } else {
        state
    }
}

/// The action after a score rise to `score`: a blocked entity with no action
/// yet gets its last process killed.
pub open spec fn action_after(
    action: Option<ActionView>,
    score: u64,
    th: Thresholds,
    pid: u32,
    uid: u32,
) -> Option<ActionView> {
    if score >= th.blocked && action is None {
        Some(ActionView::KillProcess { pid, uid })
    } else {
        action
    }
}

/// `p` after its score rises by `delta`.
pub open spec fn applied(p: ProfileView, delta: u64, th: Thresholds) -> ProfileView {
    ProfileView {
        score: capped(p.score, delta),
        state: state_after(p.state, capped(p.score, delta), th),
        ..p
    }
}

/// Raises the score of `profile` by `delta`, moves it to the state its new
/// score calls for (capped at 200 points), and asks to kill its last process
/// when it becomes blocked and no action was chosen yet.
pub fn apply_score(
    profile: &mut RiskProfile,
    delta: u64,
    action: &mut Option<ContainmentAction>,
    th: &Thresholds,
)
    ensures
        final(profile)@ == applied(old(profile)@, delta, *th),
        action_view(*final(action)) == action_after(
            action_view(*old(action)),
            final(profile).score,
            *th,
            old(profile).last_pid,
            old(profile).uid,
        ),
        old(action).is_some() ==> *final(action) == *old(action),
{
    profile.score = match profile.score.checked_add(delta) {
        Some(sum) => if sum > SCORE_CAP { SCORE_CAP } else { sum },
        None => SCORE_CAP,
    };
    if profile.score >= th.blocked {
        profile.state = EntityState::Blocked;
        if action.is_none() {
            *action = Some(ContainmentAction::KillProcess { pid: profile.last_pid, uid: profile.uid });
        }
    } else if profile.score >= th.suspicious {
        profile.state = EntityState::Suspicious;
    }
}


/// The values of a list of strings.
pub open spec fn string_views(s: Seq<String>) -> Seq<Seq<char>> {
    s.map_values(|x: String| x@)
}

proof fn lemma_to_set_push<A>(s: Seq<A>, x: A)
    ensures
        s.push(x).to_set() == s.to_set().insert(x),
{
    assert(s.push(x) =~= s + seq![x]);
    Seq::lemma_to_set_insert_commutes(s, x);
}

/// The number of distinct tool names in `list`.
pub fn distinct_tool_count(list: &Vec<(u64, String)>) -> (n: usize)
    ensures
        n == distinct_tools(comm_views(list@)),
{
    let mut uniq: Vec<String> = Vec::new();
    let mut i: usize = 0;
    while i < list.len()
        invariant
            i <= list.len(),
            string_views(uniq@).no_duplicates(),
            string_views(uniq@).to_set() == tool_names(comm_views(list@.take(i as int))).to_set(),
            uniq@.len() <= i,
        decreases list.len() - i,
    {
        let name = &list[i].1;
        let mut j: usize = 0;
        let mut found = false;
        while j < uniq.len()
            invariant
                j <= uniq.len(),
                found ==> string_views(uniq@).contains(name@),
                !found ==> forall|k: int| 0 <= k < j ==> string_views(uniq@)[k] != name@,
            decreases uniq.len() - j,
        {
            if uniq[j] == *name {
                assert(string_views(uniq@)[j as int] == name@);
                found = true;
            }
            j = j + 1;
        }
        let ghost before = string_views(uniq@);
        assert(tool_names(comm_views(list@.take(i + 1))) =~= tool_names(
            comm_views(list@.take(i as int)),
        ).push(name@));
        if !found {
            uniq.push(name.clone());
            assert(string_views(uniq@) =~= before.push(name@));
            proof {
                lemma_to_set_push(before, name@);
            }
        } else {
            assert(before.to_set().contains(name@));
        }
        proof {
            lemma_to_set_push(tool_names(comm_views(list@.take(i as int))), name@);
        }
        i = i + 1;
    }
    assert(list@.take(list.len() as int) == list@);
    proof {
        string_views(uniq@).unique_seq_to_set();
    }
    uniq.len()
}

proof fn lemma_comm_views_push(s: Seq<(u64, String)>, e: (u64, String))
    ensures
        comm_views(s.push(e)) == comm_views(s).push((e.0, e.1@)),
{
    assert(comm_views(s.push(e)) =~= comm_views(s).push((e.0, e.1@)));
}

/// Records that the enumeration tool `comm` ran at `now`: drops tools that
/// left the velocity window, adds `comm`, and reports (and clears the list
/// on) three distinct tools in the window.
fn record_tool(profile: &mut RiskProfile, comm: &String, now: u64) -> (burst: bool)
    ensures
        burst == enumeration_burst(old(profile)@.recent, now, comm@),
        final(profile)@ == (ProfileView {
            recent: after_enumeration(old(profile)@.recent, now, comm@),
            ..old(profile)@
        }),
{
    let ghost pred = |e: (u64, Seq<char>)| in_window(now, e.0);
    let mut kept: Vec<(u64, String)> = Vec::new();
    let mut i: usize = 0;
    while i < profile.recent_comms.len()
        invariant
            i <= profile.recent_comms.len(),
            comm_views(kept@) == comm_views(profile.recent_comms@.take(i as int)).filter(pred),
            pred == (|e: (u64, Seq<char>)| in_window(now, e.0)),
        decreases profile.recent_comms.len() - i,
    {
        let t = profile.recent_comms[i].0;
        let ghost prefix = profile.recent_comms@.take(i as int);
        assert(profile.recent_comms@.take(i + 1) == prefix.push(profile.recent_comms@[i as int]));
        proof {
            lemma_comm_views_push(prefix, profile.recent_comms@[i as int]);
            comm_views(prefix).lemma_filter_push(
                (t, profile.recent_comms@[i as int].1@),
                pred,
            );
        }
        if now - (if t > now { now } else { t }) < VELOCITY_WINDOW_MS {
            let name = profile.recent_comms[i].1.clone();
            proof {
                lemma_comm_views_push(kept@, (t, name));
            }
            kept.push((t, name));
        }
        i = i + 1;
    }
    assert(profile.recent_comms@.take(profile.recent_comms.len() as int) == profile.recent_comms@);
    let c = comm.clone();
    proof {
        lemma_comm_views_push(kept@, (now, c));
    }
    kept.push((now, c));
    let n = distinct_tool_count(&kept);
    if n >= 3 {
        profile.recent_comms = Vec::new();
        assert(comm_views(profile.recent_comms@) =~= Seq::empty());
        true
    } else {
        profile.recent_comms = kept;
        false
    }
}


/// Texts the engine needs from `/proc` for one event: the contents of
/// `/proc/<ppid>/comm` for a process spawn and of `/proc/<pid>/status` for a
/// network connection (empty when unreadable).
pub struct ProcContext {
    pub parent_comm: String,
    pub status: String,
}

/// Result of scoring a single event.
pub struct ScoreResult {
    pub entity: String,
    /// Score of the entity after the event, in thousandths of a point.
    pub score: u64,
    /// Score the event added, in thousandths of a point.
    pub delta: u64,
    pub action: Option<ContainmentAction>,
    pub state: EntityState,
}

/// The mathematical value of a [`ScoreResult`].
pub struct ScoreView {
    pub entity: Seq<char>,
    pub score: u64,
    pub delta: u64,
    pub action: Option<ActionView>,
    pub state: EntityState,
}

impl View for ScoreResult {
    type V = ScoreView;

    open spec fn view(&self) -> ScoreView {
        ScoreView {
            entity: self.entity@,
            score: self.score,
            delta: self.delta,
            action: action_view(self.action),
            state: self.state,
        }
    }
}

/// The value of an optional result.
pub open spec fn result_view(r: Option<ScoreResult>) -> Option<ScoreView> {
    match r {
        Some(x) => Some(x@),
        None => None,
    }
}

/// An entry of the risk table: an entity and its profile.
pub type Entry = (Seq<char>, ProfileView);

/// Whether no entity occurs twice in `e`.
pub open spec fn keys_distinct(e: Seq<Entry>) -> bool {
    forall|i: int, j: int| 0 <= i < e.len() && 0 <= j < e.len() && i != j ==> e[i].0 != e[j].0
}

/// Whether `key` has an entry in `e`.
pub open spec fn has_entity(e: Seq<Entry>, key: Seq<char>) -> bool {
    exists|i: int| 0 <= i < e.len() && e[i].0 == key
}

/// The position of `key` in `e`.
pub open spec fn entity_index(e: Seq<Entry>, key: Seq<char>) -> int {
    choose|i: int| 0 <= i < e.len() && e[i].0 == key
}

/// The profile of `key` in `e`, if it has one.
pub open spec fn profile_of(e: Seq<Entry>, key: Seq<char>) -> Option<ProfileView> {
    if has_entity(e, key) {
        Some(e[entity_index(e, key)].1)
    } else {
        None
    }
}

/// `e` with the profile of `key` set to `p` (a new entity goes last).
pub open spec fn put(e: Seq<Entry>, key: Seq<char>, p: ProfileView) -> Seq<Entry> {
    if has_entity(e, key) {
        e.update(entity_index(e, key), (key, p))
    } else {
        e.push((key, p))
    }
}

/// The profile of `key` in `e`, or `fresh` for a new entity.
pub open spec fn base_profile(e: Seq<Entry>, key: Seq<char>, fresh: ProfileView) -> ProfileView {
    match profile_of(e, key) {
        Some(p) => p,
        None => fresh,
    }
}

/// Whether the state of `p` agrees with its score: blocked profiles are at or
/// over the blocking threshold, suspicious ones between the two thresholds,
/// and clean ones under both (or still at zero).
pub open spec fn consistent(p: ProfileView, th: Thresholds) -> bool {
    &&& p.score <= SCORE_CAP
    &&& p.state == EntityState::Blocked ==> p.score >= th.blocked && p.score > 0
    &&& p.state == EntityState::Suspicious ==> th.suspicious <= p.score < th.blocked
    &&& p.state == EntityState::Clean ==> (p.score == 0 || (p.score < th.suspicious && p.score
        < th.blocked))
}

/// The table entity of a UID.
pub open spec fn uid_entity(uid: u32) -> Seq<char> {
    "uid_"@ + decimal(uid as nat)
}

/// The table entity of an authentication failure: its source IP when known,
/// else the user.
pub open spec fn auth_entity(user: Seq<char>, src_ip: Option<Seq<char>>) -> Seq<char> {
    match src_ip {
        Some(ip) => "ip_"@ + ip,
        None => "user_"@ + user,
    }
}

/// `p` touched by an event of `pid` at `now`.
pub open spec fn touched(p: ProfileView, pid: u32, now: u64) -> ProfileView {
    ProfileView { last_pid: pid, last_event: now, ..p }
}

/// The table and result after the profile `p` of `key` takes a rise of
/// `delta` with the proposed `action`; no rise leaves no result.
pub open spec fn scored_profile(
    e: Seq<Entry>,
    th: Thresholds,
    key: Seq<char>,
    p: ProfileView,
    delta: u64,
    action: Option<ActionView>,
) -> (Seq<Entry>, Option<ScoreView>) {
    if delta > 0 {
        let p2 = applied(p, delta, th);
        (
            put(e, key, p2),
            Some(
                ScoreView {
                    entity: key,
                    score: p2.score,
                    delta,
                    action: action_after(action, p2.score, th, p.last_pid, p.uid),
                    state: p2.state,
                },
            ),
        )
    } else {
        (put(e, key, p), None)
    }
}

/// The table and result after a process spawn.
pub open spec fn spawn_outcome(
    e: Seq<Entry>,
    th: Thresholds,
    pid: u32,
    uid: u32,
    comm: Seq<char>,
    cmdline: Seq<char>,
    parent_comm: Seq<char>,
    now: u64,
) -> (Seq<Entry>, Option<ScoreView>) {
    let key = uid_entity(uid);
    let p0 = touched(base_profile(e, key, fresh_profile(uid, pid, now)), pid, now);
    let f = findings_of(lower_text(comm), lower_text(cmdline), lower_text(parent_comm));
    let burst = f.enumeration && enumeration_burst(p0.recent, now, comm);
    let p1 = if f.enumeration {
        ProfileView { recent: after_enumeration(p0.recent, now, comm), ..p0 }
    } else {
        p0
    };
    let action = if f.web_shell || f.reverse_shell {
        Some(ActionView::KillProcess { pid, uid })
    } else {
        None
    };
    scored_profile(e, th, key, p1, spawn_delta(f, burst), action)
}

/// The UID that a `/proc/<pid>/status` text gives (0 when it gives none).
pub open spec fn status_uid(status: Seq<char>) -> u32 {
    match status_value(status, "Uid:"@) {
        Some(u) => u,
        None => 0,
    }
}

/// The table and result after an outbound connection.
pub open spec fn connect_outcome(
    e: Seq<Entry>,
    th: Thresholds,
    pid: u32,
    dst_ip: Seq<char>,
    dst_port: u16,
    status: Seq<char>,
    now: u64,
) -> (Seq<Entry>, Option<ScoreView>) {
    let uid = status_uid(status);
    let key = uid_entity(uid);
    let p0 = touched(base_profile(e, key, fresh_profile(uid, pid, now)), pid, now);
    if is_suspicious_port(dst_port) {
        scored_profile(
            e,
            th,
            key,
            p0,
            SUSPICIOUS_PORT_DELTA,
            Some(ActionView::BlockIp { ip: dst_ip, uid }),
        )
    } else {
        scored_profile(e, th, key, p0, 0, None)
    }
}

/// The table and result after an authentication failure.
pub open spec fn auth_outcome(
    e: Seq<Entry>,
    th: Thresholds,
    user: Seq<char>,
    src_ip: Option<Seq<char>>,
    now: u64,
) -> (Seq<Entry>, Option<ScoreView>) {
    let key = auth_entity(user, src_ip);
    let p0 = base_profile(e, key, fresh_profile(0, 0, now));
    scored_profile(e, th, key, ProfileView { last_event: now, ..p0 }, AUTH_FAILURE_DELTA, None)
}

/// The value of an optional string.
pub open spec fn opt_view(s: Option<String>) -> Option<Seq<char>> {
    match s {
        Some(x) => Some(x@),
        None => None,
    }
}

/// The table and result after any event.
pub open spec fn score_outcome(
    e: Seq<Entry>,
    th: Thresholds,
    event: SensorEvent,
    ctx: ProcContext,
    now: u64,
) -> (Seq<Entry>, Option<ScoreView>) {
    match event {
        SensorEvent::ProcessSpawn { pid, ppid, uid, comm, cmdline } => spawn_outcome(
            e,
            th,
            pid,
            uid,
            comm@,
            cmdline@,
            ctx.parent_comm@,
            now,
        ),
        SensorEvent::NetConnect { pid, comm, src_ip, dst_ip, dst_port } => connect_outcome(
            e,
            th,
            pid,
            dst_ip@,
            dst_port,
            ctx.status@,
            now,
        ),
        SensorEvent::FileModified { path } => (
            e,
            Some(
                ScoreView {
                    entity: "fim:"@ + path@,
                    score: FILE_CHANGE_SCORE,
                    delta: FILE_CHANGE_SCORE,
                    action: Some(ActionView::AlertOnly),
                    state: EntityState::Blocked,
                },
            ),
        ),
        SensorEvent::AuthFailure { user, src_ip } => auth_outcome(
            e,
            th,
            user@,
            opt_view(src_ip),
            now,
        ),
        SensorEvent::ProcessExit { pid } => (e, None),
    }
}

proof fn lemma_put_update(e: Seq<Entry>, key: Seq<char>, x: ProfileView, y: ProfileView, idx: int)
    requires
        idx == entity_index(put(e, key, x), key),
        has_entity(put(e, key, x), key),
        has_entity(e, key) ==> entity_index(e, key) == idx,
    ensures
        put(e, key, x).update(idx, (key, y)) == put(e, key, y),
{
    if has_entity(e, key) {
        assert(put(e, key, x).update(idx, (key, y)) =~= put(e, key, y));
    } else {
        assert(put(e, key, x).update(idx, (key, y)) =~= put(e, key, y));
    }
}

/// The table entity of `uid`.
fn uid_entity_string(uid: u32) -> (s: String)
    ensures
        s@ == uid_entity(uid),
{
    let mut s = "uid_".to_owned();
    push_decimal(&mut s, uid as u64);
    s
}

/// The table entity of an authentication failure.
fn auth_entity_string(user: &String, src_ip: &Option<String>) -> (s: String)
    ensures
        s@ == auth_entity(user@, opt_view(*src_ip)),
{
    match src_ip {
        Some(ip) => {
            let mut s = "ip_".to_owned();
            s.append(ip.as_str());
            s
        },
        None => {
            let mut s = "user_".to_owned();
            s.append(user.as_str());
            s
        },
    }
}

/// The entries that a table of entities and profiles holds.
pub open spec fn table_entries(t: Seq<(String, RiskProfile)>) -> Seq<Entry> {
    t.map_values(|e: (String, RiskProfile)| (e.0@, e.1@))
}

/// One minute, in milliseconds.
pub const MINUTE_MS: u64 = 60_000;

/// How long an entity at zero stays in the table without activity (10 minutes).
pub const IDLE_RETENTION_MS: u64 = 600_000;

/// Milliseconds from `last` to `now` (zero when `last` is later).
pub open spec fn elapsed_ms(now: u64, last: u64) -> nat {
    if now > last {
        (now - last) as nat
    } else {
        0
    }
}

/// The time from which `p` is owed decay: its last event, or the time up to
/// which decay was already applied, whichever is later.
pub open spec fn decay_start(p: ProfileView) -> u64 {
    if p.last_event > p.decayed_until {
        p.last_event
    } else {
        p.decayed_until
    }
}

/// The score that decay removes from `p` at `now`: the minutes since it was
/// last active or last decayed, times the rate, rounded down to the unit.
pub open spec fn decay_amount(p: ProfileView, now: u64, th: Thresholds) -> nat {
    elapsed_ms(now, decay_start(p)) * (th.decay_per_min as nat) / (MINUTE_MS as nat)
}

/// `p` after a decay pass at `now`: blocked profiles keep their score; others
/// lose the decay amount (not below zero) and are marked decayed up to `now`,
/// and a suspicious profile that falls under the suspicious threshold becomes
/// clean.
pub open spec fn decayed(p: ProfileView, now: u64, th: Thresholds) -> ProfileView {
    if p.state == EntityState::Blocked || decay_amount(p, now, th) == 0 {
        p
    } else {
        let s: u64 = if decay_amount(p, now, th) >= p.score {
            0
        } else {
            (p.score - decay_amount(p, now, th)) as u64
        };
        ProfileView {
            score: s,
            state: if s < th.suspicious && p.state == EntityState::Suspicious {
                EntityState::Clean
            } else {
                p.state
            },
            decayed_until: now,
            ..p
        }
    }
}

/// Whether a decay pass at `now` lowers a positive score of `p`.
pub open spec fn counts_as_decayed(p: ProfileView, now: u64, th: Thresholds) -> bool {
    p.state != EntityState::Blocked && decay_amount(p, now, th) > 0 && p.score > 0
}

/// Whether an entry stays in the table after a decay pass at `now`: it has a
/// score, or it was active within the last ten minutes.
pub open spec fn retained(x: Entry, now: u64) -> bool {
    x.1.score > 0 || elapsed_ms(now, x.1.last_event) < IDLE_RETENTION_MS
}

/// The entries after decay, before idle entities are dropped.
pub open spec fn decayed_entries(e: Seq<Entry>, now: u64, th: Thresholds) -> Seq<Entry> {
    e.map_values(|x: Entry| (x.0, decayed(x.1, now, th)))
}

/// The table after a decay pass at `now`.
pub open spec fn decay_outcome(e: Seq<Entry>, now: u64, th: Thresholds) -> Seq<Entry> {
    decayed_entries(e, now, th).filter(|x: Entry| retained(x, now))
}

/// The number of entities whose positive score a decay pass at `now` lowers.
pub open spec fn decay_count(e: Seq<Entry>, now: u64, th: Thresholds) -> nat {
    e.filter(|x: Entry| counts_as_decayed(x.1, now, th)).len()
}

proof fn lemma_decayed_consistent(p: ProfileView, now: u64, th: Thresholds)
    requires
        consistent(p, th),
    ensures
        consistent(decayed(p, now, th), th),
{
}

proof fn lemma_filter_keeps_keys_distinct(s: Seq<Entry>, pred: spec_fn(Entry) -> bool)
    requires
        keys_distinct(s),
    ensures
        keys_distinct(s.filter(pred)),
    decreases s.len(),
{
    reveal(Seq::filter);
    if s.len() > 0 {
        let rest = s.drop_last();
        assert(keys_distinct(rest)) by {
            assert forall|a: int, b: int|
                0 <= a < rest.len() && 0 <= b < rest.len() && a != b implies rest[a].0
                != rest[b].0 by {
                assert(rest[a] == s[a] && rest[b] == s[b]);
            }
        }
        lemma_filter_keeps_keys_distinct(rest, pred);
        let f = rest.filter(pred);
        if pred(s.last()) {
            assert forall|a: int| 0 <= a < f.len() implies f[a].0 != s.last().0 by {
                rest.lemma_filter_contains_rev(pred, f[a]);
                let j = choose|j: int| 0 <= j < rest.len() && rest[j] == f[a];
                assert(s[j] == rest[j]);
                assert(j != s.len() - 1);
            }
            let g = f.push(s.last());
            assert forall|a: int, b: int|
                0 <= a < g.len() && 0 <= b < g.len() && a != b implies g[a].0 != g[b].0 by {
                if a < f.len() && b < f.len() {
                    assert(g[a] == f[a] && g[b] == f[b]);
                } else if a < f.len() {
                    assert(g[a] == f[a]);
                } else {
                    assert(g[b] == f[b]);
                }
            }
        }
    }
}

/// Lowers the score of `profile` by its decay at `now`; reports whether a
/// positive score was lowered.
fn decay_profile(profile: &mut RiskProfile, now: u64, th: &Thresholds) -> (counted: bool)
    ensures
        final(profile)@ == decayed(old(profile)@, now, *th),
        counted == counts_as_decayed(old(profile)@, now, *th),
{
    if profile.state == EntityState::Blocked {
        return false;
    }
    let start: u64 = if profile.last_event > profile.decayed_until {
        profile.last_event
    } else {
        profile.decayed_until
    };
    let elapsed: u64 = if now > start { now - start } else { 0 };
    proof {
        assert((elapsed as int) * (th.decay_per_min as int) <= (u64::MAX as int) * (
        u64::MAX as int)) by (nonlinear_arith)
            requires
                elapsed <= u64::MAX,
                th.decay_per_min <= u64::MAX,
        ;
    }
    let amount: u128 = (elapsed as u128) * (th.decay_per_min as u128) / (MINUTE_MS as u128);
    proof {
        assert((elapsed as u128) * (th.decay_per_min as u128) == (elapsed as nat) * (
        th.decay_per_min as nat)) by (nonlinear_arith)
            requires
                elapsed <= u64::MAX,
                th.decay_per_min <= u64::MAX,
        ;
    }
    if amount == 0 {
        return false;
    }
    let was_positive = profile.score > 0;
    profile.score = if amount >= profile.score as u128 {
        0
    } else {
        profile.score - (amount as u64)
    };
    if profile.score < th.suspicious && profile.state == EntityState::Suspicious {
        profile.state = EntityState::Clean;
    }
    profile.decayed_until = now;
    was_positive
}

/// The risk engine: one profile per entity, and the thresholds it scores by.
pub struct DrsEngine {
    table: Vec<(String, RiskProfile)>,
    thresholds: Thresholds,
}

impl DrsEngine {
    /// The entities and their profiles, in the order they were first seen.
    pub closed spec fn entries(&self) -> Seq<Entry> {
        table_entries(self.table@)
    }

    /// The thresholds the engine scores by.
    pub closed spec fn spec_thresholds(&self) -> Thresholds {
        self.thresholds
    }

    /// The engine's invariant: entities are distinct and every profile's
    /// state agrees with its score.
    pub closed spec fn wf(&self) -> bool {
        &&& keys_distinct(self.entries())
        &&& forall|i: int|
            0 <= i < self.entries().len() ==> consistent(
                #[trigger] self.entries()[i].1,
                self.thresholds,
            )
    }

    /// What the invariant gives callers.
    pub proof fn lemma_wf(&self)
        requires
            self.wf(),
        ensures
            keys_distinct(self.entries()),
            forall|i: int|
                0 <= i < self.entries().len() ==> consistent(
                    #[trigger] self.entries()[i].1,
                    self.spec_thresholds(),
                ),
    {
    }

    /// An engine with an empty table.
    pub fn new(thresholds: Thresholds) -> (e: Self)
        ensures
            e.wf(),
            e.entries() == Seq::<Entry>::empty(),
            e.spec_thresholds() == thresholds,
    {
        let e = DrsEngine { table: Vec::new(), thresholds };
        assert(e.entries() =~= Seq::<Entry>::empty());
        e
    }

    /// The thresholds the engine scores by.
    pub fn thresholds(&self) -> (t: Thresholds)
        ensures
            t == self.spec_thresholds(),
    {
        self.thresholds
    }

    /// The number of entities in the table.
    pub fn len(&self) -> (n: usize)
        ensures
            n == self.entries().len(),
    {
        self.table.len()
    }

    /// The profile of `entity`, if the table has one.
    pub fn profile(&self, entity: &String) -> (r: Option<&RiskProfile>)
        requires
            self.wf(),
        ensures
            match r {
                Some(p) => profile_of(self.entries(), entity@) == Some(p@),
                None => profile_of(self.entries(), entity@) is None,
            },
    {
        match self.find(entity) {
            Some(i) => Some(&self.table[i].1),
            None => None,
        }
    }

    /// Finds the entry of `key`, adding a fresh profile when there is none.
    fn entry_for(&mut self, key: &String, uid: u32, pid: u32, now: u64) -> (idx: usize)
        requires
            old(self).wf(),
        ensures
            final(self).wf(),
            final(self).spec_thresholds() == old(self).spec_thresholds(),
            final(self).entries() == put(
                old(self).entries(),
                key@,
                base_profile(old(self).entries(), key@, fresh_profile(uid, pid, now)),
            ),
            idx < final(self).entries().len(),
            has_entity(final(self).entries(), key@),
            entity_index(final(self).entries(), key@) == idx,
            has_entity(old(self).entries(), key@) ==> entity_index(old(self).entries(), key@)
                == idx,
    {
        match self.find(key) {
            Some(i) => {
                proof {
                    let e = self.entries();
                    assert(e.update(i as int, (key@, e[i as int].1)) =~= e);
                }
                i
            },
            None => {
                let ghost e0 = self.entries();
                let p = RiskProfile::new(uid, pid, now);
                let k = key.clone();
                self.table.push((k, p));
                let idx = self.table.len() - 1;
                proof {
                    let e = self.entries();
                    assert(e =~= e0.push((key@, fresh_profile(uid, pid, now))));
                    assert(e[idx as int].0 == key@);
                    assert(has_entity(e, key@));
                    let k2 = entity_index(e, key@);
                    if k2 != idx {
                        assert(e0[k2].0 == key@);
                    }
                    assert(keys_distinct(e)) by {
                        assert forall|a: int, b: int|
                            0 <= a < e.len() && 0 <= b < e.len() && a != b implies e[a].0
                            != e[b].0 by {
                            if a < e0.len() && b < e0.len() {
                                assert(e[a] == e0[a] && e[b] == e0[b]);
                            } else if a < e0.len() {
                                assert(e[a] == e0[a]);
                            } else {
                                assert(e[b] == e0[b]);
                            }
                        }
                    }
                    assert forall|j: int| 0 <= j < e.len() implies consistent(
                        #[trigger] e[j].1,
                        self.thresholds,
                    ) by {
                        if j < e0.len() {
                            assert(e[j] == e0[j]);
                        }
                    }
                }
                idx
            },
        }
    }

    /// Raises the profile at `idx` by `delta` and reports the result.
    fn rise(&mut self, idx: usize, delta: u64, action: Option<ContainmentAction>, entity: String) -> (r:
        Option<ScoreResult>)
        requires
            old(self).wf(),
            idx < old(self).entries().len(),
            old(self).entries()[idx as int].0 == entity@,
        ensures
            final(self).wf(),
            final(self).spec_thresholds() == old(self).spec_thresholds(),
            ({
                let p = old(self).entries()[idx as int].1;
                let th = old(self).spec_thresholds();
                if delta > 0 {
                    let p2 = applied(p, delta, th);
                    &&& final(self).entries() == old(self).entries().update(
                        idx as int,
                        (entity@, p2),
                    )
                    &&& result_view(r) == Some(
                        ScoreView {
                            entity: entity@,
                            score: p2.score,
                            delta,
                            action: action_after(action_view(action), p2.score, th, p.last_pid, p.uid),
                            state: p2.state,
                        },
                    )
                } else {
                    final(self).entries() == old(self).entries() && r is None
                }
            }),
    {
        if delta == 0 {
            return None;
        }
        let ghost e0 = self.entries();
        let th = self.thresholds;
        let mut act = action;
        assert(self.table@[idx as int].1@ == e0[idx as int].1);
        assert(consistent(e0[idx as int].1, th));
        apply_score(&mut self.table[idx].1, delta, &mut act, &th);
        let score = self.table[idx].1.score;
        let state = self.table[idx].1.state;
        proof {
            let e = self.entries();
            assert(e =~= e0.update(idx as int, (entity@, applied(e0[idx as int].1, delta, th))));
            assert forall|j: int| 0 <= j < e.len() implies consistent(
                #[trigger] e[j].1,
                self.thresholds,
            ) by {
                if j != idx {
                    assert(e[j] == e0[j]);
                }
            }
            assert forall|a: int, b: int|
                0 <= a < e.len() && 0 <= b < e.len() && a != b implies e[a].0 != e[b].0 by {
                assert(e[a].0 == e0[a].0 && e[b].0 == e0[b].0);
            }
        }
        Some(ScoreResult { entity, score, delta, action: act, state })
    }

    /// Scores `event`, seen at `now` (milliseconds of the agent's clock), with
    /// the `/proc` texts it needs, and returns the result when the event raised
    /// a score (always for a file change).
    ///
    /// * A process spawn scores its UID: 100 points for a web server spawning a
    ///   shell, 100 for a script interpreter spawning a shell with a reverse-shell
    ///   keyword (both ask to kill the process), 40 for a blacklisted binary, 20
    ///   for a high-value single command, and 50 when an enumeration tool is the
    ///   third distinct one within a minute.
    /// * A connection to a suspicious port scores 85 points for the UID of its
    ///   process and asks to block the destination.
    /// * A file change always reports 90 points, blocked, alert only, and
    ///   changes no profile.
    /// * An authentication failure scores 15 points for its source IP (or user).
    /// * A process exit changes nothing.
    ///
    /// A raised score is capped at 200 points; reaching the blocking threshold
    /// blocks the entity (and asks to kill its last process when no action was
    /// chosen), reaching the suspicious threshold makes it suspicious.
    pub fn score(&mut self, event: &SensorEvent, ctx: &ProcContext, now: u64) -> (r: Option<
        ScoreResult,
    >)
        requires
            old(self).wf(),
        ensures
            final(self).wf(),
            final(self).spec_thresholds() == old(self).spec_thresholds(),
            (final(self).entries(), result_view(r)) == score_outcome(
                old(self).entries(),
                old(self).spec_thresholds(),
                *event,
                *ctx,
                now,
            ),
    {
        match event {
            SensorEvent::ProcessSpawn { pid, ppid, uid, comm, cmdline } => self.score_spawn(
                *pid,
                *uid,
                comm,
                cmdline,
                &ctx.parent_comm,
                now,
            ),
            SensorEvent::NetConnect { pid, comm, src_ip, dst_ip, dst_port } => self.score_connect(
                *pid,
                dst_ip,
                *dst_port,
                &ctx.status,
                now,
            ),
            SensorEvent::FileModified { path } => {
                let mut entity = "fim:".to_owned();
                entity.append(path.as_str());
                Some(
                    ScoreResult {
                        entity,
                        score: FILE_CHANGE_SCORE,
                        delta: FILE_CHANGE_SCORE,
                        action: Some(ContainmentAction::AlertOnly),
                        state: EntityState::Blocked,
                    },
                )
            },
            SensorEvent::AuthFailure { user, src_ip } => self.score_auth(user, src_ip, now),
            SensorEvent::ProcessExit { pid } => None,
        }
    }

    /// Marks the profile at `idx` as seen at `now` (and by `pid` when `set_pid`).
    fn touch(&mut self, idx: usize, set_pid: bool, pid: u32, now: u64)
        requires
            old(self).wf(),
            idx < old(self).entries().len(),
        ensures
            final(self).wf(),
            final(self).spec_thresholds() == old(self).spec_thresholds(),
            final(self).entries() == old(self).entries().update(
                idx as int,
                (
                    old(self).entries()[idx as int].0,
                    if set_pid {
                        touched(old(self).entries()[idx as int].1, pid, now)
                    } else {
                        ProfileView { last_event: now, ..old(self).entries()[idx as int].1 }
                    },
                ),
            ),
    {
        let ghost e1 = self.entries();
        if set_pid {
            self.table[idx].1.last_pid = pid;
        }
        self.table[idx].1.last_event = now;
        proof {
            let e2 = self.entries();
            assert(e2 =~= e1.update(
                idx as int,
                (
                    e1[idx as int].0,
                    if set_pid {
                        touched(e1[idx as int].1, pid, now)
                    } else {
                        ProfileView { last_event: now, ..e1[idx as int].1 }
                    },
                ),
            ));
            assert(consistent(e1[idx as int].1, self.thresholds));
            assert forall|j: int| 0 <= j < e2.len() implies consistent(
                #[trigger] e2[j].1,
                self.thresholds,
            ) by {
                if j != idx {
                    assert(e2[j] == e1[j]);
                }
            }
            assert forall|a: int, b: int|
                0 <= a < e2.len() && 0 <= b < e2.len() && a != b implies e2[a].0 != e2[b].0 by {
                assert(e2[a].0 == e1[a].0 && e2[b].0 == e1[b].0);
            }
        }
    }

    /// Records the enumeration tool `comm` in the profile at `idx`.
    fn record_tool_at(&mut self, idx: usize, comm: &String, now: u64) -> (burst: bool)
        requires
            old(self).wf(),
            idx < old(self).entries().len(),
        ensures
            final(self).wf(),
            final(self).spec_thresholds() == old(self).spec_thresholds(),
            burst == enumeration_burst(old(self).entries()[idx as int].1.recent, now, comm@),
            final(self).entries() == old(self).entries().update(
                idx as int,
                (
                    old(self).entries()[idx as int].0,
                    ProfileView {
                        recent: after_enumeration(
                            old(self).entries()[idx as int].1.recent,
                            now,
                            comm@,
                        ),
                        ..old(self).entries()[idx as int].1
                    },
                ),
            ),
    {
        let ghost e1 = self.entries();
        assert(self.table@[idx as int].1@ == e1[idx as int].1);
        let burst = record_tool(&mut self.table[idx].1, comm, now);
        proof {
            let e2 = self.entries();
            assert(e2 =~= e1.update(
                idx as int,
                (
                    e1[idx as int].0,
                    ProfileView {
                        recent: after_enumeration(e1[idx as int].1.recent, now, comm@),
                        ..e1[idx as int].1
                    },
                ),
            ));
            assert(consistent(e1[idx as int].1, self.thresholds));
            assert forall|j: int| 0 <= j < e2.len() implies consistent(
                #[trigger] e2[j].1,
                self.thresholds,
            ) by {
                if j != idx {
                    assert(e2[j] == e1[j]);
                }
            }
            assert forall|a: int, b: int|
                0 <= a < e2.len() && 0 <= b < e2.len() && a != b implies e2[a].0 != e2[b].0 by {
                assert(e2[a].0 == e1[a].0 && e2[b].0 == e1[b].0);
            }
        }
        burst
    }

    #[verifier::rlimit(40)]
    fn score_spawn(
        &mut self,
        pid: u32,
        uid: u32,
        comm: &String,
        cmdline: &String,
        parent_comm: &String,
        now: u64,
    ) -> (r: Option<ScoreResult>)
        requires
            old(self).wf(),
        ensures
            final(self).wf(),
            final(self).spec_thresholds() == old(self).spec_thresholds(),
            (final(self).entries(), result_view(r)) == spawn_outcome(
                old(self).entries(),
                old(self).spec_thresholds(),
                pid,
                uid,
                comm@,
                cmdline@,
                parent_comm@,
                now,
            ),
    {
        let ghost e0 = self.entries();
        let ghost th = self.thresholds;
        let entity = uid_entity_string(uid);
        let idx = self.entry_for(&entity, uid, pid, now);
        let ghost base = base_profile(e0, entity@, fresh_profile(uid, pid, now));
        let comm_lc = to_lowercase(comm.as_str());
        let cmd_lc = to_lowercase(cmdline.as_str());
        let parent_lc = to_lowercase(parent_comm.as_str());
        let f = spawn_findings(comm_lc.as_str(), cmd_lc.as_str(), parent_lc.as_str());
        self.touch(idx, true, pid, now);
        let ghost p0 = touched(base, pid, now);
        let mut delta: u64 = 0;
        let mut action: Option<ContainmentAction> = None;
        if f.web_shell {
            delta = delta + WEB_SHELL_DELTA;
            action = Some(ContainmentAction::KillProcess { pid, uid });
        }
        if f.reverse_shell {
            delta = delta + REVERSE_SHELL_DELTA;
            action = Some(ContainmentAction::KillProcess { pid, uid });
        }
        if f.blacklisted {
            delta = delta + BLACKLIST_DELTA;
        }
        if f.high_value {
            delta = delta + HIGH_VALUE_DELTA;
        }
        let mut burst = false;
        if f.enumeration {
            burst = self.record_tool_at(idx, comm, now);
            if burst {
                delta = delta + ENUMERATION_BURST_DELTA;
            }
        }
        let ghost p1 = if f.enumeration {
            ProfileView { recent: after_enumeration(p0.recent, now, comm@), ..p0 }
        } else {
            p0
        };
        proof {
            lemma_put_update(e0, entity@, base, p0, idx as int);
            lemma_put_update(e0, entity@, base, p1, idx as int);
            assert(self.entries() == put(e0, entity@, p1));
            assert(delta == spawn_delta(f, burst));
        }
        let r = self.rise(idx, delta, action, entity);
        proof {
            if delta > 0 {
                lemma_put_update(e0, entity@, base, applied(p1, delta, th), idx as int);
            }
        }
        r
    }

    fn score_connect(
        &mut self,
        pid: u32,
        dst_ip: &String,
        dst_port: u16,
        status: &String,
        now: u64,
    ) -> (r: Option<ScoreResult>)
        requires
            old(self).wf(),
        ensures
            final(self).wf(),
            final(self).spec_thresholds() == old(self).spec_thresholds(),
            (final(self).entries(), result_view(r)) == connect_outcome(
                old(self).entries(),
                old(self).spec_thresholds(),
                pid,
                dst_ip@,
                dst_port,
                status@,
                now,
            ),
    {
        let ghost e0 = self.entries();
        let ghost th = self.thresholds;
        let uid = match status_field(status.as_str(), "Uid:") {
            Some(u) => u,
            None => 0,
        };
        let entity = uid_entity_string(uid);
        let idx = self.entry_for(&entity, uid, pid, now);
        let ghost base = base_profile(e0, entity@, fresh_profile(uid, pid, now));
        self.touch(idx, true, pid, now);
        let ghost p0 = touched(base, pid, now);
        proof {
            lemma_put_update(e0, entity@, base, p0, idx as int);
        }
        if suspicious_port(dst_port) {
            let action = Some(ContainmentAction::BlockIp { ip: dst_ip.clone(), uid });
            let r = self.rise(idx, SUSPICIOUS_PORT_DELTA, action, entity);
            proof {
                lemma_put_update(
                    e0,
                    entity@,
                    base,
                    applied(p0, SUSPICIOUS_PORT_DELTA, th),
                    idx as int,
                );
            }
            r
        } else {
            None
        }
    }

    fn score_auth(&mut self, user: &String, src_ip: &Option<String>, now: u64) -> (r: Option<
        ScoreResult,
    >)
        requires
            old(self).wf(),
        ensures
            final(self).wf(),
            final(self).spec_thresholds() == old(self).spec_thresholds(),
            (final(self).entries(), result_view(r)) == auth_outcome(
                old(self).entries(),
                old(self).spec_thresholds(),
                user@,
                opt_view(*src_ip),
                now,
            ),
    {
        let ghost e0 = self.entries();
        let ghost th = self.thresholds;
        let entity = auth_entity_string(user, src_ip);
        let idx = self.entry_for(&entity, 0, 0, now);
        let ghost base = base_profile(e0, entity@, fresh_profile(0, 0, now));
        self.touch(idx, false, 0, now);
        let ghost p0 = ProfileView { last_event: now, ..base };
        proof {
            lemma_put_update(e0, entity@, base, p0, idx as int);
        }
        let r = self.rise(idx, AUTH_FAILURE_DELTA, None, entity);
        proof {
            lemma_put_update(e0, entity@, base, applied(p0, AUTH_FAILURE_DELTA, th), idx as int);
        }
        r
    }

    /// Applies one decay pass at `now` (milliseconds of the agent's clock):
    /// every profile that is not blocked loses `decay_per_min` for each minute
    /// since its last event or the previous pass that lowered it, whichever is
    /// later (not below zero), suspicious profiles that fall
    /// under the suspicious threshold become clean, and entities left at zero
    /// with no activity for ten minutes leave the table. Returns the number of
    /// entities whose positive score was lowered.
    pub fn decay(&mut self, now: u64) -> (decayed_count: usize)
        requires
            old(self).wf(),
        ensures
            final(self).wf(),
            final(self).spec_thresholds() == old(self).spec_thresholds(),
            final(self).entries() == decay_outcome(
                old(self).entries(),
                now,
                old(self).spec_thresholds(),
            ),
            decayed_count == decay_count(old(self).entries(), now, old(self).spec_thresholds()),
    {
        let ghost e0 = self.entries();
        let th = self.thresholds;
        let ghost count_pred = |x: Entry| counts_as_decayed(x.1, now, th);
        let mut i: usize = 0;
        let mut count: usize = 0;
        while i < self.table.len()
            invariant
                i <= self.table.len() == e0.len(),
                self.thresholds == th,
                self.entries() == decayed_entries(e0.take(i as int), now, th) + e0.skip(i as int),
                count == e0.take(i as int).filter(count_pred).len(),
                count <= i,
                count_pred == (|x: Entry| counts_as_decayed(x.1, now, th)),
            decreases e0.len() - i,
        {
            let ghost before = self.entries();
            assert(self.table@[i as int].1@ == e0[i as int].1) by {
                assert(before[i as int] == e0.skip(i as int)[0]);
            }
            let ghost t_before = self.table@;
            let counted = decay_profile(&mut self.table[i].1, now, &th);
            proof {
                assert(t_before[i as int].0@ == e0[i as int].0) by {
                    assert(before[i as int] == e0.skip(i as int)[0]);
                }
                assert(self.table@[i as int].1@ == decayed(e0[i as int].1, now, th));
                assert(self.table@ =~= t_before.update(
                    i as int,
                    (t_before[i as int].0, self.table@[i as int].1),
                ));
                assert(self.entries() =~= before.update(
                    i as int,
                    (e0[i as int].0, decayed(e0[i as int].1, now, th)),
                ));
                let prefix = e0.take(i as int);
                assert(e0.take(i + 1) == prefix.push(e0[i as int]));
                prefix.lemma_filter_push(e0[i as int], count_pred);
                assert(decayed_entries(e0.take(i + 1), now, th) =~= decayed_entries(prefix, now, th).push(
                    (e0[i as int].0, decayed(e0[i as int].1, now, th)),
                ));
                assert(self.entries() =~= decayed_entries(e0.take(i + 1), now, th) + e0.skip(i + 1));
            }
            if counted {
                count = count + 1;
            }
            i = i + 1;
        }
        proof {
            assert(e0.take(e0.len() as int) == e0);
            assert(self.entries() =~= decayed_entries(e0, now, th));
        }
        let ghost mid = self.entries();
        let ghost keep = |x: Entry| retained(x, now);
        let mut rest: Vec<(String, RiskProfile)> = Vec::new();
        std::mem::swap(&mut rest, &mut self.table);
        let mut j: usize = 0;
        while rest.len() > 0
            invariant
                j <= mid.len(),
                mid.len() == j + rest@.len(),
                mid.len() <= usize::MAX,
                table_entries(rest@) == mid.skip(j as int),
                self.entries() == mid.take(j as int).filter(keep),
                self.thresholds == th,
                keep == (|x: Entry| retained(x, now)),
            decreases rest.len(),
        {
            let ghost old_rest = rest@;
            let x = rest.remove(0);
            proof {
                assert(table_entries(old_rest).len() == old_rest.len());
                assert(mid.skip(j as int)[0] == (x.0@, x.1@));
                assert(mid[j as int] == (x.0@, x.1@));
                assert(rest@ =~= old_rest.subrange(1, old_rest.len() as int));
                assert(mid.take(j + 1) == mid.take(j as int).push((x.0@, x.1@)));
                mid.take(j as int).lemma_filter_push((x.0@, x.1@), keep);
                assert forall|k: int| 0 <= k < rest@.len() implies table_entries(rest@)[k] == mid.skip(
                    j + 1,
                )[k] by {
                    assert(rest@[k] == old_rest[k + 1]);
                    assert(table_entries(old_rest)[k + 1] == mid.skip(j as int)[k + 1]);
                }
                assert(table_entries(rest@) =~= mid.skip(j + 1));
            }
            if x.1.score > 0 || (if now > x.1.last_event { now - x.1.last_event } else { 0 })
                < IDLE_RETENTION_MS {
                let ghost t0 = self.table@;
                self.table.push(x);
                assert(table_entries(self.table@) =~= table_entries(t0).push((x.0@, x.1@)));
            }
            j = j + 1;
        }
        proof {
            assert(j == mid.len());
            assert(mid.take(j as int) == mid);
            let e = self.entries();
            assert(keys_distinct(mid)) by {
                assert forall|a: int, b: int|
                    0 <= a < mid.len() && 0 <= b < mid.len() && a != b implies mid[a].0
                    != mid[b].0 by {
                    assert(mid[a].0 == e0[a].0 && mid[b].0 == e0[b].0);
                }
            }
            lemma_filter_keeps_keys_distinct(mid, keep);
            assert forall|k: int| 0 <= k < e.len() implies consistent(#[trigger] e[k].1, th) by {
                mid.lemma_filter_contains_rev(keep, e[k]);
                let m = choose|m: int| 0 <= m < mid.len() && mid[m] == e[k];
                assert(consistent(e0[m].1, th));
                lemma_decayed_consistent(e0[m].1, now, th);
            }
        }
        count
    }

    fn find(&self, key: &String) -> (r: Option<usize>)
        requires
            self.wf(),
        ensures
            match r {
                Some(i) => i < self.table.len() && has_entity(self.entries(), key@)
                    && entity_index(self.entries(), key@) == i,
                None => !has_entity(self.entries(), key@),
            },
    {
        let mut i: usize = 0;
        while i < self.table.len()
            invariant
                i <= self.table.len(),
                self.wf(),
                forall|j: int| 0 <= j < i ==> self.entries()[j].0 != key@,
            decreases self.table.len() - i,
        {
            if self.table[i].0 == *key {
                assert(self.entries()[i as int].0 == key@);
                proof {
                    let e = self.entries();
                    assert(e.len() == self.table@.len());
                    assert(has_entity(e, key@));
                    let k = entity_index(e, key@);
                    assert(e[k].0 == key@);
                    assert(keys_distinct(e));
                    if k != i {
                        assert(e[k].0 != e[i as int].0);
                    }
                }
                return Some(i);
            }
            i = i + 1;
        }
        None
    }
}


proof fn lemma_profile_of_put(e: Seq<Entry>, k: Seq<char>, p: ProfileView, key: Seq<char>)
    requires
        keys_distinct(e),
    ensures
        keys_distinct(put(e, k, p)),
        has_entity(put(e, k, p), key) == (key == k || has_entity(e, key)),
        profile_of(put(e, k, p), key) == if key == k {
            Some(p)
        } else {
            profile_of(e, key)
        },
{
    let f = put(e, k, p);
    if has_entity(e, k) {
        let i = entity_index(e, k);
        assert forall|a: int, b: int|
            0 <= a < f.len() && 0 <= b < f.len() && a != b implies f[a].0 != f[b].0 by {
            assert(f[a].0 == e[a].0 && f[b].0 == e[b].0);
        }
    } else {
        assert forall|a: int, b: int|
            0 <= a < f.len() && 0 <= b < f.len() && a != b implies f[a].0 != f[b].0 by {
            if a < e.len() && b < e.len() {
                assert(f[a] == e[a] && f[b] == e[b]);
            } else if a < e.len() {
                assert(f[a] == e[a]);
            } else {
                assert(f[b] == e[b]);
            }
        }
        assert(f[e.len() as int].0 == k);
    }
    if key == k {
        assert(has_entity(f, key)) by {
            if has_entity(e, k) {
                assert(f[entity_index(e, k)].0 == k);
            } else {
                assert(f[e.len() as int].0 == k);
            }
        }
        let j = entity_index(f, key);
        if has_entity(e, k) {
            let i = entity_index(e, k);
            assert(f[i].0 == k);
            if i != j {
                assert(f[i].0 != f[j].0);
            }
        } else {
            if j != e.len() {
                assert(f[j] == e[j]);
            }
        }
    } else {
        if has_entity(e, key) {
            let i = entity_index(e, key);
            assert(f[i] == e[i]) by {
                if has_entity(e, k) {
                    assert(i != entity_index(e, k));
                }
            }
            assert(has_entity(f, key));
            let j = entity_index(f, key);
            if i != j {
                assert(f[i].0 != f[j].0);
            }
        }
        if has_entity(f, key) {
            let j = entity_index(f, key);
            if has_entity(e, k) {
                assert(f[j] == e[j]);
            } else {
                if j < e.len() {
                    assert(f[j] == e[j]);
                }
            }
        }
    }
}

/// The rank of a state: `Clean` < `Suspicious` < `Blocked`.
pub open spec fn state_rank(s: EntityState) -> int {
    match s {
        EntityState::Clean => 0,
        EntityState::Suspicious => 1,
        EntityState::Blocked => 2,
    }
}

/// The table entity whose profile an event scores, if any.
pub open spec fn event_entity(event: SensorEvent, ctx: ProcContext) -> Option<Seq<char>> {
    match event {
        SensorEvent::ProcessSpawn { uid, .. } => Some(uid_entity(uid)),
        SensorEvent::NetConnect { .. } => Some(uid_entity(status_uid(ctx.status@))),
        SensorEvent::AuthFailure { user, src_ip } => Some(auth_entity(user@, opt_view(src_ip))),
        _ => None,
    }
}

/// Whether every profile of `e` agrees with its score under `th` and no
/// entity occurs twice: the invariant of the engine's table.
pub open spec fn table_ok(e: Seq<Entry>, th: Thresholds) -> bool {
    &&& keys_distinct(e)
    &&& forall|i: int| 0 <= i < e.len() ==> consistent(#[trigger] e[i].1, th)
}

proof fn lemma_scored_profile(
    e: Seq<Entry>,
    th: Thresholds,
    key: Seq<char>,
    p: ProfileView,
    delta: u64,
    action: Option<ActionView>,
    other: Seq<char>,
)
    requires
        table_ok(e, th),
        consistent(p, th),
    ensures
        ({
            let (post, r) = scored_profile(e, th, key, p, delta, action);
            &&& keys_distinct(post)
            &&& has_entity(post, key)
            &&& profile_of(post, key)->0.score >= p.score
            &&& (p.state == EntityState::Blocked ==> profile_of(post, key)->0.state
                == EntityState::Blocked)
            &&& (other != key ==> profile_of(post, other) == profile_of(e, other))
            &&& (other != key ==> has_entity(post, other) == has_entity(e, other))
            &&& (r is Some ==> r->0.delta > 0 && r->0.entity == key && profile_of(post, key) == Some(
                ProfileView { score: r->0.score, state: r->0.state, ..profile_of(post, key)->0 },
            ))
            &&& state_rank(profile_of(post, key)->0.state) >= state_rank(p.state)
            &&& profile_of(post, key)->0.last_pid == p.last_pid
            &&& (r is Some && r->0.state == EntityState::Blocked ==> r->0.action is Some)
        }),
{
    let p2 = if delta > 0 {
        applied(p, delta, th)
    } else {
        p
    };
    lemma_profile_of_put(e, key, p2, key);
    lemma_profile_of_put(e, key, p2, other);
}

/// Scoring an event never lowers the score or the state (`Clean` <
/// `Suspicious` < `Blocked`) of an entity already in the table, never removes
/// an entity, and changes or adds no entity but the one the event scores.
pub proof fn lemma_score_never_lowers(
    e: Seq<Entry>,
    th: Thresholds,
    event: SensorEvent,
    ctx: ProcContext,
    now: u64,
    key: Seq<char>,
)
    requires
        table_ok(e, th),
    ensures
        ({
            let post = score_outcome(e, th, event, ctx, now).0;
            &&& has_entity(e, key) ==> has_entity(post, key)
            &&& has_entity(e, key) ==> profile_of(post, key)->0.score >= profile_of(
                e,
                key,
            )->0.score
            &&& has_entity(e, key) ==> state_rank(profile_of(post, key)->0.state) >= state_rank(
                profile_of(e, key)->0.state,
            )
            &&& event_entity(event, ctx) != Some(key) ==> has_entity(post, key) == has_entity(
                e,
                key,
            ) && profile_of(post, key) == profile_of(e, key)
        }),
{
    if has_entity(e, key) {
        assert(consistent(e[entity_index(e, key)].1, th));
    }
    match event {
        SensorEvent::ProcessSpawn { pid, ppid, uid, comm, cmdline } => {
            let k = uid_entity(uid);
            let p0 = touched(base_profile(e, k, fresh_profile(uid, pid, now)), pid, now);
            let f = findings_of(lower_text(comm@), lower_text(cmdline@), lower_text(ctx.parent_comm@));
            let burst = f.enumeration && enumeration_burst(p0.recent, now, comm@);
            let p1 = if f.enumeration {
                ProfileView { recent: after_enumeration(p0.recent, now, comm@), ..p0 }
            } else {
                p0
            };
            let action = if f.web_shell || f.reverse_shell {
                Some(ActionView::KillProcess { pid, uid })
            } else {
                None
            };
            if has_entity(e, k) {
                assert(consistent(e[entity_index(e, k)].1, th));
            }
            lemma_scored_profile(e, th, k, p1, spawn_delta(f, burst), action, key);
        },
        SensorEvent::NetConnect { pid, comm, src_ip, dst_ip, dst_port } => {
            let uid = status_uid(ctx.status@);
            let k = uid_entity(uid);
            let p0 = touched(base_profile(e, k, fresh_profile(uid, pid, now)), pid, now);
            if has_entity(e, k) {
                assert(consistent(e[entity_index(e, k)].1, th));
            }
            if is_suspicious_port(dst_port) {
                lemma_scored_profile(
                    e,
                    th,
                    k,
                    p0,
                    SUSPICIOUS_PORT_DELTA,
                    Some(ActionView::BlockIp { ip: dst_ip@, uid }),
                    key,
                );
            } else {
                lemma_scored_profile(e, th, k, p0, 0, None, key);
            }
        },
        SensorEvent::AuthFailure { user, src_ip } => {
            let k = auth_entity(user@, opt_view(src_ip));
            let p0 = base_profile(e, k, fresh_profile(0, 0, now));
            if has_entity(e, k) {
                assert(consistent(e[entity_index(e, k)].1, th));
            }
            lemma_scored_profile(
                e,
                th,
                k,
                ProfileView { last_event: now, ..p0 },
                AUTH_FAILURE_DELTA,
                None,
                key,
            );
        },
        _ => {},
    }
}

/// Every result the engine reports raised a score (its delta is positive),
/// and every result in the blocked state carries a containment action.
pub proof fn lemma_results_carry_actions(
    e: Seq<Entry>,
    th: Thresholds,
    event: SensorEvent,
    ctx: ProcContext,
    now: u64,
)
    requires
        table_ok(e, th),
    ensures
        ({
            let r = score_outcome(e, th, event, ctx, now).1;
            let post = score_outcome(e, th, event, ctx, now).0;
            &&& r is Some ==> r->0.delta > 0
            &&& (r is Some && r->0.state == EntityState::Blocked) ==> r->0.action is Some
            &&& (r is Some && !(event is FileModified)) ==> (profile_of(post, r->0.entity) matches Some(
                p,
            ) && p.score == r->0.score && p.state == r->0.state)
        }),
{
    match event {
        SensorEvent::ProcessSpawn { pid, ppid, uid, comm, cmdline } => {
            let k = uid_entity(uid);
            let p0 = touched(base_profile(e, k, fresh_profile(uid, pid, now)), pid, now);
            let f = findings_of(lower_text(comm@), lower_text(cmdline@), lower_text(ctx.parent_comm@));
            let burst = f.enumeration && enumeration_burst(p0.recent, now, comm@);
            let p1 = if f.enumeration {
                ProfileView { recent: after_enumeration(p0.recent, now, comm@), ..p0 }
            } else {
                p0
            };
            let action = if f.web_shell || f.reverse_shell {
                Some(ActionView::KillProcess { pid, uid })
            } else {
                None
            };
            if has_entity(e, k) {
                assert(consistent(e[entity_index(e, k)].1, th));
            }
            lemma_scored_profile(e, th, k, p1, spawn_delta(f, burst), action, k);
        },
        SensorEvent::NetConnect { pid, comm, src_ip, dst_ip, dst_port } => {
            let uid = status_uid(ctx.status@);
            let k = uid_entity(uid);
            let p0 = touched(base_profile(e, k, fresh_profile(uid, pid, now)), pid, now);
            if has_entity(e, k) {
                assert(consistent(e[entity_index(e, k)].1, th));
            }
            if is_suspicious_port(dst_port) {
                lemma_scored_profile(
                    e,
                    th,
                    k,
                    p0,
                    SUSPICIOUS_PORT_DELTA,
                    Some(ActionView::BlockIp { ip: dst_ip@, uid }),
                    k,
                );
            } else {
                lemma_scored_profile(e, th, k, p0, 0, None, k);
            }
        },
        SensorEvent::AuthFailure { user, src_ip } => {
            let k = auth_entity(user@, opt_view(src_ip));
            let p0 = base_profile(e, k, fresh_profile(0, 0, now));
            if has_entity(e, k) {
                assert(consistent(e[entity_index(e, k)].1, th));
            }
            lemma_scored_profile(
                e,
                th,
                k,
                ProfileView { last_event: now, ..p0 },
                AUTH_FAILURE_DELTA,
                None,
                k,
            );
        },
        _ => {},
    }
}


/// A decay pass never raises a score and adds no entity; it leaves a blocked
/// entity in the table unchanged; and it removes an entity exactly when its
/// decayed score is zero and it has been idle for at least ten minutes.
pub proof fn lemma_decay_never_raises(e: Seq<Entry>, th: Thresholds, now: u64, key: Seq<char>)
    requires
        table_ok(e, th),
    ensures
        ({
            let post = decay_outcome(e, now, th);
            let p = profile_of(e, key)->0;
            &&& has_entity(post, key) == (has_entity(e, key) && !(decayed(p, now, th).score == 0
                && elapsed_ms(now, p.last_event) >= IDLE_RETENTION_MS))
            &&& has_entity(e, key) && p.state == EntityState::Blocked ==> profile_of(post, key)
                == Some(p)
            &&& has_entity(post, key) ==> profile_of(post, key) == Some(decayed(p, now, th))
            &&& has_entity(post, key) ==> profile_of(post, key)->0.score <= p.score
        }),
{
    broadcast use vstd::seq_lib::group_filter_ensures;

    let keep = |x: Entry| retained(x, now);
    let mid = decayed_entries(e, now, th);
    let post = mid.filter(keep);
    assert(keys_distinct(mid)) by {
        assert forall|a: int, b: int|
            0 <= a < mid.len() && 0 <= b < mid.len() && a != b implies mid[a].0 != mid[b].0 by {
            assert(mid[a].0 == e[a].0 && mid[b].0 == e[b].0);
        }
    }
    lemma_filter_keeps_keys_distinct(mid, keep);
    if has_entity(e, key) {
        let i = entity_index(e, key);
        let p = e[i].1;
        assert(consistent(p, th));
        assert(mid[i] == (key, decayed(p, now, th)));
        if keep(mid[i]) {
            assert(post.contains(mid[i]));
            let j = choose|j: int| 0 <= j < post.len() && post[j] == mid[i];
            assert(has_entity(post, key));
            let j2 = entity_index(post, key);
            if j2 != j {
                assert(post[j2].0 != post[j].0);
            }
        }
        if has_entity(post, key) {
            let j = entity_index(post, key);
            mid.lemma_filter_contains_rev(keep, post[j]);
            let m = choose|m: int| 0 <= m < mid.len() && mid[m] == post[j];
            if m != i {
                assert(mid[m].0 != mid[i].0);
            }
            assert(keep(post[j]));
        }
    } else {
        if has_entity(post, key) {
            let j = entity_index(post, key);
            mid.lemma_filter_contains_rev(keep, post[j]);
            let m = choose|m: int| 0 <= m < mid.len() && mid[m] == post[j];
            assert(e[m].0 == key);
        }
    }
}

/// Decay is not applied twice for the same time: a second pass at the same
/// moment changes nothing, and after a pass that lowered a score, the next
/// pass at `t2` removes only the decay owed for the time since that pass.
pub proof fn lemma_decay_counts_each_minute_once(
    p: ProfileView,
    t1: u64,
    t2: u64,
    th: Thresholds,
)
    requires
        t1 <= t2,
    ensures
        decayed(decayed(p, t1, th), t1, th) == decayed(p, t1, th),
        p.state != EntityState::Blocked && decay_amount(p, t1, th) > 0 ==> decay_amount(
            decayed(p, t1, th),
            t2,
            th,
        ) == ((t2 - t1) as nat) * (th.decay_per_min as nat) / (MINUTE_MS as nat),
{
    let q = decayed(p, t1, th);
    if p.state != EntityState::Blocked && decay_amount(p, t1, th) > 0 {
        assert(elapsed_ms(t1, decay_start(p)) > 0);
        assert(decay_start(q) == t1);
        assert(decay_amount(q, t1, th) == 0);
    }
}

/// A change to a watched file always reports 90 points, blocked, alert only,
/// for the entity `fim:<path>`, and leaves the table as it was; a process exit
/// reports nothing and changes nothing.
pub proof fn lemma_file_change_alerts(
    e: Seq<Entry>,
    th: Thresholds,
    path: String,
    pid: u32,
    ctx: ProcContext,
    now: u64,
)
    ensures
        score_outcome(e, th, SensorEvent::FileModified { path }, ctx, now) == (
            e,
            Some(
                ScoreView {
                    entity: "fim:"@ + path@,
                    score: 90_000,
                    delta: 90_000,
                    action: Some(ActionView::AlertOnly),
                    state: EntityState::Blocked,
                },
            ),
        ),
        score_outcome(e, th, SensorEvent::ProcessExit { pid }, ctx, now) == (e, None::<ScoreView>),
{
}


/// An entity that is not blocked and stays quiet long enough cools down: once
/// the decay owed since its last event covers its score, a decay pass brings
/// it back to zero and to the clean state.
pub proof fn lemma_quiet_entities_cool_down(p: ProfileView, now: u64, th: Thresholds)
    requires
        consistent(p, th),
        th.suspicious > 0,
        p.state != EntityState::Blocked,
        decay_amount(p, now, th) >= p.score,
        decay_amount(p, now, th) > 0,
    ensures
        decayed(p, now, th).score == 0,
        decayed(p, now, th).state == EntityState::Clean,
{
}


/// The process-spawn heuristics on lower-cased texts, stated with the names
/// they match:
/// * a web shell is one of `sh`, `bash`, `dash`, `zsh`, `csh`, `tcsh` spawned
///   by a parent whose comm contains `apache`, `httpd`, `nginx`, `tomcat`,
///   `php`, `php-fpm`, `gunicorn` or `lighttpd`;
/// * a reverse shell is such a shell spawned by a parent whose comm contains
///   `python`, `python3`, `python2`, `perl`, `ruby` or `php`, with a command
///   line containing `pty.spawn`, `socket`, `dup2`, `/dev/tcp`, `/dev/udp`,
///   `os.system`, `-e /bin`, `-c bash` or `bash -i`;
/// * the blacklist is `nc`, `netcat`, `ncat`, `socat`, `msfconsole`,
///   `msfvenom`, `base64`, `curl`, `wget`;
/// * the enumeration tools are `whoami`, `id`, `uname`, `getcap`, `getfacl`,
///   `netstat`, `ss`, `lsof`, `ps`, `hostname`, `ip`, `ifconfig`, `find`,
///   `env`, `printenv`, `cat`, `awk`, `grep`;
/// * the high-value commands are `getcap`, `sudo`, `su`, `passwd`,
///   `chpasswd`, `visudo`.
pub proof fn lemma_spawn_heuristics(comm: Seq<char>, cmd: Seq<char>, parent: Seq<char>)
    ensures
        ({
            let f = findings_of(comm, cmd, parent);
            let shell = comm == "sh"@ || comm == "bash"@ || comm == "dash"@ || comm == "zsh"@
                || comm == "csh"@ || comm == "tcsh"@;
            &&& f.web_shell <==> shell && (contains_seq(parent, "apache"@) || contains_seq(
                parent,
                "httpd"@,
            ) || contains_seq(parent, "nginx"@) || contains_seq(parent, "tomcat"@) || contains_seq(
                parent,
                "php"@,
            ) || contains_seq(parent, "php-fpm"@) || contains_seq(parent, "gunicorn"@)
                || contains_seq(parent, "lighttpd"@))
            &&& f.reverse_shell <==> shell && (contains_seq(parent, "python"@) || contains_seq(
                parent,
                "python3"@,
            ) || contains_seq(parent, "python2"@) || contains_seq(parent, "perl"@) || contains_seq(
                parent,
                "ruby"@,
            ) || contains_seq(parent, "php"@)) && (contains_seq(cmd, "pty.spawn"@) || contains_seq(
                cmd,
                "socket"@,
            ) || contains_seq(cmd, "dup2"@) || contains_seq(cmd, "/dev/tcp"@) || contains_seq(
                cmd,
                "/dev/udp"@,
            ) || contains_seq(cmd, "os.system"@) || contains_seq(cmd, "-e /bin"@) || contains_seq(
                cmd,
                "-c bash"@,
            ) || contains_seq(cmd, "bash -i"@))
            &&& f.blacklisted <==> (comm == "nc"@ || comm == "netcat"@ || comm == "ncat"@ || comm
                == "socat"@ || comm == "msfconsole"@ || comm == "msfvenom"@ || comm == "base64"@
                || comm == "curl"@ || comm == "wget"@)
            &&& f.enumeration <==> (comm == "whoami"@ || comm == "id"@ || comm == "uname"@ || comm
                == "getcap"@ || comm == "getfacl"@ || comm == "netstat"@ || comm == "ss"@ || comm
                == "lsof"@ || comm == "ps"@ || comm == "hostname"@ || comm == "ip"@ || comm
                == "ifconfig"@ || comm == "find"@ || comm == "env"@ || comm == "printenv"@ || comm
                == "cat"@ || comm == "awk"@ || comm == "grep"@)
            &&& f.high_value <==> (comm == "getcap"@ || comm == "sudo"@ || comm == "su"@ || comm
                == "passwd"@ || comm == "chpasswd"@ || comm == "visudo"@)
        }),
{
}

/// `h` contains `n` exactly when `n` occurs in `h` at some position.
pub proof fn lemma_contains_is_substring(h: Seq<char>, n: Seq<char>)
    ensures
        contains_seq(h, n) <==> exists|i: int|
            0 <= i && i + n.len() <= h.len() && #[trigger] h.subrange(i, i + n.len()) == n,
{
    if contains_seq(h, n) {
        let i = choose|i: int| crate::text::occurs_at(h, n, i);
        assert(h.subrange(i, i + n.len()) == n);
    }
    if exists|i: int| 0 <= i && i + n.len() <= h.len() && #[trigger] h.subrange(i, i + n.len()) == n {
        let i = choose|i: int| 0 <= i && i + n.len() <= h.len() && #[trigger] h.subrange(i, i + n.len()) == n;
        assert(crate::text::occurs_at(h, n, i));
    }
}

/// The points of a process spawn: 100 for a web shell, 100 for a reverse
/// shell, 40 for a blacklisted binary, 20 for a high-value command and 50 for
/// an enumeration burst (in thousandths of a point); the velocity window is a
/// minute and a burst is three distinct tools in it; a score never passes 200
/// points.
pub proof fn lemma_score_constants(
    f: SpawnFindings,
    burst: bool,
    recent: Seq<(u64, Seq<char>)>,
    now: u64,
    t: u64,
    comm: Seq<char>,
    score: u64,
    delta: u64,
)
    ensures
        spawn_delta(f, burst) == (if f.web_shell { 100_000int } else { 0 }) + (if f.reverse_shell {
            100_000int
        } else {
            0
        }) + (if f.blacklisted { 40_000int } else { 0 }) + (if f.high_value {
            20_000int
        } else {
            0
        }) + (if burst { 50_000int } else { 0 }),
        in_window(now, t) <==> now < t + 60_000,
        enumeration_burst(recent, now, comm) <==> tool_names(
            recent.filter(|e: (u64, Seq<char>)| in_window(now, e.0)).push((now, comm)),
        ).to_set().len() >= 3,
        capped(score, delta) == if score + delta > 200_000 {
            200_000
        } else {
            score + delta
        },
{
}

/// A web shell or a reverse shell always raises the spawning UID's score by at
/// least 100 points and asks to kill the spawned process (with its UID).
pub proof fn lemma_shells_are_killed(
    e: Seq<Entry>,
    th: Thresholds,
    pid: u32,
    uid: u32,
    comm: Seq<char>,
    cmdline: Seq<char>,
    parent_comm: Seq<char>,
    now: u64,
)
    requires
        ({
            let f = findings_of(lower_text(comm), lower_text(cmdline), lower_text(parent_comm));
            f.web_shell || f.reverse_shell
        }),
    ensures
        ({
            let r = spawn_outcome(e, th, pid, uid, comm, cmdline, parent_comm, now).1;
            &&& r is Some
            &&& r->0.entity == "uid_"@ + decimal(uid as nat)
            &&& r->0.delta >= 100_000
            &&& r->0.action == Some(ActionView::KillProcess { pid, uid })
        }),
{
}

/// A connection to port 4444, 1337, 9001, 31337, 4445, 12345, 6666, 7777 or
/// 8888 raises the UID of its process (read from the `Uid:` line of its
/// status) by 85 points and asks to block the destination; a connection to
/// any other port reports nothing.
pub proof fn lemma_suspicious_ports(
    e: Seq<Entry>,
    th: Thresholds,
    pid: u32,
    dst_ip: Seq<char>,
    dst_port: u16,
    status: Seq<char>,
    now: u64,
)
    ensures
        ({
            let r = connect_outcome(e, th, pid, dst_ip, dst_port, status, now).1;
            let uid: u32 = match status_value(status, "Uid:"@) {
                Some(u) => u,
                None => 0,
            };
            let suspicious = dst_port == 4444 || dst_port == 1337 || dst_port == 9001 || dst_port
                == 31337 || dst_port == 4445 || dst_port == 12345 || dst_port == 6666 || dst_port
                == 7777 || dst_port == 8888;
            &&& r is Some <==> suspicious
            &&& suspicious ==> r->0.delta == 85_000 && r->0.entity == "uid_"@ + decimal(uid as nat)
                && r->0.action == Some(ActionView::BlockIp { ip: dst_ip, uid })
        }),
{
}

/// An authentication failure raises the score of its source IP (entity
/// `ip_<ip>`), or of its user (`user_<name>`) when the source is unknown, by
/// 15 points.
pub proof fn lemma_auth_failures(
    e: Seq<Entry>,
    th: Thresholds,
    user: Seq<char>,
    src_ip: Option<Seq<char>>,
    now: u64,
)
    ensures
        ({
            let r = auth_outcome(e, th, user, src_ip, now).1;
            &&& r is Some
            &&& r->0.delta == 15_000
            &&& r->0.entity == match src_ip {
                Some(ip) => "ip_"@ + ip,
                None => "user_"@ + user,
            }
        }),
{
}

/// Decay removes, per idle minute (60 000 ms) since the last event or the
/// last pass that lowered the score, `decay_per_min`; an entity stays in the
/// table while it has a score or was active within the last ten minutes
/// (600 000 ms).
pub proof fn lemma_decay_constants(p: ProfileView, now: u64, th: Thresholds, key: Seq<char>)
    ensures
        decay_amount(p, now, th) == elapsed_ms(
            now,
            if p.last_event > p.decayed_until {
                p.last_event
            } else {
                p.decayed_until
            },
        ) * (th.decay_per_min as nat) / 60_000,
        elapsed_ms(now, p.last_event) == if now > p.last_event {
            now - p.last_event
        } else {
            0
        },
        retained((key, p), now) <==> p.score > 0 || elapsed_ms(now, p.last_event) < 600_000,
{
}

/// A score rise: the new score is the sum capped at 200 points; reaching the
/// blocking threshold blocks the entity and, when no action was chosen yet,
/// asks to kill its last process; otherwise reaching the suspicious threshold
/// makes it suspicious; under both the state stays; nothing else in the
/// profile changes.
pub proof fn lemma_rise_rules(p: ProfileView, delta: u64, th: Thresholds, action: Option<ActionView>)
    ensures
        ({
            let q = applied(p, delta, th);
            let s: int = if p.score + delta > 200_000 { 200_000 } else { p.score + delta };
            &&& q.score == s
            &&& s >= th.blocked ==> q.state == EntityState::Blocked
            &&& th.suspicious <= s < th.blocked ==> q.state == EntityState::Suspicious
            &&& (s < th.suspicious && s < th.blocked) ==> q.state == p.state
            &&& q.last_event == p.last_event && q.decayed_until == p.decayed_until && q.recent
                == p.recent && q.last_pid == p.last_pid && q.uid == p.uid
            &&& action_after(action, q.score, th, p.last_pid, p.uid) == if s >= th.blocked
                && action is None {
                Some(ActionView::KillProcess { pid: p.last_pid, uid: p.uid })
            } else {
                action
            }
        }),
{
}

/// A decay pass on one profile: a blocked profile is left as it is; any
/// other loses the decay it is owed, not below zero, is marked decayed up to
/// `now` when that decay is positive, and a suspicious one that falls under
/// the suspicious threshold becomes clean; a positive score that was lowered
/// counts as decayed.
pub proof fn lemma_decay_rules(p: ProfileView, now: u64, th: Thresholds)
    ensures
        ({
            let q = decayed(p, now, th);
            let d = decay_amount(p, now, th);
            &&& p.state == EntityState::Blocked ==> q == p
            &&& d == 0 ==> q == p
            &&& (p.state != EntityState::Blocked && d > 0) ==> {
                &&& q.score == if d >= p.score { 0 } else { p.score - d }
                &&& q.decayed_until == now
                &&& q.state == if q.score < th.suspicious && p.state == EntityState::Suspicious {
                    EntityState::Clean
                } else {
                    p.state
                }
                &&& q.last_event == p.last_event && q.recent == p.recent && q.last_pid
                    == p.last_pid && q.uid == p.uid
            }
            &&& counts_as_decayed(p, now, th) <==> (p.state != EntityState::Blocked && d > 0
                && p.score > 0)
        }),
{
}
} // verus!
