//! Process sensor: `/proc` status parsing, the Netlink proc-connector wire
//! format, and the decisions of the sensor loop.

use vstd::prelude::*;
use crate::sensor::SensorEvent;
use crate::text::{
    trim, trim_str, push_char,
    chars_of, lines_of, parse_radix, parse_unsigned, split_lines, split_whitespace, starts_with,
    starts_with_seq, views, ws_fields,
};

verus! {

/// The first of `lines` that begins with `key`.
pub open spec fn first_line_with(lines: Seq<Seq<char>>, key: Seq<char>) -> Option<Seq<char>>
    decreases lines.len(),
{
    if lines.len() == 0 {
        None
    } else if starts_with_seq(lines[0], key) {
        Some(lines[0])
    } else {
        first_line_with(lines.drop_first(), key)
    }
}

/// The number after `key` in a `/proc/<pid>/status` text: the second
/// white-space separated field of the first line that begins with `key`,
/// read as a `u32`.
pub open spec fn status_value(status: Seq<char>, key: Seq<char>) -> Option<u32> {
    match first_line_with(lines_of(status), key) {
        Some(line) => {
            let f = ws_fields(line);
            if f.len() > 1 {
                match parse_unsigned(f[1], 10, u32::MAX as nat) {
                    Some(n) => Some(n as u32),
                    None => None,
                }
            } else {
                None
            }
        },
        None => None,
    }
}

/// Reads the number after `key` (such as `"Uid:"` or `"PPid:"`) in the text
/// of a `/proc/<pid>/status` file.
pub fn status_field(status: &str, key: &str) -> (r: Option<u32>)
    ensures
        r == status_value(status@, key@),
{
    let text = chars_of(status);
    let k = chars_of(key);
    let lines = split_lines(&text);
    let mut i: usize = 0;
    assert(views(lines@).subrange(0, lines@.len() as int) == views(lines@));
    while i < lines.len()
        invariant
            i <= lines.len(),
            views(lines@) == lines_of(status@),
            k@ == key@,
            first_line_with(lines_of(status@), key@) == first_line_with(
                views(lines@).subrange(i as int, lines@.len() as int),
                key@,
            ),
        decreases lines.len() - i,
    {
        let ghost rest = views(lines@).subrange(i as int, lines@.len() as int);
        assert(rest[0] == lines@[i as int]@);
        if starts_with(&lines[i], &k) {
            let fields = split_whitespace(&lines[i]);
            if fields.len() > 1 {
                assert(views(fields@)[1] == fields@[1]@);
                return match parse_radix(&fields[1], 10, 0xffff_ffff) {
                    Some(n) => Some(n as u32),
                    None => None,
                };
            }
            return None;
        }
        assert(rest.drop_first() == views(lines@).subrange(i + 1, lines@.len() as int));
        i = i + 1;
    }
    None
}


/// `proc_event.what` of a fork.
pub const PROC_EVENT_FORK: u32 = 0x0000_0002;

/// `proc_event.what` of an exec.
pub const PROC_EVENT_EXEC: u32 = 0x0000_0004;

/// `proc_event.what` of an exit.
pub const PROC_EVENT_EXIT: u32 = 0x8000_0000;

/// Size of `struct nlmsghdr`.
pub const NLMSG_HDR_LEN: usize = 16;

/// Size of `struct cn_msg` (without payload).
pub const CN_MSG_LEN: usize = 20;

/// Size of the header of `struct proc_event`.
pub const PROC_EVENT_HDR_LEN: usize = 16;

/// A process event from the kernel's proc connector.
#[derive(Debug, Clone, Copy, PartialEq, Eq, Structural)]
pub enum ProcConnectorEvent {
    Fork { parent_pid: u32, child_pid: u32 },
    Exec { pid: u32 },
    Exit { pid: u32 },
}

/// The little-endian 32-bit number at `at` in `b`.
pub open spec fn le32_at(b: Seq<u8>, at: int) -> u32 {
    (b[at] + b[at + 1] * 256 + b[at + 2] * 65536 + b[at + 3] * 16777216) as u32
}

/// The event that a proc-connector datagram holds (fields read little-endian,
/// as on x86 and ARM): a `nlmsghdr`, a `cn_msg`, then a `proc_event` whose
/// `what` says fork, exec or exit; none when the datagram is too short for
/// its event or holds another kind.
pub open spec fn netlink_event(b: Seq<u8>) -> Option<ProcConnectorEvent> {
    let base = NLMSG_HDR_LEN + CN_MSG_LEN;
    let data = base + PROC_EVENT_HDR_LEN;
    if b.len() < data {
        None
    } else {
        let what = le32_at(b, base as int);
        if what == PROC_EVENT_FORK {
            if b.len() < data + 16 {
                None
            } else {
                Some(
                    ProcConnectorEvent::Fork {
                        parent_pid: le32_at(b, data as int),
                        child_pid: le32_at(b, data + 8),
                    },
                )
            }
        } else if what == PROC_EVENT_EXEC {
            if b.len() < data + 8 {
                None
            } else {
                Some(ProcConnectorEvent::Exec { pid: le32_at(b, data as int) })
            }
        } else if what == PROC_EVENT_EXIT {
            if b.len() < data + 16 {
                None
            } else {
                Some(ProcConnectorEvent::Exit { pid: le32_at(b, data as int) })
            }
        } else {
            None
        }
    }
}

fn read_le32(b: &[u8], at: usize) -> (v: u32)
    requires
        at + 4 <= b@.len(),
    ensures
        v == le32_at(b@, at as int),
{
    let v: u64 = b[at] as u64 + (b[at + 1] as u64) * 256 + (b[at + 2] as u64) * 65536 + (b[at
        + 3] as u64) * 16777216;
    v as u32
}

/// Decodes the process event in a datagram read from the proc connector.
pub fn parse_netlink_message(buf: &[u8]) -> (r: Option<ProcConnectorEvent>)
    ensures
        r == netlink_event(buf@),
{
    let base = NLMSG_HDR_LEN + CN_MSG_LEN;
    let data = base + PROC_EVENT_HDR_LEN;
    if buf.len() < data {
        return None;
    }
    let what = read_le32(buf, base);
    if what == PROC_EVENT_FORK {
        if buf.len() < data + 16 {
            return None;
        }
        Some(
            ProcConnectorEvent::Fork {
                parent_pid: read_le32(buf, data),
                child_pid: read_le32(buf, data + 8),
            },
        )
    } else if what == PROC_EVENT_EXEC {
        if buf.len() < data + 8 {
            return None;
        }
        Some(ProcConnectorEvent::Exec { pid: read_le32(buf, data) })
    } else if what == PROC_EVENT_EXIT {
        if buf.len() < data + 16 {
            return None;
        }
        Some(ProcConnectorEvent::Exit { pid: read_le32(buf, data) })
    } else {
        None
    }
}

/// `x` as two little-endian bytes.
pub open spec fn le16(x: u16) -> Seq<u8> {
    seq![(x % 256) as u8, (x / 256) as u8]
}

/// `x` as four little-endian bytes.
pub open spec fn le32(x: u32) -> Seq<u8> {
    seq![(x % 256) as u8, ((x / 256) % 256) as u8, ((x / 65536) % 256) as u8, (x / 16777216) as u8]
}

/// The `PROC_CN_MCAST_LISTEN` request that subscribes the socket of process
/// `pid` to process events: a 16-byte `nlmsghdr` (length 40, type
/// `NLMSG_MIN_TYPE`), a 20-byte `cn_msg` for `CN_IDX_PROC`/`CN_VAL_PROC`
/// with a 4-byte payload, and the operation code 1.
pub open spec fn mcast_listen_bytes(pid: u32) -> Seq<u8> {
    le32(40) + le16(16) + le16(0) + le32(0) + le32(pid) + le32(1) + le32(1) + le32(0) + le32(0)
        + le16(4) + le16(0) + le32(1)
}

fn push_le16(v: &mut Vec<u8>, x: u16)
    ensures
        final(v)@ == old(v)@ + le16(x),
{
    v.push((x % 256) as u8);
    v.push((x / 256) as u8);
    assert(final(v)@ =~= old(v)@ + le16(x));
}

fn push_le32(v: &mut Vec<u8>, x: u32)
    ensures
        final(v)@ == old(v)@ + le32(x),
{
    v.push((x % 256) as u8);
    v.push(((x / 256) % 256) as u8);
    v.push(((x / 65536) % 256) as u8);
    v.push((x / 16777216) as u8);
    assert(final(v)@ =~= old(v)@ + le32(x));
}

/// The bytes of the subscription request that `send_mcast_listen` sends for
/// the process `pid`.
pub fn send_mcast_listen(pid: u32) -> (msg: Vec<u8>)
    ensures
        msg@ == mcast_listen_bytes(pid),
        msg@.len() == 40,
{
    let mut v: Vec<u8> = Vec::new();
    push_le32(&mut v, 40);
    push_le16(&mut v, 16);
    push_le16(&mut v, 0);
    push_le32(&mut v, 0);
    push_le32(&mut v, pid);
    push_le32(&mut v, 1);
    push_le32(&mut v, 1);
    push_le32(&mut v, 0);
    push_le32(&mut v, 0);
    push_le16(&mut v, 4);
    push_le16(&mut v, 0);
    push_le32(&mut v, 1);
    assert(v@ =~= mcast_listen_bytes(pid));
    v
}

/// `cmdline` with each NUL byte replaced by a space.
pub open spec fn nul_to_space(b: Seq<u8>) -> Seq<u8> {
    b.map_values(|x: u8| if x == 0 { 32u8 } else { x })
}

/// What `String::from_utf8_lossy` gives for the bytes `b`.
pub uninterp spec fn utf8_lossy(b: Seq<u8>) -> Seq<char>;

/// Whether every byte of `b` is ASCII.
pub open spec fn is_ascii_bytes(b: Seq<u8>) -> bool {
    forall|i: int| 0 <= i < b.len() ==> #[trigger] b[i] < 128
}

/// The characters of ASCII bytes, one per byte.
pub open spec fn ascii_chars(b: Seq<u8>) -> Seq<char> {
    b.map_values(|x: u8| (x as u32) as char)
}

/// The text that lossy UTF-8 decoding gives for `b`: the characters of ASCII
/// bytes one for one; for other bytes, what `String::from_utf8_lossy` gives.
pub open spec fn lossy_text(b: Seq<u8>) -> Seq<char> {
    if is_ascii_bytes(b) {
        ascii_chars(b)
    } else {
        utf8_lossy(b)
    }
}

/// `String::from_utf8_lossy` from std: the bytes decoded as UTF-8 with each
/// invalid sequence replaced by U+FFFD. Its result is taken to depend on the
/// bytes alone and is named `utf8_lossy`; of the decoding only this is
/// stated: ASCII bytes are valid UTF-8 and decode to one character each.
#[verifier::external_body]
fn from_utf8_lossy(b: &[u8]) -> (s: String)
    ensures
        s@ == utf8_lossy(b@),
        is_ascii_bytes(b@) ==> s@ == ascii_chars(b@),
{
    String::from_utf8_lossy(b).to_string()
}

/// The text of a `/proc/<pid>/cmdline` file: arguments separated by spaces,
/// trimmed.
pub fn cmdline_text(raw: &[u8]) -> (s: String)
    ensures
        s@ == trim(lossy_text(nul_to_space(raw@))),
{
    let mut bytes: Vec<u8> = Vec::new();
    let mut i: usize = 0;
    while i < raw.len()
        invariant
            i <= raw@.len(),
            bytes@ == nul_to_space(raw@.take(i as int)),
        decreases raw@.len() - i,
    {
        let b = raw[i];
        bytes.push(if b == 0 { 32u8 } else { b });
        assert(nul_to_space(raw@.take(i + 1)) =~= nul_to_space(raw@.take(i as int)).push(
            if b == 0 { 32u8 } else { b },
        ));
        i = i + 1;
    }
    assert(raw@.take(raw@.len() as int) == raw@);
    let text = from_utf8_lossy(bytes.as_slice());
    trim_str(text.as_str())
}

/// UID, comm and command line of a process as `read_proc_info` builds them
/// from `/proc/<pid>/status`, `/proc/<pid>/comm` and `/proc/<pid>/cmdline`
/// (empty texts for files that could not be read).
pub fn read_proc_info(status: &str, comm: &str, cmdline: &[u8]) -> (r: (u32, String, String))
    ensures
        r.0 == (match status_value(status@, "Uid:"@) {
            Some(u) => u,
            None => 0,
        }),
        r.1@ == trim(comm@),
        r.2@ == trim(lossy_text(nul_to_space(cmdline@))),
{
    let uid = match status_field(status, "Uid:") {
        Some(u) => u,
        None => 0,
    };
    (uid, trim_str(comm), cmdline_text(cmdline))
}


/// `parts` joined with single spaces (`[String]::join(" ")`).
pub open spec fn joined(parts: Seq<Seq<char>>) -> Seq<char>
    decreases parts.len(),
{
    if parts.len() == 0 {
        seq![]
    } else if parts.len() == 1 {
        parts[0]
    } else {
        joined(parts.drop_last()) + seq![' '] + parts.last()
    }
}

/// The arguments of a process joined with single spaces.
pub fn join_args(parts: &Vec<String>) -> (s: String)
    ensures
        s@ == joined(parts@.map_values(|p: String| p@)),
{
    let ghost pv = parts@.map_values(|p: String| p@);
    let mut s = String::new();
    let mut i: usize = 0;
    while i < parts.len()
        invariant
            i <= parts.len(),
            pv == parts@.map_values(|p: String| p@),
            s@ == joined(pv.take(i as int)),
        decreases parts.len() - i,
    {
        assert(pv.take(i + 1).drop_last() == pv.take(i as int));
        assert(pv.take(i + 1).last() == parts@[i as int]@);
        if i > 0 {
            push_char(&mut s, ' ');
        }
        s.append(parts[i].as_str());
        i = i + 1;
    }
    assert(pv.take(parts.len() as int) == pv);
    s
}

/// A process as one polling pass over `/proc` sees it: its PID and, when its
/// `stat` could be read, its parent PID, UID (0 when its status could not be
/// read), comm and command line.
pub struct PolledProcess {
    pub pid: u32,
    pub info: Option<(u32, u32, String, String)>,
}

/// The polling fallback of the process sensor: remembers the PIDs it has
/// reported.
pub struct ProcessPoller {
    seen: std::collections::HashSet<u32>,
}

/// The PIDs seen and the spawn events after a pass over `procs` with the PIDs
/// `seen` already reported: a PID not seen before counts as seen from now on,
/// and yields an event when its information could be read.
pub open spec fn poll_scan(seen: Set<u32>, procs: Seq<PolledProcess>) -> (Set<u32>, Seq<
    (u32, u32, u32, Seq<char>, Seq<char>),
>)
    decreases procs.len(),
{
    if procs.len() == 0 {
        (seen, seq![])
    } else {
        let (s, out) = poll_scan(seen, procs.drop_last());
        let p = procs.last();
        if s.contains(p.pid) {
            (s, out)
        } else {
            match p.info {
                Some((ppid, uid, comm, cmdline)) => (
                    s.insert(p.pid),
                    out.push((p.pid, ppid, uid, comm@, cmdline@)),
                ),
                None => (s.insert(p.pid), out),
            }
        }
    }
}

/// The fields of a process-spawn event.
pub open spec fn spawn_fields(e: SensorEvent) -> (u32, u32, u32, Seq<char>, Seq<char>) {
    match e {
        SensorEvent::ProcessSpawn { pid, ppid, uid, comm, cmdline } => (
            pid,
            ppid,
            uid,
            comm@,
            cmdline@,
        ),
        _ => (0, 0, 0, seq![], seq![]),
    }
}

/// The polling fallback reports each process once: never a PID it has seen,
/// never one PID twice, and every PID it passed over counts as seen.
pub proof fn lemma_polled_once(seen: Set<u32>, procs: Seq<PolledProcess>)
    ensures
        ({
            let (s, out) = poll_scan(seen, procs);
            &&& forall|k: int| 0 <= k < out.len() ==> !seen.contains(#[trigger] out[k].0)
            &&& forall|a: int, b: int|
                0 <= a < out.len() && 0 <= b < out.len() && a != b ==> (#[trigger] out[a]).0 != (
                #[trigger] out[b]).0
            &&& forall|k: int| 0 <= k < out.len() ==> s.contains(#[trigger] out[k].0)
            &&& forall|i: int| 0 <= i < procs.len() ==> s.contains(#[trigger] procs[i].pid)
            &&& seen.subset_of(s)
        }),
    decreases procs.len(),
{
    if procs.len() > 0 {
        let rest = procs.drop_last();
        lemma_polled_once(seen, rest);
        let (s0, out0) = poll_scan(seen, rest);
        let p = procs.last();
        assert forall|i: int| 0 <= i < procs.len() - 1 implies procs[i] == rest[i] by {}
        if !s0.contains(p.pid) {
            match p.info {
                Some((ppid, uid, comm, cmdline)) => {
                    let out = out0.push((p.pid, ppid, uid, comm@, cmdline@));
                    assert forall|a: int, b: int|
                        0 <= a < out.len() && 0 <= b < out.len() && a != b implies (
                        #[trigger] out[a]).0 != (#[trigger] out[b]).0 by {
                        if a < out0.len() && b < out0.len() {
                            assert(out[a] == out0[a] && out[b] == out0[b]);
                        } else if a < out0.len() {
                            assert(out[a] == out0[a]);
                            assert(s0.contains(out0[a].0));
                        } else {
                            assert(out[b] == out0[b]);
                            assert(s0.contains(out0[b].0));
                        }
                    }
                    assert forall|k: int| 0 <= k < out.len() implies !seen.contains(
                        #[trigger] out[k].0,
                    ) by {
                        if k < out0.len() {
                            assert(out[k] == out0[k]);
                        }
                    }
                    assert forall|k: int| 0 <= k < out.len() implies s0.insert(p.pid).contains(
                        #[trigger] out[k].0,
                    ) by {
                        if k < out0.len() {
                            assert(out[k] == out0[k]);
                        }
                    }
                },
                None => {},
            }
        }
    }
}

impl ProcessPoller {
    /// The PIDs already reported.
    pub closed spec fn seen(&self) -> Set<u32> {
        self.seen@
    }

    /// A poller that has reported nothing.
    pub fn new() -> (p: Self)
        ensures
            p.seen() == Set::<u32>::empty(),
    {
        ProcessPoller { seen: std::collections::HashSet::new() }
    }

    /// Whether `pid` was already reported.
    pub fn has_seen(&self, pid: u32) -> (b: bool)
        ensures
            b == self.seen().contains(pid),
    {
        broadcast use vstd::std_specs::hash::group_hash_axioms;

        self.seen.contains(&pid)
    }

    /// One polling pass over the processes `procs` lists: a spawn event for
    /// every process not reported before whose information could be read.
    pub fn observe(&mut self, procs: Vec<PolledProcess>) -> (events: Vec<SensorEvent>)
        ensures
            ({
                let (s, out) = poll_scan(old(self).seen(), procs@);
                &&& final(self).seen() == s
                &&& events@.len() == out.len()
                &&& forall|k: int|
                    0 <= k < out.len() ==> (#[trigger] events@[k] is ProcessSpawn) && spawn_fields(
                        events@[k],
                    ) == out[k]
            }),
    {
        broadcast use vstd::std_specs::hash::group_hash_axioms;

        let ghost s0 = self.seen@;
        let ghost ps = procs@;
        let mut events: Vec<SensorEvent> = Vec::new();
        let mut rest = procs;
        let n = rest.len();
        let mut i: usize = 0;
        while rest.len() > 0
            invariant
                i + rest@.len() == n,
                n == ps.len(),
                rest@ == ps.skip(i as int),
                ({
                    let (s, out) = poll_scan(s0, ps.take(i as int));
                    &&& self.seen@ == s
                    &&& events@.len() == out.len()
                    &&& forall|k: int|
                        0 <= k < out.len() ==> (#[trigger] events@[k] is ProcessSpawn)
                            && spawn_fields(events@[k]) == out[k]
                }),
            decreases rest.len(),
        {
            let ghost old_rest = rest@;
            let p = rest.remove(0);
            proof {
                assert(ps[i as int] == p) by {
                    assert(ps.skip(i as int)[0] == ps[i as int]);
                }
                assert(ps.take(i + 1).drop_last() == ps.take(i as int));
                assert(ps.take(i + 1).last() == p);
                assert(rest@ =~= ps.skip(i + 1));
            }
            let ghost eb = events@;
            if !self.seen.contains(&p.pid) {
                self.seen.insert(p.pid);
                match p.info {
                    Some((ppid, uid, comm, cmdline)) => {
                        events.push(SensorEvent::ProcessSpawn { pid: p.pid, ppid, uid, comm, cmdline });
                        proof {
                            let (s, out) = poll_scan(s0, ps.take(i as int));
                            assert forall|k: int| 0 <= k < out.len() + 1 implies (
                            #[trigger] events@[k] is ProcessSpawn) && spawn_fields(events@[k])
                                == out.push(
                                (p.pid, ppid, uid, comm@, cmdline@),
                            )[k] by {
                                if k < out.len() {
                                    assert(events@[k] == eb[k]);
                                }
                            }
                        }
                    },
                    None => {},
                }
            }
            i = i + 1;
        }
        assert(ps.take(n as int) == ps);
        events
    }

    /// Forgets the PIDs that no longer exist: keeps those in `alive`.
    pub fn retain_alive(&mut self, alive: &Vec<u32>)
        ensures
            final(self).seen() == old(self).seen().intersect(alive@.to_set()),
    {
        broadcast use vstd::std_specs::hash::group_hash_axioms;

        let mut kept: std::collections::HashSet<u32> = std::collections::HashSet::new();
        let mut i: usize = 0;
        while i < alive.len()
            invariant
                i <= alive.len(),
                kept@ == self.seen@.intersect(alive@.take(i as int).to_set()),
            decreases alive.len() - i,
        {
            let pid = alive[i];
            if self.seen.contains(&pid) {
                kept.insert(pid);
            }
            proof {
                assert(alive@.take(i + 1) =~= alive@.take(i as int) + seq![pid]);
                Seq::lemma_to_set_insert_commutes(alive@.take(i as int), pid);
                assert(kept@ =~= self.seen@.intersect(alive@.take(i + 1).to_set()));
            }
            i = i + 1;
        }
        assert(alive@.take(alive.len() as int) == alive@);
        self.seen = kept;
    }
}

/// The phases of the process sensor.
#[derive(Debug, Clone, Copy, PartialEq, Eq, Structural)]
pub enum SensorPhase {
    /// Open the Netlink proc-connector socket.
    OpenSocket,
    /// Bind it to the proc-connector multicast group.
    BindSocket,
    /// Send the subscription request.
    Subscribe,
    /// Receive process events from the kernel.
    Receive,
    /// Poll `/proc` (the fallback).
    Poll,
    /// The sensor has stopped.
    Stopped,
}

/// What the sensor does after a phase: the next phase, and whether to close
/// the Netlink socket first.
#[derive(Debug, Clone, Copy, PartialEq, Eq, Structural)]
pub struct SensorStep {
    pub next: SensorPhase,
    pub close_socket: bool,
}

/// Whether the Netlink socket is open during `phase`.
pub open spec fn holds_socket(phase: SensorPhase) -> bool {
    phase == SensorPhase::BindSocket || phase == SensorPhase::Subscribe || phase
        == SensorPhase::Receive
}

/// The step after `phase` when its work `succeeded` (a received datagram
/// counts as success, a failed receive as failure).
pub open spec fn sensor_step(phase: SensorPhase, succeeded: bool) -> SensorStep {
    match phase {
        SensorPhase::OpenSocket => if succeeded {
            SensorStep { next: SensorPhase::BindSocket, close_socket: false }
        } else {
            SensorStep { next: SensorPhase::Poll, close_socket: false }
        },
        SensorPhase::BindSocket => if succeeded {
            SensorStep { next: SensorPhase::Subscribe, close_socket: false }
        } else {
            SensorStep { next: SensorPhase::Poll, close_socket: true }
        },
        SensorPhase::Subscribe => if succeeded {
            SensorStep { next: SensorPhase::Receive, close_socket: false }
        } else {
            SensorStep { next: SensorPhase::Poll, close_socket: true }
        },
        SensorPhase::Receive => if succeeded {
            SensorStep { next: SensorPhase::Receive, close_socket: false }
        } else {
            SensorStep { next: SensorPhase::Stopped, close_socket: true }
        },
        SensorPhase::Poll => SensorStep { next: SensorPhase::Poll, close_socket: false },
        SensorPhase::Stopped => SensorStep { next: SensorPhase::Stopped, close_socket: false },
    }
}

/// The decisions of the process sensor: use the Netlink proc connector when
/// the socket can be opened, bound and subscribed, falling back to polling
/// `/proc` (closing the socket) as soon as one of these fails; once events
/// flow, a failed receive closes the socket and stops the sensor.
pub fn run(phase: SensorPhase, succeeded: bool) -> (step: SensorStep)
    ensures
        step == sensor_step(phase, succeeded),
{
    match phase {
        SensorPhase::OpenSocket => if succeeded {
            SensorStep { next: SensorPhase::BindSocket, close_socket: false }
        } else {
            SensorStep { next: SensorPhase::Poll, close_socket: false }
        },
        SensorPhase::BindSocket => if succeeded {
            SensorStep { next: SensorPhase::Subscribe, close_socket: false }
        } else {
            SensorStep { next: SensorPhase::Poll, close_socket: true }
        },
        SensorPhase::Subscribe => if succeeded {
            SensorStep { next: SensorPhase::Receive, close_socket: false }
        } else {
            SensorStep { next: SensorPhase::Poll, close_socket: true }
        },
        SensorPhase::Receive => if succeeded {
            SensorStep { next: SensorPhase::Receive, close_socket: false }
        } else {
            SensorStep { next: SensorPhase::Stopped, close_socket: true }
        },
        SensorPhase::Poll => SensorStep { next: SensorPhase::Poll, close_socket: false },
        SensorPhase::Stopped => SensorStep { next: SensorPhase::Stopped, close_socket: false },
    }
}

/// The socket is closed exactly when the sensor leaves the phases that hold
/// it, so it is never leaked and never closed twice; polling and stopping are
/// final; and the sensor falls back to polling only before events flow.
pub proof fn lemma_sensor_socket_discipline(phase: SensorPhase, succeeded: bool)
    ensures
        sensor_step(phase, succeeded).close_socket == (holds_socket(phase) && !holds_socket(
            sensor_step(phase, succeeded).next,
        )),
        phase == SensorPhase::Poll ==> sensor_step(phase, succeeded).next == SensorPhase::Poll,
        phase == SensorPhase::Stopped ==> sensor_step(phase, succeeded).next
            == SensorPhase::Stopped,
        sensor_step(phase, succeeded).next == SensorPhase::Poll ==> phase != SensorPhase::Receive,
        succeeded && phase != SensorPhase::Poll && phase != SensorPhase::Stopped ==> holds_socket(
            sensor_step(phase, succeeded).next,
        ),
{
}


/// The proc-connector datagram layout, stated with its offsets and codes:
/// the event kind is the little-endian word at byte 36 (after the 16-byte
/// netlink header and the 20-byte connector header); its data starts at byte
/// 52. Kind 2 is a fork (parent PID at 52, child PID at 60, 16 bytes of
/// data), kind 4 an exec (PID at 52, 8 bytes), kind 0x80000000 an exit (PID
/// at 52, 16 bytes); anything shorter or of another kind is no event.
pub proof fn lemma_netlink_layout(b: Seq<u8>)
    ensures
        ({
            let w = |at: int| (b[at] + b[at + 1] * 256 + b[at + 2] * 65536 + b[at + 3] * 16777216) as u32;
            netlink_event(b) == if b.len() < 52 {
                None
            } else if w(36) == 2 {
                if b.len() < 68 {
                    None
                } else {
                    Some(ProcConnectorEvent::Fork { parent_pid: w(52), child_pid: w(60) })
                }
            } else if w(36) == 4 {
                if b.len() < 60 {
                    None
                } else {
                    Some(ProcConnectorEvent::Exec { pid: w(52) })
                }
            } else if w(36) == 0x8000_0000 {
                if b.len() < 68 {
                    None
                } else {
                    Some(ProcConnectorEvent::Exit { pid: w(52) })
                }
            } else {
                None
            }
        }),
{
}

/// The subscription request, byte by byte: length 40, type 16, flags 0,
/// sequence 0, the sender's PID (little-endian), connector index 1 and value
/// 1, sequence and ack 0, payload length 4, flags 0, then the operation 1.
pub proof fn lemma_subscription_bytes(pid: u32)
    ensures
        mcast_listen_bytes(pid) == seq![
            40u8, 0, 0, 0, 16, 0, 0, 0, 0, 0, 0, 0,
            (pid % 256) as u8, ((pid / 256) % 256) as u8, ((pid / 65536) % 256) as u8, (pid / 16777216) as u8,
            1, 0, 0, 0, 1, 0, 0, 0, 0, 0, 0, 0, 0, 0, 0, 0, 4, 0, 0, 0, 1, 0, 0, 0
        ],
{
    assert(mcast_listen_bytes(pid) =~= seq![
        40u8, 0, 0, 0, 16, 0, 0, 0, 0, 0, 0, 0,
        (pid % 256) as u8, ((pid / 256) % 256) as u8, ((pid / 65536) % 256) as u8, (pid / 16777216) as u8,
        1, 0, 0, 0, 1, 0, 0, 0, 0, 0, 0, 0, 0, 0, 0, 0, 4, 0, 0, 0, 1, 0, 0, 0
    ]);
}

/// The sensor's moves: opening, binding and subscribing lead one to the next
/// and then to receiving; a failure of any of them falls back to polling (the
/// socket closed once it is open); a failed receive closes the socket and
/// stops; polling and stopping stay.
pub proof fn lemma_sensor_moves(ok: bool)
    ensures
        sensor_step(SensorPhase::OpenSocket, true) == (SensorStep { next: SensorPhase::BindSocket, close_socket: false }),
        sensor_step(SensorPhase::OpenSocket, false) == (SensorStep { next: SensorPhase::Poll, close_socket: false }),
        sensor_step(SensorPhase::BindSocket, true) == (SensorStep { next: SensorPhase::Subscribe, close_socket: false }),
        sensor_step(SensorPhase::BindSocket, false) == (SensorStep { next: SensorPhase::Poll, close_socket: true }),
        sensor_step(SensorPhase::Subscribe, true) == (SensorStep { next: SensorPhase::Receive, close_socket: false }),
        sensor_step(SensorPhase::Subscribe, false) == (SensorStep { next: SensorPhase::Poll, close_socket: true }),
        sensor_step(SensorPhase::Receive, true) == (SensorStep { next: SensorPhase::Receive, close_socket: false }),
        sensor_step(SensorPhase::Receive, false) == (SensorStep { next: SensorPhase::Stopped, close_socket: true }),
        sensor_step(SensorPhase::Poll, ok) == (SensorStep { next: SensorPhase::Poll, close_socket: false }),
        sensor_step(SensorPhase::Stopped, ok) == (SensorStep { next: SensorPhase::Stopped, close_socket: false }),
{
}

/// A process not reported before whose information could be read is
/// reported by the next polling pass that lists it, with its own PID, parent
/// PID, UID, comm and command line.
pub proof fn lemma_new_process_reported(seen: Set<u32>, procs: Seq<PolledProcess>, i: int)
    requires
        0 <= i < procs.len(),
        !seen.contains(procs[i].pid),
        procs[i].info is Some,
        forall|j: int| 0 <= j < i ==> procs[j].pid != procs[i].pid,
    ensures
        ({
            let out = poll_scan(seen, procs).1;
            let (ppid, uid, comm, cmdline) = procs[i].info->0;
            exists|k: int|
                0 <= k < out.len() && #[trigger] out[k] == (procs[i].pid, ppid, uid, comm@, cmdline@)
        }),
    decreases procs.len(),
{
    let rest = procs.drop_last();
    let (s0, out0) = poll_scan(seen, rest);
    let out = poll_scan(seen, procs).1;
    let (ppid, uid, comm, cmdline) = procs[i].info->0;
    let target = (procs[i].pid, ppid, uid, comm@, cmdline@);
    assert(out == out0 || exists|x| out == out0.push(x));
    if i < procs.len() - 1 {
        assert(rest[i] == procs[i]);
        assert forall|j: int| 0 <= j < i implies rest[j].pid != rest[i].pid by {
            assert(rest[j] == procs[j]);
        }
        lemma_new_process_reported(seen, rest, i);
        let k = choose|k: int| 0 <= k < out0.len() && #[trigger] out0[k] == target;
        assert(out[k] == out0[k]);
    } else {
        assert(!s0.contains(procs[i].pid)) by {
            lemma_poll_seen_are_listed(seen, rest);
            if s0.contains(procs[i].pid) {
                let j = choose|j: int| 0 <= j < rest.len() && rest[j].pid == procs[i].pid;
                assert(rest[j] == procs[j]);
            }
        }
        assert(out == out0.push(target));
        assert(out[out0.len() as int] == target);
    }
}

proof fn lemma_poll_seen_are_listed(seen: Set<u32>, procs: Seq<PolledProcess>)
    ensures
        forall|x: u32|
            #[trigger] poll_scan(seen, procs).0.contains(x) ==> seen.contains(x) || exists|j: int|
                0 <= j < procs.len() && procs[j].pid == x,
    decreases procs.len(),
{
    if procs.len() > 0 {
        let rest = procs.drop_last();
        lemma_poll_seen_are_listed(seen, rest);
        assert forall|x: u32| #[trigger] poll_scan(seen, procs).0.contains(x) implies seen.contains(x)
            || exists|j: int| 0 <= j < procs.len() && procs[j].pid == x by {
            if poll_scan(seen, rest).0.contains(x) {
                if !seen.contains(x) {
                    let j = choose|j: int| 0 <= j < rest.len() && rest[j].pid == x;
                    assert(procs[j] == rest[j]);
                }
            } else {
                assert(procs[procs.len() - 1].pid == x);
            }
        }
    }
}

/// A command line's NUL separators become spaces and nothing else changes;
/// arguments are joined with single spaces.
pub proof fn lemma_cmdline_text(b: Seq<u8>, a: Seq<char>, c: Seq<char>)
    ensures
        nul_to_space(b).len() == b.len(),
        forall|i: int|
            0 <= i < b.len() ==> #[trigger] nul_to_space(b)[i] == if b[i] == 0 {
                32u8
            } else {
                b[i]
            },
        joined(seq![a]) == a,
        joined(seq![a, c]) == a + seq![' '] + c,
{
    assert(seq![a, c].drop_last() =~= seq![a]);
}
} // verus!
