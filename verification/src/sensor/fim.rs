//! File integrity monitor: the critical paths to watch and the path each
//! change event reports.

use vstd::prelude::*;
use crate::text::push_char;
use vstd::string::StringExecFns;

verus! {

/// The path a change event reports: the watched path (`"unknown"` for a watch
/// the monitor does not know), followed by `/` and the name of the changed
/// entry when the event names one.
pub open spec fn change_path_of(watched: Option<Seq<char>>, name: Seq<char>) -> Seq<char> {
    let base = match watched {
        Some(p) => p,
        None => "unknown"@,
    };
    if name.len() == 0 {
        base
    } else {
        base + seq!['/'] + name
    }
}

/// The path reported for an inotify event on the watch of `watched` that
/// names the entry `name` (empty when the event names none).
pub fn change_path(watched: Option<&String>, name: &str) -> (p: String)
    ensures
        p@ == change_path_of(
            match watched {
                Some(w) => Some(w@),
                None => None,
            },
            name@,
        ),
{
    let mut base = match watched {
        Some(w) => w.clone(),
        None => "unknown".to_owned(),
    };
    if name.is_empty() {
        base
    } else {
        push_char(&mut base, '/');
        base.append(name);
        base
    }
}

/// The critical paths the monitor watches when they exist.
pub open spec fn watch_path_list() -> Seq<Seq<char>> {
    seq![
        "/etc/passwd"@,
        "/etc/shadow"@,
        "/etc/sudoers"@,
        "/etc/crontab"@,
        "/etc/cron.d"@,
        "/var/spool/cron"@,
        "/root/.ssh/authorized_keys"@,
    ]
}

/// The critical paths the monitor watches when they exist.
pub fn watch_paths() -> (paths: Vec<String>)
    ensures
        paths@.map_values(|p: String| p@) == watch_path_list(),
        paths@.len() == 7,
        paths@[0]@ == "/etc/passwd"@,
        paths@[1]@ == "/etc/shadow"@,
        paths@[2]@ == "/etc/sudoers"@,
        paths@[3]@ == "/etc/crontab"@,
        paths@[4]@ == "/etc/cron.d"@,
        paths@[5]@ == "/var/spool/cron"@,
        paths@[6]@ == "/root/.ssh/authorized_keys"@,
{
    let mut v: Vec<String> = Vec::new();
    v.push("/etc/passwd".to_owned());
    v.push("/etc/shadow".to_owned());
    v.push("/etc/sudoers".to_owned());
    v.push("/etc/crontab".to_owned());
    v.push("/etc/cron.d".to_owned());
    v.push("/var/spool/cron".to_owned());
    v.push("/root/.ssh/authorized_keys".to_owned());
    assert(v@.map_values(|p: String| p@) =~= watch_path_list());
    v
}


/// The monitor watches exactly `/etc/passwd`, `/etc/shadow`, `/etc/sudoers`,
/// `/etc/crontab`, `/etc/cron.d`, `/var/spool/cron` and
/// `/root/.ssh/authorized_keys`; a change reports the watched path (or
/// `unknown`), then `/` and the changed entry's name when there is one.
pub proof fn lemma_watched_paths(watched: Option<Seq<char>>, name: Seq<char>)
    ensures
        watch_path_list() == seq![
            "/etc/passwd"@,
            "/etc/shadow"@,
            "/etc/sudoers"@,
            "/etc/crontab"@,
            "/etc/cron.d"@,
            "/var/spool/cron"@,
            "/root/.ssh/authorized_keys"@,
        ],
        watch_path_list().contains("/etc/sudoers"@),
        change_path_of(watched, name) == if name.len() == 0 {
            match watched {
                Some(w) => w,
                None => "unknown"@,
            }
        } else {
            (match watched {
                Some(w) => w,
                None => "unknown"@,
            }) + seq!['/'] + name
        },
{
    assert(watch_path_list()[2] == "/etc/sudoers"@);
}
} // verus!
