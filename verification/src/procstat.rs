//! Parsers for a process's identity records: the one-line stat record with
//! the executable name in parentheses, the key-value status block, and the
//! command line.

use vstd::prelude::*;
use crate::maps::StrMap;
use crate::records::opt_str_view;
use crate::strutil::{
    after_first, before_first, contains_char, seq_views, split_lines, split_lines_spec,
    split_once, trim, trim_spec,
};

verus! {

/// The key-value pairs of a status block: one `Key: value` pair per line,
/// both sides trimmed; a line without a colon contributes nothing; a
/// repeated key keeps its last value.
pub open spec fn status_map_spec(lines: Seq<Seq<char>>) -> Map<Seq<char>, Seq<char>>
    decreases lines.len(),
{
    if lines.len() == 0 {
        Map::empty()
    } else {
        let m = status_map_spec(lines.drop_last());
        let line = lines.last();
        if contains_char(line, ':') {
            m.insert(trim_spec(before_first(line, ':')), trim_spec(after_first(line, ':')))
        } else {
            m
        }
    }
}

/// Parse a status block into its key-value pairs.
pub fn get_pid_info_status(content: &str) -> (r: StrMap<String>)
    ensures
        r.wf(),
        r.as_map() == status_map_spec(split_lines_spec(content@)),
{
    let lines = split_lines(content);
    let ghost lv = seq_views(lines@);
    let mut r: StrMap<String> = StrMap::new();
    let n = lines.len();
    let mut i: usize = 0;
    proof {
        assert(lv.subrange(0, 0) =~= Seq::<Seq<char>>::empty());
    }
    while i < n
        invariant
            i <= n,
            n == lines@.len(),
            lv == seq_views(lines@),
            r.wf(),
            r.as_map() == status_map_spec(lv.subrange(0, i as int)),
        decreases n - i,
    {
        proof {
            assert(lv.subrange(0, i + 1).drop_last() =~= lv.subrange(0, i as int));
            assert(lv.subrange(0, i + 1).last() == lv[i as int]);
            assert(lv[i as int] == lines@[i as int]@);
        }
        match split_once(lines[i].as_str(), ':') {
            Some(p) => {
                let key = trim(p.0).to_owned();
                let value = trim(p.1).to_owned();
                r.insert(key.as_str(), value);
            },
            None => {},
        }
        i += 1;
    }
    proof {
        assert(lv.subrange(0, n as int) =~= lv);
    }
    r
}

/// The short executable name a stat record carries: the text between the
/// first `'('` and the next `')'` after it, of the trimmed record.
pub open spec fn stat_name_spec(content: Seq<char>) -> Option<Seq<char>> {
    let t = trim_spec(content);
    if contains_char(t, '(') {
        let rest = after_first(t, '(');
        if contains_char(rest, ')') {
            Some(before_first(rest, ')'))
        } else {
            None
        }
    } else {
        None
    }
}

/// Extract the process name from a stat record; a vanished or malformed
/// record degrades to `None`.
pub fn get_pid_name(content: &str) -> (r: Option<String>)
    ensures
        opt_str_view(r) == stat_name_spec(content@),
{
    let t = trim(content);
    match split_once(t, '(') {
        None => None,
        Some(p) => match split_once(p.1, ')') {
            None => None,
            Some(q) => Some(q.0.to_owned()),
        },
    }
}

/// What follows the first space of the trimmed command line.
pub open spec fn cmdline_spec(content: Seq<char>) -> Option<Seq<char>> {
    let t = trim_spec(content);
    if contains_char(t, ' ') {
        Some(after_first(t, ' '))
    } else {
        None
    }
}

/// Extract the part of a command-line record after its first space.
pub fn get_pid_cmdline(content: &str) -> (r: Option<String>)
    ensures
        opt_str_view(r) == cmdline_spec(content@),
{
    let t = trim(content);
    match split_once(t, ' ') {
        None => None,
        Some(p) => Some(p.1.to_owned()),
    }
}

/// Extract the process name from a status block: the value of its `Name`
/// key.
pub fn get_pid_name_status(content: &str) -> (r: Option<String>)
    ensures
        ({
            let m = status_map_spec(split_lines_spec(content@));
            match r {
                Some(s) => m.dom().contains("Name"@) && s@ == m["Name"@],
                None => !m.dom().contains("Name"@),
            }
        }),
{
    let m = get_pid_info_status(content);
    match m.get("Name") {
        Some(v) => Some(v.clone()),
        None => None,
    }
}

/// The fields of a one-line stat record, in file order.
pub struct Stat {
    /// The process id.
    pub pid: i32,
    /// The executable's short name, without the parentheses.
    pub comm: String,
    /// The state code.
    pub state: char,
    /// The parent's process id.
    pub ppid: i32,
    /// The process group id.
    pub pgrp: i32,
    /// The session id.
    pub session: i32,
    /// The controlling terminal.
    pub tty_nr: i32,
    /// The foreground process group of the controlling terminal.
    pub tpgid: i32,
    /// The kernel flags word.
    pub flags: u32,
    /// Minor faults not requiring a page load.
    pub minflt: u64,
    /// Minor faults of waited-for children.
    pub cminflt: u64,
    /// Major faults requiring a page load.
    pub majflt: u64,
    /// Major faults of waited-for children.
    pub cmajflt: u64,
    /// Time scheduled in user mode, in clock ticks.
    pub utime: u64,
    /// Time scheduled in kernel mode, in clock ticks.
    pub stime: u64,
    /// User-mode time of waited-for children, in clock ticks.
    pub cutime: i64,
    /// Kernel-mode time of waited-for children, in clock ticks.
    pub cstime: i64,
    /// The scheduling priority.
    pub priority: i64,
    /// The nice value.
    pub nice: i64,
    /// The number of threads.
    pub num_threads: i64,
    /// Jiffies before the next interval-timer signal; no longer maintained.
    pub itrealvalue: i64,
    /// The start time after boot, in clock ticks.
    pub starttime: u64,
    /// Virtual memory size in bytes.
    pub vsize: u64,
    /// Resident set size in pages.
    pub rss: u64,
    /// The soft limit on the resident set size.
    pub rsslim: u64,
    /// The address above which program text can run.
    pub startcode: u64,
    /// The address below which program text can run.
    pub endcode: u64,
    /// The bottom of the stack.
    pub startstack: u64,
    /// The current stack pointer.
    pub kstkesp: u64,
    /// The current instruction pointer.
    pub kstkeip: u64,
    /// The pending-signal bitmap; obsolete.
    pub signal: u64,
    /// The blocked-signal bitmap; obsolete.
    pub blocked: u64,
    /// The ignored-signal bitmap; obsolete.
    pub sigignore: u64,
    /// The caught-signal bitmap; obsolete.
    pub sigcatch: u64,
    /// The wait channel.
    pub wchan: u64,
    /// Pages swapped; not maintained.
    pub nswap: u64,
    /// Cumulative swapped pages of children; not maintained.
    pub cnswap: u64,
    /// The signal sent to the parent on exit.
    pub exit_signal: Option<i32>,
    /// The processor last executed on.
    pub processor: Option<i32>,
    /// The real-time scheduling priority.
    pub rt_priority: Option<u32>,
    /// The scheduling policy.
    pub policy: Option<u32>,
    /// Aggregated block I/O delays, in clock ticks.
    pub delayacct_blkio_ticks: Option<u64>,
    /// Guest time, in clock ticks.
    pub guest_time: Option<u64>,
    /// Guest time of the children, in clock ticks.
    pub cguest_time: Option<i64>,
    /// The address above which program data is placed.
    pub start_data: Option<u64>,
    /// The address below which program data is placed.
    pub end_data: Option<u64>,
    /// The address above which the heap can be expanded.
    pub start_brk: Option<u64>,
    /// The address above which command-line arguments are placed.
    pub arg_start: Option<u64>,
    /// The address below which command-line arguments are placed.
    pub arg_end: Option<u64>,
    /// The address above which the environment is placed.
    pub env_start: Option<u64>,
    /// The address below which the environment is placed.
    pub env_end: Option<u64>,
    /// The exit status as reported by waiting.
    pub exit_code: Option<i32>,
}

} // verus!
