//! Process records and the snapshots that hold them.

use vstd::prelude::*;
use crate::text::{decimal, push_decimal};

verus! {

/// Lifecycle status of a process.
#[derive(Clone, Copy, Debug, PartialEq, Eq, Structural)]
pub enum ProcStatus {
    Idle,
    Run,
    Sleep,
    Stop,
    Zombie,
    Tracing,
    Dead,
    Wakekill,
    Waking,
    Parked,
    LockBlocked,
    UninterruptibleDiskSleep,
    Unknown(u32),
}

/// The name under which a status is shown and matched.
pub open spec fn status_label(s: ProcStatus) -> Seq<char> {
    match s {
        ProcStatus::Idle => "Idle"@,
        ProcStatus::Run => "Run"@,
        ProcStatus::Sleep => "Sleep"@,
        ProcStatus::Stop => "Stop"@,
        ProcStatus::Zombie => "Zombie"@,
        ProcStatus::Tracing => "Tracing"@,
        ProcStatus::Dead => "Dead"@,
        ProcStatus::Wakekill => "Wakekill"@,
        ProcStatus::Waking => "Waking"@,
        ProcStatus::Parked => "Parked"@,
        ProcStatus::LockBlocked => "LockBlocked"@,
        ProcStatus::UninterruptibleDiskSleep => "UninterruptibleDiskSleep"@,
        ProcStatus::Unknown(n) => "Unknown("@ + decimal(n as nat) + ")"@,
    }
}

impl ProcStatus {
    /// The status's name, as `status_label` gives it.
    pub fn label(&self) -> (r: String)
        ensures
            r@ == status_label(*self),
    {
        match self {
            ProcStatus::Idle => String::from_str("Idle"),
            ProcStatus::Run => String::from_str("Run"),
            ProcStatus::Sleep => String::from_str("Sleep"),
            ProcStatus::Stop => String::from_str("Stop"),
            ProcStatus::Zombie => String::from_str("Zombie"),
            ProcStatus::Tracing => String::from_str("Tracing"),
            ProcStatus::Dead => String::from_str("Dead"),
            ProcStatus::Wakekill => String::from_str("Wakekill"),
            ProcStatus::Waking => String::from_str("Waking"),
            ProcStatus::Parked => String::from_str("Parked"),
            ProcStatus::LockBlocked => String::from_str("LockBlocked"),
            ProcStatus::UninterruptibleDiskSleep => String::from_str("UninterruptibleDiskSleep"),
            ProcStatus::Unknown(n) => {
                let mut s = String::from_str("Unknown(");
                push_decimal(&mut s, *n as u64);
                s.append(")");
                s
            },
        }
    }
}

/// One process as sampled from the operating system.
#[derive(Clone, Debug)]
pub struct Process {
    pub pid: u32,
    /// The parent's pid, when the system reports one.
    pub ppid: Option<u32>,
    /// The owning user's name, when known.
    pub user: Option<String>,
    /// CPU usage in hundredths of a percent.
    pub cpu: u32,
    /// Resident memory in KiB.
    pub mem: u64,
    pub cmd: String,
    /// Start time, in seconds since the Unix epoch.
    pub start_time: u64,
    pub process_state: ProcStatus,
    /// Niceness.
    pub priority: i32,
}

impl Process {
    /// An identical copy of this record.
    pub fn duplicate(&self) -> (r: Process)
        ensures
            r == *self,
    {
        let user = match &self.user {
            Some(u) => Some(u.clone()),
            None => None,
        };
        Process {
            pid: self.pid,
            ppid: self.ppid,
            user,
            cpu: self.cpu,
            mem: self.mem,
            cmd: self.cmd.clone(),
            start_time: self.start_time,
            process_state: self.process_state,
            priority: self.priority,
        }
    }
}

/// No two records of `s` share a pid.
pub open spec fn unique_pids(s: Seq<Process>) -> bool {
    forall|i: int, j: int| 0 <= i < s.len() && 0 <= j < s.len() && i != j ==> #[trigger] s[i].pid != #[trigger] s[j].pid
}

/// Copies a sequence of records.
pub fn copy_records(records: &[Process]) -> (r: Vec<Process>)
    ensures
        r@ == records@,
{
    let mut out: Vec<Process> = Vec::new();
    let mut i: usize = 0;
    while i < records.len()
        invariant
            i <= records@.len(),
            out@ == records@.subrange(0, i as int),
        decreases records@.len() - i,
    {
        out.push(records[i].duplicate());
        i = i + 1;
        assert(out@ =~= records@.subrange(0, i as int));
    }
    assert(out@ =~= records@);
    out
}

/// Whether some record of `records` has pid `pid`.
pub open spec fn has_pid(records: Seq<Process>, pid: u32) -> bool {
    exists|i: int| 0 <= i < records.len() && #[trigger] records[i].pid == pid
}

/// Finds the position of the record with pid `pid`.
pub fn find_pid(records: &[Process], pid: u32) -> (r: Option<usize>)
    ensures
        match r {
            Some(i) => i < records@.len() && records@[i as int].pid == pid
                && forall|k: int| 0 <= k < i ==> #[trigger] records@[k].pid != pid,
            None => !has_pid(records@, pid),
        },
{
    let mut i: usize = 0;
    while i < records.len()
        invariant
            i <= records@.len(),
            forall|k: int| 0 <= k < i ==> #[trigger] records@[k].pid != pid,
        decreases records@.len() - i,
    {
        if records[i].pid == pid {
            return Some(i);
        }
        i = i + 1;
    }
    None
}

} // verus!
