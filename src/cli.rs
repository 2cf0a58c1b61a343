//! Decisions of the command-line front end: reading a command line, and the rules
//! behind the one-shot commands.

use vstd::prelude::*;
use crate::text::{decimal, parse_u32, parse_u32_spec, parse_u64, parse_u64_spec, push_decimal, push_char};
use crate::record::{ProcStatus, status_label};
use crate::columns::hundredths;
use crate::sampling::{fields, views, split_fields, parse_i32, parse_i32_spec};

verus! {

/// A command read from the prompt.
#[derive(Clone, Debug)]
pub enum CliCommand {
    /// A blank line.
    Empty,
    Exit,
    GetOs,
    /// List the processes, or export them to the given file.
    Ptable(Option<String>),
    ChangeNice { pid: u32, niceness: i32 },
    Kill(String),
    Log(String),
    Pause(u32),
    Resume(u32),
    TrackProcess { target: String, path: String, duration_secs: u64 },
    GetProcessCommand(u32),
    RestartIfFailed(u32),
    Tui,
    /// A known command with missing or bad arguments, and what to tell the user.
    Rejected(String),
    /// An unknown command word.
    Unknown(String),
}

/// `w` is `exit` in any mix of ASCII case.
pub open spec fn is_exit_word(w: Seq<char>) -> bool {
    &&& w.len() == 4
    &&& (w[0] == 'e' || w[0] == 'E')
    &&& (w[1] == 'x' || w[1] == 'X')
    &&& (w[2] == 'i' || w[2] == 'I')
    &&& (w[3] == 't' || w[3] == 'T')
}

/// A number read as a pid, with 0 for text that is none.
pub open spec fn pid_or_zero(w: Seq<char>) -> u32 {
    match parse_u32_spec(w) {
        Some(p) => p,
        None => 0,
    }
}

/// The command that a line whose white-space separated words are `f` stands for.
pub open spec fn command_matches(f: Seq<Seq<char>>, c: CliCommand) -> bool {
    if f.len() == 0 {
        c is Empty
    } else if f.len() == 1 && is_exit_word(f[0]) {
        c is Exit
    } else if f[0] == "get_os"@ {
        c is GetOs
    } else if f[0] == "ptable"@ {
        match c {
            CliCommand::Ptable(p) => match p {
                Some(path) => f.len() > 1 && path@ == f[1],
                None => f.len() == 1,
            },
            _ => false,
        }
    } else if f[0] == "change_nice"@ {
        if f.len() < 3 {
            c matches CliCommand::Rejected(m) && m@ == "Usage: change_nice <pid> <niceness>"@
        } else if pid_or_zero(f[1]) == 0 {
            c matches CliCommand::Rejected(m) && m@ == "Invalid PID."@
        } else {
            c == CliCommand::ChangeNice {
                pid: pid_or_zero(f[1]),
                niceness: match parse_i32_spec(f[2]) { Some(v) => v, None => 0 },
            }
        }
    } else if f[0] == "kill"@ {
        if f.len() > 1 {
            c matches CliCommand::Kill(p) && p@ == f[1]
        } else {
            c matches CliCommand::Rejected(m) && m@ == "Usage: kill <pid>"@
        }
    } else if f[0] == "log"@ {
        if f.len() > 1 {
            c matches CliCommand::Log(p) && p@ == f[1]
        } else {
            c matches CliCommand::Rejected(m) && m@ == "Usage: log <pid>"@
        }
    } else if f[0] == "pause"@ || f[0] == "resume"@ {
        if f.len() > 1 {
            match parse_u32_spec(f[1]) {
                Some(p) => c == (if f[0] == "pause"@ { CliCommand::Pause(p) } else { CliCommand::Resume(p) }),
                None => c matches CliCommand::Rejected(m) && m@ == "Invalid PID."@,
            }
        } else {
            c matches CliCommand::Rejected(m) && m@ == (if f[0] == "pause"@ {
                "Usage: pause <pid>"@
            } else {
                "Usage: resume <pid>"@
            })
        }
    } else if f[0] == "track_process"@ {
        if f.len() < 4 {
            c matches CliCommand::Rejected(m) && m@ == "Usage: track_process <pid> <output.csv> <duration_secs>"@
        } else {
            match parse_u64_spec(f[3]) {
                Some(d) if d > 0 => c matches CliCommand::TrackProcess { target, path, duration_secs }
                    && target@ == f[1] && path@ == f[2] && duration_secs == d,
                _ => c matches CliCommand::Rejected(m) && m@ == "Invalid duration. Please enter a positive integer."@,
            }
        }
    } else if f[0] == "get_process_command"@ || f[0] == "restart_if_failed"@ {
        if f.len() > 1 {
            if pid_or_zero(f[1]) == 0 {
                c matches CliCommand::Rejected(m) && m@ == "Invalid PID. Please enter a valid process ID."@
            } else {
                c == (if f[0] == "get_process_command"@ {
                    CliCommand::GetProcessCommand(pid_or_zero(f[1]))
                } else {
                    CliCommand::RestartIfFailed(pid_or_zero(f[1]))
                })
            }
        } else {
            c matches CliCommand::Rejected(m) && m@ == (if f[0] == "get_process_command"@ {
                "Usage: get_process_command <pid>"@
            } else {
                "Usage: restart_if_failed <pid>"@
            })
        }
    } else if f[0] == "tui"@ {
        c is Tui
    } else {
        c matches CliCommand::Unknown(w) && w@ == f[0]
    }
}

fn word_is(w: &String, lit: &str) -> (r: bool)
    ensures
        r == (w@ == lit@),
{
    *w == String::from_str(lit)
}

fn is_exit(w: &String) -> (r: bool)
    ensures
        r == is_exit_word(w@),
{
    let s = w.as_str();
    if s.unicode_len() != 4 {
        return false;
    }
    let a = s.get_char(0);
    let b = s.get_char(1);
    let c = s.get_char(2);
    let d = s.get_char(3);
    (a == 'e' || a == 'E') && (b == 'x' || b == 'X') && (c == 'i' || c == 'I') && (d == 't' || d == 'T')
}

fn message(text: &str) -> (r: CliCommand)
    ensures
        r matches CliCommand::Rejected(m) && m@ == text@,
{
    CliCommand::Rejected(String::from_str(text))
}

fn word(f: &Vec<String>, k: usize) -> (r: String)
    requires
        k < f@.len(),
    ensures
        r@ == views(f@)[k as int],
{
    f[k].clone()
}

/// Reads one command line.
pub fn parse_command(line: &str) -> (r: CliCommand)
    ensures
        command_matches(fields(line@), r),
{
    let f = split_fields(line);
    let ghost g = fields(line@);
    assert(views(f@) == g);
    assert(forall|k: int| 0 <= k < f@.len() ==> #[trigger] g[k] == f@[k]@);
    let n = f.len();
    if n == 0 {
        return CliCommand::Empty;
    }
    let w = &f[0];
    if n == 1 && is_exit(w) {
        return CliCommand::Exit;
    }
    if word_is(w, "get_os") {
        CliCommand::GetOs
    } else if word_is(w, "ptable") {
        if n > 1 { CliCommand::Ptable(Some(word(&f, 1))) } else { CliCommand::Ptable(None) }
    } else if word_is(w, "change_nice") {
        if n < 3 {
            message("Usage: change_nice <pid> <niceness>")
        } else {
            let pid = match parse_u32(f[1].as_str()) {
                Some(p) => p,
                None => 0,
            };
            let niceness = match parse_i32(f[2].as_str()) {
                Some(v) => v,
                None => 0,
            };
            if pid == 0 {
                message("Invalid PID.")
            } else {
                CliCommand::ChangeNice { pid, niceness }
            }
        }
    } else if word_is(w, "kill") {
        if n > 1 { CliCommand::Kill(word(&f, 1)) } else { message("Usage: kill <pid>") }
    } else if word_is(w, "log") {
        if n > 1 { CliCommand::Log(word(&f, 1)) } else { message("Usage: log <pid>") }
    } else if word_is(w, "pause") || word_is(w, "resume") {
        let pause = word_is(w, "pause");
        if n > 1 {
            match parse_u32(f[1].as_str()) {
                Some(p) => if pause { CliCommand::Pause(p) } else { CliCommand::Resume(p) },
                None => message("Invalid PID."),
            }
        } else if pause {
            message("Usage: pause <pid>")
        } else {
            message("Usage: resume <pid>")
        }
    } else if word_is(w, "track_process") {
        if n < 4 {
            message("Usage: track_process <pid> <output.csv> <duration_secs>")
        } else {
            match parse_u64(f[3].as_str()) {
                Some(d) => {
                    if d > 0 {
                        CliCommand::TrackProcess { target: word(&f, 1), path: word(&f, 2), duration_secs: d }
                    } else {
                        message("Invalid duration. Please enter a positive integer.")
                    }
                },
                None => message("Invalid duration. Please enter a positive integer."),
            }
        }
    } else if word_is(w, "get_process_command") || word_is(w, "restart_if_failed") {
        let get = word_is(w, "get_process_command");
        if n > 1 {
            let pid = match parse_u32(f[1].as_str()) {
                Some(p) => p,
                None => 0,
            };
            if pid == 0 {
                message("Invalid PID. Please enter a valid process ID.")
            } else if get {
                CliCommand::GetProcessCommand(pid)
            } else {
                CliCommand::RestartIfFailed(pid)
            }
        } else if get {
            message("Usage: get_process_command <pid>")
        } else {
            message("Usage: restart_if_failed <pid>")
        }
    } else if word_is(w, "tui") {
        CliCommand::Tui
    } else {
        CliCommand::Unknown(word(&f, 0))
    }
}

/// What to do about a process that should be kept running.
#[derive(Clone, Debug)]
pub enum RestartPlan {
    /// The pid was not in the table taken at start-up.
    NotInInitialTable,
    /// The pid is still in the current table.
    AlreadyRunning,
    /// The process is gone: start this command again.
    Restart(String),
    /// The process is gone and no command was recorded for it.
    NoCommand,
}

/// Some entry of `table` has pid `pid`.
pub open spec fn listed(table: Seq<(u32, String)>, pid: u32) -> bool {
    exists|k: int| 0 <= k < table.len() && #[trigger] table[k].0 == pid
}

/// The command of the first entry of `table` with pid `pid`.
pub open spec fn first_command(table: Seq<(u32, String)>, pid: u32) -> Seq<char>
    decreases table.len(),
{
    if table.len() == 0 {
        seq![]
    } else if table[0].0 == pid {
        table[0].1@
    } else {
        first_command(table.drop_first(), pid)
    }
}

fn lookup(table: &[(u32, String)], pid: u32) -> (r: Option<String>)
    ensures
        match r {
            Some(c) => listed(table@, pid) && c@ == first_command(table@, pid),
            None => !listed(table@, pid),
        },
{
    let mut k: usize = 0;
    assert(table@.subrange(0, table@.len() as int) =~= table@);
    while k < table.len()
        invariant
            k <= table@.len(),
            forall|m: int| 0 <= m < k ==> #[trigger] table@[m].0 != pid,
            first_command(table@, pid) == first_command(table@.subrange(k as int, table@.len() as int), pid),
        decreases table@.len() - k,
    {
        let ghost rest = table@.subrange(k as int, table@.len() as int);
        if table[k].0 == pid {
            assert(rest[0] == table@[k as int]);
            return Some(table[k].1.clone());
        }
        assert(rest.drop_first() =~= table@.subrange(k + 1, table@.len() as int));
        k = k + 1;
    }
    None
}

/// Decides whether the process `pid` of the start-up table `initial` must be started
/// again, given the current table.
pub fn restart_plan(pid: u32, initial: &[(u32, String)], current: &[(u32, String)]) -> (r: RestartPlan)
    ensures
        !listed(initial@, pid) ==> r is NotInInitialTable,
        listed(initial@, pid) && listed(current@, pid) ==> r is AlreadyRunning,
        listed(initial@, pid) && !listed(current@, pid) ==> (if first_command(initial@, pid).len() == 0 {
            r is NoCommand
        } else {
            r matches RestartPlan::Restart(c) && c@ == first_command(initial@, pid)
        }),
{
    match lookup(initial, pid) {
        None => RestartPlan::NotInInitialTable,
        Some(cmd) => {
            match lookup(current, pid) {
                Some(_) => RestartPlan::AlreadyRunning,
                None => {
                    if cmd.as_str().unicode_len() == 0 {
                        RestartPlan::NoCommand
                    } else {
                        RestartPlan::Restart(cmd)
                    }
                },
            }
        },
    }
}

/// The words of `s` joined by single spaces.
pub open spec fn joined(s: Seq<Seq<char>>) -> Seq<char>
    decreases s.len(),
{
    if s.len() == 0 {
        seq![]
    } else if s.len() == 1 {
        s[0]
    } else {
        joined(s.drop_last()) + " "@ + s.last()
    }
}

/// The command line shown for a process with arguments `args`.
pub open spec fn command_line_spec(args: Seq<Seq<char>>) -> Seq<char> {
    if joined(args).len() == 0 { "[no command]"@ } else { joined(args) }
}

/// The command line of a process: its arguments joined by spaces, or `[no command]`
/// when that is empty.
pub fn command_line(args: &[String]) -> (r: String)
    ensures
        r@ == command_line_spec(args@.map_values(|a: String| a@)),
{
    let ghost v = args@.map_values(|a: String| a@);
    let mut out = String::new();
    let mut k: usize = 0;
    while k < args.len()
        invariant
            k <= args@.len(),
            v == args@.map_values(|a: String| a@),
            out@ == joined(v.subrange(0, k as int)),
        decreases args@.len() - k,
    {
        let ghost pre = v.subrange(0, k as int);
        let ghost next = v.subrange(0, k + 1);
        assert(next.drop_last() =~= pre);
        if k > 0 {
            out.append(" ");
        }
        out.append(args[k].as_str());
        proof {
            if k == 0 {
                assert(next =~= seq![args@[0]@]);
            }
            assert(out@ =~= joined(next));
        }
        k = k + 1;
    }
    assert(v.subrange(0, args@.len() as int) =~= v);
    if out.as_str().unicode_len() == 0 {
        String::from_str("[no command]")
    } else {
        out
    }
}

/// The position of the first pid whose decimal text is `text`.
pub fn find_pid_text(pids: &[u32], text: &str) -> (r: Option<usize>)
    ensures
        match r {
            Some(k) => k < pids@.len() && decimal(pids@[k as int] as nat) == text@
                && forall|m: int| 0 <= m < k ==> decimal(#[trigger] pids@[m] as nat) != text@,
            None => forall|m: int| 0 <= m < pids@.len() ==> decimal(#[trigger] pids@[m] as nat) != text@,
        },
{
    let t = String::from_str(text);
    let mut k: usize = 0;
    while k < pids.len()
        invariant
            k <= pids@.len(),
            t@ == text@,
            forall|m: int| 0 <= m < k ==> decimal(#[trigger] pids@[m] as nat) != text@,
        decreases pids@.len() - k,
    {
        let mut s = String::new();
        push_decimal(&mut s, pids[k] as u64);
        assert(s@ =~= decimal(pids@[k as int] as nat));
        if s == t {
            return Some(k);
        }
        k = k + 1;
    }
    None
}

/// A change in a watched process.
#[derive(Clone, Copy, Debug, PartialEq, Eq, Structural)]
pub enum WatchEvent {
    Unchanged,
    /// Its status is no longer the last one seen.
    StatusChanged,
    /// It is gone.
    Terminated,
}

/// Compares a watched process's current status, if it still exists, with the last one seen.
pub fn watch_step(last: &str, current: Option<&str>) -> (r: WatchEvent)
    ensures
        r == (match current {
            None => WatchEvent::Terminated,
            Some(c) => if c@ == last@ { WatchEvent::Unchanged } else { WatchEvent::StatusChanged },
        }),
{
    match current {
        None => WatchEvent::Terminated,
        Some(c) => {
            if String::from_str(c) == String::from_str(last) {
                WatchEvent::Unchanged
            } else {
                WatchEvent::StatusChanged
            }
        },
    }
}

/// A line of a watched process's log.
pub open spec fn watch_line_spec(stamp: Seq<char>, pid: u32, e: WatchEvent, state: Seq<char>) -> Seq<char> {
    "["@ + stamp + "] "@ + match e {
        WatchEvent::Unchanged => "Process "@ + decimal(pid as nat) + " created"@,
        WatchEvent::StatusChanged => "Status of Process "@ + decimal(pid as nat) + " changed to: "@ + state,
        WatchEvent::Terminated => "Process "@ + decimal(pid as nat) + " terminated"@,
    }
}

/// The log line for `event` at time `stamp`; an unchanged process is logged as just created.
pub fn watch_line(stamp: &str, pid: u32, event: WatchEvent, state: &str) -> (r: String)
    ensures
        r@ == watch_line_spec(stamp@, pid, event, state@),
{
    let mut s = String::from_str("[");
    s.append(stamp);
    s.append("] ");
    match event {
        WatchEvent::Unchanged => {
            s.append("Process ");
            push_decimal(&mut s, pid as u64);
            s.append(" created");
        },
        WatchEvent::StatusChanged => {
            s.append("Status of Process ");
            push_decimal(&mut s, pid as u64);
            s.append(" changed to: ");
            s.append(state);
        },
        WatchEvent::Terminated => {
            s.append("Process ");
            push_decimal(&mut s, pid as u64);
            s.append(" terminated");
        },
    }
    assert(s@ =~= watch_line_spec(stamp@, pid, event, state@));
    s
}

/// `s` padded with spaces on the right to at least `w` characters.
pub open spec fn pad_right(s: Seq<char>, w: nat) -> Seq<char> {
    if s.len() >= w { s } else { s + Seq::new((w - s.len()) as nat, |i: int| ' ') }
}

/// Appends `s` padded with spaces on the right to at least `w` characters.
pub fn push_padded(out: &mut String, s: &str, w: usize)
    ensures
        final(out)@ == old(out)@ + pad_right(s@, w as nat),
{
    let ghost start = out@;
    out.append(s);
    let n = s.unicode_len();
    let mut k = n;
    while k < w
        invariant
            n == s@.len(),
            k >= n,
            w > n ==> k <= w,
            n >= w ==> k == n,
            out@ == start + s@ + Seq::new((k - n) as nat, |i: int| ' '),
        decreases w - k,
    {
        push_char(out, ' ');
        k = k + 1;
        assert(out@ =~= start + s@ + Seq::new((k - n) as nat, |i: int| ' '));
    }
    if n >= w {
        assert(k == n);
        assert(out@ =~= start + s@);
    } else {
        assert(k == w);
    }
    assert(out@ =~= start + pad_right(s@, w as nat));
}

/// A row of the process listing: pid, name, CPU and memory padded to their columns,
/// then the status.
pub open spec fn table_row_spec(pid: u32, name: Seq<char>, cpu: u32, memory: u64, status: ProcStatus) -> Seq<char> {
    pad_right(decimal(pid as nat), 10) + " "@ + pad_right(name, 45) + " "@ + pad_right(hundredths(cpu as nat), 10)
        + " "@ + pad_right(decimal(memory as nat), 15) + " "@ + pad_right(status_label(status), 10)
}

/// A row of the process listing; `cpu` is in hundredths of a percent.
pub fn table_row(pid: u32, name: &str, cpu: u32, memory: u64, status: ProcStatus) -> (r: String)
    ensures
        r@ == table_row_spec(pid, name@, cpu, memory, status),
{
    let mut s = String::new();
    let p = crate::text::u64_text(pid as u64);
    push_padded(&mut s, p.as_str(), 10);
    s.append(" ");
    push_padded(&mut s, name, 45);
    s.append(" ");
    let mut c = String::new();
    push_decimal(&mut c, (cpu / 100) as u64);
    c.append(".");
    crate::text::push_two_digits(&mut c, (cpu % 100) as u64);
    assert(c@ =~= hundredths(cpu as nat));
    push_padded(&mut s, c.as_str(), 10);
    s.append(" ");
    let m = crate::text::u64_text(memory);
    push_padded(&mut s, m.as_str(), 15);
    s.append(" ");
    let l = status.label();
    push_padded(&mut s, l.as_str(), 10);
    assert(s@ =~= table_row_spec(pid, name@, cpu, memory, status));
    s
}

/// A line of the CSV export: pid, name, CPU with two decimals, memory, status.
pub open spec fn csv_row_spec(pid: u32, name: Seq<char>, cpu: u32, memory: u64, status: ProcStatus) -> Seq<char> {
    decimal(pid as nat) + ","@ + name + ","@ + hundredths(cpu as nat) + ","@ + decimal(memory as nat) + ","@
        + status_label(status)
}

/// A line of the CSV export; `cpu` is in hundredths of a percent.
pub fn csv_row(pid: u32, name: &str, cpu: u32, memory: u64, status: ProcStatus) -> (r: String)
    ensures
        r@ == csv_row_spec(pid, name@, cpu, memory, status),
{
    let mut s = String::new();
    push_decimal(&mut s, pid as u64);
    s.append(",");
    s.append(name);
    s.append(",");
    push_decimal(&mut s, (cpu / 100) as u64);
    s.append(".");
    crate::text::push_two_digits(&mut s, (cpu % 100) as u64);
    s.append(",");
    push_decimal(&mut s, memory);
    s.append(",");
    let l = status.label();
    s.append(l.as_str());
    assert(s@ =~= csv_row_spec(pid, name@, cpu, memory, status));
    s
}

} // verus!
