use procmon::bridge::EventQueue;
use procmon::command::{
    needs_sudo, on_confirmed, on_signal_result, priority_message, renice_args, signal_message,
    verify_priority, ControlAction, PriorityOutcome, SignalOutcome, SignalStep,
};
use procmon::filter::{apply, filter_processes, matches_filter, FilterState, FilterType};
use procmon::record::{ProcStatus, Process};
use procmon::store::{on_tick, pids_unique, RefreshResult, SnapshotStore, TickAction};
use procmon::text::{contains_text, i64_text, parse_u32, u64_text};
use procmon::tree::build_process_tree;

fn rec(pid: u32, ppid: Option<u32>, user: Option<&str>, state: ProcStatus) -> Process {
    Process {
        pid,
        ppid,
        user: user.map(|u| u.to_string()),
        cpu: 0,
        mem: 0,
        cmd: format!("cmd{}", pid),
        start_time: 0,
        process_state: state,
        priority: 0,
    }
}

fn sample() -> Vec<Process> {
    vec![
        rec(1, Some(0), Some("root"), ProcStatus::Sleep),
        rec(1234, Some(1), Some("alice"), ProcStatus::Run),
        rec(50, Some(1), Some("bob"), ProcStatus::Sleep),
        rec(77, Some(50), None, ProcStatus::Zombie),
    ]
}

#[test]
fn decimal_rendering() {
    assert_eq!(u64_text(0), "0");
    assert_eq!(u64_text(1234), "1234");
    assert_eq!(u64_text(u64::MAX), "18446744073709551615");
    assert_eq!(i64_text(-5), "-5");
    assert_eq!(i64_text(i64::MIN), "-9223372036854775808");
}

#[test]
fn parse_unsigned_literals() {
    assert_eq!(parse_u32("1234"), Some(1234));
    assert_eq!(parse_u32("+7"), Some(7));
    assert_eq!(parse_u32("0042"), Some(42));
    assert_eq!(parse_u32("4294967295"), Some(u32::MAX));
    assert_eq!(parse_u32("4294967296"), None);
    assert_eq!(parse_u32(""), None);
    assert_eq!(parse_u32("+"), None);
    assert_eq!(parse_u32("-1"), None);
    assert_eq!(parse_u32("12a"), None);
    assert_eq!(parse_u32(" 12"), None);
}

#[test]
fn substring_search() {
    assert!(contains_text("alice", "lic"));
    assert!(contains_text("alice", ""));
    assert!(contains_text("alice", "alice"));
    assert!(!contains_text("alice", "Alice"));
    assert!(!contains_text("al", "alice"));
}

#[test]
fn filter_by_pid_exact() {
    let s = sample();
    let r = filter_processes(&s, FilterType::PID, "1234");
    assert_eq!(r.len(), 1);
    assert_eq!(r[0].pid, 1234);
    assert_eq!(filter_processes(&s, FilterType::PID, "999").len(), 0);
    assert_eq!(filter_processes(&s, FilterType::PID, "12x4").len(), 0);
    assert_eq!(filter_processes(&s, FilterType::PID, "").len(), 0);
}

#[test]
fn filter_by_parent_pid() {
    let s = sample();
    let r = filter_processes(&s, FilterType::PPID, "1");
    let pids: Vec<u32> = r.iter().map(|p| p.pid).collect();
    assert_eq!(pids, vec![1234, 50]);
    assert_eq!(filter_processes(&s, FilterType::PPID, "one").len(), 0);
}

#[test]
fn filter_by_user_substring() {
    let s = sample();
    let r = filter_processes(&s, FilterType::USER, "o");
    let pids: Vec<u32> = r.iter().map(|p| p.pid).collect();
    assert_eq!(pids, vec![1, 50]);
    let all = filter_processes(&s, FilterType::USER, "");
    assert_eq!(all.len(), 3);
    assert_eq!(filter_processes(&s, FilterType::USER, "ROOT").len(), 0);
}

#[test]
fn filter_by_status_substring() {
    let s = sample();
    let r = filter_processes(&s, FilterType::STATUS, "Sle");
    let pids: Vec<u32> = r.iter().map(|p| p.pid).collect();
    assert_eq!(pids, vec![1, 50]);
    assert!(matches_filter(&rec(9, None, None, ProcStatus::Unknown(12)), FilterType::STATUS, "Unknown(12)"));
    assert!(!matches_filter(&s[0], FilterType::STATUS, "sleep"));
}

#[test]
fn filter_state_applies_and_clears() {
    let s = sample();
    let mut st = FilterState::cleared();
    assert_eq!(apply(&s, &st).len(), 4);
    st.set(FilterType::PID, "77".to_string());
    let r = apply(&s, &st);
    assert_eq!(r.len(), 1);
    assert_eq!(r[0].pid, 77);
    st.clear();
    assert!(st.filter_type.is_none());
    assert_eq!(apply(&s, &st).len(), 4);
}

#[test]
fn tree_covers_every_pid_once() {
    let s = vec![
        rec(30, Some(1), None, ProcStatus::Run),
        rec(1, Some(0), None, ProcStatus::Run),
        rec(20, Some(1), None, ProcStatus::Run),
        rec(40, Some(20), None, ProcStatus::Run),
        rec(10, Some(1), None, ProcStatus::Run),
    ];
    let f = build_process_tree(&s);
    assert_eq!(f.roots, vec![1]);
    let kids: Vec<u32> = f.children[1].iter().map(|&i| s[i].pid).collect();
    assert_eq!(kids, vec![10, 20, 30]);
    assert_eq!(f.children[2], vec![3]);
    let mut seen: Vec<usize> = f.roots.clone();
    for c in &f.children {
        seen.extend(c.iter().copied());
    }
    seen.sort();
    assert_eq!(seen, vec![0, 1, 2, 3, 4]);
    assert!(f.malformed.is_empty());
}

#[test]
fn tree_orphan_is_root() {
    let s = vec![
        rec(5, Some(999), None, ProcStatus::Run),
        rec(6, Some(5), None, ProcStatus::Run),
        rec(2, None, None, ProcStatus::Run),
    ];
    let f = build_process_tree(&s);
    assert_eq!(f.roots, vec![2, 0]);
    assert_eq!(f.children[0], vec![1]);
    assert!(f.malformed.is_empty());
}

#[test]
fn tree_cycle_is_reported() {
    let s = vec![
        rec(10, Some(20), None, ProcStatus::Run),
        rec(20, Some(10), None, ProcStatus::Run),
        rec(30, Some(10), None, ProcStatus::Run),
    ];
    let f = build_process_tree(&s);
    assert_eq!(f.malformed, vec![20]);
    assert_eq!(f.roots, vec![1]);
    assert_eq!(f.children[1], vec![0]);
    assert_eq!(f.children[0], vec![2]);
}

#[test]
fn tree_self_parent_is_reported() {
    let s = vec![rec(8, Some(8), None, ProcStatus::Run)];
    let f = build_process_tree(&s);
    assert_eq!(f.malformed, vec![8]);
    assert_eq!(f.roots, vec![0]);
}

#[test]
fn tree_empty_snapshot() {
    let f = build_process_tree(&[]);
    assert!(f.roots.is_empty());
    assert!(f.children.is_empty());
}

#[test]
fn generation_strictly_increases() {
    let mut st = SnapshotStore::new();
    assert_eq!(st.latest.generation, 0);
    assert!(st.publish(RefreshResult::Captured { records: sample(), captured_at: 100 }));
    let g1 = st.latest.generation;
    assert!(!st.publish(RefreshResult::EnumerationError));
    assert_eq!(st.latest.generation, g1);
    assert_eq!(st.latest.records.len(), 4);
    assert!(st.publish(RefreshResult::Captured { records: vec![], captured_at: 101 }));
    assert!(g1 < st.latest.generation);
    assert_eq!(st.latest.captured_at, 101);
}

#[test]
fn paused_scheduler_never_enumerates() {
    let mut calls = 0;
    let flags = [(true, false), (true, true), (true, true), (true, true), (true, false), (false, false)];
    let mut during_pause = 0;
    for (running, paused) in flags {
        match on_tick(running, paused) {
            TickAction::Refresh => {
                calls += 1;
                if paused {
                    during_pause += 1;
                }
            }
            TickAction::Skip => assert!(paused),
            TickAction::Stop => assert!(!running),
        }
    }
    assert_eq!(calls, 2);
    assert_eq!(during_pause, 0);
}

#[test]
fn unique_pid_check() {
    assert!(pids_unique(&sample()));
    let mut s = sample();
    s.push(rec(50, None, None, ProcStatus::Run));
    assert!(!pids_unique(&s));
}

#[test]
fn escalation_decisions() {
    let me = Some("alice".to_string());
    assert!(needs_sudo(-5, &Some("bob".to_string()), &me, Some(0)));
    assert!(!needs_sudo(10, &Some("alice".to_string()), &me, Some(0)));
    assert!(needs_sudo(-5, &Some("alice".to_string()), &me, Some(0)));
    assert!(needs_sudo(3, &Some("alice".to_string()), &me, Some(5)));
    assert!(needs_sudo(3, &None, &me, None));
    assert!(needs_sudo(3, &Some("alice".to_string()), &None, None));
    assert!(!needs_sudo(3, &Some("alice".to_string()), &me, None));
}

#[test]
fn verification_mismatch_scenario() {
    let o = verify_priority(Some(0), 5, false, Some(0));
    match o {
        PriorityOutcome::VerificationMismatch { old, requested, actual, escalated } => {
            assert_eq!((old, requested, actual, escalated), (0, 5, 0, false));
        }
        _ => panic!("expected a mismatch"),
    }
    assert_eq!(
        priority_message(42, "sh", &o),
        "Priority change verification failed.\nPrevious: 0\nRequested: 5\nCurrent: 0\nThe change was not applied as expected."
    );
    let hinted = verify_priority(None, 5, true, Some(0));
    assert!(priority_message(42, "sh", &hinted).ends_with("This might be due to insufficient permissions. Try with sudo."));
}

#[test]
fn verification_success_and_read_error() {
    let o = verify_priority(Some(2), 5, true, Some(5));
    assert_eq!(
        priority_message(42, "sh", &o),
        "Priority successfully changed from 2 to 5 for process 42 (sh)\nUsed sudo renice"
    );
    let e = verify_priority(Some(2), 5, false, None);
    assert!(matches!(e, PriorityOutcome::VerificationReadError));
    assert_eq!(priority_message(42, "sh", &e), "Failed to verify new nice value");
    let d = PriorityOutcome::PermissionDenied { message: "denied".to_string(), escalated: false };
    assert_eq!(
        priority_message(42, "sh", &d),
        "Failed to change priority: denied\nNote: Sufficient privileges are required for this operation."
    );
}

#[test]
fn terminate_vanished_target() {
    let mut signals = 0;
    match on_confirmed(false) {
        SignalStep::Send => signals += 1,
        SignalStep::Report(o) => assert_eq!(o, SignalOutcome::ProcessNotFound),
    }
    assert_eq!(signals, 0);
    assert_eq!(on_confirmed(true), SignalStep::Send);
    assert_eq!(
        signal_message(ControlAction::Terminate, 77, "sleep", SignalOutcome::ProcessNotFound),
        "Process 77 (sleep) not found."
    );
}

#[test]
fn signal_results() {
    assert_eq!(on_signal_result(true), SignalOutcome::Sent);
    assert_eq!(on_signal_result(false), SignalOutcome::PermissionDenied);
    assert_eq!(
        signal_message(ControlAction::Suspend, 9, "vim", SignalOutcome::Sent),
        "Pause signal sent to PID 9 (vim)"
    );
    assert_eq!(
        signal_message(ControlAction::Resume, 9, "vim", SignalOutcome::PermissionDenied),
        "Failed to send Resume signal to PID 9 (vim)"
    );
}

#[test]
fn renice_command_lines() {
    assert_eq!(renice_args(42, -5, true), vec!["sudo", "renice", "-5", "-p", "42"]);
    assert_eq!(renice_args(42, 10, false), vec!["renice", "10", "-p", "42"]);
}

#[test]
fn event_queue_keeps_submission_order() {
    let mut q: EventQueue<u32> = EventQueue::new();
    assert_eq!(q.len(), 0);
    q.submit(3);
    q.submit(1);
    q.submit(2);
    assert_eq!(q.len(), 3);
    assert_eq!(q.drain(), vec![3, 1, 2]);
    assert_eq!(q.len(), 0);
    assert!(q.drain().is_empty());
}
