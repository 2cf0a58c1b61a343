use std::cmp::Ordering;

use procmon::cli::{
    command_line, csv_row, find_pid_text, parse_command, restart_plan, table_row, watch_line, watch_step,
    CliCommand, RestartPlan, WatchEvent,
};
use procmon::columns::{
    center_line, compare_text, create_nice_values_list, fit_to_width, rank_by_cpu, uptime_long_text, uptime_text,
    BasicColumn,
};
use procmon::record::{ProcStatus, Process};
use procmon::sampling::{model_name, nice_from_stat, owner_label, parse_i32, split_fields, split_on, trim_text};
use procmon::drawing::format_process_tree;
use procmon::tree::build_process_tree;

fn rec(pid: u32, ppid: Option<u32>, cmd: &str, cpu: u32) -> Process {
    Process {
        pid,
        ppid,
        user: Some("alice".to_string()),
        cpu,
        mem: 2048,
        cmd: cmd.to_string(),
        start_time: 3661,
        process_state: ProcStatus::Run,
        priority: -3,
    }
}

fn rejected(c: CliCommand) -> String {
    match c {
        CliCommand::Rejected(m) => m,
        other => panic!("expected a rejection, got {:?}", other),
    }
}

#[test]
fn signed_literals() {
    assert_eq!(parse_i32("-5"), Some(-5));
    assert_eq!(parse_i32("+19"), Some(19));
    assert_eq!(parse_i32("-2147483648"), Some(i32::MIN));
    assert_eq!(parse_i32("2147483648"), None);
    assert_eq!(parse_i32("-"), None);
    assert_eq!(parse_i32("1-"), None);
}

#[test]
fn whitespace_fields() {
    assert_eq!(split_fields("  a bb\tccc \n"), vec!["a", "bb", "ccc"]);
    assert!(split_fields("   ").is_empty());
    assert_eq!(split_fields("x\u{3000}y"), vec!["x", "y"]);
}

#[test]
fn nice_from_proc_stat() {
    let line = "1234 (bash) S 1 1234 1234 34816 1234 4194560 1000 0 0 0 10 5 0 0 20 -5 1 0 100 1000 200";
    assert_eq!(nice_from_stat(line), Some(-5));
    assert_eq!(nice_from_stat("1 (init) S 1"), None);
    let bad = "1 (x) S 1 1 1 1 1 1 1 1 1 1 1 1 1 1 20 zz 1";
    assert_eq!(nice_from_stat(bad), None);
}

#[test]
fn owner_labels() {
    assert_eq!(owner_label(Some(1000), Some("alice".to_string())), "alice");
    assert_eq!(owner_label(Some(1000), None), "uid:1000");
    assert_eq!(owner_label(None, Some("alice".to_string())), "unknown");
}

#[test]
fn cell_texts() {
    let p = Process { cpu: 1234, mem: 1536, ppid: None, user: None, ..rec(42, Some(1), "bash", 0) };
    assert_eq!(p.to_column(BasicColumn::PID), "42");
    assert_eq!(p.to_column(BasicColumn::PPID), "N/A");
    assert_eq!(p.to_column(BasicColumn::USER), "N/A");
    assert_eq!(p.to_column(BasicColumn::CPU), "12.34");
    assert_eq!(p.to_column(BasicColumn::MEM), "1.50");
    assert_eq!(p.to_column(BasicColumn::CMD), "bash");
    assert_eq!(p.to_column(BasicColumn::START), "01:01:01");
    assert_eq!(p.to_column(BasicColumn::STATUS), "Run");
    assert_eq!(p.to_column(BasicColumn::PRIORITY), "-3");
    let late = Process { start_time: u64::MAX, ..rec(1, None, "x", 5) };
    assert_eq!(late.to_column(BasicColumn::START), "00:00:00");
    assert_eq!(late.to_column(BasicColumn::CPU), "0.05");
    let evening = Process { start_time: 86399, ..rec(1, None, "x", 5) };
    assert_eq!(evening.to_column(BasicColumn::START), "23:59:59");
}

#[test]
fn column_orders() {
    let a = rec(1, None, "bash", 10);
    let b = Process { user: None, process_state: ProcStatus::Sleep, ..rec(2, Some(1), "awk", 20) };
    assert_eq!(a.cmp(&b, BasicColumn::PID), Ordering::Less);
    assert_eq!(a.cmp(&b, BasicColumn::PPID), Ordering::Less);
    assert_eq!(a.cmp(&b, BasicColumn::USER), Ordering::Greater);
    assert_eq!(a.cmp(&b, BasicColumn::CPU), Ordering::Less);
    assert_eq!(a.cmp(&b, BasicColumn::MEM), Ordering::Equal);
    assert_eq!(a.cmp(&b, BasicColumn::CMD), Ordering::Greater);
    assert_eq!(a.cmp(&b, BasicColumn::STATUS), Ordering::Less);
    assert_eq!(compare_text("ab", "abc"), Ordering::Less);
    assert_eq!(compare_text("b", "abc"), Ordering::Greater);
    assert_eq!(compare_text("", ""), Ordering::Equal);
}

#[test]
fn ranking_by_cpu() {
    let s = vec![rec(1, None, "a", 5), rec(2, None, "b", 50), rec(3, None, "c", 5), rec(4, None, "d", 70)];
    assert_eq!(rank_by_cpu(&s), vec![3, 1, 0, 2]);
    assert!(rank_by_cpu(&[]).is_empty());
}

#[test]
fn nice_menu() {
    let l = create_nice_values_list();
    assert_eq!(l.len(), 40);
    assert_eq!(l[0], ("-20 (Higher Priority - Requires Root)".to_string(), -20));
    assert_eq!(l[15], (" -5 (Higher Priority - Requires Root)".to_string(), -5));
    assert_eq!(l[20], ("  0 (Default)".to_string(), 0));
    assert_eq!(l[39], (" 19 (Lower Priority)".to_string(), 19));
}

#[test]
fn centring_and_fitting() {
    assert_eq!(center_line("abc", 9), "   abc");
    assert_eq!(center_line("abc", 2), "abc");
    assert_eq!(fit_to_width("abc", 5), "abc  ");
    assert_eq!(fit_to_width("abcdef", 3), "abc");
    assert_eq!(uptime_text(90061), "1d 01h 01m");
    assert_eq!(uptime_long_text(90061), "1d 1h 1m 1s");
}

#[test]
fn tree_text_drawing() {
    let s = vec![rec(1, Some(0), "init", 0), rec(3, Some(1), "b", 0), rec(2, Some(1), "a", 0), rec(4, Some(2), "c", 0)];
    let f = build_process_tree(&s);
    assert_eq!(
        format_process_tree(&s, &f),
        "└── init (1)\n    ├── a (2)\n    │   └── c (4)\n    └── b (3)\n"
    );
}

#[test]
fn command_words() {
    assert!(matches!(parse_command("   "), CliCommand::Empty));
    assert!(matches!(parse_command(" ExIt "), CliCommand::Exit));
    assert!(matches!(parse_command("exit now"), CliCommand::Unknown(w) if w == "exit"));
    assert!(matches!(parse_command("get_os"), CliCommand::GetOs));
    assert!(matches!(parse_command("ptable"), CliCommand::Ptable(None)));
    assert!(matches!(parse_command("ptable out.csv"), CliCommand::Ptable(Some(p)) if p == "out.csv"));
    assert!(matches!(parse_command("change_nice 12 -4"), CliCommand::ChangeNice { pid: 12, niceness: -4 }));
    assert!(matches!(parse_command("change_nice 12 x"), CliCommand::ChangeNice { pid: 12, niceness: 0 }));
    assert_eq!(rejected(parse_command("change_nice 12")), "Usage: change_nice <pid> <niceness>");
    assert_eq!(rejected(parse_command("change_nice abc 3")), "Invalid PID.");
    assert!(matches!(parse_command("kill 77"), CliCommand::Kill(p) if p == "77"));
    assert_eq!(rejected(parse_command("log")), "Usage: log <pid>");
    assert!(matches!(parse_command("pause 9"), CliCommand::Pause(9)));
    assert!(matches!(parse_command("resume 9"), CliCommand::Resume(9)));
    assert_eq!(rejected(parse_command("pause x")), "Invalid PID.");
    assert_eq!(rejected(parse_command("resume")), "Usage: resume <pid>");
    assert!(matches!(parse_command("track_process 5 a.csv 10"),
        CliCommand::TrackProcess { target, path, duration_secs: 10 } if target == "5" && path == "a.csv"));
    assert_eq!(rejected(parse_command("track_process 5 a.csv 0")), "Invalid duration. Please enter a positive integer.");
    assert!(matches!(parse_command("get_process_command 3"), CliCommand::GetProcessCommand(3)));
    assert_eq!(rejected(parse_command("restart_if_failed 0")), "Invalid PID. Please enter a valid process ID.");
    assert!(matches!(parse_command("tui"), CliCommand::Tui));
    assert!(matches!(parse_command("dance"), CliCommand::Unknown(w) if w == "dance"));
}

#[test]
fn restart_decisions() {
    let initial = vec![(5, "sleep 100".to_string()), (6, String::new()), (5, "other".to_string())];
    let current = vec![(7, "x".to_string())];
    assert!(matches!(restart_plan(9, &initial, &current), RestartPlan::NotInInitialTable));
    assert!(matches!(restart_plan(5, &initial, &[(5, "y".to_string())]), RestartPlan::AlreadyRunning));
    assert!(matches!(restart_plan(5, &initial, &current), RestartPlan::Restart(c) if c == "sleep 100"));
    assert!(matches!(restart_plan(6, &initial, &current), RestartPlan::NoCommand));
}

#[test]
fn command_lines() {
    assert_eq!(command_line(&["ls".to_string(), "-l".to_string()]), "ls -l");
    assert_eq!(command_line(&[]), "[no command]");
    assert_eq!(command_line(&[String::new()]), "[no command]");
}

#[test]
fn pid_text_lookup() {
    assert_eq!(find_pid_text(&[3, 45, 45], "45"), Some(1));
    assert_eq!(find_pid_text(&[3, 45], "045"), None);
}

#[test]
fn watch_log() {
    assert_eq!(watch_step("Run", Some("Run")), WatchEvent::Unchanged);
    assert_eq!(watch_step("Run", Some("Sleep")), WatchEvent::StatusChanged);
    assert_eq!(watch_step("Run", None), WatchEvent::Terminated);
    assert_eq!(watch_line("t0", 4, WatchEvent::Unchanged, ""), "[t0] Process 4 created");
    assert_eq!(watch_line("t1", 4, WatchEvent::StatusChanged, "Sleep"), "[t1] Status of Process 4 changed to: Sleep");
    assert_eq!(watch_line("t2", 4, WatchEvent::Terminated, ""), "[t2] Process 4 terminated");
}

#[test]
fn listing_rows() {
    assert_eq!(csv_row(7, "bash", 150, 4096, ProcStatus::Sleep), "7,bash,1.50,4096,Sleep");
    let row = table_row(7, "bash", 150, 4, ProcStatus::Run);
    assert_eq!(row, format!("{:<10} {:<45} {:<10} {:<15} {:<10}", "7", "bash", "1.50", "4", "Run"));
}

#[test]
fn splitting_and_trimming() {
    assert_eq!(split_on("a::b", ':'), vec!["a", "", "b"]);
    assert_eq!(split_on("", ':'), vec![""]);
    assert_eq!(trim_text("  x y \t"), "x y");
    assert_eq!(trim_text("   "), "");
}

#[test]
fn cpu_model_name() {
    let info = "processor\t: 0\nvendor_id\t: GenuineIntel\nmodel name\t: Intel(R) Core(TM) i7 CPU @ 2.80GHz\nmodel name\t: other\n";
    assert_eq!(model_name(info), Some("Intel(R) Core(TM) i7 CPU @ 2.80GHz".to_string()));
    assert_eq!(model_name("model name\t: A: B\n"), Some("A".to_string()));
    assert_eq!(model_name("model name without colon\nmodel name: later\n"), None);
    assert_eq!(model_name("processor: 0\n"), None);
}
