//! The command executor's decisions: when to escalate, what to run, and how the
//! result of a control action is judged and reported.

use vstd::prelude::*;
use crate::text::{decimal, signed_decimal, push_decimal, push_signed, push_char};

verus! {

/// A signal-based control action.
#[derive(Clone, Copy, Debug, PartialEq, Eq, Structural)]
pub enum ControlAction {
    Terminate,
    Suspend,
    Resume,
}

/// The verb under which an action is shown to the operator.
pub open spec fn action_label(a: ControlAction) -> Seq<char> {
    match a {
        ControlAction::Terminate => "Kill"@,
        ControlAction::Suspend => "Pause"@,
        ControlAction::Resume => "Resume"@,
    }
}

impl ControlAction {
    pub fn label(&self) -> (r: String)
        ensures
            r@ == action_label(*self),
    {
        match self {
            ControlAction::Terminate => String::from_str("Kill"),
            ControlAction::Suspend => String::from_str("Pause"),
            ControlAction::Resume => String::from_str("Resume"),
        }
    }
}

/// What comes of a confirmed signal action.
#[derive(Clone, Copy, Debug, PartialEq, Eq, Structural)]
pub enum SignalOutcome {
    /// The signal was delivered.
    Sent,
    /// The system refused the signal.
    PermissionDenied,
    /// The target had exited before the action ran.
    ProcessNotFound,
}

/// What the executor does once the operator has confirmed a signal action.
#[derive(Clone, Copy, Debug, PartialEq, Eq, Structural)]
pub enum SignalStep {
    /// Deliver the signal.
    Send,
    /// Deliver nothing and report this outcome.
    Report(SignalOutcome),
}

/// The step after confirmation: the signal goes out only to a target that is still
/// present; a vanished target is reported as not found.
pub fn on_confirmed(present: bool) -> (r: SignalStep)
    ensures
        r == (if present { SignalStep::Send } else { SignalStep::Report(SignalOutcome::ProcessNotFound) }),
{
    if present {
        SignalStep::Send
    } else {
        SignalStep::Report(SignalOutcome::ProcessNotFound)
    }
}

/// The outcome of a delivery attempt, from the system's yes/no answer.
pub fn on_signal_result(sent: bool) -> (r: SignalOutcome)
    ensures
        r == (if sent { SignalOutcome::Sent } else { SignalOutcome::PermissionDenied }),
{
    if sent {
        SignalOutcome::Sent
    } else {
        SignalOutcome::PermissionDenied
    }
}

/// The text that confirms, or reports the failure of, a signal action.
pub open spec fn signal_message_spec(a: ControlAction, pid: u32, cmd: Seq<char>, o: SignalOutcome) -> Seq<char> {
    match o {
        SignalOutcome::Sent => action_label(a) + " signal sent to PID "@ + decimal(pid as nat) + " ("@ + cmd + ")"@,
        SignalOutcome::PermissionDenied =>
            "Failed to send "@ + action_label(a) + " signal to PID "@ + decimal(pid as nat) + " ("@ + cmd + ")"@,
        SignalOutcome::ProcessNotFound => "Process "@ + decimal(pid as nat) + " ("@ + cmd + ") not found."@,
    }
}

/// The operator's notice for a signal action on `pid` running `cmd`.
pub fn signal_message(action: ControlAction, pid: u32, cmd: &str, outcome: SignalOutcome) -> (r: String)
    ensures
        r@ == signal_message_spec(action, pid, cmd@, outcome),
{
    let mut s = String::new();
    match outcome {
        SignalOutcome::Sent => {
            let l = action.label();
            s.append(l.as_str());
            s.append(" signal sent to PID ");
        },
        SignalOutcome::PermissionDenied => {
            let l = action.label();
            s.append("Failed to send ");
            s.append(l.as_str());
            s.append(" signal to PID ");
        },
        SignalOutcome::ProcessNotFound => {
            s.append("Process ");
        },
    }
    push_decimal(&mut s, pid as u64);
    s.append(" (");
    s.append(cmd);
    match outcome {
        SignalOutcome::ProcessNotFound => s.append(") not found."),
        _ => s.append(")"),
    }
    proof {
        assert(s@ =~= signal_message_spec(action, pid, cmd@, outcome));
    }
    s
}

/// A priority change needs the elevated path when the requested niceness is
/// negative, when the process's owner is unknown or differs from the invoking user,
/// or when it is below the current niceness.
pub open spec fn needs_escalation(nice: i32, owner: Option<Seq<char>>, me: Option<Seq<char>>, current: Option<i32>) -> bool {
    ||| nice < 0
    ||| match owner {
            Some(u) => me != Some(u),
            None => true,
        }
    ||| match current {
            Some(c) => nice < c,
            None => false,
        }
}

/// The view of an optional string.
pub open spec fn opt_view(s: Option<String>) -> Option<Seq<char>> {
    match s {
        Some(x) => Some(x@),
        None => None,
    }
}

/// Whether setting niceness `nice_value` on a process owned by `process_user` needs the
/// elevated path, for the invoking user `current_user` and the current niceness.
pub fn needs_sudo(nice_value: i32, process_user: &Option<String>, current_user: &Option<String>, current_nice: Option<i32>) -> (r: bool)
    ensures
        r == needs_escalation(nice_value, opt_view(*process_user), opt_view(*current_user), current_nice),
{
    let other_owner = match process_user {
        Some(u) => match current_user {
            Some(me) => !(*u == *me),
            None => true,
        },
        None => true,
    };
    let raising = match current_nice {
        Some(c) => nice_value < c,
        None => false,
    };
    nice_value < 0 || other_owner || raising
}

/// The command line that sets niceness `nice_value` on `pid`, through `sudo` when escalated.
pub open spec fn renice_command(pid: u32, nice: i32, escalate: bool) -> Seq<Seq<char>> {
    let base = seq!["renice"@, signed_decimal(nice as int), "-p"@, decimal(pid as nat)];
    if escalate { seq!["sudo"@] + base } else { base }
}

/// The program and arguments that set niceness `nice_value` on `pid`.
pub fn renice_args(pid: u32, nice_value: i32, escalate: bool) -> (r: Vec<String>)
    ensures
        r@.len() == renice_command(pid, nice_value, escalate).len(),
        forall|k: int| 0 <= k < r@.len() ==> #[trigger] r@[k]@ == renice_command(pid, nice_value, escalate)[k],
{
    let mut args: Vec<String> = Vec::new();
    if escalate {
        args.push(String::from_str("sudo"));
    }
    args.push(String::from_str("renice"));
    let mut n = String::new();
    push_signed(&mut n, nice_value as i64);
    args.push(n);
    args.push(String::from_str("-p"));
    let mut p = String::new();
    push_decimal(&mut p, pid as u64);
    args.push(p);
    proof {
        let c = renice_command(pid, nice_value, escalate);
        if escalate {
            assert(args@[0]@ == c[0]);
            assert(args@[1]@ == c[1]);
            assert(args@[2]@ =~= c[2]);
            assert(args@[3]@ == c[3]);
            assert(args@[4]@ =~= c[4]);
        } else {
            assert(args@[0]@ == c[0]);
            assert(args@[1]@ =~= c[1]);
            assert(args@[2]@ == c[2]);
            assert(args@[3]@ =~= c[3]);
        }
    }
    args
}

/// How a priority change ended.
#[derive(Clone, Debug)]
pub enum PriorityOutcome {
    /// The re-read niceness is the one requested.
    Changed { old: i32, new: i32, escalated: bool },
    /// The system accepted the call but the re-read niceness differs.
    VerificationMismatch { old: i32, requested: i32, actual: i32, escalated: bool },
    /// The niceness could not be read back.
    VerificationReadError,
    /// The system rejected the call, with its message.
    PermissionDenied { message: String, escalated: bool },
}

/// The verdict on an accepted priority change from the niceness read back after it;
/// an unknown previous niceness counts as 0.
pub open spec fn verdict(old: Option<i32>, requested: i32, escalated: bool, reread: Option<i32>) -> PriorityOutcome {
    let prev = match old {
        Some(v) => v,
        None => 0,
    };
    match reread {
        Some(a) => if a == requested {
            PriorityOutcome::Changed { old: prev, new: a, escalated }
        } else {
            PriorityOutcome::VerificationMismatch { old: prev, requested, actual: a, escalated }
        },
        None => PriorityOutcome::VerificationReadError,
    }
}

/// Judges an accepted priority change by the niceness read back after it.
pub fn verify_priority(old: Option<i32>, requested: i32, escalated: bool, reread: Option<i32>) -> (r: PriorityOutcome)
    ensures
        r == verdict(old, requested, escalated, reread),
{
    let prev = match old {
        Some(v) => v,
        None => 0,
    };
    match reread {
        Some(a) => {
            if a == requested {
                PriorityOutcome::Changed { old: prev, new: a, escalated }
            } else {
                PriorityOutcome::VerificationMismatch { old: prev, requested, actual: a, escalated }
            }
        },
        None => PriorityOutcome::VerificationReadError,
    }
}

/// The operator's notice for a priority change on `pid` running `cmd`.
pub open spec fn priority_message_spec(pid: u32, cmd: Seq<char>, o: PriorityOutcome) -> Seq<char> {
    match o {
        PriorityOutcome::Changed { old, new, escalated } =>
            "Priority successfully changed from "@ + signed_decimal(old as int) + " to "@
                + signed_decimal(new as int) + " for process "@ + decimal(pid as nat) + " ("@ + cmd
                + ")\nUsed "@ + (if escalated { "sudo"@ } else { "regular"@ }) + " renice"@,
        PriorityOutcome::VerificationMismatch { old, requested, actual, escalated } =>
            "Priority change verification failed.\nPrevious: "@ + signed_decimal(old as int)
                + "\nRequested: "@ + signed_decimal(requested as int) + "\nCurrent: "@
                + signed_decimal(actual as int) + "\n"@
                + (if escalated && actual != requested {
                    "This might be due to insufficient permissions. Try with sudo."@
                } else {
                    "The change was not applied as expected."@
                }),
        PriorityOutcome::VerificationReadError => "Failed to verify new nice value"@,
        PriorityOutcome::PermissionDenied { message, escalated } =>
            "Failed to change priority: "@ + message@ + "\nNote: "@
                + (if escalated { "Root"@ } else { "Sufficient"@ })
                + " privileges are required for this operation."@,
    }
}

/// The operator's notice for a priority change.
pub fn priority_message(pid: u32, cmd: &str, outcome: &PriorityOutcome) -> (r: String)
    ensures
        r@ == priority_message_spec(pid, cmd@, *outcome),
{
    let mut s = String::new();
    match outcome {
        PriorityOutcome::Changed { old, new, escalated } => {
            s.append("Priority successfully changed from ");
            push_signed(&mut s, *old as i64);
            s.append(" to ");
            push_signed(&mut s, *new as i64);
            s.append(" for process ");
            push_decimal(&mut s, pid as u64);
            s.append(" (");
            s.append(cmd);
            s.append(")\nUsed ");
            if *escalated {
                s.append("sudo");
            } else {
                s.append("regular");
            }
            s.append(" renice");
        },
        PriorityOutcome::VerificationMismatch { old, requested, actual, escalated } => {
            s.append("Priority change verification failed.\nPrevious: ");
            push_signed(&mut s, *old as i64);
            s.append("\nRequested: ");
            push_signed(&mut s, *requested as i64);
            s.append("\nCurrent: ");
            push_signed(&mut s, *actual as i64);
            s.append("\n");
            if *escalated && *actual != *requested {
                s.append("This might be due to insufficient permissions. Try with sudo.");
            } else {
                s.append("The change was not applied as expected.");
            }
        },
        PriorityOutcome::VerificationReadError => {
            s.append("Failed to verify new nice value");
        },
        PriorityOutcome::PermissionDenied { message, escalated } => {
            s.append("Failed to change priority: ");
            s.append(message.as_str());
            s.append("\nNote: ");
            if *escalated {
                s.append("Root");
            } else {
                s.append("Sufficient");
            }
            s.append(" privileges are required for this operation.");
        },
    }
    proof {
        assert(s@ =~= priority_message_spec(pid, cmd@, *outcome));
    }
    s
}

} // verus!
