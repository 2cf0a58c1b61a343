//! The filter engine: a pure predicate over process records.

use vstd::prelude::*;
use crate::record::{Process, status_label, unique_pids, copy_records};
use crate::text::{parse_u32, parse_u32_spec, contains_text, has_infix};

verus! {

/// What a filter looks at.
#[derive(Clone, Copy, Debug, PartialEq, Eq, Structural)]
pub enum FilterType {
    /// The pid, exactly.
    PID,
    /// The parent pid, exactly.
    PPID,
    /// A substring of the owning user's name.
    USER,
    /// A substring of the status name.
    STATUS,
}

/// The active filter, if any: a kind and the text typed for it.
#[derive(Clone, Debug)]
pub struct FilterState {
    pub filter_type: Option<FilterType>,
    pub filter_value: String,
}

impl FilterState {
    /// No filter active.
    pub fn cleared() -> (r: FilterState)
        ensures
            r.filter_type.is_none(),
            r.filter_value@.len() == 0,
    {
        FilterState { filter_type: None, filter_value: String::new() }
    }

    /// Activates a filter of kind `kind` on `value`.
    pub fn set(&mut self, kind: FilterType, value: String)
        ensures
            final(self).filter_type == Some(kind),
            final(self).filter_value@ == value@,
    {
        self.filter_type = Some(kind);
        self.filter_value = value;
    }

    /// Clears the filter.
    pub fn clear(&mut self)
        ensures
            final(self).filter_type.is_none(),
            final(self).filter_value@.len() == 0,
    {
        self.filter_type = None;
        self.filter_value = String::new();
    }
}

/// Whether record `p` passes a filter of kind `t` on the text `v`. Exact kinds need
/// `v` to be a decimal number; text that is none matches nothing.
pub open spec fn record_matches(p: Process, t: FilterType, v: Seq<char>) -> bool {
    match t {
        FilterType::PID => match parse_u32_spec(v) {
            Some(x) => p.pid == x,
            None => false,
        },
        FilterType::PPID => match parse_u32_spec(v) {
            Some(x) => p.ppid == Some(x),
            None => false,
        },
        FilterType::USER => match p.user {
            Some(u) => has_infix(u@, v),
            None => false,
        },
        FilterType::STATUS => has_infix(status_label(p.process_state), v),
    }
}

/// The records of `s` that pass the filter, in their order.
pub open spec fn filtered(s: Seq<Process>, t: FilterType, v: Seq<char>) -> Seq<Process> {
    s.filter(|p: Process| record_matches(p, t, v))
}

/// The view a filter state gives of `s`: everything when no filter is active.
pub open spec fn applied(s: Seq<Process>, f: FilterState) -> Seq<Process> {
    match f.filter_type {
        Some(t) => filtered(s, t, f.filter_value@),
        None => s,
    }
}

/// Whether one record passes a filter of kind `filter_type` on `filter_value`.
pub fn matches_filter(process: &Process, filter_type: FilterType, filter_value: &str) -> (r: bool)
    ensures
        r == record_matches(*process, filter_type, filter_value@),
{
    match filter_type {
        FilterType::PID => match parse_u32(filter_value) {
            Some(x) => process.pid == x,
            None => false,
        },
        FilterType::PPID => match parse_u32(filter_value) {
            Some(x) => match process.ppid {
                Some(p) => p == x,
                None => false,
            },
            None => false,
        },
        FilterType::USER => match &process.user {
            Some(u) => contains_text(u.as_str(), filter_value),
            None => false,
        },
        FilterType::STATUS => {
            let label = process.process_state.label();
            contains_text(label.as_str(), filter_value)
        },
    }
}

/// The records that pass a filter of kind `filter_type` on `filter_value`, in order.
pub fn filter_processes(processes: &[Process], filter_type: FilterType, filter_value: &str) -> (r: Vec<Process>)
    ensures
        r@ == filtered(processes@, filter_type, filter_value@),
{
    let ghost pred = |p: Process| record_matches(p, filter_type, filter_value@);
    let mut out: Vec<Process> = Vec::new();
    let mut i: usize = 0;
    while i < processes.len()
        invariant
            i <= processes@.len(),
            pred == (|p: Process| record_matches(p, filter_type, filter_value@)),
            out@ == processes@.subrange(0, i as int).filter(pred),
        decreases processes@.len() - i,
    {
        let ghost pre = processes@.subrange(0, i as int);
        let keep = matches_filter(&processes[i], filter_type, filter_value);
        if keep {
            out.push(processes[i].duplicate());
        }
        proof {
            let next = processes@.subrange(0, i + 1);
            assert(next.drop_last() =~= pre);
            assert(next.last() == processes@[i as int]);
            reveal(Seq::filter);
        }
        i = i + 1;
    }
    assert(processes@.subrange(0, processes@.len() as int) =~= processes@);
    out
}

/// The view that `state` gives of `processes`.
pub fn apply(processes: &[Process], state: &FilterState) -> (r: Vec<Process>)
    ensures
        r@ == applied(processes@, *state),
{
    match state.filter_type {
        Some(t) => filter_processes(processes, t, state.filter_value.as_str()),
        None => copy_records(processes),
    }
}

/// A pid filter keeps exactly the records with that pid, at most one when pids are
/// unique, and nothing at all when the text is not a decimal number.
pub proof fn lemma_pid_filter(s: Seq<Process>, v: Seq<char>)
    requires
        unique_pids(s),
    ensures
        parse_u32_spec(v) is None ==> filtered(s, FilterType::PID, v).len() == 0,
        forall|p: Process| #[trigger] filtered(s, FilterType::PID, v).contains(p)
            <==> (s.contains(p) && parse_u32_spec(v) == Some(p.pid)),
        filtered(s, FilterType::PID, v).len() <= 1,
{
    let pred = |p: Process| record_matches(p, FilterType::PID, v);
    let f = s.filter(pred);
    assert forall|p: Process| #[trigger] f.contains(p) <==> (s.contains(p) && parse_u32_spec(v) == Some(p.pid)) by {
        if f.contains(p) {
            let k = choose|k: int| 0 <= k < f.len() && f[k] == p;
            s.lemma_filter_pred(pred, k);
            s.lemma_filter_contains_rev(pred, p);
        }
        if s.contains(p) && parse_u32_spec(v) == Some(p.pid) {
            let j = choose|j: int| 0 <= j < s.len() && s[j] == p;
            s.lemma_filter_contains(pred, j);
        }
    }
    if parse_u32_spec(v) is None {
        if f.len() > 0 {
            s.lemma_filter_pred(pred, 0);
        }
    }
    lemma_filter_unique(s, pred);
    if f.len() > 1 {
        assert(f.contains(f[0]));
        assert(f.contains(f[1]));
        assert(f[0].pid == f[1].pid);
        assert(f[0] != f[1]);
    }
}

/// Filtering a sequence with unique pids leaves a sequence with unique pids.
pub proof fn lemma_filter_unique(s: Seq<Process>, pred: spec_fn(Process) -> bool)
    requires
        unique_pids(s),
    ensures
        unique_pids(s.filter(pred)),
        forall|p: Process| #[trigger] s.filter(pred).contains(p) ==> s.contains(p),
    decreases s.len(),
{
    reveal(Seq::filter);
    if s.len() > 0 {
        let rest = s.drop_last();
        assert(unique_pids(rest));
        lemma_filter_unique(rest, pred);
        let fr = rest.filter(pred);
        if pred(s.last()) {
            assert forall|k: int| 0 <= k < fr.len() implies #[trigger] fr[k].pid != s.last().pid by {
                assert(fr.contains(fr[k]));
                let j = choose|j: int| 0 <= j < rest.len() && rest[j] == fr[k];
                assert(s[j] == rest[j]);
                assert(s[s.len() - 1] == s.last());
            }
            let f = fr.push(s.last());
            assert forall|p: Process| #[trigger] f.contains(p) implies s.contains(p) by {
                if p != s.last() {
                    let j = choose|j: int| 0 <= j < f.len() && f[j] == p;
                    assert(fr.contains(fr[j]));
                    let m = choose|m: int| 0 <= m < rest.len() && rest[m] == fr[j];
                    assert(s[m] == rest[m]);
                } else {
                    assert(s[s.len() - 1] == p);
                }
            }
            assert(unique_pids(f));
        } else {
            assert forall|p: Process| #[trigger] fr.contains(p) implies s.contains(p) by {
                let m = choose|m: int| 0 <= m < rest.len() && rest[m] == p;
                assert(s[m] == rest[m]);
            }
        }
    }
}

} // verus!
