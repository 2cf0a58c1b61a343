//! Table columns: the text of each cell and the order of records by a column.

use vstd::prelude::*;
use core::cmp::Ordering;
use crate::record::{Process, status_label};
use crate::tree::is_permutation;
use crate::text::{decimal, signed_decimal, two_digits, push_decimal, push_signed, push_two_digits, push_char};

verus! {

/// A column of the process table.
#[derive(Copy, Clone, Debug, PartialEq, Eq, Hash, Structural)]
pub enum BasicColumn {
    PID,
    PPID,
    USER,
    CPU,
    MEM,
    CMD,
    START,
    STATUS,
    PRIORITY,
}

/// The latest start time, in seconds since the epoch, that is shown as a time of day;
/// later ones show as midnight.
pub const MAX_CLOCK_SECS: u64 = 8_000_000_000_000;

/// `HH:MM:SS` of the UTC time of day at `secs` seconds after the epoch.
pub open spec fn time_of_day(secs: nat) -> Seq<char> {
    two_digits((secs % 86400) / 3600) + ":"@ + two_digits((secs % 3600) / 60) + ":"@ + two_digits(secs % 60)
}

/// Relies on chrono's `DateTime::from_timestamp` and its `%H:%M:%S` format: within
/// chrono's date range, the UTC time of day with two digits for each part.
#[verifier::external_body]
fn clock_text(secs: u64) -> (r: String)
    requires
        secs <= MAX_CLOCK_SECS,
    ensures
        r@ == time_of_day(secs as nat),
{
    match chrono::DateTime::from_timestamp(secs as i64, 0) {
        Some(d) => d.format("%H:%M:%S").to_string(),
        None => String::new(),
    }
}

/// A quantity in hundredths shown with two decimals.
pub open spec fn hundredths(h: nat) -> Seq<char> {
    decimal(h / 100) + "."@ + two_digits(h % 100)
}

/// Memory in KiB as hundredths of a MiB, rounded to nearest.
pub open spec fn mem_hundredths(kib: nat) -> nat {
    (kib * 100 + 512) / 1024
}

/// The text of the cell of `p` in column `c`.
pub open spec fn cell(p: Process, c: BasicColumn) -> Seq<char> {
    match c {
        BasicColumn::PID => decimal(p.pid as nat),
        BasicColumn::PPID => match p.ppid {
            Some(q) => decimal(q as nat),
            None => "N/A"@,
        },
        BasicColumn::USER => match p.user {
            Some(u) => u@,
            None => "N/A"@,
        },
        BasicColumn::CPU => hundredths(p.cpu as nat),
        BasicColumn::MEM => hundredths(mem_hundredths(p.mem as nat)),
        BasicColumn::CMD => p.cmd@,
        BasicColumn::START => if p.start_time <= MAX_CLOCK_SECS {
            time_of_day(p.start_time as nat)
        } else {
            time_of_day(0)
        },
        BasicColumn::STATUS => status_label(p.process_state),
        BasicColumn::PRIORITY => signed_decimal(p.priority as int),
    }
}

/// Lexicographic order of character sequences, by code point.
pub open spec fn lex_order(a: Seq<char>, b: Seq<char>) -> Ordering
    decreases a.len(),
{
    if a.len() == 0 {
        if b.len() == 0 { Ordering::Equal } else { Ordering::Less }
    } else if b.len() == 0 {
        Ordering::Greater
    } else if a[0] < b[0] {
        Ordering::Less
    } else if a[0] > b[0] {
        Ordering::Greater
    } else {
        lex_order(a.drop_first(), b.drop_first())
    }
}

/// The order of two integers.
pub open spec fn int_order(a: int, b: int) -> Ordering {
    if a < b { Ordering::Less } else if a > b { Ordering::Greater } else { Ordering::Equal }
}

/// The order of two optional pids: an absent one first.
pub open spec fn opt_order(a: Option<u32>, b: Option<u32>) -> Ordering {
    match (a, b) {
        (None, None) => Ordering::Equal,
        (None, Some(_)) => Ordering::Less,
        (Some(_), None) => Ordering::Greater,
        (Some(x), Some(y)) => int_order(x as int, y as int),
    }
}

/// The order of two optional names: an absent one first.
pub open spec fn opt_text_order(a: Option<String>, b: Option<String>) -> Ordering {
    match (a, b) {
        (None, None) => Ordering::Equal,
        (None, Some(_)) => Ordering::Less,
        (Some(_), None) => Ordering::Greater,
        (Some(x), Some(y)) => lex_order(x@, y@),
    }
}

/// The order of two records by column `c`.
pub open spec fn column_order(p: Process, q: Process, c: BasicColumn) -> Ordering {
    match c {
        BasicColumn::PID => int_order(p.pid as int, q.pid as int),
        BasicColumn::PPID => opt_order(p.ppid, q.ppid),
        BasicColumn::USER => opt_text_order(p.user, q.user),
        BasicColumn::CPU => int_order(p.cpu as int, q.cpu as int),
        BasicColumn::MEM => int_order(p.mem as int, q.mem as int),
        BasicColumn::CMD => lex_order(p.cmd@, q.cmd@),
        BasicColumn::START => int_order(p.start_time as int, q.start_time as int),
        BasicColumn::STATUS => lex_order(status_label(p.process_state), status_label(q.process_state)),
        BasicColumn::PRIORITY => int_order(p.priority as int, q.priority as int),
    }
}

fn compare_ints(a: i64, b: i64) -> (r: Ordering)
    ensures
        r == int_order(a as int, b as int),
{
    if a < b {
        Ordering::Less
    } else if a > b {
        Ordering::Greater
    } else {
        Ordering::Equal
    }
}

fn compare_wide(a: u64, b: u64) -> (r: Ordering)
    ensures
        r == int_order(a as int, b as int),
{
    if a < b {
        Ordering::Less
    } else if a > b {
        Ordering::Greater
    } else {
        Ordering::Equal
    }
}

/// Lexicographic comparison of two strings, by code point.
pub fn compare_text(a: &str, b: &str) -> (r: Ordering)
    ensures
        r == lex_order(a@, b@),
{
    let al = a.unicode_len();
    let bl = b.unicode_len();
    let mut i: usize = 0;
    assert(a@.subrange(0, al as int) =~= a@);
    assert(b@.subrange(0, bl as int) =~= b@);
    while i < al && i < bl
        invariant
            al == a@.len(),
            bl == b@.len(),
            i <= al,
            i <= bl,
            lex_order(a@, b@) == lex_order(a@.subrange(i as int, al as int), b@.subrange(i as int, bl as int)),
        decreases al - i,
    {
        let x = a.get_char(i);
        let y = b.get_char(i);
        let ghost sa = a@.subrange(i as int, al as int);
        let ghost sb = b@.subrange(i as int, bl as int);
        assert(sa[0] == x);
        assert(sb[0] == y);
        if x < y {
            return Ordering::Less;
        }
        if x > y {
            return Ordering::Greater;
        }
        assert(sa.drop_first() =~= a@.subrange(i + 1, al as int));
        assert(sb.drop_first() =~= b@.subrange(i + 1, bl as int));
        i = i + 1;
    }
    let ghost sa = a@.subrange(i as int, al as int);
    let ghost sb = b@.subrange(i as int, bl as int);
    if i < bl {
        assert(sa.len() == 0);
        Ordering::Less
    } else if i < al {
        assert(sb.len() == 0);
        Ordering::Greater
    } else {
        assert(sa.len() == 0 && sb.len() == 0);
        Ordering::Equal
    }
}

fn push_hundredths(out: &mut String, h: u64)
    ensures
        final(out)@ == old(out)@ + hundredths(h as nat),
{
    push_decimal(out, h / 100);
    out.append(".");
    push_two_digits(out, h % 100);
    assert(final(out)@ =~= old(out)@ + hundredths(h as nat));
}

impl Process {
    /// The text of this record's cell in `column`.
    pub fn to_column(&self, column: BasicColumn) -> (r: String)
        ensures
            r@ == cell(*self, column),
    {
        let mut s = String::new();
        match column {
            BasicColumn::PID => push_decimal(&mut s, self.pid as u64),
            BasicColumn::PPID => match self.ppid {
                Some(q) => push_decimal(&mut s, q as u64),
                None => s.append("N/A"),
            },
            BasicColumn::USER => match &self.user {
                Some(u) => s.append(u.as_str()),
                None => s.append("N/A"),
            },
            BasicColumn::CPU => push_hundredths(&mut s, self.cpu as u64),
            BasicColumn::MEM => {
                let h: u128 = ((self.mem as u128) * 100 + 512) / 1024;
                assert(h <= u64::MAX) by (nonlinear_arith)
                    requires h == ((self.mem as u128) * 100 + 512) / 1024, self.mem <= u64::MAX;
                push_hundredths(&mut s, h as u64);
            },
            BasicColumn::CMD => s.append(self.cmd.as_str()),
            BasicColumn::START => {
                let secs = if self.start_time <= MAX_CLOCK_SECS { self.start_time } else { 0 };
                let t = clock_text(secs);
                s.append(t.as_str());
            },
            BasicColumn::STATUS => {
                let l = self.process_state.label();
                s.append(l.as_str());
            },
            BasicColumn::PRIORITY => push_signed(&mut s, self.priority as i64),
        }
        assert(s@ =~= cell(*self, column));
        s
    }

    /// The order of this record and `other` by `column`.
    pub fn cmp(&self, other: &Process, column: BasicColumn) -> (r: Ordering)
        ensures
            r == column_order(*self, *other, column),
    {
        match column {
            BasicColumn::PID => compare_ints(self.pid as i64, other.pid as i64),
            BasicColumn::PPID => match (self.ppid, other.ppid) {
                (None, None) => Ordering::Equal,
                (None, Some(_)) => Ordering::Less,
                (Some(_), None) => Ordering::Greater,
                (Some(x), Some(y)) => compare_ints(x as i64, y as i64),
            },
            BasicColumn::USER => match (&self.user, &other.user) {
                (None, None) => Ordering::Equal,
                (None, Some(_)) => Ordering::Less,
                (Some(_), None) => Ordering::Greater,
                (Some(x), Some(y)) => compare_text(x.as_str(), y.as_str()),
            },
            BasicColumn::CPU => compare_ints(self.cpu as i64, other.cpu as i64),
            BasicColumn::MEM => compare_wide(self.mem, other.mem),
            BasicColumn::CMD => compare_text(self.cmd.as_str(), other.cmd.as_str()),
            BasicColumn::START => compare_wide(self.start_time, other.start_time),
            BasicColumn::STATUS => {
                let a = self.process_state.label();
                let b = other.process_state.label();
                compare_text(a.as_str(), b.as_str())
            },
            BasicColumn::PRIORITY => compare_ints(self.priority as i64, other.priority as i64),
        }
    }
}

/// Position `a` comes before position `b` when ranking by CPU: higher usage first,
/// ties in their original order.
pub open spec fn cpu_before(records: Seq<Process>, a: usize, b: usize) -> bool {
    records[a as int].cpu > records[b as int].cpu || (records[a as int].cpu == records[b as int].cpu && a < b)
}

/// The positions of the records, busiest first; records with equal usage keep their order.
pub fn rank_by_cpu(records: &[Process]) -> (r: Vec<usize>)
    ensures
        is_permutation(r@, records@.len()),
        forall|a: int, b: int| 0 <= a < b < r@.len() ==> cpu_before(records@, #[trigger] r@[a], #[trigger] r@[b]),
{
    let n = records.len();
    let mut order: Vec<usize> = Vec::new();
    let mut i: usize = 0;
    while i < n
        invariant
            n == records@.len(),
            i <= n,
            is_permutation(order@, i as nat),
            forall|a: int, b: int| 0 <= a < b < order@.len() ==> cpu_before(records@, #[trigger] order@[a], #[trigger] order@[b]),
        decreases n - i,
    {
        let key = records[i].cpu;
        let mut pos: usize = 0;
        while pos < order.len() && records[order[pos]].cpu >= key
            invariant
                n == records@.len(),
                i < n,
                pos <= order@.len(),
                forall|k: int| 0 <= k < order@.len() ==> #[trigger] order@[k] < i,
                forall|k: int| 0 <= k < pos ==> records@[#[trigger] order@[k] as int].cpu >= key,
            decreases order@.len() - pos,
        {
            pos = pos + 1;
        }
        let ghost old_order = order@;
        order.insert(pos, i);
        proof {
            old_order.insert_ensures(pos as int, i);
            let s2 = order@;
            assert forall|k: int| 0 <= k < s2.len() implies #[trigger] s2[k] < i + 1 by {
                if k > pos {
                    assert(s2[k] == old_order[k - 1]);
                }
            }
            assert forall|x: usize| x < i + 1 implies #[trigger] s2.contains(x) by {
                if x == i {
                    assert(s2[pos as int] == x);
                } else {
                    assert(old_order.contains(x));
                    let j = choose|j: int| 0 <= j < old_order.len() && old_order[j] == x;
                    if j < pos {
                        assert(s2[j] == x);
                    } else {
                        assert(s2[j + 1] == x);
                    }
                }
            }
            assert forall|a: int, b: int| 0 <= a < s2.len() && 0 <= b < s2.len() && a != b implies s2[a] != s2[b] by {
                let a0 = if a < pos { a } else { a - 1 };
                let b0 = if b < pos { b } else { b - 1 };
                if a != pos {
                    assert(s2[a] == old_order[a0]);
                }
                if b != pos {
                    assert(s2[b] == old_order[b0]);
                }
            }
            assert forall|a: int, b: int| 0 <= a < b < s2.len()
                implies cpu_before(records@, #[trigger] s2[a], #[trigger] s2[b]) by {
                let a0 = if a < pos { a } else { a - 1 };
                let b0 = if b < pos { b } else { b - 1 };
                if a != pos && b != pos {
                    assert(s2[a] == old_order[a0]);
                    assert(s2[b] == old_order[b0]);
                } else if a == pos {
                    assert(s2[b] == old_order[b0]);
                    assert(records@[old_order[pos as int] as int].cpu < key);
                    if b0 > pos {
                        assert(cpu_before(records@, old_order[pos as int], old_order[b0]));
                    }
                } else {
                    assert(s2[a] == old_order[a0]);
                    assert(records@[old_order[a0] as int].cpu >= key);
                }
            }
        }
        i = i + 1;
    }
    order
}

/// The lowest niceness, which is the highest scheduling priority.
pub const NICE_MIN: i32 = -20;
/// The highest niceness, which is the lowest scheduling priority.
pub const NICE_MAX: i32 = 19;

/// `s` padded with spaces on the left to at least `w` characters.
pub open spec fn pad_left(s: Seq<char>, w: nat) -> Seq<char> {
    if s.len() >= w { s } else { Seq::new((w - s.len()) as nat, |i: int| ' ') + s }
}

/// The menu entry for niceness `n`: the value right-aligned in three places and what it means.
pub open spec fn nice_entry(n: int) -> Seq<char> {
    pad_left(signed_decimal(n), 3) + " "@ + (if n < 0 {
        "(Higher Priority - Requires Root)"@
    } else if n > 0 {
        "(Lower Priority)"@
    } else {
        "(Default)"@
    })
}

fn nice_entry_text(n: i32) -> (r: String)
    ensures
        r@ == nice_entry(n as int),
{
    let mut v = String::new();
    push_signed(&mut v, n as i64);
    let len = v.as_str().unicode_len();
    let mut s = String::new();
    let mut k: usize = len;
    while k < 3
        invariant
            len == v@.len(),
            k >= len,
            len < 3 ==> k <= 3,
            len >= 3 ==> k == len,
            s@ == Seq::new((k - len) as nat, |i: int| ' '),
        decreases 3 - k,
    {
        push_char(&mut s, ' ');
        k = k + 1;
        assert(s@ =~= Seq::new((k - len) as nat, |i: int| ' '));
    }
    s.append(v.as_str());
    assert(s@ =~= pad_left(signed_decimal(n as int), 3)) by {
        if len >= 3 {
            assert(k == len);
        } else {
            assert(k == 3);
        }
    }
    s.append(" ");
    if n < 0 {
        s.append("(Higher Priority - Requires Root)");
    } else if n > 0 {
        s.append("(Lower Priority)");
    } else {
        s.append("(Default)");
    }
    assert(s@ =~= nice_entry(n as int));
    s
}

/// The menu of niceness values, from -20 to 19, each with its entry text.
pub fn create_nice_values_list() -> (r: Vec<(String, i32)>)
    ensures
        r@.len() == 40,
        forall|k: int| 0 <= k < 40 ==> (#[trigger] r@[k]).1 == k - 20 && r@[k].0@ == nice_entry(k - 20),
{
    let mut out: Vec<(String, i32)> = Vec::new();
    let mut n: i32 = NICE_MIN;
    while n <= NICE_MAX
        invariant
            -20 <= n <= 20,
            out@.len() == n + 20,
            forall|k: int| 0 <= k < out@.len() ==> (#[trigger] out@[k]).1 == k - 20 && out@[k].0@ == nice_entry(k - 20),
        decreases 20 - n,
    {
        let t = nice_entry_text(n);
        out.push((t, n));
        n = n + 1;
    }
    out
}

/// `s` centred in `width` columns: half the spare width, rounded down, as spaces before it.
pub open spec fn centered(s: Seq<char>, width: nat) -> Seq<char> {
    let pad: nat = if width > s.len() { ((width - s.len()) / 2) as nat } else { 0 };
    Seq::new(pad, |i: int| ' ') + s
}

/// `line` centred in `width` columns.
pub fn center_line(line: &str, width: usize) -> (r: String)
    ensures
        r@ == centered(line@, width as nat),
{
    let len = line.unicode_len();
    let pad: usize = if width > len { (width - len) / 2 } else { 0 };
    let mut s = String::new();
    let mut k: usize = 0;
    while k < pad
        invariant
            k <= pad,
            s@ == Seq::new(k as nat, |i: int| ' '),
        decreases pad - k,
    {
        push_char(&mut s, ' ');
        k = k + 1;
        assert(s@ =~= Seq::new(k as nat, |i: int| ' '));
    }
    s.append(line);
    assert(s@ =~= centered(line@, width as nat));
    s
}

/// `s` made exactly `width` characters wide: padded with spaces, or cut.
pub open spec fn fitted(s: Seq<char>, width: nat) -> Seq<char> {
    if s.len() < width { s + Seq::new((width - s.len()) as nat, |i: int| ' ') } else { s.subrange(0, width as int) }
}

/// `line` made exactly `width` characters wide.
pub fn fit_to_width(line: &str, width: usize) -> (r: String)
    ensures
        r@ == fitted(line@, width as nat),
        r@.len() == width,
{
    let len = line.unicode_len();
    if len < width {
        let mut s = String::from_str(line);
        let mut k: usize = len;
        while k < width
            invariant
                len == line@.len(),
                len <= k <= width,
                s@ == line@ + Seq::new((k - len) as nat, |i: int| ' '),
            decreases width - k,
        {
            push_char(&mut s, ' ');
            k = k + 1;
            assert(s@ =~= line@ + Seq::new((k - len) as nat, |i: int| ' '));
        }
        s
    } else {
        let cut = line.substring_char(0, width);
        String::from_str(cut)
    }
}

/// Uptime as days, then hours and minutes with two digits each.
pub open spec fn uptime_spec(secs: nat) -> Seq<char> {
    decimal(secs / 86400) + "d "@ + two_digits((secs % 86400) / 3600) + "h "@ + two_digits((secs % 3600) / 60) + "m"@
}

/// Uptime in the form `3d 04h 05m`.
pub fn uptime_text(secs: u64) -> (r: String)
    ensures
        r@ == uptime_spec(secs as nat),
{
    let mut s = String::new();
    push_decimal(&mut s, secs / 86400);
    s.append("d ");
    push_two_digits(&mut s, (secs % 86400) / 3600);
    s.append("h ");
    push_two_digits(&mut s, (secs % 3600) / 60);
    s.append("m");
    assert(s@ =~= uptime_spec(secs as nat));
    s
}

/// Uptime with every part, unpadded.
pub open spec fn uptime_long_spec(secs: nat) -> Seq<char> {
    decimal(secs / 86400) + "d "@ + decimal((secs % 86400) / 3600) + "h "@ + decimal((secs % 3600) / 60) + "m "@
        + decimal(secs % 60) + "s"@
}

/// Uptime in the form `3d 4h 5m 6s`.
pub fn uptime_long_text(secs: u64) -> (r: String)
    ensures
        r@ == uptime_long_spec(secs as nat),
{
    let mut s = String::new();
    push_decimal(&mut s, secs / 86400);
    s.append("d ");
    push_decimal(&mut s, (secs % 86400) / 3600);
    s.append("h ");
    push_decimal(&mut s, (secs % 3600) / 60);
    s.append("m ");
    push_decimal(&mut s, secs % 60);
    s.append("s");
    assert(s@ =~= uptime_long_spec(secs as nat));
    s
}

} // verus!
