//! Turning what the system reports about a process into record fields.

use vstd::prelude::*;
use crate::text::{decimal, all_digits, digits_value, push_char, push_decimal, parse_digits};

verus! {

/// Unicode white space, as `char::is_whitespace` documents it.
pub open spec fn is_space(c: char) -> bool {
    ||| ('\u{9}' <= c && c <= '\u{d}')
    ||| c == ' '
    ||| c == '\u{85}'
    ||| c == '\u{a0}'
    ||| c == '\u{1680}'
    ||| ('\u{2000}' <= c && c <= '\u{200a}')
    ||| c == '\u{2028}'
    ||| c == '\u{2029}'
    ||| c == '\u{202f}'
    ||| c == '\u{205f}'
    ||| c == '\u{3000}'
}

fn space(c: char) -> (r: bool)
    ensures
        r == is_space(c),
{
    ('\u{9}' <= c && c <= '\u{d}') || c == ' ' || c == '\u{85}' || c == '\u{a0}' || c == '\u{1680}'
        || ('\u{2000}' <= c && c <= '\u{200a}') || c == '\u{2028}' || c == '\u{2029}' || c == '\u{202f}'
        || c == '\u{205f}' || c == '\u{3000}'
}

/// The maximal runs of non-space characters of `s`, in order.
pub open spec fn fields(s: Seq<char>) -> Seq<Seq<char>>
    decreases s.len(),
{
    if s.len() == 0 {
        seq![]
    } else {
        let f = fields(s.drop_last());
        let c = s.last();
        if is_space(c) {
            f
        } else if s.len() >= 2 && !is_space(s[s.len() - 2]) {
            f.drop_last().push(f.last().push(c))
        } else {
            f.push(seq![c])
        }
    }
}

/// What a signed 32-bit decimal literal denotes: an optional sign, then at least one
/// digit, with a value in range.
pub open spec fn parse_i32_spec(s: Seq<char>) -> Option<i32> {
    let neg = s.len() > 0 && s[0] == '-';
    let d = if s.len() > 0 && (s[0] == '-' || s[0] == '+') { s.drop_first() } else { s };
    let v: int = if neg { -(digits_value(d) as int) } else { digits_value(d) as int };
    if d.len() > 0 && all_digits(d) && i32::MIN <= v && v <= i32::MAX {
        Some(v as i32)
    } else {
        None
    }
}

/// The niceness in a `/proc/<pid>/stat` line: its nineteenth field, when there is one
/// and it is a number.
pub open spec fn stat_nice(s: Seq<char>) -> Option<i32> {
    if fields(s).len() > 18 { parse_i32_spec(fields(s)[18]) } else { None }
}

/// The views of a sequence of strings.
pub open spec fn views(v: Seq<String>) -> Seq<Seq<char>> {
    v.map_values(|t: String| t@)
}

/// Splits `s` at white space.
pub fn split_fields(s: &str) -> (r: Vec<String>)
    ensures
        views(r@) == fields(s@),
{
    let n = s.unicode_len();
    let mut done: Vec<String> = Vec::new();
    let mut cur = String::new();
    let mut in_field = false;
    let mut i: usize = 0;
    while i < n
        invariant
            n == s@.len(),
            i <= n,
            in_field == (i > 0 && !is_space(s@[i - 1])),
            fields(s@.subrange(0, i as int)) == views(done@) + (if in_field { seq![cur@] } else { seq![] }),
        decreases n - i,
    {
        let c = s.get_char(i);
        let ghost pre = s@.subrange(0, i as int);
        let ghost next = s@.subrange(0, i + 1);
        assert(next.drop_last() =~= pre);
        assert(next.last() == c);
        let sp = space(c);
        let ghost f = fields(pre);
        if sp {
            assert(fields(next) == f);
            if in_field {
                let ghost before = done@;
                let finished = cur;
                done.push(finished);
                cur = String::new();
                assert(views(done@) =~= views(before) + seq![finished@]);
            }
            in_field = false;
            assert(fields(next) =~= views(done@));
        } else {
            if in_field {
                assert(next[next.len() - 2] == s@[i - 1]);
                assert(f =~= views(done@) + seq![cur@]);
                assert(fields(next) == f.drop_last().push(f.last().push(c)));
                assert(f.drop_last() =~= views(done@));
                assert(f.last() == cur@);
                push_char(&mut cur, c);
                assert(fields(next) =~= views(done@) + seq![cur@]);
            } else {
                if i > 0 {
                    assert(next[next.len() - 2] == s@[i - 1]);
                }
                assert(f =~= views(done@));
                assert(fields(next) == f.push(seq![c]));
                cur = String::new();
                push_char(&mut cur, c);
                assert(fields(next) =~= views(done@) + seq![cur@]);
            }
            in_field = true;
        }
        i = i + 1;
    }
    if in_field {
        let ghost before = done@;
        let finished = cur;
        done.push(finished);
        assert(views(done@) =~= views(before) + seq![finished@]);
    }
    assert(s@.subrange(0, n as int) =~= s@);
    assert(views(done@) =~= fields(s@));
    done
}

/// Parses a signed 32-bit decimal literal.
pub fn parse_i32(s: &str) -> (r: Option<i32>)
    ensures
        r == parse_i32_spec(s@),
{
    let n = s.unicode_len();
    let mut start: usize = 0;
    let mut neg = false;
    if n > 0 {
        let c = s.get_char(0);
        if c == '-' {
            neg = true;
            start = 1;
        } else if c == '+' {
            start = 1;
        }
    }
    let ghost d = s@.subrange(start as int, n as int);
    assert(d =~= (if n > 0 && (s@[0] == '-' || s@[0] == '+') { s@.drop_first() } else { s@ }));
    let limit: u64 = if neg { 2147483648 } else { 2147483647 };
    match parse_digits(s, start, limit) {
        Some(v) => {
            if neg {
                Some((0 - (v as i64)) as i32)
            } else {
                Some(v as i32)
            }
        },
        None => None,
    }
}

/// The niceness recorded in the text of a `/proc/<pid>/stat` file.
pub fn nice_from_stat(contents: &str) -> (r: Option<i32>)
    ensures
        r == stat_nice(contents@),
{
    let f = split_fields(contents);
    if f.len() > 18 {
        assert(f@[18]@ == views(f@)[18]);
        parse_i32(f[18].as_str())
    } else {
        None
    }
}

/// The owner shown for a process: the user's name when the system knows it, `uid:<n>`
/// when it knows only the user id, `unknown` when it knows neither.
pub open spec fn owner_label_spec(uid: Option<u32>, name: Option<Seq<char>>) -> Seq<char> {
    match uid {
        None => "unknown"@,
        Some(u) => match name {
            Some(n) => n,
            None => "uid:"@ + decimal(u as nat),
        },
    }
}

/// The owner shown for a process with user id `uid`, whose name lookup gave `name`.
pub fn owner_label(uid: Option<u32>, name: Option<String>) -> (r: String)
    ensures
        r@ == owner_label_spec(uid, match name { Some(n) => Some(n@), None => None }),
{
    match uid {
        None => String::from_str("unknown"),
        Some(u) => match name {
            Some(n) => n,
            None => {
                let mut s = String::from_str("uid:");
                push_decimal(&mut s, u as u64);
                s
            },
        },
    }
}

/// The pieces of `s` between occurrences of `sep`, empty ones included.
pub open spec fn pieces(s: Seq<char>, sep: char) -> Seq<Seq<char>>
    decreases s.len(),
{
    if s.len() == 0 {
        seq![seq![]]
    } else {
        let p = pieces(s.drop_last(), sep);
        if s.last() == sep {
            p.push(seq![])
        } else {
            p.drop_last().push(p.last().push(s.last()))
        }
    }
}

/// Splits `s` at each `sep`, keeping empty pieces.
pub fn split_on(s: &str, sep: char) -> (r: Vec<String>)
    ensures
        views(r@) == pieces(s@, sep),
{
    let n = s.unicode_len();
    let mut done: Vec<String> = Vec::new();
    let mut cur = String::new();
    let mut i: usize = 0;
    while i < n
        invariant
            n == s@.len(),
            i <= n,
            pieces(s@.subrange(0, i as int), sep) == views(done@) + seq![cur@],
        decreases n - i,
    {
        let c = s.get_char(i);
        let ghost pre = s@.subrange(0, i as int);
        let ghost next = s@.subrange(0, i + 1);
        assert(next.drop_last() =~= pre);
        assert(next.last() == c);
        let ghost before = done@;
        let ghost p = pieces(pre, sep);
        if c == sep {
            let finished = cur;
            done.push(finished);
            cur = String::new();
            assert(views(done@) =~= views(before) + seq![finished@]);
            assert(pieces(next, sep) =~= views(done@) + seq![cur@]);
        } else {
            assert(p.drop_last() =~= views(done@));
            push_char(&mut cur, c);
            assert(pieces(next, sep) =~= views(done@) + seq![cur@]);
        }
        i = i + 1;
    }
    let ghost before = done@;
    let last = cur;
    done.push(last);
    assert(views(done@) =~= views(before) + seq![last@]);
    assert(s@.subrange(0, n as int) =~= s@);
    done
}

/// `s` without leading white space.
pub open spec fn trim_start(s: Seq<char>) -> Seq<char>
    decreases s.len(),
{
    if s.len() > 0 && is_space(s[0]) { trim_start(s.drop_first()) } else { s }
}

/// `s` without trailing white space.
pub open spec fn trim_end(s: Seq<char>) -> Seq<char>
    decreases s.len(),
{
    if s.len() > 0 && is_space(s.last()) { trim_end(s.drop_last()) } else { s }
}

/// `s` without white space at either end.
pub open spec fn trimmed(s: Seq<char>) -> Seq<char> {
    trim_end(trim_start(s))
}

/// `s` without white space at either end.
pub fn trim_text(s: &str) -> (r: String)
    ensures
        r@ == trimmed(s@),
{
    let n = s.unicode_len();
    let mut a: usize = 0;
    assert(s@.subrange(0, n as int) =~= s@);
    while a < n && space(s.get_char(a))
        invariant
            n == s@.len(),
            a <= n,
            trim_start(s@) == trim_start(s@.subrange(a as int, n as int)),
        decreases n - a,
    {
        assert(s@.subrange(a as int, n as int).drop_first() =~= s@.subrange(a + 1, n as int));
        a = a + 1;
    }
    assert(trim_start(s@) == s@.subrange(a as int, n as int)) by {
        assert(s@.subrange(0, n as int) =~= s@);
    }
    let mut b: usize = n;
    while b > a && space(s.get_char(b - 1))
        invariant
            n == s@.len(),
            a <= b <= n,
            trimmed(s@) == trim_end(s@.subrange(a as int, b as int)),
        decreases b - a,
    {
        assert(s@.subrange(a as int, b as int).drop_last() =~= s@.subrange(a as int, b - 1));
        b = b - 1;
    }
    let t = s.substring_char(a, b);
    String::from_str(t)
}

/// `p` begins with `s`.
pub open spec fn starts_with(s: Seq<char>, p: Seq<char>) -> bool {
    p.len() <= s.len() && s.subrange(0, p.len() as int) == p
}

fn has_prefix(s: &str, p: &str) -> (r: bool)
    ensures
        r == starts_with(s@, p@),
{
    let n = s.unicode_len();
    let m = p.unicode_len();
    if m > n {
        return false;
    }
    let mut k: usize = 0;
    while k < m
        invariant
            n == s@.len(),
            m == p@.len(),
            m <= n,
            k <= m,
            forall|j: int| 0 <= j < k ==> s@[j] == p@[j],
        decreases m - k,
    {
        if s.get_char(k) != p.get_char(k) {
            assert(s@.subrange(0, m as int)[k as int] != p@[k as int]);
            return false;
        }
        k = k + 1;
    }
    assert(s@.subrange(0, m as int) =~= p@);
    true
}

/// The index of the first line of `lines` that starts with `p`, if any.
pub open spec fn first_starting_with(lines: Seq<Seq<char>>, p: Seq<char>) -> Option<int> {
    if exists|k: int| 0 <= k < lines.len() && starts_with(#[trigger] lines[k], p) {
        Some(choose|k: int| 0 <= k < lines.len() && starts_with(#[trigger] lines[k], p)
            && forall|j: int| 0 <= j < k ==> !starts_with(#[trigger] lines[j], p))
    } else {
        None
    }
}

/// The processor model named in the text of `/proc/cpuinfo`: on the first line that
/// starts with `model name`, what stands between its first colon and the next one
/// (or the line's end), without surrounding white space. `None` when there is no such
/// line or it has no colon.
pub open spec fn model_name_spec(cpuinfo: Seq<char>) -> Option<Seq<char>> {
    let lines = pieces(cpuinfo, '\n');
    match first_starting_with(lines, "model name"@) {
        Some(k) => if pieces(lines[k], ':').len() > 1 { Some(trimmed(pieces(lines[k], ':')[1])) } else { None },
        None => None,
    }
}

/// The processor model named in the text of `/proc/cpuinfo`.
pub fn model_name(cpuinfo: &str) -> (r: Option<String>)
    ensures
        match r {
            Some(m) => model_name_spec(cpuinfo@) == Some(m@),
            None => model_name_spec(cpuinfo@) is None,
        },
{
    let lines = split_on(cpuinfo, '\n');
    let ghost ls = pieces(cpuinfo@, '\n');
    assert(ls.len() == lines@.len());
    assert forall|k: int| 0 <= k < lines@.len() implies #[trigger] ls[k] == lines@[k]@ by {
        assert(views(lines@)[k] == lines@[k]@);
    }
    let mut k: usize = 0;
    while k < lines.len()
        invariant
            ls == pieces(cpuinfo@, '\n'),
            ls.len() == lines@.len(),
            k <= lines@.len(),
            forall|k: int| 0 <= k < lines@.len() ==> #[trigger] ls[k] == lines@[k]@,
            forall|j: int| 0 <= j < k ==> !starts_with(#[trigger] ls[j], "model name"@),
        decreases lines@.len() - k,
    {
        if has_prefix(lines[k].as_str(), "model name") {
            proof {
                assert(ls[k as int] == lines@[k as int]@);
                assert(starts_with(ls[k as int], "model name"@));
                assert(exists|m: int| 0 <= m < ls.len() && starts_with(#[trigger] ls[m], "model name"@));
                let c = choose|m: int| 0 <= m < ls.len() && starts_with(#[trigger] ls[m], "model name"@)
                    && forall|j: int| 0 <= j < m ==> !starts_with(#[trigger] ls[j], "model name"@);
                if c < k {
                    assert(!starts_with(ls[c], "model name"@));
                }
                if c > k {
                    assert(!starts_with(ls[k as int], "model name"@));
                }
                assert(first_starting_with(ls, "model name"@) == Some(k as int));
            }
            let parts = split_on(lines[k].as_str(), ':');
            let ghost pk = pieces(ls[k as int], ':');
            assert(views(parts@) == pk);
            assert(pk.len() == parts@.len());
            if parts.len() > 1 {
                let m = trim_text(parts[1].as_str());
                assert(pk[1] == parts@[1]@);
                assert(model_name_spec(cpuinfo@) == Some(trimmed(pk[1])));
                return Some(m);
            } else {
                assert(model_name_spec(cpuinfo@) is None);
                return None;
            }
        }
        k = k + 1;
    }
    None
}

} // verus!
