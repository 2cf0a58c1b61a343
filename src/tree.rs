//! The tree builder: the parent/child forest of a snapshot, held as indices into
//! the snapshot's records.

use vstd::prelude::*;
use crate::record::{Process, has_pid, find_pid, unique_pids};

verus! {

/// Following parent links from `i` reaches a node without a parent in at most
/// `fuel` steps.
pub open spec fn reaches_root(parent: Seq<Option<usize>>, i: int, fuel: nat) -> bool
    decreases fuel,
{
    0 <= i < parent.len() && match parent[i] {
        None => true,
        Some(j) => fuel > 0 && reaches_root(parent, j as int, (fuel - 1) as nat),
    }
}

/// Every node reaches a root: the parent links form no cycle.
pub open spec fn acyclic(parent: Seq<Option<usize>>) -> bool {
    forall|i: int| 0 <= i < parent.len() ==> #[trigger] reaches_root(parent, i, parent.len() as nat)
}

/// Every link points inside the sequence.
pub open spec fn links_in_range(parent: Seq<Option<usize>>) -> bool {
    forall|i: int| 0 <= i < parent.len() && #[trigger] parent[i] is Some ==> parent[i]->0 < parent.len()
}

/// Record `x` names a nonzero parent pid that some record of the snapshot has.
pub open spec fn resolvable(records: Seq<Process>, x: int) -> bool {
    match records[x].ppid {
        Some(q) => q != 0 && has_pid(records, q),
        None => false,
    }
}

/// Each link goes from a record to a record with the pid it names as its parent.
pub open spec fn links_match(records: Seq<Process>, parent: Seq<Option<usize>>) -> bool {
    &&& parent.len() == records.len()
    &&& links_in_range(parent)
    &&& forall|x: int| 0 <= x < parent.len() && #[trigger] parent[x] is Some ==>
            records[x].ppid == Some(records[parent[x]->0 as int].pid) && records[x].ppid != Some(0u32)
}

proof fn lemma_reaches_mono(p: Seq<Option<usize>>, i: int, f: nat, g: nat)
    requires
        reaches_root(p, i, f),
        f <= g,
    ensures
        reaches_root(p, i, g),
    decreases f,
{
    if let Some(j) = p[i] {
        lemma_reaches_mono(p, j as int, (f - 1) as nat, (g - 1) as nat);
    }
}

proof fn lemma_reaches_cut(p: Seq<Option<usize>>, c: int, i: int, f: nat)
    requires
        reaches_root(p, i, f),
        0 <= c < p.len(),
    ensures
        reaches_root(p.update(c, None), i, f),
    decreases f,
{
    let q = p.update(c, None);
    if i != c {
        if let Some(j) = p[i] {
            lemma_reaches_cut(p, c, j as int, (f - 1) as nat);
        }
    }
}

/// A chain of links `path[0] -> path[1] -> ... -> path[m]` that ends at a root
/// reaches it from each of its nodes.
proof fn lemma_path_reaches(p: Seq<Option<usize>>, path: Seq<usize>, m: int, j: int)
    requires
        0 <= j <= m < path.len(),
        forall|k: int| 0 <= k <= m ==> #[trigger] path[k] < p.len(),
        forall|k: int| 0 <= k < m ==> p[#[trigger] path[k] as int] == Some(path[k + 1]),
        p[path[m] as int] is None,
    ensures
        reaches_root(p, path[j] as int, (m - j) as nat),
    decreases m - j,
{
    if j < m {
        lemma_path_reaches(p, path, m, j + 1);
        assert(p[path[j] as int] == Some(path[j + 1]));
    }
}

/// For each record, the position of the record that holds its parent pid, when the
/// parent pid is nonzero and present.
fn raw_links(records: &[Process]) -> (r: Vec<Option<usize>>)
    ensures
        links_match(records@, r@),
        forall|x: int| 0 <= x < records@.len() ==> (#[trigger] r@[x] is Some <==> resolvable(records@, x)),
{
    let n = records.len();
    let mut links: Vec<Option<usize>> = Vec::new();
    let mut x: usize = 0;
    while x < n
        invariant
            n == records@.len(),
            x <= n,
            links@.len() == x,
            forall|k: int| 0 <= k < x && #[trigger] links@[k] is Some ==> links@[k]->0 < n
                && records@[k].ppid == Some(records@[links@[k]->0 as int].pid) && records@[k].ppid != Some(0u32),
            forall|k: int| 0 <= k < x ==> (#[trigger] links@[k] is Some <==> resolvable(records@, k)),
        decreases n - x,
    {
        let link = match records[x].ppid {
            Some(q) => {
                if q == 0 {
                    None
                } else {
                    find_pid(records, q)
                }
            },
            None => None,
        };
        links.push(link);
        x = x + 1;
    }
    links
}

/// `cyc` lists records whose parent pids run in a circle: each names the next one's pid
/// as its parent, and the last names the first's.
pub open spec fn closed_chain(records: Seq<Process>, cyc: Seq<usize>) -> bool {
    &&& cyc.len() > 0
    &&& forall|k: int| 0 <= k < cyc.len() ==> #[trigger] cyc[k] < records.len()
    &&& forall|k: int| 0 <= k < cyc.len() - 1 ==>
            records[#[trigger] cyc[k] as int].ppid == Some(records[cyc[k + 1] as int].pid)
    &&& records[cyc.last() as int].ppid == Some(records[cyc[0] as int].pid)
}

/// Record `x` lies on a circle of parent pids.
pub open spec fn in_cycle(records: Seq<Process>, x: int) -> bool {
    exists|cyc: Seq<usize>| #[trigger] closed_chain(records, cyc) && cyc[0] == x
}

/// A sequence of distinct positions below `n` has at most `n` members.
proof fn lemma_distinct_bounded(s: Seq<usize>, n: nat)
    requires
        forall|a: int, b: int| 0 <= a < b < s.len() ==> #[trigger] s[a] != #[trigger] s[b],
        forall|k: int| 0 <= k < s.len() ==> #[trigger] s[k] < n,
    ensures
        s.len() <= n,
{
    let t = s.map_values(|x: usize| x as int);
    assert(t.no_duplicates()) by {
        assert forall|a: int, b: int| 0 <= a < t.len() && 0 <= b < t.len() && a != b implies t[a] != t[b] by {
            if a < b {
                assert(s[a] != s[b]);
            } else {
                assert(s[b] != s[a]);
            }
        }
    }
    t.unique_seq_to_set();
    vstd::set_lib::lemma_int_range(0, n as int);
    assert(t.to_set().subset_of(vstd::set_lib::set_int_range(0, n as int))) by {
        assert forall|v: int| #[trigger] t.to_set().contains(v) implies vstd::set_lib::set_int_range(0, n as int).contains(v) by {
            let k = choose|k: int| 0 <= k < t.len() && t[k] == v;
            assert(s[k] < n);
        }
    }
    vstd::set_lib::lemma_len_subset(t.to_set(), vstd::set_lib::set_int_range(0, n as int));
}

/// A walk `path[0] -> ... -> path[steps]` whose last link leads back to `path[j]`
/// puts its last node on a circle of parent pids.
proof fn lemma_cut_on_cycle(records: Seq<Process>, p0: Seq<Option<usize>>, path: Seq<usize>, steps: int, j: int)
    requires
        links_match(records, p0),
        path.len() == steps + 1,
        0 <= j <= steps,
        forall|k: int| 0 <= k <= steps ==> #[trigger] path[k] < records.len(),
        forall|k: int| 0 <= k < steps ==> p0[#[trigger] path[k] as int] == Some(path[k + 1]),
        p0[path[steps] as int] == Some(path[j]),
    ensures
        in_cycle(records, path[steps] as int),
{
    let cur = path[steps];
    let nx = path[j];
    let cyc = seq![cur] + path.subrange(j, steps);
    assert(cyc[0] == cur);
    assert forall|k: int| 0 <= k < cyc.len() implies #[trigger] cyc[k] < records.len() by {
        if k > 0 {
            assert(cyc[k] == path[j + k - 1]);
        }
    }
    assert forall|k: int| 0 <= k < cyc.len() - 1 implies
        records[#[trigger] cyc[k] as int].ppid == Some(records[cyc[k + 1] as int].pid) by {
        if k == 0 {
            assert(cyc[1] == path[j]);
        } else {
            assert(cyc[k] == path[j + k - 1]);
            assert(cyc[k + 1] == path[j + k]);
            assert(p0[path[j + k - 1] as int] == Some(path[j + k]));
        }
    }
    if j < steps {
        assert(cyc.last() == path[steps - 1]);
        assert(p0[path[steps - 1] as int] == Some(path[steps]));
    } else {
        assert(cyc.len() == 1);
    }
    assert(closed_chain(records, cyc));
}

/// Walks up from `i` and, where the walk comes back to a node it has seen, cuts the
/// link that closes the cycle and reports the node whose link was cut.
fn walk_from(
    records: &[Process],
    parent: &mut Vec<Option<usize>>,
    seen: &mut Vec<usize>,
    stamp: usize,
    i: usize,
    malformed: &mut Vec<u32>,
)
    requires
        old(parent)@.len() == records@.len(),
        old(seen)@.len() == records@.len(),
        links_match(records@, old(parent)@),
        i < records@.len(),
        forall|x: int| 0 <= x < old(seen)@.len() ==> #[trigger] old(seen)@[x] < stamp,
    ensures
        final(parent)@.len() == records@.len(),
        final(seen)@.len() == records@.len(),
        links_match(records@, final(parent)@),
        forall|x: int| 0 <= x < final(seen)@.len() ==> #[trigger] final(seen)@[x] <= stamp,
        reaches_root(final(parent)@, i as int, records@.len() as nat),
        forall|k: int| reaches_root(old(parent)@, k, records@.len() as nat)
            ==> #[trigger] reaches_root(final(parent)@, k, records@.len() as nat),
        forall|x: int| 0 <= x < records@.len() && #[trigger] final(parent)@[x] != old(parent)@[x]
            ==> final(parent)@[x] is None && final(malformed)@.contains(records@[x].pid) && in_cycle(records@, x),
        final(malformed)@.len() >= old(malformed)@.len(),
        forall|k: int| 0 <= k < old(malformed)@.len() ==> #[trigger] final(malformed)@[k] == old(malformed)@[k],
        forall|k: int| old(malformed)@.len() <= k < final(malformed)@.len() ==> exists|x: int|
            0 <= x < records@.len() && #[trigger] final(malformed)@[k] == records@[x].pid
                && final(parent)@[x] is None && old(parent)@[x] is Some,
{
    let n = records.len();
    let ghost p0 = parent@;
    let ghost m0 = malformed@;
    seen.set(i, stamp);
    let mut cur = i;
    let mut steps: usize = 0;
    let mut cut = false;
    let ghost mut path: Seq<usize> = seq![i];
    assert forall|x: int| 0 <= x < n && #[trigger] seen@[x] == stamp implies exists|k: int| 0 <= k <= 0 && path[k] == x by {
        if x != i as int {
            assert(seen@[x] == old(seen)@[x]);
        }
        assert(path[0] == x);
    }
    loop
        invariant_except_break
            !cut,
        invariant
            n == records@.len(),
            parent@ == p0,
            p0.len() == n,
            links_match(records@, p0),
            seen@.len() == n,
            forall|x: int| 0 <= x < n ==> #[trigger] seen@[x] <= stamp,
            forall|x: int| 0 <= x < n && #[trigger] seen@[x] == stamp ==> exists|k: int| 0 <= k <= steps && path[k] == x,
            steps < n,
            cur < n,
            path.len() == steps + 1,
            path[0] == i,
            path[steps as int] == cur,
            forall|k: int| 0 <= k <= steps ==> #[trigger] path[k] < n && seen@[path[k] as int] == stamp,
            forall|k: int| 0 <= k < steps ==> p0[#[trigger] path[k] as int] == Some(path[k + 1]),
            forall|a: int, b: int| 0 <= a < b <= steps ==> #[trigger] path[a] != #[trigger] path[b],
        ensures
            n == records@.len(),
            parent@ == p0,
            seen@.len() == n,
            forall|x: int| 0 <= x < n ==> #[trigger] seen@[x] <= stamp,
            steps < n,
            cur < n,
            path.len() == steps + 1,
            path[0] == i,
            path[steps as int] == cur,
            forall|k: int| 0 <= k <= steps ==> #[trigger] path[k] < n,
            forall|k: int| 0 <= k < steps ==> p0[#[trigger] path[k] as int] == Some(path[k + 1]),
            forall|a: int, b: int| 0 <= a < b <= steps ==> #[trigger] path[a] != #[trigger] path[b],
            !cut ==> p0[cur as int] is None,
            cut ==> p0[cur as int] is Some && exists|j: int| 0 <= j <= steps && path[j] == p0[cur as int]->0,
        decreases n - steps,
    {
        match parent[cur] {
            None => {
                break;
            },
            Some(nx) => {
                if seen[nx] == stamp {
                    cut = true;
                    break;
                }
                assert forall|k: int| 0 <= k <= steps implies #[trigger] path[k] != nx by {
                    assert(seen@[path[k] as int] == stamp);
                }
                let ghost old_seen = seen@;
                let ghost old_path = path;
                seen.set(nx, stamp);
                proof {
                    path = path.push(nx);
                    lemma_distinct_bounded(path, n as nat);
                    assert forall|x: int| 0 <= x < n && #[trigger] seen@[x] == stamp
                        implies exists|k: int| 0 <= k <= steps + 1 && path[k] == x by {
                        if x == nx as int {
                            assert(path[steps + 1] == x);
                        } else {
                            assert(old_seen[x] == stamp);
                            let k = choose|k: int| 0 <= k <= steps && old_path[k] == x;
                            assert(path[k] == x);
                        }
                    }
                }
                cur = nx;
                steps = steps + 1;
            },
        }
    }
    if cut {
        parent.set(cur, None);
        malformed.push(records[cur].pid);
    }
    proof {
        let p1 = parent@;
        assert forall|k: int| 0 <= k < steps implies p1[#[trigger] path[k] as int] == Some(path[k + 1]) by {
            assert(path[k] != path[steps as int]);
        }
        lemma_path_reaches(p1, path, steps as int, 0);
        lemma_reaches_mono(p1, i as int, steps as nat, n as nat);
        assert forall|k: int| reaches_root(p0, k, n as nat)
            implies #[trigger] reaches_root(p1, k, n as nat) by {
            if cut {
                lemma_reaches_cut(p0, cur as int, k, n as nat);
            }
        }
        assert forall|x: int| 0 <= x < n && #[trigger] p1[x] is Some implies
            p1[x]->0 < n && records@[x].ppid == Some(records@[p1[x]->0 as int].pid) && records@[x].ppid != Some(0u32) by {
            assert(p1[x] == p0[x]);
        }
        assert(links_in_range(p1));
        if cut {
            let nx = p0[cur as int]->0;
            let j = choose|j: int| 0 <= j <= steps && path[j] == nx;
            lemma_cut_on_cycle(records@, p0, path, steps as int, j);
            assert(malformed@ == m0.push(records@[cur as int].pid));
            assert(malformed@[m0.len() as int] == records@[cur as int].pid);
            assert(malformed@.contains(records@[cur as int].pid));
        }
    }
}

/// Some record with pid `pid` had a link in `links` and has none in `parent`.
pub open spec fn cut_pid(records: Seq<Process>, parent: Seq<Option<usize>>, links: Seq<Option<usize>>, pid: u32) -> bool {
    exists|x: int| 0 <= x < records.len() && records[x].pid == pid && parent[x] is None && links[x] is Some
}

/// Some record with pid `pid` names a parent that is present, yet is a root of `parent`.
pub open spec fn demoted_pid(records: Seq<Process>, parent: Seq<Option<usize>>, pid: u32) -> bool {
    exists|x: int| 0 <= x < records.len() && records[x].pid == pid && resolvable(records, x) && parent[x] is None
}

/// Demotes to a root each node whose link would close a cycle, reporting its pid.
#[verifier::rlimit(60)]
fn break_cycles(records: &[Process], links: Vec<Option<usize>>) -> (r: (Vec<Option<usize>>, Vec<u32>))
    requires
        links_match(records@, links@),
    ensures
        links_match(records@, r.0@),
        acyclic(r.0@),
        forall|x: int| 0 <= x < records@.len() && #[trigger] r.0@[x] != links@[x]
            ==> r.0@[x] is None && r.1@.contains(records@[x].pid) && in_cycle(records@, x),
        forall|k: int| 0 <= k < r.1@.len() ==> cut_pid(records@, r.0@, links@, #[trigger] r.1@[k]),
{
    let n = records.len();
    let mut parent = links;
    let mut malformed: Vec<u32> = Vec::new();
    let mut seen: Vec<usize> = Vec::new();
    let mut k: usize = 0;
    while k < n
        invariant
            k <= n,
            seen@.len() == k,
            forall|x: int| 0 <= x < k ==> #[trigger] seen@[x] == 0,
        decreases n - k,
    {
        seen.push(0);
        k = k + 1;
    }
    let mut i: usize = 0;
    while i < n
        invariant
            n == records@.len(),
            i <= n,
            parent@.len() == n,
            seen@.len() == n,
            links_match(records@, parent@),
            forall|x: int| 0 <= x < n ==> #[trigger] seen@[x] <= i,
            forall|x: int| 0 <= x < i ==> #[trigger] reaches_root(parent@, x, n as nat),
            forall|x: int| 0 <= x < n && #[trigger] parent@[x] != links@[x]
                ==> parent@[x] is None && malformed@.contains(records@[x].pid) && in_cycle(records@, x),
            forall|x: int| 0 <= x < n && #[trigger] parent@[x] is Some ==> parent@[x] == links@[x],
            forall|k: int| 0 <= k < malformed@.len() ==> cut_pid(records@, parent@, links@, #[trigger] malformed@[k]),
        decreases n - i,
    {
        let ghost before = parent@;
        let ghost mal_before = malformed@;
        walk_from(records, &mut parent, &mut seen, i + 1, i, &mut malformed);
        proof {
            assert forall|x: int| 0 <= x < n && #[trigger] parent@[x] != links@[x]
                implies parent@[x] is None && malformed@.contains(records@[x].pid) && in_cycle(records@, x) by {
                if parent@[x] == before[x] {
                    assert(mal_before.contains(records@[x].pid));
                    let k = choose|k: int| 0 <= k < mal_before.len() && mal_before[k] == records@[x].pid;
                    assert(malformed@[k] == mal_before[k]);
                }
            }
            assert forall|x: int| 0 <= x < n && #[trigger] parent@[x] is Some implies parent@[x] == links@[x] by {
                assert(parent@[x] == before[x]);
            }
            assert forall|x: int| 0 <= x < i + 1 implies #[trigger] reaches_root(parent@, x, n as nat) by {
                if x < i {
                    assert(reaches_root(before, x, n as nat));
                }
            }
            assert forall|k: int| 0 <= k < malformed@.len() implies cut_pid(records@, parent@, links@, #[trigger] malformed@[k]) by {
                if k < mal_before.len() {
                    assert(malformed@[k] == mal_before[k]);
                    assert(cut_pid(records@, before, links@, mal_before[k]));
                    let x = choose|x: int| 0 <= x < records@.len() && records@[x].pid == mal_before[k] && before[x] is None && links@[x] is Some;
                    if parent@[x] != before[x] {
                        assert(parent@[x] is None);
                    }
                    assert(parent@[x] is None);
                } else {
                    let x = choose|x: int| 0 <= x < records@.len() && #[trigger] malformed@[k] == records@[x].pid
                        && parent@[x] is None && before[x] is Some;
                    assert(before[x] == links@[x]);
                }
            }
        }
        i = i + 1;
    }
    (parent, malformed)
}

/// The indices of `s` name records in ascending pid order.
pub open spec fn sorted_by_pid(records: Seq<Process>, s: Seq<usize>) -> bool {
    forall|a: int, b: int| 0 <= a < b < s.len() ==> records[#[trigger] s[a] as int].pid <= records[#[trigger] s[b] as int].pid
}

/// `s` lists each index of `0..n` exactly once.
pub open spec fn is_permutation(s: Seq<usize>, n: nat) -> bool {
    &&& s.len() == n
    &&& s.no_duplicates()
    &&& forall|k: int| 0 <= k < s.len() ==> #[trigger] s[k] < n
    &&& forall|x: usize| x < n ==> #[trigger] s.contains(x)
}

/// The indices of the records, in ascending pid order.
fn pid_order(records: &[Process]) -> (r: Vec<usize>)
    ensures
        is_permutation(r@, records@.len()),
        sorted_by_pid(records@, r@),
{
    let n = records.len();
    let mut order: Vec<usize> = Vec::new();
    let mut i: usize = 0;
    while i < n
        invariant
            n == records@.len(),
            i <= n,
            order@.len() == i,
            order@.no_duplicates(),
            forall|k: int| 0 <= k < order@.len() ==> #[trigger] order@[k] < i,
            forall|x: usize| x < i ==> #[trigger] order@.contains(x),
            sorted_by_pid(records@, order@),
        decreases n - i,
    {
        let pid = records[i].pid;
        let mut pos: usize = 0;
        while pos < order.len() && records[order[pos]].pid <= pid
            invariant
                n == records@.len(),
                i < n,
                pos <= order@.len(),
                forall|k: int| 0 <= k < order@.len() ==> #[trigger] order@[k] < i,
                forall|k: int| 0 <= k < pos ==> records@[#[trigger] order@[k] as int].pid <= pid,
            decreases order@.len() - pos,
        {
            pos = pos + 1;
        }
        let ghost old_order = order@;
        order.insert(pos, i);
        proof {
            old_order.insert_ensures(pos as int, i);
            let s2 = order@;
            assert(s2 == old_order.insert(pos as int, i));
            assert forall|k: int| 0 <= k < s2.len() implies #[trigger] s2[k] < i + 1 by {
                if k > pos {
                    assert(s2[k] == old_order[k - 1]);
                }
            }
            assert forall|x: usize| x < i + 1 implies #[trigger] s2.contains(x) by {
                if x == i {
                    assert(s2[pos as int] == x);
                } else {
                    assert(old_order.contains(x));
                    let j = choose|j: int| 0 <= j < old_order.len() && old_order[j] == x;
                    if j < pos {
                        assert(s2[j] == x);
                    } else {
                        assert(s2[j + 1] == x);
                    }
                }
            }
            assert forall|a: int, b: int| 0 <= a < s2.len() && 0 <= b < s2.len() && a != b implies s2[a] != s2[b] by {
                if a != pos && b != pos {
                    let a0 = if a < pos { a } else { a - 1 };
                    let b0 = if b < pos { b } else { b - 1 };
                    assert(s2[a] == old_order[a0]);
                    assert(s2[b] == old_order[b0]);
                } else if a == pos {
                    let b0 = if b < pos { b } else { b - 1 };
                    assert(s2[b] == old_order[b0]);
                } else {
                    let a0 = if a < pos { a } else { a - 1 };
                    assert(s2[a] == old_order[a0]);
                }
            }
            assert forall|a: int, b: int| 0 <= a < b < s2.len()
                implies records@[#[trigger] s2[a] as int].pid <= records@[#[trigger] s2[b] as int].pid by {
                let a0 = if a < pos { a } else { a - 1 };
                let b0 = if b < pos { b } else { b - 1 };
                if a != pos && b != pos {
                    assert(s2[a] == old_order[a0]);
                    assert(s2[b] == old_order[b0]);
                } else if a == pos {
                    assert(s2[b] == old_order[b0]);
                    assert(records@[old_order[pos as int] as int].pid > pid);
                    if b0 > pos {
                        assert(records@[old_order[pos as int] as int].pid <= records@[old_order[b0] as int].pid);
                    }
                } else {
                    assert(s2[a] == old_order[a0]);
                }
            }
        }
        i = i + 1;
    }
    order
}

/// The members of `s` whose parent link equals `want`.
pub open spec fn with_parent(s: Seq<usize>, parent: Seq<Option<usize>>, want: Option<usize>) -> Seq<usize> {
    s.filter(parent_is(parent, want))
}

/// The test that a position's parent link equals `want`.
pub open spec fn parent_is(parent: Seq<Option<usize>>, want: Option<usize>) -> spec_fn(usize) -> bool {
    |x: usize| parent[x as int] == want
}

/// The members of `order` whose parent link equals `want`, in order.
fn select_by_parent(parent: &Vec<Option<usize>>, order: &Vec<usize>, want: Option<usize>) -> (r: Vec<usize>)
    requires
        forall|k: int| 0 <= k < order@.len() ==> #[trigger] order@[k] < parent@.len(),
    ensures
        r@ == with_parent(order@, parent@, want),
{
    let ghost pred = parent_is(parent@, want);
    let mut out: Vec<usize> = Vec::new();
    let mut k: usize = 0;
    while k < order.len()
        invariant
            k <= order@.len(),
            forall|m: int| 0 <= m < order@.len() ==> #[trigger] order@[m] < parent@.len(),
            pred == parent_is(parent@, want),
            out@ == order@.subrange(0, k as int).filter(pred),
        decreases order@.len() - k,
    {
        let x = order[k];
        if parent[x] == want {
            out.push(x);
        }
        proof {
            let next = order@.subrange(0, k + 1);
            assert(next.drop_last() =~= order@.subrange(0, k as int));
            reveal(Seq::filter);
        }
        k = k + 1;
    }
    assert(order@.subrange(0, order@.len() as int) =~= order@);
    out
}

proof fn lemma_filter_keeps_order(records: Seq<Process>, s: Seq<usize>, pred: spec_fn(usize) -> bool)
    requires
        sorted_by_pid(records, s),
        s.no_duplicates(),
    ensures
        sorted_by_pid(records, s.filter(pred)),
        s.filter(pred).no_duplicates(),
    decreases s.len(),
{
    reveal(Seq::filter);
    if s.len() > 0 {
        let rest = s.drop_last();
        lemma_filter_keeps_order(records, rest, pred);
        let fr = rest.filter(pred);
        if pred(s.last()) {
            let f = fr.push(s.last());
            assert forall|k: int| 0 <= k < fr.len() implies
                records[#[trigger] fr[k] as int].pid <= records[s.last() as int].pid && fr[k] != s.last() by {
                assert(fr.contains(fr[k]));
                rest.lemma_filter_contains_rev(pred, fr[k]);
                let j = choose|j: int| 0 <= j < rest.len() && rest[j] == fr[k];
                assert(s[j] == rest[j]);
                assert(s[s.len() - 1] == s.last());
            }
            assert forall|a: int, b: int| 0 <= a < b < f.len()
                implies records[#[trigger] f[a] as int].pid <= records[#[trigger] f[b] as int].pid by {
                if b == f.len() - 1 {
                    assert(f[a] == fr[a]);
                } else {
                    assert(f[a] == fr[a]);
                    assert(f[b] == fr[b]);
                }
            }
            assert forall|a: int, b: int| 0 <= a < f.len() && 0 <= b < f.len() && a != b implies f[a] != f[b] by {
                if a < f.len() - 1 && b < f.len() - 1 {
                    assert(f[a] == fr[a]);
                    assert(f[b] == fr[b]);
                } else if a < f.len() - 1 {
                    assert(f[a] == fr[a]);
                } else {
                    assert(f[b] == fr[b]);
                }
            }
        }
    }
}

/// The parent/child forest of a snapshot, over positions in its record sequence.
pub struct ProcessForest {
    /// The parent of each record, or `None` for a root.
    pub parent: Vec<Option<usize>>,
    /// All positions, in ascending pid order.
    pub order: Vec<usize>,
    /// The roots, in ascending pid order.
    pub roots: Vec<usize>,
    /// The children of each record, in ascending pid order.
    pub children: Vec<Vec<usize>>,
    /// The pids of records demoted to roots because their link closed a cycle.
    pub malformed: Vec<u32>,
}

/// `f` is the forest that the tree builder gives for `records`.
pub open spec fn forest_of(records: Seq<Process>, f: ProcessForest) -> bool {
    &&& links_match(records, f.parent@)
    &&& acyclic(f.parent@)
    &&& forall|x: int| 0 <= x < records.len() && resolvable(records, x) && #[trigger] f.parent@[x] is None
            ==> f.malformed@.contains(records[x].pid) && in_cycle(records, x)
    &&& forall|k: int| 0 <= k < f.malformed@.len() ==> demoted_pid(records, f.parent@, #[trigger] f.malformed@[k])
    &&& is_permutation(f.order@, records.len())
    &&& sorted_by_pid(records, f.order@)
    &&& f.roots@ == with_parent(f.order@, f.parent@, None)
    &&& f.children@.len() == records.len()
    &&& forall|j: int| 0 <= j < records.len() ==>
            (#[trigger] f.children@[j])@ == with_parent(f.order@, f.parent@, Some(j as usize))
}

/// Builds the forest of `processes`: a record whose parent pid is missing, zero or
/// not among the pids becomes a root; so does one whose link would close a cycle,
/// which is then reported in `malformed`. Siblings and roots come in ascending pid order.
pub fn build_process_tree(processes: &[Process]) -> (r: ProcessForest)
    ensures
        forest_of(processes@, r),
{
    let n = processes.len();
    let links = raw_links(processes);
    let ghost l = links@;
    let (parent, malformed) = break_cycles(processes, links);
    let order = pid_order(processes);
    let roots = select_by_parent(&parent, &order, None);
    let mut children: Vec<Vec<usize>> = Vec::new();
    let mut j: usize = 0;
    while j < n
        invariant
            n == processes@.len(),
            j <= n,
            parent@.len() == n,
            is_permutation(order@, n as nat),
            children@.len() == j,
            forall|m: int| 0 <= m < j ==>
                (#[trigger] children@[m])@ == with_parent(order@, parent@, Some(m as usize)),
        decreases n - j,
    {
        let c = select_by_parent(&parent, &order, Some(j));
        children.push(c);
        j = j + 1;
    }
    proof {
        assert forall|x: int| 0 <= x < n && #[trigger] parent@[x] is Some implies
            processes@[x].ppid == Some(processes@[parent@[x]->0 as int].pid) && processes@[x].ppid != Some(0u32) by {
            assert(parent@[x] == l[x]);
        }
        assert forall|x: int| 0 <= x < n && resolvable(processes@, x) && #[trigger] parent@[x] is None
            implies malformed@.contains(processes@[x].pid) && in_cycle(processes@, x) by {
            assert(l[x] is Some);
        }
        assert forall|k: int| 0 <= k < malformed@.len() implies demoted_pid(processes@, parent@, #[trigger] malformed@[k]) by {
            assert(cut_pid(processes@, parent@, l, malformed@[k]));
            let x = choose|x: int| 0 <= x < n && processes@[x].pid == malformed@[k] && parent@[x] is None && l[x] is Some;
            assert(resolvable(processes@, x));
        }
    }
    ProcessForest { parent, order, roots, children, malformed }
}

/// Each record of a snapshot appears in its forest exactly once: as a root when it
/// has no parent link, else in the child list of its parent, and in no other list;
/// no list repeats a position; roots and siblings come in ascending pid order; and
/// every record reaches a root by following parent links.
pub proof fn lemma_forest_covers(records: Seq<Process>, f: ProcessForest)
    requires
        forest_of(records, f),
    ensures
        forall|x: usize| #[trigger] f.roots@.contains(x) <==> (x < records.len() && f.parent@[x as int] is None),
        forall|j: int, x: usize| 0 <= j < records.len() ==>
            (#[trigger] f.children@[j]@.contains(x) <==> (x < records.len() && f.parent@[x as int] == Some(j as usize))),
        f.roots@.no_duplicates(),
        forall|j: int| 0 <= j < records.len() ==> (#[trigger] f.children@[j])@.no_duplicates(),
        sorted_by_pid(records, f.roots@),
        forall|j: int| 0 <= j < records.len() ==> sorted_by_pid(records, (#[trigger] f.children@[j])@),
        acyclic(f.parent@),
{
    let order = f.order@;
    let n = records.len();
    assert forall|want: Option<usize>, x: usize| #[trigger] with_parent(order, f.parent@, want).contains(x)
        <==> (x < n && f.parent@[x as int] == want) by {
        let pred = parent_is(f.parent@, want);
        let fl = order.filter(pred);
        if fl.contains(x) {
            let k = choose|k: int| 0 <= k < fl.len() && fl[k] == x;
            order.lemma_filter_pred(pred, k);
            order.lemma_filter_contains_rev(pred, x);
        }
        if x < n && f.parent@[x as int] == want {
            assert(order.contains(x));
            let j = choose|j: int| 0 <= j < order.len() && order[j] == x;
            order.lemma_filter_contains(pred, j);
        }
    }
    lemma_filter_keeps_order(records, order, parent_is(f.parent@, None));
    assert forall|j: int| 0 <= j < n implies (#[trigger] f.children@[j])@.no_duplicates()
        && sorted_by_pid(records, f.children@[j]@) by {
        lemma_filter_keeps_order(records, order, parent_is(f.parent@, Some(j as usize)));
    }
    assert forall|j: int, x: usize| 0 <= j < n implies
        (#[trigger] f.children@[j]@.contains(x) <==> (x < n && f.parent@[x as int] == Some(j as usize))) by {
        assert(with_parent(order, f.parent@, Some(j as usize)).contains(x) <==> (x < n && f.parent@[x as int] == Some(j as usize)));
    }
    assert forall|x: usize| #[trigger] f.roots@.contains(x) <==> (x < n && f.parent@[x as int] is None) by {
        assert(with_parent(order, f.parent@, None).contains(x) <==> (x < n && f.parent@[x as int] == None::<usize>));
    }
}

/// A record whose parent pid is missing, zero, or held by no record of the snapshot
/// is a root of the forest.
pub proof fn lemma_orphan_is_root(records: Seq<Process>, f: ProcessForest, x: usize)
    requires
        forest_of(records, f),
        x < records.len(),
        !resolvable(records, x as int),
    ensures
        f.roots@.contains(x),
{
    lemma_forest_covers(records, f);
    if f.parent@[x as int] is Some {
        let j = f.parent@[x as int]->0 as int;
        assert(records[x as int].ppid == Some(records[j].pid));
        assert(has_pid(records, records[j].pid));
    }
}

/// On a closed chain of parent links no node reaches a root.
proof fn lemma_cycle_has_no_root(p: Seq<Option<usize>>, cyc: Seq<usize>, fuel: nat)
    requires
        cyc.len() > 0,
        forall|k: int| 0 <= k < cyc.len() - 1 ==> p[#[trigger] cyc[k] as int] == Some(cyc[k + 1]),
        p[cyc.last() as int] == Some(cyc[0]),
    ensures
        forall|k: int| 0 <= k < cyc.len() ==> !reaches_root(p, #[trigger] cyc[k] as int, fuel),
    decreases fuel,
{
    if fuel > 0 {
        lemma_cycle_has_no_root(p, cyc, (fuel - 1) as nat);
    }
    assert forall|k: int| 0 <= k < cyc.len() implies !reaches_root(p, #[trigger] cyc[k] as int, fuel) by {
        if k < cyc.len() - 1 {
            assert(p[cyc[k] as int] == Some(cyc[k + 1]));
            if fuel > 0 {
                assert(!reaches_root(p, cyc[k + 1] as int, (fuel - 1) as nat));
            }
        } else {
            assert(cyc[k] == cyc.last());
            if fuel > 0 {
                assert(!reaches_root(p, cyc[0] as int, (fuel - 1) as nat));
            }
        }
    }
}

/// When the parent pids of records with unique, nonzero pids run in a circle, the
/// builder still returns, and reports at least one record of the circle as malformed.
pub proof fn lemma_cycle_reported(records: Seq<Process>, f: ProcessForest, cyc: Seq<usize>)
    requires
        forest_of(records, f),
        unique_pids(records),
        closed_chain(records, cyc),
        forall|k: int| 0 <= k < cyc.len() ==> records[#[trigger] cyc[k] as int].pid != 0,
    ensures
        exists|k: int| 0 <= k < cyc.len() && f.malformed@.contains(records[#[trigger] cyc[k] as int].pid),
{
    let p = f.parent@;
    let n = records.len();
    if forall|k: int| 0 <= k < cyc.len() ==> !f.malformed@.contains(records[#[trigger] cyc[k] as int].pid) {
        assert forall|k: int| 0 <= k < cyc.len() implies p[#[trigger] cyc[k] as int] ==
            Some(if k < cyc.len() - 1 { cyc[k + 1] } else { cyc[0] }) by {
            let nx = if k < cyc.len() - 1 { cyc[k + 1] } else { cyc[0] };
            let x = cyc[k] as int;
            assert(records[x].ppid == Some(records[nx as int].pid));
            assert(has_pid(records, records[nx as int].pid));
            assert(resolvable(records, x));
            assert(!f.malformed@.contains(records[x].pid));
            let j = p[x]->0 as int;
            assert(records[j].pid == records[nx as int].pid);
            if j != nx as int {
                assert(records[j].pid != records[nx as int].pid);
            }
        }
        assert forall|k: int| 0 <= k < cyc.len() - 1 implies p[#[trigger] cyc[k] as int] == Some(cyc[k + 1]) by {
            assert(p[cyc[k] as int] == Some(if k < cyc.len() - 1 { cyc[k + 1] } else { cyc[0] }));
        }
        assert(p[cyc[cyc.len() - 1] as int] == Some(cyc[0]));
        lemma_cycle_has_no_root(p, cyc, n);
        assert(reaches_root(p, cyc[0] as int, n));
        assert(false);
    }
}

} // verus!
