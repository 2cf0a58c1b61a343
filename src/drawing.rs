//! The forest of a snapshot drawn as text, one line per record, with box-drawing
//! branches.

use vstd::prelude::*;
use crate::record::Process;
use crate::text::{decimal, push_decimal};
use crate::tree::{ProcessForest, forest_of, lemma_forest_covers};

verus! {

/// Every position that the forest's lists hold names a record.
pub open spec fn lists_in_range(n: nat, f: ProcessForest) -> bool {
    &&& f.children@.len() == n
    &&& forall|k: int| 0 <= k < f.roots@.len() ==> #[trigger] f.roots@[k] < n
    &&& forall|j: int, k: int| 0 <= j < n && 0 <= k < f.children@[j]@.len() ==> #[trigger] f.children@[j]@[k] < n
}

/// The line of one record in the tree text.
pub open spec fn node_line(p: Process, prefix: Seq<char>, last: bool) -> Seq<char> {
    prefix + (if last { "└── "@ } else { "├── "@ }) + p.cmd@ + " ("@ + decimal(p.pid as nat) + ")\n"@
}

/// The tree text of record `x` and, to `fuel` levels, its descendants.
pub open spec fn node_text(records: Seq<Process>, f: ProcessForest, x: usize, prefix: Seq<char>, last: bool, fuel: nat) -> Seq<char>
    decreases fuel, 0nat, 0nat,
{
    if fuel == 0 {
        seq![]
    } else {
        node_line(records[x as int], prefix, last) + list_text(records, f, f.children@[x as int]@, 0,
            prefix + (if last { "    "@ } else { "│   "@ }), (fuel - 1) as nat)
    }
}

/// The tree text of the records `kids[k..]`, siblings under `prefix`.
pub open spec fn list_text(records: Seq<Process>, f: ProcessForest, kids: Seq<usize>, k: nat, prefix: Seq<char>, fuel: nat) -> Seq<char>
    decreases fuel, 1nat, kids.len() - k,
{
    if k >= kids.len() {
        seq![]
    } else {
        node_text(records, f, kids[k as int], prefix, k + 1 == kids.len(), fuel)
            + list_text(records, f, kids, k + 1, prefix, fuel)
    }
}

fn push_node(out: &mut String, records: &[Process], f: &ProcessForest, x: usize, prefix: &String, last: bool, fuel: usize)
    requires
        lists_in_range(records@.len(), *f),
        x < records@.len(),
    ensures
        final(out)@ == old(out)@ + node_text(records@, *f, x, prefix@, last, fuel as nat),
    decreases fuel, 0nat, 0nat,
{
    if fuel == 0 {
        assert(final(out)@ =~= old(out)@ + node_text(records@, *f, x, prefix@, last, fuel as nat));
        return;
    }
    let ghost start = out@;
    out.append(prefix.as_str());
    if last {
        out.append("└── ");
    } else {
        out.append("├── ");
    }
    out.append(records[x].cmd.as_str());
    out.append(" (");
    push_decimal(out, records[x].pid as u64);
    out.append(")\n");
    assert(out@ =~= start + node_line(records@[x as int], prefix@, last));
    let mut next = prefix.clone();
    if last {
        next.append("    ");
    } else {
        next.append("│   ");
    }
    push_list(out, records, f, &f.children[x], 0, &next, fuel - 1);
    assert(out@ =~= start + node_text(records@, *f, x, prefix@, last, fuel as nat));
}

fn push_list(out: &mut String, records: &[Process], f: &ProcessForest, kids: &Vec<usize>, k: usize, prefix: &String, fuel: usize)
    requires
        lists_in_range(records@.len(), *f),
        forall|m: int| 0 <= m < kids@.len() ==> #[trigger] kids@[m] < records@.len(),
        k <= kids@.len(),
    ensures
        final(out)@ == old(out)@ + list_text(records@, *f, kids@, k as nat, prefix@, fuel as nat),
    decreases fuel, 1nat, kids@.len() - k,
{
    if k >= kids.len() {
        assert(final(out)@ =~= old(out)@ + list_text(records@, *f, kids@, k as nat, prefix@, fuel as nat));
        return;
    }
    let ghost start = out@;
    push_node(out, records, f, kids[k], prefix, k + 1 == kids.len(), fuel);
    push_list(out, records, f, kids, k + 1, prefix, fuel);
    assert(out@ =~= start + list_text(records@, *f, kids@, k as nat, prefix@, fuel as nat));
}

/// The forest's lists hold only positions of records.
pub proof fn lemma_forest_lists_in_range(records: Seq<Process>, f: ProcessForest)
    requires
        forest_of(records, f),
    ensures
        lists_in_range(records.len(), f),
{
    lemma_forest_covers(records, f);
    assert forall|k: int| 0 <= k < f.roots@.len() implies #[trigger] f.roots@[k] < records.len() by {
        assert(f.roots@.contains(f.roots@[k]));
    }
    assert forall|j: int, k: int| 0 <= j < records.len() && 0 <= k < f.children@[j]@.len()
        implies #[trigger] f.children@[j]@[k] < records.len() by {
        assert(f.children@[j]@.contains(f.children@[j]@[k]));
    }
}

/// The text of the whole forest: the roots in order, each record's line drawn below
/// its parent's with box-drawing branches; `fuel` bounds the depth drawn.
pub open spec fn forest_text(records: Seq<Process>, f: ProcessForest, fuel: nat) -> Seq<char> {
    list_text(records, f, f.roots@, 0, seq![], fuel)
}

/// Draws the forest of `processes` as text, one line per record, at most as many
/// levels deep as there are records.
pub fn format_process_tree(processes: &[Process], forest: &ProcessForest) -> (r: String)
    requires
        forest_of(processes@, *forest),
    ensures
        r@ == forest_text(processes@, *forest, processes@.len() as nat),
{
    proof {
        lemma_forest_lists_in_range(processes@, *forest);
    }
    let mut out = String::new();
    let prefix = String::new();
    push_list(&mut out, processes, forest, &forest.roots, 0, &prefix, processes.len());
    assert(prefix@ =~= Seq::<char>::empty());
    assert(out@ =~= forest_text(processes@, *forest, processes@.len() as nat));
    out
}

} // verus!
