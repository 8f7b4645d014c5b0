//! One reading of the system's process table, and what the library derives
//! from it: the process records with their children, and the lookup of a
//! single process by id.

use vstd::prelude::*;
use crate::process::{Process, ProcessView};

verus! {

/// One row of a process-table reading: a process id, the id of the process
/// that started it, and its executable name.
pub struct SnapshotEntry {
    pub pid: i32,
    pub parent_pid: i32,
    pub name: String,
}

impl SnapshotEntry {
    /// A row with the given fields.
    pub fn new(pid: i32, parent_pid: i32, name: String) -> (e: SnapshotEntry)
        ensures
            e.pid == pid,
            e.parent_pid == parent_pid,
            e.name@ == name@,
    {
        SnapshotEntry { pid, parent_pid, name }
    }
}

/// Row `i` is the last row of the reading with its process id.
pub open spec fn is_last_of_pid(es: Seq<SnapshotEntry>, i: int) -> bool {
    forall|j: int| i < j < es.len() ==> #[trigger] es[j].pid != es[i].pid
}

/// Row `i` is the row that stands for its process: its id is not 0 and no
/// later row has the same id.
pub open spec fn is_kept(es: Seq<SnapshotEntry>, i: int) -> bool {
    es[i].pid != 0 && is_last_of_pid(es, i)
}

/// The positions of the rows that stand for their processes, among the first
/// `n` rows, in reading order.
pub open spec fn kept_positions(es: Seq<SnapshotEntry>, n: int) -> Seq<int>
    decreases n,
{
    if n <= 0 {
        Seq::empty()
    } else if is_kept(es, n - 1) {
        kept_positions(es, n - 1).push(n - 1)
    } else {
        kept_positions(es, n - 1)
    }
}

/// The ids of the processes recorded with parent `parent` among the first
/// `n` rows, in reading order; rows with id 0 are not processes.
pub open spec fn child_ids(es: Seq<SnapshotEntry>, parent: i32, n: int) -> Seq<i32>
    decreases n,
{
    if n <= 0 {
        Seq::empty()
    } else if es[n - 1].pid != 0 && es[n - 1].parent_pid == parent {
        child_ids(es, parent, n - 1).push(es[n - 1].pid)
    } else {
        child_ids(es, parent, n - 1)
    }
}

/// The name under which process `pid` appears first in the reading, or
/// `Unknown` when it does not appear.
pub open spec fn name_in(es: Seq<SnapshotEntry>, pid: i32) -> Seq<char>
    decreases es.len(),
{
    if es.len() == 0 {
        "Unknown"@
    } else if es[0].pid == pid {
        es[0].name@
    } else {
        name_in(es.drop_first(), pid)
    }
}

/// The kept positions rise, lie within the first `n` rows, and are kept rows.
pub proof fn lemma_kept_positions_increasing(es: Seq<SnapshotEntry>, n: int)
    requires
        0 <= n <= es.len(),
    ensures
        forall|a: int, b: int| 0 <= a < b < kept_positions(es, n).len() ==>
            #[trigger] kept_positions(es, n)[a] < #[trigger] kept_positions(es, n)[b],
        forall|m: int| 0 <= m < kept_positions(es, n).len() ==>
            0 <= #[trigger] kept_positions(es, n)[m] < n && is_kept(es, kept_positions(es, n)[m]),
    decreases n,
{
    if n > 0 {
        lemma_kept_positions_increasing(es, n - 1);
        let prev = kept_positions(es, n - 1);
        let cur = kept_positions(es, n);
        assert forall|m: int| 0 <= m < cur.len() implies 0 <= #[trigger] cur[m] < n && is_kept(es, cur[m]) by {
            if m < prev.len() {
                assert(cur[m] == prev[m]);
            }
        }
        assert forall|a: int, b: int| 0 <= a < b < cur.len() implies #[trigger] cur[a] < #[trigger] cur[b] by {
            if b < prev.len() {
                assert(cur[a] == prev[a] && cur[b] == prev[b]);
            } else {
                assert(cur[a] == prev[a]);
            }
        }
    }
}

/// The positions of the rows that stand for their processes, in reading order.
pub fn kept_rows(entries: &Vec<SnapshotEntry>) -> (r: Vec<usize>)
    ensures
        r@.map_values(|i: usize| i as int) == kept_positions(entries@, entries@.len() as int),
{
    let mut r: Vec<usize> = Vec::new();
    let mut i: usize = 0;
    while i < entries.len()
        invariant
            i <= entries.len(),
            r@.map_values(|x: usize| x as int) == kept_positions(entries@, i as int),
        decreases entries.len() - i,
    {
        let mut last = entries[i].pid != 0;
        let mut j: usize = i + 1;
        while j < entries.len() && last
            invariant
                i < j <= entries.len(),
                last == (entries@[i as int].pid != 0 && forall|t: int| i < t < j ==> #[trigger] entries@[t].pid != entries@[i as int].pid),
            decreases entries.len() - j,
        {
            if entries[j].pid == entries[i].pid {
                last = false;
            }
            j = j + 1;
        }
        proof {
            if last {
                assert(j == entries.len());
            } else if entries@[i as int].pid != 0 {
                assert(!is_last_of_pid(entries@, i as int));
            }
            assert(last == is_kept(entries@, i as int));
        }
        if last {
            r.push(i);
            proof {
                assert(r@.map_values(|x: usize| x as int) =~= kept_positions(entries@, i as int).push(i as int));
            }
        }
        i = i + 1;
    }
    r
}

/// The ids of the processes recorded with parent `parent`, in reading order.
fn children_of(entries: &Vec<SnapshotEntry>, parent: i32) -> (r: Vec<i32>)
    ensures
        r@ == child_ids(entries@, parent, entries@.len() as int),
{
    let mut r: Vec<i32> = Vec::new();
    let mut i: usize = 0;
    while i < entries.len()
        invariant
            i <= entries.len(),
            r@ == child_ids(entries@, parent, i as int),
        decreases entries.len() - i,
    {
        if entries[i].pid != 0 && entries[i].parent_pid == parent {
            r.push(entries[i].pid);
        }
        i = i + 1;
    }
    r
}

/// The process record that a reading gives for row `i`: its id, its name and
/// the ids of all processes recorded with it as parent.
pub open spec fn record_of(es: Seq<SnapshotEntry>, i: int) -> ProcessView {
    ProcessView { pid: es[i].pid, name: es[i].name@, children: child_ids(es, es[i].pid, es.len() as int) }
}

/// One record per process of the reading (id 0 is not a process; where an id
/// appears on several rows its last row gives the name), in reading order;
/// each record lists as children the ids of all processes recorded with it
/// as parent, in reading order.
pub fn link_children(entries: &Vec<SnapshotEntry>) -> (r: Vec<Process>)
    ensures
        r@.len() == kept_positions(entries@, entries@.len() as int).len(),
        forall|m: int| 0 <= m < r@.len() ==> #[trigger] r@[m]@ == record_of(entries@, kept_positions(entries@, entries@.len() as int)[m]),
{
    let rows = kept_rows(entries);
    let ghost ks = kept_positions(entries@, entries@.len() as int);
    proof {
        lemma_kept_positions_increasing(entries@, entries@.len() as int);
        assert(rows@.len() == ks.len());
        assert forall|m: int| 0 <= m < rows@.len() implies rows@[m] as int == #[trigger] ks[m] by {
            assert(rows@.map_values(|x: usize| x as int)[m] == rows@[m] as int);
        }
    }
    let mut r: Vec<Process> = Vec::new();
    let mut m: usize = 0;
    while m < rows.len()
        invariant
            m <= rows.len(),
            rows@.len() == ks.len(),
            ks == kept_positions(entries@, entries@.len() as int),
            forall|t: int| 0 <= t < rows@.len() ==> rows@[t] as int == #[trigger] ks[t],
            forall|t: int| 0 <= t < ks.len() ==> 0 <= #[trigger] ks[t] < entries@.len(),
            r@.len() == m,
            forall|t: int| 0 <= t < m ==> #[trigger] r@[t]@ == record_of(entries@, ks[t]),
        decreases rows.len() - m,
    {
        let i = rows[m];
        assert(ks[m as int] == i as int);
        let e = &entries[i];
        let mut p = Process::new(e.pid, e.name.clone());
        let kids = children_of(entries, e.pid);
        let mut c: usize = 0;
        while c < kids.len()
            invariant
                c <= kids.len(),
                p@.pid == entries@[i as int].pid,
                p@.name == entries@[i as int].name@,
                p@.children == kids@.subrange(0, c as int),
            decreases kids.len() - c,
        {
            p.add_child(kids[c]);
            proof {
                assert(kids@.subrange(0, c + 1) =~= kids@.subrange(0, c as int).push(kids@[c as int]));
            }
            c = c + 1;
        }
        assert(kids@.subrange(0, kids.len() as int) =~= kids@);
        r.push(p);
        m = m + 1;
    }
    r
}

/// The process `pid` as a reading knows it: its id and the name of its first
/// row, or `Unknown` when no row has that id; no children.
pub fn find_process_in(entries: &Vec<SnapshotEntry>, pid: i32) -> (p: Process)
    ensures
        p@ == (ProcessView { pid, name: name_in(entries@, pid), children: Seq::empty() }),
{
    let mut i: usize = 0;
    assert(entries@.skip(0) =~= entries@);
    while i < entries.len()
        invariant
            i <= entries.len(),
            name_in(entries@, pid) == name_in(entries@.skip(i as int), pid),
        decreases entries.len() - i,
    {
        assert(entries@.skip(i as int).drop_first() =~= entries@.skip(i + 1));
        if entries[i].pid == pid {
            return Process::new(pid, entries[i].name.clone());
        }
        i = i + 1;
    }
    Process::new(pid, String::from_str("Unknown"))
}

/// Every id recorded as a child is the id, not 0, of some row.
pub proof fn lemma_child_ids_are_rows(es: Seq<SnapshotEntry>, parent: i32, n: int, x: i32)
    requires
        0 <= n <= es.len(),
        child_ids(es, parent, n).contains(x),
    ensures
        x != 0,
        exists|j: int| 0 <= j < n && #[trigger] es[j].pid == x,
    decreases n,
{
    if n > 0 {
        let prev = child_ids(es, parent, n - 1);
        if es[n - 1].pid != 0 && es[n - 1].parent_pid == parent && x == es[n - 1].pid {
        } else {
            if es[n - 1].pid != 0 && es[n - 1].parent_pid == parent {
                let s = choose|s: int| 0 <= s < prev.len() + 1 && #[trigger] prev.push(es[n - 1].pid)[s] == x;
                assert(prev[s] == x);
            }
            lemma_child_ids_are_rows(es, parent, n - 1, x);
        }
    }
}

/// Among the first `n` rows, the children that a reading gives for `parent`
/// are the ids of the rows of processes (id not 0) whose parent id is
/// `parent`, one per such row, in reading order, wherever those rows stand
/// relative to the rows of the parent itself.
pub proof fn lemma_child_ids_are_child_rows(es: Seq<SnapshotEntry>, parent: i32, n: int)
    requires
        0 <= n <= es.len(),
    ensures
        child_ids(es, parent, n) == es.take(n).filter(|e: SnapshotEntry| e.pid != 0 && e.parent_pid == parent).map_values(
            |e: SnapshotEntry| e.pid,
        ),
    decreases n,
{
    reveal(Seq::filter);
    let pred = |e: SnapshotEntry| e.pid != 0 && e.parent_pid == parent;
    let f = |e: SnapshotEntry| e.pid;
    if n == 0 {
        assert(es.take(0).filter(pred) =~= Seq::<SnapshotEntry>::empty());
        assert(es.take(0).filter(pred).map_values(f) =~= Seq::<i32>::empty());
    } else {
        lemma_child_ids_are_child_rows(es, parent, n - 1);
        assert(es.take(n).drop_last() =~= es.take(n - 1));
        assert(es.take(n).last() == es[n - 1]);
        let prev = es.take(n - 1).filter(pred);
        if pred(es[n - 1]) {
            assert(es.take(n).filter(pred) == prev.push(es[n - 1]));
            assert(prev.push(es[n - 1]).map_values(f) =~= prev.map_values(f).push(es[n - 1].pid));
        } else {
            assert(es.take(n).filter(pred) == prev);
        }
    }
}

/// The record that a reading gives for row `i` lists as a child every
/// process (id not 0) on a row whose parent id is the record's id, whether
/// that row comes before or after row `i`; and it lists as many children as
/// there are such rows.
pub proof fn lemma_record_lists_child_rows(es: Seq<SnapshotEntry>, i: int, j: int)
    requires
        0 <= i < es.len(),
        0 <= j < es.len(),
        es[j].pid != 0,
        es[j].parent_pid == es[i].pid,
    ensures
        record_of(es, i).children.contains(es[j].pid),
        record_of(es, i).children.len() == es.filter(|e: SnapshotEntry| e.pid != 0 && e.parent_pid == es[i].pid).len(),
{
    let parent = es[i].pid;
    let pred = |e: SnapshotEntry| e.pid != 0 && e.parent_pid == parent;
    lemma_child_ids_are_child_rows(es, parent, es.len() as int);
    assert(es.take(es.len() as int) =~= es);
    let kept = es.filter(pred);
    es.lemma_filter_contains(pred, j);
    let m = choose|m: int| 0 <= m < kept.len() && kept[m] == es[j];
    assert(kept.map_values(|e: SnapshotEntry| e.pid)[m] == es[j].pid);
}

/// A row that stands for its process is among the kept positions.
proof fn lemma_kept_row_listed(es: Seq<SnapshotEntry>, r: int, n: int)
    requires
        0 <= r < n <= es.len(),
        is_kept(es, r),
    ensures
        kept_positions(es, n).contains(r),
    decreases n,
{
    if r == n - 1 {
        assert(kept_positions(es, n).last() == r);
    } else {
        lemma_kept_row_listed(es, r, n - 1);
        let prev = kept_positions(es, n - 1);
        let k = choose|k: int| 0 <= k < prev.len() && #[trigger] prev[k] == r;
        if is_kept(es, n - 1) {
            assert(kept_positions(es, n)[k] == r);
        }
    }
}

/// The kept positions are exactly the rows with an id other than 0 that no
/// later row repeats, each once, in reading order.
pub proof fn lemma_kept_positions_exact(es: Seq<SnapshotEntry>)
    ensures
        forall|r: int| #[trigger] kept_positions(es, es.len() as int).contains(r) <==> {
            &&& 0 <= r < es.len()
            &&& es[r].pid != 0
            &&& forall|j: int| r < j < es.len() ==> #[trigger] es[j].pid != es[r].pid
        },
        forall|a: int, b: int| 0 <= a < b < kept_positions(es, es.len() as int).len() ==>
            #[trigger] kept_positions(es, es.len() as int)[a] < #[trigger] kept_positions(es, es.len() as int)[b],
{
    let n = es.len() as int;
    lemma_kept_positions_increasing(es, n);
    let ks = kept_positions(es, n);
    assert forall|r: int| #[trigger] ks.contains(r) <==> {
        &&& 0 <= r < es.len()
        &&& es[r].pid != 0
        &&& forall|j: int| r < j < es.len() ==> #[trigger] es[j].pid != es[r].pid
    } by {
        if ks.contains(r) {
            let m = choose|m: int| 0 <= m < ks.len() && ks[m] == r;
            assert(is_kept(es, ks[m]));
        }
        if 0 <= r < es.len() && es[r].pid != 0 && forall|j: int| r < j < es.len() ==> #[trigger] es[j].pid != es[r].pid {
            lemma_kept_row_listed(es, r, n);
        }
    }
}

/// Where row `k` is the first row with the id `pid`, the reading knows the
/// process `pid` by the name of row `k`, wherever `k` stands.
pub proof fn lemma_name_in_first_row(es: Seq<SnapshotEntry>, pid: i32, k: int)
    requires
        0 <= k < es.len(),
        es[k].pid == pid,
        forall|j: int| 0 <= j < k ==> #[trigger] es[j].pid != pid,
    ensures
        name_in(es, pid) == es[k].name@,
    decreases k,
{
    if k > 0 {
        let rest = es.drop_first();
        assert(es[0].pid != pid);
        assert forall|j: int| 0 <= j < k - 1 implies #[trigger] rest[j].pid != pid by {
            assert(rest[j] == es[j + 1]);
        }
        assert(rest[k - 1] == es[k]);
        lemma_name_in_first_row(rest, pid, k - 1);
    }
}

/// Where no row has the id `pid`, the reading knows it as `Unknown`.
pub proof fn lemma_name_in_absent(es: Seq<SnapshotEntry>, pid: i32)
    requires
        forall|j: int| 0 <= j < es.len() ==> #[trigger] es[j].pid != pid,
    ensures
        name_in(es, pid) == "Unknown"@,
    decreases es.len(),
{
    if es.len() > 0 {
        let rest = es.drop_first();
        assert(es[0].pid != pid);
        assert forall|j: int| 0 <= j < rest.len() implies #[trigger] rest[j].pid != pid by {
            assert(rest[j] == es[j + 1]);
        }
        lemma_name_in_absent(rest, pid);
    }
}

/// Every row with an id other than 0 has a kept row with the same id.
pub proof fn lemma_row_has_kept_row(es: Seq<SnapshotEntry>, j: int)
    requires
        0 <= j < es.len(),
        es[j].pid != 0,
    ensures
        exists|m: int|
            0 <= m < kept_positions(es, es.len() as int).len()
                && #[trigger] es[kept_positions(es, es.len() as int)[m]].pid == es[j].pid,
    decreases es.len() - j,
{
    if is_last_of_pid(es, j) {
        lemma_kept_row_listed(es, j, es.len() as int);
        let ks = kept_positions(es, es.len() as int);
        let m = choose|m: int| 0 <= m < ks.len() && #[trigger] ks[m] == j;
        assert(es[ks[m]].pid == es[j].pid);
    } else {
        let k = choose|k: int| j < k < es.len() && #[trigger] es[k].pid == es[j].pid;
        lemma_row_has_kept_row(es, k);
    }
}

} // verus!
