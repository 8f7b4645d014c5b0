//! The console lister's view of the process table: a flat record per process
//! and the attachment of processes to the idle process at the top.

use std::collections::HashSet;
use vstd::prelude::*;
use vstd::std_specs::hash::*;
use crate::process::{copy_ids, edited, ProcessView, RecordEdit};
use crate::snapshot::{SnapshotEntry, kept_positions, kept_rows, is_kept, is_last_of_pid, lemma_kept_positions_increasing};

verus! {

broadcast use group_hash_axioms;

/// A process as the lister keeps it: id, executable name and the ids of the
/// processes attached to it.
pub struct Process {
    pid: i32,
    name: String,
    children: Vec<i32>,
}

impl View for Process {
    type V = ProcessView;

    closed spec fn view(&self) -> ProcessView {
        ProcessView { pid: self.pid, name: self.name@, children: self.children@ }
    }
}

impl Clone for Process {
    fn clone(&self) -> (r: Self)
        ensures
            r@ == self@,
    {
        let children = copy_ids(&self.children);
        Process { pid: self.pid, name: self.name.clone(), children }
    }
}

impl Process {
    /// A process with the given id and name and no children.
    pub fn new(pid: i32, name: String) -> (p: Process)
        ensures
            p@ == (ProcessView { pid, name: name@, children: Seq::empty() }),
    {
        Process { pid, name, children: Vec::new() }
    }

    /// The process id.
    pub fn get_pid(&self) -> (pid: i32)
        ensures
            pid == self@.pid,
    {
        self.pid
    }

    /// Whether any child is attached.
    pub fn has_children(&self) -> (r: bool)
        ensures
            r == (self@.children.len() > 0),
    {
        self.children.len() > 0
    }

    /// The executable name.
    pub fn get_name(&self) -> (name: &str)
        ensures
            name@ == self@.name,
    {
        self.name.as_str()
    }

    /// Attaches `child` after the children attached so far.
    pub fn add_child(&mut self, child: i32)
        ensures
            final(self)@ == edited(old(self)@, RecordEdit::AddChild(child)),
    {
        self.children.push(child);
    }

    /// Replaces the name.
    pub fn set_name(&mut self, name: String)
        ensures
            final(self)@ == edited(old(self)@, RecordEdit::SetName(name@)),
    {
        self.name = name;
    }

    /// The ids of the attached children, in order of attachment.
    pub fn get_children(&self) -> (children: &Vec<i32>)
        ensures
            children@ == self@.children,
    {
        &self.children
    }

    /// The ids met in a walk of this process: its own id, then the id of
    /// each attached child, in order.
    pub fn traverse(&self) -> (ids: Vec<&i32>)
        ensures
            ids@.unref() == seq![self@.pid] + self@.children,
    {
        let mut ids: Vec<&i32> = Vec::new();
        ids.push(&self.pid);
        let mut i: usize = 0;
        while i < self.children.len()
            invariant
                i <= self.children.len(),
                ids@.unref() == seq![self.pid] + self.children@.subrange(0, i as int),
            decreases self.children.len() - i,
        {
            let ghost prev = ids@;
            ids.push(&self.children[i]);
            proof {
                assert(ids@.unref() =~= prev.unref().push(self.children@[i as int]));
                assert(ids@.unref() =~= seq![self.pid] + self.children@.subrange(0, i + 1));
            }
            i = i + 1;
        }
        assert(self.children@.subrange(0, self.children@.len() as int) =~= self.children@);
        ids
    }
}

/// Process `pid` reaches the idle process within `depth` steps: a pending
/// pair gives it parent 0, or a parent that reaches it in fewer steps.
pub open spec fn anchored(pend: Seq<(i32, i32)>, pid: i32, depth: nat) -> bool
    decreases depth,
{
    exists|i: int|
        #![trigger pend[i]]
        0 <= i < pend.len() && pend[i].1 == pid && (pend[i].0 == 0 || (depth > 0 && anchored(pend, pend[i].0, (depth - 1) as nat)))
}

/// Process `pid` is linked, through its chain of parents, to the idle process.
pub open spec fn reaches_idle(pend: Seq<(i32, i32)>, pid: i32) -> bool {
    exists|depth: nat| anchored(pend, pid, depth)
}

/// The ids of the pending pairs among the first `n` whose parent is 0, in order.
pub open spec fn top_level_ids(pend: Seq<(i32, i32)>, n: int) -> Seq<i32>
    decreases n,
{
    if n <= 0 {
        Seq::empty()
    } else if pend[n - 1].0 == 0 {
        top_level_ids(pend, n - 1).push(pend[n - 1].1)
    } else {
        top_level_ids(pend, n - 1)
    }
}

/// Process `pid` is not linked to the idle process and has a pair among the
/// first `n`.
pub open spec fn stray_before(pend: Seq<(i32, i32)>, n: int, pid: i32) -> bool {
    exists|j: int| #![trigger pend[j]] 0 <= j < n && pend[j].1 == pid && !reaches_idle(pend, pid)
}

/// The ids, among the first `n` pairs, of the processes not linked to the
/// idle process whose parent is neither linked to it nor an earlier such
/// process: they are attached to the idle process last, in order.
pub open spec fn stray_ids(pend: Seq<(i32, i32)>, n: int) -> Seq<i32>
    decreases n,
{
    if n <= 0 {
        Seq::empty()
    } else {
        let e = pend[n - 1];
        if !reaches_idle(pend, e.1) && !reaches_idle(pend, e.0) && !stray_before(pend, n - 1, e.0) {
            stray_ids(pend, n - 1).push(e.1)
        } else {
            stray_ids(pend, n - 1)
        }
    }
}

/// Among the first `n` pairs, the top-level ids are the ids of the pairs
/// whose parent is 0, one per such pair, in order.
pub proof fn lemma_top_level_ids_are_root_pairs(pend: Seq<(i32, i32)>, n: int)
    requires
        0 <= n <= pend.len(),
    ensures
        top_level_ids(pend, n) == pend.take(n).filter(|e: (i32, i32)| e.0 == 0).map_values(|e: (i32, i32)| e.1),
    decreases n,
{
    reveal(Seq::filter);
    let pred = |e: (i32, i32)| e.0 == 0;
    let f = |e: (i32, i32)| e.1;
    if n == 0 {
        assert(pend.take(0).filter(pred) =~= Seq::<(i32, i32)>::empty());
        assert(pend.take(0).filter(pred).map_values(f) =~= Seq::<i32>::empty());
    } else {
        lemma_top_level_ids_are_root_pairs(pend, n - 1);
        assert(pend.take(n).drop_last() =~= pend.take(n - 1));
        assert(pend.take(n).last() == pend[n - 1]);
        let prev = pend.take(n - 1).filter(pred);
        if pred(pend[n - 1]) {
            assert(pend.take(n).filter(pred) == prev.push(pend[n - 1]));
            assert(prev.push(pend[n - 1]).map_values(f) =~= prev.map_values(f).push(pend[n - 1].1));
        } else {
            assert(pend.take(n).filter(pred) == prev);
        }
    }
}

/// A process reaches the idle process exactly when some pair gives it
/// parent 0 or a parent that reaches the idle process.
pub proof fn lemma_reaches_idle_step(pend: Seq<(i32, i32)>, pid: i32)
    ensures
        reaches_idle(pend, pid) <==> exists|j: int|
            #![trigger pend[j]]
            0 <= j < pend.len() && pend[j].1 == pid && (pend[j].0 == 0 || reaches_idle(pend, pend[j].0)),
{
    if reaches_idle(pend, pid) {
        let depth = choose|depth: nat| anchored(pend, pid, depth);
        let j = choose|j: int|
            #![trigger pend[j]]
            0 <= j < pend.len() && pend[j].1 == pid && (pend[j].0 == 0 || (depth > 0 && anchored(pend, pend[j].0, (depth - 1) as nat)));
        if pend[j].0 != 0 {
            assert(anchored(pend, pend[j].0, (depth - 1) as nat));
            assert(reaches_idle(pend, pend[j].0));
        }
    }
    if exists|j: int|
        #![trigger pend[j]]
        0 <= j < pend.len() && pend[j].1 == pid && (pend[j].0 == 0 || reaches_idle(pend, pend[j].0)) {
        let j = choose|j: int|
            #![trigger pend[j]]
            0 <= j < pend.len() && pend[j].1 == pid && (pend[j].0 == 0 || reaches_idle(pend, pend[j].0));
        if pend[j].0 == 0 {
            assert(anchored(pend, pid, 0));
        } else {
            let d = choose|d: nat| anchored(pend, pend[j].0, d);
            assert(anchored(pend, pid, d + 1));
        }
    }
}

/// Each id attached to the idle process last has a pair, does not reach the
/// idle process, and neither does its parent.
pub proof fn lemma_stray_ids_are_cut_off(pend: Seq<(i32, i32)>, n: int, x: i32)
    requires
        0 <= n <= pend.len(),
        stray_ids(pend, n).contains(x),
    ensures
        !reaches_idle(pend, x),
        exists|j: int| #![trigger pend[j]] 0 <= j < n && pend[j].1 == x && !reaches_idle(pend, pend[j].0),
    decreases n,
{
    let e = pend[n - 1];
    let prev = stray_ids(pend, n - 1);
    if !reaches_idle(pend, e.1) && !reaches_idle(pend, e.0) && !stray_before(pend, n - 1, e.0) && x == e.1 {
    } else {
        if !reaches_idle(pend, e.1) && !reaches_idle(pend, e.0) && !stray_before(pend, n - 1, e.0) {
            let k = choose|k: int| 0 <= k < prev.len() + 1 && #[trigger] prev.push(e.1)[k] == x;
            assert(prev[k] == x);
        }
        lemma_stray_ids_are_cut_off(pend, n - 1, x);
    }
}

/// The idle process that a listing hangs from, as `attach_to_idle` builds it.
pub open spec fn idle_with(children: Seq<i32>) -> ProcessView {
    ProcessView { pid: 0, name: "System Idle Process"@, children }
}

/// How many flags are set.
pub open spec fn count_set(s: Seq<bool>) -> nat
    decreases s.len(),
{
    if s.len() == 0 {
        0
    } else {
        count_set(s.drop_last()) + if s.last() { 1nat } else { 0nat }
    }
}

proof fn lemma_count_set_none(s: Seq<bool>)
    requires
        forall|i: int| 0 <= i < s.len() ==> !#[trigger] s[i],
    ensures
        count_set(s) == 0,
    decreases s.len(),
{
    if s.len() > 0 {
        lemma_count_set_none(s.drop_last());
    }
}

proof fn lemma_count_set_bound(s: Seq<bool>)
    ensures
        count_set(s) <= s.len(),
        count_set(s) == s.len() ==> forall|i: int| 0 <= i < s.len() ==> #[trigger] s[i],
    decreases s.len(),
{
    if s.len() > 0 {
        lemma_count_set_bound(s.drop_last());
        assert forall|i: int| 0 <= i < s.len() && count_set(s) == s.len() implies #[trigger] s[i] by {
            if i < s.len() - 1 {
                assert(s.drop_last()[i] == s[i]);
            }
        }
    }
}

proof fn lemma_count_set_update(s: Seq<bool>, i: int)
    requires
        0 <= i < s.len(),
        !s[i],
    ensures
        count_set(s.update(i, true)) == count_set(s) + 1,
    decreases s.len(),
{
    if i < s.len() - 1 {
        lemma_count_set_update(s.drop_last(), i);
        assert(s.update(i, true).drop_last() =~= s.drop_last().update(i, true));
    } else {
        assert(s.update(i, true).drop_last() =~= s.drop_last());
    }
}

/// A process whose parent chain never reaches a pair that the fixed set
/// lacks is in that set, when every pair outside the set has a parent other
/// than 0 and outside the set.
proof fn lemma_anchored_in_closed_set(pend: Seq<(i32, i32)>, done: Set<i32>, pid: i32, depth: nat)
    requires
        anchored(pend, pid, depth),
        forall|j: int| #![trigger pend[j]] 0 <= j < pend.len() && !done.contains(pend[j].1) ==>
            pend[j].0 != 0 && !done.contains(pend[j].0),
    ensures
        done.contains(pid),
    decreases depth,
{
    let i = choose|i: int|
        #![trigger pend[i]]
        0 <= i < pend.len() && pend[i].1 == pid && (pend[i].0 == 0 || (depth > 0 && anchored(pend, pend[i].0, (depth - 1) as nat)));
    if !done.contains(pid) {
        if pend[i].0 != 0 {
            lemma_anchored_in_closed_set(pend, done, pend[i].0, (depth - 1) as nat);
        }
    }
}

/// The idle process with the processes of `pend` (pairs of parent id and id,
/// ids distinct) attached as the lister attaches them: first, in order, every
/// process whose parent is 0; then, in order, every process that is not
/// linked to the idle process through its parents and whose parent is
/// neither linked to it nor an earlier such process.
pub fn attach_to_idle(pend: &Vec<(i32, i32)>) -> (root: Process)
    requires
        forall|a: int, b: int| 0 <= a < b < pend@.len() ==> #[trigger] pend@[a].1 != #[trigger] pend@[b].1,
    ensures
        root@ == idle_with(top_level_ids(pend@, pend@.len() as int) + stray_ids(pend@, pend@.len() as int)),
{
    let n = pend.len();
    let mut root = Process::new(0, String::from_str("System Idle Process"));
    let mut processed: HashSet<i32> = HashSet::new();
    let mut done: Vec<bool> = Vec::new();
    let mut k: usize = 0;
    while k < n
        invariant
            k <= n,
            n == pend@.len(),
            done@.len() == k,
            forall|j: int| 0 <= j < k ==> !#[trigger] done@[j],
        decreases n - k,
    {
        done.push(false);
        k = k + 1;
    }
    proof {
        lemma_count_set_none(done@);
    }
    let mut count: usize = 0;
    let mut first_round = true;
    // Rounds: attach every pending process whose parent is 0 or already
    // attached, until a round attaches nothing.
    loop
        invariant
            n == pend@.len(),
            done@.len() == n,
            count == count_set(done@),
            count <= n,
            forall|a: int, b: int| 0 <= a < b < pend@.len() ==> #[trigger] pend@[a].1 != #[trigger] pend@[b].1,
            forall|j: int| #![trigger done@[j]] 0 <= j < n ==> (done@[j] <==> processed@.contains(pend@[j].1)),
            forall|x: i32| processed@.contains(x) ==> exists|j: int| #![trigger pend@[j]] 0 <= j < n && pend@[j].1 == x,
            forall|x: i32| processed@.contains(x) ==> reaches_idle(pend@, x),
            first_round ==> count == 0 && root@ == idle_with(Seq::empty()),
            first_round ==> forall|j: int| 0 <= j < n ==> !#[trigger] done@[j],
            !first_round ==> root@ == idle_with(top_level_ids(pend@, n as int)),
            !first_round ==> forall|j: int| #![trigger pend@[j]] 0 <= j < n && pend@[j].0 == 0 ==> done@[j],
        ensures
            done@.len() == n,
            forall|a: int, b: int| 0 <= a < b < pend@.len() ==> #[trigger] pend@[a].1 != #[trigger] pend@[b].1,
            forall|j: int| #![trigger done@[j]] 0 <= j < n ==> (done@[j] <==> processed@.contains(pend@[j].1)),
            forall|x: i32| processed@.contains(x) ==> reaches_idle(pend@, x),
            forall|j: int| #![trigger pend@[j]] 0 <= j < n && !processed@.contains(pend@[j].1) ==>
                pend@[j].0 != 0 && !processed@.contains(pend@[j].0),
            root@ == idle_with(top_level_ids(pend@, n as int)),
        decreases n - count,
    {
        if count == n {
            proof {
                lemma_count_set_bound(done@);
            }
            break;
        }
        let ghost start = processed@;
        let start_count = count;
        let mut progress = false;
        let mut i: usize = 0;
        while i < n
            invariant
                i <= n,
                n == pend@.len(),
                done@.len() == n,
                count == count_set(done@),
                count <= n,
                forall|a: int, b: int| 0 <= a < b < pend@.len() ==> #[trigger] pend@[a].1 != #[trigger] pend@[b].1,
                forall|j: int| #![trigger done@[j]] 0 <= j < n ==> (done@[j] <==> processed@.contains(pend@[j].1)),
                forall|x: i32| processed@.contains(x) ==> exists|j: int| #![trigger pend@[j]] 0 <= j < n && pend@[j].1 == x,
                forall|x: i32| processed@.contains(x) ==> reaches_idle(pend@, x),
                start.subset_of(processed@),
                first_round ==> root@ == idle_with(top_level_ids(pend@, i as int)),
                first_round ==> forall|j: int| i <= j < n ==> !#[trigger] done@[j],
                first_round ==> forall|j: int| #![trigger pend@[j]] 0 <= j < i && pend@[j].0 == 0 ==> done@[j],
                !first_round ==> root@ == idle_with(top_level_ids(pend@, n as int)),
                !first_round ==> forall|j: int| #![trigger pend@[j]] 0 <= j < n && pend@[j].0 == 0 ==> done@[j],
                !progress ==> processed@ == start,
                !progress ==> forall|j: int| #![trigger pend@[j]] 0 <= j < i && !processed@.contains(pend@[j].1) ==>
                    pend@[j].0 != 0 && !processed@.contains(pend@[j].0),
                progress ==> count > start_count,
                !progress ==> count == start_count,
            decreases n - i,
        {
            if !done[i] {
                let (parent, pid) = pend[i];
                proof {
                    lemma_count_set_bound(done@);
                    lemma_count_set_update(done@, i as int);
                    lemma_count_set_bound(done@.update(i as int, true));
                }
                if processed.contains(&pid) {
                    // an id already attached: nothing more to do for it
                } else if parent == 0 {
                    root.add_child(pid);
                    processed.insert(pid);
                    proof {
                        assert(anchored(pend@, pid, 0));
                    }
                    done.set(i, true);
                    count = count + 1;
                    progress = true;
                } else if processed.contains(&parent) {
                    processed.insert(pid);
                    proof {
                        let d = choose|d: nat| anchored(pend@, parent, d);
                        assert(anchored(pend@, pid, d + 1));
                    }
                    done.set(i, true);
                    count = count + 1;
                    progress = true;
                }
            }
            i = i + 1;
        }
        first_round = false;
        if !progress {
            break;
        }
    }
    let ghost fixed = processed@;
    let ghost done_fix = done@;
    proof {
        assert forall|x: i32| fixed.contains(x) <==> reaches_idle(pend@, x) by {
            if reaches_idle(pend@, x) {
                let d = choose|d: nat| anchored(pend@, x, d);
                lemma_anchored_in_closed_set(pend@, fixed, x, d);
            }
        }
    }
    // Processes left over: attach each to its parent when that is attached
    // already, else to the idle process.
    let mut i: usize = 0;
    while i < n
        invariant
            i <= n,
            n == pend@.len(),
            done@ == done_fix,
            done_fix.len() == n,
            forall|a: int, b: int| 0 <= a < b < pend@.len() ==> #[trigger] pend@[a].1 != #[trigger] pend@[b].1,
            forall|j: int| #![trigger done_fix[j]] 0 <= j < n ==> (done_fix[j] <==> fixed.contains(pend@[j].1)),
            forall|x: i32| #![trigger fixed.contains(x)] #![trigger reaches_idle(pend@, x)] fixed.contains(x) <==> reaches_idle(pend@, x),
            forall|x: i32| #![trigger processed@.contains(x)] #![trigger stray_before(pend@, i as int, x)]
                processed@.contains(x) <==> (fixed.contains(x) || stray_before(pend@, i as int, x)),
            root@ == idle_with(top_level_ids(pend@, n as int) + stray_ids(pend@, i as int)),
        decreases n - i,
    {
        let ghost before = processed@;
        let ghost before_root = root@;
        if !done[i] {
            let (parent, pid) = pend[i];
            proof {
                assert(!fixed.contains(pid));
                assert forall|j: int| 0 <= j < i implies #[trigger] pend@[j].1 != pid by {}
                assert(!stray_before(pend@, i as int, pid));
                assert(!before.contains(pid));
                assert(processed@.contains(parent) <==> (fixed.contains(parent) || stray_before(pend@, i as int, parent)));
                assert(fixed.contains(parent) <==> reaches_idle(pend@, parent));
                assert(before.contains(parent) <==> (reaches_idle(pend@, parent) || stray_before(pend@, i as int, parent)));
                if parent == 0 {
                    assert(anchored(pend@, pid, 0));
                }
            }
            if processed.contains(&pid) {
            } else {
                if parent == 0 {
                    root.add_child(pid);
                } else if processed.contains(&parent) {
                } else {
                    root.add_child(pid);
                }
                processed.insert(pid);
            }
            proof {
                assert(processed@ == before.insert(pid));
                assert forall|x: i32| processed@.contains(x) <==> (fixed.contains(x) || stray_before(pend@, i + 1, x)) by {
                    if x == pid {
                        assert(pend@[i as int].1 == pid);
                    }
                    if stray_before(pend@, i + 1, x) && x != pid {
                        let j = choose|j: int| #![trigger pend@[j]] 0 <= j < i + 1 && pend@[j].1 == x && !reaches_idle(pend@, x);
                        assert(j != i);
                        assert(stray_before(pend@, i as int, x));
                    }
                    if stray_before(pend@, i as int, x) {
                        let j = choose|j: int| #![trigger pend@[j]] 0 <= j < i && pend@[j].1 == x && !reaches_idle(pend@, x);
                        assert(stray_before(pend@, i + 1, x));
                    }
                }
                let top = top_level_ids(pend@, n as int);
                if !before.contains(parent) {
                    assert(stray_ids(pend@, i + 1) == stray_ids(pend@, i as int).push(pid));
                    assert(top + stray_ids(pend@, i + 1) =~= (top + stray_ids(pend@, i as int)).push(pid));
                } else {
                    assert(stray_ids(pend@, i + 1) == stray_ids(pend@, i as int));
                }
            }
        } else {
            proof {
                assert(fixed.contains(pend@[i as int].1));
                assert(stray_ids(pend@, i + 1) == stray_ids(pend@, i as int));
                assert forall|x: i32| processed@.contains(x) <==> (fixed.contains(x) || stray_before(pend@, i + 1, x)) by {
                    if stray_before(pend@, i + 1, x) {
                        let j = choose|j: int| #![trigger pend@[j]] 0 <= j < i + 1 && pend@[j].1 == x && !reaches_idle(pend@, x);
                        if j == i {
                            assert(false);
                        }
                        assert(stray_before(pend@, i as int, x));
                    }
                    if stray_before(pend@, i as int, x) {
                        let j = choose|j: int| #![trigger pend@[j]] 0 <= j < i && pend@[j].1 == x && !reaches_idle(pend@, x);
                        assert(stray_before(pend@, i + 1, x));
                    }
                }
            }
        }
        i = i + 1;
    }
    root
}

/// The pending pairs (parent id, id) that a reading gives: one per process
/// (id 0 is not a process; where an id appears on several rows its last row
/// counts), in reading order.
pub open spec fn pending_of(es: Seq<SnapshotEntry>) -> Seq<(i32, i32)> {
    kept_positions(es, es.len() as int).map_values(|i: int| (es[i].parent_pid, es[i].pid))
}

/// The idle process with every process of a reading attached as the lister
/// attaches them (see [`attach_to_idle`]).
pub fn listing_root(entries: &Vec<SnapshotEntry>) -> (root: Process)
    ensures
        root@ == idle_with(
            top_level_ids(pending_of(entries@), pending_of(entries@).len() as int)
                + stray_ids(pending_of(entries@), pending_of(entries@).len() as int),
        ),
{
    let rows = kept_rows(entries);
    let ghost ks = kept_positions(entries@, entries@.len() as int);
    let ghost pend = pending_of(entries@);
    proof {
        lemma_kept_positions_increasing(entries@, entries@.len() as int);
        assert forall|m: int| 0 <= m < rows@.len() implies rows@[m] as int == #[trigger] ks[m] by {
            assert(rows@.map_values(|x: usize| x as int)[m] == rows@[m] as int);
        }
    }
    let mut pairs: Vec<(i32, i32)> = Vec::new();
    let mut m: usize = 0;
    while m < rows.len()
        invariant
            m <= rows.len(),
            rows@.len() == ks.len(),
            pend == pending_of(entries@),
            ks == kept_positions(entries@, entries@.len() as int),
            forall|t: int| 0 <= t < rows@.len() ==> rows@[t] as int == #[trigger] ks[t],
            forall|t: int| 0 <= t < ks.len() ==> 0 <= #[trigger] ks[t] < entries@.len() && is_kept(entries@, ks[t]),
            pairs@ == pend.subrange(0, m as int),
        decreases rows.len() - m,
    {
        let i = rows[m];
        assert(ks[m as int] == i as int);
        pairs.push((entries[i].parent_pid, entries[i].pid));
        assert(pairs@ =~= pend.subrange(0, m + 1));
        m = m + 1;
    }
    proof {
        assert(pairs@ =~= pend);
        assert forall|a: int, b: int| 0 <= a < b < pairs@.len() implies #[trigger] pairs@[a].1 != #[trigger] pairs@[b].1 by {
            assert(ks[a] < ks[b]);
            assert(is_last_of_pid(entries@, ks[a]));
            assert(entries@[ks[b]].pid != entries@[ks[a]].pid);
        }
    }
    attach_to_idle(&pairs)
}

/// The name of the last row of a reading with the id `pid`, or an empty name
/// where no row has it.
pub open spec fn last_name(es: Seq<SnapshotEntry>, pid: i32) -> Seq<char>
    decreases es.len(),
{
    if es.len() == 0 {
        Seq::empty()
    } else if es.last().pid == pid {
        es.last().name@
    } else {
        last_name(es.drop_last(), pid)
    }
}

/// Where row `k` has the id `pid` and no later row has it, the last name of
/// `pid` is the name of row `k`, wherever `k` stands in the reading.
pub proof fn lemma_last_name_is_last_row(es: Seq<SnapshotEntry>, pid: i32, k: int)
    requires
        0 <= k < es.len(),
        es[k].pid == pid,
        forall|j: int| k < j < es.len() ==> #[trigger] es[j].pid != pid,
    ensures
        last_name(es, pid) == es[k].name@,
    decreases es.len(),
{
    if k != es.len() - 1 {
        let rest = es.drop_last();
        assert(es.last().pid != pid);
        assert forall|j: int| k < j < rest.len() implies #[trigger] rest[j].pid != pid by {
            assert(rest[j] == es[j]);
        }
        assert(rest[k] == es[k]);
        lemma_last_name_is_last_row(rest, pid, k);
    }
}

/// Where no row of the reading has the id `pid`, its last name is empty.
pub proof fn lemma_last_name_absent(es: Seq<SnapshotEntry>, pid: i32)
    requires
        forall|j: int| 0 <= j < es.len() ==> #[trigger] es[j].pid != pid,
    ensures
        last_name(es, pid) == Seq::<char>::empty(),
    decreases es.len(),
{
    if es.len() > 0 {
        let rest = es.drop_last();
        assert(es.last().pid != pid);
        assert forall|j: int| 0 <= j < rest.len() implies #[trigger] rest[j].pid != pid by {
            assert(rest[j] == es[j]);
        }
        lemma_last_name_absent(rest, pid);
    }
}

/// The name under which the listing of a reading shows the process `pid`:
/// the top process's own name for its id, else the name of the last row of
/// the reading with that id (empty where no row has it).
pub fn listed_name(root: &Process, entries: &Vec<SnapshotEntry>, pid: i32) -> (name: String)
    ensures
        name@ == (if pid == root@.pid { root@.name } else { last_name(entries@, pid) }),
{
    if pid == root.pid {
        return root.name.clone();
    }
    assert(pid != root@.pid);
    let mut i: usize = entries.len();
    assert(entries@.take(i as int) =~= entries@);
    while i > 0
        invariant
            i <= entries@.len(),
            pid != root@.pid,
            last_name(entries@, pid) == last_name(entries@.take(i as int), pid),
        decreases i,
    {
        if entries[i - 1].pid == pid {
            assert(entries@.take(i as int).last() == entries@[i - 1]);
            return entries[i - 1].name.clone();
        }
        assert(entries@.take(i as int).drop_last() =~= entries@.take(i - 1));
        i = i - 1;
    }
    String::new()
}

} // verus!
