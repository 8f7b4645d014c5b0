//! The process tree: a root process and, keyed by process id, the subtrees
//! of the processes that it started.

use std::collections::HashMap;
use vstd::prelude::*;
use vstd::std_specs::hash::*;
use vstd::std_specs::iter::IteratorSpec;
use crate::process::{Process, ProcessView};
use crate::snapshot::{SnapshotEntry, name_in, find_process_in, link_children, kept_positions, record_of, lemma_child_ids_are_rows, lemma_row_has_kept_row};

verus! {

broadcast use group_hash_axioms;

/// A tree of processes. Each subtree is stored under the id of its own root
/// process.
pub struct ProcessTree {
    root: Process,
    children: HashMap<i32, Box<ProcessTree>>,
}

impl ProcessTree {
    /// The root process of the tree.
    pub closed spec fn root_view(&self) -> ProcessView {
        self.root@
    }

    /// The subtrees directly below the root, by key.
    pub closed spec fn subtrees(&self) -> Map<i32, Box<ProcessTree>> {
        self.children@
    }

    /// Every subtree is stored under the id of its own root, at every level.
    pub closed spec fn wf(&self) -> bool
        decreases self,
    {
        forall|k: i32|
            #![trigger self.children@[k]]
            self.children@.contains_key(k) ==> {
                &&& self.children@[k].root@.pid == k
                &&& self.children@[k].wf()
            }
    }

    /// Some node of the tree has the process id `pid`.
    pub closed spec fn has_pid(&self, pid: i32) -> bool
        decreases self,
    {
        ||| self.root@.pid == pid
        ||| exists|k: i32|
            #![trigger self.children@[k]]
            self.children@.contains_key(k) && self.children@[k].has_pid(pid)
    }

    /// Some node below the root holds a process equal to `p`.
    pub closed spec fn has_sub_node(&self, p: ProcessView) -> bool {
        exists|k: i32| #![trigger self.children@[k]] self.children@.contains_key(k) && self.children@[k].has_node(p)
    }

    /// At every node, each subtree is keyed by an id that the node's process
    /// lists among its children.
    pub closed spec fn respects_links(&self) -> bool
        decreases self,
    {
        forall|k: i32|
            #![trigger self.children@.contains_key(k)]
            self.children@.contains_key(k) ==> {
                &&& self.root@.children.contains(k)
                &&& self.children@[k].respects_links()
            }
    }

    /// Every subtree below the root respects the recorded links.
    pub closed spec fn links_below(&self) -> bool {
        forall|k: i32| #![trigger self.children@.contains_key(k)] self.children@.contains_key(k) ==> self.children@[k].respects_links()
    }

    /// Some node of the tree that holds a process equal to `p` keeps a
    /// subtree under the key `c`.
    pub closed spec fn has_link(&self, p: ProcessView, c: i32) -> bool
        decreases self,
    {
        ||| self.root@ == p && self.children@.contains_key(c)
        ||| exists|k: i32|
            #![trigger self.children@[k]]
            self.children@.contains_key(k) && self.children@[k].has_link(p, c)
    }

    /// No process id is found at two nodes of the tree.
    pub closed spec fn pids_once(&self) -> bool
        decreases self,
    {
        &&& forall|k: i32|
            #![trigger self.children@[k]]
            self.children@.contains_key(k) ==> {
                &&& !self.children@[k].has_pid(self.root@.pid)
                &&& self.children@[k].pids_once()
            }
        &&& forall|k1: i32, k2: i32, x: i32|
            #![trigger self.children@[k1].has_pid(x), self.children@[k2].has_pid(x)]
            self.children@.contains_key(k1) && self.children@.contains_key(k2) && k1 != k2
                ==> !(self.children@[k1].has_pid(x) && self.children@[k2].has_pid(x))
    }

    /// The two trees hold equal processes in the same shape.
    pub closed spec fn same_tree(&self, other: ProcessTree) -> bool
        decreases self,
    {
        &&& self.root@ == other.root@
        &&& self.children@.dom() == other.children@.dom()
        &&& forall|k: i32|
            #![trigger self.children@[k]]
            self.children@.contains_key(k) ==> self.children@[k].same_tree(*other.children@[k])
    }

    /// Some node of the tree holds a process equal to `p`.
    pub closed spec fn has_node(&self, p: ProcessView) -> bool
        decreases self,
    {
        ||| self.root@ == p
        ||| exists|k: i32|
            #![trigger self.children@[k]]
            self.children@.contains_key(k) && self.children@[k].has_node(p)
    }
}

impl ProcessTree {
    /// A tree that holds only `root`.
    pub fn new(root: Process) -> (t: ProcessTree)
        ensures
            t.root_view() == root@,
            t.subtrees() == Map::<i32, Box<ProcessTree>>::empty(),
            t.wf(),
    {
        ProcessTree { root, children: HashMap::new() }
    }

    /// The root process.
    pub fn get_root(&self) -> (r: &Process)
        ensures
            r@ == self.root_view(),
    {
        &self.root
    }

    /// The keys of the subtrees directly below the root, each once, in no
    /// particular order.
    pub fn child_keys(&self) -> (ks: Vec<i32>)
        ensures
            forall|k: i32| self.subtrees().contains_key(k) <==> ks@.contains(k),
            ks@.no_duplicates(),
    {
        let mut ks: Vec<i32> = Vec::new();
        let ghost all = spec_keys_iter(&self.children).remaining().unref();
        for k in it: self.children.keys()
            invariant
                it.seq() == spec_keys_iter(&self.children).remaining(),
                all == spec_keys_iter(&self.children).remaining().unref(),
                ks@ == all.take(it.index()),
        {
            ks.push(*k);
            proof {
                assert(all.take(it.index() + 1) =~= all.take(it.index()).push(*k));
            }
        }
        proof {
            assert(ks@ =~= all);
            axiom_spec_keys_iter(&self.children);
            assert(all.no_duplicates());
            assert forall|k: i32| self.children@.contains_key(k) <==> ks@.contains(k) by {
                assert(all.to_set().contains(k) <==> all.contains(k));
            }
        }
        ks
    }

    /// Keeps `sub` directly below the root, under the id of its root process,
    /// in place of any subtree kept there before.
    pub fn insert_subtree(&mut self, sub: ProcessTree)
        ensures
            final(self).root_view() == old(self).root_view(),
            final(self).subtrees().dom() == old(self).subtrees().dom().insert(sub.root_view().pid),
            *final(self).subtrees()[sub.root_view().pid] == sub,
            forall|k: i32| k != sub.root_view().pid && #[trigger] old(self).subtrees().contains_key(k) ==>
                final(self).subtrees()[k] == old(self).subtrees()[k],
            old(self).wf() && sub.wf() ==> final(self).wf(),
    {
        let key = sub.root.get_pid();
        self.children.insert(key, Box::new(sub));
        proof {
            if old(self).wf() && sub.wf() {
                assert forall|k: i32| #![trigger self.children@[k]] self.children@.contains_key(k) implies
                    self.children@[k].root@.pid == k && self.children@[k].wf() by {
                    if k != key {
                        assert(old(self).children@.contains_key(k));
                    }
                }
            }
        }
    }

    /// The subtree directly below the root that is kept under `key`, if any.
    pub fn get_child(&self, key: i32) -> (r: Option<&ProcessTree>)
        ensures
            r is Some <==> self.subtrees().contains_key(key),
            r matches Some(t) ==> *t == *self.subtrees()[key],
    {
        match self.children.get(&key) {
            Some(b) => Some(&**b),
            None => None,
        }
    }

    /// Whether some process of the tree has the id `pid`.
    pub fn pid_exists(&self, pid: i32) -> (r: bool)
        ensures
            r == self.has_pid(pid),
        decreases self,
    {
        if self.root.get_pid() == pid {
            return true;
        }
        let keys = self.child_keys();
        let mut i: usize = 0;
        while i < keys.len()
            invariant
                i <= keys.len(),
                self.root@.pid != pid,
                forall|k: i32| self.children@.contains_key(k) <==> keys@.contains(k),
                forall|j: int| 0 <= j < i ==> !self.children@[#[trigger] keys@[j]].has_pid(pid),
            decreases keys.len() - i,
        {
            let k = keys[i];
            assert(keys@.contains(k));
            let sub = self.children.get(&k).unwrap();
            proof {
                assert(decreases_to!(self => **sub));
            }
            if sub.pid_exists(pid) {
                return true;
            }
            i = i + 1;
        }
        proof {
            assert forall|k: i32| self.children@.contains_key(k) implies !#[trigger] self.children@[k].has_pid(pid) by {
                assert(keys@.contains(k));
                let j = keys@.index_of(k);
                assert(keys@[j] == k);
            }
            assert(!(exists|k: i32| #![trigger self.children@[k]] self.children@.contains_key(k) && self.children@[k].has_pid(pid)));
            assert(!self.has_pid(pid));
        }
        false
    }
}

impl ProcessTree {
    /// `after` is `before` with `child` recorded under one node that holds
    /// `parent`: under the root when the root holds `parent`, where a subtree
    /// keyed by the child's id is kept as it was; otherwise, one level down,
    /// in one subtree that holds `parent`, all other subtrees unchanged.
    pub closed spec fn placed(before: ProcessTree, after: ProcessTree, parent: ProcessView, child: ProcessView) -> bool
        decreases before,
    {
        &&& after.root@ == before.root@
        &&& if before.root@ == parent {
            if before.children@.contains_key(child.pid) {
                after.children@ == before.children@
            } else {
                &&& after.children@.dom() == before.children@.dom().insert(child.pid)
                &&& forall|k: i32| #[trigger] before.children@.contains_key(k) ==> after.children@[k] == before.children@[k]
                &&& after.children@[child.pid].root@ == child
                &&& after.children@[child.pid].children@ == Map::<i32, Box<ProcessTree>>::empty()
            }
        } else {
            exists|k: i32|
                #![trigger before.children@[k]]
                {
                    &&& before.children@.contains_key(k)
                    &&& before.children@[k].has_node(parent)
                    &&& after.children@ == before.children@.insert(k, after.children@[k])
                    &&& ProcessTree::placed(*before.children@[k], *after.children@[k], parent, child)
                }
        }
    }

    /// Whether some node of the tree holds a process equal to `p`.
    fn holds_process(&self, p: &Process) -> (r: bool)
        ensures
            r == self.has_node(p@),
        decreases self,
    {
        if self.root == *p {
            return true;
        }
        let keys = self.child_keys();
        let mut i: usize = 0;
        while i < keys.len()
            invariant
                i <= keys.len(),
                self.root@ != p@,
                forall|k: i32| self.children@.contains_key(k) <==> keys@.contains(k),
                forall|j: int| 0 <= j < i ==> !self.children@[#[trigger] keys@[j]].has_node(p@),
            decreases keys.len() - i,
        {
            let k = keys[i];
            assert(keys@.contains(k));
            let sub = self.children.get(&k).unwrap();
            proof {
                assert(decreases_to!(self => **sub));
            }
            if sub.holds_process(p) {
                return true;
            }
            i = i + 1;
        }
        proof {
            assert forall|k: i32| self.children@.contains_key(k) implies !#[trigger] self.children@[k].has_node(p@) by {
                assert(keys@.contains(k));
                let j = keys@.index_of(k);
                assert(keys@[j] == k);
            }
            assert(!(exists|k: i32| #![trigger self.children@[k]] self.children@.contains_key(k) && self.children@[k].has_node(p@)));
        }
        false
    }

    /// Records `child` under a node that holds `parent`, searching from the
    /// root down; fails when no node holds `parent`.
    pub fn add_child(&mut self, parent: Process, child: Process) -> (r: Result<(), &'static str>)
        ensures
            r is Ok <==> old(self).has_node(parent@),
            r is Ok ==> ProcessTree::placed(*old(self), *final(self), parent@, child@),
            r is Err ==> *final(self) == *old(self),
            final(self).root_view() == old(self).root_view(),
            r matches Err(e) ==> e@ == "Parent not found"@,
            old(self).wf() ==> final(self).wf(),
        decreases *old(self),
    {
        if self.root == parent {
            let key = child.get_pid();
            if !self.children.contains_key(&key) {
                self.children.insert(key, Box::new(ProcessTree::new(child)));
            }
            return Ok(());
        }
        let keys = self.child_keys();
        let mut i: usize = 0;
        while i < keys.len()
            invariant
                i <= keys.len(),
                *self == *old(self),
                self.root@ != parent@,
                forall|k: i32| self.children@.contains_key(k) <==> keys@.contains(k),
                forall|j: int| 0 <= j < i ==> !self.children@[#[trigger] keys@[j]].has_node(parent@),
            decreases keys.len() - i,
        {
            let k = keys[i];
            assert(keys@.contains(k));
            let found = self.children.get(&k).unwrap().holds_process(&parent);
            if found {
                let mut sub = self.children.remove(&k).unwrap();
                proof {
                    assert(decreases_to!(*old(self) => *sub));
                }
                let res = sub.add_child(parent.clone(), child.clone());
                self.children.insert(k, sub);
                proof {
                    let before = *old(self);
                    assert(self.children@ =~= before.children@.insert(k, self.children@[k]));
                    assert(before.children@.contains_key(k));
                    assert(before.children@[k].has_node(parent@));
                    assert(ProcessTree::placed(*before.children@[k], *self.children@[k], parent@, child@));
                    if before.wf() {
                        assert forall|j: i32| #![trigger self.children@[j]] self.children@.contains_key(j) implies
                            self.children@[j].root@.pid == j && self.children@[j].wf() by {
                            if j != k {
                                assert(before.children@.contains_key(j));
                            }
                        }
                    }
                }
                return res;
            }
            i = i + 1;
        }
        proof {
            assert forall|k: i32| self.children@.contains_key(k) implies !#[trigger] self.children@[k].has_node(parent@) by {
                assert(keys@.contains(k));
                let j = keys@.index_of(k);
                assert(keys@[j] == k);
            }
            assert(!(exists|k: i32| #![trigger self.children@[k]] self.children@.contains_key(k) && self.children@[k].has_node(parent@)));
        }
        Err("Parent not found")
    }
}

/// A tree with no subtrees holds only its root: the only process id found in
/// it is the root's.
pub proof fn lemma_lone_root(t: ProcessTree, pid: i32)
    requires
        t.subtrees() == Map::<i32, Box<ProcessTree>>::empty(),
    ensures
        t.has_pid(pid) <==> pid == t.root_view().pid,
{
    if t.has_pid(pid) && pid != t.root@.pid {
        let k = choose|k: i32| #![trigger t.children@[k]] t.children@.contains_key(k) && t.children@[k].has_pid(pid);
    }
}

/// Recording a child keeps every process that the tree held: each node and
/// each process id found before is found after.
pub proof fn lemma_placed_keeps_nodes(before: ProcessTree, after: ProcessTree, parent: ProcessView, child: ProcessView)
    requires
        ProcessTree::placed(before, after, parent, child),
    ensures
        forall|p: ProcessView| before.has_node(p) ==> after.has_node(p),
        forall|pid: i32| before.has_pid(pid) ==> after.has_pid(pid),
    decreases before,
{
    assert forall|p: ProcessView| before.has_node(p) implies after.has_node(p) by {
        if before.root@ != p {
            let j = choose|j: i32| #![trigger before.children@[j]] before.children@.contains_key(j) && before.children@[j].has_node(p);
            if before.root@ == parent {
                assert(after.children@.contains_key(j));
                assert(after.children@[j] == before.children@[j]);
            } else {
                let k = choose|k: i32| #![trigger before.children@[k]] {
                    &&& before.children@.contains_key(k)
                    &&& before.children@[k].has_node(parent)
                    &&& after.children@ == before.children@.insert(k, after.children@[k])
                    &&& ProcessTree::placed(*before.children@[k], *after.children@[k], parent, child)
                };
                if j == k {
                    lemma_placed_keeps_nodes(*before.children@[k], *after.children@[k], parent, child);
                } else {
                    assert(after.children@[j] == before.children@[j]);
                }
                assert(after.children@.contains_key(j));
                assert(after.children@[j].has_node(p));
            }
            assert(after.children@.contains_key(j) && after.children@[j].has_node(p));
        }
    }
    assert forall|pid: i32| before.has_pid(pid) implies after.has_pid(pid) by {
        if before.root@.pid != pid {
            let j = choose|j: i32| #![trigger before.children@[j]] before.children@.contains_key(j) && before.children@[j].has_pid(pid);
            if before.root@ == parent {
                assert(after.children@.contains_key(j));
                assert(after.children@[j] == before.children@[j]);
            } else {
                let k = choose|k: i32| #![trigger before.children@[k]] {
                    &&& before.children@.contains_key(k)
                    &&& before.children@[k].has_node(parent)
                    &&& after.children@ == before.children@.insert(k, after.children@[k])
                    &&& ProcessTree::placed(*before.children@[k], *after.children@[k], parent, child)
                };
                if j == k {
                    lemma_placed_keeps_nodes(*before.children@[k], *after.children@[k], parent, child);
                } else {
                    assert(after.children@[j] == before.children@[j]);
                }
                assert(after.children@.contains_key(j));
                assert(after.children@[j].has_pid(pid));
            }
            assert(after.children@.contains_key(j) && after.children@[j].has_pid(pid));
        }
    }
}

/// Recording a child adds nothing but the child: a process id found after is
/// the child's or was found before.
pub proof fn lemma_placed_adds_only_child(before: ProcessTree, after: ProcessTree, parent: ProcessView, child: ProcessView)
    requires
        ProcessTree::placed(before, after, parent, child),
    ensures
        forall|pid: i32| after.has_pid(pid) ==> before.has_pid(pid) || pid == child.pid,
        forall|p: ProcessView| after.has_node(p) ==> before.has_node(p) || p == child,
    decreases before,
{
    if before.root@ != parent {
        let k = choose|k: i32| #![trigger before.children@[k]] {
            &&& before.children@.contains_key(k)
            &&& before.children@[k].has_node(parent)
            &&& after.children@ == before.children@.insert(k, after.children@[k])
            &&& ProcessTree::placed(*before.children@[k], *after.children@[k], parent, child)
        };
        lemma_placed_adds_only_child(*before.children@[k], *after.children@[k], parent, child);
        assert forall|pid: i32| after.has_pid(pid) implies before.has_pid(pid) || pid == child.pid by {
            if after.root@.pid != pid {
                let j = choose|j: i32| #![trigger after.children@[j]] after.children@.contains_key(j) && after.children@[j].has_pid(pid);
                assert(before.children@.contains_key(j));
                if j != k {
                    assert(after.children@[j] == before.children@[j]);
                }
            }
        }
        assert forall|p: ProcessView| after.has_node(p) implies before.has_node(p) || p == child by {
            if after.root@ != p {
                let j = choose|j: i32| #![trigger after.children@[j]] after.children@.contains_key(j) && after.children@[j].has_node(p);
                assert(before.children@.contains_key(j));
                if j != k {
                    assert(after.children@[j] == before.children@[j]);
                }
            }
        }
    } else {
        assert forall|pid: i32| after.has_pid(pid) implies before.has_pid(pid) || pid == child.pid by {
            if after.root@.pid != pid {
                let j = choose|j: i32| #![trigger after.children@[j]] after.children@.contains_key(j) && after.children@[j].has_pid(pid);
                if before.children@.contains_key(j) {
                    assert(after.children@[j] == before.children@[j]);
                } else {
                    assert(j == child.pid);
                    let sub = after.children@[j];
                    if sub.root@.pid != pid {
                        let m = choose|m: i32| #![trigger sub.children@[m]] sub.children@.contains_key(m) && sub.children@[m].has_pid(pid);
                        assert(false);
                    }
                }
            }
        }
        assert forall|p: ProcessView| after.has_node(p) implies before.has_node(p) || p == child by {
            if after.root@ != p {
                let j = choose|j: i32| #![trigger after.children@[j]] after.children@.contains_key(j) && after.children@[j].has_node(p);
                if before.children@.contains_key(j) {
                    assert(after.children@[j] == before.children@[j]);
                } else {
                    let sub = after.children@[j];
                    if sub.root@ != p {
                        let m = choose|m: i32| #![trigger sub.children@[m]] sub.children@.contains_key(m) && sub.children@[m].has_node(p);
                        assert(false);
                    }
                }
            }
        }
    }
}

/// In a well-formed tree, once a child has been recorded its process id is
/// found in the tree.
pub proof fn lemma_placed_child_is_found(before: ProcessTree, after: ProcessTree, parent: ProcessView, child: ProcessView)
    requires
        before.wf(),
        ProcessTree::placed(before, after, parent, child),
    ensures
        after.has_pid(child.pid),
    decreases before,
{
    if before.root@ == parent {
        assert(after.children@.contains_key(child.pid));
        if before.children@.contains_key(child.pid) {
            assert(after.children@[child.pid] == before.children@[child.pid]);
            assert(after.children@[child.pid].has_pid(child.pid));
        } else {
            assert(after.children@[child.pid].has_pid(child.pid));
        }
    } else {
        let k = choose|k: i32| #![trigger before.children@[k]] {
            &&& before.children@.contains_key(k)
            &&& before.children@[k].has_node(parent)
            &&& after.children@ == before.children@.insert(k, after.children@[k])
            &&& ProcessTree::placed(*before.children@[k], *after.children@[k], parent, child)
        };
        lemma_placed_child_is_found(*before.children@[k], *after.children@[k], parent, child);
        assert(after.children@.contains_key(k));
    }
}

/// A node below the root is a node of the tree.
pub proof fn lemma_sub_node_is_node(t: ProcessTree, p: ProcessView)
    requires
        t.has_sub_node(p),
    ensures
        t.has_node(p),
{
}

/// The process ids found in a tree are the root's and those of the nodes
/// below it.
pub proof fn lemma_pid_has_node(t: ProcessTree, pid: i32)
    requires
        t.has_pid(pid),
    ensures
        t.root_view().pid == pid || exists|p: ProcessView| #[trigger] t.has_sub_node(p) && p.pid == pid,
    decreases t,
{
    if t.root@.pid != pid {
        let k = choose|k: i32| #![trigger t.children@[k]] t.children@.contains_key(k) && t.children@[k].has_pid(pid);
        let c = *t.children@[k];
        lemma_pid_has_node(c, pid);
        if c.root@.pid == pid {
            assert(c.has_node(c.root@));
            assert(t.has_sub_node(c.root@));
        } else {
            let p = choose|p: ProcessView| #[trigger] c.has_sub_node(p) && p.pid == pid;
            assert(c.has_node(p));
            assert(t.has_sub_node(p));
        }
    }
}

/// Recording a child adds no node below the root but the child's.
pub proof fn lemma_placed_sub_nodes(before: ProcessTree, after: ProcessTree, parent: ProcessView, child: ProcessView)
    requires
        ProcessTree::placed(before, after, parent, child),
    ensures
        forall|p: ProcessView| after.has_sub_node(p) ==> before.has_sub_node(p) || p == child,
{
    assert forall|p: ProcessView| after.has_sub_node(p) implies before.has_sub_node(p) || p == child by {
        let j = choose|j: i32| #![trigger after.children@[j]] after.children@.contains_key(j) && after.children@[j].has_node(p);
        if before.root@ == parent {
            if before.children@.contains_key(j) {
                assert(after.children@[j] == before.children@[j]);
            } else {
                let sub = after.children@[j];
                if sub.root@ != p {
                    let m = choose|m: i32| #![trigger sub.children@[m]] sub.children@.contains_key(m) && sub.children@[m].has_node(p);
                    assert(false);
                }
            }
        } else {
            let k = choose|k: i32| #![trigger before.children@[k]] {
                &&& before.children@.contains_key(k)
                &&& before.children@[k].has_node(parent)
                &&& after.children@ == before.children@.insert(k, after.children@[k])
                &&& ProcessTree::placed(*before.children@[k], *after.children@[k], parent, child)
            };
            assert(before.children@.contains_key(j));
            if j == k {
                lemma_placed_adds_only_child(*before.children@[k], *after.children@[k], parent, child);
            } else {
                assert(after.children@[j] == before.children@[j]);
            }
        }
    }
}

/// In a well-formed tree, after a child is recorded a node holds the child,
/// or a node below the root held a process with the child's id before.
pub proof fn lemma_placed_child_node(before: ProcessTree, after: ProcessTree, parent: ProcessView, child: ProcessView)
    requires
        before.wf(),
        ProcessTree::placed(before, after, parent, child),
    ensures
        after.has_node(child) || exists|p: ProcessView| #[trigger] before.has_sub_node(p) && p.pid == child.pid,
    decreases before,
{
    if before.root@ == parent {
        if before.children@.contains_key(child.pid) {
            let c = before.children@[child.pid];
            assert(c.has_node(c.root@));
            assert(before.has_sub_node(c.root@));
        } else {
            assert(after.children@.contains_key(child.pid));
            assert(after.children@[child.pid].has_node(child));
        }
    } else {
        let k = choose|k: i32| #![trigger before.children@[k]] {
            &&& before.children@.contains_key(k)
            &&& before.children@[k].has_node(parent)
            &&& after.children@ == before.children@.insert(k, after.children@[k])
            &&& ProcessTree::placed(*before.children@[k], *after.children@[k], parent, child)
        };
        let b = *before.children@[k];
        lemma_placed_child_node(b, *after.children@[k], parent, child);
        assert(after.children@.contains_key(k));
        if !after.children@[k].has_node(child) {
            let p = choose|p: ProcessView| #[trigger] b.has_sub_node(p) && p.pid == child.pid;
            assert(b.has_node(p));
            assert(before.has_sub_node(p));
        }
    }
}

proof fn lemma_respects_links_at(t: ProcessTree, k: i32)
    requires
        t.respects_links(),
        t.children@.contains_key(k),
    ensures
        t.root@.children.contains(k),
        t.children@[k].respects_links(),
{
    assert(t.children@[k].respects_links());
}

/// Recording a child under a process that lists it keeps the links of a
/// tree that respects them.
proof fn lemma_placed_respects_links(before: ProcessTree, after: ProcessTree, parent: ProcessView, child: ProcessView)
    requires
        before.respects_links(),
        parent.children.contains(child.pid),
        ProcessTree::placed(before, after, parent, child),
    ensures
        after.respects_links(),
    decreases before,
{
    if before.root@ == parent {
        assert forall|k: i32| #![trigger after.children@[k]] after.children@.contains_key(k) implies
            after.root@.children.contains(k) && after.children@[k].respects_links() by {
            if before.children@.contains_key(k) {
                lemma_respects_links_at(before, k);
                assert(after.children@[k] == before.children@[k]);
            } else {
                assert(after.children@[k].children@ == Map::<i32, Box<ProcessTree>>::empty());
                assert(after.children@[k].respects_links());
            }
        }
        assert(after.respects_links());
    } else {
        let k = choose|k: i32| #![trigger before.children@[k]] {
            &&& before.children@.contains_key(k)
            &&& before.children@[k].has_node(parent)
            &&& after.children@ == before.children@.insert(k, after.children@[k])
            &&& ProcessTree::placed(*before.children@[k], *after.children@[k], parent, child)
        };
        lemma_placed_respects_links(*before.children@[k], *after.children@[k], parent, child);
        assert forall|j: i32| #![trigger after.children@[j]] after.children@.contains_key(j) implies
            after.root@.children.contains(j) && after.children@[j].respects_links() by {
            assert(before.children@.contains_key(j));
            lemma_respects_links_at(before, j);
            if j != k {
                assert(after.children@[j] == before.children@[j]);
                assert(before.children@[j].respects_links());
            }
        }
        assert(after.respects_links());
    }
}

/// Recording a child under the root, or under a process that lists it, keeps
/// the links below the root.
pub proof fn lemma_placed_links_below(before: ProcessTree, after: ProcessTree, parent: ProcessView, child: ProcessView)
    requires
        before.links_below(),
        before.root_view() == parent || parent.children.contains(child.pid),
        ProcessTree::placed(before, after, parent, child),
    ensures
        after.links_below(),
{
    if before.root@ == parent {
        if !before.children@.contains_key(child.pid) {
            assert forall|k: i32| #![trigger after.children@[k]] after.children@.contains_key(k) implies
                after.children@[k].respects_links() by {
                if k != child.pid {
                    assert(before.children@.contains_key(k));
                }
            }
        }
    } else {
        let k = choose|k: i32| #![trigger before.children@[k]] {
            &&& before.children@.contains_key(k)
            &&& before.children@[k].has_node(parent)
            &&& after.children@ == before.children@.insert(k, after.children@[k])
            &&& ProcessTree::placed(*before.children@[k], *after.children@[k], parent, child)
        };
        lemma_placed_respects_links(*before.children@[k], *after.children@[k], parent, child);
        assert forall|j: i32| #![trigger after.children@[j]] after.children@.contains_key(j) implies
            after.children@[j].respects_links() by {
            assert(before.children@.contains_key(j));
        }
    }
}

/// What the spec functions of a tree say, one level at a time, over its
/// root and its subtrees.
pub proof fn lemma_tree_levels(t: ProcessTree)
    ensures
        t.has_node(t.root_view()),
        t.has_pid(t.root_view().pid),
        forall|x: i32| #[trigger] t.has_pid(x) <==> (t.root_view().pid == x
            || exists|k: i32| t.subtrees().contains_key(k) && #[trigger] t.subtrees()[k].has_pid(x)),
        forall|p: ProcessView| #[trigger] t.has_node(p) <==> (t.root_view() == p
            || exists|k: i32| t.subtrees().contains_key(k) && #[trigger] t.subtrees()[k].has_node(p)),
        forall|p: ProcessView, c: i32| #[trigger] t.has_link(p, c) <==> ((t.root_view() == p && t.subtrees().contains_key(c))
            || exists|k: i32| t.subtrees().contains_key(k) && #[trigger] t.subtrees()[k].has_link(p, c)),
        t.wf() <==> forall|k: i32| #[trigger] t.subtrees().contains_key(k) ==>
            t.subtrees()[k].root_view().pid == k && t.subtrees()[k].wf(),
{
    assert forall|x: i32| #[trigger] t.has_pid(x) <==> (t.root_view().pid == x
        || exists|k: i32| t.subtrees().contains_key(k) && #[trigger] t.subtrees()[k].has_pid(x)) by {
        if exists|k: i32| t.subtrees().contains_key(k) && #[trigger] t.subtrees()[k].has_pid(x) {
            let k = choose|k: i32| t.subtrees().contains_key(k) && #[trigger] t.subtrees()[k].has_pid(x);
            assert(t.children@[k].has_pid(x));
        }
        if t.has_pid(x) && t.root_view().pid != x {
            let k = choose|k: i32| #![trigger t.children@[k]] t.children@.contains_key(k) && t.children@[k].has_pid(x);
            assert(t.subtrees()[k].has_pid(x));
        }
    }
    assert forall|p: ProcessView| #[trigger] t.has_node(p) <==> (t.root_view() == p
        || exists|k: i32| t.subtrees().contains_key(k) && #[trigger] t.subtrees()[k].has_node(p)) by {
        if exists|k: i32| t.subtrees().contains_key(k) && #[trigger] t.subtrees()[k].has_node(p) {
            let k = choose|k: i32| t.subtrees().contains_key(k) && #[trigger] t.subtrees()[k].has_node(p);
            assert(t.children@[k].has_node(p));
        }
        if t.has_node(p) && t.root_view() != p {
            let k = choose|k: i32| #![trigger t.children@[k]] t.children@.contains_key(k) && t.children@[k].has_node(p);
            assert(t.subtrees()[k].has_node(p));
        }
    }
    assert forall|p: ProcessView, c: i32| #[trigger] t.has_link(p, c) <==> ((t.root_view() == p && t.subtrees().contains_key(c))
        || exists|k: i32| t.subtrees().contains_key(k) && #[trigger] t.subtrees()[k].has_link(p, c)) by {
        if exists|k: i32| t.subtrees().contains_key(k) && #[trigger] t.subtrees()[k].has_link(p, c) {
            let k = choose|k: i32| t.subtrees().contains_key(k) && #[trigger] t.subtrees()[k].has_link(p, c);
            assert(t.children@[k].has_link(p, c));
        }
        if t.has_link(p, c) && !(t.root_view() == p && t.subtrees().contains_key(c)) {
            let k = choose|k: i32| #![trigger t.children@[k]] t.children@.contains_key(k) && t.children@[k].has_link(p, c);
            assert(t.subtrees()[k].has_link(p, c));
        }
    }
    if forall|k: i32| #[trigger] t.subtrees().contains_key(k) ==> t.subtrees()[k].root_view().pid == k && t.subtrees()[k].wf() {
        assert forall|k: i32| #![trigger t.children@[k]] t.children@.contains_key(k) implies
            t.children@[k].root@.pid == k && t.children@[k].wf() by {
            assert(t.subtrees().contains_key(k));
        }
    }
}

/// What the remaining spec functions of a tree say, one level at a time,
/// over its root and its subtrees.
pub proof fn lemma_tree_rules(t: ProcessTree)
    ensures
        forall|p: ProcessView| #[trigger] t.has_sub_node(p) <==>
            exists|k: i32| t.subtrees().contains_key(k) && #[trigger] t.subtrees()[k].has_node(p),
        t.respects_links() <==> forall|k: i32| #[trigger] t.subtrees().contains_key(k) ==>
            t.root_view().children.contains(k) && t.subtrees()[k].respects_links(),
        t.links_below() <==> forall|k: i32| #[trigger] t.subtrees().contains_key(k) ==> t.subtrees()[k].respects_links(),
        t.pids_once() <==> {
            &&& forall|k: i32| #[trigger] t.subtrees().contains_key(k) ==>
                !t.subtrees()[k].has_pid(t.root_view().pid) && t.subtrees()[k].pids_once()
            &&& forall|k1: i32, k2: i32, x: i32|
                t.subtrees().contains_key(k1) && t.subtrees().contains_key(k2) && k1 != k2
                    ==> !(#[trigger] t.subtrees()[k1].has_pid(x) && #[trigger] t.subtrees()[k2].has_pid(x))
        },
        forall|u: ProcessTree| #[trigger] t.same_tree(u) <==> {
            &&& t.root_view() == u.root_view()
            &&& t.subtrees().dom() == u.subtrees().dom()
            &&& forall|k: i32| #[trigger] t.subtrees().contains_key(k) ==> t.subtrees()[k].same_tree(*u.subtrees()[k])
        },
{
    assert forall|p: ProcessView| #[trigger] t.has_sub_node(p) <==>
        exists|k: i32| t.subtrees().contains_key(k) && #[trigger] t.subtrees()[k].has_node(p) by {
        if t.has_sub_node(p) {
            let k = choose|k: i32| #![trigger t.children@[k]] t.children@.contains_key(k) && t.children@[k].has_node(p);
            assert(t.subtrees()[k].has_node(p));
        }
        if exists|k: i32| t.subtrees().contains_key(k) && #[trigger] t.subtrees()[k].has_node(p) {
            let k = choose|k: i32| t.subtrees().contains_key(k) && #[trigger] t.subtrees()[k].has_node(p);
            assert(t.children@[k].has_node(p));
        }
    }
    if forall|k: i32| #[trigger] t.subtrees().contains_key(k) ==>
        t.root_view().children.contains(k) && t.subtrees()[k].respects_links() {
        assert forall|k: i32| #![trigger t.children@.contains_key(k)] t.children@.contains_key(k) implies
            t.root@.children.contains(k) && t.children@[k].respects_links() by {
            assert(t.subtrees().contains_key(k));
        }
    }
    if forall|k: i32| #[trigger] t.subtrees().contains_key(k) ==>
        !t.subtrees()[k].has_pid(t.root_view().pid) && t.subtrees()[k].pids_once() {
        assert forall|k: i32| #![trigger t.children@[k]] t.children@.contains_key(k) implies
            !t.children@[k].has_pid(t.root@.pid) && t.children@[k].pids_once() by {
            assert(t.subtrees().contains_key(k));
        }
    }
    if forall|k1: i32, k2: i32, x: i32|
        t.subtrees().contains_key(k1) && t.subtrees().contains_key(k2) && k1 != k2
            ==> !(#[trigger] t.subtrees()[k1].has_pid(x) && #[trigger] t.subtrees()[k2].has_pid(x)) {
        assert forall|k1: i32, k2: i32, x: i32|
            #![trigger t.children@[k1].has_pid(x), t.children@[k2].has_pid(x)]
            t.children@.contains_key(k1) && t.children@.contains_key(k2) && k1 != k2
                implies !(t.children@[k1].has_pid(x) && t.children@[k2].has_pid(x)) by {
            assert(t.subtrees()[k1].has_pid(x) == t.children@[k1].has_pid(x));
            assert(t.subtrees()[k2].has_pid(x) == t.children@[k2].has_pid(x));
        }
    }
    if t.pids_once() {
        assert forall|k: i32| #[trigger] t.subtrees().contains_key(k) implies
            !t.subtrees()[k].has_pid(t.root_view().pid) && t.subtrees()[k].pids_once() by {
            assert(t.children@.contains_key(k));
        }
        assert forall|k1: i32, k2: i32, x: i32|
            t.subtrees().contains_key(k1) && t.subtrees().contains_key(k2) && k1 != k2
                implies !(#[trigger] t.subtrees()[k1].has_pid(x) && #[trigger] t.subtrees()[k2].has_pid(x)) by {
            assert(t.subtrees()[k1].has_pid(x) == t.children@[k1].has_pid(x));
            assert(t.subtrees()[k2].has_pid(x) == t.children@[k2].has_pid(x));
        }
    }
    assert forall|u: ProcessTree| #[trigger] t.same_tree(u) <==> {
        &&& t.root_view() == u.root_view()
        &&& t.subtrees().dom() == u.subtrees().dom()
        &&& forall|k: i32| #[trigger] t.subtrees().contains_key(k) ==> t.subtrees()[k].same_tree(*u.subtrees()[k])
    } by {
        if t.root_view() == u.root_view() && t.subtrees().dom() == u.subtrees().dom()
            && forall|k: i32| #[trigger] t.subtrees().contains_key(k) ==> t.subtrees()[k].same_tree(*u.subtrees()[k]) {
            assert forall|k: i32| #![trigger t.children@[k]] t.children@.contains_key(k) implies
                t.children@[k].same_tree(*u.children@[k]) by {
                assert(t.subtrees().contains_key(k));
            }
        }
        if t.same_tree(u) {
            assert forall|k: i32| #[trigger] t.subtrees().contains_key(k) implies
                t.subtrees()[k].same_tree(*u.subtrees()[k]) by {
                assert(t.children@.contains_key(k));
            }
        }
    }
}

/// What recording a child does, over the root and the subtrees: the root
/// stays; under a root that holds the parent a new leaf with the child is
/// kept under the child's id unless a subtree is kept there already;
/// otherwise one subtree that holds the parent records the child in the same
/// way, the others staying as they were.
pub proof fn lemma_placed_levels(before: ProcessTree, after: ProcessTree, parent: ProcessView, child: ProcessView)
    requires
        ProcessTree::placed(before, after, parent, child),
    ensures
        after.root_view() == before.root_view(),
        before.root_view() == parent && before.subtrees().contains_key(child.pid) ==> after.subtrees() == before.subtrees(),
        before.root_view() == parent && !before.subtrees().contains_key(child.pid) ==> {
            &&& after.subtrees().dom() == before.subtrees().dom().insert(child.pid)
            &&& forall|k: i32| #[trigger] before.subtrees().contains_key(k) ==> after.subtrees()[k] == before.subtrees()[k]
            &&& after.subtrees()[child.pid].root_view() == child
            &&& after.subtrees()[child.pid].subtrees() == Map::<i32, Box<ProcessTree>>::empty()
        },
        before.root_view() != parent ==> exists|k: i32| {
            &&& before.subtrees().contains_key(k)
            &&& #[trigger] before.subtrees()[k].has_node(parent)
            &&& after.subtrees() == before.subtrees().insert(k, after.subtrees()[k])
            &&& ProcessTree::placed(*before.subtrees()[k], *after.subtrees()[k], parent, child)
        },
{
    if before.root@ != parent {
        let k = choose|k: i32| #![trigger before.children@[k]] {
            &&& before.children@.contains_key(k)
            &&& before.children@[k].has_node(parent)
            &&& after.children@ == before.children@.insert(k, after.children@[k])
            &&& ProcessTree::placed(*before.children@[k], *after.children@[k], parent, child)
        };
        assert(before.subtrees()[k].has_node(parent));
    }
}

/// The root stays through any run of `add_child` calls: where each state is
/// the one before with a child recorded, or unchanged, the last root is the
/// first.
pub proof fn lemma_root_stays(states: Seq<ProcessTree>, parents: Seq<ProcessView>, children: Seq<ProcessView>)
    requires
        states.len() >= 1,
        parents.len() == states.len() - 1,
        children.len() == states.len() - 1,
        forall|i: int| 0 <= i < states.len() - 1 ==>
            ProcessTree::placed(#[trigger] states[i], states[i + 1], parents[i], children[i]) || states[i + 1] == states[i],
    ensures
        states.last().root_view() == states[0].root_view(),
    decreases states.len(),
{
    if states.len() > 1 {
        let n = states.len() - 1;
        lemma_root_stays(states.drop_last(), parents.drop_last(), children.drop_last());
        assert(states.drop_last()[n - 1] == states[n - 1]);
        if ProcessTree::placed(states[n - 1], states[n], parents[n - 1], children[n - 1]) {
            lemma_placed_levels(states[n - 1], states[n], parents[n - 1], children[n - 1]);
        }
    }
}

/// A node holding `p` with a subtree keyed `c` is a node holding `p`.
pub proof fn lemma_link_is_node(t: ProcessTree, p: ProcessView, c: i32)
    requires
        t.has_link(p, c),
    ensures
        t.has_node(p),
        t.has_pid(p.pid),
    decreases t,
{
    if !(t.root@ == p && t.children@.contains_key(c)) {
        let k = choose|k: i32| #![trigger t.children@[k]] t.children@.contains_key(k) && t.children@[k].has_link(p, c);
        lemma_link_is_node(*t.children@[k], p, c);
    }
}

/// A node holding `p` has `p`'s id.
pub proof fn lemma_node_has_pid(t: ProcessTree, p: ProcessView)
    requires
        t.has_node(p),
    ensures
        t.has_pid(p.pid),
    decreases t,
{
    if t.root@ != p {
        let k = choose|k: i32| #![trigger t.children@[k]] t.children@.contains_key(k) && t.children@[k].has_node(p);
        lemma_node_has_pid(*t.children@[k], p);
    }
}

/// Recording a child keeps every link of the tree.
pub proof fn lemma_placed_keeps_links(before: ProcessTree, after: ProcessTree, parent: ProcessView, child: ProcessView)
    requires
        ProcessTree::placed(before, after, parent, child),
    ensures
        forall|p: ProcessView, c: i32| before.has_link(p, c) ==> #[trigger] after.has_link(p, c),
    decreases before,
{
    assert forall|p: ProcessView, c: i32| before.has_link(p, c) implies #[trigger] after.has_link(p, c) by {
        if before.root@ == parent {
            if before.root@ == p && before.children@.contains_key(c) {
                assert(after.children@.contains_key(c));
            } else {
                let j = choose|j: i32| #![trigger before.children@[j]] before.children@.contains_key(j) && before.children@[j].has_link(p, c);
                assert(after.children@.contains_key(j));
                assert(after.children@[j] == before.children@[j]);
            }
        } else {
            let k = choose|k: i32| #![trigger before.children@[k]] {
                &&& before.children@.contains_key(k)
                &&& before.children@[k].has_node(parent)
                &&& after.children@ == before.children@.insert(k, after.children@[k])
                &&& ProcessTree::placed(*before.children@[k], *after.children@[k], parent, child)
            };
            if before.root@ == p && before.children@.contains_key(c) {
                assert(after.children@.contains_key(c));
            } else {
                let j = choose|j: i32| #![trigger before.children@[j]] before.children@.contains_key(j) && before.children@[j].has_link(p, c);
                assert(after.children@.contains_key(j));
                if j == k {
                    lemma_placed_keeps_links(*before.children@[k], *after.children@[k], parent, child);
                } else {
                    assert(after.children@[j] == before.children@[j]);
                }
                assert(after.children@[j].has_link(p, c));
            }
        }
    }
}

/// After a child is recorded, a node holding the parent keeps a subtree under
/// the child's id.
pub proof fn lemma_placed_makes_link(before: ProcessTree, after: ProcessTree, parent: ProcessView, child: ProcessView)
    requires
        ProcessTree::placed(before, after, parent, child),
    ensures
        after.has_link(parent, child.pid),
    decreases before,
{
    if before.root@ == parent {
        assert(after.children@.contains_key(child.pid));
    } else {
        let k = choose|k: i32| #![trigger before.children@[k]] {
            &&& before.children@.contains_key(k)
            &&& before.children@[k].has_node(parent)
            &&& after.children@ == before.children@.insert(k, after.children@[k])
            &&& ProcessTree::placed(*before.children@[k], *after.children@[k], parent, child)
        };
        lemma_placed_makes_link(*before.children@[k], *after.children@[k], parent, child);
        assert(after.children@.contains_key(k));
    }
}

/// Recording a child whose id the tree lacks keeps every id at one node.
pub proof fn lemma_placed_pids_once(before: ProcessTree, after: ProcessTree, parent: ProcessView, child: ProcessView)
    requires
        before.wf(),
        before.pids_once(),
        !before.has_pid(child.pid),
        ProcessTree::placed(before, after, parent, child),
    ensures
        after.pids_once(),
    decreases before,
{
    if before.root@ == parent {
        if before.children@.contains_key(child.pid) {
            assert(before.children@[child.pid].has_pid(child.pid));
            assert(false);
        }
        let leaf = *after.children@[child.pid];
        assert(leaf.children@ == Map::<i32, Box<ProcessTree>>::empty());
        lemma_lone_root(leaf, before.root@.pid);
        assert forall|x: i32| leaf.has_pid(x) implies x == child.pid by {
            lemma_lone_root(leaf, x);
        }
        assert(leaf.pids_once());
        assert forall|k: i32| #![trigger after.children@[k]] after.children@.contains_key(k) implies
            !after.children@[k].has_pid(after.root@.pid) && after.children@[k].pids_once() by {
            if k != child.pid {
                assert(after.children@[k] == before.children@[k]);
            }
        }
        assert forall|k1: i32, k2: i32, x: i32|
            after.children@.contains_key(k1) && after.children@.contains_key(k2) && k1 != k2
            implies !(#[trigger] after.children@[k1].has_pid(x) && #[trigger] after.children@[k2].has_pid(x)) by {
            if k1 != child.pid && k2 != child.pid {
                assert(after.children@[k1] == before.children@[k1]);
                assert(after.children@[k2] == before.children@[k2]);
            } else if k1 == child.pid {
                assert(after.children@[k2] == before.children@[k2]);
                if leaf.has_pid(x) && after.children@[k2].has_pid(x) {
                    assert(x == child.pid);
                    assert(before.has_pid(child.pid));
                }
            } else {
                assert(after.children@[k1] == before.children@[k1]);
                if leaf.has_pid(x) && after.children@[k1].has_pid(x) {
                    assert(x == child.pid);
                    assert(before.has_pid(child.pid));
                }
            }
        }
    } else {
        let k = choose|k: i32| #![trigger before.children@[k]] {
            &&& before.children@.contains_key(k)
            &&& before.children@[k].has_node(parent)
            &&& after.children@ == before.children@.insert(k, after.children@[k])
            &&& ProcessTree::placed(*before.children@[k], *after.children@[k], parent, child)
        };
        let b = *before.children@[k];
        let a = *after.children@[k];
        assert(!b.has_pid(child.pid));
        lemma_placed_pids_once(b, a, parent, child);
        lemma_placed_adds_only_child(b, a, parent, child);
        assert(before.has_pid(before.root@.pid));
        assert forall|j: i32| #![trigger after.children@[j]] after.children@.contains_key(j) implies
            !after.children@[j].has_pid(after.root@.pid) && after.children@[j].pids_once() by {
            assert(before.children@.contains_key(j));
            if j != k {
                assert(after.children@[j] == before.children@[j]);
            }
        }
        assert forall|k1: i32, k2: i32, x: i32|
            after.children@.contains_key(k1) && after.children@.contains_key(k2) && k1 != k2
            implies !(#[trigger] after.children@[k1].has_pid(x) && #[trigger] after.children@[k2].has_pid(x)) by {
            assert(before.children@.contains_key(k1) && before.children@.contains_key(k2));
            if k1 != k && k2 != k {
                assert(after.children@[k1] == before.children@[k1]);
                assert(after.children@[k2] == before.children@[k2]);
            } else if k1 == k {
                assert(after.children@[k2] == before.children@[k2]);
                if a.has_pid(x) && after.children@[k2].has_pid(x) {
                    if x == child.pid {
                        assert(before.has_pid(child.pid));
                    } else {
                        assert(before.children@[k1].has_pid(x));
                    }
                }
            } else {
                assert(after.children@[k1] == before.children@[k1]);
                if a.has_pid(x) && after.children@[k1].has_pid(x) {
                    if x == child.pid {
                        assert(before.has_pid(child.pid));
                    } else {
                        assert(before.children@[k2].has_pid(x));
                    }
                }
            }
        }
    }
}

/// Every tree has the same shape and processes as itself.
pub proof fn lemma_same_tree_refl(t: ProcessTree)
    ensures
        t.same_tree(t),
    decreases t,
{
    assert forall|k: i32| #![trigger t.children@[k]] t.children@.contains_key(k) implies t.children@[k].same_tree(*t.children@[k]) by {
        lemma_same_tree_refl(*t.children@[k]);
    }
}

/// Recording a child again under the parent that already keeps it changes
/// nothing, where no id is at two nodes.
proof fn lemma_placed_again(before: ProcessTree, after: ProcessTree, parent: ProcessView, child: ProcessView)
    requires
        before.wf(),
        before.pids_once(),
        before.has_link(parent, child.pid),
        ProcessTree::placed(before, after, parent, child),
    ensures
        before.same_tree(after),
    decreases before,
{
    if before.root@ == parent {
        if !before.children@.contains_key(child.pid) {
            let j = choose|j: i32| #![trigger before.children@[j]] before.children@.contains_key(j) && before.children@[j].has_link(parent, child.pid);
            lemma_link_is_node(*before.children@[j], parent, child.pid);
            assert(before.children@[j].has_pid(before.root@.pid));
            assert(false);
        }
        assert forall|k: i32| #![trigger before.children@[k]] before.children@.contains_key(k) implies before.children@[k].same_tree(*after.children@[k]) by {
            lemma_same_tree_refl(*before.children@[k]);
        }
    } else {
        let k = choose|k: i32| #![trigger before.children@[k]] {
            &&& before.children@.contains_key(k)
            &&& before.children@[k].has_node(parent)
            &&& after.children@ == before.children@.insert(k, after.children@[k])
            &&& ProcessTree::placed(*before.children@[k], *after.children@[k], parent, child)
        };
        let j = choose|j: i32| #![trigger before.children@[j]] before.children@.contains_key(j) && before.children@[j].has_link(parent, child.pid);
        lemma_link_is_node(*before.children@[j], parent, child.pid);
        lemma_node_has_pid(*before.children@[k], parent);
        if j != k {
            assert(before.children@[j].has_pid(parent.pid) && before.children@[k].has_pid(parent.pid));
            assert(false);
        }
        lemma_placed_again(*before.children@[k], *after.children@[k], parent, child);
        assert(after.children@.dom() =~= before.children@.dom());
        assert forall|m: i32| #![trigger before.children@[m]] before.children@.contains_key(m) implies before.children@[m].same_tree(*after.children@[m]) by {
            if m != k {
                assert(after.children@[m] == before.children@[m]);
                lemma_same_tree_refl(*before.children@[m]);
            }
        }
    }
}

/// Adding the same child under the same parent twice: where no id is at two
/// nodes after the first call, the second call finds the parent (so returns
/// `Ok`) and leaves processes and shape as they were.
pub proof fn lemma_add_child_idempotent(
    t0: ProcessTree,
    t1: ProcessTree,
    t2: ProcessTree,
    parent: ProcessView,
    child: ProcessView,
)
    requires
        ProcessTree::placed(t0, t1, parent, child),
        ProcessTree::placed(t1, t2, parent, child),
        t1.wf(),
        t1.pids_once(),
    ensures
        t1.has_node(parent),
        t1.same_tree(t2),
{
    lemma_placed_makes_link(t0, t1, parent, child);
    lemma_link_is_node(t1, parent, child.pid);
    lemma_placed_again(t1, t2, parent, child);
}

/// The idle process at the top of a built tree.
pub open spec fn idle_view() -> ProcessView {
    ProcessView { pid: 0, name: "System Idle Process"@, children: Seq::empty() }
}

/// Record `i` is the last record of the list with its process id.
pub open spec fn is_final_record(ps: Seq<Process>, i: int) -> bool {
    forall|j: int| i < j < ps.len() ==> #[trigger] ps[j]@.pid != ps[i]@.pid
}

/// Some record among the first `n` has the process id `pid`.
pub open spec fn has_record(ps: Seq<Process>, pid: i32, n: int) -> bool {
    exists|j: int| 0 <= j < n && #[trigger] ps[j]@.pid == pid
}

/// The last record with the process id `pid` among the first `n`.
pub open spec fn record_for(ps: Seq<Process>, pid: i32, n: int) -> ProcessView
    decreases n,
{
    if n <= 0 {
        idle_view()
    } else if ps[n - 1]@.pid == pid {
        ps[n - 1]@
    } else {
        record_for(ps, pid, n - 1)
    }
}

/// Some final record among the first `n` lists `c` as a child.
pub open spec fn listed_before(ps: Seq<Process>, c: i32, n: int) -> bool {
    exists|i: int| 0 <= i < n && is_final_record(ps, i) && #[trigger] ps[i]@.children.contains(c)
}

/// Some final record lists `c` as a child.
pub open spec fn listed_child(ps: Seq<Process>, c: i32) -> bool {
    listed_before(ps, c, ps.len() as int)
}

/// The record that a reading gives for a listed child that the list lacks.
pub open spec fn looked_up(sys: Seq<SnapshotEntry>, c: i32) -> ProcessView {
    ProcessView { pid: c, name: name_in(sys, c), children: Seq::empty() }
}

/// Where a process below the root of a built tree comes from: it is the last
/// record of the list with its id, or, for a child that a record lists and
/// the list lacks, the record that the reading gives.
pub open spec fn from_list_or_reading(ps: Seq<Process>, sys: Seq<SnapshotEntry>, p: ProcessView) -> bool {
    ||| has_record(ps, p.pid, ps.len() as int) && p == record_for(ps, p.pid, ps.len() as int)
    ||| !has_record(ps, p.pid, ps.len() as int) && listed_child(ps, p.pid) && p == looked_up(sys, p.pid)
}

/// Building from the list never meets a child that the list lacks while the
/// record that lists it is not yet in the tree. A final record is in the tree
/// when it comes up if no final record lists it and its id is not 0, or if an
/// earlier final record lists it; during its own turn it enters the tree once
/// it has met its own id among its children.
pub open spec fn builds_without_stall(ps: Seq<Process>) -> bool {
    forall|i: int, pos: int|
        #![trigger ps[i]@.children[pos]]
        0 <= i < ps.len() && is_final_record(ps, i) && 0 <= pos < ps[i]@.children.len()
            && !has_record(ps, ps[i]@.children[pos], ps.len() as int) ==> lister_in_tree(ps, i, pos)
}

/// Final record `i` is in the tree when its child at position `pos` comes up:
/// no final record lists it and its id is not 0 (it went under the root at
/// the start of its turn), or an earlier final record lists it, or it has met
/// its own id earlier among its own children.
pub open spec fn lister_in_tree(ps: Seq<Process>, i: int, pos: int) -> bool {
    ||| !listed_child(ps, ps[i]@.pid) && ps[i]@.pid != 0
    ||| listed_before(ps, ps[i]@.pid, i)
    ||| ps[i]@.children.take(pos).contains(ps[i]@.pid)
}

/// Where record `k` is the last among the first `n` with the id `pid`, the
/// record for `pid` among them is record `k`.
pub proof fn lemma_record_for_is_last(ps: Seq<Process>, pid: i32, k: int, n: int)
    requires
        0 <= k < n <= ps.len(),
        ps[k]@.pid == pid,
        forall|j: int| k < j < n ==> #[trigger] ps[j]@.pid != pid,
    ensures
        record_for(ps, pid, n) == ps[k]@,
    decreases n,
{
    if n - 1 != k {
        lemma_record_for_is_last(ps, pid, k, n - 1);
    }
}

/// Building never stalls on a list whose only records that list ids the list
/// lacks are final records that no final record lists, with ids other than
/// 0: such a record is in the tree before its children come up.
pub proof fn lemma_unlisted_listers_never_stall(ps: Seq<Process>)
    requires
        forall|i: int, pos: int|
            #![trigger ps[i]@.children[pos]]
            0 <= i < ps.len() && is_final_record(ps, i) && 0 <= pos < ps[i]@.children.len()
                && !has_record(ps, ps[i]@.children[pos], ps.len() as int)
                ==> !listed_child(ps, ps[i]@.pid) && ps[i]@.pid != 0,
    ensures
        builds_without_stall(ps),
{
}

/// Building never stalls on a list that holds a record for every id that
/// its records list.
pub proof fn lemma_closed_list_never_stalls(ps: Seq<Process>)
    requires
        forall|i: int, pos: int|
            #![trigger ps[i]@.children[pos]]
            0 <= i < ps.len() && 0 <= pos < ps[i]@.children.len() ==> has_record(ps, ps[i]@.children[pos], ps.len() as int),
    ensures
        builds_without_stall(ps),
{
}

/// Building stalls where a final record lists an id that the list lacks
/// while that record is not in the tree: some final record lists it, none
/// before it does, and it has not met its own id among its earlier children.
pub proof fn lemma_absent_lister_stalls(ps: Seq<Process>, i: int, pos: int)
    requires
        0 <= i < ps.len(),
        is_final_record(ps, i),
        0 <= pos < ps[i]@.children.len(),
        !has_record(ps, ps[i]@.children[pos], ps.len() as int),
        listed_child(ps, ps[i]@.pid),
        forall|j: int| 0 <= j < i && is_final_record(ps, j) ==> !(#[trigger] ps[j]@.children).contains(ps[i]@.pid),
        forall|u: int| 0 <= u < pos ==> #[trigger] ps[i]@.children[u] != ps[i]@.pid,
    ensures
        !builds_without_stall(ps),
{
    assert(!ps[i]@.children.take(pos).contains(ps[i]@.pid)) by {
        if ps[i]@.children.take(pos).contains(ps[i]@.pid) {
            let u = choose|u: int| 0 <= u < pos && #[trigger] ps[i]@.children.take(pos)[u] == ps[i]@.pid;
            assert(ps[i]@.children[u] == ps[i]@.pid);
        }
    }
    assert(!lister_in_tree(ps, i, pos));
}

/// Why id `k` is kept directly under the root of a built tree: a final record
/// with that id is listed by no final record (and the id is not 0), or a
/// final record listed `k` when that record was not in the tree yet.
pub open spec fn root_entry(ps: Seq<Process>, k: i32) -> bool {
    ||| exists|i: int| 0 <= i < ps.len() && is_final_record(ps, i) && #[trigger] ps[i]@.pid == k && !listed_child(ps, k) && k != 0
    ||| exists|i: int, pos: int|
        #![trigger ps[i]@.children[pos]]
        0 <= i < ps.len() && is_final_record(ps, i) && 0 <= pos < ps[i]@.children.len() && ps[i]@.children[pos] == k
            && !lister_in_tree(ps, i, pos)
}

/// Every record has an id of its own, no id is 0, and each id is listed as a
/// child at most once in all the lists.
pub open spec fn listed_once(ps: Seq<Process>) -> bool {
    &&& forall|a: int, b: int| 0 <= a < b < ps.len() ==> #[trigger] ps[a]@.pid != #[trigger] ps[b]@.pid
    &&& forall|a: int| 0 <= a < ps.len() ==> #[trigger] ps[a]@.pid != 0
    &&& forall|a: int, pos: int| 0 <= a < ps.len() && 0 <= pos < ps[a]@.children.len() ==> #[trigger] ps[a]@.children[pos] != 0
    &&& forall|a: int, b: int, u: int, v: int|
        0 <= a < ps.len() && 0 <= b < ps.len() && 0 <= u < ps[a]@.children.len() && 0 <= v < ps[b]@.children.len()
            && (a != b || u != v) ==> #[trigger] ps[a]@.children[u] != #[trigger] ps[b]@.children[v]
}

/// What holds of a tree built from the list `ps` and the reading `sys`: the
/// idle process is its root; it is well formed; below the root every subtree
/// is keyed by an id that its parent's process lists; every process id of
/// the list and every child that a final record lists is found in it; every
/// process below the root comes from the list or the reading; a final record
/// that no final record lists (id not 0) is kept directly under the root;
/// each child that a final record lists while in the tree hangs under a node
/// that holds that record, and each that it lists while not in the tree yet
/// hangs directly under the root; the root keeps nothing else; where each
/// id is listed at most once, no id is at two nodes; and the tree is reached
/// from the idle process alone by the placements of building, in order, each
/// adding the child under one node that holds its parent.
pub open spec fn built_from(t: ProcessTree, ps: Seq<Process>, sys: Seq<SnapshotEntry>) -> bool {
    &&& t.root_view() == idle_view()
    &&& t.wf()
    &&& t.links_below()
    &&& forall|i: int| 0 <= i < ps.len() ==> t.has_pid(#[trigger] ps[i]@.pid)
    &&& forall|i: int, c: i32|
        0 <= i < ps.len() && is_final_record(ps, i) && #[trigger] ps[i]@.children.contains(c) ==> t.has_pid(c)
    &&& forall|p: ProcessView| #[trigger] t.has_sub_node(p) ==> from_list_or_reading(ps, sys, p)
    &&& forall|i: int|
        #![trigger ps[i]]
        0 <= i < ps.len() && is_final_record(ps, i) && !listed_child(ps, ps[i]@.pid) && ps[i]@.pid != 0 ==> {
            &&& t.subtrees().contains_key(ps[i]@.pid)
            &&& t.subtrees()[ps[i]@.pid].root_view() == ps[i]@
        }
    &&& forall|i: int, pos: int|
        #![trigger ps[i]@.children[pos]]
        0 <= i < ps.len() && is_final_record(ps, i) && 0 <= pos < ps[i]@.children.len() && lister_in_tree(ps, i, pos)
            ==> t.has_link(ps[i]@, ps[i]@.children[pos])
    &&& forall|i: int, pos: int|
        #![trigger ps[i]@.children[pos]]
        0 <= i < ps.len() && is_final_record(ps, i) && 0 <= pos < ps[i]@.children.len() && !lister_in_tree(ps, i, pos)
            ==> t.subtrees().contains_key(ps[i]@.children[pos])
    &&& forall|k: i32| #[trigger] t.subtrees().contains_key(k) ==> root_entry(ps, k)
    &&& listed_once(ps) ==> t.pids_once()
    &&& exists|run: Seq<ProcessTree>| #[trigger] build_run(run, t, ps, sys)
}

/// The process that building hangs for the child id `c`: the last record of
/// the list with that id, or, where the list has none, the record that the
/// reading gives.
pub open spec fn child_record(ps: Seq<Process>, sys: Seq<SnapshotEntry>, c: i32) -> ProcessView {
    if has_record(ps, c, ps.len() as int) {
        record_for(ps, c, ps.len() as int)
    } else {
        looked_up(sys, c)
    }
}

/// Where building hangs child `pos` of final record `i`: under that record
/// when it is in the tree by then, else under the root.
pub open spec fn child_parent(ps: Seq<Process>, i: int, pos: int) -> ProcessView {
    if lister_in_tree(ps, i, pos) {
        ps[i]@
    } else {
        idle_view()
    }
}

/// The placements of the turn of final record `i`, in order, each a parent
/// and the process hung under it: the record itself under the root when no
/// final record lists it and its id is not 0, then each of its children.
pub open spec fn turn_steps(ps: Seq<Process>, sys: Seq<SnapshotEntry>, i: int) -> Seq<(ProcessView, ProcessView)> {
    let opening = if !listed_child(ps, ps[i]@.pid) && ps[i]@.pid != 0 {
        seq![(idle_view(), ps[i]@)]
    } else {
        Seq::<(ProcessView, ProcessView)>::empty()
    };
    opening + Seq::new(
        ps[i]@.children.len(),
        |pos: int| (child_parent(ps, i, pos), child_record(ps, sys, ps[i]@.children[pos])),
    )
}

/// The placements of building from the first `n` records of the list, in
/// order: the turns of the final records among them.
pub open spec fn build_steps(ps: Seq<Process>, sys: Seq<SnapshotEntry>, n: int) -> Seq<(ProcessView, ProcessView)>
    decreases n,
{
    if n <= 0 {
        Seq::empty()
    } else if is_final_record(ps, n - 1) {
        build_steps(ps, sys, n - 1) + turn_steps(ps, sys, n - 1)
    } else {
        build_steps(ps, sys, n - 1)
    }
}

/// `run` goes from tree to tree by the placements `steps`, one at a time.
pub open spec fn placed_run(run: Seq<ProcessTree>, steps: Seq<(ProcessView, ProcessView)>) -> bool {
    &&& run.len() == steps.len() + 1
    &&& forall|j: int| 0 <= j < steps.len() ==> ProcessTree::placed(#[trigger] run[j], run[j + 1], steps[j].0, steps[j].1)
}

/// `run` starts from the idle process alone, makes the placements of
/// building from `ps` and `sys`, and ends in `t`.
pub open spec fn build_run(run: Seq<ProcessTree>, t: ProcessTree, ps: Seq<Process>, sys: Seq<SnapshotEntry>) -> bool {
    &&& placed_run(run, build_steps(ps, sys, ps.len() as int))
    &&& run[0].root_view() == idle_view()
    &&& run[0].subtrees() == Map::<i32, Box<ProcessTree>>::empty()
    &&& run.last() == t
}

/// A run of placements grows by one more.
proof fn lemma_run_grows(run: Seq<ProcessTree>, steps: Seq<(ProcessView, ProcessView)>, next: ProcessTree, step: (ProcessView, ProcessView))
    requires
        placed_run(run, steps),
        ProcessTree::placed(run.last(), next, step.0, step.1),
    ensures
        placed_run(run.push(next), steps.push(step)),
        run.push(next)[0] == run[0],
        run.push(next).last() == next,
{
    let r2 = run.push(next);
    let s2 = steps.push(step);
    assert forall|j: int| 0 <= j < s2.len() implies ProcessTree::placed(#[trigger] r2[j], r2[j + 1], s2[j].0, s2[j].1) by {
        if j < steps.len() {
            assert(r2[j] == run[j]);
            assert(r2[j + 1] == run[j + 1]);
            assert(s2[j] == steps[j]);
        }
    }
}

/// Some final record among the first `n` has the process id `pid`.
spec fn placed_before(ps: Seq<Process>, pid: i32, n: int) -> bool {
    exists|j: int| 0 <= j < n && is_final_record(ps, j) && #[trigger] ps[j]@.pid == pid
}

/// In a well-formed tree every key below the root is a process id found in it.
proof fn lemma_key_is_found(t: ProcessTree, k: i32)
    requires
        t.wf(),
        t.subtrees().contains_key(k),
    ensures
        t.has_pid(k),
        t.has_sub_node(t.subtrees()[k].root_view()),
        t.subtrees()[k].root_view().pid == k,
{
    let c = t.children@[k];
    assert(c.has_pid(k));
    assert(c.has_node(c.root@));
}

/// The last record with an id that the list has carries that id.
proof fn lemma_record_for_pid(ps: Seq<Process>, pid: i32, n: int)
    requires
        0 <= n <= ps.len(),
        has_record(ps, pid, n),
    ensures
        record_for(ps, pid, n).pid == pid,
    decreases n,
{
    if ps[n - 1]@.pid != pid {
        let j = choose|j: int| 0 <= j < n && #[trigger] ps[j]@.pid == pid;
        assert(has_record(ps, pid, n - 1));
        lemma_record_for_pid(ps, pid, n - 1);
    }
}

/// Every record's process id has a final record.
proof fn lemma_final_record_exists(ps: Seq<Process>, j: int) -> (r: int)
    requires
        0 <= j < ps.len(),
    ensures
        j <= r < ps.len(),
        is_final_record(ps, r),
        ps[r]@.pid == ps[j]@.pid,
    decreases ps.len() - j,
{
    if is_final_record(ps, j) {
        j
    } else {
        let k = choose|k: int| j < k < ps.len() && #[trigger] ps[k]@.pid == ps[j]@.pid;
        lemma_final_record_exists(ps, k)
    }
}

proof fn lemma_record_for_final(ps: Seq<Process>, i: int, n: int)
    requires
        0 <= i < n <= ps.len(),
        is_final_record(ps, i),
    ensures
        has_record(ps, ps[i]@.pid, n),
        record_for(ps, ps[i]@.pid, n) == ps[i]@,
    decreases n,
{
    if n - 1 > i {
        assert(ps[n - 1]@.pid != ps[i]@.pid);
        lemma_record_for_final(ps, i, n - 1);
    }
}

/// One placement while building keeps what the building maintains and adds
/// the child.
proof fn lemma_build_step(
    before: ProcessTree,
    after: ProcessTree,
    parent: ProcessView,
    child: ProcessView,
    ps: Seq<Process>,
    sys: Seq<SnapshotEntry>,
)
    requires
        ProcessTree::placed(before, after, parent, child),
        before.wf(),
        after.wf(),
        before.root_view() == idle_view(),
        before.links_below(),
        forall|p: ProcessView| #[trigger] before.has_sub_node(p) ==> from_list_or_reading(ps, sys, p),
        from_list_or_reading(ps, sys, child),
        before.root_view() == parent || parent.children.contains(child.pid),
    ensures
        after.root_view() == idle_view(),
        after.links_below(),
        forall|p: ProcessView| #[trigger] after.has_sub_node(p) ==> from_list_or_reading(ps, sys, p),
        forall|x: i32| before.has_pid(x) ==> #[trigger] after.has_pid(x),
        forall|p: ProcessView| before.has_node(p) ==> #[trigger] after.has_node(p),
        after.has_pid(child.pid),
        has_record(ps, child.pid, ps.len() as int) ==> after.has_node(child),
        forall|k: i32| #[trigger] before.subtrees().contains_key(k) ==> after.subtrees().contains_key(k),
        before.root_view() == parent && !before.subtrees().contains_key(child.pid) ==>
            after.subtrees().contains_key(child.pid),
        forall|p: ProcessView| #[trigger] after.has_sub_node(p) ==> before.has_sub_node(p) || p == child,
        before.root_view() != parent ==> after.subtrees().dom() == before.subtrees().dom(),
        forall|p: ProcessView, c: i32| before.has_link(p, c) ==> #[trigger] after.has_link(p, c),
        after.has_link(parent, child.pid),
{
    lemma_placed_keeps_links(before, after, parent, child);
    lemma_placed_makes_link(before, after, parent, child);
    lemma_placed_keeps_nodes(before, after, parent, child);
    lemma_placed_child_is_found(before, after, parent, child);
    lemma_placed_sub_nodes(before, after, parent, child);
    lemma_placed_links_below(before, after, parent, child);
    lemma_placed_child_node(before, after, parent, child);
    if before.root@ != parent {
        let k = choose|k: i32| #![trigger before.children@[k]] {
            &&& before.children@.contains_key(k)
            &&& before.children@[k].has_node(parent)
            &&& after.children@ == before.children@.insert(k, after.children@[k])
            &&& ProcessTree::placed(*before.children@[k], *after.children@[k], parent, child)
        };
        assert(after.children@.dom() =~= before.children@.dom());
    }
    if has_record(ps, child.pid, ps.len() as int) && !after.has_node(child) {
        let p = choose|p: ProcessView| #[trigger] before.has_sub_node(p) && p.pid == child.pid;
        assert(from_list_or_reading(ps, sys, p));
        assert(p == child);
        lemma_sub_node_is_node(before, p);
    }
}

/// Whether `x` is among `ids`.
fn ids_contain(ids: &Vec<i32>, x: i32) -> (r: bool)
    ensures
        r == ids@.contains(x),
{
    let mut i: usize = 0;
    while i < ids.len()
        invariant
            i <= ids.len(),
            forall|j: int| 0 <= j < i ==> ids@[j] != x,
        decreases ids.len() - i,
    {
        if ids[i] == x {
            return true;
        }
        i = i + 1;
    }
    false
}

/// Whether record `i` is the last of the list with its process id.
fn final_record(ps: &Vec<Process>, i: usize) -> (r: bool)
    requires
        i < ps@.len(),
    ensures
        r == is_final_record(ps@, i as int),
{
    let pid = ps[i].get_pid();
    let n = ps.len();
    assert(i < n);
    let mut j: usize = i + 1;
    while j < ps.len()
        invariant
            i < j <= ps@.len(),
            pid == ps@[i as int]@.pid,
            forall|t: int| i < t < j ==> #[trigger] ps@[t]@.pid != pid,
        decreases ps.len() - j,
    {
        if ps[j].get_pid() == pid {
            return false;
        }
        j = j + 1;
    }
    true
}

/// Whether some record among the first `n` has the process id `pid`.
fn record_present(ps: &Vec<Process>, pid: i32, n: usize) -> (r: bool)
    requires
        n <= ps@.len(),
    ensures
        r == has_record(ps@, pid, n as int),
{
    let mut j: usize = 0;
    while j < n
        invariant
            j <= n <= ps@.len(),
            forall|t: int| 0 <= t < j ==> #[trigger] ps@[t]@.pid != pid,
        decreases n - j,
    {
        if ps[j].get_pid() == pid {
            return true;
        }
        j = j + 1;
    }
    false
}

/// Whether some final record among the first `n` lists `c` as a child.
fn listed_among(ps: &Vec<Process>, c: i32, n: usize) -> (r: bool)
    requires
        n <= ps@.len(),
    ensures
        r == listed_before(ps@, c, n as int),
{
    let mut j: usize = 0;
    while j < n
        invariant
            j <= n <= ps@.len(),
            forall|t: int| 0 <= t < j && is_final_record(ps@, t) ==> !(#[trigger] ps@[t]@.children.contains(c)),
        decreases n - j,
    {
        if final_record(ps, j) && ids_contain(ps[j].get_children(), c) {
            return true;
        }
        j = j + 1;
    }
    false
}

/// What building keeps of the tree at every step: the idle process at the
/// root, well-formedness, links below the root, and the origin of every
/// process below the root.
spec fn building(t: ProcessTree, ps: Seq<Process>, sys: Seq<SnapshotEntry>) -> bool {
    &&& t.root_view() == idle_view()
    &&& t.wf()
    &&& t.links_below()
    &&& forall|p: ProcessView| #[trigger] t.has_sub_node(p) ==> from_list_or_reading(ps, sys, p)
}

/// The map holds, under each id of the list, the last record with that id.
spec fn indexes(m: Map<i32, Process>, ps: Seq<Process>) -> bool {
    &&& forall|pid: i32| #[trigger] m.contains_key(pid) <==> has_record(ps, pid, ps.len() as int)
    &&& forall|pid: i32| #[trigger] m.contains_key(pid) ==> m[pid]@ == record_for(ps, pid, ps.len() as int)
}

/// The final records that have had their turn: those before `i`, once turn
/// `i` has started also record `i`.
spec fn bound(i: int, started: bool) -> int {
    if started {
        i + 1
    } else {
        i
    }
}

/// Child `s` of final record `j` has come up when building is at child `t`
/// of record `i`.
spec fn visited(ps: Seq<Process>, i: int, t: int, j: int, s: int) -> bool {
    &&& 0 <= j < ps.len()
    &&& is_final_record(ps, j)
    &&& 0 <= s < ps[j]@.children.len()
    &&& (j < i || (j == i && s < t))
}

/// Where a process below the root can have come from, with building at child
/// `t` of record `i`.
spec fn sourced(ps: Seq<Process>, x: i32, i: int, t: int, started: bool) -> bool {
    ||| listed_before(ps, x, i)
    ||| !listed_child(ps, x) && x != 0 && placed_before(ps, x, bound(i, started))
    ||| 0 <= i < ps.len() && ps[i]@.children.take(t).contains(x)
}

/// Why a key can stand directly under the root, with building at child `t`
/// of record `i`.
spec fn root_source(ps: Seq<Process>, k: i32, i: int, t: int, started: bool) -> bool {
    ||| !listed_child(ps, k) && k != 0 && placed_before(ps, k, bound(i, started))
    ||| exists|j: int, s: int|
        #![trigger ps[j]@.children[s]]
        visited(ps, i, t, j, s) && ps[j]@.children[s] == k && !lister_in_tree(ps, j, s)
}

/// What building keeps, with building at child `t` of record `i`.
spec fn common(tree: ProcessTree, ps: Seq<Process>, sys: Seq<SnapshotEntry>, i: int, t: int, started: bool) -> bool {
    &&& building(tree, ps, sys)
    &&& forall|j: int| 0 <= j < i && is_final_record(ps, j) ==> tree.has_pid(#[trigger] ps[j]@.pid) || listed_child(ps, ps[j]@.pid)
    &&& forall|j: int, c: i32| 0 <= j < i && is_final_record(ps, j) && #[trigger] ps[j]@.children.contains(c) ==> tree.has_pid(c)
    &&& forall|j: int| 0 <= j < ps.len() && is_final_record(ps, j) && listed_before(ps, #[trigger] ps[j]@.pid, i) ==> tree.has_node(ps[j]@)
    &&& forall|p: ProcessView| #[trigger] tree.has_sub_node(p) ==> sourced(ps, p.pid, i, t, started)
    &&& forall|j: int| 0 <= j < i && is_final_record(ps, j) && !listed_child(ps, ps[j]@.pid) && ps[j]@.pid != 0 ==>
        tree.subtrees().contains_key(#[trigger] ps[j]@.pid)
    &&& forall|j: int, s: int|
        #![trigger ps[j]@.children[s]]
        visited(ps, i, t, j, s) && lister_in_tree(ps, j, s) ==> tree.has_link(ps[j]@, ps[j]@.children[s])
    &&& forall|j: int, s: int|
        #![trigger ps[j]@.children[s]]
        visited(ps, i, t, j, s) && !lister_in_tree(ps, j, s) ==> tree.subtrees().contains_key(ps[j]@.children[s])
    &&& forall|k: i32| #[trigger] tree.subtrees().contains_key(k) ==> root_source(ps, k, i, t, started)
    &&& listed_once(ps) ==> tree.pids_once()
}

/// What building keeps during the turn of final record `i`, at its child `t`.
spec fn in_turn(tree: ProcessTree, ps: Seq<Process>, sys: Seq<SnapshotEntry>, i: int, t: int) -> bool {
    &&& common(tree, ps, sys, i, t, true)
    &&& forall|s: int| 0 <= s < t ==> tree.has_pid(#[trigger] ps[i]@.children[s])
    &&& forall|j: int|
        0 <= j < ps.len() && is_final_record(ps, j) && ps[i]@.children.take(t).contains(#[trigger] ps[j]@.pid) ==> tree.has_node(ps[j]@)
    &&& !listed_child(ps, ps[i]@.pid) ==> tree.has_pid(ps[i]@.pid)
    &&& !listed_child(ps, ps[i]@.pid) && ps[i]@.pid != 0 ==> tree.has_node(ps[i]@) && tree.subtrees().contains_key(ps[i]@.pid)
}

proof fn lemma_take_grows(s: Seq<i32>, t: int, x: i32)
    requires
        0 <= t < s.len(),
    ensures
        s.take(t + 1).contains(x) <==> (s.take(t).contains(x) || s[t] == x),
{
    if s.take(t).contains(x) {
        let u = choose|u: int| 0 <= u < t && #[trigger] s.take(t)[u] == x;
        assert(s.take(t + 1)[u] == x);
    }
    if s[t] == x {
        assert(s.take(t + 1)[t] == x);
    }
    if s.take(t + 1).contains(x) && s[t] != x {
        let u = choose|u: int| 0 <= u < t + 1 && #[trigger] s.take(t + 1)[u] == x;
        assert(s.take(t)[u] == x);
    }
}

proof fn lemma_start(tree: ProcessTree, ps: Seq<Process>, sys: Seq<SnapshotEntry>)
    requires
        tree.root_view() == idle_view(),
        tree.subtrees() == Map::<i32, Box<ProcessTree>>::empty(),
        tree.wf(),
    ensures
        common(tree, ps, sys, 0, 0, false),
{
    assert forall|p: ProcessView| !#[trigger] tree.has_sub_node(p) by {}
    assert(tree.links_below());
    assert(tree.pids_once());
}

/// An unlisted record with an id other than 0 is not in the tree before its turn.
proof fn lemma_unlisted_absent(tree: ProcessTree, ps: Seq<Process>, sys: Seq<SnapshotEntry>, i: int)
    requires
        0 <= i < ps.len(),
        is_final_record(ps, i),
        common(tree, ps, sys, i, 0, false),
        !listed_child(ps, ps[i]@.pid),
        ps[i]@.pid != 0,
    ensures
        !tree.has_pid(ps[i]@.pid),
{
    let x = ps[i]@.pid;
    if tree.has_pid(x) {
        lemma_pid_has_node(tree, x);
        let p = choose|p: ProcessView| #[trigger] tree.has_sub_node(p) && p.pid == x;
        assert(sourced(ps, x, i, 0, false));
        if listed_before(ps, x, i) {
            let r = choose|r: int| 0 <= r < i && is_final_record(ps, r) && #[trigger] ps[r]@.children.contains(x);
            assert(listed_before(ps, x, ps.len() as int));
        }
        if placed_before(ps, x, i) {
            let j = choose|j: int| 0 <= j < i && is_final_record(ps, j) && #[trigger] ps[j]@.pid == x;
            assert(ps[i]@.pid != ps[j]@.pid);
        }
    }
}

/// Opening the turn of final record `i`: it goes under the root when no final
/// record lists it and the tree lacks its id.
proof fn lemma_record_opens(before: ProcessTree, after: ProcessTree, ps: Seq<Process>, sys: Seq<SnapshotEntry>, i: int, added: bool)
    requires
        0 <= i < ps.len(),
        is_final_record(ps, i),
        common(before, ps, sys, i, 0, false),
        added ==> {
            &&& ProcessTree::placed(before, after, idle_view(), ps[i]@)
            &&& after.wf()
            &&& !listed_child(ps, ps[i]@.pid)
            &&& !before.has_pid(ps[i]@.pid)
        },
        !added ==> after == before && (listed_child(ps, ps[i]@.pid) || ps[i]@.pid == 0),
    ensures
        in_turn(after, ps, sys, i, 0),
{
    let q = ps[i]@;
    lemma_record_for_final(ps, i, ps.len() as int);
    lemma_tree_levels(before);
    assert(q.children.take(0) =~= Seq::<i32>::empty());
    if added {
        lemma_build_step(before, after, idle_view(), q, ps, sys);
        lemma_tree_levels(after);
        if before.subtrees().contains_key(q.pid) {
            lemma_key_is_found(before, q.pid);
        }
        if listed_once(ps) {
            lemma_placed_pids_once(before, after, idle_view(), q);
        }
        assert(placed_before(ps, q.pid, i + 1));
        assert forall|p: ProcessView| #[trigger] after.has_sub_node(p) implies sourced(ps, p.pid, i, 0, true) by {
            if before.has_sub_node(p) {
                assert(sourced(ps, p.pid, i, 0, false));
                if placed_before(ps, p.pid, i) {
                    let j = choose|j: int| 0 <= j < i && is_final_record(ps, j) && #[trigger] ps[j]@.pid == p.pid;
                    assert(placed_before(ps, p.pid, i + 1));
                }
            }
        }
        assert forall|k: i32| #[trigger] after.subtrees().contains_key(k) implies root_source(ps, k, i, 0, true) by {
            if k != q.pid {
                assert(before.subtrees().contains_key(k));
                assert(root_source(ps, k, i, 0, false));
                if placed_before(ps, k, i) {
                    let j = choose|j: int| 0 <= j < i && is_final_record(ps, j) && #[trigger] ps[j]@.pid == k;
                    assert(placed_before(ps, k, i + 1));
                }
            }
        }
    } else {
        assert forall|p: ProcessView| #[trigger] after.has_sub_node(p) implies sourced(ps, p.pid, i, 0, true) by {
            assert(sourced(ps, p.pid, i, 0, false));
            if placed_before(ps, p.pid, i) {
                let j = choose|j: int| 0 <= j < i && is_final_record(ps, j) && #[trigger] ps[j]@.pid == p.pid;
                assert(placed_before(ps, p.pid, i + 1));
            }
        }
        assert forall|k: i32| #[trigger] after.subtrees().contains_key(k) implies root_source(ps, k, i, 0, true) by {
            assert(root_source(ps, k, i, 0, false));
            if placed_before(ps, k, i) {
                let j = choose|j: int| 0 <= j < i && is_final_record(ps, j) && #[trigger] ps[j]@.pid == k;
                assert(placed_before(ps, k, i + 1));
            }
        }
    }
}

/// A record whose turn is on is in the tree exactly when it is said to be.
proof fn lemma_lister_presence(tree: ProcessTree, ps: Seq<Process>, sys: Seq<SnapshotEntry>, i: int, t: int)
    requires
        0 <= i < ps.len(),
        is_final_record(ps, i),
        0 <= t < ps[i]@.children.len(),
        in_turn(tree, ps, sys, i, t),
    ensures
        tree.has_node(ps[i]@) <==> lister_in_tree(ps, i, t),
{
    let q = ps[i]@;
    lemma_tree_levels(tree);
    if tree.has_node(q) {
        assert(q.children.len() > 0);
        assert(tree.root_view() != q);
        let k = choose|k: i32| tree.subtrees().contains_key(k) && #[trigger] tree.subtrees()[k].has_node(q);
        assert(tree.has_sub_node(q));
        assert(sourced(ps, q.pid, i, t, true));
    }
}

/// Where each id is listed at most once, a listed child is not in the tree
/// when its turn comes.
proof fn lemma_fresh_child(tree: ProcessTree, ps: Seq<Process>, sys: Seq<SnapshotEntry>, i: int, t: int)
    requires
        0 <= i < ps.len(),
        is_final_record(ps, i),
        0 <= t < ps[i]@.children.len(),
        in_turn(tree, ps, sys, i, t),
        listed_once(ps),
    ensures
        !tree.has_pid(ps[i]@.children[t]),
{
    let c = ps[i]@.children[t];
    lemma_tree_levels(tree);
    if tree.has_pid(c) {
        assert(c != 0);
        lemma_pid_has_node(tree, c);
        let p = choose|p: ProcessView| #[trigger] tree.has_sub_node(p) && p.pid == c;
        assert(sourced(ps, c, i, t, true));
        if listed_before(ps, c, i) {
            let j = choose|j: int| 0 <= j < i && is_final_record(ps, j) && #[trigger] ps[j]@.children.contains(c);
            let u = choose|u: int| 0 <= u < ps[j]@.children.len() && #[trigger] ps[j]@.children[u] == c;
            assert(ps[j]@.children[u] != ps[i]@.children[t]);
        } else if !listed_child(ps, c) {
            assert(ps[i]@.children.contains(c));
        } else {
            let u = choose|u: int| 0 <= u < t && #[trigger] ps[i]@.children.take(t)[u] == c;
            assert(ps[i]@.children[u] == c);
            assert(ps[i]@.children[u] != ps[i]@.children[t]);
        }
    }
}

/// Recording child `t` of final record `i`, under the record where it is in
/// the tree and under the root where it is not, moves building one child on.
proof fn lemma_child_step(
    before: ProcessTree,
    after: ProcessTree,
    parent: ProcessView,
    child: ProcessView,
    ps: Seq<Process>,
    sys: Seq<SnapshotEntry>,
    i: int,
    t: int,
)
    requires
        0 <= i < ps.len(),
        is_final_record(ps, i),
        0 <= t < ps[i]@.children.len(),
        in_turn(before, ps, sys, i, t),
        ProcessTree::placed(before, after, parent, child),
        after.wf(),
        child.pid == ps[i]@.children[t],
        from_list_or_reading(ps, sys, child),
        has_record(ps, child.pid, ps.len() as int) ==> child == record_for(ps, child.pid, ps.len() as int),
        (parent == ps[i]@ && lister_in_tree(ps, i, t)) || (parent == idle_view() && !lister_in_tree(ps, i, t)),
    ensures
        in_turn(after, ps, sys, i, t + 1),
{
    let q = ps[i]@;
    let c = child.pid;
    assert(q.children.contains(c));
    assert(q != idle_view()) by {
        assert(q.children.len() > 0);
    }
    lemma_build_step(before, after, parent, child, ps, sys);
    if listed_once(ps) {
        lemma_fresh_child(before, ps, sys, i, t);
        lemma_placed_pids_once(before, after, parent, child);
    }
    assert forall|p: ProcessView| #[trigger] after.has_sub_node(p) implies sourced(ps, p.pid, i, t + 1, true) by {
        lemma_take_grows(q.children, t, p.pid);
        if before.has_sub_node(p) {
            assert(sourced(ps, p.pid, i, t, true));
        }
    }
    assert forall|k: i32| #[trigger] after.subtrees().contains_key(k) implies root_source(ps, k, i, t + 1, true) by {
        if before.subtrees().contains_key(k) {
            assert(root_source(ps, k, i, t, true));
            if !(!listed_child(ps, k) && k != 0 && placed_before(ps, k, i + 1)) {
                let (j, s) = choose|j: int, s: int|
                    #![trigger ps[j]@.children[s]]
                    visited(ps, i, t, j, s) && ps[j]@.children[s] == k && !lister_in_tree(ps, j, s);
                assert(visited(ps, i, t + 1, j, s));
            }
        } else {
            assert(parent == idle_view());
            assert(k == c);
            assert(visited(ps, i, t + 1, i, t));
        }
    }
    assert forall|j: int, s: int|
        #![trigger ps[j]@.children[s]]
        visited(ps, i, t + 1, j, s) && lister_in_tree(ps, j, s) implies after.has_link(ps[j]@, ps[j]@.children[s]) by {
        if !(j == i && s == t) {
            assert(visited(ps, i, t, j, s));
        }
    }
    assert forall|j: int, s: int|
        #![trigger ps[j]@.children[s]]
        visited(ps, i, t + 1, j, s) && !lister_in_tree(ps, j, s) implies after.subtrees().contains_key(ps[j]@.children[s]) by {
        if !(j == i && s == t) {
            assert(visited(ps, i, t, j, s));
        } else {
            assert(parent == idle_view());
        }
    }
    assert forall|s: int| 0 <= s < t + 1 implies after.has_pid(#[trigger] q.children[s]) by {}
    assert forall|j: int|
        0 <= j < ps.len() && is_final_record(ps, j) && q.children.take(t + 1).contains(#[trigger] ps[j]@.pid) implies after.has_node(ps[j]@) by {
        let x = ps[j]@.pid;
        lemma_take_grows(q.children, t, x);
        if !q.children.take(t).contains(x) {
            assert(x == c);
            lemma_record_for_final(ps, j, ps.len() as int);
        }
    }
}

/// Closing the turn of final record `i`.
proof fn lemma_record_closes(tree: ProcessTree, ps: Seq<Process>, sys: Seq<SnapshotEntry>, i: int)
    requires
        0 <= i < ps.len(),
        is_final_record(ps, i),
        in_turn(tree, ps, sys, i, ps[i]@.children.len() as int),
    ensures
        common(tree, ps, sys, i + 1, 0, false),
{
    let q = ps[i]@;
    let len = q.children.len() as int;
    assert(q.children.take(len) =~= q.children);
    assert forall|j: int, c: i32| 0 <= j < i + 1 && is_final_record(ps, j) && #[trigger] ps[j]@.children.contains(c) implies tree.has_pid(c) by {
        if j == i {
            let s = choose|s: int| 0 <= s < len && #[trigger] q.children[s] == c;
        }
    }
    assert forall|j: int| 0 <= j < ps.len() && is_final_record(ps, j) && listed_before(ps, #[trigger] ps[j]@.pid, i + 1) implies tree.has_node(ps[j]@) by {
        if !listed_before(ps, ps[j]@.pid, i) {
            let r = choose|r: int| 0 <= r < i + 1 && is_final_record(ps, r) && #[trigger] ps[r]@.children.contains(ps[j]@.pid);
            assert(r == i);
        }
    }
    assert forall|p: ProcessView| #[trigger] tree.has_sub_node(p) implies sourced(ps, p.pid, i + 1, 0, false) by {
        assert(sourced(ps, p.pid, i, len, true));
        if listed_before(ps, p.pid, i) {
            let r = choose|r: int| 0 <= r < i && is_final_record(ps, r) && #[trigger] ps[r]@.children.contains(p.pid);
            assert(listed_before(ps, p.pid, i + 1));
        } else if q.children.take(len).contains(p.pid) {
            assert(q.children.contains(p.pid));
            assert(listed_before(ps, p.pid, i + 1));
        }
    }
    assert forall|j: int, s: int|
        #![trigger ps[j]@.children[s]]
        visited(ps, i + 1, 0, j, s) && lister_in_tree(ps, j, s) implies tree.has_link(ps[j]@, ps[j]@.children[s]) by {
        assert(visited(ps, i, len, j, s));
    }
    assert forall|j: int, s: int|
        #![trigger ps[j]@.children[s]]
        visited(ps, i + 1, 0, j, s) && !lister_in_tree(ps, j, s) implies tree.subtrees().contains_key(ps[j]@.children[s]) by {
        assert(visited(ps, i, len, j, s));
    }
    assert forall|k: i32| #[trigger] tree.subtrees().contains_key(k) implies root_source(ps, k, i + 1, 0, false) by {
        assert(root_source(ps, k, i, len, true));
        if !(!listed_child(ps, k) && k != 0 && placed_before(ps, k, i + 1)) {
            let (j, s) = choose|j: int, s: int|
                #![trigger ps[j]@.children[s]]
                visited(ps, i, len, j, s) && ps[j]@.children[s] == k && !lister_in_tree(ps, j, s);
            assert(visited(ps, i + 1, 0, j, s));
        }
    }
}

/// Passing over a record that is not final.
proof fn lemma_record_skipped(tree: ProcessTree, ps: Seq<Process>, sys: Seq<SnapshotEntry>, i: int)
    requires
        0 <= i < ps.len(),
        !is_final_record(ps, i),
        common(tree, ps, sys, i, 0, false),
    ensures
        common(tree, ps, sys, i + 1, 0, false),
{
    assert forall|j: int| 0 <= j < ps.len() && is_final_record(ps, j) && listed_before(ps, #[trigger] ps[j]@.pid, i + 1) implies tree.has_node(ps[j]@) by {
        let r = choose|r: int| 0 <= r < i + 1 && is_final_record(ps, r) && #[trigger] ps[r]@.children.contains(ps[j]@.pid);
        assert(r != i);
        assert(listed_before(ps, ps[j]@.pid, i));
    }
    assert forall|p: ProcessView| #[trigger] tree.has_sub_node(p) implies sourced(ps, p.pid, i + 1, 0, false) by {
        assert(sourced(ps, p.pid, i, 0, false));
        assert(ps[i]@.children.take(0) =~= Seq::<i32>::empty());
        if listed_before(ps, p.pid, i) {
            let r = choose|r: int| 0 <= r < i && is_final_record(ps, r) && #[trigger] ps[r]@.children.contains(p.pid);
            assert(listed_before(ps, p.pid, i + 1));
        }
        if placed_before(ps, p.pid, i) {
            let j = choose|j: int| 0 <= j < i && is_final_record(ps, j) && #[trigger] ps[j]@.pid == p.pid;
            assert(placed_before(ps, p.pid, i + 1));
        }
    }
    assert forall|j: int, s: int|
        #![trigger ps[j]@.children[s]]
        visited(ps, i + 1, 0, j, s) && lister_in_tree(ps, j, s) implies tree.has_link(ps[j]@, ps[j]@.children[s]) by {
        assert(visited(ps, i, 0, j, s));
    }
    assert forall|j: int, s: int|
        #![trigger ps[j]@.children[s]]
        visited(ps, i + 1, 0, j, s) && !lister_in_tree(ps, j, s) implies tree.subtrees().contains_key(ps[j]@.children[s]) by {
        assert(visited(ps, i, 0, j, s));
    }
    assert forall|k: i32| #[trigger] tree.subtrees().contains_key(k) implies root_source(ps, k, i + 1, 0, false) by {
        assert(root_source(ps, k, i, 0, false));
        if !listed_child(ps, k) && k != 0 && placed_before(ps, k, i) {
            let j = choose|j: int| 0 <= j < i && is_final_record(ps, j) && #[trigger] ps[j]@.pid == k;
            assert(placed_before(ps, k, i + 1));
        } else {
            let (j, s) = choose|j: int, s: int|
                #![trigger ps[j]@.children[s]]
                visited(ps, i, 0, j, s) && ps[j]@.children[s] == k && !lister_in_tree(ps, j, s);
            assert(visited(ps, i + 1, 0, j, s));
        }
    }
}

/// Places child `t` of final record `i` while building (see
/// [`create_tree`]).
#[verifier::spinoff_prover]
fn place_child(
    tree: &mut ProcessTree,
    processes: &Vec<Process>,
    process_map: &HashMap<i32, Process>,
    system: &Vec<SnapshotEntry>,
    i: usize,
    t: usize,
)
    requires
        i < processes@.len(),
        is_final_record(processes@, i as int),
        t < processes@[i as int]@.children.len(),
        builds_without_stall(processes@),
        indexes(process_map@, processes@),
        in_turn(*old(tree), processes@, system@, i as int, t as int),
    ensures
        in_turn(*final(tree), processes@, system@, i as int, t + 1),
        ProcessTree::placed(
            *old(tree),
            *final(tree),
            child_parent(processes@, i as int, t as int),
            child_record(processes@, system@, processes@[i as int]@.children[t as int]),
        ),
{
    let ghost ps = processes@;
    let ghost sys = system@;
    let n = processes.len();
    let q = &processes[i];
    let c = q.get_children()[t];
    let ghost before = *tree;
    proof {
        lemma_record_for_final(ps, i as int, n as int);
        lemma_lister_presence(before, ps, sys, i as int, t as int);
        assert(ps[i as int]@.children[t as int] == c);
        assert(q@.children.contains(c));
        assert(listed_child(ps, c));
    }
    match process_map.get(&c) {
        Some(child) => {
            proof {
                assert(process_map@.contains_key(c));
                assert(process_map@[c] == *child);
                assert(has_record(ps, c, n as int));
                lemma_record_for_pid(ps, c, n as int);
                assert(from_list_or_reading(ps, sys, child@));
            }
            let r = tree.add_child(q.clone(), child.clone());
            if r.is_err() {
                let root = tree.get_root().clone();
                tree.add_child(root, child.clone()).unwrap();
                proof {
                    lemma_child_step(before, *tree, idle_view(), child@, ps, sys, i as int, t as int);
                }
            } else {
                proof {
                    lemma_child_step(before, *tree, q@, child@, ps, sys, i as int, t as int);
                }
            }
        },
        None => {
            proof {
                assert(!has_record(ps, c, n as int));
                assert(lister_in_tree(ps, i as int, t as int));
            }
            let child = find_process_in(system, c);
            tree.add_child(q.clone(), child).unwrap();
            proof {
                assert(from_list_or_reading(ps, sys, child@));
                lemma_child_step(before, *tree, q@, child@, ps, sys, i as int, t as int);
            }
        },
    }
}

/// Places final record `i` while building (see [`create_tree`]): under the
/// root when no final record lists it and the tree lacks its id, then each
/// of its children.
fn place_record(
    tree: &mut ProcessTree,
    processes: &Vec<Process>,
    process_map: &HashMap<i32, Process>,
    system: &Vec<SnapshotEntry>,
    i: usize,
    run: Ghost<Seq<ProcessTree>>,
) -> (grown: Ghost<Seq<ProcessTree>>)
    requires
        i < processes@.len(),
        is_final_record(processes@, i as int),
        builds_without_stall(processes@),
        indexes(process_map@, processes@),
        common(*old(tree), processes@, system@, i as int, 0, false),
        placed_run(run@, build_steps(processes@, system@, i as int)),
        run@.last() == *old(tree),
    ensures
        common(*final(tree), processes@, system@, i + 1, 0, false),
        placed_run(grown@, build_steps(processes@, system@, i as int) + turn_steps(processes@, system@, i as int)),
        grown@[0] == run@[0],
        grown@.last() == *final(tree),
{
    let ghost ps = processes@;
    let ghost sys = system@;
    let ghost base = build_steps(ps, sys, i as int);
    let ghost ts = turn_steps(ps, sys, i as int);
    let ghost opened: int = if !listed_child(ps, ps[i as int]@.pid) && ps[i as int]@.pid != 0 { 1 } else { 0 };
    let ghost mut r: Seq<ProcessTree> = run@;
    let n = processes.len();
    let q = &processes[i];
    let qpid = q.get_pid();
    proof {
        lemma_record_for_final(ps, i as int, n as int);
        lemma_tree_levels(*tree);
    }
    let is_child = listed_among(processes, qpid, n);
    proof {
        if !is_child && qpid != 0 {
            lemma_unlisted_absent(*tree, ps, sys, i as int);
        }
    }
    let ghost before = *tree;
    if !is_child && !tree.pid_exists(qpid) {
        let root = tree.get_root().clone();
        tree.add_child(root, q.clone()).unwrap();
        proof {
            lemma_record_opens(before, *tree, ps, sys, i as int, true);
            assert(opened == 1);
            assert(ts[0] == (idle_view(), ps[i as int]@));
            lemma_run_grows(r, base, *tree, ts[0]);
            r = r.push(*tree);
            assert(base.push(ts[0]) =~= base + ts.take(1));
        }
    } else {
        proof {
            lemma_record_opens(before, *tree, ps, sys, i as int, false);
            assert(opened == 0);
            assert(base + ts.take(0) =~= base);
        }
    }
    let kids = q.get_children();
    let mut t: usize = 0;
    while t < kids.len()
        invariant
            placed_run(r, base + ts.take(opened + t)),
            r[0] == run@[0],
            r.last() == *tree,
            base == build_steps(ps, sys, i as int),
            ts == turn_steps(ps, sys, i as int),
            ts.len() == opened + kids@.len(),
            forall|u: int| 0 <= u < kids@.len() ==> #[trigger] ts[opened + u] == (child_parent(ps, i as int, u), child_record(ps, sys, ps[i as int]@.children[u])),
            t <= kids@.len(),
            i < n,
            n == ps.len(),
            ps == processes@,
            sys == system@,
            q == &processes@[i as int],
            kids@ == q@.children,
            is_final_record(ps, i as int),
            builds_without_stall(ps),
            indexes(process_map@, ps),
            in_turn(*tree, ps, sys, i as int, t as int),
        decreases kids@.len() - t,
    {
        let ghost pre = *tree;
        place_child(tree, processes, process_map, system, i, t);
        proof {
            let k = opened + t;
            lemma_run_grows(r, base + ts.take(k), *tree, ts[k]);
            r = r.push(*tree);
            assert((base + ts.take(k)).push(ts[k]) =~= base + ts.take(k + 1));
        }
        t = t + 1;
    }
    proof {
        lemma_record_closes(*tree, ps, sys, i as int);
        assert(ts.take(opened + kids@.len()) =~= ts);
    }
    Ghost(r)
}

/// Builds the tree of a list of process records below the idle process.
/// Each final record (the last of the list with its id), in list order: when
/// no final record lists it as a child and the tree lacks its id, it is
/// recorded under the root; then each of its children, in order, is recorded
/// under it, or under the root when it is not in the tree yet; a child that
/// the list lacks is looked up in `system` and recorded under it.
pub fn create_tree(processes: Vec<Process>, system: &Vec<SnapshotEntry>) -> (tree: ProcessTree)
    requires
        builds_without_stall(processes@),
    ensures
        built_from(tree, processes@, system@),
{
    let ghost ps = processes@;
    let ghost sys = system@;
    let n = processes.len();
    let mut process_map: HashMap<i32, Process> = HashMap::new();
    let mut i: usize = 0;
    while i < n
        invariant
            i <= n,
            n == ps.len(),
            ps == processes@,
            forall|pid: i32| #[trigger] process_map@.contains_key(pid) <==> has_record(ps, pid, i as int),
            forall|pid: i32| #[trigger] process_map@.contains_key(pid) ==> process_map@[pid]@ == record_for(ps, pid, i as int),
        decreases n - i,
    {
        let pid = processes[i].get_pid();
        process_map.insert(pid, processes[i].clone());
        proof {
            assert forall|x: i32| #[trigger] process_map@.contains_key(x) <==> has_record(ps, x, i + 1) by {
                if has_record(ps, x, i + 1) && x != pid {
                    let j = choose|j: int| 0 <= j < i + 1 && #[trigger] ps[j]@.pid == x;
                    assert(j < i);
                }
            }
        }
        i = i + 1;
    }
    let idle = Process::new(0, String::from_str("System Idle Process"));
    let mut tree = ProcessTree::new(idle);
    let ghost mut run: Seq<ProcessTree> = seq![tree];
    proof {
        lemma_start(tree, ps, sys);
        assert(placed_run(run, build_steps(ps, sys, 0)));
    }
    let mut i: usize = 0;
    while i < n
        invariant
            i <= n,
            n == ps.len(),
            ps == processes@,
            sys == system@,
            builds_without_stall(ps),
            indexes(process_map@, ps),
            common(tree, ps, sys, i as int, 0, false),
            placed_run(run, build_steps(ps, sys, i as int)),
            run[0].root_view() == idle_view(),
            run[0].subtrees() == Map::<i32, Box<ProcessTree>>::empty(),
            run.last() == tree,
        decreases n - i,
    {
        if final_record(&processes, i) {
            let grown = place_record(&mut tree, &processes, &process_map, system, i, Ghost(run));
            proof {
                run = grown@;
                assert(build_steps(ps, sys, i + 1) == build_steps(ps, sys, i as int) + turn_steps(ps, sys, i as int));
            }
        } else {
            proof {
                lemma_record_skipped(tree, ps, sys, i as int);
                assert(build_steps(ps, sys, i + 1) == build_steps(ps, sys, i as int));
            }
        }
        i = i + 1;
    }
    proof {
        assert(build_run(run, tree, ps, sys));
        assert forall|j: int|
            #![trigger ps[j]]
            0 <= j < n && is_final_record(ps, j) && !listed_child(ps, ps[j]@.pid) && ps[j]@.pid != 0 implies {
                &&& tree.subtrees().contains_key(ps[j]@.pid)
                &&& tree.subtrees()[ps[j]@.pid].root_view() == ps[j]@
            } by {
            let pid = ps[j]@.pid;
            assert(tree.subtrees().contains_key(pid));
            lemma_key_is_found(tree, pid);
            let p = tree.subtrees()[pid].root_view();
            assert(from_list_or_reading(ps, sys, p));
            lemma_record_for_final(ps, j, n as int);
        }
        assert forall|j: int, pos: int|
            #![trigger ps[j]@.children[pos]]
            0 <= j < ps.len() && is_final_record(ps, j) && 0 <= pos < ps[j]@.children.len() && lister_in_tree(ps, j, pos)
            implies tree.has_link(ps[j]@, ps[j]@.children[pos]) by {
            assert(visited(ps, n as int, 0, j, pos));
        }
        assert forall|j: int, pos: int|
            #![trigger ps[j]@.children[pos]]
            0 <= j < ps.len() && is_final_record(ps, j) && 0 <= pos < ps[j]@.children.len() && !lister_in_tree(ps, j, pos)
            implies tree.subtrees().contains_key(ps[j]@.children[pos]) by {
            assert(visited(ps, n as int, 0, j, pos));
        }
        assert forall|k: i32| #[trigger] tree.subtrees().contains_key(k) implies root_entry(ps, k) by {
            assert(root_source(ps, k, n as int, 0, false));
            if !listed_child(ps, k) && k != 0 && placed_before(ps, k, n as int) {
                let j = choose|j: int| 0 <= j < n && is_final_record(ps, j) && #[trigger] ps[j]@.pid == k;
            } else {
                let (j, pos) = choose|j: int, pos: int|
                    #![trigger ps[j]@.children[pos]]
                    visited(ps, n as int, 0, j, pos) && ps[j]@.children[pos] == k && !lister_in_tree(ps, j, pos);
                assert(ps[j]@.children[pos] == k);
            }
        }
        assert forall|j: int| 0 <= j < n implies tree.has_pid(#[trigger] ps[j]@.pid) by {
            let r = lemma_final_record_exists(ps, j);
            if !tree.has_pid(ps[r]@.pid) {
                let m = choose|m: int| 0 <= m < n && is_final_record(ps, m) && #[trigger] ps[m]@.children.contains(ps[r]@.pid);
            }
        }
    }
    tree
}

/// Whether building a tree from `processes` goes through (see
/// [`builds_without_stall`]).
pub fn can_build_tree(processes: &Vec<Process>) -> (r: bool)
    ensures
        r == builds_without_stall(processes@),
{
    let ghost ps = processes@;
    let n = processes.len();
    let mut i: usize = 0;
    while i < n
        invariant
            i <= n,
            n == ps.len(),
            ps == processes@,
            forall|a: int, t: int|
                #![trigger ps[a]@.children[t]]
                0 <= a < i && is_final_record(ps, a) && 0 <= t < ps[a]@.children.len()
                    && !has_record(ps, ps[a]@.children[t], ps.len() as int) ==> {
                    ||| !listed_child(ps, ps[a]@.pid) && ps[a]@.pid != 0
                    ||| listed_before(ps, ps[a]@.pid, a)
                    ||| ps[a]@.children.take(t).contains(ps[a]@.pid)
                },
        decreases n - i,
    {
        if final_record(processes, i) {
            let q = &processes[i];
            let qpid = q.get_pid();
            let in_tree_early = (!listed_among(processes, qpid, n) && qpid != 0) || listed_among(processes, qpid, i);
            let kids = q.get_children();
            let mut seen_self = false;
            let mut t: usize = 0;
            while t < kids.len()
                invariant
                    t <= kids@.len(),
                    i < n,
                    n == ps.len(),
                    ps == processes@,
                    q == &processes@[i as int],
                    qpid == q@.pid,
                    kids@ == q@.children,
                    is_final_record(ps, i as int),
                    in_tree_early == ((!listed_child(ps, qpid) && qpid != 0) || listed_before(ps, qpid, i as int)),
                    seen_self == kids@.take(t as int).contains(qpid),
                    forall|a: int, u: int|
                        #![trigger ps[a]@.children[u]]
                        0 <= a < i && is_final_record(ps, a) && 0 <= u < ps[a]@.children.len()
                            && !has_record(ps, ps[a]@.children[u], ps.len() as int) ==> {
                            ||| !listed_child(ps, ps[a]@.pid) && ps[a]@.pid != 0
                            ||| listed_before(ps, ps[a]@.pid, a)
                            ||| ps[a]@.children.take(u).contains(ps[a]@.pid)
                        },
                    forall|u: int|
                        #![trigger ps[i as int]@.children[u]]
                        0 <= u < t && !has_record(ps, ps[i as int]@.children[u], ps.len() as int) ==> {
                            ||| !listed_child(ps, qpid) && qpid != 0
                            ||| listed_before(ps, qpid, i as int)
                            ||| ps[i as int]@.children.take(u).contains(qpid)
                        },
                decreases kids@.len() - t,
            {
                let c = kids[t];
                if !in_tree_early && !seen_self && !record_present(processes, c, n) {
                    proof {
                        assert(ps[i as int]@.children[t as int] == c);
                    }
                    return false;
                }
                proof {
                    if c == qpid {
                        assert(kids@.take(t + 1).contains(qpid)) by {
                            assert(kids@.take(t + 1)[t as int] == qpid);
                        }
                    } else {
                        assert forall|x: i32| kids@.take(t + 1).contains(x) && x != c implies kids@.take(t as int).contains(x) by {
                            let s = choose|s: int| 0 <= s < t + 1 && #[trigger] kids@.take(t + 1)[s] == x;
                            assert(kids@.take(t as int)[s] == x);
                        }
                        assert forall|x: i32| kids@.take(t as int).contains(x) implies kids@.take(t + 1).contains(x) by {
                            let s = choose|s: int| 0 <= s < t && #[trigger] kids@.take(t as int)[s] == x;
                            assert(kids@.take(t + 1)[s] == x);
                        }
                    }
                }
                if c == qpid {
                    seen_self = true;
                }
                t = t + 1;
            }
        }
        i = i + 1;
    }
    true
}

/// The tree built from `processes` and `system` where building goes through
/// (see [`create_tree`]); `None` where it would meet a child that the list
/// lacks while the record that lists it is not yet in the tree.
pub fn try_create_tree(processes: Vec<Process>, system: &Vec<SnapshotEntry>) -> (r: Option<ProcessTree>)
    ensures
        r is Some <==> builds_without_stall(processes@),
        r matches Some(t) ==> built_from(t, processes@, system@),
{
    if can_build_tree(&processes) {
        Some(create_tree(processes, system))
    } else {
        None
    }
}

/// The tree of a reading: its process records (see
/// [`link_children`](crate::snapshot::link_children)) built below the idle
/// process, with the reading itself to look up children (see
/// [`create_tree`]). Building always goes through here, as every child that a
/// record lists has a record of its own.
pub fn tree_from_reading(entries: &Vec<SnapshotEntry>) -> (tree: ProcessTree)
    ensures
        exists|ps: Seq<Process>| {
            &&& ps.len() == kept_positions(entries@, entries@.len() as int).len()
            &&& forall|m: int| 0 <= m < ps.len() ==> #[trigger] ps[m]@ == record_of(entries@, kept_positions(entries@, entries@.len() as int)[m])
            &&& built_from(tree, ps, entries@)
        },
        forall|j: int| 0 <= j < entries@.len() ==> tree.has_pid(#[trigger] entries@[j].pid),
{
    let records = link_children(entries);
    let ghost es = entries@;
    let ghost ps = records@;
    let ghost ks = kept_positions(es, es.len() as int);
    proof {
        assert forall|i: int, t: int|
            #![trigger ps[i]@.children[t]]
            0 <= i < ps.len() && is_final_record(ps, i) && 0 <= t < ps[i]@.children.len()
            implies has_record(ps, ps[i]@.children[t], ps.len() as int) by {
            let c = ps[i]@.children[t];
            assert(ps[i]@ == record_of(es, ks[i]));
            assert(ps[i]@.children.contains(c));
            lemma_child_ids_are_rows(es, es[ks[i]].pid, es.len() as int, c);
            let j = choose|j: int| 0 <= j < es.len() && #[trigger] es[j].pid == c;
            lemma_row_has_kept_row(es, j);
            let m = choose|m: int| 0 <= m < ks.len() && #[trigger] es[ks[m]].pid == es[j].pid;
            assert(ps[m]@ == record_of(es, ks[m]));
            assert(ps[m]@.pid == c);
        }
        assert(builds_without_stall(ps));
    }
    let tree = create_tree(records, entries);
    proof {
        assert forall|j: int| 0 <= j < es.len() implies tree.has_pid(#[trigger] es[j].pid) by {
            if es[j].pid != 0 {
                lemma_row_has_kept_row(es, j);
                let m = choose|m: int| 0 <= m < ks.len() && #[trigger] es[ks[m]].pid == es[j].pid;
                assert(ps[m]@ == record_of(es, ks[m]));
                assert(tree.has_pid(ps[m]@.pid));
            }
        }
    }
    tree
}

} // verus!
