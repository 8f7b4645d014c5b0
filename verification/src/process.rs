//! A process record as the tree keeps it: an id, a name and the ids of the
//! processes that it started.

use vstd::prelude::*;
use vstd::std_specs::cmp::PartialEqSpecImpl;

verus! {

/// The mathematical content of a [`Process`].
pub struct ProcessView {
    pub pid: i32,
    pub name: Seq<char>,
    pub children: Seq<i32>,
}

/// A process: its id, its executable name and the ids of its children, in
/// the order in which they were recorded.
#[derive(Eq, Hash)]
pub struct Process {
    pid: i32,
    name: String,
    children_by_id: Vec<i32>,
}

impl View for Process {
    type V = ProcessView;

    closed spec fn view(&self) -> ProcessView {
        ProcessView { pid: self.pid, name: self.name@, children: self.children_by_id@ }
    }
}

/// Whether two sequences of ids are equal, element by element.
fn same_ids(a: &Vec<i32>, b: &Vec<i32>) -> (r: bool)
    ensures
        r == (a@ == b@),
{
    if a.len() != b.len() {
        return false;
    }
    let mut i: usize = 0;
    while i < a.len()
        invariant
            a.len() == b.len(),
            i <= a.len(),
            forall|j: int| 0 <= j < i ==> a@[j] == b@[j],
        decreases a.len() - i,
    {
        if a[i] != b[i] {
            return false;
        }
        i = i + 1;
    }
    assert(a@ =~= b@);
    true
}

/// A copy of a sequence of ids.
pub(crate) fn copy_ids(a: &Vec<i32>) -> (r: Vec<i32>)
    ensures
        r@ == a@,
{
    let mut r: Vec<i32> = Vec::new();
    let mut i: usize = 0;
    while i < a.len()
        invariant
            i <= a.len(),
            r@ == a@.subrange(0, i as int),
        decreases a.len() - i,
    {
        r.push(a[i]);
        i = i + 1;
    }
    assert(a@.subrange(0, a.len() as int) =~= a@);
    r
}

impl Clone for Process {
    fn clone(&self) -> (r: Self)
        ensures
            r@ == self@,
    {
        Process { pid: self.pid, name: self.name.clone(), children_by_id: copy_ids(&self.children_by_id) }
    }
}

impl PartialEq for Process {
    fn eq(&self, other: &Self) -> (r: bool) {
        self.pid == other.pid && self.name == other.name && same_ids(&self.children_by_id, &other.children_by_id)
    }
}

impl PartialEqSpecImpl for Process {
    open spec fn obeys_eq_spec() -> bool {
        true
    }

    open spec fn eq_spec(&self, other: &Process) -> bool {
        self@ == other@
    }
}

impl Process {
    /// A process with the given id and name and no children.
    pub fn new(pid: i32, name: String) -> (p: Process)
        ensures
            p@.pid == pid,
            p@.name == name@,
            p@.children == Seq::<i32>::empty(),
    {
        Process { pid, name, children_by_id: Vec::new() }
    }

    /// The process id.
    pub fn get_pid(&self) -> (pid: i32)
        ensures
            pid == self@.pid,
    {
        self.pid
    }

    /// Whether any child has been recorded.
    pub fn has_children(&self) -> (r: bool)
        ensures
            r == (self@.children.len() > 0),
    {
        self.children_by_id.len() > 0
    }

    /// Records `child` as the last child of this process.
    pub fn add_child(&mut self, child: i32)
        ensures
            final(self)@.pid == old(self)@.pid,
            final(self)@.name == old(self)@.name,
            final(self)@.children == old(self)@.children.push(child),
            final(self)@ == edited(old(self)@, RecordEdit::AddChild(child)),
    {
        self.children_by_id.push(child);
    }

    /// Replaces the name.
    pub fn set_name(&mut self, name: String)
        ensures
            final(self)@.pid == old(self)@.pid,
            final(self)@.name == name@,
            final(self)@.children == old(self)@.children,
            final(self)@ == edited(old(self)@, RecordEdit::SetName(name@)),
    {
        self.name = name;
    }

    /// The ids of the recorded children, in the order of recording.
    pub fn get_children(&self) -> (children: &Vec<i32>)
        ensures
            children@ == self@.children,
    {
        &self.children_by_id
    }

    /// The executable name.
    pub fn name(&self) -> (name: &String)
        ensures
            name@ == self@.name,
    {
        &self.name
    }
}

/// One call that changes a process record: recording a child, or renaming.
pub enum RecordEdit {
    AddChild(i32),
    SetName(Seq<char>),
}

/// The record after one call.
pub open spec fn edited(v: ProcessView, e: RecordEdit) -> ProcessView {
    match e {
        RecordEdit::AddChild(c) => ProcessView { children: v.children.push(c), ..v },
        RecordEdit::SetName(n) => ProcessView { name: n, ..v },
    }
}

/// The record after a run of calls, in order.
pub open spec fn edits_applied(v: ProcessView, es: Seq<RecordEdit>) -> ProcessView
    decreases es.len(),
{
    if es.len() == 0 {
        v
    } else {
        edited(edits_applied(v, es.drop_last()), es.last())
    }
}

/// The children that a run of calls records, in call order.
pub open spec fn added_children(es: Seq<RecordEdit>) -> Seq<i32>
    decreases es.len(),
{
    if es.len() == 0 {
        Seq::empty()
    } else {
        match es.last() {
            RecordEdit::AddChild(c) => added_children(es.drop_last()).push(c),
            RecordEdit::SetName(_) => added_children(es.drop_last()),
        }
    }
}

/// Through any run of `add_child` and `set_name` calls, on a record of this
/// module or of the lister (see [`crate::lister::Process`]), the id stays and the
/// children are those held before followed by those recorded, in call order,
/// repeats kept.
pub proof fn lemma_children_in_call_order(v: ProcessView, es: Seq<RecordEdit>)
    ensures
        edits_applied(v, es).pid == v.pid,
        edits_applied(v, es).children == v.children + added_children(es),
    decreases es.len(),
{
    if es.len() > 0 {
        lemma_children_in_call_order(v, es.drop_last());
        match es.last() {
            RecordEdit::AddChild(c) => {
                assert(v.children + added_children(es.drop_last()).push(c) =~= (v.children + added_children(es.drop_last())).push(c));
            },
            RecordEdit::SetName(_) => {},
        }
    }
}

} // verus!
