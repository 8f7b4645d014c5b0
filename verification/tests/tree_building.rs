use task_manager::process::Process;
use task_manager::process_tree::{can_build_tree, create_tree, tree_from_reading, try_create_tree};
use task_manager::snapshot::SnapshotEntry;

fn proc_with(pid: i32, name: &str, kids: &[i32]) -> Process {
    let mut p = Process::new(pid, name.to_string());
    for k in kids {
        p.add_child(*k);
    }
    p
}

fn entry(pid: i32, parent: i32, name: &str) -> SnapshotEntry {
    SnapshotEntry::new(pid, parent, name.to_string())
}

#[test]
fn create_tree_places_children_under_parents() {
    let ps = vec![proc_with(4, "System", &[300]), proc_with(300, "smss.exe", &[]), proc_with(9, "solo", &[])];
    let t = create_tree(ps, &vec![]);
    assert_eq!(t.get_root().get_pid(), 0);
    assert_eq!(t.get_root().name(), "System Idle Process");
    let mut top = t.child_keys();
    top.sort();
    assert_eq!(top, vec![4, 9]);
    let sys = t.get_child(4).unwrap();
    assert_eq!(sys.child_keys(), vec![300]);
    assert_eq!(sys.get_child(300).unwrap().get_root().name(), "smss.exe");
}

#[test]
fn child_met_before_its_parent_waits_for_it() {
    // 300 comes first: it is a child of 4, so it is not put under the root;
    // 4 then records it under itself.
    let ps = vec![proc_with(300, "smss.exe", &[]), proc_with(4, "System", &[300])];
    let t = create_tree(ps, &vec![]);
    assert_eq!(t.child_keys(), vec![4]);
    assert_eq!(t.get_child(4).unwrap().child_keys(), vec![300]);
}

#[test]
fn child_of_a_parent_not_yet_in_the_tree_goes_under_root() {
    // 2 lists 3, but 2 is itself listed by 1 which comes later: 3 goes under
    // the root, then 1 brings 2 under itself.
    let ps = vec![proc_with(2, "b", &[3]), proc_with(3, "c", &[]), proc_with(1, "a", &[2])];
    let t = create_tree(ps, &vec![]);
    let mut top = t.child_keys();
    top.sort();
    assert_eq!(top, vec![1, 3]);
    assert_eq!(t.get_child(1).unwrap().child_keys(), vec![2]);
    assert!(t.get_child(1).unwrap().get_child(2).unwrap().child_keys().is_empty());
}

#[test]
fn missing_child_is_looked_up_in_the_reading() {
    let ps = vec![proc_with(10, "shell", &[11, 12])];
    let system = vec![entry(12, 10, "found.exe"), entry(12, 10, "second.exe")];
    let t = create_tree(ps, &system);
    let shell = t.get_child(10).unwrap();
    assert_eq!(shell.get_child(11).unwrap().get_root().name(), "Unknown");
    assert_eq!(shell.get_child(12).unwrap().get_root().name(), "found.exe");
    assert!(t.pid_exists(11) && t.pid_exists(12));
}

#[test]
fn last_record_of_an_id_wins() {
    let ps = vec![proc_with(5, "old", &[]), proc_with(5, "new", &[])];
    let t = create_tree(ps, &vec![]);
    assert_eq!(t.child_keys(), vec![5]);
    assert_eq!(t.get_child(5).unwrap().get_root().name(), "new");
}

#[test]
fn stalled_building_is_refused() {
    // 2 is listed by 1, which comes later, and 2 lists 99, which the list
    // lacks: when 2 comes up it is not in the tree.
    let ps = vec![proc_with(2, "b", &[99]), proc_with(1, "a", &[2])];
    assert!(!can_build_tree(&ps));
    assert!(try_create_tree(ps, &vec![]).is_none());
    // pid 0 records are never placed under the root on their own
    let zero = vec![proc_with(0, "zero", &[5])];
    assert!(!can_build_tree(&zero));
    // a record that lists itself first enters the tree through the root
    let own = vec![proc_with(2, "b", &[2, 99]), proc_with(1, "a", &[2])];
    assert!(can_build_tree(&own));
    let t = try_create_tree(own, &vec![]).unwrap();
    assert!(t.pid_exists(99));
}

#[test]
fn tree_from_reading_holds_every_process() {
    let reading = vec![
        entry(4, 0, "System"),
        entry(300, 4, "smss.exe"),
        entry(500, 300, "csrss.exe"),
        entry(600, 777, "orphan.exe"),
        entry(0, 0, "Idle"),
    ];
    let t = tree_from_reading(&reading);
    for pid in [0, 4, 300, 500, 600] {
        assert!(t.pid_exists(pid));
    }
    let sys = t.get_child(4).unwrap();
    assert_eq!(sys.child_keys(), vec![300]);
    assert_eq!(sys.get_child(300).unwrap().child_keys(), vec![500]);
    assert!(t.get_child(600).is_some());
}

#[test]
fn two_records_nest() {
    let p1 = proc_with(1, "a", &[2]);
    let p2 = proc_with(2, "b", &[]);
    let t = create_tree(vec![p1.clone(), p2.clone()], &vec![]);
    assert!(t.get_root() == &Process::new(0, "System Idle Process".to_string()));
    assert_eq!(t.child_keys(), vec![1]);
    let one = t.get_child(1).unwrap();
    assert!(one.get_root() == &p1);
    assert_eq!(one.child_keys(), vec![2]);
    let two = one.get_child(2).unwrap();
    assert!(two.get_root() == &p2);
    assert!(two.child_keys().is_empty());
}

fn count_pid(t: &task_manager::process_tree::ProcessTree, pid: i32) -> usize {
    let mut n = if t.get_root().get_pid() == pid { 1 } else { 0 };
    for k in t.child_keys() {
        n += count_pid(t.get_child(k).unwrap(), pid);
    }
    n
}

#[test]
fn each_id_at_one_node_when_listed_once() {
    // a cycle (5 lists 6, 6 lists 5) and a chain listed in reverse order
    let ps = vec![
        proc_with(3, "c", &[]),
        proc_with(5, "e", &[6]),
        proc_with(2, "b", &[3]),
        proc_with(6, "f", &[5]),
        proc_with(1, "a", &[2]),
    ];
    let t = create_tree(ps, &vec![]);
    for pid in [0, 1, 2, 3, 5, 6] {
        assert_eq!(count_pid(&t, pid), 1);
    }
}

#[test]
fn looked_up_child_hangs_under_its_lister() {
    let ps = vec![proc_with(10, "shell", &[11])];
    let t = create_tree(ps, &vec![entry(11, 10, "tool.exe")]);
    assert_eq!(t.child_keys(), vec![10]);
    let shell = t.get_child(10).unwrap();
    assert_eq!(shell.child_keys(), vec![11]);
    assert_eq!(shell.get_child(11).unwrap().get_root().name(), "tool.exe");
    assert!(shell.get_child(11).unwrap().child_keys().is_empty());
}

#[test]
fn grandchild_of_a_twice_listed_child_hangs_once() {
    // 3 is listed by both 1 and 2, so it is at two nodes; its own child 4 is
    // hung under one of them only.
    let ps = vec![
        proc_with(1, "a", &[3]),
        proc_with(2, "b", &[3]),
        proc_with(3, "c", &[4]),
        proc_with(4, "d", &[]),
    ];
    let t = create_tree(ps, &vec![]);
    assert_eq!(count_pid(&t, 3), 2);
    assert_eq!(count_pid(&t, 4), 1);
    let mut top = t.child_keys();
    top.sort();
    assert_eq!(top, vec![1, 2]);
}
