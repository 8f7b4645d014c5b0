use task_manager::process::Process;
use task_manager::process_tree::ProcessTree;

fn proc_with(pid: i32, name: &str, kids: &[i32]) -> Process {
    let mut p = Process::new(pid, name.to_string());
    for k in kids {
        p.add_child(*k);
    }
    p
}

#[test]
fn new_tree_holds_only_its_root() {
    let root = Process::new(0, "System Idle Process".to_string());
    let t = ProcessTree::new(root.clone());
    assert!(t.get_root() == &root);
    assert!(t.pid_exists(0));
    assert!(!t.pid_exists(4));
    assert!(t.child_keys().is_empty());
}

#[test]
fn add_child_under_root_and_deeper() {
    let root = Process::new(0, "idle".to_string());
    let sys = Process::new(4, "System".to_string());
    let smss = Process::new(300, "smss.exe".to_string());
    let mut t = ProcessTree::new(root.clone());
    assert_eq!(t.add_child(root.clone(), sys.clone()), Ok(()));
    assert_eq!(t.add_child(sys.clone(), smss.clone()), Ok(()));
    assert!(t.pid_exists(4));
    assert!(t.pid_exists(300));
    assert!(!t.pid_exists(301));
    let below = t.get_child(4).expect("subtree of 4");
    assert!(below.get_root() == &sys);
    assert!(below.get_child(300).unwrap().get_root() == &smss);
    assert_eq!(t.child_keys(), vec![4]);
}

#[test]
fn add_child_without_parent_fails_and_changes_nothing() {
    let root = Process::new(0, "idle".to_string());
    let mut t = ProcessTree::new(root.clone());
    let stranger = Process::new(77, "x".to_string());
    let r = t.add_child(stranger, Process::new(78, "y".to_string()));
    assert_eq!(r, Err("Parent not found"));
    assert!(!t.pid_exists(78));
    assert!(t.child_keys().is_empty());
}

#[test]
fn parent_must_match_in_every_field() {
    let root = Process::new(0, "idle".to_string());
    let mut t = ProcessTree::new(root.clone());
    t.add_child(root.clone(), proc_with(5, "a", &[6])).unwrap();
    // same id, other name
    assert_eq!(t.add_child(proc_with(5, "b", &[6]), Process::new(6, "c".to_string())), Err("Parent not found"));
    // same id and name, other children
    assert_eq!(t.add_child(proc_with(5, "a", &[]), Process::new(6, "c".to_string())), Err("Parent not found"));
    assert_eq!(t.add_child(proc_with(5, "a", &[6]), Process::new(6, "c".to_string())), Ok(()));
    assert!(t.pid_exists(6));
}

#[test]
fn existing_key_keeps_first_subtree() {
    let root = Process::new(0, "idle".to_string());
    let mut t = ProcessTree::new(root.clone());
    let first = Process::new(8, "first".to_string());
    let second = Process::new(8, "second".to_string());
    t.add_child(root.clone(), first.clone()).unwrap();
    assert_eq!(t.add_child(root.clone(), second), Ok(()));
    assert!(t.get_child(8).unwrap().get_root() == &first);
    assert_eq!(t.child_keys().len(), 1);
}

#[test]
fn child_is_found_after_successful_add() {
    let root = Process::new(0, "idle".to_string());
    let mut t = ProcessTree::new(root.clone());
    let a = Process::new(1, "a".to_string());
    let b = Process::new(2, "b".to_string());
    let c = Process::new(3, "c".to_string());
    t.add_child(root.clone(), a.clone()).unwrap();
    t.add_child(a.clone(), b.clone()).unwrap();
    t.add_child(b.clone(), c.clone()).unwrap();
    for pid in [0, 1, 2, 3] {
        assert!(t.pid_exists(pid));
    }
    assert!(!t.pid_exists(4));
}

#[test]
fn adding_the_same_child_twice_changes_nothing() {
    let root = Process::new(0, "idle".to_string());
    let a = Process::new(1, "a".to_string());
    let b = Process::new(2, "b".to_string());
    let mut t = ProcessTree::new(root.clone());
    t.add_child(root.clone(), a.clone()).unwrap();
    t.add_child(a.clone(), b.clone()).unwrap();
    assert_eq!(t.add_child(a.clone(), b.clone()), Ok(()));
    assert_eq!(t.child_keys(), vec![1]);
    assert_eq!(t.get_child(1).unwrap().child_keys(), vec![2]);
    assert!(t.get_root() == &root);
}

#[test]
fn root_stays_through_calls() {
    let root = Process::new(0, "idle".to_string());
    let mut t = ProcessTree::new(root.clone());
    let _ = t.add_child(Process::new(9, "x".to_string()), Process::new(10, "y".to_string()));
    t.add_child(root.clone(), Process::new(1, "a".to_string())).unwrap();
    assert!(t.get_root() == &root);
}
