use task_manager::add;
use task_manager::process::Process;

#[test]
fn add_sums_sizes() {
    assert_eq!(add(2, 2), 4);
    assert_eq!(add(0, 0), 0);
    assert_eq!(add(usize::MAX - 1, 1), usize::MAX);
}

#[test]
fn new_process_has_no_children() {
    let p = Process::new(42, "svchost.exe".to_string());
    assert_eq!(p.get_pid(), 42);
    assert_eq!(p.name(), "svchost.exe");
    assert!(!p.has_children());
    assert!(p.get_children().is_empty());
}

#[test]
fn add_child_appends_in_order() {
    let mut p = Process::new(4, "System".to_string());
    p.add_child(100);
    p.add_child(7);
    p.add_child(100);
    assert!(p.has_children());
    assert_eq!(p.get_children(), &vec![100, 7, 100]);
    assert_eq!(p.get_pid(), 4);
}

#[test]
fn set_name_keeps_id_and_children() {
    let mut p = Process::new(9, "old".to_string());
    p.add_child(3);
    p.set_name("new".to_string());
    assert_eq!(p.name(), "new");
    assert_eq!(p.get_pid(), 9);
    assert_eq!(p.get_children(), &vec![3]);
}

#[test]
fn equality_compares_every_field() {
    let mut a = Process::new(1, "a".to_string());
    a.add_child(2);
    let b = a.clone();
    assert!(a == b);
    let mut c = a.clone();
    c.add_child(3);
    assert!(a != c);
    let d = Process::new(1, "b".to_string());
    assert!(Process::new(1, "a".to_string()) != d);
    assert!(Process::new(1, "a".to_string()) != Process::new(2, "a".to_string()));
}

#[test]
fn children_keep_call_order_through_renames() {
    let mut p = Process::new(3, "x".to_string());
    p.add_child(5);
    p.set_name("y".to_string());
    p.add_child(4);
    p.add_child(5);
    p.set_name("z".to_string());
    assert_eq!(p.get_children(), &vec![5, 4, 5]);
    assert_eq!(p.get_pid(), 3);
}
