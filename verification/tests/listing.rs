use task_manager::lister::{attach_to_idle, listed_name, listing_root, Process};
use task_manager::snapshot::SnapshotEntry;

fn entry(pid: i32, parent: i32, name: &str) -> SnapshotEntry {
    SnapshotEntry::new(pid, parent, name.to_string())
}

#[test]
fn lister_process_basics() {
    let mut p = Process::new(4, "System".to_string());
    assert_eq!(p.get_pid(), 4);
    assert_eq!(p.get_name(), "System");
    assert!(!p.has_children());
    p.add_child(8);
    p.add_child(12);
    p.set_name("Sys".to_string());
    assert_eq!(p.get_name(), "Sys");
    assert_eq!(p.get_children(), &vec![8, 12]);
    assert!(p.has_children());
}

#[test]
fn traverse_gives_own_id_then_children() {
    let mut p = Process::new(4, "System".to_string());
    assert_eq!(p.traverse(), vec![&4]);
    p.add_child(8);
    p.add_child(12);
    let ids: Vec<i32> = p.traverse().into_iter().copied().collect();
    assert_eq!(ids, vec![4, 8, 12]);
}

#[test]
fn top_level_processes_come_first() {
    let root = attach_to_idle(&vec![(4, 300), (0, 4), (0, 88), (300, 500)]);
    assert_eq!(root.get_pid(), 0);
    assert_eq!(root.get_name(), "System Idle Process");
    assert_eq!(root.get_children(), &vec![4, 88]);
}

#[test]
fn processes_cut_off_from_idle_hang_from_it_last() {
    // 600's parent 777 is not in the list; 601 is 600's child; 5 and 6 form a
    // cycle; 9 is its own parent.
    let pend = vec![(0, 4), (777, 600), (600, 601), (6, 5), (5, 6), (9, 9)];
    let root = attach_to_idle(&pend);
    assert_eq!(root.get_children(), &vec![4, 600, 5, 9]);
}

#[test]
fn order_decides_which_stray_process_hangs_from_idle() {
    // the child comes before its cut-off parent: both hang from idle
    let root = attach_to_idle(&vec![(600, 601), (777, 600)]);
    assert_eq!(root.get_children(), &vec![601, 600]);
}

#[test]
fn empty_listing_is_idle_alone() {
    let root = attach_to_idle(&vec![]);
    assert!(!root.has_children());
    assert_eq!(root.traverse(), vec![&0]);
}

#[test]
fn listing_root_reads_a_reading() {
    let reading = vec![
        entry(0, 0, "Idle"),
        entry(4, 0, "System"),
        entry(300, 4, "smss.exe"),
        entry(900, 123, "lost.exe"),
        entry(4, 0, "System"),
    ];
    let root = listing_root(&reading);
    assert_eq!(root.get_children(), &vec![4, 900]);
}

#[test]
fn listing_names_each_process_by_its_last_row() {
    let entries = vec![entry(8, 0, "first.exe"), entry(12, 8, "child.exe"), entry(8, 0, "second.exe")];
    let root = listing_root(&entries);
    assert_eq!(listed_name(&root, &entries, 0), "System Idle Process");
    assert_eq!(listed_name(&root, &entries, 8), "second.exe");
    assert_eq!(listed_name(&root, &entries, 12), "child.exe");
    assert_eq!(listed_name(&root, &entries, 99), "");
}
