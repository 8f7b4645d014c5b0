use task_manager::snapshot::{find_process_in, kept_rows, link_children, SnapshotEntry};

fn entry(pid: i32, parent: i32, name: &str) -> SnapshotEntry {
    SnapshotEntry::new(pid, parent, name.to_string())
}

#[test]
fn kept_rows_skip_id_zero_and_earlier_duplicates() {
    let r = vec![entry(0, 0, "Idle"), entry(4, 0, "System"), entry(8, 4, "a"), entry(4, 0, "System again")];
    assert_eq!(kept_rows(&r), vec![2, 3]);
}

#[test]
fn link_children_records_every_child_in_reading_order() {
    let r = vec![
        entry(0, 0, "Idle"),
        entry(4, 0, "System"),
        entry(300, 4, "smss.exe"),
        entry(88, 4, "Registry"),
        entry(500, 300, "csrss.exe"),
    ];
    let ps = link_children(&r);
    assert_eq!(ps.len(), 4);
    assert_eq!(ps[0].get_pid(), 4);
    assert_eq!(ps[0].get_children(), &vec![300, 88]);
    assert_eq!(ps[1].get_pid(), 300);
    assert_eq!(ps[1].get_children(), &vec![500]);
    assert_eq!(ps[1].name(), "smss.exe");
    assert!(!ps[2].has_children());
    assert!(!ps[3].has_children());
}

#[test]
fn link_children_keeps_last_name_and_repeated_children() {
    let r = vec![entry(7, 1, "first"), entry(9, 7, "child"), entry(7, 1, "second"), entry(9, 7, "child")];
    let ps = link_children(&r);
    assert_eq!(ps.len(), 2);
    assert_eq!(ps[0].get_pid(), 7);
    assert_eq!(ps[0].name(), "second");
    assert_eq!(ps[0].get_children(), &vec![9, 9]);
    assert_eq!(ps[1].get_pid(), 9);
}

#[test]
fn find_process_in_takes_first_match_or_unknown() {
    let r = vec![entry(3, 1, "one"), entry(3, 1, "two"), entry(5, 3, "five")];
    let p = find_process_in(&r, 3);
    assert_eq!(p.get_pid(), 3);
    assert_eq!(p.name(), "one");
    assert!(!p.has_children());
    let q = find_process_in(&r, 6);
    assert_eq!(q.get_pid(), 6);
    assert_eq!(q.name(), "Unknown");
    let e = find_process_in(&vec![], 1);
    assert_eq!(e.name(), "Unknown");
}
