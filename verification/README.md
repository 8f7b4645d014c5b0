# task_manager

A process explorer's core, verified with Verus.

- `src/process.rs`: the process record kept in trees (id, name, child ids).
- `src/process_tree.rs`: the process tree (subtrees keyed by process id),
  its operations, and the building of a tree from process records below the
  idle process, with the laws that these operations keep.
- `src/snapshot.rs`: one reading of the system's process table, and what is
  derived from it (records with their children, lookup by id).
- `src/lister.rs`: the console lister's flat record and the attachment of
  processes to the idle process.
- `src/report.rs`: the text report on one process.
- `app/`: the program and its C interface: reading the process table and
  stopping processes through the Windows API, reading process details
  through `sysinfo`, and writing trees as JSON.
