use awesome_runner::procs::{
    cascade_triggered, find_descendant, kill_targets, next_state, ProcRec, SupervisorState,
    TrackedProc,
};

fn rec(pid: u32, parent: Option<u32>, name: &str) -> ProcRec {
    ProcRec { pid, parent, name: name.to_string() }
}

fn sorted_pids(found: &[(u32, String)]) -> Vec<u32> {
    let mut pids: Vec<u32> = found.iter().map(|e| e.0).collect();
    pids.sort();
    pids
}

#[test]
fn descendant_closure_reverse_topological_order() {
    // Parent map {a -> root, b -> a, c -> b}, supplied in reverse
    // topological order: the fixed point still finds exactly {a, b, c}.
    let root = 1u32;
    let procs = vec![
        rec(40, Some(30), "c"),
        rec(30, Some(20), "b"),
        rec(20, Some(1), "a"),
    ];
    let found = find_descendant(&procs, root);
    assert_eq!(sorted_pids(&found), vec![20, 30, 40]);
}

#[test]
fn descendant_closure_ignores_unrelated_processes() {
    let procs = vec![
        rec(50, Some(2), "other-tree"),
        rec(20, Some(1), "child"),
        rec(21, Some(20), "grandchild"),
        rec(60, None, "orphan"),
    ];
    let found = find_descendant(&procs, 1);
    assert_eq!(sorted_pids(&found), vec![20, 21]);
}

#[test]
fn descendant_closure_empty_when_no_children() {
    let procs = vec![rec(50, Some(2), "a"), rec(51, Some(50), "b")];
    let found = find_descendant(&procs, 1);
    assert!(found.is_empty());
}

#[test]
fn descendant_closure_keeps_names() {
    let procs = vec![rec(20, Some(1), "watcher")];
    let found = find_descendant(&procs, 1);
    assert_eq!(found.len(), 1);
    assert_eq!(found[0].0, 20);
    assert_eq!(found[0].1, "watcher");
}

fn watch(name: &str, pid: u32, end_all_on_exit: bool) -> TrackedProc {
    TrackedProc { name: name.to_string(), pid, end_all_on_exit }
}

#[test]
fn flagged_exit_triggers_cascade_within_one_poll() {
    // Tracked {A: end_all_on_exit, B, C}; A exits: the same poll pass
    // decides to terminate, and the kill list covers B and C.
    let watched = vec![watch("a", 10, true), watch("b", 11, false), watch("c", 12, false)];
    let exited = vec![true, false, false];
    assert!(cascade_triggered(&watched, &exited));
    let state = next_state(&SupervisorState::Polling, true);
    assert!(matches!(state, SupervisorState::Terminating));
    let targets = kill_targets(&exited);
    assert_eq!(targets, vec![1, 2]);
    let state = next_state(&state, false);
    assert!(matches!(state, SupervisorState::Done));
}

#[test]
fn unflagged_exit_does_not_trigger_cascade() {
    let watched = vec![watch("a", 10, true), watch("b", 11, false)];
    let exited = vec![false, true];
    assert!(!cascade_triggered(&watched, &exited));
    let state = next_state(&SupervisorState::Polling, false);
    assert!(matches!(state, SupervisorState::Polling));
}

#[test]
fn kill_targets_skips_already_exited() {
    let exited = vec![true, true, false, true];
    assert_eq!(kill_targets(&exited), vec![2]);
    let all_exited = vec![true, true];
    assert!(kill_targets(&all_exited).is_empty());
}

#[test]
fn snapshot_lists_unique_pids() {
    // The trusted snapshot of the live process table: pids key the table,
    // so they never repeat, and the table is not empty on a live machine.
    let mut sys = sysinfo::System::new();
    awesome_runner::procs::refresh_processes(&mut sys);
    let snap = awesome_runner::procs::snapshot_processes(&sys);
    assert!(!snap.is_empty());
    let mut pids: Vec<u32> = snap.iter().map(|r| r.pid).collect();
    pids.sort();
    let len_before = pids.len();
    pids.dedup();
    assert_eq!(pids.len(), len_before);
}
