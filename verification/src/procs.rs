//! The concurrent supervision core: the decision rules of the poll loop,
//! and the process-tree terminator that computes the transitive descendant
//! set of a root process from one snapshot of the OS process table.
//!
//! The snapshot is an explicit value passed in per invocation, never a
//! hidden global; the OS process table itself is read-only input.

use vstd::prelude::*;

verus! {

/// One record of a process-table snapshot: a process, its parent, and its
/// diagnostic name.
pub struct ProcRec {
    pub pid: u32,
    pub parent: Option<u32>,
    pub name: String,
}

/// A tracked detached process: its runner name, its OS pid, and whether its
/// exit tears every tracked process down.
pub struct TrackedProc {
    pub name: String,
    pub pid: u32,
    pub end_all_on_exit: bool,
}

/// The supervisor's states: poll until a flagged process exits, then
/// terminate everything, then stop.
pub enum SupervisorState {
    Polling,
    Terminating,
    Done,
}

// ---------------------------------------------------------------------------
// The descendant closure
// ---------------------------------------------------------------------------

/// `p` descends from `root` through at most `n + 1` parent steps of the
/// snapshot.
pub open spec fn descends_within(s: Seq<ProcRec>, root: u32, p: u32, n: nat) -> bool
    decreases n,
{
    exists|i: int|
        0 <= i < s.len() && (#[trigger] s[i]).pid == p && match s[i].parent {
            Some(q) => q == root || (n > 0 && descends_within(s, root, q, (n - 1) as nat)),
            None => false,
        }
}

/// `p` is a transitive descendant of `root` in the snapshot.
pub open spec fn is_descendant(s: Seq<ProcRec>, root: u32, p: u32) -> bool {
    exists|n: nat| descends_within(s, root, p, n)
}

/// Some listed process carries pid `p`.
pub open spec fn has_pid(out: Seq<(u32, String)>, p: u32) -> bool {
    exists|k: int| 0 <= k < out.len() && (#[trigger] out[k]).0 == p
}

/// The listed pids absorb every parent step: a record whose parent is the
/// root or is listed is itself listed.
pub open spec fn closed_under_parent(s: Seq<ProcRec>, root: u32, out: Seq<(u32, String)>) -> bool {
    forall|i: int|
        0 <= i < s.len() ==> match (#[trigger] s[i]).parent {
            Some(q) => (q == root || has_pid(out, q)) ==> has_pid(out, s[i].pid),
            None => true,
        }
}

/// A closed list holds every descendant, whatever its depth.
proof fn lemma_closed_complete(s: Seq<ProcRec>, root: u32, out: Seq<(u32, String)>, p: u32, n: nat)
    requires
        closed_under_parent(s, root, out),
        descends_within(s, root, p, n),
    ensures
        has_pid(out, p),
    decreases n,
{
    let i = choose|i: int|
        0 <= i < s.len() && (#[trigger] s[i]).pid == p && match s[i].parent {
            Some(q) => q == root || (n > 0 && descends_within(s, root, q, (n - 1) as nat)),
            None => false,
        };
    match s[i].parent {
        Some(q) => {
            if q != root {
                lemma_closed_complete(s, root, out, q, (n - 1) as nat);
            }
        }
        None => {}
    }
}

/// A list of unique pids, each drawn from the snapshot, is no longer than
/// the snapshot.
proof fn lemma_unique_pids_bound(out: Seq<(u32, String)>, s: Seq<ProcRec>)
    requires
        forall|k1: int, k2: int| 0 <= k1 < k2 < out.len() ==> (#[trigger] out[k1]).0 != (#[trigger] out[k2]).0,
        forall|k: int| #![trigger out[k]] 0 <= k < out.len() ==> exists|i: int|
            0 <= i < s.len() && (#[trigger] s[i]).pid == out[k].0,
    ensures
        out.len() <= s.len(),
{
    broadcast use vstd::seq_lib::seq_to_set_is_finite;
    broadcast use vstd::set::group_set_axioms;

    let outpids = Seq::new(out.len(), |k: int| out[k].0);
    let procpids = Seq::new(s.len(), |i: int| s[i].pid);
    assert(outpids.no_duplicates());
    outpids.unique_seq_to_set();
    procpids.lemma_cardinality_of_set();
    assert forall|p: u32| outpids.to_set().contains(p) implies procpids.to_set().contains(p) by {
        let k = choose|k: int| 0 <= k < outpids.len() && outpids[k] == p;
        let i = choose|i: int| 0 <= i < s.len() && (#[trigger] s[i]).pid == out[k].0;
        assert(procpids[i] == p);
    }
    assert(outpids.to_set() <= procpids.to_set());
    vstd::set_lib::lemma_len_subset(outpids.to_set(), procpids.to_set());
}

/// Every listed entry carries the pid and name of some snapshot record.
pub open spec fn names_from(procs: Seq<ProcRec>, out: Seq<(u32, String)>) -> bool {
    forall|k: int| #![trigger out[k]] 0 <= k < out.len() ==> exists|i: int|
        0 <= i < procs.len() && (#[trigger] procs[i]).pid == out[k].0 && procs[i].name@
            == out[k].1@
}

/// Whether `out` lists pid `p`.
fn contains_pid(out: &Vec<(u32, String)>, p: u32) -> (r: bool)
    ensures
        r == has_pid(out@, p),
{
    let mut k: usize = 0;
    while k < out.len()
        invariant
            k <= out@.len(),
            forall|j: int| 0 <= j < k ==> (#[trigger] out@[j]).0 != p,
        decreases out@.len() - k,
    {
        if out[k].0 == p {
            return true;
        }
        k = k + 1;
    }
    false
}

/// Computes the transitive descendant set of `root_pid` from one snapshot,
/// by fixed-point passes: a process joins when its parent is the root or
/// has already joined; passes repeat until one adds nothing.  The result
/// does not depend on the snapshot's order, and the passes are finite.
pub fn find_descendant(procs: &Vec<ProcRec>, root_pid: u32) -> (r: Vec<(u32, String)>)
    requires
        forall|i: int, j: int| 0 <= i < j < procs@.len() ==> (#[trigger] procs@[i]).pid
            != (#[trigger] procs@[j]).pid,
    ensures
        forall|k: int| 0 <= k < r@.len() ==> is_descendant(procs@, root_pid, (#[trigger] r@[k]).0),
        forall|p: u32| is_descendant(procs@, root_pid, p) ==> has_pid(r@, p),
        forall|k1: int, k2: int| 0 <= k1 < k2 < r@.len() ==> (#[trigger] r@[k1]).0 != (#[trigger] r@[k2]).0,
        names_from(procs@, r@),
    {
    let mut out: Vec<(u32, String)> = Vec::new();
    let mut added = true;
    while added
        invariant
            forall|k: int| 0 <= k < out@.len() ==> is_descendant(
                procs@,
                root_pid,
                (#[trigger] out@[k]).0,
            ),
            forall|k1: int, k2: int| 0 <= k1 < k2 < out@.len() ==> (#[trigger] out@[k1]).0 != (
            #[trigger] out@[k2]).0,
            names_from(procs@, out@),
            forall|i: int, j: int| 0 <= i < j < procs@.len() ==> (#[trigger] procs@[i]).pid != (
            #[trigger] procs@[j]).pid,
            out@.len() <= procs@.len(),
            !added ==> closed_under_parent(procs@, root_pid, out@),
        decreases procs@.len() - out@.len() + 1, (if added { 1int } else { 0int }),
    {
        added = false;
        let ghost len0 = out@.len();
        let mut j: usize = 0;
        while j < procs.len()
            invariant
                j <= procs@.len(),
                out@.len() >= len0,
                added ==> out@.len() > len0,
                forall|k: int| 0 <= k < out@.len() ==> is_descendant(
                    procs@,
                    root_pid,
                    (#[trigger] out@[k]).0,
                ),
                forall|k1: int, k2: int| 0 <= k1 < k2 < out@.len() ==> (#[trigger] out@[k1]).0 != (
                #[trigger] out@[k2]).0,
                names_from(procs@, out@),
                forall|i: int, jj: int| 0 <= i < jj < procs@.len() ==> (#[trigger] procs@[i]).pid != (
                #[trigger] procs@[jj]).pid,
                out@.len() <= procs@.len(),
                !added ==> forall|jj: int|
                    0 <= jj < j ==> match (#[trigger] procs@[jj]).parent {
                        Some(q) => (q == root_pid || has_pid(out@, q)) ==> has_pid(
                            out@,
                            procs@[jj].pid,
                        ),
                        None => true,
                    },
            decreases procs@.len() - j,
        {
            match &procs[j].parent {
                Some(q) => {
                    let q = *q;
                    let already = contains_pid(&out, procs[j].pid);
                    if !already && (q == root_pid || contains_pid(&out, q)) {
                        proof {
                            if q != root_pid {
                                let k = choose|k: int|
                                    0 <= k < out@.len() && (#[trigger] out@[k]).0 == q;
                                let n = choose|n: nat| descends_within(procs@, root_pid, q, n);
                                assert(descends_within(procs@, root_pid, procs@[j as int].pid, n + 1));
                            } else {
                                assert(descends_within(procs@, root_pid, procs@[j as int].pid, 0));
                            }
                        }
                        let name = procs[j].name.clone();
                        let ghost before = out@;
                        out.push((procs[j].pid, name));
                        added = true;
                        proof {
                            assert forall|k: int| #![trigger out@[k]] 0 <= k < out@.len()
                                implies exists|i: int|
                                0 <= i < procs@.len() && (#[trigger] procs@[i]).pid
                                    == out@[k].0 && procs@[i].name@ == out@[k].1@ by {
                                if k < before.len() {
                                    assert(out@[k] == before[k]);
                                    let i = choose|i: int|
                                        0 <= i < procs@.len() && (#[trigger] procs@[i]).pid
                                            == before[k].0 && procs@[i].name@ == before[k].1@;
                                    assert(procs@[i].pid == out@[k].0);
                                } else {
                                    assert(out@[k].0 == procs@[j as int].pid && out@[k].1
                                        == name);
                                    assert(procs@[j as int].pid == out@[k].0
                                        && procs@[j as int].name@ == out@[k].1@);
                                }
                            }
                            assert(names_from(procs@, out@));
                            assert forall|k: int| #![trigger out@[k]] 0 <= k < out@.len()
                                implies exists|i: int|
                                0 <= i < procs@.len() && (#[trigger] procs@[i]).pid
                                    == out@[k].0 by {
                                let i = choose|i: int|
                                    0 <= i < procs@.len() && (#[trigger] procs@[i]).pid
                                        == out@[k].0 && procs@[i].name@ == out@[k].1@;
                                assert(procs@[i].pid == out@[k].0);
                            }
                            lemma_unique_pids_bound(out@, procs@);
                        }
                    }
                }
                None => {}
            }
            j = j + 1;
        }
    }
    proof {
        assert forall|p: u32| is_descendant(procs@, root_pid, p) implies has_pid(out@, p) by {
            let n = choose|n: nat| descends_within(procs@, root_pid, p, n);
            lemma_closed_complete(procs@, root_pid, out@, p, n);
        }
    }
    out
}

// ---------------------------------------------------------------------------
// The supervisor's decisions
// ---------------------------------------------------------------------------

/// The shutdown cascade triggers once any tracked process flagged
/// `end_all_on_exit` has exited.
pub open spec fn spec_cascade_triggered(ts: Seq<TrackedProc>, exited: Seq<bool>) -> bool {
    exists|i: int| 0 <= i < ts.len() && exited[i] && (#[trigger] ts[i]).end_all_on_exit
}

/// Decides from one poll pass whether the shutdown cascade triggers.
/// `exited[i]` reports whether the `i`-th tracked process has exited.
pub fn cascade_triggered(watched: &Vec<TrackedProc>, exited: &Vec<bool>) -> (b: bool)
    requires
        exited@.len() == watched@.len(),
    ensures
        b == spec_cascade_triggered(watched@, exited@),
{
    let mut i: usize = 0;
    while i < watched.len()
        invariant
            i <= watched@.len(),
            exited@.len() == watched@.len(),
            forall|j: int| 0 <= j < i ==> !(exited@[j] && (#[trigger] watched@[j]).end_all_on_exit),
        decreases watched@.len() - i,
    {
        if exited[i] && watched[i].end_all_on_exit {
            return true;
        }
        i = i + 1;
    }
    false
}

/// The supervisor's transition function: `Polling` stays until the cascade
/// triggers, `Terminating` always completes, `Done` is terminal.
pub open spec fn spec_next_state(s: SupervisorState, triggered: bool) -> SupervisorState {
    match s {
        SupervisorState::Polling => if triggered {
            SupervisorState::Terminating
        } else {
            SupervisorState::Polling
        },
        SupervisorState::Terminating => SupervisorState::Done,
        SupervisorState::Done => SupervisorState::Done,
    }
}

/// Advances the supervisor one step.
pub fn next_state(s: &SupervisorState, triggered: bool) -> (r: SupervisorState)
    ensures
        r == spec_next_state(*s, triggered),
{
    match s {
        SupervisorState::Polling => {
            if triggered {
                SupervisorState::Terminating
            } else {
                SupervisorState::Polling
            }
        }
        SupervisorState::Terminating => SupervisorState::Done,
        SupervisorState::Done => SupervisorState::Done,
    }
}

/// The indices of every tracked process still running, in tracking order:
/// exactly those the cascade must terminate.
pub fn kill_targets(exited: &Vec<bool>) -> (r: Vec<usize>)
    ensures
        forall|k: int| 0 <= k < r@.len() ==> (#[trigger] r@[k]) < exited@.len()
            && !exited@[r@[k] as int],
        forall|i: int| 0 <= i < exited@.len() && !exited@[i] ==> exists|k: int|
            0 <= k < r@.len() && (#[trigger] r@[k]) == i,
        forall|k1: int, k2: int| 0 <= k1 < k2 < r@.len() ==> (#[trigger] r@[k1]) < (
        #[trigger] r@[k2]),
{
    let mut out: Vec<usize> = Vec::new();
    let mut i: usize = 0;
    while i < exited.len()
        invariant
            i <= exited@.len(),
            forall|k: int| 0 <= k < out@.len() ==> (#[trigger] out@[k]) < i
                && !exited@[out@[k] as int],
            forall|j: int| 0 <= j < i && !exited@[j] ==> exists|k: int|
                0 <= k < out@.len() && (#[trigger] out@[k]) == j,
            forall|k1: int, k2: int| 0 <= k1 < k2 < out@.len() ==> (#[trigger] out@[k1]) < (
            #[trigger] out@[k2]),
        decreases exited@.len() - i,
    {
        if !exited[i] {
            let ghost before = out@;
            out.push(i);
            proof {
                assert forall|j: int| 0 <= j <= i as int && !exited@[j] implies exists|k: int|
                    0 <= k < out@.len() && (#[trigger] out@[k]) == j by {
                    if j < i as int {
                        let k = choose|k: int| 0 <= k < before.len() && (#[trigger] before[k]) == j;
                        assert(out@[k] == j);
                    } else {
                        assert(out@[out@.len() - 1] == j);
                    }
                }
            }
        }
        i = i + 1;
    }
    out
}

/// Law: once one tracked process flagged `end_all_on_exit` has exited, the
/// very poll pass that sees it triggers the cascade, and the supervisor
/// leaves `Polling` for `Terminating`; `kill_targets` then lists every
/// tracked process still running, and `find_descendant` lists every OS
/// descendant of each, so the cascade reaches all of them within that one
/// poll interval.
pub proof fn lemma_flagged_exit_cascades(ts: Seq<TrackedProc>, exited: Seq<bool>, a: int)
    requires
        0 <= a < ts.len(),
        exited.len() == ts.len(),
        exited[a],
        ts[a].end_all_on_exit,
    ensures
        spec_cascade_triggered(ts, exited),
        spec_next_state(SupervisorState::Polling, spec_cascade_triggered(ts, exited))
            is Terminating,
{
}

// ---------------------------------------------------------------------------
// The trusted boundary around the OS process table
// ---------------------------------------------------------------------------

#[verifier::external_type_specification]
#[verifier::external_body]
pub struct ExSystem(sysinfo::System);

/// Relies on sysinfo's `System::refresh_processes_specifics`: reloads the
/// process list of `sys` from the OS.
#[verifier::external_body]
pub fn refresh_processes(sys: &mut sysinfo::System) {
    sys.refresh_processes_specifics(sysinfo::ProcessRefreshKind::everything().without_cpu());
}

/// Relies on sysinfo's `System::processes`: one record per live process,
/// keyed by pid, so the listed pids are unique; parent and name as the OS
/// reports them.  What comes back depends on the machine's state.
#[verifier::external_body]
pub fn snapshot_processes(sys: &sysinfo::System) -> (r: Vec<ProcRec>)
    ensures
        forall|i: int, j: int| 0 <= i < j < r@.len() ==> (#[trigger] r@[i]).pid != (
        #[trigger] r@[j]).pid,
{
    sys.processes().iter().map(
        |(pid, p): (&sysinfo::Pid, &sysinfo::Process)| ProcRec {
            pid: pid.as_u32(),
            parent: p.parent().map(|q| q.as_u32()),
            name: p.name().to_string(),
        },
    ).collect()
}

/// Relies on sysinfo's `Process::kill`: sends the kill signal to one
/// process, best effort; reports whether the signal was sent.
#[verifier::external_body]
pub fn kill_pid(sys: &sysinfo::System, pid: u32) -> (r: bool) {
    match sys.process(sysinfo::Pid::from_u32(pid)) {
        Some(p) => p.kill(),
        None => false,
    }
}

/// Kills every listed process, best effort and in order: one failure never
/// blocks the rest.  Returns how many kills were attempted, which is all of
/// them.
pub fn kill_listed(sys: &sysinfo::System, targets: &Vec<(u32, String)>) -> (attempted: usize)
    ensures
        attempted == targets@.len(),
{
    let mut i: usize = 0;
    while i < targets.len()
        invariant
            i <= targets@.len(),
        decreases targets@.len() - i,
    {
        let _sent = kill_pid(sys, targets[i].0);
        i = i + 1;
    }
    i
}

} // verus!
