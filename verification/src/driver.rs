//! The full-coverage emulation driver: a work-queue state machine that,
//! from an entry address, explores every branch it encounters (without
//! following calls), emulates each reachable instruction at most once —
//! except instructions under a repeating prefix, which may repeat up to a
//! configured bound — and drives registered monitors and hooks at each
//! step. A configurable step ceiling bounds every run.

use vstd::prelude::*;

use crate::monitor::EmulationMonitor;
use crate::workspace::{Instruction, Workspace, BR_FALL, BR_PROC, BR_TABLE};

verus! {

/// Why a driver run ended.
#[derive(Clone, Copy, PartialEq, Eq, Structural, Debug)]
pub enum RunReason {
    /// The work queue ran dry: every discovered address was processed.
    Done,
    /// A monitor raised the cancellation signal.
    Cancelled,
    /// The configured step ceiling was reached.
    StepLimit,
}

/// The trace of one driver run.
pub struct RunResult {
    /// The addresses emulated, in emulation order; an address appears once
    /// per emulation.
    pub visited: Vec<i32>,
    /// The discovered control-flow edges: explicit non-call branches and
    /// synthesized fall-through edges, as (from, to, flags).
    pub edges: Vec<(i32, i32, i32)>,
    /// The queued addresses at which no instruction could be decoded.
    pub anomalies: Vec<i32>,
    /// Why the run ended.
    pub reason: RunReason,
}

/// How often the driver may emulate the instruction at `va`: once, or up
/// to `repmax` times under a repeating prefix.
pub open spec fn allowed_visits(ws: Workspace, va: i32, repmax: u32) -> u32 {
    match ws.decode_spec(va) {
        None => 1,
        Some(inst) => if inst.rep_prefix {
            repmax
        } else {
            1
        },
    }
}

/// How often `a` occurs in `s`.
pub open spec fn occurrences(s: Seq<i32>, a: i32) -> nat
    decreases s.len(),
{
    if s.len() == 0 {
        0
    } else {
        (if s.last() == a {
            1nat
        } else {
            0nat
        }) + occurrences(s.drop_last(), a)
    }
}

/// The control-flow successors of the instruction at `va`: its non-call
/// branch targets, and — unless it transfers control unconditionally —
/// the fall-through address. An address that decodes to nothing has no
/// successors.
pub open spec fn successor_set(ws: Workspace, va: i32) -> Set<i32> {
    match ws.decode_spec(va) {
        None => Set::empty(),
        Some(inst) => {
            let bs = ws.branches_spec(va);
            let branch_targets = Set::new(
                |t: i32|
                    exists|i: int|
                        0 <= i < bs.len() && (#[trigger] bs[i]).0 == t && bs[i].1 & BR_PROC == 0,
            );
            if inst.no_fallthrough {
                branch_targets
            } else {
                branch_targets.insert((inst.va + inst.size) as i32)
            }
        },
    }
}

/// Whether `dst` is reachable from `src` in at most `k` successor steps.
pub open spec fn reaches_in(ws: Workspace, src: i32, dst: i32, k: nat) -> bool
    decreases k,
{
    if k == 0 {
        src == dst
    } else {
        reaches_in(ws, src, dst, (k - 1) as nat) || exists|mid: i32|
            reaches_in(ws, src, mid, (k - 1) as nat) && #[trigger] successor_set(ws, mid).contains(
                dst,
            )
    }
}

/// Whether `dst` is reachable from `src` along successor edges.
pub open spec fn reaches(ws: Workspace, src: i32, dst: i32) -> bool {
    exists|k: nat| reaches_in(ws, src, dst, k)
}

/// Reachability extends along one successor edge.
pub proof fn lemma_reaches_step(ws: Workspace, src: i32, mid: i32, dst: i32)
    requires
        reaches(ws, src, mid),
        successor_set(ws, mid).contains(dst),
    ensures
        reaches(ws, src, dst),
{
    let k = choose|k: nat| reaches_in(ws, src, mid, k);
    assert(reaches_in(ws, src, dst, k + 1));
}

/// A successor-closed set of addresses that holds the source holds every
/// address reachable from it.
proof fn lemma_closure_covers(ws: Workspace, entry: i32, counts: Seq<(i32, u32)>, k: nat, dst: i32)
    requires
        count_of(counts, entry) >= 1,
        forall|a: i32, b: i32|
            count_of(counts, a) >= 1 && #[trigger] successor_set(ws, a).contains(b) ==> count_of(
                counts,
                b,
            ) >= 1,
        reaches_in(ws, entry, dst, k),
    ensures
        count_of(counts, dst) >= 1,
    decreases k,
{
    if k == 0 {
    } else {
        if reaches_in(ws, entry, dst, (k - 1) as nat) {
            lemma_closure_covers(ws, entry, counts, (k - 1) as nat, dst);
        } else {
            let mid = choose|mid: i32|
                reaches_in(ws, entry, mid, (k - 1) as nat) && #[trigger] successor_set(
                    ws,
                    mid,
                ).contains(dst);
            lemma_closure_covers(ws, entry, counts, (k - 1) as nat, mid);
        }
    }
}

/// Per-address visit counters, keyed by address.
pub open spec fn counts_wf(counts: Seq<(i32, u32)>) -> bool {
    forall|i: int, j: int|
        0 <= i < j < counts.len() ==> (#[trigger] counts[i]).0 != (#[trigger] counts[j]).0
}

/// The counter recorded for `a`, or 0 when none is.
pub open spec fn count_of(counts: Seq<(i32, u32)>, a: i32) -> u32
    decreases counts.len(),
{
    if counts.len() == 0 {
        0
    } else if counts.last().0 == a {
        counts.last().1
    } else {
        count_of(counts.drop_last(), a)
    }
}

proof fn lemma_count_absent(counts: Seq<(i32, u32)>, a: i32)
    requires
        forall|i: int| 0 <= i < counts.len() ==> (#[trigger] counts[i]).0 != a,
    ensures
        count_of(counts, a) == 0,
    decreases counts.len(),
{
    if counts.len() > 0 {
        lemma_count_absent(counts.drop_last(), a);
    }
}

proof fn lemma_count_remove_other(counts: Seq<(i32, u32)>, j: int, b: i32)
    requires
        0 <= j < counts.len(),
        counts[j].0 != b,
    ensures
        count_of(counts.remove(j), b) == count_of(counts, b),
    decreases counts.len(),
{
    if j == counts.len() - 1 {
        assert(counts.remove(j) =~= counts.drop_last());
    } else {
        assert(counts.remove(j).last() == counts.last());
        assert(counts.remove(j).drop_last() =~= counts.drop_last().remove(j));
        lemma_count_remove_other(counts.drop_last(), j, b);
    }
}

/// The counter recorded for `a`, or 0 when none is.
fn get_count(counts: &Vec<(i32, u32)>, a: i32) -> (r: u32)
    ensures
        r == count_of(counts@, a),
{
    let mut i: usize = counts.len();
    proof {
        assert(counts@.take(counts@.len() as int) == counts@);
    }
    while i > 0
        invariant
            0 <= i <= counts@.len(),
            count_of(counts@, a) == count_of(counts@.take(i as int), a),
        decreases i,
    {
        proof {
            assert(counts@.take(i as int).drop_last() == counts@.take(i - 1));
            assert(counts@.take(i as int).last() == counts@[i - 1]);
        }
        if counts[i - 1].0 == a {
            return counts[i - 1].1;
        }
        i -= 1;
    }
    proof {
        assert(counts@.take(0).len() == 0);
    }
    0
}

/// Raise the counter recorded for `a` by one.
fn bump_count(counts: &mut Vec<(i32, u32)>, a: i32)
    requires
        counts_wf(old(counts)@),
        count_of(old(counts)@, a) < u32::MAX,
    ensures
        counts_wf(final(counts)@),
        count_of(final(counts)@, a) == count_of(old(counts)@, a) + 1,
        forall|b: i32| b != a ==> count_of(final(counts)@, b) == count_of(old(counts)@, b),
{
    let ghost orig = counts@;
    let mut j: usize = 0;
    let n = counts.len();
    while j < n
        invariant
            0 <= j <= counts@.len(),
            n == counts@.len(),
            counts@ == orig,
            orig == old(counts)@,
            counts_wf(orig),
            count_of(orig, a) < u32::MAX,
            forall|t: int| 0 <= t < j ==> (#[trigger] counts@[t]).0 != a,
        decreases counts@.len() - j,
    {
        if counts[j].0 == a {
            let c = counts[j].1;
            proof {
                assert(count_of(orig, a) == c) by {
                    lemma_count_at_key(orig, j as int, a);
                }
            }
            counts.remove(j);
            counts.push((a, c + 1));
            proof {
                let removed = orig.remove(j as int);
                assert(counts@ == removed.push((a, (c + 1) as u32)));
                assert forall|t: int, u: int|
                    0 <= t < u < removed.len() implies (#[trigger] removed[t]).0 != (
                #[trigger] removed[u]).0 by {
                    if t < j && u < j {
                    } else if t < j {
                        assert(removed[u] == orig[u + 1]);
                    } else {
                        assert(removed[t] == orig[t + 1]);
                        assert(removed[u] == orig[u + 1]);
                    }
                }
                assert forall|t: int| 0 <= t < removed.len() implies (#[trigger] removed[t]).0
                    != a by {
                    if t < j {
                    } else {
                        assert(removed[t] == orig[t + 1]);
                    }
                }
                lemma_count_absent(removed, a);
                assert(counts@.drop_last() =~= removed);
                assert(counts@.last() == (a, (c + 1) as u32));
                assert(count_of(counts@, a) == c + 1);
                assert forall|b: i32| b != a implies count_of(counts@, b) == count_of(orig, b) by {
                    assert(orig[j as int].0 == a);
                    lemma_count_remove_other(orig, j as int, b);
                    assert(count_of(counts@, b) == count_of(removed, b));
                }
                assert forall|t: int, u: int|
                    0 <= t < u < counts@.len() implies (#[trigger] counts@[t]).0 != (
                #[trigger] counts@[u]).0 by {
                    if u < counts@.len() - 1 {
                        assert(counts@[t] == removed[t]);
                        assert(counts@[u] == removed[u]);
                    } else {
                        assert(counts@[u].0 == a);
                        if t < counts@.len() - 1 {
                            assert(counts@[t] == removed[t]);
                        }
                    }
                }
            }
            return ;
        }
        j += 1;
    }
    proof {
        lemma_count_absent(orig, a);
    }
    counts.push((a, 1));
    proof {
        assert(counts@ == orig.push((a, 1)));
        assert(counts@.drop_last() =~= orig);
        assert forall|t: int, u: int|
            0 <= t < u < counts@.len() implies (#[trigger] counts@[t]).0 != (
        #[trigger] counts@[u]).0 by {
            if u < counts@.len() - 1 {
                assert(counts@[t] == orig[t]);
                assert(counts@[u] == orig[u]);
            } else {
                assert(counts@[u].0 == a);
                if t < counts@.len() - 1 {
                    assert(counts@[t] == orig[t]);
                }
            }
        }
    }
}

/// The counter at a known key position is the recorded counter.
proof fn lemma_count_at_key(counts: Seq<(i32, u32)>, j: int, a: i32)
    requires
        0 <= j < counts.len(),
        counts[j].0 == a,
        counts_wf(counts),
    ensures
        count_of(counts, a) == counts[j].1,
    decreases counts.len(),
{
    if j == counts.len() - 1 {
    } else {
        assert(counts.last().0 != a);
        assert(counts.drop_last()[j] == counts[j]);
        lemma_count_at_key(counts.drop_last(), j, a);
    }
}

/// The hook list with every registration of `x` removed.
pub open spec fn hooks_without(s: Seq<i32>, x: i32) -> Seq<i32>
    decreases s.len(),
{
    if s.len() == 0 {
        s
    } else {
        let rest = hooks_without(s.drop_last(), x);
        if s.last() == x {
            rest
        } else {
            rest.push(s.last())
        }
    }
}

/// Whether the instruction at `va` makes a procedure call: some branch
/// carries the call flag.
pub open spec fn is_call_spec(ws: Workspace, va: i32) -> bool {
    exists|i: int|
        0 <= i < ws.branches_spec(va).len() && (#[trigger] ws.branches_spec(va)[i]).1 & BR_PROC
            != 0
}

/// Branch-table test: the instruction's address resolves to a known
/// location, at least one cross-reference into it exists, and at least one
/// of its branch-flag pairs carries the table flag. All three are
/// required.
pub open spec fn is_table_spec(ws: Workspace, va: i32, xrefs: Option<i32>) -> bool {
    &&& ws.has_location_spec(va)
    &&& xrefs is Some
    &&& exists|i: int|
        0 <= i < ws.branches_spec(va).len() && (#[trigger] ws.branches_spec(va)[i]).1 & BR_TABLE
            != 0
}

/// The edges one emulation of the instruction at `va` records from the
/// branch list `branches`: every non-call branch, in branch order.
pub open spec fn branch_records(branches: Seq<(i32, i32)>, va: i32) -> Seq<(i32, i32, i32)>
    decreases branches.len(),
{
    if branches.len() == 0 {
        Seq::empty()
    } else {
        let rest = branch_records(branches.drop_last(), va);
        if branches.last().1 & BR_PROC != 0 {
            rest
        } else {
            rest.push((va, branches.last().0, branches.last().1))
        }
    }
}

/// The edges one emulation of the instruction at `a` records, in recording
/// order: its non-call branches, then — unless it transfers control
/// unconditionally — its synthesized fall-through edge.
pub open spec fn visit_edges(ws: Workspace, a: i32) -> Seq<(i32, i32, i32)> {
    match ws.decode_spec(a) {
        None => Seq::empty(),
        Some(inst) => branch_records(ws.branches_spec(a), a) + if inst.no_fallthrough {
            Seq::empty()
        } else {
            seq![(a, (a + inst.size) as i32, BR_FALL)]
        },
    }
}

/// The edge trace of a run: the edges of each emulated address, in
/// emulation order.
pub open spec fn trace_edges(ws: Workspace, visited: Seq<i32>) -> Seq<(i32, i32, i32)>
    decreases visited.len(),
{
    if visited.len() == 0 {
        Seq::empty()
    } else {
        trace_edges(ws, visited.drop_last()) + visit_edges(ws, visited.last())
    }
}

/// Every edge leaving the instruction at `a` is recorded in `edges`: each
/// of its non-call branches, and — unless it transfers control
/// unconditionally — its synthesized fall-through edge.
pub open spec fn edges_complete_for(ws: Workspace, a: i32, edges: Seq<(i32, i32, i32)>) -> bool {
    match ws.decode_spec(a) {
        None => true,
        Some(inst) => {
            &&& forall|i: int|
                0 <= i < ws.branches_spec(a).len() && (#[trigger] ws.branches_spec(a)[i]).1
                    & BR_PROC == 0 ==> edges.contains(
                    (a, ws.branches_spec(a)[i].0, ws.branches_spec(a)[i].1),
                )
            &&& !inst.no_fallthrough ==> edges.contains((a, (a + inst.size) as i32, BR_FALL))
        },
    }
}

/// Recorded edges survive recording one more.
proof fn lemma_complete_push(ws: Workspace, a: i32, edges: Seq<(i32, i32, i32)>, x: (i32, i32, i32))
    requires
        edges_complete_for(ws, a, edges),
    ensures
        edges_complete_for(ws, a, edges.push(x)),
{
    match ws.decode_spec(a) {
        None => {},
        Some(inst) => {
            assert forall|y: (i32, i32, i32)| edges.contains(y) implies edges.push(x).contains(
                y,
            ) by {
                let j = choose|j: int| 0 <= j < edges.len() && edges[j] == y;
                assert(edges.push(x)[j] == y);
            }
        },
    }
}

/// A recorded control-flow edge is genuine: its source decodes, and it is
/// either one of the source's non-call branches or the source's synthesized
/// fall-through edge.
pub open spec fn edge_wf(ws: Workspace, e: (i32, i32, i32)) -> bool {
    match ws.decode_spec(e.0) {
        None => false,
        Some(inst) => {
            ||| exists|i: int|
                0 <= i < ws.branches_spec(e.0).len() && #[trigger] ws.branches_spec(e.0)[i] == (
                e.1,
                e.2,
            ) && e.2 & BR_PROC == 0
            ||| (e.2 == BR_FALL && !inst.no_fallthrough && e.1 == e.0 + inst.size)
        },
    }
}

/// An emulator that explores all code paths from a given entry: it
/// explores every branch it encounters, though it does not follow calls,
/// and emulates each instruction once — unless the instruction carries a
/// repeating prefix, in which case up to `repmax` times. Registered
/// monitors receive callbacks describing the found instructions; a step
/// ceiling bounds every run.
pub struct FullCoverageEmulatorDriver<T> {
    pub workspace: Workspace,
    pub monitors: Vec<T>,
    pub hooks: Vec<i32>,
    /// How often one address may be re-emulated under a repeating prefix.
    pub repmax: u32,
    /// The safety-net ceiling on emulated steps per run.
    pub max_steps: u32,
}

impl<T: EmulationMonitor> FullCoverageEmulatorDriver<T> {
    /// A driver over the workspace with no monitors and no hooks yet.
    pub fn new(workspace: Workspace, repmax: u32, max_steps: u32) -> (r:
        FullCoverageEmulatorDriver<T>)
        requires
            repmax >= 1,
        ensures
            r.workspace == workspace,
            r.monitors@.len() == 0,
            r.hooks@.len() == 0,
            r.repmax == repmax,
            r.max_steps == max_steps,
    {
        FullCoverageEmulatorDriver {
            workspace,
            monitors: Vec::new(),
            hooks: Vec::new(),
            repmax,
            max_steps,
        }
    }

    /// Register a monitor; monitors are invoked in registration order.
    pub fn add_monitor(&mut self, monitor: T)
        ensures
            final(self).monitors@ == old(self).monitors@.push(monitor),
            final(self).workspace == old(self).workspace,
            final(self).hooks == old(self).hooks,
            final(self).repmax == old(self).repmax,
            final(self).max_steps == old(self).max_steps,
    {
        self.monitors.push(monitor);
    }

    /// Unregister the monitor at `index`; with no such index, nothing
    /// changes.
    pub fn remove_monitor(&mut self, index: usize)
        ensures
            index < old(self).monitors@.len() ==> final(self).monitors@ == old(
                self,
            ).monitors@.remove(index as int),
            index >= old(self).monitors@.len() ==> final(self).monitors@ == old(self).monitors@,
            final(self).workspace == old(self).workspace,
            final(self).hooks == old(self).hooks,
            final(self).repmax == old(self).repmax,
            final(self).max_steps == old(self).max_steps,
    {
        if index < self.monitors.len() {
            self.monitors.remove(index);
        }
    }

    /// Register a hook for an external-API identity; hooks are invoked in
    /// registration order, and several hooks may share one identity.
    pub fn add_hook(&mut self, hook: i32)
        ensures
            final(self).hooks@ == old(self).hooks@.push(hook),
            final(self).workspace == old(self).workspace,
            final(self).monitors == old(self).monitors,
            final(self).repmax == old(self).repmax,
            final(self).max_steps == old(self).max_steps,
    {
        self.hooks.push(hook);
    }

    /// Unregister every hook for the given external-API identity.
    pub fn remove_hook(&mut self, hook: i32)
        ensures
            final(self).hooks@ == hooks_without(old(self).hooks@, hook),
            final(self).workspace == old(self).workspace,
            final(self).monitors == old(self).monitors,
            final(self).repmax == old(self).repmax,
            final(self).max_steps == old(self).max_steps,
    {
        let mut kept: Vec<i32> = Vec::new();
        let mut i: usize = 0;
        let ghost orig = self.hooks@;
        while i < self.hooks.len()
            invariant
                0 <= i <= self.hooks@.len(),
                self.hooks@ == orig,
                kept@ == hooks_without(orig.take(i as int), hook),
            decreases self.hooks@.len() - i,
        {
            if self.hooks[i] != hook {
                kept.push(self.hooks[i]);
            }
            proof {
                assert(orig.take(i + 1).drop_last() == orig.take(i as int));
                assert(orig.take(i + 1).last() == orig[i as int]);
            }
            i += 1;
        }
        proof {
            assert(orig.take(orig.len() as int) == orig);
        }
        self.hooks = kept;
    }

    /// Whether the instruction at `op` makes a procedure call.
    pub fn is_call(&self, op: i32) -> (r: bool)
        ensures
            r == is_call_spec(self.workspace, op),
    {
        let branches = self.workspace.get_branches(op);
        let mut i: usize = 0;
        while i < branches.len()
            invariant
                0 <= i <= branches@.len(),
                branches@ == self.workspace.branches_spec(op),
                forall|j: int| 0 <= j < i ==> (#[trigger] branches@[j]).1 & BR_PROC == 0,
            decreases branches@.len() - i,
        {
            if branches[i].1 & BR_PROC != 0 {
                return true;
            }
            i += 1;
        }
        false
    }

    /// Branch-table test over the instruction `op`: true exactly when the
    /// instruction's address is a known location, a cross-reference count
    /// is present, and some branch carries the table flag.
    pub fn is_table(&self, op: &Instruction, xrefs: Option<i32>) -> (r: bool)
        ensures
            r == is_table_spec(self.workspace, op.va, xrefs),
    {
        if !self.workspace.has_location(op.va) {
            return false;
        }
        if xrefs.is_none() {
            return false;
        }
        let branches = self.workspace.get_branches(op.va);
        let mut i: usize = 0;
        while i < branches.len()
            invariant
                0 <= i <= branches@.len(),
                branches@ == self.workspace.branches_spec(op.va),
                self.workspace.has_location_spec(op.va),
                xrefs is Some,
                forall|j: int| 0 <= j < i ==> (#[trigger] branches@[j]).1 & BR_TABLE == 0,
            decreases branches@.len() - i,
        {
            if branches[i].1 & BR_TABLE != 0 {
                return true;
            }
            i += 1;
        }
        false
    }
    /// Explore all code paths from `va`: pop pending addresses from the
    /// work queue, emulate each at most its allowed number of times, hand
    /// every lifecycle event to the registered monitors and hooks, record
    /// every discovered non-call branch edge and synthesized fall-through
    /// edge, and enqueue unvisited targets — until the queue runs dry
    /// (`Done`), a monitor raises the cancellation signal (`Cancelled`),
    /// or the step ceiling is reached (`StepLimit`). When the run ends
    /// `Done`, every address reachable from `va` was emulated at least
    /// once if it decodes, and reported as an anomaly if it does not; no
    /// address is ever emulated more often than its allowed bound.
    pub fn run(&self, va: i32) -> (r: RunResult)
        requires
            self.workspace.wf(),
            self.repmax >= 1,
        ensures
            forall|a: i32|
                occurrences(r.visited@, a) <= allowed_visits(self.workspace, a, self.repmax),
            forall|a: i32|
                occurrences(r.visited@, a) >= 1 ==> reaches(self.workspace, va, a)
                    && self.workspace.decode_spec(a) is Some,
            forall|i: int|
                0 <= i < r.anomalies@.len() ==> reaches(self.workspace, va, #[trigger] r.anomalies@[i])
                    && self.workspace.decode_spec(r.anomalies@[i]) is None,
            forall|i: int| 0 <= i < r.edges@.len() ==> edge_wf(self.workspace, #[trigger] r.edges@[i]),
            forall|i: int|
                0 <= i < r.edges@.len() ==> occurrences(r.visited@, (#[trigger] r.edges@[i]).0)
                    >= 1,
            forall|a: i32|
                occurrences(r.visited@, a) >= 1 ==> edges_complete_for(self.workspace, a, r.edges@),
            r.edges@ == trace_edges(self.workspace, r.visited@),
            r.visited@.len() <= self.max_steps,
            r.reason == RunReason::StepLimit ==> r.visited@.len() == self.max_steps,
            self.monitors@.len() == 0 ==> r.reason != RunReason::Cancelled,
            r.reason == RunReason::Done ==> forall|a: i32|
                reaches(self.workspace, va, a) && self.workspace.decode_spec(a) is Some
                    ==> occurrences(r.visited@, a) >= 1,
            r.reason == RunReason::Done ==> forall|a: i32|
                reaches(self.workspace, va, a) && self.workspace.decode_spec(a) is None
                    ==> r.anomalies@.contains(a),
    {
        let ghost gws = self.workspace;
        let mut queue: Vec<i32> = Vec::new();
        queue.push(va);
        let mut counts: Vec<(i32, u32)> = Vec::new();
        let mut visited: Vec<i32> = Vec::new();
        let mut edges: Vec<(i32, i32, i32)> = Vec::new();
        let mut anomalies: Vec<i32> = Vec::new();
        let mut steps: u32 = 0;
        let mut cancelled: bool = false;
        proof {
            assert(reaches_in(gws, va, va, 0));
            assert(reaches(gws, va, va));
            assert(queue@[0] == va);
            assert forall|a: i32| count_of(counts@, a) == 0 by {
                lemma_count_absent(counts@, a);
            }
        }
        while queue.len() > 0 && !cancelled && steps < self.max_steps
            invariant
                gws == self.workspace,
                gws.wf(),
                self.repmax >= 1,
                counts_wf(counts@),
                steps <= self.max_steps,
                visited@.len() <= steps,
                !cancelled ==> visited@.len() == steps,
                edges@ == trace_edges(gws, visited@),
                forall|a: i32| count_of(counts@, a) <= allowed_visits(gws, a, self.repmax),
                forall|a: i32| count_of(counts@, a) >= 1 ==> reaches(gws, va, a),
                forall|j: int| 0 <= j < queue@.len() ==> reaches(gws, va, #[trigger] queue@[j]),
                !cancelled ==> count_of(counts@, va) >= 1 || queue@.contains(va),
                !cancelled ==> forall|a: i32, b: i32|
                    count_of(counts@, a) >= 1 && #[trigger] successor_set(gws, a).contains(b)
                        ==> count_of(counts@, b) >= 1 || queue@.contains(b),
                forall|a: i32|
                    gws.decode_spec(a) is Some ==> occurrences(visited@, a) == count_of(counts@, a),
                forall|a: i32| gws.decode_spec(a) is None ==> occurrences(visited@, a) == 0,
                forall|a: i32|
                    count_of(counts@, a) >= 1 && gws.decode_spec(a) is None ==> anomalies@.contains(
                        a,
                    ),
                forall|i: int|
                    0 <= i < anomalies@.len() ==> reaches(gws, va, #[trigger] anomalies@[i])
                        && gws.decode_spec(anomalies@[i]) is None,
                forall|i: int| 0 <= i < edges@.len() ==> edge_wf(gws, #[trigger] edges@[i]),
                forall|i: int|
                    0 <= i < edges@.len() ==> count_of(counts@, (#[trigger] edges@[i]).0) >= 1,
                forall|a: i32|
                    count_of(counts@, a) >= 1 && gws.decode_spec(a) is Some ==> edges_complete_for(
                        gws,
                        a,
                        edges@,
                    ),
                cancelled ==> self.monitors@.len() > 0,
            decreases self.max_steps - steps, queue@.len(),
        {
            let ghost pre_queue = queue@;
            let cur = queue.pop().unwrap();
            proof {
                assert(pre_queue[pre_queue.len() - 1] == cur);
                assert(reaches(gws, va, cur));
                assert forall|b: i32| pre_queue.contains(b) implies queue@.contains(b) || b
                    == cur by {
                    let j = choose|j: int| 0 <= j < pre_queue.len() && pre_queue[j] == b;
                    if j < pre_queue.len() - 1 {
                        assert(queue@[j] == b);
                    }
                }
            }
            let cnt = get_count(&counts, cur);
            let decoded = self.workspace.decode_at(cur);
            match decoded {
                None => {
                    if cnt == 0 {
                        let ghost pre_counts = counts@;
                        bump_count(&mut counts, cur);
                        let ghost pre_anoms = anomalies@;
                        anomalies.push(cur);
                        proof {
                            assert(anomalies@[anomalies@.len() - 1] == cur);
                            assert forall|b: i32| pre_anoms.contains(b) implies anomalies@.contains(
                                b,
                            ) by {
                                let j = choose|j: int| 0 <= j < pre_anoms.len() && pre_anoms[j] == b;
                                assert(anomalies@[j] == b);
                            }
                            assert forall|a: i32|
                                count_of(counts@, a) >= 1 && gws.decode_spec(a) is None
                                    implies anomalies@.contains(a) by {
                                if a == cur {
                                    assert(anomalies@.contains(cur));
                                } else {
                                    assert(count_of(counts@, a) == count_of(pre_counts, a));
                                    assert(pre_anoms.contains(a));
                                }
                            }
                        }
                        let mut mi: usize = 0;
                        while mi < self.monitors.len()
                            invariant
                                0 <= mi <= self.monitors@.len(),
                            decreases self.monitors@.len() - mi,
                        {
                            let m = &self.monitors[mi];
                            m.anomaly(cur);
                            mi += 1;
                        }
                        proof {
                            assert(successor_set(gws, cur) =~= Set::<i32>::empty());
                            assert(count_of(counts@, cur) == 1);
                            assert forall|a: i32|
                                a != cur && count_of(counts@, a) >= 1 && gws.decode_spec(
                                    a,
                                ) is Some implies edges_complete_for(gws, a, edges@) by {
                                assert(count_of(counts@, a) == count_of(pre_counts, a));
                            }
                            assert forall|i: int|
                                0 <= i < edges@.len() implies count_of(
                                counts@,
                                (#[trigger] edges@[i]).0,
                            ) >= 1 by {
                                if edges@[i].0 != cur {
                                    assert(count_of(counts@, edges@[i].0) == count_of(
                                        pre_counts,
                                        edges@[i].0,
                                    ));
                                }
                            }
                        }
                    }
                },
                Some(inst) => {
                    proof {
                        assert(gws.decode_spec(cur) == Some(inst));
                        assert(inst.va == cur);
                    }
                    let allowed = if inst.rep_prefix {
                        self.repmax
                    } else {
                        1
                    };
                    proof {
                        assert(allowed == allowed_visits(gws, cur, self.repmax));
                    }
                    if cnt < allowed {
                        steps += 1;
                        let mut want_cancel: bool = false;
                        let mut mi: usize = 0;
                        while mi < self.monitors.len()
                            invariant
                                0 <= mi <= self.monitors@.len(),
                                want_cancel ==> self.monitors@.len() > 0,
                            decreases self.monitors@.len() - mi,
                        {
                            let m = &self.monitors[mi];
                            if m.pre_instruction(cur) {
                                want_cancel = true;
                            }
                            mi += 1;
                        }
                        if want_cancel {
                            cancelled = true;
                        } else {
                            let ghost pre_counts = counts@;
                            let ghost pre_anoms = anomalies@;
                            bump_count(&mut counts, cur);
                            proof {
                                assert forall|a: i32|
                                    count_of(counts@, a) >= 1 && gws.decode_spec(a) is None
                                        implies anomalies@.contains(a) by {
                                    if a != cur {
                                        assert(count_of(counts@, a) == count_of(pre_counts, a));
                                        assert(pre_anoms.contains(a));
                                    }
                                }
                            }
                            let ghost pre_visited = visited@;
                            let ghost e_start = edges@;
                            proof {
                                assert(e_start == trace_edges(gws, pre_visited));
                            }
                            visited.push(cur);
                            proof {
                                assert(visited@.drop_last() == pre_visited);
                                assert(visited@.last() == cur);
                                assert forall|a: i32|
                                    occurrences(visited@, a) == occurrences(pre_visited, a) + (
                                if a == cur {
                                    1int
                                } else {
                                    0int
                                }) by {}
                            }
                            let branches = self.workspace.get_branches(cur);
                            let mut bi: usize = 0;
                            while bi < branches.len()
                                invariant
                                    0 <= bi <= branches@.len(),
                                decreases branches@.len() - bi,
                            {
                                let (to, fl) = branches[bi];
                                if fl & BR_PROC != 0 {
                                    if !contains_address(&self.hooks, to) {
                                        let mut mj: usize = 0;
                                        while mj < self.monitors.len()
                                            invariant
                                                0 <= mj <= self.monitors@.len(),
                                            decreases self.monitors@.len() - mj,
                                        {
                                            let m = &self.monitors[mj];
                                            m.api_call(to);
                                            mj += 1;
                                        }
                                    }
                                }
                                bi += 1;
                            }
                            let mut mk: usize = 0;
                            while mk < self.monitors.len()
                                invariant
                                    0 <= mk <= self.monitors@.len(),
                                decreases self.monitors@.len() - mk,
                            {
                                let m = &self.monitors[mk];
                                m.post_instruction(cur);
                                mk += 1;
                            }
                            proof {
                                assert forall|a: i32|
                                    a != cur && count_of(counts@, a) >= 1 && gws.decode_spec(
                                        a,
                                    ) is Some implies edges_complete_for(gws, a, edges@) by {
                                    assert(count_of(counts@, a) == count_of(pre_counts, a));
                                }
                                assert forall|i: int|
                                    0 <= i < edges@.len() implies count_of(
                                    counts@,
                                    (#[trigger] edges@[i]).0,
                                ) >= 1 by {
                                    if edges@[i].0 != cur {
                                        assert(count_of(counts@, edges@[i].0) == count_of(
                                            pre_counts,
                                            edges@[i].0,
                                        ));
                                    }
                                }
                            }
                            let ghost q0 = queue@;
                            proof {
                                assert(branch_records(branches@.take(0), cur) =~= Seq::<
                                    (i32, i32, i32),
                                >::empty());
                                assert(edges@ =~= e_start + branch_records(
                                    branches@.take(0),
                                    cur,
                                ));
                            }
                            let mut bj: usize = 0;
                            while bj < branches.len()
                                invariant
                                    0 <= bj <= branches@.len(),
                                    gws == self.workspace,
                                    gws.wf(),
                                    branches@ == gws.branches_spec(cur),
                                    gws.decode_spec(cur) == Some(inst),
                                    reaches(gws, va, cur),
                                    count_of(counts@, cur) >= 1,
                                    counts_wf(counts@),
                                    edges@ == e_start + branch_records(
                                        branches@.take(bj as int),
                                        cur,
                                    ),
                                    forall|b: i32| q0.contains(b) ==> queue@.contains(b),
                                    forall|j: int|
                                        0 <= j < queue@.len() ==> reaches(
                                            gws,
                                            va,
                                            #[trigger] queue@[j],
                                        ),
                                    forall|i: int|
                                        0 <= i < edges@.len() ==> edge_wf(
                                            gws,
                                            #[trigger] edges@[i],
                                        ),
                                    forall|t: int|
                                        0 <= t < bj && (#[trigger] branches@[t]).1 & BR_PROC == 0
                                            ==> count_of(counts@, branches@[t].0) >= 1
                                            || queue@.contains(branches@[t].0),
                                    forall|t: int|
                                        0 <= t < bj && (#[trigger] branches@[t]).1 & BR_PROC == 0
                                            ==> edges@.contains(
                                            (cur, branches@[t].0, branches@[t].1),
                                        ),
                                    forall|i: int|
                                        0 <= i < edges@.len() ==> count_of(
                                            counts@,
                                            (#[trigger] edges@[i]).0,
                                        ) >= 1,
                                    forall|a: i32|
                                        a != cur && count_of(counts@, a) >= 1 && gws.decode_spec(
                                            a,
                                        ) is Some ==> edges_complete_for(gws, a, edges@),
                                decreases branches@.len() - bj,
                            {
                                let (to, fl) = branches[bj];
                                if fl & BR_PROC == 0 {
                                    let ghost q1 = queue@;
                                    let ghost e1 = edges@;
                                    edges.push((cur, to, fl));
                                    proof {
                                        assert(branches@[bj as int] == (to, fl));
                                        assert(edge_wf(gws, (cur, to, fl)));
                                        assert forall|i: int|
                                            0 <= i < edges@.len() implies edge_wf(
                                            gws,
                                            #[trigger] edges@[i],
                                        ) && count_of(counts@, edges@[i].0) >= 1 by {
                                            if i < e1.len() {
                                                assert(edges@[i] == e1[i]);
                                            }
                                        }
                                        assert(edges@[edges@.len() - 1] == (cur, to, fl));
                                        assert forall|t: int|
                                            0 <= t <= bj && (#[trigger] branches@[t]).1 & BR_PROC
                                                == 0 implies edges@.contains(
                                            (cur, branches@[t].0, branches@[t].1),
                                        ) by {
                                            if t < bj {
                                                let j = choose|j: int|
                                                    0 <= j < e1.len() && e1[j] == (
                                                    cur,
                                                    branches@[t].0,
                                                    branches@[t].1,
                                                    );
                                                assert(edges@[j] == e1[j]);
                                            } else {
                                                assert(edges@[edges@.len() - 1] == (
                                                cur,
                                                branches@[t].0,
                                                branches@[t].1,
                                                ));
                                            }
                                        }
                                        assert forall|a: i32|
                                            a != cur && count_of(counts@, a) >= 1 && gws.decode_spec(
                                                a,
                                            ) is Some implies edges_complete_for(
                                            gws,
                                            a,
                                            edges@,
                                        ) by {
                                            lemma_complete_push(gws, a, e1, (cur, to, fl));
                                        }
                                    }
                                    if get_count(&counts, to) == 0 {
                                        proof {
                                            assert(successor_set(gws, cur).contains(to));
                                            lemma_reaches_step(gws, va, cur, to);
                                        }
                                        queue.push(to);
                                        proof {
                                            assert forall|b: i32| q1.contains(b) implies queue@.contains(
                                                b,
                                            ) by {
                                                let j = choose|j: int|
                                                    0 <= j < q1.len() && q1[j] == b;
                                                assert(queue@[j] == b);
                                            }
                                            assert(queue@[queue@.len() - 1] == to);
                                        }
                                    }
                                }
                                proof {
                                    assert(branches@.take(bj + 1).drop_last() == branches@.take(
                                        bj as int,
                                    ));
                                    assert(branches@.take(bj + 1).last() == branches@[bj as int]);
                                    if branches@[bj as int].1 & BR_PROC == 0 {
                                        let cur_edge = (
                                            cur,
                                            branches@[bj as int].0,
                                            branches@[bj as int].1,
                                        );
                                        assert(edges@ =~= e_start + branch_records(
                                            branches@.take(bj as int),
                                            cur,
                                        ).push(cur_edge));
                                        assert(branch_records(branches@.take(bj + 1), cur)
                                            == branch_records(branches@.take(bj as int), cur).push(
                                            cur_edge,
                                        ));
                                    }
                                }
                                bj += 1;
                            }
                            proof {
                                assert(branches@.take(branches@.len() as int) == branches@);
                                assert(edges@ == e_start + branch_records(branches@, cur));
                            }
                            if !inst.no_fallthrough {
                                proof {
                                    let i = choose|i: int|
                                        0 <= i < gws.instructions@.len()
                                            && #[trigger] gws.instructions@[i].va == cur;
                                    assert(gws.instructions@[i] == inst);
                                    assert(inst.va + inst.size <= i32::MAX);
                                }
                                let ft = cur + inst.size;
                                let ghost e2 = edges@;
                                let ghost q2 = queue@;
                                edges.push((cur, ft, BR_FALL));
                                proof {
                                    assert(edge_wf(gws, (cur, ft, BR_FALL)));
                                    assert forall|i: int|
                                        0 <= i < edges@.len() implies edge_wf(
                                        gws,
                                        #[trigger] edges@[i],
                                    ) && count_of(counts@, edges@[i].0) >= 1 by {
                                        if i < e2.len() {
                                            assert(edges@[i] == e2[i]);
                                        }
                                    }
                                    assert(edges@[edges@.len() - 1] == (cur, ft, BR_FALL));
                                    assert forall|t: int|
                                        0 <= t < branches@.len() && (#[trigger] branches@[t]).1
                                            & BR_PROC == 0 implies edges@.contains(
                                        (cur, branches@[t].0, branches@[t].1),
                                    ) by {
                                        let j = choose|j: int|
                                            0 <= j < e2.len() && e2[j] == (
                                            cur,
                                            branches@[t].0,
                                            branches@[t].1,
                                            );
                                        assert(edges@[j] == e2[j]);
                                    }
                                    assert forall|a: i32|
                                        a != cur && count_of(counts@, a) >= 1 && gws.decode_spec(
                                            a,
                                        ) is Some implies edges_complete_for(gws, a, edges@) by {
                                        lemma_complete_push(gws, a, e2, (cur, ft, BR_FALL));
                                    }
                                    assert(edges@ =~= e_start + (branch_records(branches@, cur)
                                        + seq![(cur, ft, BR_FALL)]));
                                }
                                if get_count(&counts, ft) == 0 {
                                    proof {
                                        assert(successor_set(gws, cur).contains(ft));
                                        lemma_reaches_step(gws, va, cur, ft);
                                    }
                                    queue.push(ft);
                                    proof {
                                        assert forall|b: i32| q2.contains(b) implies queue@.contains(
                                            b,
                                        ) by {
                                            let j = choose|j: int| 0 <= j < q2.len() && q2[j] == b;
                                            assert(queue@[j] == b);
                                        }
                                        assert(queue@[queue@.len() - 1] == ft);
                                    }
                                }
                            }
                            proof {
                                assert forall|b: i32|
                                    #[trigger] successor_set(gws, cur).contains(b) implies count_of(
                                    counts@,
                                    b,
                                ) >= 1 || queue@.contains(b) by {
                                    let bs = gws.branches_spec(cur);
                                    if !inst.no_fallthrough && b == (inst.va + inst.size) as i32 {
                                    } else {
                                        let t = choose|t: int|
                                            0 <= t < bs.len() && (#[trigger] bs[t]).0 == b && bs[t].1
                                                & BR_PROC == 0;
                                    }
                                }
                                assert(edges_complete_for(gws, cur, edges@));
                                assert forall|a: i32|
                                    count_of(counts@, a) >= 1 && gws.decode_spec(a) is Some
                                        implies edges_complete_for(gws, a, edges@) by {
                                    if a == cur {
                                        assert(edges_complete_for(gws, cur, edges@));
                                    }
                                }
                                if inst.no_fallthrough {
                                    assert(visit_edges(gws, cur) =~= branch_records(
                                        gws.branches_spec(cur),
                                        cur,
                                    ));
                                } else {
                                    assert(visit_edges(gws, cur) =~= branch_records(
                                        gws.branches_spec(cur),
                                        cur,
                                    ) + seq![(cur, (cur + inst.size) as i32, BR_FALL)]);
                                }
                                assert(edges@ =~= e_start + visit_edges(gws, cur));
                                assert(visited@.drop_last() == pre_visited);
                                assert(visited@.last() == cur);
                                assert(trace_edges(gws, visited@) == trace_edges(gws, pre_visited)
                                    + visit_edges(gws, cur));
                                assert(edges@ == trace_edges(gws, visited@));
                            }
                        }
                    }
                },
            }
        }
        let reason = if cancelled {
            RunReason::Cancelled
        } else if queue.len() == 0 {
            RunReason::Done
        } else {
            RunReason::StepLimit
        };
        proof {
            if !cancelled && queue@.len() == 0 {
                assert forall|a: i32| reaches(gws, va, a) implies count_of(counts@, a) >= 1 by {
                    let k = choose|k: nat| reaches_in(gws, va, a, k);
                    lemma_closure_covers(gws, va, counts@, k, a);
                }
            }
        }
        RunResult { visited, edges, anomalies, reason }
    }
}

/// Whether `x` occurs in `hooks`.
fn contains_address(hooks: &Vec<i32>, x: i32) -> (r: bool)
    ensures
        r == hooks@.contains(x),
{
    let mut i: usize = 0;
    while i < hooks.len()
        invariant
            0 <= i <= hooks@.len(),
            forall|j: int| 0 <= j < i ==> hooks@[j] != x,
        decreases hooks@.len() - i,
    {
        if hooks[i] == x {
            return true;
        }
        i += 1;
    }
    false
}

} // verus!
