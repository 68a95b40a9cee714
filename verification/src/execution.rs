//! The executor's run of one unit: admission, the walk of the sealed cell graph
//! against a protected oracle, and the verdict that the cells reduce to.
use vstd::prelude::*;

use crate::decider::{one, outcome};
use crate::interface::{Cell, CellResult, CellVerdict, Consequence, Verdict};
use crate::json::Json;
use crate::sorted::StrMap;
use crate::switch::Mode;

verus! {

// ------------------------------------------------------------------- the run

#[derive(Clone, Copy, Debug, PartialEq, Eq, Structural)]
pub enum Phase {
    New,
    Admitted,
    VerdictReached,
    Emitted,
}

#[derive(Clone, Debug, PartialEq, Eq, Structural)]
pub enum RunEvent {
    UnitAdmitted,
    UnitVerdictComputed,
    VerdictEmitted,
}

#[derive(Clone, Debug, PartialEq, Eq, Structural)]
pub enum RunCommand {
    Admit { box_mode: Mode },
    ComputeVerdict,
    Emit,
}

#[derive(Clone, Debug, PartialEq, Eq, Structural)]
pub struct RunState {
    pub phase: Phase,
}

impl Default for RunState {
    fn default() -> (r: Self)
        ensures
            r.phase == Phase::New,
    {
        RunState { phase: Phase::New }
    }
}

impl RunState {
    pub open spec fn evolved(self, event: RunEvent) -> RunState {
        match event {
            RunEvent::UnitAdmitted => RunState { phase: Phase::Admitted },
            RunEvent::UnitVerdictComputed => RunState { phase: Phase::VerdictReached },
            RunEvent::VerdictEmitted => RunState { phase: Phase::Emitted },
        }
    }

    pub open spec fn decided(self, command: RunCommand) -> Result<Seq<RunEvent>, Seq<char>> {
        match command {
            RunCommand::Admit { box_mode } => if box_mode == Mode::Queue {
                Ok(seq![RunEvent::UnitAdmitted])
            } else {
                Err("inv-box-must-be-queue"@)
            },
            RunCommand::ComputeVerdict => if self.phase == Phase::Admitted {
                Ok(seq![RunEvent::UnitVerdictComputed])
            } else {
                Err("inv-run-not-admitted"@)
            },
            RunCommand::Emit => if self.phase == Phase::VerdictReached {
                Ok(seq![RunEvent::VerdictEmitted])
            } else {
                Err("inv-no-verdict-yet"@)
            },
        }
    }

    pub fn evolve(&mut self, event: &RunEvent)
        ensures
            *final(self) == old(self).evolved(*event),
    {
        match event {
            RunEvent::UnitAdmitted => {
                self.phase = Phase::Admitted;
            },
            RunEvent::UnitVerdictComputed => {
                self.phase = Phase::VerdictReached;
            },
            RunEvent::VerdictEmitted => {
                self.phase = Phase::Emitted;
            },
        }
    }

    /// A unit is admitted only in queue mode, gets its verdict only after
    /// admission, and is emitted only with a verdict.
    pub fn decide(&self, command: &RunCommand) -> (r: Result<Vec<RunEvent>, &'static str>)
        ensures
            outcome(r) == self.decided(*command),
    {
        match command {
            RunCommand::Admit { box_mode } => {
                if *box_mode == Mode::Queue {
                    Ok(one(RunEvent::UnitAdmitted))
                } else {
                    Err("inv-box-must-be-queue")
                }
            },
            RunCommand::ComputeVerdict => {
                if self.phase == Phase::Admitted {
                    Ok(one(RunEvent::UnitVerdictComputed))
                } else {
                    Err("inv-run-not-admitted")
                }
            },
            RunCommand::Emit => {
                if self.phase == Phase::VerdictReached {
                    Ok(one(RunEvent::VerdictEmitted))
                } else {
                    Err("inv-no-verdict-yet")
                }
            },
        }
    }
}

/// A verdict is emitted once, and only for a unit that was admitted: from a new
/// run the three commands succeed in their order and in no other.
pub proof fn law_a_run_admits_then_decides_then_emits(s: RunState)
    requires
        s.phase == Phase::New,
    ensures
        s.decided(RunCommand::ComputeVerdict) is Err,
        s.decided(RunCommand::Emit) is Err,
        s.evolved(RunEvent::UnitAdmitted).decided(RunCommand::ComputeVerdict) is Ok,
        s.evolved(RunEvent::UnitAdmitted).decided(RunCommand::Emit) is Err,
        s.evolved(RunEvent::UnitVerdictComputed).decided(RunCommand::Emit) is Ok,
        s.evolved(RunEvent::VerdictEmitted).decided(RunCommand::Emit) is Err,
        s.evolved(RunEvent::VerdictEmitted).decided(RunCommand::ComputeVerdict) is Err,
{
}

/// Every command of a run is either refused under the rule that guards it, or
/// answered with the one event that leads into the next phase.
pub proof fn law_a_run_moves_on_only_by_its_rules(s: RunState, mode: Mode)
    ensures
        match s.decided(RunCommand::Admit { box_mode: mode }) {
            Ok(events) => mode == Mode::Queue && events.len() == 1 && s.evolved(events[0]).phase
                == Phase::Admitted,
            Err(rule) => mode != Mode::Queue && rule == "inv-box-must-be-queue"@,
        },
        match s.decided(RunCommand::ComputeVerdict) {
            Ok(events) => s.phase == Phase::Admitted && events.len() == 1 && s.evolved(
                events[0],
            ).phase == Phase::VerdictReached,
            Err(rule) => s.phase != Phase::Admitted && rule == "inv-run-not-admitted"@,
        },
        match s.decided(RunCommand::Emit) {
            Ok(events) => s.phase == Phase::VerdictReached && events.len() == 1 && s.evolved(
                events[0],
            ).phase == Phase::Emitted,
            Err(rule) => s.phase != Phase::VerdictReached && rule == "inv-no-verdict-yet"@,
        },
{
}

// --------------------------------------------------------------- the oracle

/// What a check of a workspace found, with the record that rides on the verdict.
#[derive(Clone, Debug, PartialEq)]
pub struct GateReport {
    pub passed: bool,
    pub evidence: Option<Json>,
}

impl Default for GateReport {
    fn default() -> (r: Self)
        ensures
            r == (GateReport { passed: false, evidence: None }),
    {
        GateReport { passed: false, evidence: None }
    }
}

/// A protected oracle that the worker of a cell cannot write. `gate` judges one
/// cell; `verify` judges what a unit wrote into its workspace.
pub trait Oracle {
    fn gate(&self, cell: &Cell) -> bool;

    /// Passes everything, unless the oracle has a check to run.
    fn verify(&self, workspace: &str) -> (r: GateReport)
        default_ensures
            r == (GateReport { passed: true, evidence: None }),
    {
        GateReport { passed: true, evidence: None }
    }
}

// ------------------------------------------------------------------ the walk

/// A cell is ready once each of its dependencies has been walked.
pub open spec fn ready(c: Cell, passed: Map<Seq<char>, bool>) -> bool {
    forall|j: int|
        0 <= j < c.depends_on@.len() ==> passed.contains_key((#[trigger] c.depends_on@[j])@)
}

/// A cell is unblocked if each of its dependencies was accepted.
pub open spec fn unblocked(c: Cell, passed: Map<Seq<char>, bool>) -> bool {
    forall|j: int|
        0 <= j < c.depends_on@.len() ==> passed.contains_key((#[trigger] c.depends_on@[j])@)
            && passed[c.depends_on@[j]@]
}

/// The position of the first ready cell at or after `from`; past the end if none is.
pub open spec fn first_ready(
    cells: Seq<Cell>,
    remaining: Seq<int>,
    passed: Map<Seq<char>, bool>,
    from: int,
) -> int
    decreases remaining.len() - from,
{
    if from < 0 || from >= remaining.len() {
        remaining.len() as int
    } else if ready(cells[remaining[from]], passed) {
        from
    } else {
        first_ready(cells, remaining, passed, from + 1)
    }
}

/// The verdict on a ready cell: what its gate says, unless a predecessor failed.
pub open spec fn verdict_on(c: Cell, passed: Map<Seq<char>, bool>, gate: bool) -> CellVerdict {
    if !unblocked(c, passed) {
        CellVerdict::Skipped
    } else if gate {
        CellVerdict::Accepted
    } else {
        CellVerdict::Rejected
    }
}

/// The rest of a walk: the first ready cell is judged, then the others; once no
/// cell is ready, those that remain are skipped. `gates` holds, for each cell,
/// what its gate says if it is asked.
pub open spec fn walk_rest(
    cells: Seq<Cell>,
    gates: Seq<bool>,
    remaining: Seq<int>,
    passed: Map<Seq<char>, bool>,
) -> Seq<(int, CellVerdict)>
    decreases remaining.len(),
{
    let k = first_ready(cells, remaining, passed, 0);
    if 0 <= k < remaining.len() {
        let i = remaining[k];
        let v = verdict_on(cells[i], passed, gates[i]);
        seq![(i, v)] + walk_rest(
            cells,
            gates,
            remaining.remove(k),
            passed.insert(cells[i].cell_id@, v == CellVerdict::Accepted),
        )
    } else {
        remaining.map_values(|i: int| (i, CellVerdict::Skipped))
    }
}

/// The walk of a cell graph: the cells in the order in which they were settled,
/// each with its verdict.
pub open spec fn walk(cells: Seq<Cell>, gates: Seq<bool>) -> Seq<(int, CellVerdict)> {
    walk_rest(cells, gates, Seq::new(cells.len(), |i: int| i), Map::empty())
}

/// The results say what the walk says.
pub open spec fn reports(
    results: Seq<CellResult>,
    cells: Seq<Cell>,
    w: Seq<(int, CellVerdict)>,
) -> bool {
    &&& results.len() == w.len()
    &&& forall|p: int|
        0 <= p < results.len() ==> (#[trigger] results[p]).bare(cells[w[p].0].cell_id@, w[p].1)
}

fn is_ready(c: &Cell, passed: &StrMap<bool>) -> (r: bool)
    ensures
        r == ready(*c, passed@),
{
    let mut j: usize = 0;
    while j < c.depends_on.len()
        invariant
            j <= c.depends_on@.len(),
            forall|k: int|
                0 <= k < j ==> passed@.contains_key((#[trigger] c.depends_on@[k])@),
        decreases c.depends_on@.len() - j,
    {
        if !passed.contains_key(c.depends_on[j].as_str()) {
            return false;
        }
        j += 1;
    }
    true
}

fn is_unblocked(c: &Cell, passed: &StrMap<bool>) -> (r: bool)
    ensures
        r == unblocked(*c, passed@),
{
    let mut j: usize = 0;
    while j < c.depends_on.len()
        invariant
            j <= c.depends_on@.len(),
            forall|k: int|
                0 <= k < j ==> passed@.contains_key((#[trigger] c.depends_on@[k])@)
                    && passed@[c.depends_on@[k]@],
        decreases c.depends_on@.len() - j,
    {
        match passed.get(c.depends_on[j].as_str()) {
            Some(ok) => {
                if !*ok {
                    return false;
                }
            },
            None => {
                return false;
            },
        }
        j += 1;
    }
    true
}

/// The indices as mathematical integers.
pub open spec fn indices(v: Seq<usize>) -> Seq<int> {
    v.map_values(|i: usize| i as int)
}

fn ready_position(cells: &[Cell], remaining: &Vec<usize>, passed: &StrMap<bool>) -> (r: Option<
    usize,
>)
    requires
        forall|k: int| 0 <= k < remaining@.len() ==> (#[trigger] remaining@[k]) < cells@.len(),
    ensures
        match r {
            Some(k) => k < remaining@.len() && first_ready(
                cells@,
                indices(remaining@),
                passed@,
                0,
            ) == k,
            None => first_ready(cells@, indices(remaining@), passed@, 0) == remaining@.len(),
        },
{
    let mut k: usize = 0;
    while k < remaining.len()
        invariant
            k <= remaining@.len(),
            forall|i: int|
                0 <= i < remaining@.len() ==> (#[trigger] remaining@[i]) < cells@.len(),
            first_ready(cells@, indices(remaining@), passed@, 0) == first_ready(
                cells@,
                indices(remaining@),
                passed@,
                k as int,
            ),
        decreases remaining@.len() - k,
    {
        let i: usize = remaining[k];
        assert(indices(remaining@)[k as int] == i);
        if is_ready(&cells[i], passed) {
            return Some(k);
        }
        k += 1;
    }
    None
}

/// All indices below `n`, in order.
fn all_indices(n: usize) -> (r: Vec<usize>)
    ensures
        indices(r@) == Seq::new(n as nat, |i: int| i),
        r@.len() == n,
        forall|k: int| 0 <= k < n ==> (#[trigger] r@[k]) == k,
{
    let mut r: Vec<usize> = Vec::new();
    let mut i: usize = 0;
    while i < n
        invariant
            i <= n,
            r@.len() == i,
            forall|k: int| 0 <= k < i ==> (#[trigger] r@[k]) == k,
        decreases n - i,
    {
        r.push(i);
        i += 1;
    }
    assert(indices(r@) =~= Seq::new(n as nat, |i: int| i));
    r
}

fn skip_remaining(cells: &[Cell], remaining: &Vec<usize>, results: &mut Vec<CellResult>)
    requires
        forall|k: int| 0 <= k < remaining@.len() ==> (#[trigger] remaining@[k]) < cells@.len(),
    ensures
        final(results)@.len() == old(results)@.len() + remaining@.len(),
        final(results)@.take(old(results)@.len() as int) == old(results)@,
        forall|k: int|
            0 <= k < remaining@.len() ==> (#[trigger] final(results)@[old(results)@.len()
                + k]).bare(cells@[remaining@[k] as int].cell_id@, CellVerdict::Skipped),
{
    let ghost before = results@;
    let mut k: usize = 0;
    while k < remaining.len()
        invariant
            k <= remaining@.len(),
            forall|i: int|
                0 <= i < remaining@.len() ==> (#[trigger] remaining@[i]) < cells@.len(),
            results@.len() == before.len() + k,
            results@.take(before.len() as int) == before,
            forall|i: int|
                0 <= i < k ==> (#[trigger] results@[before.len() + i]).bare(
                    cells@[remaining@[i] as int].cell_id@,
                    CellVerdict::Skipped,
                ),
        decreases remaining@.len() - k,
    {
        let ghost last = results@;
        results.push(CellResult::skipped(cells[remaining[k]].cell_id.as_str()));
        assert(results@.take(before.len() as int) =~= last.take(before.len() as int));
        k += 1;
    }
}

/// Walks the cell graph with the gates' answers given: `gates` holds, for each
/// cell, what its gate says if it is asked.
pub fn walk_gated(cells: &[Cell], gates: &[bool]) -> (r: Vec<CellResult>)
    requires
        gates@.len() == cells@.len(),
    ensures
        reports(r@, cells@, walk(cells@, gates@)),
{
    let mut passed: StrMap<bool> = StrMap::new();
    let mut results: Vec<CellResult> = Vec::new();
    let mut remaining: Vec<usize> = all_indices(cells.len());
    let ghost mut done: Seq<(int, CellVerdict)> = Seq::empty();
    assert(walk(cells@, gates@) =~= done + walk_rest(
        cells@,
        gates@,
        indices(remaining@),
        passed@,
    ));
    while remaining.len() > 0
        invariant
            gates@.len() == cells@.len(),
            forall|k: int|
                0 <= k < remaining@.len() ==> (#[trigger] remaining@[k]) < cells@.len(),
            walk(cells@, gates@) == done + walk_rest(
                cells@,
                gates@,
                indices(remaining@),
                passed@,
            ),
            reports(results@, cells@, done),
        decreases remaining@.len(),
    {
        let ghost rem = indices(remaining@);
        let ghost seen = passed@;
        match ready_position(cells, &remaining, &passed) {
            Some(k) => {
                let i: usize = remaining.remove(k);
                let ok: bool = is_unblocked(&cells[i], &passed);
                if ok {
                    results.push(CellResult::gated(cells[i].cell_id.as_str(), gates[i]));
                } else {
                    results.push(CellResult::skipped(cells[i].cell_id.as_str()));
                }
                passed.insert(cells[i].cell_id.clone(), ok && gates[i]);
                proof {
                    let v = verdict_on(cells@[i as int], seen, gates@[i as int]);
                    assert(rem[k as int] == i);
                    assert(indices(remaining@) =~= rem.remove(k as int));
                    let rest = walk_rest(cells@, gates@, indices(remaining@), passed@);
                    assert(walk_rest(cells@, gates@, rem, seen) == seq![(i as int, v)] + rest);
                    assert(done + (seq![(i as int, v)] + rest) =~= done.push((i as int, v)) + rest);
                    done = done.push((i as int, v));
                }
            },
            None => {
                let ghost before = results@;
                skip_remaining(cells, &remaining, &mut results);
                proof {
                    let rest = walk_rest(cells@, gates@, rem, seen);
                    assert(rest =~= rem.map_values(|i: int| (i, CellVerdict::Skipped)));
                    assert forall|p: int| 0 <= p < results@.len() implies (
                    #[trigger] results@[p]).bare(
                        cells@[(done + rest)[p].0].cell_id@,
                        (done + rest)[p].1,
                    ) by {
                        if p < before.len() {
                            assert(results@[p] == results@.take(before.len() as int)[p]);
                            assert(before[p].bare(cells@[done[p].0].cell_id@, done[p].1));
                        } else {
                            assert(results@[before.len() + (p - before.len())].bare(
                                cells@[remaining@[p - before.len()] as int].cell_id@,
                                CellVerdict::Skipped,
                            ));
                        }
                    }
                }
                return results;
            },
        }
    }
    assert(walk_rest(cells@, gates@, indices(remaining@), passed@) =~= Seq::empty());
    assert(walk(cells@, gates@) =~= done);
    results
}

/// What a run of gates says of the cells that were asked: `g` is an answer that
/// the oracle gave for cell `i`.
pub open spec fn answered<O: Oracle>(oracle: O, c: Cell, g: bool) -> bool {
    call_ensures(O::gate, (&oracle, &c), g)
}

/// The cells that are settled and those that remain are all different.
spec fn apart(done: Seq<(int, CellVerdict)>, rem: Seq<int>) -> bool {
    &&& rem.no_duplicates()
    &&& forall|p: int, k: int|
        0 <= p < done.len() && 0 <= k < rem.len() ==> (#[trigger] done[p]).0 != #[trigger] rem[k]
}

/// Walks the sealed cell graph: a cell is ready once its predecessors have been
/// settled; each ready cell is gated against the oracle. The results come in
/// dependency order. A cell with a failed predecessor, and one that never
/// becomes ready, is recorded as skipped without being gated.
pub fn walk_cells<O: Oracle>(cells: &[Cell], oracle: &O) -> (r: Vec<CellResult>)
    ensures
        exists|gates: Seq<bool>|
            {
                &&& gates.len() == cells@.len()
                &&& reports(r@, cells@, #[trigger] walk(cells@, gates))
                &&& forall|p: int|
                    0 <= p < walk(cells@, gates).len() && walk(cells@, gates)[p].1
                        != CellVerdict::Skipped ==> answered(
                        *oracle,
                        cells@[(#[trigger] walk(cells@, gates)[p]).0],
                        gates[walk(cells@, gates)[p].0],
                    )
            },
{
    let mut passed: StrMap<bool> = StrMap::new();
    let mut results: Vec<CellResult> = Vec::new();
    let mut remaining: Vec<usize> = all_indices(cells.len());
    let ghost mut done: Seq<(int, CellVerdict)> = Seq::empty();
    let ghost mut gates: Seq<bool> = Seq::new(cells@.len(), |i: int| false);
    proof {
        assert forall|g: Seq<bool>| #[trigger] agree(g, gates, done) implies walk(cells@, g) == done
            + walk_rest(cells@, g, indices(remaining@), passed@) by {
            assert(walk(cells@, g) =~= done + walk_rest(
                cells@,
                g,
                indices(remaining@),
                passed@,
            ));
        }
    }
    while remaining.len() > 0
        invariant
            gates.len() == cells@.len(),
            forall|k: int|
                0 <= k < remaining@.len() ==> (#[trigger] remaining@[k]) < cells@.len(),
            forall|p: int| 0 <= p < done.len() ==> 0 <= (#[trigger] done[p]).0 < cells@.len(),
            apart(done, indices(remaining@)),
            forall|g: Seq<bool>| #[trigger]
                agree(g, gates, done) ==> walk(cells@, g) == done + walk_rest(
                    cells@,
                    g,
                    indices(remaining@),
                    passed@,
                ),
            forall|p: int|
                0 <= p < done.len() && done[p].1 != CellVerdict::Skipped ==> answered(
                    *oracle,
                    cells@[(#[trigger] done[p]).0],
                    gates[done[p].0],
                ),
            reports(results@, cells@, done),
        decreases remaining@.len(),
    {
        let ghost rem = indices(remaining@);
        let ghost seen = passed@;
        match ready_position(cells, &remaining, &passed) {
            Some(k) => {
                let i: usize = remaining.remove(k);
                let ghost old_done = done;
                let ghost old_gates = gates;
                let mut ok: bool = is_unblocked(&cells[i], &passed);
                let ghost v: CellVerdict;
                assert(rem[k as int] == i);
                if ok {
                    ok = oracle.gate(&cells[i]);
                    results.push(CellResult::gated(cells[i].cell_id.as_str(), ok));
                    proof {
                        v = if ok {
                            CellVerdict::Accepted
                        } else {
                            CellVerdict::Rejected
                        };
                        gates = gates.update(i as int, ok);
                    }
                } else {
                    results.push(CellResult::skipped(cells[i].cell_id.as_str()));
                    proof {
                        v = CellVerdict::Skipped;
                    }
                }
                passed.insert(cells[i].cell_id.clone(), ok);
                proof {
                    done = done.push((i as int, v));
                    assert(indices(remaining@) =~= rem.remove(k as int));
                    assert forall|p: int|
                        0 <= p < done.len() && done[p].1 != CellVerdict::Skipped implies answered(
                        *oracle,
                        cells@[(#[trigger] done[p]).0],
                        gates[done[p].0],
                    ) by {
                        if p < old_done.len() {
                            assert(done[p] == old_done[p]);
                            assert(old_done[p].0 != rem[k as int]);
                        }
                    }
                    assert forall|g: Seq<bool>| #[trigger] agree(g, gates, done) implies walk(
                        cells@,
                        g,
                    ) == done + walk_rest(cells@, g, indices(remaining@), passed@) by {
                        assert forall|p: int|
                            0 <= p < old_done.len() && old_done[p].1
                                != CellVerdict::Skipped implies g[(#[trigger] old_done[p]).0]
                            == old_gates[old_done[p].0] by {
                            assert(done[p] == old_done[p]);
                            assert(old_done[p].0 != rem[k as int]);
                        }
                        assert(agree(g, old_gates, old_done));
                        assert(done[old_done.len() as int] == (i as int, v));
                        assert(v != CellVerdict::Skipped ==> g[i as int] == gates[i as int]);
                        assert(verdict_on(cells@[i as int], seen, g[i as int]) == v);
                        let rest = walk_rest(cells@, g, indices(remaining@), passed@);
                        assert(walk_rest(cells@, g, rem, seen) == seq![(i as int, v)] + rest);
                        assert(old_done + (seq![(i as int, v)] + rest) =~= done + rest);
                    }
                    assert(apart(done, indices(remaining@))) by {
                        lemma_still_apart(old_done, rem, k as int, v);
                    }
                }
            },
            None => {
                let ghost before = results@;
                skip_remaining(cells, &remaining, &mut results);
                proof {
                    assert(agree(gates, gates, done));
                    let rest = walk_rest(cells@, gates, rem, seen);
                    assert(rest =~= rem.map_values(|i: int| (i, CellVerdict::Skipped)));
                    assert forall|p: int| 0 <= p < results@.len() implies (
                    #[trigger] results@[p]).bare(
                        cells@[(done + rest)[p].0].cell_id@,
                        (done + rest)[p].1,
                    ) by {
                        if p < before.len() {
                            assert(results@[p] == results@.take(before.len() as int)[p]);
                            assert(before[p].bare(cells@[done[p].0].cell_id@, done[p].1));
                        } else {
                            assert(results@[before.len() + (p - before.len())].bare(
                                cells@[remaining@[p - before.len()] as int].cell_id@,
                                CellVerdict::Skipped,
                            ));
                        }
                    }
                    assert(walk(cells@, gates) == done + rest);
                    assert forall|p: int|
                        0 <= p < walk(cells@, gates).len() && walk(cells@, gates)[p].1
                            != CellVerdict::Skipped implies answered(
                        *oracle,
                        cells@[(#[trigger] walk(cells@, gates)[p]).0],
                        gates[walk(cells@, gates)[p].0],
                    ) by {
                        if p < done.len() {
                            assert(walk(cells@, gates)[p] == done[p]);
                        }
                    }
                }
                return results;
            },
        }
    }
    proof {
        assert(agree(gates, gates, done));
        assert(walk_rest(cells@, gates, indices(remaining@), passed@) =~= Seq::empty());
        assert(walk(cells@, gates) =~= done);
    }
    results
}

/// Two lists of answers agree on the cells that were gated.
spec fn agree(a: Seq<bool>, b: Seq<bool>, done: Seq<(int, CellVerdict)>) -> bool {
    forall|p: int|
        0 <= p < done.len() && done[p].1 != CellVerdict::Skipped ==> a[(#[trigger] done[p]).0]
            == b[done[p].0]
}

proof fn lemma_still_apart(done: Seq<(int, CellVerdict)>, rem: Seq<int>, k: int, v: CellVerdict)
    requires
        apart(done, rem),
        0 <= k < rem.len(),
    ensures
        apart(done.push((rem[k], v)), rem.remove(k)),
{
    let next = rem.remove(k);
    let more = done.push((rem[k], v));
    assert forall|a: int| 0 <= a < next.len() implies #[trigger] next[a] == rem[if a < k {
        a
    } else {
        a + 1
    }] by {}
    assert forall|p: int, a: int| 0 <= p < more.len() && 0 <= a < next.len() implies (
    #[trigger] more[p]).0 != #[trigger] next[a] by {
        let b = if a < k {
            a
        } else {
            a + 1
        };
        assert(next[a] == rem[b]);
        if p < done.len() {
            assert(more[p] == done[p]);
        }
    }
}

// ------------------------------------------------------------- laws of a walk

proof fn lemma_first_ready(
    cells: Seq<Cell>,
    remaining: Seq<int>,
    passed: Map<Seq<char>, bool>,
    from: int,
)
    requires
        0 <= from <= remaining.len(),
    ensures
        from <= first_ready(cells, remaining, passed, from) <= remaining.len(),
        forall|k: int|
            from <= k < first_ready(cells, remaining, passed, from) ==> !ready(
                cells[#[trigger] remaining[k]],
                passed,
            ),
        first_ready(cells, remaining, passed, from) < remaining.len() ==> ready(
            cells[remaining[first_ready(cells, remaining, passed, from)]],
            passed,
        ),
    decreases remaining.len() - from,
{
    if from < remaining.len() && !ready(cells[remaining[from]], passed) {
        lemma_first_ready(cells, remaining, passed, from + 1);
    }
}

/// The cells of a walk, in the order in which they were settled.
pub open spec fn settled(w: Seq<(int, CellVerdict)>) -> Seq<int> {
    w.map_values(|s: (int, CellVerdict)| s.0)
}

proof fn lemma_walk_rest_settles_all(
    cells: Seq<Cell>,
    gates: Seq<bool>,
    remaining: Seq<int>,
    passed: Map<Seq<char>, bool>,
)
    ensures
        settled(walk_rest(cells, gates, remaining, passed)).to_multiset()
            == remaining.to_multiset(),
        walk_rest(cells, gates, remaining, passed).len() == remaining.len(),
    decreases remaining.len(),
{
    broadcast use vstd::seq_lib::group_to_multiset_ensures;

    let w = walk_rest(cells, gates, remaining, passed);
    let k = first_ready(cells, remaining, passed, 0);
    lemma_first_ready(cells, remaining, passed, 0);
    if k < remaining.len() {
        let i = remaining[k];
        let v = verdict_on(cells[i], passed, gates[i]);
        let rem = remaining.remove(k);
        let now = passed.insert(cells[i].cell_id@, v == CellVerdict::Accepted);
        let rest = walk_rest(cells, gates, rem, now);
        lemma_walk_rest_settles_all(cells, gates, rem, now);
        assert(settled(w) =~= seq![i] + settled(rest));
        vstd::seq_lib::lemma_multiset_commutative(seq![i], settled(rest));
        assert(seq![i] =~= Seq::<int>::empty().push(i));
        assert(remaining =~= rem.insert(k, i));
        assert(remaining.to_multiset() =~= rem.to_multiset().insert(i));
        assert(settled(w).to_multiset() =~= remaining.to_multiset());
    } else {
        assert(settled(w) =~= remaining);
    }
}

/// A walk settles every cell of the unit exactly once.
pub proof fn law_a_walk_settles_each_cell_once(cells: Seq<Cell>, gates: Seq<bool>)
    ensures
        walk(cells, gates).len() == cells.len(),
        settled(walk(cells, gates)).to_multiset() == Seq::new(
            cells.len(),
            |i: int| i,
        ).to_multiset(),
{
    lemma_walk_rest_settles_all(cells, gates, Seq::new(cells.len(), |i: int| i), Map::empty());
}

proof fn lemma_gated_after_predecessors(
    cells: Seq<Cell>,
    gates: Seq<bool>,
    remaining: Seq<int>,
    passed: Map<Seq<char>, bool>,
    p: int,
    j: int,
)
    requires
        0 <= p < walk_rest(cells, gates, remaining, passed).len(),
        walk_rest(cells, gates, remaining, passed)[p].1 != CellVerdict::Skipped,
        0 <= j < cells[walk_rest(cells, gates, remaining, passed)[p].0].depends_on@.len(),
    ensures
        ({
            let w = walk_rest(cells, gates, remaining, passed);
            let d = cells[w[p].0].depends_on@[j]@;
            ||| passed.contains_key(d) && passed[d]
            ||| exists|q: int|
                0 <= q < p && cells[(#[trigger] w[q]).0].cell_id@ == d && w[q].1
                    == CellVerdict::Accepted
        }),
    decreases remaining.len(),
{
    let w = walk_rest(cells, gates, remaining, passed);
    let k = first_ready(cells, remaining, passed, 0);
    lemma_first_ready(cells, remaining, passed, 0);
    if k < remaining.len() {
        let i = remaining[k];
        let v = verdict_on(cells[i], passed, gates[i]);
        let rem = remaining.remove(k);
        let now = passed.insert(cells[i].cell_id@, v == CellVerdict::Accepted);
        let rest = walk_rest(cells, gates, rem, now);
        let d = cells[w[p].0].depends_on@[j]@;
        if p > 0 {
            assert(w[p] == rest[p - 1]);
            lemma_gated_after_predecessors(cells, gates, rem, now, p - 1, j);
            if exists|q: int|
                0 <= q < p - 1 && cells[(#[trigger] rest[q]).0].cell_id@ == d && rest[q].1
                    == CellVerdict::Accepted {
                let q = choose|q: int|
                    0 <= q < p - 1 && cells[(#[trigger] rest[q]).0].cell_id@ == d && rest[q].1
                        == CellVerdict::Accepted;
                assert(w[q + 1] == rest[q]);
            } else if d == cells[i].cell_id@ {
                assert(w[0] == (i, v));
            }
        }
    }
}

/// A cell is gated, and so can only be accepted, after each of its predecessors
/// was accepted: for a gated cell every dependency names a cell that stands
/// earlier in the walk with the verdict accepted.
pub proof fn law_a_gated_cell_has_accepted_predecessors(
    cells: Seq<Cell>,
    gates: Seq<bool>,
    p: int,
    j: int,
)
    requires
        0 <= p < walk(cells, gates).len(),
        walk(cells, gates)[p].1 != CellVerdict::Skipped,
        0 <= j < cells[walk(cells, gates)[p].0].depends_on@.len(),
    ensures
        exists|q: int|
            0 <= q < p && cells[(#[trigger] walk(cells, gates)[q]).0].cell_id@
                == cells[walk(cells, gates)[p].0].depends_on@[j]@ && walk(cells, gates)[q].1
                == CellVerdict::Accepted,
{
    lemma_gated_after_predecessors(
        cells,
        gates,
        Seq::new(cells.len(), |i: int| i),
        Map::empty(),
        p,
        j,
    );
}

proof fn lemma_free_cell_is_gated(
    cells: Seq<Cell>,
    gates: Seq<bool>,
    remaining: Seq<int>,
    passed: Map<Seq<char>, bool>,
    p: int,
)
    requires
        0 <= p < walk_rest(cells, gates, remaining, passed).len(),
        cells[walk_rest(cells, gates, remaining, passed)[p].0].depends_on@.len() == 0,
    ensures
        ({
            let step = walk_rest(cells, gates, remaining, passed)[p];
            step.1 == if gates[step.0] {
                CellVerdict::Accepted
            } else {
                CellVerdict::Rejected
            }
        }),
    decreases remaining.len(),
{
    let w = walk_rest(cells, gates, remaining, passed);
    let k = first_ready(cells, remaining, passed, 0);
    lemma_first_ready(cells, remaining, passed, 0);
    if k < remaining.len() {
        let i = remaining[k];
        let v = verdict_on(cells[i], passed, gates[i]);
        let rem = remaining.remove(k);
        let now = passed.insert(cells[i].cell_id@, v == CellVerdict::Accepted);
        if p > 0 {
            assert(w[p] == walk_rest(cells, gates, rem, now)[p - 1]);
            lemma_free_cell_is_gated(cells, gates, rem, now, p - 1);
        }
    } else {
        assert(w[p].0 == remaining[p]);
        assert(ready(cells[remaining[p]], passed));
    }
}

/// A cell that depends on nothing is never skipped: its verdict is what its gate says.
pub proof fn law_a_cell_without_dependencies_is_gated(
    cells: Seq<Cell>,
    gates: Seq<bool>,
    p: int,
)
    requires
        0 <= p < walk(cells, gates).len(),
        cells[walk(cells, gates)[p].0].depends_on@.len() == 0,
    ensures
        walk(cells, gates)[p].1 == if gates[walk(cells, gates)[p].0] {
            CellVerdict::Accepted
        } else {
            CellVerdict::Rejected
        },
{
    lemma_free_cell_is_gated(cells, gates, Seq::new(cells.len(), |i: int| i), Map::empty(), p);
}

/// Of the cells with this id that were settled before place `p` there is one, and
/// the last of them was accepted.
pub open spec fn accepted_before(
    cells: Seq<Cell>,
    w: Seq<(int, CellVerdict)>,
    p: int,
    id: Seq<char>,
) -> bool {
    exists|q: int|
        {
            &&& 0 <= q < p
            &&& cells[(#[trigger] w[q]).0].cell_id@ == id
            &&& w[q].1 == CellVerdict::Accepted
            &&& forall|later: int|
                q < later < p ==> cells[(#[trigger] w[later]).0].cell_id@ != id
        }
}

/// A cell with this id was settled before place `p`.
pub open spec fn settled_before(
    cells: Seq<Cell>,
    w: Seq<(int, CellVerdict)>,
    p: int,
    id: Seq<char>,
) -> bool {
    exists|q: int| 0 <= q < p && cells[(#[trigger] w[q]).0].cell_id@ == id
}

/// What `passed` says is what was settled so far.
spec fn reflects(
    cells: Seq<Cell>,
    done: Seq<(int, CellVerdict)>,
    passed: Map<Seq<char>, bool>,
) -> bool {
    forall|id: Seq<char>|
        #![trigger passed.contains_key(id)]
        {
            &&& passed.contains_key(id) <==> settled_before(cells, done, done.len() as int, id)
            &&& passed.contains_key(id) && passed[id] <==> accepted_before(
                cells,
                done,
                done.len() as int,
                id,
            )
        }
}

proof fn lemma_reflects(
    cells: Seq<Cell>,
    done: Seq<(int, CellVerdict)>,
    passed: Map<Seq<char>, bool>,
    i: int,
    v: CellVerdict,
)
    requires
        reflects(cells, done, passed),
    ensures
        reflects(
            cells,
            done.push((i, v)),
            passed.insert(cells[i].cell_id@, v == CellVerdict::Accepted),
        ),
{
    let more = done.push((i, v));
    let n = done.len() as int;
    let now = passed.insert(cells[i].cell_id@, v == CellVerdict::Accepted);
    assert(more[n] == (i, v));
    assert forall|id: Seq<char>|
        #![trigger now.contains_key(id)]
        {
            &&& now.contains_key(id) <==> settled_before(cells, more, n + 1, id)
            &&& now.contains_key(id) && now[id] <==> accepted_before(cells, more, n + 1, id)
        } by {
        assert(passed.contains_key(id) <==> settled_before(cells, done, n, id));
        if settled_before(cells, done, n, id) {
            let q = choose|q: int| 0 <= q < n && cells[(#[trigger] done[q]).0].cell_id@ == id;
            assert(more[q] == done[q]);
        }
        if settled_before(cells, more, n + 1, id) && id != cells[i].cell_id@ {
            let q = choose|q: int| 0 <= q < n + 1 && cells[(#[trigger] more[q]).0].cell_id@ == id;
            assert(more[q] == done[q]);
        }
        if accepted_before(cells, done, n, id) && id != cells[i].cell_id@ {
            let q = choose|q: int|
                {
                    &&& 0 <= q < n
                    &&& cells[(#[trigger] done[q]).0].cell_id@ == id
                    &&& done[q].1 == CellVerdict::Accepted
                    &&& forall|later: int|
                        q < later < n ==> cells[(#[trigger] done[later]).0].cell_id@ != id
                };
            assert(more[q] == done[q]);
            assert forall|later: int| q < later < n + 1 implies cells[(
            #[trigger] more[later]).0].cell_id@ != id by {
                if later < n {
                    assert(more[later] == done[later]);
                }
            }
        }
        if accepted_before(cells, more, n + 1, id) {
            let q = choose|q: int|
                {
                    &&& 0 <= q < n + 1
                    &&& cells[(#[trigger] more[q]).0].cell_id@ == id
                    &&& more[q].1 == CellVerdict::Accepted
                    &&& forall|later: int|
                        q < later < n + 1 ==> cells[(#[trigger] more[later]).0].cell_id@ != id
                };
            if q < n {
                assert(cells[more[n].0].cell_id@ != id);
                assert(more[q] == done[q]);
                assert forall|later: int| q < later < n implies cells[(
                #[trigger] done[later]).0].cell_id@ != id by {
                    assert(more[later] == done[later]);
                }
            }
        }
    }
}

/// At place `p` of a walk stands what the cell's own gate says, if each of its
/// dependencies was accepted before; else the cell is skipped.
pub open spec fn rightly_judged(
    cells: Seq<Cell>,
    gates: Seq<bool>,
    w: Seq<(int, CellVerdict)>,
    p: int,
) -> bool {
    let c = cells[w[p].0];
    w[p].1 == if forall|j: int|
        0 <= j < c.depends_on@.len() ==> accepted_before(
            cells,
            w,
            p,
            (#[trigger] c.depends_on@[j])@,
        ) {
        if gates[w[p].0] {
            CellVerdict::Accepted
        } else {
            CellVerdict::Rejected
        }
    } else {
        CellVerdict::Skipped
    }
}

/// Cell `i` can be settled at place `p` of a walk: it was not yet, and each of its
/// dependencies was.
pub open spec fn can_come_at(
    cells: Seq<Cell>,
    w: Seq<(int, CellVerdict)>,
    p: int,
    i: int,
) -> bool {
    &&& forall|q: int| 0 <= q < p ==> (#[trigger] w[q]).0 != i
    &&& forall|j: int|
        0 <= j < cells[i].depends_on@.len() ==> settled_before(
            cells,
            w,
            p,
            (#[trigger] cells[i].depends_on@[j])@,
        )
}

/// By place `p` a walk has come to where no cell could come next.
pub open spec fn stuck_by(cells: Seq<Cell>, w: Seq<(int, CellVerdict)>, p: int) -> bool {
    exists|s: int| 0 <= s <= p && #[trigger] stuck_at(cells, w, s)
}

/// No cell can come at this place.
pub open spec fn stuck_at(cells: Seq<Cell>, w: Seq<(int, CellVerdict)>, p: int) -> bool {
    forall|i: int| 0 <= i < cells.len() ==> !#[trigger] can_come_at(cells, w, p, i)
}

/// The cell at place `p` of a walk is the first in the list that can come there;
/// once none could, the first that is left.
pub open spec fn rightly_next(cells: Seq<Cell>, w: Seq<(int, CellVerdict)>, p: int) -> bool {
    &&& 0 <= w[p].0 < cells.len()
    &&& forall|q: int| 0 <= q < p ==> (#[trigger] w[q]).0 != w[p].0
    &&& !stuck_by(cells, w, p) ==> can_come_at(cells, w, p, w[p].0) && forall|i: int|
        0 <= i < w[p].0 ==> !#[trigger] can_come_at(cells, w, p, i)
    &&& stuck_by(cells, w, p) ==> forall|i: int|
        0 <= i < w[p].0 ==> #[trigger] was_settled(w.take(p), i)
}

/// Each cell so far could come where it did.
spec fn flows(cells: Seq<Cell>, done: Seq<(int, CellVerdict)>) -> bool {
    forall|s: int|
        0 <= s < done.len() ==> 0 <= (#[trigger] done[s]).0 < cells.len() && can_come_at(
            cells,
            done,
            s,
            done[s].0,
        )
}

/// Whether a cell can come at a place depends on the places before it alone.
proof fn lemma_can_come_in_prefix(
    cells: Seq<Cell>,
    done: Seq<(int, CellVerdict)>,
    w: Seq<(int, CellVerdict)>,
    s: int,
    i: int,
)
    requires
        0 <= s <= done.len() <= w.len(),
        w.take(done.len() as int) == done,
        can_come_at(cells, done, s, i),
    ensures
        can_come_at(cells, w, s, i),
{
    assert forall|q: int| 0 <= q < s implies #[trigger] w[q] == done[q] by {
        assert(w.take(done.len() as int)[q] == w[q]);
    }
    assert forall|j: int| 0 <= j < cells[i].depends_on@.len() implies settled_before(
        cells,
        w,
        s,
        (#[trigger] cells[i].depends_on@[j])@,
    ) by {
        let id = cells[i].depends_on@[j]@;
        assert(settled_before(cells, done, s, id));
        let q = choose|q: int| 0 <= q < s && cells[(#[trigger] done[q]).0].cell_id@ == id;
        assert(w[q] == done[q]);
    }
}

proof fn lemma_flows(
    cells: Seq<Cell>,
    done: Seq<(int, CellVerdict)>,
    i: int,
    v: CellVerdict,
)
    requires
        flows(cells, done),
        0 <= i < cells.len(),
        can_come_at(cells, done, done.len() as int, i),
    ensures
        flows(cells, done.push((i, v))),
{
    let more = done.push((i, v));
    assert(more.take(done.len() as int) =~= done);
    assert forall|s: int| 0 <= s < more.len() implies 0 <= (#[trigger] more[s]).0 < cells.len()
        && can_come_at(cells, more, s, more[s].0) by {
        if s < done.len() {
            assert(more[s] == done[s]);
            lemma_can_come_in_prefix(cells, done, more, s, done[s].0);
        } else {
            lemma_can_come_in_prefix(cells, done, more, s, i);
        }
    }
}

/// Where each cell so far could come, the walk is not stuck yet.
proof fn lemma_not_stuck_before(
    cells: Seq<Cell>,
    done: Seq<(int, CellVerdict)>,
    w: Seq<(int, CellVerdict)>,
    s: int,
)
    requires
        flows(cells, done),
        0 <= s < done.len() <= w.len(),
        w.take(done.len() as int) == done,
    ensures
        !stuck_at(cells, w, s),
{
    lemma_can_come_in_prefix(cells, done, w, s, done[s].0);
}

/// The cells that remain, in the order of the list, are those that are not settled.
spec fn left_over(cells: Seq<Cell>, done: Seq<(int, CellVerdict)>, remaining: Seq<int>) -> bool {
    &&& forall|a: int| 0 <= a < remaining.len() ==> 0 <= (#[trigger] remaining[a]) < cells.len()
    &&& forall|a: int, b: int|
        0 <= a < b < remaining.len() ==> (#[trigger] remaining[a]) < (#[trigger] remaining[b])
    &&& forall|q: int, a: int|
        0 <= q < done.len() && 0 <= a < remaining.len() ==> (#[trigger] done[q]).0 != (
        #[trigger] remaining[a])
    &&& forall|i: int|
        0 <= i < cells.len() && !remaining.contains(i) ==> #[trigger] was_settled(done, i)
}

/// Cell `i` was settled.
pub open spec fn was_settled(done: Seq<(int, CellVerdict)>, i: int) -> bool {
    exists|q: int| 0 <= q < done.len() && (#[trigger] done[q]).0 == i
}

proof fn lemma_left_over(
    cells: Seq<Cell>,
    done: Seq<(int, CellVerdict)>,
    remaining: Seq<int>,
    k: int,
    v: CellVerdict,
)
    requires
        left_over(cells, done, remaining),
        0 <= k < remaining.len(),
    ensures
        left_over(cells, done.push((remaining[k], v)), remaining.remove(k)),
{
    let more = done.push((remaining[k], v));
    let rem = remaining.remove(k);
    assert forall|a: int| 0 <= a < rem.len() implies (#[trigger] rem[a]) == remaining[if a < k {
        a
    } else {
        a + 1
    }] by {}
    assert forall|i: int| 0 <= i < cells.len() && !rem.contains(i) implies #[trigger] was_settled(
        more,
        i,
    ) by {
        if i == remaining[k] {
            assert(more[done.len() as int].0 == i);
        } else {
            if remaining.contains(i) {
                let a = choose|a: int| 0 <= a < remaining.len() && remaining[a] == i;
                assert(rem[if a < k {
                    a
                } else {
                    a - 1
                }] == i);
            }
            assert(was_settled(done, i));
            let q = choose|q: int| 0 <= q < done.len() && (#[trigger] done[q]).0 == i;
            assert(more[q].0 == i);
        }
    }
}

/// What was settled before place `p` of a walk depends on the places before `p` alone.
proof fn lemma_before_is_prefix(
    cells: Seq<Cell>,
    done: Seq<(int, CellVerdict)>,
    w: Seq<(int, CellVerdict)>,
    id: Seq<char>,
)
    requires
        done.len() <= w.len(),
        w.take(done.len() as int) == done,
    ensures
        accepted_before(cells, w, done.len() as int, id) <==> accepted_before(
            cells,
            done,
            done.len() as int,
            id,
        ),
        settled_before(cells, w, done.len() as int, id) <==> settled_before(
            cells,
            done,
            done.len() as int,
            id,
        ),
{
    let n = done.len() as int;
    assert forall|q: int| 0 <= q < n implies #[trigger] w[q] == done[q] by {
        assert(w.take(n)[q] == w[q]);
    }
    assert forall|q: int| 0 <= q < n implies w[q] == #[trigger] done[q] by {
        assert(w.take(n)[q] == w[q]);
    }
    if accepted_before(cells, w, n, id) {
        let q = choose|q: int|
            {
                &&& 0 <= q < n
                &&& cells[(#[trigger] w[q]).0].cell_id@ == id
                &&& w[q].1 == CellVerdict::Accepted
                &&& forall|later: int|
                    q < later < n ==> cells[(#[trigger] w[later]).0].cell_id@ != id
            };
        assert(done[q] == w[q]);
        assert forall|later: int| q < later < n implies cells[(
        #[trigger] done[later]).0].cell_id@ != id by {
            assert(w[later] == done[later]);
        }
    }
    if accepted_before(cells, done, n, id) {
        let q = choose|q: int|
            {
                &&& 0 <= q < n
                &&& cells[(#[trigger] done[q]).0].cell_id@ == id
                &&& done[q].1 == CellVerdict::Accepted
                &&& forall|later: int|
                    q < later < n ==> cells[(#[trigger] done[later]).0].cell_id@ != id
            };
        assert(done[q] == w[q]);
        assert forall|later: int| q < later < n implies cells[(
        #[trigger] w[later]).0].cell_id@ != id by {
            assert(w[later] == done[later]);
        }
    }
    if settled_before(cells, w, n, id) {
        let q = choose|q: int| 0 <= q < n && cells[(#[trigger] w[q]).0].cell_id@ == id;
        assert(done[q] == w[q]);
    }
    if settled_before(cells, done, n, id) {
        let q = choose|q: int| 0 <= q < n && cells[(#[trigger] done[q]).0].cell_id@ == id;
        assert(done[q] == w[q]);
    }
}

/// Whether a cell can come next is whether it remains and is ready.
proof fn lemma_can_come(
    cells: Seq<Cell>,
    done: Seq<(int, CellVerdict)>,
    w: Seq<(int, CellVerdict)>,
    remaining: Seq<int>,
    passed: Map<Seq<char>, bool>,
    i: int,
)
    requires
        reflects(cells, done, passed),
        left_over(cells, done, remaining),
        done.len() <= w.len(),
        w.take(done.len() as int) == done,
        0 <= i < cells.len(),
    ensures
        can_come_at(cells, w, done.len() as int, i) <==> remaining.contains(i) && ready(
            cells[i],
            passed,
        ),
{
    let n = done.len() as int;
    assert forall|q: int| 0 <= q < n implies #[trigger] w[q] == done[q] by {
        assert(w.take(n)[q] == w[q]);
    }
    assert forall|id: Seq<char>|
        #![trigger passed.contains_key(id)]
        passed.contains_key(id) <==> settled_before(cells, w, n, id) by {
        lemma_before_is_prefix(cells, done, w, id);
    }
    if remaining.contains(i) {
        let a = choose|a: int| 0 <= a < remaining.len() && remaining[a] == i;
        assert forall|q: int| 0 <= q < n implies (#[trigger] w[q]).0 != i by {
            assert(done[q].0 != remaining[a]);
        }
    } else {
        assert(was_settled(done, i));
        let q = choose|q: int| 0 <= q < done.len() && (#[trigger] done[q]).0 == i;
        assert(w[q].0 == i);
    }
    if ready(cells[i], passed) {
        assert forall|j: int| 0 <= j < cells[i].depends_on@.len() implies settled_before(
            cells,
            w,
            n,
            (#[trigger] cells[i].depends_on@[j])@,
        ) by {
            assert(passed.contains_key(cells[i].depends_on@[j]@));
        }
    }
    if can_come_at(cells, w, n, i) {
        assert forall|j: int| 0 <= j < cells[i].depends_on@.len() implies passed.contains_key(
            (#[trigger] cells[i].depends_on@[j])@,
        ) by {
            assert(settled_before(cells, w, n, cells[i].depends_on@[j]@));
        }
    }
}

proof fn lemma_walked_rightly(
    cells: Seq<Cell>,
    gates: Seq<bool>,
    done: Seq<(int, CellVerdict)>,
    remaining: Seq<int>,
    passed: Map<Seq<char>, bool>,
    p: int,
)
    requires
        reflects(cells, done, passed),
        left_over(cells, done, remaining),
        flows(cells, done),
        done.len() <= p < done.len() + walk_rest(cells, gates, remaining, passed).len(),
    ensures
        rightly_judged(cells, gates, done + walk_rest(cells, gates, remaining, passed), p),
        rightly_next(cells, done + walk_rest(cells, gates, remaining, passed), p),
    decreases remaining.len(),
{
    let rest = walk_rest(cells, gates, remaining, passed);
    let w = done + rest;
    let n = done.len() as int;
    let k = first_ready(cells, remaining, passed, 0);
    lemma_first_ready(cells, remaining, passed, 0);
    assert(w.take(n) =~= done);
    if k < remaining.len() {
        let i = remaining[k];
        let v = verdict_on(cells[i], passed, gates[i]);
        let rem = remaining.remove(k);
        let now = passed.insert(cells[i].cell_id@, v == CellVerdict::Accepted);
        let more = done.push((i, v));
        assert(w =~= more + walk_rest(cells, gates, rem, now));
        assert(remaining.contains(i));
        lemma_can_come(cells, done, w, remaining, passed, i);
        if p > n {
            assert(done.take(n) =~= done);
            lemma_can_come(cells, done, done, remaining, passed, i);
            lemma_flows(cells, done, i, v);
            lemma_reflects(cells, done, passed, i, v);
            lemma_left_over(cells, done, remaining, k, v);
            lemma_walked_rightly(cells, gates, more, rem, now, p);
        } else {
            assert(w[p] == (i, v));
            assert(unblocked(cells[i], passed) <==> forall|j: int|
                0 <= j < cells[i].depends_on@.len() ==> accepted_before(
                    cells,
                    w,
                    p,
                    (#[trigger] cells[i].depends_on@[j])@,
                )) by {
                assert forall|id: Seq<char>|
                    #![trigger passed.contains_key(id)]
                    passed.contains_key(id) && passed[id] <==> accepted_before(cells, w, n, id) by {
                    lemma_before_is_prefix(cells, done, w, id);
                }
                if unblocked(cells[i], passed) {
                    assert forall|j: int|
                        0 <= j < cells[i].depends_on@.len() implies accepted_before(
                        cells,
                        w,
                        p,
                        (#[trigger] cells[i].depends_on@[j])@,
                    ) by {
                        assert(passed.contains_key(cells[i].depends_on@[j]@));
                    }
                }
                if forall|j: int|
                    0 <= j < cells[i].depends_on@.len() ==> accepted_before(
                        cells,
                        w,
                        p,
                        (#[trigger] cells[i].depends_on@[j])@,
                    ) {
                    assert forall|j: int|
                        0 <= j < cells[i].depends_on@.len() implies passed.contains_key(
                        (#[trigger] cells[i].depends_on@[j])@,
                    ) && passed[cells[i].depends_on@[j]@] by {
                        lemma_before_is_prefix(cells, done, w, cells[i].depends_on@[j]@);
                        assert(accepted_before(cells, w, p, cells[i].depends_on@[j]@));
                    }
                }
            }
            if stuck_by(cells, w, p) {
                let s = choose|s: int| 0 <= s <= p && #[trigger] stuck_at(cells, w, s);
                if s < n {
                    lemma_not_stuck_before(cells, done, w, s);
                }
                assert(!can_come_at(cells, w, s, i));
            }
            assert forall|x: int| 0 <= x < i implies !#[trigger] can_come_at(cells, w, p, x) by {
                lemma_can_come(cells, done, w, remaining, passed, x);
                if remaining.contains(x) {
                    let a = choose|a: int| 0 <= a < remaining.len() && remaining[a] == x;
                    if a > k {
                        assert(remaining[k] < remaining[a]);
                    }
                    assert(a < k);
                    assert(!ready(cells[remaining[a]], passed));
                }
            }
            assert forall|q: int| 0 <= q < p implies (#[trigger] w[q]).0 != i by {
                assert(done[q].0 != remaining[k]);
                assert(w[q] == done[q]);
            }
        }
    } else {
        let a = p - n;
        let i = remaining[a];
        assert(rest =~= remaining.map_values(|i: int| (i, CellVerdict::Skipped)));
        assert(w[p] == (i, CellVerdict::Skipped));
        lemma_leftover_rightly(cells, gates, done, remaining, passed, p);
    }
}

/// Cells that never become ready are skipped, in the order of the list.
proof fn lemma_leftover_rightly(
    cells: Seq<Cell>,
    gates: Seq<bool>,
    done: Seq<(int, CellVerdict)>,
    remaining: Seq<int>,
    passed: Map<Seq<char>, bool>,
    p: int,
)
    requires
        reflects(cells, done, passed),
        left_over(cells, done, remaining),
        first_ready(cells, remaining, passed, 0) >= remaining.len(),
        done.len() <= p < done.len() + remaining.len(),
    ensures
        rightly_judged(
            cells,
            gates,
            done + remaining.map_values(|i: int| (i, CellVerdict::Skipped)),
            p,
        ),
        rightly_next(
            cells,
            done + remaining.map_values(|i: int| (i, CellVerdict::Skipped)),
            p,
        ),
{
    let w = done + remaining.map_values(|i: int| (i, CellVerdict::Skipped));
    let n = done.len() as int;
    let a = p - n;
    let i = remaining[a];
    lemma_first_ready(cells, remaining, passed, 0);
    assert(w.take(n) =~= done);
    assert(stuck_at(cells, w, n)) by {
        assert forall|x: int| 0 <= x < cells.len() implies !#[trigger] can_come_at(
            cells,
            w,
            n,
            x,
        ) by {
            lemma_can_come(cells, done, w, remaining, passed, x);
            if remaining.contains(x) {
                let b = choose|b: int| 0 <= b < remaining.len() && remaining[b] == x;
                assert(!ready(cells[remaining[b]], passed));
            }
        }
    }
    assert forall|q: int| 0 <= q < n implies #[trigger] w[q] == done[q] by {}
    assert forall|q: int| n <= q < w.len() implies #[trigger] w[q] == (
        remaining[q - n],
        CellVerdict::Skipped,
    ) by {}
    assert(!ready(cells[i], passed));
    let j = choose|j: int|
        0 <= j < cells[i].depends_on@.len() && !passed.contains_key(
            (#[trigger] cells[i].depends_on@[j])@,
        );
    let id = cells[i].depends_on@[j]@;
    lemma_before_is_prefix(cells, done, w, id);
    if accepted_before(cells, w, p, id) {
        let q = choose|q: int|
            {
                &&& 0 <= q < p
                &&& cells[(#[trigger] w[q]).0].cell_id@ == id
                &&& w[q].1 == CellVerdict::Accepted
                &&& forall|later: int|
                    q < later < p ==> cells[(#[trigger] w[later]).0].cell_id@ != id
            };
        assert(q < n);
        assert(settled_before(cells, w, n, id));
    }
    assert forall|q: int| 0 <= q < p implies (#[trigger] w[q]).0 != i by {
        if q < n {
            assert(done[q].0 != remaining[a]);
        } else {
            assert(remaining[q - n] < remaining[a]);
        }
    }
    assert forall|x: int| 0 <= x < i implies #[trigger] was_settled(w.take(p), x) by {
        if remaining.contains(x) {
            let b = choose|b: int| 0 <= b < remaining.len() && remaining[b] == x;
            if b > a {
                assert(remaining[a] < remaining[b]);
            }
            assert(w.take(p)[n + b].0 == x);
        } else {
            assert(was_settled(done, x));
            let q = choose|q: int| 0 <= q < done.len() && (#[trigger] done[q]).0 == x;
            assert(w.take(p)[q].0 == x);
        }
    }
}

/// The walk is settled place by place as its purpose has it. A cell whose
/// dependencies were all accepted is gated, and gets the verdict that its gate
/// says, however many dependencies it has; any other cell is skipped.
pub proof fn law_the_gate_decides_where_every_predecessor_was_accepted(
    results: Seq<CellResult>,
    cells: Seq<Cell>,
    gates: Seq<bool>,
    p: int,
)
    requires
        reports(results, cells, walk(cells, gates)),
        0 <= p < results.len(),
    ensures
        ({
            let w = walk(cells, gates);
            let c = cells[w[p].0];
            let free = forall|j: int|
                0 <= j < c.depends_on@.len() ==> accepted_before(
                    cells,
                    w,
                    p,
                    (#[trigger] c.depends_on@[j])@,
                );
            &&& results[p].cell_id@ == c.cell_id@
            &&& results[p].verdict == w[p].1
            &&& results[p].passed <==> free && gates[w[p].0]
            &&& results[p].verdict == CellVerdict::Accepted <==> free && gates[w[p].0]
            &&& results[p].verdict == CellVerdict::Rejected <==> free && !gates[w[p].0]
            &&& results[p].verdict == CellVerdict::Skipped <==> !free
            &&& results[p].artifact is None
            &&& results[p].evidence is None
        }),
{
    lemma_walk_from_the_start(cells, gates, p);
}

proof fn lemma_walk_from_the_start(cells: Seq<Cell>, gates: Seq<bool>, p: int)
    requires
        0 <= p < walk(cells, gates).len(),
    ensures
        rightly_judged(cells, gates, walk(cells, gates), p),
        rightly_next(cells, walk(cells, gates), p),
{
    let all = Seq::new(cells.len(), |i: int| i);
    let none = Seq::<(int, CellVerdict)>::empty();
    assert forall|i: int| 0 <= i < cells.len() implies #[trigger] all.contains(i) by {
        assert(all[i] == i);
    }
    lemma_walked_rightly(cells, gates, none, all, Map::empty(), p);
    assert(none + walk(cells, gates) =~= walk(cells, gates));
}

/// At each place of a walk stands the first cell in the list that was not settled
/// before and whose dependencies all were; once there is none such, the first that
/// is left.
pub proof fn law_the_first_ready_cell_comes_next(cells: Seq<Cell>, gates: Seq<bool>, p: int)
    requires
        0 <= p < walk(cells, gates).len(),
    ensures
        ({
            let w = walk(cells, gates);
            &&& 0 <= w[p].0 < cells.len()
            &&& forall|q: int| 0 <= q < p ==> (#[trigger] w[q]).0 != w[p].0
            &&& !stuck_by(cells, w, p) ==> can_come_at(cells, w, p, w[p].0) && forall|i: int|
                0 <= i < w[p].0 ==> !#[trigger] can_come_at(cells, w, p, i)
            &&& stuck_by(cells, w, p) ==> forall|i: int|
                0 <= i < w[p].0 ==> #[trigger] was_settled(w.take(p), i)
        }),
{
    lemma_walk_from_the_start(cells, gates, p);
}

/// The answers that a walk speaks of are answers of the oracle.
pub proof fn law_answers_come_from_the_oracle<O: Oracle>(oracle: O, c: Cell, g: bool)
    requires
        answered(oracle, c, g),
    ensures
        call_ensures(O::gate, (&oracle, &c), g),
{
}

/// Every dependency of a cell names a cell of lower rank, so there is no cycle
/// and no dependency that dangles.
pub open spec fn ranked(cells: Seq<Cell>, rank: spec_fn(int) -> nat) -> bool {
    forall|i: int, j: int|
        0 <= i < cells.len() && 0 <= j < cells[i].depends_on@.len() ==> exists|k: int|
            0 <= k < cells.len() && (#[trigger] cells[k]).cell_id@ == (
            #[trigger] cells[i].depends_on@[j])@ && rank(k) < rank(i)
}

proof fn lemma_lowest(remaining: Seq<int>, rank: spec_fn(int) -> nat) -> (k: int)
    requires
        remaining.len() > 0,
    ensures
        0 <= k < remaining.len(),
        forall|a: int|
            0 <= a < remaining.len() ==> rank(remaining[k]) <= rank(#[trigger] remaining[a]),
    decreases remaining.len(),
{
    if remaining.len() == 1 {
        0
    } else {
        let rest = remaining.drop_last();
        let last = remaining.len() - 1;
        let b = lemma_lowest(rest, rank);
        assert forall|a: int| 0 <= a < rest.len() implies #[trigger] rest[a] == remaining[a] by {}
        let k = if rank(remaining[last]) < rank(remaining[b]) {
            last
        } else {
            b
        };
        assert forall|a: int| 0 <= a < remaining.len() implies rank(remaining[k]) <= rank(
            #[trigger] remaining[a],
        ) by {
            if a < last {
                assert(rest[a] == remaining[a]);
            }
        }
        k
    }
}

/// Every cell that does not remain was settled.
spec fn accounted(cells: Seq<Cell>, remaining: Seq<int>, passed: Map<Seq<char>, bool>) -> bool {
    &&& forall|k: int| 0 <= k < remaining.len() ==> 0 <= (#[trigger] remaining[k]) < cells.len()
    &&& forall|i: int|
        0 <= i < cells.len() && !remaining.contains(i) ==> passed.contains_key(
            (#[trigger] cells[i]).cell_id@,
        )
}

/// While cells of a ranked graph remain, one of them is ready; and settling it
/// leaves every cell accounted for.
proof fn lemma_one_is_ready(
    cells: Seq<Cell>,
    remaining: Seq<int>,
    passed: Map<Seq<char>, bool>,
    rank: spec_fn(int) -> nat,
    ok: bool,
)
    requires
        ranked(cells, rank),
        accounted(cells, remaining, passed),
        remaining.len() > 0,
    ensures
        ({
            let k = first_ready(cells, remaining, passed, 0);
            &&& 0 <= k < remaining.len()
            &&& ready(cells[remaining[k]], passed)
            &&& accounted(
                cells,
                remaining.remove(k),
                passed.insert(cells[remaining[k]].cell_id@, ok),
            )
        }),
{
    let k = first_ready(cells, remaining, passed, 0);
    lemma_first_ready(cells, remaining, passed, 0);
    let low = lemma_lowest(remaining, rank);
    let c = remaining[low];
    assert forall|j: int| 0 <= j < cells[c].depends_on@.len() implies passed.contains_key(
        (#[trigger] cells[c].depends_on@[j])@,
    ) by {
        let d = choose|d: int|
            0 <= d < cells.len() && (#[trigger] cells[d]).cell_id@ == cells[c].depends_on@[j]@
                && rank(d) < rank(c);
        if remaining.contains(d) {
            let a = choose|a: int| 0 <= a < remaining.len() && remaining[a] == d;
            assert(rank(remaining[low]) <= rank(remaining[a]));
        }
    }
    assert(ready(cells[remaining[low]], passed));
    assert(k < remaining.len());
    let i = remaining[k];
    let rem = remaining.remove(k);
    let now = passed.insert(cells[i].cell_id@, ok);
    assert forall|x: int| 0 <= x < cells.len() && !rem.contains(x) implies now.contains_key(
        (#[trigger] cells[x]).cell_id@,
    ) by {
        if remaining.contains(x) && x != i {
            let a = choose|a: int| 0 <= a < remaining.len() && remaining[a] == x;
            if a < k {
                assert(rem[a] == x);
            } else {
                assert(rem[a - 1] == x);
            }
        }
    }
    assert forall|a: int| 0 <= a < rem.len() implies 0 <= (#[trigger] rem[a]) < cells.len() by {
        assert(rem[a] == remaining[if a < k {
            a
        } else {
            a + 1
        }]);
    }
}

proof fn lemma_open_gates(
    cells: Seq<Cell>,
    gates: Seq<bool>,
    remaining: Seq<int>,
    passed: Map<Seq<char>, bool>,
    rank: spec_fn(int) -> nat,
)
    requires
        ranked(cells, rank),
        accounted(cells, remaining, passed),
        forall|i: int| 0 <= i < cells.len() ==> #[trigger] gates[i],
        forall|id: Seq<char>| #[trigger] passed.contains_key(id) ==> passed[id],
    ensures
        forall|p: int|
            0 <= p < walk_rest(cells, gates, remaining, passed).len() ==> (
            #[trigger] walk_rest(cells, gates, remaining, passed)[p]).1 == CellVerdict::Accepted,
    decreases remaining.len(),
{
    let k = first_ready(cells, remaining, passed, 0);
    lemma_first_ready(cells, remaining, passed, 0);
    if remaining.len() > 0 {
        lemma_one_is_ready(cells, remaining, passed, rank, true);
        let i = remaining[k];
        assert(gates[i]);
        let v = verdict_on(cells[i], passed, gates[i]);
        assert(unblocked(cells[i], passed));
        let rem = remaining.remove(k);
        let now = passed.insert(cells[i].cell_id@, true);
        lemma_open_gates(cells, gates, rem, now, rank);
        let w = walk_rest(cells, gates, remaining, passed);
        let rest = walk_rest(cells, gates, rem, now);
        assert(w == seq![(i, v)] + rest);
        assert forall|p: int| 0 <= p < w.len() implies (#[trigger] w[p]).1
            == CellVerdict::Accepted by {
            if p > 0 {
                assert(w[p] == rest[p - 1]);
            }
        }
    }
}

proof fn lemma_in_dependency_order(
    cells: Seq<Cell>,
    gates: Seq<bool>,
    remaining: Seq<int>,
    passed: Map<Seq<char>, bool>,
    rank: spec_fn(int) -> nat,
    p: int,
    j: int,
)
    requires
        ranked(cells, rank),
        accounted(cells, remaining, passed),
        0 <= p < walk_rest(cells, gates, remaining, passed).len(),
        0 <= j < cells[walk_rest(cells, gates, remaining, passed)[p].0].depends_on@.len(),
    ensures
        ({
            let w = walk_rest(cells, gates, remaining, passed);
            let d = cells[w[p].0].depends_on@[j]@;
            ||| passed.contains_key(d)
            ||| exists|q: int| 0 <= q < p && cells[(#[trigger] w[q]).0].cell_id@ == d
        }),
    decreases remaining.len(),
{
    let w = walk_rest(cells, gates, remaining, passed);
    let k = first_ready(cells, remaining, passed, 0);
    lemma_first_ready(cells, remaining, passed, 0);
    if remaining.len() > 0 {
        let i = remaining[k];
        let v = verdict_on(cells[i], passed, gates[i]);
        lemma_one_is_ready(cells, remaining, passed, rank, v == CellVerdict::Accepted);
        let rem = remaining.remove(k);
        let now = passed.insert(cells[i].cell_id@, v == CellVerdict::Accepted);
        let rest = walk_rest(cells, gates, rem, now);
        assert(w == seq![(i, v)] + rest);
        let d = cells[w[p].0].depends_on@[j]@;
        if p > 0 {
            assert(w[p] == rest[p - 1]);
            lemma_in_dependency_order(cells, gates, rem, now, rank, p - 1, j);
            if exists|q: int| 0 <= q < p - 1 && cells[(#[trigger] rest[q]).0].cell_id@ == d {
                let q = choose|q: int|
                    0 <= q < p - 1 && cells[(#[trigger] rest[q]).0].cell_id@ == d;
                assert(w[q + 1] == rest[q]);
            } else if d == cells[i].cell_id@ {
                assert(w[0] == (i, v));
            }
        }
    }
}

/// The results come in dependency order: if the cell graph has no cycle and no
/// dangling dependency, every dependency of a cell names one that stands earlier
/// in the walk, whatever the gates say.
pub proof fn law_results_come_in_dependency_order(
    cells: Seq<Cell>,
    gates: Seq<bool>,
    rank: spec_fn(int) -> nat,
    p: int,
    j: int,
)
    requires
        ranked(cells, rank),
        0 <= p < walk(cells, gates).len(),
        0 <= j < cells[walk(cells, gates)[p].0].depends_on@.len(),
    ensures
        exists|q: int|
            0 <= q < p && cells[(#[trigger] walk(cells, gates)[q]).0].cell_id@
                == cells[walk(cells, gates)[p].0].depends_on@[j]@,
{
    let all = Seq::new(cells.len(), |i: int| i);
    assert forall|i: int| 0 <= i < cells.len() implies #[trigger] all.contains(i) by {
        assert(all[i] == i);
    }
    lemma_in_dependency_order(cells, gates, all, Map::empty(), rank, p, j);
}

/// If the cell graph has no cycle and no dangling dependency and every gate is
/// open, then every cell is accepted, in whatever order the cells are listed.
pub proof fn law_open_gates_accept_every_cell(
    cells: Seq<Cell>,
    gates: Seq<bool>,
    rank: spec_fn(int) -> nat,
)
    requires
        ranked(cells, rank),
        forall|i: int| 0 <= i < cells.len() ==> #[trigger] gates[i],
    ensures
        forall|p: int|
            0 <= p < walk(cells, gates).len() ==> (#[trigger] walk(cells, gates)[p]).1
                == CellVerdict::Accepted,
{
    let all = Seq::new(cells.len(), |i: int| i);
    assert forall|i: int| 0 <= i < cells.len() implies #[trigger] all.contains(i) by {
        assert(all[i] == i);
    }
    lemma_open_gates(cells, gates, all, Map::empty(), rank);
}

// --------------------------------------------------------------- the verdict

/// Every cell passed.
pub open spec fn all_passed(results: Seq<CellResult>) -> bool {
    forall|i: int| 0 <= i < results.len() ==> (#[trigger] results[i]).passed
}

/// The verdict on a unit: accepted if every cell passed; any failure escalates,
/// so that the whole unit is run again one binding up.
pub open spec fn unit_verdict(results: Seq<CellResult>) -> Verdict {
    if all_passed(results) {
        Verdict::Accepted
    } else {
        Verdict::Escalate
    }
}

/// Reduces the verdicts on the cells to the verdict on the unit.
pub fn reduce_verdict(results: &[CellResult]) -> (r: Verdict)
    ensures
        r == unit_verdict(results@),
{
    let mut i: usize = 0;
    while i < results.len()
        invariant
            i <= results@.len(),
            forall|j: int| 0 <= j < i ==> (#[trigger] results@[j]).passed,
        decreases results@.len() - i,
    {
        if !results[i].passed {
            assert(!results@[i as int].passed);
            return Verdict::Escalate;
        }
        i += 1;
    }
    Verdict::Accepted
}

pub open spec fn consequence(verdict: Verdict) -> Consequence {
    match verdict {
        Verdict::Accepted => Consequence::Advance,
        Verdict::Rejected => Consequence::Halt,
        Verdict::Escalate => Consequence::Escalate,
        Verdict::NotAdmitted => Consequence::Halt,
    }
}

/// What follows from a verdict. A unit that was not admitted halts and never
/// advances: a higher tier cannot add a missing capability.
pub fn consequence_of(verdict: Verdict) -> (r: Consequence)
    ensures
        r == consequence(verdict),
{
    match verdict {
        Verdict::Accepted => Consequence::Advance,
        Verdict::Rejected => Consequence::Halt,
        Verdict::Escalate => Consequence::Escalate,
        Verdict::NotAdmitted => Consequence::Halt,
    }
}

/// Only an accepted unit advances, only an escalated one is run again, and any
/// other halts.
pub proof fn law_only_accepted_units_advance(verdict: Verdict)
    ensures
        consequence(verdict) == Consequence::Advance <==> verdict == Verdict::Accepted,
        consequence(verdict) == Consequence::Escalate <==> verdict == Verdict::Escalate,
        consequence(verdict) == Consequence::Halt <==> verdict == Verdict::NotAdmitted || verdict
            == Verdict::Rejected,
        consequence(verdict) != Consequence::Retry,
{
}

/// One failed cell is enough for the whole unit to escalate, and nothing else is.
pub proof fn law_one_failed_cell_escalates_the_unit(results: Seq<CellResult>)
    ensures
        (exists|i: int| 0 <= i < results.len() && !(#[trigger] results[i]).passed)
            ==> unit_verdict(results) == Verdict::Escalate,
        (forall|i: int| 0 <= i < results.len() ==> (#[trigger] results[i]).passed)
            ==> unit_verdict(results) == Verdict::Accepted,
{
}

/// A unit is accepted only if no cell of its walk was rejected or skipped.
pub proof fn law_an_accepted_unit_has_no_failed_cell(
    results: Seq<CellResult>,
    cells: Seq<Cell>,
    gates: Seq<bool>,
)
    requires
        reports(results, cells, walk(cells, gates)),
    ensures
        unit_verdict(results) == Verdict::Accepted <==> forall|p: int|
            0 <= p < walk(cells, gates).len() ==> (#[trigger] walk(cells, gates)[p]).1
                == CellVerdict::Accepted,
{
    let w = walk(cells, gates);
    if unit_verdict(results) == Verdict::Accepted {
        assert forall|p: int| 0 <= p < w.len() implies (#[trigger] w[p]).1
            == CellVerdict::Accepted by {
            assert(results[p].passed);
        }
    } else {
        let p = choose|p: int| 0 <= p < results.len() && !(#[trigger] results[p]).passed;
        assert(w[p].1 != CellVerdict::Accepted);
    }
}

/// How many verdicts were emitted.
#[derive(Clone, Debug, PartialEq, Eq, Structural)]
pub struct VerdictStreamView {
    pub emitted: i64,
}

impl Default for VerdictStreamView {
    fn default() -> (r: Self)
        ensures
            r.emitted == 0,
    {
        VerdictStreamView { emitted: 0 }
    }
}

impl VerdictStreamView {
    /// The events of a run leave the count as it is.
    pub fn apply(&mut self, event: &RunEvent)
        ensures
            *final(self) == *old(self),
    {
    }

    pub fn on_emitted(&mut self)
        requires
            old(self).emitted < i64::MAX,
        ensures
            final(self).emitted == old(self).emitted + 1,
    {
        self.emitted += 1;
    }
}

} // verus!
