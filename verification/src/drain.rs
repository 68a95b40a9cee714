//! The isolated drain of one unit: a sandbox is provisioned, the cells are run
//! in dependency order, what they wrote is verified, the verdict is logged and
//! emitted, and the sandbox and its credentials are gone at the end. What comes
//! next is decided here; the effects themselves are the caller's, who reports
//! how each went. A run whose effects fail is cut short, but what was set up for
//! it is taken down all the same.
use vstd::prelude::*;

use crate::artifact::{
    artifact_id, artifact_id_and_path, artifact_path, build_prompt, code_of, landing,
    landing_path, law_an_artifact_lands_inside,
    law_every_artifact_of_a_prerequisite_reaches_the_worker, prompt_text, stays_inside,
    strip_code_fences,
};
use crate::delivery::{patch_file, patch_name};
use crate::execution::{indices, unit_verdict, GateReport};
use crate::executor::{
    lemma_one_more_told_apart, lemma_still_told_apart, ran_event, settled, DrainOutcome, Engine,
    MAX_LADDER,
};
use crate::hash::{content_id, text_hash};
use crate::interface::{
    names_cell, Artifact, ArtifactBody, ArtifactDelivery, Cell, CellResult, CellVerdict,
    DeliveryResult, Verdict, VerdictEvent, WorkUnit,
};
use crate::json::{opt_json, Json, JsonView};
use crate::order::{
    depends, law_an_acyclic_graph_is_run_in_dependency_order, law_each_cell_is_run_once,
    ranked_by, resolves_to, run_order, topo_order,
};
use crate::sandbox::{
    LeaseCommand, LeaseEvent, LeasePhase, LeaseState, SandboxCommand, SandboxEvent, SandboxPhase,
    SandboxState,
};
use crate::serving::{BatchCommand, BatchPhase, BatchState};
use crate::sorted::StrMap;
use crate::switch::Mode;

verus! {

/// Where an isolated run stands: the effect that is due.
#[derive(Clone, Copy, Debug, PartialEq, Eq, Structural)]
pub enum Stage {
    Provision,
    CloneRepository,
    SeedWorkspace,
    Baseline,
    Exchange,
    Invoke,
    Write,
    Verify,
    Deliver,
    Log,
    Patch,
    Revoke,
    Teardown,
    Finish,
}

/// The effect to perform next.
#[derive(Debug, PartialEq)]
pub enum Action {
    /// Make a workspace for the unit.
    Provision,
    /// Clone the declared repository into the workspace.
    CloneRepository,
    /// Fill the workspace from the seed.
    SeedWorkspace,
    /// Commit what is there, so that a diff shows what the unit changes.
    CommitBaseline,
    /// Exchange the grant of the unit for a credential.
    ExchangeGrant,
    /// Ask the worker, at the binding of this cell.
    Invoke { cell: usize, prompt: String },
    /// Write an artifact into the workspace.
    WriteArtifact { path: String, content: String },
    /// Run the oracle on the workspace.
    Verify,
    /// Land the workspace in the declared repository.
    Deliver,
    /// Append the event of the run to the durable log.
    AppendEvent,
    /// Write a patch of what the unit changed.
    EmitPatch { name: String },
    /// Give the credential back.
    RevokeLease,
    /// Destroy the workspace.
    Teardown,
    /// Nothing is left to do.
    Finish,
}

/// How an effect went.
#[derive(Debug, PartialEq)]
pub enum Reply {
    Done,
    Token(String),
    Answer(Result<String, String>),
    Report(GateReport),
    Delivered(Option<DeliveryResult>),
    /// The effect could not be had, and why.
    Failed(String),
}

/// Why an effect failed; no reason in any other reply.
pub open spec fn failure_in(reply: Reply) -> Option<Seq<char>> {
    match reply {
        Reply::Failed(why) => Some(why@),
        _ => None,
    }
}

/// Whether a run is cut short where the effect of this stage fails. A failure of
/// any other effect is no more than a reply that does not fit.
pub open spec fn vital(stage: Stage) -> bool {
    match stage {
        Stage::Provision | Stage::CloneRepository | Stage::SeedWorkspace | Stage::Log
        | Stage::Teardown => true,
        _ => false,
    }
}

/// The credential of a reply; the empty one of any other reply.
pub open spec fn token_in(reply: Reply) -> Seq<char> {
    match reply {
        Reply::Token(t) => t@,
        _ => Seq::empty(),
    }
}

/// The answer of a worker; none in any other reply.
pub open spec fn answer_in(reply: Reply) -> Option<Seq<char>> {
    match reply {
        Reply::Answer(Ok(raw)) => Some(raw@),
        _ => None,
    }
}

/// Whether the oracle passed the workspace; any other reply does not.
pub open spec fn passed_in(reply: Reply) -> bool {
    match reply {
        Reply::Report(report) => report.passed,
        _ => false,
    }
}

/// The evidence of the oracle; none in any other reply.
pub open spec fn evidence_in(reply: Reply) -> Option<JsonView> {
    match reply {
        Reply::Report(report) => opt_json(report.evidence),
        _ => None,
    }
}

/// Where a delivery landed; nowhere in any other reply.
pub open spec fn landed_in(reply: Reply) -> Option<DeliveryResult> {
    match reply {
        Reply::Delivered(d) => d,
        _ => None,
    }
}

/// An isolated run under way.
pub struct IsolatedRun {
    pub unit: WorkUnit,
    pub now: String,
    /// There is a seed to fill the workspace from.
    pub seeded: bool,
    /// Accepted inline runs leave a patch.
    pub deliveries: bool,
    pub stage: Stage,
    pub sandbox: SandboxState,
    pub lease: LeaseState,
    pub batch: BatchState,
    pub token: Option<String>,
    /// The order in which the cells are run, and how many of them were.
    pub order: Vec<usize>,
    pub next: usize,
    /// The artifacts to return by value, by cell.
    pub produced: StrMap<Artifact>,
    /// What the cells produced, by cell.
    pub content: StrMap<String>,
    pub results: Vec<CellResult>,
    pub delivered: Option<DeliveryResult>,
    pub event: Option<VerdictEvent>,
    pub verdict: Verdict,
    /// Why the run was cut short.
    pub failure: Option<String>,
}

// ----------------------------------------------------------- the next stage

impl IsolatedRun {
    /// The run lands in a declared repository.
    pub open spec fn to_repository(&self) -> bool {
        self.unit.artifact_delivery is Repository
    }

    pub open spec fn after_baseline(&self) -> Stage {
        if self.unit.credential_grant is Some {
            Stage::Exchange
        } else {
            self.at_cell(self.next as int)
        }
    }

    pub open spec fn after_seed(&self) -> Stage {
        if self.deliveries && !self.to_repository() {
            Stage::Baseline
        } else {
            self.after_baseline()
        }
    }

    pub open spec fn after_provision(&self) -> Stage {
        if self.to_repository() {
            Stage::CloneRepository
        } else if self.seeded {
            Stage::SeedWorkspace
        } else {
            self.after_seed()
        }
    }

    /// The cell at this place in the order is due, or all were run.
    pub open spec fn at_cell(&self, place: int) -> Stage {
        if place < self.order@.len() {
            Stage::Invoke
        } else {
            Stage::Verify
        }
    }

    pub open spec fn after_verify(&self, verdict: Verdict) -> Stage {
        if self.to_repository() && verdict == Verdict::Accepted {
            Stage::Deliver
        } else {
            Stage::Log
        }
    }

    pub open spec fn after_patch(&self) -> Stage {
        if self.token is Some {
            Stage::Revoke
        } else {
            Stage::Teardown
        }
    }

    pub open spec fn after_log(&self) -> Stage {
        if self.verdict == Verdict::Accepted && !self.to_repository() && self.deliveries {
            Stage::Patch
        } else {
            self.after_patch()
        }
    }

    /// Where a run goes on that is cut short: to what is still to be taken down.
    pub open spec fn after_failure(&self) -> Stage {
        match self.stage {
            Stage::Provision | Stage::Teardown => Stage::Finish,
            _ => self.after_patch(),
        }
    }

    /// The cell that is due.
    pub open spec fn cell(&self) -> Cell {
        self.unit.cell_graph@[self.order@[self.next as int] as int]
    }

    // ------------------------------------------------------ what holds of a run

    /// The cells are run in dependency order, each once.
    pub open spec fn ordered(&self) -> bool {
        &&& indices(self.order@) == run_order(self.unit.cell_graph@)
        &&& forall|k: int|
            0 <= k < self.order@.len() ==> (#[trigger] self.order@[k])
                < self.unit.cell_graph@.len()
        &&& self.next <= self.order@.len()
        &&& (self.stage == Stage::Invoke || self.stage == Stage::Write) ==> self.next
            < self.order@.len()
        &&& self.stage == Stage::Verify ==> self.next == self.order@.len()
    }

    /// The sandbox is there from its provisioning to its teardown.
    pub open spec fn boxed(&self) -> bool {
        match self.stage {
            Stage::Provision => self.sandbox.phase == SandboxPhase::Absent,
            Stage::Finish => self.failure is None ==> self.sandbox.phase
                == SandboxPhase::Destroyed,
            _ => self.sandbox.phase == SandboxPhase::Provisioned,
        }
    }

    /// A run that is cut short does nothing more than take down what there is.
    pub open spec fn cut_short(&self) -> bool {
        self.failure is Some ==> self.stage == Stage::Revoke || self.stage == Stage::Teardown
            || self.stage == Stage::Finish
    }

    /// Only what was accepted is delivered.
    pub open spec fn released(&self) -> bool {
        self.stage == Stage::Deliver || self.stage == Stage::Patch ==> self.verdict
            == Verdict::Accepted
    }

    /// Only cells of the unit have produced something.
    pub open spec fn attributed(&self) -> bool {
        &&& self.content@.dom().finite()
        &&& forall|id: Seq<char>| #[trigger]
            self.content@.contains_key(id) ==> names_cell(self.unit.cell_graph@, id)
    }

    /// A credential is held from its exchange to its revocation.
    pub open spec fn credentialed(&self) -> bool {
        match self.stage {
            Stage::Provision | Stage::CloneRepository | Stage::SeedWorkspace
            | Stage::Baseline => self.token is None && self.lease.phase == LeasePhase::Absent,
            Stage::Exchange => self.token is None && self.lease.phase == LeasePhase::Absent
                && self.unit.credential_grant is Some,
            Stage::Revoke => self.token is Some && self.lease.phase == LeasePhase::Leased,
            Stage::Teardown | Stage::Finish => self.lease.phase != LeasePhase::Leased,
            _ => (self.token is Some) == (self.lease.phase == LeasePhase::Leased)
                && (self.token is Some) == (self.unit.credential_grant is Some),
        }
    }

    /// An inline run returns each artifact by value, with the hash of its
    /// content; a run into a repository returns none.
    pub open spec fn accounted(&self) -> bool {
        if self.to_repository() {
            self.produced@ == Map::<Seq<char>, Artifact>::empty()
        } else {
            &&& self.produced@.dom() == self.content@.dom()
            &&& forall|id: Seq<char>| #[trigger]
                self.produced@.contains_key(id) ==> self.produced@[id].content_hash@ == content_id(
                    vstd::utf8::encode_utf8(self.content@[id]@),
                ) && self.produced@[id].delivery == (ArtifactBody::Inline {
                    content: self.content@[id],
                })
        }
    }

    /// Nothing was done yet, but that the cells, if there are any, were formed
    /// into a batch and dispatched.
    pub open spec fn untouched(&self) -> bool {
        &&& self.stage == Stage::Provision
        &&& self.batch.phase == if self.unit.cell_graph@.len() > 0 {
            BatchPhase::Dispatched
        } else {
            BatchPhase::New
        }
        &&& self.next == 0
        &&& self.content@ == Map::<Seq<char>, String>::empty()
        &&& self.produced@ == Map::<Seq<char>, Artifact>::empty()
        &&& self.results@.len() == 0
        &&& self.delivered is None
        &&& self.failure is None
    }

    pub open spec fn well_formed(&self) -> bool {
        &&& self.ordered()
        &&& self.boxed()
        &&& self.credentialed()
        &&& self.accounted()
        &&& self.attributed()
        &&& self.released()
        &&& self.cut_short()
        &&& (self.event is Some) == (self.stage == Stage::Log)
        &&& self.event matches Some(e) ==> e.verdict == self.verdict
    }

    /// The same unit, under the same circumstances.
    pub open spec fn same_job(&self, other: &IsolatedRun) -> bool {
        &&& self.unit == other.unit
        &&& self.now == other.now
        &&& self.seeded == other.seeded
        &&& self.deliveries == other.deliveries
        &&& self.order == other.order
        &&& self.batch == other.batch
    }

    /// The sandbox and the credential are as they were.
    pub open spec fn same_ground(&self, other: &IsolatedRun) -> bool {
        &&& self.sandbox == other.sandbox
        &&& self.lease == other.lease
        &&& self.token == other.token
    }

    /// What was produced so far is as it was.
    pub open spec fn same_yield(&self, other: &IsolatedRun) -> bool {
        &&& self.next == other.next
        &&& self.produced == other.produced
        &&& self.content == other.content
    }

    /// What was judged so far is as it was.
    pub open spec fn same_judgement(&self, other: &IsolatedRun) -> bool {
        &&& self.results == other.results
        &&& self.delivered == other.delivered
        &&& self.event == other.event
        &&& self.verdict == other.verdict
    }
}

/// Every cell of a unit produced something: as many did as there are.
pub open spec fn all_produced(cells: Seq<Cell>, content: Map<Seq<char>, String>) -> bool {
    content.dom().len() == cells.len()
}

/// The verdict on a run: accepted if and only if the oracle passed the workspace
/// and every cell produced something.
pub open spec fn run_verdict(
    cells: Seq<Cell>,
    content: Map<Seq<char>, String>,
    reply: Reply,
) -> Verdict {
    if passed_in(reply) && all_produced(cells, content) {
        Verdict::Accepted
    } else {
        Verdict::Escalate
    }
}

/// The results of a run: a cell passes if the run is accepted and the cell
/// produced something.
pub open spec fn judged(
    results: Seq<CellResult>,
    cells: Seq<Cell>,
    content: Map<Seq<char>, String>,
    produced: Map<Seq<char>, Artifact>,
    reply: Reply,
) -> bool {
    &&& results.len() == cells.len()
    &&& judged_so_far(
        results,
        cells,
        content,
        produced,
        run_verdict(cells, content, reply) == Verdict::Accepted,
        evidence_in(reply),
    )
}

/// The results of the first cells.
pub open spec fn judged_so_far(
    results: Seq<CellResult>,
    cells: Seq<Cell>,
    content: Map<Seq<char>, String>,
    produced: Map<Seq<char>, Artifact>,
    passed: bool,
    evidence: Option<JsonView>,
) -> bool {
    forall|i: int|
        #![trigger results[i]]
        0 <= i < results.len() ==> {
            let id = cells[i].cell_id@;
            let ok = passed && content.contains_key(id);
            &&& results[i].cell_id@ == id
            &&& results[i].passed == ok
            &&& results[i].verdict == if ok {
                CellVerdict::Accepted
            } else {
                CellVerdict::Rejected
            }
            &&& results[i].artifact == if produced.contains_key(id) {
                Some(produced[id])
            } else {
                None
            }
            &&& opt_json(results[i].evidence) == evidence
        }
}

/// The artifact of a cell, returned by value.
pub open spec fn inline_artifact(a: Artifact, cell: Cell, code: Seq<char>) -> bool {
    &&& a.artifact_id@ == artifact_id(cell)
    &&& a.content_hash@ == content_id(vstd::utf8::encode_utf8(code))
    &&& a.delivery matches ArtifactBody::Inline { content } && content@ == code
}

/// What the run has once the due cell produced `code`.
pub open spec fn yields(a: IsolatedRun, code: Seq<char>, b: IsolatedRun) -> bool {
    let id = a.cell().cell_id@;
    &&& b.next == a.next
    &&& exists|text: String|
        #[trigger] a.content@.insert(id, text) == b.content@ && text@ == code
    &&& if a.to_repository() {
        b.produced@ == a.produced@
    } else {
        exists|artifact: Artifact|
            #[trigger] a.produced@.insert(id, artifact) == b.produced@ && inline_artifact(
                artifact,
                a.cell(),
                code,
            )
    }
}

/// The run is due to be logged: its event is numbered and built.
pub open spec fn numbered(
    before: Engine,
    a: IsolatedRun,
    verdict: Verdict,
    results: Seq<CellResult>,
    delivered: Option<DeliveryResult>,
    after: Engine,
    b: IsolatedRun,
) -> bool {
    &&& b.stage == Stage::Log
    &&& after.seq == before.seq + 1
    &&& after.stream@ == before.stream@
    &&& after.verdict_view == before.verdict_view
    &&& b.event matches Some(e) && ran_event(
        e,
        a.unit,
        after.seq as nat,
        a.now@,
        verdict,
        results,
        delivered,
    )
}

/// A run is cut short: the first reason is kept, nothing is emitted any more, and
/// what is still there is taken down.
pub open spec fn aborted(
    before: Engine,
    a: IsolatedRun,
    why: Seq<char>,
    after: Engine,
    b: IsolatedRun,
) -> bool {
    &&& b.same_ground(&a) && b.same_yield(&a) && after.same_stream(&before)
    &&& b.results == a.results && b.delivered == a.delivered && b.verdict == a.verdict
    &&& b.event is None
    &&& match a.failure {
        Some(first) => b.failure == Some(first),
        None => b.failure matches Some(text) && text@ == why,
    }
    &&& b.stage == a.after_failure()
}

/// One step of an isolated run: what the reply to the due effect does to the run
/// and to the engine.
pub open spec fn stepped(
    before: Engine,
    a: IsolatedRun,
    reply: Reply,
    after: Engine,
    b: IsolatedRun,
) -> bool {
    &&& b.same_job(&a)
    &&& after.same_queue(&before)
    &&& after.same_box(&before)
    &&& after.utilization == before.utilization
    &&& if vital(a.stage) && failure_in(reply) is Some {
        aborted(before, a, failure_in(reply)->0, after, b)
    } else {
        went_on(before, a, reply, after, b)
    }
}

/// One step of a run that is not cut short by it.
pub open spec fn went_on(
    before: Engine,
    a: IsolatedRun,
    reply: Reply,
    after: Engine,
    b: IsolatedRun,
) -> bool {
    &&& b.failure == a.failure
    &&& match a.stage {
        Stage::Provision => {
            &&& b.sandbox == a.sandbox.evolved(SandboxEvent::SandboxProvisioned)
            &&& b.lease == a.lease && b.token == a.token
            &&& b.same_yield(&a) && b.same_judgement(&a) && after.same_stream(&before)
            &&& b.stage == a.after_provision()
        },
        Stage::CloneRepository | Stage::SeedWorkspace => {
            &&& b.same_ground(&a) && b.same_yield(&a) && b.same_judgement(&a)
                && after.same_stream(&before)
            &&& b.stage == a.after_seed()
        },
        Stage::Baseline => {
            &&& b.same_ground(&a) && b.same_yield(&a) && b.same_judgement(&a)
                && after.same_stream(&before)
            &&& b.stage == a.after_baseline()
        },
        Stage::Exchange => {
            &&& b.sandbox == a.sandbox
            &&& b.lease == a.lease.evolved(LeaseEvent::CredentialLeased)
            &&& b.token matches Some(t) && t@ == token_in(reply)
            &&& b.same_yield(&a) && b.same_judgement(&a) && after.same_stream(&before)
            &&& b.stage == a.at_cell(a.next as int)
        },
        Stage::Invoke => {
            &&& b.same_ground(&a) && b.same_judgement(&a) && after.same_stream(&before)
            &&& match answer_in(reply) {
                Some(raw) => yields(a, code_of(raw), b) && b.stage == Stage::Write,
                None => b.next == a.next + 1 && b.content == a.content && b.produced == a.produced
                    && b.stage == a.at_cell(a.next + 1),
            }
        },
        Stage::Write => {
            &&& b.same_ground(&a) && b.same_judgement(&a) && after.same_stream(&before)
            &&& b.next == a.next + 1 && b.content == a.content && b.produced == a.produced
            &&& b.stage == a.at_cell(a.next + 1)
        },
        Stage::Verify => {
            &&& b.same_ground(&a) && b.same_yield(&a)
            &&& b.delivered == a.delivered
            &&& b.verdict == run_verdict(a.unit.cell_graph@, a.content@, reply)
            &&& exists|results: Seq<CellResult>|
                {
                    &&& #[trigger] judged(
                        results,
                        a.unit.cell_graph@,
                        a.content@,
                        a.produced@,
                        reply,
                    )
                    &&& if a.after_verify(b.verdict) == Stage::Deliver {
                        &&& b.stage == Stage::Deliver
                        &&& b.results@ == results
                        &&& b.event is None
                        &&& after.same_stream(&before)
                    } else {
                        numbered(before, a, b.verdict, results, None, after, b)
                    }
                }
        },
        Stage::Deliver => {
            &&& b.same_ground(&a) && b.same_yield(&a)
            &&& b.verdict == a.verdict
            &&& b.delivered == landed_in(reply)
            &&& numbered(before, a, a.verdict, a.results@, landed_in(reply), after, b)
        },
        Stage::Log => {
            &&& b.same_ground(&a) && b.same_yield(&a)
            &&& b.verdict == a.verdict && b.delivered == a.delivered && b.event is None
            &&& after.seq == before.seq
            &&& after.verdict_view.emitted == before.verdict_view.emitted + 1
            &&& a.event matches Some(e) && after.stream@ == before.stream@.push(e)
            &&& b.stage == a.after_log()
        },
        Stage::Patch => {
            &&& b.same_ground(&a) && b.same_yield(&a) && b.same_judgement(&a)
                && after.same_stream(&before)
            &&& b.stage == a.after_patch()
        },
        Stage::Revoke => {
            &&& b.sandbox == a.sandbox && b.token == a.token
            &&& b.lease == a.lease.evolved(LeaseEvent::CredentialRevoked)
            &&& b.same_yield(&a) && b.same_judgement(&a) && after.same_stream(&before)
            &&& b.stage == Stage::Teardown
        },
        Stage::Teardown => {
            &&& b.sandbox == a.sandbox.evolved(SandboxEvent::SandboxDestroyed)
            &&& b.lease == a.lease && b.token == a.token
            &&& b.same_yield(&a) && b.same_judgement(&a) && after.same_stream(&before)
            &&& b.stage == Stage::Finish
        },
        Stage::Finish => {
            &&& b.same_ground(&a) && b.same_yield(&a) && b.same_judgement(&a)
                && after.same_stream(&before)
            &&& b.stage == Stage::Finish
        },
    }
}

/// The action is the effect that is due.
pub open spec fn due(run: IsolatedRun, action: Action) -> bool {
    match run.stage {
        Stage::Provision => action == Action::Provision,
        Stage::CloneRepository => action == Action::CloneRepository,
        Stage::SeedWorkspace => action == Action::SeedWorkspace,
        Stage::Baseline => action == Action::CommitBaseline,
        Stage::Exchange => action == Action::ExchangeGrant,
        Stage::Invoke => action matches Action::Invoke { cell, prompt } && cell
            == run.order@[run.next as int] && prompt@ == prompt_text(
            run.unit,
            run.cell(),
            run.content@,
        ),
        Stage::Write => action matches Action::WriteArtifact { path, content } && path@
            == landing(artifact_path(run.cell())) && content@ == if run.content@.contains_key(
            run.cell().cell_id@,
        ) {
            run.content@[run.cell().cell_id@]@
        } else {
            Seq::empty()
        },
        Stage::Verify => action == Action::Verify,
        Stage::Deliver => action == Action::Deliver,
        Stage::Log => action == Action::AppendEvent,
        Stage::Patch => action matches Action::EmitPatch { name } && name@ == patch_file(
            run.unit.unit_ref@,
        ),
        Stage::Revoke => action == Action::RevokeLease,
        Stage::Teardown => action == Action::Teardown,
        Stage::Finish => action == Action::Finish,
    }
}

impl IsolatedRun {
    /// The effect that is due.
    pub fn action(&self) -> (r: Action)
        requires
            self.well_formed(),
        ensures
            due(*self, r),
    {
        match self.stage {
            Stage::Provision => Action::Provision,
            Stage::CloneRepository => Action::CloneRepository,
            Stage::SeedWorkspace => Action::SeedWorkspace,
            Stage::Baseline => Action::CommitBaseline,
            Stage::Exchange => Action::ExchangeGrant,
            Stage::Invoke => {
                let i: usize = self.order[self.next];
                let prompt: String = build_prompt(
                    &self.unit,
                    &self.unit.cell_graph[i],
                    &self.content,
                );
                Action::Invoke { cell: i, prompt }
            },
            Stage::Write => {
                let i: usize = self.order[self.next];
                let cell: &Cell = &self.unit.cell_graph[i];
                let (_, declared) = artifact_id_and_path(cell);
                let path: String = landing_path(declared.as_str());
                let content: String = match self.content.get(cell.cell_id.as_str()) {
                    Some(c) => c.clone(),
                    None => String::new(),
                };
                Action::WriteArtifact { path, content }
            },
            Stage::Verify => Action::Verify,
            Stage::Deliver => Action::Deliver,
            Stage::Log => Action::AppendEvent,
            Stage::Patch => Action::EmitPatch { name: patch_name(self.unit.unit_ref.as_str()) },
            Stage::Revoke => Action::RevokeLease,
            Stage::Teardown => Action::Teardown,
            Stage::Finish => Action::Finish,
        }
    }
}

// ------------------------------------------------------------------ the steps

fn copy_evidence(evidence: &Option<Json>) -> (r: Option<Json>)
    ensures
        opt_json(r) == opt_json(*evidence),
{
    match evidence {
        Some(e) => Some(e.clone()),
        None => None,
    }
}

fn sandbox_step(s: &mut SandboxState, c: SandboxCommand)
    requires
        old(s).decided(c) is Ok,
    ensures
        *final(s) == old(s).evolved(old(s).decided(c)->Ok_0[0]),
{
    if let Ok(events) = s.decide(&c) {
        s.evolve(&events[0]);
    }
}

fn lease_step(s: &mut LeaseState, c: LeaseCommand)
    requires
        old(s).decided(c) is Ok,
    ensures
        *final(s) == old(s).evolved(old(s).decided(c)->Ok_0[0]),
{
    if let Ok(events) = s.decide(&c) {
        s.evolve(&events[0]);
    }
}

fn is_vital(stage: Stage) -> (r: bool)
    ensures
        r == vital(stage),
{
    match stage {
        Stage::Provision | Stage::CloneRepository | Stage::SeedWorkspace | Stage::Log
        | Stage::Teardown => true,
        _ => false,
    }
}

/// The batch of a unit that has cells, formed and dispatched.
fn dispatched(any: bool) -> (r: BatchState)
    ensures
        r.phase == if any {
            BatchPhase::Dispatched
        } else {
            BatchPhase::New
        },
{
    let mut batch: BatchState = BatchState::default();
    if any {
        if let Ok(events) = batch.decide(
            &BatchCommand::Form { homogeneous: true, nonempty: true },
        ) {
            batch.evolve(&events[0]);
        }
        if let Ok(events) = batch.decide(&BatchCommand::Dispatch) {
            batch.evolve(&events[0]);
        }
    }
    batch
}

impl IsolatedRun {
    fn lands_in_repository(&self) -> (r: bool)
        ensures
            r == self.to_repository(),
    {
        match &self.unit.artifact_delivery {
            ArtifactDelivery::Inline => false,
            ArtifactDelivery::Repository { url, base_ref, integration } => true,
        }
    }

    fn stage_at_cell(&self, place: usize) -> (r: Stage)
        ensures
            r == self.at_cell(place as int),
    {
        if place < self.order.len() {
            Stage::Invoke
        } else {
            Stage::Verify
        }
    }

    fn stage_after_baseline(&self) -> (r: Stage)
        ensures
            r == self.after_baseline(),
    {
        if self.unit.credential_grant.is_some() {
            Stage::Exchange
        } else {
            self.stage_at_cell(self.next)
        }
    }

    fn stage_after_seed(&self) -> (r: Stage)
        ensures
            r == self.after_seed(),
    {
        if self.deliveries && !self.lands_in_repository() {
            Stage::Baseline
        } else {
            self.stage_after_baseline()
        }
    }

    fn stage_after_provision(&self) -> (r: Stage)
        ensures
            r == self.after_provision(),
    {
        if self.lands_in_repository() {
            Stage::CloneRepository
        } else if self.seeded {
            Stage::SeedWorkspace
        } else {
            self.stage_after_seed()
        }
    }

    fn stage_after_patch(&self) -> (r: Stage)
        ensures
            r == self.after_patch(),
    {
        if self.token.is_some() {
            Stage::Revoke
        } else {
            Stage::Teardown
        }
    }

    fn stage_after_log(&self) -> (r: Stage)
        ensures
            r == self.after_log(),
    {
        if self.verdict == Verdict::Accepted && !self.lands_in_repository() && self.deliveries {
            Stage::Patch
        } else {
            self.stage_after_patch()
        }
    }

    /// Judges a run by what its cells produced and by the report on the workspace.
    fn judge(&self, report: &GateReport) -> (r: (Verdict, Vec<CellResult>))
        ensures
            r.0 == run_verdict(self.unit.cell_graph@, self.content@, Reply::Report(*report)),
            judged(
                r.1@,
                self.unit.cell_graph@,
                self.content@,
                self.produced@,
                Reply::Report(*report),
            ),
    {
        let passed: bool = report.passed && self.content.len() == self.unit.cell_graph.len();
        let mut results: Vec<CellResult> = Vec::new();
        let mut i: usize = 0;
        while i < self.unit.cell_graph.len()
            invariant
                i <= self.unit.cell_graph@.len(),
                passed == (report.passed && all_produced(self.unit.cell_graph@, self.content@)),
                judged_so_far(
                    results@,
                    self.unit.cell_graph@,
                    self.content@,
                    self.produced@,
                    passed,
                    opt_json(report.evidence),
                ),
                results@.len() == i,
            decreases self.unit.cell_graph@.len() - i,
        {
            let cell: &Cell = &self.unit.cell_graph[i];
            let here: bool = self.content.contains_key(cell.cell_id.as_str());
            let mut r: CellResult = CellResult::gated(cell.cell_id.as_str(), passed && here);
            r.artifact = match self.produced.get(cell.cell_id.as_str()) {
                Some(a) => Some(a.clone()),
                None => None,
            };
            r.evidence = copy_evidence(&report.evidence);
            results.push(r);
            i += 1;
        }
        let verdict: Verdict = if passed {
            Verdict::Accepted
        } else {
            Verdict::Escalate
        };
        (verdict, results)
    }

    fn stage_after_failure(&self) -> (r: Stage)
        ensures
            r == self.after_failure(),
    {
        match self.stage {
            Stage::Provision => Stage::Finish,
            Stage::Teardown => Stage::Finish,
            _ => self.stage_after_patch(),
        }
    }

    /// Cuts the run short.
    fn abort(&mut self, why: &str)
        requires
            old(self).well_formed(),
            vital(old(self).stage),
        ensures
            final(self).well_formed(),
            final(self).same_job(old(self)),
            forall|e: Engine| #[trigger] aborted(e, *old(self), why@, e, *final(self)),
    {
        if self.failure.is_none() {
            self.failure = Some(why.to_owned());
        }
        self.event = None;
        self.stage = self.stage_after_failure();
    }

    /// Takes note of what the due cell produced.
    fn keep(&mut self, code: String)
        requires
            old(self).well_formed(),
            old(self).stage == Stage::Invoke,
        ensures
            yields(*old(self), code@, *final(self)),
            final(self).accounted(),
            final(self).same_job(old(self)),
            final(self).same_ground(old(self)),
            final(self).attributed(),
            final(self).same_judgement(old(self)),
            final(self).stage == old(self).stage,
            final(self).failure == old(self).failure,
    {
        let i: usize = self.order[self.next];
        let id: String = self.unit.cell_graph[i].cell_id.clone();
        let ghost key = id@;
        assert(names_cell(self.unit.cell_graph@, key)) by {
            assert(self.unit.cell_graph@[i as int].cell_id@ == key);
        }
        let ghost code_view = code@;
        let ghost before_content = self.content@;
        let ghost before_produced = self.produced@;
        if !self.lands_in_repository() {
            let (artifact_id, _) = artifact_id_and_path(&self.unit.cell_graph[i]);
            let artifact = Artifact {
                artifact_id,
                content_hash: text_hash(code.as_str()),
                delivery: ArtifactBody::Inline { content: code.clone() },
            };
            let ghost kept = artifact;
            self.produced.insert(id.clone(), artifact);
            self.content.insert(id, code);
            proof {
                assert(before_produced.insert(key, kept) == self.produced@);
                assert(inline_artifact(kept, old(self).cell(), code_view));
                assert(before_content.insert(key, code) == self.content@);
                assert(self.produced@.dom() =~= self.content@.dom());
            }
        } else {
            self.content.insert(id, code);
            proof {
                assert(before_content.insert(key, code) == self.content@);
            }
        }
    }
}

/// How a drain begins.
pub enum Start {
    /// There is nothing to run.
    Settled(DrainOutcome),
    /// The unit was answered as not admitted; its event, the last on the stream,
    /// is still to be logged.
    Refused(DrainOutcome),
    /// The unit is to be run.
    Running(IsolatedRun),
}

/// A run at its beginning.
pub open spec fn begun(
    run: IsolatedRun,
    unit: WorkUnit,
    now: Seq<char>,
    seeded: bool,
    deliveries: bool,
) -> bool {
    &&& run.unit == unit
    &&& run.now@ == now
    &&& run.seeded == seeded
    &&& run.deliveries == deliveries
    &&& run.untouched()
    &&& run.well_formed()
}

impl Engine {
    /// Begins to drain one unit, in queue mode only. `seeded` says whether there is
    /// a seed for the workspace, `deliveries` whether accepted inline runs leave a
    /// patch.
    pub fn drain_one_isolated(&mut self, seeded: bool, deliveries: bool, now: &str) -> (r: Start)
        requires
            old(self).has_room(),
        ensures
            old(self).consistent() ==> final(self).consistent(),
            if old(self).mode != Mode::Queue {
                &&& r matches Start::Settled(o) && o == DrainOutcome::NotQueueMode
                &&& final(self).same_as(old(self))
            } else if old(self).priority_set@.len() == 0 {
                &&& r matches Start::Settled(o) && o == DrainOutcome::Idle
                &&& final(self).same_as(old(self))
            } else if old(self).manifest.distance(old(self).priority_set@[0]) != Set::<
                Seq<char>,
            >::empty() {
                r matches Start::Refused(o) && final(self).refused_front(old(self), now@, o)
            } else {
                &&& r matches Start::Running(run) && begun(
                    run,
                    old(self).priority_set@[0],
                    now@,
                    seeded,
                    deliveries,
                )
                &&& final(self).same_stream(old(self))
                &&& final(self).same_box(old(self))
                &&& final(self).heterogeneity_view == old(self).heterogeneity_view
                &&& final(self).priority_set@ == old(self).priority_set@.remove(0)
                &&& final(self).priority_view.queued == old(self).priority_view.queued - 1
                &&& final(self).utilization == crate::executor::UtilizationView {
                    in_flight: (old(self).utilization.in_flight + 1) as i64,
                    ..old(self).utilization
                }
            },
    {
        if self.mode != Mode::Queue {
            return Start::Settled(DrainOutcome::NotQueueMode);
        }
        if self.priority_set.len() == 0 {
            return Start::Settled(DrainOutcome::Idle);
        }
        let unit: WorkUnit = match self.take_front(now) {
            Ok(unit) => unit,
            Err(refused) => {
                return Start::Refused(refused);
            },
        };
        self.utilization.in_flight += 1;
        let order: Vec<usize> = topo_order(unit.cell_graph.as_slice());
        let batch: BatchState = dispatched(unit.cell_graph.len() > 0);
        let produced: StrMap<Artifact> = StrMap::new();
        let content: StrMap<String> = StrMap::new();
        assert(produced@.dom() =~= content@.dom());
        Start::Running(
            IsolatedRun {
                unit,
                now: now.to_owned(),
                seeded,
                deliveries,
                stage: Stage::Provision,
                sandbox: SandboxState::default(),
                lease: LeaseState::default(),
                batch,
                token: None,
                order,
                next: 0,
                produced,
                content,
                results: Vec::new(),
                delivered: None,
                event: None,
                verdict: Verdict::Escalate,
                failure: None,
            },
        )
    }

    /// Numbers and builds the event of a run that is due to be logged.
    fn number(
        &mut self,
        run: &mut IsolatedRun,
        results: Vec<CellResult>,
        delivered: Option<DeliveryResult>,
    )
        requires
            old(self).seq < u64::MAX,
        ensures
            final(run).event matches Some(e) && ran_event(
                e,
                old(run).unit,
                final(self).seq as nat,
                old(run).now@,
                old(run).verdict,
                results@,
                delivered,
            ),
            final(run).failure == old(run).failure,
            final(run).stage == Stage::Log,
            final(run).same_job(old(run)),
            final(run).same_ground(old(run)),
            final(run).same_yield(old(run)),
            final(run).verdict == old(run).verdict,
            final(run).delivered == old(run).delivered,
            final(self).seq == old(self).seq + 1,
            final(self).stream@ == old(self).stream@,
            final(self).verdict_view == old(self).verdict_view,
            final(self).same_queue(old(self)),
            final(self).same_box(old(self)),
            final(self).utilization == old(self).utilization,
    {
        let event: VerdictEvent = self.verdict_event(
            &run.unit,
            run.verdict,
            results,
            delivered,
            run.now.as_str(),
        );
        run.event = Some(event);
        run.stage = Stage::Log;
    }

    /// Takes one step of a run: the reply to the effect that was due.
    pub fn advance(&mut self, run: &mut IsolatedRun, reply: Reply)
        requires
            old(run).well_formed(),
            old(run).stage == Stage::Verify || old(run).stage == Stage::Deliver ==> old(self).seq
                < u64::MAX,
            old(run).stage == Stage::Log ==> old(self).verdict_view.emitted < i64::MAX,
        ensures
            final(run).well_formed(),
            stepped(*old(self), *old(run), reply, *final(self), *final(run)),
            old(self).consistent() ==> final(self).consistent(),
    {
        if let Reply::Failed(why) = &reply {
            if is_vital(run.stage) {
                run.abort(why.as_str());
                return;
            }
        }
        match run.stage {
            Stage::Provision => {
                run.stage = run.stage_after_provision();
                sandbox_step(
                    &mut run.sandbox,
                    SandboxCommand::Provision { network_declared: true },
                );
            },
            Stage::CloneRepository => {
                run.stage = run.stage_after_seed();
            },
            Stage::SeedWorkspace => {
                run.stage = run.stage_after_seed();
            },
            Stage::Baseline => {
                run.stage = run.stage_after_baseline();
            },
            Stage::Exchange => {
                run.stage = run.stage_at_cell(run.next);
                lease_step(&mut run.lease, LeaseCommand::Exchange { sandbox_active: true });
                run.token = match reply {
                    Reply::Token(t) => Some(t),
                    _ => Some(String::new()),
                };
            },
            Stage::Invoke => {
                match reply {
                    Reply::Answer(Ok(raw)) => {
                        run.keep(strip_code_fences(raw.as_str()));
                        run.stage = Stage::Write;
                    },
                    _ => {
                        let n: usize = run.order.len();
                        assert(run.next < n);
                        run.next += 1;
                        run.stage = run.stage_at_cell(run.next);
                    },
                }
            },
            Stage::Write => {
                let n: usize = run.order.len();
                assert(run.next < n);
                run.next += 1;
                run.stage = run.stage_at_cell(run.next);
            },
            Stage::Verify => {
                let report: GateReport = match reply {
                    Reply::Report(report) => report,
                    _ => GateReport { passed: false, evidence: None },
                };
                let (verdict, results) = run.judge(&report);
                let ghost judgement = results@;
                assert(judged(
                    judgement,
                    old(run).unit.cell_graph@,
                    old(run).content@,
                    old(run).produced@,
                    reply,
                ));
                run.verdict = verdict;
                if run.lands_in_repository() && run.verdict == Verdict::Accepted {
                    run.results = results;
                    run.stage = Stage::Deliver;
                } else {
                    self.number(run, results, None);
                }
            },
            Stage::Deliver => {
                let delivered: Option<DeliveryResult> = match reply {
                    Reply::Delivered(d) => d,
                    _ => None,
                };
                let mut results: Vec<CellResult> = Vec::new();
                std::mem::swap(&mut results, &mut run.results);
                run.delivered = copy_landing(&delivered);
                self.number(run, results, delivered);
            },
            Stage::Log => {
                let mut event: Option<VerdictEvent> = None;
                std::mem::swap(&mut event, &mut run.event);
                if let Some(e) = event {
                    self.emit(e);
                }
                run.stage = run.stage_after_log();
            },
            Stage::Patch => {
                run.stage = run.stage_after_patch();
            },
            Stage::Revoke => {
                lease_step(&mut run.lease, LeaseCommand::Revoke);
                run.stage = Stage::Teardown;
            },
            Stage::Teardown => {
                sandbox_step(&mut run.sandbox, SandboxCommand::Teardown);
                run.stage = Stage::Finish;
            },
            Stage::Finish => {},
        }
    }

    /// Ends a run: the unit leaves flight and is settled by its verdict. The error
    /// says why a run was cut short; its unit is not queued again.
    pub fn finish_isolated(&mut self, run: IsolatedRun) -> (r: Result<DrainOutcome, String>)
        requires
            run.stage == Stage::Finish,
            run.failure is None && run.verdict != Verdict::Accepted && run.unit.ladder_position
                < MAX_LADDER ==> old(self).priority_view.queued < i64::MAX,
            old(self).utilization.in_flight > i64::MIN,
        ensures
            old(self).consistent() && run.unit.fault() is None ==> final(self).consistent(),
            final(self).same_stream(old(self)),
            final(self).same_box(old(self)),
            final(self).heterogeneity_view == old(self).heterogeneity_view,
            final(self).utilization == (crate::executor::UtilizationView {
                in_flight: (old(self).utilization.in_flight - 1) as i64,
                ..old(self).utilization
            }),
            match run.failure {
                Some(why) => r == Err::<DrainOutcome, String>(why) && final(self).priority_set@
                    == old(self).priority_set@,
                None => r matches Ok(outcome) && settled(
                    old(self).priority_set@,
                    run.unit,
                    run.verdict,
                    final(self).priority_set@,
                    outcome,
                ),
            },
            final(self).priority_view.queued == old(self).priority_view.queued + (
            final(self).priority_set@.len() - old(self).priority_set@.len()),
    {
        self.utilization.in_flight -= 1;
        match run.failure {
            Some(why) => Err(why),
            None => Ok(self.settle(run.unit, run.verdict)),
        }
    }
}

fn copy_landing(d: &Option<DeliveryResult>) -> (r: Option<DeliveryResult>)
    ensures
        r == *d,
{
    match d {
        Some(d) => Some(
            DeliveryResult {
                branch: d.branch.clone(),
                commit: d.commit.clone(),
                pr_url: d.pr_url.clone(),
            },
        ),
        None => None,
    }
}

// ---------------------------------------------------------------------- laws

/// How much of a run is left at most.
pub open spec fn work_left(run: IsolatedRun) -> int {
    let cells = run.order@.len() - run.next;
    match run.stage {
        Stage::Provision => 20 + 2 * cells,
        Stage::CloneRepository => 19 + 2 * cells,
        Stage::SeedWorkspace => 19 + 2 * cells,
        Stage::Baseline => 18 + 2 * cells,
        Stage::Exchange => 17 + 2 * cells,
        Stage::Invoke => 10 + 2 * cells,
        Stage::Write => 9 + 2 * cells,
        Stage::Verify => 8,
        Stage::Deliver => 7,
        Stage::Log => 6,
        Stage::Patch => 5,
        Stage::Revoke => 4,
        Stage::Teardown => 3,
        Stage::Finish => 0,
    }
}

/// Every step brings a run nearer to its end, whatever the reply: a run ends
/// after at most `work_left` steps.
pub proof fn law_a_run_comes_to_its_end(
    before: Engine,
    a: IsolatedRun,
    reply: Reply,
    after: Engine,
    b: IsolatedRun,
)
    requires
        a.well_formed(),
        a.stage != Stage::Finish,
        stepped(before, a, reply, after, b),
    ensures
        0 <= work_left(b) < work_left(a),
{
}

/// Credentials are exchanged, artifacts written, and the workspace verified and
/// delivered, only while the sandbox stands; and an artifact is written at a
/// relative path that never climbs above the workspace and ends below it.
pub proof fn law_effects_land_inside_the_sandbox(run: IsolatedRun, action: Action)
    requires
        run.well_formed(),
        run.stage != Stage::Provision,
        run.stage != Stage::Finish,
        due(run, action),
    ensures
        run.sandbox.phase == SandboxPhase::Provisioned,
        action matches Action::WriteArtifact { path, content } ==> stays_inside(path@),
{
    law_an_artifact_lands_inside(artifact_path(run.cell()));
}

/// What a cell produced stays for the cells that depend on it: no step loses it.
pub proof fn law_what_was_produced_stays(
    before: Engine,
    a: IsolatedRun,
    reply: Reply,
    after: Engine,
    b: IsolatedRun,
    id: Seq<char>,
)
    requires
        stepped(before, a, reply, after, b),
        a.content@.contains_key(id),
    ensures
        b.content@.contains_key(id),
{
    if a.stage == Stage::Invoke && answer_in(reply) is Some {
        let cell = a.cell().cell_id@;
        let text = choose|text: String|
            #[trigger] a.content@.insert(cell, text) == b.content@ && text@ == code_of(
                answer_in(reply)->0,
            );
        assert(a.content@.insert(cell, text).contains_key(id));
    }
}

/// The ids of the cells, in their order.
pub open spec fn cell_ids(cells: Seq<Cell>) -> Seq<Seq<char>> {
    cells.map_values(|c: Cell| c.cell_id@)
}

/// Where the cells have different ids, all of them produced something exactly if
/// each is among those that did.
pub proof fn law_all_produced_means_each(run: IsolatedRun)
    requires
        run.attributed(),
        cell_ids(run.unit.cell_graph@).no_duplicates(),
    ensures
        all_produced(run.unit.cell_graph@, run.content@) <==> forall|i: int|
            0 <= i < run.unit.cell_graph@.len() ==> run.content@.contains_key(
                (#[trigger] run.unit.cell_graph@[i]).cell_id@,
            ),
{
    let cells = run.unit.cell_graph@;
    lemma_attributed(run);
    cell_ids(cells).unique_seq_to_set();
    let ids = cell_ids(cells).to_set();
    let dom = run.content@.dom();
    if all_produced(cells, run.content@) {
        vstd::set_lib::lemma_subset_equality(dom, ids);
        assert forall|i: int| 0 <= i < cells.len() implies run.content@.contains_key(
            (#[trigger] cells[i]).cell_id@,
        ) by {
            assert(cell_ids(cells)[i] == cells[i].cell_id@);
            assert(ids.contains(cells[i].cell_id@));
        }
    } else if forall|i: int|
        0 <= i < cells.len() ==> run.content@.contains_key((#[trigger] cells[i]).cell_id@) {
        assert forall|id: Seq<char>| ids.contains(id) implies dom.contains(id) by {
            let i = choose|i: int| 0 <= i < cells.len() && cell_ids(cells)[i] == id;
            assert(cells[i].cell_id@ == id);
        }
        assert(dom =~= ids);
    }
}

proof fn lemma_attributed(run: IsolatedRun)
    requires
        run.attributed(),
    ensures
        run.content@.dom().subset_of(cell_ids(run.unit.cell_graph@).to_set()),
        cell_ids(run.unit.cell_graph@).to_set().finite(),
        run.content@.dom().len() <= cell_ids(run.unit.cell_graph@).to_set().len()
            <= run.unit.cell_graph@.len(),
{
    let cells = run.unit.cell_graph@;
    let ids = cell_ids(cells).to_set();
    let dom = run.content@.dom();
    vstd::seq_lib::seq_to_set_is_finite(cell_ids(cells));
    assert forall|id: Seq<char>| dom.contains(id) implies ids.contains(id) by {
        let i = choose|i: int| 0 <= i < cells.len() && (#[trigger] cells[i]).cell_id@ == id;
        assert(cell_ids(cells)[i] == id);
    }
    vstd::set_lib::lemma_len_subset(dom, ids);
    cell_ids(cells).lemma_cardinality_of_set();
}

/// A unit is accepted only if the oracle passed the workspace and every cell
/// produced something; then each of its results passed.
pub proof fn law_accepted_means_verified(
    run: IsolatedRun,
    results: Seq<CellResult>,
    reply: Reply,
)
    requires
        run.attributed(),
        judged(results, run.unit.cell_graph@, run.content@, run.produced@, reply),
        run_verdict(run.unit.cell_graph@, run.content@, reply) == Verdict::Accepted,
    ensures
        passed_in(reply),
        forall|i: int|
            0 <= i < run.unit.cell_graph@.len() ==> run.content@.contains_key(
                (#[trigger] run.unit.cell_graph@[i]).cell_id@,
            ),
        unit_verdict(results) == Verdict::Accepted,
{
    let cells = run.unit.cell_graph@;
    let ids = cell_ids(cells);
    lemma_attributed(run);
    vstd::set_lib::lemma_subset_equality(run.content@.dom(), ids.to_set());
    assert forall|i: int| 0 <= i < cells.len() implies run.content@.contains_key(
        (#[trigger] cells[i]).cell_id@,
    ) by {
        assert(ids[i] == cells[i].cell_id@);
        assert(ids.to_set().contains(ids[i]));
    }
    assert forall|i: int| 0 <= i < results.len() implies (#[trigger] results[i]).passed by {
        assert(run.content@.contains_key(cells[i].cell_id@));
    }
}

/// Where the oracle does not pass the workspace, no unit is accepted, whatever its
/// cells produced and whether it has any.
pub proof fn law_what_the_oracle_fails_is_not_accepted(
    cells: Seq<Cell>,
    content: Map<Seq<char>, String>,
    reply: Reply,
)
    requires
        !passed_in(reply),
    ensures
        run_verdict(cells, content, reply) == Verdict::Escalate,
{
}

/// A unit with cells has the verdict that its results reduce to.
pub proof fn law_a_run_is_judged_by_its_cells(
    run: IsolatedRun,
    results: Seq<CellResult>,
    reply: Reply,
)
    requires
        run.attributed(),
        judged(results, run.unit.cell_graph@, run.content@, run.produced@, reply),
        run.unit.cell_graph@.len() > 0,
    ensures
        run_verdict(run.unit.cell_graph@, run.content@, reply) == unit_verdict(results),
{
    if run_verdict(run.unit.cell_graph@, run.content@, reply) == Verdict::Accepted {
        law_accepted_means_verified(run, results, reply);
    } else {
        assert(!results[0].passed);
    }
}

/// A run into a repository returns refs and no payloads: no result carries an
/// artifact.
pub proof fn law_repository_results_carry_no_artifact(
    run: IsolatedRun,
    results: Seq<CellResult>,
    reply: Reply,
)
    requires
        run.well_formed(),
        run.to_repository(),
        judged(results, run.unit.cell_graph@, run.content@, run.produced@, reply),
    ensures
        forall|i: int| 0 <= i < results.len() ==> (#[trigger] results[i]).artifact is None,
{
}

/// An inline run returns what each cell produced by value, under the hash of
/// that content.
pub proof fn law_inline_results_carry_hashed_artifacts(
    run: IsolatedRun,
    results: Seq<CellResult>,
    reply: Reply,
    i: int,
)
    requires
        run.well_formed(),
        !run.to_repository(),
        judged(results, run.unit.cell_graph@, run.content@, run.produced@, reply),
        0 <= i < results.len(),
    ensures
        ({
            let id = run.unit.cell_graph@[i].cell_id@;
            match results[i].artifact {
                Some(a) => {
                    &&& run.content@.contains_key(id)
                    &&& a.content_hash@ == content_id(
                        vstd::utf8::encode_utf8(run.content@[id]@),
                    )
                    &&& a.delivery == (ArtifactBody::Inline { content: run.content@[id] })
                },
                None => !run.content@.contains_key(id),
            }
        }),
{
    let id = run.unit.cell_graph@[i].cell_id@;
    assert(results[i].cell_id@ == id);
    assert(run.produced@.dom().contains(id) <==> run.content@.dom().contains(id));
}

/// A run as a list of states, each a step after the one before it.
pub open spec fn history(states: Seq<(Engine, IsolatedRun)>, replies: Seq<Reply>) -> bool {
    &&& states.len() == replies.len() + 1
    &&& states[0].1.well_formed()
    &&& states[0].1.untouched()
    &&& forall|k: int|
        0 <= k < replies.len() ==> #[trigger] stepped(
            states[k].0,
            states[k].1,
            replies[k],
            states[k + 1].0,
            states[k + 1].1,
        ) && states[k + 1].1.well_formed()
}

proof fn lemma_history_step(states: Seq<(Engine, IsolatedRun)>, replies: Seq<Reply>, n: int)
    requires
        history(states, replies),
        0 < n <= replies.len(),
    ensures
        stepped(states[n - 1].0, states[n - 1].1, replies[n - 1], states[n].0, states[n].1),
        states[n].1.well_formed(),
        states[n - 1].1.well_formed(),
{
    assert(stepped(
        states[n - 1].0,
        states[n - 1].1,
        replies[n - 1],
        states[n - 1 + 1].0,
        states[n - 1 + 1].1,
    ));
    if n > 1 {
        assert(stepped(
            states[n - 2].0,
            states[n - 2].1,
            replies[n - 2],
            states[n - 2 + 1].0,
            states[n - 2 + 1].1,
        ));
    }
}

// What is set up and taken down.

/// How often the effect of a stage was performed in the first `n` steps.
pub open spec fn times(states: Seq<(Engine, IsolatedRun)>, stage: Stage, n: nat) -> nat
    decreases n,
{
    if n == 0 {
        0
    } else {
        times(states, stage, (n - 1) as nat) + if states[n - 1].1.stage == stage {
            1nat
        } else {
            0nat
        }
    }
}

/// How often credentials were exchanged and revoked, and the sandbox torn down,
/// as far as the run has come.
spec fn tallied(states: Seq<(Engine, IsolatedRun)>, replies: Seq<Reply>, n: nat) -> bool {
    let run = states[n as int].1;
    &&& times(states, Stage::Exchange, n) == if run.lease.phase == LeasePhase::Absent {
        0nat
    } else {
        1nat
    }
    &&& times(states, Stage::Revoke, n) == if run.lease.phase == LeasePhase::Revoked {
        1nat
    } else {
        0nat
    }
    &&& n > 0 ==> run.stage != Stage::Provision
    &&& n > 0 && failure_in(replies[0]) is Some ==> run.stage == Stage::Finish
    &&& times(states, Stage::Teardown, n) == if run.stage == Stage::Finish && failure_in(
        replies[0],
    ) is None {
        1nat
    } else {
        0nat
    }
    &&& run.stage == Stage::Finish && (forall|k: int|
        0 <= k < n && (#[trigger] states[k]).1.stage == Stage::Teardown ==> failure_in(replies[k])
            is None) && failure_in(replies[0]) is None ==> run.sandbox.phase
        == SandboxPhase::Destroyed
    &&& states[n as int].0.utilization == states[0].0.utilization
}

proof fn lemma_tallied(states: Seq<(Engine, IsolatedRun)>, replies: Seq<Reply>, n: nat)
    requires
        history(states, replies),
        n <= replies.len(),
    ensures
        tallied(states, replies, n),
    decreases n,
{
    if n > 0 {
        let m = (n - 1) as nat;
        lemma_tallied(states, replies, m);
        lemma_history_step(states, replies, n as int);
        let b = states[n as int].1;
        let a = states[m as int].1;
        if b.stage == Stage::Finish && (forall|k: int|
            0 <= k < n && (#[trigger] states[k]).1.stage == Stage::Teardown ==> failure_in(
                replies[k],
            ) is None) && failure_in(replies[0]) is None {
            assert(states[m as int].1.stage == Stage::Teardown ==> failure_in(replies[m as int])
                is None);
            assert(b.sandbox.phase == SandboxPhase::Destroyed);
        }
    }
}

/// Nothing standing survives a run, however it went. Once a sandbox was
/// provisioned the run tears it down, exactly once; every credential that was
/// exchanged is revoked, exactly once; and no more is in flight than at the start.
/// At the end no credential is held, and the sandbox is gone unless its teardown
/// itself failed.
pub proof fn law_nothing_standing_survives(
    states: Seq<(Engine, IsolatedRun)>,
    replies: Seq<Reply>,
)
    requires
        history(states, replies),
        states.last().1.stage == Stage::Finish,
    ensures
        ({
            let n = replies.len();
            let (end, run) = states.last();
            &&& failure_in(replies[0]) is None ==> times(states, Stage::Teardown, n) == 1
            &&& times(states, Stage::Revoke, n) == times(states, Stage::Exchange, n)
            &&& times(states, Stage::Exchange, n) <= 1
            &&& run.lease.phase != LeasePhase::Leased
            &&& end.utilization == states[0].0.utilization
            &&& failure_in(replies[0]) is None && (forall|k: int|
                0 <= k < n && (#[trigger] states[k]).1.stage == Stage::Teardown ==> failure_in(
                    replies[k],
                ) is None) ==> run.sandbox.phase == SandboxPhase::Destroyed
        }),
{
    lemma_tallied(states, replies, replies.len());
    if replies.len() > 0 {
        lemma_history_step(states, replies, replies.len() as int);
    }
}

// What decides the verdict.

/// The worker answered each of the cells it was asked for in the first `n` steps.
pub open spec fn all_answered(
    states: Seq<(Engine, IsolatedRun)>,
    replies: Seq<Reply>,
    n: nat,
) -> bool {
    forall|k: int|
        0 <= k < n && (#[trigger] states[k]).1.stage == Stage::Invoke ==> answer_in(replies[k])
            is Some
}

/// The oracle passed the workspace, where it was asked in the first `n` steps.
pub open spec fn all_passed_by_oracle(
    states: Seq<(Engine, IsolatedRun)>,
    replies: Seq<Reply>,
    n: nat,
) -> bool {
    forall|k: int|
        0 <= k < n && (#[trigger] states[k]).1.stage == Stage::Verify ==> passed_in(replies[k])
}

/// The stages up to the verdict.
spec fn unjudged(stage: Stage) -> bool {
    match stage {
        Stage::Provision | Stage::CloneRepository | Stage::SeedWorkspace | Stage::Baseline
        | Stage::Exchange | Stage::Invoke | Stage::Write | Stage::Verify => true,
        _ => false,
    }
}

/// How many cells have been asked for.
spec fn asked(run: IsolatedRun) -> int {
    if run.stage == Stage::Write {
        run.next + 1
    } else {
        run.next as int
    }
}

spec fn id_at(run: IsolatedRun, p: int) -> Seq<char> {
    run.unit.cell_graph@[run.order@[p] as int].cell_id@
}

/// Of the cells asked for, those that answered are those that produced something.
spec fn followed(states: Seq<(Engine, IsolatedRun)>, replies: Seq<Reply>, n: nat) -> bool {
    let run = states[n as int].1;
    &&& run.same_job(&states[0].1)
    &&& times(states, Stage::Invoke, n) == asked(run)
    &&& run.failure is None ==> times(states, Stage::Verify, n) == if unjudged(run.stage) {
        0nat
    } else {
        1nat
    }
    &&& forall|p: int|
        0 <= p < run.order@.len() && run.content@.contains_key(#[trigger] id_at(run, p)) ==> p
            < asked(run)
    &&& all_answered(states, replies, n) <==> (forall|p: int|
        0 <= p < asked(run) ==> run.content@.contains_key(#[trigger] id_at(run, p)))
    &&& unjudged(run.stage) ==> forall|k: int|
        0 <= k < n ==> (#[trigger] states[k]).1.stage != Stage::Verify
    &&& !unjudged(run.stage) && run.failure is None ==> run.next == run.order@.len()
        && run.verdict == if all_answered(states, replies, n) && all_passed_by_oracle(
        states,
        replies,
        n,
    ) {
        Verdict::Accepted
    } else {
        Verdict::Escalate
    }
}

proof fn lemma_ids_differ(run: IsolatedRun, p: int, q: int)
    requires
        run.ordered(),
        cell_ids(run.unit.cell_graph@).no_duplicates(),
        0 <= p < run.order@.len(),
        0 <= q < run.order@.len(),
        id_at(run, p) == id_at(run, q),
    ensures
        p == q,
{
    let ids = cell_ids(run.unit.cell_graph@);
    law_each_cell_is_run_once(run.unit.cell_graph@);
    assert(ids[run.order@[p] as int] == id_at(run, p));
    assert(ids[run.order@[q] as int] == id_at(run, q));
    assert(indices(run.order@)[p] == run.order@[p]);
    assert(indices(run.order@)[q] == run.order@[q]);
}

/// Of a run whose cells were all asked for, each cell produced something exactly
/// if each in the order did.
proof fn lemma_each_in_order(run: IsolatedRun)
    requires
        run.ordered(),
    ensures
        (forall|p: int|
            0 <= p < run.order@.len() ==> run.content@.contains_key(#[trigger] id_at(run, p)))
            <==> forall|i: int|
            0 <= i < run.unit.cell_graph@.len() ==> run.content@.contains_key(
                (#[trigger] run.unit.cell_graph@[i]).cell_id@,
            ),
{
    let cells = run.unit.cell_graph@;
    law_each_cell_is_run_once(cells);
    if forall|p: int|
        0 <= p < run.order@.len() ==> run.content@.contains_key(#[trigger] id_at(run, p)) {
        assert forall|i: int| 0 <= i < cells.len() implies run.content@.contains_key(
            (#[trigger] cells[i]).cell_id@,
        ) by {
            let order = indices(run.order@);
            assert(run_order(cells).contains(i));
            let p = choose|p: int| 0 <= p < order.len() && order[p] == i;
            assert(run.order@[p] == i);
            assert(id_at(run, p) == cells[i].cell_id@);
        }
    }
}

proof fn lemma_followed(states: Seq<(Engine, IsolatedRun)>, replies: Seq<Reply>, n: nat)
    requires
        history(states, replies),
        cell_ids(states[0].1.unit.cell_graph@).no_duplicates(),
        n <= replies.len(),
    ensures
        followed(states, replies, n),
    decreases n,
{
    if n > 0 {
        let m = (n - 1) as nat;
        lemma_followed(states, replies, m);
        lemma_history_step(states, replies, n as int);
        let a = states[m as int].1;
        let b = states[n as int].1;
        let reply = replies[m as int];
        assert forall|p: int| #[trigger] id_at(b, p) == id_at(a, p) by {}
        lemma_followed_yield(states, replies, n);
        if a.stage == Stage::Verify {
            lemma_each_in_order(a);
            law_all_produced_means_each(a);
            assert(all_passed_by_oracle(states, replies, n) <==> passed_in(reply)) by {
                assert(states[m as int].1.stage == Stage::Verify);
            }
        } else {
            assert(all_passed_by_oracle(states, replies, n) <==> all_passed_by_oracle(
                states,
                replies,
                m,
            )) by {
                if all_passed_by_oracle(states, replies, m) {
                    assert(states[m as int].1.stage != Stage::Verify);
                }
            }
        }
    }
}

proof fn lemma_followed_yield(states: Seq<(Engine, IsolatedRun)>, replies: Seq<Reply>, n: nat)
    requires
        history(states, replies),
        cell_ids(states[0].1.unit.cell_graph@).no_duplicates(),
        0 < n <= replies.len(),
        followed(states, replies, (n - 1) as nat),
    ensures
        ({
            let run = states[n as int].1;
            &&& forall|p: int|
                0 <= p < run.order@.len() && run.content@.contains_key(#[trigger] id_at(run, p))
                    ==> p < asked(run)
            &&& all_answered(states, replies, n) <==> (forall|p: int|
                0 <= p < asked(run) ==> run.content@.contains_key(#[trigger] id_at(run, p)))
            &&& states[n - 1].1.stage != Stage::Invoke ==> all_answered(states, replies, n)
                == all_answered(states, replies, (n - 1) as nat)
        }),
{
    let m = (n - 1) as nat;
    lemma_history_step(states, replies, n as int);
    let a = states[m as int].1;
    let b = states[n as int].1;
    let reply = replies[m as int];
    assert forall|p: int| #[trigger] id_at(b, p) == id_at(a, p) by {}
    if a.stage == Stage::Invoke {
        let next = a.next as int;
        assert(id_at(a, next) == a.cell().cell_id@);
        if answer_in(reply) is Some {
            let text = choose|text: String|
                #[trigger] a.content@.insert(id_at(a, next), text) == b.content@ && text@
                    == code_of(answer_in(reply)->0);
            assert(asked(b) == next + 1);
            assert forall|p: int|
                0 <= p < b.order@.len() && b.content@.contains_key(
                    #[trigger] id_at(b, p),
                ) implies p < asked(b) by {
                if a.content@.contains_key(id_at(a, p)) {
                } else {
                    lemma_ids_differ(a, p, next);
                }
            }
            assert forall|p: int| 0 <= p < next implies (b.content@.contains_key(
                #[trigger] id_at(b, p),
            ) <==> a.content@.contains_key(id_at(a, p))) by {
                if id_at(a, p) == id_at(a, next) {
                    lemma_ids_differ(a, p, next);
                }
            }
            assert(b.content@.contains_key(id_at(b, next)));
            assert(all_answered(states, replies, n) <==> all_answered(states, replies, m)) by {
                if all_answered(states, replies, m) {
                    assert(answer_in(replies[m as int]) is Some);
                }
            }
            if all_answered(states, replies, m) {
                assert forall|p: int| 0 <= p < asked(b) implies b.content@.contains_key(
                    #[trigger] id_at(b, p),
                ) by {
                    if p < next {
                        assert(a.content@.contains_key(id_at(a, p)));
                    }
                }
            }
            if forall|p: int|
                0 <= p < asked(b) ==> b.content@.contains_key(#[trigger] id_at(b, p)) {
                assert forall|p: int| 0 <= p < asked(a) implies a.content@.contains_key(
                    #[trigger] id_at(a, p),
                ) by {
                    assert(b.content@.contains_key(id_at(b, p)));
                }
            }
        } else {
            assert(asked(b) == next + 1);
            assert(!all_answered(states, replies, n)) by {
                assert(states[m as int].1.stage == Stage::Invoke);
            }
            assert(!b.content@.contains_key(id_at(b, next)));
        }
    } else {
        assert(b.content@ == a.content@);
        assert(asked(b) == asked(a));
        if all_answered(states, replies, m) {
            assert forall|p: int| 0 <= p < asked(b) implies b.content@.contains_key(
                #[trigger] id_at(b, p),
            ) by {
                assert(a.content@.contains_key(id_at(a, p)));
            }
        }
        if forall|p: int| 0 <= p < asked(b) ==> b.content@.contains_key(#[trigger] id_at(b, p)) {
            assert forall|p: int| 0 <= p < asked(a) implies a.content@.contains_key(
                #[trigger] id_at(a, p),
            ) by {
                assert(b.content@.contains_key(id_at(b, p)));
            }
        }
        assert(all_answered(states, replies, n) <==> all_answered(states, replies, m)) by {
            if all_answered(states, replies, m) {
                assert(states[m as int].1.stage != Stage::Invoke);
            }
        }
    }
}

/// The oracle is the decisive gate: a unit whose run comes to its end without being
/// cut short is accepted if and only if the worker answered for every cell and the
/// oracle passed the workspace; else it escalates. The worker is asked once for
/// each cell, and the oracle once.
pub proof fn law_accepted_if_and_only_if_answered_and_verified(
    states: Seq<(Engine, IsolatedRun)>,
    replies: Seq<Reply>,
)
    requires
        history(states, replies),
        states.last().1.stage == Stage::Finish,
        states.last().1.failure is None,
        cell_ids(states[0].1.unit.cell_graph@).no_duplicates(),
    ensures
        states.last().1.verdict == if all_answered(states, replies, replies.len())
            && all_passed_by_oracle(states, replies, replies.len()) {
            Verdict::Accepted
        } else {
            Verdict::Escalate
        },
        times(states, Stage::Invoke, replies.len()) == states[0].1.unit.cell_graph@.len(),
        times(states, Stage::Verify, replies.len()) == 1,
{
    lemma_followed(states, replies, replies.len());
    law_each_cell_is_run_once(states[0].1.unit.cell_graph@);
    assert(indices(states[0].1.order@).len() == states[0].1.order@.len());
}

// What is emitted.

/// The oracle was asked in step `v`.
pub open spec fn verified_at(
    states: Seq<(Engine, IsolatedRun)>,
    replies: Seq<Reply>,
    v: int,
) -> bool {
    &&& 0 <= v < replies.len()
    &&& states[v].1.stage == Stage::Verify
}

/// The event is the verdict on the unit of a run, under the given number: it holds
/// the results of what the cells produced, judged by what the oracle said.
pub open spec fn is_verdict_of(e: VerdictEvent, run: IsolatedRun, number: int, said: Reply) -> bool {
    exists|delivered: Option<DeliveryResult>|
        {
            &&& #[trigger] ran_event(
                e,
                run.unit,
                number as nat,
                run.now@,
                run.verdict,
                e.cell_results@,
                delivered,
            )
            &&& judged(e.cell_results@, run.unit.cell_graph@, run.content@, run.produced@, said)
            &&& run.verdict == run_verdict(run.unit.cell_graph@, run.content@, said)
        }
}

/// One event more than at the start is on the stream: the verdict on the run,
/// under the next number.
pub open spec fn emitted_one(start: Engine, now: Engine, run: IsolatedRun, said: Reply) -> bool {
    &&& now.stream@.len() == start.stream@.len() + 1
    &&& now.stream@.drop_last() == start.stream@
    &&& is_verdict_of(now.stream@.last(), run, start.seq + 1, said)
    &&& now.seq == start.seq + 1
}

/// What a run has put on the stream so far: nothing up to the log, and then one
/// event; nothing where it is cut short before that.
spec fn on_stream(start: Engine, now: Engine, run: IsolatedRun, said: Reply) -> bool {
    if run.failure is Some {
        ||| now.stream@ == start.stream@ && now.seq >= start.seq
        ||| run.stage == Stage::Finish && emitted_one(start, now, run, said)
    } else if run.stage == Stage::Patch || run.stage == Stage::Revoke || run.stage
        == Stage::Teardown || run.stage == Stage::Finish {
        emitted_one(start, now, run, said)
    } else {
        &&& now.stream@ == start.stream@
        &&& now.seq == if run.stage == Stage::Log {
            start.seq + 1
        } else {
            start.seq as int
        }
        &&& run.event matches Some(e) ==> is_verdict_of(e, run, start.seq + 1, said)
        &&& run.stage == Stage::Deliver ==> judged(
            run.results@,
            run.unit.cell_graph@,
            run.content@,
            run.produced@,
            said,
        ) && run.verdict == run_verdict(run.unit.cell_graph@, run.content@, said)
    }
}

proof fn lemma_on_stream(
    start: Engine,
    before: Engine,
    a: IsolatedRun,
    reply: Reply,
    after: Engine,
    b: IsolatedRun,
    said: Reply,
)
    requires
        on_stream(start, before, a, said),
        a.well_formed(),
        b.well_formed(),
        stepped(before, a, reply, after, b),
    ensures
        on_stream(
            start,
            after,
            b,
            if a.stage == Stage::Verify {
                reply
            } else {
                said
            },
        ),
{
    let number = (start.seq + 1) as nat;
    if vital(a.stage) && failure_in(reply) is Some {
        if emitted_one(start, before, a, said) {
            lemma_verdict_stays(before.stream@.last(), a, b, start.seq + 1, said);
        }
    } else if a.stage == Stage::Verify {
        let results = choose|results: Seq<CellResult>|
            {
                &&& #[trigger] judged(
                    results,
                    a.unit.cell_graph@,
                    a.content@,
                    a.produced@,
                    reply,
                )
                &&& if a.after_verify(b.verdict) == Stage::Deliver {
                    b.results@ == results
                } else {
                    numbered(before, a, b.verdict, results, None, after, b)
                }
            };
        if b.stage == Stage::Log {
            let e = b.event->0;
            assert(e.cell_results@ == results);
            assert(ran_event(e, b.unit, number, b.now@, b.verdict, e.cell_results@, None));
        }
    } else if a.stage == Stage::Deliver {
        let e = b.event->0;
        assert(e.cell_results@ == a.results@);
        assert(ran_event(
            e,
            b.unit,
            number,
            b.now@,
            b.verdict,
            e.cell_results@,
            landed_in(reply),
        ));
    } else if a.stage == Stage::Log {
        assert(after.stream@.drop_last() =~= before.stream@);
        lemma_verdict_stays(a.event->0, a, b, start.seq + 1, said);
    } else if emitted_one(start, before, a, said) {
        lemma_verdict_stays(before.stream@.last(), a, b, start.seq + 1, said);
    }
}

proof fn lemma_verdict_stays(
    e: VerdictEvent,
    a: IsolatedRun,
    b: IsolatedRun,
    number: int,
    said: Reply,
)
    requires
        is_verdict_of(e, a, number, said),
        a.unit == b.unit,
        a.now == b.now,
        a.verdict == b.verdict,
        a.content@ == b.content@,
        a.produced@ == b.produced@,
    ensures
        is_verdict_of(e, b, number, said),
{
    let delivered = choose|delivered: Option<DeliveryResult>| #[trigger]
        ran_event(
            e,
            a.unit,
            number as nat,
            a.now@,
            a.verdict,
            e.cell_results@,
            delivered,
        );
    assert(ran_event(
        e,
        b.unit,
        number as nat,
        b.now@,
        b.verdict,
        e.cell_results@,
        delivered,
    ));
}

/// A run that comes to its end has put exactly one event on the stream: the
/// verdict on its unit, which also settles the unit, under the next number. Its
/// results are those of what the cells produced, judged by the reply of the oracle.
/// A run that was cut short has put at most that one there. Either way the events
/// on the stream stay told apart.
pub proof fn law_a_finished_run_has_emitted_one_event(
    states: Seq<(Engine, IsolatedRun)>,
    replies: Seq<Reply>,
)
    requires
        history(states, replies),
        states.last().1.stage == Stage::Finish,
    ensures
        states.last().1.failure is Some && states.last().0.stream@ == states[0].0.stream@
            || exists|v: int| #[trigger]
            verified_at(states, replies, v) && emitted_one(
                states[0].0,
                states.last().0,
                states.last().1,
                replies[v],
            ),
        states[0].0.told_apart() ==> states.last().0.told_apart(),
{
    let v = lemma_history(states, replies, replies.len() as int);
    let start = states[0].0;
    let (end, run) = states.last();
    if end.stream@ != start.stream@ || run.failure is None {
        assert(verified_at(states, replies, v));
        assert(emitted_one(start, end, run, replies[v]));
    }
    if start.told_apart() {
        if end.stream@.len() > start.stream@.len() {
            lemma_one_more_told_apart(start, end);
        } else {
            lemma_still_told_apart(start, end);
        }
    }
}

proof fn lemma_history(states: Seq<(Engine, IsolatedRun)>, replies: Seq<Reply>, n: int) -> (v: int)
    requires
        history(states, replies),
        0 <= n <= replies.len(),
    ensures
        on_stream(states[0].0, states[n].0, states[n].1, replies[v]),
        states[n].1.well_formed(),
        (!unjudged(states[n].1.stage) && states[n].1.failure is None) || states[n].0.stream@
            != states[0].0.stream@ ==> verified_at(states, replies, v),
    decreases n,
{
    if n > 0 {
        let w = lemma_history(states, replies, n - 1);
        lemma_history_step(states, replies, n);
        lemma_on_stream(
            states[0].0,
            states[n - 1].0,
            states[n - 1].1,
            replies[n - 1],
            states[n].0,
            states[n].1,
            replies[w],
        );
        if states[n - 1].1.stage == Stage::Verify {
            n - 1
        } else {
            w
        }
    } else {
        0
    }
}

// What the event says of each cell.

/// The worker was asked for cell `i` in step `k`.
pub open spec fn asked_for(
    states: Seq<(Engine, IsolatedRun)>,
    replies: Seq<Reply>,
    k: int,
    i: int,
) -> bool {
    &&& 0 <= k < replies.len()
    &&& states[k].1.stage == Stage::Invoke
    &&& states[k].1.order@[states[k].1.next as int] == i
}

/// The result says of a cell what became of it: it passed exactly if the unit was
/// accepted; under inline delivery it carries the code of the cell's answer, under
/// its hash; and it carries the evidence of the oracle.
pub open spec fn reported(
    result: CellResult,
    run: IsolatedRun,
    cell: Cell,
    answer: Option<Seq<char>>,
    said: Reply,
) -> bool {
    &&& result.cell_id@ == cell.cell_id@
    &&& result.passed == (run.verdict == Verdict::Accepted)
    &&& result.verdict == if run.verdict == Verdict::Accepted {
        CellVerdict::Accepted
    } else {
        CellVerdict::Rejected
    }
    &&& match answer {
        Some(raw) => if run.to_repository() {
            result.artifact is None
        } else {
            result.artifact matches Some(a) && inline_artifact(a, cell, code_of(raw))
        },
        None => result.artifact is None,
    }
    &&& opt_json(result.evidence) == evidence_in(said)
}

/// What a run holds of the answer to a cell that was asked for in an earlier state.
spec fn kept_answer(run: IsolatedRun, then: IsolatedRun, reply: Reply) -> bool {
    let id = then.cell().cell_id@;
    &&& then.same_job(&run)
    &&& then.ordered()
    &&& then.next < asked(run)
    &&& match answer_in(reply) {
        Some(raw) => {
            &&& run.content@.contains_key(id)
            &&& run.content@[id]@ == code_of(raw)
            &&& !run.to_repository() ==> run.produced@.contains_key(id) && inline_artifact(
                run.produced@[id],
                then.cell(),
                code_of(raw),
            )
        },
        None => !run.content@.contains_key(id),
    }
}

/// Every answer so far is kept, and every cell so far was asked for.
spec fn kept(states: Seq<(Engine, IsolatedRun)>, replies: Seq<Reply>, n: nat) -> bool {
    let run = states[n as int].1;
    &&& forall|k: int|
        0 <= k < n && (#[trigger] states[k]).1.stage == Stage::Invoke ==> kept_answer(
            run,
            states[k].1,
            replies[k],
        )
    &&& forall|p: int| 0 <= p < asked(run) ==> #[trigger] reached_place(states, n, p)
}

/// The cell at a place in the order was asked for in one of the first `n` steps.
spec fn reached_place(states: Seq<(Engine, IsolatedRun)>, n: nat, p: int) -> bool {
    exists|k: int|
        0 <= k < n && (#[trigger] states[k]).1.stage == Stage::Invoke && states[k].1.next == p
}

proof fn lemma_kept(states: Seq<(Engine, IsolatedRun)>, replies: Seq<Reply>, n: nat)
    requires
        history(states, replies),
        cell_ids(states[0].1.unit.cell_graph@).no_duplicates(),
        n <= replies.len(),
    ensures
        kept(states, replies, n),
    decreases n,
{
    if n > 0 {
        let m = (n - 1) as nat;
        lemma_kept(states, replies, m);
        lemma_followed(states, replies, m);
        lemma_history_step(states, replies, n as int);
        let a = states[m as int].1;
        let b = states[n as int].1;
        let reply = replies[m as int];
        let next = a.next as int;
        assert forall|k: int|
            0 <= k < n && (#[trigger] states[k]).1.stage == Stage::Invoke implies kept_answer(
            b,
            states[k].1,
            replies[k],
        ) by {
            if k < m {
                let then = states[k].1;
                assert(kept_answer(a, then, replies[k]));
                if a.stage == Stage::Invoke && then.cell().cell_id@ == a.cell().cell_id@ {
                    assert(id_at(a, then.next as int) == then.cell().cell_id@);
                    assert(id_at(a, next) == a.cell().cell_id@);
                    lemma_ids_differ(a, then.next as int, next);
                }
            } else {
                assert(id_at(a, next) == a.cell().cell_id@);
            }
        }
        assert forall|p: int| 0 <= p < asked(b) implies #[trigger] reached_place(states, n, p) by {
            if p < asked(a) {
                assert(reached_place(states, m, p));
                let k = choose|k: int|
                    0 <= k < m && (#[trigger] states[k]).1.stage == Stage::Invoke
                        && states[k].1.next == p;
                assert(states[k].1.next == p);
            } else {
                assert(states[m as int].1.next == p);
            }
        }
    }
}

/// The event of a run that was not cut short tells the truth of every cell: the
/// worker was asked for it, and its result carries that answer and what the oracle
/// said of the workspace.
pub proof fn law_the_event_reports_what_the_worker_answered(
    states: Seq<(Engine, IsolatedRun)>,
    replies: Seq<Reply>,
    i: int,
)
    requires
        history(states, replies),
        states.last().1.stage == Stage::Finish,
        states.last().1.failure is None,
        cell_ids(states[0].1.unit.cell_graph@).no_duplicates(),
        0 <= i < states[0].1.unit.cell_graph@.len(),
    ensures
        exists|k: int, v: int|
            {
                &&& #[trigger] asked_for(states, replies, k, i)
                &&& #[trigger] verified_at(states, replies, v)
                &&& reported(
                    states.last().0.stream@.last().cell_results@[i],
                    states.last().1,
                    states[0].1.unit.cell_graph@[i],
                    answer_in(replies[k]),
                    replies[v],
                )
            },
{
    let n = replies.len();
    let run = states[n as int].1;
    let cells = run.unit.cell_graph@;
    lemma_kept(states, replies, n);
    lemma_followed(states, replies, n);
    let v = lemma_history(states, replies, n as int);
    law_each_cell_is_run_once(cells);
    let order = indices(run.order@);
    assert(run_order(cells).contains(i));
    let p = choose|p: int| 0 <= p < order.len() && order[p] == i;
    assert(run.order@[p] == i);
    assert(id_at(run, p) == cells[i].cell_id@);
    assert(reached_place(states, n, p));
    let k = choose|k: int|
        0 <= k < n && (#[trigger] states[k]).1.stage == Stage::Invoke && states[k].1.next == p;
    assert(kept_answer(run, states[k].1, replies[k]));
    assert(asked_for(states, replies, k, i));
    let e = states.last().0.stream@.last();
    let result = e.cell_results@[i];
    assert(is_verdict_of(e, run, states[0].0.seq + 1, replies[v]));
    assert(judged(e.cell_results@, cells, run.content@, run.produced@, replies[v]));
    if run.verdict == Verdict::Accepted {
        law_accepted_means_verified(run, e.cell_results@, replies[v]);
        assert(run.content@.contains_key(cells[i].cell_id@));
    }
    assert(result.cell_id@ == cells[i].cell_id@);
    assert(run.produced@.dom().contains(cells[i].cell_id@) <==> run.produced@.contains_key(
        cells[i].cell_id@,
    ));
    assert(reported(result, run, cells[i], answer_in(replies[k]), replies[v]));
}

// What is done for a unit.

/// How far a run has come.
spec fn progress(stage: Stage) -> int {
    match stage {
        Stage::Provision => 0,
        Stage::CloneRepository => 1,
        Stage::SeedWorkspace => 1,
        Stage::Baseline => 2,
        Stage::Exchange => 3,
        Stage::Invoke => 4,
        Stage::Write => 4,
        Stage::Verify => 5,
        Stage::Deliver => 6,
        Stage::Log => 7,
        Stage::Patch => 8,
        Stage::Revoke => 9,
        Stage::Teardown => 10,
        Stage::Finish => 11,
    }
}

/// One if it holds, else zero.
pub open spec fn once_if(b: bool) -> nat {
    if b {
        1
    } else {
        0
    }
}

/// What was done for a unit as far as its run has come.
spec fn done_so_far(states: Seq<(Engine, IsolatedRun)>, n: nat) -> bool {
    let run = states[n as int].1;
    let p = progress(run.stage);
    run.failure is None ==> {
        &&& times(states, Stage::Provision, n) == once_if(p > 0)
        &&& times(states, Stage::CloneRepository, n) == once_if(p > 1 && run.to_repository())
        &&& times(states, Stage::SeedWorkspace, n) == once_if(
            p > 1 && !run.to_repository() && run.seeded,
        )
        &&& times(states, Stage::Baseline, n) == once_if(
            p > 2 && !run.to_repository() && run.deliveries,
        )
        &&& times(states, Stage::Exchange, n) == once_if(
            p > 3 && run.unit.credential_grant is Some,
        )
        &&& times(states, Stage::Deliver, n) == once_if(
            p > 6 && run.to_repository() && run.verdict == Verdict::Accepted,
        )
        &&& times(states, Stage::Log, n) == once_if(p > 7)
        &&& times(states, Stage::Patch, n) == once_if(
            p > 8 && !run.to_repository() && run.deliveries && run.verdict == Verdict::Accepted,
        )
        &&& times(states, Stage::Revoke, n) == once_if(
            p > 9 && run.unit.credential_grant is Some,
        )
        &&& times(states, Stage::Teardown, n) == once_if(p > 10)
        &&& p > 3 && p < 10 ==> (run.token is Some <==> run.unit.credential_grant is Some)
        &&& run.stage == Stage::CloneRepository ==> run.to_repository()
        &&& run.stage == Stage::SeedWorkspace ==> !run.to_repository() && run.seeded
        &&& run.stage == Stage::Baseline ==> !run.to_repository() && run.deliveries
        &&& run.stage == Stage::Deliver ==> run.to_repository()
        &&& run.stage == Stage::Patch ==> !run.to_repository() && run.deliveries
    }
}

proof fn lemma_done_so_far(states: Seq<(Engine, IsolatedRun)>, replies: Seq<Reply>, n: nat)
    requires
        history(states, replies),
        n <= replies.len(),
    ensures
        done_so_far(states, n),
    decreases n,
{
    if n > 0 {
        let m = (n - 1) as nat;
        lemma_done_so_far(states, replies, m);
        lemma_history_step(states, replies, n as int);
        let a = states[m as int].1;
        let b = states[n as int].1;
        if b.failure is None {
            assert(a.failure is None);
        }
    }
}

/// For a unit whose run is not cut short, each effect that its delivery, its grant
/// and its circumstances call for is performed once, and no other: a sandbox is
/// provisioned and torn down; a declared repository is cloned, and a workspace
/// seeded only where there is none; a grant is exchanged and revoked; the event is
/// logged; an accepted run is delivered to its repository, or leaves a patch.
pub proof fn law_each_effect_is_performed_once_where_it_is_called_for(
    states: Seq<(Engine, IsolatedRun)>,
    replies: Seq<Reply>,
)
    requires
        history(states, replies),
        states.last().1.stage == Stage::Finish,
        states.last().1.failure is None,
    ensures
        ({
            let n = replies.len();
            let run = states.last().1;
            let repository = run.unit.artifact_delivery is Repository;
            let accepted = run.verdict == Verdict::Accepted;
            let granted = run.unit.credential_grant is Some;
            &&& times(states, Stage::Provision, n) == 1
            &&& times(states, Stage::CloneRepository, n) == once_if(repository)
            &&& times(states, Stage::SeedWorkspace, n) == once_if(!repository && run.seeded)
            &&& times(states, Stage::Baseline, n) == once_if(!repository && run.deliveries)
            &&& times(states, Stage::Exchange, n) == once_if(granted)
            &&& times(states, Stage::Deliver, n) == once_if(repository && accepted)
            &&& times(states, Stage::Log, n) == 1
            &&& times(states, Stage::Patch, n) == once_if(
                !repository && run.deliveries && accepted,
            )
            &&& times(states, Stage::Revoke, n) == once_if(granted)
            &&& times(states, Stage::Teardown, n) == 1
        }),
{
    lemma_done_so_far(states, replies, replies.len());
}

/// The stages of a run come in their order: a workspace is filled before any cell is
/// asked for, the cells before the oracle, the oracle before anything is delivered,
/// logged or patched, and the teardown last.
pub proof fn law_stages_come_in_their_order(
    before: Engine,
    a: IsolatedRun,
    reply: Reply,
    after: Engine,
    b: IsolatedRun,
)
    requires
        stepped(before, a, reply, after, b),
        a.well_formed(),
        b.well_formed(),
    ensures
        b.stage != Stage::Provision,
        b.stage == Stage::CloneRepository || b.stage == Stage::SeedWorkspace ==> a.stage
            == Stage::Provision,
        b.stage == Stage::Baseline ==> a.stage == Stage::Provision || a.stage
            == Stage::SeedWorkspace || a.stage == Stage::CloneRepository,
        b.stage == Stage::Write ==> a.stage == Stage::Invoke,
        b.stage == Stage::Deliver ==> a.stage == Stage::Verify,
        b.stage == Stage::Log ==> a.stage == Stage::Verify || a.stage == Stage::Deliver,
        b.stage == Stage::Patch ==> a.stage == Stage::Log,
        b.stage == Stage::Teardown && b.failure is None ==> a.stage == Stage::Log || a.stage
            == Stage::Patch || a.stage == Stage::Revoke,
        a.stage == Stage::Teardown ==> b.stage == Stage::Finish,
        a.stage == Stage::Finish ==> b.stage == Stage::Finish,
        a.stage == Stage::Write ==> b.stage == Stage::Invoke || b.stage == Stage::Verify,
{
}

/// The effect that is due is that of the stage. A cell is asked for with its own
/// prompt over what was produced so far; what it answered is written; an accepted
/// inline run leaves a patch named after its unit.
pub proof fn law_the_effect_that_is_due(run: IsolatedRun, action: Action)
    requires
        run.well_formed(),
        due(run, action),
    ensures
        action is Provision <==> run.stage == Stage::Provision,
        action is CloneRepository <==> run.stage == Stage::CloneRepository,
        action is SeedWorkspace <==> run.stage == Stage::SeedWorkspace,
        action is CommitBaseline <==> run.stage == Stage::Baseline,
        action is ExchangeGrant <==> run.stage == Stage::Exchange,
        action is Invoke <==> run.stage == Stage::Invoke,
        action is WriteArtifact <==> run.stage == Stage::Write,
        action is Verify <==> run.stage == Stage::Verify,
        action is Deliver <==> run.stage == Stage::Deliver,
        action is AppendEvent <==> run.stage == Stage::Log,
        action is EmitPatch <==> run.stage == Stage::Patch,
        action is RevokeLease <==> run.stage == Stage::Revoke,
        action is Teardown <==> run.stage == Stage::Teardown,
        action is Finish <==> run.stage == Stage::Finish,
        action matches Action::Invoke { cell, prompt } ==> cell == run.order@[run.next as int]
            && cell < run.unit.cell_graph@.len() && prompt@ == prompt_text(
            run.unit,
            run.unit.cell_graph@[cell as int],
            run.content@,
        ),
        action matches Action::WriteArtifact { path, content } ==> {
            let cell = run.unit.cell_graph@[run.order@[run.next as int] as int];
            &&& path@ == landing(artifact_path(cell))
            &&& run.content@.contains_key(cell.cell_id@) ==> content@
                == run.content@[cell.cell_id@]@
        },
        action matches Action::EmitPatch { name } ==> name@ == patch_file(run.unit.unit_ref@),
{
}

/// What a cell answered is kept under its id, without its fences, and with it, under
/// inline delivery, the artifact to return; nothing else that was kept changes.
pub proof fn law_an_answer_is_kept_under_its_cell(
    before: Engine,
    a: IsolatedRun,
    raw: String,
    after: Engine,
    b: IsolatedRun,
    id: Seq<char>,
)
    requires
        a.well_formed(),
        a.stage == Stage::Invoke,
        stepped(before, a, Reply::Answer(Ok(raw)), after, b),
    ensures
        ({
            let cell = a.unit.cell_graph@[a.order@[a.next as int] as int];
            &&& b.content@.contains_key(cell.cell_id@)
            &&& b.content@[cell.cell_id@]@ == code_of(raw@)
            &&& a.unit.artifact_delivery is Inline ==> b.produced@.contains_key(cell.cell_id@)
                && b.produced@[cell.cell_id@].artifact_id@ == artifact_id(cell)
                && b.produced@[cell.cell_id@].content_hash@ == content_id(
                vstd::utf8::encode_utf8(code_of(raw@)),
            ) && (b.produced@[cell.cell_id@].delivery matches ArtifactBody::Inline { content }
                && content@ == code_of(raw@))
            &&& a.unit.artifact_delivery is Repository ==> b.produced@ == a.produced@
            &&& id != cell.cell_id@ ==> (b.content@.contains_key(id) <==> a.content@.contains_key(
                id,
            )) && (a.content@.contains_key(id) ==> b.content@[id] == a.content@[id])
            &&& b.stage == Stage::Write
            &&& after.stream@ == before.stream@
        }),
{
    let cell = a.cell();
    let text = choose|text: String|
        #[trigger] a.content@.insert(cell.cell_id@, text) == b.content@ && text@ == code_of(raw@);
    assert(a.content@.insert(cell.cell_id@, text).contains_key(cell.cell_id@));
    if !a.to_repository() {
        let artifact = choose|artifact: Artifact|
            #[trigger] a.produced@.insert(cell.cell_id@, artifact) == b.produced@
                && inline_artifact(artifact, cell, code_of(raw@));
        assert(a.produced@.insert(cell.cell_id@, artifact)[cell.cell_id@] == artifact);
    }
}

/// A cell that is not answered for produces nothing, and the next one is due.
pub proof fn law_without_an_answer_nothing_is_kept(
    before: Engine,
    a: IsolatedRun,
    why: String,
    after: Engine,
    b: IsolatedRun,
)
    requires
        a.well_formed(),
        a.stage == Stage::Invoke,
        stepped(before, a, Reply::Answer(Err(why)), after, b),
    ensures
        b.content@ == a.content@,
        b.produced@ == a.produced@,
        b.next == a.next + 1,
        a.next + 1 < a.order@.len() ==> b.stage == Stage::Invoke,
        a.next + 1 == a.order@.len() ==> b.stage == Stage::Verify,
{
}

/// A run begins with the front unit as it was queued, with nothing produced, and
/// with its cells in dependency order.
pub proof fn law_a_run_begins_with_its_unit(
    run: IsolatedRun,
    unit: WorkUnit,
    now: Seq<char>,
    seeded: bool,
    deliveries: bool,
)
    requires
        begun(run, unit, now, seeded, deliveries),
    ensures
        run.unit == unit,
        run.now@ == now,
        run.seeded == seeded,
        run.deliveries == deliveries,
        run.stage == Stage::Provision,
        run.next == 0,
        run.content@.dom().len() == 0,
        run.failure is None,
        run.sandbox.phase == SandboxPhase::Absent,
        run.token is None,
        indices(run.order@) == run_order(unit.cell_graph@),
        unit.cell_graph@.len() > 0 ==> run.batch.phase == BatchPhase::Dispatched,
        unit.cell_graph@.len() == 0 ==> run.batch.phase == BatchPhase::New,
{
    assert(run.content@.dom() =~= Set::empty());
}

/// What a reply holds is taken from the reply that fits and from no other.
pub proof fn law_a_reply_is_taken_for_what_it_is(reply: Reply)
    ensures
        reply matches Reply::Token(t) ==> token_in(reply) == t@,
        reply matches Reply::Answer(Ok(raw)) ==> answer_in(reply) == Some(raw@),
        reply matches Reply::Answer(Err(_)) ==> answer_in(reply) is None,
        reply matches Reply::Report(report) ==> passed_in(reply) == report.passed && evidence_in(
            reply,
        ) == opt_json(report.evidence),
        reply matches Reply::Delivered(d) ==> landed_in(reply) == d,
        reply matches Reply::Failed(why) ==> failure_in(reply) == Some(why@),
        !(reply is Report) ==> !passed_in(reply) && evidence_in(reply) is None,
        !(reply is Answer) ==> answer_in(reply) is None,
        !(reply is Delivered) ==> landed_in(reply) is None,
        !(reply is Failed) ==> failure_in(reply) is None,
        vital(Stage::Provision) && vital(Stage::CloneRepository) && vital(Stage::SeedWorkspace)
            && vital(Stage::Log) && vital(Stage::Teardown),
        !vital(Stage::Invoke) && !vital(Stage::Write) && !vital(Stage::Verify) && !vital(
            Stage::Revoke,
        ) && !vital(Stage::Deliver) && !vital(Stage::Patch) && !vital(Stage::Exchange),
{
}

/// The event that a run into a repository emits tells where it landed; no other
/// event tells of a landing.
pub proof fn law_the_landing_is_told(
    before: Engine,
    a: IsolatedRun,
    reply: Reply,
    after: Engine,
    b: IsolatedRun,
)
    requires
        stepped(before, a, reply, after, b),
        a.well_formed(),
        b.stage == Stage::Log,
    ensures
        a.stage == Stage::Deliver ==> (b.event matches Some(e) && (reply matches Reply::Delivered(d)
            ==> e.delivery_result == d)),
        a.stage == Stage::Verify ==> (b.event matches Some(e) && e.delivery_result is None),
{
}

/// The credential that was exchanged is the one that is held until it is revoked,
/// and an unlogged event is the one that is put on the stream.
pub proof fn law_what_was_exchanged_is_held(
    before: Engine,
    a: IsolatedRun,
    reply: Reply,
    after: Engine,
    b: IsolatedRun,
)
    requires
        stepped(before, a, reply, after, b),
        a.well_formed(),
    ensures
        a.stage == Stage::Exchange ==> (reply matches Reply::Token(t) ==> b.token is Some
            && b.token->0@ == t@),
        a.stage != Stage::Exchange ==> b.token == a.token,
        a.stage == Stage::Log && failure_in(reply) is None ==> after.stream@.len()
            == before.stream@.len() + 1 && after.stream@.last() == a.event->0
            && after.stream@.drop_last() == before.stream@,
        a.stage != Stage::Log ==> after.stream@ == before.stream@,
        a.stage == Stage::Log && failure_in(reply) is Some ==> after.stream@ == before.stream@,
        after.priority_set@ == before.priority_set@,
        after.mode == before.mode,
        b.unit == a.unit,
        b.order == a.order,
        b.batch == a.batch,
{
    if a.stage == Stage::Log && failure_in(reply) is None {
        assert(after.stream@.drop_last() =~= before.stream@);
    }
}

/// A run that is cut short keeps the first reason, and is told as that error.
pub proof fn law_the_first_failure_is_told(
    before: Engine,
    a: IsolatedRun,
    why: String,
    after: Engine,
    b: IsolatedRun,
)
    requires
        stepped(before, a, Reply::Failed(why), after, b),
        a.well_formed(),
        a.stage == Stage::Provision || a.stage == Stage::CloneRepository || a.stage
            == Stage::SeedWorkspace || a.stage == Stage::Log || a.stage == Stage::Teardown,
    ensures
        a.failure is None ==> b.failure is Some && b.failure->0@ == why@,
        a.failure is Some ==> b.failure == a.failure,
        b.stage == Stage::Revoke || b.stage == Stage::Teardown || b.stage == Stage::Finish,
        b.stage == Stage::Revoke <==> a.token is Some && (a.stage == Stage::CloneRepository
            || a.stage == Stage::SeedWorkspace || a.stage == Stage::Log),
{
}

/// A worker that is asked for a cell is given what the worker answered for each of
/// the cell's prerequisites: in a graph without a cycle each of them was asked for
/// before, and its code, if there was an answer, stands in the prompt under its name.
pub proof fn law_a_worker_is_given_what_was_answered_for_the_prerequisites(
    states: Seq<(Engine, IsolatedRun)>,
    replies: Seq<Reply>,
    rank: spec_fn(int) -> nat,
    k: int,
    j: int,
    action: Action,
)
    requires
        history(states, replies),
        cell_ids(states[0].1.unit.cell_graph@).no_duplicates(),
        ranked_by(states[0].1.unit.cell_graph@, rank),
        0 <= k < replies.len(),
        states[k].1.stage == Stage::Invoke,
        due(states[k].1, action),
        0 <= j < states[k].1.cell().depends_on@.len(),
        names_cell(states[0].1.unit.cell_graph@, states[k].1.cell().depends_on@[j]@),
    ensures
        exists|earlier: int|
            {
                let dep = states[k].1.cell().depends_on@[j]@;
                &&& 0 <= earlier < k
                &&& (#[trigger] states[earlier]).1.stage == Stage::Invoke
                &&& states[earlier].1.cell().cell_id@ == dep
                &&& answer_in(replies[earlier]) matches Some(raw) ==> exists|
                    before: Seq<char>,
                    after: Seq<char>,
                |
                    action->prompt@ == #[trigger] (before + (
                    "--- artifact produced by prerequisite cell `"@ + dep + "` ---\n"@ + code_of(raw)
                        + "\n\n"@) + after)
            },
{
    let run = states[k].1;
    let cells = run.unit.cell_graph@;
    let cell = run.cell();
    let dep = cell.depends_on@[j]@;
    if k > 0 {
        lemma_history_step(states, replies, k);
    }
    lemma_followed(states, replies, k as nat);
    lemma_kept(states, replies, k as nat);
    let p = run.next as int;
    let order = indices(run.order@);
    law_each_cell_is_run_once(cells);
    assert(order[p] == run.order@[p]);
    let i = choose|i: int| 0 <= i < cells.len() && (#[trigger] cells[i]).cell_id@ == dep;
    assert(resolves_to(cells, dep, i)) by {
        assert forall|m: int| i < m < cells.len() implies (#[trigger] cells[m]).cell_id@ != dep by {
            assert(cell_ids(cells)[m] == cells[m].cell_id@);
            assert(cell_ids(cells)[i] == cells[i].cell_id@);
        }
    }
    assert(depends(cells, order[p], i)) by {
        assert(resolves_to(cells, cells[order[p]].depends_on@[j]@, i));
    }
    law_an_acyclic_graph_is_run_in_dependency_order(cells, rank, p, i);
    let q = choose|q: int| 0 <= q < p && #[trigger] run_order(cells)[q] == i;
    assert(reached_place(states, k as nat, q));
    let earlier = choose|m: int|
        0 <= m < k && (#[trigger] states[m]).1.stage == Stage::Invoke && states[m].1.next == q;
    let then = states[earlier].1;
    assert(kept_answer(run, then, replies[earlier]));
    assert(then.order@[q] == run.order@[q]);
    assert(order[q] == run.order@[q]);
    assert(then.cell().cell_id@ == dep);
    if let Some(raw) = answer_in(replies[earlier]) {
        law_every_artifact_of_a_prerequisite_reaches_the_worker(run.unit, cell, run.content@, j);
    }
}

} // verus!
