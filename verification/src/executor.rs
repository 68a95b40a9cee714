//! The engine: the developer switch sets the mode of the box; below it the
//! queued units are drained one by one. No machine-rate process flips the box.
use vstd::prelude::*;

use crate::execution::{
    answered, consequence, consequence_of, reduce_verdict, reports, unit_verdict, walk,
    walk_cells, Oracle, RunCommand, RunState,
};
use crate::exploration::{Phase as SessionPhase, SessionCommand, SessionState};
use crate::host::{
    host_change, host_port, probe_target, HostCommand, HostEvent, HostHandle, HostState,
    ServingHostView,
};
use crate::interface::{
    law_a_manifest_covers_what_it_lists, lemma_same_fault, Capabilities, CapabilityManifest,
    CellResult, CellVerdict, Consequence, DeliveryCapability, DeliveryResult, ManifestBinding,
    Operational, Verdict, VerdictEvent, WorkUnit,
};
use crate::queue::{
    decide_admission, HeterogeneityRateView, Lifecycle, PrioritySetView,
    UnitCommand, UnitEvent, UnitState,
};
use crate::sorted::increasing;
use crate::switch::{BoxCommand, BoxState, BoxStatusView, Mode};
use crate::text::{decimal, decimal_text, owned, same, texts};

verus! {

/// The top rung of the ladder: a unit escalates from light to heavy, and a unit
/// that fails at heavy is halted.
pub const MAX_LADDER: u32 = 1;

/// The identity of this executor, as its manifest gives it.
pub const EXECUTOR_ID: &'static str = "dgx-spark-gb10";

// -------------------------------------------------------------- the manifest

/// What this box declares about itself: the one binding that is resident and
/// validated on it, both delivery modes, and what it can check.
pub open spec fn reference_substrate(m: CapabilityManifest) -> bool {
    &&& m.executor_id@ == "dgx-spark-gb10"@
    &&& m.emitted_at@.len() == 0
    &&& m.operational is None
    &&& m.capabilities.bindings@.len() == 1
    &&& m.capabilities.bindings@[0].provider@ == "local-vllm"@
    &&& m.capabilities.bindings@[0].model_id@ == "qwen3.6-35b"@
    &&& m.capabilities.bindings@[0].revision is None
    &&& m.capabilities.bindings@[0].quantization@ == "FP8"@
    &&& texts(m.capabilities.delivery.modes@) == seq!["inline"@, "repository"@]
    &&& texts(m.capabilities.delivery.url_schemes@) == seq!["file"@, "https"@, "ssh"@]
    &&& texts(m.capabilities.delivery.integration_methods@) == seq!["push-branch"@, "pull-request"@]
    &&& texts(m.capabilities.delivery.forges@) == seq!["github.com"@]
    &&& texts(m.capabilities.shape_languages@) == seq!["prose"@, "JSON"@, "JSON Schema"@, "SHACL"@]
    &&& texts(m.capabilities.gate_kinds@) == seq!["command"@]
}

/// The manifest of the reference substrate. The routing hints are filled in when
/// it is published.
pub fn default_manifest() -> (m: CapabilityManifest)
    ensures
        reference_substrate(m),
{
    let mut bindings: Vec<ManifestBinding> = Vec::new();
    bindings.push(
        ManifestBinding {
            provider: "local-vllm".to_owned(),
            model_id: "qwen3.6-35b".to_owned(),
            revision: None,
            quantization: "FP8".to_owned(),
        },
    );
    let modes: Vec<String> = owned(vec!["inline", "repository"]);
    let url_schemes: Vec<String> = owned(vec!["file", "https", "ssh"]);
    let integration_methods: Vec<String> = owned(vec!["push-branch", "pull-request"]);
    let forges: Vec<String> = owned(vec!["github.com"]);
    let shape_languages: Vec<String> = owned(vec!["prose", "JSON", "JSON Schema", "SHACL"]);
    let gate_kinds: Vec<String> = owned(vec!["command"]);
    assert(texts(modes@) =~= seq!["inline"@, "repository"@]);
    assert(texts(url_schemes@) =~= seq!["file"@, "https"@, "ssh"@]);
    assert(texts(integration_methods@) =~= seq!["push-branch"@, "pull-request"@]);
    assert(texts(forges@) =~= seq!["github.com"@]);
    assert(texts(shape_languages@) =~= seq!["prose"@, "JSON"@, "JSON Schema"@, "SHACL"@]);
    assert(texts(gate_kinds@) =~= seq!["command"@]);
    CapabilityManifest {
        executor_id: EXECUTOR_ID.to_owned(),
        emitted_at: String::new(),
        capabilities: Capabilities {
            bindings,
            delivery: DeliveryCapability { modes, url_schemes, integration_methods, forges },
            shape_languages,
            gate_kinds,
        },
        operational: None,
    }
}

// ---------------------------------------------------------------- the engine

/// Whether the box is earning its keep.
#[derive(Clone, Debug, PartialEq, Eq, Structural)]
pub struct UtilizationView {
    pub mode: Mode,
    pub in_flight: i64,
    pub exploring: bool,
    pub discoveries: i64,
}

impl Default for UtilizationView {
    fn default() -> (r: Self)
        ensures
            r == (UtilizationView {
                mode: Mode::Off,
                in_flight: 0,
                exploring: false,
                discoveries: 0,
            }),
    {
        UtilizationView { mode: Mode::Off, in_flight: 0, exploring: false, discoveries: 0 }
    }
}

/// What draining one unit came to.
#[derive(Clone, Debug, PartialEq)]
pub enum DrainOutcome {
    Accepted { unit_ref: String },
    Escalated { unit_ref: String, to_ladder: u32 },
    Halted { unit_ref: String },
    /// The unit never ran: the box lacks what it needs.
    NotAdmitted { unit_ref: String, missing: Vec<String> },
    Idle,
    NotQueueMode,
}

/// How many verdicts are on the stream.
#[derive(Clone, Debug, PartialEq, Eq, Structural)]
pub struct VerdictStreamCount {
    pub emitted: i64,
}

impl Default for VerdictStreamCount {
    fn default() -> (r: Self)
        ensures
            r.emitted == 0,
    {
        VerdictStreamCount { emitted: 0 }
    }
}

/// The whole state of the executor.
#[derive(Clone, Debug)]
pub struct Engine {
    pub mode: Mode,
    /// The flat priority set; the front has the highest priority.
    pub priority_set: Vec<WorkUnit>,
    pub stream: Vec<VerdictEvent>,
    pub priority_view: PrioritySetView,
    pub heterogeneity_view: HeterogeneityRateView,
    pub verdict_view: VerdictStreamCount,
    pub utilization: UtilizationView,
    /// The serving host that makes the current mode physical.
    pub host: HostState,
    pub host_handle: Option<HostHandle>,
    pub serving_host_view: ServingHostView,
    /// What can run here; admission is matched against it.
    pub manifest: CapabilityManifest,
    /// How many events were numbered so far.
    pub seq: u64,
}

impl Default for Engine {
    /// A fresh box: off, with nothing queued, and the manifest of the reference substrate.
    fn default() -> (r: Self)
        ensures
            r.fresh(),
    {
        Engine {
            mode: Mode::default(),
            priority_set: Vec::new(),
            stream: Vec::new(),
            priority_view: PrioritySetView::default(),
            heterogeneity_view: HeterogeneityRateView::default(),
            verdict_view: VerdictStreamCount::default(),
            utilization: UtilizationView::default(),
            host: HostState::default(),
            host_handle: None,
            serving_host_view: ServingHostView::default(),
            manifest: default_manifest(),
            seq: 0,
        }
    }
}

/// The name of a mode.
pub open spec fn mode_name(mode: Mode) -> Seq<char> {
    match mode {
        Mode::Off => "Off"@,
        Mode::Queue => "Queue"@,
        Mode::Explorer => "Explorer"@,
    }
}

/// The name of a mode.
pub fn mode_text(mode: Mode) -> (r: &'static str)
    ensures
        r@ == mode_name(mode),
{
    match mode {
        Mode::Off => "Off",
        Mode::Queue => "Queue",
        Mode::Explorer => "Explorer",
    }
}

/// The tier that a rung of the ladder runs at.
pub open spec fn tier_at(ladder: u32) -> Seq<char> {
    if ladder == 0 {
        "light"@
    } else {
        "heavy"@
    }
}

/// `ve-<unit>-<number>`.
pub open spec fn event_name(unit_ref: Seq<char>, number: nat) -> Seq<char> {
    "ve-"@ + unit_ref + "-"@ + decimal(number)
}

/// The event says of the unit what an event with this number says of it, and
/// binds the verdict to its consequence.
pub open spec fn event_of(
    e: VerdictEvent,
    unit: WorkUnit,
    number: nat,
    now: Seq<char>,
    verdict: Verdict,
) -> bool {
    &&& e.event_id@ == event_name(unit.unit_ref@, number)
    &&& e.emitted_at@ == now
    &&& e.unit_ref@ == unit.unit_ref@
    &&& e.parent_deliverable@ == unit.parent_deliverable@
    &&& e.bundle_hash@ == unit.bundle_hash@
    &&& e.verdict == verdict
    &&& e.next_consequence == consequence(verdict)
}

/// The event of a unit that never ran: no tier, no cells, and the distance.
pub open spec fn not_admitted_event(
    e: VerdictEvent,
    unit: WorkUnit,
    number: nat,
    now: Seq<char>,
    missing: Seq<Seq<char>>,
) -> bool {
    &&& event_of(e, unit, number, now, Verdict::NotAdmitted)
    &&& e.missing_capabilities matches Some(m) && texts(m@) == missing
    &&& e.tier_ran is None
    &&& e.cell_results@.len() == 0
    &&& e.delivery_result is None
}

/// The event of a unit that ran to this verdict.
pub open spec fn ran_event(
    e: VerdictEvent,
    unit: WorkUnit,
    number: nat,
    now: Seq<char>,
    verdict: Verdict,
    results: Seq<CellResult>,
    delivery: Option<DeliveryResult>,
) -> bool {
    &&& event_of(e, unit, number, now, verdict)
    &&& e.missing_capabilities is None
    &&& e.tier_ran matches Some(t) && t@ == tier_at(unit.ladder_position)
    &&& e.cell_results@ == results
    &&& e.delivery_result == delivery
}

/// The events carry these numbers, each higher than those before it and none
/// above the last one given out.
pub open spec fn stamped(stream: Seq<VerdictEvent>, numbers: Seq<nat>, last: nat) -> bool {
    &&& numbers.len() == stream.len()
    &&& forall|i: int|
        #![trigger numbers[i]]
        0 <= i < stream.len() ==> numbers[i] <= last && stream[i].event_id@ == event_name(
            stream[i].unit_ref@,
            numbers[i],
        )
    &&& forall|i: int, j: int|
        0 <= i < j < numbers.len() ==> (#[trigger] numbers[i]) < (#[trigger] numbers[j])
}

/// The first queued unit with this reference.
pub open spec fn first_named(units: Seq<WorkUnit>, unit_ref: Seq<char>, from: int) -> Option<int>
    decreases units.len() - from,
{
    if from < 0 || from >= units.len() {
        None
    } else if units[from].unit_ref@ == unit_ref {
        Some(from)
    } else {
        first_named(units, unit_ref, from + 1)
    }
}

impl Engine {
    /// A box that nothing was done with yet, whatever it declares about itself.
    pub open spec fn fresh_but_for_manifest(&self) -> bool {
        &&& self.mode == Mode::Off
        &&& self.priority_set@.len() == 0
        &&& self.stream@.len() == 0
        &&& self.priority_view.queued == 0
        &&& self.heterogeneity_view == (HeterogeneityRateView { admitted: 0, rejected: 0 })
        &&& self.verdict_view.emitted == 0
        &&& self.utilization == (UtilizationView {
            mode: Mode::Off,
            in_flight: 0,
            exploring: false,
            discoveries: 0,
        })
        &&& self.host == HostState { phase: crate::host::HostPhase::Absent }
        &&& self.host_handle is None
        &&& self.serving_host_view == (ServingHostView { materialized: 0, ready: false })
        &&& self.seq == 0
    }

    /// A box that nothing was done with yet, with the reference manifest.
    pub open spec fn fresh(&self) -> bool {
        &&& self.fresh_but_for_manifest()
        &&& reference_substrate(self.manifest)
    }

    /// The projections agree with what they project, every queued unit has passed
    /// the admission guard, and an exploration is active in explorer mode only.
    pub open spec fn consistent(&self) -> bool {
        &&& forall|i: int|
            0 <= i < self.priority_set@.len() ==> (#[trigger] self.priority_set@[i]).fault() is None
        &&& self.priority_view.queued == self.priority_set@.len()
        &&& self.verdict_view.emitted == self.stream@.len()
        &&& self.utilization.mode == self.mode
        &&& self.utilization.exploring ==> self.mode == Mode::Explorer
        &&& self.serving_host_view.shows(self.host)
    }

    /// Every event on the stream has a number of its own.
    pub open spec fn told_apart(&self) -> bool {
        exists|numbers: Seq<nat>| #[trigger] stamped(self.stream@, numbers, self.seq as nat)
    }

    /// A consistent engine between two units: nothing is in flight, and every
    /// event has a number of its own.
    pub open spec fn orderly(&self) -> bool {
        &&& self.consistent()
        &&& self.utilization.in_flight == 0
        &&& self.told_apart()
    }

    /// The stream is as it was, with one event more at its end at most.
    pub open spec fn told_one_more_at_most(&self, before: &Engine) -> bool {
        ||| self.stream@ == before.stream@
        ||| self.stream@.len() == before.stream@.len() + 1 && self.stream@.drop_last()
            == before.stream@
    }

    /// No counter that draining a unit moves stands at the end of its range.
    pub open spec fn has_room(&self) -> bool {
        &&& self.priority_view.queued > i64::MIN
        &&& self.verdict_view.emitted < i64::MAX
        &&& self.utilization.in_flight < i64::MAX
        &&& self.seq < u64::MAX
    }

    /// No counter at all stands at the end of its range.
    pub open spec fn countable(&self) -> bool {
        &&& self.has_room()
        &&& self.priority_view.queued < i64::MAX
        &&& self.heterogeneity_view.admitted < i64::MAX
        &&& self.heterogeneity_view.rejected < i64::MAX
        &&& self.utilization.in_flight > i64::MIN
        &&& self.utilization.discoveries < i64::MAX
        &&& i64::MIN < self.serving_host_view.materialized < i64::MAX
    }

    /// What is queued is as it was.
    pub open spec fn same_queue(&self, other: &Engine) -> bool {
        &&& self.priority_set@ == other.priority_set@
        &&& self.priority_view == other.priority_view
        &&& self.heterogeneity_view == other.heterogeneity_view
    }

    /// What was emitted is as it was.
    pub open spec fn same_stream(&self, other: &Engine) -> bool {
        &&& self.stream@ == other.stream@
        &&& self.verdict_view == other.verdict_view
        &&& self.seq == other.seq
    }

    /// The box, its host and its manifest are as they were.
    pub open spec fn same_box(&self, other: &Engine) -> bool {
        &&& self.mode == other.mode
        &&& self.host == other.host
        &&& self.host_handle == other.host_handle
        &&& self.serving_host_view == other.serving_host_view
        &&& self.manifest == other.manifest
    }

    /// Nothing has changed.
    pub open spec fn same_as(&self, other: &Engine) -> bool {
        &&& self.same_queue(other)
        &&& self.same_stream(other)
        &&& self.same_box(other)
        &&& self.utilization == other.utilization
    }

    /// The engine after a unit went through the admission guard: it joined the
    /// end of the queue, or was turned away and counted as such.
    pub open spec fn handled(&self, before: &Engine, unit: WorkUnit) -> bool {
        &&& self.same_stream(before)
        &&& self.same_box(before)
        &&& self.utilization == before.utilization
        &&& if unit.fault() is None {
            &&& self.priority_set@ == before.priority_set@.push(unit)
            &&& self.priority_view.queued == before.priority_view.queued + 1
            &&& self.heterogeneity_view.admitted == before.heterogeneity_view.admitted + 1
            &&& self.heterogeneity_view.rejected == before.heterogeneity_view.rejected
        } else {
            &&& self.priority_set@ == before.priority_set@
            &&& self.priority_view == before.priority_view
            &&& self.heterogeneity_view.admitted == before.heterogeneity_view.admitted
            &&& self.heterogeneity_view.rejected == before.heterogeneity_view.rejected + 1
        }
    }

    /// The engine after the switch was thrown: a flip to another mode ends an
    /// exploration; one to the resident mode changes nothing.
    pub open spec fn switched(&self, before: &Engine, mode: Mode) -> bool {
        if mode == before.mode {
            self.same_as(before)
        } else {
            &&& self.same_queue(before)
            &&& self.same_stream(before)
            &&& self.host == before.host
            &&& self.host_handle == before.host_handle
            &&& self.serving_host_view == before.serving_host_view
            &&& self.manifest == before.manifest
            &&& self.mode == mode
            &&& self.utilization == UtilizationView {
                mode,
                exploring: false,
                ..before.utilization
            }
        }
    }

    /// The engine after a unit was to be moved to the front of the queue: the
    /// first of that name is, if there is one.
    pub open spec fn reordered(&self, before: &Engine, unit_ref: Seq<char>) -> bool {
        &&& self.same_stream(before)
        &&& self.same_box(before)
        &&& self.utilization == before.utilization
        &&& self.priority_view == before.priority_view
        &&& self.heterogeneity_view == before.heterogeneity_view
        &&& match first_named(before.priority_set@, unit_ref, 0) {
            Some(i) => {
                &&& 0 <= i < before.priority_set@.len()
                &&& self.priority_set@ == seq![before.priority_set@[i]]
                    + before.priority_set@.remove(i)
            },
            None => self.priority_set@ == before.priority_set@,
        }
    }

    pub fn new() -> (r: Self)
        ensures
            r.fresh(),
            r.orderly(),
    {
        let r = Engine::default();
        proof {
            law_a_fresh_engine_is_orderly(r);
        }
        r
    }

    /// Whether no counter stands at the end of its range.
    pub fn can_count(&self) -> (r: bool)
        ensures
            r == self.countable(),
    {
        i64::MIN < self.priority_view.queued && self.priority_view.queued < i64::MAX
            && self.heterogeneity_view.admitted < i64::MAX && self.heterogeneity_view.rejected
            < i64::MAX && self.verdict_view.emitted < i64::MAX && i64::MIN
            < self.utilization.in_flight && self.utilization.in_flight < i64::MAX
            && self.utilization.discoveries < i64::MAX && i64::MIN
            < self.serving_host_view.materialized && self.serving_host_view.materialized
            < i64::MAX && self.seq < u64::MAX
    }

    /// The manifest to publish: the stored capabilities, stamped, with the mode
    /// and the depth of the queue as routing hints.
    pub fn publish_manifest(&self, now: &str) -> (m: CapabilityManifest)
        ensures
            m.executor_id == self.manifest.executor_id,
            m.emitted_at@ == now@,
            m.capabilities.same_as(&self.manifest.capabilities),
            m.operational matches Some(o) && o.capacity is None && o.queue_depth == Some(
                self.priority_set@.len() as i64,
            ) && (o.mode matches Some(name) && name@ == mode_name(self.mode)),
    {
        let mut m: CapabilityManifest = self.manifest.clone();
        m.emitted_at = now.to_owned();
        m.operational = Some(
            Operational {
                mode: Some(mode_text(self.mode).to_owned()),
                queue_depth: Some(self.priority_set.len() as i64),
                capacity: None,
            },
        );
        m
    }

    fn event_id(&self, unit_ref: &str) -> (r: String)
        ensures
            r@ == event_name(unit_ref@, self.seq as nat),
    {
        let mut r: String = "ve-".to_owned();
        r.append(unit_ref);
        r.append("-");
        r.append(decimal_text(self.seq).as_str());
        r
    }

    /// Answers a unit that the box cannot cover: nothing ran, so the event names
    /// no tier and no cells, carries the distance, and halts.
    pub fn emit_not_admitted(&mut self, unit: &WorkUnit, missing: Vec<String>, now: &str) -> (r:
        DrainOutcome)
        requires
            old(self).seq < u64::MAX,
            old(self).verdict_view.emitted < i64::MAX,
        ensures
            final(self).same_queue(old(self)),
            final(self).same_box(old(self)),
            final(self).utilization == old(self).utilization,
            final(self).seq == old(self).seq + 1,
            final(self).verdict_view.emitted == old(self).verdict_view.emitted + 1,
            final(self).stream@.len() == old(self).stream@.len() + 1,
            final(self).stream@.drop_last() == old(self).stream@,
            not_admitted_event(
                final(self).stream@.last(),
                *unit,
                final(self).seq as nat,
                now@,
                texts(missing@),
            ),
            r matches DrainOutcome::NotAdmitted { unit_ref, missing: m } && unit_ref@
                == unit.unit_ref@ && m@ == missing@,
    {
        self.seq += 1;
        let copy: Vec<String> = missing.clone();
        assert(texts(copy@) =~= texts(missing@));
        let event = VerdictEvent {
            event_id: self.event_id(unit.unit_ref.as_str()),
            emitted_at: now.to_owned(),
            unit_ref: unit.unit_ref.clone(),
            parent_deliverable: unit.parent_deliverable.clone(),
            bundle_hash: unit.bundle_hash.clone(),
            verdict: Verdict::NotAdmitted,
            missing_capabilities: Some(copy),
            tier_ran: None,
            cell_results: Vec::new(),
            delivery_result: None,
            next_consequence: consequence_of(Verdict::NotAdmitted),
        };
        self.stream.push(event);
        self.verdict_view.emitted += 1;
        assert(self.stream@.drop_last() =~= old(self).stream@);
        DrainOutcome::NotAdmitted { unit_ref: unit.unit_ref.clone(), missing }
    }

    /// Throws the developer switch. The result is the new mode, or the rule that
    /// refuses a flip to the resident mode. A flip ends an exploration.
    pub fn throw_switch(&mut self, mode: Mode) -> (r: Result<Mode, &'static str>)
        ensures
            old(self).consistent() ==> final(self).consistent(),
            old(self).orderly() ==> final(self).orderly(),
            final(self).switched(old(self), mode),
            if mode == old(self).mode {
                r matches Err(e) && e@ == "inv-distinct-mode"@
            } else {
                r == Ok::<Mode, &'static str>(mode)
            },
    {
        let state = BoxState { mode: self.mode };
        match state.decide(&BoxCommand::ThrowSwitch { mode }) {
            Ok(events) => {
                let mut view = BoxStatusView { mode: self.mode };
                let ghost decided = seq![crate::switch::BoxEvent::ModeChanged { mode }];
                assert(events@ == decided);
                view.apply(&events[0]);
                self.mode = view.mode;
                self.utilization.mode = view.mode;
                self.utilization.exploring = false;
                proof {
                    if old(self).told_apart() {
                        lemma_still_told_apart(*old(self), *self);
                    }
                }
                Ok(self.mode)
            },
            Err(rule) => Err(rule),
        }
    }

    /// Receives a frozen unit and runs the admission guard: it joins the queue,
    /// or is refused with the rule that it breaks.
    pub fn admit_unit(&mut self, unit: WorkUnit) -> (r: Result<(), &'static str>)
        requires
            unit.fault() is None ==> old(self).priority_view.queued < i64::MAX
                && old(self).heterogeneity_view.admitted < i64::MAX,
            unit.fault() is Some ==> old(self).heterogeneity_view.rejected < i64::MAX,
        ensures
            old(self).consistent() ==> final(self).consistent(),
            old(self).orderly() ==> final(self).orderly(),
            final(self).handled(old(self), unit),
            match unit.fault() {
                None => r is Ok,
                Some(rule) => r matches Err(e) && e@ == rule,
            },
    {
        match decide_admission(&unit) {
            Ok(events) => {
                assert(events@ == seq![UnitEvent::Enqueued]);
                self.priority_view.on_queue_event(&events[0]);
                self.heterogeneity_view.apply(&events[0]);
                self.priority_set.push(unit);
                proof {
                    if old(self).told_apart() {
                        lemma_still_told_apart(*old(self), *self);
                    }
                }
                Ok(())
            },
            Err(rule) => {
                self.heterogeneity_view.apply(&UnitEvent::Rejected);
                proof {
                    if old(self).told_apart() {
                        lemma_still_told_apart(*old(self), *self);
                    }
                }
                Err(rule)
            },
        }
    }

    fn position_of(&self, unit_ref: &str) -> (r: Option<usize>)
        ensures
            match r {
                Some(i) => i < self.priority_set@.len() && first_named(
                    self.priority_set@,
                    unit_ref@,
                    0,
                ) == Some(i as int),
                None => first_named(self.priority_set@, unit_ref@, 0) is None,
            },
    {
        let mut i: usize = 0;
        while i < self.priority_set.len()
            invariant
                i <= self.priority_set@.len(),
                first_named(self.priority_set@, unit_ref@, 0) == first_named(
                    self.priority_set@,
                    unit_ref@,
                    i as int,
                ),
            decreases self.priority_set@.len() - i,
        {
            if same(self.priority_set[i].unit_ref.as_str(), unit_ref) {
                return Some(i);
            }
            i += 1;
        }
        None
    }

    /// Moves a queued unit to the front of the set.
    pub fn reprioritize_to_front(&mut self, unit_ref: &str) -> (r: Result<(), &'static str>)
        ensures
            old(self).consistent() ==> final(self).consistent(),
            old(self).orderly() ==> final(self).orderly(),
            final(self).reordered(old(self), unit_ref@),
            match first_named(old(self).priority_set@, unit_ref@, 0) {
                Some(_) => r is Ok,
                None => r matches Err(e) && e@ == "inv-only-queued-reorderable"@,
            },
    {
        let found: Option<usize> = self.position_of(unit_ref);
        let guard = match found {
            Some(_) => UnitState { state: Lifecycle::Queued, ladder: 0 },
            None => UnitState::default(),
        };
        match guard.decide(&UnitCommand::Reprioritize) {
            Ok(_) => {
                match found {
                    Some(i) => {
                        let u: WorkUnit = self.priority_set.remove(i);
                        self.priority_set.insert(0, u);
                        assert(self.priority_set@ =~= seq![old(self).priority_set@[i as int]]
                            + old(self).priority_set@.remove(i as int));
                    },
                    None => {},
                }
                proof {
                    if old(self).told_apart() {
                        lemma_still_told_apart(*old(self), *self);
                    }
                }
                Ok(())
            },
            Err(rule) => Err(rule),
        }
    }
}

// ------------------------------------------------------------------ draining

/// The unit one rung up: the whole unit, at the heavy tier.
pub open spec fn raised(unit: WorkUnit, up: WorkUnit) -> bool {
    &&& up == WorkUnit {
        ladder_position: (unit.ladder_position + 1) as u32,
        tier: up.tier,
        ..unit
    }
    &&& up.tier@ == "heavy"@
}

/// What becomes of a unit with this verdict, and of the queue behind it: an
/// accepted unit is done; any other goes back whole, one rung up, or is halted
/// at the top of the ladder.
pub open spec fn settled(
    before: Seq<WorkUnit>,
    unit: WorkUnit,
    verdict: Verdict,
    after: Seq<WorkUnit>,
    outcome: DrainOutcome,
) -> bool {
    if verdict == Verdict::Accepted {
        &&& after == before
        &&& outcome matches DrainOutcome::Accepted { unit_ref } && unit_ref@ == unit.unit_ref@
    } else if unit.ladder_position < MAX_LADDER {
        &&& after.len() == before.len() + 1
        &&& after.drop_last() == before
        &&& raised(unit, after.last())
        &&& outcome matches DrainOutcome::Escalated { unit_ref, to_ladder } && unit_ref@
            == unit.unit_ref@ && to_ladder == unit.ladder_position + 1
    } else {
        &&& after == before
        &&& outcome matches DrainOutcome::Halted { unit_ref } && unit_ref@ == unit.unit_ref@
    }
}

fn run_step(run: &mut RunState, c: RunCommand)
    requires
        old(run).decided(c) is Ok,
    ensures
        *final(run) == old(run).evolved(old(run).decided(c)->Ok_0[0]),
{
    if let Ok(events) = run.decide(&c) {
        run.evolve(&events[0]);
    }
}

impl Engine {
    /// Escalates a unit atomically: the whole unit is queued again one rung up
    /// if the ladder has headroom, else it is halted.
    pub fn escalate(&mut self, unit: WorkUnit) -> (r: DrainOutcome)
        requires
            unit.ladder_position < MAX_LADDER ==> old(self).priority_view.queued < i64::MAX,
        ensures
            old(self).consistent() && unit.fault() is None ==> final(self).consistent(),
            final(self).same_stream(old(self)),
            final(self).same_box(old(self)),
            final(self).utilization == old(self).utilization,
            final(self).heterogeneity_view == old(self).heterogeneity_view,
            settled(
                old(self).priority_set@,
                unit,
                Verdict::Escalate,
                final(self).priority_set@,
                r,
            ),
            final(self).priority_view.queued == old(self).priority_view.queued
                + final(self).priority_set@.len() - old(self).priority_set@.len(),
    {
        let guard = UnitState { state: Lifecycle::Queued, ladder: unit.ladder_position };
        match guard.decide(&UnitCommand::Escalate { max_ladder: MAX_LADDER }) {
            Ok(events) => {
                assert(events@ == seq![UnitEvent::Escalated]);
                self.priority_view.on_queue_event(&events[0]);
                let ghost before = unit;
                let mut unit: WorkUnit = unit;
                unit.ladder_position += 1;
                unit.tier = "heavy".to_owned();
                let to_ladder: u32 = unit.ladder_position;
                let unit_ref: String = unit.unit_ref.clone();
                self.priority_set.push(unit);
                assert(self.priority_set@.drop_last() =~= old(self).priority_set@);
                proof {
                    lemma_same_fault(before, unit);
                }
                DrainOutcome::Escalated { unit_ref, to_ladder }
            },
            Err(_) => DrainOutcome::Halted { unit_ref: unit.unit_ref },
        }
    }

    /// Settles a unit by its verdict.
    pub(crate) fn settle(&mut self, unit: WorkUnit, verdict: Verdict) -> (r: DrainOutcome)
        requires
            verdict != Verdict::Accepted && unit.ladder_position < MAX_LADDER
                ==> old(self).priority_view.queued < i64::MAX,
        ensures
            old(self).consistent() && unit.fault() is None ==> final(self).consistent(),
            final(self).same_stream(old(self)),
            final(self).same_box(old(self)),
            final(self).utilization == old(self).utilization,
            final(self).heterogeneity_view == old(self).heterogeneity_view,
            settled(old(self).priority_set@, unit, verdict, final(self).priority_set@, r),
            final(self).priority_view.queued == old(self).priority_view.queued
                + final(self).priority_set@.len() - old(self).priority_set@.len(),
    {
        match verdict {
            Verdict::Accepted => DrainOutcome::Accepted { unit_ref: unit.unit_ref },
            Verdict::Rejected => self.escalate(unit),
            Verdict::Escalate => self.escalate(unit),
            Verdict::NotAdmitted => self.escalate(unit),
        }
    }

    /// Numbers and builds the event of a unit that ran.
    pub(crate) fn verdict_event(
        &mut self,
        unit: &WorkUnit,
        verdict: Verdict,
        cell_results: Vec<CellResult>,
        delivery_result: Option<DeliveryResult>,
        now: &str,
    ) -> (e: VerdictEvent)
        requires
            old(self).seq < u64::MAX,
        ensures
            final(self).seq == old(self).seq + 1,
            final(self).stream@ == old(self).stream@,
            final(self).verdict_view == old(self).verdict_view,
            final(self).same_queue(old(self)),
            final(self).same_box(old(self)),
            final(self).utilization == old(self).utilization,
            ran_event(
                e,
                *unit,
                final(self).seq as nat,
                now@,
                verdict,
                cell_results@,
                delivery_result,
            ),
    {
        self.seq += 1;
        let tier_ran: &str = if unit.ladder_position == 0 {
            "light"
        } else {
            "heavy"
        };
        VerdictEvent {
            event_id: self.event_id(unit.unit_ref.as_str()),
            emitted_at: now.to_owned(),
            unit_ref: unit.unit_ref.clone(),
            parent_deliverable: unit.parent_deliverable.clone(),
            bundle_hash: unit.bundle_hash.clone(),
            verdict,
            missing_capabilities: None,
            tier_ran: Some(tier_ran.to_owned()),
            cell_results,
            delivery_result,
            next_consequence: consequence_of(verdict),
        }
    }

    /// Puts an event on the stream.
    pub(crate) fn emit(&mut self, event: VerdictEvent)
        requires
            old(self).verdict_view.emitted < i64::MAX,
        ensures
            final(self).stream@ == old(self).stream@.push(event),
            final(self).verdict_view.emitted == old(self).verdict_view.emitted + 1,
            final(self).seq == old(self).seq,
            final(self).same_queue(old(self)),
            final(self).same_box(old(self)),
            final(self).utilization == old(self).utilization,
    {
        self.stream.push(event);
        self.verdict_view.emitted += 1;
    }

    /// The engine after a unit was answered as not admitted: it is off the
    /// queue, its event is on the stream, and nothing else has changed.
    pub open spec fn refused_front(&self, before: &Engine, now: Seq<char>, r: DrainOutcome) -> bool {
        let unit = before.priority_set@[0];
        &&& self.same_box(before)
        &&& self.utilization == before.utilization
        &&& self.heterogeneity_view == before.heterogeneity_view
        &&& self.priority_set@ == before.priority_set@.remove(0)
        &&& self.priority_view.queued == before.priority_view.queued - 1
        &&& self.seq == before.seq + 1
        &&& self.verdict_view.emitted == before.verdict_view.emitted + 1
        &&& self.stream@.len() == before.stream@.len() + 1
        &&& self.stream@.drop_last() == before.stream@
        &&& r matches DrainOutcome::NotAdmitted { unit_ref, missing } && unit_ref@
            == unit.unit_ref@ && increasing(texts(missing@)) && texts(missing@).to_set()
            == before.manifest.distance(unit) && not_admitted_event(
            self.stream@.last(),
            unit,
            self.seq as nat,
            now,
            texts(missing@),
        )
    }

    /// The engine after the front unit ran to these results: its event is on the
    /// stream, and the unit is settled by its verdict.
    pub open spec fn drained_front(
        &self,
        before: &Engine,
        now: Seq<char>,
        results: Seq<CellResult>,
        r: DrainOutcome,
    ) -> bool {
        let unit = before.priority_set@[0];
        let rest = before.priority_set@.remove(0);
        &&& self.same_box(before)
        &&& self.utilization == before.utilization
        &&& self.heterogeneity_view == before.heterogeneity_view
        &&& self.seq == before.seq + 1
        &&& self.verdict_view.emitted == before.verdict_view.emitted + 1
        &&& self.stream@.len() == before.stream@.len() + 1
        &&& self.stream@.drop_last() == before.stream@
        &&& ran_event(
            self.stream@.last(),
            unit,
            self.seq as nat,
            now,
            unit_verdict(results),
            results,
            None,
        )
        &&& settled(rest, unit, unit_verdict(results), self.priority_set@, r)
        &&& self.priority_view.queued == before.priority_view.queued - 1 + (
        self.priority_set@.len() - rest.len())
    }

    /// The engine after a unit was to be drained: nothing happens outside queue
    /// mode and where nothing is queued; else the front unit is refused, or runs.
    pub open spec fn drained(&self, before: &Engine, now: Seq<char>, r: DrainOutcome) -> bool {
        if before.mode != Mode::Queue {
            r == DrainOutcome::NotQueueMode && self.same_as(before)
        } else if before.priority_set@.len() == 0 {
            r == DrainOutcome::Idle && self.same_as(before)
        } else if before.manifest.distance(before.priority_set@[0]) != Set::<Seq<char>>::empty() {
            self.refused_front(before, now, r)
        } else {
            exists|results: Seq<CellResult>| #[trigger]
                self.drained_front(before, now, results, r)
        }
    }

    /// Takes the front unit off the queue. It is handed back to be run, or was
    /// answered as not admitted.
    pub(crate) fn take_front(&mut self, now: &str) -> (r: Result<WorkUnit, DrainOutcome>)
        requires
            old(self).priority_set@.len() > 0,
            old(self).has_room(),
        ensures
            match r {
                Ok(unit) => {
                    &&& unit == old(self).priority_set@[0]
                    &&& old(self).manifest.distance(unit) == Set::<Seq<char>>::empty()
                    &&& final(self).same_stream(old(self))
                    &&& final(self).same_box(old(self))
                    &&& final(self).utilization == old(self).utilization
                    &&& final(self).heterogeneity_view == old(self).heterogeneity_view
                    &&& final(self).priority_set@ == old(self).priority_set@.remove(0)
                    &&& final(self).priority_view.queued == old(self).priority_view.queued - 1
                },
                Err(outcome) => {
                    &&& old(self).manifest.distance(old(self).priority_set@[0]) != Set::<
                        Seq<char>,
                    >::empty()
                    &&& final(self).refused_front(old(self), now@, outcome)
                },
            },
    {
        let unit: WorkUnit = self.priority_set.remove(0);
        self.priority_view.on_admitted();
        let missing: Vec<String> = self.manifest.missing_for(&unit);
        if missing.len() > 0 {
            proof {
                let id = texts(missing@)[0];
                assert(texts(missing@).contains(id));
                assert(old(self).manifest.distance(unit).contains(id));
            }
            Err(self.emit_not_admitted(&unit, missing, now))
        } else {
            assert(texts(missing@).to_set() =~= Set::<Seq<char>>::empty());
            Ok(unit)
        }
    }

    /// Drains one unit, in queue mode only: it is taken off the front, answered
    /// as not admitted where the box lacks what it needs, else walked against the
    /// oracle; its event is emitted, and it is settled by its verdict.
    pub fn drain_one<O: Oracle>(&mut self, oracle: &O, now: &str) -> (r: DrainOutcome)
        requires
            old(self).has_room(),
        ensures
            old(self).consistent() ==> final(self).consistent(),
            old(self).orderly() ==> final(self).orderly(),
            final(self).told_one_more_at_most(old(self)),
            final(self).drained(old(self), now@, r),
            old(self).mode == Mode::Queue && old(self).priority_set@.len() > 0
                && old(self).manifest.distance(old(self).priority_set@[0]) == Set::<
                Seq<char>,
            >::empty() ==> {
                let cells = old(self).priority_set@[0].cell_graph@;
                exists|gates: Seq<bool>, results: Seq<CellResult>|
                    {
                        &&& gates.len() == cells.len()
                        &&& #[trigger] reports(results, cells, walk(cells, gates))
                        &&& forall|p: int|
                            0 <= p < walk(cells, gates).len() && walk(cells, gates)[p].1
                                != CellVerdict::Skipped ==> answered(
                                *oracle,
                                cells[(#[trigger] walk(cells, gates)[p]).0],
                                gates[walk(cells, gates)[p].0],
                            )
                        &&& final(self).drained_front(old(self), now@, results, r)
                    }
            },
    {
        if self.mode != Mode::Queue {
            return DrainOutcome::NotQueueMode;
        }
        if self.priority_set.len() == 0 {
            return DrainOutcome::Idle;
        }
        let unit: WorkUnit = match self.take_front(now) {
            Ok(unit) => unit,
            Err(refused) => {
                proof {
                    if old(self).orderly() {
                        lemma_drained_stays_orderly(*old(self), *self, now@, refused);
                    }
                }
                return refused;
            },
        };
        self.utilization.in_flight += 1;
        let mut run: RunState = RunState::default();
        run_step(&mut run, RunCommand::Admit { box_mode: self.mode });
        let cell_results: Vec<CellResult> = walk_cells(unit.cell_graph.as_slice(), oracle);
        let ghost results = cell_results@;
        run_step(&mut run, RunCommand::ComputeVerdict);
        run_step(&mut run, RunCommand::Emit);
        let verdict: Verdict = reduce_verdict(cell_results.as_slice());
        let event: VerdictEvent = self.verdict_event(&unit, verdict, cell_results, None, now);
        self.emit(event);
        assert(self.stream@.drop_last() =~= old(self).stream@);
        self.utilization.in_flight -= 1;
        let r: DrainOutcome = self.settle(unit, verdict);
        proof {
            let cells = unit.cell_graph@;
            let gates = choose|gates: Seq<bool>|
                {
                    &&& gates.len() == cells.len()
                    &&& reports(results, cells, #[trigger] walk(cells, gates))
                    &&& forall|p: int|
                        0 <= p < walk(cells, gates).len() && walk(cells, gates)[p].1
                            != CellVerdict::Skipped ==> answered(
                            *oracle,
                            cells[(#[trigger] walk(cells, gates)[p]).0],
                            gates[walk(cells, gates)[p].0],
                        )
                };
            assert(reports(results, cells, walk(cells, gates)));
            assert(self.drained_front(old(self), now@, results, r));
            assert(self.drained(old(self), now@, r));
            if old(self).orderly() {
                lemma_drained_stays_orderly(*old(self), *self, now@, r);
            }
        }
        r
    }
}

// --------------------------------------------------------------- exploration

impl Engine {
    /// Starts an exploration, in explorer mode only.
    pub fn start_exploration(&mut self) -> (r: Result<(), &'static str>)
        ensures
            old(self).consistent() ==> final(self).consistent(),
            final(self).same_queue(old(self)),
            final(self).same_stream(old(self)),
            final(self).same_box(old(self)),
            if old(self).mode == Mode::Explorer {
                &&& r is Ok
                &&& final(self).utilization == UtilizationView {
                    exploring: true,
                    ..old(self).utilization
                }
            } else {
                &&& r matches Err(e) && e@ == "inv-box-must-be-explorer"@
                &&& final(self).utilization == old(self).utilization
            },
    {
        match SessionState::default().decide(&SessionCommand::Start { box_mode: self.mode }) {
            Ok(_) => {
                self.utilization.exploring = true;
                Ok(())
            },
            Err(rule) => Err(rule),
        }
    }

    /// Ends an exploration with its discovery record, in explorer mode only.
    pub fn produce_discovery_record(&mut self) -> (r: Result<(), &'static str>)
        requires
            old(self).utilization.discoveries < i64::MAX,
        ensures
            old(self).consistent() ==> final(self).consistent(),
            final(self).same_queue(old(self)),
            final(self).same_stream(old(self)),
            final(self).same_box(old(self)),
            if old(self).mode == Mode::Explorer && old(self).utilization.exploring {
                &&& r is Ok
                &&& final(self).utilization == UtilizationView {
                    exploring: false,
                    discoveries: (old(self).utilization.discoveries + 1) as i64,
                    ..old(self).utilization
                }
            } else {
                &&& r matches Err(e) && e@ == "inv-session-not-active"@
                &&& final(self).utilization == old(self).utilization
            },
    {
        let state = if self.mode == Mode::Explorer && self.utilization.exploring {
            SessionState { phase: SessionPhase::Active }
        } else {
            SessionState::default()
        };
        match state.decide(&SessionCommand::ProduceDiscoveryRecord) {
            Ok(_) => {
                self.utilization.exploring = false;
                self.utilization.discoveries += 1;
                Ok(())
            },
            Err(rule) => Err(rule),
        }
    }
}

// ----------------------------------------------------------------- residency

/// What has to be done before a residency counts as retired.
#[derive(Clone, Copy, Debug, PartialEq, Eq, Structural)]
pub enum Retirement {
    /// No host is live.
    Nothing,
    /// A host counts as live, but there is no handle to stop it by.
    Forget,
    /// The live host has to be stopped.
    Stop,
}

impl Engine {
    /// Everything but the host is as it was.
    pub open spec fn same_but_host(&self, other: &Engine) -> bool {
        &&& self.same_queue(other)
        &&& self.same_stream(other)
        &&& self.utilization == other.utilization
        &&& self.mode == other.mode
        &&& self.manifest == other.manifest
    }

    fn host_step(&mut self, c: HostCommand)
        requires
            old(self).host.decided(c) is Ok,
            i64::MIN <= old(self).serving_host_view.materialized + host_change(
                old(self).host.decided(c)->Ok_0[0],
            ) <= i64::MAX,
        ensures
            final(self).same_but_host(old(self)),
            final(self).host_handle == old(self).host_handle,
            final(self).host == old(self).host.evolved(old(self).host.decided(c)->Ok_0[0]),
            final(self).serving_host_view == old(self).serving_host_view.applied(
                old(self).host.decided(c)->Ok_0[0],
            ),
    {
        if let Ok(events) = self.host.decide(&c) {
            self.host.evolve(&events[0]);
            self.serving_host_view.apply(&events[0]);
        }
    }

    /// What retiring the residency takes.
    pub fn retirement(&self) -> (r: Retirement)
        ensures
            r == if !self.host.live() {
                Retirement::Nothing
            } else if self.host_handle is None {
                Retirement::Forget
            } else {
                Retirement::Stop
            },
    {
        match self.host.decide(&HostCommand::Retire) {
            Ok(_) => match &self.host_handle {
                Some(_) => Retirement::Stop,
                None => Retirement::Forget,
            },
            Err(_) => Retirement::Nothing,
        }
    }

    /// Retires the residency, once its host is stopped. Nothing happens where no
    /// host is live.
    pub fn retire_residency(&mut self)
        requires
            old(self).host.live() ==> old(self).serving_host_view.materialized > i64::MIN,
        ensures
            old(self).consistent() ==> final(self).consistent(),
            final(self).same_but_host(old(self)),
            !final(self).host.live(),
            if old(self).host.live() {
                &&& final(self).host == old(self).host.evolved(HostEvent::HostRetired)
                &&& final(self).serving_host_view == old(self).serving_host_view.applied(
                    HostEvent::HostRetired,
                )
                &&& final(self).host_handle is None
            } else {
                final(self).same_as(old(self))
            },
    {
        match self.host.decide(&HostCommand::Retire) {
            Ok(_) => {
                self.host_step(HostCommand::Retire);
                self.host_handle = None;
            },
            Err(_) => {},
        }
    }

    /// Whether a host may be launched now.
    pub fn may_launch(&self) -> (r: Result<(), &'static str>)
        ensures
            match r {
                Ok(_) => !self.host.live(),
                Err(e) => self.host.live() && e@ == "inv-single-serving-host"@,
            },
    {
        match self.host.decide(&HostCommand::Launch { containerized: true }) {
            Ok(_) => Ok(()),
            Err(rule) => Err(rule),
        }
    }

    /// Takes note of a launched host. The result is where to probe it for
    /// readiness, or the rule that refuses a second host.
    pub fn launch_residency(&mut self, handle: HostHandle) -> (r: Result<
        (String, u16),
        &'static str,
    >)
        requires
            !old(self).host.live() ==> old(self).serving_host_view.materialized < i64::MAX,
        ensures
            old(self).consistent() ==> final(self).consistent(),
            final(self).same_but_host(old(self)),
            if old(self).host.live() {
                &&& r matches Err(e) && e@ == "inv-single-serving-host"@
                &&& final(self).same_as(old(self))
            } else {
                &&& r matches Ok(target) && (target.0@, target.1) == probe_target(handle.endpoint@)
                &&& final(self).host == old(self).host.evolved(HostEvent::HostLaunched)
                &&& final(self).serving_host_view == old(self).serving_host_view.applied(
                    HostEvent::HostLaunched,
                )
                &&& final(self).host_handle == Some(handle)
            },
    {
        match self.may_launch() {
            Ok(_) => {
                self.host_step(HostCommand::Launch { containerized: true });
                let target: (String, u16) = host_port(handle.endpoint.as_str());
                self.host_handle = Some(handle);
                Ok(target)
            },
            Err(rule) => Err(rule),
        }
    }

    /// Confirms a launched host, if it answered. The result is whether it did: a
    /// host that stayed cold is not to be dispatched to yet.
    pub fn confirm_residency(&mut self, answered: bool) -> (r: bool)
        ensures
            old(self).consistent() ==> final(self).consistent(),
            r == answered,
            final(self).same_but_host(old(self)),
            final(self).host_handle == old(self).host_handle,
            if answered && old(self).host.phase == crate::host::HostPhase::Launched {
                &&& final(self).host == old(self).host.evolved(HostEvent::HostReady)
                &&& final(self).serving_host_view == old(self).serving_host_view.applied(
                    HostEvent::HostReady,
                )
            } else {
                final(self).same_as(old(self))
            },
    {
        if answered {
            match self.host.decide(&HostCommand::ConfirmReady) {
                Ok(_) => self.host_step(HostCommand::ConfirmReady),
                Err(_) => {},
            }
        }
        answered
    }
}

// ---------------------------------------------------------------------- laws

/// Exploration is active only while the box is in explorer mode: in no other mode
/// is a session open, so none yields a discovery record.
pub proof fn law_exploration_is_active_in_explorer_mode_only(e: Engine)
    requires
        e.consistent(),
        e.mode != Mode::Explorer,
    ensures
        !e.utilization.exploring,
{
}

proof fn lemma_one_more_stamped(
    stream: Seq<VerdictEvent>,
    numbers: Seq<nat>,
    last: nat,
    after: Seq<VerdictEvent>,
    number: nat,
)
    requires
        stamped(stream, numbers, last),
        last < number,
        after.len() == stream.len() + 1,
        after.drop_last() == stream,
        after.last().event_id@ == event_name(after.last().unit_ref@, number),
    ensures
        stamped(after, numbers.push(number), number),
{
    let more = numbers.push(number);
    assert forall|i: int|
        #![trigger more[i]]
        0 <= i < after.len() implies more[i] <= number && after[i].event_id@ == event_name(
        after[i].unit_ref@,
        more[i],
    ) by {
        if i < stream.len() {
            assert(after.drop_last()[i] == after[i]);
            assert(more[i] == numbers[i]);
        }
    }
}

/// Events stay told apart while none is added, also where numbers are given up.
pub proof fn lemma_still_told_apart(before: Engine, after: Engine)
    requires
        before.told_apart(),
        after.stream@ == before.stream@,
        after.seq >= before.seq,
    ensures
        after.told_apart(),
{
    let numbers = choose|numbers: Seq<nat>| #[trigger]
        stamped(before.stream@, numbers, before.seq as nat);
    assert(stamped(after.stream@, numbers, after.seq as nat));
}

/// An event under the next number keeps the events told apart.
pub proof fn lemma_one_more_told_apart(before: Engine, after: Engine)
    requires
        before.told_apart(),
        after.seq > before.seq,
        after.stream@.len() == before.stream@.len() + 1,
        after.stream@.drop_last() == before.stream@,
        after.stream@.last().event_id@ == event_name(
            after.stream@.last().unit_ref@,
            after.seq as nat,
        ),
    ensures
        after.told_apart(),
{
    let numbers = choose|numbers: Seq<nat>| #[trigger]
        stamped(before.stream@, numbers, before.seq as nat);
    lemma_one_more_stamped(
        before.stream@,
        numbers,
        before.seq as nat,
        after.stream@,
        after.seq as nat,
    );
}

proof fn lemma_drained_stays_orderly(
    before: Engine,
    after: Engine,
    now: Seq<char>,
    r: DrainOutcome,
)
    requires
        before.orderly(),
        after.drained(&before, now, r),
    ensures
        after.orderly(),
        after.told_one_more_at_most(&before),
{
    let units = before.priority_set@;
    if before.mode == Mode::Queue && units.len() > 0 {
        let rest = units.remove(0);
        assert forall|i: int| 0 <= i < rest.len() implies (#[trigger] rest[i]).fault() is None by {
            assert(rest[i] == units[i + 1]);
        }
        if before.manifest.distance(units[0]) == Set::<Seq<char>>::empty() {
            let results = choose|results: Seq<CellResult>| #[trigger]
                after.drained_front(&before, now, results, r);
            let queue = after.priority_set@;
            if queue.len() > rest.len() {
                lemma_same_fault(units[0], queue.last());
                assert forall|i: int| 0 <= i < queue.len() implies (
                #[trigger] queue[i]).fault() is None by {
                    if i < rest.len() {
                        assert(queue.drop_last()[i] == queue[i]);
                    }
                }
            }
        }
        lemma_one_more_told_apart(before, after);
    }
}

/// A fresh engine is orderly, also under another manifest.
pub proof fn law_a_fresh_engine_is_orderly(e: Engine)
    requires
        e.fresh_but_for_manifest(),
    ensures
        e.orderly(),
{
    assert(stamped(e.stream@, Seq::empty(), 0));
}

/// The events of an orderly engine have different ids.
pub proof fn law_events_have_different_ids(e: Engine, i: int, j: int)
    requires
        e.told_apart(),
        0 <= i < j < e.stream@.len(),
    ensures
        e.stream@[i].event_id@ != e.stream@[j].event_id@,
{
    let numbers = choose|numbers: Seq<nat>| #[trigger]
        stamped(e.stream@, numbers, e.seq as nat);
    assert(numbers[i] < numbers[j]);
    if e.stream@[i].event_id@ == e.stream@[j].event_id@ {
        law_an_event_name_tells_unit_and_number(
            e.stream@[i].unit_ref@,
            numbers[i],
            e.stream@[j].unit_ref@,
            numbers[j],
        );
    }
}

/// One engine comes from another by a throw of the switch, the arrival of a unit,
/// a reordering, the draining of a unit, or a new manifest.
pub open spec fn operated(before: Engine, after: Engine) -> bool {
    ||| exists|mode: Mode| #[trigger] after.switched(&before, mode)
    ||| exists|unit: WorkUnit| #[trigger] after.handled(&before, unit)
    ||| exists|unit_ref: Seq<char>| #[trigger] after.reordered(&before, unit_ref)
    ||| exists|now: Seq<char>, r: DrainOutcome| #[trigger] after.drained(&before, now, r)
    ||| after == Engine { manifest: after.manifest, ..before }
}

/// One operation after the other, from a fresh engine.
pub open spec fn career(states: Seq<Engine>) -> bool {
    &&& states.len() > 0
    &&& states[0].fresh_but_for_manifest()
    &&& forall|k: int|
        0 <= k < states.len() - 1 ==> operated(#[trigger] states[k], states[k + 1])
}

proof fn lemma_operated_stays_orderly(before: Engine, after: Engine)
    requires
        before.orderly(),
        operated(before, after),
    ensures
        after.orderly(),
        after.told_one_more_at_most(&before),
{
    let units = before.priority_set@;
    let queue = after.priority_set@;
    let numbers = choose|numbers: Seq<nat>| #[trigger]
        stamped(before.stream@, numbers, before.seq as nat);
    if exists|now: Seq<char>, r: DrainOutcome| #[trigger] after.drained(&before, now, r) {
        let (now, r) = choose|now: Seq<char>, r: DrainOutcome| #[trigger]
            after.drained(&before, now, r);
        lemma_drained_stays_orderly(before, after, now, r);
    } else {
        assert(stamped(after.stream@, numbers, after.seq as nat));
        if exists|unit_ref: Seq<char>| #[trigger] after.reordered(&before, unit_ref) {
            let unit_ref = choose|unit_ref: Seq<char>| #[trigger]
                after.reordered(&before, unit_ref);
            if let Some(i) = first_named(units, unit_ref, 0) {
                assert forall|k: int| 0 <= k < queue.len() implies (
                #[trigger] queue[k]).fault() is None by {
                    if k > 0 {
                        assert(queue[k] == units.remove(i)[k - 1]);
                    }
                }
            }
        }
    }
}

/// However an engine came about from a fresh one by throwing the switch, handing
/// in units, reordering and draining them, it is orderly: its projections agree
/// with what they project, nothing is in flight, and no two of its events have one
/// id. Each of these operations adds at most one event, at the end of the stream.
pub proof fn law_an_engine_stays_orderly(states: Seq<Engine>, n: int)
    requires
        career(states),
        0 <= n < states.len(),
    ensures
        states[n].orderly(),
        forall|i: int, j: int|
            0 <= i < j < states[n].stream@.len() ==> (#[trigger] states[n].stream@[i]).event_id@
                != (#[trigger] states[n].stream@[j]).event_id@,
        n > 0 ==> states[n].told_one_more_at_most(&states[n - 1]),
    decreases n,
{
    if n == 0 {
        law_a_fresh_engine_is_orderly(states[0]);
    } else {
        law_an_engine_stays_orderly(states, n - 1);
        assert(operated(states[n - 1], states[n - 1 + 1]));
        lemma_operated_stays_orderly(states[n - 1], states[n]);
    }
    assert forall|i: int, j: int| 0 <= i < j < states[n].stream@.len() implies (
    #[trigger] states[n].stream@[i]).event_id@ != (
    #[trigger] states[n].stream@[j]).event_id@ by {
        law_events_have_different_ids(states[n], i, j);
    }
}

/// A fresh engine is consistent; every operation keeps it so.
pub proof fn law_a_fresh_engine_is_consistent(e: Engine)
    requires
        e.fresh(),
    ensures
        e.consistent(),
{
}

/// Only units that passed the admission guard are queued, so a unit that is
/// taken off the queue wants one binding throughout, names only its own cells
/// and its own pool, and has a prompt and a shape in every cell.
pub proof fn law_queued_units_have_passed_the_guard(e: Engine, i: int)
    requires
        e.consistent(),
        0 <= i < e.priority_set@.len(),
    ensures
        e.priority_set@[i].homogeneous(),
        e.priority_set@[i].fault() is None,
{
}

/// A unit that the box cannot cover never runs: it leaves the queue, its event
/// names no tier and no cells, carries a distance that is not empty, and halts;
/// nothing enters flight, and the unit is not queued again.
pub proof fn law_a_unit_that_is_not_covered_never_runs(
    before: Engine,
    after: Engine,
    now: Seq<char>,
    r: DrainOutcome,
)
    requires
        before.priority_set@.len() > 0,
        before.manifest.distance(before.priority_set@[0]) != Set::<Seq<char>>::empty(),
        after.refused_front(&before, now, r),
    ensures
        after.utilization.in_flight == before.utilization.in_flight,
        after.priority_set@.len() == before.priority_set@.len() - 1,
        ({
            let e = after.stream@.last();
            &&& e.verdict == Verdict::NotAdmitted
            &&& e.tier_ran is None
            &&& e.cell_results@.len() == 0
            &&& e.next_consequence == crate::interface::Consequence::Halt
            &&& e.missing_capabilities matches Some(m) && m@.len() > 0
        }),
{
    let d = before.manifest.distance(before.priority_set@[0]);
    let m = after.stream@.last().missing_capabilities->0;
    if m@.len() == 0 {
        assert(texts(m@).to_set() =~= Set::<Seq<char>>::empty());
    }
}

/// Escalation is bounded: a unit that fails is queued again at a higher rung
/// while the ladder lasts, and at its top it is never queued again.
pub proof fn law_a_failing_unit_climbs_the_ladder_and_halts(
    before: Seq<WorkUnit>,
    unit: WorkUnit,
    verdict: Verdict,
    after: Seq<WorkUnit>,
    r: DrainOutcome,
)
    requires
        verdict != Verdict::Accepted,
        settled(before, unit, verdict, after, r),
    ensures
        unit.ladder_position >= MAX_LADDER ==> after == before && r is Halted,
        unit.ladder_position < MAX_LADDER ==> {
            &&& after.last().ladder_position == unit.ladder_position + 1
            &&& after.last().ladder_position <= MAX_LADDER
            &&& after.last().cell_graph == unit.cell_graph
            &&& after.last().bundle_hash == unit.bundle_hash
        },
{
}

/// An accepted unit leaves the queue for good: it is in no way queued again.
pub proof fn law_an_accepted_unit_is_done(
    before: Seq<WorkUnit>,
    unit: WorkUnit,
    after: Seq<WorkUnit>,
    r: DrainOutcome,
)
    requires
        settled(before, unit, Verdict::Accepted, after, r),
    ensures
        after == before,
{
}

/// Reordering loses no unit and adds none.
pub proof fn law_reordering_keeps_the_units(units: Seq<WorkUnit>, i: int)
    requires
        0 <= i < units.len(),
    ensures
        (seq![units[i]] + units.remove(i)).to_multiset() == units.to_multiset(),
        (seq![units[i]] + units.remove(i))[0] == units[i],
{
    broadcast use vstd::seq_lib::group_to_multiset_ensures;

    let u = units[i];
    let rest = units.remove(i);
    assert(seq![u] + rest =~= rest.insert(0, u));
    assert(units =~= rest.insert(i, u));
}

/// The id of an event tells its unit and its number: events of different units,
/// or with different numbers, have different ids.
pub proof fn law_an_event_name_tells_unit_and_number(
    a: Seq<char>,
    m: nat,
    b: Seq<char>,
    n: nat,
)
    requires
        event_name(a, m) == event_name(b, n),
    ensures
        a == b,
        m == n,
{
    reveal_strlit("ve-");
    reveal_strlit("-");
    let x = decimal(m);
    let y = decimal(n);
    crate::text::lemma_decimal_digits(m);
    crate::text::lemma_decimal_digits(n);
    let e = event_name(a, m);
    let f = event_name(b, n);
    assert(e.len() == 3 + a.len() + 1 + x.len());
    assert(f.len() == 3 + b.len() + 1 + y.len());
    assert(e[3 + a.len() as int] == '-');
    assert(f[3 + b.len() as int] == '-');
    if a.len() < b.len() {
        let k = b.len() - a.len() - 1;
        assert(e[3 + b.len() as int] == x[k]);
        assert(crate::text::is_digit(x[k]));
    } else if b.len() < a.len() {
        let k = a.len() - b.len() - 1;
        assert(f[3 + a.len() as int] == y[k]);
        assert(crate::text::is_digit(y[k]));
    }
    assert forall|k: int| 0 <= k < a.len() implies a[k] == b[k] by {
        assert(e[3 + k] == a[k]);
        assert(f[3 + k] == b[k]);
    }
    assert(a =~= b);
    assert forall|k: int| 0 <= k < x.len() implies x[k] == y[k] by {
        assert(e[3 + a.len() + 1 + k] == x[k]);
        assert(f[3 + b.len() + 1 + k] == y[k]);
    }
    assert(x =~= y);
    crate::text::lemma_decimal_round_trip(m);
    crate::text::lemma_decimal_round_trip(n);
}

// --------------------------------------------------- laws of what is told

/// The event of a unit that ran tells which unit it was, its verdict with the
/// consequence that follows, the tier it ran at and the results of its cells; it
/// names nothing as missing.
pub proof fn law_an_event_tells_of_its_unit(
    e: VerdictEvent,
    unit: WorkUnit,
    number: nat,
    now: Seq<char>,
    verdict: Verdict,
    results: Seq<CellResult>,
    delivery: Option<DeliveryResult>,
)
    requires
        ran_event(e, unit, number, now, verdict, results, delivery),
    ensures
        e.unit_ref@ == unit.unit_ref@,
        e.parent_deliverable@ == unit.parent_deliverable@,
        e.bundle_hash@ == unit.bundle_hash@,
        e.emitted_at@ == now,
        e.event_id@ == "ve-"@ + unit.unit_ref@ + "-"@ + decimal(number),
        e.verdict == verdict,
        e.next_consequence == Consequence::Advance <==> verdict == Verdict::Accepted,
        e.next_consequence == Consequence::Escalate <==> verdict == Verdict::Escalate,
        e.missing_capabilities is None,
        unit.ladder_position == 0 ==> e.tier_ran is Some && e.tier_ran->0@ == "light"@,
        unit.ladder_position > 0 ==> e.tier_ran is Some && e.tier_ran->0@ == "heavy"@,
        e.cell_results@ == results,
        e.delivery_result == delivery,
{
}

/// The event of a unit that never ran tells which unit it was and what it lacked,
/// and halts; it tells of no tier, no cell and no landing.
pub proof fn law_a_refusal_tells_what_was_missing(
    e: VerdictEvent,
    unit: WorkUnit,
    number: nat,
    now: Seq<char>,
    missing: Seq<Seq<char>>,
)
    requires
        not_admitted_event(e, unit, number, now, missing),
    ensures
        e.unit_ref@ == unit.unit_ref@,
        e.parent_deliverable@ == unit.parent_deliverable@,
        e.bundle_hash@ == unit.bundle_hash@,
        e.emitted_at@ == now,
        e.event_id@ == "ve-"@ + unit.unit_ref@ + "-"@ + decimal(number),
        e.verdict == Verdict::NotAdmitted,
        e.next_consequence == Consequence::Halt,
        e.missing_capabilities is Some && texts(e.missing_capabilities->0@) == missing,
        e.tier_ran is None,
        e.cell_results@.len() == 0,
        e.delivery_result is None,
{
}

/// Draining takes the front unit off the queue. Where the box lacks what the unit
/// needs, what it lacks is told, all of it and nothing else, in order.
pub proof fn law_a_refused_unit_is_answered_with_its_distance(
    before: Engine,
    after: Engine,
    now: Seq<char>,
    r: DrainOutcome,
)
    requires
        before.priority_set@.len() > 0,
        after.refused_front(&before, now, r),
    ensures
        after.priority_set@ == before.priority_set@.subrange(
            1,
            before.priority_set@.len() as int,
        ),
        after.mode == before.mode,
        after.utilization == before.utilization,
        after.stream@.len() == before.stream@.len() + 1,
        after.stream@.take(before.stream@.len() as int) == before.stream@,
        r matches DrainOutcome::NotAdmitted { unit_ref, missing } && {
            let told = texts(missing@);
            &&& unit_ref@ == before.priority_set@[0].unit_ref@
            &&& forall|id: Seq<char>| #[trigger]
                told.contains(id) <==> before.priority_set@[0].required().contains(id)
                    && !before.manifest.capabilities.ids().contains(id)
            &&& forall|i: int, j: int|
                0 <= i < j < told.len() ==> crate::text::lex_lt(
                    #[trigger] told[i],
                    #[trigger] told[j],
                )
            &&& after.stream@.last().missing_capabilities is Some && texts(
                after.stream@.last().missing_capabilities->0@,
            ) == told
        },
{
    assert(before.priority_set@.remove(0) =~= before.priority_set@.subrange(
        1,
        before.priority_set@.len() as int,
    ));
    assert(after.stream@.take(before.stream@.len() as int) =~= after.stream@.drop_last());
    let missing = r->missing;
    let told = texts(missing@);
    assert forall|id: Seq<char>| #[trigger]
        told.contains(id) <==> before.priority_set@[0].required().contains(id)
            && !before.manifest.capabilities.ids().contains(id) by {
        assert(told.contains(id) <==> told.to_set().contains(id));
    }
}

/// A unit that ran has its event last on the stream, and is settled by the verdict
/// that the event tells: accepted units leave, others come back one rung up at the
/// end of the queue, or halt.
pub proof fn law_a_drained_unit_is_settled_by_the_verdict_told(
    before: Engine,
    after: Engine,
    now: Seq<char>,
    results: Seq<CellResult>,
    r: DrainOutcome,
)
    requires
        before.priority_set@.len() > 0,
        after.drained_front(&before, now, results, r),
    ensures
        ({
            let unit = before.priority_set@[0];
            let rest = before.priority_set@.subrange(1, before.priority_set@.len() as int);
            let e = after.stream@.last();
            &&& after.stream@.take(before.stream@.len() as int) == before.stream@
            &&& e.unit_ref@ == unit.unit_ref@
            &&& e.cell_results@ == results
            &&& e.verdict == Verdict::Accepted <==> forall|i: int|
                0 <= i < results.len() ==> (#[trigger] results[i]).passed
            &&& e.verdict == Verdict::Accepted || e.verdict == Verdict::Escalate
            &&& e.verdict == Verdict::Accepted ==> after.priority_set@ == rest && r is Accepted
            &&& e.verdict == Verdict::Escalate && unit.ladder_position == 0 ==> {
                &&& r is Escalated
                &&& after.priority_set@.len() == rest.len() + 1
                &&& after.priority_set@.take(rest.len() as int) == rest
                &&& after.priority_set@.last().ladder_position == 1
                &&& after.priority_set@.last().tier@ == "heavy"@
                &&& after.priority_set@.last().unit_ref == unit.unit_ref
                &&& after.priority_set@.last().cell_graph == unit.cell_graph
                &&& after.priority_set@.last().bundle_hash == unit.bundle_hash
                &&& after.priority_set@.last().model_binding == unit.model_binding
            }
            &&& e.verdict == Verdict::Escalate && unit.ladder_position > 0
                ==> after.priority_set@ == rest && r is Halted
        }),
{
    let rest = before.priority_set@.subrange(1, before.priority_set@.len() as int);
    assert(before.priority_set@.remove(0) =~= rest);
    assert(after.stream@.take(before.stream@.len() as int) =~= after.stream@.drop_last());
    if after.priority_set@.len() == rest.len() + 1 {
        assert(after.priority_set@.take(rest.len() as int) =~= after.priority_set@.drop_last());
    }
}

/// The outcome of a drain names the unit that was drained.
pub proof fn law_an_outcome_names_its_unit(
    before: Seq<WorkUnit>,
    unit: WorkUnit,
    verdict: Verdict,
    after: Seq<WorkUnit>,
    r: DrainOutcome,
)
    requires
        settled(before, unit, verdict, after, r),
    ensures
        r is Accepted || r is Escalated || r is Halted,
        r is Accepted <==> verdict == Verdict::Accepted,
        r matches DrainOutcome::Accepted { unit_ref } ==> unit_ref@ == unit.unit_ref@,
        r matches DrainOutcome::Escalated { unit_ref, to_ladder } ==> unit_ref@ == unit.unit_ref@
            && to_ladder == unit.ladder_position + 1,
        r matches DrainOutcome::Halted { unit_ref } ==> unit_ref@ == unit.unit_ref@,
{
}

/// A unit that is handed in joins the end of the queue, if it breaks no rule; else
/// it is counted as turned away, and the queue stays as it is.
pub proof fn law_a_unit_joins_the_end_of_the_queue(before: Engine, after: Engine, unit: WorkUnit)
    requires
        after.handled(&before, unit),
    ensures
        unit.fault() is None ==> {
            &&& after.priority_set@.len() == before.priority_set@.len() + 1
            &&& after.priority_set@.last() == unit
            &&& after.priority_set@.drop_last() == before.priority_set@
            &&& after.heterogeneity_view.admitted == before.heterogeneity_view.admitted + 1
            &&& after.heterogeneity_view.rejected == before.heterogeneity_view.rejected
        },
        unit.fault() is Some ==> {
            &&& after.priority_set@ == before.priority_set@
            &&& after.heterogeneity_view.admitted == before.heterogeneity_view.admitted
            &&& after.heterogeneity_view.rejected == before.heterogeneity_view.rejected + 1
        },
        after.stream@ == before.stream@,
        after.mode == before.mode,
{
    if unit.fault() is None {
        assert(after.priority_set@.drop_last() =~= before.priority_set@);
    }
}

proof fn lemma_first_named(units: Seq<WorkUnit>, unit_ref: Seq<char>, from: int)
    requires
        0 <= from <= units.len(),
    ensures
        match first_named(units, unit_ref, from) {
            Some(i) => from <= i < units.len() && units[i].unit_ref@ == unit_ref && forall|k: int|
                from <= k < i ==> (#[trigger] units[k]).unit_ref@ != unit_ref,
            None => forall|k: int|
                from <= k < units.len() ==> (#[trigger] units[k]).unit_ref@ != unit_ref,
        },
    decreases units.len() - from,
{
    if from < units.len() && units[from].unit_ref@ != unit_ref {
        lemma_first_named(units, unit_ref, from + 1);
    }
}

/// The unit that is moved to the front is the first of its name; those that stood
/// before it move back one place, and those behind it stay.
pub proof fn law_the_first_of_its_name_comes_to_the_front(
    before: Engine,
    after: Engine,
    unit_ref: Seq<char>,
    i: int,
)
    requires
        after.reordered(&before, unit_ref),
    ensures
        0 <= i < before.priority_set@.len() && before.priority_set@[i].unit_ref@ == unit_ref && (
        forall|k: int|
            0 <= k < i ==> (#[trigger] before.priority_set@[k]).unit_ref@ != unit_ref) ==> {
            &&& after.priority_set@.len() == before.priority_set@.len()
            &&& after.priority_set@[0] == before.priority_set@[i]
            &&& forall|k: int|
                0 <= k < i ==> #[trigger] after.priority_set@[k + 1] == before.priority_set@[k]
            &&& forall|k: int|
                i < k < before.priority_set@.len() ==> #[trigger] after.priority_set@[k]
                    == before.priority_set@[k]
        },
        (forall|k: int|
            0 <= k < before.priority_set@.len() ==> (
            #[trigger] before.priority_set@[k]).unit_ref@ != unit_ref) ==> after.priority_set@
            == before.priority_set@,
{
    let units = before.priority_set@;
    lemma_first_named(units, unit_ref, 0);
    if 0 <= i < units.len() && units[i].unit_ref@ == unit_ref && (forall|k: int|
        0 <= k < i ==> (#[trigger] units[k]).unit_ref@ != unit_ref) {
        let j = first_named(units, unit_ref, 0)->0;
        if j < i {
            assert(units[j].unit_ref@ != unit_ref);
        } else if i < j {
            assert(units[i].unit_ref@ != unit_ref);
        }
        assert(first_named(units, unit_ref, 0) == Some(i));
    }
}

/// A thrown switch changes the mode and nothing of the queue, the stream or the
/// host; a throw to the resident mode changes nothing at all.
pub proof fn law_the_switch_changes_the_mode_alone(before: Engine, after: Engine, mode: Mode)
    requires
        after.switched(&before, mode),
    ensures
        after.mode == mode,
        mode != before.mode ==> after.utilization.mode == mode && !after.utilization.exploring,
        mode == before.mode ==> after.utilization == before.utilization,
        after.utilization.in_flight == before.utilization.in_flight,
        after.utilization.discoveries == before.utilization.discoveries,
        after.priority_set@ == before.priority_set@,
        after.stream@ == before.stream@,
        after.seq == before.seq,
        after.host == before.host,
        after.manifest == before.manifest,
{
}

/// The reference box serves its one binding, delivers both ways, to its schemes and
/// its forge, and checks what it lists.
pub proof fn law_what_the_reference_box_covers(m: CapabilityManifest)
    requires
        reference_substrate(m),
    ensures
        m.capabilities.ids().contains(
            "binding:"@ + "local-vllm"@ + "/"@ + "qwen3.6-35b"@ + "@"@ + "FP8"@,
        ),
        m.capabilities.ids().contains("delivery:"@ + "inline"@),
        m.capabilities.ids().contains("delivery:"@ + "repository"@),
        m.capabilities.ids().contains("url-scheme:"@ + "file"@),
        m.capabilities.ids().contains("url-scheme:"@ + "https"@),
        m.capabilities.ids().contains("url-scheme:"@ + "ssh"@),
        m.capabilities.ids().contains("integration:"@ + "push-branch"@),
        m.capabilities.ids().contains("integration:"@ + "pull-request"@),
        m.capabilities.ids().contains("forge:"@ + "github.com"@),
        m.capabilities.ids().contains("shape-language:"@ + "JSON Schema"@),
        m.capabilities.ids().contains("gate:"@ + "command"@),
        m.capabilities.bindings@.len() == 1,
        m.capabilities.gate_kinds@.len() == 1,
        m.capabilities.shape_languages@.len() == 4,
        m.capabilities.delivery.forges@.len() == 1,
        m.executor_id@ == "dgx-spark-gb10"@,
        m.operational is None,
{
    let c = m.capabilities;
    law_a_manifest_covers_what_it_lists(c, 0);
    law_a_manifest_covers_what_it_lists(c, 1);
    law_a_manifest_covers_what_it_lists(c, 2);
    assert(texts(c.delivery.modes@).len() == 2 && texts(c.delivery.modes@)[0] == "inline"@
        && texts(c.delivery.modes@)[1] == "repository"@);
    assert(texts(c.delivery.url_schemes@).len() == 3 && texts(c.delivery.url_schemes@)[0]
        == "file"@ && texts(c.delivery.url_schemes@)[1] == "https"@ && texts(
        c.delivery.url_schemes@,
    )[2] == "ssh"@);
    assert(texts(c.delivery.integration_methods@).len() == 2 && texts(
        c.delivery.integration_methods@,
    )[0] == "push-branch"@ && texts(c.delivery.integration_methods@)[1] == "pull-request"@);
    assert(texts(c.delivery.forges@).len() == 1 && texts(c.delivery.forges@)[0]
        == "github.com"@);
    assert(texts(c.shape_languages@).len() == 4 && texts(c.shape_languages@)[2]
        == "JSON Schema"@);
    assert(texts(c.gate_kinds@).len() == 1 && texts(c.gate_kinds@)[0] == "command"@);
}

/// A fresh box is off, with nothing queued, nothing told and nothing in flight.
pub proof fn law_a_fresh_box_has_done_nothing(e: Engine)
    requires
        e.fresh(),
    ensures
        e.mode == Mode::Off,
        e.priority_set@.len() == 0,
        e.stream@.len() == 0,
        e.utilization.in_flight == 0,
        e.utilization.discoveries == 0,
        !e.utilization.exploring,
        !e.host.live(),
        e.host_handle is None,
        reference_substrate(e.manifest),
        e.heterogeneity_view.admitted == 0 && e.heterogeneity_view.rejected == 0,
{
}

/// The names of the modes.
pub proof fn law_a_mode_is_told_by_its_name()
    ensures
        mode_name(Mode::Off) == "Off"@,
        mode_name(Mode::Queue) == "Queue"@,
        mode_name(Mode::Explorer) == "Explorer"@,
{
}

/// Nothing happens outside queue mode, and nothing where nothing is queued.
pub proof fn law_only_queue_mode_drains(
    before: Engine,
    after: Engine,
    now: Seq<char>,
    r: DrainOutcome,
)
    requires
        after.drained(&before, now, r),
        before.mode != Mode::Queue || before.priority_set@.len() == 0,
    ensures
        before.mode != Mode::Queue ==> r == DrainOutcome::NotQueueMode,
        before.mode == Mode::Queue ==> r == DrainOutcome::Idle,
        after.priority_set@ == before.priority_set@,
        after.stream@ == before.stream@,
        after.seq == before.seq,
        after.utilization == before.utilization,
        after.mode == before.mode,
        after.manifest == before.manifest,
        after.host == before.host,
{
}

/// In queue mode the front unit is drained: it runs exactly if the box lacks nothing
/// that it needs.
pub proof fn law_the_front_unit_runs_exactly_if_it_is_covered(
    before: Engine,
    after: Engine,
    now: Seq<char>,
    r: DrainOutcome,
)
    requires
        after.drained(&before, now, r),
        before.mode == Mode::Queue,
        before.priority_set@.len() > 0,
    ensures
        after.stream@.len() == before.stream@.len() + 1,
        after.stream@.last().unit_ref@ == before.priority_set@[0].unit_ref@,
        after.stream@.last().verdict == Verdict::NotAdmitted <==> exists|id: Seq<char>|
            before.priority_set@[0].required().contains(id) && !#[trigger]
            before.manifest.capabilities.ids().contains(id),
{
    let unit = before.priority_set@[0];
    let d = before.manifest.distance(unit);
    if d == Set::<Seq<char>>::empty() {
        let results = choose|results: Seq<CellResult>| #[trigger]
            after.drained_front(&before, now, results, r);
        assert forall|id: Seq<char>| unit.required().contains(id) implies #[trigger]
            before.manifest.capabilities.ids().contains(id) by {
            assert(!d.contains(id));
        }
    } else {
        let id = choose|id: Seq<char>| d.contains(id);
        assert(d.contains(id)) by {
            if forall|x: Seq<char>| !d.contains(x) {
                assert(d =~= Set::<Seq<char>>::empty());
            }
        }
        assert(!before.manifest.capabilities.ids().contains(id));
    }
}

/// What counts as unchanged is unchanged in every field.
pub proof fn law_unchanged_is_field_by_field(a: Engine, b: Engine)
    ensures
        a.same_queue(&b) ==> a.priority_set@ == b.priority_set@ && a.priority_view.queued
            == b.priority_view.queued && a.heterogeneity_view == b.heterogeneity_view,
        a.same_stream(&b) ==> a.stream@ == b.stream@ && a.verdict_view.emitted
            == b.verdict_view.emitted && a.seq == b.seq,
        a.same_box(&b) ==> a.mode == b.mode && a.host == b.host && a.host_handle == b.host_handle
            && a.serving_host_view == b.serving_host_view && a.manifest == b.manifest,
        a.same_as(&b) ==> a.same_queue(&b) && a.same_stream(&b) && a.same_box(&b)
            && a.utilization == b.utilization,
        a.same_but_host(&b) ==> a.same_queue(&b) && a.same_stream(&b) && a.utilization
            == b.utilization && a.mode == b.mode && a.manifest == b.manifest,
{
}

/// A consistent engine tells the truth of itself.
pub proof fn law_projections_agree_with_what_they_project(e: Engine)
    requires
        e.consistent(),
    ensures
        e.priority_view.queued == e.priority_set@.len(),
        e.verdict_view.emitted == e.stream@.len(),
        e.utilization.mode == e.mode,
        e.serving_host_view.ready <==> e.host.phase == crate::host::HostPhase::Ready,
        e.serving_host_view.materialized == 1 <==> e.host.phase
            == crate::host::HostPhase::Launched || e.host.phase == crate::host::HostPhase::Ready,
{
}

/// The published manifest covers what the stored one does; the time of publication,
/// the mode and the depth of the queue are told beside it.
pub proof fn law_publishing_changes_no_capability(
    e: Engine,
    now: &str,
    m: CapabilityManifest,
    unit: WorkUnit,
)
    requires
        call_ensures(Engine::publish_manifest, (&e, now), m),
    ensures
        m.distance(unit) == e.manifest.distance(unit),
        m.executor_id@ == e.manifest.executor_id@,
        m.emitted_at@ == now@,
        m.operational matches Some(o) && o.queue_depth == Some(e.priority_set@.len() as i64) && (
        o.mode matches Some(name) && name@ == mode_name(e.mode)),
{
    crate::interface::law_only_capabilities_decide(m, e.manifest, unit);
}

} // verus!
