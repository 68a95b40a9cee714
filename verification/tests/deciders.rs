use kiln::execution::{RunCommand, RunEvent, RunState, VerdictStreamView};
use kiln::exploration::{SessionCommand, SessionEvent, SessionState};
use kiln::host::{HostCommand, HostEvent, HostPhase, HostState, ServingHostView};
use kiln::oracle::{OracleCommand, OracleEvent, OracleRunState};
use kiln::queue::{
    HeterogeneityRateView, Lifecycle, PrioritySetView, UnitCommand, UnitEvent, UnitState,
};
use kiln::sandbox::{
    IsolationView, LeaseCommand, LeaseEvent, LeaseState, SandboxCommand, SandboxEvent,
    SandboxState,
};
use kiln::serving::{
    BatchCommand, BatchEvent, BatchState, BatchThroughputView, BindingCommand, BindingEvent,
    ResidencyView, ResidentState,
};
use kiln::stream::{LogCommand, LogEvent, LogState, ReconciliationView};
use kiln::switch::{BoxCommand, BoxEvent, BoxState, BoxStatusView, Mode};

// --- the run

fn replay_run(events: &[RunEvent]) -> RunState {
    let mut s = RunState::default();
    for e in events {
        s.evolve(e);
    }
    s
}

#[test]
fn admit_only_in_queue() {
    assert_eq!(
        replay_run(&[]).decide(&RunCommand::Admit { box_mode: Mode::Queue }),
        Ok(vec![RunEvent::UnitAdmitted])
    );
}

#[test]
fn admit_refused_in_explorer() {
    assert_eq!(
        replay_run(&[]).decide(&RunCommand::Admit { box_mode: Mode::Explorer }),
        Err("inv-box-must-be-queue")
    );
}

#[test]
fn verdict_computed_after_admit() {
    assert_eq!(
        replay_run(&[RunEvent::UnitAdmitted]).decide(&RunCommand::ComputeVerdict),
        Ok(vec![RunEvent::UnitVerdictComputed])
    );
}

#[test]
fn verdict_not_computed_before_admit() {
    assert_eq!(
        replay_run(&[]).decide(&RunCommand::ComputeVerdict),
        Err("inv-run-not-admitted")
    );
}

#[test]
fn emit_after_verdict() {
    assert_eq!(
        replay_run(&[RunEvent::UnitAdmitted, RunEvent::UnitVerdictComputed])
            .decide(&RunCommand::Emit),
        Ok(vec![RunEvent::VerdictEmitted])
    );
}

#[test]
fn no_emit_before_verdict() {
    assert_eq!(
        replay_run(&[RunEvent::UnitAdmitted]).decide(&RunCommand::Emit),
        Err("inv-no-verdict-yet")
    );
}

#[test]
fn a_run_emits_once() {
    let s = replay_run(&[
        RunEvent::UnitAdmitted,
        RunEvent::UnitVerdictComputed,
        RunEvent::VerdictEmitted,
    ]);
    assert_eq!(s.decide(&RunCommand::Emit), Err("inv-no-verdict-yet"));
}

#[test]
fn only_emission_counts_on_the_stream() {
    let mut v = VerdictStreamView::default();
    v.apply(&RunEvent::VerdictEmitted);
    assert_eq!(v.emitted, 0);
    v.on_emitted();
    assert_eq!(v.emitted, 1);
}

// --- the oracle

#[test]
fn gate_against_protected_oracle_is_confirmed() {
    assert_eq!(
        OracleRunState::default().decide(&OracleCommand::RunGate { oracle_protected: true }),
        Ok(vec![OracleEvent::GateConfirmed])
    );
}

#[test]
fn gate_against_writable_oracle_is_refused() {
    assert_eq!(
        OracleRunState::default().decide(&OracleCommand::RunGate { oracle_protected: false }),
        Err("inv-oracle-writable")
    );
}

#[test]
fn a_confirmed_gate_is_remembered() {
    let mut s = OracleRunState::default();
    assert!(!s.confirmed);
    s.evolve(&OracleEvent::GateConfirmed);
    assert!(s.confirmed);
}

// --- the exploration session

fn replay_session(events: &[SessionEvent]) -> SessionState {
    let mut s = SessionState::default();
    for e in events {
        s.evolve(e);
    }
    s
}

#[test]
fn session_starts_only_in_explorer() {
    assert_eq!(
        replay_session(&[]).decide(&SessionCommand::Start { box_mode: Mode::Explorer }),
        Ok(vec![SessionEvent::ExplorationStarted])
    );
}

#[test]
fn session_cannot_start_in_queue() {
    assert_eq!(
        replay_session(&[]).decide(&SessionCommand::Start { box_mode: Mode::Queue }),
        Err("inv-box-must-be-explorer")
    );
}

#[test]
fn active_session_produces_a_record() {
    assert_eq!(
        replay_session(&[SessionEvent::ExplorationStarted])
            .decide(&SessionCommand::ProduceDiscoveryRecord),
        Ok(vec![SessionEvent::DiscoveryRecordProduced])
    );
}

#[test]
fn idle_session_cannot_produce() {
    assert_eq!(
        replay_session(&[]).decide(&SessionCommand::ProduceDiscoveryRecord),
        Err("inv-session-not-active")
    );
}

#[test]
fn a_complete_session_produces_no_second_record() {
    let s = replay_session(&[
        SessionEvent::ExplorationStarted,
        SessionEvent::DiscoveryRecordProduced,
    ]);
    assert_eq!(
        s.decide(&SessionCommand::ProduceDiscoveryRecord),
        Err("inv-session-not-active")
    );
}

// --- the queue

fn replay_unit(events: &[UnitEvent]) -> UnitState {
    let mut s = UnitState::default();
    for e in events {
        s.evolve(e);
    }
    s
}

#[test]
fn homogeneous_unit_is_enqueued() {
    assert_eq!(
        replay_unit(&[]).decide(&UnitCommand::Admit { homogeneous: true }),
        Ok(vec![UnitEvent::Enqueued])
    );
}

#[test]
fn heterogeneous_unit_is_rejected() {
    assert_eq!(
        replay_unit(&[]).decide(&UnitCommand::Admit { homogeneous: false }),
        Err("inv-binding-homogeneity")
    );
}

#[test]
fn queued_unit_can_be_reprioritized() {
    assert_eq!(
        replay_unit(&[UnitEvent::Enqueued]).decide(&UnitCommand::Reprioritize),
        Ok(vec![UnitEvent::Reprioritized])
    );
}

#[test]
fn unqueued_unit_cannot_be_reprioritized() {
    assert_eq!(
        replay_unit(&[]).decide(&UnitCommand::Reprioritize),
        Err("inv-only-queued-reorderable")
    );
}

#[test]
fn unit_with_headroom_escalates() {
    assert_eq!(
        replay_unit(&[UnitEvent::Enqueued]).decide(&UnitCommand::Escalate { max_ladder: 3 }),
        Ok(vec![UnitEvent::Escalated])
    );
}

#[test]
fn exhausted_ladder_halts() {
    assert_eq!(
        replay_unit(&[UnitEvent::Enqueued]).decide(&UnitCommand::Escalate { max_ladder: 0 }),
        Err("inv-ladder-exhausted")
    );
}

#[test]
fn escalations_count_up_to_the_top_of_the_ladder() {
    let s = replay_unit(&[UnitEvent::Enqueued, UnitEvent::Escalated, UnitEvent::Escalated]);
    assert_eq!(s, UnitState { state: Lifecycle::Queued, ladder: 2 });
    assert_eq!(
        s.decide(&UnitCommand::Escalate { max_ladder: 2 }),
        Err("inv-ladder-exhausted")
    );
    assert_eq!(
        replay_unit(&[UnitEvent::Halted]),
        UnitState { state: Lifecycle::Failed, ladder: 0 }
    );
    assert_eq!(
        replay_unit(&[UnitEvent::Rejected]),
        UnitState { state: Lifecycle::Rejected, ladder: 0 }
    );
}

#[test]
fn priority_set_tracks_queue_size() {
    let mut v = PrioritySetView::default();
    for e in [UnitEvent::Enqueued, UnitEvent::Reprioritized] {
        v.on_queue_event(&e);
    }
    assert_eq!(v.queued, 1);
}

#[test]
fn escalation_grows_the_set_and_draining_shrinks_it() {
    let mut v = PrioritySetView::default();
    v.on_queue_event(&UnitEvent::Enqueued);
    v.on_queue_event(&UnitEvent::Escalated);
    v.on_queue_event(&UnitEvent::Halted);
    assert_eq!(v.queued, 2);
    v.on_admitted();
    assert_eq!(v.queued, 1);
}

#[test]
fn heterogeneity_rate_counts_both() {
    let mut v = HeterogeneityRateView::default();
    for e in [UnitEvent::Enqueued, UnitEvent::Enqueued, UnitEvent::Rejected] {
        v.apply(&e);
    }
    assert_eq!((v.admitted, v.rejected), (2, 1));
}

#[test]
fn the_rate_is_refusals_over_decisions() {
    let mut v = HeterogeneityRateView::default();
    assert_eq!(v.ratio(), None);
    v.apply(&UnitEvent::Rejected);
    v.apply(&UnitEvent::Enqueued);
    v.apply(&UnitEvent::Enqueued);
    v.apply(&UnitEvent::Enqueued);
    assert_eq!(v.ratio(), Some((1, 4)));
}

// --- isolation

fn replay_sandbox(events: &[SandboxEvent]) -> SandboxState {
    let mut s = SandboxState::default();
    for e in events {
        s.evolve(e);
    }
    s
}

fn replay_lease(events: &[LeaseEvent]) -> LeaseState {
    let mut s = LeaseState::default();
    for e in events {
        s.evolve(e);
    }
    s
}

#[test]
fn declared_network_provisions() {
    assert_eq!(
        replay_sandbox(&[]).decide(&SandboxCommand::Provision { network_declared: true }),
        Ok(vec![SandboxEvent::SandboxProvisioned])
    );
}

#[test]
fn undeclared_network_refused() {
    assert_eq!(
        replay_sandbox(&[]).decide(&SandboxCommand::Provision { network_declared: false }),
        Err("inv-undeclared-network")
    );
}

#[test]
fn provisioned_tears_down() {
    assert_eq!(
        replay_sandbox(&[SandboxEvent::SandboxProvisioned]).decide(&SandboxCommand::Teardown),
        Ok(vec![SandboxEvent::SandboxDestroyed])
    );
}

#[test]
fn teardown_without_sandbox_refused() {
    assert_eq!(
        replay_sandbox(&[]).decide(&SandboxCommand::Teardown),
        Err("inv-no-sandbox")
    );
}

#[test]
fn a_second_teardown_is_refused() {
    let s = replay_sandbox(&[
        SandboxEvent::SandboxProvisioned,
        SandboxEvent::SandboxDestroyed,
    ]);
    assert_eq!(s.decide(&SandboxCommand::Teardown), Err("inv-no-sandbox"));
}

#[test]
fn lease_for_live_sandbox() {
    assert_eq!(
        replay_lease(&[]).decide(&LeaseCommand::Exchange { sandbox_active: true }),
        Ok(vec![LeaseEvent::CredentialLeased])
    );
}

#[test]
fn lease_without_sandbox_refused() {
    assert_eq!(
        replay_lease(&[]).decide(&LeaseCommand::Exchange { sandbox_active: false }),
        Err("inv-lease-needs-sandbox")
    );
}

#[test]
fn active_lease_revokes() {
    assert_eq!(
        replay_lease(&[LeaseEvent::CredentialLeased]).decide(&LeaseCommand::Revoke),
        Ok(vec![LeaseEvent::CredentialRevoked])
    );
}

#[test]
fn revoke_without_lease_refused() {
    assert_eq!(
        replay_lease(&[]).decide(&LeaseCommand::Revoke),
        Err("inv-nothing-to-revoke")
    );
}

#[test]
fn a_second_revocation_is_refused() {
    let s = replay_lease(&[LeaseEvent::CredentialLeased, LeaseEvent::CredentialRevoked]);
    assert_eq!(s.decide(&LeaseCommand::Revoke), Err("inv-nothing-to-revoke"));
}

#[test]
fn teardown_undoes_provisioning_in_the_view() {
    let mut v = IsolationView::default();
    v.apply(&SandboxEvent::SandboxProvisioned);
    v.apply(&SandboxEvent::SandboxProvisioned);
    assert_eq!(v.live, 2);
    v.apply(&SandboxEvent::SandboxDestroyed);
    assert_eq!(v.live, 1);
}

// --- serving

fn replay_binding(events: &[BindingEvent]) -> ResidentState {
    let mut s = ResidentState::default();
    for e in events {
        s.evolve(e);
    }
    s
}

fn replay_batch(events: &[BatchEvent]) -> BatchState {
    let mut s = BatchState::default();
    for e in events {
        s.evolve(e);
    }
    s
}

#[test]
fn binding_that_fits_loads() {
    assert_eq!(
        replay_binding(&[]).decide(&BindingCommand::Load { within_budget: true }),
        Ok(vec![BindingEvent::BindingLoaded])
    );
}

#[test]
fn binding_over_budget_is_refused() {
    assert_eq!(
        replay_binding(&[]).decide(&BindingCommand::Load { within_budget: false }),
        Err("inv-vram-budget")
    );
}

#[test]
fn resident_binding_evicts() {
    assert_eq!(
        replay_binding(&[BindingEvent::BindingLoaded]).decide(&BindingCommand::Evict),
        Ok(vec![BindingEvent::BindingEvicted])
    );
}

#[test]
fn evicting_empty_is_refused() {
    assert_eq!(
        replay_binding(&[]).decide(&BindingCommand::Evict),
        Err("inv-nothing-resident")
    );
    assert_eq!(
        replay_binding(&[BindingEvent::BindingLoaded, BindingEvent::BindingEvicted])
            .decide(&BindingCommand::Evict),
        Err("inv-nothing-resident")
    );
}

#[test]
fn homogeneous_nonempty_batch_forms() {
    assert_eq!(
        replay_batch(&[]).decide(&BatchCommand::Form { homogeneous: true, nonempty: true }),
        Ok(vec![BatchEvent::BatchFormed])
    );
}

#[test]
fn mixed_batch_is_refused() {
    assert_eq!(
        replay_batch(&[]).decide(&BatchCommand::Form { homogeneous: false, nonempty: true }),
        Err("inv-batch-homogeneous")
    );
}

#[test]
fn empty_batch_is_refused() {
    assert_eq!(
        replay_batch(&[]).decide(&BatchCommand::Form { homogeneous: true, nonempty: false }),
        Err("inv-batch-empty")
    );
}

#[test]
fn formed_batch_dispatches() {
    assert_eq!(
        replay_batch(&[BatchEvent::BatchFormed]).decide(&BatchCommand::Dispatch),
        Ok(vec![BatchEvent::BatchDispatched])
    );
}

#[test]
fn unformed_batch_refused() {
    assert_eq!(
        replay_batch(&[]).decide(&BatchCommand::Dispatch),
        Err("inv-batch-not-formed")
    );
}

#[test]
fn a_dispatched_batch_is_not_dispatched_again() {
    assert_eq!(
        replay_batch(&[BatchEvent::BatchFormed, BatchEvent::BatchDispatched])
            .decide(&BatchCommand::Dispatch),
        Err("inv-batch-not-formed")
    );
}

#[test]
fn serving_views_count() {
    let mut v = ResidencyView::default();
    v.apply(&BindingEvent::BindingLoaded);
    v.apply(&BindingEvent::BindingLoaded);
    v.apply(&BindingEvent::BindingEvicted);
    assert_eq!(v.resident, 1);
    let mut t = BatchThroughputView::default();
    t.on_dispatched();
    t.on_dispatched();
    assert_eq!(t.dispatched, 2);
}

// --- the verdict log

fn replay_log(events: &[LogEvent]) -> LogState {
    let mut s = LogState::default();
    for e in events {
        s.evolve(e);
    }
    s
}

#[test]
fn fresh_verdict_appends() {
    assert_eq!(
        replay_log(&[]).decide(&LogCommand::Append { already_logged: false }),
        Ok(vec![LogEvent::VerdictAppended])
    );
}

#[test]
fn duplicate_verdict_refused() {
    assert_eq!(
        replay_log(&[]).decide(&LogCommand::Append { already_logged: true }),
        Err("inv-idempotent-append")
    );
}

#[test]
fn pending_reconciles() {
    assert_eq!(
        replay_log(&[LogEvent::VerdictAppended]).decide(&LogCommand::Reconcile),
        Ok(vec![LogEvent::DeliverableReconciled])
    );
}

#[test]
fn empty_backlog_refused() {
    assert_eq!(
        replay_log(&[]).decide(&LogCommand::Reconcile),
        Err("inv-nothing-to-reconcile")
    );
}

#[test]
fn reconciling_clears_what_is_pending() {
    let s = replay_log(&[
        LogEvent::VerdictAppended,
        LogEvent::VerdictAppended,
        LogEvent::DeliverableReconciled,
    ]);
    assert_eq!(s.pending, 0);
    assert_eq!(s.decide(&LogCommand::Reconcile), Err("inv-nothing-to-reconcile"));
}

#[test]
fn the_backlog_is_what_was_not_reconciled() {
    let mut v = ReconciliationView::default();
    for e in [
        LogEvent::VerdictAppended,
        LogEvent::VerdictAppended,
        LogEvent::VerdictAppended,
        LogEvent::DeliverableReconciled,
    ] {
        v.apply(&e);
    }
    assert_eq!((v.appended, v.reconciled), (3, 1));
    assert_eq!(v.backlog(), 2);
}

// --- the switch

fn replay_box(events: &[BoxEvent]) -> BoxState {
    let mut s = BoxState::default();
    for e in events {
        s.evolve(e);
    }
    s
}

#[test]
fn first_throw_loads_queue_from_a_cold_box() {
    let s = replay_box(&[]);
    assert_eq!(
        s.decide(&BoxCommand::ThrowSwitch { mode: Mode::Queue }),
        Ok(vec![BoxEvent::ModeChanged { mode: Mode::Queue }])
    );
}

#[test]
fn flipping_queue_to_explorer_is_a_real_change() {
    let s = replay_box(&[BoxEvent::ModeChanged { mode: Mode::Queue }]);
    assert_eq!(
        s.decide(&BoxCommand::ThrowSwitch { mode: Mode::Explorer }),
        Ok(vec![BoxEvent::ModeChanged { mode: Mode::Explorer }])
    );
}

#[test]
fn rethrowing_the_resident_mode_is_rejected() {
    let s = replay_box(&[BoxEvent::ModeChanged { mode: Mode::Queue }]);
    assert_eq!(
        s.decide(&BoxCommand::ThrowSwitch { mode: Mode::Queue }),
        Err("inv-distinct-mode")
    );
}

#[test]
fn view_reflects_latest_residency() {
    let mut v = BoxStatusView::default();
    v.apply(&BoxEvent::ModeChanged { mode: Mode::Queue });
    assert_eq!(v.mode, Mode::Queue);
}

// --- the serving host

#[test]
fn a_host_is_launched_confirmed_and_retired() {
    let mut s = HostState::default();
    let mut v = ServingHostView::default();
    assert_eq!(s.decide(&HostCommand::Retire), Err("inv-nothing-to-retire"));
    assert_eq!(s.decide(&HostCommand::ConfirmReady), Err("inv-ready-needs-launch"));
    assert_eq!(
        s.decide(&HostCommand::Launch { containerized: false }),
        Err("inv-containerized-host")
    );
    assert_eq!(
        s.decide(&HostCommand::Launch { containerized: true }),
        Ok(vec![HostEvent::HostLaunched])
    );
    s.evolve(&HostEvent::HostLaunched);
    v.apply(&HostEvent::HostLaunched);
    assert_eq!(v, ServingHostView { materialized: 1, ready: false });
    assert_eq!(
        s.decide(&HostCommand::Launch { containerized: true }),
        Err("inv-single-serving-host")
    );
    assert_eq!(s.decide(&HostCommand::ConfirmReady), Ok(vec![HostEvent::HostReady]));
    s.evolve(&HostEvent::HostReady);
    v.apply(&HostEvent::HostReady);
    assert_eq!(s.phase, HostPhase::Ready);
    assert_eq!(v, ServingHostView { materialized: 1, ready: true });
    assert_eq!(s.decide(&HostCommand::Retire), Ok(vec![HostEvent::HostRetired]));
    s.evolve(&HostEvent::HostRetired);
    v.apply(&HostEvent::HostRetired);
    assert_eq!(s.phase, HostPhase::Retired);
    assert_eq!(v, ServingHostView { materialized: 0, ready: false });
    assert_eq!(
        s.decide(&HostCommand::Launch { containerized: true }),
        Ok(vec![HostEvent::HostLaunched])
    );
}
