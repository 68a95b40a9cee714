use kiln::delivery::{GitStep, RepositoryDelivery};
use kiln::drain::{Action, IsolatedRun, Reply, Stage, Start};
use kiln::execution::{GateReport, Oracle};
use kiln::executor::{DrainOutcome, Engine};
use kiln::interface::{
    Artifact, ArtifactBody, ArtifactDelivery, Capabilities, CapabilityManifest, Cell,
    CellOutput, CellVerdict, DeliveryCapability, DeliveryResult, Environment, Integration,
    IntegrationMethod, ManifestBinding, ModelBinding, Verdict, VerdictEvent, WorkUnit,
};
use kiln::json::Json;
use kiln::oracle::{CheckRun, CommandOracle};
use kiln::sandbox::{
    CredentialBroker, LeasePhase, LocalBroker, LocalSandbox, SandboxPhase,
};
use kiln::serving::{BatchPhase, StubWorker, Worker};
use kiln::sorted::StrMap;
use kiln::stream::DurableLog;
use kiln::switch::Mode;

fn test_engine() -> Engine {
    let mut e = Engine::new();
    e.manifest = CapabilityManifest {
        executor_id: "test-box".into(),
        emitted_at: "t0".into(),
        capabilities: Capabilities {
            bindings: vec![ManifestBinding {
                provider: String::new(),
                model_id: "coder".into(),
                revision: None,
                quantization: "q4".into(),
            }],
            delivery: DeliveryCapability {
                modes: vec!["inline".into(), "repository".into()],
                url_schemes: vec!["file".into()],
                integration_methods: vec!["push-branch".into(), "pull-request".into()],
                forges: vec![],
            },
            shape_languages: vec![],
            gate_kinds: vec![],
        },
        operational: None,
    };
    e
}

fn exec_cell(id: &str, b: ModelBinding, deps: &[&str]) -> Cell {
    Cell {
        cell_id: id.into(),
        binding: b,
        depends_on: deps.iter().map(|s| s.to_string()).collect(),
        prompt: format!("write the {id} for the widget"),
        schema: Json::object(vec![("type".to_string(), Json::text("string"))]),
        ..Default::default()
    }
}

fn unit(r: &str) -> WorkUnit {
    let b = ModelBinding {
        model: "coder".into(),
        quantization: "q4".into(),
        params: StrMap::new(),
        ..Default::default()
    };
    WorkUnit {
        unit_ref: r.into(),
        parent_deliverable: "d".into(),
        bundle_hash: format!("sha256:{r}"),
        spmc_bundle: Json::object(vec![]),
        model_binding: b.clone(),
        tier: "light".into(),
        cell_graph: vec![exec_cell("test", b.clone(), &[]), exec_cell("impl", b, &["test"])],
        environment: Environment { network: vec![], workspace: "ws".into() },
        credential_grant: Some("grant-ref-1".into()),
        ..Default::default()
    }
}

fn repository(u: &mut WorkUnit) {
    u.artifact_delivery = ArtifactDelivery::Repository {
        url: "file:///origin".into(),
        base_ref: "main".into(),
        integration: Integration {
            method: IntegrationMethod::PushBranch,
            target_ref: "main".into(),
            branch_name: "spark/u-repo".into(),
        },
    };
}

struct PassOracle;
impl Oracle for PassOracle {
    fn gate(&self, _c: &Cell) -> bool {
        true
    }
}

/// What a run did to the world.
#[derive(Default)]
struct World {
    did: Vec<String>,
    files: Vec<(String, String)>,
    log: Vec<VerdictEvent>,
    /// The effects that fail, by name.
    broken: Vec<&'static str>,
}

impl World {
    fn done(&mut self, what: &str) -> Reply {
        self.did.push(what.into());
        if self.broken.contains(&what) {
            Reply::Failed(format!("{what} failed"))
        } else {
            Reply::Done
        }
    }
}

fn perform(
    run: &IsolatedRun,
    world: &mut World,
    report: &dyn Fn() -> GateReport,
    worker: &dyn Worker,
    seen: &mut DurableLog,
) -> Reply {
    match run.action() {
        Action::Provision => world.done("provision"),
        Action::CloneRepository => world.done("clone"),
        Action::SeedWorkspace => world.done("seed"),
        Action::CommitBaseline => {
            world.did.push("baseline".into());
            Reply::Done
        }
        Action::ExchangeGrant => {
            world.did.push("exchange".into());
            Reply::Token(LocalBroker.exchange(run.unit.credential_grant.as_ref().unwrap()))
        }
        Action::Invoke { cell, prompt } => {
            world.did.push(format!("invoke {}", run.unit.cell_graph[cell].cell_id));
            Reply::Answer(worker.invoke(&run.unit.cell_graph[cell].binding, &prompt))
        }
        Action::WriteArtifact { path, content } => {
            world.did.push(format!("write {path}"));
            world.files.push((path, content));
            Reply::Done
        }
        Action::Verify => {
            world.did.push("verify".into());
            Reply::Report(report())
        }
        Action::Deliver => {
            world.did.push("deliver".into());
            let ArtifactDelivery::Repository { url, integration, .. } =
                &run.unit.artifact_delivery
            else {
                panic!("only runs into a repository are delivered");
            };
            let mut delivery = RepositoryDelivery::begin(
                true,
                url.clone(),
                integration.clone(),
                run.unit.unit_ref.clone(),
            );
            let head = format!("{}\n", "c".repeat(40));
            while delivery.step != GitStep::Finished {
                world.did.push(format!("git {}", delivery.args().join(" ")));
                delivery.advance(true, head.as_bytes());
            }
            Reply::Delivered(delivery.landed)
        }
        Action::AppendEvent => {
            let reply = world.done("log");
            let event = run.event.as_ref().unwrap();
            if reply == Reply::Done && seen.append(event) {
                world.log.push(event.clone());
            }
            reply
        }
        Action::EmitPatch { name } => {
            world.did.push(format!("patch {name}"));
            Reply::Done
        }
        Action::RevokeLease => {
            world.did.push(format!("revoke {}", run.token.as_ref().unwrap()));
            LocalBroker.revoke(run.token.as_ref().unwrap());
            Reply::Done
        }
        Action::Teardown => world.done("teardown"),
        Action::Finish => Reply::Done,
    }
}

fn drain(
    e: &mut Engine,
    world: &mut World,
    report: &dyn Fn() -> GateReport,
    worker: &dyn Worker,
    seeded: bool,
    deliveries: bool,
) -> DrainOutcome {
    try_drain(e, world, report, worker, seeded, deliveries).unwrap()
}

fn try_drain(
    e: &mut Engine,
    world: &mut World,
    report: &dyn Fn() -> GateReport,
    worker: &dyn Worker,
    seeded: bool,
    deliveries: bool,
) -> Result<DrainOutcome, String> {
    let mut seen = DurableLog::open(&world.log);
    match e.drain_one_isolated(seeded, deliveries, "t1") {
        Start::Settled(o) => Ok(o),
        Start::Refused(o) => {
            let event = e.stream.last().unwrap();
            if seen.append(event) {
                world.log.push(event.clone());
            }
            Ok(o)
        }
        Start::Running(mut run) => {
            while run.stage != Stage::Finish {
                let reply = perform(&run, world, report, worker, &mut seen);
                e.advance(&mut run, reply);
            }
            if world.broken.is_empty() {
                assert_eq!(run.sandbox.phase, SandboxPhase::Destroyed);
            }
            assert!(run.lease.phase != LeasePhase::Leased);
            e.finish_isolated(run)
        }
    }
}

fn pass() -> GateReport {
    PassOracle.verify("ws")
}

fn queue_engine() -> Engine {
    let mut e = test_engine();
    e.throw_switch(Mode::Queue).unwrap();
    e
}

#[test]
fn full_isolated_drain_provisions_runs_gates_emits_and_tears_down() {
    let mut world = World::default();
    let mut e = queue_engine();
    e.admit_unit(unit("u1")).unwrap();
    let out = drain(&mut e, &mut world, &pass, &StubWorker, false, false);
    assert_eq!(out, DrainOutcome::Accepted { unit_ref: "u1".into() });
    assert_eq!(world.log.len(), 1);
    assert_eq!(e.utilization.in_flight, 0);
    assert_eq!(
        world.did,
        vec![
            "provision",
            "exchange",
            "invoke test",
            "write test.out",
            "invoke impl",
            "write impl.out",
            "verify",
            "log",
            "revoke lease:grant-ref-1",
            "teardown",
        ]
    );
    assert_eq!(
        world.files[0],
        (
            "test.out".to_string(),
            "// produced by coder for: write the test for the widget".to_string()
        )
    );
    // The dependent cell sees what its prerequisite produced.
    assert_eq!(
        world.files[1].1,
        "// produced by coder for: --- artifact produced by prerequisite cell `test` ---"
    );
    // Emitting the same bundle again does not double the log.
    let mut seen = DurableLog::open(&world.log);
    assert!(!seen.append(&e.stream[0]));
}

#[test]
fn real_oracle_failing_verification_escalates_with_evidence() {
    let mut world = World::default();
    let mut e = queue_engine();
    e.admit_unit(unit("u1")).unwrap();
    let oracle = CommandOracle { command: "exit 1".into(), worker_writable: false };
    let report = || {
        oracle.report(CheckRun::Finished {
            success: false,
            exit: Some(1),
            stdout: vec![],
            stderr: vec![],
        })
    };
    let out = drain(&mut e, &mut world, &report, &StubWorker, false, false);
    assert_eq!(out, DrainOutcome::Escalated { unit_ref: "u1".into(), to_ladder: 1 });
    let ev = &e.stream[0];
    assert_eq!(ev.verdict, Verdict::Escalate);
    let evidence = ev.cell_results[0].evidence.as_ref().expect("verification evidence present");
    assert_eq!(evidence.get("exit"), Some(&Json::Number(serde_json::Number::from(1))));
    assert_eq!(e.priority_set.len(), 1);
    assert_eq!(e.priority_set[0].ladder_position, 1);
}

#[test]
fn what_fails_leaves_no_patch() {
    let mut world = World::default();
    let mut e = queue_engine();
    e.admit_unit(unit("u1")).unwrap();
    drain(&mut e, &mut world, &GateReport::default, &StubWorker, false, true);
    assert!(world.did.iter().all(|d| !d.starts_with("patch")));
}

fn passing_report() -> GateReport {
    let oracle = CommandOracle { command: "true".into(), worker_writable: false };
    oracle.report(CheckRun::Finished {
        success: true,
        exit: Some(0),
        stdout: vec![],
        stderr: vec![],
    })
}

#[test]
fn real_oracle_passing_accepts_and_delivers_a_patch() {
    let mut world = World::default();
    let mut e = queue_engine();
    e.admit_unit(unit("u1")).unwrap();
    let out = drain(&mut e, &mut world, &passing_report, &StubWorker, false, true);
    assert_eq!(out, DrainOutcome::Accepted { unit_ref: "u1".into() });
    // An accepted unit delivers a patch of what it wrote, under its name.
    let patch = world.did.iter().position(|d| d == "patch u1.patch").expect("a patch");
    let body: Vec<&str> = world.files.iter().map(|f| f.0.as_str()).collect();
    assert!(body.contains(&"test.out") && body.contains(&"impl.out"));
    // The diff is against a baseline from before the writes, and is taken once the
    // verdict is logged and before the workspace is gone.
    let at = |what: &str| world.did.iter().position(|d| d == what).unwrap();
    assert!(at("baseline") < at("write test.out"));
    assert!(at("log") < patch && patch < at("teardown"));
}

#[test]
fn a_seeded_run_is_seeded_before_its_baseline() {
    let mut world = World::default();
    let mut e = queue_engine();
    e.admit_unit(unit("u1/a b")).unwrap();
    let out = drain(&mut e, &mut world, &passing_report, &StubWorker, true, true);
    assert_eq!(out, DrainOutcome::Accepted { unit_ref: "u1/a b".into() });
    assert_eq!(world.did[0..3], ["provision", "seed", "baseline"]);
    assert!(world.did.contains(&"patch u1_a_b.patch".to_string()));
}

#[test]
fn inline_delivery_returns_content_hashed_artifacts_in_the_verdict() {
    let mut world = World::default();
    let mut e = queue_engine();
    e.admit_unit(unit("u1")).unwrap();
    drain(&mut e, &mut world, &pass, &StubWorker, false, false);
    let ev = &e.stream[0];
    assert!(ev.delivery_result.is_none(), "inline delivery carries no delivery-result");
    for r in &ev.cell_results {
        assert_eq!(r.verdict, CellVerdict::Accepted);
        let a = r.artifact.as_ref().expect("inline delivery returns the artifact by value");
        assert!(a.content_hash.starts_with("sha256:"));
        assert!(matches!(a.delivery, ArtifactBody::Inline { .. }));
    }
    assert_eq!(
        ev.cell_results[0].artifact,
        Some(Artifact {
            artifact_id: "test".into(),
            content_hash: "sha256:ff9ccebea3756775a4e96a7093a61be6595fe77412bf8aa3cf2cf72fd97997bc"
                .into(),
            delivery: ArtifactBody::Inline {
                content: "// produced by coder for: write the test for the widget".into(),
            },
        })
    );
}

#[test]
fn repository_delivery_pushes_a_branch_and_reports_refs() {
    let mut world = World::default();
    let mut e = queue_engine();
    let mut u = unit("u-repo");
    repository(&mut u);
    e.admit_unit(u).unwrap();
    let out = drain(&mut e, &mut world, &pass, &StubWorker, false, false);
    assert_eq!(out, DrainOutcome::Accepted { unit_ref: "u-repo".into() });
    let ev = e.stream.last().unwrap();
    let dr = ev.delivery_result.as_ref().expect("repository delivery reports refs");
    assert_eq!(dr.branch, "spark/u-repo");
    assert_eq!(dr.commit.len(), 40, "a full commit SHA");
    assert!(dr.pr_url.is_none(), "push-branch delivery opens no PR");
    for r in &ev.cell_results {
        assert!(r.artifact.is_none(), "repository delivery carries refs, not payloads");
    }
    assert_eq!(world.did[0..3], ["provision", "clone", "exchange"]);
    assert!(world.did.contains(&"deliver".to_string()));
}

#[test]
fn a_repository_run_lands_by_the_commands_of_its_delivery() {
    let mut world = World::default();
    let mut e = queue_engine();
    let mut u = unit("u repo");
    repository(&mut u);
    if let ArtifactDelivery::Repository { integration, .. } = &mut u.artifact_delivery {
        integration.branch_name = String::new();
    }
    e.admit_unit(u).unwrap();
    let out = drain(&mut e, &mut world, &pass, &StubWorker, false, false);
    assert_eq!(out, DrainOutcome::Accepted { unit_ref: "u repo".into() });
    assert_eq!(
        e.stream[0].delivery_result,
        Some(DeliveryResult {
            branch: "spark/u_repo".into(),
            commit: "c".repeat(40),
            pr_url: None,
        })
    );
    let at = |what: &str| world.did.iter().position(|d| d == what).unwrap();
    let deliver = at("deliver");
    assert!(at("verify") < deliver && deliver < at("log"));
    assert_eq!(
        world.did[deliver + 1..at("log")],
        [
            "git checkout -q -B spark/u_repo",
            "git add -A -- . :!target :!node_modules :!bin :!obj :!.spark :!.git",
            "git -c user.email=spark@local -c user.name=spark commit -q -m spark: u repo",
            "git rev-parse HEAD",
            "git push --quiet origin HEAD:refs/heads/spark/u_repo",
        ]
    );
}

#[test]
fn a_repository_run_is_cloned_and_leaves_no_patch() {
    let mut world = World::default();
    let mut e = queue_engine();
    let mut u = unit("u-repo");
    repository(&mut u);
    e.admit_unit(u).unwrap();
    drain(&mut e, &mut world, &pass, &StubWorker, true, true);
    assert!(world.did.iter().all(|d| !d.starts_with("patch") && d != "seed" && d != "baseline"));
}

#[test]
fn a_rejected_repository_run_delivers_nothing() {
    let mut world = World::default();
    let mut e = queue_engine();
    let mut u = unit("u-repo");
    repository(&mut u);
    u.credential_grant = None;
    e.admit_unit(u).unwrap();
    let out = drain(&mut e, &mut world, &GateReport::default, &StubWorker, false, false);
    assert_eq!(out, DrainOutcome::Escalated { unit_ref: "u-repo".into(), to_ladder: 1 });
    assert!(!world.did.contains(&"deliver".to_string()));
    assert!(e.stream[0].delivery_result.is_none());
    // Without a grant there is nothing to exchange and nothing to revoke.
    assert!(world.did.iter().all(|d| d != "exchange" && !d.starts_with("revoke")));
}

#[test]
fn isolated_drain_outside_queue_is_refused() {
    let mut world = World::default();
    let mut e = Engine::new();
    assert_eq!(
        drain(&mut e, &mut world, &pass, &StubWorker, false, false),
        DrainOutcome::NotQueueMode
    );
    e.throw_switch(Mode::Queue).unwrap();
    assert_eq!(
        drain(&mut e, &mut world, &pass, &StubWorker, false, false),
        DrainOutcome::Idle
    );
    assert!(world.did.is_empty());
}

#[test]
fn a_unit_that_is_not_covered_gets_no_sandbox() {
    let mut world = World::default();
    let mut e = Engine::new();
    e.throw_switch(Mode::Queue).unwrap();
    e.admit_unit(unit("u1")).unwrap();
    let out = drain(&mut e, &mut world, &pass, &StubWorker, false, false);
    assert!(matches!(out, DrainOutcome::NotAdmitted { .. }));
    assert!(world.did.is_empty());
    assert_eq!(world.log.len(), 1);
    assert_eq!(world.log[0].verdict, Verdict::NotAdmitted);
    assert_eq!(e.utilization.in_flight, 0);
}

struct SilentWorker;
impl Worker for SilentWorker {
    fn invoke(&self, _b: &ModelBinding, prompt: &str) -> Result<String, String> {
        if prompt.contains("impl") {
            Err("no answer".to_string())
        } else {
            Ok("```\nlet x = 1;\n```".to_string())
        }
    }
}

#[test]
fn a_cell_that_produces_nothing_fails_the_unit() {
    let mut world = World::default();
    let mut e = queue_engine();
    e.admit_unit(unit("u1")).unwrap();
    let out = drain(&mut e, &mut world, &pass, &SilentWorker, false, true);
    assert_eq!(out, DrainOutcome::Escalated { unit_ref: "u1".into(), to_ladder: 1 });
    let results = &e.stream[0].cell_results;
    assert_eq!(results[0].verdict, CellVerdict::Rejected);
    assert!(results[0].artifact.is_some());
    assert_eq!(results[1].verdict, CellVerdict::Rejected);
    assert!(results[1].artifact.is_none());
    // What was fenced is written without its fence.
    assert_eq!(world.files, vec![("test.out".to_string(), "let x = 1;".to_string())]);
}

#[test]
fn replies_that_do_not_fit_fail_closed() {
    let mut e = queue_engine();
    e.admit_unit(unit("u1")).unwrap();
    let mut steps = 0;
    match e.drain_one_isolated(false, false, "t1") {
        Start::Running(mut run) => {
            while run.stage != Stage::Finish {
                e.advance(&mut run, Reply::Done);
                steps += 1;
                assert!(steps < 30);
            }
            assert_eq!(run.token.as_deref(), Some(""));
            assert_eq!(
                e.finish_isolated(run),
                Ok(DrainOutcome::Escalated { unit_ref: "u1".into(), to_ladder: 1 })
            );
        }
        _ => panic!("the unit is covered"),
    }
    assert_eq!(e.stream.len(), 1);
    assert_eq!(e.stream[0].verdict, Verdict::Escalate);
}

#[test]
fn local_sandbox_provisions_and_tears_down_a_real_dir() {
    let sb = LocalSandbox { root: "/tmp/kiln-test-sb".into() };
    assert_eq!(sb.workspace("wu-1/x"), "/tmp/kiln-test-sb/wu-1_47_x");
    assert_eq!(LocalSandbox::default().root, ".kiln/sandboxes");
    assert_eq!(LocalSandbox { root: "r/".into() }.workspace("a.b"), "r/a_46_b");
    assert_eq!(LocalSandbox { root: String::new() }.workspace("../é"), "_46__46__47_é");
}

#[test]
fn a_unit_is_provisioned_once_its_directory_is_made() {
    let sb = LocalSandbox { root: "r".into() };
    assert_eq!(sb.provision("u1", Ok(())), Ok("r/u1".to_string()));
    assert_eq!(sb.provision("u1", Err("no room".into())), Err("no room".to_string()));
    assert_ne!(sb.provision("wu/1", Ok(())), sb.provision("wu_1", Ok(())));
}

#[test]
fn units_have_different_workspaces() {
    let sb = LocalSandbox { root: "r".into() };
    assert_eq!(sb.workspace("u1"), "r/u1");
    assert_eq!(sb.workspace("wu/1"), "r/wu_47_1");
    assert_eq!(sb.workspace("wu_1"), "r/wu_95_1");
    assert_eq!(sb.workspace("wu_47_1"), "r/wu_95_47_95_1");
    assert_eq!(sb.workspace(""), "r/_");
    assert_eq!(sb.workspace("_"), "r/_95_");
}

#[test]
fn a_failing_effect_leaves_nothing_standing() {
    let grant = ["exchange", "revoke lease:grant-ref-1"];
    for broken in ["provision", "seed", "log", "teardown"] {
        let mut world = World { broken: vec![broken], ..World::default() };
        let mut e = queue_engine();
        e.admit_unit(unit("u1")).unwrap();
        let out = try_drain(&mut e, &mut world, &pass, &StubWorker, true, true);
        assert_eq!(out, Err(format!("{broken} failed")));
        assert_eq!(e.utilization.in_flight, 0);
        let count = |what: &str| world.did.iter().filter(|d| *d == what).count();
        assert_eq!(count("teardown"), if broken == "provision" { 0 } else { 1 });
        assert_eq!(count(grant[0]), count(grant[1]));
        assert_eq!(count(grant[0]), if broken == "log" || broken == "teardown" { 1 } else { 0 });
        assert_eq!(e.stream.len(), if broken == "teardown" { 1 } else { 0 });
        assert!(e.priority_set.is_empty());
    }
    let mut world = World { broken: vec!["clone", "teardown"], ..World::default() };
    let mut e = queue_engine();
    let mut u = unit("u-repo");
    repository(&mut u);
    e.admit_unit(u).unwrap();
    let out = try_drain(&mut e, &mut world, &pass, &StubWorker, false, false);
    // The first failure is the one that is told.
    assert_eq!(out, Err("clone failed".to_string()));
    assert_eq!(world.did, vec!["provision", "clone", "teardown"]);
}

#[test]
fn a_unit_without_cells_is_accepted_only_if_the_oracle_passes() {
    for (report, accepted) in [
        (GateReport::default as fn() -> GateReport, false),
        (pass as fn() -> GateReport, true),
    ] {
        let mut world = World::default();
        let mut e = queue_engine();
        let mut u = unit("u1");
        u.cell_graph = vec![];
        e.admit_unit(u).unwrap();
        let out = drain(&mut e, &mut world, &report, &StubWorker, false, false);
        let verdict = if accepted { Verdict::Accepted } else { Verdict::Escalate };
        assert_eq!(e.stream[0].verdict, verdict);
        assert!(e.stream[0].cell_results.is_empty());
        assert_eq!(out == DrainOutcome::Accepted { unit_ref: "u1".into() }, accepted);
    }
}

#[test]
fn the_cells_are_dispatched_as_a_batch_if_there_are_any() {
    for (empty, phase) in [(false, BatchPhase::Dispatched), (true, BatchPhase::New)] {
        let mut e = queue_engine();
        let mut u = unit("u1");
        if empty {
            u.cell_graph = vec![];
        }
        e.admit_unit(u).unwrap();
        match e.drain_one_isolated(false, false, "t1") {
            Start::Running(run) => assert_eq!(run.batch.phase, phase),
            _ => panic!("the unit is covered"),
        }
    }
}

#[test]
fn artifacts_land_inside_the_workspace() {
    let written = |path: &str| {
        let mut world = World::default();
        let mut e = queue_engine();
        let mut u = unit("u1");
        u.cell_graph[0].output = Some(CellOutput {
            artifact_id: "a".into(),
            media_type: "text/plain".into(),
            path: Some(path.into()),
        });
        e.admit_unit(u).unwrap();
        let out = drain(&mut e, &mut world, &pass, &StubWorker, false, false);
        assert_eq!(out, DrainOutcome::Accepted { unit_ref: "u1".into() });
        world.files[0].0.clone()
    };
    assert_eq!(written("src/lib.rs"), "src/lib.rs");
    assert_eq!(written("a..b/..c"), "a..b/..c");
    assert_eq!(written("./x"), "./x");
    assert_eq!(written("src/../lib.rs"), "src/../lib.rs");
    assert_eq!(written("a//b/../../c/."), "a//b/../../c/.");
    assert_eq!(written("."), "_");
    assert_eq!(written(""), "_");
    assert_eq!(written("a/../.."), "a______");
    assert_eq!(written("a/../../ws/x"), "a_______ws_x");
    assert_eq!(written("../../x"), "______x");
    assert_eq!(written("a/../../x"), "a_______x");
    assert_eq!(written("a/.."), "a___");
    assert_eq!(written("/etc/x"), "_etc_x");
}

#[test]
fn the_local_broker_mints_opaque_tokens() {
    assert_eq!(LocalBroker.exchange("g"), "lease:g");
}

fn verdict(hash: &str) -> VerdictEvent {
    VerdictEvent {
        event_id: format!("ve-{hash}"),
        emitted_at: "t0".into(),
        unit_ref: "u".into(),
        parent_deliverable: "d".into(),
        bundle_hash: hash.into(),
        verdict: Verdict::Accepted,
        missing_capabilities: None,
        tier_ran: Some("light".into()),
        cell_results: vec![],
        delivery_result: None,
        next_consequence: kiln::interface::Consequence::Advance,
    }
}

#[test]
fn a_log_is_read_back_line_by_line_without_its_blank_lines() {
    let text = "{\"a\":1}\n\n  \t\n{\"b\":2}\r\n{\"c\":3}";
    assert_eq!(DurableLog::read_all(text), vec!["{\"a\":1}", "{\"b\":2}", "{\"c\":3}"]);
    assert!(DurableLog::read_all("").is_empty());
    assert!(DurableLog::read_all(" \n\n").is_empty());
    // What was read back is what the log knows.
    let entries: Vec<VerdictEvent> = DurableLog::read_all("h1\n\nh2\nh1\n")
        .iter()
        .map(|line| verdict(line))
        .collect();
    assert_eq!(entries.len(), 3);
    let log = DurableLog::open(&entries);
    assert_eq!(log.len(), 2);
    assert!(log.already_logged("h1") && log.already_logged("h2"));
}

#[test]
fn durable_log_is_idempotent_and_survives_reopen() {
    let mut entries: Vec<VerdictEvent> = vec![];
    {
        let mut log = DurableLog::open(&entries);
        assert!(log.is_empty());
        for (hash, new) in [("h1", true), ("h1", false), ("h2", true)] {
            assert_eq!(log.append(&verdict(hash)), new);
            if new {
                entries.push(verdict(hash));
            }
        }
        assert_eq!(log.len(), 2);
    }
    let mut log = DurableLog::open(&entries);
    assert!(log.already_logged("h1"));
    assert!(!log.already_logged("h3"));
    assert!(!log.append(&verdict("h1")));
    assert_eq!(log.len(), 2);
    assert_eq!(entries.len(), 2);
}
