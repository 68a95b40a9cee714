use kiln::artifact::{artifact_id_and_path, build_prompt, strip_code_fences};
use kiln::execution::Oracle;
use kiln::executor::{
    default_manifest, DrainOutcome, Engine, Retirement, EXECUTOR_ID, MAX_LADDER,
};
use kiln::host::{after_probe, host_port, HostHandle, HostPhase, ServingHostView};
use kiln::interface::{
    Capabilities, CapabilityManifest, Cell, CellOutput, Consequence, ContextFragment,
    DeliveryCapability, ManifestBinding, ModelBinding, Verdict, WorkUnit,
};
use kiln::json::Json;
use kiln::sorted::StrMap;
use kiln::switch::Mode;

struct AllPass;
impl Oracle for AllPass {
    fn gate(&self, _c: &Cell) -> bool {
        true
    }
}

struct AllFail;
impl Oracle for AllFail {
    fn gate(&self, _c: &Cell) -> bool {
        false
    }
}

fn covering_manifest() -> CapabilityManifest {
    CapabilityManifest {
        executor_id: "test-box".into(),
        emitted_at: "t0".into(),
        capabilities: Capabilities {
            bindings: vec![
                ManifestBinding {
                    provider: String::new(),
                    model_id: "coder".into(),
                    revision: None,
                    quantization: "q4".into(),
                },
                ManifestBinding {
                    provider: String::new(),
                    model_id: "coder".into(),
                    revision: None,
                    quantization: "q8".into(),
                },
            ],
            delivery: DeliveryCapability {
                modes: vec!["inline".into(), "repository".into()],
                url_schemes: vec!["file".into()],
                integration_methods: vec!["push-branch".into(), "pull-request".into()],
                forges: vec![],
            },
            shape_languages: vec![],
            gate_kinds: vec![],
        },
        operational: None,
    }
}

fn test_engine() -> Engine {
    let mut e = Engine::new();
    e.manifest = covering_manifest();
    e
}

fn binding(model: &str, q: &str) -> ModelBinding {
    ModelBinding {
        model: model.into(),
        quantization: q.into(),
        params: StrMap::new(),
        ..Default::default()
    }
}

fn exec_cell(id: &str, b: ModelBinding, deps: &[&str]) -> Cell {
    Cell {
        cell_id: id.into(),
        binding: b,
        depends_on: deps.iter().map(|s| s.to_string()).collect(),
        prompt: format!("do {id}"),
        schema: Json::object(vec![("type".to_string(), Json::text("string"))]),
        ..Default::default()
    }
}

fn unit(unit_ref: &str, cells: Vec<Cell>, b: ModelBinding) -> WorkUnit {
    WorkUnit {
        unit_ref: unit_ref.into(),
        parent_deliverable: "d".into(),
        bundle_hash: "sha256:x".into(),
        spmc_bundle: Json::object(vec![]),
        model_binding: b,
        tier: "light".into(),
        cell_graph: cells,
        ..Default::default()
    }
}

fn one_cell_unit(r: &str) -> WorkUnit {
    let b = binding("coder", "q4");
    unit(r, vec![exec_cell("c", b.clone(), &[])], b)
}

#[test]
fn strip_code_fences_extracts_the_block() {
    assert_eq!(strip_code_fences("```rust\nfn a(){}\n```"), "fn a(){}");
    assert_eq!(strip_code_fences("here:\n```\nx\n```\ndone"), "x");
    assert_eq!(strip_code_fences("no fences here"), "no fences here");
}

#[test]
fn code_fences_at_the_edges() {
    // Without a fence the text is unchanged, white space and all.
    assert_eq!(strip_code_fences("  a\n"), "  a\n");
    // A block that is not closed runs to the end.
    assert_eq!(strip_code_fences("```\nx\ny\n\n"), "x\ny");
    // An opening line that does not end is the body.
    assert_eq!(strip_code_fences("```rust"), "rust");
    // Extracting twice is extracting once.
    let once = strip_code_fences("a\n```c\nint x;  \n```\n```\nz\n```");
    assert_eq!(once, "int x;");
    assert_eq!(strip_code_fences(&once), once);
}

#[test]
fn cannot_drain_outside_queue_mode() {
    let mut e = Engine::new();
    assert_eq!(e.drain_one(&AllPass, "t0"), DrainOutcome::NotQueueMode);
}

#[test]
fn an_empty_queue_is_idle() {
    let mut e = Engine::new();
    e.throw_switch(Mode::Queue).unwrap();
    assert_eq!(e.drain_one(&AllPass, "t0"), DrainOutcome::Idle);
    assert!(e.stream.is_empty());
}

#[test]
fn admit_then_drain_accepts_and_emits() {
    let mut e = test_engine();
    e.throw_switch(Mode::Queue).unwrap();
    e.admit_unit(one_cell_unit("u1")).unwrap();
    assert_eq!(e.priority_view.queued, 1);
    let out = e.drain_one(&AllPass, "t1");
    assert_eq!(out, DrainOutcome::Accepted { unit_ref: "u1".into() });
    assert_eq!(e.stream.len(), 1);
    assert_eq!(e.stream[0].verdict, Verdict::Accepted);
    assert_eq!(e.priority_view.queued, 0);
    assert_eq!(e.stream[0].event_id, "ve-u1-1");
    assert_eq!(e.stream[0].emitted_at, "t1");
    assert_eq!(e.stream[0].tier_ran.as_deref(), Some("light"));
    assert_eq!(e.stream[0].next_consequence, Consequence::Advance);
    assert_eq!(e.verdict_view.emitted, 1);
    assert_eq!(e.utilization.in_flight, 0);
}

#[test]
fn a_unit_whose_binding_the_box_cannot_serve_is_not_admitted() {
    let mut e = Engine::new();
    e.throw_switch(Mode::Queue).unwrap();
    e.admit_unit(one_cell_unit("u1")).unwrap();
    let out = e.drain_one(&AllPass, "t1");
    match out {
        DrainOutcome::NotAdmitted { unit_ref, missing } => {
            assert_eq!(unit_ref, "u1");
            assert!(missing.contains(&"binding:/coder@q4".to_string()), "distance: {missing:?}");
        }
        other => panic!("expected NotAdmitted, got {other:?}"),
    }
    let ev = e.stream.last().unwrap();
    assert_eq!(ev.verdict, Verdict::NotAdmitted);
    assert_eq!(ev.tier_ran, None);
    assert!(ev.cell_results.is_empty());
    assert_eq!(ev.next_consequence, Consequence::Halt);
    assert_eq!(e.utilization.in_flight, 0);
    assert_eq!(ev.missing_capabilities, Some(vec!["binding:/coder@q4".to_string()]));
    assert!(e.priority_set.is_empty());
}

#[test]
fn heterogeneous_unit_is_rejected_at_admission() {
    let mut e = Engine::new();
    let mixed = unit(
        "bad",
        vec![Cell {
            cell_id: "c".into(),
            binding: binding("coder", "q8"),
            ..Default::default()
        }],
        binding("coder", "q4"),
    );
    assert_eq!(e.admit_unit(mixed), Err("inv-binding-homogeneity"));
    assert_eq!(e.heterogeneity_view.rejected, 1);
    assert!(e.priority_set.is_empty());
}

#[test]
fn a_failing_unit_escalates_then_halts_when_the_ladder_is_exhausted() {
    let mut e = test_engine();
    e.throw_switch(Mode::Queue).unwrap();
    e.admit_unit(one_cell_unit("u1")).unwrap();
    assert_eq!(
        e.drain_one(&AllFail, "t1"),
        DrainOutcome::Escalated { unit_ref: "u1".into(), to_ladder: 1 }
    );
    assert_eq!(e.priority_set.len(), 1);
    assert_eq!(e.priority_set[0].tier, "heavy");
    assert_eq!(e.priority_set[0].ladder_position, MAX_LADDER);
    assert_eq!(e.drain_one(&AllFail, "t2"), DrainOutcome::Halted { unit_ref: "u1".into() });
    assert!(e.priority_set.is_empty());
    assert_eq!(e.stream.len(), 2);
    assert_eq!(e.stream[1].tier_ran.as_deref(), Some("heavy"));
    assert_eq!(e.stream[1].event_id, "ve-u1-2");
    assert_eq!(e.priority_view.queued, 0);
}

#[test]
fn the_switch_is_the_only_path_between_modes() {
    let mut e = Engine::new();
    e.throw_switch(Mode::Queue).unwrap();
    assert_eq!(e.start_exploration(), Err("inv-box-must-be-explorer"));
    e.throw_switch(Mode::Explorer).unwrap();
    e.start_exploration().unwrap();
    e.produce_discovery_record().unwrap();
    assert_eq!(e.utilization.discoveries, 1);
    assert!(!e.utilization.exploring);
    assert_eq!(e.produce_discovery_record(), Err("inv-session-not-active"));
}

#[test]
fn leaving_explorer_mode_ends_an_exploration() {
    let mut e = Engine::new();
    e.throw_switch(Mode::Explorer).unwrap();
    e.start_exploration().unwrap();
    e.throw_switch(Mode::Queue).unwrap();
    assert!(!e.utilization.exploring);
    assert_eq!(e.produce_discovery_record(), Err("inv-session-not-active"));
    e.throw_switch(Mode::Explorer).unwrap();
    assert_eq!(e.produce_discovery_record(), Err("inv-session-not-active"));
    assert_eq!(e.utilization.discoveries, 0);
    // A session that another mode claims is open yields nothing either.
    e.throw_switch(Mode::Queue).unwrap();
    e.utilization.exploring = true;
    assert_eq!(e.produce_discovery_record(), Err("inv-session-not-active"));
}

#[test]
fn rethrowing_the_resident_mode_is_a_rejected_noop() {
    let mut e = Engine::new();
    e.throw_switch(Mode::Queue).unwrap();
    assert_eq!(e.throw_switch(Mode::Queue), Err("inv-distinct-mode"));
    assert_eq!(e.mode, Mode::Queue);
    assert_eq!(e.utilization.mode, Mode::Queue);
}

#[test]
fn reordering_moves_the_first_unit_of_that_name_to_the_front() {
    let mut e = test_engine();
    for r in ["a", "b", "c", "b"] {
        e.admit_unit(one_cell_unit(r)).unwrap();
    }
    e.priority_set[1].tier = "first b".into();
    assert_eq!(e.reprioritize_to_front("b"), Ok(()));
    let refs: Vec<&str> = e.priority_set.iter().map(|u| u.unit_ref.as_str()).collect();
    assert_eq!(refs, vec!["b", "a", "c", "b"]);
    assert_eq!(e.priority_set[0].tier, "first b");
    assert_eq!(e.reprioritize_to_front("z"), Err("inv-only-queued-reorderable"));
    assert_eq!(e.priority_view.queued, 4);
}

#[test]
fn the_published_manifest_carries_hints_that_decide_nothing() {
    let mut e = Engine::new();
    e.throw_switch(Mode::Queue).unwrap();
    e.admit_unit(one_cell_unit("u1")).unwrap();
    let m = e.publish_manifest("t7");
    assert_eq!(m.executor_id, EXECUTOR_ID);
    assert_eq!(m.emitted_at, "t7");
    let o = m.operational.as_ref().unwrap();
    assert_eq!(o.mode.as_deref(), Some("Queue"));
    assert_eq!(o.queue_depth, Some(1));
    assert_eq!(o.capacity, None);
    assert_eq!(m.capabilities, e.manifest.capabilities);
    let u = one_cell_unit("u");
    assert_eq!(m.missing_for(&u), e.manifest.missing_for(&u));
}

#[test]
fn the_reference_manifest_covers_the_resident_binding() {
    let m = default_manifest();
    assert_eq!(m.executor_id, "dgx-spark-gb10");
    let mut b = binding("qwen3.6-35b", "FP8");
    b.provider = "local-vllm".into();
    let mut cell = exec_cell("c", b.clone(), &[]);
    cell.shape_language = "prose".into();
    let u = unit("u", vec![cell], b);
    assert!(m.covers(&u));
    let ids = m.capability_ids();
    for id in [
        "binding:local-vllm/qwen3.6-35b@FP8",
        "delivery:inline",
        "delivery:repository",
        "url-scheme:file",
        "url-scheme:https",
        "url-scheme:ssh",
        "integration:push-branch",
        "integration:pull-request",
        "forge:github.com",
        "shape-language:prose",
        "shape-language:JSON",
        "shape-language:JSON Schema",
        "shape-language:SHACL",
        "gate:command",
    ] {
        assert!(ids.contains(id), "{id}");
    }
    assert_eq!(ids.len(), 14);
}

#[test]
fn materializing_a_residency_launches_confirms_ready_then_retires() {
    let mut e = Engine::new();
    e.throw_switch(Mode::Queue).unwrap();
    assert_eq!(e.retirement(), Retirement::Nothing);
    e.retire_residency();
    assert_eq!(e.may_launch(), Ok(()));
    let handle = HostHandle {
        host_id: "queue-host".into(),
        endpoint: "http://127.0.0.1:8000".into(),
        model: "coder".into(),
    };
    let target = e.launch_residency(handle).unwrap();
    assert_eq!(target, ("127.0.0.1".to_string(), 8000));
    assert!(!e.confirm_residency(false));
    assert_eq!(e.host.phase, HostPhase::Launched);
    assert!(e.confirm_residency(true), "a listening endpoint should confirm ready");
    assert_eq!(e.host.phase, HostPhase::Ready);
    assert_eq!(e.serving_host_view, ServingHostView { materialized: 1, ready: true });
    assert_eq!(e.host_handle.as_ref().unwrap().model, "coder");
    assert_eq!(e.may_launch(), Err("inv-single-serving-host"));

    assert_eq!(e.retirement(), Retirement::Stop);
    e.retire_residency();
    assert_eq!(e.host.phase, HostPhase::Retired);
    assert_eq!(e.serving_host_view, ServingHostView { materialized: 0, ready: false });
    assert!(e.host_handle.is_none());
}

#[test]
fn a_live_host_without_a_handle_is_forgotten() {
    let mut e = Engine::new();
    let handle = HostHandle { host_id: "h".into(), endpoint: "x".into(), model: "m".into() };
    e.launch_residency(handle.clone()).unwrap();
    assert_eq!(e.launch_residency(handle), Err("inv-single-serving-host"));
    e.host_handle = None;
    assert_eq!(e.retirement(), Retirement::Forget);
}

#[test]
fn endpoints_are_split_for_probing() {
    assert_eq!(host_port("http://h:8080/v1"), ("h".to_string(), 8080));
    assert_eq!(host_port("https://h"), ("h".to_string(), 80));
    assert_eq!(host_port("h:x"), ("h".to_string(), 80));
    assert_eq!(host_port("h:70000"), ("h".to_string(), 80));
    assert_eq!(host_port("h:+1"), ("h".to_string(), 1));
    assert_eq!(host_port(""), (String::new(), 80));
}

#[test]
fn probing_goes_on_until_an_answer_or_the_timeout() {
    assert_eq!(after_probe(true, 10, 5), Some(true));
    assert_eq!(after_probe(false, 5, 5), Some(false));
    assert_eq!(after_probe(false, 4, 5), None);
}

#[test]
fn a_fresh_engine_can_count() {
    let mut e = Engine::default();
    assert!(e.can_count());
    e.seq = u64::MAX;
    assert!(!e.can_count());
}

// --- prompts and artifacts

#[test]
fn a_prompt_is_context_then_prerequisites_then_the_cells_own() {
    let b = binding("coder", "q4");
    let mut cell = exec_cell("impl", b.clone(), &["test", "other"]);
    cell.context_refs = vec!["f1".into(), "gone".into(), "f2".into()];
    let mut u = unit("u1", vec![], b);
    u.context_pool.insert(
        "f1".into(),
        ContextFragment { content: "one".into(), provenance: None },
    );
    u.context_pool.insert(
        "f2".into(),
        ContextFragment { content: "two".into(), provenance: None },
    );
    let mut produced = StrMap::new();
    produced.insert("test".to_string(), "assert!(true)".to_string());
    assert_eq!(
        build_prompt(&u, &cell, &produced),
        "one\n\ntwo\n\n--- artifact produced by prerequisite cell `test` ---\n\
         assert!(true)\n\ndo impl"
    );
    // What a cell does not depend on is no part of its prompt.
    let before = build_prompt(&u, &cell, &produced);
    produced.insert("unrelated".to_string(), "x".to_string());
    assert_eq!(build_prompt(&u, &cell, &produced), before);
    cell.prompt = " \n".into();
    cell.context_refs = vec![];
    cell.depends_on = vec![];
    assert_eq!(build_prompt(&u, &cell, &produced), "unit u1 cell impl");
}

#[test]
fn an_artifact_has_a_declared_or_a_derived_place() {
    let mut cell = exec_cell("c", binding("m", "q"), &[]);
    assert_eq!(artifact_id_and_path(&cell), ("c".to_string(), "c.out".to_string()));
    cell.output = Some(CellOutput {
        artifact_id: "art".into(),
        media_type: String::new(),
        path: None,
    });
    assert_eq!(artifact_id_and_path(&cell), ("art".to_string(), "c.out".to_string()));
    cell.output = Some(CellOutput {
        artifact_id: "art".into(),
        media_type: String::new(),
        path: Some("src/a.rs".into()),
    });
    assert_eq!(artifact_id_and_path(&cell), ("art".to_string(), "src/a.rs".to_string()));
}

#[test]
fn events_of_different_units_and_numbers_have_different_ids() {
    let mut e = test_engine();
    e.throw_switch(Mode::Queue).unwrap();
    for r in ["a", "a-1", "a"] {
        e.admit_unit(one_cell_unit(r)).unwrap();
    }
    for _ in 0..3 {
        e.drain_one(&AllPass, "t");
    }
    let ids: Vec<&str> = e.stream.iter().map(|v| v.event_id.as_str()).collect();
    assert_eq!(ids, vec!["ve-a-1", "ve-a-1-2", "ve-a-3"]);
}

#[test]
fn an_engine_between_units_is_orderly() {
    let mut e = test_engine();
    e.throw_switch(Mode::Queue).unwrap();
    for r in ["a", "b", "a"] {
        e.admit_unit(one_cell_unit(r)).unwrap();
    }
    e.reprioritize_to_front("b").unwrap();
    let mut emitted = 0;
    loop {
        let outcome = e.drain_one(&AllFail, "t");
        assert!(e.stream.len() <= emitted + 1);
        emitted = e.stream.len();
        assert_eq!(e.priority_view.queued, e.priority_set.len() as i64);
        assert_eq!(e.verdict_view.emitted, emitted as i64);
        assert_eq!((e.utilization.in_flight, e.utilization.mode), (0, e.mode));
        if outcome == DrainOutcome::Idle {
            break;
        }
    }
    // Each of the three units fails at both rungs.
    let ids: Vec<&str> = e.stream.iter().map(|v| v.event_id.as_str()).collect();
    assert_eq!(ids, vec!["ve-b-1", "ve-a-2", "ve-a-3", "ve-b-4", "ve-a-5", "ve-a-6"]);
}
