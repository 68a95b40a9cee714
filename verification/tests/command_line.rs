use kiln::cli::{
    choose_oracle, choose_worker, host_spec_for, mode_lower, parse_args, parse_mode, stamp,
    HostEnv, Invocation, WorkerChoice,
};
use kiln::delivery::{
    base_args, baseline_args, branch_name, clone_args, clone_failure, compare_url, diff_args,
    is_left_behind, patch_name, seed_clone_args, stage_args, GitStep, RepositoryDelivery,
};
use kiln::executor::{DrainOutcome, Engine};
use kiln::host::{HostHandle, HostPhase};
use kiln::interface::{
    Artifact, ArtifactBody, Cell, CellResult, CellVerdict, Consequence, DeliveryResult,
    Integration, IntegrationMethod, ModelBinding, Verdict, VerdictEvent, WorkUnit,
};
use kiln::json::Json;
use kiln::report::{
    count_attempt, report_run, report_serve, report_status, report_stream, run_summary,
    serve_summary,
};
use kiln::switch::Mode;

fn args(a: &[&str]) -> Vec<String> {
    a.iter().map(|s| s.to_string()).collect()
}

#[test]
fn arguments_ask_for_commands() {
    assert_eq!(
        parse_args(&args(&["mode", "set", "queue"])),
        Some(Invocation::ModeSet { mode: "queue".into() })
    );
    assert_eq!(
        parse_args(&args(&["admit", "f.json"])),
        Some(Invocation::AdmitFile { file: "f.json".into() })
    );
    for (word, c) in [
        ("status", Invocation::Status),
        ("manifest", Invocation::Manifest),
        ("run", Invocation::Run),
        ("serve", Invocation::Serve),
        ("explore", Invocation::Explore),
        ("stream", Invocation::Stream),
    ] {
        assert_eq!(parse_args(&args(&[word])), Some(c));
    }
    for none in [&[][..], &["mode"][..], &["mode", "get", "x"][..], &["run", "x"][..],
        &["admit"][..], &["bogus"][..], &["a", "b", "c", "d"][..]]
    {
        assert_eq!(parse_args(&args(none)), None);
    }
}

#[test]
fn modes_have_words() {
    assert_eq!(parse_mode("queue"), Ok(Mode::Queue));
    assert_eq!(parse_mode("explorer"), Ok(Mode::Explorer));
    assert_eq!(
        parse_mode("off"),
        Err("unknown mode 'off' (use queue | explorer)".to_string())
    );
    for m in [Mode::Queue, Mode::Explorer] {
        assert_eq!(parse_mode(mode_lower(m)), Ok(m));
    }
    assert_eq!(mode_lower(Mode::Off), "off");
    assert_eq!(stamp(17), "t17");
}

fn host_env() -> HostEnv {
    HostEnv {
        ssh_target: Some("box".into()),
        queue_model: Some("small".into()),
        explorer_model: None,
        vllm_model: Some("any".into()),
        port: None,
        image: None,
        args: None,
    }
}

#[test]
fn the_environment_configures_the_host() {
    let none = HostEnv { ssh_target: None, ..host_env() };
    assert_eq!(host_spec_for(Mode::Queue, none), None);
    let h = host_spec_for(Mode::Queue, host_env()).unwrap();
    assert_eq!(h.host_id, "queue-host");
    assert_eq!(h.model, "small");
    assert_eq!(h.ssh_target, "box");
    assert_eq!(h.image, "vllm/vllm-openai:latest");
    assert_eq!(h.port, 8000);
    assert!(h.extra_args.is_empty());
    assert_eq!(host_spec_for(Mode::Explorer, host_env()).unwrap().model, "any");
    let bare = HostEnv {
        queue_model: None,
        vllm_model: None,
        port: Some("9000".into()),
        image: Some("img".into()),
        args: Some(" --a  1 ".into()),
        ..host_env()
    };
    let h = host_spec_for(Mode::Off, bare).unwrap();
    assert_eq!((h.model.as_str(), h.port, h.image.as_str()), ("default", 9000, "img"));
    assert_eq!(h.extra_args, vec!["--a", "1"]);
    let bad = HostEnv { port: Some("x".into()), ..host_env() };
    assert_eq!(host_spec_for(Mode::Queue, bad).unwrap().port, 8000);
}

#[test]
fn a_ready_residency_is_the_first_choice_of_worker() {
    let handle = Some(HostHandle {
        host_id: "h".into(),
        endpoint: "http://h".into(),
        model: "m".into(),
    });
    assert_eq!(
        choose_worker(HostPhase::Ready, &handle, true, true),
        WorkerChoice::Residency
    );
    assert_eq!(choose_worker(HostPhase::Launched, &handle, true, true), WorkerChoice::OpenAi);
    assert_eq!(choose_worker(HostPhase::Ready, &None, false, true), WorkerChoice::Command);
    assert_eq!(choose_worker(HostPhase::Absent, &None, false, false), WorkerChoice::Stub);
    assert_eq!(choose_oracle(Some("cargo test".into())).command, "cargo test");
    assert_eq!(choose_oracle(None).command, "true");
    assert!(!choose_oracle(None).worker_writable);
}

// --- what is said

#[test]
fn each_drained_unit_has_a_line() {
    let accepted = DrainOutcome::Accepted { unit_ref: "u".into() };
    let escalated = DrainOutcome::Escalated { unit_ref: "u".into(), to_ladder: 1 };
    let halted = DrainOutcome::Halted { unit_ref: "u".into() };
    let refused = DrainOutcome::NotAdmitted {
        unit_ref: "u".into(),
        missing: vec!["a".into(), "b".into()],
    };
    assert_eq!(report_run(&accepted), Some("  accepted   u".to_string()));
    assert_eq!(
        report_run(&escalated),
        Some("  escalated  u -> ladder 1 (whole unit, one binding up)".to_string())
    );
    assert_eq!(report_run(&halted), Some("  halted     u (ladder exhausted)".to_string()));
    assert_eq!(
        report_run(&refused),
        Some("  not-admitted u (never ran; missing: a, b)".to_string())
    );
    assert_eq!(report_run(&DrainOutcome::Idle), None);
    assert_eq!(report_run(&DrainOutcome::NotQueueMode), None);

    let none: Vec<VerdictEvent> = vec![];
    assert_eq!(
        report_serve(&accepted, &none, None),
        Some("  accepted   u  (verified; no diff to deliver)".to_string())
    );
    assert_eq!(
        report_serve(&accepted, &none, Some("d/u.patch")),
        Some("  accepted   u  (verified → patch: d/u.patch)".to_string())
    );
    let mut landed = event("u");
    landed.delivery_result = Some(DeliveryResult {
        branch: "b".into(),
        commit: "c".into(),
        pr_url: None,
    });
    assert_eq!(
        report_serve(&accepted, &vec![landed.clone()], Some("p")),
        Some("  accepted   u  (verified → branch b @ c)".to_string())
    );
    landed.delivery_result.as_mut().unwrap().pr_url = Some("url".into());
    assert_eq!(
        report_serve(&accepted, &vec![landed.clone()], None),
        Some("  accepted   u  (verified → branch b @ c, PR: url)".to_string())
    );
    landed.unit_ref = "other".into();
    assert_eq!(
        report_serve(&accepted, &vec![landed], None),
        Some("  accepted   u  (verified; no diff to deliver)".to_string())
    );
    assert_eq!(
        report_serve(&escalated, &none, None),
        Some("  escalated  u -> ladder 1 (verification failed; retrying one tier up)".to_string())
    );
    assert_eq!(
        report_serve(&halted, &none, None),
        Some("  halted     u (ladder exhausted — verification never passed)".to_string())
    );
    assert_eq!(
        report_serve(&refused, &none, None),
        Some("  not-admitted u (never ran; box lacks: a, b)".to_string())
    );
    assert_eq!(report_serve(&DrainOutcome::Idle, &none, None), None);
}

#[test]
fn a_drain_stops_after_its_last_attempt() {
    assert_eq!(count_attempt(0), (1, true));
    assert_eq!(count_attempt(9_999), (10_000, true));
    assert_eq!(count_attempt(10_000), (10_001, false));
    assert_eq!(run_summary(2, 3), "drained 2 unit-attempt(s); 3 verdict(s) on the stream");
    assert_eq!(
        serve_summary(2, 3),
        "isolated-drained 2 unit-attempt(s); durable log holds 3 verdict(s) at \
         .spark/verdicts.jsonl"
    );
}

fn event(unit_ref: &str) -> VerdictEvent {
    VerdictEvent {
        event_id: "ve-u-1".into(),
        emitted_at: "t0".into(),
        unit_ref: unit_ref.into(),
        parent_deliverable: "d".into(),
        bundle_hash: "sha256:x".into(),
        verdict: Verdict::Accepted,
        missing_capabilities: None,
        tier_ran: Some("light".into()),
        cell_results: vec![],
        delivery_result: None,
        next_consequence: Consequence::Advance,
    }
}

#[test]
fn the_stream_is_shown_event_by_event() {
    assert_eq!(report_stream(&vec![]), vec!["(no verdicts emitted yet)"]);
    let mut ran = event("u");
    let long = format!("a\n{}", "b".repeat(80));
    let mut result = CellResult::gated("c", true);
    result.artifact = Some(Artifact {
        artifact_id: "a".into(),
        content_hash: "sha256:h".into(),
        delivery: ArtifactBody::Inline { content: long },
    });
    ran.cell_results = vec![result, CellResult::skipped("longer-than-eight")];
    ran.delivery_result = Some(DeliveryResult {
        branch: "b".into(),
        commit: "c".into(),
        pr_url: Some("url".into()),
    });
    let mut refused = event("v");
    refused.verdict = Verdict::NotAdmitted;
    refused.tier_ran = None;
    refused.next_consequence = Consequence::Halt;
    refused.missing_capabilities = Some(vec!["gate:command".into()]);
    let mut plain = event("w");
    plain.delivery_result = Some(DeliveryResult {
        branch: "b".into(),
        commit: "c".into(),
        pr_url: None,
    });
    let shown = format!("a {}", "b".repeat(58));
    assert_eq!(
        report_stream(&vec![ran, refused, plain]),
        vec![
            "ve-u-1  unit=u  verdict=Accepted  tier=light  next=Advance  hash=sha256:x"
                .to_string(),
            "    delivered -> branch b @ c  (PR: url)".to_string(),
            format!("    cell c        Accepted  [sha256:h]  inline: {shown}"),
            "    cell longer-than-eight Skipped".to_string(),
            "ve-u-1  unit=v  verdict=NotAdmitted  tier=-  next=Halt  hash=sha256:x".to_string(),
            "    not-admitted — missing capabilities:".to_string(),
            "      - gate:command".to_string(),
            "ve-u-1  unit=w  verdict=Accepted  tier=light  next=Advance  hash=sha256:x"
                .to_string(),
            "    delivered -> branch b @ c".to_string(),
        ]
    );
}

#[test]
fn the_names_that_are_shown_are_those_of_the_variants() {
    for v in [Verdict::Accepted, Verdict::Rejected, Verdict::Escalate, Verdict::NotAdmitted] {
        for c in [
            Consequence::Advance,
            Consequence::Halt,
            Consequence::Retry,
            Consequence::Escalate,
        ] {
            let mut e = event("u");
            e.verdict = v;
            e.next_consequence = c;
            let line = report_stream(&vec![e])[0].clone();
            assert!(line.contains(&format!("verdict={v:?}  ")));
            assert!(line.contains(&format!("next={c:?}  ")));
        }
    }
    for v in [CellVerdict::Accepted, CellVerdict::Rejected, CellVerdict::Skipped] {
        let mut e = event("u");
        let mut r = CellResult::skipped("c");
        r.verdict = v;
        e.cell_results = vec![r];
        assert_eq!(report_stream(&vec![e])[1], format!("    cell c        {v:?}"));
    }
    for m in [Mode::Off, Mode::Queue, Mode::Explorer] {
        let mut e = Engine::new();
        e.mode = m;
        assert_eq!(report_status(&e, "0")[0], format!("box mode:        {m:?}"));
    }
}

#[test]
fn the_status_shows_the_views() {
    let mut e = Engine::new();
    e.heterogeneity_view.admitted = 3;
    e.heterogeneity_view.rejected = 1;
    assert_eq!(
        report_status(&e, "25"),
        vec![
            "box mode:        Off",
            "queued units:    0",
            "verdicts:        0",
            "heterogeneity:   1/4 rejected (25%)",
            "utilization:     in_flight=0 exploring=false discoveries=0",
            "serving host:    phase=Absent ready=false endpoint=-",
        ]
    );
    let handle = HostHandle { host_id: "h".into(), endpoint: "http://h:1".into(), model: "m".into() };
    e.launch_residency(handle).unwrap();
    e.confirm_residency(true);
    assert_eq!(
        report_status(&e, "25")[5],
        "serving host:    phase=Ready ready=true endpoint=http://h:1"
    );
}

fn unit(r: &str) -> WorkUnit {
    let b = ModelBinding { model: "coder".into(), quantization: "q4".into(), ..Default::default() };
    WorkUnit {
        unit_ref: r.into(),
        model_binding: b.clone(),
        cell_graph: vec![Cell {
            cell_id: "c".into(),
            binding: b,
            prompt: "p".into(),
            schema: Json::text("s"),
            ..Default::default()
        }],
        ..Default::default()
    }
}

#[test]
fn handing_a_unit_in_says_what_becomes_of_it() {
    let mut e = Engine::new();
    let r = e.hand_in(unit("u"));
    assert!(r.taken);
    assert_eq!(
        r.said,
        Some("admitted 'u' -> queued (binding-homogeneous)".to_string())
    );
    assert_eq!(
        r.warned,
        Some(
            "warning: this box cannot cover 'u' — it will be answered not-admitted at run.\n  \
             missing capabilities:\n    - binding:/coder@q4"
                .to_string()
        )
    );
    let mut covered = unit("v");
    for b in [&mut covered.model_binding, &mut covered.cell_graph[0].binding] {
        b.provider = "local-vllm".into();
        b.model = "qwen3.6-35b".into();
        b.quantization = "FP8".into();
    }
    let r = e.hand_in(covered);
    assert!(r.taken);
    assert_eq!(
        r.said,
        Some(
            "admitted 'v' -> queued (binding-homogeneous; manifest covers its requirements)"
                .to_string()
        )
    );
    assert_eq!(r.warned, None);
    let mut bad = unit("w");
    bad.cell_graph[0].depends_on = vec!["ghost".into()];
    let r = e.hand_in(bad);
    assert!(!r.taken);
    assert_eq!(r.said, None);
    assert_eq!(
        r.warned,
        Some(
            "rejected 'w': inv-cross-unit-edge (a decomposition defect, never dispatched)"
                .to_string()
        )
    );
    assert_eq!(e.priority_set.len(), 2);
    assert_eq!((e.heterogeneity_view.admitted, e.heterogeneity_view.rejected), (2, 1));
}

// --- delivery

fn integration(method: IntegrationMethod, target: &str, branch: &str) -> Integration {
    Integration { method, target_ref: target.into(), branch_name: branch.into() }
}

#[test]
fn a_delivery_runs_its_commands_in_order() {
    let mut d = RepositoryDelivery::begin(
        true,
        "https://github.com/acme/widget.git".into(),
        integration(IntegrationMethod::PullRequest, "", " "),
        "wu 1/é".into(),
    );
    assert_eq!(d.branch, "spark/wu_1/é");
    let mut ran = vec![];
    while d.step != GitStep::Finished {
        ran.push(d.args().join(" "));
        d.advance(true, b" abc123\n");
    }
    assert_eq!(
        ran,
        vec![
            "checkout -q -B spark/wu_1/é",
            "add -A -- . :!target :!node_modules :!bin :!obj :!.spark :!.git",
            "-c user.email=spark@local -c user.name=spark commit -q -m spark: wu 1/é",
            "rev-parse HEAD",
            "push --quiet origin HEAD:refs/heads/spark/wu_1/é",
        ]
    );
    assert!(d.args().is_empty());
    let landed = d.landed.unwrap();
    assert_eq!(landed.commit, "abc123");
    assert_eq!(
        landed.pr_url.as_deref(),
        Some("https://github.com/acme/widget/compare/main...spark/wu_1/é?expand=1")
    );
}

#[test]
fn a_delivery_ends_early_without_a_repository_a_change_or_a_commit() {
    let begin = |has| {
        RepositoryDelivery::begin(
            has,
            "file:///r".into(),
            integration(IntegrationMethod::PushBranch, "main", "b"),
            "u".into(),
        )
    };
    assert_eq!(begin(false).step, GitStep::Finished);
    // Branching and staging are best effort; a commit that fails ends it.
    let mut d = begin(true);
    d.advance(false, b"");
    d.advance(false, b"");
    assert_eq!(d.step, GitStep::Commit);
    d.advance(false, b"");
    assert_eq!((d.step, d.landed.is_none()), (GitStep::Finished, true));
    // Without the id of the commit there is nothing to report.
    let mut d = begin(true);
    for _ in 0..3 {
        d.advance(true, b"");
    }
    d.advance(false, b"");
    assert_eq!((d.step, d.landed.is_none()), (GitStep::Finished, true));
    // A push that fails still reports the branch and the commit.
    let mut d = begin(true);
    for _ in 0..4 {
        d.advance(true, b"abc");
    }
    d.advance(false, b"");
    assert_eq!(
        d.landed,
        Some(DeliveryResult { branch: "b".into(), commit: "abc".into(), pr_url: None })
    );
    d.advance(true, b"");
    assert_eq!(d.step, GitStep::Finished);
}

#[test]
fn only_pushed_pull_requests_on_a_known_forge_have_a_page() {
    let pr = integration(IntegrationMethod::PullRequest, "dev", "");
    let push = integration(IntegrationMethod::PushBranch, "dev", "");
    let url = "https://github.com/a/b";
    assert_eq!(
        compare_url(url, &pr, "x", true).as_deref(),
        Some("https://github.com/a/b/compare/dev...x?expand=1")
    );
    assert_eq!(compare_url(url, &pr, "x", false), None);
    assert_eq!(compare_url(url, &push, "x", true), None);
    assert_eq!(compare_url("https://gitlab.com/a/b", &pr, "x", true), None);
    assert_eq!(compare_url("git@github.com:a/b.git", &pr, "x", true), None);
    assert_eq!(branch_name("kept", "u"), "kept");
}

#[test]
fn workspaces_are_made_and_compared_with_git() {
    assert_eq!(clone_args("u", "w").join(" "), "clone --quiet u w");
    assert_eq!(clone_failure("u"), "git clone u failed");
    assert_eq!(base_args(" "), None);
    assert_eq!(base_args("main").unwrap().join(" "), "checkout --quiet main");
    assert_eq!(
        seed_clone_args("s", "w").join(" "),
        "clone --quiet --local --no-hardlinks s w"
    );
    let baseline: Vec<String> = baseline_args().iter().map(|a| a.join(" ")).collect();
    assert_eq!(
        baseline,
        vec![
            "init -q",
            "add -A",
            "-c user.email=spark@local -c user.name=spark commit -q -m seed baseline --allow-empty",
        ]
    );
    assert_eq!(stage_args()[0], "add");
    assert_eq!(
        diff_args().join(" "),
        "diff --cached -- . :!target :!node_modules :!bin :!obj :!.spark :!.git"
    );
    for name in ["target", ".git", "node_modules", "bin", "obj", ".spark"] {
        assert!(is_left_behind(name));
    }
    assert!(!is_left_behind("src"));
    assert_eq!(patch_name("wu-1/x"), "wu-1_x.patch");
}
