use kiln::execution::{
    consequence_of, reduce_verdict, walk_cells, walk_gated, GateReport, Oracle,
};
use kiln::interface::{
    Cell, CellResult, CellVerdict, Consequence, ModelBinding, Verdict,
};
use kiln::json::Json;
use kiln::oracle::{CheckRun, CommandOracle, OracleEvent};
use kiln::order::topo_order;
use kiln::serving::{schedule_batches, CommandWorker, StubWorker, Worker};
use kiln::sorted::StrMap;

struct AllPass;
impl Oracle for AllPass {
    fn gate(&self, _c: &Cell) -> bool {
        true
    }
}

struct FailCell(&'static str);
impl Oracle for FailCell {
    fn gate(&self, c: &Cell) -> bool {
        c.cell_id != self.0
    }
}

fn binding(q: &str) -> ModelBinding {
    ModelBinding {
        model: "coder".into(),
        quantization: q.into(),
        params: StrMap::new(),
        ..Default::default()
    }
}

fn cell(id: &str, deps: &[&str]) -> Cell {
    Cell {
        cell_id: id.into(),
        binding: binding("q4"),
        depends_on: deps.iter().map(|s| s.to_string()).collect(),
        prompt: format!("do {id}"),
        schema: Json::object(vec![("type".to_string(), Json::text("string"))]),
        ..Default::default()
    }
}

fn seen(results: &[CellResult]) -> Vec<(&str, CellVerdict)> {
    results.iter().map(|r| (r.cell_id.as_str(), r.verdict)).collect()
}

#[test]
fn all_cells_passing_accepts() {
    let cells = vec![cell("test", &[]), cell("impl", &["test"])];
    let r = walk_cells(&cells, &AllPass);
    assert_eq!(reduce_verdict(&r), Verdict::Accepted);
}

#[test]
fn a_failed_cell_escalates_the_unit() {
    let cells = vec![cell("test", &[]), cell("impl", &["test"])];
    let r = walk_cells(&cells, &FailCell("impl"));
    assert_eq!(reduce_verdict(&r), Verdict::Escalate);
    assert_eq!(consequence_of(Verdict::Escalate), Consequence::Escalate);
}

#[test]
fn a_failed_predecessor_blocks_its_successor() {
    let cells = vec![cell("test", &[]), cell("impl", &["test"])];
    let r = walk_cells(&cells, &FailCell("test"));
    let impl_passed = r.iter().find(|c| c.cell_id == "impl").unwrap().passed;
    assert!(!impl_passed);
    assert_eq!(
        seen(&r),
        vec![("test", CellVerdict::Rejected), ("impl", CellVerdict::Skipped)]
    );
}

#[test]
fn a_walk_keeps_dependency_order_whatever_the_list_order() {
    let cells = vec![cell("c", &["b"]), cell("b", &["a"]), cell("a", &[])];
    let r = walk_cells(&cells, &AllPass);
    assert_eq!(
        seen(&r),
        vec![
            ("a", CellVerdict::Accepted),
            ("b", CellVerdict::Accepted),
            ("c", CellVerdict::Accepted),
        ]
    );
}

#[test]
fn cells_that_never_become_ready_are_skipped() {
    let cells = vec![cell("x", &["y"]), cell("y", &["x"]), cell("z", &[]), cell("d", &["ghost"])];
    let r = walk_cells(&cells, &AllPass);
    assert_eq!(
        seen(&r),
        vec![
            ("z", CellVerdict::Accepted),
            ("x", CellVerdict::Skipped),
            ("y", CellVerdict::Skipped),
            ("d", CellVerdict::Skipped),
        ]
    );
    assert!(r.iter().all(|c| c.passed == (c.verdict == CellVerdict::Accepted)));
}

#[test]
fn the_walk_follows_the_given_gates() {
    let cells = vec![cell("a", &[]), cell("b", &["a"]), cell("c", &[])];
    let r = walk_gated(&cells, &[true, false, true]);
    assert_eq!(
        seen(&r),
        vec![
            ("a", CellVerdict::Accepted),
            ("b", CellVerdict::Rejected),
            ("c", CellVerdict::Accepted),
        ]
    );
    assert_eq!(reduce_verdict(&r), Verdict::Escalate);
}

#[test]
fn a_unit_without_cells_is_accepted() {
    let r = walk_cells(&[], &AllPass);
    assert!(r.is_empty());
    assert_eq!(reduce_verdict(&r), Verdict::Accepted);
}

#[test]
fn only_acceptance_advances() {
    assert_eq!(consequence_of(Verdict::Accepted), Consequence::Advance);
    assert_eq!(consequence_of(Verdict::Rejected), Consequence::Halt);
    assert_eq!(consequence_of(Verdict::NotAdmitted), Consequence::Halt);
}

#[test]
fn an_oracle_without_a_check_passes_every_workspace() {
    assert_eq!(AllPass.verify("ws"), GateReport { passed: true, evidence: None });
    assert_eq!(GateReport::default(), GateReport { passed: false, evidence: None });
}

// --- the order of a run

fn order(cells: &[Cell]) -> Vec<usize> {
    topo_order(cells)
}

#[test]
fn cells_are_run_after_their_dependencies() {
    let cells = vec![cell("c", &["a", "b"]), cell("b", &["a"]), cell("a", &[]), cell("d", &[])];
    assert_eq!(order(&cells), vec![2, 3, 1, 0]);
}

#[test]
fn cycles_and_dangling_dependencies_come_last() {
    let cells = vec![
        cell("x", &["y"]),
        cell("g", &["ghost"]),
        cell("y", &["x"]),
        cell("a", &[]),
        cell("b", &["a"]),
    ];
    assert_eq!(order(&cells), vec![3, 4, 1, 0, 2]);
}

#[test]
fn a_dependency_named_twice_is_one_dependency() {
    let cells = vec![cell("c", &["b"]), cell("b", &["a", "a"]), cell("a", &[])];
    assert_eq!(order(&cells), vec![2, 1, 0]);
}

#[test]
fn what_comes_last_keeps_its_dependency_order() {
    let cells = vec![cell("z", &["x"]), cell("x", &["ghost"])];
    assert_eq!(order(&cells), vec![1, 0]);
    let more = vec![
        cell("z", &["x", "a"]),
        cell("x", &["ghost", "a"]),
        cell("a", &["b"]),
        cell("b", &[]),
    ];
    assert_eq!(order(&more), vec![3, 2, 1, 0]);
}

#[test]
fn a_dependency_on_a_repeated_id_is_on_its_last_cell() {
    let cells = vec![cell("b", &["a"]), cell("a", &[]), cell("a", &["b2"]), cell("b2", &[])];
    assert_eq!(order(&cells), vec![1, 3, 2, 0]);
}

#[test]
fn nothing_to_run_has_an_empty_order() {
    assert!(order(&[]).is_empty());
}

// --- the command oracle

#[test]
fn protected_command_oracle_runs_the_check() {
    let pass = CommandOracle { command: "true".into(), worker_writable: false };
    let fail = CommandOracle { command: "false".into(), worker_writable: false };
    assert_eq!(pass.to_run(), Some("true"));
    assert!(pass.gate_with(Some(true)));
    assert!(!fail.gate_with(Some(false)));
    assert!(!pass.gate_with(None));
    assert_eq!(pass.integrity(), Ok(vec![OracleEvent::GateConfirmed]));
    assert_eq!(pass.refusal(), None);
}

#[test]
fn worker_writable_oracle_fails_closed_even_if_command_passes() {
    let compromised = CommandOracle { command: "true".into(), worker_writable: true };
    assert_eq!(compromised.to_run(), None);
    assert!(!compromised.gate_with(Some(true)));
    assert_eq!(compromised.integrity(), Err("inv-oracle-writable"));
    let report = compromised.report(CheckRun::Finished {
        success: true,
        exit: Some(0),
        stdout: vec![],
        stderr: vec![],
    });
    assert!(!report.passed);
    assert_eq!(
        kiln::json::render(&report.evidence.unwrap()),
        "{\"command\":\"true\",\"error\":\"oracle-writable\"}"
    );
    assert!(!compromised.refusal().unwrap().passed);
}

#[test]
fn a_report_carries_the_command_the_exit_code_and_the_tails() {
    let oracle = CommandOracle { command: "exit 1".into(), worker_writable: false };
    let long = "x".repeat(2500);
    let report = oracle.report(CheckRun::Finished {
        success: false,
        exit: Some(1),
        stdout: long.as_bytes().to_vec(),
        stderr: vec![b'a', 0xff, b'b'],
    });
    assert!(!report.passed);
    let e = report.evidence.unwrap();
    assert_eq!(e.get("command").unwrap().as_str(), Some("exit 1"));
    assert_eq!(e.get("exit"), Some(&Json::Number(serde_json::Number::from(1))));
    assert_eq!(e.get("stdout_tail").unwrap().as_str().unwrap(), "x".repeat(2000));
    assert_eq!(e.get("stderr_tail").unwrap().as_str(), Some("a\u{fffd}b"));

    let killed = oracle.report(CheckRun::Finished {
        success: false,
        exit: None,
        stdout: vec![],
        stderr: vec![],
    });
    assert!(killed.evidence.unwrap().get("exit").unwrap().is_null());

    let unrun = oracle.report(CheckRun::Failed { message: "no shell".into() });
    assert!(!unrun.passed);
    assert_eq!(unrun.evidence.unwrap().get("error").unwrap().as_str(), Some("no shell"));

    let passed = oracle.report(CheckRun::Finished {
        success: true,
        exit: Some(0),
        stdout: b"ok".to_vec(),
        stderr: vec![],
    });
    assert!(passed.passed);
}

// --- serving

#[test]
fn scheduler_groups_by_binding() {
    let cells = vec![
        Cell { cell_id: "a".into(), binding: binding("q4"), ..Default::default() },
        Cell { cell_id: "b".into(), binding: binding("q4"), ..Default::default() },
        Cell { cell_id: "c".into(), binding: binding("q8"), ..Default::default() },
    ];
    let batches = schedule_batches(&cells);
    assert_eq!(batches.len(), 2);
    assert_eq!(batches[0].0.quantization, "q4");
    assert_eq!(batches[0].1, vec!["a".to_string(), "b".to_string()]);
    assert_eq!(batches[1].0.quantization, "q8");
    assert_eq!(batches[1].1, vec!["c".to_string()]);
    assert!(schedule_batches(&[]).is_empty());
}

#[test]
fn batches_come_in_the_order_of_their_keys() {
    let cells = vec![
        Cell { cell_id: "1".into(), binding: binding("z"), ..Default::default() },
        Cell { cell_id: "2".into(), binding: binding("a"), ..Default::default() },
        Cell { cell_id: "3".into(), binding: binding("z"), ..Default::default() },
    ];
    let batches = schedule_batches(&cells);
    let ids: Vec<Vec<String>> = batches.into_iter().map(|b| b.1).collect();
    assert_eq!(ids, vec![vec!["2".to_string()], vec!["1".to_string(), "3".to_string()]]);
}

#[test]
fn stub_worker_is_deterministic() {
    let b = ModelBinding {
        model: "m".into(),
        quantization: "q".into(),
        params: StrMap::new(),
        ..Default::default()
    };
    assert_eq!(
        StubWorker.invoke(&b, "do x").unwrap(),
        StubWorker.invoke(&b, "do x").unwrap()
    );
    assert_eq!(StubWorker.invoke(&b, "do x\nand y").unwrap(), "// produced by m for: do x");
    assert_eq!(StubWorker.invoke(&b, "").unwrap(), "// produced by m for: ");
}

#[test]
fn a_command_worker_answers_with_its_output_or_its_status() {
    let w = CommandWorker { command: "llama".into() };
    assert_eq!(w.reply(true, b"code", "exit status: 0"), Ok("code".to_string()));
    assert_eq!(
        w.reply(false, b"", "exit status: 3"),
        Err("worker exited exit status: 3".to_string())
    );
}
