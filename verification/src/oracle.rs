//! The oracle that judges by running a command: it may run only where the
//! worker cannot write it, and it fails closed.
use vstd::prelude::*;

use crate::decider::{one, outcome};
use crate::execution::GateReport;
use crate::json::{integer_number, last_member, member_views, Json, JsonView};
use crate::text::{last_chars, lossy_text, tail};

verus! {

#[derive(Clone, Debug, PartialEq, Eq, Structural)]
pub enum OracleEvent {
    GateConfirmed,
}

#[derive(Clone, Debug, PartialEq, Eq, Structural)]
pub enum OracleCommand {
    /// `oracle_protected`: the worker of a cell cannot write the oracle.
    RunGate { oracle_protected: bool },
}

#[derive(Clone, Debug, PartialEq, Eq, Structural)]
pub struct OracleRunState {
    pub confirmed: bool,
}

impl Default for OracleRunState {
    fn default() -> (r: Self)
        ensures
            !r.confirmed,
    {
        OracleRunState { confirmed: false }
    }
}

impl OracleRunState {
    pub open spec fn decided(self, c: OracleCommand) -> Result<Seq<OracleEvent>, Seq<char>> {
        match c {
            OracleCommand::RunGate { oracle_protected } => if oracle_protected {
                Ok(seq![OracleEvent::GateConfirmed])
            } else {
                Err("inv-oracle-writable"@)
            },
        }
    }

    pub fn evolve(&mut self, e: &OracleEvent)
        ensures
            final(self).confirmed,
    {
        match e {
            OracleEvent::GateConfirmed => {
                self.confirmed = true;
            },
        }
    }

    /// A gate may run only against an oracle that the worker cannot write:
    /// otherwise there is no independent verifier.
    pub fn decide(&self, c: &OracleCommand) -> (r: Result<Vec<OracleEvent>, &'static str>)
        ensures
            outcome(r) == self.decided(*c),
    {
        match c {
            OracleCommand::RunGate { oracle_protected } => {
                if *oracle_protected {
                    Ok(one(OracleEvent::GateConfirmed))
                } else {
                    Err("inv-oracle-writable")
                }
            },
        }
    }
}

/// What running the check command came to.
#[derive(Clone, Debug, PartialEq)]
pub enum CheckRun {
    /// It ran to its end. `exit` is its exit code, if it had one.
    Finished { success: bool, exit: Option<i32>, stdout: Vec<u8>, stderr: Vec<u8> },
    /// It could not be run.
    Failed { message: String },
}

/// How many characters of each output stream ride on a verdict.
pub const TAIL: usize = 2000;

/// The record of a check that did not judge.
pub open spec fn failure_record(error: Seq<char>, command: Seq<char>) -> JsonView {
    JsonView::Object(
        seq![("command"@, JsonView::Text(command)), ("error"@, JsonView::Text(error))],
    )
}

/// The record of a check that ran: its command, its exit code and the ends of
/// its two output streams.
pub open spec fn run_record(
    command: Seq<char>,
    exit: Option<i32>,
    stdout: Seq<char>,
    stderr: Seq<char>,
) -> JsonView {
    JsonView::Object(
        seq![
            ("command"@, JsonView::Text(command)),
            (
                "exit"@,
                match exit {
                    Some(code) => JsonView::Number(integer_number(code as i64)),
                    None => JsonView::Null,
                },
            ),
            ("stderr_tail"@, JsonView::Text(last_chars(stderr, TAIL as nat))),
            ("stdout_tail"@, JsonView::Text(last_chars(stdout, TAIL as nat))),
        ],
    )
}

/// An oracle that judges by running an external command, which lives outside the
/// worker's workspace.
#[derive(Clone, Debug, PartialEq, Eq)]
pub struct CommandOracle {
    pub command: String,
    pub worker_writable: bool,
}

fn failure(error: &str, command: &str) -> (r: Json)
    ensures
        r@ == failure_record(error@, command@),
{
    let mut members: Vec<(String, Json)> = Vec::new();
    members.push(("command".to_owned(), Json::text(command)));
    members.push(("error".to_owned(), Json::text(error)));
    assert(member_views(members@) =~= failure_record(error@, command@)->Object_0);
    Json::object(members)
}

impl CommandOracle {
    /// Whether this oracle may be trusted, as a decision.
    pub fn integrity(&self) -> (r: Result<Vec<OracleEvent>, &'static str>)
        ensures
            outcome(r) == (OracleRunState { confirmed: false }).decided(
                OracleCommand::RunGate { oracle_protected: !self.worker_writable },
            ),
            r is Err <==> self.worker_writable,
    {
        OracleRunState::default().decide(
            &OracleCommand::RunGate { oracle_protected: !self.worker_writable },
        )
    }

    /// The command to run for a judgement: none where the worker can write the oracle.
    pub fn to_run(&self) -> (r: Option<&str>)
        ensures
            match r {
                Some(command) => !self.worker_writable && command@ == self.command@,
                None => self.worker_writable,
            },
    {
        match self.integrity() {
            Ok(_) => Some(self.command.as_str()),
            Err(_) => None,
        }
    }

    /// The judgement on a cell, given whether the command succeeded, or nothing
    /// where it did not run. An oracle that the worker can write passes nothing.
    pub fn gate_with(&self, succeeded: Option<bool>) -> (r: bool)
        ensures
            r == (!self.worker_writable && succeeded == Some(true)),
    {
        if self.integrity().is_err() {
            return false;
        }
        match succeeded {
            Some(success) => success,
            None => false,
        }
    }

    /// The report where the oracle may not run at all.
    pub fn refusal(&self) -> (r: Option<GateReport>)
        ensures
            match r {
                Some(report) => self.worker_writable && !report.passed && (report.evidence matches Some(
                    e,
                ) && e@ == failure_record("oracle-writable"@, self.command@)),
                None => !self.worker_writable,
            },
    {
        match self.integrity() {
            Ok(_) => None,
            Err(_) => Some(
                GateReport {
                    passed: false,
                    evidence: Some(failure("oracle-writable", self.command.as_str())),
                },
            ),
        }
    }

    /// The report on a workspace, given what running the command there came to.
    /// An oracle that the worker can write passes nothing, whatever was run.
    pub fn report(&self, ran: CheckRun) -> (r: GateReport)
        ensures
            r.evidence is Some,
            if self.worker_writable {
                !r.passed && r.evidence->0@ == failure_record("oracle-writable"@, self.command@)
            } else {
                match ran {
                    CheckRun::Finished { success, exit, stdout, stderr } => r.passed == success
                        && r.evidence->0@ == run_record(
                        self.command@,
                        exit,
                        lossy_text(stdout@),
                        lossy_text(stderr@),
                    ),
                    CheckRun::Failed { message } => !r.passed && r.evidence->0@ == failure_record(
                        message@,
                        self.command@,
                    ),
                }
            },
    {
        if let Some(refused) = self.refusal() {
            return refused;
        }
        match ran {
            CheckRun::Finished { success, exit, stdout, stderr } => {
                let mut members: Vec<(String, Json)> = Vec::new();
                members.push(("command".to_owned(), Json::text(self.command.as_str())));
                let code: Json = match exit {
                    Some(code) => Json::integer(code as i64),
                    None => Json::Null,
                };
                members.push(("exit".to_owned(), code));
                members.push(
                    ("stderr_tail".to_owned(), Json::text(tail(stderr.as_slice(), TAIL).as_str())),
                );
                members.push(
                    ("stdout_tail".to_owned(), Json::text(tail(stdout.as_slice(), TAIL).as_str())),
                );
                assert(member_views(members@) =~= run_record(
                    self.command@,
                    exit,
                    lossy_text(stdout@),
                    lossy_text(stderr@),
                )->Object_0);
                GateReport { passed: success, evidence: Some(Json::object(members)) }
            },
            CheckRun::Failed { message } => GateReport {
                passed: false,
                evidence: Some(failure(message.as_str(), self.command.as_str())),
            },
        }
    }
}

// ---------------------------------------------------------------------- laws

/// A gate is run exactly where the worker cannot write the oracle.
pub proof fn law_only_a_protected_oracle_gates(s: OracleRunState, protected: bool)
    ensures
        match s.decided(OracleCommand::RunGate { oracle_protected: protected }) {
            Ok(events) => protected && events == seq![OracleEvent::GateConfirmed],
            Err(rule) => !protected && rule == "inv-oracle-writable"@,
        },
{
}

/// The oracle passes a workspace exactly if its command ran and succeeded and the
/// worker could not write it, and it always gives evidence.
pub proof fn law_a_report_passes_only_what_the_check_passed(
    oracle: CommandOracle,
    ran: CheckRun,
    report: GateReport,
)
    requires
        call_ensures(CommandOracle::report, (&oracle, ran), report),
    ensures
        report.passed <==> !oracle.worker_writable && (ran matches CheckRun::Finished {
            success,
            exit,
            stdout,
            stderr,
        } && success),
        report.evidence is Some,
        report.evidence->0@.member("command"@) == Some(JsonView::Text(oracle.command@)),
{
    law_a_record_tells_what_ran(oracle.command@, Seq::empty(), None, Seq::empty(), Seq::empty());
    law_a_record_tells_what_ran(
        oracle.command@,
        "oracle-writable"@,
        None,
        Seq::empty(),
        Seq::empty(),
    );
    match ran {
        CheckRun::Finished { success, exit, stdout, stderr } => {
            law_a_record_tells_what_ran(
                oracle.command@,
                Seq::empty(),
                exit,
                lossy_text(stdout@),
                lossy_text(stderr@),
            );
        },
        CheckRun::Failed { message } => {
            law_a_record_tells_what_ran(
                oracle.command@,
                message@,
                None,
                Seq::empty(),
                Seq::empty(),
            );
        },
    }
}

/// The oracle gates a cell as its command did, unless the worker could write it.
pub proof fn law_a_gate_is_as_the_check_was(
    oracle: CommandOracle,
    succeeded: Option<bool>,
    open: bool,
)
    requires
        call_ensures(CommandOracle::gate_with, (&oracle, succeeded), open),
    ensures
        oracle.worker_writable ==> !open,
        succeeded is None ==> !open,
        !oracle.worker_writable && succeeded is Some ==> open == succeeded->0,
{
}

/// A record tells the command, how it ended, and the last of what it said on either
/// stream; one of a check that could not be run tells the command and why.
pub proof fn law_a_record_tells_what_ran(
    command: Seq<char>,
    error: Seq<char>,
    exit: Option<i32>,
    stdout: Seq<char>,
    stderr: Seq<char>,
)
    ensures
        run_record(command, exit, stdout, stderr).member("command"@) == Some(
            JsonView::Text(command),
        ),
        exit matches Some(code) ==> run_record(command, exit, stdout, stderr).member("exit"@)
            == Some(JsonView::Number(integer_number(code as i64))),
        exit is None ==> run_record(command, exit, stdout, stderr).member("exit"@) == Some(
            JsonView::Null,
        ),
        run_record(command, exit, stdout, stderr).member("stdout_tail"@) matches Some(
            JsonView::Text(t),
        ) && t.len() <= 2000 && (stdout.len() <= 2000 ==> t == stdout) && (stdout.len() >= 2000
            ==> t == stdout.skip(stdout.len() - 2000)),
        run_record(command, exit, stdout, stderr).member("stderr_tail"@) matches Some(
            JsonView::Text(t),
        ) && t.len() <= 2000 && (stderr.len() <= 2000 ==> t == stderr) && (stderr.len() >= 2000
            ==> t == stderr.skip(stderr.len() - 2000)),
        failure_record(error, command).member("command"@) == Some(JsonView::Text(command)),
        failure_record(error, command).member("error"@) == Some(JsonView::Text(error)),
{
    reveal_strlit("command");
    reveal_strlit("exit");
    reveal_strlit("stdout_tail");
    reveal_strlit("stderr_tail");
    reveal_strlit("error");
    assert("command"@.len() == 7 && "exit"@.len() == 4 && "error"@.len() == 5);
    assert("stdout_tail"@.len() == 11 && "stderr_tail"@.len() == 11);
    assert("stdout_tail"@[3] == 'o' && "stderr_tail"@[3] == 'e');
    let r = run_record(command, exit, stdout, stderr);
    let m = r->Object_0;
    assert(m.len() == 4);
    reveal_with_fuel(last_member, 5);
    if stdout.len() == 2000 {
        assert(stdout.skip(0) =~= stdout);
    }
    if stderr.len() == 2000 {
        assert(stderr.skip(0) =~= stderr);
    }
}

} // verus!
