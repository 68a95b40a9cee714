//! What the command line says: a line for each drained unit, the lines of the
//! verdict stream and of the status, and the answer to a unit that is handed in.
use vstd::prelude::*;

use crate::executor::{mode_name, mode_text, DrainOutcome, Engine};
use crate::host::HostPhase;
use crate::interface::{
    ArtifactBody, CellResult, CellVerdict, Consequence, DeliveryResult, Verdict, VerdictEvent,
    WorkUnit,
};
use crate::text::{
    decimal, decimal_text, flat, int_text, integer_text, join, joined, law_joining, law_saying,
    literals, opt_text, pad, padded, preview, preview_of, same, say, texts,
};

verus! {

// --------------------------------------------------------------------- names

pub open spec fn verdict_name(v: Verdict) -> Seq<char> {
    match v {
        Verdict::Accepted => "Accepted"@,
        Verdict::Rejected => "Rejected"@,
        Verdict::Escalate => "Escalate"@,
        Verdict::NotAdmitted => "NotAdmitted"@,
    }
}

fn verdict_text(v: Verdict) -> (r: &'static str)
    ensures
        r@ == verdict_name(v),
{
    match v {
        Verdict::Accepted => "Accepted",
        Verdict::Rejected => "Rejected",
        Verdict::Escalate => "Escalate",
        Verdict::NotAdmitted => "NotAdmitted",
    }
}

pub open spec fn consequence_name(c: Consequence) -> Seq<char> {
    match c {
        Consequence::Advance => "Advance"@,
        Consequence::Halt => "Halt"@,
        Consequence::Retry => "Retry"@,
        Consequence::Escalate => "Escalate"@,
    }
}

fn consequence_text(c: Consequence) -> (r: &'static str)
    ensures
        r@ == consequence_name(c),
{
    match c {
        Consequence::Advance => "Advance",
        Consequence::Halt => "Halt",
        Consequence::Retry => "Retry",
        Consequence::Escalate => "Escalate",
    }
}

pub open spec fn cell_verdict_name(v: CellVerdict) -> Seq<char> {
    match v {
        CellVerdict::Accepted => "Accepted"@,
        CellVerdict::Rejected => "Rejected"@,
        CellVerdict::Skipped => "Skipped"@,
    }
}

fn cell_verdict_text(v: CellVerdict) -> (r: &'static str)
    ensures
        r@ == cell_verdict_name(v),
{
    match v {
        CellVerdict::Accepted => "Accepted",
        CellVerdict::Rejected => "Rejected",
        CellVerdict::Skipped => "Skipped",
    }
}

pub open spec fn phase_name(p: HostPhase) -> Seq<char> {
    match p {
        HostPhase::Absent => "Absent"@,
        HostPhase::Launched => "Launched"@,
        HostPhase::Ready => "Ready"@,
        HostPhase::Retired => "Retired"@,
    }
}

fn phase_text(p: HostPhase) -> (r: &'static str)
    ensures
        r@ == phase_name(p),
{
    match p {
        HostPhase::Absent => "Absent",
        HostPhase::Launched => "Launched",
        HostPhase::Ready => "Ready",
        HostPhase::Retired => "Retired",
    }
}

fn truth_text(b: bool) -> (r: &'static str)
    ensures
        r@ == truth_name(b),
{
    if b {
        "true"
    } else {
        "false"
    }
}

pub open spec fn truth_name(b: bool) -> Seq<char> {
    if b {
        "true"@
    } else {
        "false"@
    }
}

// ------------------------------------------------------------- drained units

/// The line for a unit that was drained against the plain oracle; none at the
/// end of the drain.
pub open spec fn run_line(outcome: DrainOutcome) -> Option<Seq<char>> {
    match outcome {
        DrainOutcome::Accepted { unit_ref } => Some(flat(seq!["  accepted   "@, unit_ref@])),
        DrainOutcome::Escalated { unit_ref, to_ladder } => Some(
            flat(
                seq![
                    "  escalated  "@,
                    unit_ref@,
                    " -> ladder "@,
                    decimal(to_ladder as nat),
                    " (whole unit, one binding up)"@,
                ],
            ),
        ),
        DrainOutcome::Halted { unit_ref } => Some(
            flat(seq!["  halted     "@, unit_ref@, " (ladder exhausted)"@]),
        ),
        DrainOutcome::NotAdmitted { unit_ref, missing } => Some(
            flat(
                seq![
                    "  not-admitted "@,
                    unit_ref@,
                    " (never ran; missing: "@,
                    joined(texts(missing@), ", "@),
                    ")"@,
                ],
            ),
        ),
        DrainOutcome::Idle => None,
        DrainOutcome::NotQueueMode => None,
    }
}

/// The line for a unit that was drained against the plain oracle.
pub fn report_run(outcome: &DrainOutcome) -> (r: Option<String>)
    ensures
        opt_text(r) == run_line(*outcome),
{
    match outcome {
        DrainOutcome::Accepted { unit_ref } => {
            let parts: Vec<&str> = vec!["  accepted   ", unit_ref.as_str()];
            assert(literals(parts@) =~= seq!["  accepted   "@, unit_ref@]);
            Some(say(parts))
        },
        DrainOutcome::Escalated { unit_ref, to_ladder } => {
            let rung: String = decimal_text(*to_ladder as u64);
            let parts: Vec<&str> = vec![
                "  escalated  ",
                unit_ref.as_str(),
                " -> ladder ",
                rung.as_str(),
                " (whole unit, one binding up)",
            ];
            assert(literals(parts@) =~= seq![
                "  escalated  "@,
                unit_ref@,
                " -> ladder "@,
                rung@,
                " (whole unit, one binding up)"@,
            ]);
            Some(say(parts))
        },
        DrainOutcome::Halted { unit_ref } => {
            let parts: Vec<&str> = vec!["  halted     ", unit_ref.as_str(), " (ladder exhausted)"];
            assert(literals(parts@) =~= seq!["  halted     "@, unit_ref@, " (ladder exhausted)"@]);
            Some(say(parts))
        },
        DrainOutcome::NotAdmitted { unit_ref, missing } => {
            let list: String = join(missing, ", ");
            let parts: Vec<&str> = vec![
                "  not-admitted ",
                unit_ref.as_str(),
                " (never ran; missing: ",
                list.as_str(),
                ")",
            ];
            assert(literals(parts@) =~= seq![
                "  not-admitted "@,
                unit_ref@,
                " (never ran; missing: "@,
                list@,
                ")"@,
            ]);
            Some(say(parts))
        },
        DrainOutcome::Idle => None,
        DrainOutcome::NotQueueMode => None,
    }
}

/// Where the last run landed, if the last event is of this unit.
pub open spec fn last_landing(stream: Seq<VerdictEvent>, unit_ref: Seq<char>) -> Option<
    DeliveryResult,
> {
    if stream.len() > 0 && stream.last().unit_ref@ == unit_ref {
        stream.last().delivery_result
    } else {
        None
    }
}

/// The line for an accepted unit: the branch and the page it landed at, or the
/// patch it left, if it left one.
pub open spec fn accepted_line(
    unit_ref: Seq<char>,
    landed: Option<DeliveryResult>,
    patch: Option<Seq<char>>,
) -> Seq<char> {
    match landed {
        Some(d) => match d.pr_url {
            Some(url) => flat(
                seq![
                    "  accepted   "@,
                    unit_ref,
                    "  (verified → branch "@,
                    d.branch@,
                    " @ "@,
                    d.commit@,
                    ", PR: "@,
                    url@,
                    ")"@,
                ],
            ),
            None => flat(
                seq![
                    "  accepted   "@,
                    unit_ref,
                    "  (verified → branch "@,
                    d.branch@,
                    " @ "@,
                    d.commit@,
                    ")"@,
                ],
            ),
        },
        None => match patch {
            Some(path) => flat(
                seq!["  accepted   "@, unit_ref, "  (verified → patch: "@, path, ")"@],
            ),
            None => flat(
                seq!["  accepted   "@, unit_ref, "  (verified; no diff to deliver)"@],
            ),
        },
    }
}

fn report_accepted(unit_ref: &str, landed: &Option<DeliveryResult>, patch: Option<&str>) -> (r:
    String)
    ensures
        r@ == accepted_line(
            unit_ref@,
            *landed,
            match patch {
                Some(p) => Some(p@),
                None => None,
            },
        ),
{
    match landed {
        Some(d) => match &d.pr_url {
            Some(url) => {
                let parts: Vec<&str> = vec![
                    "  accepted   ",
                    unit_ref,
                    "  (verified → branch ",
                    d.branch.as_str(),
                    " @ ",
                    d.commit.as_str(),
                    ", PR: ",
                    url.as_str(),
                    ")",
                ];
                assert(literals(parts@) =~= seq![
                    "  accepted   "@,
                    unit_ref@,
                    "  (verified → branch "@,
                    d.branch@,
                    " @ "@,
                    d.commit@,
                    ", PR: "@,
                    url@,
                    ")"@,
                ]);
                say(parts)
            },
            None => {
                let parts: Vec<&str> = vec![
                    "  accepted   ",
                    unit_ref,
                    "  (verified → branch ",
                    d.branch.as_str(),
                    " @ ",
                    d.commit.as_str(),
                    ")",
                ];
                assert(literals(parts@) =~= seq![
                    "  accepted   "@,
                    unit_ref@,
                    "  (verified → branch "@,
                    d.branch@,
                    " @ "@,
                    d.commit@,
                    ")"@,
                ]);
                say(parts)
            },
        },
        None => match patch {
            Some(path) => {
                let parts: Vec<&str> = vec![
                    "  accepted   ",
                    unit_ref,
                    "  (verified → patch: ",
                    path,
                    ")",
                ];
                assert(literals(parts@) =~= seq![
                    "  accepted   "@,
                    unit_ref@,
                    "  (verified → patch: "@,
                    path@,
                    ")"@,
                ]);
                say(parts)
            },
            None => {
                let parts: Vec<&str> = vec![
                    "  accepted   ",
                    unit_ref,
                    "  (verified; no diff to deliver)",
                ];
                assert(literals(parts@) =~= seq![
                    "  accepted   "@,
                    unit_ref@,
                    "  (verified; no diff to deliver)"@,
                ]);
                say(parts)
            },
        },
    }
}

/// The line for a unit that was drained in isolation; none at the end of the
/// drain. `patch` is the path of its patch, if one was written.
pub open spec fn serve_line(
    outcome: DrainOutcome,
    stream: Seq<VerdictEvent>,
    patch: Option<Seq<char>>,
) -> Option<Seq<char>> {
    match outcome {
        DrainOutcome::Accepted { unit_ref } => Some(
            accepted_line(unit_ref@, last_landing(stream, unit_ref@), patch),
        ),
        DrainOutcome::Escalated { unit_ref, to_ladder } => Some(
            flat(
                seq![
                    "  escalated  "@,
                    unit_ref@,
                    " -> ladder "@,
                    decimal(to_ladder as nat),
                    " (verification failed; retrying one tier up)"@,
                ],
            ),
        ),
        DrainOutcome::Halted { unit_ref } => Some(
            flat(
                seq![
                    "  halted     "@,
                    unit_ref@,
                    " (ladder exhausted — verification never passed)"@,
                ],
            ),
        ),
        DrainOutcome::NotAdmitted { unit_ref, missing } => Some(
            flat(
                seq![
                    "  not-admitted "@,
                    unit_ref@,
                    " (never ran; box lacks: "@,
                    joined(texts(missing@), ", "@),
                    ")"@,
                ],
            ),
        ),
        DrainOutcome::Idle => None,
        DrainOutcome::NotQueueMode => None,
    }
}

/// The line for a unit that was drained in isolation.
pub fn report_serve(outcome: &DrainOutcome, stream: &Vec<VerdictEvent>, patch: Option<&str>) -> (r:
    Option<String>)
    ensures
        opt_text(r) == serve_line(
            *outcome,
            stream@,
            match patch {
                Some(p) => Some(p@),
                None => None,
            },
        ),
{
    match outcome {
        DrainOutcome::Accepted { unit_ref } => {
            let n: usize = stream.len();
            if n > 0 && same(stream[n - 1].unit_ref.as_str(), unit_ref.as_str()) {
                Some(report_accepted(unit_ref.as_str(), &stream[n - 1].delivery_result, patch))
            } else {
                Some(report_accepted(unit_ref.as_str(), &None, patch))
            }
        },
        DrainOutcome::Escalated { unit_ref, to_ladder } => {
            let rung: String = decimal_text(*to_ladder as u64);
            let parts: Vec<&str> = vec![
                "  escalated  ",
                unit_ref.as_str(),
                " -> ladder ",
                rung.as_str(),
                " (verification failed; retrying one tier up)",
            ];
            assert(literals(parts@) =~= seq![
                "  escalated  "@,
                unit_ref@,
                " -> ladder "@,
                rung@,
                " (verification failed; retrying one tier up)"@,
            ]);
            Some(say(parts))
        },
        DrainOutcome::Halted { unit_ref } => {
            let parts: Vec<&str> = vec![
                "  halted     ",
                unit_ref.as_str(),
                " (ladder exhausted — verification never passed)",
            ];
            assert(literals(parts@) =~= seq![
                "  halted     "@,
                unit_ref@,
                " (ladder exhausted — verification never passed)"@,
            ]);
            Some(say(parts))
        },
        DrainOutcome::NotAdmitted { unit_ref, missing } => {
            let list: String = join(missing, ", ");
            let parts: Vec<&str> = vec![
                "  not-admitted ",
                unit_ref.as_str(),
                " (never ran; box lacks: ",
                list.as_str(),
                ")",
            ];
            assert(literals(parts@) =~= seq![
                "  not-admitted "@,
                unit_ref@,
                " (never ran; box lacks: "@,
                list@,
                ")"@,
            ]);
            Some(say(parts))
        },
        DrainOutcome::Idle => None,
        DrainOutcome::NotQueueMode => None,
    }
}

/// The most attempts that one drain makes.
pub const MAX_ATTEMPTS: u64 = 10000;

/// Counts an attempt; whether the drain goes on after it.
pub fn count_attempt(drained: u64) -> (r: (u64, bool))
    requires
        drained < u64::MAX,
    ensures
        r.0 == drained + 1,
        r.1 == (drained + 1 <= MAX_ATTEMPTS),
{
    let now: u64 = drained + 1;
    (now, now <= MAX_ATTEMPTS)
}

/// The last line of a drain against the plain oracle.
pub fn run_summary(drained: u64, verdicts: u64) -> (r: String)
    ensures
        r@ == flat(
            seq![
                "drained "@,
                decimal(drained as nat),
                " unit-attempt(s); "@,
                decimal(verdicts as nat),
                " verdict(s) on the stream"@,
            ],
        ),
{
    let d: String = decimal_text(drained);
    let v: String = decimal_text(verdicts);
    let parts: Vec<&str> = vec![
        "drained ",
        d.as_str(),
        " unit-attempt(s); ",
        v.as_str(),
        " verdict(s) on the stream",
    ];
    assert(literals(parts@) =~= seq![
        "drained "@,
        d@,
        " unit-attempt(s); "@,
        v@,
        " verdict(s) on the stream"@,
    ]);
    say(parts)
}

/// The last line of an isolated drain.
pub fn serve_summary(drained: u64, logged: u64) -> (r: String)
    ensures
        r@ == flat(
            seq![
                "isolated-drained "@,
                decimal(drained as nat),
                " unit-attempt(s); durable log holds "@,
                decimal(logged as nat),
                " verdict(s) at .spark/verdicts.jsonl"@,
            ],
        ),
{
    let d: String = decimal_text(drained);
    let l: String = decimal_text(logged);
    let parts: Vec<&str> = vec![
        "isolated-drained ",
        d.as_str(),
        " unit-attempt(s); durable log holds ",
        l.as_str(),
        " verdict(s) at .spark/verdicts.jsonl",
    ];
    assert(literals(parts@) =~= seq![
        "isolated-drained "@,
        d@,
        " unit-attempt(s); durable log holds "@,
        l@,
        " verdict(s) at .spark/verdicts.jsonl"@,
    ]);
    say(parts)
}

// ---------------------------------------------------------- a unit handed in

/// What is said of a unit that was handed in, and whether it was taken.
#[derive(Debug, PartialEq)]
pub struct AdmissionReport {
    pub taken: bool,
    /// For the standard output.
    pub said: Option<String>,
    /// For the standard error.
    pub warned: Option<String>,
}

/// The missing capabilities, one to a line.
pub open spec fn missing_list(missing: Seq<Seq<char>>) -> Seq<char> {
    joined(missing.map_values(|m: Seq<char>| "    - "@ + m), "\n"@)
}

/// A unit that the box covers is taken without more; one that it does not cover
/// is taken with a warning; one that breaks a rule is refused.
pub open spec fn admission_report(
    r: AdmissionReport,
    unit: WorkUnit,
    missing: Seq<Seq<char>>,
) -> bool {
    let unit_ref = unit.unit_ref@;
    match unit.fault() {
        None => r.taken && if missing.len() == 0 {
            &&& opt_text(r.said) == Some(
                flat(
                    seq![
                        "admitted '"@,
                        unit_ref,
                        "' -> queued (binding-homogeneous; manifest covers its requirements)"@,
                    ],
                ),
            )
            &&& r.warned is None
        } else {
            &&& opt_text(r.said) == Some(
                flat(seq!["admitted '"@, unit_ref, "' -> queued (binding-homogeneous)"@]),
            )
            &&& opt_text(r.warned) == Some(
                flat(
                    seq![
                        "warning: this box cannot cover '"@,
                        unit_ref,
                        "' — it will be answered not-admitted at run.\n  missing capabilities:\n"@,
                        missing_list(missing),
                    ],
                ),
            )
        },
        Some(rule) => {
            &&& !r.taken
            &&& r.said is None
            &&& opt_text(r.warned) == Some(
                flat(
                    seq![
                        "rejected '"@,
                        unit_ref,
                        "': "@,
                        rule,
                        " (a decomposition defect, never dispatched)"@,
                    ],
                ),
            )
        },
    }
}

fn list_missing(missing: &Vec<String>) -> (r: String)
    ensures
        r@ == missing_list(texts(missing@)),
{
    let ghost wanted = texts(missing@).map_values(|m: Seq<char>| "    - "@ + m);
    let mut lines: Vec<String> = Vec::new();
    let mut i: usize = 0;
    while i < missing.len()
        invariant
            i <= missing@.len(),
            wanted == texts(missing@).map_values(|m: Seq<char>| "    - "@ + m),
            texts(lines@) == wanted.take(i as int),
        decreases missing@.len() - i,
    {
        let mut line: String = "    - ".to_owned();
        line.append(missing[i].as_str());
        let ghost before = lines@;
        lines.push(line);
        i += 1;
        assert(texts(lines@) =~= texts(before).push(line@));
        assert(texts(lines@) =~= wanted.take(i as int));
    }
    assert(wanted.take(i as int) =~= wanted);
    join(&lines, "\n")
}

impl Engine {
    /// Hands a unit in: what it needs and the box lacks is worked out first, then
    /// the unit goes through the admission guard, and the report says how it went.
    pub fn hand_in(&mut self, unit: WorkUnit) -> (r: AdmissionReport)
        requires
            unit.fault() is None ==> old(self).priority_view.queued < i64::MAX
                && old(self).heterogeneity_view.admitted < i64::MAX,
            unit.fault() is Some ==> old(self).heterogeneity_view.rejected < i64::MAX,
        ensures
            exists|missing: Seq<Seq<char>>|
                {
                    &&& crate::sorted::increasing(missing)
                    &&& missing.to_set() == old(self).manifest.distance(unit)
                    &&& #[trigger] admission_report(r, unit, missing)
                },
            final(self).handled(old(self), unit),
            old(self).consistent() ==> final(self).consistent(),
    {
        let unit_ref: String = unit.unit_ref.clone();
        let missing: Vec<String> = self.manifest.missing_for(&unit);
        let ghost needed = texts(missing@);
        let r: AdmissionReport = match self.admit_unit(unit) {
            Ok(_) => {
                if missing.len() == 0 {
                    let parts: Vec<&str> = vec![
                        "admitted '",
                        unit_ref.as_str(),
                        "' -> queued (binding-homogeneous; manifest covers its requirements)",
                    ];
                    assert(literals(parts@) =~= seq![
                        "admitted '"@,
                        unit_ref@,
                        "' -> queued (binding-homogeneous; manifest covers its requirements)"@,
                    ]);
                    AdmissionReport { taken: true, said: Some(say(parts)), warned: None }
                } else {
                    let parts: Vec<&str> = vec![
                        "admitted '",
                        unit_ref.as_str(),
                        "' -> queued (binding-homogeneous)",
                    ];
                    assert(literals(parts@) =~= seq![
                        "admitted '"@,
                        unit_ref@,
                        "' -> queued (binding-homogeneous)"@,
                    ]);
                    let list: String = list_missing(&missing);
                    let warning: Vec<&str> = vec![
                        "warning: this box cannot cover '",
                        unit_ref.as_str(),
                        "' — it will be answered not-admitted at run.\n  missing capabilities:\n",
                        list.as_str(),
                    ];
                    assert(literals(warning@) =~= seq![
                        "warning: this box cannot cover '"@,
                        unit_ref@,
                        "' — it will be answered not-admitted at run.\n  missing capabilities:\n"@,
                        list@,
                    ]);
                    AdmissionReport {
                        taken: true,
                        said: Some(say(parts)),
                        warned: Some(say(warning)),
                    }
                }
            },
            Err(rule) => {
                let parts: Vec<&str> = vec![
                    "rejected '",
                    unit_ref.as_str(),
                    "': ",
                    rule,
                    " (a decomposition defect, never dispatched)",
                ];
                assert(literals(parts@) =~= seq![
                    "rejected '"@,
                    unit_ref@,
                    "': "@,
                    rule@,
                    " (a decomposition defect, never dispatched)"@,
                ]);
                AdmissionReport { taken: false, said: None, warned: Some(say(parts)) }
            },
        };
        assert(admission_report(r, unit, needed));
        r
    }
}

// ---------------------------------------------------------------- the stream

/// How many characters of an artifact are shown.
pub const PREVIEW: usize = 60;

/// The tier that an event shows.
pub open spec fn tier_shown(v: VerdictEvent) -> Seq<char> {
    match v.tier_ran {
        Some(t) => t@,
        None => "-"@,
    }
}

/// The first line of an event.
pub open spec fn event_line(v: VerdictEvent) -> Seq<char> {
    flat(
        seq![
            v.event_id@,
            "  unit="@,
            v.unit_ref@,
            "  verdict="@,
            verdict_name(v.verdict),
            "  tier="@,
            tier_shown(v),
            "  next="@,
            consequence_name(v.next_consequence),
            "  hash="@,
            v.bundle_hash@,
        ],
    )
}

/// The lines of what a unit lacked.
pub open spec fn missing_lines(missing: Option<Vec<String>>) -> Seq<Seq<char>> {
    match missing {
        Some(m) => seq!["    not-admitted — missing capabilities:"@] + texts(m@).map_values(
            |id: Seq<char>| "      - "@ + id,
        ),
        None => Seq::empty(),
    }
}

/// The line of where a run landed.
pub open spec fn landing_lines(d: Option<DeliveryResult>) -> Seq<Seq<char>> {
    match d {
        Some(d) => seq![
            match d.pr_url {
                Some(url) => flat(
                    seq![
                        "    delivered -> branch "@,
                        d.branch@,
                        " @ "@,
                        d.commit@,
                        "  (PR: "@,
                        url@,
                        ")"@,
                    ],
                ),
                None => flat(
                    seq!["    delivered -> branch "@, d.branch@, " @ "@, d.commit@],
                ),
            },
        ],
        None => Seq::empty(),
    }
}

/// The line of a cell: its id, its verdict and the beginning of its artifact.
pub open spec fn cell_line(c: CellResult) -> Seq<char> {
    match c.artifact {
        Some(a) => match a.delivery {
            ArtifactBody::Inline { content } => flat(
                seq![
                    "    cell "@,
                    padded(c.cell_id@, 8),
                    " "@,
                    cell_verdict_name(c.verdict),
                    "  ["@,
                    a.content_hash@,
                    "]  inline: "@,
                    preview(content@, PREVIEW as nat),
                ],
            ),
        },
        None => flat(
            seq!["    cell "@, padded(c.cell_id@, 8), " "@, cell_verdict_name(c.verdict)],
        ),
    }
}

/// The lines of an event.
pub open spec fn event_lines(v: VerdictEvent) -> Seq<Seq<char>> {
    seq![event_line(v)] + missing_lines(v.missing_capabilities) + landing_lines(
        v.delivery_result,
    ) + v.cell_results@.map_values(|c: CellResult| cell_line(c))
}

/// The lines of a stream that has events.
pub open spec fn all_event_lines(stream: Seq<VerdictEvent>) -> Seq<Seq<char>>
    decreases stream.len(),
{
    if stream.len() == 0 {
        Seq::empty()
    } else {
        all_event_lines(stream.drop_last()) + event_lines(stream.last())
    }
}

/// The lines of the verdict stream.
pub open spec fn stream_lines(stream: Seq<VerdictEvent>) -> Seq<Seq<char>> {
    if stream.len() == 0 {
        seq!["(no verdicts emitted yet)"@]
    } else {
        all_event_lines(stream)
    }
}

fn say_event(v: &VerdictEvent) -> (r: String)
    ensures
        r@ == event_line(*v),
{
    let tier: &str = match &v.tier_ran {
        Some(t) => t.as_str(),
        None => "-",
    };
    let parts: Vec<&str> = vec![
        v.event_id.as_str(),
        "  unit=",
        v.unit_ref.as_str(),
        "  verdict=",
        verdict_text(v.verdict),
        "  tier=",
        tier,
        "  next=",
        consequence_text(v.next_consequence),
        "  hash=",
        v.bundle_hash.as_str(),
    ];
    assert(literals(parts@) =~= seq![
        v.event_id@,
        "  unit="@,
        v.unit_ref@,
        "  verdict="@,
        verdict_name(v.verdict),
        "  tier="@,
        tier_shown(*v),
        "  next="@,
        consequence_name(v.next_consequence),
        "  hash="@,
        v.bundle_hash@,
    ]);
    say(parts)
}

fn say_landing(d: &DeliveryResult) -> (r: String)
    ensures
        landing_lines(Some(*d)) == seq![r@],
{
    match &d.pr_url {
        Some(url) => {
            let parts: Vec<&str> = vec![
                "    delivered -> branch ",
                d.branch.as_str(),
                " @ ",
                d.commit.as_str(),
                "  (PR: ",
                url.as_str(),
                ")",
            ];
            assert(literals(parts@) =~= seq![
                "    delivered -> branch "@,
                d.branch@,
                " @ "@,
                d.commit@,
                "  (PR: "@,
                url@,
                ")"@,
            ]);
            say(parts)
        },
        None => {
            let parts: Vec<&str> = vec![
                "    delivered -> branch ",
                d.branch.as_str(),
                " @ ",
                d.commit.as_str(),
            ];
            assert(literals(parts@) =~= seq![
                "    delivered -> branch "@,
                d.branch@,
                " @ "@,
                d.commit@,
            ]);
            say(parts)
        },
    }
}

fn say_cell(c: &CellResult) -> (r: String)
    ensures
        r@ == cell_line(*c),
{
    let id: String = pad(c.cell_id.as_str(), 8);
    match &c.artifact {
        Some(a) => match &a.delivery {
            ArtifactBody::Inline { content } => {
                let shown: String = preview_of(content.as_str(), PREVIEW);
                let parts: Vec<&str> = vec![
                    "    cell ",
                    id.as_str(),
                    " ",
                    cell_verdict_text(c.verdict),
                    "  [",
                    a.content_hash.as_str(),
                    "]  inline: ",
                    shown.as_str(),
                ];
                assert(literals(parts@) =~= seq![
                    "    cell "@,
                    id@,
                    " "@,
                    cell_verdict_name(c.verdict),
                    "  ["@,
                    a.content_hash@,
                    "]  inline: "@,
                    shown@,
                ]);
                say(parts)
            },
        },
        None => {
            let parts: Vec<&str> = vec![
                "    cell ",
                id.as_str(),
                " ",
                cell_verdict_text(c.verdict),
            ];
            assert(literals(parts@) =~= seq![
                "    cell "@,
                id@,
                " "@,
                cell_verdict_name(c.verdict),
            ]);
            say(parts)
        },
    }
}

fn add_missing(lines: &mut Vec<String>, missing: &Option<Vec<String>>)
    ensures
        texts(final(lines)@) == texts(old(lines)@) + missing_lines(*missing),
{
    let ghost before = texts(lines@);
    match missing {
        Some(m) => {
            let ghost wanted = texts(m@).map_values(|id: Seq<char>| "      - "@ + id);
            let ghost head = "    not-admitted — missing capabilities:"@;
            lines.push("    not-admitted — missing capabilities:".to_owned());
            assert(texts(lines@) =~= before.push(head));
            let mut i: usize = 0;
            while i < m.len()
                invariant
                    i <= m@.len(),
                    wanted == texts(m@).map_values(|id: Seq<char>| "      - "@ + id),
                    texts(lines@) == before.push(head) + wanted.take(i as int),
                decreases m@.len() - i,
            {
                let mut line: String = "      - ".to_owned();
                line.append(m[i].as_str());
                let ghost old_lines = lines@;
                lines.push(line);
                assert(texts(lines@) =~= texts(old_lines).push(line@));
                i += 1;
                assert(texts(lines@) =~= before.push(head) + wanted.take(i as int));
            }
            assert(texts(lines@) =~= before + missing_lines(*missing));
        },
        None => {
            assert(texts(lines@) =~= before + missing_lines(*missing));
        },
    }
}

fn add_event(lines: &mut Vec<String>, v: &VerdictEvent)
    ensures
        texts(final(lines)@) == texts(old(lines)@) + event_lines(*v),
{
    let ghost before = texts(lines@);
    lines.push(say_event(v));
    assert(texts(lines@) =~= before.push(event_line(*v)));
    add_missing(lines, &v.missing_capabilities);
    let ghost second = texts(lines@);
    let ghost second_lines = lines@;
    if let Some(d) = &v.delivery_result {
        let line: String = say_landing(d);
        lines.push(line);
        assert(texts(lines@) =~= texts(second_lines).push(line@));
    }
    assert(texts(lines@) =~= second + landing_lines(v.delivery_result));
    let ghost third = texts(lines@);
    let ghost wanted = v.cell_results@.map_values(|c: CellResult| cell_line(c));
    let mut i: usize = 0;
    while i < v.cell_results.len()
        invariant
            i <= v.cell_results@.len(),
            wanted == v.cell_results@.map_values(|c: CellResult| cell_line(c)),
            texts(lines@) == third + wanted.take(i as int),
        decreases v.cell_results@.len() - i,
    {
        let ghost old_lines = lines@;
        let line: String = say_cell(&v.cell_results[i]);
        lines.push(line);
        assert(texts(lines@) =~= texts(old_lines).push(line@));
        i += 1;
        assert(texts(lines@) =~= third + wanted.take(i as int));
    }
    assert(texts(lines@) =~= before + event_lines(*v));
}

/// The lines of the verdict stream: for each event its verdict, what the unit
/// lacked, where the run landed, and its cells.
pub fn report_stream(stream: &Vec<VerdictEvent>) -> (r: Vec<String>)
    ensures
        texts(r@) == stream_lines(stream@),
{
    let mut lines: Vec<String> = Vec::new();
    assert(texts(lines@) =~= Seq::empty());
    if stream.len() == 0 {
        lines.push("(no verdicts emitted yet)".to_owned());
        assert(texts(lines@) =~= stream_lines(stream@));
        return lines;
    }
    let mut i: usize = 0;
    while i < stream.len()
        invariant
            i <= stream@.len(),
            texts(lines@) == all_event_lines(stream@.take(i as int)),
        decreases stream@.len() - i,
    {
        let ghost next = stream@.take(i + 1);
        assert(next.drop_last() =~= stream@.take(i as int));
        add_event(&mut lines, &stream[i]);
        i += 1;
    }
    assert(stream@.take(i as int) =~= stream@);
    lines
}

// ---------------------------------------------------------------- the status

/// The endpoint that the status shows.
pub open spec fn endpoint_shown(e: Engine) -> Seq<char> {
    match e.host_handle {
        Some(h) => h.endpoint@,
        None => "-"@,
    }
}

/// The lines of the status. `percent` is the share of refused units, as text.
pub open spec fn status_lines(e: Engine, percent: Seq<char>) -> Seq<Seq<char>> {
    seq![
        flat(seq!["box mode:        "@, mode_name(e.mode)]),
        flat(seq!["queued units:    "@, int_text(e.priority_view.queued as int)]),
        flat(seq!["verdicts:        "@, int_text(e.verdict_view.emitted as int)]),
        flat(
            seq![
                "heterogeneity:   "@,
                int_text(e.heterogeneity_view.rejected as int),
                "/"@,
                int_text(e.heterogeneity_view.admitted + e.heterogeneity_view.rejected),
                " rejected ("@,
                percent,
                "%)"@,
            ],
        ),
        flat(
            seq![
                "utilization:     in_flight="@,
                int_text(e.utilization.in_flight as int),
                " exploring="@,
                truth_name(e.utilization.exploring),
                " discoveries="@,
                int_text(e.utilization.discoveries as int),
            ],
        ),
        flat(
            seq![
                "serving host:    phase="@,
                phase_name(e.host.phase),
                " ready="@,
                truth_name(e.serving_host_view.ready),
                " endpoint="@,
                endpoint_shown(e),
            ],
        ),
    ]
}

/// The lines of the status.
pub fn report_status(e: &Engine, percent: &str) -> (r: Vec<String>)
    requires
        i64::MIN <= e.heterogeneity_view.admitted + e.heterogeneity_view.rejected <= i64::MAX,
    ensures
        texts(r@) == status_lines(*e, percent@),
{
    let mode: Vec<&str> = vec!["box mode:        ", mode_text(e.mode)];
    assert(literals(mode@) =~= seq!["box mode:        "@, mode_name(e.mode)]);
    let queued: String = integer_text(e.priority_view.queued);
    let queue: Vec<&str> = vec!["queued units:    ", queued.as_str()];
    assert(literals(queue@) =~= seq!["queued units:    "@, queued@]);
    let emitted: String = integer_text(e.verdict_view.emitted);
    let verdicts: Vec<&str> = vec!["verdicts:        ", emitted.as_str()];
    assert(literals(verdicts@) =~= seq!["verdicts:        "@, emitted@]);
    let rejected: String = integer_text(e.heterogeneity_view.rejected);
    let total: String = integer_text(
        e.heterogeneity_view.admitted + e.heterogeneity_view.rejected,
    );
    let rate: Vec<&str> = vec![
        "heterogeneity:   ",
        rejected.as_str(),
        "/",
        total.as_str(),
        " rejected (",
        percent,
        "%)",
    ];
    assert(literals(rate@) =~= seq![
        "heterogeneity:   "@,
        rejected@,
        "/"@,
        total@,
        " rejected ("@,
        percent@,
        "%)"@,
    ]);
    let in_flight: String = integer_text(e.utilization.in_flight);
    let discoveries: String = integer_text(e.utilization.discoveries);
    let utilization: Vec<&str> = vec![
        "utilization:     in_flight=",
        in_flight.as_str(),
        " exploring=",
        truth_text(e.utilization.exploring),
        " discoveries=",
        discoveries.as_str(),
    ];
    assert(literals(utilization@) =~= seq![
        "utilization:     in_flight="@,
        in_flight@,
        " exploring="@,
        truth_name(e.utilization.exploring),
        " discoveries="@,
        discoveries@,
    ]);
    let endpoint: &str = match &e.host_handle {
        Some(h) => h.endpoint.as_str(),
        None => "-",
    };
    let host: Vec<&str> = vec![
        "serving host:    phase=",
        phase_text(e.host.phase),
        " ready=",
        truth_text(e.serving_host_view.ready),
        " endpoint=",
        endpoint,
    ];
    assert(literals(host@) =~= seq![
        "serving host:    phase="@,
        phase_name(e.host.phase),
        " ready="@,
        truth_name(e.serving_host_view.ready),
        " endpoint="@,
        endpoint_shown(*e),
    ]);
    let mut r: Vec<String> = Vec::new();
    r.push(say(mode));
    r.push(say(queue));
    r.push(say(verdicts));
    r.push(say(rate));
    r.push(say(utilization));
    r.push(say(host));
    assert(texts(r@) =~= status_lines(*e, percent@));
    r
}

// ---------------------------------------------------------------------- laws

/// Texts that are said one behind the other are the texts flattened.
proof fn lemma_said(parts: Seq<Seq<char>>)
    ensures
        flat(parts) == parts.flatten(),
    decreases parts.len(),
{
    if parts.len() > 0 {
        let rest = parts.drop_last();
        let last = parts.last();
        lemma_said(rest);
        law_saying(rest, last);
        rest.lemma_flatten_push(last);
        assert(rest.push(last) =~= parts);
    }
}

/// The line for a drained unit names the unit and what became of it; the end of a
/// drain has no line.
pub proof fn law_a_run_line_names_the_unit(
    unit_ref: String,
    to_ladder: u32,
    missing: Vec<String>,
)
    ensures
        run_line(DrainOutcome::Accepted { unit_ref }) == Some(
            seq!["  accepted   "@, unit_ref@].flatten(),
        ),
        run_line(DrainOutcome::Escalated { unit_ref, to_ladder }) == Some(
            seq![
                "  escalated  "@,
                unit_ref@,
                " -> ladder "@,
                decimal(to_ladder as nat),
                " (whole unit, one binding up)"@,
            ].flatten(),
        ),
        run_line(DrainOutcome::Halted { unit_ref }) == Some(
            seq!["  halted     "@, unit_ref@, " (ladder exhausted)"@].flatten(),
        ),
        run_line(DrainOutcome::NotAdmitted { unit_ref, missing }) == Some(
            seq![
                "  not-admitted "@,
                unit_ref@,
                " (never ran; missing: "@,
                joined(texts(missing@), ", "@),
                ")"@,
            ].flatten(),
        ),
        run_line(DrainOutcome::Idle) is None,
        run_line(DrainOutcome::NotQueueMode) is None,
{
    lemma_said(seq!["  accepted   "@, unit_ref@]);
    lemma_said(
        seq![
            "  escalated  "@,
            unit_ref@,
            " -> ladder "@,
            decimal(to_ladder as nat),
            " (whole unit, one binding up)"@,
        ],
    );
    lemma_said(seq!["  halted     "@, unit_ref@, " (ladder exhausted)"@]);
    lemma_said(
        seq![
            "  not-admitted "@,
            unit_ref@,
            " (never ran; missing: "@,
            joined(texts(missing@), ", "@),
            ")"@,
        ],
    );
}

/// The line for a unit drained in isolation names the unit and what became of it: an
/// accepted one where it landed, or the patch it left, if it left one.
pub proof fn law_a_serve_line_tells_where_a_unit_landed(
    unit_ref: String,
    stream: Seq<VerdictEvent>,
    d: DeliveryResult,
    path: Seq<char>,
    to_ladder: u32,
    missing: Vec<String>,
)
    ensures
        stream.len() > 0 && stream.last().unit_ref@ == unit_ref@
            && stream.last().delivery_result == Some(d) && d.pr_url is None ==> serve_line(
            DrainOutcome::Accepted { unit_ref },
            stream,
            None,
        ) == Some(
            seq![
                "  accepted   "@,
                unit_ref@,
                "  (verified → branch "@,
                d.branch@,
                " @ "@,
                d.commit@,
                ")"@,
            ].flatten(),
        ),
        stream.len() > 0 && stream.last().unit_ref@ == unit_ref@
            && stream.last().delivery_result == Some(d) && d.pr_url is Some ==> serve_line(
            DrainOutcome::Accepted { unit_ref },
            stream,
            None,
        ) == Some(
            seq![
                "  accepted   "@,
                unit_ref@,
                "  (verified → branch "@,
                d.branch@,
                " @ "@,
                d.commit@,
                ", PR: "@,
                d.pr_url->0@,
                ")"@,
            ].flatten(),
        ),
        stream.len() == 0 || stream.last().unit_ref@ != unit_ref@
            || stream.last().delivery_result is None ==> serve_line(
            DrainOutcome::Accepted { unit_ref },
            stream,
            Some(path),
        ) == Some(
            seq!["  accepted   "@, unit_ref@, "  (verified → patch: "@, path, ")"@].flatten(),
        ) && serve_line(DrainOutcome::Accepted { unit_ref }, stream, None) == Some(
            seq!["  accepted   "@, unit_ref@, "  (verified; no diff to deliver)"@].flatten(),
        ),
        serve_line(DrainOutcome::Escalated { unit_ref, to_ladder }, stream, None) == Some(
            seq![
                "  escalated  "@,
                unit_ref@,
                " -> ladder "@,
                decimal(to_ladder as nat),
                " (verification failed; retrying one tier up)"@,
            ].flatten(),
        ),
        serve_line(DrainOutcome::Halted { unit_ref }, stream, None) == Some(
            seq![
                "  halted     "@,
                unit_ref@,
                " (ladder exhausted — verification never passed)"@,
            ].flatten(),
        ),
        serve_line(DrainOutcome::NotAdmitted { unit_ref, missing }, stream, None) == Some(
            seq![
                "  not-admitted "@,
                unit_ref@,
                " (never ran; box lacks: "@,
                joined(texts(missing@), ", "@),
                ")"@,
            ].flatten(),
        ),
        serve_line(DrainOutcome::Idle, stream, None) is None,
        serve_line(DrainOutcome::NotQueueMode, stream, None) is None,
{
    lemma_said(
        seq![
            "  accepted   "@,
            unit_ref@,
            "  (verified → branch "@,
            d.branch@,
            " @ "@,
            d.commit@,
            ")"@,
        ],
    );
    if d.pr_url is Some {
        lemma_said(
            seq![
                "  accepted   "@,
                unit_ref@,
                "  (verified → branch "@,
                d.branch@,
                " @ "@,
                d.commit@,
                ", PR: "@,
                d.pr_url->0@,
                ")"@,
            ],
        );
    }
    lemma_said(seq!["  accepted   "@, unit_ref@, "  (verified → patch: "@, path, ")"@]);
    lemma_said(seq!["  accepted   "@, unit_ref@, "  (verified; no diff to deliver)"@]);
    lemma_said(
        seq![
            "  escalated  "@,
            unit_ref@,
            " -> ladder "@,
            decimal(to_ladder as nat),
            " (verification failed; retrying one tier up)"@,
        ],
    );
    lemma_said(
        seq!["  halted     "@, unit_ref@, " (ladder exhausted — verification never passed)"@],
    );
    lemma_said(
        seq![
            "  not-admitted "@,
            unit_ref@,
            " (never ran; box lacks: "@,
            joined(texts(missing@), ", "@),
            ")"@,
        ],
    );
}

/// A unit is taken exactly if it breaks no rule. One that the box does not cover is
/// taken with a warning that lists what is missing; one that is refused is told the
/// rule.
pub proof fn law_a_unit_is_taken_exactly_if_it_breaks_no_rule(
    r: AdmissionReport,
    unit: WorkUnit,
    missing: Seq<Seq<char>>,
)
    requires
        admission_report(r, unit, missing),
    ensures
        r.taken <==> unit.fault() is None,
        r.said is Some <==> unit.fault() is None,
        r.warned is Some <==> unit.fault() is Some || missing.len() > 0,
        unit.fault() matches Some(rule) ==> r.warned->0@ == seq![
            "rejected '"@,
            unit.unit_ref@,
            "': "@,
            rule,
            " (a decomposition defect, never dispatched)"@,
        ].flatten(),
        unit.fault() is None && missing.len() == 0 ==> r.said->0@ == seq![
            "admitted '"@,
            unit.unit_ref@,
            "' -> queued (binding-homogeneous; manifest covers its requirements)"@,
        ].flatten(),
        unit.fault() is None && missing.len() > 0 ==> r.said->0@ == seq![
            "admitted '"@,
            unit.unit_ref@,
            "' -> queued (binding-homogeneous)"@,
        ].flatten() && r.warned->0@ == seq![
            "warning: this box cannot cover '"@,
            unit.unit_ref@,
            "' — it will be answered not-admitted at run.\n  missing capabilities:\n"@,
            missing_list(missing),
        ].flatten(),
{
    if let Some(rule) = unit.fault() {
        lemma_said(
            seq![
                "rejected '"@,
                unit.unit_ref@,
                "': "@,
                rule,
                " (a decomposition defect, never dispatched)"@,
            ],
        );
    }
    lemma_said(
        seq![
            "admitted '"@,
            unit.unit_ref@,
            "' -> queued (binding-homogeneous; manifest covers its requirements)"@,
        ],
    );
    lemma_said(seq!["admitted '"@, unit.unit_ref@, "' -> queued (binding-homogeneous)"@]);
    lemma_said(
        seq![
            "warning: this box cannot cover '"@,
            unit.unit_ref@,
            "' — it will be answered not-admitted at run.\n  missing capabilities:\n"@,
            missing_list(missing),
        ],
    );
}

/// What is missing is listed one to a line, in order.
pub proof fn law_what_is_missing_is_listed_line_by_line(missing: Seq<Seq<char>>, id: Seq<char>)
    ensures
        missing_list(seq![id]) == "    - "@ + id,
        missing.len() > 0 ==> missing_list(missing.push(id)) == missing_list(missing) + "\n"@ + (
        "    - "@ + id),
{
    let lead = |m: Seq<char>| "    - "@ + m;
    assert(seq![id].map_values(lead) =~= seq!["    - "@ + id]);
    assert(missing.push(id).map_values(lead) =~= missing.map_values(lead).push("    - "@ + id));
    law_joining(missing.map_values(lead), "\n"@, "    - "@ + id);
}

/// The stream is told event by event, in order; an empty one says so.
pub proof fn law_the_stream_is_told_event_by_event(stream: Seq<VerdictEvent>, v: VerdictEvent)
    ensures
        stream_lines(Seq::empty()) == seq!["(no verdicts emitted yet)"@],
        stream_lines(seq![v]) == event_lines(v),
        stream.len() > 0 ==> stream_lines(stream.push(v)) == stream_lines(stream) + event_lines(v),
{
    assert(stream.push(v).drop_last() =~= stream);
    let one = seq![v];
    assert(one.drop_last() =~= Seq::<VerdictEvent>::empty());
    assert(all_event_lines(Seq::<VerdictEvent>::empty()) =~= Seq::<Seq<char>>::empty());
    assert(one.last() == v);
    assert(Seq::<Seq<char>>::empty() + event_lines(v) =~= event_lines(v));
}

/// An event is told with its verdict first, then each thing that the unit lacked,
/// then where the run landed, then each of its cells.
pub proof fn law_an_event_is_told_in_full(v: VerdictEvent, i: int)
    ensures
        ({
            let lines = event_lines(v);
            let missing = match v.missing_capabilities {
                Some(m) => 1 + m@.len() as int,
                None => 0,
            };
            let landed = if v.delivery_result is Some {
                1int
            } else {
                0
            };
            &&& lines.len() == 1 + missing + landed + v.cell_results@.len()
            &&& lines[0] == seq![
                v.event_id@,
                "  unit="@,
                v.unit_ref@,
                "  verdict="@,
                verdict_name(v.verdict),
                "  tier="@,
                tier_shown(v),
                "  next="@,
                consequence_name(v.next_consequence),
                "  hash="@,
                v.bundle_hash@,
            ].flatten()
            &&& v.missing_capabilities matches Some(m) ==> (0 <= i < m@.len() ==> lines[2 + i]
                == "      - "@ + m@[i]@)
            &&& 0 <= i < v.cell_results@.len() ==> lines[1 + missing + landed + i] == cell_line(
                v.cell_results@[i],
            )
            &&& v.delivery_result matches Some(d) ==> (d.pr_url is None ==> lines[1 + missing]
                == seq!["    delivered -> branch "@, d.branch@, " @ "@, d.commit@].flatten())
            &&& v.delivery_result matches Some(d) ==> (d.pr_url matches Some(url) ==> lines[1
                + missing] == seq![
                "    delivered -> branch "@,
                d.branch@,
                " @ "@,
                d.commit@,
                "  (PR: "@,
                url@,
                ")"@,
            ].flatten())
        }),
        v.tier_ran matches Some(t) ==> tier_shown(v) == t@,
        v.tier_ran is None ==> tier_shown(v) == "-"@,
{
    lemma_said(
        seq![
            v.event_id@,
            "  unit="@,
            v.unit_ref@,
            "  verdict="@,
            verdict_name(v.verdict),
            "  tier="@,
            tier_shown(v),
            "  next="@,
            consequence_name(v.next_consequence),
            "  hash="@,
            v.bundle_hash@,
        ],
    );
    if let Some(d) = v.delivery_result {
        lemma_said(seq!["    delivered -> branch "@, d.branch@, " @ "@, d.commit@]);
        if let Some(url) = d.pr_url {
            lemma_said(
                seq![
                    "    delivered -> branch "@,
                    d.branch@,
                    " @ "@,
                    d.commit@,
                    "  (PR: "@,
                    url@,
                    ")"@,
                ],
            );
        }
    }
}

/// A cell is told by its id and its verdict, and, where it carries an artifact, by
/// its hash and its beginning.
pub proof fn law_a_cell_is_told_with_its_artifact(c: CellResult)
    ensures
        c.artifact is None ==> cell_line(c) == seq![
            "    cell "@,
            padded(c.cell_id@, 8),
            " "@,
            cell_verdict_name(c.verdict),
        ].flatten(),
        c.artifact matches Some(a) ==> (a.delivery matches ArtifactBody::Inline { content }
            ==> cell_line(c) == seq![
            "    cell "@,
            padded(c.cell_id@, 8),
            " "@,
            cell_verdict_name(c.verdict),
            "  ["@,
            a.content_hash@,
            "]  inline: "@,
            preview(content@, 60),
        ].flatten()),
{
    lemma_said(
        seq!["    cell "@, padded(c.cell_id@, 8), " "@, cell_verdict_name(c.verdict)],
    );
    if let Some(a) = c.artifact {
        match a.delivery {
            ArtifactBody::Inline { content } => {
                lemma_said(
                    seq![
                        "    cell "@,
                        padded(c.cell_id@, 8),
                        " "@,
                        cell_verdict_name(c.verdict),
                        "  ["@,
                        a.content_hash@,
                        "]  inline: "@,
                        preview(content@, 60),
                    ],
                );
            },
        }
    }
}

/// Verdicts, consequences, phases and truth values are told by their names.
pub proof fn law_names_are_told_as_they_are()
    ensures
        verdict_name(Verdict::Accepted) == "Accepted"@,
        verdict_name(Verdict::Rejected) == "Rejected"@,
        verdict_name(Verdict::Escalate) == "Escalate"@,
        verdict_name(Verdict::NotAdmitted) == "NotAdmitted"@,
        consequence_name(Consequence::Advance) == "Advance"@,
        consequence_name(Consequence::Halt) == "Halt"@,
        consequence_name(Consequence::Retry) == "Retry"@,
        consequence_name(Consequence::Escalate) == "Escalate"@,
        cell_verdict_name(CellVerdict::Accepted) == "Accepted"@,
        cell_verdict_name(CellVerdict::Rejected) == "Rejected"@,
        cell_verdict_name(CellVerdict::Skipped) == "Skipped"@,
        phase_name(HostPhase::Absent) == "Absent"@,
        phase_name(HostPhase::Launched) == "Launched"@,
        phase_name(HostPhase::Ready) == "Ready"@,
        phase_name(HostPhase::Retired) == "Retired"@,
        truth_name(true) == "true"@,
        truth_name(false) == "false"@,
{
}

/// The status tells the mode, the counts of the projections and the host.
pub proof fn law_the_status_tells_the_projections(e: Engine, percent: Seq<char>)
    ensures
        status_lines(e, percent).len() == 6,
        status_lines(e, percent)[0] == seq!["box mode:        "@, mode_name(e.mode)].flatten(),
        status_lines(e, percent)[1] == seq![
            "queued units:    "@,
            int_text(e.priority_view.queued as int),
        ].flatten(),
        status_lines(e, percent)[2] == seq![
            "verdicts:        "@,
            int_text(e.verdict_view.emitted as int),
        ].flatten(),
        status_lines(e, percent)[3] == seq![
            "heterogeneity:   "@,
            int_text(e.heterogeneity_view.rejected as int),
            "/"@,
            int_text(e.heterogeneity_view.admitted + e.heterogeneity_view.rejected),
            " rejected ("@,
            percent,
            "%)"@,
        ].flatten(),
        status_lines(e, percent)[4] == seq![
            "utilization:     in_flight="@,
            int_text(e.utilization.in_flight as int),
            " exploring="@,
            truth_name(e.utilization.exploring),
            " discoveries="@,
            int_text(e.utilization.discoveries as int),
        ].flatten(),
        status_lines(e, percent)[5] == seq![
            "serving host:    phase="@,
            phase_name(e.host.phase),
            " ready="@,
            truth_name(e.serving_host_view.ready),
            " endpoint="@,
            endpoint_shown(e),
        ].flatten(),
        e.host_handle matches Some(h) ==> endpoint_shown(e) == h.endpoint@,
        e.host_handle is None ==> endpoint_shown(e) == "-"@,
{
    lemma_said(seq!["box mode:        "@, mode_name(e.mode)]);
    lemma_said(seq!["queued units:    "@, int_text(e.priority_view.queued as int)]);
    lemma_said(seq!["verdicts:        "@, int_text(e.verdict_view.emitted as int)]);
    lemma_said(
        seq![
            "heterogeneity:   "@,
            int_text(e.heterogeneity_view.rejected as int),
            "/"@,
            int_text(e.heterogeneity_view.admitted + e.heterogeneity_view.rejected),
            " rejected ("@,
            percent,
            "%)"@,
        ],
    );
    lemma_said(
        seq![
            "utilization:     in_flight="@,
            int_text(e.utilization.in_flight as int),
            " exploring="@,
            truth_name(e.utilization.exploring),
            " discoveries="@,
            int_text(e.utilization.discoveries as int),
        ],
    );
    lemma_said(
        seq![
            "serving host:    phase="@,
            phase_name(e.host.phase),
            " ready="@,
            truth_name(e.serving_host_view.ready),
            " endpoint="@,
            endpoint_shown(e),
        ],
    );
}

/// A drain goes on for ten thousand attempts and no more.
pub proof fn law_a_drain_is_bounded(drained: u64, r: (u64, bool))
    requires
        drained < u64::MAX,
        call_ensures(count_attempt, (drained,), r),
    ensures
        r.0 == drained + 1,
        r.1 <==> drained < 10000,
{
}

} // verus!
