//! The flat priority set of units and the guard at its door.
use vstd::prelude::*;

use crate::decider::{one, outcome};
use crate::interface::WorkUnit;

verus! {

#[derive(Clone, Copy, Debug, PartialEq, Eq, Structural)]
pub enum Lifecycle {
    New,
    Queued,
    Rejected,
    Escalated,
    Failed,
}

#[derive(Clone, Debug, PartialEq, Eq, Structural)]
pub enum UnitEvent {
    Enqueued,
    Rejected,
    Reprioritized,
    Escalated,
    Halted,
}

#[derive(Clone, Debug, PartialEq, Eq, Structural)]
pub enum UnitCommand {
    /// `homogeneous` is what the admission check found.
    Admit { homogeneous: bool },
    Reprioritize,
    Escalate { max_ladder: u32 },
}

#[derive(Clone, Debug, PartialEq, Eq, Structural)]
pub struct UnitState {
    pub state: Lifecycle,
    pub ladder: u32,
}

impl Default for UnitState {
    fn default() -> (r: Self)
        ensures
            r == (UnitState { state: Lifecycle::New, ladder: 0 }),
    {
        UnitState { state: Lifecycle::New, ladder: 0 }
    }
}

impl UnitState {
    pub open spec fn evolved(self, event: UnitEvent) -> UnitState {
        match event {
            UnitEvent::Enqueued => UnitState { state: Lifecycle::Queued, ladder: self.ladder },
            UnitEvent::Reprioritized => UnitState { state: Lifecycle::Queued, ladder: self.ladder },
            UnitEvent::Escalated => UnitState {
                state: Lifecycle::Queued,
                ladder: (self.ladder + 1) as u32,
            },
            UnitEvent::Rejected => UnitState { state: Lifecycle::Rejected, ladder: self.ladder },
            UnitEvent::Halted => UnitState { state: Lifecycle::Failed, ladder: self.ladder },
        }
    }

    pub open spec fn decided(self, command: UnitCommand) -> Result<Seq<UnitEvent>, Seq<char>> {
        match command {
            UnitCommand::Admit { homogeneous } => if homogeneous {
                Ok(seq![UnitEvent::Enqueued])
            } else {
                Err("inv-binding-homogeneity"@)
            },
            UnitCommand::Reprioritize => if self.state == Lifecycle::Queued {
                Ok(seq![UnitEvent::Reprioritized])
            } else {
                Err("inv-only-queued-reorderable"@)
            },
            UnitCommand::Escalate { max_ladder } => if self.ladder < max_ladder {
                Ok(seq![UnitEvent::Escalated])
            } else {
                Err("inv-ladder-exhausted"@)
            },
        }
    }

    pub fn evolve(&mut self, event: &UnitEvent)
        requires
            *event == UnitEvent::Escalated ==> old(self).ladder < u32::MAX,
        ensures
            *final(self) == old(self).evolved(*event),
    {
        match event {
            UnitEvent::Enqueued => {
                self.state = Lifecycle::Queued;
            },
            UnitEvent::Reprioritized => {
                self.state = Lifecycle::Queued;
            },
            UnitEvent::Escalated => {
                self.state = Lifecycle::Queued;
                self.ladder += 1;
            },
            UnitEvent::Rejected => {
                self.state = Lifecycle::Rejected;
            },
            UnitEvent::Halted => {
                self.state = Lifecycle::Failed;
            },
        }
    }

    /// A homogeneous unit is enqueued, a queued one can be reordered, and one
    /// with headroom on its ladder escalates.
    pub fn decide(&self, command: &UnitCommand) -> (r: Result<Vec<UnitEvent>, &'static str>)
        ensures
            outcome(r) == self.decided(*command),
    {
        match command {
            UnitCommand::Admit { homogeneous } => {
                if *homogeneous {
                    Ok(one(UnitEvent::Enqueued))
                } else {
                    Err("inv-binding-homogeneity")
                }
            },
            UnitCommand::Reprioritize => {
                if self.state == Lifecycle::Queued {
                    Ok(one(UnitEvent::Reprioritized))
                } else {
                    Err("inv-only-queued-reorderable")
                }
            },
            UnitCommand::Escalate { max_ladder } => {
                if self.ladder < *max_ladder {
                    Ok(one(UnitEvent::Escalated))
                } else {
                    Err("inv-ladder-exhausted")
                }
            },
        }
    }
}

/// What admission answers for a unit: enqueued, or the rule that keeps it out.
pub open spec fn admission(unit: WorkUnit) -> Result<Seq<UnitEvent>, Seq<char>> {
    match unit.fault() {
        Some(rule) => Err(rule),
        None => Ok(seq![UnitEvent::Enqueued]),
    }
}

/// Decides admission for a frozen unit: the whole structural validation is run,
/// and a unit that fails it is refused with the id of the rule it breaks.
pub fn decide_admission(unit: &WorkUnit) -> (r: Result<Vec<UnitEvent>, &'static str>)
    ensures
        outcome(r) == admission(*unit),
{
    match unit.validate() {
        Ok(_) => UnitState::default().decide(&UnitCommand::Admit { homogeneous: true }),
        Err(rule) => Err(rule),
    }
}

/// The size of the queued set.
#[derive(Clone, Debug, PartialEq, Eq, Structural)]
pub struct PrioritySetView {
    pub queued: i64,
}

impl Default for PrioritySetView {
    fn default() -> (r: Self)
        ensures
            r.queued == 0,
    {
        PrioritySetView { queued: 0 }
    }
}

/// By how much an event changes the size of the queued set.
pub open spec fn queue_growth(event: UnitEvent) -> int {
    match event {
        UnitEvent::Enqueued => 1,
        UnitEvent::Escalated => 1,
        _ => 0,
    }
}

impl PrioritySetView {
    /// Enqueueing and escalation add to the set; every other event leaves its size.
    pub fn on_queue_event(&mut self, event: &UnitEvent)
        requires
            old(self).queued + queue_growth(*event) <= i64::MAX,
        ensures
            final(self).queued == old(self).queued + queue_growth(*event),
    {
        match event {
            UnitEvent::Enqueued => {
                self.queued += 1;
            },
            UnitEvent::Escalated => {
                self.queued += 1;
            },
            _ => {},
        }
    }

    /// A unit taken by the executor leaves the set.
    pub fn on_admitted(&mut self)
        requires
            old(self).queued > i64::MIN,
        ensures
            final(self).queued == old(self).queued - 1,
    {
        self.queued -= 1;
    }
}

/// How many units were admitted and how many were turned away.
#[derive(Clone, Debug, PartialEq, Eq, Structural)]
pub struct HeterogeneityRateView {
    pub admitted: i64,
    pub rejected: i64,
}

impl Default for HeterogeneityRateView {
    fn default() -> (r: Self)
        ensures
            r == (HeterogeneityRateView { admitted: 0, rejected: 0 }),
    {
        HeterogeneityRateView { admitted: 0, rejected: 0 }
    }
}

impl HeterogeneityRateView {
    pub open spec fn counted(self, event: UnitEvent) -> (int, int) {
        match event {
            UnitEvent::Enqueued => (self.admitted + 1, self.rejected as int),
            UnitEvent::Rejected => (self.admitted as int, self.rejected + 1),
            _ => (self.admitted as int, self.rejected as int),
        }
    }

    pub fn apply(&mut self, event: &UnitEvent)
        requires
            old(self).counted(*event).0 <= i64::MAX,
            old(self).counted(*event).1 <= i64::MAX,
        ensures
            final(self).admitted == old(self).counted(*event).0,
            final(self).rejected == old(self).counted(*event).1,
    {
        match event {
            UnitEvent::Enqueued => {
                self.admitted += 1;
            },
            UnitEvent::Rejected => {
                self.rejected += 1;
            },
            _ => {},
        }
    }

    /// The rate as a fraction: rejected over all decisions. Nothing where nothing
    /// was decided yet, which counts as a rate of zero.
    pub fn ratio(&self) -> (r: Option<(i64, i64)>)
        requires
            i64::MIN <= self.admitted + self.rejected <= i64::MAX,
        ensures
            r == if self.admitted + self.rejected == 0 {
                None::<(i64, i64)>
            } else {
                Some((self.rejected, (self.admitted + self.rejected) as i64))
            },
    {
        let total: i64 = self.admitted + self.rejected;
        if total == 0 {
            None
        } else {
            Some((self.rejected, total))
        }
    }
}

// ---------------------------------------------------------------------- laws

/// An accepted escalation moves the unit one rung up and never past the top, and
/// at the top it is refused: a unit escalates at most `max_ladder` times.
pub proof fn law_escalation_is_bounded(s: UnitState, max_ladder: u32)
    requires
        s.ladder <= max_ladder,
    ensures
        match s.decided(UnitCommand::Escalate { max_ladder }) {
            Ok(events) => {
                &&& events.len() == 1
                &&& s.evolved(events[0]).ladder == s.ladder + 1
                &&& s.evolved(events[0]).ladder <= max_ladder
                &&& s.evolved(events[0]).state == Lifecycle::Queued
            },
            Err(rule) => rule == "inv-ladder-exhausted"@ && s.ladder == max_ladder,
        },
{
}

/// A unit that was admitted can be reordered; one that was halted or rejected cannot.
pub proof fn law_only_queued_units_move(s: UnitState)
    ensures
        s.evolved(UnitEvent::Enqueued).decided(UnitCommand::Reprioritize) is Ok,
        s.evolved(UnitEvent::Halted).decided(UnitCommand::Reprioritize) is Err,
        s.evolved(UnitEvent::Rejected).decided(UnitCommand::Reprioritize) is Err,
{
}

/// A unit is enqueued only where it is homogeneous, moved only while it is queued,
/// and raised only while its ladder has headroom; each leaves it queued, and only a
/// raise changes its rung.
pub proof fn law_a_unit_moves_by_its_rules(s: UnitState, homogeneous: bool, max_ladder: u32)
    ensures
        match s.decided(UnitCommand::Admit { homogeneous }) {
            Ok(events) => homogeneous && events == seq![UnitEvent::Enqueued],
            Err(rule) => !homogeneous && rule == "inv-binding-homogeneity"@,
        },
        match s.decided(UnitCommand::Reprioritize) {
            Ok(events) => s.state == Lifecycle::Queued && events == seq![UnitEvent::Reprioritized],
            Err(rule) => s.state != Lifecycle::Queued && rule == "inv-only-queued-reorderable"@,
        },
        match s.decided(UnitCommand::Escalate { max_ladder }) {
            Ok(events) => s.ladder < max_ladder && events == seq![UnitEvent::Escalated],
            Err(rule) => s.ladder >= max_ladder && rule == "inv-ladder-exhausted"@,
        },
        s.evolved(UnitEvent::Enqueued).state == Lifecycle::Queued,
        s.evolved(UnitEvent::Reprioritized) == (UnitState {
            state: Lifecycle::Queued,
            ladder: s.ladder,
        }),
        s.evolved(UnitEvent::Rejected).state == Lifecycle::Rejected,
        s.evolved(UnitEvent::Halted).state == Lifecycle::Failed,
        s.evolved(UnitEvent::Enqueued).ladder == s.ladder,
        s.evolved(UnitEvent::Rejected).ladder == s.ladder,
        s.evolved(UnitEvent::Halted).ladder == s.ladder,
{
}

/// A unit that breaks no rule is enqueued; any other is kept out under the rule
/// that it breaks.
pub proof fn law_admission_follows_the_rules(unit: WorkUnit)
    ensures
        admission(unit) is Ok <==> unit.fault() is None,
        unit.fault() is None ==> admission(unit)->Ok_0 == seq![UnitEvent::Enqueued],
        unit.fault() matches Some(rule) ==> admission(unit)->Err_0 == rule,
{
}

/// The counts move by one for each unit: the queue grows with what is enqueued and
/// with what is escalated, and every decision is counted once.
pub proof fn law_every_event_is_counted_once(v: HeterogeneityRateView, e: UnitEvent)
    ensures
        queue_growth(UnitEvent::Enqueued) == 1,
        queue_growth(UnitEvent::Escalated) == 1,
        queue_growth(UnitEvent::Reprioritized) == 0,
        queue_growth(UnitEvent::Rejected) == 0,
        queue_growth(UnitEvent::Halted) == 0,
        v.counted(UnitEvent::Enqueued) == (v.admitted + 1, v.rejected as int),
        v.counted(UnitEvent::Rejected) == (v.admitted as int, v.rejected + 1),
        e != UnitEvent::Enqueued && e != UnitEvent::Rejected ==> v.counted(e) == (
            v.admitted as int,
            v.rejected as int,
        ),
{
}

} // verus!
