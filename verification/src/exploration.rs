//! The local explorer. It is active only while the box is in explorer mode, and
//! its product is a discovery record, never accepted work.
use vstd::prelude::*;

use crate::decider::{one, outcome};
use crate::switch::Mode;

verus! {

#[derive(Clone, Copy, Debug, PartialEq, Eq, Structural)]
pub enum Phase {
    Idle,
    Active,
    Complete,
}

#[derive(Clone, Debug, PartialEq, Eq, Structural)]
pub enum SessionEvent {
    ExplorationStarted,
    DiscoveryRecordProduced,
}

#[derive(Clone, Debug, PartialEq, Eq, Structural)]
pub enum SessionCommand {
    Start { box_mode: Mode },
    ProduceDiscoveryRecord,
}

#[derive(Clone, Debug, PartialEq, Eq, Structural)]
pub struct SessionState {
    pub phase: Phase,
}

impl Default for SessionState {
    fn default() -> (r: Self)
        ensures
            r.phase == Phase::Idle,
    {
        SessionState { phase: Phase::Idle }
    }
}

impl SessionState {
    pub open spec fn evolved(self, event: SessionEvent) -> SessionState {
        match event {
            SessionEvent::ExplorationStarted => SessionState { phase: Phase::Active },
            SessionEvent::DiscoveryRecordProduced => SessionState { phase: Phase::Complete },
        }
    }

    pub open spec fn decided(self, command: SessionCommand) -> Result<
        Seq<SessionEvent>,
        Seq<char>,
    > {
        match command {
            SessionCommand::Start { box_mode } => if box_mode == Mode::Explorer {
                Ok(seq![SessionEvent::ExplorationStarted])
            } else {
                Err("inv-box-must-be-explorer"@)
            },
            SessionCommand::ProduceDiscoveryRecord => if self.phase == Phase::Active {
                Ok(seq![SessionEvent::DiscoveryRecordProduced])
            } else {
                Err("inv-session-not-active"@)
            },
        }
    }

    pub fn evolve(&mut self, event: &SessionEvent)
        ensures
            *final(self) == old(self).evolved(*event),
    {
        match event {
            SessionEvent::ExplorationStarted => {
                self.phase = Phase::Active;
            },
            SessionEvent::DiscoveryRecordProduced => {
                self.phase = Phase::Complete;
            },
        }
    }

    /// A session starts only in explorer mode, and a record comes only of an
    /// active session.
    pub fn decide(&self, command: &SessionCommand) -> (r: Result<Vec<SessionEvent>, &'static str>)
        ensures
            outcome(r) == self.decided(*command),
    {
        match command {
            SessionCommand::Start { box_mode } => {
                if *box_mode == Mode::Explorer {
                    Ok(one(SessionEvent::ExplorationStarted))
                } else {
                    Err("inv-box-must-be-explorer")
                }
            },
            SessionCommand::ProduceDiscoveryRecord => {
                if self.phase == Phase::Active {
                    Ok(one(SessionEvent::DiscoveryRecordProduced))
                } else {
                    Err("inv-session-not-active")
                }
            },
        }
    }
}

/// A session gives one record: once it has, it gives no other until it is
/// started again.
pub proof fn law_a_session_gives_one_record(s: SessionState)
    requires
        s.decided(SessionCommand::ProduceDiscoveryRecord) is Ok,
    ensures
        s.evolved(s.decided(SessionCommand::ProduceDiscoveryRecord)->Ok_0[0]).decided(
            SessionCommand::ProduceDiscoveryRecord,
        ) == Err::<Seq<SessionEvent>, Seq<char>>("inv-session-not-active"@),
{
}

/// A session starts in explorer mode only, and yields a record only while it is
/// active; either leads into the next phase.
pub proof fn law_a_session_runs_by_its_rules(s: SessionState, mode: Mode)
    ensures
        match s.decided(SessionCommand::Start { box_mode: mode }) {
            Ok(events) => mode == Mode::Explorer && events.len() == 1 && s.evolved(events[0]).phase
                == Phase::Active,
            Err(rule) => mode != Mode::Explorer && rule == "inv-box-must-be-explorer"@,
        },
        match s.decided(SessionCommand::ProduceDiscoveryRecord) {
            Ok(events) => s.phase == Phase::Active && events.len() == 1 && s.evolved(
                events[0],
            ).phase == Phase::Complete,
            Err(rule) => s.phase != Phase::Active && rule == "inv-session-not-active"@,
        },
{
}

} // verus!
