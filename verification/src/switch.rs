//! The developer switch. The box has exactly one mode at a time.
use vstd::prelude::*;

use crate::decider::{one, outcome};

verus! {

/// The box configuration. `Off` is the cold state before any switch is thrown.
#[derive(Clone, Copy, Debug, PartialEq, Eq, Structural)]
pub enum Mode {
    Off,
    Queue,
    Explorer,
}

impl Default for Mode {
    fn default() -> (r: Self)
        ensures
            r == Mode::Off,
    {
        Mode::Off
    }
}

#[derive(Clone, Debug, PartialEq, Eq, Structural)]
pub enum BoxEvent {
    ModeChanged { mode: Mode },
}

#[derive(Clone, Debug, PartialEq, Eq, Structural)]
pub enum BoxCommand {
    ThrowSwitch { mode: Mode },
}

/// The state that the box events fold into.
#[derive(Clone, Debug, PartialEq, Eq, Structural)]
pub struct BoxState {
    pub mode: Mode,
}

impl Default for BoxState {
    fn default() -> (r: Self)
        ensures
            r.mode == Mode::Off,
    {
        BoxState { mode: Mode::Off }
    }
}

impl BoxState {
    pub open spec fn evolved(self, event: BoxEvent) -> BoxState {
        match event {
            BoxEvent::ModeChanged { mode } => BoxState { mode },
        }
    }

    pub open spec fn decided(self, command: BoxCommand) -> Result<Seq<BoxEvent>, Seq<char>> {
        match command {
            BoxCommand::ThrowSwitch { mode } => if mode != self.mode {
                Ok(seq![BoxEvent::ModeChanged { mode }])
            } else {
                Err("inv-distinct-mode"@)
            },
        }
    }

    pub fn evolve(&mut self, event: &BoxEvent)
        ensures
            *final(self) == old(self).evolved(*event),
    {
        match event {
            BoxEvent::ModeChanged { mode } => {
                self.mode = *mode;
            },
        }
    }

    /// Throwing the switch to the resident mode is refused; any other throw loads
    /// the new residency.
    pub fn decide(&self, command: &BoxCommand) -> (r: Result<Vec<BoxEvent>, &'static str>)
        ensures
            outcome(r) == self.decided(*command),
    {
        match command {
            BoxCommand::ThrowSwitch { mode } => {
                if *mode != self.mode {
                    Ok(one(BoxEvent::ModeChanged { mode: *mode }))
                } else {
                    Err("inv-distinct-mode")
                }
            },
        }
    }
}

/// The box's current residency.
#[derive(Clone, Debug, PartialEq, Eq, Structural)]
pub struct BoxStatusView {
    pub mode: Mode,
}

impl Default for BoxStatusView {
    fn default() -> (r: Self)
        ensures
            r.mode == Mode::Off,
    {
        BoxStatusView { mode: Mode::Off }
    }
}

impl BoxStatusView {
    pub fn apply(&mut self, event: &BoxEvent)
        ensures
            final(self).mode == event->mode,
    {
        match event {
            BoxEvent::ModeChanged { mode } => {
                self.mode = *mode;
            },
        }
    }
}

/// A throw that is accepted makes its mode the resident one, and throwing the
/// switch there again is then refused.
pub proof fn law_an_accepted_throw_cannot_be_repeated(s: BoxState, mode: Mode)
    requires
        s.decided(BoxCommand::ThrowSwitch { mode }) is Ok,
    ensures
        s.evolved(s.decided(BoxCommand::ThrowSwitch { mode })->Ok_0[0]).mode == mode,
        s.evolved(s.decided(BoxCommand::ThrowSwitch { mode })->Ok_0[0]).decided(
            BoxCommand::ThrowSwitch { mode },
        ) == Err::<Seq<BoxEvent>, Seq<char>>("inv-distinct-mode"@),
{
}

/// The switch can be thrown to every mode but the resident one, and the box is then
/// in the mode that was asked for.
pub proof fn law_the_switch_leads_to_the_mode_asked_for(s: BoxState, mode: Mode)
    ensures
        match s.decided(BoxCommand::ThrowSwitch { mode }) {
            Ok(events) => s.mode != mode && events.len() == 1 && s.evolved(events[0]).mode == mode,
            Err(rule) => s.mode == mode && rule == "inv-distinct-mode"@,
        },
{
}

} // verus!
