//! Kiln: a verified execution core for autonomous development work.
//!
//! A frozen unit of work comes in by value ([`interface`], [`admission`]), passes
//! the guard of the queue ([`queue`]) and is drained by the engine ([`executor`]):
//! walked against an oracle ([`execution`]), or run in isolation ([`drain`]), and
//! answered with a verdict. Every aggregate is a decider, which answers a command
//! with events or with the id of the rule that refuses it ([`decider`]).

pub mod admission;
pub mod artifact;
pub mod chat;
pub mod cli;
pub mod decider;
pub mod delivery;
pub mod drain;
pub mod execution;
pub mod executor;
pub mod exploration;
pub mod hash;
pub mod host;
pub mod interface;
pub mod json;
pub mod oracle;
pub mod order;
pub mod queue;
pub mod report;
pub mod sandbox;
pub mod serving;
pub mod sorted;
pub mod stream;
pub mod switch;
pub mod text;
