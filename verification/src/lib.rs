//! The deterministic core of an agent harness for small language models: what
//! an action may be, what a runbook step authorizes, the grammar a step
//! compiles to, the validator that enforces the step contract, and the rules
//! of the event log.

pub mod action;
pub mod event;
pub mod grammar;
pub mod language;
pub mod listing;
pub mod path;
pub mod reject;
pub mod runbook;
pub mod sampling;
pub mod scope;
pub mod store;
pub mod text;
pub mod validate;
pub mod verdicts;
