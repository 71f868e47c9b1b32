//! A small runtime for inline terminal programs.
//!
//! The heart of the crate is [`runtime`]: an event-loop state machine that
//! merges periodic redraw ticks, a message/print channel fed by a background
//! task, and an interrupt signal into one ordered stream of inputs, and says
//! for each input exactly what the loop must do.  [`paths`] is the directory
//! layout of the sandboxed build job the runtime was written to drive.

pub mod paths;
pub mod runtime;
