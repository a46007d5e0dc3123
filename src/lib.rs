//! A compiler and runtime for a small state-machine definition language.
//!
//! A definition names a machine, its initial state, optionally an event payload type and an
//! unexpected-event handler, and a list of states, each with optional entry and exit hooks and
//! transition lines `event [guard] == action => target`. [`statemachine`] reads and checks such a
//! text and resolves it into a [`Definition`]; a [`Machine`] runs a definition against a
//! [`Handler`] that implements the guards, actions and hooks it names.
use vstd::prelude::*;

pub mod compiler;
pub mod engine;
pub mod error;
pub mod laws;
pub mod lexer;
pub mod model;
pub mod seqs;
pub mod syntax;
pub mod validate;

pub use compiler::statemachine;
pub use engine::{Event, Handler, Machine, Outbox, Step, Transition, plan};
pub use error::{DefError, ErrorKind};
pub use model::{Definition, Options, Rule, StateDef};

verus! {

} // verus!
