use vstd::prelude::*;

verus! {

/// What is wrong with a machine definition.
#[derive(Clone, Copy, Debug, PartialEq, Eq, Structural)]
pub enum ErrorKind {
    /// A character that starts no token.
    UnexpectedChar,
    /// A token where the grammar allows none of its kind, or the text ends early.
    Syntax,
    /// An option name outside the four that are recognised.
    UnknownOption,
    /// A state declared a second time.
    DuplicateState,
    /// A guarded rule below the unguarded rule for the same event in the same state.
    GuardAfterFallback,
    /// Two rules of one state with the same event and the same guard (or both without one).
    DuplicateTrigger,
    /// A rule whose target is no declared state.
    UndefinedTarget,
    /// An initial state that is no declared state.
    UndefinedInitialState,
}

/// The explanation given for each kind of error.
pub open spec fn message_of(k: ErrorKind) -> Seq<char> {
    match k {
        ErrorKind::UnexpectedChar => "unexpected character"@,
        ErrorKind::Syntax => "unexpected token or end of definition"@,
        ErrorKind::UnknownOption => "unknown option identifier; supported options are action_handler_with_transition_info, entry_handler_with_transition_info, exit_handler_with_transition_info and guard_with_transition_info"@,
        ErrorKind::DuplicateState => "duplicate state definition"@,
        ErrorKind::GuardAfterFallback => "guarded event found after unguarded event trigger; unguarded event triggers must come after all guarded triggers of the same event"@,
        ErrorKind::DuplicateTrigger => "duplicate event/guard trigger combination"@,
        ErrorKind::UndefinedTarget => "target state is not defined"@,
        ErrorKind::UndefinedInitialState => "initial state is not defined"@,
    }
}

impl ErrorKind {
    /// A human-readable explanation of the error.
    pub fn message(&self) -> (r: &'static str)
        ensures
            r@ == message_of(*self),
    {
        match self {
            ErrorKind::UnexpectedChar => "unexpected character",
            ErrorKind::Syntax => "unexpected token or end of definition",
            ErrorKind::UnknownOption => "unknown option identifier; supported options are action_handler_with_transition_info, entry_handler_with_transition_info, exit_handler_with_transition_info and guard_with_transition_info",
            ErrorKind::DuplicateState => "duplicate state definition",
            ErrorKind::GuardAfterFallback => "guarded event found after unguarded event trigger; unguarded event triggers must come after all guarded triggers of the same event",
            ErrorKind::DuplicateTrigger => "duplicate event/guard trigger combination",
            ErrorKind::UndefinedTarget => "target state is not defined",
            ErrorKind::UndefinedInitialState => "initial state is not defined",
        }
    }
}

/// A definition-time error: its kind and the character offset in the source text
/// of the token it concerns (the length of the text where the text ended early).
#[derive(Clone, Copy, Debug, PartialEq, Eq, Structural)]
pub struct DefError {
    pub kind: ErrorKind,
    pub pos: usize,
}

} // verus!
