use vstd::prelude::*;

verus! {

/// Why a request could not be answered.
#[derive(Debug, Clone, Copy, PartialEq, Eq, Structural)]
pub enum AgentError {
    /// An identifier text is empty or holds a piece that is not a component.
    MalformedIdentifier,
    /// The command line names no known command.
    UnknownCommand,
    /// Two records of one snapshot would share an identifier.
    DuplicateIdentifier,
    /// More objects were reported than row numbers can address.
    TooManyObjects,
}

impl AgentError {
    /// A short description for the error channel.
    pub fn message(&self) -> &'static str {
        match self {
            AgentError::MalformedIdentifier => "malformed identifier",
            AgentError::UnknownCommand => "unknown command",
            AgentError::DuplicateIdentifier => "duplicate identifier in snapshot",
            AgentError::TooManyObjects => "too many objects for one snapshot",
        }
    }
}

} // verus!
