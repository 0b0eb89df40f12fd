//! Error kinds of the transport and of the explorer.

use vstd::prelude::*;

verus! {

/// Failure of one transport operation.
#[derive(Clone, Copy, Debug, PartialEq, Eq, Structural)]
pub enum TransportError {
    /// The framed command does not fit the transport buffer; the bus was not touched.
    BufferOverflow,
    /// The bus rejected the transfer.
    ExecutionFailed,
}

/// Failure of a whole exploration run.
#[derive(Clone, Copy, Debug, PartialEq, Eq, Structural)]
pub enum ExplorerError {
    /// The ordering made no progress while unsent nodes remained.
    DependencyCycle,
    /// A framed command exceeds the transport buffer.
    BufferOverflow,
    /// The bus rejected a command.
    ExecutionFailed,
    /// A completed sequence did not leave the device in the expected state.
    VerificationFailed,
    /// Every candidate order was tried and none was accepted.
    SequenceIncomplete,
}

/// The explorer error that stands for a transport error.
pub open spec fn lift_error(e: TransportError) -> ExplorerError {
    match e {
        TransportError::BufferOverflow => ExplorerError::BufferOverflow,
        TransportError::ExecutionFailed => ExplorerError::ExecutionFailed,
    }
}

impl ExplorerError {
    /// Carries a transport error over to the explorer's error kinds.
    pub fn from_transport(e: TransportError) -> (r: ExplorerError)
        ensures
            r == lift_error(e),
    {
        match e {
            TransportError::BufferOverflow => ExplorerError::BufferOverflow,
            TransportError::ExecutionFailed => ExplorerError::ExecutionFailed,
        }
    }

    /// A short fixed text for the error, for diagnostic output.
    pub fn describe(&self) -> (r: &'static str)
        ensures
            r@ == explorer_error_text(*self),
    {
        match self {
            ExplorerError::DependencyCycle => "dependency cycle",
            ExplorerError::BufferOverflow => "buffer overflow",
            ExplorerError::ExecutionFailed => "execution failed",
            ExplorerError::VerificationFailed => "verification failed",
            ExplorerError::SequenceIncomplete => "sequence incomplete",
        }
    }
}

/// The text that `describe` gives for each error kind.
pub open spec fn explorer_error_text(e: ExplorerError) -> Seq<char> {
    match e {
        ExplorerError::DependencyCycle => "dependency cycle"@,
        ExplorerError::BufferOverflow => "buffer overflow"@,
        ExplorerError::ExecutionFailed => "execution failed"@,
        ExplorerError::VerificationFailed => "verification failed"@,
        ExplorerError::SequenceIncomplete => "sequence incomplete"@,
    }
}

} // verus!
