use vstd::prelude::*;

verus! {

/// Where in the message exchange something went wrong.
#[derive(Clone, Copy, Debug, PartialEq, Eq, Structural)]
pub enum MessageError {
    MasterInternalError,
    WorkerInternalError,
    MessagePassingError,
}

/// An error inside the master.
#[derive(Clone, Copy, Debug, PartialEq, Eq, Structural)]
pub enum MasterInternalError {
    ProposalError(ProposalHandlingErrors),
}

/// What can go wrong while the master handles the workers' proposals.
#[derive(Clone, Copy, Debug, PartialEq, Eq, Structural)]
pub enum ProposalHandlingErrors {
    EmptyQueue,
    ProposalProcessingError,
    ProposalFilteringError,
}

/// An error while passing messages between master and workers.
#[derive(Clone, Copy, Debug, PartialEq, Eq, Structural)]
pub enum MessagePassingError {
    BroadcastError,
    ResponseError,
}

/// A party that did not answer a broadcast.
#[derive(Clone, Copy, Debug, PartialEq, Eq, Structural)]
pub enum BroadcastError {
    UnresponsiveWorker { worker_id: u8 },
    UnresponsiveMaster,
}

/// A response that never came.
#[derive(Clone, Copy, Debug, PartialEq, Eq, Structural)]
pub enum ResponseError {
    MissedRfp,
    MissedStateUpdateConfirmation,
}

/// An error inside a worker: a generated sequence number that does not fit
/// the `i64` of a [`crate::worker_types::BroadcastMessage`].
#[derive(Clone, Copy, Debug, PartialEq, Eq, Structural)]
pub enum WorkerError {
    SequenceNumberOverflow { index: u64 },
}

} // verus!
