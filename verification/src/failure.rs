//! What went wrong when a step of a realization failed.
//!
//! A failure ends the realization that it occurs in; nothing is retried
//! beyond the bounded retry that connecting a sender includes. The error
//! carries the stage that failed with its address or file, so that a caller
//! can tell a peer that could not be reached from a file that could not be
//! opened.

use crate::schema::Addr;
use crate::wiring::{Step, StepModel};
use vstd::prelude::*;

verus! {

/// What the collaborator that carried out a step reported.
#[derive(Debug, PartialEq, Eq)]
pub enum Fault {
    /// The operation itself failed; the text is the collaborator's own
    /// description.
    Failed(String),
    /// The subscription or registration at the end of the step was refused.
    Refused,
}

/// The kinds of failure.
#[derive(Clone, Copy, Debug, PartialEq, Eq, Structural)]
pub enum ErrorKind {
    /// The engine did not start.
    EngineStart,
    /// A remote node could not be connected to within the timeout.
    Connection,
    /// A file or a socket could not be opened.
    Io,
    /// A collaborator refused a subscription or a registration.
    Subscription,
}

/// The stage of a realization, with the address or file that it is about.
#[derive(Debug, PartialEq, Eq)]
pub enum Stage {
    Engine,
    Sender(Addr),
    Sink(String),
    Mux,
    Receiver(Addr),
    Source(String),
}

/// The failure of one step of a realization.
#[derive(Debug, PartialEq, Eq)]
pub struct RealizeError {
    pub kind: ErrorKind,
    pub stage: Stage,
    /// The collaborator's description, empty where it gave none.
    pub detail: String,
}

/// A fault as a mathematical value.
pub enum FaultModel {
    Failed(Seq<char>),
    Refused,
}

/// A stage as a mathematical value.
pub enum StageModel {
    Engine,
    Sender(Addr),
    Sink(Seq<char>),
    Mux,
    Receiver(Addr),
    Source(Seq<char>),
}

/// An error as a mathematical value.
pub struct ErrorModel {
    pub kind: ErrorKind,
    pub stage: StageModel,
    pub detail: Seq<char>,
}

impl View for Fault {
    type V = FaultModel;

    open spec fn view(&self) -> FaultModel {
        match self {
            Fault::Failed(detail) => FaultModel::Failed(detail@),
            Fault::Refused => FaultModel::Refused,
        }
    }
}

impl View for Stage {
    type V = StageModel;

    open spec fn view(&self) -> StageModel {
        match self {
            Stage::Engine => StageModel::Engine,
            Stage::Sender(addr) => StageModel::Sender(*addr),
            Stage::Sink(path) => StageModel::Sink(path@),
            Stage::Mux => StageModel::Mux,
            Stage::Receiver(addr) => StageModel::Receiver(*addr),
            Stage::Source(path) => StageModel::Source(path@),
        }
    }
}

impl View for RealizeError {
    type V = ErrorModel;

    open spec fn view(&self) -> ErrorModel {
        ErrorModel { kind: self.kind, stage: self.stage@, detail: self.detail@ }
    }
}

/// The stage that a step belongs to.
pub open spec fn stage_of(step: StepModel) -> StageModel {
    match step {
        StepModel::StartEngine { .. } => StageModel::Engine,
        StepModel::ConnectSender { addr, .. } => StageModel::Sender(addr),
        StepModel::OpenSink { path, .. } => StageModel::Sink(path),
        StepModel::CreateMux => StageModel::Mux,
        StepModel::BindReceiver { addr } => StageModel::Receiver(addr),
        StepModel::OpenSource { path } => StageModel::Source(path),
    }
}

/// The kind of failure that a fault in a step amounts to. A refusal is a
/// subscription error wherever it occurs; otherwise the stage decides: the
/// engine fails to start, a sender fails to connect, the multiplexer can
/// only refuse, and everything else is input or output.
pub open spec fn kind_of(step: StepModel, fault: FaultModel) -> ErrorKind {
    match step {
        StepModel::StartEngine { .. } => ErrorKind::EngineStart,
        StepModel::CreateMux => ErrorKind::Subscription,
        StepModel::ConnectSender { .. } => match fault {
            FaultModel::Failed(_) => ErrorKind::Connection,
            FaultModel::Refused => ErrorKind::Subscription,
        },
        _ => match fault {
            FaultModel::Failed(_) => ErrorKind::Io,
            FaultModel::Refused => ErrorKind::Subscription,
        },
    }
}

/// The description that a fault comes with.
pub open spec fn detail_of(fault: FaultModel) -> Seq<char> {
    match fault {
        FaultModel::Failed(detail) => detail,
        FaultModel::Refused => Seq::<char>::empty(),
    }
}

/// The error that a fault in a step is reported as.
pub open spec fn failure_of(step: StepModel, fault: FaultModel) -> ErrorModel {
    ErrorModel { kind: kind_of(step, fault), stage: stage_of(step), detail: detail_of(fault) }
}

/// Reports a fault in `step` as an error that names the stage, with its
/// address or file, and the kind of failure.
pub fn failure(step: &Step, fault: Fault) -> (error: RealizeError)
    ensures
        error@ == failure_of(step@, fault@),
{
    let refused = match &fault {
        Fault::Failed(_) => false,
        Fault::Refused => true,
    };
    let (kind, stage) = match step {
        Step::StartEngine { .. } => (ErrorKind::EngineStart, Stage::Engine),
        Step::ConnectSender { addr, .. } => (
            if refused {
                ErrorKind::Subscription
            } else {
                ErrorKind::Connection
            },
            Stage::Sender(*addr),
        ),
        Step::OpenSink { path, .. } => (
            if refused {
                ErrorKind::Subscription
            } else {
                ErrorKind::Io
            },
            Stage::Sink(path.clone()),
        ),
        Step::CreateMux => (ErrorKind::Subscription, Stage::Mux),
        Step::BindReceiver { addr } => (
            if refused {
                ErrorKind::Subscription
            } else {
                ErrorKind::Io
            },
            Stage::Receiver(*addr),
        ),
        Step::OpenSource { path } => (
            if refused {
                ErrorKind::Subscription
            } else {
                ErrorKind::Io
            },
            Stage::Source(path.clone()),
        ),
    };
    let detail = match fault {
        Fault::Failed(detail) => detail,
        Fault::Refused => String::new(),
    };
    RealizeError { kind, stage, detail }
}

} // verus!
