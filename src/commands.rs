//! The command and response protocol between the engine and its nodes, and
//! the engine's decisions on what a node answers.
use vstd::prelude::*;
use crate::diff_spec::{diff_empty, model_diff};
use crate::model::{Model, ModelDiff};

verus! {

/// How a conflict between a node's stored model and its foreign source is settled.
#[derive(Debug, PartialEq, Eq, Structural)]
pub enum ConflictResolutions {
    /// Keep the stored model and push it to the foreign source.
    KeepRep,
    /// Replace the stored model by the foreign source's current state.
    UpdateRep,
}

pub enum NodeCommands {
    /// Signals a node to start.
    Start,
    /// Signals a node to stop.
    Stop,
    /// Signals a node that the engine changed its model on disk; not sent
    /// when a round left the node unchanged.
    Changed(ModelDiff),
    /// Signals a node that the engine has finished translating into it.
    Done,
    /// Signals a node to settle its conflict in the given way.
    ResolveConflict(ConflictResolutions),
}

pub enum NodeResponses {
    /// The node started and runs.
    Started,
    /// The node's stored model and its foreign source disagree.
    Conflict(ModelDiff),
    /// The node stopped.
    Stopped,
    /// The node finished the side effects of a `Changed` command.
    Done(std::time::Duration),
    /// The node finished the side effects of a `ResolveConflict` command.
    ConflictResolved(std::time::Duration),
}

/// What the engine does with a node's answer to `Start`.
pub enum StartupStep {
    /// The node runs: load its model and go on.
    Proceed,
    /// The node must settle a conflict before the rounds begin.
    Resolve(ModelDiff),
    /// Any other answer is fatal.
    Fatal,
}

/// The engine's reading of a node's answer to `Start`.
pub fn startup_step(response: NodeResponses) -> (r: StartupStep)
    ensures
        response is Started ==> r is Proceed,
        response is Conflict ==> (r matches StartupStep::Resolve(d) && d@ == response->Conflict_0@),
        !(response is Started) && !(response is Conflict) ==> r is Fatal,
{
    match response {
        NodeResponses::Started => StartupStep::Proceed,
        NodeResponses::Conflict(diff) => StartupStep::Resolve(diff),
        _ => StartupStep::Fatal,
    }
}

/// Whether an answer counts toward the close-out of a round: only `Done` does.
pub fn is_done(response: &NodeResponses) -> (r: bool)
    ensures
        r == (response is Done),
{
    match response {
        NodeResponses::Done(_) => true,
        _ => false,
    }
}

/// The answer of a node whose model file is its own foreign source: it
/// starts and stops at once, reports a change as done after `elapsed`
/// (it has no side effects), and does not answer `Done` or a conflict
/// resolution.
pub fn local_file_reply(command: &NodeCommands, elapsed: std::time::Duration) -> (r: Option<NodeResponses>)
    ensures
        command is Start ==> r matches Some(NodeResponses::Started),
        command is Stop ==> r matches Some(NodeResponses::Stopped),
        command is Changed ==> r == Some(NodeResponses::Done(elapsed)),
        command is Done || command is ResolveConflict ==> r is None,
{
    match command {
        NodeCommands::Start => Some(NodeResponses::Started),
        NodeCommands::Stop => Some(NodeResponses::Stopped),
        NodeCommands::Changed(_) => Some(NodeResponses::Done(elapsed)),
        NodeCommands::Done => None,
        NodeCommands::ResolveConflict(_) => None,
    }
}

/// The answer to `Start` of a node that holds a stored model and has read
/// its foreign source: their difference as a conflict when they differ,
/// else `Started`.
pub fn start_reply(stored: &Model, foreign: &Model) -> (r: NodeResponses)
    ensures
        diff_empty(model_diff(stored@, foreign@)) ==> r is Started,
        !diff_empty(model_diff(stored@, foreign@)) ==> (r matches NodeResponses::Conflict(d) && d@ == model_diff(
            stored@,
            foreign@,
        )),
{
    let diff = stored.diff(foreign);
    if diff.is_empty() {
        NodeResponses::Started
    } else {
        NodeResponses::Conflict(diff)
    }
}

} // verus!
