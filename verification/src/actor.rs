//! The decision core of the network actor. The actor owns the network
//! stack alone and loops over two inbound sources — its command queue and
//! the stack's event stream, whichever is ready first. What to do with
//! each arrival is decided here, as a pure function from input to action;
//! the loop that awaits, performs the action and replies lives with the
//! runtime, outside the library.

use vstd::prelude::*;
use crate::query::Query;

verus! {

/// Configuration of one search. The stack's own defaults apply.
pub struct SearchConfig {
    /// How many peers a query is forwarded to at each hop.
    pub fan_out: usize,
}

impl Default for SearchConfig {
    /// The default fan-out.
    fn default() -> (r: SearchConfig)
        ensures
            r.fan_out == 3,
    {
        SearchConfig { fan_out: 3 }
    }
}

/// A one-shot instruction to the network actor: run this search and hand
/// back a live result stream. Constructed once per submission and
/// consumed exactly once by the actor.
pub struct SearchCommand {
    pub query: Query,
    pub config: SearchConfig,
}

/// The submission or its reply failed because the actor has stopped.
/// Recoverable: the caller may retry with a fresh submission.
#[derive(Clone, Copy, Debug, PartialEq, Eq, Structural)]
pub enum SubmitError {
    ActorUnavailable,
}

/// One arrival at the actor: a command, the news that no commands can
/// come any more, or an event of the network stack.
pub enum ActorInput {
    /// A command from the inbound queue.
    Command(SearchCommand),
    /// The command queue closed: every sender is gone.
    Closed,
    /// An event of the network stack, rendered as text for the log.
    NetworkEvent(String),
}

/// What the actor does with one arrival.
pub enum ActorAction {
    /// Invoke the stack's search with the command's query and
    /// configuration, and reply with the stream handle.
    StartSearch(SearchCommand),
    /// Leave the loop: the actor shuts down.
    Stop,
    /// Log the event text and keep looping.
    Log(String),
}

/// Decides one step of the actor loop: a command starts that search, a
/// closed queue stops the actor, and a network event is only logged.
pub fn actor_step(input: ActorInput) -> (r: ActorAction)
    ensures
        match input {
            ActorInput::Command(cmd) => r == ActorAction::StartSearch(cmd),
            ActorInput::Closed => r == ActorAction::Stop,
            ActorInput::NetworkEvent(e) => r == ActorAction::Log(e),
        },
{
    match input {
        ActorInput::Command(cmd) => ActorAction::StartSearch(cmd),
        ActorInput::Closed => ActorAction::Stop,
        ActorInput::NetworkEvent(e) => ActorAction::Log(e),
    }
}

} // verus!
