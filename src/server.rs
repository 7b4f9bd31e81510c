use crate::protocol::{into_response, KvsEngine, Request, Response};
use vstd::prelude::*;

verus! {

/// How long the accept loop waits, in milliseconds, when no connection is
/// pending.
pub const ACCEPT_RETRY_MS: u64 = 1;

/// What one non-blocking accept on the listening socket gave.
#[derive(Clone, Copy, PartialEq, Eq, Debug)]
pub enum AcceptOutcome {
    /// A client connected.
    Connection,
    /// No connection was pending.
    WouldBlock,
    /// The accept failed otherwise.
    Failed,
}

/// What the accept loop does next.
#[derive(Clone, Copy, PartialEq, Eq, Debug)]
pub enum AcceptStep {
    /// Hand the connection to a worker of the pool, then accept again.
    Dispatch,
    /// Leave the loop: the server shuts down.
    Stop,
    /// Wait this many milliseconds, then accept again.
    Sleep(u64),
    /// Report the failure, then accept again.
    Continue,
}

/// The accept loop's decision after one accept.  A shutdown is noticed when no
/// connection is pending, so connections already waiting are still served.
pub fn next_accept_step(outcome: AcceptOutcome, shutdown_requested: bool) -> (r: AcceptStep)
    ensures
        outcome is Connection ==> r is Dispatch,
        outcome is WouldBlock ==> (shutdown_requested <==> r is Stop) && (!shutdown_requested
            ==> r == AcceptStep::Sleep(ACCEPT_RETRY_MS)),
        outcome is Failed ==> r is Continue,
{
    match outcome {
        AcceptOutcome::Connection => AcceptStep::Dispatch,
        AcceptOutcome::WouldBlock => {
            if shutdown_requested {
                AcceptStep::Stop
            } else {
                AcceptStep::Sleep(ACCEPT_RETRY_MS)
            }
        },
        AcceptOutcome::Failed => AcceptStep::Continue,
    }
}

/// Serves one request: a `Put` goes to `set`, a `Get` to `get`, a `Remove` to
/// `remove`, and the outcome becomes the response.  A `Put` or a `Remove`
/// answers with no value or with the text of its error.
pub fn handle_request<E: KvsEngine>(engine: &E, request: Request) -> (r: Response)
    ensures
        !(request is Get) ==> (r == Response::Success(None) || r is Failure),
{
    match request {
        Request::Put { key, value } => match engine.set(key, value) {
            Ok(()) => into_response(Ok(None)),
            Err(e) => into_response(Err(e)),
        },
        Request::Get { key } => into_response(engine.get(key)),
        Request::Remove { key } => match engine.remove(key) {
            Ok(()) => into_response(Ok(None)),
            Err(e) => into_response(Err(e)),
        },
    }
}

} // verus!
