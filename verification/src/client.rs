//! The traveller's side: the connect-retry policy.
//!
//! Establishing the transport connection belongs to the caller; the
//! library fixes the policy of the startup retry loop: while the remote
//! end actively refuses (the listener not yet bound), wait a fixed
//! short delay and try again; treat every other failure as fatal; stop
//! as soon as a connection stands.

use vstd::prelude::*;

verus! {

/// How long to wait between connection attempts, in milliseconds.
pub const RETRY_DELAY_MS: u64 = 10;

/// What one connection attempt came to.
#[derive(Clone, Copy, Debug, PartialEq, Eq, Structural)]
pub enum ConnectOutcome {
    /// The connection stands.
    Connected,
    /// The remote end actively refused; it may simply not be bound yet.
    Refused,
    /// Any other transport failure.
    Failed,
}

/// What the retry loop does next.
#[derive(Clone, Copy, Debug, PartialEq, Eq, Structural)]
pub enum ConnectStep {
    /// Use the connection; the loop is over.
    Done,
    /// Wait [`RETRY_DELAY_MS`] and try again.
    RetryAfterDelay,
    /// Give up: the failure is fatal to the caller.
    Abort,
}

/// Someone looking for answers.
pub struct Traveller {}

impl Traveller {
    /// The next step of the connect-retry loop after one attempt:
    /// retry only on an active refusal, keep a standing connection,
    /// and treat everything else as fatal. The loop never gives up on
    /// refusals — it assumes a controlled startup race.
    pub fn connect_step(outcome: &ConnectOutcome) -> (r: ConnectStep)
        ensures
            r == ConnectStep::Done <==> *outcome == ConnectOutcome::Connected,
            r == ConnectStep::RetryAfterDelay <==> *outcome == ConnectOutcome::Refused,
            r == ConnectStep::Abort <==> *outcome == ConnectOutcome::Failed,
    {
        match outcome {
            ConnectOutcome::Connected => ConnectStep::Done,
            ConnectOutcome::Refused => ConnectStep::RetryAfterDelay,
            ConnectOutcome::Failed => ConnectStep::Abort,
        }
    }
}

} // verus!
