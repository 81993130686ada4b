//! The steps of the publish protocol.

use crate::broker::BrokerError;
use vstd::prelude::*;

verus! {

/// Where the publisher stands in the protocol for the batch at the front of
/// its ready queue.
#[derive(Clone, Copy, Debug, PartialEq, Eq, Structural)]
pub enum SendState {
    /// Register as a transactional producer.
    Init,
    /// Open a transaction.
    BeginTxn,
    /// Write the marker that opens the batch.
    Begin,
    /// Send the rows of the batch.
    Draining {
        /// The row being sent.
        row_index: usize,
        /// How many copies of that row have been sent.
        repeat_counter: usize,
        /// How many messages have been sent for the batch.
        total_sent: i64,
    },
    /// Write the marker that closes the batch; it carries the number of
    /// messages sent.
    End(i64),
    /// Commit the transaction.
    CommitTxn,
    /// Abort the transaction after an error that asks for it.
    AbortTxn,
    /// The sink is to be closed.
    Shutdown,
}

impl SendState {
    /// The state after a transactional call failed with `error`: abort where
    /// the error asks for it, stay where it can be retried, shut down
    /// otherwise.
    pub open spec fn after_txn_error(self, error: BrokerError) -> SendState {
        match error {
            BrokerError::Transaction { requires_abort, retriable } => {
                if requires_abort {
                    SendState::AbortTxn
                } else if retriable {
                    self
                } else {
                    SendState::Shutdown
                }
            },
            _ => SendState::Shutdown,
        }
    }
}

/// Picks the state that follows a failed transactional call.
pub fn transition_on_txn_error(current_state: SendState, error: BrokerError) -> (next: SendState)
    ensures
        next == current_state.after_txn_error(error),
{
    match error {
        BrokerError::Transaction { requires_abort, retriable } => {
            if requires_abort {
                SendState::AbortTxn
            } else if retriable {
                current_state
            } else {
                SendState::Shutdown
            }
        },
        _ => SendState::Shutdown,
    }
}

} // verus!
