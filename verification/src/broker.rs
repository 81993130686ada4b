//! What the sink asks of the broker, and what the broker may answer.

use rdkafka::error::{KafkaError, RDKafkaError, RDKafkaErrorCode};
use vstd::prelude::*;

verus! {

/// rdkafka's error type, declared so that it can stand in signatures.
#[verifier::external_type_specification]
#[verifier::external_body]
pub struct ExKafkaError(KafkaError);

/// rdkafka's native error, carried by `KafkaError::Transaction`.
#[verifier::external_type_specification]
#[verifier::external_body]
pub struct ExRDKafkaError(RDKafkaError);

/// What the sink reads from a broker error.
#[derive(Clone, Copy, Debug, PartialEq, Eq, Structural)]
pub enum BrokerError {
    /// The producer's local queue is full.
    QueueFull,
    /// A transactional call failed.
    Transaction { requires_abort: bool, retriable: bool },
    /// Anything else.
    Other,
}

/// The native error inside `KafkaError::Transaction`, if `error` is one.
#[verifier::external_body]
fn transaction_error(error: &KafkaError) -> (native: Option<&RDKafkaError>) {
    match error {
        KafkaError::Transaction(native) => Some(native),
        _ => None,
    }
}

/// `RDKafkaError::txn_requires_abort`. The answer comes from the native
/// library, so nothing is claimed of it.
#[verifier::external_body]
fn native_requires_abort(native: &RDKafkaError) -> (flag: bool) {
    native.txn_requires_abort()
}

/// `RDKafkaError::is_retriable`. The answer comes from the native library, so
/// nothing is claimed of it.
#[verifier::external_body]
fn native_is_retriable(native: &RDKafkaError) -> (flag: bool) {
    native.is_retriable()
}

/// Whether `error` is `KafkaError::MessageProduction` with the code
/// `QueueFull`.
#[verifier::external_body]
fn is_queue_full(error: &KafkaError) -> (full: bool) {
    match error {
        KafkaError::MessageProduction(RDKafkaErrorCode::QueueFull) => true,
        _ => false,
    }
}

/// Reads from a `KafkaError` what the sink's error policy looks at.
pub fn broker_error(error: &KafkaError) -> (read: BrokerError) {
    // What rdkafka says of the error cannot be stated here: the error is
    // opaque, and its transaction flags come from the native library. What is
    // made of those answers is stated by `read_error`.
    let transaction = match transaction_error(error) {
        Some(native) => Some((native_requires_abort(native), native_is_retriable(native))),
        None => None,
    };
    read_error(transaction, is_queue_full(error))
}

/// What the sink makes of an error, given what rdkafka says of it:
/// `transaction` holds the flags "requires abort" and "retriable" of a
/// transaction error and is unset for any other error; `queue_full` says that
/// a message could not be produced because the local queue was full.
pub open spec fn reading(transaction: Option<(bool, bool)>, queue_full: bool) -> BrokerError {
    match transaction {
        Some((requires_abort, retriable)) => BrokerError::Transaction { requires_abort, retriable },
        None => if queue_full {
            BrokerError::QueueFull
        } else {
            BrokerError::Other
        },
    }
}

/// Sorts an error by what rdkafka says of it: a transaction error keeps its
/// two flags, a full queue is told apart from every other failure.
pub fn read_error(transaction: Option<(bool, bool)>, queue_full: bool) -> (read: BrokerError)
    ensures
        read == reading(transaction, queue_full),
{
    match transaction {
        Some((requires_abort, retriable)) => BrokerError::Transaction { requires_abort, retriable },
        None => if queue_full {
            BrokerError::QueueFull
        } else {
            BrokerError::Other
        },
    }
}

/// Which of the two consistency markers a record is.
#[derive(Clone, Copy, Debug, PartialEq, Eq, Structural)]
pub enum Marker {
    /// Opens the batch of a timestamp.
    Begin,
    /// Closes the batch of a timestamp.
    End,
}

impl Marker {
    /// The status text that the marker record carries.
    pub fn label(self) -> (text: &'static str)
        ensures
            text@ == (match self {
                Marker::Begin => "BEGIN"@,
                Marker::End => "END"@,
            }),
    {
        match self {
            Marker::Begin => "BEGIN",
            Marker::End => "END",
        }
    }
}

/// One thing asked of the broker. Rows are lent, not copied.
#[derive(Clone, Copy, Debug)]
pub enum BrokerRequest<'a> {
    /// Register as a transactional producer.
    InitTransactions,
    /// Open a transaction.
    BeginTransaction,
    /// Commit the open transaction.
    CommitTransaction,
    /// Abort the open transaction.
    AbortTransaction,
    /// Publish a consistency marker for the batch at `time`; `count` is the
    /// number of messages sent for it, known at its end only.
    SendMarker { schema_id: i32, time: u64, marker: Marker, count: Option<i64> },
    /// Publish one message with the given key and value. `completes_row` says
    /// that this message is the last copy of its row.
    SendRow { key: Option<&'a Vec<u8>>, value: Option<&'a Vec<u8>>, completes_row: bool },
}

/// What the broker answers to a request.
pub type BrokerReply = Result<(), BrokerError>;

} // verus!
