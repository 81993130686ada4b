//! The publisher as a mathematical state machine: what it holds, what must
//! always be true of it, and what each step of a turn does to it.

use crate::broker::{BrokerError, BrokerReply, BrokerRequest, Marker};
use crate::frontier::some_at_or_before;
use crate::send_state::SendState;
use crate::update::{admissible, EncodedRow, SinkAsOf, Update};
use vstd::prelude::*;

verus! {

/// The consistency topic's settings.
#[derive(Clone, Copy, Debug)]
pub struct Consistency {
    /// Schema that marker records are written with.
    pub schema_id: i32,
    /// Timestamp up to which an earlier run has published.
    pub gate_ts: Option<u64>,
}

/// What the sink was set up with.
#[derive(Debug)]
pub struct SinkConfig {
    /// Lower bound of what is emitted.
    pub as_of: SinkAsOf,
    /// Whether batches are wrapped in broker transactions.
    pub transactional: bool,
    /// Set where consistency markers are written.
    pub consistency: Option<Consistency>,
    /// How many steps one turn may take.
    pub fuel: usize,
}

impl SinkConfig {
    /// The `gate_ts` of the consistency settings, where they are set.
    pub open spec fn gate_ts(self) -> Option<u64> {
        match self.consistency {
            Some(consistency) => consistency.gate_ts,
            None => None,
        }
    }

    /// An update at `time` is beyond the as-of frontier and after `gate_ts`.
    pub open spec fn admits(self, time: u64) -> bool {
        admissible(self.as_of, self.gate_ts(), time)
    }
}

/// How many messages the rows stand for: the sum of their counts.
pub open spec fn copies(rows: Seq<EncodedRow>) -> nat
    decreases rows.len(),
{
    if rows.len() == 0 {
        0
    } else {
        copies(rows.drop_last()) + rows.last().count as nat
    }
}

/// A batch that can be published: it has a row, and no more rows than a
/// vector can hold; every row stands for at least one message, and the
/// number of messages fits the counter that the closing marker carries.
pub open spec fn batch_ok(rows: Seq<EncodedRow>) -> bool {
    &&& 0 < rows.len() <= usize::MAX
    &&& forall|i: int| 0 <= i < rows.len() ==> (#[trigger] rows[i]).count >= 1
    &&& copies(rows) <= i64::MAX
}

/// Both frontiers have passed `time`: no element of either is at or before it.
pub open spec fn passed(input: Set<u64>, durability: Set<u64>, time: u64) -> bool {
    !some_at_or_before(input, time) && !some_at_or_before(durability, time)
}

/// None of the updates that would be taken in has a negative multiplicity.
/// An update that is discarded anyway may have one.
pub open spec fn none_negative(config: SinkConfig, updates: Seq<Update<Vec<u8>>>) -> bool {
    forall|i: int|
        0 <= i < updates.len() ==> !(config.admits((#[trigger] updates[i]).time) && updates[i].diff
            < 0)
}

/// The row that an update becomes.
pub open spec fn row_of(update: Update<Vec<u8>>) -> EncodedRow {
    EncodedRow { key: update.key, value: update.value, count: update.diff as usize }
}

/// Why an update cannot be taken in.
#[derive(Clone, Copy, Debug, PartialEq, Eq, Structural)]
pub enum Refusal {
    /// Its multiplicity is negative.
    NegativeMultiplicity,
    /// Its timestamp is closed already, or lies before the write frontier.
    Late,
    /// With it, the batch of its timestamp would stand for more messages
    /// than the closing marker can count.
    TooManyCopies,
}

/// An update that was refused, and where among the arrivals it stood.
#[derive(Clone, Copy, Debug, PartialEq, Eq, Structural)]
pub struct Rejection {
    pub index: usize,
    pub refusal: Refusal,
}

/// What becomes of an arriving update.
#[derive(Clone, Copy, Debug, PartialEq, Eq, Structural)]
pub enum Admission {
    /// It is not beyond the as-of frontier, or not after `gate_ts`.
    Discard,
    /// Its multiplicity is zero: there is nothing to send.
    Skip,
    /// It joins the pending batch of its timestamp.
    Queue,
    /// It breaks the contract of the input.
    Refuse(Refusal),
}

/// How one step of the publish loop ends.
#[derive(Clone, Copy, Debug, PartialEq, Eq, Structural)]
pub enum Flow {
    /// The loop goes on, fuel permitting.
    Continue,
    /// Nothing is ready: the loop ends.
    Drained,
    /// The protocol is in its shutdown state: the shutdown flag is cleared and
    /// the loop ends.
    Halted,
    /// The broker's queue was full: the turn ends, to be retried after a delay.
    Backpressure,
    /// A send failed for good: the shutdown flag is set and the turn ends.
    Fatal,
}

/// Seconds to wait before a send is tried again after the broker's queue was
/// full.
pub const QUEUE_FULL_DELAY_SECS: u64 = 60;

/// Seconds to wait before looking again while the broker still holds
/// messages that it has not acknowledged.
pub const IN_FLIGHT_DELAY_SECS: u64 = 5;

/// When the operator asks to be run again.
#[derive(Clone, Copy, Debug, PartialEq, Eq, Structural)]
pub enum Reactivation {
    /// Not at all: it waits for new input.
    Idle,
    /// As soon as possible.
    Now,
    /// After a delay.
    Delayed { seconds: u64 },
}

/// What one turn of the publisher hands back to the code that runs it.
#[derive(Clone, Copy, Debug, PartialEq, Eq, Structural)]
pub struct Turn {
    /// Whether the operator has more to do.
    pub again: bool,
    /// The activation to schedule.
    pub reactivation: Reactivation,
    /// The value to store in the shutdown flag, if the turn writes it.
    pub shutdown: Option<bool>,
    /// Set where the input broke its contract: the sink cannot go on.
    pub rejection: Option<Rejection>,
}

impl Turn {
    /// The turn of a sink that is shut down: nothing is done and nothing is
    /// asked for.
    pub open spec fn inert() -> Turn {
        Turn { again: false, reactivation: Reactivation::Idle, shutdown: None, rejection: None }
    }

    /// The turn that stops at a refused update.
    pub open spec fn rejected(rejection: Rejection) -> Turn {
        Turn {
            again: false,
            reactivation: Reactivation::Idle,
            shutdown: None,
            rejection: Some(rejection),
        }
    }

    /// What a turn hands back after its publish loop ended with `flow`, with
    /// `ready` batches left and `in_flight` messages unacknowledged.
    pub open spec fn settled(flow: Flow, ready: nat, in_flight: i32) -> Turn {
        match flow {
            Flow::Backpressure => Turn {
                again: true,
                reactivation: Reactivation::Delayed { seconds: QUEUE_FULL_DELAY_SECS },
                shutdown: None,
                rejection: None,
            },
            Flow::Fatal => Turn {
                again: false,
                reactivation: Reactivation::Idle,
                shutdown: Some(true),
                rejection: None,
            },
            _ => {
                let shutdown = if flow == Flow::Halted {
                    Some(false)
                } else {
                    None
                };
                if ready > 0 {
                    Turn { again: true, reactivation: Reactivation::Now, shutdown, rejection: None }
                } else if in_flight > 0 {
                    Turn {
                        again: true,
                        reactivation: Reactivation::Delayed { seconds: IN_FLIGHT_DELAY_SECS },
                        shutdown,
                        rejection: None,
                    }
                } else {
                    Turn {
                        again: false,
                        reactivation: Reactivation::Idle,
                        shutdown,
                        rejection: None,
                    }
                }
            },
        }
    }
}

impl Flow {
    /// The loop ended in a way that lets the turn run to its end, where the
    /// broker is asked how many messages are in flight.
    pub open spec fn completes(self) -> bool {
        self != Flow::Backpressure && self != Flow::Fatal
    }
}

/// What the delivery report of one message does to the shutdown flag: a
/// message that the broker could not deliver sets the flag, whatever else
/// was delivered; a delivered message leaves it alone.
pub fn delivery_verdict(delivered: bool) -> (store: Option<bool>)
    ensures
        store == if delivered {
            None::<bool>
        } else {
            Some(true)
        },
{
    if delivered {
        None
    } else {
        Some(true)
    }
}

/// The state of the publisher.
#[verifier::ext_equal]
pub struct PublisherView {
    /// Batches of timestamps that are not closed yet.
    pub pending: Map<u64, Seq<EncodedRow>>,
    /// Batches of closed timestamps, in the order in which they are published.
    pub ready: Seq<(u64, Seq<EncodedRow>)>,
    /// Where the protocol stands for the batch at the front of `ready`.
    pub state: SendState,
    /// The timestamps of the write frontier.
    pub write_frontier: Set<u64>,
    /// The greatest timestamp that was ever closed.
    pub closed_through: Option<u64>,
}

impl PublisherView {
    /// The state of a publisher that has seen nothing yet.
    pub open spec fn initial(write_frontier: Set<u64>) -> PublisherView {
        PublisherView {
            pending: Map::empty(),
            ready: Seq::empty(),
            state: SendState::Init,
            write_frontier,
            closed_through: None,
        }
    }

    /// What always holds of a publisher.
    pub open spec fn inv(self, config: SinkConfig) -> bool {
        &&& self.pending.dom().finite()
        &&& forall|t: u64| #[trigger]
            self.pending.contains_key(t) ==> {
                &&& batch_ok(self.pending[t])
                &&& config.admits(t)
                &&& some_at_or_before(self.write_frontier, t)
                &&& self.closed_through matches Some(c) ==> c < t
            }
        &&& forall|i: int|
            0 <= i < self.ready.len() ==> {
                &&& batch_ok((#[trigger] self.ready[i]).1)
                &&& config.admits(self.ready[i].0)
                &&& self.closed_through matches Some(c) && self.ready[i].0 <= c
            }
        &&& forall|i: int, j: int|
            0 <= i < j < self.ready.len() ==> (#[trigger] self.ready[i]).0 < (
            #[trigger] self.ready[j]).0
        &&& self.ready.len() > 0 ==> some_at_or_before(self.write_frontier, self.ready[0].0)
        &&& match self.state {
            SendState::Begin | SendState::CommitTxn | SendState::AbortTxn | SendState::Shutdown => {
                self.ready.len() > 0
            },
            SendState::Draining { row_index, repeat_counter, total_sent } => {
                &&& self.ready.len() > 0
                &&& row_index < self.ready[0].1.len()
                &&& repeat_counter < self.ready[0].1[row_index as int].count
                &&& total_sent == copies(self.ready[0].1.take(row_index as int)) + repeat_counter
            },
            SendState::End(total) => self.ready.len() > 0 && total == copies(self.ready[0].1),
            _ => true,
        }
    }

    /// `time` can no longer be taken in: it lies before the write frontier, or
    /// a timestamp at or after it has been closed.
    pub open spec fn late(self, time: u64) -> bool {
        ||| !some_at_or_before(self.write_frontier, time)
        ||| self.closed_through matches Some(c) && time <= c
    }

    /// The rows pending at `time`; none where nothing is pending there.
    pub open spec fn pending_at(self, time: u64) -> Seq<EncodedRow> {
        if self.pending.contains_key(time) {
            self.pending[time]
        } else {
            Seq::empty()
        }
    }

    /// What becomes of an update at `time` with multiplicity `diff`.
    pub open spec fn admission(self, config: SinkConfig, time: u64, diff: isize) -> Admission {
        if !config.admits(time) {
            Admission::Discard
        } else if diff < 0 {
            Admission::Refuse(Refusal::NegativeMultiplicity)
        } else if diff == 0 {
            Admission::Skip
        } else if self.late(time) {
            Admission::Refuse(Refusal::Late)
        } else if copies(self.pending_at(time)) + diff > i64::MAX {
            Admission::Refuse(Refusal::TooManyCopies)
        } else {
            Admission::Queue
        }
    }

    /// The state with `row` added to the end of the batch pending at `time`.
    pub open spec fn enqueue(self, time: u64, row: EncodedRow) -> PublisherView {
        PublisherView { pending: self.pending.insert(time, self.pending_at(time).push(row)), ..self }
    }

    /// The state after `update` arrived: queued where its admission says so,
    /// unchanged otherwise.
    pub open spec fn accept(self, config: SinkConfig, update: Update<Vec<u8>>) -> PublisherView {
        if self.admission(config, update.time, update.diff) == Admission::Queue {
            self.enqueue(update.time, row_of(update))
        } else {
            self
        }
    }

    /// The state after `updates` arrived one after the other.
    pub open spec fn ingest(self, config: SinkConfig, updates: Seq<Update<Vec<u8>>>) -> PublisherView
        decreases updates.len(),
    {
        if updates.len() == 0 {
            self
        } else {
            self.ingest(config, updates.drop_last()).accept(config, updates.last())
        }
    }

    /// Whether the `index`-th of `updates` is refused when they arrive one
    /// after the other.
    pub open spec fn refuses(
        self,
        config: SinkConfig,
        updates: Seq<Update<Vec<u8>>>,
        index: int,
    ) -> bool {
        self.ingest(config, updates.take(index)).admission(
            config,
            updates[index].time,
            updates[index].diff,
        ) is Refuse
    }

    /// `after` is this state once the timestamps that both frontiers have
    /// passed were closed: their batches left `pending` and stand at the end
    /// of `ready` in ascending order of time; nothing else changed.
    pub open spec fn closes_into(
        self,
        after: PublisherView,
        input: Set<u64>,
        durability: Set<u64>,
    ) -> bool {
        let n = self.ready.len() as int;
        &&& after.state == self.state
        &&& after.write_frontier == self.write_frontier
        &&& after.ready.len() >= n
        &&& after.ready.take(n) == self.ready
        &&& forall|i: int, j: int|
            n <= i < j < after.ready.len() ==> (#[trigger] after.ready[i]).0 < (
            #[trigger] after.ready[j]).0
        &&& forall|i: int|
            n <= i < after.ready.len() ==> {
                &&& self.pending.contains_key((#[trigger] after.ready[i]).0)
                &&& passed(input, durability, after.ready[i].0)
                &&& after.ready[i].1 == self.pending[after.ready[i].0]
            }
        &&& forall|t: u64|
            self.pending.contains_key(t) && passed(input, durability, t) ==> exists|i: int|
                n <= i < after.ready.len() && (#[trigger] after.ready[i]).0 == t
        &&& forall|t: u64|
            after.pending.contains_key(t) <==> self.pending.contains_key(t) && !passed(
                input,
                durability,
                t,
            )
        &&& forall|t: u64| after.pending.contains_key(t) ==> after.pending[t] == self.pending[t]
        &&& after.closed_through == if after.ready.len() > n {
            Some(after.ready.last().0)
        } else {
            self.closed_through
        }
    }

    /// What the protocol asks of the broker for the batch at the front of
    /// `ready`; nothing where the step needs no broker.
    pub open spec fn request<'a>(self, config: SinkConfig) -> Option<BrokerRequest<'a>>
        recommends
            self.ready.len() > 0,
    {
        let time = self.ready[0].0;
        let rows = self.ready[0].1;
        match self.state {
            SendState::Init => if config.transactional {
                Some(BrokerRequest::InitTransactions)
            } else {
                None
            },
            SendState::BeginTxn => if config.transactional {
                Some(BrokerRequest::BeginTransaction)
            } else {
                None
            },
            SendState::Begin => match config.consistency {
                Some(consistency) => Some(
                    BrokerRequest::SendMarker {
                        schema_id: consistency.schema_id,
                        time,
                        marker: Marker::Begin,
                        count: None,
                    },
                ),
                None => None,
            },
            SendState::Draining { row_index, .. } => Some(
                BrokerRequest::SendRow {
                    key: match rows[row_index as int].key {
                        Some(key) => Some(&key),
                        None => None,
                    },
                    value: match rows[row_index as int].value {
                        Some(value) => Some(&value),
                        None => None,
                    },
                    completes_row: self.state->repeat_counter + 1 == rows[row_index as int].count,
                },
            ),
            SendState::End(total) => match config.consistency {
                Some(consistency) => Some(
                    BrokerRequest::SendMarker {
                        schema_id: consistency.schema_id,
                        time,
                        marker: Marker::End,
                        count: Some(total),
                    },
                ),
                None => None,
            },
            SendState::CommitTxn => if config.transactional {
                Some(BrokerRequest::CommitTransaction)
            } else {
                None
            },
            SendState::AbortTxn => if config.transactional {
                Some(BrokerRequest::AbortTransaction)
            } else {
                None
            },
            SendState::Shutdown => None,
        }
    }

    /// The state after a transactional call for the front batch was answered.
    pub open spec fn after_txn(self, reply: BrokerReply) -> PublisherView {
        match reply {
            Ok(()) => match self.state {
                SendState::Init => PublisherView { state: SendState::BeginTxn, ..self },
                SendState::BeginTxn => PublisherView { state: SendState::Begin, ..self },
                SendState::CommitTxn => PublisherView {
                    state: SendState::BeginTxn,
                    write_frontier: set![self.ready[0].0],
                    ready: self.ready.drop_first(),
                    ..self
                },
                _ => PublisherView { state: SendState::BeginTxn, ..self },
            },
            Err(error) => PublisherView { state: self.state.after_txn_error(error), ..self },
        }
    }

    /// The state after one more message of the front batch was accepted.
    pub open spec fn after_send(self) -> PublisherView {
        let rows = self.ready[0].1;
        match self.state {
            SendState::Begin => PublisherView {
                state: SendState::Draining { row_index: 0, repeat_counter: 0, total_sent: 0 },
                ..self
            },
            SendState::Draining { row_index, repeat_counter, total_sent } => {
                let row_done = repeat_counter + 1 == rows[row_index as int].count;
                let next_index = if row_done {
                    row_index + 1
                } else {
                    row_index as int
                };
                let next_repeat = if row_done {
                    0
                } else {
                    repeat_counter + 1
                };
                if next_index == rows.len() {
                    PublisherView { state: SendState::End((total_sent + 1) as i64), ..self }
                } else {
                    PublisherView {
                        state: SendState::Draining {
                            row_index: next_index as usize,
                            repeat_counter: next_repeat as usize,
                            total_sent: (total_sent + 1) as i64,
                        },
                        ..self
                    }
                }
            },
            _ => PublisherView { state: SendState::CommitTxn, ..self },
        }
    }

    /// One step of the publish loop. `reply` is the broker's answer to
    /// `request`; where the step asks nothing of the broker it counts as
    /// `Ok`.
    pub open spec fn step(self, config: SinkConfig, reply: BrokerReply) -> (PublisherView, Flow) {
        let reply = if self.request(config) is Some {
            reply
        } else {
            Ok(())
        };
        if self.ready.len() == 0 {
            (self, Flow::Drained)
        } else {
            match self.state {
                SendState::Shutdown => (self, Flow::Halted),
                SendState::Begin | SendState::Draining { .. } | SendState::End(_) => match reply {
                    Ok(()) => (self.after_send(), Flow::Continue),
                    Err(BrokerError::QueueFull) => (self, Flow::Backpressure),
                    Err(_) => (self, Flow::Fatal),
                },
                _ => (self.after_txn(reply), Flow::Continue),
            }
        }
    }

    /// How many requests the publish loop makes of the broker when its steps
    /// are answered by `replies`.
    pub open spec fn asked(self, config: SinkConfig, replies: Seq<BrokerReply>) -> nat
        decreases replies.len(),
    {
        if replies.len() == 0 {
            0
        } else {
            let (before, flow) = self.run(config, replies.drop_last());
            let asks = flow == Flow::Continue && before.ready.len() > 0 && before.request(
                config,
            ) is Some;
            self.asked(config, replies.drop_last()) + if asks {
                1nat
            } else {
                0nat
            }
        }
    }

    /// `after` and `flow` are what the publish loop leaves when its steps are
    /// answered by `replies`: it takes a step for each answer, no more of them
    /// than the fuel allows, none after a step that ended the loop, and it
    /// stops short of its fuel only where a step ended it.
    pub open spec fn publishes(
        self,
        config: SinkConfig,
        replies: Seq<BrokerReply>,
        after: PublisherView,
        flow: Flow,
    ) -> bool {
        &&& replies.len() <= config.fuel
        &&& self.run(config, replies) == (after, flow)
        &&& flow == Flow::Continue ==> replies.len() == config.fuel
        &&& forall|i: int|
            0 <= i < replies.len() ==> (#[trigger] self.run(config, replies.take(i))).1
                == Flow::Continue
    }

    /// The publish loop on the answers `replies`, one for each step: a step is
    /// taken for each answer as long as the steps before it let the loop go
    /// on.
    pub open spec fn run(self, config: SinkConfig, replies: Seq<BrokerReply>) -> (
        PublisherView,
        Flow,
    )
        decreases replies.len(),
    {
        if replies.len() == 0 {
            (self, Flow::Continue)
        } else {
            let (before, flow) = self.run(config, replies.drop_last());
            if flow == Flow::Continue {
                before.step(config, replies.last())
            } else {
                (before, flow)
            }
        }
    }
}

/// `n` answers that all say the broker took what it was asked to take.
pub open spec fn accepted(n: nat) -> Seq<BrokerReply> {
    Seq::new(n, |i: int| Ok::<(), BrokerError>(()))
}

/// The first `i + 1` rows stand for as many messages as the first `i` and
/// the row behind them.
pub proof fn lemma_copies_next(rows: Seq<EncodedRow>, i: int)
    requires
        0 <= i < rows.len(),
    ensures
        copies(rows.take(i + 1)) == copies(rows.take(i)) + rows[i].count,
{
    assert(rows.take(i + 1).drop_last() =~= rows.take(i));
}

/// A prefix of a batch stands for no more messages than the batch.
pub proof fn lemma_copies_prefix(rows: Seq<EncodedRow>, i: int)
    requires
        0 <= i <= rows.len(),
    ensures
        copies(rows.take(i)) <= copies(rows),
    decreases rows.len() - i,
{
    if i == rows.len() {
        assert(rows.take(i) =~= rows);
    } else {
        lemma_copies_next(rows, i);
        lemma_copies_prefix(rows, i + 1);
    }
}

} // verus!
