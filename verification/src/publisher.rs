//! The transactional batch publisher: it queues encoded rows by timestamp,
//! closes the timestamps that the frontiers have passed, and walks the
//! publish protocol for each closed batch, a bounded number of steps per turn.

use crate::broker::{BrokerError, BrokerReply, BrokerRequest, Marker};
use crate::frontier::{
    frontier_clear, frontier_elements, frontier_insert, frontier_less_equal, meet_elements,
    meet_of, some_at_or_before,
};
use crate::laws::{lemma_draining_is_short_of_total, lemma_step_keeps_valid};
use crate::model::{
    batch_ok, copies, none_negative, passed, row_of, Admission, Flow, PublisherView,
    Reactivation, Refusal, Rejection, SinkConfig, Turn, IN_FLIGHT_DELAY_SECS,
    QUEUE_FULL_DELAY_SECS,
};
use crate::send_state::{transition_on_txn_error, SendState};
use crate::update::{should_emit, EncodedRow, Update};
use std::collections::HashMap;
use std::collections::VecDeque;
use timely::progress::Antichain;
use vstd::prelude::*;
use vstd::std_specs::hash::group_hash_axioms;
use vstd::std_specs::iter::IteratorSpec;

verus! {

/// The rows pending at one timestamp, with the number of messages they
/// stand for.
struct PendingBatch {
    rows: Vec<EncodedRow>,
    copies: i64,
}

/// The publisher's state between turns.
pub struct Publisher {
    config: SinkConfig,
    pending: HashMap<u64, PendingBatch>,
    ready: VecDeque<(u64, Vec<EncodedRow>)>,
    state: SendState,
    write_frontier: Antichain<u64>,
    closed_through: Option<u64>,
}

/// Each element is smaller than the ones behind it.
spec fn ascending(times: Seq<u64>) -> bool {
    forall|i: int, j: int| 0 <= i < j < times.len() ==> times[i] < times[j]
}

/// `time` is among the first `upto` of `times`.
spec fn among(times: Seq<u64>, upto: int, time: u64) -> bool {
    exists|k: int| 0 <= k < upto && times[k] == time
}

/// Puts `time` in its place in an ascending vector that does not hold it.
fn insert_ascending(times: &mut Vec<u64>, time: u64)
    requires
        ascending(old(times)@),
        !old(times)@.contains(time),
    ensures
        ascending(final(times)@),
        forall|t: u64| final(times)@.contains(t) <==> (old(times)@.contains(t) || t == time),
{
    let mut at: usize = 0;
    while at < times.len() && times[at] < time
        invariant
            at <= times.len(),
            *times == *old(times),
            forall|j: int| 0 <= j < at ==> times@[j] < time,
        decreases times.len() - at,
    {
        at = at + 1;
    }
    let ghost before = times@;
    assert forall|j: int| at <= j < before.len() implies before[j] > time by {
        if before[j] == time {
            assert(before.contains(time));
        }
        if at < j {
            assert(before[at as int] < before[j]);
        }
    }
    times.insert(at, time);
    assert forall|t: u64| times@.contains(t) <==> (before.contains(t) || t == time) by {
        if times@.contains(t) {
            let j = choose|j: int| 0 <= j < times@.len() && times@[j] == t;
            if j < at {
                assert(before[j] == t);
            } else if j > at {
                assert(before[j - 1] == t);
            }
        }
        if before.contains(t) {
            let j = choose|j: int| 0 <= j < before.len() && before[j] == t;
            if j < at {
                assert(times@[j] == t);
            } else {
                assert(times@[j + 1] == t);
            }
        }
        if t == time {
            assert(times@[at as int] == t);
        }
    }
}

/// The pending timestamps that both frontiers have passed, in ascending
/// order.
fn closed_times(
    pending: &HashMap<u64, PendingBatch>,
    input: &Antichain<u64>,
    durability: &Antichain<u64>,
) -> (times: Vec<u64>)
    ensures
        ascending(times@),
        forall|t: u64|
            times@.contains(t) <==> pending@.contains_key(t) && passed(
                frontier_elements(*input),
                frontier_elements(*durability),
                t,
            ),
{
    broadcast use group_hash_axioms;

    let mut times: Vec<u64> = Vec::new();
    let ghost keys: Seq<u64> = pending.keys().remaining().unref();
    for key in it: pending.keys()
        invariant
            ascending(times@),
            it.seq().unref() == keys,
            keys.to_set() == pending@.dom(),
            keys.no_duplicates(),
            forall|t: u64|
                times@.contains(t) <==> (exists|j: int| 0 <= j < it.index() && keys[j] == t)
                    && passed(frontier_elements(*input), frontier_elements(*durability), t),
    {
        let time: u64 = *key;
        assert(keys[it.index()] == time);
        if !frontier_less_equal(input, time) && !frontier_less_equal(durability, time) {
            assert(!times@.contains(time));
            insert_ascending(&mut times, time);
        }
    }
    assert forall|t: u64| pending@.contains_key(t) <==> keys.contains(t) by {
        assert(keys.to_set().contains(t) <==> keys.contains(t));
    }
    times
}


impl View for Publisher {
    type V = PublisherView;

    closed spec fn view(&self) -> PublisherView {
        PublisherView {
            pending: self.pending@.map_values(|batch: PendingBatch| batch.rows@),
            ready: self.ready@.map_values(|batch: (u64, Vec<EncodedRow>)| (batch.0, batch.1@)),
            state: self.state,
            write_frontier: frontier_elements(self.write_frontier),
            closed_through: self.closed_through,
        }
    }
}

impl Publisher {
    /// What the publisher was set up with.
    pub closed spec fn config(&self) -> SinkConfig {
        self.config
    }

    /// The running totals agree with the rows they are kept for.
    pub closed spec fn totals_ok(&self) -> bool {
        forall|t: u64| #[trigger]
            self.pending@.contains_key(t) ==> self.pending@[t].copies == copies(
                self.pending@[t].rows@,
            )
    }

    /// The publisher is in a state that its own functions can leave it in.
    pub open spec fn wf(&self) -> bool {
        self.totals_ok() && self@.inv(self.config())
    }

    /// A publisher that has seen nothing yet. `write_frontier` is where the
    /// write frontier starts.
    pub fn new(config: SinkConfig, write_frontier: Antichain<u64>) -> (publisher: Publisher)
        ensures
            publisher.wf(),
            publisher.config() == config,
            publisher@ == PublisherView::initial(frontier_elements(write_frontier)),
    {
        let publisher = Publisher {
            config,
            pending: HashMap::new(),
            ready: VecDeque::new(),
            state: SendState::Init,
            write_frontier,
            closed_through: None,
        };
        proof {
            broadcast use group_hash_axioms;

            assert(publisher@.pending =~= Map::empty());
            assert(publisher@.ready =~= Seq::empty());
        }
        publisher
    }

    /// Everything at or before this frontier is published.
    pub fn write_frontier(&self) -> (frontier: &Antichain<u64>)
        ensures
            frontier_elements(*frontier) == self@.write_frontier,
    {
        &self.write_frontier
    }

    /// Where the protocol stands.
    pub fn state(&self) -> (state: SendState)
        ensures
            state == self@.state,
    {
        self.state
    }

    /// How many closed batches wait to be published.
    pub fn ready_len(&self) -> (n: usize)
        ensures
            n == self@.ready.len(),
    {
        self.ready.len()
    }

    /// How many timestamps have rows pending.
    pub fn pending_len(&self) -> (n: usize)
        ensures
            n == self@.pending.dom().len(),
    {
        proof {
            broadcast use group_hash_axioms;

            assert(self@.pending.dom() =~= self.pending@.dom());
        }
        self.pending.len()
    }

    /// Says what becomes of an update at `time` with multiplicity `diff`.
    pub fn admission(&self, time: u64, diff: isize) -> (admission: Admission)
        requires
            self.wf(),
        ensures
            admission == self@.admission(self.config(), time, diff),
    {
        broadcast use group_hash_axioms;

        let gate_ts = match &self.config.consistency {
            Some(consistency) => consistency.gate_ts,
            None => None,
        };
        if !should_emit(&self.config.as_of, gate_ts, time) {
            return Admission::Discard;
        }
        if diff < 0 {
            return Admission::Refuse(Refusal::NegativeMultiplicity);
        }
        if diff == 0 {
            return Admission::Skip;
        }
        if !frontier_less_equal(&self.write_frontier, time) {
            return Admission::Refuse(Refusal::Late);
        }
        match self.closed_through {
            Some(closed) => {
                if time <= closed {
                    return Admission::Refuse(Refusal::Late);
                }
            },
            None => {},
        }
        let queued: i64 = match self.pending.get(&time) {
            Some(batch) => batch.copies,
            None => 0,
        };
        proof {
            assert(copies(Seq::<EncodedRow>::empty()) == 0);
            assert(queued == copies(self@.pending_at(time)));
        }
        if diff as i64 > i64::MAX - queued {
            Admission::Refuse(Refusal::TooManyCopies)
        } else {
            Admission::Queue
        }
    }

    /// Whether none of the updates that would be taken in has a negative
    /// multiplicity: what `ingest` and `turn` ask of their input.
    pub fn none_negative(&self, updates: &Vec<Update<Vec<u8>>>) -> (none: bool)
        ensures
            none == none_negative(self.config(), updates@),
    {
        let gate_ts = match &self.config.consistency {
            Some(consistency) => consistency.gate_ts,
            None => None,
        };
        let mut index: usize = 0;
        while index < updates.len()
            invariant
                index <= updates.len(),
                gate_ts == self.config().gate_ts(),
                forall|i: int|
                    0 <= i < index ==> !(self.config().admits((#[trigger] updates@[i]).time)
                        && updates@[i].diff < 0),
            decreases updates.len() - index,
        {
            let update = &updates[index];
            if update.diff < 0 && should_emit(&self.config.as_of, gate_ts, update.time) {
                return false;
            }
            index = index + 1;
        }
        true
    }

    /// Takes in one update that its admission does not refuse: it joins the
    /// batch pending at its timestamp, or is dropped where it is discarded or
    /// stands for nothing.
    pub fn enqueue(&mut self, update: Update<Vec<u8>>)
        requires
            old(self).wf(),
            !(old(self)@.admission(old(self).config(), update.time, update.diff) is Refuse),
        ensures
            final(self).wf(),
            final(self).config() == old(self).config(),
            final(self)@ == old(self)@.accept(old(self).config(), update),
    {
        broadcast use group_hash_axioms;

        let admission = self.admission(update.time, update.diff);
        if admission != Admission::Queue {
            return;
        }
        let time = update.time;
        let added: i64 = update.diff as i64;
        let row = EncodedRow { key: update.key, value: update.value, count: update.diff as usize };
        assert(row == row_of(update));
        let ghost before = old(self)@.pending_at(time);
        let batch = self.pending.entry(time).or_insert(PendingBatch { rows: Vec::new(), copies: 0 });
        assert(batch.rows@ == before);
        assert(copies(Seq::<EncodedRow>::empty()) == 0);
        assert(batch.copies == copies(before));
        batch.rows.push(row);
        batch.copies = batch.copies + added;
        assert(batch.rows.len() <= usize::MAX);
        proof {
            let after = before.push(row);
            assert(after.drop_last() == before);
            assert(copies(after) == copies(before) + row.count);
            assert(self@.pending =~= old(self)@.pending.insert(time, after));
            assert(self@.ready == old(self)@.ready);
            assert(batch_ok(after)) by {
                if old(self)@.pending.contains_key(time) {
                    assert(batch_ok(before));
                }
            }
            assert forall|t: u64| #[trigger] self.pending@.contains_key(t) implies self.pending@[t].copies
                == copies(self.pending@[t].rows@) by {
                if t != time {
                    assert(old(self).pending@.contains_key(t));
                }
            }
            assert forall|t: u64| #[trigger] self@.pending.contains_key(t) implies {
                &&& batch_ok(self@.pending[t])
                &&& self.config().admits(t)
                &&& some_at_or_before(self@.write_frontier, t)
                &&& self@.closed_through matches Some(c) ==> c < t
            } by {
                if t != time {
                    assert(old(self)@.pending.contains_key(t));
                }
            }
        }
    }

    /// Takes in the updates that arrived, in their order, up to the first one
    /// that is refused. A refused update ends the sink: it is reported, and the
    /// updates behind it are not looked at. An update that would be taken in
    /// with a negative multiplicity must not be handed in at all: the caller
    /// has to stop for good before it does.
    pub fn ingest(&mut self, updates: Vec<Update<Vec<u8>>>) -> (result: Result<(), Rejection>)
        requires
            old(self).wf(),
            none_negative(old(self).config(), updates@),
        ensures
            final(self).wf(),
            final(self).config() == old(self).config(),
            result matches Err(rejection) ==> rejection.refusal != Refusal::NegativeMultiplicity,
            match result {
                Ok(()) => {
                    &&& final(self)@ == old(self)@.ingest(old(self).config(), updates@)
                    &&& forall|i: int|
                        0 <= i < updates.len() ==> !old(self)@.refuses(
                            old(self).config(),
                            updates@,
                            i,
                        )
                },
                Err(rejection) => {
                    let index = rejection.index as int;
                    let reached = old(self)@.ingest(old(self).config(), updates@.take(index));
                    &&& index < updates.len()
                    &&& final(self)@ == reached
                    &&& forall|i: int|
                        0 <= i < index ==> !old(self)@.refuses(old(self).config(), updates@, i)
                    &&& reached.admission(
                        old(self).config(),
                        updates[index].time,
                        updates[index].diff,
                    ) == Admission::Refuse(rejection.refusal)
                },
            },
    {
        let ghost all = updates@;
        let ghost start = self@;
        let ghost config = self.config();
        let total = updates.len();
        let mut index: usize = 0;
        assert(all.take(0) =~= Seq::empty());
        for update in it: updates
            invariant
                it.seq() == all,
                all.len() == total,
                index == it.index(),
                start == old(self)@,
                config == old(self).config(),
                self.wf(),
                self.config() == config,
                self@ == start.ingest(config, all.take(index as int)),
                forall|i: int| 0 <= i < index ==> !start.refuses(config, all, i),
                none_negative(config, all),
        {
            assert(all[index as int] == update);
            match self.admission(update.time, update.diff) {
                Admission::Refuse(refusal) => {
                    return Err(Rejection { index, refusal });
                },
                _ => {},
            }
            self.enqueue(update);
            proof {
                assert(all.take(index + 1).drop_last() =~= all.take(index as int));
                assert(all.take(index + 1).last() == update);
            }
            index = index + 1;
        }
        assert(all.take(index as int) =~= all);
        Ok(())
    }

    /// Closes the timestamps that both frontiers have passed: their batches
    /// move from `pending` to the end of `ready`, in ascending order of time.
    pub fn close(&mut self, input_frontier: &Antichain<u64>, durability_frontier: &Antichain<u64>)
        requires
            old(self).wf(),
        ensures
            final(self).wf(),
            final(self).config() == old(self).config(),
            old(self)@.closes_into(
                final(self)@,
                frontier_elements(*input_frontier),
                frontier_elements(*durability_frontier),
            ),
    {
        broadcast use group_hash_axioms;

        let ghost input = frontier_elements(*input_frontier);
        let ghost durability = frontier_elements(*durability_frontier);
        let ghost start = *old(self);
        let ghost n = start.ready@.len() as int;
        let closed = closed_times(&self.pending, input_frontier, durability_frontier);
        let mut moved: usize = 0;
        while moved < closed.len()
            invariant
                moved <= closed.len(),
                start == *old(self),
                n == start.ready@.len(),
                ascending(closed@),
                forall|t: u64|
                    closed@.contains(t) <==> start.pending@.contains_key(t) && passed(
                        input,
                        durability,
                        t,
                    ),
                self.config == start.config,
                self.state == start.state,
                self.write_frontier == start.write_frontier,
                self.closed_through == if moved > 0 {
                    Some(closed@[moved - 1])
                } else {
                    start.closed_through
                },
                self.ready@.len() == n + moved,
                self.ready@.take(n) == start.ready@,
                forall|k: int|
                    0 <= k < moved ==> (#[trigger] self.ready@[n + k]).0 == closed@[k]
                        && self.ready@[n + k].1 == start.pending@[closed@[k]].rows,
                forall|t: u64|
                    #![trigger self.pending@.contains_key(t)]
                    #![trigger start.pending@.contains_key(t)]
                    self.pending@.contains_key(t) <==> start.pending@.contains_key(t) && !among(
                        closed@,
                        moved as int,
                        t,
                    ),
                forall|t: u64| #[trigger]
                    self.pending@.contains_key(t) ==> self.pending@[t] == start.pending@[t],
            decreases closed.len() - moved,
        {
            let time = closed[moved];
            let ghost ready_before = self.ready@;
            let ghost pending_before = self.pending@;
            let ghost done = moved as int;
            assert(closed@.contains(time));
            assert(self.pending@.contains_key(time)) by {
                if among(closed@, moved as int, time) {
                    let k = choose|k: int| 0 <= k < moved && closed@[k] == time;
                    assert(closed@[k] < closed@[moved as int]);
                }
            }
            let batch = self.pending.remove(&time).unwrap();
            self.ready.push_back((time, batch.rows));
            self.closed_through = Some(time);
            moved = moved + 1;
            proof {
                assert(self.pending@ == pending_before.remove(time));
                assert forall|t: u64|
                    self.pending@.contains_key(t) <==> start.pending@.contains_key(t) && !among(
                        closed@,
                        moved as int,
                        t,
                    ) by {
                    if t == time {
                        assert(closed@[done] == t);
                    } else {
                        assert(pending_before.contains_key(t) <==> start.pending@.contains_key(t)
                            && !among(closed@, done, t));
                        if among(closed@, moved as int, t) {
                            let k = choose|k: int| 0 <= k < moved && closed@[k] == t;
                            assert(0 <= k < done && closed@[k] == t);
                        }
                        if among(closed@, done, t) {
                            let k = choose|k: int| 0 <= k < done && closed@[k] == t;
                            assert(0 <= k < moved && closed@[k] == t);
                        }
                    }
                }
                assert(self.ready@.take(n) =~= ready_before.take(n));
                assert forall|k: int| 0 <= k < moved implies (#[trigger] self.ready@[n + k]).0
                    == closed@[k] && self.ready@[n + k].1 == start.pending@[closed@[k]].rows by {
                    if k < moved - 1 {
                        assert(self.ready@[n + k] == ready_before[n + k]);
                    }
                }
            }
        }
        proof {
            let after = self@;
            let before = start@;
            assert(after.ready.len() == n + moved);
            assert(after.ready.take(n) =~= before.ready) by {
                assert forall|i: int| 0 <= i < n implies after.ready[i] == before.ready[i] by {
                    assert(self.ready@[i] == self.ready@.take(n)[i]);
                }
            }
            assert forall|i: int| n <= i < after.ready.len() implies {
                &&& before.pending.contains_key((#[trigger] after.ready[i]).0)
                &&& passed(input, durability, after.ready[i].0)
                &&& after.ready[i].1 == before.pending[after.ready[i].0]
                &&& after.ready[i].0 == closed@[i - n]
            } by {
                let k = i - n;
                assert(self.ready@[n + k].0 == closed@[k]);
                assert(closed@.contains(closed@[k]));
            }
            assert forall|t: u64|
                before.pending.contains_key(t) && passed(input, durability, t) implies exists|
                i: int,
            |
                n <= i < after.ready.len() && (#[trigger] after.ready[i]).0 == t by {
                assert(closed@.contains(t));
                let k = choose|k: int| 0 <= k < closed@.len() && closed@[k] == t;
                assert(after.ready[n + k].0 == t);
            }
            assert forall|t: u64|
                after.pending.contains_key(t) <==> before.pending.contains_key(t) && !passed(
                    input,
                    durability,
                    t,
                ) by {
                if before.pending.contains_key(t) && passed(input, durability, t) {
                    assert(closed@.contains(t));
                }
                if before.pending.contains_key(t) && !after.pending.contains_key(t) {
                    assert(among(closed@, moved as int, t));
                    let k = choose|k: int| 0 <= k < moved && closed@[k] == t;
                    assert(closed@.contains(t));
                }
                if closed@.contains(t) {
                    let k = choose|k: int| 0 <= k < closed@.len() && closed@[k] == t;
                    assert(among(closed@, moved as int, t));
                }
            }
            assert(before.closes_into(after, input, durability));
            // Whatever stays pending lies after everything that was closed.
            assert forall|t: u64, k: int|
                after.pending.contains_key(t) && 0 <= k < closed@.len() implies closed@[k] < t by {
                assert(closed@.contains(closed@[k]));
                assert(!passed(input, durability, t));
            }
            assert forall|t: u64| #[trigger] after.pending.contains_key(t) implies {
                &&& batch_ok(after.pending[t])
                &&& self.config().admits(t)
                &&& some_at_or_before(after.write_frontier, t)
                &&& after.closed_through matches Some(c) ==> c < t
            } by {
                assert(before.pending.contains_key(t));
            }
            assert forall|i: int| 0 <= i < after.ready.len() implies {
                &&& batch_ok((#[trigger] after.ready[i]).1)
                &&& self.config().admits(after.ready[i].0)
                &&& after.closed_through matches Some(c) && after.ready[i].0 <= c
            } by {
                if i < n {
                    assert(after.ready[i] == before.ready[i]);
                    if moved > 0 {
                        assert(before.pending.contains_key(closed@[moved - 1])) by {
                            assert(closed@.contains(closed@[moved - 1]));
                        }
                    }
                } else {
                    assert(before.pending.contains_key(after.ready[i].0));
                    assert(after.ready[i].0 == closed@[i - n]);
                }
            }
            assert forall|i: int, j: int| 0 <= i < j < after.ready.len() implies (
            #[trigger] after.ready[i]).0 < (#[trigger] after.ready[j]).0 by {
                if j < n {
                    assert(after.ready[i] == before.ready[i]);
                    assert(after.ready[j] == before.ready[j]);
                } else if i < n {
                    assert(after.ready[i] == before.ready[i]);
                    assert(before.pending.contains_key(after.ready[j].0));
                } else {
                    assert(after.ready[i].0 == closed@[i - n]);
                    assert(after.ready[j].0 == closed@[j - n]);
                }
            }
            if n > 0 {
                assert(after.ready[0] == before.ready[0]);
            } else if after.ready.len() > 0 {
                assert(before.pending.contains_key(after.ready[0].0));
            }
            assert(after.pending.dom() =~= self.pending@.dom());
            assert(self@.inv(self.config()));
        }
    }

    /// What the protocol asks of the broker next, for the batch at the front
    /// of the ready queue; nothing where the next step needs no broker.
    pub fn request(&self) -> (request: Option<BrokerRequest<'_>>)
        requires
            self.wf(),
            self@.ready.len() > 0,
        ensures
            request == self@.request(self.config()),
    {
        let time = self.ready[0].0;
        match self.state {
            SendState::Init => if self.config.transactional {
                Some(BrokerRequest::InitTransactions)
            } else {
                None
            },
            SendState::BeginTxn => if self.config.transactional {
                Some(BrokerRequest::BeginTransaction)
            } else {
                None
            },
            SendState::Begin => match &self.config.consistency {
                Some(consistency) => Some(
                    BrokerRequest::SendMarker {
                        schema_id: consistency.schema_id,
                        time,
                        marker: Marker::Begin,
                        count: None,
                    },
                ),
                None => None,
            },
            SendState::Draining { row_index, repeat_counter, .. } => {
                let row = &self.ready[0].1[row_index];
                Some(
                    BrokerRequest::SendRow {
                        key: row.key.as_ref(),
                        value: row.value.as_ref(),
                        completes_row: repeat_counter + 1 == row.count,
                    },
                )
            },
            SendState::End(total) => match &self.config.consistency {
                Some(consistency) => Some(
                    BrokerRequest::SendMarker {
                        schema_id: consistency.schema_id,
                        time,
                        marker: Marker::End,
                        count: Some(total),
                    },
                ),
                None => None,
            },
            SendState::CommitTxn => if self.config.transactional {
                Some(BrokerRequest::CommitTransaction)
            } else {
                None
            },
            SendState::AbortTxn => if self.config.transactional {
                Some(BrokerRequest::AbortTransaction)
            } else {
                None
            },
            SendState::Shutdown => None,
        }
    }

    /// Marks the front batch as committed: the write frontier becomes its
    /// timestamp alone, and the batch leaves the ready queue.
    fn commit_front(&mut self)
        requires
            old(self).wf(),
            old(self)@.ready.len() > 0,
            old(self)@.state == SendState::CommitTxn,
        ensures
            final(self).wf(),
            final(self).config() == old(self).config(),
            final(self)@ == old(self)@.after_txn(Ok(())),
    {
        let time = self.ready[0].0;
        frontier_clear(&mut self.write_frontier);
        let added = frontier_insert(&mut self.write_frontier, time);
        let _ = self.ready.pop_front();
        self.state = SendState::BeginTxn;
        proof {
            let before = old(self)@;
            assert(!some_at_or_before(Set::<u64>::empty(), time));
            assert(self@.write_frontier =~= set![time]);
            assert(self@.ready =~= before.ready.drop_first());
            assert(self@.pending =~= before.pending);
            lemma_step_keeps_valid(before, self.config(), Ok(()));
        }
    }

    /// Counts one more message of the front batch as sent and moves on to the
    /// next copy, the next row or the end of the batch.
    fn sent_one(&mut self)
        requires
            old(self).wf(),
            old(self)@.ready.len() > 0,
            old(self)@.state is Begin || old(self)@.state is Draining || old(self)@.state is End,
        ensures
            final(self).wf(),
            final(self).config() == old(self).config(),
            final(self)@ == old(self)@.after_send(),
    {
        proof {
            lemma_step_keeps_valid(self@, self.config(), Ok(()));
        }
        match self.state {
            SendState::Begin => {
                self.state = SendState::Draining { row_index: 0, repeat_counter: 0, total_sent: 0 };
            },
            SendState::Draining { row_index, repeat_counter, total_sent } => {
                let rows = &self.ready[0].1;
                proof {
                    assert(self@.ready[0].1 == rows@);
                    lemma_draining_is_short_of_total(self@, self.config());
                }
                let len = rows.len();
                let total_sent = total_sent + 1;
                let mut repeat_counter = repeat_counter + 1;
                let mut row_index = row_index;
                if repeat_counter == rows[row_index].count {
                    repeat_counter = 0;
                    row_index = row_index + 1;
                }
                if row_index == len {
                    self.state = SendState::End(total_sent);
                } else {
                    self.state = SendState::Draining { row_index, repeat_counter, total_sent };
                }
            },
            _ => {
                self.state = SendState::CommitTxn;
            },
        }
    }

    /// Takes one step of the publish loop, given the broker's answer to
    /// `request`. Where the step asked nothing of the broker, `reply` is not
    /// looked at.
    pub fn advance(&mut self, reply: BrokerReply) -> (flow: Flow)
        requires
            old(self).wf(),
        ensures
            final(self).wf(),
            final(self).config() == old(self).config(),
            (final(self)@, flow) == old(self)@.step(old(self).config(), reply),
    {
        if self.ready.len() == 0 {
            return Flow::Drained;
        }
        let reply = match self.request() {
            Some(_) => reply,
            None => Ok(()),
        };
        match self.state {
            SendState::Shutdown => Flow::Halted,
            SendState::Begin | SendState::Draining { .. } | SendState::End(_) => match reply {
                Ok(()) => {
                    self.sent_one();
                    Flow::Continue
                },
                Err(BrokerError::QueueFull) => Flow::Backpressure,
                Err(_) => Flow::Fatal,
            },
            SendState::CommitTxn => {
                match reply {
                    Ok(()) => {
                        self.commit_front();
                    },
                    Err(error) => {
                        self.state = transition_on_txn_error(self.state, error);
                    },
                }
                Flow::Continue
            },
            SendState::Init => {
                self.state = match reply {
                    Ok(()) => SendState::BeginTxn,
                    Err(error) => transition_on_txn_error(self.state, error),
                };
                Flow::Continue
            },
            SendState::BeginTxn => {
                self.state = match reply {
                    Ok(()) => SendState::Begin,
                    Err(error) => transition_on_txn_error(self.state, error),
                };
                Flow::Continue
            },
            SendState::AbortTxn => {
                self.state = match reply {
                    Ok(()) => SendState::BeginTxn,
                    Err(error) => transition_on_txn_error(self.state, error),
                };
                Flow::Continue
            },
        }
    }

    /// Each of `replies` is what `broker` answered to the request of its step;
    /// a step that asked nothing stands in the list as `Ok`.
    pub open spec fn answered_by<B: Fn(BrokerRequest) -> BrokerReply>(
        start: PublisherView,
        config: SinkConfig,
        replies: Seq<BrokerReply>,
        broker: B,
    ) -> bool {
        forall|i: int|
            0 <= i < replies.len() ==> {
                let at = (#[trigger] start.run(config, replies.take(i))).0;
                match at.request(config) {
                    Some(request) if at.ready.len() > 0 => broker.ensures((request,), replies[i]),
                    _ => replies[i] == Ok::<(), BrokerError>(()),
                }
            }
    }

    /// The bounded publish loop of one turn: up to `fuel` steps of the
    /// protocol, each with at most one request to `broker`, until nothing is
    /// ready or a step ends the loop.
    pub fn publish<B: Fn(BrokerRequest) -> BrokerReply>(&mut self, broker: &B) -> (flow: Flow)
        requires
            old(self).wf(),
            forall|request: BrokerRequest| #[trigger] broker.requires((request,)),
        ensures
            final(self).wf(),
            final(self).config() == old(self).config(),
            exists|replies: Seq<BrokerReply>|
                {
                    &&& #[trigger] old(self)@.publishes(
                        old(self).config(),
                        replies,
                        final(self)@,
                        flow,
                    )
                    &&& Self::answered_by(old(self)@, old(self).config(), replies, *broker)
                },
    {
        let ghost start = self@;
        let ghost config = self.config();
        let ghost mut replies: Seq<BrokerReply> = Seq::empty();
        let fuel = self.config.fuel;
        let mut steps: usize = 0;
        let mut flow = Flow::Continue;
        while steps < fuel && flow == Flow::Continue
            invariant
                start == old(self)@,
                config == old(self).config(),
                fuel == config.fuel,
                self.wf(),
                self.config() == config,
                steps == replies.len(),
                steps <= fuel,
                start.run(config, replies) == (self@, flow),
                forall|i: int|
                    0 <= i < replies.len() ==> (#[trigger] start.run(config, replies.take(i))).1
                        == Flow::Continue,
                Self::answered_by(start, config, replies, *broker),
                forall|request: BrokerRequest| #[trigger] broker.requires((request,)),
            decreases fuel - steps,
        {
            let ghost at = self@;
            let reply = if self.ready.len() > 0 {
                match self.request() {
                    Some(request) => broker(request),
                    None => Ok(()),
                }
            } else {
                Ok(())
            };
            flow = self.advance(reply);
            proof {
                let longer = replies.push(reply);
                assert(longer.drop_last() =~= replies);
                assert(longer.take(replies.len() as int) =~= replies);
                assert forall|i: int| 0 <= i < replies.len() implies longer.take(i)
                    == replies.take(i) by {
                    assert(longer.take(i) =~= replies.take(i));
                }
                assert forall|i: int| 0 <= i < longer.len() implies (#[trigger] start.run(
                    config,
                    longer.take(i),
                )).1 == Flow::Continue by {
                    if i < replies.len() {
                        assert(longer.take(i) == replies.take(i));
                    }
                }
                assert forall|i: int| 0 <= i < longer.len() implies {
                    let at = (#[trigger] start.run(config, longer.take(i))).0;
                    match at.request(config) {
                        Some(request) if at.ready.len() > 0 => broker.ensures(
                            (request,),
                            longer[i],
                        ),
                        _ => longer[i] == Ok::<(), BrokerError>(()),
                    }
                } by {
                    if i < replies.len() {
                        assert(longer.take(i) == replies.take(i));
                        assert(longer[i] == replies[i]);
                    }
                }
                replies = longer;
            }
            steps = steps + 1;
        }
        proof {
            assert(start.publishes(config, replies, self@, flow));
        }
        flow
    }

    /// Closes the timestamps that the input frontier and the durability
    /// frontier, the meet of the upstream frontiers, have both passed.
    pub fn close_timestamps(
        &mut self,
        input_frontier: &Antichain<u64>,
        upstream: &Vec<Antichain<u64>>,
    )
        requires
            old(self).wf(),
        ensures
            final(self).wf(),
            final(self).config() == old(self).config(),
            old(self)@.closes_into(
                final(self)@,
                frontier_elements(*input_frontier),
                meet_elements(upstream@),
            ),
    {
        let durability_frontier = meet_of(upstream);
        self.close(input_frontier, &durability_frontier);
    }

    /// Decides what a turn hands back once its publish loop has ended with
    /// `flow`. `in_flight` is asked only where the turn runs to its end.
    pub fn settle<F: Fn() -> i32>(&self, flow: Flow, in_flight: &F) -> (turn: Turn)
        requires
            in_flight.requires(()),
        ensures
            exists|count: i32|
                {
                    &&& #[trigger] Turn::settled(flow, self@.ready.len(), count) == turn
                    &&& flow.completes() ==> in_flight.ensures((), count)
                },
    {
        match flow {
            Flow::Backpressure => {
                let turn = Turn {
                    again: true,
                    reactivation: Reactivation::Delayed { seconds: QUEUE_FULL_DELAY_SECS },
                    shutdown: None,
                    rejection: None,
                };
                assert(Turn::settled(flow, self@.ready.len(), 0) == turn);
                turn
            },
            Flow::Fatal => {
                let turn = Turn {
                    again: false,
                    reactivation: Reactivation::Idle,
                    shutdown: Some(true),
                    rejection: None,
                };
                assert(Turn::settled(flow, self@.ready.len(), 0) == turn);
                turn
            },
            _ => {
                let shutdown = if flow == Flow::Halted {
                    Some(false)
                } else {
                    None
                };
                let count = in_flight();
                let turn = if self.ready.len() > 0 {
                    Turn { again: true, reactivation: Reactivation::Now, shutdown, rejection: None }
                } else if count > 0 {
                    Turn {
                        again: true,
                        reactivation: Reactivation::Delayed { seconds: IN_FLIGHT_DELAY_SECS },
                        shutdown,
                        rejection: None,
                    }
                } else {
                    Turn {
                        again: false,
                        reactivation: Reactivation::Idle,
                        shutdown,
                        rejection: None,
                    }
                };
                assert(Turn::settled(flow, self@.ready.len(), count) == turn);
                turn
            },
        }
    }

    /// What a whole turn does to a publisher whose shutdown flag is not set
    /// and whose input is not refused: the updates are taken in, the
    /// timestamps that the frontiers have passed are closed, the publish loop
    /// runs on the broker's answers, and the turn is settled.
    pub open spec fn turn_runs<B: Fn(BrokerRequest) -> BrokerReply, F: Fn() -> i32>(
        start: PublisherView,
        config: SinkConfig,
        updates: Seq<Update<Vec<u8>>>,
        input: Set<u64>,
        durability: Set<u64>,
        broker: B,
        in_flight: F,
        after: PublisherView,
        turn: Turn,
    ) -> bool {
        exists|closed: PublisherView, replies: Seq<BrokerReply>, flow: Flow, count: i32|
            {
                &&& start.ingest(config, updates).closes_into(closed, input, durability)
                &&& #[trigger] closed.publishes(config, replies, after, flow)
                &&& Self::answered_by(closed, config, replies, broker)
                &&& flow.completes() ==> in_flight.ensures((), count)
                &&& #[trigger] Turn::settled(flow, after.ready.len(), count) == turn
            }
    }

    /// One turn of the publisher. `shutdown` is the shutdown flag as it stands
    /// when the turn begins. Unless it is set, no update that would be taken
    /// in may have a negative multiplicity.
    pub fn turn<B: Fn(BrokerRequest) -> BrokerReply, F: Fn() -> i32>(
        &mut self,
        shutdown: bool,
        updates: Vec<Update<Vec<u8>>>,
        input_frontier: &Antichain<u64>,
        upstream: &Vec<Antichain<u64>>,
        broker: &B,
        in_flight: &F,
    ) -> (turn: Turn)
        requires
            old(self).wf(),
            !shutdown ==> none_negative(old(self).config(), updates@),
            forall|request: BrokerRequest| #[trigger] broker.requires((request,)),
            in_flight.requires(()),
        ensures
            final(self).wf(),
            final(self).config() == old(self).config(),
            shutdown ==> final(self)@ == old(self)@ && turn == Turn::inert(),
            !shutdown ==> match turn.rejection {
                Some(rejection) => {
                    let index = rejection.index as int;
                    let reached = old(self)@.ingest(old(self).config(), updates@.take(index));
                    &&& turn == Turn::rejected(rejection)
                    &&& rejection.refusal != Refusal::NegativeMultiplicity
                    &&& index < updates.len()
                    &&& final(self)@ == reached
                    &&& forall|i: int|
                        0 <= i < index ==> !old(self)@.refuses(old(self).config(), updates@, i)
                    &&& reached.admission(
                        old(self).config(),
                        updates[index].time,
                        updates[index].diff,
                    ) == Admission::Refuse(rejection.refusal)
                },
                None => {
                    &&& forall|i: int|
                        0 <= i < updates.len() ==> !old(self)@.refuses(
                            old(self).config(),
                            updates@,
                            i,
                        )
                    &&& Self::turn_runs(
                        old(self)@,
                        old(self).config(),
                        updates@,
                        frontier_elements(*input_frontier),
                        meet_elements(upstream@),
                        *broker,
                        *in_flight,
                        final(self)@,
                        turn,
                    )
                },
            },
    {
        if shutdown {
            return Turn {
                again: false,
                reactivation: Reactivation::Idle,
                shutdown: None,
                rejection: None,
            };
        }
        match self.ingest(updates) {
            Err(rejection) => {
                return Turn {
                    again: false,
                    reactivation: Reactivation::Idle,
                    shutdown: None,
                    rejection: Some(rejection),
                };
            },
            Ok(()) => {},
        }
        self.close_timestamps(input_frontier, upstream);
        let ghost closed = self@;
        let flow = self.publish(broker);
        let turn = self.settle(flow, in_flight);
        proof {
            let replies = choose|replies: Seq<BrokerReply>|
                {
                    &&& #[trigger] closed.publishes(self.config(), replies, self@, flow)
                    &&& Self::answered_by(closed, self.config(), replies, *broker)
                };
            let count = choose|count: i32|
                {
                    &&& #[trigger] Turn::settled(flow, self@.ready.len(), count) == turn
                    &&& flow.completes() ==> in_flight.ensures((), count)
                };
            assert(closed.publishes(self.config(), replies, self@, flow));
            assert(Turn::settled(flow, self@.ready.len(), count) == turn);
        }
        turn
    }
}

} // verus!
