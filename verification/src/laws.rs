//! What holds of the sink as a whole, proved from the state machines of the
//! publisher and the encoder.

use crate::broker::{BrokerReply, BrokerRequest, Marker};
use crate::encoder::{admitted, taken_len, EncoderConfig, EncoderView};
use crate::frontier::{frontier_elements, some_at_or_before};
use crate::model::{
    accepted, batch_ok, copies, lemma_copies_next, lemma_copies_prefix, passed, Admission, Flow,
    PublisherView, Refusal, SinkConfig, Turn,
};
use crate::send_state::SendState;
use crate::update::{gated, SinkAsOf, Update};
use vstd::prelude::*;

verus! {

/// An as-of frontier keeps out every time that none of its elements is
/// before: in strict mode a time that every element is at or after, otherwise
/// a time that every element is strictly after.
pub proof fn lemma_as_of_keeps_out(as_of: SinkAsOf, time: u64)
    requires
        forall|e: u64|
            frontier_elements(as_of.frontier).contains(e) ==> if as_of.strict {
                time <= e
            } else {
                time < e
            },
    ensures
        !as_of.admits(time),
{
}

/// An update whose time is not beyond the as-of frontier, or is at or before
/// `gate_ts`, is discarded by the publisher: it is not queued, and
/// the state stays as it was.
pub proof fn lemma_publisher_discards(
    state: PublisherView,
    config: SinkConfig,
    update: Update<Vec<u8>>,
)
    requires
        !config.as_of.admits(update.time) || gated(config.gate_ts(), update.time),
    ensures
        state.admission(config, update.time, update.diff) == Admission::Discard,
        state.accept(config, update) == state,
{
}

/// Whatever a valid publisher holds, pending or ready, stands at a time that
/// is beyond the as-of frontier and after `gate_ts`: nothing else can
/// reach the broker.
pub proof fn lemma_publisher_holds_admitted_only(state: PublisherView, config: SinkConfig)
    requires
        state.inv(config),
    ensures
        forall|t: u64| #[trigger]
            state.pending.contains_key(t) ==> config.as_of.admits(t) && !gated(config.gate_ts(), t),
        forall|i: int|
            0 <= i < state.ready.len() ==> config.as_of.admits((#[trigger] state.ready[i]).0)
                && !gated(config.gate_ts(), state.ready[i].0),
{
    assert forall|t: u64| #[trigger] state.pending.contains_key(t) implies config.as_of.admits(t)
        && !gated(config.gate_ts(), t) by {
        assert(config.admits(t));
    }
    assert forall|i: int| 0 <= i < state.ready.len() implies config.as_of.admits(
        (#[trigger] state.ready[i]).0,
    ) && !gated(config.gate_ts(), state.ready[i].0) by {
        assert(config.admits(state.ready[i].0));
    }
}

/// The encoder stashes none of the updates whose time is not beyond the
/// as-of frontier or is at or before `gate_ts`.
pub proof fn lemma_encoder_discards<R>(config: EncoderConfig, updates: Seq<Update<R>>)
    ensures
        admitted(config, updates).len() <= updates.len(),
        forall|i: int|
            0 <= i < admitted(config, updates).len() ==> {
                let kept = #[trigger] admitted(config, updates)[i];
                &&& updates.contains(kept)
                &&& config.as_of.admits(kept.time)
                &&& !gated(config.gate_ts, kept.time)
            },
    decreases updates.len(),
{
    if updates.len() > 0 {
        let front = updates.drop_last();
        lemma_encoder_discards(config, front);
        assert forall|i: int| 0 <= i < admitted(config, updates).len() implies {
            let kept = #[trigger] admitted(config, updates)[i];
            &&& updates.contains(kept)
            &&& config.as_of.admits(kept.time)
            &&& !gated(config.gate_ts, kept.time)
        } by {
            let kept = admitted(config, updates)[i];
            if i < admitted(config, front).len() {
                assert(kept == admitted(config, front)[i]);
                assert(front.contains(kept));
                let j = choose|j: int| 0 <= j < front.len() && front[j] == kept;
                assert(updates[j] == kept);
            } else {
                assert(kept == updates.last());
                assert(updates[updates.len() - 1] == kept);
            }
        }
    }
}

/// No timestamp is pending and ready at once, and every ready timestamp lies
/// before every pending one.
pub proof fn lemma_pending_and_ready_are_apart(state: PublisherView, config: SinkConfig)
    requires
        state.inv(config),
    ensures
        forall|i: int, t: u64|
            0 <= i < state.ready.len() && #[trigger] state.pending.contains_key(t) ==> (
            #[trigger] state.ready[i]).0 < t,
        forall|i: int|
            0 <= i < state.ready.len() ==> !state.pending.contains_key(
                (#[trigger] state.ready[i]).0,
            ),
{
    assert forall|i: int, t: u64|
        0 <= i < state.ready.len() && #[trigger] state.pending.contains_key(t) implies (
    #[trigger] state.ready[i]).0 < t by {
        assert(state.ready[i].0 <= state.closed_through->0);
    }
    assert forall|i: int| 0 <= i < state.ready.len() implies !state.pending.contains_key(
        (#[trigger] state.ready[i]).0,
    ) by {
        if state.pending.contains_key(state.ready[i].0) {
            assert(state.ready[i].0 < state.ready[i].0);
        }
    }
}

/// A timestamp that was closed never becomes pending again: an update at or
/// before the greatest closed timestamp is not queued, whatever else holds
/// of it.
pub proof fn lemma_closed_is_never_queued(
    state: PublisherView,
    config: SinkConfig,
    update: Update<Vec<u8>>,
)
    requires
        state.closed_through matches Some(closed) && update.time <= closed,
    ensures
        state.admission(config, update.time, update.diff) != Admission::Queue,
        state.accept(config, update) == state,
{
}

/// An update with a negative multiplicity that would otherwise be queued is
/// never dropped in silence: its admission is a refusal, and the functions
/// that take updates in leave it out of what they may be handed, so that
/// whoever holds one has to stop.
pub proof fn lemma_negative_is_refused(
    state: PublisherView,
    config: SinkConfig,
    time: u64,
    diff: isize,
)
    requires
        config.admits(time),
        diff < 0,
    ensures
        state.admission(config, time, diff) == Admission::Refuse(Refusal::NegativeMultiplicity),
{
}

/// An update with multiplicity zero is not queued: the state stays as it
/// was, so no message is ever sent for it.
pub proof fn lemma_zero_is_not_queued(
    state: PublisherView,
    config: SinkConfig,
    update: Update<Vec<u8>>,
)
    requires
        update.diff == 0,
    ensures
        state.accept(config, update) == state,
{
}

/// Every element of `later` has an element of `earlier` at or before it: a
/// frontier that moved from `earlier` to `later` did not go back.
pub open spec fn not_before(earlier: Set<u64>, later: Set<u64>) -> bool {
    forall|e: u64| later.contains(e) ==> some_at_or_before(earlier, e)
}

/// A step of the publish loop leaves a valid publisher valid.
pub proof fn lemma_step_keeps_valid(state: PublisherView, config: SinkConfig, reply: BrokerReply)
    requires
        state.inv(config),
    ensures
        state.step(config, reply).0.inv(config),
{
    let after = state.step(config, reply).0;
    let answer = if state.request(config) is Some {
        reply
    } else {
        Ok(())
    };
    if state.ready.len() > 0 {
        let rows = state.ready[0].1;
        assert(batch_ok(rows));
        match state.state {
            SendState::Shutdown => {},
            SendState::Begin => {
                if answer is Ok {
                    assert(rows[0].count >= 1);
                    assert(rows.take(0) =~= Seq::empty());
                    assert(copies(rows.take(0)) == 0);
                }
            },
            SendState::Draining { row_index, repeat_counter, total_sent } => {
                if answer is Ok {
                    lemma_copies_next(rows, row_index as int);
                    lemma_copies_prefix(rows, row_index + 1);
                    assert(rows.take(rows.len() as int) =~= rows);
                    if row_index + 1 < rows.len() {
                        assert(rows[row_index + 1].count >= 1);
                    }
                }
            },
            SendState::End(_) => {},
            SendState::CommitTxn => {
                match answer {
                    Ok(()) => {
                        let time = state.ready[0].0;
                        assert(after.ready == state.ready.drop_first());
                        assert(after.write_frontier == set![time]);
                        assert(after.write_frontier.contains(time));
                        assert forall|i: int| 0 <= i < after.ready.len() implies {
                            &&& batch_ok((#[trigger] after.ready[i]).1)
                            &&& config.admits(after.ready[i].0)
                            &&& after.closed_through matches Some(c) && after.ready[i].0 <= c
                        } by {
                            assert(after.ready[i] == state.ready[i + 1]);
                        }
                        assert forall|i: int, j: int|
                            0 <= i < j < after.ready.len() implies (#[trigger] after.ready[i]).0
                            < (#[trigger] after.ready[j]).0 by {
                            assert(after.ready[i] == state.ready[i + 1]);
                            assert(after.ready[j] == state.ready[j + 1]);
                        }
                        if after.ready.len() > 0 {
                            assert(after.ready[0] == state.ready[1]);
                            assert(state.ready[0].0 < state.ready[1].0);
                        }
                        assert(state.ready[0].0 <= state.closed_through->0);
                    },
                    Err(_) => {},
                }
            },
            _ => {},
        }
    }
}

/// The publish loop leaves a valid publisher valid, whatever the broker
/// answers.
pub proof fn lemma_run_keeps_valid(
    state: PublisherView,
    config: SinkConfig,
    replies: Seq<BrokerReply>,
)
    requires
        state.inv(config),
    ensures
        state.run(config, replies).0.inv(config),
    decreases replies.len(),
{
    if replies.len() > 0 {
        lemma_run_keeps_valid(state, config, replies.drop_last());
        let (before, flow) = state.run(config, replies.drop_last());
        lemma_step_keeps_valid(before, config, replies.last());
    }
}

/// A step changes the write frontier only by committing the batch at the
/// front of the ready queue, and then the frontier is the timestamp of that
/// batch alone. The frontier never goes back.
pub proof fn lemma_step_moves_frontier_forward(
    state: PublisherView,
    config: SinkConfig,
    reply: BrokerReply,
)
    requires
        state.inv(config),
    ensures
        ({
            let after = state.step(config, reply).0;
            let committed = state.ready.len() > 0 && state.state == SendState::CommitTxn && (
            !config.transactional || reply is Ok);
            &&& committed ==> after.write_frontier == set![state.ready[0].0] && after.ready
                == state.ready.drop_first()
            &&& !committed ==> after.write_frontier == state.write_frontier && after.ready
                == state.ready
            &&& not_before(state.write_frontier, after.write_frontier)
        }),
{
    let after = state.step(config, reply).0;
    if after.write_frontier != state.write_frontier {
        assert(after.write_frontier == set![state.ready[0].0]);
        assert forall|e: u64| after.write_frontier.contains(e) implies some_at_or_before(
            state.write_frontier,
            e,
        ) by {
            assert(e == state.ready[0].0);
        }
    }
}

/// Over a whole publish loop the write frontier never goes back.
pub proof fn lemma_run_moves_frontier_forward(
    state: PublisherView,
    config: SinkConfig,
    replies: Seq<BrokerReply>,
)
    requires
        state.inv(config),
    ensures
        not_before(state.write_frontier, state.run(config, replies).0.write_frontier),
    decreases replies.len(),
{
    if replies.len() > 0 {
        let (before, flow) = state.run(config, replies.drop_last());
        let after = state.run(config, replies).0;
        lemma_run_moves_frontier_forward(state, config, replies.drop_last());
        lemma_run_keeps_valid(state, config, replies.drop_last());
        lemma_step_moves_frontier_forward(before, config, replies.last());
        assert forall|e: u64| after.write_frontier.contains(e) implies some_at_or_before(
            state.write_frontier,
            e,
        ) by {
            assert(some_at_or_before(before.write_frontier, e));
            let mid = choose|m: u64| #[trigger] before.write_frontier.contains(m) && m <= e;
            assert(some_at_or_before(state.write_frontier, mid));
            let low = choose|l: u64| #[trigger] state.write_frontier.contains(l) && l <= mid;
            assert(state.write_frontier.contains(low) && low <= e);
        }
    }
}

/// While a row is being sent, each step asks the broker for one more copy of
/// that same row, and each accepted send counts one; the protocol moves on to
/// the next row, or to the end of the batch, with the send that makes the
/// copies as many as the row's count, and not before.
pub proof fn lemma_row_expansion(state: PublisherView, config: SinkConfig, sends: nat)
    requires
        state.inv(config),
        state.state is Draining,
        state.state->repeat_counter + sends <= state.ready[0].1[state.state->row_index as int].count,
    ensures
        ({
            let rows = state.ready[0].1;
            let row_index = state.state->row_index;
            let copies_sent = state.state->repeat_counter + sends;
            let total = state.state->total_sent + sends;
            let (after, flow) = state.run(config, accepted(sends));
            &&& flow == Flow::Continue
            &&& state.asked(config, accepted(sends)) == sends
            &&& after.inv(config)
            &&& after.ready == state.ready
            &&& after.pending == state.pending
            &&& after.write_frontier == state.write_frontier
            &&& copies_sent < rows[row_index as int].count ==> {
                &&& after.state == SendState::Draining {
                    row_index,
                    repeat_counter: copies_sent as usize,
                    total_sent: total as i64,
                }
                &&& after.request(config) matches Some(
                    BrokerRequest::SendRow { key, value, completes_row },
                )
                &&& state.request(config) matches Some(
                    BrokerRequest::SendRow { key: first_key, value: first_value, .. },
                )
                &&& key == first_key
                &&& value == first_value
                &&& completes_row == (copies_sent + 1 == rows[row_index as int].count)
            }
            &&& copies_sent == rows[row_index as int].count ==> after.state == if row_index + 1
                == rows.len() {
                SendState::End(total as i64)
            } else {
                SendState::Draining {
                    row_index: (row_index + 1) as usize,
                    repeat_counter: 0,
                    total_sent: total as i64,
                }
            }
        }),
    decreases sends,
{
    let rows = state.ready[0].1;
    let row_index = state.state->row_index;
    assert(batch_ok(rows));
    lemma_copies_next(rows, row_index as int);
    lemma_copies_prefix(rows, row_index + 1);
    if sends > 0 {
        let fewer = (sends - 1) as nat;
        lemma_row_expansion(state, config, fewer);
        assert(accepted(sends).drop_last() =~= accepted(fewer));
        let (before, flow) = state.run(config, accepted(fewer));
        lemma_step_keeps_valid(before, config, accepted(sends).last());
    }
}

/// From any point of a batch, as many accepted sends as there are copies
/// left bring the protocol to the end of the batch, and the count that the
/// closing marker will carry is the number of copies in the batch.
pub proof fn lemma_drain_counts_every_copy(state: PublisherView, config: SinkConfig, sends: nat)
    requires
        state.inv(config),
        state.state is Draining,
        sends <= copies(state.ready[0].1) - state.state->total_sent,
    ensures
        state.state->total_sent < copies(state.ready[0].1),
        ({
            let rows = state.ready[0].1;
            let (after, flow) = state.run(config, accepted(sends));
            &&& flow == Flow::Continue
            &&& after.inv(config)
            &&& after.ready == state.ready
            &&& if state.state->total_sent + sends == copies(rows) {
                after.state == SendState::End(copies(rows) as i64)
            } else {
                after.state is Draining && after.state->total_sent == state.state->total_sent
                    + sends
            }
        }),
    decreases sends,
{
    let rows = state.ready[0].1;
    assert(batch_ok(rows));
    lemma_draining_is_short_of_total(state, config);
    if sends > 0 {
        let fewer = (sends - 1) as nat;
        lemma_drain_counts_every_copy(state, config, fewer);
        assert(accepted(sends).drop_last() =~= accepted(fewer));
        let (before, flow) = state.run(config, accepted(fewer));
        let after = before.step(config, accepted(sends).last()).0;
        lemma_step_keeps_valid(before, config, accepted(sends).last());
        if after.state is Draining {
            lemma_draining_is_short_of_total(after, config);
        }
    }
}

/// While rows are being sent, fewer messages have been sent than the batch
/// stands for.
pub proof fn lemma_draining_is_short_of_total(state: PublisherView, config: SinkConfig)
    requires
        state.inv(config),
        state.state is Draining,
    ensures
        state.state->total_sent < copies(state.ready[0].1),
{
    let rows = state.ready[0].1;
    let row_index = state.state->row_index;
    lemma_copies_next(rows, row_index as int);
    lemma_copies_prefix(rows, row_index + 1);
}

/// After an abort the batch is driven again from its first row: once the
/// abort, the new transaction and the opening marker are accepted, the
/// protocol stands before the first copy of the first row with nothing
/// counted as sent, and the batch is as it was.
pub proof fn lemma_abort_redrives_from_the_top(state: PublisherView, config: SinkConfig)
    requires
        state.inv(config),
        state.state == SendState::AbortTxn,
    ensures
        ({
            let (after, flow) = state.run(config, accepted(3));
            &&& flow == Flow::Continue
            &&& after.state == SendState::Draining { row_index: 0, repeat_counter: 0, total_sent: 0 }
            &&& after.ready == state.ready
            &&& after.pending == state.pending
            &&& after.write_frontier == state.write_frontier
        }),
{
    let three = accepted(3);
    let two = three.drop_last();
    let one = two.drop_last();
    let none = one.drop_last();
    assert(none =~= Seq::empty());
    assert(state.run(config, none) == (state, Flow::Continue));
    assert(state.run(config, one).0.state == SendState::BeginTxn);
    assert(state.run(config, two).0.state == SendState::Begin);
}

/// The closing marker of a batch carries the number of messages that the
/// batch stands for, however often the batch was aborted and driven again.
pub proof fn lemma_end_carries_the_total(state: PublisherView, config: SinkConfig)
    requires
        state.inv(config),
        state.state is End,
    ensures
        state.state->0 == copies(state.ready[0].1),
        config.consistency is Some ==> state.request(config) == Some(
            BrokerRequest::SendMarker {
                schema_id: config.consistency->0.schema_id,
                time: state.ready[0].0,
                marker: Marker::End,
                count: Some(copies(state.ready[0].1) as i64),
            },
        ),
{
}

/// A timestamp is closed only when both frontiers have passed it, and a
/// closed timestamp is pending no longer; a timestamp that either frontier
/// has not passed stays pending and out of the ready queue.
pub proof fn lemma_closing_is_gated(
    before: PublisherView,
    after: PublisherView,
    config: SinkConfig,
    input: Set<u64>,
    durability: Set<u64>,
)
    requires
        before.inv(config),
        before.closes_into(after, input, durability),
    ensures
        forall|i: int|
            before.ready.len() <= i < after.ready.len() ==> {
                let time = (#[trigger] after.ready[i]).0;
                &&& !some_at_or_before(input, time)
                &&& !some_at_or_before(durability, time)
                &&& before.pending.contains_key(time)
                &&& !after.pending.contains_key(time)
            },
        forall|t: u64|
            before.pending.contains_key(t) && (some_at_or_before(input, t) || some_at_or_before(
                durability,
                t,
            )) ==> {
                &&& #[trigger] after.pending.contains_key(t)
                &&& forall|i: int| 0 <= i < after.ready.len() ==> (#[trigger] after.ready[i]).0 != t
            },
{
    let n = before.ready.len() as int;
    assert forall|t: u64|
        before.pending.contains_key(t) && (some_at_or_before(input, t) || some_at_or_before(
            durability,
            t,
        )) implies {
        &&& #[trigger] after.pending.contains_key(t)
        &&& forall|i: int| 0 <= i < after.ready.len() ==> (#[trigger] after.ready[i]).0 != t
    } by {
        assert(!passed(input, durability, t));
        assert forall|i: int| 0 <= i < after.ready.len() implies (#[trigger] after.ready[i]).0
            != t by {
            if i < n {
                assert(after.ready[i] == after.ready.take(n)[i]);
                assert(after.ready[i] == before.ready[i]);
            } else {
                assert(passed(input, durability, after.ready[i].0));
            }
        }
    }
}

/// The publish loop makes at most one request of the broker in each step:
/// no more requests than answers.
pub proof fn lemma_asked_once_a_step(
    state: PublisherView,
    config: SinkConfig,
    replies: Seq<BrokerReply>,
)
    ensures
        state.asked(config, replies) <= replies.len(),
    decreases replies.len(),
{
    if replies.len() > 0 {
        lemma_asked_once_a_step(state, config, replies.drop_last());
    }
}

/// In one turn the publisher makes no more requests of the broker than its
/// fuel.
pub proof fn lemma_publish_within_fuel(
    state: PublisherView,
    config: SinkConfig,
    replies: Seq<BrokerReply>,
    after: PublisherView,
    flow: Flow,
)
    requires
        state.publishes(config, replies, after, flow),
    ensures
        state.asked(config, replies) <= config.fuel,
{
    lemma_asked_once_a_step(state, config, replies);
}

/// Once a step has ended the publish loop, further answers change nothing
/// and nothing more is asked of the broker: after the queue was full or a
/// send failed, the turn is over.
pub proof fn lemma_run_stops(
    state: PublisherView,
    config: SinkConfig,
    replies: Seq<BrokerReply>,
    more: Seq<BrokerReply>,
)
    requires
        state.run(config, replies).1 != Flow::Continue,
    ensures
        state.run(config, replies + more) == state.run(config, replies),
        state.asked(config, replies + more) == state.asked(config, replies),
    decreases more.len(),
{
    if more.len() == 0 {
        assert(replies + more =~= replies);
    } else {
        lemma_run_stops(state, config, replies, more.drop_last());
        assert((replies + more).drop_last() =~= replies + more.drop_last());
    }
}

/// In its shutdown state the protocol asks nothing of the broker and stays
/// where it is, whatever is ready and however often it is stepped.
pub proof fn lemma_shutdown_state_is_silent(
    state: PublisherView,
    config: SinkConfig,
    replies: Seq<BrokerReply>,
)
    requires
        state.state == SendState::Shutdown,
    ensures
        state.request(config) is None,
        state.run(config, replies).0 == state,
        state.asked(config, replies) == 0,
    decreases replies.len(),
{
    if replies.len() > 0 {
        lemma_shutdown_state_is_silent(state, config, replies.drop_last());
    }
}

/// A turn that finds the shutdown flag set, and a turn whose send failed for
/// good, both report that the operator is done and ask for no activation.
pub proof fn lemma_shutdown_reports_done(ready: nat, in_flight: i32)
    ensures
        !Turn::inert().again,
        Turn::inert().shutdown is None,
        !Turn::settled(Flow::Fatal, ready, in_flight).again,
        Turn::settled(Flow::Fatal, ready, in_flight).shutdown == Some(true),
{
}

/// The work of one turn of the encoder takes as many updates as it uses up
/// fuel: what is taken and the fuel that is left add up to the fuel of the
/// turn, so no turn encodes more rows than its fuel.
pub proof fn lemma_round_within_fuel<C, R>(state: EncoderView<C, R>, fuel: nat)
    ensures
        taken_len(state.round(fuel).2) + state.round(fuel).1 == fuel,
{
    let (after, left, taken) = state.round(fuel);
    assert(taken.len() <= 1 && (taken.len() == 0 ==> left == fuel) && (taken.len() == 1
        ==> taken[0].updates.len() + left == fuel)) by {
        reveal(EncoderView::round);
    }
    if taken.len() == 0 {
        assert(taken_len(taken) == 0);
    } else {
        assert(taken.drop_last().len() == 0);
        assert(taken_len(taken.drop_last()) == 0);
        assert(taken.last() == taken[0]);
        assert(taken_len(taken) == taken_len(taken.drop_last()) + taken.last().updates.len());
    }
}

} // verus!
