//! The records that flow through the sink, and the rule that admits them.

use crate::frontier::{
    frontier_elements, frontier_less_equal, frontier_less_than, some_at_or_before, some_before,
};
use timely::progress::Antichain;
use vstd::prelude::*;

verus! {

/// One change: an optional key, an optional value, the time it happened at and
/// how many copies it stands for.
#[derive(Debug)]
pub struct Update<R> {
    pub key: Option<R>,
    pub value: Option<R>,
    pub time: u64,
    pub diff: isize,
}

/// A row ready for the broker: its key and value as bytes, and the number of
/// messages it has to become.
#[derive(Debug)]
pub struct EncodedRow {
    pub key: Option<Vec<u8>>,
    pub value: Option<Vec<u8>>,
    pub count: usize,
}

/// The frontier below which nothing is emitted, and whether a time on the
/// frontier itself is kept out too.
#[derive(Debug)]
pub struct SinkAsOf {
    pub frontier: Antichain<u64>,
    pub strict: bool,
}

impl SinkAsOf {
    /// `time` is beyond the as-of frontier: strictly after one of its elements
    /// in strict mode, at or after one otherwise.
    pub open spec fn admits(self, time: u64) -> bool {
        if self.strict {
            some_before(frontier_elements(self.frontier), time)
        } else {
            some_at_or_before(frontier_elements(self.frontier), time)
        }
    }
}

/// `time` was published by an earlier run: a gate is set and `time` is at or
/// before it.
pub open spec fn gated(gate_ts: Option<u64>, time: u64) -> bool {
    gate_ts matches Some(gate) && time <= gate
}

/// An update at `time` is worked on: it is beyond the as-of frontier and not
/// at or before `gate_ts`.
pub open spec fn admissible(as_of: SinkAsOf, gate_ts: Option<u64>, time: u64) -> bool {
    as_of.admits(time) && !gated(gate_ts, time)
}

/// Decides whether an update at `time` is worked on or discarded.
pub fn should_emit(as_of: &SinkAsOf, gate_ts: Option<u64>, time: u64) -> (emit: bool)
    ensures
        emit == admissible(*as_of, gate_ts, time),
{
    let beyond = if as_of.strict {
        frontier_less_than(&as_of.frontier, time)
    } else {
        frontier_less_equal(&as_of.frontier, time)
    };
    let previously_published = match gate_ts {
        Some(gate) => time <= gate,
        None => false,
    };
    beyond && !previously_published
}

} // verus!
