//! The stream encoder: it stashes the updates that arrive, by the timestamp
//! of the capability they came with, and on each turn encodes a bounded
//! number of those under the lowest stashed timestamp.

use crate::update::{admissible, should_emit, SinkAsOf, Update};
use std::collections::HashMap;
use vstd::prelude::*;
use vstd::std_specs::hash::group_hash_axioms;
use vstd::std_specs::iter::IteratorSpec;

verus! {

/// What the encoder was set up with.
#[derive(Debug)]
pub struct EncoderConfig {
    /// Lower bound of what is emitted.
    pub as_of: SinkAsOf,
    /// Timestamp up to which an earlier run has published.
    pub gate_ts: Option<u64>,
    /// Schema that keys are encoded with; unset where rows have no key.
    pub key_schema_id: Option<i32>,
    /// Schema that values are encoded with.
    pub value_schema_id: i32,
    /// How many rows one turn may encode.
    pub fuel: usize,
}

impl EncoderConfig {
    /// An update at `time` is beyond the as-of frontier and after `gate_ts`.
    pub open spec fn admits(self, time: u64) -> bool {
        admissible(self.as_of, self.gate_ts, time)
    }
}

/// The updates among `updates` that the configuration admits, in their order.
pub open spec fn admitted<R>(config: EncoderConfig, updates: Seq<Update<R>>) -> Seq<Update<R>>
    decreases updates.len(),
{
    if updates.len() == 0 {
        Seq::empty()
    } else if config.admits(updates.last().time) {
        admitted(config, updates.drop_last()).push(updates.last())
    } else {
        admitted(config, updates.drop_last())
    }
}

/// The updates stashed for one timestamp, and the token that permits
/// emitting at it.
struct Stashed<C, R> {
    token: C,
    updates: Vec<Update<R>>,
}

/// What the encoder emits in one go: encoded rows, all stashed under the
/// timestamp `time`, in the order in which they arrived.
#[derive(Debug)]
pub struct Emission<C> {
    /// The timestamp that the rows were stashed under.
    pub time: u64,
    /// The encoded rows.
    pub rows: Vec<Update<Vec<u8>>>,
    /// The token of `time`, handed back once nothing is stashed under it any
    /// more.
    pub released: Option<C>,
}

/// The state of the encoder: for each stashed timestamp its token and the
/// updates that wait under it.
#[verifier::ext_equal]
pub struct EncoderView<C, R> {
    pub stash: Map<u64, (C, Seq<Update<R>>)>,
}

/// What the work of one turn takes from the stash.
pub struct Taken<C, R> {
    /// The timestamp it was stashed under.
    pub time: u64,
    /// The updates taken, in their order.
    pub updates: Seq<Update<R>>,
    /// The token of `time`, where nothing is left under it.
    pub released: Option<C>,
}

impl<C, R> EncoderView<C, R> {
    /// What always holds of an encoder.
    pub open spec fn inv(self, config: EncoderConfig) -> bool {
        &&& self.stash.dom().finite()
        &&& forall|t: u64, i: int|
            self.stash.contains_key(t) && 0 <= i < self.stash[t].1.len() ==> config.admits(
                (#[trigger] self.stash[t].1[i]).time,
            )
    }

    /// The least timestamp that something is stashed under.
    pub open spec fn lowest(self) -> u64 {
        choose|t: u64|
            self.stash.contains_key(t) && forall|o: u64| self.stash.contains_key(o) ==> t <= o
    }

    /// The work of a turn with `fuel` rows to encode would encode a key: one
    /// of the updates that it would take has one.
    pub open spec fn next_keyed(self, fuel: nat) -> bool {
        &&& fuel > 0
        &&& !self.stash.dom().is_empty()
        &&& exists|i: int|
            0 <= i < self.stash[self.lowest()].1.len() && i < fuel && (
            #[trigger] self.stash[self.lowest()].1[i]).key is Some
    }

    /// The state after `updates` arrived with `token`, a token for `time`:
    /// those that are admitted join what is stashed under `time`. The token
    /// is kept only where nothing was stashed under `time` before.
    pub open spec fn stashed(
        self,
        config: EncoderConfig,
        time: u64,
        token: C,
        updates: Seq<Update<R>>,
    ) -> EncoderView<C, R> {
        let entry = if self.stash.contains_key(time) {
            self.stash[time]
        } else {
            (token, Seq::empty())
        };
        EncoderView { stash: self.stash.insert(time, (entry.0, entry.1 + admitted(config, updates))) }
    }

    /// The work of one turn with `fuel` rows to encode: of the lowest stashed
    /// timestamp alone, as many updates are taken as the fuel allows, from the
    /// front; a timestamp with nothing left gives up its token. Handed back
    /// are the stash afterwards, the fuel that is left, and what was taken.
    /// Without fuel, or with an empty stash, nothing happens.
    #[verifier::opaque]
    pub open spec fn round(self, fuel: nat) -> (EncoderView<C, R>, nat, Seq<Taken<C, R>>) {
        if fuel == 0 || self.stash.dom().is_empty() {
            (self, fuel, Seq::empty())
        } else {
            let time = self.lowest();
            let (token, updates) = self.stash[time];
            let n = if updates.len() <= fuel {
                updates.len()
            } else {
                fuel
            };
            if n == updates.len() {
                (
                    EncoderView { stash: self.stash.remove(time) },
                    (fuel - n) as nat,
                    seq![Taken { time, updates, released: Some(token) }],
                )
            } else {
                (
                    EncoderView { stash: self.stash.insert(time, (token, updates.skip(n as int))) },
                    0,
                    seq![Taken { time, updates: updates.take(n as int), released: None }],
                )
            }
        }
    }
}

/// How many updates were taken in all.
pub open spec fn taken_len<C, R>(taken: Seq<Taken<C, R>>) -> nat
    decreases taken.len(),
{
    if taken.len() == 0 {
        0
    } else {
        taken_len(taken.drop_last()) + taken.last().updates.len()
    }
}

/// How many rows the emissions hold in all.
pub open spec fn emitted_len<C>(emissions: Seq<Emission<C>>) -> nat
    decreases emissions.len(),
{
    if emissions.len() == 0 {
        0
    } else {
        emitted_len(emissions.drop_last()) + emissions.last().rows@.len()
    }
}

/// `emission` is `taken`, encoded: the same timestamp and token, and row for
/// row the update encoded.
pub open spec fn emitted_as<C, R, K: Fn(i32, R) -> Vec<u8>, V: Fn(i32, R) -> Vec<u8>>(
    config: EncoderConfig,
    encode_key: K,
    encode_value: V,
    taken: Taken<C, R>,
    emission: Emission<C>,
) -> bool {
    &&& emission.time == taken.time
    &&& emission.released == taken.released
    &&& emission.rows@.len() == taken.updates.len()
    &&& forall|i: int|
        0 <= i < taken.updates.len() ==> encodes(
            config,
            encode_key,
            encode_value,
            taken.updates[i],
            #[trigger] emission.rows@[i],
        )
}

/// `emissions` are `taken`, encoded one for one.
pub open spec fn emits<C, R, K: Fn(i32, R) -> Vec<u8>, V: Fn(i32, R) -> Vec<u8>>(
    config: EncoderConfig,
    encode_key: K,
    encode_value: V,
    taken: Seq<Taken<C, R>>,
    emissions: Seq<Emission<C>>,
) -> bool {
    &&& emissions.len() == taken.len()
    &&& forall|j: int|
        0 <= j < taken.len() ==> emitted_as(
            config,
            encode_key,
            encode_value,
            taken[j],
            #[trigger] emissions[j],
        )
}

/// `row` is `update` encoded: same time and multiplicity, a key where the
/// update has one and a value where it has one, each as the encoder for it
/// gave it for the schema set for it.
pub open spec fn encodes<R, K: Fn(i32, R) -> Vec<u8>, V: Fn(i32, R) -> Vec<u8>>(
    config: EncoderConfig,
    encode_key: K,
    encode_value: V,
    update: Update<R>,
    row: Update<Vec<u8>>,
) -> bool {
    &&& row.time == update.time
    &&& row.diff == update.diff
    &&& match update.key {
        Some(key) => row.key matches Some(bytes) && config.key_schema_id matches Some(schema)
            && encode_key.ensures((schema, key), bytes),
        None => row.key is None,
    }
    &&& match update.value {
        Some(value) => row.value matches Some(bytes) && encode_value.ensures(
            (config.value_schema_id, value),
            bytes,
        ),
        None => row.value is None,
    }
}

/// The stream encoder's state between turns. `C` is the type of the tokens
/// that permit emitting at a timestamp, `R` the type of a row before it is
/// encoded.
pub struct StreamEncoder<C, R> {
    config: EncoderConfig,
    stash: HashMap<u64, Stashed<C, R>>,
}

impl<C, R> View for StreamEncoder<C, R> {
    type V = EncoderView<C, R>;

    closed spec fn view(&self) -> EncoderView<C, R> {
        EncoderView {
            stash: self.stash@.map_values(|entry: Stashed<C, R>| (entry.token, entry.updates@)),
        }
    }
}

/// The least key of a stash that is not empty.
fn lowest_time<C, R>(stash: &HashMap<u64, Stashed<C, R>>) -> (lowest: u64)
    requires
        !stash@.dom().is_empty(),
    ensures
        stash@.contains_key(lowest),
        forall|o: u64| stash@.contains_key(o) ==> lowest <= o,
{
    broadcast use group_hash_axioms;

    let mut lowest: Option<u64> = None;
    let ghost keys: Seq<u64> = stash.keys().remaining().unref();
    for key in it: stash.keys()
        invariant
            it.seq().unref() == keys,
            keys.to_set() == stash@.dom(),
            it.index() > 0 ==> lowest is Some,
            lowest matches Some(t) ==> keys.contains(t) && forall|j: int|
                0 <= j < it.index() ==> t <= keys[j],
    {
        let time: u64 = *key;
        assert(keys[it.index()] == time);
        lowest = match lowest {
            Some(t) => if time < t {
                Some(time)
            } else {
                Some(t)
            },
            None => Some(time),
        };
    }
    proof {
        assert forall|t: u64| stash@.contains_key(t) <==> keys.contains(t) by {
            assert(keys.to_set().contains(t) <==> keys.contains(t));
        }
        assert(keys.len() == 0 ==> stash@.dom() =~= Set::<u64>::empty());
    }
    match lowest {
        Some(t) => t,
        None => 0,
    }
}

/// Encodes the updates one by one: the key with the key schema where there is
/// a key, the value with the value schema where there is a value.
fn encode_rows<R, K: Fn(i32, R) -> Vec<u8>, V: Fn(i32, R) -> Vec<u8>>(
    config: &EncoderConfig,
    updates: Vec<Update<R>>,
    encode_key: &K,
    encode_value: &V,
) -> (rows: Vec<Update<Vec<u8>>>)
    requires
        forall|i: int|
            0 <= i < updates.len() && (#[trigger] updates[i]).key is Some
                ==> config.key_schema_id is Some,
        forall|schema: i32, row: R| #[trigger] encode_key.requires((schema, row)),
        forall|schema: i32, row: R| #[trigger] encode_value.requires((schema, row)),
    ensures
        rows.len() == updates.len(),
        forall|i: int|
            0 <= i < updates.len() ==> encodes(
                *config,
                *encode_key,
                *encode_value,
                updates[i],
                #[trigger] rows[i],
            ),
{
    let ghost all = updates@;
    let mut rows: Vec<Update<Vec<u8>>> = Vec::new();
    for update in it: updates
        invariant
            it.seq() == all,
            rows.len() == it.index(),
            forall|i: int|
                0 <= i < all.len() && (#[trigger] all[i]).key is Some
                    ==> config.key_schema_id is Some,
            forall|schema: i32, row: R| #[trigger] encode_key.requires((schema, row)),
            forall|schema: i32, row: R| #[trigger] encode_value.requires((schema, row)),
            forall|i: int|
                0 <= i < rows.len() ==> encodes(
                    *config,
                    *encode_key,
                    *encode_value,
                    all[i],
                    #[trigger] rows[i],
                ),
    {
        assert(all[it.index()] == update);
        let Update { key, value, time, diff } = update;
        let key = match key {
            Some(key) => match config.key_schema_id {
                Some(schema) => Some(encode_key(schema, key)),
                None => None,
            },
            None => None,
        };
        let value = match value {
            Some(value) => Some(encode_value(config.value_schema_id, value)),
            None => None,
        };
        rows.push(Update { key, value, time, diff });
    }
    rows
}

/// A stashed timestamp that none is below is the lowest.
proof fn lemma_lowest_is<C, R>(state: EncoderView<C, R>, time: u64)
    requires
        state.stash.contains_key(time),
        forall|o: u64| state.stash.contains_key(o) ==> time <= o,
    ensures
        state.lowest() == time,
{
    let chosen = state.lowest();
    assert(state.stash.contains_key(chosen));
}

impl<C, R> StreamEncoder<C, R> {
    /// What the encoder was set up with.
    pub closed spec fn config(&self) -> EncoderConfig {
        self.config
    }

    /// The encoder is in a state that its own functions can leave it in.
    pub open spec fn wf(&self) -> bool {
        self@.inv(self.config())
    }

    /// An encoder with an empty stash.
    pub fn new(config: EncoderConfig) -> (encoder: StreamEncoder<C, R>)
        ensures
            encoder.wf(),
            encoder.config() == config,
            encoder@.stash == Map::<u64, (C, Seq<Update<R>>)>::empty(),
    {
        let encoder = StreamEncoder { config, stash: HashMap::new() };
        proof {
            broadcast use group_hash_axioms;

            assert(encoder@.stash =~= Map::empty());
        }
        encoder
    }

    /// Whether nothing is stashed.
    pub fn is_empty(&self) -> (empty: bool)
        ensures
            empty == self@.stash.dom().is_empty(),
    {
        proof {
            broadcast use group_hash_axioms;

            assert(self@.stash.dom() =~= self.stash@.dom());
        }
        self.stash.is_empty()
    }

    /// The token held for `time`, if anything is stashed under it.
    pub fn token(&self, time: u64) -> (token: Option<&C>)
        ensures
            token == if self@.stash.contains_key(time) {
                Some(&self@.stash[time].0)
            } else {
                None
            },
    {
        broadcast use group_hash_axioms;

        match self.stash.get(&time) {
            Some(entry) => Some(&entry.token),
            None => None,
        }
    }

    /// Whether the work of the next turn would encode a key.
    pub fn next_keyed(&self) -> (keyed: bool)
        requires
            self.wf(),
        ensures
            keyed == self@.next_keyed(self.config().fuel as nat),
    {
        broadcast use group_hash_axioms;

        let fuel = self.config.fuel;
        if fuel == 0 || self.is_empty() {
            return false;
        }
        proof {
            assert(self@.stash.dom() =~= self.stash@.dom());
        }
        let lowest = lowest_time(&self.stash);
        proof {
            lemma_lowest_is(self@, lowest);
        }
        match self.stash.get(&lowest) {
            Some(entry) => {
                let ghost waiting = self@.stash[lowest].1;
                assert(entry.updates@ == waiting);
                let mut index: usize = 0;
                while index < entry.updates.len() && index < fuel
                    invariant
                        index <= entry.updates.len(),
                        entry.updates@ == waiting,
                        waiting == self@.stash[self@.lowest()].1,
                        fuel == self.config().fuel,
                        fuel > 0,
                        !self@.stash.dom().is_empty(),
                        forall|i: int| 0 <= i < index ==> (#[trigger] waiting[i]).key is None,
                    decreases entry.updates.len() - index,
                {
                    if entry.updates[index].key.is_some() {
                        assert(waiting[index as int].key is Some);
                        return true;
                    }
                    index = index + 1;
                }
                false
            },
            None => false,
        }
    }

    /// Takes in the updates that arrived with `token`, a token for `time`:
    /// those that are not beyond the as-of frontier, or not after `gate_ts`,
    /// are discarded; the others join the stash of `time`.
    pub fn stash(&mut self, time: u64, token: C, updates: Vec<Update<R>>)
        requires
            old(self).wf(),
        ensures
            final(self).wf(),
            final(self).config() == old(self).config(),
            final(self)@ == old(self)@.stashed(old(self).config(), time, token, updates@),
    {
        broadcast use group_hash_axioms;

        let ghost all = updates@;
        let ghost config = self.config;
        let mut kept: Vec<Update<R>> = Vec::new();
        for update in it: updates
            invariant
                it.seq() == all,
                config == self.config,
                *self == *old(self),
                kept@ == admitted(config, all.take(it.index())),
                forall|i: int| 0 <= i < kept.len() ==> config.admits((#[trigger] kept[i]).time),
        {
            assert(all[it.index()] == update);
            assert(all.take(it.index() + 1).drop_last() =~= all.take(it.index()));
            if should_emit(&self.config.as_of, self.config.gate_ts, update.time) {
                kept.push(update);
            }
        }
        assert(all.take(all.len() as int) =~= all);
        let ghost before = old(self)@.stash;
        let entry = self.stash.entry(time).or_insert(Stashed { token, updates: Vec::new() });
        let ghost held = entry.updates@;
        entry.updates.append(&mut kept);
        proof {
            let added = admitted(config, all);
            let now = if before.contains_key(time) {
                before[time]
            } else {
                (token, Seq::<Update<R>>::empty())
            };
            assert(held == now.1);
            assert(self@.stash =~= before.insert(time, (now.0, now.1 + added)));
            assert forall|t: u64, i: int|
                self@.stash.contains_key(t) && 0 <= i < self@.stash[t].1.len() implies config.admits(
                (#[trigger] self@.stash[t].1[i]).time,
            ) by {
                if t == time {
                    if i < now.1.len() {
                        assert(before.contains_key(time));
                        assert(self@.stash[t].1[i] == before[time].1[i]);
                    } else {
                        assert(self@.stash[t].1[i] == added[i - now.1.len()]);
                    }
                } else {
                    assert(before.contains_key(t));
                    assert(self@.stash[t].1[i] == before[t].1[i]);
                }
            }
            assert(self@.stash.dom() =~= self.stash@.dom());
        }
    }

    /// The round of a turn that has fuel and a stash that is not empty: see
    /// `EncoderView::round`.
    fn round<K: Fn(i32, R) -> Vec<u8>, V: Fn(i32, R) -> Vec<u8>>(
        &mut self,
        fuel: usize,
        encode_key: &K,
        encode_value: &V,
    ) -> (out: (Emission<C>, usize, Ghost<Taken<C, R>>))
        requires
            old(self).wf(),
            fuel > 0,
            !old(self)@.stash.dom().is_empty(),
            old(self).config().key_schema_id is None ==> !old(self)@.next_keyed(fuel as nat),
            forall|schema: i32, row: R| #[trigger] encode_key.requires((schema, row)),
            forall|schema: i32, row: R| #[trigger] encode_value.requires((schema, row)),
        ensures
            final(self).wf(),
            final(self).config() == old(self).config(),
            old(self)@.round(fuel as nat) == (final(self)@, out.1 as nat, seq![out.2@]),
            out.1 + out.0.rows@.len() == fuel,
            final(self)@.stash.dom().len() <= old(self)@.stash.dom().len(),
            out.1 == 0 || final(self)@.stash.dom().len() < old(self)@.stash.dom().len(),
            emitted_as(old(self).config(), *encode_key, *encode_value, out.2@, out.0),
    {
        broadcast use group_hash_axioms;

        let ghost config = self.config;
        let ghost before = self@;
        proof {
            reveal(EncoderView::round);
            assert(before.stash.dom() =~= self.stash@.dom());
        }
        let lowest = lowest_time(&self.stash);
        proof {
            lemma_lowest_is(before, lowest);
        }
        let entry = self.stash.remove(&lowest).unwrap();
        let Stashed { token, updates } = entry;
        let ghost waiting = updates@;
        assert(before.stash[lowest] == (token, waiting));
        let mut updates = updates;
        let count = if updates.len() <= fuel {
            updates.len()
        } else {
            fuel
        };
        let rest = updates.split_off(count);
        assert(updates@ =~= waiting.take(count as int));
        assert(rest@ =~= waiting.skip(count as int));
        assert forall|i: int| 0 <= i < updates.len() && (#[trigger] updates[i]).key is Some
            implies config.key_schema_id is Some by {
            assert(updates[i] == before.stash[before.lowest()].1[i]);
        }
        let rows = encode_rows(&self.config, updates, encode_key, encode_value);
        let left = fuel - count;
        if rest.len() == 0 {
            proof {
                assert(waiting.take(count as int) =~= waiting);
                assert(self@.stash =~= before.stash.remove(lowest));
                assert(self@.stash.dom() =~= before.stash.dom().remove(lowest));
            }
            (
                Emission { time: lowest, rows, released: Some(token) },
                left,
                Ghost(Taken { time: lowest, updates: waiting, released: Some(token) }),
            )
        } else {
            self.stash.insert(lowest, Stashed { token, updates: rest });
            proof {
                assert(self@.stash =~= before.stash.insert(
                    lowest,
                    (token, waiting.skip(count as int)),
                ));
                assert(self@.stash.dom() =~= before.stash.dom());
                assert forall|t: u64, i: int|
                    self@.stash.contains_key(t) && 0 <= i < self@.stash[t].1.len() implies config.admits(
                    (#[trigger] self@.stash[t].1[i]).time,
                ) by {
                    assert(before.stash.contains_key(t));
                    if t == lowest {
                        assert(self@.stash[t].1[i] == before.stash[t].1[i + count]);
                    } else {
                        assert(self@.stash[t].1[i] == before.stash[t].1[i]);
                    }
                }
            }
            (
                Emission { time: lowest, rows, released: None },
                left,
                Ghost(Taken { time: lowest, updates: waiting.take(count as int), released: None }),
            )
        }
    }

    /// The work of one turn: where fuel is set and something is stashed, the
    /// lowest stashed timestamp is worked on, and as many of its updates as
    /// the fuel allows are encoded, in the order in which they arrived. Hands
    /// back what is to be emitted, and whether anything is still stashed, in
    /// which case the encoder asks to be run again. A key can be encoded only
    /// where a key schema is set: without one, the turn must not come upon an
    /// update that has a key, which `next_keyed` tells beforehand.
    pub fn work<K: Fn(i32, R) -> Vec<u8>, V: Fn(i32, R) -> Vec<u8>>(
        &mut self,
        encode_key: &K,
        encode_value: &V,
    ) -> (out: (Vec<Emission<C>>, bool))
        requires
            old(self).wf(),
            old(self).config().key_schema_id is None ==> !old(self)@.next_keyed(
                old(self).config().fuel as nat,
            ),
            forall|schema: i32, row: R| #[trigger] encode_key.requires((schema, row)),
            forall|schema: i32, row: R| #[trigger] encode_value.requires((schema, row)),
        ensures
            final(self).wf(),
            final(self).config() == old(self).config(),
            out.1 == !final(self)@.stash.dom().is_empty(),
            emitted_len(out.0@) <= old(self).config().fuel,
            ({
                let (after, left, taken) = old(self)@.round(old(self).config().fuel as nat);
                &&& final(self)@ == after
                &&& emits(old(self).config(), *encode_key, *encode_value, taken, out.0@)
            }),
    {
        let mut emissions: Vec<Emission<C>> = Vec::new();
        let fuel = self.config.fuel;
        if fuel > 0 && !self.is_empty() {
            let (emission, left, taken) = self.round(fuel, encode_key, encode_value);
            emissions.push(emission);
            proof {
                assert(emissions@.drop_last() =~= Seq::<Emission<C>>::empty());
                assert(emitted_len(emissions@.drop_last()) == 0);
            }
        } else {
            proof {
                reveal(EncoderView::round);
                assert(emitted_len(emissions@) == 0);
            }
        }
        let more = !self.is_empty();
        (emissions, more)
    }
}

} // verus!
