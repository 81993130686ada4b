//! The core of a sink that publishes a timestamped change stream to a message
//! broker.
//!
//! Two stages work in turns, each doing a bounded amount of work per turn:
//!
//! * the stream encoder ([`encoder`]) stashes the updates that arrive and
//!   encodes, turn by turn, those under the lowest stashed timestamp;
//! * the batch publisher ([`publisher`]) queues the encoded rows by timestamp,
//!   closes a timestamp once the input frontier and the durability frontier
//!   have passed it, and walks the publish protocol ([`send_state`]) for each
//!   closed batch.
//!
//! Neither stage talks to the outside itself. The encoder is handed the
//! functions that encode a key and a value; the publisher is handed a function
//! that performs a [`broker::BrokerRequest`] and answers with what came of it.
//! What the stages do is stated over the state machines in [`model`] and
//! [`encoder`]; [`laws`] holds what follows for the sink as a whole.

pub mod frontier;
pub mod broker;
pub mod update;
pub mod send_state;
pub mod model;
pub mod publisher;
pub mod encoder;
pub mod laws;
