use kafka_sink::broker::{broker_error, read_error, BrokerError, Marker};
use kafka_sink::frontier::meet_of;
use kafka_sink::model::delivery_verdict;
use kafka_sink::send_state::{transition_on_txn_error, SendState};
use kafka_sink::update::{should_emit, SinkAsOf};
use rdkafka::config::ClientConfig;
use rdkafka::error::{KafkaError, RDKafkaErrorCode};
use rdkafka::producer::{BaseProducer, Producer};
use timely::progress::Antichain;

fn as_of(time: u64, strict: bool) -> SinkAsOf {
    SinkAsOf { frontier: Antichain::from_elem(time), strict }
}

#[test]
fn as_of_frontier_admits_from_itself_on() {
    assert!(!should_emit(&as_of(5, false), None, 4));
    assert!(should_emit(&as_of(5, false), None, 5));
    assert!(should_emit(&as_of(5, false), None, 6));
    assert!(should_emit(&as_of(0, false), None, 0));
}

#[test]
fn strict_as_of_frontier_admits_only_what_is_after_it() {
    assert!(!should_emit(&as_of(5, true), None, 4));
    assert!(!should_emit(&as_of(5, true), None, 5));
    assert!(should_emit(&as_of(5, true), None, 6));
    assert!(!should_emit(&as_of(0, true), None, 0));
}

#[test]
fn empty_as_of_frontier_admits_nothing() {
    let nothing = SinkAsOf { frontier: Antichain::new(), strict: false };
    assert!(!should_emit(&nothing, None, 0));
    assert!(!should_emit(&nothing, None, u64::MAX));
}

#[test]
fn gate_timestamp_keeps_out_what_was_published() {
    assert!(!should_emit(&as_of(0, false), Some(3), 2));
    assert!(!should_emit(&as_of(0, false), Some(3), 3));
    assert!(should_emit(&as_of(0, false), Some(3), 4));
    assert!(!should_emit(&as_of(10, false), Some(3), 4));
}

#[test]
fn meet_is_the_least_element_of_all_frontiers() {
    assert_eq!(meet_of(&vec![]).elements(), &[] as &[u64]);
    assert_eq!(meet_of(&vec![Antichain::from_elem(4)]).elements(), &[4]);
    let frontiers =
        vec![Antichain::from_elem(9), Antichain::from_elem(4), Antichain::from_elem(7)];
    assert_eq!(meet_of(&frontiers).elements(), &[4]);
    let with_empty = vec![Antichain::new(), Antichain::from_elem(7), Antichain::new()];
    assert_eq!(meet_of(&with_empty).elements(), &[7]);
    assert_eq!(meet_of(&vec![Antichain::new(), Antichain::new()]).elements(), &[] as &[u64]);
}

#[test]
fn transaction_errors_pick_the_next_state() {
    let current = SendState::CommitTxn;
    let abort = BrokerError::Transaction { requires_abort: true, retriable: false };
    let abort_and_retry = BrokerError::Transaction { requires_abort: true, retriable: true };
    let retry = BrokerError::Transaction { requires_abort: false, retriable: true };
    let neither = BrokerError::Transaction { requires_abort: false, retriable: false };
    assert_eq!(transition_on_txn_error(current, abort), SendState::AbortTxn);
    assert_eq!(transition_on_txn_error(current, abort_and_retry), SendState::AbortTxn);
    assert_eq!(transition_on_txn_error(current, retry), SendState::CommitTxn);
    assert_eq!(transition_on_txn_error(SendState::Init, retry), SendState::Init);
    assert_eq!(transition_on_txn_error(current, neither), SendState::Shutdown);
    assert_eq!(transition_on_txn_error(current, BrokerError::Other), SendState::Shutdown);
    assert_eq!(transition_on_txn_error(current, BrokerError::QueueFull), SendState::Shutdown);
}

#[test]
fn kafka_errors_are_read_by_their_kind() {
    let full = KafkaError::MessageProduction(RDKafkaErrorCode::QueueFull);
    assert_eq!(broker_error(&full), BrokerError::QueueFull);
    let too_large = KafkaError::MessageProduction(RDKafkaErrorCode::MessageSizeTooLarge);
    assert_eq!(broker_error(&too_large), BrokerError::Other);
    assert_eq!(broker_error(&KafkaError::Canceled), BrokerError::Other);
    let consumed = KafkaError::MessageConsumption(RDKafkaErrorCode::QueueFull);
    assert_eq!(broker_error(&consumed), BrokerError::Other);
}

#[test]
fn transaction_error_of_a_producer_is_read_from_the_native_error() {
    let producer: BaseProducer =
        ClientConfig::new().set("bootstrap.servers", "localhost:1").create().unwrap();
    // The producer has no transactional id, so the call fails at once.
    let error = producer.begin_transaction().unwrap_err();
    let (abort, retry) = match &error {
        KafkaError::Transaction(native) => (native.txn_requires_abort(), native.is_retriable()),
        other => panic!("unexpected error {:?}", other),
    };
    assert_eq!(
        broker_error(&error),
        BrokerError::Transaction { requires_abort: abort, retriable: retry }
    );
}

#[test]
fn markers_carry_their_status_text() {
    assert_eq!(Marker::Begin.label(), "BEGIN");
    assert_eq!(Marker::End.label(), "END");
}

#[test]
fn failed_delivery_sets_the_shutdown_flag() {
    assert_eq!(delivery_verdict(false), Some(true));
    assert_eq!(delivery_verdict(true), None);
}

#[test]
fn errors_are_sorted_by_what_is_said_of_them() {
    assert_eq!(read_error(None, true), BrokerError::QueueFull);
    assert_eq!(read_error(None, false), BrokerError::Other);
    assert_eq!(
        read_error(Some((true, false)), false),
        BrokerError::Transaction { requires_abort: true, retriable: false }
    );
    assert_eq!(
        read_error(Some((false, true)), false),
        BrokerError::Transaction { requires_abort: false, retriable: true }
    );
    // A transaction error is one whatever else is said of it.
    assert_eq!(
        read_error(Some((false, false)), true),
        BrokerError::Transaction { requires_abort: false, retriable: false }
    );
}
