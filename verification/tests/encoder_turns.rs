use std::cell::RefCell;

use kafka_sink::encoder::{EncoderConfig, StreamEncoder};
use kafka_sink::update::{SinkAsOf, Update};
use timely::progress::Antichain;

fn encoder_config(as_of: u64, strict: bool, gate_ts: Option<u64>, fuel: usize) -> EncoderConfig {
    EncoderConfig {
        as_of: SinkAsOf { frontier: Antichain::from_elem(as_of), strict },
        gate_ts,
        key_schema_id: Some(11),
        value_schema_id: 22,
        fuel,
    }
}

fn row(key: Option<&str>, value: Option<&str>, time: u64, diff: isize) -> Update<String> {
    Update { key: key.map(String::from), value: value.map(String::from), time, diff }
}

/// Encodes a row as its schema id, a colon and its text.
fn tagged(schema: i32, row: String) -> Vec<u8> {
    format!("{}:{}", schema, row).into_bytes()
}

fn bytes(text: &str) -> Option<Vec<u8>> {
    Some(text.as_bytes().to_vec())
}

#[test]
fn rows_are_encoded_with_their_schemas() {
    let mut encoder: StreamEncoder<&str, String> = StreamEncoder::new(encoder_config(0, false, None, 10));
    assert!(encoder.is_empty());
    encoder.stash(
        5,
        "cap5",
        vec![row(Some("k"), Some("v"), 5, 2), row(None, Some("w"), 5, 1), row(Some("j"), None, 6, 3)],
    );
    assert!(!encoder.is_empty());
    let (emissions, more) = encoder.work(&tagged, &tagged);
    assert!(!more);
    assert!(encoder.is_empty());
    assert_eq!(emissions.len(), 1);
    let emission = &emissions[0];
    assert_eq!(emission.time, 5);
    assert_eq!(emission.released, Some("cap5"));
    assert_eq!(emission.rows.len(), 3);
    assert_eq!(emission.rows[0].key, bytes("11:k"));
    assert_eq!(emission.rows[0].value, bytes("22:v"));
    assert_eq!((emission.rows[0].time, emission.rows[0].diff), (5, 2));
    assert_eq!(emission.rows[1].key, None);
    assert_eq!(emission.rows[1].value, bytes("22:w"));
    assert_eq!((emission.rows[1].time, emission.rows[1].diff), (5, 1));
    assert_eq!(emission.rows[2].key, bytes("11:j"));
    assert_eq!(emission.rows[2].value, None);
    assert_eq!((emission.rows[2].time, emission.rows[2].diff), (6, 3));
}

#[test]
fn each_row_is_encoded_once_for_key_and_once_for_value() {
    let mut encoder: StreamEncoder<(), String> = StreamEncoder::new(encoder_config(0, false, None, 10));
    encoder.stash(1, (), vec![row(Some("k"), Some("v"), 1, 1), row(None, Some("w"), 1, 1)]);
    let keys = RefCell::new(Vec::new());
    let values = RefCell::new(Vec::new());
    encoder.work(
        &|schema, row: String| {
            keys.borrow_mut().push((schema, row.clone()));
            row.into_bytes()
        },
        &|schema, row: String| {
            values.borrow_mut().push((schema, row.clone()));
            row.into_bytes()
        },
    );
    assert_eq!(*keys.borrow(), vec![(11, "k".to_string())]);
    assert_eq!(*values.borrow(), vec![(22, "v".to_string()), (22, "w".to_string())]);
}

#[test]
fn lowest_timestamp_is_worked_on_first() {
    let mut encoder: StreamEncoder<u32, String> = StreamEncoder::new(encoder_config(0, false, None, 10));
    encoder.stash(9, 900, vec![row(None, Some("nine"), 9, 1)]);
    encoder.stash(3, 300, vec![row(None, Some("three"), 3, 1), row(None, Some("four"), 4, 1)]);
    encoder.stash(7, 700, vec![row(None, Some("seven"), 7, 1)]);
    let mut times = Vec::new();
    let mut tokens = Vec::new();
    loop {
        let (emissions, more) = encoder.work(&tagged, &tagged);
        assert_eq!(emissions.len(), 1);
        times.push(emissions[0].time);
        tokens.push(emissions[0].released);
        if emissions[0].time == 3 {
            assert_eq!(emissions[0].rows.len(), 2);
            assert_eq!(emissions[0].rows[0].value, bytes("22:three"));
            assert_eq!(emissions[0].rows[1].value, bytes("22:four"));
            assert_eq!(emissions[0].rows[1].time, 4);
        }
        if !more {
            break;
        }
    }
    assert_eq!(times, vec![3, 7, 9]);
    assert_eq!(tokens, vec![Some(300), Some(700), Some(900)]);
    assert!(encoder.is_empty());
}

#[test]
fn one_turn_works_on_a_single_timestamp() {
    let mut encoder: StreamEncoder<u32, String> = StreamEncoder::new(encoder_config(0, false, None, 10));
    encoder.stash(1, 100, vec![row(None, Some("a"), 1, 1)]);
    encoder.stash(2, 200, vec![row(None, Some("b"), 2, 1)]);
    // Fuel is left after the row at 1, and still the row at 2 waits.
    let (emissions, more) = encoder.work(&tagged, &tagged);
    assert!(more);
    assert_eq!(emissions.len(), 1);
    assert_eq!(emissions[0].time, 1);
    assert_eq!(emissions[0].released, Some(100));
    assert_eq!(emissions[0].rows.len(), 1);
    assert_eq!(emissions[0].rows[0].value, bytes("22:a"));
    assert_eq!(encoder.token(1), None);
    assert_eq!(encoder.token(2), Some(&200));

    let (emissions, more) = encoder.work(&tagged, &tagged);
    assert!(!more);
    assert_eq!(emissions.len(), 1);
    assert_eq!(emissions[0].time, 2);
    assert_eq!(emissions[0].released, Some(200));
    assert_eq!(emissions[0].rows[0].value, bytes("22:b"));
}

#[test]
fn fuel_bounds_the_rows_of_a_turn() {
    let mut encoder: StreamEncoder<u32, String> = StreamEncoder::new(encoder_config(0, false, None, 2));
    encoder.stash(
        2,
        200,
        vec![row(None, Some("c"), 2, 1), row(None, Some("d"), 2, 1), row(None, Some("e"), 2, 1)],
    );
    let (emissions, more) = encoder.work(&tagged, &tagged);
    assert!(more);
    assert_eq!(emissions.len(), 1);
    assert_eq!(emissions[0].time, 2);
    assert_eq!(emissions[0].released, None);
    assert_eq!(emissions[0].rows.len(), 2);
    assert_eq!(emissions[0].rows[0].value, bytes("22:c"));
    assert_eq!(emissions[0].rows[1].value, bytes("22:d"));
    assert_eq!(encoder.token(2), Some(&200));

    let (emissions, more) = encoder.work(&tagged, &tagged);
    assert!(!more);
    assert_eq!(emissions.len(), 1);
    assert_eq!(emissions[0].released, Some(200));
    assert_eq!(emissions[0].rows.len(), 1);
    assert_eq!(emissions[0].rows[0].value, bytes("22:e"));
    assert!(encoder.is_empty());
    assert_eq!(encoder.token(2), None);
}

#[test]
fn a_timestamp_with_as_many_rows_as_fuel_is_released() {
    let mut encoder: StreamEncoder<u32, String> = StreamEncoder::new(encoder_config(0, false, None, 2));
    encoder.stash(4, 400, vec![row(None, Some("a"), 4, 1), row(None, Some("b"), 4, 1)]);
    let (emissions, more) = encoder.work(&tagged, &tagged);
    assert!(!more);
    assert_eq!(emissions[0].rows.len(), 2);
    assert_eq!(emissions[0].released, Some(400));
}

#[test]
fn updates_not_beyond_the_as_of_are_not_stashed() {
    let mut encoder: StreamEncoder<u32, String> = StreamEncoder::new(encoder_config(5, false, None, 10));
    encoder.stash(
        4,
        1,
        vec![row(None, Some("four"), 4, 1), row(None, Some("five"), 5, 1), row(None, Some("six"), 6, 1)],
    );
    let (emissions, _) = encoder.work(&tagged, &tagged);
    assert_eq!(emissions.len(), 1);
    assert_eq!(emissions[0].rows.len(), 2);
    assert_eq!(emissions[0].rows[0].value, bytes("22:five"));
    assert_eq!(emissions[0].rows[1].value, bytes("22:six"));

    let mut strict: StreamEncoder<u32, String> = StreamEncoder::new(encoder_config(5, true, None, 10));
    strict.stash(
        4,
        1,
        vec![row(None, Some("four"), 4, 1), row(None, Some("five"), 5, 1), row(None, Some("six"), 6, 1)],
    );
    let (emissions, _) = strict.work(&tagged, &tagged);
    assert_eq!(emissions[0].rows.len(), 1);
    assert_eq!(emissions[0].rows[0].value, bytes("22:six"));
}

#[test]
fn updates_at_or_before_the_gate_timestamp_are_not_stashed() {
    let mut encoder: StreamEncoder<u32, String> = StreamEncoder::new(encoder_config(0, false, Some(3), 10));
    encoder.stash(
        1,
        1,
        vec![row(None, Some("two"), 2, 1), row(None, Some("three"), 3, 1), row(None, Some("four"), 4, 1)],
    );
    let (emissions, _) = encoder.work(&tagged, &tagged);
    assert_eq!(emissions[0].rows.len(), 1);
    assert_eq!(emissions[0].rows[0].value, bytes("22:four"));
}

#[test]
fn a_stash_with_nothing_admitted_is_cleared_in_a_turn_of_its_own() {
    let mut encoder: StreamEncoder<u32, String> = StreamEncoder::new(encoder_config(5, false, None, 1));
    encoder.stash(1, 10, vec![row(None, Some("old"), 1, 1)]);
    encoder.stash(6, 60, vec![row(None, Some("new"), 6, 1)]);
    assert_eq!(encoder.token(1), Some(&10));
    let (emissions, more) = encoder.work(&tagged, &tagged);
    assert!(more);
    assert_eq!(emissions.len(), 1);
    assert_eq!((emissions[0].time, emissions[0].rows.len(), emissions[0].released), (1, 0, Some(10)));
    let (emissions, more) = encoder.work(&tagged, &tagged);
    assert!(!more);
    assert_eq!(emissions.len(), 1);
    assert_eq!((emissions[0].time, emissions[0].rows.len(), emissions[0].released), (6, 1, Some(60)));
}

#[test]
fn a_second_token_for_a_stashed_time_is_not_kept() {
    let mut encoder: StreamEncoder<u32, String> = StreamEncoder::new(encoder_config(0, false, None, 10));
    encoder.stash(5, 1, vec![row(None, Some("a"), 5, 1)]);
    encoder.stash(5, 2, vec![row(None, Some("b"), 5, 1)]);
    assert_eq!(encoder.token(5), Some(&1));
    let (emissions, _) = encoder.work(&tagged, &tagged);
    assert_eq!(emissions.len(), 1);
    assert_eq!(emissions[0].released, Some(1));
    assert_eq!(emissions[0].rows.len(), 2);
    assert_eq!(emissions[0].rows[0].value, bytes("22:a"));
    assert_eq!(emissions[0].rows[1].value, bytes("22:b"));
}

#[test]
fn without_fuel_nothing_is_encoded() {
    let mut encoder: StreamEncoder<u32, String> = StreamEncoder::new(encoder_config(0, false, None, 0));
    encoder.stash(5, 1, vec![row(None, Some("a"), 5, 1)]);
    let (emissions, more) = encoder.work(&tagged, &tagged);
    assert!(more);
    assert!(emissions.is_empty());
    assert_eq!(encoder.token(5), Some(&1));
}

#[test]
fn an_empty_stash_has_nothing_to_do() {
    let mut encoder: StreamEncoder<u32, String> = StreamEncoder::new(encoder_config(0, false, None, 10));
    let (emissions, more) = encoder.work(&tagged, &tagged);
    assert!(!more);
    assert!(emissions.is_empty());
}

#[test]
fn zero_and_negative_multiplicities_pass_through_the_encoder() {
    let mut encoder: StreamEncoder<u32, String> = StreamEncoder::new(encoder_config(0, false, None, 10));
    encoder.stash(5, 1, vec![row(None, Some("a"), 5, 0), row(None, Some("b"), 5, -4)]);
    let (emissions, _) = encoder.work(&tagged, &tagged);
    assert_eq!(emissions[0].rows[0].diff, 0);
    assert_eq!(emissions[0].rows[1].diff, -4);
}

fn keyless_config(fuel: usize) -> EncoderConfig {
    EncoderConfig {
        as_of: SinkAsOf { frontier: Antichain::from_elem(0), strict: false },
        gate_ts: None,
        key_schema_id: None,
        value_schema_id: 22,
        fuel,
    }
}

#[test]
fn next_keyed_tells_whether_the_next_turn_meets_a_key() {
    let mut encoder: StreamEncoder<u32, String> = StreamEncoder::new(keyless_config(2));
    assert!(!encoder.next_keyed());
    encoder.stash(
        5,
        50,
        vec![row(None, Some("a"), 5, 1), row(None, Some("b"), 5, 1), row(Some("k"), Some("c"), 5, 1)],
    );
    encoder.stash(3, 30, vec![row(None, Some("z"), 3, 1)]);
    // The turn works on time 3, where no update has a key.
    assert!(!encoder.next_keyed());
    let (emissions, more) = encoder.work(&tagged, &tagged);
    assert_eq!(emissions[0].time, 3);
    assert!(more);
    // The turn takes the first two updates at time 5: the key is the third.
    assert!(!encoder.next_keyed());
    let (emissions, more) = encoder.work(&tagged, &tagged);
    assert_eq!(emissions[0].rows.len(), 2);
    assert_eq!(emissions[0].rows[0].key, None);
    assert!(more);
    // Now the update with the key is next.
    assert!(encoder.next_keyed());
}

#[test]
fn next_keyed_ignores_what_is_not_admitted_and_what_fuel_does_not_reach() {
    let mut encoder: StreamEncoder<u32, String> = StreamEncoder::new(EncoderConfig {
        as_of: SinkAsOf { frontier: Antichain::from_elem(5), strict: false },
        ..keyless_config(1)
    });
    encoder.stash(1, 10, vec![row(Some("old"), Some("a"), 1, 1), row(None, Some("b"), 6, 1)]);
    assert!(!encoder.next_keyed());
    let mut unfuelled: StreamEncoder<u32, String> = StreamEncoder::new(keyless_config(0));
    unfuelled.stash(1, 10, vec![row(Some("k"), Some("a"), 1, 1)]);
    assert!(!unfuelled.next_keyed());
    let mut keyed: StreamEncoder<u32, String> = StreamEncoder::new(keyless_config(1));
    keyed.stash(1, 10, vec![row(Some("k"), Some("a"), 1, 1)]);
    assert!(keyed.next_keyed());
}
