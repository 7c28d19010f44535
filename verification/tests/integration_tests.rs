//! End-to-end tests of the dispatcher over the store, driving the same wire
//! formats that bincode produces for the request payloads.

use wx_store::dispatch::{encode_response, process_msg, process_msg_at};
use wx_store::store::Store;

const HOUR_MICROS: u64 = 1000 * 1000 * 60 * 60;
const BASE_MICROS: u64 = 1_700_000_000_000_000;

fn new_store() -> Store {
    Store::new(HOUR_MICROS, HOUR_MICROS)
}

fn msg_with(opcode: u8, payload: &[u8]) -> Vec<u8> {
    let mut m = vec![opcode];
    m.extend_from_slice(payload);
    m
}

/// A time-stamped record: eight timestamp bytes (overwritten by the store),
/// then the body.
fn record_with(body: &[u8]) -> Vec<u8> {
    let mut r = vec![0u8; 8];
    r.extend_from_slice(body);
    r
}

fn envelope_count(envelope: &[u8]) -> u64 {
    bincode::deserialize::<u64>(&envelope[..8]).unwrap()
}

#[test]
fn zero_message_length_should_error() {
    let mut store = new_store();
    let result = process_msg(&Vec::new(), &mut store);
    assert!(result.is_err());
}

#[test]
fn unknown_command_should_error() {
    let mut store = new_store();
    let result = process_msg(&msg_with(9, &[]), &mut store);
    assert!(result.is_err());
}

#[test]
fn put_and_get_should_work() {
    let mut store = new_store();
    let payload = bincode::serialize(&("test", &b"testval"[..])).unwrap();
    let put_result = process_msg(&msg_with(0, &payload), &mut store).unwrap();
    assert_eq!(put_result, b"test".to_vec());
    let get_result = process_msg(&msg_with(1, b"test"), &mut store).unwrap();
    assert_eq!(get_result, b"testval".to_vec());
    let response = encode_response(&Ok(get_result));
    assert_eq!(response[0], 0);
}

#[test]
fn get_should_return_nothing_if_key_not_found() {
    let mut store = new_store();
    let result = process_msg(&msg_with(1, b"i-do-not-exist"), &mut store).unwrap();
    assert!(result.is_empty());
}

#[test]
fn put_event_should_return_a_u64() {
    let mut store = new_store();
    let result = process_msg(&msg_with(2, &record_with(b"an event")), &mut store).unwrap();
    assert!(bincode::deserialize::<u64>(&result).is_ok());
}

#[test]
fn put_event_and_get_events_should_persist_an_event_and_populate_ingest_ts() {
    let mut store = new_store();
    let ts = BASE_MICROS;
    let written = process_msg_at(&msg_with(2, &record_with(b"an event")), &mut store, ts).unwrap();
    assert_eq!(bincode::deserialize::<u64>(&written).unwrap(), ts);
    let envelope = process_msg_at(&msg_with(4, &[]), &mut store, ts).unwrap();
    assert_eq!(envelope_count(&envelope), 1);
    let record = &envelope[8..];
    assert_eq!(bincode::deserialize::<u64>(&record[..8]).unwrap(), ts);
    assert_eq!(&record[8..], b"an event");
}

#[test]
fn get_event_should_return_events_newer_than_threshold() {
    let threshold_millis: u64 = 1000;
    let mut store = Store::new(threshold_millis * 1000, HOUR_MICROS);
    let t0 = BASE_MICROS;
    let t1 = t0 + 1_100_000;
    process_msg_at(&msg_with(2, &record_with(b"old")), &mut store, t0).unwrap();
    process_msg_at(&msg_with(2, &record_with(b"new")), &mut store, t1).unwrap();
    let envelope = process_msg_at(&msg_with(3, &[]), &mut store, t1).unwrap();
    assert_eq!(envelope_count(&envelope), 1);
    assert_eq!(&envelope[16..], b"new");
}

#[test]
fn get_events_should_seek_correctly() {
    let mut store = new_store();
    let t0 = BASE_MICROS;
    let t1 = t0 + 5;
    process_msg_at(&msg_with(2, &record_with(b"first")), &mut store, t0).unwrap();
    process_msg_at(&msg_with(2, &record_with(b"second")), &mut store, t1).unwrap();
    let cursor = bincode::serialize(&t0.to_string()).unwrap();
    let envelope = process_msg_at(&msg_with(3, &cursor), &mut store, t1).unwrap();
    assert_eq!(envelope_count(&envelope), 1);
    assert_eq!(&envelope[16..], b"second");
}

#[test]
fn get_events_handles_zero_events() {
    let mut store = new_store();
    let envelope = process_msg_at(&msg_with(3, &[]), &mut store, BASE_MICROS).unwrap();
    assert_eq!(envelope_count(&envelope), 0);
}

#[test]
fn put_fetch_failure_should_persist_failures() {
    let mut store = new_store();
    let written = process_msg_at(
        &msg_with(5, &record_with(b"a failure")),
        &mut store,
        BASE_MICROS,
    )
    .unwrap();
    assert!(written.is_empty());
    let envelope = process_msg_at(&msg_with(6, &[]), &mut store, BASE_MICROS).unwrap();
    assert_eq!(envelope_count(&envelope), 1);
}

#[test]
fn get_fetch_failures_should_return_recent_failures() {
    let threshold_millis: u64 = 1000;
    let mut store = Store::new(HOUR_MICROS, threshold_millis * 1000);
    let t0 = BASE_MICROS;
    let t1 = t0 + 1_100_000;
    process_msg_at(&msg_with(5, &record_with(b"stale")), &mut store, t0).unwrap();
    process_msg_at(&msg_with(5, &record_with(b"fresh")), &mut store, t1).unwrap();
    let envelope = process_msg_at(&msg_with(6, &[]), &mut store, t1).unwrap();
    assert_eq!(envelope_count(&envelope), 1);
    assert_eq!(&envelope[16..], b"fresh");
}
