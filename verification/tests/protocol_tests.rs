//! Tests of the wire formats, the error responses, the decimal time-key
//! scheme, and the edge cases of the scan policies.

use wx_store::codec::{decode_envelope_count, encode_u64_le};
use wx_store::dispatch::{encode_response, process_msg, process_msg_at, Command};
use wx_store::store::Store;
use wx_store::timekey::{compare_bytes, parse_dec, u64_to_dec, KeyOrder};

const HOUR_MICROS: u64 = 1000 * 1000 * 60 * 60;
const BASE_MICROS: u64 = 1_700_000_000_000_000;

fn new_store() -> Store {
    Store::new(HOUR_MICROS, HOUR_MICROS)
}

fn msg_with(opcode: u8, payload: &[u8]) -> Vec<u8> {
    let mut m = vec![opcode];
    m.extend_from_slice(payload);
    m
}

fn record_with(body: &[u8]) -> Vec<u8> {
    let mut r = vec![0u8; 8];
    r.extend_from_slice(body);
    r
}

#[test]
fn empty_request_gives_error_status_and_nonempty_payload() {
    let mut store = new_store();
    let result = process_msg(&Vec::new(), &mut store);
    let response = encode_response(&result);
    assert_eq!(response[0], 1);
    assert!(response.len() > 1);
    let message: String = bincode::deserialize(&response[1..]).unwrap();
    assert_eq!(message, "invalid message length");
}

#[test]
fn unknown_opcode_gives_error_status() {
    let mut store = new_store();
    let result = process_msg(&msg_with(9, &[]), &mut store);
    let response = encode_response(&result);
    assert_eq!(response[0], 1);
    let message: String = bincode::deserialize(&response[1..]).unwrap();
    assert_eq!(message, "unknown command");
}

#[test]
fn malformed_put_payload_gives_decode_error() {
    let mut store = new_store();
    let result = process_msg(&msg_with(0, &[1, 2, 3]), &mut store);
    let response = encode_response(&result);
    assert_eq!(response[0], 1);
    let message: String = bincode::deserialize(&response[1..]).unwrap();
    assert_eq!(message, "malformed payload");
}

#[test]
fn short_event_record_gives_decode_error() {
    let mut store = new_store();
    let result = process_msg(&msg_with(2, &[1, 2, 3]), &mut store);
    assert!(result.is_err());
}

#[test]
fn non_numeric_cursor_gives_decode_error() {
    let mut store = new_store();
    let cursor = bincode::serialize(&"not-a-number".to_string()).unwrap();
    let result = process_msg_at(&msg_with(3, &cursor), &mut store, BASE_MICROS);
    assert!(result.is_err());
}

#[test]
fn cursor_at_max_timestamp_gives_decode_error() {
    let mut store = new_store();
    let cursor = bincode::serialize(&u64::MAX.to_string()).unwrap();
    let result = process_msg_at(&msg_with(3, &cursor), &mut store, BASE_MICROS);
    assert!(result.is_err());
}

#[test]
fn put_overwrites_existing_key() {
    let mut store = new_store();
    let first = bincode::serialize(&("k", &b"one"[..])).unwrap();
    let second = bincode::serialize(&("k", &b"two"[..])).unwrap();
    process_msg(&msg_with(0, &first), &mut store).unwrap();
    process_msg(&msg_with(0, &second), &mut store).unwrap();
    let got = process_msg(&msg_with(1, b"k"), &mut store).unwrap();
    assert_eq!(got, b"two".to_vec());
}

#[test]
fn zero_result_envelope_is_decodable() {
    let mut store = new_store();
    let envelope = process_msg_at(&msg_with(4, &[]), &mut store, BASE_MICROS).unwrap();
    assert_eq!(envelope.len(), 8);
    assert_eq!(decode_envelope_count(&envelope), Some(0));
}

#[test]
fn threshold_wider_than_history_returns_everything() {
    let mut store = new_store();
    process_msg_at(&msg_with(2, &record_with(b"a")), &mut store, 5).unwrap();
    let envelope = process_msg_at(&msg_with(3, &[]), &mut store, 10).unwrap();
    assert_eq!(decode_envelope_count(&envelope), Some(1));
}

#[test]
fn resume_cursor_excludes_record_at_cursor() {
    let mut store = new_store();
    let t = BASE_MICROS;
    process_msg_at(&msg_with(2, &record_with(b"seen")), &mut store, t).unwrap();
    let cursor = bincode::serialize(&t.to_string()).unwrap();
    let envelope = process_msg_at(&msg_with(3, &cursor), &mut store, t).unwrap();
    assert_eq!(decode_envelope_count(&envelope), Some(0));
}

#[test]
fn get_all_returns_events_in_timestamp_order() {
    let mut store = new_store();
    let t = BASE_MICROS;
    process_msg_at(&msg_with(2, &record_with(b"one")), &mut store, t).unwrap();
    process_msg_at(&msg_with(2, &record_with(b"two")), &mut store, t + 1).unwrap();
    process_msg_at(&msg_with(2, &record_with(b"three")), &mut store, t + 2).unwrap();
    let envelope = process_msg_at(&msg_with(4, &[]), &mut store, t + 2).unwrap();
    assert_eq!(decode_envelope_count(&envelope), Some(3));
    let body = &envelope[8..];
    let mut timestamps = Vec::new();
    let mut offset = 0;
    for width in [3 + 8, 3 + 8, 5 + 8] {
        let ts: u64 = bincode::deserialize(&body[offset..offset + 8]).unwrap();
        timestamps.push(ts);
        offset += width;
    }
    assert_eq!(timestamps, vec![t, t + 1, t + 2]);
}

#[test]
fn ingest_timestamps_strictly_increase_with_the_clock() {
    let mut store = new_store();
    let first = process_msg_at(&msg_with(2, &record_with(b"a")), &mut store, 100).unwrap();
    let second = process_msg_at(&msg_with(2, &record_with(b"b")), &mut store, 200).unwrap();
    let t1: u64 = bincode::deserialize(&first).unwrap();
    let t2: u64 = bincode::deserialize(&second).unwrap();
    assert!(t1 < t2);
}

#[test]
fn decimal_keys_encode_and_parse_back() {
    let digits = u64_to_dec(1234567890);
    assert_eq!(digits, b"1234567890".to_vec());
    assert_eq!(parse_dec(&digits), Some(1234567890));
    assert_eq!(u64_to_dec(0), b"0".to_vec());
    assert_eq!(parse_dec(&b"".to_vec()), None);
    assert_eq!(parse_dec(&b"12x4".to_vec()), None);
    assert_eq!(parse_dec(&b"99999999999999999999999".to_vec()), None);
}

#[test]
fn byte_order_of_same_width_keys_is_numeric_order() {
    let a = u64_to_dec(1699999999999999);
    let b = u64_to_dec(1700000000000000);
    assert!(matches!(compare_bytes(&a, &b), KeyOrder::Less));
    assert!(matches!(compare_bytes(&b, &a), KeyOrder::Greater));
    assert!(matches!(compare_bytes(&a, &a), KeyOrder::Equal));
}

#[test]
fn eight_byte_counts_are_little_endian() {
    let bytes = encode_u64_le(1);
    assert_eq!(bytes, vec![1, 0, 0, 0, 0, 0, 0, 0]);
    assert_eq!(bincode::deserialize::<u64>(&bytes).unwrap(), 1);
}

#[test]
fn every_known_opcode_maps_to_its_command() {
    assert!(matches!(Command::from_opcode(0), Command::Put));
    assert!(matches!(Command::from_opcode(1), Command::Get));
    assert!(matches!(Command::from_opcode(2), Command::PutEvent));
    assert!(matches!(Command::from_opcode(3), Command::GetEvents));
    assert!(matches!(Command::from_opcode(4), Command::GetAllEvents));
    assert!(matches!(Command::from_opcode(5), Command::PutFetchFailure));
    assert!(matches!(Command::from_opcode(6), Command::GetFetchFailures));
    assert!(matches!(Command::from_opcode(7), Command::Unknown));
}
