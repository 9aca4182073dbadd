use osmose::client::prepare_request;
use osmose::decision::Decision;
use osmose::identifier::Identifier;
use osmose::rules_database::RulesDatabase;
use osmose::service::{decide, handle_client};
use osmose::wire::{decode_request, decode_response, encode_request, encode_response};

fn sample_frame() -> Vec<u8> {
    let req = prepare_request(
        &Identifier::from_given("ab", 1),
        &Identifier::from_given("c", 258),
        b"hi",
    );
    encode_request(&req).unwrap()
}

fn policy() -> RulesDatabase {
    RulesDatabase::new(vec![
        ("process1".to_string(), vec!["process2".to_string(), "process3".to_string()]),
        ("process2".to_string(), vec!["process1".to_string()]),
    ])
}

fn frame(from: &str, to: &str) -> Vec<u8> {
    let req = prepare_request(
        &Identifier::from_given(from, 111),
        &Identifier::from_given(to, 222),
        b"payload",
    );
    encode_request(&req).unwrap()
}

#[test]
fn request_frame_has_exact_bytes() {
    let expected: Vec<u8> = vec![
        0, 0, 0, 0, 0, 0, 0, 45, // body length
        0, 0, 0, 0, 0, 0, 0, 2, b'a', b'b', 0, 0, 0, 0, 0, 0, 0, 1, // source
        0, 0, 0, 0, 0, 0, 0, 1, b'c', 0, 0, 0, 0, 0, 0, 1, 2, // destination
        0, 0, 0, 0, 0, 0, 0, 2, b'h', b'i', // payload
    ];
    assert_eq!(sample_frame(), expected);
}

#[test]
fn request_round_trip() {
    let bytes = sample_frame();
    let req = decode_request(&bytes).unwrap();
    assert_eq!(req.source.get_name(), "ab");
    assert_eq!(req.source.get_id(), 1);
    assert_eq!(req.destination.get_name(), "c");
    assert_eq!(req.destination.get_id(), 258);
    assert_eq!(req.payload, b"hi".to_vec());
    assert_eq!(encode_request(&req).unwrap(), bytes);
}

#[test]
fn request_round_trip_with_non_ascii_and_empty_fields() {
    let req = prepare_request(
        &Identifier::from_given("grüße-✓", u64::MAX),
        &Identifier::from_given("", 0),
        b"",
    );
    let bytes = encode_request(&req).unwrap();
    let back = decode_request(&bytes).unwrap();
    assert_eq!(back.source.get_name(), "grüße-✓");
    assert_eq!(back.source.get_id(), u64::MAX);
    assert_eq!(back.destination.get_name(), "");
    assert_eq!(back.destination.get_id(), 0);
    assert!(back.payload.is_empty());
}

#[test]
fn truncated_frames_are_rejected() {
    let bytes = sample_frame();
    for k in 0..bytes.len() {
        assert!(decode_request(&bytes[..k]).is_none(), "prefix of length {}", k);
    }
}

#[test]
fn trailing_bytes_are_rejected() {
    let mut bytes = sample_frame();
    bytes.push(0);
    assert!(decode_request(&bytes).is_none());
}

#[test]
fn invalid_utf8_name_is_rejected() {
    let mut bytes = sample_frame();
    bytes[16] = 0xff;
    assert!(decode_request(&bytes).is_none());
}

#[test]
fn response_frames() {
    assert_eq!(encode_response(Decision::ALLOW), vec![0u8]);
    assert_eq!(encode_response(Decision::DISALLOWED_DESTINATION), vec![1u8]);
    assert_eq!(encode_response(Decision::SOURCE_UNKNOWN), vec![2u8]);
    assert_eq!(encode_response(Decision::MALFORMED_MESSAGE), vec![3u8]);
    for d in [
        Decision::ALLOW,
        Decision::DISALLOWED_DESTINATION,
        Decision::SOURCE_UNKNOWN,
        Decision::MALFORMED_MESSAGE,
    ] {
        assert_eq!(decode_response(&encode_response(d)), Some(d));
    }
    assert_eq!(decode_response(&[]), None);
    assert_eq!(decode_response(&[4]), None);
    assert_eq!(decode_response(&[0, 0]), None);
}

#[test]
fn service_scenario_allowed() {
    let db = policy();
    assert_eq!(decide(&db, &frame("process1", "process2")), Decision::ALLOW);
    assert_eq!(decide(&db, &frame("process1", "process3")), Decision::ALLOW);
    assert_eq!(decide(&db, &frame("process2", "process1")), Decision::ALLOW);
    assert_eq!(handle_client(&db, &frame("process1", "process2")), vec![0u8]);
}

#[test]
fn service_scenario_denied() {
    let db = policy();
    assert_eq!(decide(&db, &frame("process1", "process4")), Decision::DISALLOWED_DESTINATION);
    assert_eq!(decide(&db, &frame("process3", "process1")), Decision::SOURCE_UNKNOWN);
    assert_eq!(handle_client(&db, &frame("process1", "process4")), vec![1u8]);
    assert_eq!(handle_client(&db, &frame("process3", "process1")), vec![2u8]);
}

#[test]
fn service_answers_malformed_input() {
    let db = policy();
    assert_eq!(decide(&db, &[]), Decision::MALFORMED_MESSAGE);
    assert_eq!(handle_client(&db, &[]), vec![3u8]);
    assert_eq!(handle_client(&db, b"hello, not a request"), vec![3u8]);
    let bytes = frame("process1", "process2");
    assert_eq!(handle_client(&db, &bytes[..bytes.len() - 1]), vec![3u8]);
}

#[test]
fn service_repeats_its_decision() {
    let db = policy();
    let bytes = frame("process2", "process3");
    let first = handle_client(&db, &bytes);
    assert_eq!(first, vec![1u8]);
    for _ in 0..3 {
        assert_eq!(handle_client(&db, &bytes), first);
    }
}
