use vr_core::codec::{decode_message, encode_message};
use vr_core::kv::{Op, Output};
use vr_core::message::{ClientRequest, Message};

fn round_trips(m: Message) {
    let bytes = encode_message(&m);
    let back = decode_message(&bytes);
    assert_eq!(back, Some(m));
}

fn sample_request(op: Op, result: Option<Output>) -> ClientRequest {
    ClientRequest { op, client_id: 42, request_number: 7, result }
}

#[test]
fn every_message_variant_round_trips() {
    round_trips(Message::Error { message: "not primary".to_string() });
    round_trips(Message::Request(sample_request(Op::Put("x".to_string(), 1), None)));
    round_trips(Message::Request(sample_request(
        Op::Get("a key with spaces".to_string()),
        Some(Output::Value(Some(99))),
    )));
    round_trips(Message::Request(sample_request(Op::Del(String::new()), Some(Output::Done))));
    round_trips(Message::Connect {
        configuration: vec!["a".to_string(), "b".to_string(), "c".to_string()],
        current_view: 3,
        epoch: 1,
    });
    round_trips(Message::Connect { configuration: vec![], current_view: 0, epoch: 0 });
    round_trips(Message::Reply {
        client_id: 42,
        view_number: 1,
        request_id: 7,
        result: Some(Output::Value(None)),
    });
    round_trips(Message::Reply { client_id: 0, view_number: 0, request_id: 0, result: None });
    round_trips(Message::Prepare {
        view_number: 2,
        op_number: 5,
        commit_number: 4,
        request: sample_request(Op::Put("k".to_string(), u64::MAX), None),
    });
    round_trips(Message::PrepareOk {
        view_number: 2,
        replica_number: 1,
        op_number: 5,
        commit_number: 4,
    });
    round_trips(Message::Commit { op_number: 5, commit_number: 5, view_number: 2 });
}

#[test]
fn non_ascii_keys_round_trip() {
    round_trips(Message::Request(sample_request(
        Op::Put("clé→值🗝".to_string(), 7),
        None,
    )));
    round_trips(Message::Error { message: "ошибка".to_string() });
}

#[test]
fn malformed_frames_are_rejected() {
    // Empty input.
    assert_eq!(decode_message(&vec![]), None);
    // Unknown tag.
    assert_eq!(decode_message(&vec![9u8]), None);
    // Truncated payload.
    let mut bytes = encode_message(&Message::Commit {
        op_number: 5,
        commit_number: 5,
        view_number: 2,
    });
    bytes.pop();
    assert_eq!(decode_message(&bytes), None);
    // Trailing garbage.
    let mut bytes = encode_message(&Message::Commit {
        op_number: 5,
        commit_number: 5,
        view_number: 2,
    });
    bytes.push(0);
    assert_eq!(decode_message(&bytes), None);
    // A string length that overruns the frame.
    let mut bytes = vec![0u8];
    bytes.extend_from_slice(&u64::MAX.to_le_bytes());
    assert_eq!(decode_message(&bytes), None);
    // Invalid UTF-8 in a string.
    let mut bytes = vec![0u8];
    bytes.extend_from_slice(&2u64.to_le_bytes());
    bytes.extend_from_slice(&[0xff, 0xfe]);
    assert_eq!(decode_message(&bytes), None);
}

#[test]
fn encoding_is_well_framed() {
    // The frame is self-describing: a tag, then length-prefixed fields.
    let bytes = encode_message(&Message::Error { message: "ab".to_string() });
    assert_eq!(bytes[0], 0);
    assert_eq!(&bytes[1..9], &2u64.to_le_bytes());
    assert_eq!(&bytes[9..], b"ab");
}
