use mcquery::num::format_i32_dec;
use mcquery::num::parse_i32_dec;
use mcquery::packet::Information;
use mcquery::packet::Marshaller;
use mcquery::packet::ProtocolError;
use mcquery::packet::Request;
use mcquery::packet::Response;
use mcquery::packet::QUERY_TYPE_HANDSHAKE;
use mcquery::packet::QUERY_TYPE_INFORMATION;
use mcquery::text::utf8_to_string;
use mcquery::text::utf8_to_string_lossy;

fn empty_response() -> Response {
    Response::new()
}

fn handshake_response_bytes(sequence: [u8; 4], field: &[u8]) -> Vec<u8> {
    let mut data = vec![QUERY_TYPE_HANDSHAKE];
    data.extend_from_slice(&sequence);
    data.extend_from_slice(field);
    data
}

fn fullstat_response_bytes(payload: &[u8]) -> Vec<u8> {
    let mut data = vec![QUERY_TYPE_INFORMATION];
    data.extend_from_slice(&[0, 0, 0, 1]);
    data.extend_from_slice(b"splitnum\x00\x80\x00");
    data.extend_from_slice(payload);
    data
}

const MARKER: &[u8] = b"\x00\x01player_\x00\x00";

#[test]
fn handshake_request_encoding_is_exact() {
    let out = Request::new(QUERY_TYPE_HANDSHAKE, 0x3039, 0).marshall();
    assert_eq!(out, vec![0xfe, 0xfd, 0x09, 0x00, 0x00, 0x30, 0x39]);
}

#[test]
fn fullstat_request_encoding_is_exact() {
    let out = Request::new(QUERY_TYPE_INFORMATION, -1, 42).marshall();
    assert_eq!(
        out,
        vec![0xfe, 0xfd, 0x00, 0xff, 0xff, 0xff, 0xff, 0x00, 0x00, 0x00, 0x2a, 0xff, 0xff, 0xff,
            0x01]
    );
}

#[test]
fn handshake_request_round_trips() {
    let sent = Request::new(QUERY_TYPE_HANDSHAKE, 123456789, 0);
    let bytes = sent.marshall();
    let mut decoded = Request::new(0, 0, 0);
    decoded.unmarshall(bytes.as_slice()).unwrap();
    assert_eq!(decoded.request_type, QUERY_TYPE_HANDSHAKE);
    assert_eq!(decoded.sequence_number, 123456789);
}

#[test]
fn fullstat_request_round_trips_without_residue() {
    let sent = Request::new(QUERY_TYPE_INFORMATION, -987654321, 0x7654321);
    let bytes = sent.marshall();
    assert_eq!(bytes.len(), 15);
    let mut decoded = Request::new(0, 0, 0);
    decoded.unmarshall(bytes.as_slice()).unwrap();
    assert_eq!(decoded.request_type, QUERY_TYPE_INFORMATION);
    assert_eq!(decoded.sequence_number, -987654321);
    assert_eq!(decoded.response_number, 0x7654321);
}

#[test]
fn request_decode_rejects_bad_version() {
    let mut decoded = Request::new(0, 0, 0);
    let err = decoded.unmarshall(&[0xfe, 0xfc, 0x09, 0, 0, 0, 0]).unwrap_err();
    assert_eq!(err, ProtocolError::BadVersion);
}

#[test]
fn request_decode_rejects_unknown_kind() {
    let mut decoded = Request::new(0, 0, 0);
    let err = decoded.unmarshall(&[0xfe, 0xfd, 0x42, 0, 0, 0, 0]).unwrap_err();
    assert_eq!(err, ProtocolError::UnknownRequestKind);
}

#[test]
fn request_decode_rejects_truncated_data() {
    let mut decoded = Request::new(0, 0, 0);
    assert_eq!(decoded.unmarshall(&[0xfe]).unwrap_err(), ProtocolError::Truncated);
    assert_eq!(
        decoded.unmarshall(&[0xfe, 0xfd, 0x00, 0, 0, 0, 0]).unwrap_err(),
        ProtocolError::Truncated
    );
}

#[test]
fn challenge_parses_from_nul_padded_decimal() {
    let data = handshake_response_bytes([0, 0, 0, 1], b"12345\x00\x00\x00\x00\x00\x00\x00");
    assert_eq!(data.len(), 17);
    let mut response = empty_response();
    response.unmarshall(data.as_slice()).unwrap();
    assert_eq!(response.response_type, QUERY_TYPE_HANDSHAKE);
    assert_eq!(response.sequence_number, 1);
    assert_eq!(response.response_number, 12345);
}

#[test]
fn challenge_rejects_non_numeric_field() {
    let data = handshake_response_bytes([0, 0, 0, 1], b"notanumber\x00\x00");
    let mut response = empty_response();
    let err = response.unmarshall(data.as_slice()).unwrap_err();
    assert_eq!(err, ProtocolError::InvalidChallenge);
}

#[test]
fn challenge_rejects_empty_field() {
    let data = handshake_response_bytes([0, 0, 0, 9], b"");
    let mut response = empty_response();
    let err = response.unmarshall(data.as_slice()).unwrap_err();
    assert_eq!(err, ProtocolError::InvalidChallenge);
}

#[test]
fn challenge_parses_negative_token() {
    let data = handshake_response_bytes([0, 0, 0, 2], b"-123\x00\x00\x00\x00\x00\x00\x00\x00");
    let mut response = empty_response();
    response.unmarshall(data.as_slice()).unwrap();
    assert_eq!(response.response_number, -123);
}

#[test]
fn unknown_response_kind_fails_cleanly() {
    let mut response = empty_response();
    let err = response.unmarshall(&[0x42, 0, 0, 0, 1, 7, 7, 7]).unwrap_err();
    assert_eq!(err, ProtocolError::UnknownResponseKind);
}

#[test]
fn response_decode_rejects_truncated_data() {
    let mut response = empty_response();
    assert_eq!(response.unmarshall(&[0x09, 0, 0]).unwrap_err(), ProtocolError::Truncated);
    assert_eq!(
        response.unmarshall(&[0x00, 0, 0, 0, 1, 2, 3]).unwrap_err(),
        ProtocolError::Truncated
    );
}

#[test]
fn player_list_decodes_in_order() {
    let mut payload = b"hostname\x00test".to_vec();
    payload.extend_from_slice(MARKER);
    payload.extend_from_slice(b"Alice\x00Bob\x00\x00");
    let data = fullstat_response_bytes(payload.as_slice());
    let mut response = empty_response();
    response.unmarshall(data.as_slice()).unwrap();
    assert_eq!(response.information.players, vec!["Alice".to_string(), "Bob".to_string()]);
    assert_eq!(
        response.information.other,
        vec![("hostname".to_string(), "test".to_string())]
    );
}

#[test]
fn fullstat_without_marker_has_no_players() {
    let data = fullstat_response_bytes(b"map\x00world\x00motd\x00hi");
    let mut response = empty_response();
    response.unmarshall(data.as_slice()).unwrap();
    assert!(response.information.players.is_empty());
    assert_eq!(
        response.information.other,
        vec![("map".to_string(), "world".to_string()), ("motd".to_string(), "hi".to_string())]
    );
}

#[test]
fn odd_trailing_token_is_dropped() {
    let data = fullstat_response_bytes(b"map\x00world\x00stray");
    let mut response = empty_response();
    response.unmarshall(data.as_slice()).unwrap();
    assert_eq!(response.information.other, vec![("map".to_string(), "world".to_string())]);
}

#[test]
fn duplicate_key_takes_last_value() {
    let data = fullstat_response_bytes(b"map\x00first\x00map\x00second");
    let mut response = empty_response();
    response.unmarshall(data.as_slice()).unwrap();
    assert_eq!(response.information.other, vec![("map".to_string(), "second".to_string())]);
}

#[test]
fn invalid_utf8_key_fails_with_encoding() {
    let data = fullstat_response_bytes(b"\xff\xfe\x00value");
    let mut response = empty_response();
    let err = response.unmarshall(data.as_slice()).unwrap_err();
    assert_eq!(err, ProtocolError::Encoding);
}

#[test]
fn invalid_utf8_player_fails_with_encoding() {
    let mut payload = b"k\x00v".to_vec();
    payload.extend_from_slice(MARKER);
    payload.extend_from_slice(b"\xff\x00\x00");
    let data = fullstat_response_bytes(payload.as_slice());
    let mut response = empty_response();
    let err = response.unmarshall(data.as_slice()).unwrap_err();
    assert_eq!(err, ProtocolError::Encoding);
}

#[test]
fn invalid_utf8_value_is_replaced_not_rejected() {
    let data = fullstat_response_bytes(b"k\x00\xffv");
    let mut response = empty_response();
    response.unmarshall(data.as_slice()).unwrap();
    assert_eq!(
        response.information.other,
        vec![("k".to_string(), "\u{FFFD}v".to_string())]
    );
}

#[test]
fn information_mapping_round_trips() {
    let mut encoded = empty_response();
    encoded.response_type = QUERY_TYPE_INFORMATION;
    encoded.sequence_number = 7;
    encoded.information = Information {
        players: Vec::new(),
        other: vec![
            ("hostname".to_string(), "test".to_string()),
            ("map".to_string(), "world".to_string()),
            ("numplayers".to_string(), "2".to_string()),
        ],
    };
    let bytes = encoded.marshall();
    let mut decoded = empty_response();
    decoded.unmarshall(bytes.as_slice()).unwrap();
    assert_eq!(decoded.information.other, encoded.information.other);
    assert!(decoded.information.players.is_empty());
}

#[test]
fn empty_mapping_round_trips() {
    let mut encoded = empty_response();
    encoded.response_type = QUERY_TYPE_INFORMATION;
    encoded.information = Information { players: Vec::new(), other: Vec::new() };
    let bytes = encoded.marshall();
    let mut decoded = empty_response();
    decoded.unmarshall(bytes.as_slice()).unwrap();
    assert!(decoded.information.other.is_empty());
    assert!(decoded.information.players.is_empty());
}

#[test]
fn handshake_response_encoding_pads_to_twelve() {
    let mut encoded = empty_response();
    encoded.response_type = QUERY_TYPE_HANDSHAKE;
    encoded.sequence_number = 1;
    encoded.response_number = -123;
    let bytes = encoded.marshall();
    let mut expected = vec![0x09, 0x00, 0x00, 0x00, 0x01];
    expected.extend_from_slice(b"-123\x00\x00\x00\x00\x00\x00\x00\x00");
    assert_eq!(bytes, expected);
}

#[test]
fn decimal_parsing_matches_i32_semantics() {
    assert_eq!(parse_i32_dec(b"0"), Some(0));
    assert_eq!(parse_i32_dec(b"007"), Some(7));
    assert_eq!(parse_i32_dec(b"+42"), Some(42));
    assert_eq!(parse_i32_dec(b"2147483647"), Some(i32::MAX));
    assert_eq!(parse_i32_dec(b"-2147483648"), Some(i32::MIN));
    assert_eq!(parse_i32_dec(b"2147483648"), None);
    assert_eq!(parse_i32_dec(b"-2147483649"), None);
    assert_eq!(parse_i32_dec(b""), None);
    assert_eq!(parse_i32_dec(b"-"), None);
    assert_eq!(parse_i32_dec(b"12a"), None);
    assert_eq!(parse_i32_dec(b"99999999999999999999"), None);
}

#[test]
fn decimal_formatting_is_exact() {
    assert_eq!(format_i32_dec(0), b"0".to_vec());
    assert_eq!(format_i32_dec(12345), b"12345".to_vec());
    assert_eq!(format_i32_dec(-1), b"-1".to_vec());
    assert_eq!(format_i32_dec(i32::MIN), b"-2147483648".to_vec());
    assert_eq!(format_i32_dec(i32::MAX), b"2147483647".to_vec());
}

#[test]
fn strict_utf8_decoding_accepts_and_rejects() {
    assert_eq!(utf8_to_string(b"caf\xc3\xa9"), Some("caf\u{e9}".to_string()));
    assert_eq!(utf8_to_string(b"\xff"), None);
}

#[test]
fn lossy_utf8_decoding_substitutes() {
    assert_eq!(utf8_to_string_lossy(b"ok"), "ok".to_string());
    assert_eq!(utf8_to_string_lossy(b"a\xffb"), "a\u{FFFD}b".to_string());
}
