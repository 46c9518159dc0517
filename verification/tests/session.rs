use mcquery::packet::ProtocolError;
use mcquery::packet::QUERY_TYPE_HANDSHAKE;
use mcquery::packet::QUERY_TYPE_INFORMATION;
use mcquery::session::challenge_from_handshake;
use mcquery::session::fullstat_request;
use mcquery::session::handshake_request;
use mcquery::session::information_from_fullstat;

/// A transport faked as a table: given the last request bytes, hand back
/// the datagram a cooperating server would send.
fn fake_server_reply(request: &[u8], challenge: i32) -> Vec<u8> {
    assert_eq!(&request[..2], &[0xfe, 0xfd]);
    match request[2] {
        0x09 => {
            let mut reply = vec![QUERY_TYPE_HANDSHAKE];
            reply.extend_from_slice(&request[3..7]);
            reply.extend_from_slice(format!("{challenge}").as_bytes());
            reply.push(0);
            reply
        }
        0x00 => {
            let mut reply = vec![QUERY_TYPE_INFORMATION];
            reply.extend_from_slice(&request[3..7]);
            reply.extend_from_slice(b"splitnum\x00\x80\x00");
            reply.extend_from_slice(b"hostname\x00test");
            reply.extend_from_slice(b"\x00\x01player_\x00\x00");
            reply.extend_from_slice(b"Steve\x00\x00");
            reply
        }
        other => panic!("unexpected request kind {other}"),
    }
}

#[test]
fn end_to_end_against_fake_transport() {
    // Handshake exchange.
    let request = handshake_request(17);
    let reply = fake_server_reply(request.as_slice(), 42);
    let challenge = challenge_from_handshake(reply.as_slice()).unwrap();
    assert_eq!(challenge, 42);

    // Full-stat exchange carrying the challenge.
    let request = fullstat_request(18, challenge);
    assert_eq!(&request[7..11], &[0, 0, 0, 42]);
    let reply = fake_server_reply(request.as_slice(), 42);
    let info = information_from_fullstat(reply.as_slice()).unwrap();
    assert_eq!(info.players, vec!["Steve".to_string()]);
    assert_eq!(info.other, vec![("hostname".to_string(), "test".to_string())]);
}

#[test]
fn handshake_request_bytes_are_exact() {
    assert_eq!(handshake_request(256), vec![0xfe, 0xfd, 0x09, 0, 0, 1, 0]);
}

#[test]
fn fullstat_request_carries_challenge() {
    assert_eq!(
        fullstat_request(-2, 9250),
        vec![0xfe, 0xfd, 0x00, 0xff, 0xff, 0xff, 0xfe, 0x00, 0x00, 0x24, 0x22, 0xff, 0xff, 0xff,
            0x01]
    );
}

#[test]
fn handshake_phase_rejects_fullstat_reply() {
    let mut reply = vec![QUERY_TYPE_INFORMATION, 0, 0, 0, 1];
    reply.extend_from_slice(b"splitnum\x00\x80\x00");
    reply.extend_from_slice(b"k\x00v");
    let err = challenge_from_handshake(reply.as_slice()).unwrap_err();
    assert_eq!(err, ProtocolError::UnexpectedResponseKind);
}

#[test]
fn fullstat_phase_rejects_handshake_reply() {
    let mut reply = vec![QUERY_TYPE_HANDSHAKE, 0, 0, 0, 1];
    reply.extend_from_slice(b"42\x00");
    let err = information_from_fullstat(reply.as_slice()).unwrap_err();
    assert_eq!(err, ProtocolError::UnexpectedResponseKind);
}

#[test]
fn transport_decode_errors_propagate() {
    let err = challenge_from_handshake(&[QUERY_TYPE_HANDSHAKE, 0, 0, 0, 1, b'x', 0]).unwrap_err();
    assert_eq!(err, ProtocolError::InvalidChallenge);
    let err = information_from_fullstat(&[0x42, 0, 0, 0, 1]).unwrap_err();
    assert_eq!(err, ProtocolError::UnknownResponseKind);
}
