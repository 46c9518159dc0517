//! The two-exchange session: build the handshake request, read the
//! challenge out of its reply, build the full-stat request carrying that
//! challenge, and read the server information out of the final reply.
//!
//! These functions are pure: the caller owns the datagram transport, sends
//! the produced bytes, and feeds each received datagram back in. Sequence
//! numbers are passed in so that the caller can draw them from any source.
use vstd::prelude::*;

use crate::packet::Information;
use crate::packet::Marshaller;
use crate::packet::ProtocolError;
use crate::packet::Request;
use crate::packet::Response;
use crate::packet::QUERY_TYPE_HANDSHAKE;
use crate::packet::QUERY_TYPE_INFORMATION;
use crate::packet::spec_challenge_bytes;
use crate::packet::spec_fullstat_other;
use crate::packet::spec_fullstat_players;
use crate::packet::spec_parse_response_err;
use crate::packet::spec_payload;
use crate::packet::spec_request_bytes;
use crate::num::parse_dec_i32;

verus! {

/// The bytes of a handshake request with the given sequence number.
pub fn handshake_request(sequence_number: i32) -> (out: Vec<u8>)
    ensures
        out@ == spec_request_bytes(
            Request {
                request_type: QUERY_TYPE_HANDSHAKE,
                sequence_number,
                response_number: 0,
            },
        ),
{
    Request::new(QUERY_TYPE_HANDSHAKE, sequence_number, 0).marshall()
}

/// The bytes of a full-stat request carrying the server's challenge.
pub fn fullstat_request(sequence_number: i32, challenge: i32) -> (out: Vec<u8>)
    ensures
        out@ == spec_request_bytes(
            Request {
                request_type: QUERY_TYPE_INFORMATION,
                sequence_number,
                response_number: challenge,
            },
        ),
{
    Request::new(QUERY_TYPE_INFORMATION, sequence_number, challenge).marshall()
}

/// Reads the challenge token out of the datagram that answered the
/// handshake. Fails with the decode error of the datagram, or with
/// `UnexpectedResponseKind` when a well-formed reply of the other kind
/// arrived.
pub fn challenge_from_handshake(data: &[u8]) -> (r: Result<i32, ProtocolError>)
    ensures
        match r {
            Ok(c) => {
                &&& data@.len() >= 5
                &&& data@[0] == QUERY_TYPE_HANDSHAKE
                &&& parse_dec_i32(spec_challenge_bytes(data@)) == Some(c as int)
            },
            Err(e) => match spec_parse_response_err(data@) {
                Some(pe) => e == pe,
                None => data@[0] != QUERY_TYPE_HANDSHAKE && e
                    == ProtocolError::UnexpectedResponseKind,
            },
        },
        r is Ok <==> spec_parse_response_err(data@) is None && data@.len() >= 5 && data@[0]
            == QUERY_TYPE_HANDSHAKE,
{
    let mut resp = Response::new();
    match resp.unmarshall(data) {
        Err(e) => Err(e),
        Ok(()) => {
            if resp.response_type == QUERY_TYPE_HANDSHAKE {
                Ok(resp.response_number)
            } else {
                Err(ProtocolError::UnexpectedResponseKind)
            }
        },
    }
}

/// Reads the server information out of the datagram that answered the
/// full-stat request. Fails with the decode error of the datagram, or with
/// `UnexpectedResponseKind` when a well-formed reply of the other kind
/// arrived.
pub fn information_from_fullstat(data: &[u8]) -> (r: Result<Information, ProtocolError>)
    ensures
        match r {
            Ok(info) => {
                &&& data@.len() >= 16
                &&& data@[0] == QUERY_TYPE_INFORMATION
                &&& info.players_view() == spec_fullstat_players(spec_payload(data@))
                &&& info.other_map() == spec_fullstat_other(spec_payload(data@))
                &&& info.wf()
            },
            Err(e) => match spec_parse_response_err(data@) {
                Some(pe) => e == pe,
                None => data@[0] != QUERY_TYPE_INFORMATION && e
                    == ProtocolError::UnexpectedResponseKind,
            },
        },
        r is Ok <==> spec_parse_response_err(data@) is None && data@.len() >= 5 && data@[0]
            == QUERY_TYPE_INFORMATION,
{
    let mut resp = Response::new();
    match resp.unmarshall(data) {
        Err(e) => Err(e),
        Ok(()) => {
            if resp.response_type == QUERY_TYPE_INFORMATION {
                Ok(resp.information)
            } else {
                Err(ProtocolError::UnexpectedResponseKind)
            }
        },
    }
}

} // verus!
