//! Round-trip laws of the wire codec: what was encoded is what decoding
//! gives back.
use vstd::prelude::*;
use vstd::utf8::decode_utf8;
use vstd::utf8::encode_utf8;
use vstd::utf8::encode_utf8_decode_utf8;
use vstd::utf8::encode_utf8_valid_utf8;
use vstd::utf8::valid_utf8;

use crate::num::be_bytes_of_i32;
use crate::num::lemma_i32_be_round_trip;
use crate::packet::kv_map_of;
use crate::packet::kv_ok;
use crate::packet::kv_tokens;
use crate::packet::lemma_kv_tokens_len;
use crate::packet::pairs_map;
use crate::packet::spec_fullstat_other;
use crate::packet::spec_fullstat_players;
use crate::packet::spec_kv_bytes;
use crate::packet::spec_parse_request;
use crate::packet::spec_parse_response_err;
use crate::packet::spec_payload;
use crate::packet::spec_request_bytes;
use crate::packet::spec_response_bytes;
use crate::packet::splitnum_header;
use crate::packet::ProtocolError;
use crate::packet::Request;
use crate::packet::Response;
use crate::packet::QUERY_TYPE_HANDSHAKE;
use crate::packet::QUERY_TYPE_INFORMATION;
use crate::text::find_marker;
use crate::text::join_nul;
use crate::text::lemma_encode_utf8_no_byte;
use crate::text::lemma_find_marker_absent;
use crate::text::lemma_split_join_nul;
use crate::text::lossy_decoding;
use crate::text::marker_at;
use crate::text::player_marker;
use crate::text::split_nul;

verus! {

/// Encoding a handshake request and decoding the bytes with the request
/// decoder yields the original kind tag and sequence number (and no
/// challenge, which the handshake kind does not carry).
pub proof fn lemma_handshake_request_round_trip(req: Request)
    requires
        req.request_type == QUERY_TYPE_HANDSHAKE,
    ensures
        spec_parse_request(spec_request_bytes(req)) == Ok::<(u8, i32, Option<i32>), ProtocolError>(
            (req.request_type, req.sequence_number, None),
        ),
{
    let b = spec_request_bytes(req);
    let sb = be_bytes_of_i32(req.sequence_number);
    assert(b =~= seq![0xfeu8, 0xfdu8, req.request_type] + sb);
    assert(b.len() == 7);
    assert(b[3] == sb[0] && b[4] == sb[1] && b[5] == sb[2] && b[6] == sb[3]);
    lemma_i32_be_round_trip(req.sequence_number);
}

/// Encoding a full-stat request and decoding the bytes recovers the
/// sequence number and the challenge; the fixed padding block fills the
/// encoding exactly, leaving no residual bytes after the fifteen the
/// decoder consumes.
pub proof fn lemma_fullstat_request_round_trip(req: Request)
    requires
        req.request_type == QUERY_TYPE_INFORMATION,
    ensures
        spec_request_bytes(req).len() == 15,
        spec_parse_request(spec_request_bytes(req)) == Ok::<(u8, i32, Option<i32>), ProtocolError>(
            (req.request_type, req.sequence_number, Some(req.response_number)),
        ),
{
    let b = spec_request_bytes(req);
    let sb = be_bytes_of_i32(req.sequence_number);
    let rb = be_bytes_of_i32(req.response_number);
    assert(b =~= seq![0xfeu8, 0xfdu8, req.request_type] + sb + rb + seq![
        0xffu8,
        0xffu8,
        0xffu8,
        0x01u8,
    ]);
    assert(b.len() == 15);
    assert(b[3] == sb[0] && b[4] == sb[1] && b[5] == sb[2] && b[6] == sb[3]);
    assert(b[7] == rb[0] && b[8] == rb[1] && b[9] == rb[2] && b[10] == rb[3]);
    lemma_i32_be_round_trip(req.sequence_number);
    lemma_i32_be_round_trip(req.response_number);
}

/// True when the characters stay clear of the wire format's structural
/// bytes: no NUL (the token separator) and no U+0001 (the second byte of
/// the player-section marker).
pub open spec fn wire_safe(s: Seq<char>) -> bool {
    forall|j: int| 0 <= j < s.len() ==> (#[trigger] s[j] as u32) != 0 && s[j] as u32 != 1
}

/// True when every key and every value of the pair list is wire-safe.
pub open spec fn wire_safe_pairs(pairs: Seq<(String, String)>) -> bool {
    forall|i: int|
        0 <= i < pairs.len() ==> wire_safe(#[trigger] pairs[i].0@) && wire_safe(pairs[i].1@)
}

/// Each token is the encoding of its key or value.
proof fn lemma_kv_tokens_index(pairs: Seq<(String, String)>)
    ensures
        kv_tokens(pairs).len() == 2 * pairs.len(),
        forall|k: int|
            0 <= k < 2 * pairs.len() ==> #[trigger] kv_tokens(pairs)[k] == (if k % 2 == 0 {
                encode_utf8(pairs[k / 2].0@)
            } else {
                encode_utf8(pairs[k / 2].1@)
            }),
    decreases pairs.len(),
{
    lemma_kv_tokens_len(pairs);
    if pairs.len() > 0 {
        lemma_kv_tokens_index(pairs.drop_last());
        assert forall|k: int| 0 <= k < 2 * pairs.len() implies #[trigger] kv_tokens(pairs)[k] == (
        if k % 2 == 0 {
            encode_utf8(pairs[k / 2].0@)
        } else {
            encode_utf8(pairs[k / 2].1@)
        }) by {
            lemma_kv_tokens_len(pairs.drop_last());
            if k < 2 * pairs.len() - 2 {
                assert(kv_tokens(pairs)[k] == kv_tokens(pairs.drop_last())[k]);
                assert(pairs.drop_last()[k / 2] == pairs[k / 2]);
            } else {
                assert(pairs[k / 2] == pairs.last());
            }
        }
    }
}

/// The mapping read back off the tokens is the mapping that was encoded.
proof fn lemma_kv_map_of_tokens(pairs: Seq<(String, String)>)
    ensures
        kv_map_of(kv_tokens(pairs)) == pairs_map(pairs),
    decreases pairs.len(),
{
    lemma_kv_tokens_len(pairs);
    if pairs.len() > 0 {
        let n = pairs.len() as int;
        let tk = kv_tokens(pairs);
        let ek = encode_utf8(pairs.last().0@);
        let ev = encode_utf8(pairs.last().1@);
        lemma_kv_map_of_tokens(pairs.drop_last());
        lemma_kv_tokens_len(pairs.drop_last());
        assert(tk.take(2 * n - 2) =~= kv_tokens(pairs.drop_last()));
        assert(tk[2 * n - 2] == ek && tk[2 * n - 1] == ev);
        encode_utf8_decode_utf8(pairs.last().0@);
        encode_utf8_valid_utf8(pairs.last().1@);
        encode_utf8_decode_utf8(pairs.last().1@);
        assert(lossy_decoding(ev) == pairs.last().1@);
        assert(tk.len() as int / 2 == n);
        assert(kv_map_of(tk) == kv_map_of(tk.take(2 * n - 2)).insert(
            decode_utf8(tk[2 * n - 2]),
            lossy_decoding(tk[2 * n - 1]),
        )) by {
            assert(kv_map_of(tk) == kv_map_of(tk.take(2 * (tk.len() as int / 2) - 2)).insert(
                decode_utf8(tk[2 * (tk.len() as int / 2) - 2]),
                lossy_decoding(tk[2 * (tk.len() as int / 2) - 1]),
            ));
        }
    }
}

/// No byte of the joined tokens is `b`, when no token holds `b` and `b` is
/// not the separator.
proof fn lemma_join_nul_no_byte(toks: Seq<Seq<u8>>, b: u8)
    requires
        b != 0,
        forall|i: int, j: int| 0 <= i < toks.len() && 0 <= j < toks[i].len() ==> toks[i][j] != b,
    ensures
        forall|k: int| 0 <= k < join_nul(toks).len() ==> join_nul(toks)[k] != b,
    decreases toks.len(),
{
    if toks.len() == 0 {
    } else if toks.len() == 1 {
        assert(join_nul(toks) == toks[0]);
    } else {
        assert(forall|i: int, j: int|
            0 <= i < toks.drop_last().len() && 0 <= j < toks.drop_last()[i].len()
                ==> toks.drop_last()[i][j] != b) by {
            assert(forall|i: int|
                0 <= i < toks.drop_last().len() ==> toks.drop_last()[i] == #[trigger] toks[i]);
        }
        lemma_join_nul_no_byte(toks.drop_last(), b);
        let pre = join_nul(toks.drop_last());
        let last = toks.last();
        assert(join_nul(toks) == pre + seq![0u8] + last);
        assert forall|k: int| 0 <= k < join_nul(toks).len() implies join_nul(toks)[k] != b by {
            if k < pre.len() {
                assert(join_nul(toks)[k] == pre[k]);
            } else if k == pre.len() {
                assert(join_nul(toks)[k] == 0);
            } else {
                assert(join_nul(toks)[k] == last[k - pre.len() - 1]);
                assert(toks[toks.len() - 1] == last);
            }
        }
    }
}

/// Encoding the key/value table of a full-stat response and decoding the
/// bytes reproduces the table as a mapping, independent of entry order, a
/// later duplicate winning; the decode succeeds and lists no players. The
/// strings must be wire-safe: a NUL would split a token, and a U+0001 could
/// let the player-section marker appear inside the payload.
pub proof fn lemma_fullstat_information_round_trip(resp: Response)
    requires
        resp.response_type == QUERY_TYPE_INFORMATION,
        wire_safe_pairs(resp.information.other@),
    ensures
        ({
            let data = spec_response_bytes(resp);
            &&& data.len() >= 16
            &&& data[0] == QUERY_TYPE_INFORMATION
            &&& spec_parse_response_err(data) is None
            &&& spec_fullstat_other(spec_payload(data)) == pairs_map(resp.information.other@)
            &&& spec_fullstat_players(spec_payload(data)) == Seq::<Seq<char>>::empty()
        }),
{
    let pairs = resp.information.other@;
    let tk = kv_tokens(pairs);
    let jn = join_nul(tk);
    let data = spec_response_bytes(resp);
    assert(data =~= seq![resp.response_type] + be_bytes_of_i32(resp.sequence_number)
        + splitnum_header() + jn);
    assert(data.len() == 16 + jn.len());
    assert(spec_payload(data) =~= jn);
    lemma_kv_tokens_index(pairs);
    assert forall|i: int, j: int|
        0 <= i < tk.len() && 0 <= j < tk[i].len() implies tk[i][j] != 0 && tk[i][j] != 1 by {
        let s = if i % 2 == 0 {
            pairs[i / 2].0@
        } else {
            pairs[i / 2].1@
        };
        assert(tk[i] == encode_utf8(s));
        assert(0 <= i / 2 < pairs.len());
        assert(wire_safe(pairs[i / 2].0@) && wire_safe(pairs[i / 2].1@));
        assert(wire_safe(s));
        assert(0u8 as u32 == 0 && 1u8 as u32 == 1);
        lemma_encode_utf8_no_byte(s, 0);
        lemma_encode_utf8_no_byte(s, 1);
    }
    lemma_join_nul_no_byte(tk, 1u8);
    assert forall|j: int| !marker_at(jn, j) by {
        if 0 <= j && j + 11 <= jn.len() {
            assert(player_marker()[1] == 1);
            if marker_at(jn, j) {
                assert(jn.subrange(j, j + 11)[1] == jn[j + 1]);
                assert(jn[j + 1] == 1);
            }
        }
    }
    lemma_find_marker_absent(jn);
    assert(find_marker(spec_payload(data)) is None);
    assert(spec_kv_bytes(spec_payload(data)) == spec_payload(data));
    assert(spec_fullstat_players(spec_payload(data)) =~= Seq::<Seq<char>>::empty());
    if pairs.len() == 0 {
        assert(tk.len() == 0);
        assert(jn.len() == 0);
        assert(split_nul(jn) =~~= seq![Seq::<u8>::empty()]);
        assert(split_nul(jn).len() as int / 2 == 0);
        assert(kv_map_of(split_nul(jn)) == Map::<Seq<char>, Seq<char>>::empty());
        assert(pairs_map(pairs) == Map::<Seq<char>, Seq<char>>::empty());
        assert(kv_ok(split_nul(jn)));
    } else {
        lemma_kv_tokens_len(pairs);
        lemma_split_join_nul(tk);
        assert(split_nul(jn) == tk);
        assert forall|i: int|
            0 <= i < 2 * (tk.len() as int / 2) && i % 2 == 0 implies valid_utf8(
            #[trigger] tk[i],
        ) by {
            assert(tk[i] == encode_utf8(pairs[i / 2].0@));
            encode_utf8_valid_utf8(pairs[i / 2].0@);
        }
        assert(kv_ok(split_nul(jn)));
        lemma_kv_map_of_tokens(pairs);
    }
}

} // verus!
