//! The wire codec: request and response packets, their byte encodings, and
//! the structured server information carried by a full-stat response.
//!
//! Both packet kinds open with a shared header. A request is framed by a
//! two-byte magic version prefix; a full-stat request additionally carries
//! the server-issued challenge and a fixed padding block. A full-stat
//! response carries a NUL-separated key/value section and, after a fixed
//! marker, a NUL-separated player-name list.
use vstd::prelude::*;
use vstd::utf8::decode_utf8;
use vstd::utf8::valid_utf8;

use crate::num::be_bytes_of_i32;
use crate::num::dec_repr;
use crate::num::format_i32_dec;
use crate::num::i32_from_be;
use crate::num::i32_of_be;
use crate::num::lemma_dec_repr_i32_len;
use crate::num::parse_dec_i32;
use crate::num::parse_i32_dec;
use crate::num::push_i32_be;
use crate::text::find_marker;
use crate::text::find_marker_bytes;
use crate::text::join_nul;
use crate::text::lemma_find_marker_sound;
use crate::text::lossy_decoding;
use crate::text::split_nul;
use crate::text::split_nul_bytes;
use crate::text::upto_nul;
use crate::text::upto_nul_bytes;
use crate::text::utf8_to_string;
use crate::text::utf8_to_string_lossy;
use vstd::slice::slice_subrange;

verus! {

/// Kind tag of a handshake packet.
pub const QUERY_TYPE_HANDSHAKE: u8 = 0x09;

/// Kind tag of a full-stat packet.
pub const QUERY_TYPE_INFORMATION: u8 = 0x00;

/// Everything that can go wrong while decoding a packet.
#[derive(Clone, Copy, Debug, PartialEq, Eq, Structural)]
pub enum ProtocolError {
    /// The datagram ends before a required field does.
    Truncated,
    /// A request does not open with the magic version prefix.
    BadVersion,
    /// A request kind tag outside the two defined values.
    UnknownRequestKind,
    /// A response kind tag outside the two defined values.
    UnknownResponseKind,
    /// The handshake challenge field is not a decimal 32-bit integer.
    InvalidChallenge,
    /// A key or player name is not valid UTF-8.
    Encoding,
    /// A phase of the session received a response of the other kind.
    UnexpectedResponseKind,
}

/// Request to query the server.
#[derive(Clone, Copy, Debug, PartialEq, Eq, Structural)]
pub struct Request {
    pub request_type: u8,
    pub sequence_number: i32,
    pub response_number: i32,
}

/// Information that a full-stat response carries.
#[derive(Clone, Debug)]
pub struct Information {
    /// Online players, in the order the server listed them.
    pub players: Vec<String>,
    /// Other information, like server name and map: key/value pairs with
    /// unique keys.
    pub other: Vec<(String, String)>,
}

/// Response from the server.
#[derive(Clone, Debug)]
pub struct Response {
    pub response_type: u8,
    pub sequence_number: i32,
    pub response_number: i32,
    pub information: Information,
}

/// The mapping denoted by a pair list: later entries win.
pub open spec fn pairs_map(s: Seq<(String, String)>) -> Map<Seq<char>, Seq<char>>
    decreases s.len(),
{
    if s.len() == 0 {
        Map::empty()
    } else {
        pairs_map(s.drop_last()).insert(s.last().0@, s.last().1@)
    }
}

/// True when no two entries share a key.
pub open spec fn unique_keys(s: Seq<(String, String)>) -> bool {
    forall|i: int, j: int| 0 <= i < j < s.len() ==> s[i].0@ != s[j].0@
}

/// A key is in the mapping exactly when some entry holds it.
pub proof fn lemma_pairs_map_key(s: Seq<(String, String)>, k: Seq<char>)
    ensures
        pairs_map(s).contains_key(k) <==> exists|i: int| 0 <= i < s.len() && s[i].0@ == k,
    decreases s.len(),
{
    if s.len() > 0 {
        lemma_pairs_map_key(s.drop_last(), k);
        if s.last().0@ == k {
            assert(s[s.len() - 1].0@ == k);
        } else if exists|i: int| 0 <= i < s.len() && s[i].0@ == k {
            let i = choose|i: int| 0 <= i < s.len() && s[i].0@ == k;
            assert(s.drop_last()[i].0@ == k);
        }
    }
}

/// With unique keys, removing the entry at `i` removes its key from the
/// mapping.
pub proof fn lemma_pairs_map_remove(s: Seq<(String, String)>, i: int)
    requires
        unique_keys(s),
        0 <= i < s.len(),
    ensures
        pairs_map(s.remove(i)) == pairs_map(s).remove(s[i].0@),
    decreases s.len(),
{
    let k = s[i].0@;
    if i == s.len() - 1 {
        assert(s.remove(i) =~= s.drop_last());
        lemma_pairs_map_key(s.drop_last(), k);
        assert(!pairs_map(s.drop_last()).contains_key(k));
        assert(pairs_map(s.drop_last()) =~= pairs_map(s.drop_last()).insert(k, s.last().1@).remove(
            k,
        ));
    } else {
        let t = s.remove(i);
        assert(t.drop_last() =~= s.drop_last().remove(i));
        assert(t.last() == s.last());
        assert(unique_keys(s.drop_last()));
        lemma_pairs_map_remove(s.drop_last(), i);
        assert(s.drop_last()[i] == s[i]);
        assert(s.last().0@ != k);
        assert(pairs_map(t) == pairs_map(s.drop_last()).remove(k).insert(
            s.last().0@,
            s.last().1@,
        ));
        assert(pairs_map(s.drop_last()).remove(k).insert(s.last().0@, s.last().1@)
            =~= pairs_map(s.drop_last()).insert(s.last().0@, s.last().1@).remove(k));
    }
}

/// The index of the entry holding `key`, if any.
fn find_key(list: &Vec<(String, String)>, key: &String) -> (r: Option<usize>)
    ensures
        match r {
            Some(i) => i < list@.len() && list@[i as int].0@ == key@,
            None => forall|j: int| 0 <= j < list@.len() ==> list@[j].0@ != key@,
        },
{
    let n = list.len();
    let mut i: usize = 0;
    while i < n
        invariant
            i <= n == list@.len(),
            forall|j: int| 0 <= j < i ==> list@[j].0@ != key@,
        decreases n - i,
    {
        if list[i].0.eq(key) {
            return Some(i);
        }
        i += 1;
    }
    None
}

/// Sets `key` to `value` in the pair list: the entry holding the key is
/// replaced, or a new entry is appended.
fn upsert(list: &mut Vec<(String, String)>, key: String, value: String)
    requires
        unique_keys(old(list)@),
    ensures
        unique_keys(final(list)@),
        pairs_map(final(list)@) == pairs_map(old(list)@).insert(key@, value@),
{
    let ghost s0 = list@;
    match find_key(list, &key) {
        Some(i) => {
            proof {
                lemma_pairs_map_remove(s0, i as int);
            }
            list.remove(i);
            let ghost s1 = list@;
            list.push((key, value));
            proof {
                assert(list@.drop_last() =~= s1);
                assert forall|a: int, b: int| 0 <= a < b < s1.len() implies s1[a].0@ != s1[b].0@
                    by {
                    assert(s1[a] == (if a < i { s0[a] } else { s0[a + 1] }));
                    assert(s1[b] == (if b < i { s0[b] } else { s0[b + 1] }));
                }
                assert forall|j: int| 0 <= j < s1.len() implies s1[j].0@ != key@ by {
                    assert(s1[j] == (if j < i { s0[j] } else { s0[j + 1] }));
                    assert(s0[i as int].0@ == key@);
                }
                assert(unique_keys(list@));
                assert(pairs_map(list@) == pairs_map(s1).insert(key@, value@));
                assert(pairs_map(s1).insert(key@, value@) =~= pairs_map(s0).insert(key@, value@));
            }
        },
        None => {
            list.push((key, value));
            proof {
                assert(list@.drop_last() =~= s0);
                assert(unique_keys(list@));
                assert(pairs_map(list@) == pairs_map(s0).insert(key@, value@));
            }
        },
    }
}

impl Information {
    /// The player names as character sequences, in order.
    pub open spec fn players_view(self) -> Seq<Seq<char>> {
        self.players.deep_view()
    }

    /// The key/value table as a mapping.
    pub open spec fn other_map(self) -> Map<Seq<char>, Seq<char>> {
        pairs_map(self.other@)
    }

    /// Well-formed: no two entries of `other` share a key.
    pub open spec fn wf(self) -> bool {
        unique_keys(self.other@)
    }

    /// An empty, well-formed value.
    pub fn new() -> (r: Information)
        ensures
            r.players@.len() == 0,
            r.other@.len() == 0,
            r.players_view() == Seq::<Seq<char>>::empty(),
            r.other_map() == Map::<Seq<char>, Seq<char>>::empty(),
            r.wf(),
    {
        let r = Information { players: Vec::new(), other: Vec::new() };
        proof {
            assert(r.players_view() =~= Seq::<Seq<char>>::empty());
        }
        r
    }
}

impl Request {
    /// A request with the given fields.
    pub fn new(request_type: u8, sequence_number: i32, response_number: i32) -> (r: Request)
        ensures
            r == (Request { request_type, sequence_number, response_number }),
    {
        Request { request_type, sequence_number, response_number }
    }
}

impl Response {
    /// An empty response, ready to decode into.
    pub fn new() -> (r: Response)
        ensures
            r.response_type == 0,
            r.sequence_number == 0,
            r.response_number == 0,
            r.information.players@.len() == 0,
            r.information.other@.len() == 0,
            r.information.players_view() == Seq::<Seq<char>>::empty(),
            r.information.other_map() == Map::<Seq<char>, Seq<char>>::empty(),
            r.information.wf(),
    {
        Response {
            response_type: 0,
            sequence_number: 0,
            response_number: 0,
            information: Information::new(),
        }
    }
}

/// The byte encoding of a request: magic prefix, kind tag, sequence number,
/// and for the full-stat kind the challenge and the fixed padding block.
pub open spec fn spec_request_bytes(r: Request) -> Seq<u8> {
    let head = seq![0xfeu8, 0xfdu8, r.request_type] + be_bytes_of_i32(r.sequence_number);
    if r.request_type == QUERY_TYPE_INFORMATION {
        head + be_bytes_of_i32(r.response_number) + seq![0xffu8, 0xffu8, 0xffu8, 0x01u8]
    } else {
        head
    }
}

/// What decoding request bytes yields: the kind tag, the sequence number,
/// and the challenge when the kind carries one. Trailing bytes beyond the
/// fields of the kind are ignored.
pub open spec fn spec_parse_request(data: Seq<u8>) -> Result<
    (u8, i32, Option<i32>),
    ProtocolError,
> {
    if data.len() < 2 {
        Err(ProtocolError::Truncated)
    } else if data[0] != 0xfe || data[1] != 0xfd {
        Err(ProtocolError::BadVersion)
    } else if data.len() < 7 {
        Err(ProtocolError::Truncated)
    } else {
        let kind = data[2];
        let sn = i32_of_be(data[3], data[4], data[5], data[6]);
        if kind == QUERY_TYPE_INFORMATION {
            if data.len() < 15 {
                Err(ProtocolError::Truncated)
            } else {
                Ok((kind, sn, Some(i32_of_be(data[7], data[8], data[9], data[10]))))
            }
        } else if kind == QUERY_TYPE_HANDSHAKE {
            Ok((kind, sn, None))
        } else {
            Err(ProtocolError::UnknownRequestKind)
        }
    }
}

/// The eleven bytes between a full-stat response header and its payload: a
/// server identification block that the decoder skips without reading.
pub open spec fn splitnum_header() -> Seq<u8> {
    seq![83u8, 80u8, 76u8, 73u8, 84u8, 78u8, 85u8, 77u8, 0u8, 128u8, 0u8]
}

/// The challenge field of an encoded handshake response: the decimal
/// notation of the token, NUL-padded to twelve bytes.
pub open spec fn spec_challenge_field(n: i32) -> Seq<u8> {
    let d = dec_repr(n as int);
    d + Seq::new((12 - d.len()) as nat, |i: int| 0u8)
}

/// The byte tokens of a pair list: each key and each value UTF-8 encoded,
/// in order.
pub open spec fn kv_tokens(pairs: Seq<(String, String)>) -> Seq<Seq<u8>>
    decreases pairs.len(),
{
    if pairs.len() == 0 {
        Seq::<Seq<u8>>::empty()
    } else {
        kv_tokens(pairs.drop_last()) + seq![
            vstd::utf8::encode_utf8(pairs.last().0@),
            vstd::utf8::encode_utf8(pairs.last().1@),
        ]
    }
}

/// The byte encoding of a response: kind tag and sequence number, then for
/// a handshake the padded decimal challenge, and otherwise the
/// identification block followed by the NUL-joined key/value tokens.
pub open spec fn spec_response_bytes(r: Response) -> Seq<u8> {
    let head = seq![r.response_type] + be_bytes_of_i32(r.sequence_number);
    if r.response_type == QUERY_TYPE_HANDSHAKE {
        head + spec_challenge_field(r.response_number)
    } else {
        head + splitnum_header() + join_nul(kv_tokens(r.information.other@))
    }
}

/// The challenge bytes of a handshake response: at most twelve bytes after
/// the header, cut at the first NUL.
pub open spec fn spec_challenge_bytes(data: Seq<u8>) -> Seq<u8> {
    upto_nul(
        data.subrange(
            5,
            if data.len() < 17 {
                data.len() as int
            } else {
                17
            },
        ),
    )
}

/// The payload of a full-stat response: everything after the header and the
/// skipped identification block.
pub open spec fn spec_payload(data: Seq<u8>) -> Seq<u8> {
    data.subrange(16, data.len() as int)
}

/// The key/value section of a payload: up to the marker, or all of it.
pub open spec fn spec_kv_bytes(payload: Seq<u8>) -> Seq<u8> {
    match find_marker(payload) {
        Some(i) => payload.subrange(0, i),
        None => payload,
    }
}

/// The player section of a payload: after the marker, when there is one.
pub open spec fn spec_player_bytes(payload: Seq<u8>) -> Option<Seq<u8>> {
    match find_marker(payload) {
        Some(i) => Some(payload.subrange(i + 11, payload.len() as int)),
        None => None,
    }
}

/// True when every key token of the paired prefix is valid UTF-8.
pub open spec fn kv_ok(toks: Seq<Seq<u8>>) -> bool {
    forall|i: int|
        0 <= i < 2 * (toks.len() as int / 2) && i % 2 == 0 ==> valid_utf8(#[trigger] toks[i])
}

/// The mapping read off the tokens: consecutive pairs, a trailing unmatched
/// token dropped, keys decoded strictly and values leniently, later pairs
/// winning.
pub open spec fn kv_map_of(toks: Seq<Seq<u8>>) -> Map<Seq<char>, Seq<char>>
    decreases toks.len(),
{
    let m = toks.len() as int / 2;
    if m <= 0 {
        Map::empty()
    } else {
        kv_map_of(toks.take(2 * m - 2)).insert(
            decode_utf8(toks[2 * m - 2]),
            lossy_decoding(toks[2 * m - 1]),
        )
    }
}

/// How many tokens stand before the section terminator: the index of the
/// first empty token, or the token count when none is empty.
pub open spec fn players_end(toks: Seq<Seq<u8>>) -> int
    decreases toks.len(),
{
    if toks.len() == 0 {
        0
    } else if toks[0].len() == 0 {
        0
    } else {
        1 + players_end(toks.drop_first())
    }
}

/// True when every player token before the terminator is valid UTF-8.
pub open spec fn players_ok(toks: Seq<Seq<u8>>) -> bool {
    forall|i: int| 0 <= i < players_end(toks) ==> valid_utf8(#[trigger] toks[i])
}

/// The decoded player names before the terminator, in order.
pub open spec fn players_of(toks: Seq<Seq<u8>>) -> Seq<Seq<char>> {
    Seq::new(players_end(toks) as nat, |i: int| decode_utf8(toks[i]))
}

/// The terminator index stays within the token count.
pub proof fn lemma_players_end_bounds(toks: Seq<Seq<u8>>)
    ensures
        0 <= players_end(toks) <= toks.len(),
    decreases toks.len(),
{
    if toks.len() > 0 && toks[0].len() != 0 {
        lemma_players_end_bounds(toks.drop_first());
    }
}

/// The terminator index is where the first empty token stands.
pub proof fn lemma_players_end_at(toks: Seq<Seq<u8>>, q: int)
    requires
        0 <= q <= toks.len(),
        forall|i: int| 0 <= i < q ==> toks[i].len() != 0,
        q < toks.len() ==> toks[q].len() == 0,
    ensures
        players_end(toks) == q,
    decreases toks.len(),
{
    if q > 0 {
        lemma_players_end_at(toks.drop_first(), q - 1);
    }
}

/// True when the whole payload decodes: all keys and all listed player
/// names are valid UTF-8.
pub open spec fn spec_fullstat_ok(payload: Seq<u8>) -> bool {
    &&& kv_ok(split_nul(spec_kv_bytes(payload)))
    &&& match spec_player_bytes(payload) {
        Some(pb) => players_ok(split_nul(pb)),
        None => true,
    }
}

/// The key/value mapping a payload decodes to.
pub open spec fn spec_fullstat_other(payload: Seq<u8>) -> Map<Seq<char>, Seq<char>> {
    kv_map_of(split_nul(spec_kv_bytes(payload)))
}

/// The player names a payload decodes to: empty without a marker.
pub open spec fn spec_fullstat_players(payload: Seq<u8>) -> Seq<Seq<char>> {
    match spec_player_bytes(payload) {
        Some(pb) => players_of(split_nul(pb)),
        None => Seq::<Seq<char>>::empty(),
    }
}

/// The error a response decode fails with, or `None` when it succeeds:
/// truncation before the header or the identification block, an unknown
/// kind tag, an unparseable challenge, or ill-formed UTF-8 in the payload.
pub open spec fn spec_parse_response_err(data: Seq<u8>) -> Option<ProtocolError> {
    if data.len() < 5 {
        Some(ProtocolError::Truncated)
    } else if data[0] == QUERY_TYPE_HANDSHAKE {
        if parse_dec_i32(spec_challenge_bytes(data)) is None {
            Some(ProtocolError::InvalidChallenge)
        } else {
            None
        }
    } else if data[0] == QUERY_TYPE_INFORMATION {
        if data.len() < 16 {
            Some(ProtocolError::Truncated)
        } else if !spec_fullstat_ok(spec_payload(data)) {
            Some(ProtocolError::Encoding)
        } else {
            None
        }
    } else {
        Some(ProtocolError::UnknownResponseKind)
    }
}

/// Encoding to and decoding from the bytes of one datagram.
pub trait Marshaller: Sized {
    /// The byte encoding of `self`.
    fn marshall(&self) -> Vec<u8>;

    /// Decodes `data` into `self`.
    fn unmarshall(&mut self, data: &[u8]) -> Result<(), ProtocolError>;
}

impl Marshaller for Request {
    fn marshall(&self) -> (out: Vec<u8>)
        ensures
            out@ == spec_request_bytes(*self),
    {
        let mut out: Vec<u8> = Vec::new();
        out.push(0xfe);
        out.push(0xfd);
        out.push(self.request_type);
        push_i32_be(&mut out, self.sequence_number);
        if self.request_type == QUERY_TYPE_INFORMATION {
            push_i32_be(&mut out, self.response_number);
            out.push(0xff);
            out.push(0xff);
            out.push(0xff);
            out.push(0x01);
        }
        proof {
            assert(out@ =~= spec_request_bytes(*self));
        }
        out
    }

    fn unmarshall(&mut self, data: &[u8]) -> (r: Result<(), ProtocolError>)
        ensures
            match r {
                Ok(()) => {
                    &&& spec_parse_request(data@) matches Ok(p)
                    &&& final(self).request_type == p.0
                    &&& final(self).sequence_number == p.1
                    &&& final(self).response_number == (match p.2 {
                        Some(c) => c,
                        None => old(self).response_number,
                    })
                },
                Err(e) => {
                    &&& spec_parse_request(data@) == Err::<(u8, i32, Option<i32>), _>(e)
                    &&& *final(self) == *old(self)
                },
            },
    {
        if data.len() < 2 {
            return Err(ProtocolError::Truncated);
        }
        if data[0] != 0xfe || data[1] != 0xfd {
            return Err(ProtocolError::BadVersion);
        }
        if data.len() < 7 {
            return Err(ProtocolError::Truncated);
        }
        let kind = data[2];
        let sn = i32_from_be(data[3], data[4], data[5], data[6]);
        if kind == QUERY_TYPE_INFORMATION {
            if data.len() < 15 {
                return Err(ProtocolError::Truncated);
            }
            let rn = i32_from_be(data[7], data[8], data[9], data[10]);
            self.request_type = kind;
            self.sequence_number = sn;
            self.response_number = rn;
            Ok(())
        } else if kind == QUERY_TYPE_HANDSHAKE {
            self.request_type = kind;
            self.sequence_number = sn;
            Ok(())
        } else {
            Err(ProtocolError::UnknownRequestKind)
        }
    }
}

impl Marshaller for Response {
    fn marshall(&self) -> (out: Vec<u8>)
        ensures
            out@ == spec_response_bytes(*self),
    {
        let mut out: Vec<u8> = Vec::new();
        out.push(self.response_type);
        push_i32_be(&mut out, self.sequence_number);
        if self.response_type == QUERY_TYPE_HANDSHAKE {
            let ghost repr = dec_repr(self.response_number as int);
            let mut d = format_i32_dec(self.response_number);
            proof {
                lemma_dec_repr_i32_len(self.response_number);
                assert(d@ =~= repr + Seq::new((d@.len() - repr.len()) as nat, |i: int| 0u8));
            }
            while d.len() < 12
                invariant
                    repr == dec_repr(self.response_number as int),
                    repr.len() <= d@.len() <= 12,
                    d@ == repr + Seq::new((d@.len() - repr.len()) as nat, |i: int| 0u8),
                decreases 12 - d@.len(),
            {
                d.push(0);
                proof {
                    assert(d@ =~= repr + Seq::new((d@.len() - repr.len()) as nat, |i: int| 0u8));
                }
            }
            out.append(&mut d);
            proof {
                assert(out@ =~= spec_response_bytes(*self));
            }
        } else {
            out.push(83);
            out.push(80);
            out.push(76);
            out.push(73);
            out.push(84);
            out.push(78);
            out.push(85);
            out.push(77);
            out.push(0);
            out.push(128);
            out.push(0);
            let ghost head = seq![self.response_type] + be_bytes_of_i32(self.sequence_number)
                + splitnum_header();
            proof {
                assert(out@ =~= head);
            }
            let ghost pairs = self.information.other@;
            let n = self.information.other.len();
            let mut i: usize = 0;
            while i < n
                invariant
                    i <= n == pairs.len(),
                    pairs == self.information.other@,
                    out@ == head + join_nul(kv_tokens(pairs.take(i as int))),
                decreases n - i,
            {
                let ghost prev = out@;
                if i > 0 {
                    out.push(0);
                }
                let pair = &self.information.other[i];
                out.extend_from_slice(pair.0.as_str().as_bytes());
                out.push(0);
                out.extend_from_slice(pair.1.as_str().as_bytes());
                i += 1;
                proof {
                    let a = kv_tokens(pairs.take(i - 1));
                    let ek = vstd::utf8::encode_utf8(pairs[i - 1].0@);
                    let ev = vstd::utf8::encode_utf8(pairs[i - 1].1@);
                    assert(pairs.take(i as int).drop_last() =~= pairs.take(i - 1));
                    assert(pairs.take(i as int).last() == pairs[i - 1]);
                    assert(kv_tokens(pairs.take(i as int)) == a + seq![ek, ev]);
                    lemma_kv_tokens_len(pairs.take(i - 1));
                    assert((a + seq![ek, ev]).drop_last() =~= a + seq![ek]);
                    assert((a + seq![ek, ev]).last() == ev);
                    if i == 1 {
                        assert(a.len() == 0);
                        assert((a + seq![ek])[0] == ek);
                        assert(join_nul(a + seq![ek]) == ek);
                    } else {
                        assert((a + seq![ek]).drop_last() =~= a);
                        assert((a + seq![ek]).last() == ek);
                        assert(join_nul(a + seq![ek]) == join_nul(a) + seq![0u8] + ek);
                    }
                    assert(out@ =~= head + join_nul(kv_tokens(pairs.take(i as int))));
                }
            }
            proof {
                assert(pairs.take(n as int) =~= pairs);
                assert(out@ =~= spec_response_bytes(*self));
            }
        }
        out
    }

    fn unmarshall(&mut self, data: &[u8]) -> (r: Result<(), ProtocolError>)
        ensures
            match r {
                Ok(()) => {
                    &&& spec_parse_response_err(data@) is None
                    &&& data@.len() >= 5
                    &&& final(self).response_type == data@[0]
                    &&& final(self).sequence_number == i32_of_be(
                        data@[1],
                        data@[2],
                        data@[3],
                        data@[4],
                    )
                    &&& (data@[0] == QUERY_TYPE_HANDSHAKE ==> {
                        &&& parse_dec_i32(spec_challenge_bytes(data@)) == Some(
                            final(self).response_number as int,
                        )
                        &&& final(self).information == old(self).information
                    })
                    &&& (data@[0] == QUERY_TYPE_INFORMATION ==> {
                        &&& final(self).information.players_view() == spec_fullstat_players(
                            spec_payload(data@),
                        )
                        &&& final(self).information.other_map() == spec_fullstat_other(
                            spec_payload(data@),
                        )
                        &&& final(self).information.wf()
                        &&& final(self).response_number == old(self).response_number
                    })
                },
                Err(e) => {
                    &&& spec_parse_response_err(data@) == Some(e)
                    &&& *final(self) == *old(self)
                },
            },
    {
        if data.len() < 5 {
            return Err(ProtocolError::Truncated);
        }
        let kind = data[0];
        let sn = i32_from_be(data[1], data[2], data[3], data[4]);
        if kind == QUERY_TYPE_HANDSHAKE {
            let end: usize = if data.len() < 17 {
                data.len()
            } else {
                17
            };
            let field = slice_subrange(data, 5, end);
            let chal = upto_nul_bytes(field);
            proof {
                assert(chal@ == spec_challenge_bytes(data@));
            }
            match parse_i32_dec(chal.as_slice()) {
                Some(v) => {
                    self.response_type = kind;
                    self.sequence_number = sn;
                    self.response_number = v;
                    Ok(())
                },
                None => Err(ProtocolError::InvalidChallenge),
            }
        } else if kind == QUERY_TYPE_INFORMATION {
            if data.len() < 16 {
                return Err(ProtocolError::Truncated);
            }
            let payload = slice_subrange(data, 16, data.len());
            proof {
                assert(payload@ == spec_payload(data@));
            }
            let marker_pos = find_marker_bytes(payload);
            proof {
                lemma_find_marker_sound(payload@);
            }
            let kv_slice: &[u8] = match marker_pos {
                Some(mi) => slice_subrange(payload, 0, mi),
                None => payload,
            };
            let ghost ktoks = split_nul(spec_kv_bytes(spec_payload(data@)));
            let toks = split_nul_bytes(kv_slice);
            proof {
                assert(kv_slice@ == spec_kv_bytes(spec_payload(data@)));
                assert(toks.deep_view() == ktoks);
            }
            let mut other: Vec<(String, String)> = Vec::new();
            let npairs = toks.len() / 2;
            let mut p: usize = 0;
            while p < npairs
                invariant
                    p <= npairs,
                    npairs == toks@.len() / 2,
                    toks@.len() <= usize::MAX,
                    toks.deep_view() == ktoks,
                    ktoks == split_nul(spec_kv_bytes(spec_payload(data@))),
                    data@.len() >= 16,
                    data@[0] == QUERY_TYPE_INFORMATION,
                    *self == *old(self),
                    unique_keys(other@),
                    pairs_map(other@) == kv_map_of(ktoks.take(2 * p as int)),
                    forall|i: int| 0 <= i < 2 * p && i % 2 == 0 ==> valid_utf8(#[trigger] ktoks[i]),
                decreases npairs - p,
            {
                proof {
                    assert(2 * p + 1 < toks@.len());
                    assert(ktoks[2 * p as int] == toks@[2 * p as int]@);
                    assert(ktoks[2 * p + 1 as int] == toks@[2 * p + 1 as int]@);
                }
                match utf8_to_string(toks[2 * p].as_slice()) {
                    None => {
                        proof {
                            assert(!kv_ok(ktoks)) by {
                                assert(0 <= 2 * p < 2 * (ktoks.len() as int / 2));
                                assert(!valid_utf8(ktoks[2 * p as int]));
                            }
                        }
                        return Err(ProtocolError::Encoding);
                    },
                    Some(k) => {
                        let v = utf8_to_string_lossy(toks[2 * p + 1].as_slice());
                        let ghost kview = k@;
                        let ghost vview = v@;
                        upsert(&mut other, k, v);
                        proof {
                            let t2 = ktoks.take(2 * (p + 1) as int);
                            assert(t2.take(2 * p as int) =~= ktoks.take(2 * p as int));
                            assert(t2.len() as int / 2 == p + 1);
                            assert(t2[2 * p as int] == ktoks[2 * p as int]);
                            assert(t2[2 * p + 1 as int] == ktoks[2 * p + 1 as int]);
                            assert(kv_map_of(t2) == kv_map_of(ktoks.take(2 * p as int)).insert(
                                decode_utf8(ktoks[2 * p as int]),
                                lossy_decoding(ktoks[2 * p + 1 as int]),
                            ));
                            assert(kview == decode_utf8(ktoks[2 * p as int]));
                            assert(vview == lossy_decoding(ktoks[2 * p + 1 as int]));
                        }
                    },
                }
                p += 1;
            }
            proof {
                assert(kv_ok(ktoks));
                if npairs > 0 {
                    assert(ktoks.take(2 * npairs as int).take(2 * npairs as int - 2)
                        =~= ktoks.take(2 * npairs as int - 2));
                    assert(ktoks.take(2 * npairs as int).len() as int / 2 == npairs);
                    assert(ktoks.take(2 * npairs as int)[2 * npairs as int - 2] == ktoks[2
                        * npairs as int - 2]);
                    assert(ktoks.take(2 * npairs as int)[2 * npairs as int - 1] == ktoks[2
                        * npairs as int - 1]);
                }
                assert(kv_map_of(ktoks.take(2 * npairs as int)) == kv_map_of(ktoks));
            }
            let mut players: Vec<String> = Vec::new();
            match marker_pos {
                Some(mi) => {
                    let ghost pb = spec_player_bytes(spec_payload(data@))->0;
                    let ghost pt = split_nul(pb);
                    let pslice = slice_subrange(payload, mi + 11, payload.len());
                    let ptoksv = split_nul_bytes(pslice);
                    proof {
                        assert(pslice@ == pb);
                        assert(ptoksv.deep_view() == pt);
                        lemma_players_end_bounds(pt);
                    }
                    let n2 = ptoksv.len();
                    let mut endq: usize = 0;
                    while endq < n2 && ptoksv[endq].len() != 0
                        invariant
                            endq <= n2 == ptoksv@.len(),
                            ptoksv.deep_view() == pt,
                            forall|i: int| 0 <= i < endq ==> pt[i].len() != 0,
                        decreases n2 - endq,
                    {
                        proof {
                            assert(pt[endq as int] == ptoksv@[endq as int]@);
                        }
                        endq += 1;
                    }
                    proof {
                        assert(endq < n2 ==> pt[endq as int].len() == 0) by {
                            if endq < n2 {
                                assert(pt[endq as int] == ptoksv@[endq as int]@);
                            }
                        }
                        lemma_players_end_at(pt, endq as int);
                    }
                    let mut q: usize = 0;
                    while q < endq
                        invariant
                            q <= endq <= n2 == ptoksv@.len(),
                            ptoksv.deep_view() == pt,
                            players_end(pt) == endq,
                            pb == spec_player_bytes(spec_payload(data@))->0,
                            spec_player_bytes(spec_payload(data@)) is Some,
                            pt == split_nul(pb),
                            data@.len() >= 16,
                            data@[0] == QUERY_TYPE_INFORMATION,
                            *self == *old(self),
                            forall|i: int| 0 <= i < q ==> valid_utf8(#[trigger] pt[i]),
                            players.deep_view() == Seq::new(
                                q as nat,
                                |i: int| decode_utf8(pt[i]),
                            ),
                        decreases endq - q,
                    {
                        proof {
                            assert(pt[q as int] == ptoksv@[q as int]@);
                        }
                        match utf8_to_string(ptoksv[q].as_slice()) {
                            None => {
                                proof {
                                    assert(!players_ok(pt)) by {
                                        assert(0 <= q < players_end(pt));
                                        assert(!valid_utf8(pt[q as int]));
                                    }
                                }
                                return Err(ProtocolError::Encoding);
                            },
                            Some(name) => {
                                let ghost prevdv = players.deep_view();
                                let ghost pv = players@;
                                proof {
                                    assert(prevdv.len() == q);
                                    assert(prevdv.len() == pv.len());
                                    assert(forall|i: int|
                                        0 <= i < pv.len() ==> prevdv[i]
                                            == #[trigger] pv[i].deep_view());
                                }
                                players.push(name);
                                proof {
                                    assert(players@ == pv.push(name));
                                    assert forall|i: int|
                                        0 <= i < players@.len() implies #[trigger] players.deep_view()[i]
                                        == decode_utf8(pt[i]) by {
                                        assert(players.deep_view()[i] == players@[i].deep_view());
                                        if i < q {
                                            assert(players@[i] == pv[i]);
                                            assert(prevdv[i] == pv[i].deep_view());
                                            assert(prevdv[i] == decode_utf8(pt[i]));
                                        } else {
                                            assert(players@[i] == name);
                                        }
                                    }
                                    assert(players.deep_view() =~~= Seq::new(
                                        (q + 1) as nat,
                                        |i: int| decode_utf8(pt[i]),
                                    ));
                                }
                            },
                        }
                        q += 1;
                    }
                    proof {
                        assert(players_ok(pt));
                        assert(players.deep_view() =~~= players_of(pt));
                    }
                },
                None => {
                    proof {
                        assert(players.deep_view() =~~= spec_fullstat_players(
                            spec_payload(data@),
                        ));
                    }
                },
            }
            self.response_type = kind;
            self.sequence_number = sn;
            self.information = Information { players, other };
            proof {
                assert(spec_fullstat_ok(spec_payload(data@)));
            }
            Ok(())
        } else {
            Err(ProtocolError::UnknownResponseKind)
        }
    }
}

/// The token list of `n` pairs holds `2n` tokens.
pub proof fn lemma_kv_tokens_len(pairs: Seq<(String, String)>)
    ensures
        kv_tokens(pairs).len() == 2 * pairs.len(),
    decreases pairs.len(),
{
    if pairs.len() > 0 {
        lemma_kv_tokens_len(pairs.drop_last());
    }
}

} // verus!
