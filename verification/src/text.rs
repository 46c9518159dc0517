//! Byte-level text handling for the protocol's payload section: strict and
//! lossy UTF-8 decoding, splitting on NUL separators, truncation at a NUL
//! terminator, and the search for the player-section marker.
use vstd::prelude::*;
use vstd::utf8::decode_utf8;
use vstd::utf8::encode_scalar;
use vstd::utf8::encode_utf8;
use vstd::utf8::has_width_1_encoding;
use vstd::utf8::has_width_2_encoding;
use vstd::utf8::has_width_3_encoding;
use vstd::utf8::is_scalar;
use vstd::utf8::char_is_scalar;
use vstd::utf8::valid_utf8;

verus! {

/// The characters that lossy UTF-8 decoding yields on bytes that are not
/// valid UTF-8 (ill-formed sequences become U+FFFD replacement characters).
/// Names the result of `String::from_utf8_lossy`; it depends on the bytes
/// alone.
pub uninterp spec fn replacement_decoding(bytes: Seq<u8>) -> Seq<char>;

/// The characters of a lossy UTF-8 decoding: valid bytes decode exactly,
/// anything else goes through [`replacement_decoding`].
pub open spec fn lossy_decoding(bytes: Seq<u8>) -> Seq<char> {
    if valid_utf8(bytes) {
        decode_utf8(bytes)
    } else {
        replacement_decoding(bytes)
    }
}

/// Relies on `String::from_utf8`: it succeeds exactly on valid UTF-8 and
/// then returns the string whose byte encoding is the input.
#[verifier::external_body]
pub fn utf8_to_string(bytes: &[u8]) -> (r: Option<String>)
    ensures
        r is Some <==> valid_utf8(bytes@),
        r is Some ==> r->0@ == decode_utf8(bytes@),
{
    String::from_utf8(bytes.to_vec()).ok()
}

/// Relies on `String::from_utf8_lossy`: valid UTF-8 decodes unchanged, and
/// on other input each ill-formed sequence is replaced with U+FFFD, a
/// function of the bytes alone.
#[verifier::external_body]
pub fn utf8_to_string_lossy(bytes: &[u8]) -> (r: String)
    ensures
        r@ == (if valid_utf8(bytes@) {
            decode_utf8(bytes@)
        } else {
            replacement_decoding(bytes@)
        }),
{
    String::from_utf8_lossy(bytes).into_owned()
}

/// The tokens of `s` split on NUL bytes, as `slice::split` yields them: one
/// more token than there are NUL bytes, and an empty `s` gives one empty
/// token.
pub open spec fn split_nul(s: Seq<u8>) -> Seq<Seq<u8>>
    decreases s.len(),
{
    if s.len() == 0 {
        seq![Seq::<u8>::empty()]
    } else if s.last() == 0 {
        split_nul(s.drop_last()).push(Seq::<u8>::empty())
    } else {
        let r = split_nul(s.drop_last());
        r.update(r.len() - 1, r.last().push(s.last()))
    }
}

/// Splitting always yields at least one token.
pub proof fn lemma_split_nul_len(s: Seq<u8>)
    ensures
        split_nul(s).len() >= 1,
    decreases s.len(),
{
    if s.len() > 0 {
        lemma_split_nul_len(s.drop_last());
    }
}

/// The tokens joined back with a single NUL between each pair of neighbours
/// and nothing at either end.
pub open spec fn join_nul(toks: Seq<Seq<u8>>) -> Seq<u8>
    decreases toks.len(),
{
    if toks.len() == 0 {
        Seq::<u8>::empty()
    } else if toks.len() == 1 {
        toks[0]
    } else {
        join_nul(toks.drop_last()) + seq![0u8] + toks.last()
    }
}

/// A byte string without NUL splits into itself as the one token.
pub proof fn lemma_split_nul_whole(t: Seq<u8>)
    requires
        forall|i: int| 0 <= i < t.len() ==> t[i] != 0,
    ensures
        split_nul(t) == seq![t],
    decreases t.len(),
{
    if t.len() == 0 {
        assert(split_nul(t) =~~= seq![t]);
    } else {
        lemma_split_nul_whole(t.drop_last());
        assert(split_nul(t) =~~= seq![t]);
    }
}

/// Splitting distributes over a NUL that joins two byte strings.
pub proof fn lemma_split_nul_concat(a: Seq<u8>, b: Seq<u8>)
    ensures
        split_nul(a + seq![0u8] + b) == split_nul(a) + split_nul(b),
    decreases b.len(),
{
    lemma_split_nul_len(a);
    let s = a + seq![0u8] + b;
    if b.len() == 0 {
        assert(s.last() == 0);
        assert(s.drop_last() =~= a);
        assert(split_nul(s) =~~= split_nul(a) + split_nul(b));
    } else {
        assert(s.last() == b.last());
        assert(s.drop_last() =~= a + seq![0u8] + b.drop_last());
        lemma_split_nul_concat(a, b.drop_last());
        lemma_split_nul_len(b.drop_last());
        if b.last() == 0 {
            assert(split_nul(s) =~~= split_nul(a) + split_nul(b));
        } else {
            let r = split_nul(a) + split_nul(b.drop_last());
            assert(split_nul(s) == r.update(r.len() - 1, r.last().push(b.last())));
            assert(split_nul(s) =~~= split_nul(a) + split_nul(b));
        }
    }
}

/// Splitting undoes joining, as long as there is at least one token and no
/// token holds a NUL of its own.
pub proof fn lemma_split_join_nul(toks: Seq<Seq<u8>>)
    requires
        toks.len() >= 1,
        forall|i: int, j: int| 0 <= i < toks.len() && 0 <= j < toks[i].len() ==> toks[i][j] != 0,
    ensures
        split_nul(join_nul(toks)) == toks,
    decreases toks.len(),
{
    if toks.len() == 1 {
        lemma_split_nul_whole(toks[0]);
        assert(split_nul(join_nul(toks)) =~~= toks);
    } else {
        lemma_split_join_nul(toks.drop_last());
        lemma_split_nul_whole(toks.last());
        lemma_split_nul_concat(join_nul(toks.drop_last()), toks.last());
        assert(split_nul(join_nul(toks)) =~~= toks);
    }
}

/// Splits `s` into its NUL-separated tokens.
pub fn split_nul_bytes(s: &[u8]) -> (r: Vec<Vec<u8>>)
    ensures
        r.deep_view() == split_nul(s@),
{
    let mut done: Vec<Vec<u8>> = Vec::new();
    let mut cur: Vec<u8> = Vec::new();
    let mut i: usize = 0;
    while i < s.len()
        invariant
            i <= s@.len(),
            done.deep_view().push(cur@) == split_nul(s@.take(i as int)),
        decreases s@.len() - i,
    {
        let ghost prev_done = done.deep_view();
        let ghost prev_cur = cur@;
        let b = s[i];
        if b == 0 {
            done.push(cur);
            cur = Vec::new();
        } else {
            cur.push(b);
        }
        i += 1;
        proof {
            let t = s@.take(i as int);
            assert(t.drop_last() =~= s@.take(i - 1));
            assert(t.last() == s@[i - 1]);
            assert(done.deep_view() =~~= if b == 0 {
                prev_done.push(prev_cur)
            } else {
                prev_done
            });
            lemma_split_nul_len(t.drop_last());
            assert(done.deep_view().push(cur@) =~~= split_nul(t));
        }
    }
    done.push(cur);
    proof {
        assert(s@.take(s@.len() as int) =~= s@);
        assert(done.deep_view() =~~= split_nul(s@));
    }
    done
}

/// The longest NUL-free prefix of `s`: everything before the first NUL, or
/// all of `s` when it has none.
pub open spec fn upto_nul(s: Seq<u8>) -> Seq<u8>
    decreases s.len(),
{
    if s.len() == 0 {
        s
    } else if s[0] == 0 {
        Seq::<u8>::empty()
    } else {
        seq![s[0]] + upto_nul(s.drop_first())
    }
}

/// [`upto_nul`] is the prefix that ends at the first NUL.
pub proof fn lemma_upto_nul_is_prefix(s: Seq<u8>, i: int)
    requires
        0 <= i <= s.len(),
        forall|j: int| 0 <= j < i ==> s[j] != 0,
        i < s.len() ==> s[i] == 0,
    ensures
        upto_nul(s) == s.take(i),
    decreases s.len(),
{
    if i == 0 {
        assert(upto_nul(s) =~= s.take(0));
    } else {
        let rest = s.drop_first();
        lemma_upto_nul_is_prefix(rest, i - 1);
        assert(s.take(i) =~= seq![s[0]] + rest.take(i - 1));
    }
}

/// The bytes of `s` before its first NUL.
pub fn upto_nul_bytes(s: &[u8]) -> (r: Vec<u8>)
    ensures
        r@ == upto_nul(s@),
{
    let mut r: Vec<u8> = Vec::new();
    let mut i: usize = 0;
    while i < s.len()
        invariant
            i <= s@.len(),
            r@ == s@.take(i as int),
            forall|j: int| 0 <= j < i ==> s@[j] != 0,
        decreases s@.len() - i,
    {
        let b = s[i];
        if b == 0 {
            proof {
                lemma_upto_nul_is_prefix(s@, i as int);
            }
            return r;
        }
        r.push(b);
        i += 1;
        proof {
            assert(r@ =~= s@.take(i as int));
        }
    }
    proof {
        lemma_upto_nul_is_prefix(s@, s@.len() as int);
        assert(s@.take(s@.len() as int) =~= s@);
    }
    r
}

/// The eleven fixed bytes that separate the key/value section from the
/// player-name section of a full-stat payload.
pub open spec fn player_marker() -> Seq<u8> {
    seq![0u8, 1u8, 112u8, 108u8, 97u8, 121u8, 101u8, 114u8, 95u8, 0u8, 0u8]
}

/// True when the marker occupies `s[i..i+11]`.
pub open spec fn marker_at(s: Seq<u8>, i: int) -> bool {
    0 <= i && i + 11 <= s.len() && s.subrange(i, i + 11) == player_marker()
}

/// The offset of the first occurrence of the marker in `s`, if any.
pub open spec fn find_marker(s: Seq<u8>) -> Option<int>
    decreases s.len(),
{
    if s.len() < 11 {
        None
    } else if s.subrange(0, 11) == player_marker() {
        Some(0)
    } else {
        match find_marker(s.drop_first()) {
            Some(i) => Some(i + 1),
            None => None,
        }
    }
}

/// The first match wins: a marker at `i` with no earlier one is what
/// [`find_marker`] returns.
pub proof fn lemma_find_marker_at(s: Seq<u8>, i: int)
    requires
        marker_at(s, i),
        forall|j: int| 0 <= j < i ==> !marker_at(s, j),
    ensures
        find_marker(s) == Some(i),
    decreases i,
{
    if i == 0 {
        assert(s.subrange(0, 11) == player_marker());
    } else {
        assert(!marker_at(s, 0));
        assert(s.subrange(0, 11) != player_marker());
        let rest = s.drop_first();
        assert(rest.subrange(i - 1, i + 10) =~= s.subrange(i, i + 11));
        assert(marker_at(rest, i - 1));
        assert forall|j: int| 0 <= j < i - 1 implies !marker_at(rest, j) by {
            if j + 11 <= rest.len() {
                assert(rest.subrange(j, j + 11) =~= s.subrange(j + 1, j + 12));
                assert(!marker_at(s, j + 1));
            }
        }
        lemma_find_marker_at(rest, i - 1);
    }
}

/// What [`find_marker`] returns is a real occurrence.
pub proof fn lemma_find_marker_sound(s: Seq<u8>)
    ensures
        find_marker(s) matches Some(i) ==> marker_at(s, i),
    decreases s.len(),
{
    if s.len() >= 11 && s.subrange(0, 11) != player_marker() {
        let rest = s.drop_first();
        lemma_find_marker_sound(rest);
        match find_marker(rest) {
            Some(i) => {
                assert(rest.subrange(i, i + 11) =~= s.subrange(i + 1, i + 12));
            },
            None => {},
        }
    }
}

/// Without a match anywhere there is nothing to find.
pub proof fn lemma_find_marker_absent(s: Seq<u8>)
    requires
        forall|j: int| !marker_at(s, j),
    ensures
        find_marker(s) is None,
    decreases s.len(),
{
    if s.len() >= 11 {
        assert(!marker_at(s, 0));
        assert(s.subrange(0, 11) != player_marker());
        let rest = s.drop_first();
        assert forall|j: int| !marker_at(rest, j) by {
            if 0 <= j && j + 11 <= rest.len() {
                assert(rest.subrange(j, j + 11) =~= s.subrange(j + 1, j + 12));
                assert(!marker_at(s, j + 1));
            }
        }
        lemma_find_marker_absent(rest);
    }
}

/// The marker bytes as a vector.
fn marker_bytes() -> (v: Vec<u8>)
    ensures
        v@ == player_marker(),
{
    let mut v: Vec<u8> = Vec::new();
    v.push(0);
    v.push(1);
    v.push(112);
    v.push(108);
    v.push(97);
    v.push(121);
    v.push(101);
    v.push(114);
    v.push(95);
    v.push(0);
    v.push(0);
    proof {
        assert(v@ =~= player_marker());
    }
    v
}

/// True when the marker occupies `s[i..i+11]`.
fn window_is_marker(s: &[u8], i: usize) -> (b: bool)
    requires
        i + 11 <= s@.len(),
    ensures
        b == marker_at(s@, i as int),
{
    let mk = marker_bytes();
    let n = s.len();
    proof {
        assert(s@.len() == n);
    }
    let mut j: usize = 0;
    while j < 11
        invariant
            j <= 11,
            i + 11 <= s@.len(),
            s@.len() <= usize::MAX,
            mk@ == player_marker(),
            forall|t: int| 0 <= t < j ==> s@[i + t] == player_marker()[t],
        decreases 11 - j,
    {
        proof {
            assert(i + j < s@.len());
        }
        if s[i + j] != mk[j] {
            proof {
                assert(s@.subrange(i as int, i + 11)[j as int] == s@[i + j]);
                assert(s@.subrange(i as int, i + 11) != player_marker());
            }
            return false;
        }
        j += 1;
    }
    proof {
        assert(s@.subrange(i as int, i + 11) =~= player_marker());
    }
    true
}

/// Finds the first occurrence of the player-section marker in `s`.
pub fn find_marker_bytes(s: &[u8]) -> (r: Option<usize>)
    ensures
        match r {
            Some(i) => find_marker(s@) == Some(i as int),
            None => find_marker(s@) is None,
        },
{
    if s.len() < 11 {
        proof {
            lemma_find_marker_absent(s@);
        }
        return None;
    }
    let mut i: usize = 0;
    let last = s.len() - 11;
    while i <= last
        invariant
            11 <= s@.len(),
            s@.len() <= usize::MAX,
            last == s@.len() - 11,
            i <= last + 1,
            forall|j: int| 0 <= j < i ==> !marker_at(s@, j),
        decreases last + 1 - i,
    {
        if window_is_marker(s, i) {
            proof {
                lemma_find_marker_at(s@, i as int);
            }
            return Some(i);
        }
        i += 1;
    }
    proof {
        lemma_find_marker_absent(s@);
    }
    None
}

/// The UTF-8 encoding of characters other than `b` never contains the ASCII
/// byte `b`: multi-byte encodings use bytes at or above 0x80 only.
pub proof fn lemma_encode_utf8_no_byte(chars: Seq<char>, b: u8)
    requires
        b < 0x80,
        forall|i: int| 0 <= i < chars.len() ==> chars[i] as u32 != b as u32,
    ensures
        forall|k: int| 0 <= k < encode_utf8(chars).len() ==> encode_utf8(chars)[k] != b,
    decreases chars.len(),
{
    if chars.len() > 0 {
        let c = chars[0] as u32;
        char_is_scalar(chars[0]);
        let e0 = encode_scalar(c);
        assert(forall|k: int| 0 <= k < e0.len() ==> e0[k] != b) by {
            if has_width_1_encoding(c) {
                assert((c & 0x7F) as u8 != b) by (bit_vector)
                    requires
                        c < 0x80,
                        b < 0x80,
                        c != b as u32,
                ;
            } else if has_width_2_encoding(c) {
                assert((0xC0 | ((c >> 6) & 0x1F) as u8) >= 0x80 && (0x80 | (c & 0x3F) as u8)
                    >= 0x80) by (bit_vector);
            } else if has_width_3_encoding(c) {
                assert((0xE0 | ((c >> 12) & 0x0F) as u8) >= 0x80 && (0x80 | ((c >> 6) & 0x3F)
                    as u8) >= 0x80 && (0x80 | (c & 0x3F) as u8) >= 0x80) by (bit_vector);
            } else {
                assert((0xF0 | ((c >> 18) & 0x7) as u8) >= 0x80 && (0x80 | ((c >> 12) & 0x3F)
                    as u8) >= 0x80 && (0x80 | ((c >> 6) & 0x3F) as u8) >= 0x80 && (0x80 | (c
                    & 0x3F) as u8) >= 0x80) by (bit_vector);
            }
        }
        let rest = chars.drop_first();
        lemma_encode_utf8_no_byte(rest, b);
        assert(forall|k: int| 0 <= k < encode_utf8(chars).len() ==> encode_utf8(chars)[k] != b)
            by {
            assert(encode_utf8(chars) == e0 + encode_utf8(rest));
            assert(forall|k: int|
                0 <= k < encode_utf8(rest).len() ==> encode_utf8(rest)[k] != b);
        }
    }
}

} // verus!
