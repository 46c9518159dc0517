//! Big-endian 32-bit integers and ASCII decimal notation.
//!
//! The wire format carries `i32` fields as four big-endian bytes, and the
//! handshake response carries the challenge token as an ASCII base-10 string.
//! Both notations are defined here as spec functions, with verified encoders
//! and parsers.
use vstd::prelude::*;

verus! {

/// The four big-endian bytes of a 32-bit signed integer (two's complement).
pub open spec fn be_bytes_of_i32(n: i32) -> Seq<u8> {
    let u = n as u32;
    seq![(u >> 24) as u8, (u >> 16) as u8, (u >> 8) as u8, u as u8]
}

/// The 32-bit signed integer read from four big-endian bytes.
pub open spec fn i32_of_be(b0: u8, b1: u8, b2: u8, b3: u8) -> i32 {
    (((b0 as u32) << 24) | ((b1 as u32) << 16) | ((b2 as u32) << 8) | (b3 as u32)) as i32
}

/// Appends the big-endian encoding of `n` to `out`.
pub fn push_i32_be(out: &mut Vec<u8>, n: i32)
    ensures
        final(out)@ == old(out)@ + be_bytes_of_i32(n),
{
    let u = n as u32;
    out.push((u >> 24) as u8);
    out.push((u >> 16) as u8);
    out.push((u >> 8) as u8);
    out.push(u as u8);
    proof {
        assert(final(out)@ =~= old(out)@ + be_bytes_of_i32(n));
    }
}

/// Reads a 32-bit signed integer from four big-endian bytes.
pub fn i32_from_be(b0: u8, b1: u8, b2: u8, b3: u8) -> (n: i32)
    ensures
        n == i32_of_be(b0, b1, b2, b3),
{
    (((b0 as u32) << 24) | ((b1 as u32) << 16) | ((b2 as u32) << 8) | (b3 as u32)) as i32
}

/// Decoding the big-endian bytes of an integer yields the integer back.
pub proof fn lemma_i32_be_round_trip(n: i32)
    ensures
        ({
            let b = be_bytes_of_i32(n);
            i32_of_be(b[0], b[1], b[2], b[3]) == n
        }),
{
    let u = n as u32;
    assert((((u >> 24) as u8 as u32) << 24) | (((u >> 16) as u8 as u32) << 16) | (((u >> 8) as u8
        as u32) << 8) | (u as u8 as u32) == u) by (bit_vector);
    assert((n as u32) as i32 == n) by (bit_vector);
}

/// True of the ASCII bytes `'0'` to `'9'`.
pub open spec fn is_digit_byte(b: u8) -> bool {
    0x30 <= b <= 0x39
}

/// The ASCII decimal digits of `n`, most significant first, no sign and no
/// leading zeros (a lone `'0'` for zero).
pub open spec fn dec_digits(n: nat) -> Seq<u8>
    decreases n,
{
    if n < 10 {
        seq![(0x30 + n) as u8]
    } else {
        dec_digits(n / 10).push((0x30 + n % 10) as u8)
    }
}

/// The ASCII decimal notation of `v`: a `'-'` sign when negative, then the
/// digits of the magnitude.
pub open spec fn dec_repr(v: int) -> Seq<u8> {
    if v < 0 {
        seq![0x2du8] + dec_digits((-v) as nat)
    } else {
        dec_digits(v as nat)
    }
}

/// True when every byte of `s` is an ASCII decimal digit.
pub open spec fn all_digit_bytes(s: Seq<u8>) -> bool {
    forall|i: int| 0 <= i < s.len() ==> is_digit_byte(s[i])
}

/// The base-10 value of a digit string, read most significant first.
pub open spec fn digits_value(s: Seq<u8>) -> int
    decreases s.len(),
{
    if s.len() == 0 {
        0
    } else {
        digits_value(s.drop_last()) * 10 + (s.last() - 0x30)
    }
}

/// The `i32` denoted by `s` in ASCII base 10, as `str::parse::<i32>` reads
/// it: an optional `'+'` or `'-'` sign, then one or more digits and nothing
/// else, rejected when the value falls outside the `i32` range.
pub open spec fn parse_dec_i32(s: Seq<u8>) -> Option<int> {
    let signed = s.len() > 0 && (s[0] == 0x2b || s[0] == 0x2d);
    let body = if signed {
        s.drop_first()
    } else {
        s
    };
    let v = if s.len() > 0 && s[0] == 0x2d {
        -digits_value(body)
    } else {
        digits_value(body)
    };
    if body.len() == 0 || !all_digit_bytes(body) {
        None
    } else if v < i32::MIN || v > i32::MAX {
        None
    } else {
        Some(v)
    }
}

/// A digit string denotes a nonnegative value.
pub proof fn lemma_digits_value_nonneg(s: Seq<u8>)
    requires
        all_digit_bytes(s),
    ensures
        digits_value(s) >= 0,
    decreases s.len(),
{
    if s.len() > 0 {
        assert(all_digit_bytes(s.drop_last()));
        lemma_digits_value_nonneg(s.drop_last());
    }
}

/// Extending a digit string never shrinks its value.
pub proof fn lemma_digits_value_prefix(s: Seq<u8>, i: int)
    requires
        all_digit_bytes(s),
        0 <= i <= s.len(),
    ensures
        digits_value(s.take(i)) <= digits_value(s),
    decreases s.len() - i,
{
    if i < s.len() {
        let t = s.take(i + 1);
        assert(t.drop_last() =~= s.take(i));
        assert(all_digit_bytes(t)) by {
            assert(forall|j: int| 0 <= j < t.len() ==> t[j] == s[j]);
        }
        lemma_digits_value_nonneg(s.take(i));
        assert(digits_value(s.take(i)) <= digits_value(t));
        lemma_digits_value_prefix(s, i + 1);
        assert(s.take(s.len() as int) =~= s);
    } else {
        assert(s.take(i) =~= s);
    }
}

/// Reads an `i32` from ASCII base-10 bytes, exactly as [`parse_dec_i32`]
/// describes.
pub fn parse_i32_dec(s: &[u8]) -> (r: Option<i32>)
    ensures
        r is Some <==> parse_dec_i32(s@) is Some,
        r is Some ==> Some(r->0 as int) == parse_dec_i32(s@),
{
    let n = s.len();
    let signed = n > 0 && (s[0] == 0x2b || s[0] == 0x2d);
    let neg = n > 0 && s[0] == 0x2d;
    let start: usize = if signed {
        1
    } else {
        0
    };
    let ghost body = if signed {
        s@.drop_first()
    } else {
        s@
    };
    proof {
        assert(body =~= s@.subrange(start as int, n as int));
    }
    if start >= n {
        return None;
    }
    let mut mag: u64 = 0;
    let mut i: usize = start;
    while i < n
        invariant
            start <= i <= n == s@.len(),
            start <= 1,
            body == s@.subrange(start as int, n as int),
            body == (if s@.len() > 0 && (s@[0] == 0x2b || s@[0] == 0x2d) {
                s@.drop_first()
            } else {
                s@
            }),
            body.len() > 0,
            all_digit_bytes(body.take(i - start)),
            mag == digits_value(body.take(i - start)),
            mag <= 0x8000_0000,
        decreases n - i,
    {
        let b = s[i];
        let ghost pre = body.take(i - start);
        let ghost ext = body.take(i + 1 - start);
        proof {
            assert(ext.drop_last() =~= pre);
            assert(ext.last() == s@[i as int]);
        }
        if b < 0x30 || b > 0x39 {
            proof {
                assert(!all_digit_bytes(body)) by {
                    assert(0 <= i - start < body.len());
                    assert(body[i - start] == s@[i as int]);
                    assert(!is_digit_byte(body[i - start]));
                }
            }
            return None;
        }
        mag = mag * 10 + ((b - 0x30) as u64);
        proof {
            assert(all_digit_bytes(ext));
            assert(mag == digits_value(ext));
        }
        if mag > 0x8000_0000 {
            proof {
                if all_digit_bytes(body) {
                    lemma_digits_value_prefix(body, i + 1 - start);
                    assert(digits_value(body) >= mag > 0x8000_0000);
                }
            }
            return None;
        }
        i += 1;
    }
    proof {
        assert(body.take(n - start) =~= body);
    }
    if neg {
        let v: i64 = -(mag as i64);
        proof {
            assert(i32::MIN <= v <= 0);
        }
        Some(v as i32)
    } else {
        if mag > 0x7fff_ffff {
            return None;
        }
        Some(mag as i32)
    }
}

/// Appends the decimal digits of `m` to `out`, most significant first.
pub fn push_dec_digits(out: &mut Vec<u8>, m: u64)
    ensures
        final(out)@ == old(out)@ + dec_digits(m as nat),
    decreases m,
{
    if m < 10 {
        out.push(0x30 + (m as u8));
        proof {
            assert(final(out)@ =~= old(out)@ + dec_digits(m as nat));
        }
    } else {
        push_dec_digits(out, m / 10);
        out.push(0x30 + ((m % 10) as u8));
        proof {
            assert(final(out)@ =~= old(out)@ + dec_digits(m as nat));
        }
    }
}

/// The ASCII decimal notation of `n`, exactly as [`dec_repr`] describes.
pub fn format_i32_dec(n: i32) -> (r: Vec<u8>)
    ensures
        r@ == dec_repr(n as int),
{
    let mut out: Vec<u8> = Vec::new();
    if n < 0 {
        out.push(0x2d);
        let m: u64 = (-(n as i64)) as u64;
        proof {
            assert(m as nat == (-(n as int)) as nat);
        }
        push_dec_digits(&mut out, m);
        proof {
            assert(out@ =~= dec_repr(n as int));
        }
    } else {
        push_dec_digits(&mut out, n as u64);
        proof {
            assert(out@ =~= dec_repr(n as int));
        }
    }
    out
}

/// Ten to the power `k`.
pub open spec fn pow10(k: nat) -> nat
    decreases k,
{
    if k == 0 {
        1
    } else {
        10 * pow10((k - 1) as nat)
    }
}

/// A magnitude below `10^k` has at most `k` decimal digits.
pub proof fn lemma_dec_digits_len(m: nat, k: nat)
    requires
        k >= 1,
        m < pow10(k),
    ensures
        dec_digits(m).len() <= k,
    decreases m,
{
    reveal_with_fuel(pow10, 3);
    if m < 10 {
    } else {
        assert(k >= 2) by {
            reveal_with_fuel(pow10, 3);
            if k == 1 {
                assert(pow10(1) == 10);
            }
        }
        assert(pow10(k) == 10 * pow10((k - 1) as nat));
        assert(m / 10 < pow10((k - 1) as nat));
        lemma_dec_digits_len(m / 10, (k - 1) as nat);
    }
}

/// The decimal notation of an `i32` takes at most 11 bytes.
pub proof fn lemma_dec_repr_i32_len(v: i32)
    ensures
        1 <= dec_repr(v as int).len() <= 11,
{
    reveal_with_fuel(pow10, 11);
    assert(pow10(10) == 10000000000);
    if v < 0 {
        lemma_dec_digits_len((-(v as int)) as nat, 10);
    } else {
        lemma_dec_digits_len(v as nat, 10);
    }
}

} // verus!
