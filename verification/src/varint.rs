//! The variable-length integer codec: a base-128, continuation-bit scheme
//! with rebasing between groups, so that every value in `[0, 2^128 - 1]`
//! has exactly one encoding.

use vstd::prelude::*;

verus! {

use crate::Error;

/// The bytes that encode `m` as a run of groups that all carry the
/// continuation bit: the most significant group first, each group holding
/// `128 + (its payload)`.
pub open spec fn encode_cont(m: int) -> Seq<u8>
    decreases m,
{
    if m < 128 {
        seq![(m + 128) as u8]
    } else {
        encode_cont(m / 128 - 1).push((m % 128 + 128) as u8)
    }
}

/// The canonical encoding of `n`: the groups of `n` in most-significant-first
/// order, every group but the last carrying the continuation bit. Rebasing
/// (the `- 1` after each division) makes the encoding unique: no value has a
/// redundant longer form.
pub open spec fn spec_encode(n: int) -> Seq<u8> {
    if n < 128 {
        seq![n as u8]
    } else {
        encode_cont(n / 128 - 1).push((n % 128) as u8)
    }
}

/// One decoding step at the front of `s`, with `n` already accumulated:
/// a group with the continuation bit set contributes `(n + payload + 1) * 128`
/// and decoding continues; a terminating group yields `n + payload` and the
/// count of bytes consumed. `Error::Varint` marks an accumulator that would
/// leave the 128-bit domain, `Error::Truncated` a buffer with no final group.
pub open spec fn decode_suffix(s: Seq<u8>, n: int) -> Result<(u128, int), Error>
    decreases s.len(),
{
    if s.len() == 0 {
        Err(Error::Truncated)
    } else {
        let b = s[0] as int;
        if b < 128 {
            Ok((((n + b) as u128), 1))
        } else {
            let n2 = (n + b - 127) * 128;
            if n2 > u128::MAX {
                Err(Error::Varint)
            } else {
                match decode_suffix(s.skip(1), n2) {
                    Ok((value, length)) => Ok((value, length + 1)),
                    Err(e) => Err(e),
                }
            }
        }
    }
}

/// What decoding the front of `s` yields: the value and the number of bytes
/// consumed, or the error.
pub open spec fn spec_decode(s: Seq<u8>) -> Result<(u128, int), Error> {
    decode_suffix(s, 0)
}

/// The groups of `m`, all with the continuation bit, in most-significant-first
/// order.
fn encode_groups(m: u128) -> (r: Vec<u8>)
    ensures
        r@ == encode_cont(m as int),
    decreases m,
{
    let mut out: Vec<u8> = if m < 128 {
        Vec::new()
    } else {
        encode_groups(m / 128 - 1)
    };
    out.push((m % 128) as u8 + 128);
    out
}

/// Encodes `n` into its unique compact byte sequence.
pub fn encode(n: u128) -> (r: Vec<u8>)
    ensures
        r@ == spec_encode(n as int),
{
    let mut out: Vec<u8> = if n < 128 {
        Vec::new()
    } else {
        encode_groups(n / 128 - 1)
    };
    out.push((n % 128) as u8);
    out
}

/// The accumulator after decoding the continuation groups `encode_cont(m)`,
/// having started from accumulator `a`.
spec fn cont_value(m: int, a: int) -> int
    decreases m,
{
    if m < 128 {
        (a + m + 1) * 128
    } else {
        (cont_value(m / 128 - 1, a) + m % 128 + 1) * 128
    }
}

proof fn lemma_cont_value_lower_bound(m: int, a: int)
    requires
        0 <= m,
        0 <= a,
    ensures
        cont_value(m, a) >= 128,
    decreases m,
{
    if m >= 128 {
        lemma_cont_value_lower_bound(m / 128 - 1, a);
    }
}

proof fn lemma_cont_value_zero(m: int)
    requires
        0 <= m,
    ensures
        cont_value(m, 0) == (m + 1) * 128,
    decreases m,
{
    if m >= 128 {
        lemma_cont_value_zero(m / 128 - 1);
    }
}

/// Decoding a buffer that begins with the continuation groups of `m` carries
/// the accumulator from `a` to `cont_value(m, a)` and goes on with the rest.
proof fn lemma_decode_cont(m: int, a: int, tail: Seq<u8>)
    requires
        0 <= m,
        0 <= a,
        cont_value(m, a) <= u128::MAX,
    ensures
        decode_suffix(encode_cont(m) + tail, a) == (match decode_suffix(
            tail,
            cont_value(m, a),
        ) {
            Ok((value, length)) => Ok::<(u128, int), Error>(
                (value, length + encode_cont(m).len()),
            ),
            Err(e) => Err::<(u128, int), Error>(e),
        }),
    decreases m,
{
    if m < 128 {
        let s = encode_cont(m) + tail;
        assert(s[0] == (m + 128) as u8);
        assert(s.skip(1) =~= tail);
    } else {
        let m2 = m / 128 - 1;
        let group = seq![(m % 128 + 128) as u8];
        lemma_cont_value_lower_bound(m2, a);
        lemma_decode_cont(m2, a, group + tail);
        assert(encode_cont(m) + tail =~= encode_cont(m2) + (group + tail));
        assert((group + tail)[0] == (m % 128 + 128) as u8);
        assert((group + tail).skip(1) =~= tail);
    }
}

/// Round-trip with a suffix: decoding a buffer that begins with the encoding
/// of `n` yields `n` and consumes exactly the encoding, whatever bytes
/// follow it. This is what lets a stream of concatenated varints be decoded
/// positionally.
pub proof fn lemma_round_trip_with_suffix(n: u128, rest: Seq<u8>)
    ensures
        decode_suffix(spec_encode(n as int) + rest, 0) == Ok::<(u128, int), Error>(
            (n, spec_encode(n as int).len() as int),
        ),
{
    let s = spec_encode(n as int) + rest;
    if n < 128 {
        assert(s[0] == n as u8);
    } else {
        let m = n as int / 128 - 1;
        let last = seq![(n as int % 128) as u8];
        lemma_cont_value_zero(m);
        lemma_decode_cont(m, 0, last + rest);
        assert(s =~= encode_cont(m) + (last + rest));
        assert((last + rest)[0] == (n as int % 128) as u8);
    }
}

/// Round-trip: for every unsigned 128-bit integer `n`, decoding
/// `spec_encode(n)` yields exactly `n` and consumes the whole encoding.
pub proof fn lemma_round_trip(n: u128)
    ensures
        spec_decode(spec_encode(n as int)) == Ok::<(u128, int), Error>(
            (n, spec_encode(n as int).len() as int),
        ),
{
    lemma_round_trip_with_suffix(n, Seq::empty());
    assert(spec_encode(n as int) + Seq::<u8>::empty() =~= spec_encode(n as int));
}

/// The smallest value that consuming exactly `len` remaining bytes can
/// yield from accumulator `a`.
spec fn min_decodable(len: int, a: int) -> int
    decreases len,
{
    if len <= 1 {
        a
    } else {
        min_decodable(len - 1, (a + 1) * 128)
    }
}

/// The largest value that consuming exactly `len` remaining bytes can
/// yield from accumulator `a`.
spec fn max_decodable(len: int, a: int) -> int
    decreases len,
{
    if len <= 1 {
        a + 127
    } else {
        max_decodable(len - 1, (a + 128) * 128)
    }
}

proof fn lemma_min_decodable_mono(len: int, x: int, y: int)
    requires
        x <= y,
    ensures
        min_decodable(len, x) <= min_decodable(len, y),
    decreases len,
{
    if len > 1 {
        lemma_min_decodable_mono(len - 1, (x + 1) * 128, (y + 1) * 128);
    }
}

proof fn lemma_max_decodable_mono(len: int, x: int, y: int)
    requires
        x <= y,
    ensures
        max_decodable(len, x) <= max_decodable(len, y),
    decreases len,
{
    if len > 1 {
        lemma_max_decodable_mono(len - 1, (x + 128) * 128, (y + 128) * 128);
    }
}

proof fn lemma_min_decodable_ge(len: int, x: int)
    requires
        0 <= x,
    ensures
        min_decodable(len, x) >= x,
    decreases len,
{
    if len > 1 {
        lemma_min_decodable_ge(len - 1, (x + 1) * 128);
    }
}

proof fn lemma_min_decodable_len(len1: int, len2: int, a: int)
    requires
        1 <= len1 <= len2,
        0 <= a,
    ensures
        min_decodable(len1, a) <= min_decodable(len2, a),
    decreases len2,
{
    if len1 < len2 {
        lemma_min_decodable_mono(len2 - 1, a, (a + 1) * 128);
        lemma_min_decodable_len(len1, len2 - 1, a);
    }
}

/// Moving the accumulator to the next group start leaves every shorter-range
/// value behind: nothing decodable from `a` is decodable from `a + 128` with
/// the same number of bytes.
proof fn lemma_separation(len: int, a: int)
    requires
        0 <= a,
    ensures
        max_decodable(len, a) < min_decodable(len, a + 128),
    decreases len,
{
    if len > 1 {
        lemma_separation(len - 1, (a + 128) * 128);
        lemma_min_decodable_mono(len - 1, (a + 128) * 128 + 128, (a + 129) * 128);
    }
}

/// A continuation group's new accumulator is a positive multiple of 128 at
/// least one group past `a`, and stays clear of the top of the domain.
proof fn lemma_group_accumulator(a: int, b: int)
    requires
        0 <= a,
        128 <= b <= 255,
        (a + b - 127) * 128 <= u128::MAX,
    ensures
        128 <= (a + 1) * 128 <= (a + b - 127) * 128,
        (a + b - 127) * 128 <= a + 16256 + (a + 1) * 128,
        (a + b - 127) * 128 <= u128::MAX - 127,
{
    let k = a + b - 127;
    assert(k <= u128::MAX / 128) by {
        if k > u128::MAX / 128 {
            assert(k * 128 >= (u128::MAX / 128) * 128 + 128);
        }
    }
    assert(k * 128 <= (u128::MAX / 128) * 128);
}

/// Bounds: a decode that consumes the whole buffer from accumulator `a`
/// yields a value in `[min_decodable, max_decodable]` for that length.
proof fn lemma_decode_bounds(s: Seq<u8>, a: int)
    requires
        0 <= a <= u128::MAX - 127,
        decode_suffix(s, a) matches Ok(pair) && pair.1 == s.len(),
    ensures
        decode_suffix(s, a) matches Ok(pair) ==> min_decodable(s.len() as int, a) <= pair.0
            <= max_decodable(s.len() as int, a),
    decreases s.len(),
{
    let b = s[0] as int;
    if b >= 128 {
        let a2 = (a + b - 127) * 128;
        lemma_group_accumulator(a, b);
        lemma_decode_bounds(s.skip(1), a2);
        lemma_min_decodable_mono(s.len() - 1, (a + 1) * 128, a2);
        lemma_max_decodable_mono(s.len() - 1, a2, (a + 128) * 128);
    }
}

/// Two buffers that decode in full from the same accumulator to the same
/// value are the same buffer.
proof fn lemma_decode_full_injective(s1: Seq<u8>, s2: Seq<u8>, a: int, v: u128)
    requires
        0 <= a <= u128::MAX - 127,
        decode_suffix(s1, a) == Ok::<(u128, int), Error>((v, s1.len() as int)),
        decode_suffix(s2, a) == Ok::<(u128, int), Error>((v, s2.len() as int)),
    ensures
        s1 == s2,
    decreases s1.len(),
{
    let b1 = s1[0] as int;
    let b2 = s2[0] as int;
    if b1 < 128 && b2 < 128 {
        assert(s1 =~= s2);
    } else if b1 < 128 && b2 >= 128 {
        let a2 = (a + b2 - 127) * 128;
        lemma_group_accumulator(a, b2);
        lemma_decode_bounds(s2.skip(1), a2);
        lemma_min_decodable_ge(s2.len() - 1, a2);
        assert(false);
    } else if b1 >= 128 && b2 < 128 {
        let a1 = (a + b1 - 127) * 128;
        lemma_group_accumulator(a, b1);
        lemma_decode_bounds(s1.skip(1), a1);
        lemma_min_decodable_ge(s1.len() - 1, a1);
        assert(false);
    } else {
        let a1 = (a + b1 - 127) * 128;
        let a2 = (a + b2 - 127) * 128;
        lemma_group_accumulator(a, b1);
        lemma_group_accumulator(a, b2);
        if b1 == b2 {
            lemma_decode_full_injective(s1.skip(1), s2.skip(1), a1, v);
            assert forall|i: int| 0 <= i < s1.len() implies s1[i] == s2[i] by {
                if i >= 1 {
                    assert(s1[i] == s1.skip(1)[i - 1]);
                    assert(s2[i] == s2.skip(1)[i - 1]);
                }
            }
            assert(s1 =~= s2);
        } else {
            lemma_decode_bounds(s1.skip(1), a1);
            lemma_decode_bounds(s2.skip(1), a2);
            let l1 = s1.len() - 1;
            let l2 = s2.len() - 1;
            if b1 < b2 {
                lemma_ranges_disjoint(l1, l2, a1, a2);
            } else {
                lemma_ranges_disjoint(l2, l1, a2, a1);
            }
            assert(false);
        }
    }
}

/// Values fully decodable from accumulator `a1` and from a later group
/// start `a2` never coincide, whatever the two byte counts.
proof fn lemma_ranges_disjoint(l1: int, l2: int, a1: int, a2: int)
    requires
        1 <= l1,
        1 <= l2,
        128 <= a1,
        a1 + 128 <= a2,
        a2 <= a1 + 16256,
    ensures
        max_decodable(l1, a1) < min_decodable(l2, a2) || max_decodable(l2, a2) < min_decodable(
            l1,
            a1,
        ),
{
    if l1 <= l2 {
        lemma_separation(l1, a1);
        lemma_min_decodable_len(l1, l2, a1 + 128);
        lemma_min_decodable_mono(l2, a1 + 128, a2);
    } else {
        lemma_min_decodable_len(l2 + 1, l1, a1);
        lemma_min_decodable_mono(l2, a2 + 128, (a1 + 1) * 128);
        lemma_separation(l2, a2);
    }
}

/// Canonical uniqueness: a buffer that decodes in full to `n` is exactly
/// the encoding of `n`. The rebasing step leaves no value a second,
/// overlong representation.
pub proof fn lemma_encoding_unique(s: Seq<u8>, n: u128)
    requires
        spec_decode(s) == Ok::<(u128, int), Error>((n, s.len() as int)),
    ensures
        s == spec_encode(n as int),
{
    lemma_round_trip(n);
    lemma_decode_full_injective(s, spec_encode(n as int), 0, n);
}

/// A successful decode consumes at least one byte and no more than the
/// whole buffer.
pub proof fn lemma_decode_suffix_len(s: Seq<u8>, n: int)
    ensures
        decode_suffix(s, n) matches Ok(pair) ==> 1 <= pair.1 <= s.len(),
    decreases s.len(),
{
    if s.len() > 0 && s[0] >= 128 {
        lemma_decode_suffix_len(s.skip(1), (n + s[0] - 127) * 128);
    }
}

/// Decodes one integer from the front of `buffer`, returning the value and
/// how many bytes were consumed, so that callers can walk a stream of
/// concatenated varints.
pub fn decode(buffer: &[u8]) -> (r: Result<(u128, usize), Error>)
    ensures
        match spec_decode(buffer@) {
            Ok(pair) => r == Ok::<(u128, usize), Error>((pair.0, pair.1 as usize)),
            Err(e) => r == Err::<(u128, usize), Error>(e),
        },
{
    let ghost s = buffer@;
    proof {
        assert(s.skip(0) =~= s);
    }
    let mut n: u128 = 0;
    let mut i: usize = 0;
    loop
        invariant
            i <= s.len(),
            s == buffer@,
            n as int <= u128::MAX - 127,
            spec_decode(s) == (match decode_suffix(s.skip(i as int), n as int) {
                Ok((value, length)) => Ok::<(u128, int), Error>((value, length + i)),
                Err(e) => Err::<(u128, int), Error>(e),
            }),
        decreases s.len() - i,
    {
        if i >= buffer.len() {
            return Err(Error::Truncated);
        }
        let b: u8 = *vstd::slice::slice_index_get(buffer, i);
        assert(s.skip(i as int)[0] == s[i as int]);
        if b < 128 {
            return Ok((n + b as u128, i + 1));
        }
        let add: u128 = b as u128 - 127;
        if n > u128::MAX - add {
            assert((n + add) * 128 > u128::MAX);
            return Err(Error::Varint);
        }
        let t: u128 = n + add;
        if t > u128::MAX / 128 {
            assert(t * 128 > u128::MAX);
            return Err(Error::Varint);
        }
        assert(t * 128 <= u128::MAX - 127);
        proof {
            assert(s.skip(i as int).skip(1) =~= s.skip(i as int + 1));
        }
        n = t * 128;
        i = i + 1;
    }
}

} // verus!

