//! The sortable value codec.
//!
//! A document value slot holds an opaque byte string. Numeric values are
//! stored through this codec, which turns the IEEE 754 binary64 bit pattern
//! of a number into a fixed-width byte string whose byte-wise lexicographic
//! order agrees with the numeric order of the encoded values. Range queries
//! over value slots compare the stored byte strings lexicographically, so
//! this property is what makes numeric range filtering work.
//!
//! Strings and raw byte buffers are stored as themselves (identity mapping);
//! their relative order is natural byte order.
//!
//! The byte layout is this store's own: always the eight big-endian bytes
//! of the sign-adjusted bit pattern. The engine's native on-disk sortable
//! encoding is a different, variable-length layout, so values written
//! through this codec line up only with this store's range filtering, not
//! with an index the engine wrote itself. The layout is confined to
//! [`encoded`] and [`decoded`] and the two functions that realise them; a
//! different layout can take their place by re-proving the two laws below
//! (round trip and order preservation) over its `encoded`.

use vstd::arithmetic::div_mod::{
    lemma_div_basics, lemma_div_denominator, lemma_div_multiples_vanish,
    lemma_fundamental_div_mod, lemma_remainder_lower, lemma_remainder_upper,
};
use vstd::arithmetic::mul::{
    lemma_mul_inequality, lemma_mul_is_commutative, lemma_mul_strict_inequality,
};
use vstd::arithmetic::power2::{
    lemma2_to64, lemma2_to64_rest, lemma_pow2_adds, lemma_pow2_pos, lemma_pow2_strictly_increases,
    lemma_pow2_unfold, pow2,
};
use vstd::prelude::*;

verus! {

/// The sign bit of an IEEE 754 binary64 bit pattern.
pub const SIGN_BIT: u64 = 0x8000_0000_0000_0000;

/// Whether the number with bit pattern `bits` has its sign bit set.
pub open spec fn ieee_negative(bits: u64) -> bool {
    bits >> 63 == 1
}

/// The magnitude field (exponent and mantissa) of a binary64 bit pattern.
pub open spec fn ieee_magnitude(bits: u64) -> u64 {
    bits & 0x7fff_ffff_ffff_ffff
}

/// Numeric order of two binary64 values, read off their bit patterns.
///
/// IEEE 754 stores a number as a sign and a magnitude whose unsigned integer
/// order agrees with the numeric order of same-signed values. The two zero
/// patterns (positive and negative zero) compare equal. The relation is
/// meaningful for the non-NaN patterns; the codec itself round-trips every
/// pattern regardless.
pub open spec fn double_lt(a: u64, b: u64) -> bool {
    if ieee_negative(a) {
        if ieee_negative(b) {
            ieee_magnitude(b) < ieee_magnitude(a)
        } else {
            !(ieee_magnitude(a) == 0 && ieee_magnitude(b) == 0)
        }
    } else {
        !ieee_negative(b) && ieee_magnitude(a) < ieee_magnitude(b)
    }
}

/// The order-preserving key of a bit pattern: negative numbers have all bits
/// flipped, non-negative numbers have the sign bit set. Unsigned order of
/// keys then agrees with `double_lt`.
pub open spec fn sort_key(bits: u64) -> u64 {
    if ieee_negative(bits) {
        !bits
    } else {
        bits | SIGN_BIT
    }
}

/// The inverse of `sort_key`.
pub open spec fn unsort_key(key: u64) -> u64 {
    if key >> 63 == 1 {
        key & 0x7fff_ffff_ffff_ffff
    } else {
        !key
    }
}

/// Byte `i` (big-endian, `0 <= i < 8`) of a 64-bit key.
pub open spec fn byte_at(key: u64, i: int) -> u8 {
    (key >> ((56 - 8 * i) as u64)) as u8
}

/// The big-endian bytes of a 64-bit key.
pub open spec fn be_bytes(key: u64) -> Seq<u8> {
    Seq::new(8, |i: int| byte_at(key, i))
}

/// The 64-bit key read back from eight big-endian bytes.
pub open spec fn be_assemble(s: Seq<u8>) -> u64
    recommends
        s.len() == 8,
{
    ((s[0] as u64) << 56) | ((s[1] as u64) << 48) | ((s[2] as u64) << 40) | ((s[3] as u64) << 32)
        | ((s[4] as u64) << 24) | ((s[5] as u64) << 16) | ((s[6] as u64) << 8) | (s[7] as u64)
}

/// The encoded form of the number with bit pattern `bits`.
pub open spec fn encoded(bits: u64) -> Seq<u8> {
    be_bytes(sort_key(bits))
}

/// What decoding a byte string yields: the bit pattern it encodes, or
/// nothing when the byte string is not an eight-byte encoding.
pub open spec fn decoded(s: Seq<u8>) -> Option<u64> {
    if s.len() == 8 {
        Some(unsort_key(be_assemble(s)))
    } else {
        None
    }
}

/// Witness form of the strict lexicographic order: the two byte strings
/// agree strictly before index `i`, and at `i` either `a` has run out while
/// `b` goes on, or `a` holds the smaller byte.
pub open spec fn lex_lt_at(a: Seq<u8>, b: Seq<u8>, i: int) -> bool {
    &&& 0 <= i <= a.len()
    &&& i < b.len()
    &&& forall|j: int| 0 <= j < i ==> a[j] == b[j]
    &&& (i < a.len() ==> a[i] < b[i])
}

/// Strict lexicographic order on byte strings: either `a` is a proper prefix
/// of `b`, or the two agree up to some index at which `a` holds the smaller
/// byte.
pub open spec fn lex_lt(a: Seq<u8>, b: Seq<u8>) -> bool {
    exists|i: int| lex_lt_at(a, b, i)
}

/// Lexicographic order or equality.
pub open spec fn lex_le(a: Seq<u8>, b: Seq<u8>) -> bool {
    a == b || lex_lt(a, b)
}

/// Decoding a value byte string failed.
#[derive(Debug, Clone, Copy, PartialEq, Eq, Structural)]
pub enum DecodeError {
    /// The byte string does not have the eight-byte length of a numeric
    /// encoding.
    BadLength,
}

/// Encode the number with bit pattern `bits` as a sortable byte string.
pub fn sortable_serialise(bits: u64) -> (r: Vec<u8>)
    ensures
        r@ == encoded(bits),
        r@.len() == 8,
{
    let key: u64 = if bits >> 63 == 1 {
        !bits
    } else {
        bits | SIGN_BIT
    };
    let mut r: Vec<u8> = Vec::new();
    r.push((key >> 56u64) as u8);
    r.push((key >> 48u64) as u8);
    r.push((key >> 40u64) as u8);
    r.push((key >> 32u64) as u8);
    r.push((key >> 24u64) as u8);
    r.push((key >> 16u64) as u8);
    r.push((key >> 8u64) as u8);
    r.push(key as u8);
    proof {
        assert(key == sort_key(bits));
        assert(key >> 0u64 == key) by (bit_vector);
        assert(r@ =~= encoded(bits));
    }
    r
}

/// Decode a sortable byte string back to the bit pattern it encodes.
///
/// Fails with `DecodeError::BadLength` exactly when the byte string is not
/// eight bytes long; every eight-byte string decodes.
pub fn sortable_unserialise(data: &[u8]) -> (r: Result<u64, DecodeError>)
    ensures
        r is Ok <==> data@.len() == 8,
        r matches Ok(bits) ==> decoded(data@) == Some(bits),
        r matches Err(e) ==> e == DecodeError::BadLength,
{
    if data.len() != 8 {
        return Err(DecodeError::BadLength);
    }
    let key: u64 = ((data[0] as u64) << 56) | ((data[1] as u64) << 48) | ((data[2] as u64) << 40)
        | ((data[3] as u64) << 32) | ((data[4] as u64) << 24) | ((data[5] as u64) << 16) | ((
    data[6] as u64) << 8) | (data[7] as u64);
    let bits: u64 = if key >> 63 == 1 {
        key & 0x7fff_ffff_ffff_ffff
    } else {
        !key
    };
    Ok(bits)
}

/// Round trip: decoding an encoded number yields the number back, for every
/// bit pattern.
pub proof fn lemma_codec_round_trip(bits: u64)
    ensures
        decoded(encoded(bits)) == Some(bits),
{
    let key = sort_key(bits);
    let s = encoded(bits);
    assert(s.len() == 8);
    let b0 = byte_at(key, 0);
    let b1 = byte_at(key, 1);
    let b2 = byte_at(key, 2);
    let b3 = byte_at(key, 3);
    let b4 = byte_at(key, 4);
    let b5 = byte_at(key, 5);
    let b6 = byte_at(key, 6);
    let b7 = byte_at(key, 7);
    assert(key >> 0u64 == key) by (bit_vector);
    assert(b0 == (key >> 56u64) as u8 && b1 == (key >> 48u64) as u8 && b2 == (key >> 40u64) as u8 && b3 == (
    key >> 32u64) as u8 && b4 == (key >> 24u64) as u8 && b5 == (key >> 16u64) as u8 && b6 == (key
        >> 8u64) as u8 && b7 == key as u8);
    assert(be_assemble(s) == ((b0 as u64) << 56) | ((b1 as u64) << 48) | ((b2 as u64) << 40) | ((
    b3 as u64) << 32) | ((b4 as u64) << 24) | ((b5 as u64) << 16) | ((b6 as u64) << 8) | (
    b7 as u64));
    assert((b0 == (key >> 56u64) as u8 && b1 == (key >> 48u64) as u8 && b2 == (key >> 40u64) as u8 && b3 == (
    key >> 32u64) as u8 && b4 == (key >> 24u64) as u8 && b5 == (key >> 16u64) as u8 && b6 == (key
        >> 8u64) as u8 && b7 == key as u8) ==> ((b0 as u64) << 56) | ((b1 as u64) << 48) | ((
    b2 as u64) << 40) | ((b3 as u64) << 32) | ((b4 as u64) << 24) | ((b5 as u64) << 16) | ((
    b6 as u64) << 8) | (b7 as u64) == key) by (bit_vector);
    assert(be_assemble(s) == key);
    assert(unsort_key(sort_key(bits)) == bits) by {
        assert(bits >> 63 == 1 ==> ((!bits) >> 63 == 0 && !(!bits) == bits)) by (bit_vector);
        assert(bits >> 63 == 0 ==> ((bits | 0x8000_0000_0000_0000u64) >> 63 == 1 && ((bits
            | 0x8000_0000_0000_0000u64) & 0x7fff_ffff_ffff_ffffu64) == bits)) by (bit_vector);
        assert(bits >> 63 == 1 || bits >> 63 == 0) by (bit_vector);
    }
}

/// Big-endian bytes preserve unsigned order: a smaller key gives a
/// lexicographically smaller byte string.
proof fn lemma_be_bytes_order(x: u64, y: u64)
    requires
        x < y,
    ensures
        lex_lt(be_bytes(x), be_bytes(y)),
{
    let a = be_bytes(x);
    let b = be_bytes(y);
    let a0 = byte_at(x, 0);
    let a1 = byte_at(x, 1);
    let a2 = byte_at(x, 2);
    let a3 = byte_at(x, 3);
    let a4 = byte_at(x, 4);
    let a5 = byte_at(x, 5);
    let a6 = byte_at(x, 6);
    let a7 = byte_at(x, 7);
    let b0 = byte_at(y, 0);
    let b1 = byte_at(y, 1);
    let b2 = byte_at(y, 2);
    let b3 = byte_at(y, 3);
    let b4 = byte_at(y, 4);
    let b5 = byte_at(y, 5);
    let b6 = byte_at(y, 6);
    let b7 = byte_at(y, 7);
    assert(x >> 0u64 == x) by (bit_vector);
    assert(y >> 0u64 == y) by (bit_vector);
    assert(a0 == (x >> 56u64) as u8 && a1 == (x >> 48u64) as u8 && a2 == (x >> 40u64) as u8 && a3 == (x
        >> 32u64) as u8 && a4 == (x >> 24u64) as u8 && a5 == (x >> 16u64) as u8 && a6 == (x >> 8u64) as u8 && a7
        == x as u8);
    assert(b0 == (y >> 56u64) as u8 && b1 == (y >> 48u64) as u8 && b2 == (y >> 40u64) as u8 && b3 == (y
        >> 32u64) as u8 && b4 == (y >> 24u64) as u8 && b5 == (y >> 16u64) as u8 && b6 == (y >> 8u64) as u8 && b7
        == y as u8);
    assert((a0 == (x >> 56u64) as u8 && a1 == (x >> 48u64) as u8 && a2 == (x >> 40u64) as u8 && a3 == (x
        >> 32u64) as u8 && a4 == (x >> 24u64) as u8 && a5 == (x >> 16u64) as u8 && a6 == (x >> 8u64) as u8 && a7
        == x as u8 && b0 == (y >> 56u64) as u8 && b1 == (y >> 48u64) as u8 && b2 == (y >> 40u64) as u8 && b3
        == (y >> 32u64) as u8 && b4 == (y >> 24u64) as u8 && b5 == (y >> 16u64) as u8 && b6 == (y
        >> 8u64) as u8 && b7 == y as u8 && x < y) ==> {
        ||| a0 < b0
        ||| (a0 == b0 && {
            ||| a1 < b1
            ||| (a1 == b1 && {
                ||| a2 < b2
                ||| (a2 == b2 && {
                    ||| a3 < b3
                    ||| (a3 == b3 && {
                        ||| a4 < b4
                        ||| (a4 == b4 && {
                            ||| a5 < b5
                            ||| (a5 == b5 && {
                                ||| a6 < b6
                                ||| (a6 == b6 && a7 < b7)
                            })
                        })
                    })
                })
            })
        })
    }) by (bit_vector);
    if a0 < b0 {
        assert(lex_lt_at(a, b, 0));
    } else if a1 < b1 {
        assert(lex_lt_at(a, b, 1));
    } else if a2 < b2 {
        assert(lex_lt_at(a, b, 2));
    } else if a3 < b3 {
        assert(lex_lt_at(a, b, 3));
    } else if a4 < b4 {
        assert(lex_lt_at(a, b, 4));
    } else if a5 < b5 {
        assert(lex_lt_at(a, b, 5));
    } else if a6 < b6 {
        assert(lex_lt_at(a, b, 6));
    } else {
        assert(a7 < b7);
        assert(lex_lt_at(a, b, 7));
    }
}

/// Order preservation: for numbers `a < b`, the encoding of `a` is
/// lexicographically below the encoding of `b`.
pub proof fn lemma_codec_order_preserving(a: u64, b: u64)
    requires
        double_lt(a, b),
    ensures
        lex_lt(encoded(a), encoded(b)),
{
    assert(sort_key(a) < sort_key(b)) by {
        assert((if a >> 63 == 1 {
            if b >> 63 == 1 {
                (b & 0x7fff_ffff_ffff_ffffu64) < (a & 0x7fff_ffff_ffff_ffffu64)
            } else {
                !((a & 0x7fff_ffff_ffff_ffffu64) == 0 && (b & 0x7fff_ffff_ffff_ffffu64) == 0)
            }
        } else {
            !(b >> 63 == 1) && (a & 0x7fff_ffff_ffff_ffffu64) < (b & 0x7fff_ffff_ffff_ffffu64)
        }) ==> (if a >> 63 == 1 {
            !a
        } else {
            a | 0x8000_0000_0000_0000u64
        }) < (if b >> 63 == 1 {
            !b
        } else {
            b | 0x8000_0000_0000_0000u64
        })) by (bit_vector);
    }
    lemma_be_bytes_order(sort_key(a), sort_key(b));
}

/// Whether `p` is a prefix of `s`.
pub open spec fn is_prefix_of(p: Seq<u8>, s: Seq<u8>) -> bool {
    p.len() <= s.len() && p == s.take(p.len() as int)
}

/// Whether the byte string `s` starts with the prefix `p`.
pub fn bytes_starts_with(s: &[u8], p: &[u8]) -> (r: bool)
    ensures
        r == is_prefix_of(p@, s@),
{
    if p.len() > s.len() {
        return false;
    }
    let n = p.len();
    let mut i: usize = 0;
    while i < n
        invariant
            n == p@.len() <= s@.len(),
            0 <= i <= n,
            forall|j: int| 0 <= j < i ==> p@[j] == s@[j],
        decreases n - i,
    {
        if p[i] != s[i] {
            proof {
                assert(s@.take(p@.len() as int)[i as int] == s@[i as int]);
                assert(p@ != s@.take(p@.len() as int));
            }
            return false;
        }
        i += 1;
    }
    proof {
        assert(p@ =~= s@.take(p@.len() as int));
    }
    true
}

/// Whether `p` is a suffix of `s`.
pub open spec fn is_suffix_of(p: Seq<u8>, s: Seq<u8>) -> bool {
    p.len() <= s.len() && p == s.skip(s.len() - p.len())
}

/// Whether two byte strings hold the same bytes.
pub fn bytes_eq(a: &[u8], b: &[u8]) -> (r: bool)
    ensures
        r == (a@ == b@),
{
    if a.len() != b.len() {
        return false;
    }
    let n = a.len();
    let mut i: usize = 0;
    while i < n
        invariant
            n == a@.len() == b@.len(),
            0 <= i <= n,
            forall|j: int| 0 <= j < i ==> a@[j] == b@[j],
        decreases n - i,
    {
        if a[i] != b[i] {
            return false;
        }
        i += 1;
    }
    proof {
        assert(a@ =~= b@);
    }
    true
}

/// Whether `a` is lexicographically at or below `b` (the order range
/// filtering uses on stored value byte strings).
pub fn bytes_le(a: &[u8], b: &[u8]) -> (r: bool)
    ensures
        r == lex_le(a@, b@),
{
    let n = if a.len() < b.len() {
        a.len()
    } else {
        b.len()
    };
    let mut i: usize = 0;
    while i < n
        invariant
            n <= a@.len(),
            n <= b@.len(),
            n == a@.len() || n == b@.len(),
            0 <= i <= n,
            forall|j: int| 0 <= j < i ==> a@[j] == b@[j],
        decreases n - i,
    {
        if a[i] < b[i] {
            proof {
                assert(lex_lt_at(a@, b@, i as int));
            }
            return true;
        }
        if a[i] > b[i] {
            proof {
                let ghost ii = i as int;
                assert(!lex_lt(a@, b@)) by {
                    if lex_lt(a@, b@) {
                        let k = choose|k: int| lex_lt_at(a@, b@, k);
                        if k <= ii {
                            assert(k < a@.len());
                            assert(a@[k] < b@[k] || a@[k] == b@[k]);
                        } else {
                            assert(a@[ii] == b@[ii]);
                        }
                    }
                }
                assert(a@[ii] != b@[ii]);
                assert(a@ != b@);
            }
            return false;
        }
        i += 1;
    }
    if a.len() == b.len() {
        proof {
            assert(a@ =~= b@);
        }
        true
    } else if a.len() < b.len() {
        proof {
            assert(lex_lt_at(a@, b@, a@.len() as int));
        }
        true
    } else {
        proof {
            assert(!lex_lt(a@, b@)) by {
                if lex_lt(a@, b@) {
                    let k = choose|k: int| lex_lt_at(a@, b@, k);
                    assert(k < b@.len());
                    assert(k < a@.len());
                    assert(a@[k] == b@[k]);
                }
            }
            assert(a@.len() != b@.len());
            assert(a@ != b@);
        }
        false
    }
}

/// The largest integer magnitude the numeric codec represents exactly:
/// the width of a binary64 mantissa.
pub const EXACT_INT_LIMIT: i64 = 0x20_0000_0000_0000;

/// The position of the highest set bit of `n` (0 for 0 and 1).
pub open spec fn log2floor(n: nat) -> nat
    decreases n,
{
    if n <= 1 {
        0
    } else {
        1 + log2floor((n / 2) as nat)
    }
}

/// The binary64 bit pattern of the integer `v`, for `v` in the codec's
/// exact range: sign bit, biased exponent, and the mantissa with its
/// leading bit dropped.
pub open spec fn int_bits(v: int) -> u64
    recommends
        -pow2(53) <= v <= pow2(53),
{
    if v == 0 {
        0u64
    } else {
        let mag = if v < 0 {
            -v
        } else {
            v
        };
        let e = log2floor(mag as nat);
        let mantissa: int = if e <= 52 {
            mag * pow2((52 - e) as nat) - pow2(52)
        } else {
            mag / 2 - pow2(52)
        };
        let body: int = (1023 + e) * pow2(52) + mantissa;
        if v < 0 {
            (body + pow2(63)) as u64
        } else {
            body as u64
        }
    }
}

/// `log2floor` is what the bracketing powers of two say it is.
proof fn lemma_log2floor_unique(n: nat, e: nat)
    requires
        pow2(e) <= n < pow2((e + 1) as nat),
    ensures
        log2floor(n) == e,
    decreases e,
{
    lemma2_to64();
    if e == 0 {
        assert(n == 1);
    } else {
        lemma_pow2_unfold(e);
        lemma_pow2_unfold((e + 1) as nat);
        assert(n >= 2) by {
            lemma_pow2_strictly_increases(0, e);
        }
        assert(pow2((e - 1) as nat) <= n / 2 < pow2(e)) by {
            lemma_fundamental_div_mod(n as int, 2);
            lemma_pow2_unfold(e);
        }
        lemma_log2floor_unique((n / 2) as nat, (e - 1) as nat);
    }
}

/// 2 to the power `e`, as a machine word.
fn pow2_u64(e: u32) -> (r: u64)
    requires
        e < 64,
    ensures
        r as nat == pow2(e as nat),
{
    proof {
        vstd::bits::lemma_u64_pow2_no_overflow(e as nat);
        vstd::bits::lemma_u64_shl_is_mul(1u64, e as u64);
    }
    1u64 << (e as u64)
}

/// The bit pattern of the integer `v`, computed exactly.
///
/// Integers are stored through the codec via a binary64 intermediate; for
/// magnitudes up to the mantissa width the intermediate is exact, and this
/// is that conversion. (Wider integers would round; they are outside this
/// function's domain.)
pub fn from_int(v: i64) -> (r: u64)
    requires
        -EXACT_INT_LIMIT <= v <= EXACT_INT_LIMIT,
    ensures
        r == int_bits(v as int),
{
    proof {
        lemma2_to64();
        lemma2_to64_rest();
    }
    if v == 0 {
        return 0;
    }
    let neg = v < 0;
    let mag: u64 = if neg {
        (-v) as u64
    } else {
        v as u64
    };
    proof {
        assert(1 <= mag as nat <= pow2(53));
        lemma_div_basics(mag as int);
    }
    let mut e: u32 = 0;
    let mut m: u64 = mag;
    while m > 1
        invariant
            m as nat == mag as nat / pow2(e as nat),
            m >= 1,
            pow2(e as nat) <= mag as nat <= pow2(53),
            e <= 53,
            1 <= mag,
        decreases m,
    {
        proof {
            lemma_pow2_pos(e as nat);
            lemma_pow2_adds(e as nat, 1);
            lemma2_to64();
            lemma_div_denominator(mag as int, pow2(e as nat) as int, 2);
            // the quotient is at least 2, so the next power still fits
            lemma_fundamental_div_mod(mag as int, pow2(e as nat) as int);
            assert(mag as int >= pow2(e as nat) * (m as int)) by {
                lemma_remainder_lower(mag as int, pow2(e as nat) as int);
            }
            assert(pow2(e as nat) * (m as int) >= pow2(e as nat) * 2) by {
                lemma_mul_inequality(2, m as int, pow2(e as nat) as int);
                lemma_mul_is_commutative(2, pow2(e as nat) as int);
                lemma_mul_is_commutative(m as int, pow2(e as nat) as int);
            }
            assert(pow2((e + 1) as nat) <= mag as nat);
            assert((e + 1) as nat <= 53) by {
                if e + 1 > 53 {
                    lemma_pow2_strictly_increases(53, (e + 1) as nat);
                }
            }
        }
        m = m / 2;
        e += 1;
    }
    proof {
        // m == 1 brackets mag between pow2(e) and pow2(e + 1)
        assert(m == 1);
        lemma_pow2_pos(e as nat);
        lemma_remainder_upper(mag as int, pow2(e as nat) as int);
        lemma_pow2_adds(e as nat, 1);
        lemma2_to64();
        assert((mag as int) - pow2(e as nat) < (mag as int / (pow2(e as nat) as int)) * pow2(
            e as nat,
        ));
        assert((mag as int / (pow2(e as nat) as int)) == 1);
        assert(pow2(e as nat) <= mag as nat);
        assert((mag as nat) < pow2((e + 1) as nat));
        lemma_log2floor_unique(mag as nat, e as nat);
    }
    let mantissa: u64 = if e <= 52 {
        let p = pow2_u64(52 - e);
        proof {
            lemma_pow2_adds(e as nat, (52 - e) as nat);
            lemma_pow2_adds((e + 1) as nat, (52 - e) as nat);
            assert((mag as int) * (p as int) < pow2(53)) by {
                lemma_mul_strict_inequality(
                    mag as int,
                    pow2((e + 1) as nat) as int,
                    pow2((52 - e) as nat) as int,
                );
                lemma_pow2_pos((52 - e) as nat);
            }
            assert((mag as int) * (p as int) >= pow2(52)) by {
                lemma_mul_inequality(pow2(e as nat) as int, mag as int, pow2((52 - e) as nat) as int);
            }
        }
        mag * p - 0x10_0000_0000_0000u64
    } else {
        proof {
            assert(e == 53);
            assert(mag as nat == pow2(53));
            assert(mag as nat / 2 == pow2(52)) by {
                lemma_pow2_unfold(53);
                lemma_div_multiples_vanish(pow2(52) as int, 2);
            }
        }
        0
    };
    let body: u64 = (1023 + e as u64) * 0x10_0000_0000_0000u64 + mantissa;
    proof {
        assert((1023 + e as int) * pow2(52) + mantissa < pow2(63)) by {
            lemma_mul_inequality(1023 + e as int, 1077, pow2(52) as int);
            lemma_pow2_adds(52, 11);
        }
        assert(body == int_bits(v as int) || neg);
    }
    if neg {
        proof {
            assert(body < 0x8000_0000_0000_0000u64);
            assert(body < 0x8000_0000_0000_0000u64 ==> (body | 0x8000_0000_0000_0000u64) == body
                + 0x8000_0000_0000_0000u64) by (bit_vector);
            assert(int_bits(v as int) == ((body as int) + pow2(63)) as u64);
        }
        body | SIGN_BIT
    } else {
        body
    }
}

} // verus!

