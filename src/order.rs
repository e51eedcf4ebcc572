//! Ordering keys for doubles held as bit patterns: unsigned comparison of
//! keys agrees with the numeric order of the values, which is proved here
//! against an exact integer model of each finite double.

use vstd::prelude::*;
use vstd::arithmetic::power2::{pow2, lemma_pow2_adds, lemma_pow2_strictly_increases, lemma2_to64_rest};
use vstd::arithmetic::mul::lemma_mul_strict_inequality;

verus! {

/// Bit pattern of `0.0_f64`; every key at or above the key of zero (and below
/// the key of NaN) belongs to a non-negative distance.
pub const ZERO_KEY: u64 = 0x8000_0000_0000_0000;

/// The key that every NaN maps to: greater than the key of any number.
pub const NAN_KEY: u64 = 0xFFFF_FFFF_FFFF_FFFF;

/// Sign bit of an IEEE-754 double.
pub const SIGN_BIT: u64 = 0x8000_0000_0000_0000;

/// Exponent field of an IEEE-754 double.
pub const EXPONENT_BITS: u64 = 0x7FF0_0000_0000_0000;

/// Fraction field of an IEEE-754 double.
pub const FRACTION_BITS: u64 = 0x000F_FFFF_FFFF_FFFF;

/// Whether the bit pattern encodes a NaN.
pub open spec fn is_nan_bits(bits: u64) -> bool {
    bits & EXPONENT_BITS == EXPONENT_BITS && bits & FRACTION_BITS != 0
}

/// The ordering key of a double given by its bit pattern.
///
/// Unsigned comparison of keys agrees with `<` on doubles: negative numbers
/// are mapped below `ZERO_KEY` with their order reversed, non-negative
/// numbers at or above it, both zeros share one key, and every NaN is put
/// above all numbers.
pub open spec fn key_of(bits: u64) -> u64 {
    if is_nan_bits(bits) {
        NAN_KEY
    } else if bits == SIGN_BIT {
        ZERO_KEY
    } else if bits & SIGN_BIT != 0 {
        !bits
    } else {
        bits | SIGN_BIT
    }
}

/// Whether a key belongs to a distance that is `>= 0.0`.
pub open spec fn is_nonneg_key(key: u64) -> bool {
    ZERO_KEY <= key && key < NAN_KEY
}

/// Computes `key_of(bits)`.
pub fn order_key(bits: u64) -> (r: u64)
    ensures
        r == key_of(bits),
{
    if bits & EXPONENT_BITS == EXPONENT_BITS && bits & FRACTION_BITS != 0 {
        NAN_KEY
    } else if bits == SIGN_BIT {
        ZERO_KEY
    } else if bits & SIGN_BIT != 0 {
        !bits
    } else {
        bits | SIGN_BIT
    }
}

/// The key of positive infinity.
pub const POS_INFINITY_KEY: u64 = 0xFFF0_0000_0000_0000;

/// The key of negative infinity.
pub const NEG_INFINITY_KEY: u64 = 0x000F_FFFF_FFFF_FFFF;

/// The bit pattern of the double whose key is `key` (for the key of zero,
/// positive zero; for the key of NaN, an all-ones NaN pattern).
pub open spec fn bits_of(key: u64) -> u64 {
    if key == NAN_KEY {
        NAN_KEY
    } else if key & SIGN_BIT != 0 {
        key & !SIGN_BIT
    } else {
        !key
    }
}

/// Computes `bits_of(key)`.
pub fn key_bits(key: u64) -> (r: u64)
    ensures
        r == bits_of(key),
{
    if key == NAN_KEY {
        NAN_KEY
    } else if key & SIGN_BIT != 0 {
        key & !SIGN_BIT
    } else {
        !key
    }
}

/// Turning a double into its key and back gives the same double, but for
/// negative zero (which comes back as positive zero) and NaN.
pub proof fn lemma_key_round_trip(bits: u64)
    requires
        !is_nan_bits(bits),
        bits != SIGN_BIT,
    ensures
        bits_of(key_of(bits)) == bits,
{
    let k = key_of(bits);
    if bits & SIGN_BIT != 0 {
        assert(k == !bits);
        assert(bits & 0x8000_0000_0000_0000u64 != 0 ==> (!bits) & 0x8000_0000_0000_0000u64 == 0
            && !bits != 0xFFFF_FFFF_FFFF_FFFFu64 && !(!bits) == bits) by (bit_vector);
    } else {
        assert(k == bits | SIGN_BIT);
        assert(bits & 0x8000_0000_0000_0000u64 == 0 && !(bits & 0x7FF0_0000_0000_0000u64
            == 0x7FF0_0000_0000_0000u64 && bits & 0x000F_FFFF_FFFF_FFFFu64 != 0) ==> (bits
            | 0x8000_0000_0000_0000u64) & 0x8000_0000_0000_0000u64 != 0 && (bits
            | 0x8000_0000_0000_0000u64) != 0xFFFF_FFFF_FFFF_FFFFu64 && (bits
            | 0x8000_0000_0000_0000u64) & !0x8000_0000_0000_0000u64 == bits) by (bit_vector);
    }
}

/// Whether a key belongs to a number, finite or infinite, rather than NaN.
pub open spec fn is_number_key(key: u64) -> bool {
    NEG_INFINITY_KEY <= key <= POS_INFINITY_KEY
}

/// The key of every double but NaN lies between the keys of the two
/// infinities.
pub proof fn lemma_number_keys(bits: u64)
    requires
        !is_nan_bits(bits),
    ensures
        is_number_key(key_of(bits)),
{
    assert(!(bits & 0x7FF0_0000_0000_0000u64 == 0x7FF0_0000_0000_0000u64 && bits
        & 0x000F_FFFF_FFFF_FFFFu64 != 0) ==> (bits & 0x8000_0000_0000_0000u64 != 0
        ==> 0x000F_FFFF_FFFF_FFFFu64 <= !bits && !bits <= 0xFFF0_0000_0000_0000u64) && (bits
        & 0x8000_0000_0000_0000u64 == 0 ==> 0x000F_FFFF_FFFF_FFFFu64 <= (bits
        | 0x8000_0000_0000_0000u64) && (bits | 0x8000_0000_0000_0000u64)
        <= 0xFFF0_0000_0000_0000u64)) by (bit_vector);
}

/// Whether the bit pattern encodes a finite double (not an infinity or NaN).
pub open spec fn is_finite_bits(bits: u64) -> bool {
    bits & EXPONENT_BITS != EXPONENT_BITS
}

/// The biased exponent field of a double.
pub open spec fn exponent_field(bits: u64) -> u64 {
    (bits & EXPONENT_BITS) >> 52u64
}

/// The fraction field of a double.
pub open spec fn fraction_field(bits: u64) -> u64 {
    bits & FRACTION_BITS
}

/// The magnitude of a finite double times 2^1074, which is a whole number:
/// `m` for a subnormal, `(2^52 + m) * 2^(e - 1)` for a normal double with
/// biased exponent `e` and fraction `m`.
pub open spec fn scaled_magnitude(bits: u64) -> nat {
    let e = exponent_field(bits) as nat;
    let m = fraction_field(bits) as nat;
    if e == 0 {
        m
    } else {
        (pow2(52) + m) * pow2((e - 1) as nat)
    }
}

/// The value of a finite double times 2^1074, with its sign.
pub open spec fn scaled_value(bits: u64) -> int {
    if bits & SIGN_BIT != 0 {
        -(scaled_magnitude(bits) as int)
    } else {
        scaled_magnitude(bits) as int
    }
}

/// The bits below the sign bit are the exponent field above the fraction
/// field.
proof fn lemma_fields(bits: u64)
    ensures
        bits & !SIGN_BIT == exponent_field(bits) * 0x10_0000_0000_0000u64 + fraction_field(bits),
        exponent_field(bits) <= 0x7FF,
        fraction_field(bits) < 0x10_0000_0000_0000u64,
        is_finite_bits(bits) <==> exponent_field(bits) != 0x7FF,
{
    assert(bits & !0x8000_0000_0000_0000u64 == ((bits & 0x7FF0_0000_0000_0000u64) >> 52u64)
        * 0x10_0000_0000_0000u64 + (bits & 0x000F_FFFF_FFFF_FFFFu64)) by (bit_vector);
    assert((bits & 0x7FF0_0000_0000_0000u64) >> 52u64 <= 0x7FF) by (bit_vector);
    assert(bits & 0x000F_FFFF_FFFF_FFFFu64 < 0x10_0000_0000_0000u64) by (bit_vector);
    assert((bits & 0x7FF0_0000_0000_0000u64 != 0x7FF0_0000_0000_0000u64) <==> ((bits
        & 0x7FF0_0000_0000_0000u64) >> 52u64 != 0x7FF)) by (bit_vector);
}

/// Bounds on the magnitude by the exponent field: below `2^(52 + e)` (or
/// `2^52` for subnormals), and at least `2^(51 + e)` for normal doubles.
proof fn lemma_magnitude_range(bits: u64)
    ensures
        exponent_field(bits) == 0 ==> scaled_magnitude(bits) < pow2(52),
        exponent_field(bits) > 0 ==> scaled_magnitude(bits) < pow2((52 + exponent_field(bits)) as nat),
        exponent_field(bits) > 0 ==> scaled_magnitude(bits) >= pow2((51 + exponent_field(bits)) as nat),
{
    lemma_fields(bits);
    lemma2_to64_rest();
    let e = exponent_field(bits) as nat;
    let m = fraction_field(bits) as nat;
    if e > 0 {
        let q = pow2((e - 1) as nat);
        assert(q > 0) by {
            vstd::arithmetic::power2::lemma_pow2_pos((e - 1) as nat);
        }
        lemma_mul_strict_inequality((pow2(52) + m) as int, pow2(53) as int, q as int);
        lemma_pow2_adds(53, (e - 1) as nat);
        lemma_pow2_adds(52, (e - 1) as nat);
        vstd::arithmetic::mul::lemma_mul_inequality(pow2(52) as int, (pow2(52) + m) as int, q as int);
    }
}

/// Among finite doubles, a larger pattern below the sign bit means a larger
/// magnitude.
proof fn lemma_magnitude_increases(a: u64, b: u64)
    requires
        is_finite_bits(a),
        is_finite_bits(b),
        a & !SIGN_BIT < b & !SIGN_BIT,
    ensures
        scaled_magnitude(a) < scaled_magnitude(b),
{
    lemma_fields(a);
    lemma_fields(b);
    lemma_magnitude_range(a);
    lemma_magnitude_range(b);
    lemma2_to64_rest();
    let ea = exponent_field(a);
    let eb = exponent_field(b);
    let ma = fraction_field(a) as nat;
    let mb = fraction_field(b) as nat;
    if ea == eb {
        assert(ma < mb);
        if ea > 0 {
            let q = pow2((ea - 1) as nat);
            vstd::arithmetic::power2::lemma_pow2_pos((ea - 1) as nat);
            lemma_mul_strict_inequality((pow2(52) + ma) as int, (pow2(52) + mb) as int, q as int);
        }
    } else {
        assert(ea < eb);
        if ea == 0 {
            if 52 < 51 + eb {
                lemma_pow2_strictly_increases(52, (51 + eb) as nat);
            }
        } else {
            if 52 + ea < 51 + eb {
                lemma_pow2_strictly_increases((52 + ea) as nat, (51 + eb) as nat);
            }
        }
    }
}

/// Finite doubles with the same pattern below the sign bit have the same
/// magnitude.
proof fn lemma_magnitude_same(a: u64, b: u64)
    requires
        a & !SIGN_BIT == b & !SIGN_BIT,
    ensures
        scaled_magnitude(a) == scaled_magnitude(b),
{
    assert(a & !0x8000_0000_0000_0000u64 == b & !0x8000_0000_0000_0000u64 ==> (a
        & 0x7FF0_0000_0000_0000u64) >> 52u64 == (b & 0x7FF0_0000_0000_0000u64) >> 52u64 && a
        & 0x000F_FFFF_FFFF_FFFFu64 == b & 0x000F_FFFF_FFFF_FFFFu64) by (bit_vector);
}

/// How the key is made from the bits, as arithmetic.
proof fn lemma_key_arith(bits: u64)
    ensures
        bits & SIGN_BIT == 0 ==> bits | SIGN_BIT == bits + SIGN_BIT && bits & !SIGN_BIT == bits,
        bits & SIGN_BIT != 0 ==> !bits == 0xFFFF_FFFF_FFFF_FFFFu64 - bits && bits & !SIGN_BIT
            == bits - SIGN_BIT && bits >= SIGN_BIT,
        bits & SIGN_BIT == 0 ==> bits < SIGN_BIT,
{
    assert(bits & 0x8000_0000_0000_0000u64 == 0 ==> bits | 0x8000_0000_0000_0000u64 == bits
        + 0x8000_0000_0000_0000u64 && bits & !0x8000_0000_0000_0000u64 == bits && bits
        < 0x8000_0000_0000_0000u64) by (bit_vector);
    assert(bits & 0x8000_0000_0000_0000u64 != 0 ==> !bits == 0xFFFF_FFFF_FFFF_FFFFu64 - bits
        && bits & !0x8000_0000_0000_0000u64 == bits - 0x8000_0000_0000_0000u64 && bits
        >= 0x8000_0000_0000_0000u64) by (bit_vector);
}

/// Keys order finite doubles as their values are ordered: the key of `a`
/// is below the key of `b` exactly when `a` is less than `b`.
pub proof fn lemma_key_orders_values(a: u64, b: u64)
    requires
        is_finite_bits(a),
        is_finite_bits(b),
    ensures
        (key_of(a) < key_of(b)) == (scaled_value(a) < scaled_value(b)),
{
    lemma_fields(a);
    lemma_fields(b);
    lemma_key_arith(a);
    lemma_key_arith(b);
    lemma_key_arith(0);
    lemma_key_arith(SIGN_BIT);
    lemma_fields(0);
    lemma_fields(SIGN_BIT);
    assert(!is_nan_bits(a) && !is_nan_bits(b));
    assert(scaled_magnitude(0) == 0);
    assert(scaled_magnitude(SIGN_BIT) == 0);
    // a nonzero magnitude pattern has a positive magnitude
    if a & !SIGN_BIT > 0 {
        lemma_magnitude_increases(0, a);
    }
    if b & !SIGN_BIT > 0 {
        lemma_magnitude_increases(0, b);
    }
    if a & !SIGN_BIT < b & !SIGN_BIT {
        lemma_magnitude_increases(a, b);
    } else if a & !SIGN_BIT > b & !SIGN_BIT {
        lemma_magnitude_increases(b, a);
    } else {
        lemma_magnitude_same(a, b);
    }
}

/// A finite double lies at or in front of the origin (its key is a
/// non-negative key) exactly when its value is not negative.
pub proof fn lemma_nonneg_key_means_nonnegative(bits: u64)
    requires
        is_finite_bits(bits),
    ensures
        is_nonneg_key(key_of(bits)) == (scaled_value(bits) >= 0),
{
    assert(0u64 & 0x8000_0000_0000_0000u64 == 0 && 0u64 & 0x7FF0_0000_0000_0000u64 == 0 && 0u64
        | 0x8000_0000_0000_0000u64 == 0x8000_0000_0000_0000u64 && 0u64 & 0x000F_FFFF_FFFF_FFFFu64 == 0
        && (0u64 & 0x7FF0_0000_0000_0000u64) >> 52u64 == 0) by (bit_vector);
    lemma_fields(0);
    lemma_fields(bits);
    lemma_key_orders_values(bits, 0);
    assert(key_of(0) == ZERO_KEY);
    assert(scaled_value(0) == 0);
    lemma_number_keys(bits);
}

/// The infinities have the outermost keys of all numbers: every finite
/// double's key lies strictly between them.
pub proof fn lemma_infinity_keys(bits: u64)
    requires
        is_finite_bits(bits),
    ensures
        key_of(0x7FF0_0000_0000_0000u64) == POS_INFINITY_KEY,
        key_of(0xFFF0_0000_0000_0000u64) == NEG_INFINITY_KEY,
        NEG_INFINITY_KEY < key_of(bits) < POS_INFINITY_KEY,
{
    assert(0x7FF0_0000_0000_0000u64 & 0x000F_FFFF_FFFF_FFFFu64 == 0 && 0x7FF0_0000_0000_0000u64
        & 0x8000_0000_0000_0000u64 == 0 && 0x7FF0_0000_0000_0000u64 | 0x8000_0000_0000_0000u64
        == 0xFFF0_0000_0000_0000u64) by (bit_vector);
    assert(0xFFF0_0000_0000_0000u64 & 0x000F_FFFF_FFFF_FFFFu64 == 0 && 0xFFF0_0000_0000_0000u64
        & 0x8000_0000_0000_0000u64 != 0 && !0xFFF0_0000_0000_0000u64 == 0x000F_FFFF_FFFF_FFFFu64)
        by (bit_vector);
    assert(bits & 0x7FF0_0000_0000_0000u64 != 0x7FF0_0000_0000_0000u64 ==> (bits
        & 0x8000_0000_0000_0000u64 == 0 ==> 0x000F_FFFF_FFFF_FFFFu64 < (bits
        | 0x8000_0000_0000_0000u64) && (bits | 0x8000_0000_0000_0000u64)
        < 0xFFF0_0000_0000_0000u64) && (bits & 0x8000_0000_0000_0000u64 != 0 ==> 0x000F_FFFF_FFFF_FFFFu64
        < !bits && !bits < 0xFFF0_0000_0000_0000u64)) by (bit_vector);
}

} // verus!
