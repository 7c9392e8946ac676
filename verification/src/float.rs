//! IEEE 754 doubles and singles as bit patterns.
//!
//! Order and equality of floating-point numbers are decided on their bits;
//! no floating-point arithmetic happens here.

use crate::bytes;
use vstd::arithmetic::power2::*;
use vstd::prelude::*;

verus! {

/// The sign bit of a double.
pub const SIGN: u64 = 0x8000_0000_0000_0000;

/// The magnitude bits of infinity; larger magnitudes are not numbers.
pub const INFINITY_BITS: u64 = 0x7FF0_0000_0000_0000;

/// The bits of negative infinity.
pub const NEG_INFINITY_BITS: u64 = 0xFFF0_0000_0000_0000;

/// The magnitude bits of a double.
pub open spec fn magnitude(bits: u64) -> int {
    if bits < SIGN {
        bits as int
    } else {
        bits - SIGN
    }
}

/// The double is not a number.
pub open spec fn is_nan(bits: u64) -> bool {
    magnitude(bits) > INFINITY_BITS
}

/// The double is neither infinite nor not-a-number.
pub open spec fn is_finite(bits: u64) -> bool {
    magnitude(bits) < INFINITY_BITS
}

/// An integer that orders numbers as their values do; both zeros are 0.
pub open spec fn rank(bits: u64) -> int {
    if bits < SIGN {
        bits as int
    } else {
        SIGN - bits
    }
}

/// `a < b` for doubles: false when either is not a number.
pub open spec fn float_lt(a: u64, b: u64) -> bool {
    !is_nan(a) && !is_nan(b) && rank(a) < rank(b)
}

/// `a == b` for doubles: false when either is not a number.
pub open spec fn float_eq(a: u64, b: u64) -> bool {
    !is_nan(a) && !is_nan(b) && rank(a) == rank(b)
}

/// An integer that orders all doubles by the IEEE 754 total order: negative
/// before positive, the larger negative magnitude first, the two zeros and
/// the values that are not numbers told apart.
pub open spec fn total_rank(bits: u64) -> int {
    if bits < SIGN {
        bits as int
    } else {
        SIGN - 1 - bits
    }
}

/// `a` precedes `b` in the total order of doubles.
pub open spec fn total_lt(a: u64, b: u64) -> bool {
    total_rank(a) < total_rank(b)
}

/// Whether `a` comes strictly before `b` in the total order.
pub fn total_less(a: u64, b: u64) -> (r: bool)
    ensures
        r == total_lt(a, b),
{
    if a < SIGN {
        b < SIGN && a < b
    } else {
        b < SIGN || a > b
    }
}

/// `n.is_nan()`.
pub fn nan(bits: u64) -> (r: bool)
    ensures
        r == is_nan(bits),
{
    if bits < SIGN {
        bits > INFINITY_BITS
    } else {
        bits - SIGN > INFINITY_BITS
    }
}

/// `n.is_finite()`.
pub fn finite(bits: u64) -> (r: bool)
    ensures
        r == is_finite(bits),
{
    if bits < SIGN {
        bits < INFINITY_BITS
    } else {
        bits - SIGN < INFINITY_BITS
    }
}

/// `a < b`.
pub fn less(a: u64, b: u64) -> (r: bool)
    ensures
        r == float_lt(a, b),
{
    if nan(a) || nan(b) {
        return false;
    }
    if a < SIGN {
        b < SIGN && a < b
    } else if b < SIGN {
        a > SIGN || b > 0
    } else {
        b < a
    }
}

/// `a == b`.
pub fn equal(a: u64, b: u64) -> (r: bool)
    ensures
        r == float_eq(a, b),
{
    if nan(a) || nan(b) {
        return false;
    }
    a == b || ((a == 0 || a == SIGN) && (b == 0 || b == SIGN))
}

/// The magnitude bits of a single that is not a number exceed these.
pub const INFINITY_BITS_32: u32 = 0x7F80_0000;

/// The sign bit of a single.
pub const SIGN_32: u32 = 0x8000_0000;

/// The single is not a number.
pub open spec fn is_nan_32(bits: u32) -> bool {
    (if bits < SIGN_32 {
        bits as int
    } else {
        bits - SIGN_32
    }) > INFINITY_BITS_32
}

/// `a == b` for singles.
pub open spec fn float_eq_32(a: u32, b: u32) -> bool {
    !is_nan_32(a) && !is_nan_32(b) && (a == b || ((a == 0 || a == SIGN_32) && (b == 0 || b
        == SIGN_32)))
}

/// `a == b` for singles.
pub fn equal_32(a: u32, b: u32) -> (r: bool)
    ensures
        r == float_eq_32(a, b),
{
    let na = if a < SIGN_32 {
        a > INFINITY_BITS_32
    } else {
        a - SIGN_32 > INFINITY_BITS_32
    };
    let nb = if b < SIGN_32 {
        b > INFINITY_BITS_32
    } else {
        b - SIGN_32 > INFINITY_BITS_32
    };
    !na && !nb && (a == b || ((a == 0 || a == SIGN_32) && (b == 0 || b == SIGN_32)))
}

// ---------------------------------------------------------------------------
// Order-preserving bytes
// ---------------------------------------------------------------------------
/// The unsigned number whose order is the total order of doubles.
pub open spec fn order_number(bits: u64) -> u64 {
    if bits < SIGN {
        (bits + SIGN) as u64
    } else {
        (0xFFFF_FFFF_FFFF_FFFF - bits) as u64
    }
}

/// The unsigned number whose ascending order lists doubles in the requested
/// direction.
pub open spec fn directed_number(bits: u64, descending: bool) -> u64 {
    if descending {
        (0xFFFF_FFFF_FFFF_FFFF - order_number(bits)) as u64
    } else {
        order_number(bits)
    }
}

/// The eight bytes whose ascending byte order lists doubles in the requested
/// direction.
pub open spec fn metric_bytes(bits: u64, descending: bool) -> Seq<u8> {
    bytes::be64(directed_number(bits, descending))
}

/// `a` ranks ahead of `b` in the requested direction.
pub open spec fn ranks_ahead(a: u64, b: u64, descending: bool) -> bool {
    if descending {
        total_lt(b, a)
    } else {
        total_lt(a, b)
    }
}

/// Big-endian bytes order as the numbers do.
pub proof fn lemma_be64_order(a: u64, b: u64)
    ensures
        a < b <==> bytes::lex_lt(bytes::be64(a), bytes::be64(b)),
        a == b <==> bytes::be64(a) == bytes::be64(b),
{
    bytes::lemma_be64_round_trip(a);
    bytes::lemma_be64_round_trip(b);
    lemma_be64_ordered(a, b);
    lemma_be64_ordered(b, a);
    if a < b {
    } else if bytes::lex_lt(bytes::be64(a), bytes::be64(b)) {
        if b < a {
            bytes::lemma_lex_asymmetric(bytes::be64(a), bytes::be64(b));
        } else {
            bytes::lemma_lex_irreflexive(bytes::be64(a));
        }
    }
}

proof fn lemma_be16_ordered(a: u16, b: u16)
    requires
        a < b,
    ensures
        bytes::lex_lt(bytes::be16(a), bytes::be16(b)),
{
    if a / 256 < b / 256 {
        assert(bytes::lex_split(bytes::be16(a), bytes::be16(b), 0));
    } else {
        assert(bytes::lex_split(bytes::be16(a), bytes::be16(b), 1));
    }
}

proof fn lemma_be32_ordered(a: u32, b: u32)
    requires
        a < b,
    ensures
        bytes::lex_lt(bytes::be32(a), bytes::be32(b)),
{
    let ah = (a / 0x1_0000) as u16;
    let al = (a % 0x1_0000) as u16;
    let bh = (b / 0x1_0000) as u16;
    let bl = (b % 0x1_0000) as u16;
    if ah < bh {
        lemma_be16_ordered(ah, bh);
        bytes::lemma_lex_heads(bytes::be16(ah), bytes::be16(bh), bytes::be16(al), bytes::be16(bl));
    } else {
        assert(ah == bh);
        lemma_be16_ordered(al, bl);
        bytes::lemma_lex_common_prefix(bytes::be16(ah), bytes::be16(al), bytes::be16(bl));
    }
}

proof fn lemma_be64_ordered(a: u64, b: u64)
    ensures
        a < b ==> bytes::lex_lt(bytes::be64(a), bytes::be64(b)),
{
    let ah = (a / 0x1_0000_0000) as u32;
    let al = (a % 0x1_0000_0000) as u32;
    let bh = (b / 0x1_0000_0000) as u32;
    let bl = (b % 0x1_0000_0000) as u32;
    if a < b {
        if ah < bh {
            lemma_be32_ordered(ah, bh);
            bytes::lemma_lex_heads(
                bytes::be32(ah),
                bytes::be32(bh),
                bytes::be32(al),
                bytes::be32(bl),
            );
        } else {
            assert(ah == bh);
            lemma_be32_ordered(al, bl);
            bytes::lemma_lex_common_prefix(bytes::be32(ah), bytes::be32(al), bytes::be32(bl));
        }
    }
}

/// The encoded bytes of two doubles order exactly as the doubles do in the
/// total order, in either direction, and equal bytes mean equal bits.
pub proof fn law_metric_bytes_order(a: u64, b: u64, descending: bool)
    ensures
        bytes::lex_lt(metric_bytes(a, descending), metric_bytes(b, descending)) <==> ranks_ahead(
            a,
            b,
            descending,
        ),
        metric_bytes(a, descending) == metric_bytes(b, descending) <==> a == b,
{
    lemma_be64_order(directed_number(a, descending), directed_number(b, descending));
}

/// Encodes a metric for an ordered key: descending lists the largest first.
pub fn enc_metric(metric: u64, descending: bool) -> (r: Vec<u8>)
    ensures
        r@ == metric_bytes(metric, descending),
        r@.len() == 8,
{
    let n: u64 = if metric < SIGN {
        metric + SIGN
    } else {
        0xFFFF_FFFF_FFFF_FFFF - metric
    };
    let d: u64 = if descending {
        0xFFFF_FFFF_FFFF_FFFF - n
    } else {
        n
    };
    let mut r: Vec<u8> = Vec::new();
    bytes::push_be64(&mut r, d);
    proof {
        bytes::lemma_be64_round_trip(d);
        assert(r@ =~= bytes::be64(d));
    }
    r
}

// ---------------------------------------------------------------------------
// Integers as doubles
// ---------------------------------------------------------------------------
/// The exponent of the highest power of two not above `m`.
pub open spec fn top_exponent(m: nat) -> nat
    decreases m,
{
    if m < 2 {
        0
    } else {
        1 + top_exponent(m / 2)
    }
}

/// `m` divided by `d` to the nearest whole number, a tie to the even one.
pub open spec fn round_half_even(m: nat, d: nat) -> nat {
    let q = m / d;
    let rest = m % d;
    if 2 * rest > d || (2 * rest == d && q % 2 == 1) {
        q + 1
    } else {
        q
    }
}

/// The 53-bit significand of `m`, whose highest bit has weight `p`.
pub open spec fn significand(m: nat, p: nat) -> nat {
    if p <= 0x10_0000_0000_0000 {
        m * (0x10_0000_0000_0000nat / p)
    } else {
        round_half_even(m, p / 0x10_0000_0000_0000nat)
    }
}

/// The bits of the double nearest to the whole number `m`, a tie to the even
/// significand. A significand that rounds up to the next power of two carries
/// into the exponent.
pub open spec fn nat_double(m: nat) -> nat {
    if m == 0 {
        0
    } else {
        let e = top_exponent(m);
        ((e + 1023) * 0x10_0000_0000_0000nat + significand(m, pow2(e))
            - 0x10_0000_0000_0000nat) as nat
    }
}

/// The bits of the double nearest to `n`.
pub open spec fn int_double(n: i64) -> u64 {
    if n < 0 {
        (nat_double((-n) as nat) + SIGN) as u64
    } else {
        nat_double(n as nat) as u64
    }
}

proof fn lemma_top_exponent(m: nat, e: nat)
    requires
        pow2(e) <= m < 2 * pow2(e),
    ensures
        top_exponent(m) == e,
    decreases e,
{
    if e == 0 {
        lemma2_to64();
    } else {
        lemma_pow2_unfold(e);
        lemma_top_exponent(m / 2, (e - 1) as nat);
        lemma_pow2_pos((e - 1) as nat);
    }
}

/// Rounding a number below `2 * p` to 53 bits stays within the significand.
proof fn lemma_significand_bound(m: nat, e: nat)
    requires
        e <= 63,
        pow2(e) <= m < 2 * pow2(e),
    ensures
        0x10_0000_0000_0000 <= significand(m, pow2(e)) <= 0x20_0000_0000_0000,
        e > 52 ==> pow2(e) / 0x10_0000_0000_0000nat == pow2((e - 52) as nat),
        e <= 52 ==> 0x10_0000_0000_0000nat / pow2(e) == pow2((52 - e) as nat),
        e <= 52 <==> pow2(e) <= 0x10_0000_0000_0000,
{
    let p = pow2(e);
    lemma2_to64();
    lemma2_to64_rest();
    lemma_pow2_pos(e);
    if e <= 52 {
        lemma_pow2_adds(e, (52 - e) as nat);
        let s = pow2((52 - e) as nat);
        assert(p * s == 0x10_0000_0000_0000);
        lemma_pow2_pos((52 - e) as nat);
        assert(0x10_0000_0000_0000nat / p == s) by (nonlinear_arith)
            requires
                p * s == 0x10_0000_0000_0000nat,
                p > 0,
        ;
        assert(p * s <= m * s && m * s < 2 * (p * s)) by (nonlinear_arith)
            requires
                p <= m < 2 * p,
                s > 0,
        ;
        if e < 52 {
            lemma_pow2_strictly_increases(e, 52);
        }
    } else {
        lemma_pow2_adds(52, (e - 52) as nat);
        let d = pow2((e - 52) as nat);
        lemma_pow2_pos((e - 52) as nat);
        assert(p == 0x10_0000_0000_0000 * d);
        lemma_pow2_strictly_increases(52, e);
        let q = m / d;
        assert(0x10_0000_0000_0000 <= q && q < 0x20_0000_0000_0000) by (nonlinear_arith)
            requires
                q == m / d,
                d > 0,
                0x10_0000_0000_0000 * d <= m,
                m < 2 * (0x10_0000_0000_0000 * d),
        ;
    }
}

/// The bits of the double nearest to `n`, a tie to the even significand.
pub fn int_to_double(n: i64) -> (bits: u64)
    ensures
        bits == int_double(n),
        is_finite(bits),
{
    if n == 0 {
        return 0;
    }
    let m: u64 = if n < 0 {
        if n == i64::MIN {
            SIGN
        } else {
            (-n) as u64
        }
    } else {
        n as u64
    };
    let mut p: u64 = 1;
    let mut e: u64 = 0;
    proof {
        lemma2_to64();
        lemma2_to64_rest();
    }
    while m / 2 >= p
        invariant
            1 <= m <= SIGN,
            p <= m,
            e <= 63,
            p == pow2(e as nat),
        decreases m - p,
    {
        proof {
            lemma_pow2_unfold((e + 1) as nat);
            lemma_pow2_pos(e as nat);
            lemma2_to64();
            lemma2_to64_rest();
            if e >= 63 {
                assert(p == SIGN);
            }
        }
        p = p * 2;
        e = e + 1;
    }
    proof {
        lemma_top_exponent(m as nat, e as nat);
        lemma_significand_bound(m as nat, e as nat);
    }
    let unit: u64 = 0x10_0000_0000_0000;
    let s: u64 = if p <= unit {
        let f: u64 = unit / p;
        assert(m * f == significand(m as nat, p as nat));
        m * f
    } else {
        let d: u64 = p / unit;
        let q: u64 = m / d;
        let rest: u64 = m % d;
        assert(d <= 2048) by {
            lemma2_to64();
        }
        if 2 * rest > d || (2 * rest == d && q % 2 == 1) {
            q + 1
        } else {
            q
        }
    };
    let body: u64 = (e + 1022) * unit + s;
    assert((e + 1023) * unit + s - unit == (e + 1022) * unit + s) by (nonlinear_arith);
    if n < 0 {
        body + SIGN
    } else {
        body
    }
}

// ---------------------------------------------------------------------------
// Doubles as singles
// ---------------------------------------------------------------------------
/// The magnitude bits of the single nearest to the double with magnitude bits
/// `mag`: a tie goes to the even significand, a number too large becomes
/// infinite, one below the smallest normal single loses precision, and a value
/// that is not a number keeps the top of its payload and is quiet.
pub open spec fn single_magnitude(mag: nat) -> nat {
    let exponent = mag / 0x10_0000_0000_0000;
    let full = 0x10_0000_0000_0000 + mag % 0x10_0000_0000_0000;
    if mag > INFINITY_BITS {
        0x7FC0_0000 + (mag / 0x2000_0000) % 0x40_0000
    } else if exponent >= 1151 {
        INFINITY_BITS_32 as nat
    } else if exponent >= 897 {
        ((exponent - 897) * 0x80_0000 + round_half_even(full, 0x2000_0000)) as nat
    } else if exponent >= 872 {
        round_half_even(full, pow2((926 - exponent) as nat))
    } else {
        0
    }
}

/// The bits of the single nearest to a double.
pub open spec fn narrowed(bits: u64) -> u32 {
    if bits < SIGN {
        single_magnitude(bits as nat) as u32
    } else {
        (single_magnitude((bits - SIGN) as nat) + SIGN_32) as u32
    }
}

/// The bits of the single nearest to a double.
pub fn narrow(bits: u64) -> (r: u32)
    ensures
        r == narrowed(bits),
{
    let mag: u64 = if bits < SIGN {
        bits
    } else {
        bits - SIGN
    };
    let exponent: u64 = mag / 0x10_0000_0000_0000;
    let full: u64 = 0x10_0000_0000_0000 + mag % 0x10_0000_0000_0000;
    let single: u64 = if mag > INFINITY_BITS {
        0x7FC0_0000 + (mag / 0x2000_0000) % 0x40_0000
    } else if exponent >= 1151 {
        INFINITY_BITS_32 as u64
    } else if exponent >= 897 {
        let q: u64 = full / 0x2000_0000;
        let rest: u64 = full % 0x2000_0000;
        let up: u64 = if 2 * rest > 0x2000_0000 || (2 * rest == 0x2000_0000 && q % 2 == 1) {
            1
        } else {
            0
        };
        (exponent - 897) * 0x80_0000 + q + up
    } else if exponent >= 872 {
        let k: u64 = 926 - exponent;
        let mut d: u64 = 1;
        let mut i: u64 = 0;
        proof {
            lemma2_to64();
        }
        while i < k
            invariant
                i <= k <= 54,
                d == pow2(i as nat),
            decreases k - i,
        {
            proof {
                lemma_pow2_unfold((i + 1) as nat);
                lemma2_to64();
                lemma2_to64_rest();
                if i < 54 {
                    lemma_pow2_strictly_increases(i as nat, 54);
                }
            }
            d = d * 2;
            i = i + 1;
        }
        proof {
            lemma2_to64();
            lemma2_to64_rest();
            if k < 54 {
                lemma_pow2_strictly_increases(k as nat, 54);
            }
            if 30 < k {
                lemma_pow2_strictly_increases(30, k as nat);
            }
            lemma_pow2_pos(k as nat);
        }
        let q: u64 = full / d;
        let rest: u64 = full % d;
        assert(q <= 0x80_0000) by (nonlinear_arith)
            requires
                q == full / d,
                d >= 0x4000_0000,
                full < 0x20_0000_0000_0000,
        ;
        if 2 * rest > d || (2 * rest == d && q % 2 == 1) {
            q + 1
        } else {
            q
        }
    } else {
        0
    };
    if bits < SIGN {
        single as u32
    } else {
        single as u32 + SIGN_32
    }
}

// ---------------------------------------------------------------------------
// What the bits mean
// ---------------------------------------------------------------------------
/// The exponent field of a double.
pub open spec fn exponent_field(bits: u64) -> nat {
    ((bits as nat) / 0x10_0000_0000_0000nat) % 2048
}

/// The fraction field of a double.
pub open spec fn fraction_field(bits: u64) -> nat {
    (bits as nat) % 0x10_0000_0000_0000nat
}

/// The sign field of a double: one for a negative number.
pub open spec fn sign_field(bits: u64) -> nat {
    (bits as nat) / 0x8000_0000_0000_0000nat
}

/// The number that a finite double is, in units of the least positive double. One
/// whose exponent field is zero has no leading one.
pub open spec fn units(bits: u64) -> int {
    let size = if exponent_field(bits) == 0 {
        fraction_field(bits)
    } else {
        (0x10_0000_0000_0000nat + fraction_field(bits)) * pow2((exponent_field(bits) - 1) as nat)
    };
    if sign_field(bits) == 1 {
        -size
    } else {
        size as int
    }
}

/// The number that magnitude bits are, in units of the least positive double.
spec fn size_of_magnitude(m: nat) -> nat {
    let e = m / 0x10_0000_0000_0000nat;
    let f = m % 0x10_0000_0000_0000nat;
    if e == 0 {
        f
    } else {
        (0x10_0000_0000_0000nat + f) * pow2((e - 1) as nat)
    }
}

proof fn lemma_sizes_grow(a: nat, b: nat)
    requires
        a < b,
    ensures
        size_of_magnitude(a) < size_of_magnitude(b),
{
    let unit = 0x10_0000_0000_0000nat;
    let ea = a / unit;
    let eb = b / unit;
    let fa = a % unit;
    let fb = b % unit;
    if ea == eb {
        if ea > 0 {
            let p = pow2((ea - 1) as nat);
            lemma_pow2_pos((ea - 1) as nat);
            assert((unit + fa) * p < (unit + fb) * p) by (nonlinear_arith)
                requires
                    fa < fb,
                    p > 0,
            ;
        }
    } else {
        assert(ea < eb);
        let q = pow2((eb - 1) as nat);
        lemma_pow2_pos((eb - 1) as nat);
        assert(unit * q <= (unit + fb) * q) by (nonlinear_arith);
        if ea == 0 {
            assert(fa < unit * q) by (nonlinear_arith)
                requires
                    fa < unit,
                    q >= 1,
            ;
        } else {
            let p = pow2((ea - 1) as nat);
            lemma_pow2_pos((ea - 1) as nat);
            lemma_pow2_unfold(ea);
            if ea < eb - 1 {
                lemma_pow2_strictly_increases(ea, (eb - 1) as nat);
            }
            assert((unit + fa) * p < unit * (2 * p)) by (nonlinear_arith)
                requires
                    fa < unit,
                    p > 0,
            ;
            assert(unit * (2 * p) <= unit * q) by (nonlinear_arith)
                requires
                    2 * p <= q,
            ;
        }
    }
}

proof fn lemma_units(bits: u64)
    ensures
        magnitude(bits) >= 0,
        (magnitude(bits) as nat) / 0x10_0000_0000_0000nat == exponent_field(bits),
        (magnitude(bits) as nat) % 0x10_0000_0000_0000nat == fraction_field(bits),
        sign_field(bits) == if bits < SIGN {
            0nat
        } else {
            1
        },
        units(bits) == if bits < SIGN {
            size_of_magnitude(magnitude(bits) as nat) as int
        } else {
            -size_of_magnitude(magnitude(bits) as nat)
        },
{
    let m = magnitude(bits) as nat;
    let unit = 0x10_0000_0000_0000nat;
    assert(m < 0x8000_0000_0000_0000);
    assert(m / unit < 2048);
    if bits < SIGN {
    } else {
        assert(bits as nat == 2048 * unit + m);
        assert((bits as nat) / unit == 2048 + m / unit);
        assert((bits as nat) % unit == m % unit);
    }
}

/// Doubles compare as the numbers that they are. An exponent field of ones stands
/// for an infinity, or for no number where the fraction is not zero; what is no
/// number is neither less than nor equal to anything, and every finite number lies
/// between the infinities.
pub proof fn law_doubles_compare_as_numbers(a: u64, b: u64)
    ensures
        is_nan(a) <==> exponent_field(a) == 2047 && fraction_field(a) != 0,
        is_finite(a) <==> exponent_field(a) < 2047,
        is_nan(a) || is_nan(b) ==> !float_lt(a, b) && !float_eq(a, b),
        exponent_field(a) < 2047 && exponent_field(b) < 2047 ==> {
            &&& float_lt(a, b) <==> units(a) < units(b)
            &&& float_eq(a, b) <==> units(a) == units(b)
        },
        exponent_field(a) < 2047 && exponent_field(b) == 2047 && fraction_field(b) == 0 ==> {
            &&& float_lt(a, b) <==> sign_field(b) == 0
            &&& float_lt(b, a) <==> sign_field(b) == 1
            &&& !float_eq(a, b)
        },
{
    lemma_units(a);
    lemma_units(b);
    let ma = magnitude(a) as nat;
    let mb = magnitude(b) as nat;
    let unit = 0x10_0000_0000_0000nat;
    assert(INFINITY_BITS == 2047 * unit);
    assert(ma == (ma / unit) * unit + ma % unit);
    assert(mb == (mb / unit) * unit + mb % unit);
    if ma < mb {
        lemma_sizes_grow(ma, mb);
    }
    if mb < ma {
        lemma_sizes_grow(mb, ma);
    }
    if ma > 0 {
        lemma_sizes_grow(0, ma);
    }
    if mb > 0 {
        lemma_sizes_grow(0, mb);
    }
}

/// The total order of doubles is the order of the numbers where they differ; of the
/// zeros the negative one comes first, and what is no number lies beyond the
/// infinities.
pub proof fn law_total_order_keeps_numbers(a: u64, b: u64)
    ensures
        float_lt(a, b) ==> total_lt(a, b),
        total_lt(a, b) ==> !float_lt(b, a),
        a != b ==> total_lt(a, b) != total_lt(b, a),
        !total_lt(a, a),
        is_nan(a) && !is_nan(b) ==> total_lt(a, b) == (sign_field(a) == 1),
        units(a) == 0 && units(b) == 0 && sign_field(a) == 1 && sign_field(b) == 0 ==> total_lt(
            a,
            b,
        ),
{
    lemma_units(a);
    lemma_units(b);
}

proof fn lemma_small_significand(m: nat, e: nat)
    requires
        pow2(e) <= m < 2 * pow2(e),
        m <= 0x20_0000_0000_0000,
        e <= 53,
    ensures
        significand(m, pow2(e)) * pow2(e) == m * 0x10_0000_0000_0000nat,
        significand(m, pow2(e)) < 2 * 0x10_0000_0000_0000nat,
{
    let unit = 0x10_0000_0000_0000nat;
    let p = pow2(e);
    lemma2_to64();
    lemma2_to64_rest();
    vstd::arithmetic::power2::lemma_pow2_pos(e);
    if e <= 52 {
        let f = pow2((52 - e) as nat);
        lemma_pow2_adds(e, (52 - e) as nat);
        vstd::arithmetic::power2::lemma_pow2_pos((52 - e) as nat);
        assert(pow2(52) == unit);
        assert(p * f == unit);
        assert(unit / p == f && p <= unit) by (nonlinear_arith)
            requires
                p * f == unit,
                p > 0,
                f > 0,
        ;
        assert(significand(m, p) == m * f);
        assert((m * f) * p == m * unit) by (nonlinear_arith)
            requires
                p * f == unit,
        ;
        assert(m * f < 2 * unit) by (nonlinear_arith)
            requires
                m < 2 * p,
                p * f == unit,
                f > 0,
        ;
    } else {
        assert(pow2(53) == 0x20_0000_0000_0000);
        assert(m == 0x20_0000_0000_0000);
        assert(p == 2 * unit);
        assert(p / unit == 2);
        assert(significand(m, p) == unit);
    }
}

/// A whole number that a double can hold is held exactly: one of at most 53 bits.
pub proof fn law_small_integers_are_exact(n: i64)
    requires
        -0x20_0000_0000_0000 <= n <= 0x20_0000_0000_0000,
    ensures
        is_finite(int_double(n)),
        units(int_double(n)) == n * pow2(1074),
{
    let m: nat = if n < 0 {
        (-n) as nat
    } else {
        n as nat
    };
    let unit = 0x10_0000_0000_0000nat;
    lemma2_to64();
    lemma2_to64_rest();
    if m > 0 {
        let e = top_exponent(m);
        lemma_top_bounds(m);
        lemma_small_exponent(m, 53);
        lemma_significand_bound(m, e);
        let p = pow2(e);
        let s = significand(m, p);
        lemma_small_significand(m, e);
        let bits = nat_double(m);
        assert(bits == (e + 1022) * unit + s);
        assert(bits / unit == e + 1023) by (nonlinear_arith)
            requires
                bits == (e + 1022) * unit + s,
                unit <= s < 2 * unit,
                unit == 0x10_0000_0000_0000nat,
        ;
        assert(bits % unit == s - unit) by (nonlinear_arith)
            requires
                bits == (e + 1022) * unit + s,
                unit <= s < 2 * unit,
                unit == 0x10_0000_0000_0000nat,
        ;
        lemma_units(int_double(n));
        assert(magnitude(int_double(n)) == bits);
        lemma_pow2_adds(e, 1022);
        lemma_pow2_adds(52, 1022);
        assert(pow2(52) == unit);
        let g = pow2(1022);
        assert(size_of_magnitude(bits) == s * pow2((e + 1022) as nat));
        assert(s * (p * g) == m * (unit * g)) by (nonlinear_arith)
            requires
                s * p == m * unit,
        ;
        assert(pow2(1074) == unit * g);
        if n < 0 {
            assert(n * pow2(1074) == -(m * pow2(1074))) by (nonlinear_arith)
                requires
                    n == -m,
            ;
        }
    } else {
        lemma_units(0);
        assert(n * pow2(1074) == 0) by (nonlinear_arith)
            requires
                n == 0,
        ;
    }
}

proof fn lemma_top_bounds(m: nat)
    requires
        m > 0,
    ensures
        pow2(top_exponent(m)) <= m < 2 * pow2(top_exponent(m)),
    decreases m,
{
    lemma2_to64();
    if m >= 2 {
        lemma_top_bounds(m / 2);
        lemma_pow2_unfold(top_exponent(m));
    }
}

proof fn lemma_small_exponent(m: nat, e: nat)
    requires
        0 < m <= pow2(e),
    ensures
        top_exponent(m) <= e,
{
    lemma_top_bounds(m);
    if top_exponent(m) > e {
        lemma_pow2_strictly_increases(e, top_exponent(m));
    }
}

proof fn lemma_nat_doubles_grow(a: nat, b: nat)
    requires
        a <= b <= 0x8000_0000_0000_0000,
    ensures
        nat_double(a) <= nat_double(b) < INFINITY_BITS,
{
    let unit = 0x10_0000_0000_0000nat;
    lemma2_to64();
    lemma2_to64_rest();
    if b > 0 {
        lemma_top_bounds(b);
        lemma_small_exponent(b, 63);
        let eb = top_exponent(b);
        lemma_significand_bound(b, eb);
        if a > 0 {
            lemma_top_bounds(a);
            lemma_small_exponent(a, 63);
            let ea = top_exponent(a);
            lemma_significand_bound(a, ea);
            if ea > eb {
                if ea > eb + 1 {
                    lemma_pow2_strictly_increases((eb + 1) as nat, ea);
                }
                lemma_pow2_unfold((eb + 1) as nat);
            }
            let sa = significand(a, pow2(ea));
            let sb = significand(b, pow2(eb));
            assert(nat_double(a) == (ea + 1022) * unit + sa);
            assert(nat_double(b) == (eb + 1022) * unit + sb);
            if ea == eb {
                let p = pow2(ea);
                if ea <= 52 {
                    let f = unit / p;
                    assert(a * f <= b * f) by (nonlinear_arith)
                        requires
                            a <= b,
                    ;
                } else {
                    lemma_rounding_grows(a, b, p / unit);
                }
            }
        } else {
            assert(nat_double(b) >= (eb + 1022) * unit);
        }
    }
}

proof fn lemma_rounding_grows(a: nat, b: nat, d: nat)
    requires
        a <= b,
        d > 0,
    ensures
        round_half_even(a, d) <= round_half_even(b, d),
{
    let qa = a / d;
    let qb = b / d;
    assert(a == qa * d + a % d && b == qb * d + b % d && a % d < d && b % d < d && qa <= qb)
        by (nonlinear_arith)
        requires
            qa == a / d,
            qb == b / d,
            a <= b,
            d > 0,
    ;
    if qa == qb {
        assert(a % d <= b % d);
    }
}

/// A whole number becomes a double without changing its place among the others: a
/// smaller one never becomes a greater double.
pub proof fn law_integers_keep_their_order(a: i64, b: i64)
    requires
        a <= b,
    ensures
        is_finite(int_double(a)),
        is_finite(int_double(b)),
        !float_lt(int_double(b), int_double(a)),
        int_double((0i64)) == 0,
{
    let ma: nat = if a < 0 {
        (-a) as nat
    } else {
        a as nat
    };
    let mb: nat = if b < 0 {
        (-b) as nat
    } else {
        b as nat
    };
    lemma_nat_doubles_grow(ma, ma);
    lemma_nat_doubles_grow(mb, mb);
    if ma <= mb {
        lemma_nat_doubles_grow(ma, mb);
    } else {
        lemma_nat_doubles_grow(mb, ma);
    }
}

proof fn lemma_rounds_to_nearest(m: nat, d: nat)
    requires
        d > 0,
    ensures
        2 * (round_half_even(m, d) * d) <= 2 * m + d,
        2 * m <= 2 * (round_half_even(m, d) * d) + d,
{
    let q = m / d;
    let rest = m % d;
    vstd::arithmetic::div_mod::lemma_fundamental_div_mod(m as int, d as int);
    vstd::arithmetic::div_mod::lemma_mod_bound(m as int, d as int);
    assert((q + 1) * d == q * d + d) by (nonlinear_arith);
    assert(q * d == d * q) by (nonlinear_arith);
}

/// The single that stands for a double has its sign. Within the range of the normal
/// singles it is the nearest: as bits, with the larger exponent offset taken off, the
/// double lies no farther from it than half of what the bits that are dropped count.
pub proof fn law_narrowed_is_nearest(bits: u64)
    ensures
        is_finite(bits) && exponent_field(bits) < 1151 ==> (narrowed(bits) >= SIGN_32 <==> sign_field(
            bits,
        ) == 1),
        897 <= exponent_field(bits) < 1151 ==> ({
            let single: int = if sign_field(bits) == 1 {
                narrowed(bits) - SIGN_32
            } else {
                narrowed(bits) as int
            };
            let double = (exponent_field(bits) - 896) * 0x10_0000_0000_0000 + fraction_field(bits);
            &&& 2 * (single * 0x2000_0000) <= 2 * double + 0x2000_0000
            &&& 2 * double <= 2 * (single * 0x2000_0000) + 0x2000_0000
        }),
{
    let mag: nat = magnitude(bits) as nat;
    let unit = 0x10_0000_0000_0000nat;
    let e = mag / unit;
    let full = unit + mag % unit;
    assert(e == exponent_field(bits) && mag % unit == fraction_field(bits)) by {
        lemma_fields(bits);
    }
    if is_finite(bits) && e < 1151 {
        if e >= 897 {
            lemma_rounds_to_nearest(full, 0x2000_0000);
            let r = round_half_even(full, 0x2000_0000);
            assert(r <= 0x100_0000);
            assert(single_magnitude(mag) == (e - 897) * 0x80_0000 + r);
            assert(single_magnitude(mag) < SIGN_32);
        } else if e >= 872 {
            lemma_small_single(full, (926 - e) as nat);
        }
    }
}

proof fn lemma_fields(bits: u64)
    ensures
        magnitude(bits) / 0x10_0000_0000_0000 == exponent_field(bits),
        magnitude(bits) % 0x10_0000_0000_0000 == fraction_field(bits),
        sign_field(bits) == if bits < SIGN {
            0nat
        } else {
            1nat
        },
{
}

proof fn lemma_small_single(full: nat, k: nat)
    requires
        full < 0x20_0000_0000_0000,
        29 <= k,
    ensures
        round_half_even(full, pow2(k)) <= 0x100_0000,
{
    lemma2_to64();
    lemma2_to64_rest();
    lemma_pow2_adds(29, (k - 29) as nat);
    vstd::arithmetic::power2::lemma_pow2_pos((k - 29) as nat);
    let d = pow2(k);
    let f = pow2((k - 29) as nat);
    assert(pow2(29) == 0x2000_0000);
    assert(d >= 0x2000_0000) by (nonlinear_arith)
        requires
            d == 0x2000_0000 * f,
            f > 0,
    ;
    let r = round_half_even(full, d);
    let q = full / d;
    assert(q < 0x100_0000) by (nonlinear_arith)
        requires
            q == full / d,
            d >= 0x2000_0000,
            full < 0x20_0000_0000_0000,
    ;
}

/// Rounding takes the nearer of the two multiples, and of two as near the even one.
pub proof fn law_ties_go_to_even(m: nat, d: nat)
    requires
        d > 0,
    ensures
        2 * (m % d) < d ==> round_half_even(m, d) == m / d,
        2 * (m % d) > d ==> round_half_even(m, d) == m / d + 1,
        2 * (m % d) == d ==> round_half_even(m, d) % 2 == 0,
{
}

/// A double too large for a single becomes an infinite one, one too small a zero, and what
/// is not a number stays none. Below the normal singles the nearest of those that are left
/// stands for it.
pub proof fn law_narrowed_at_the_ends(bits: u64)
    requires
        bits < SIGN,
    ensures
        is_finite(bits) && exponent_field(bits) >= 1151 ==> narrowed(bits) == INFINITY_BITS_32,
        bits == INFINITY_BITS ==> narrowed(bits) == INFINITY_BITS_32,
        is_nan(bits) ==> is_nan_32(narrowed(bits)),
        exponent_field(bits) < 872 ==> narrowed(bits) == 0,
        872 <= exponent_field(bits) < 897 ==> ({
            let d = pow2((926 - exponent_field(bits)) as nat);
            let full = 0x10_0000_0000_0000nat + fraction_field(bits);
            &&& 2 * (narrowed(bits) * d) <= 2 * full + d
            &&& 2 * full <= 2 * (narrowed(bits) * d) + d
        }),
        narrowed((bits + SIGN) as u64) == narrowed(bits) + SIGN_32,
{
    let mag: nat = bits as nat;
    let unit = 0x10_0000_0000_0000nat;
    let e = mag / unit;
    let full = unit + mag % unit;
    lemma_fields(bits);
    if mag > INFINITY_BITS {
        assert(single_magnitude(mag) < SIGN_32);
    } else if e >= 1151 {
    } else if e >= 897 {
        lemma_rounds_to_nearest(full, 0x2000_0000);
        let r = round_half_even(full, 0x2000_0000);
        assert(r <= 0x100_0000);
        assert(single_magnitude(mag) == (e - 897) * 0x80_0000 + r);
        assert(single_magnitude(mag) < SIGN_32);
    } else if e >= 872 {
        vstd::arithmetic::power2::lemma_pow2_pos((926 - e) as nat);
        lemma_rounds_to_nearest(full, pow2((926 - e) as nat));
        lemma_small_single(full, (926 - e) as nat);
    }
}

/// Singles are equal where they are the same number: the same bits, or both a zero. With an
/// exponent field of ones and a fraction that is not zero they are no number, and equal to
/// nothing.
pub proof fn law_singles_are_equal_as_numbers(a: u32, b: u32)
    ensures
        ({
            let no_number = |x: u32| (x as int / 0x80_0000) % 256 == 255 && x as int % 0x80_0000 != 0;
            &&& is_nan_32(a) <==> no_number(a)
            &&& float_eq_32(a, b) <==> !no_number(a) && !no_number(b) && (a == b || (a as int
                % 0x8000_0000 == 0 && b as int % 0x8000_0000 == 0))
        }),
{
}

} // verus!
