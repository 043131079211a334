//! Double-precision numbers held as their IEEE-754 bits.
//!
//! The sign is the top bit, then come eleven bits of exponent, biased by 1023,
//! and 52 bits of fraction. The number is
//! `(1 + fraction / 2^52) * 2^(exponent - 1023)`, negative when the sign bit is
//! set; exponents 0 and 2047 stand for numbers near zero and for infinities
//! and NaNs.

use vstd::arithmetic::power2::{
    lemma2_to64, lemma2_to64_rest, lemma_pow2_adds, lemma_pow2_pos, lemma_pow2_strictly_increases,
    lemma_pow2_unfold, pow2,
};
use vstd::prelude::*;

verus! {

/// The bits of the usual quiet NaN.
pub const NAN_BITS: u64 = 0x7ff8000000000000;

/// 2 to the power of 52.
pub const FRACTION_SPAN: u64 = 0x10000000000000;

/// 2 to the power of 63.
pub const SIGN_BIT: u64 = 0x8000000000000000;

/// The biased exponent.
pub open spec fn exponent(bits: u64) -> nat {
    ((bits as nat) / (FRACTION_SPAN as nat)) % 2048
}

/// The fraction field.
pub open spec fn fraction(bits: u64) -> nat {
    (bits as nat) % (FRACTION_SPAN as nat)
}

/// The size of a finite number, without what stands behind the point, for
/// sizes below 2^63.
pub open spec fn whole_part(bits: u64) -> nat {
    let e = exponent(bits);
    let m = FRACTION_SPAN as nat + fraction(bits);
    if e < 1023 {
        0
    } else if e < 1075 {
        m / pow2((1075 - e) as nat)
    } else {
        m * pow2((e - 1075) as nat)
    }
}

/// The number cut to an integer: towards zero, held to the range of `i64`, and
/// 0 for a NaN.
pub open spec fn truncated(bits: u64) -> i64 {
    let negative = bits >= SIGN_BIT;
    if exponent(bits) == 2047 && fraction(bits) != 0 {
        0
    } else if exponent(bits) >= 1086 {
        if negative {
            i64::MIN
        } else {
            i64::MAX
        }
    } else if negative {
        (-whole_part(bits)) as i64
    } else {
        whole_part(bits) as i64
    }
}

/// Cut the number to an integer, as a cast to `i64` does.
pub fn truncate(bits: u64) -> (r: i64)
    ensures
        r == truncated(bits),
{
    let e: u64 = (bits / FRACTION_SPAN) % 2048;
    let f: u64 = bits % FRACTION_SPAN;
    let negative = bits >= SIGN_BIT;
    if e == 2047 && f != 0 {
        return 0;
    }
    if e >= 1086 {
        return if negative {
            i64::MIN
        } else {
            i64::MAX
        };
    }
    let m: u64 = FRACTION_SPAN + f;
    proof {
        lemma2_to64();
        lemma2_to64_rest();
    }
    let w: u64 = if e < 1023 {
        0
    } else if e < 1075 {
        let k: u64 = 1075 - e;
        proof {
            vstd::bits::lemma_u64_shr_is_div(m, k);
            lemma_pow2_pos(k as nat);
            assert(m as nat / pow2(k as nat) <= m) by (nonlinear_arith)
                requires
                    pow2(k as nat) > 0,
            ;
        }
        m >> k
    } else {
        let k: u64 = e - 1075;
        proof {
            if k < 10 {
                lemma_pow2_strictly_increases(k as nat, 10);
            }
            lemma_pow2_pos(k as nat);
            assert(m * pow2(k as nat) < 0x8000000000000000) by (nonlinear_arith)
                requires
                    0 < pow2(k as nat) <= 1024,
                    m < 0x20000000000000,
            ;
            vstd::bits::lemma_u64_shl_is_mul(m, k);
        }
        m << k
    };
    assert(w == whole_part(bits));
    if negative {
        -(w as i64)
    } else {
        w as i64
    }
}

/// The position of the highest bit that is set in `n`.
pub open spec fn top_bit(n: nat) -> nat
    decreases n,
{
    if n < 2 {
        0
    } else {
        1 + top_bit(n / 2)
    }
}

/// `n` lies between the power of two of its top bit and the next one.
proof fn lemma_top_bit(n: nat)
    requires
        n > 0,
    ensures
        pow2(top_bit(n)) <= n < pow2(top_bit(n) + 1),
    decreases n,
{
    lemma2_to64();
    if n >= 2 {
        lemma_top_bit(n / 2);
        lemma_pow2_unfold(top_bit(n));
        lemma_pow2_unfold(top_bit(n) + 1);
    }
}

/// A size below a power of two has its top bit below that power.
proof fn lemma_top_bit_below(n: nat, k: nat)
    requires
        0 < n < pow2(k),
    ensures
        top_bit(n) < k,
{
    lemma_top_bit(n);
    if top_bit(n) > k {
        lemma_pow2_strictly_increases(k, top_bit(n));
    }
}

/// The bits of the integer `n`, for sizes below 2^53.
pub open spec fn of_int(n: int) -> u64 {
    let m: nat = if n < 0 {
        (-n) as nat
    } else {
        n as nat
    };
    let e = top_bit(m);
    let sign: int = if n < 0 {
        SIGN_BIT as int
    } else {
        0
    };
    if n == 0 {
        0
    } else {
        (sign + (1023 + e) * FRACTION_SPAN + (m * pow2((52 - e) as nat) - FRACTION_SPAN)) as u64
    }
}

/// The mantissa of an integer of fewer than 54 bits, and its bounds.
proof fn lemma_mantissa(m: nat)
    requires
        0 < m < pow2(53),
    ensures
        top_bit(m) <= 52,
        FRACTION_SPAN <= m * pow2((52 - top_bit(m)) as nat) < 2 * FRACTION_SPAN,
{
    let e = top_bit(m);
    lemma_top_bit(m);
    lemma_top_bit_below(m, 53);
    lemma_pow2_adds(e, (52 - e) as nat);
    lemma_pow2_adds(e + 1, (52 - e) as nat);
    lemma2_to64_rest();
    lemma_pow2_pos((52 - e) as nat);
    let p = pow2((52 - e) as nat);
    assert(pow2(e) * p <= m * p < pow2(e + 1) * p) by (nonlinear_arith)
        requires
            pow2(e) <= m < pow2(e + 1),
            p > 0,
    ;
}

/// The double with the value of an integer.
pub fn from_int(n: i32) -> (r: u64)
    ensures
        r == of_int(n as int),
{
    if n == 0 {
        return 0;
    }
    let m: u64 = if n < 0 {
        (-(n as i64)) as u64
    } else {
        n as u64
    };
    let mut e: u64 = 0;
    let mut rest: u64 = m;
    while rest >= 2
        invariant
            top_bit(m as nat) == e + top_bit(rest as nat),
            0 < rest,
            e + rest <= m,
            m <= 0x80000000,
        decreases rest,
    {
        rest = rest / 2;
        e += 1;
    }
    proof {
        lemma2_to64();
        lemma2_to64_rest();
        lemma_mantissa(m as nat);
    }
    let k: u64 = 52 - e;
    proof {
        vstd::bits::lemma_u64_shl_is_mul(m, k);
    }
    let f: u64 = (m << k) - FRACTION_SPAN;
    let body: u64 = (1023 + e) * FRACTION_SPAN + f;
    if n < 0 {
        SIGN_BIT + body
    } else {
        body
    }
}

/// An integer made a double and cut to an integer again is unchanged.
pub proof fn lemma_int_round_trip(n: int)
    requires
        -0x20000000000000 < n < 0x20000000000000,
    ensures
        truncated(of_int(n)) == n,
{
    lemma2_to64();
    lemma2_to64_rest();
    let m: nat = if n < 0 {
        (-n) as nat
    } else {
        n as nat
    };
    if n != 0 {
        lemma_mantissa(m);
        let e = top_bit(m);
        let mant = m * pow2((52 - e) as nat);
        let span = FRACTION_SPAN as int;
        let sign: int = if n < 0 {
            SIGN_BIT as int
        } else {
            0
        };
        let bits = of_int(n);
        assert(bits == sign + (1023 + e) * span + (mant - span));
        assert((bits as int) / span == sign / span + 1023 + e && (bits as int) % span == mant
            - span) by (nonlinear_arith)
            requires
                bits == sign + (1023 + e) * span + (mant - span),
                span == 0x10000000000000,
                span <= mant < 2 * span,
                sign == 0 || sign == 0x8000000000000000,
        ;
        assert(exponent(bits) == 1023 + e);
        assert(fraction(bits) == mant - span);
        lemma_pow2_pos((52 - e) as nat);
        let p = pow2((52 - e) as nat);
        assert((m * p) / p == m) by (nonlinear_arith)
            requires
                p > 0,
        ;
        if e == 52 {
            assert(mant == m) by (nonlinear_arith)
                requires
                    mant == m * p,
                    p == 1,
            ;
            assert(mant * 1 == mant);
        } else {
            assert((1075 - exponent(bits)) as nat == (52 - e) as nat);
        }
    }
}

/// The bits of positive infinity.
pub const INFINITY_BITS: u64 = 0x7ff0000000000000;

/// True for the bits of a NaN.
pub open spec fn nan(bits: u64) -> bool {
    bits % SIGN_BIT > INFINITY_BITS
}

/// Where a number that is not a NaN stands in the order of all numbers; the
/// two zeros stand in one place.
pub open spec fn rank(bits: u64) -> int {
    if bits < SIGN_BIT {
        bits as int
    } else {
        SIGN_BIT - bits
    }
}

/// The order of numbers: a NaN is neither below nor above any.
pub open spec fn below(a: u64, b: u64) -> bool {
    !nan(a) && !nan(b) && rank(a) < rank(b)
}

/// True when the first number is less than the second.
pub fn is_less(a: u64, b: u64) -> (r: bool)
    ensures
        r == below(a, b),
{
    if a % SIGN_BIT > INFINITY_BITS || b % SIGN_BIT > INFINITY_BITS {
        return false;
    }
    if a < SIGN_BIT {
        b < SIGN_BIT && a < b
    } else if b < SIGN_BIT {
        a > SIGN_BIT || b > 0
    } else {
        b < a
    }
}

} // verus!
