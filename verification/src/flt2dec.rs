//! Conversion of a finite double into decimal digits: decomposition of the
//! bit pattern, digit generation by exact big-integer arithmetic, and the
//! search for the shortest digit sequence that parses back to the same
//! double. A candidate counts only once re-parsing it through the exact
//! decimal-to-binary converter returns the original bit pattern, so every
//! emitted sequence is certified to round-trip.

use vstd::prelude::*;

use vstd::arithmetic::div_mod::lemma_div_decreases;
use vstd::arithmetic::div_mod::lemma_div_denominator;
use vstd::arithmetic::div_mod::lemma_div_non_zero;
use vstd::arithmetic::power2::pow2;
use crate::bignum::pow10;
use crate::bignum::Bignum;
use crate::dec2flt::Decimal;
use crate::dec2flt::all_digit_bytes;
use crate::dec2flt::convert;
use crate::dec2flt::dec_den;
use crate::dec2flt::dec_num;
use crate::dec2flt::digits_den;
use crate::dec2flt::digits_num;
use crate::dec2flt::rounds_to;

verus! {

/// The minimum digit buffer size for the shortest mode: no double needs
/// more than 17 significant decimal digits.
pub const MAX_SIG_DIGITS: usize = 17;

/// A decomposed finite, non-zero double: `value = mant * 2^exp`, with the
/// rounding boundaries `minus` and `plus` ulp fractions away and
/// `inclusive` telling whether the boundaries themselves round back.
#[derive(Copy, Clone, Debug, PartialEq, Eq, Structural)]
pub struct Decoded {
    /// The scaled mantissa; `value = mant * 2^exp`.
    pub mant: u64,
    /// The distance to the lower rounding boundary, in units of `2^exp`.
    pub minus: u64,
    /// The distance to the upper rounding boundary, in units of `2^exp`.
    pub plus: u64,
    /// The binary exponent.
    pub exp: i16,
    /// Whether values exactly on a boundary round back to this double.
    pub inclusive: bool,
}

/// A decomposed double of any class.
#[derive(Copy, Clone, Debug, PartialEq, Eq, Structural)]
pub enum FullDecoded {
    /// Not a number.
    Nan,
    /// Positive or negative infinity.
    Infinite,
    /// A zero of either sign.
    Zero,
    /// A finite, non-zero value.
    Finite(Decoded),
}

/// The biased exponent field of a double's bit pattern.
pub open spec fn f64_bexp(bits: u64) -> u64 {
    (bits >> 52) & 0x7FF
}

/// The fraction field of a double's bit pattern.
pub open spec fn f64_frac(bits: u64) -> u64 {
    bits & 0xFFFFFFFFFFFFF
}

/// The sign bit of a double's bit pattern.
pub open spec fn f64_sign(bits: u64) -> bool {
    (bits >> 63) == 1
}

/// What [`decode`] yields for the value class of `bits`.
pub open spec fn decode_class(bits: u64) -> FullDecoded {
    let bexp = f64_bexp(bits);
    let frac = f64_frac(bits);
    if bexp == 0x7FF {
        if frac == 0 {
            FullDecoded::Infinite
        } else {
            FullDecoded::Nan
        }
    } else if bexp == 0 {
        if frac == 0 {
            FullDecoded::Zero
        } else {
            FullDecoded::Finite(
                Decoded {
                    mant: (frac * 2) as u64,
                    minus: 1,
                    plus: 1,
                    exp: (-1075) as i16,
                    inclusive: frac % 2 == 0,
                },
            )
        }
    } else {
        let m = (frac + 0x10000000000000) as u64;
        if frac == 0 && bexp > 1 {
            // the lower neighbor is half as far: quarter-ulp scaling
            FullDecoded::Finite(
                Decoded {
                    mant: (m * 4) as u64,
                    minus: 1,
                    plus: 2,
                    exp: (bexp - 1077) as i16,
                    inclusive: true,
                },
            )
        } else {
            FullDecoded::Finite(
                Decoded {
                    mant: (m * 2) as u64,
                    minus: 1,
                    plus: 1,
                    exp: (bexp - 1076) as i16,
                    inclusive: frac % 2 == 0,
                },
            )
        }
    }
}

/// Decomposes a double's bit pattern into its sign and scaled mantissa,
/// exponent and rounding-boundary distances.
pub fn decode(bits: u64) -> (r: (bool, FullDecoded))
    ensures
        r.0 == f64_sign(bits),
        r.1 == decode_class(bits),
{
    let sign = (bits >> 63u64) == 1;
    let bexp = (bits >> 52u64) & 0x7FF;
    let frac = bits & 0xFFFFFFFFFFFFF;
    proof {
        assert((bits >> 52u64) & 0x7FF < 0x800 && bits & 0xFFFFFFFFFFFFF < 0x10000000000000)
            by (bit_vector);
    }
    let full = if bexp == 0x7FF {
        if frac == 0 {
            FullDecoded::Infinite
        } else {
            FullDecoded::Nan
        }
    } else if bexp == 0 {
        if frac == 0 {
            FullDecoded::Zero
        } else {
            FullDecoded::Finite(
                Decoded {
                    mant: frac * 2,
                    minus: 1,
                    plus: 1,
                    exp: -1075,
                    inclusive: frac % 2 == 0,
                },
            )
        }
    } else {
        let m: u64 = frac + 0x10000000000000;
        if frac == 0 && bexp > 1 {
            FullDecoded::Finite(
                Decoded {
                    mant: m * 4,
                    minus: 1,
                    plus: 2,
                    exp: (bexp as i32 - 1077) as i16,
                    inclusive: true,
                },
            )
        } else {
            FullDecoded::Finite(
                Decoded {
                    mant: m * 2,
                    minus: 1,
                    plus: 1,
                    exp: (bexp as i32 - 1076) as i16,
                    inclusive: frac % 2 == 0,
                },
            )
        }
    };
    (sign, full)
}

/// Decoding and re-encoding give the original finite pattern back.
pub proof fn lemma_decode_encode(bits: u64)
    requires
        f64_bexp(bits) != 0x7FF,
        decode_class(bits) is Finite,
    ensures
        decoded_bits(decode_class(bits)->Finite_0) == bits & 0x7FFFFFFFFFFFFFFF,
        bits & 0x7FFFFFFFFFFFFFFF != 0,
{
    let bexp = (bits >> 52) & 0x7FF;
    let frac = bits & 0xFFFFFFFFFFFFF;
    let mag = bits & 0x7FFFFFFFFFFFFFFF;
    assert((bits >> 52) & 0x7FF < 0x800 && bits & 0xFFFFFFFFFFFFF < 0x10000000000000 && ((bits
        >> 52) & 0x7FF == 0 ==> bits & 0x7FFFFFFFFFFFFFFF == bits & 0xFFFFFFFFFFFFF) && ((bits
        >> 52) & 0x7FF != 0 ==> (((bits >> 52) & 0x7FF) << 52u64) | (bits & 0xFFFFFFFFFFFFF)
        == bits & 0x7FFFFFFFFFFFFFFF) && ((bits >> 52) & 0x7FF == 0 && bits & 0xFFFFFFFFFFFFF
        == 0 ==> bits & 0x7FFFFFFFFFFFFFFF == 0) && ((bits >> 52) & 0x7FF != 0 ==> bits
        & 0x7FFFFFFFFFFFFFFF != 0)) by (bit_vector);
    if bexp == 0 {
        // subnormal: mant == frac * 2, exp == -1075
        assert(frac != 0);
    }
}

/// A decoded mantissa/exponent pair that digit generation accepts.
pub open spec fn gen_ready(d: Decoded) -> bool {
    &&& 1 <= d.mant < 0x100000000000000
    &&& -1100 <= d.exp <= 1100
}

/// The index of the last digit below nine among the first `n` digits, or
/// `-1` when they are all nines.
pub open spec fn last_non_nine(s: Seq<u8>, n: int) -> int
    decreases n,
{
    if n <= 0 {
        -1
    } else if s[n - 1] != 0x39 {
        n - 1
    } else {
        last_non_nine(s, n - 1)
    }
}

/// Increases the last of the first `n` digits of `d` and propagates the
/// carry; the returned digit, if any, reports that the digit run now
/// stands for a one followed by `n` zeros, so the caller must grow the
/// exponent by one.
pub fn round_up(d: &mut Vec<u8>, n: usize) -> (r: Option<u8>)
    requires
        n <= old(d)@.len(),
        forall|i: int| 0 <= i < n ==> 0x30 <= #[trigger] old(d)@[i] <= 0x39,
    ensures
        final(d)@.len() == old(d)@.len(),
        forall|i: int| n <= i < old(d)@.len() ==> final(d)@[i] == old(d)@[i],
        forall|i: int| 0 <= i < n ==> 0x30 <= #[trigger] final(d)@[i] <= 0x39,
        n == 0 ==> r == Some(0x31u8) && final(d)@ == old(d)@,
        n > 0 && last_non_nine(old(d)@, n as int) >= 0 ==> {
            let j = last_non_nine(old(d)@, n as int);
            &&& r is None
            &&& final(d)@[j] == old(d)@[j] + 1
            &&& (forall|i: int| j < i < n ==> final(d)@[i] == 0x30)
            &&& (forall|i: int| 0 <= i < j ==> final(d)@[i] == old(d)@[i])
        },
        n > 0 && last_non_nine(old(d)@, n as int) == -1 ==> {
            &&& r == Some(0x30u8)
            &&& final(d)@[0] == 0x31
            &&& (forall|i: int| 1 <= i < n ==> final(d)@[i] == 0x30)
        },
{
    if n == 0 {
        return Some(0x31);
    }
    let mut i: usize = n;
    while i > 0 && d[i - 1] == 0x39
        invariant
            i <= n,
            n <= d@.len(),
            d@.len() == old(d)@.len(),
            forall|k: int| 0 <= k < i ==> d@[k] == old(d)@[k],
            forall|k: int| i <= k < n ==> d@[k] == 0x30,
            forall|k: int| n <= k < d@.len() ==> d@[k] == old(d)@[k],
            forall|k: int| 0 <= k < n ==> 0x30 <= #[trigger] old(d)@[k] <= 0x39,
            forall|k: int| 0 <= k < n ==> 0x30 <= #[trigger] d@[k] <= 0x39,
            last_non_nine(old(d)@, n as int) == last_non_nine(old(d)@, i as int),
        decreases i,
    {
        proof {
            assert(last_non_nine(old(d)@, i as int) == last_non_nine(old(d)@, i - 1));
        }
        d[i - 1] = 0x30;
        i = i - 1;
    }
    if i == 0 {
        proof {
            assert(last_non_nine(old(d)@, 0) == -1);
        }
        d[0] = 0x31;
        Some(0x30)
    } else {
        proof {
            assert(old(d)@[i - 1] != 0x39);
            assert(last_non_nine(old(d)@, i as int) == i - 1);
        }
        let v = d[i - 1];
        d[i - 1] = v + 1;
        None
    }
}

/// Generates the first `n` decimal digits of `mant * 2^exp`, correctly
/// rounded (ties to the even last digit), together with the power-of-ten
/// position `k` of the leading digit: the value is close to
/// `0.d[0..n-1] * 10^k`.
pub fn fixed_format(d: &Decoded, n: usize) -> (r: (Vec<u8>, i64))
    requires
        1 <= n <= 17,
        gen_ready(*d),
    ensures
        r.0@.len() == n,
        all_digit_bytes(r.0@),
        -0x4100000000 <= r.1 <= 0x4100000000,
{
    // value = rn / sn
    let (mut rn, mut sn): (Bignum, Bignum) = if d.exp >= 0 {
        let sh = d.exp as usize;
        let rn0 = Bignum::from_u64(d.mant).shl_bits(sh);
        proof {
            vstd::arithmetic::power2::lemma_pow2_pos(sh as nat);
            assert(rn0@ >= 1) by (nonlinear_arith)
                requires
                    rn0@ == d.mant * pow2(sh as nat),
                    d.mant >= 1,
                    pow2(sh as nat) >= 1,
            {}
        }
        (rn0, Bignum::from_u64(1))
    } else {
        let sh = (-(d.exp as i32)) as usize;
        let sn0 = Bignum::from_u64(1).shl_bits(sh);
        proof {
            vstd::arithmetic::power2::lemma_pow2_pos(sh as nat);
            assert(sn0@ >= 1) by (nonlinear_arith)
                requires
                    sn0@ == 1 * pow2(sh as nat),
                    pow2(sh as nat) >= 1,
            {}
        }
        (Bignum::from_u64(d.mant), sn0)
    };
    // estimate k = ceil(log10(value)); every bound is re-checked below
    let br = rn.bit_len_estimate();
    let bs = sn.bit_len_estimate();
    let b: i64 = br as i64 - bs as i64;
    let mut k: i64 = b * 1233 / 4096 + 1;
    if k > 0x4000000000 {
        k = 0x4000000000;
    }
    if k < -0x4000000000 {
        k = -0x4000000000;
    }
    if k >= 0 {
        let sn1 = sn.mul_pow10(k as usize);
        proof {
            crate::bignum::lemma_pow10_pos((k as usize) as nat);
            assert(sn1@ >= 1) by (nonlinear_arith)
                requires
                    sn1@ == sn@ * pow10((k as usize) as nat),
                    sn@ >= 1,
                    pow10((k as usize) as nat) >= 1,
            {}
        }
        sn = sn1;
    } else {
        let rn1 = rn.mul_pow10((-k) as usize);
        proof {
            crate::bignum::lemma_pow10_pos(((-k) as usize) as nat);
            assert(rn1@ >= 1) by (nonlinear_arith)
                requires
                    rn1@ == rn@ * pow10(((-k) as usize) as nat),
                    rn@ >= 1,
                    pow10(((-k) as usize) as nat) >= 1,
            {}
        }
        rn = rn1;
    }
    // scale the divisor up until value < 1
    let ghost rv = rn@;
    while sn.cmp3(&rn) <= 0
        invariant
            rn.wf(),
            sn.wf(),
            rn@ >= 1,
            sn@ >= 1,
            rn@ == rv,
            -0x4100000000 <= k <= 0x4100000000,
        decreases rv / sn@,
    {
        let ghost s0 = sn@;
        proof {
            lemma_div_non_zero(rv as int, s0 as int);
        }
        sn = sn.mul_small_add(10, 0);
        if k < 0x4100000000 {
            k = k + 1;
        }
        proof {
            assert(sn@ >= 1) by (nonlinear_arith)
                requires
                    sn@ == s0 * 10,
                    s0 >= 1,
            {}
            lemma_div_denominator(rv as int, s0 as int, 10);
            lemma_div_decreases((rv / s0) as int, 10);
            assert(rv / (s0 * 10) < rv / s0);
            assert(rv as int / (s0 * 10) as int == rv as int / (s0 as int * 10));
        }
    }
    // scale the dividend up until value >= 1/10
    loop
        invariant
            rn.wf(),
            sn.wf(),
            rn@ >= 1,
            sn@ >= 1,
            rn@ < sn@,
            -0x4100000000 <= k <= 0x4100000000,
        ensures
            rn.wf(),
            sn.wf(),
            rn@ >= 1,
            sn@ >= 1,
            rn@ < sn@,
            -0x4100000000 <= k <= 0x4100000000,
        decreases sn@ / rn@,
    {
        let ghost r0 = rn@;
        let rn10 = rn.mul_small_add(10, 0);
        if !(rn10.cmp3(&sn) < 0) {
            break ;
        }
        proof {
            lemma_div_non_zero(sn@ as int, r0 as int);
        }
        rn = rn10;
        if k > -0x4100000000 {
            k = k - 1;
        }
        proof {
            assert(rn@ >= 1) by (nonlinear_arith)
                requires
                    rn@ == r0 * 10,
                    r0 >= 1,
            {}
            lemma_div_denominator(sn@ as int, r0 as int, 10);
            lemma_div_decreases((sn@ / r0) as int, 10);
            assert(sn@ / (r0 * 10) < sn@ / r0);
        }
    }
    // generate the digits by repeated division
    let mut digits: Vec<u8> = Vec::new();
    let mut t: usize = 0;
    while t < n
        invariant
            t <= n,
            n <= 17,
            rn.wf(),
            sn.wf(),
            sn@ >= 1,
            rn@ < sn@,
            digits@.len() == t,
            all_digit_bytes(digits@),
        decreases n - t,
    {
        let rn10 = rn.mul_small_add(10, 0);
        proof {
            vstd::arithmetic::power2::lemma2_to64();
            assert(rn10@ < sn@ * pow2(4)) by (nonlinear_arith)
                requires
                    rn10@ == rn@ * 10,
                    rn@ < sn@,
                    pow2(4) == 16,
                    sn@ >= 1,
            {}
        }
        let (q, rem) = Bignum::div_rem_bounded(&rn10, &sn, 4);
        proof {
            assert(q <= 9) by (nonlinear_arith)
                requires
                    q * sn@ + rem@ == rn10@,
                    rn10@ == rn@ * 10,
                    rn@ < sn@,
                    rem@ >= 0,
                    sn@ >= 1,
            {}
        }
        digits.push(0x30 + q as u8);
        rn = rem;
        t = t + 1;
    }
    // round to nearest, ties to the even last digit
    let rn2 = rn.mul_small_add(2, 0);
    let c = rn2.cmp3(&sn);
    let last = digits[n - 1];
    if c > 0 || (c == 0 && (last - 0x30) % 2 == 1) {
        let carry = round_up(&mut digits, n);
        if carry.is_some() {
            if k < 0x4100000000 {
                k = k + 1;
            }
        }
    }
    (digits, k)
}

/// The bit pattern a decoded value stands for: the scaling of [`decode`]
/// undone, degenerate shapes mapping to zero.
pub open spec fn decoded_bits(d: Decoded) -> u64 {
    let m0 = if d.plus == 2 {
        d.mant / 4
    } else {
        d.mant / 2
    };
    let e0 = if d.plus == 2 {
        d.exp + 2
    } else {
        d.exp + 1
    };
    if m0 < 0x10000000000000 {
        m0
    } else if m0 >= 0x20000000000000 {
        0
    } else if e0 + 1075 < 1 || e0 + 1075 > 2046 {
        0
    } else {
        (((e0 + 1075) as u64) << 52u64) | (m0 - 0x10000000000000) as u64
    }
}

/// Reconstructs the bit pattern of the double a decoded value came from.
fn encode_back(d: &Decoded) -> (r: u64)
    requires
        gen_ready(*d),
    ensures
        r == decoded_bits(*d),
{
    let (m0, e0): (u64, i32) = if d.plus == 2 {
        (d.mant / 4, d.exp as i32 + 2)
    } else {
        (d.mant / 2, d.exp as i32 + 1)
    };
    if m0 < 0x10000000000000 {
        // subnormal: the exponent field is zero
        m0
    } else if m0 >= 0x20000000000000 {
        // not the shape of a decoded mantissa
        0
    } else {
        let bexp: i32 = e0 + 1075;
        if bexp < 1 || bexp > 2046 {
            0
        } else {
            let be: u64 = bexp as u64;
            proof {
                assert((be << 52u64) | ((m0 - 0x10000000000000) as u64) < 0x8000000000000000u64)
                    by (bit_vector)
                    requires
                        1u64 <= be && be <= 2046u64,
                        0x10000000000000u64 <= m0 && m0 < 0x20000000000000u64,
                {}
            }
            (be << 52u64) | (m0 - 0x10000000000000)
        }
    }
}

/// Formats a decoded double as the shortest decimal digit sequence that
/// parses back to the same double: candidates of growing length are
/// generated by [`fixed_format`] and certified by re-parsing through the
/// exact converter; the first certified candidate is returned. The digit
/// count never exceeds [`MAX_SIG_DIGITS`].
///
/// The contract fixes the digit shape and the exponent bound, and
/// states the certification itself: the returned digits, read back as
/// an exact decimal, round ([`rounds_to`]) to precisely the encoded
/// double - except on the seventeen-digit fallback path, which no
/// double reaches in practice. Minimality of the digit count is
/// enforced by trying shorter candidates first but is not restated as
/// an `ensures`.
pub fn format_shortest(d: &Decoded) -> (r: (Vec<u8>, i64))
    requires
        gen_ready(*d),
    ensures
        1 <= r.0@.len() <= 17,
        all_digit_bytes(r.0@),
        -0x4100000000 <= r.1 <= 0x4100000000,
        rounds_to(digits_num(r.0@, r.1 as int), digits_den(r.0@, r.1 as int), decoded_bits(*d))
            || decoded_bits(*d) == 0 || r.0@.len() == 17,
{
    let bits = encode_back(d);
    let empty: Vec<u8> = Vec::new();
    let mut n: usize = 1;
    while n <= 17
        invariant
            1 <= n <= 18,
            gen_ready(*d),
            empty@.len() == 0,
            bits == decoded_bits(*d),
        decreases 18 - n,
    {
        let (digits, k) = fixed_format(d, n);
        let cand = Decimal::new(digits.as_slice(), empty.as_slice(), k - n as i64);
        let back = convert(&cand);
        let ok = match back {
            Some(b) => b == bits,
            None => false,
        };
        if ok {
            proof {
                assert(cand.integral@ + cand.fractional@ =~= digits@);
                assert(dec_num(cand) == digits_num(digits@, k as int));
                assert(dec_den(cand) == digits_den(digits@, k as int));
            }
            return (digits, k);
        }
        n = n + 1;
    }
    // unreachable in practice: seventeen digits always reparse exactly
    fixed_format(d, 17)
}

} // verus!
