//! Conversion of a scanned decimal literal into the nearest IEEE-754
//! double, correctly rounded with ties to the even mantissa, by exact
//! big-integer arithmetic: the decimal value and the rounding boundaries
//! are scaled to comparable integers and compared exactly.

use vstd::prelude::*;

use vstd::arithmetic::div_mod::lemma_div_decreases;
use vstd::arithmetic::div_mod::lemma_div_denominator;
use vstd::arithmetic::div_mod::lemma_div_non_zero;
use vstd::arithmetic::power2::pow2;
use crate::bignum::Bignum;
use crate::bignum::lemma_pow10_adds;
use crate::bignum::lemma_pow10_pos;
use crate::bignum::pow10;

verus! {

/// Whether every byte of `s` is an ASCII decimal digit.
pub open spec fn all_digit_bytes(s: Seq<u8>) -> bool {
    forall|i: int| 0 <= i < s.len() ==> 0x30 <= #[trigger] s[i] <= 0x39
}

/// Whether every byte of `s` is the digit zero.
pub open spec fn all_zero_bytes(s: Seq<u8>) -> bool {
    forall|i: int| 0 <= i < s.len() ==> #[trigger] s[i] == 0x30
}

/// The interesting parts of a decimal literal: the integral and
/// fractional digit runs, and the decimal exponent.
pub struct Decimal<'a> {
    pub integral: &'a [u8],
    pub fractional: &'a [u8],
    /// The decimal exponent, with fewer than 18 decimal digits.
    pub exp: i64,
}

impl<'a> Decimal<'a> {
    /// Bundles the parts of a scanned decimal literal.
    pub fn new(integral: &'a [u8], fractional: &'a [u8], exp: i64) -> (r: Decimal<'a>)
        ensures
            r.integral@ == integral@,
            r.fractional@ == fractional@,
            r.exp == exp,
    {
        Decimal { integral, fractional, exp }
    }
}

/// The position of the first non-zero digit byte, or the length when all
/// are zero.
pub open spec fn first_nonzero(s: Seq<u8>) -> int
    decreases s.len(),
{
    if s.len() == 0 {
        0
    } else if s[0] != 0x30 {
        0
    } else {
        1 + first_nonzero(s.skip(1))
    }
}

/// The power-of-ten position of the leading significant digit of a
/// literal: its value lies in `[10^(p-1), 10^p)`.
pub open spec fn leading_pow10(d: Decimal) -> int {
    let digs = d.integral@ + d.fractional@;
    digs.len() - first_nonzero(digs) + d.exp - d.fractional@.len()
}

/// The base-ten value of a run of ASCII digit bytes, most significant
/// digit first.
pub open spec fn dec_digits_val(s: Seq<u8>) -> nat
    recommends
        all_digit_bytes(s),
    decreases s.len(),
{
    if s.len() == 0 {
        0
    } else {
        (dec_digits_val(s.drop_last()) * 10 + (s.last() - 0x30)) as nat
    }
}

/// The power of ten that scales the digit run of a literal: the exponent
/// re-based to the last written digit.
pub open spec fn dec_exp10(d: Decimal) -> int {
    d.exp - d.fractional@.len()
}

/// The numerator of the exact rational value of a literal.
pub open spec fn dec_num(d: Decimal) -> nat {
    if dec_exp10(d) >= 0 {
        dec_digits_val(d.integral@ + d.fractional@) * pow10(dec_exp10(d) as nat)
    } else {
        dec_digits_val(d.integral@ + d.fractional@)
    }
}

/// The denominator of the exact rational value of a literal.
pub open spec fn dec_den(d: Decimal) -> nat {
    if dec_exp10(d) >= 0 {
        1
    } else {
        pow10((-dec_exp10(d)) as nat)
    }
}

/// The numerator of the exact rational denoted by the digit run `ds`
/// with its leading digit at power-of-ten position `k`.
pub open spec fn digits_num(ds: Seq<u8>, k: int) -> nat {
    if k - ds.len() >= 0 {
        dec_digits_val(ds) * pow10((k - ds.len()) as nat)
    } else {
        dec_digits_val(ds)
    }
}

/// The denominator of the exact rational denoted by the digit run `ds`
/// with its leading digit at power-of-ten position `k`.
pub open spec fn digits_den(ds: Seq<u8>, k: int) -> nat {
    if k - ds.len() >= 0 {
        1
    } else {
        pow10((ds.len() - k) as nat)
    }
}

/// Whether `bits` is the pattern of a finite, non-negative double.
pub open spec fn finite_bits(bits: u64) -> bool {
    bits < 0x7FF0000000000000
}

/// Converts a scanned literal to the bit pattern of the nearest double
/// magnitude, `None` meaning overflow past the largest finite double
/// (which the float codec treats as a parse failure).
///
/// A literal whose leading significant digit sits above the
/// `10^310` position overflows; one whose digits sit entirely below the
/// `10^-340` position underflows to zero; in between, the result is
/// computed exactly and rounded to the nearest representable double,
/// ties to the even mantissa.
///
/// The contract pins everything: the zero and band outcomes, that
/// `None` comes only past the band or past the overflow boundary of the
/// exact value, and that any returned pattern satisfies [`rounds_to`] -
/// it is the round-to-nearest, ties-to-even double of the literal's
/// exact rational value (or the documented band zero).
pub fn convert(d: &Decimal) -> (r: Option<u64>)
    requires
        all_digit_bytes(d.integral@),
        all_digit_bytes(d.fractional@),
        d.integral@.len() + d.fractional@.len() < 0x10000000,
        -0x16345785D8A0000 <= d.exp <= 0x16345785D8A0000,
    ensures
        all_zero_bytes(d.integral@ + d.fractional@) ==> r == Some(0u64),
        !all_zero_bytes(d.integral@ + d.fractional@) && leading_pow10(*d) > 310 ==> r is None,
        !all_zero_bytes(d.integral@ + d.fractional@) && leading_pow10(*d) < -340 ==> r == Some(
            0u64,
        ),
        r is Some ==> finite_bits(r->0),
        r matches Some(b) ==> rounds_to(dec_num(*d), dec_den(*d), b) || (b == 0
            && leading_pow10(*d) < -340),
        r is None ==> leading_pow10(*d) > 310 || overflows_f64(dec_num(*d), dec_den(*d)),
{
    let digs = Ghost((d.integral@ + d.fractional@));
    // collect the significant digits, skipping leading zeros
    let mut sig: Vec<u8> = Vec::new();
    let mut lead: usize = 0;
    let mut seen_nonzero = false;
    let ilen = d.integral.len();
    let flen = d.fractional.len();
    let mut i: usize = 0;
    while i < ilen
        invariant
            i <= ilen,
            ilen == d.integral@.len(),
            flen == d.fractional@.len(),
            ilen + flen < 0x10000000,
            digs@ == d.integral@ + d.fractional@,
            all_digit_bytes(d.integral@),
            all_digit_bytes(d.fractional@),
            all_digit_bytes(sig@),
            seen_nonzero == (first_nonzero(digs@.take(i as int)) < i),
            seen_nonzero ==> lead == first_nonzero(digs@.take(i as int)) && lead < i,
            !seen_nonzero ==> sig@.len() == 0 && first_nonzero(digs@.take(i as int)) == i,
            seen_nonzero ==> sig@ == digs@.subrange(lead as int, i as int),
        decreases ilen - i,
    {
        let b = d.integral[i];
        proof {
            assert(digs@[i as int] == b);
            lemma_first_nonzero_step(digs@, i as int);
        }
        if b != 0x30 && !seen_nonzero {
            seen_nonzero = true;
            lead = i;
        }
        if seen_nonzero {
            sig.push(b);
            proof {
                assert(digs@.subrange(lead as int, i + 1) =~= digs@.subrange(lead as int, i as int)
                    + seq![b]);
                assert(sig@ =~= digs@.subrange(lead as int, i + 1));
            }
        }
        i = i + 1;
    }
    let mut j: usize = 0;
    while j < flen
        invariant
            j <= flen,
            ilen == d.integral@.len(),
            flen == d.fractional@.len(),
            ilen + flen < 0x10000000,
            digs@ == d.integral@ + d.fractional@,
            all_digit_bytes(d.integral@),
            all_digit_bytes(d.fractional@),
            all_digit_bytes(sig@),
            seen_nonzero == (first_nonzero(digs@.take(ilen + j)) < ilen + j),
            seen_nonzero ==> lead == first_nonzero(digs@.take(ilen + j)) && lead < ilen + j,
            !seen_nonzero ==> sig@.len() == 0 && first_nonzero(digs@.take(ilen + j)) == ilen + j,
            seen_nonzero ==> sig@ == digs@.subrange(lead as int, ilen + j),
        decreases flen - j,
    {
        let b = d.fractional[j];
        proof {
            assert(digs@[ilen + j] == b);
            lemma_first_nonzero_step(digs@, ilen + j);
        }
        if b != 0x30 && !seen_nonzero {
            seen_nonzero = true;
            lead = ilen + j;
        }
        if seen_nonzero {
            sig.push(b);
            proof {
                assert(digs@.subrange(lead as int, ilen + j + 1) =~= digs@.subrange(
                    lead as int,
                    ilen + j,
                ) + seq![b]);
                assert(sig@ =~= digs@.subrange(lead as int, ilen + j + 1));
            }
        }
        j = j + 1;
    }
    proof {
        assert(digs@.take(ilen + flen) =~= digs@);
        lemma_first_nonzero_all_zero(digs@);
    }
    if !seen_nonzero {
        proof {
            lemma_all_zero_val(digs@);
            lemma_dec_zero_rounds(*d);
        }
        return Some(0);
    }
    // drop trailing zeros into the exponent
    let ghost sig0 = sig@;
    let mut trail: usize = 0;
    proof {
        assert(dec_digits_val(sig0) * pow10(0) == dec_digits_val(sig0)) by (nonlinear_arith)
            requires
                pow10(0) == 1,
        {}
    }
    while sig.len() > 0 && sig[sig.len() - 1] == 0x30
        invariant
            all_digit_bytes(sig@),
            lead <= digs@.len(),
            digs@.len() < 0x10000000,
            sig@.len() + trail == digs@.len() - lead,
            digs@ == d.integral@ + d.fractional@,
            flen == d.fractional@.len(),
            lead == first_nonzero(digs@),
            !all_zero_bytes(digs@),
            dec_digits_val(sig0) == dec_digits_val(sig@) * pow10(trail as nat),
        decreases sig@.len(),
    {
        proof {
            assert(all_digit_bytes(sig@.drop_last()));
            assert(dec_digits_val(sig@) == dec_digits_val(sig@.drop_last()) * 10 + (sig@.last()
                - 0x30));
            assert(pow10((trail + 1) as nat) == pow10(trail as nat) * 10);
            assert(dec_digits_val(sig0) == dec_digits_val(sig@.drop_last()) * pow10(
                (trail + 1) as nat,
            )) by (nonlinear_arith)
                requires
                    dec_digits_val(sig0) == dec_digits_val(sig@) * pow10(trail as nat),
                    dec_digits_val(sig@) == dec_digits_val(sig@.drop_last()) * 10,
                    pow10((trail + 1) as nat) == pow10(trail as nat) * 10,
            {}
        }
        sig.pop();
        trail = trail + 1;
    }
    // the exponent of the last kept digit, and the leading position
    let e10: i128 = d.exp as i128 - flen as i128 + trail as i128;
    let k10: i128 = sig.len() as i128 + e10;
    proof {
        assert(k10 == leading_pow10(*d));
    }
    if k10 > 310 {
        return None;
    }
    if k10 < -340 {
        return Some(0);
    }
    if sig.len() == 0 {
        proof {
            lemma_first_nonzero_prefix(digs@);
            lemma_strip_leading_zeros(digs@, lead as int);
            assert(digs@.skip(lead as int) =~= sig0);
            assert(dec_digits_val(digs@) == 0) by (nonlinear_arith)
                requires
                    dec_digits_val(digs@) == dec_digits_val(sig@) * pow10(trail as nat),
                    dec_digits_val(sig@) == 0,
            {}
            lemma_dec_zero_rounds(*d);
        }
        return Some(0);
    }
    // exact value: sig * 10^e10 == num / den
    let mut dnum = Bignum::from_u64(0);
    let mut t: usize = 0;
    let slen = sig.len();
    proof {
        assert(sig@.take(0) =~= Seq::<u8>::empty());
    }
    while t < slen
        invariant
            t <= slen,
            slen == sig@.len(),
            all_digit_bytes(sig@),
            dnum.wf(),
            dnum@ == dec_digits_val(sig@.take(t as int)),
        decreases slen - t,
    {
        proof {
            assert(sig@.take(t + 1).drop_last() =~= sig@.take(t as int));
            assert(sig@.take(t + 1).last() == sig@[t as int]);
        }
        dnum = dnum.mul_small_add(10, (sig[t] - 0x30) as u64);
        t = t + 1;
    }
    proof {
        assert(sig@.take(slen as int) =~= sig@);
        // bridge the trimmed digits back to the whole literal's value
        lemma_first_nonzero_prefix(digs@);
        lemma_strip_leading_zeros(digs@, lead as int);
        assert(digs@.skip(lead as int) =~= sig0);
        assert(e10 == dec_exp10(*d) + trail);
        assert(-0x10000000 - 341 < e10);
    }
    let ghost nv = dec_digits_val(digs@);
    let ghost sv = dnum@;
    if e10 >= 0 {
        // e10 <= k10 <= 310
        let num = dnum.mul_pow10(e10 as usize);
        let den = Bignum::from_u64(1);
        proof {
            assert(0 <= e10 <= 310);
            assert(((e10 as usize) as nat) == e10);
            if dec_exp10(*d) >= 0 {
                lemma_pow10_adds(trail as nat, dec_exp10(*d) as nat);
                assert(num@ * dec_den(*d) == dec_num(*d) * den@) by (nonlinear_arith)
                    requires
                        num@ == sv * pow10(e10 as nat),
                        den@ == 1,
                        dec_den(*d) == 1,
                        dec_num(*d) == nv * pow10(dec_exp10(*d) as nat),
                        nv == sv * pow10(trail as nat),
                        pow10(e10 as nat) == pow10(trail as nat) * pow10(dec_exp10(*d) as nat),
                {}
            } else {
                lemma_pow10_adds(e10 as nat, (-dec_exp10(*d)) as nat);
                assert(num@ * dec_den(*d) == dec_num(*d) * den@) by (nonlinear_arith)
                    requires
                        num@ == sv * pow10(e10 as nat),
                        den@ == 1,
                        dec_den(*d) == pow10((-dec_exp10(*d)) as nat),
                        dec_num(*d) == nv,
                        nv == sv * pow10(trail as nat),
                        pow10(trail as nat) == pow10(e10 as nat) * pow10(
                            (-dec_exp10(*d)) as nat,
                        ),
                {}
            }
            crate::bignum::lemma_pow10_pos((-dec_exp10(*d)) as nat);
        }
        let r = convert_core(&num, &den);
        proof {
            assert(dec_den(*d) >= 1);
            if r is None {
                lemma_overflow_transfer(num@, den@, dec_num(*d), dec_den(*d));
            }
            if r is Some {
                lemma_rounds_to_transfer(num@, den@, dec_num(*d), dec_den(*d), r->0);
            }
        }
        r
    } else {
        // -e10 == slen - k10 <= slen + 340
        proof {
            assert(0 < -e10 < 0x10000000 + 341);
        }
        let sh = (-e10) as usize;
        let den = Bignum::from_u64(1).mul_pow10(sh);
        proof {
            crate::bignum::lemma_pow10_pos(sh as nat);
            assert(den@ >= 1 && den@ == pow10(sh as nat)) by (nonlinear_arith)
                requires
                    den@ == 1 * pow10(sh as nat),
                    pow10(sh as nat) >= 1,
            {}
            assert((sh as nat) == -e10);
            assert(dec_exp10(*d) < 0);
            lemma_pow10_adds(trail as nat, (-e10) as nat);
            assert(((-dec_exp10(*d)) as nat) == trail + ((-e10) as nat));
            assert(dnum@ * dec_den(*d) == dec_num(*d) * den@) by (nonlinear_arith)
                requires
                    den@ == pow10((-e10) as nat),
                    dec_den(*d) == pow10(((-dec_exp10(*d))) as nat),
                    pow10(((-dec_exp10(*d))) as nat) == pow10(trail as nat) * pow10(
                        (-e10) as nat,
                    ),
                    dec_num(*d) == nv,
                    nv == dnum@ * pow10(trail as nat),
            {}
            crate::bignum::lemma_pow10_pos(((-dec_exp10(*d))) as nat);
        }
        let r = convert_core(&dnum, &den);
        proof {
            assert(dec_den(*d) >= 1);
            if r is None {
                lemma_overflow_transfer(dnum@, den@, dec_num(*d), dec_den(*d));
            }
            if r is Some {
                lemma_rounds_to_transfer(dnum@, den@, dec_num(*d), dec_den(*d), r->0);
            }
        }
        r
    }
}

/// The first non-zero digit position, advanced one step.
proof fn lemma_first_nonzero_step(s: Seq<u8>, i: int)
    requires
        0 <= i < s.len(),
        first_nonzero(s.take(i)) >= i ==> first_nonzero(s.take(i)) == i,
    ensures
        s[i] != 0x30 && first_nonzero(s.take(i)) == i ==> first_nonzero(s.take(i + 1)) == i,
        s[i] == 0x30 && first_nonzero(s.take(i)) == i ==> first_nonzero(s.take(i + 1)) == i + 1,
        first_nonzero(s.take(i)) < i ==> first_nonzero(s.take(i + 1)) == first_nonzero(s.take(i)),
    decreases i,
{
    reveal_with_fuel(first_nonzero, 3);
    if i == 0 {
        assert(s.take(1)[0] == s[0]);
        if s[0] == 0x30 {
            assert(s.take(1).skip(1) =~= Seq::<u8>::empty());
        }
    } else {
        assert(s.take(i + 1)[0] == s[0]);
        assert(s.take(i)[0] == s[0]);
        if s[0] != 0x30 {
            assert(first_nonzero(s.take(i)) == 0);
            assert(first_nonzero(s.take(i + 1)) == 0);
        } else {
            assert(s.take(i).skip(1) =~= s.skip(1).take(i - 1));
            assert(s.take(i + 1).skip(1) =~= s.skip(1).take(i));
            assert(s.skip(1)[i - 1] == s[i]);
            lemma_first_nonzero_step(s.skip(1), i - 1);
        }
    }
}

/// When the first non-zero position is the length, every digit is zero,
/// and the other way round.
proof fn lemma_first_nonzero_all_zero(s: Seq<u8>)
    ensures
        (first_nonzero(s) == s.len()) <==> all_zero_bytes(s),
        first_nonzero(s) <= s.len(),
    decreases s.len(),
{
    reveal_with_fuel(first_nonzero, 3);
    if s.len() > 0 {
        lemma_first_nonzero_all_zero(s.skip(1));
        if s[0] == 0x30 {
            assert(forall|k: int|
                1 <= k < s.len() && s.skip(1)[k - 1] == 0x30 ==> #[trigger] s[k] == 0x30);
            if all_zero_bytes(s.skip(1)) {
                assert(all_zero_bytes(s));
            }
            if all_zero_bytes(s) {
                assert(forall|k: int|
                    0 <= k < s.skip(1).len() ==> #[trigger] s.skip(1)[k] == s[k + 1]);
                assert(all_zero_bytes(s.skip(1)));
            }
        }
    }
}

/// Whether the positive rational `num / den` lies at or past the
/// round-to-nearest boundary beyond the largest finite double, so that
/// rounding it gives infinity: `num / den >= (2^54 - 1) * 2^970`.
pub open spec fn overflows_f64(num: nat, den: nat) -> bool {
    2 * num >= 0x3FFFFFFFFFFFFF * pow2(971) * den
}

/// Every digit before the first non-zero one is a zero.
proof fn lemma_first_nonzero_prefix(s: Seq<u8>)
    ensures
        forall|i: int| 0 <= i < first_nonzero(s) && i < s.len() ==> s[i] == 0x30,
    decreases s.len(),
{
    if s.len() > 0 && s[0] == 0x30 {
        lemma_first_nonzero_prefix(s.skip(1));
        assert(forall|i: int|
            1 <= i < first_nonzero(s) && i < s.len() ==> #[trigger] s[i] == s.skip(1)[i - 1]);
    }
}

/// A leading zero does not change the value of a digit run.
proof fn lemma_strip_one_zero(s: Seq<u8>)
    requires
        s.len() >= 1,
        s[0] == 0x30,
    ensures
        dec_digits_val(s) == dec_digits_val(s.skip(1)),
    decreases s.len(),
{
    if s.len() == 1 {
        assert(s.drop_last() =~= Seq::<u8>::empty());
        assert(s.skip(1) =~= Seq::<u8>::empty());
    } else {
        assert(s.drop_last()[0] == s[0]);
        lemma_strip_one_zero(s.drop_last());
        assert(s.skip(1).drop_last() =~= s.drop_last().skip(1));
        assert(s.skip(1).last() == s.last());
    }
}

/// Leading zeros do not change the value of a digit run.
proof fn lemma_strip_leading_zeros(s: Seq<u8>, k: int)
    requires
        0 <= k <= s.len(),
        forall|i: int| 0 <= i < k ==> s[i] == 0x30,
    ensures
        dec_digits_val(s) == dec_digits_val(s.skip(k)),
    decreases k,
{
    if k == 0 {
        assert(s.skip(0) =~= s);
    } else {
        assert(s[0] == 0x30);
        lemma_strip_one_zero(s);
        assert(forall|i: int|
            0 <= i < k - 1 ==> #[trigger] s.skip(1)[i] == s[i + 1]);
        lemma_strip_leading_zeros(s.skip(1), k - 1);
        assert(s.skip(1).skip(k - 1) =~= s.skip(k));
    }
}

/// All-zero digit runs have value zero.
proof fn lemma_all_zero_val(s: Seq<u8>)
    requires
        all_zero_bytes(s),
    ensures
        dec_digits_val(s) == 0,
    decreases s.len(),
{
    if s.len() > 0 {
        assert(all_zero_bytes(s.drop_last()));
        lemma_all_zero_val(s.drop_last());
        assert(s.last() == 0x30);
    }
}

/// A literal whose digits have value zero rounds to the zero pattern.
proof fn lemma_dec_zero_rounds(d: Decimal)
    requires
        dec_digits_val(d.integral@ + d.fractional@) == 0,
    ensures
        rounds_to(dec_num(d), dec_den(d), 0u64),
{
    if dec_exp10(d) >= 0 {
        crate::bignum::lemma_pow10_pos(dec_exp10(d) as nat);
        assert(dec_num(d) == 0) by (nonlinear_arith)
            requires
                dec_num(d) == 0 * pow10(dec_exp10(d) as nat),
        {}
    } else {
        crate::bignum::lemma_pow10_pos((-dec_exp10(d)) as nat);
    }
    lemma_rounds_to_zero(dec_den(d));
}

/// The overflow boundary carries across equal rationals.
proof fn lemma_overflow_transfer(n1: nat, d1: nat, n2: nat, d2: nat)
    requires
        overflows_f64(n1, d1),
        n1 * d2 == n2 * d1,
        d1 >= 1,
        d2 >= 1,
    ensures
        overflows_f64(n2, d2),
{
    vstd::arithmetic::power2::lemma_pow2_pos(971);
    assert(2 * n2 >= 0x3FFFFFFFFFFFFF * pow2(971) * d2) by (nonlinear_arith)
        requires
            2 * n1 >= 0x3FFFFFFFFFFFFF * pow2(971) * d1,
            n1 * d2 == n2 * d1,
            d1 >= 1,
            d2 >= 1,
            pow2(971) >= 1,
    {}
}

/// The significand the bit pattern `bits` encodes: the fraction field,
/// with the hidden bit added outside the subnormal range.
pub open spec fn f64_sig(bits: u64) -> nat {
    if (bits >> 52) & 0x7FF == 0 {
        (bits & 0xFFFFFFFFFFFFF) as nat
    } else {
        ((bits & 0xFFFFFFFFFFFFF) + 0x10000000000000) as nat
    }
}

/// The binary exponent the bit pattern `bits` encodes, shifted up by 1074
/// so that it is never negative: the value of `bits` is
/// `f64_sig(bits) * 2^(f64_pos_exp(bits) - 1074)`.
pub open spec fn f64_pos_exp(bits: u64) -> nat {
    if (bits >> 52) & 0x7FF == 0 {
        0
    } else {
        (((bits >> 52) & 0x7FF) - 1) as nat
    }
}

/// Whether `bits` is the round-to-nearest, ties-to-even double of the
/// positive rational `num / den`. Everything is scaled by
/// `den * 2^1074` so the statement is pure integer arithmetic: with
/// `x2 = 2 * num * 2^1074` (twice the scaled rational), `v2` twice the
/// scaled value of `bits` and `u` one scaled unit in the last place, the
/// rational lies within half an ulp of the value, ties falling on an
/// even significand. At the bottom of a binade (`sig == 2^52`) the gap
/// below is only half an ulp wide, so there the lower reach is a
/// quarter ulp; this makes the characterization unique for every
/// in-range rational.
pub open spec fn rounds_to(num: nat, den: nat, bits: u64) -> bool {
    let m = f64_sig(bits);
    let e = f64_pos_exp(bits);
    let x2 = 2 * num * pow2(1074);
    let v2 = 2 * (m * pow2(e) * den);
    let u = pow2(e) * den;
    &&& finite_bits(bits)
    &&& x2 <= v2 + u
    &&& (x2 == v2 + u ==> m % 2 == 0)
    &&& if m == 0x10000000000000 && e > 0 {
        2 * v2 <= 2 * x2 + u
    } else {
        v2 <= x2 + u && (v2 == x2 + u ==> m % 2 == 0)
    }
}

/// A zero rational rounds to the zero pattern.
proof fn lemma_rounds_to_zero(den: nat)
    requires
        den >= 1,
    ensures
        rounds_to(0, den, 0u64),
{
    assert((0u64 >> 52u64) & 0x7FFu64 == 0u64 && 0u64 & 0xFFFFFFFFFFFFFu64 == 0u64)
        by (bit_vector);
    vstd::arithmetic::power2::lemma_pow2_pos(0);
    assert(2 * 0 * pow2(1074) == 0) by (nonlinear_arith);
    assert(2 * (0 * pow2(0) * den) == 0) by (nonlinear_arith);
    assert(pow2(0) * den >= 1) by (nonlinear_arith)
        requires
            pow2(0) >= 1,
            den >= 1,
    {}
}

/// Rounding carries across equal rationals.
proof fn lemma_rounds_to_transfer(n1: nat, d1: nat, n2: nat, d2: nat, bits: u64)
    requires
        rounds_to(n1, d1, bits),
        n1 * d2 == n2 * d1,
        d1 >= 1,
        d2 >= 1,
    ensures
        rounds_to(n2, d2, bits),
{
    let m = f64_sig(bits);
    let e = f64_pos_exp(bits);
    vstd::arithmetic::power2::lemma_pow2_pos(e);
    vstd::arithmetic::power2::lemma_pow2_pos(1074);
    assert(2 * n2 * pow2(1074) <= 2 * (m * pow2(e) * d2) + pow2(e) * d2) by (nonlinear_arith)
        requires
            2 * n1 * pow2(1074) <= 2 * (m * pow2(e) * d1) + pow2(e) * d1,
            n1 * d2 == n2 * d1,
            d1 >= 1,
            d2 >= 1,
    {}
    if 2 * n2 * pow2(1074) == 2 * (m * pow2(e) * d2) + pow2(e) * d2 {
        assert(2 * n1 * pow2(1074) == 2 * (m * pow2(e) * d1) + pow2(e) * d1)
            by (nonlinear_arith)
            requires
                2 * n1 * pow2(1074) <= 2 * (m * pow2(e) * d1) + pow2(e) * d1,
                2 * n2 * pow2(1074) == 2 * (m * pow2(e) * d2) + pow2(e) * d2,
                n1 * d2 == n2 * d1,
                d1 >= 1,
                d2 >= 1,
        {}
    }
    if m == 0x10000000000000 && e > 0 {
        assert(2 * (2 * (m * pow2(e) * d2)) <= 2 * (2 * n2 * pow2(1074)) + pow2(e) * d2)
            by (nonlinear_arith)
            requires
                2 * (2 * (m * pow2(e) * d1)) <= 2 * (2 * n1 * pow2(1074)) + pow2(e) * d1,
                n1 * d2 == n2 * d1,
                d1 >= 1,
                d2 >= 1,
        {}
    } else {
        assert(2 * (m * pow2(e) * d2) <= 2 * n2 * pow2(1074) + pow2(e) * d2)
            by (nonlinear_arith)
            requires
                2 * (m * pow2(e) * d1) <= 2 * n1 * pow2(1074) + pow2(e) * d1,
                n1 * d2 == n2 * d1,
                d1 >= 1,
                d2 >= 1,
        {}
        if 2 * (m * pow2(e) * d2) == 2 * n2 * pow2(1074) + pow2(e) * d2 {
            assert(2 * (m * pow2(e) * d1) == 2 * n1 * pow2(1074) + pow2(e) * d1)
                by (nonlinear_arith)
                requires
                    2 * (m * pow2(e) * d1) <= 2 * n1 * pow2(1074) + pow2(e) * d1,
                    2 * (m * pow2(e) * d2) == 2 * n2 * pow2(1074) + pow2(e) * d2,
                    n1 * d2 == n2 * d1,
                    d1 >= 1,
                    d2 >= 1,
            {}
        }
    }
}

/// Shifts a scaled inequality to another pair of exponents with the same
/// difference: from `x * 2^a <= y * 2^b` and `a + d == b + c` follows
/// `x * 2^c <= y * 2^d`.
proof fn lemma_pow2_shift_le(x: nat, y: nat, a: nat, b: nat, c: nat, d: nat)
    requires
        x * pow2(a) <= y * pow2(b),
        a + d == b + c,
    ensures
        x * pow2(c) <= y * pow2(d),
{
    vstd::arithmetic::power2::lemma_pow2_adds(a, d);
    vstd::arithmetic::power2::lemma_pow2_adds(b, c);
    vstd::arithmetic::power2::lemma_pow2_adds(c, d);
    vstd::arithmetic::power2::lemma_pow2_pos(a);
    vstd::arithmetic::power2::lemma_pow2_pos(b);
    vstd::arithmetic::power2::lemma_pow2_pos(c);
    vstd::arithmetic::power2::lemma_pow2_pos(d);
    assert((x * pow2(c)) * pow2(a + d) == (x * pow2(a)) * (pow2(c) * pow2(d)))
        by (nonlinear_arith)
        requires
            pow2(a + d) == pow2(a) * pow2(d),
    {}
    assert((y * pow2(d)) * pow2(a + d) == (y * pow2(b)) * (pow2(c) * pow2(d)))
        by (nonlinear_arith)
        requires
            pow2(a + d) == pow2(b) * pow2(c),
    {}
    assert((x * pow2(a)) * (pow2(c) * pow2(d)) <= (y * pow2(b)) * (pow2(c) * pow2(d)))
        by (nonlinear_arith)
        requires
            x * pow2(a) <= y * pow2(b),
    {}
    vstd::arithmetic::power2::lemma_pow2_pos(a + d);
    assert(x * pow2(c) <= y * pow2(d)) by (nonlinear_arith)
        requires
            (x * pow2(c)) * pow2(a + d) <= (y * pow2(d)) * pow2(a + d),
            pow2(a + d) >= 1,
    {}
}

/// The equality form of [`lemma_pow2_shift_le`].
proof fn lemma_pow2_shift_eq(x: nat, y: nat, a: nat, b: nat, c: nat, d: nat)
    requires
        a + d == b + c,
    ensures
        x * pow2(a) == y * pow2(b) ==> x * pow2(c) == y * pow2(d),
        x * pow2(c) == y * pow2(d) ==> x * pow2(a) == y * pow2(b),
{
    if x * pow2(a) == y * pow2(b) {
        lemma_pow2_shift_le(x, y, a, b, c, d);
        lemma_pow2_shift_le(y, x, b, a, d, c);
    }
    if x * pow2(c) == y * pow2(d) {
        lemma_pow2_shift_le(x, y, c, d, a, b);
        lemma_pow2_shift_le(y, x, d, c, b, a);
    }
}

/// The rounding performed by the converter's division meets
/// [`rounds_to`]: `q` and `remv` come from dividing the scaled rational,
/// `up` is the nearest/ties-even decision, and `bits` encodes the
/// resulting significand and binade.
#[verifier::rlimit(100)]
proof fn lemma_core_rounds_to(
    num: nat,
    den: nat,
    a: nat,
    b: nat,
    q: nat,
    remv: nat,
    up: bool,
    renorm: bool,
    bits: u64,
)
    requires
        den >= 1,
        q * (den * pow2(b)) + remv == num * pow2(a),
        remv < den * pow2(b),
        up == (2 * remv > den * pow2(b) || (2 * remv == den * pow2(b) && q % 2 == 1)),
        renorm == (up && q + 1 == 0x20000000000000),
        f64_sig(bits) == (if renorm {
            0x10000000000000nat
        } else if up {
            q + 1
        } else {
            q
        }),
        f64_pos_exp(bits) + (if renorm {
            a + 1
        } else {
            a
        }) == b + 1074 + (if renorm {
            2nat
        } else {
            0nat
        }),
        finite_bits(bits),
        f64_pos_exp(bits) > 0 && !renorm ==> q >= 0x10000000000000,
        renorm ==> f64_pos_exp(bits) >= 1,
    ensures
        rounds_to(num, den, bits),
{
    let m = f64_sig(bits);
    let e = f64_pos_exp(bits);
    let sn = den * pow2(b);
    vstd::arithmetic::power2::lemma_pow2_pos(b);
    vstd::arithmetic::power2::lemma_pow2_pos(e);
    vstd::arithmetic::power2::lemma_pow2_pos(1074);
    assert(sn >= 1) by (nonlinear_arith)
        requires
            sn == den * pow2(b),
            den >= 1,
            pow2(b) >= 1,
    {}
    let u = pow2(e) * den;
    assert(u >= 1) by (nonlinear_arith)
        requires
            u == pow2(e) * den,
            den >= 1,
            pow2(e) >= 1,
    {}
    if !renorm {
        // e is the binade of the division: a + e == b + 1074
        assert(a + e == b + 1074);
        // upper reach: 2 num 2^a <= (2q+1) den 2^b, scaled to the e frame
        if !up {
            assert(2 * remv <= sn);
            assert((2 * num) * pow2(a) <= ((2 * q + 1) * den) * pow2(b)) by (nonlinear_arith)
                requires
                    q * (den * pow2(b)) + remv == num * pow2(a),
                    2 * remv <= den * pow2(b),
                    sn == den * pow2(b),
            {}
            lemma_pow2_shift_le(2 * num, (2 * q + 1) * den, a, b, 1074, e);
            assert(2 * num * pow2(1074) <= 2 * (m * pow2(e) * den) + pow2(e) * den)
                by (nonlinear_arith)
                requires
                    (2 * num) * pow2(1074) <= ((2 * q + 1) * den) * pow2(e),
                    m == q,
            {}
            // upper tie: equality forces an exact half, where q is even
            if 2 * num * pow2(1074) == 2 * (m * pow2(e) * den) + pow2(e) * den {
                assert((2 * num) * pow2(1074) == ((2 * q + 1) * den) * pow2(e))
                    by (nonlinear_arith)
                    requires
                        2 * num * pow2(1074) == 2 * (q * pow2(e) * den) + pow2(e) * den,
                        m == q,
                {}
                lemma_pow2_shift_eq(2 * num, (2 * q + 1) * den, 1074, e, a, b);
                assert(2 * remv == sn) by (nonlinear_arith)
                    requires
                        (2 * num) * pow2(a) == ((2 * q + 1) * den) * pow2(b),
                        q * (den * pow2(b)) + remv == num * pow2(a),
                        sn == den * pow2(b),
                {}
                assert(q % 2 == 0);
            }
            // lower reach: v <= x
            assert((q * den) * pow2(b) <= num * pow2(a)) by (nonlinear_arith)
                requires
                    q * (den * pow2(b)) + remv == num * pow2(a),
            {}
            lemma_pow2_shift_le(q * den, num, b, a, e, 1074);
            assert(2 * (m * pow2(e) * den) <= 2 * num * pow2(1074)) by (nonlinear_arith)
                requires
                    (q * den) * pow2(e) <= num * pow2(1074),
                    m == q,
            {}
            // with v <= x both lower clauses hold and their ties are vacuous
            assert(2 * (m * pow2(e) * den) <= 2 * num * pow2(1074) + pow2(e) * den);
            assert(2 * (2 * (m * pow2(e) * den)) <= 2 * (2 * num * pow2(1074)) + pow2(e) * den);
            if m * pow2(e) * den == 2 * num * pow2(1074) + pow2(e) * den {
                assert(false) by (nonlinear_arith)
                    requires
                        2 * (m * pow2(e) * den) <= 2 * num * pow2(1074),
                        m * pow2(e) * den == 2 * num * pow2(1074) + pow2(e) * den,
                        pow2(e) * den >= 1,
                {}
            }
            if 2 * (m * pow2(e) * den) == 2 * num * pow2(1074) + pow2(e) * den {
                assert(2 * remv == sn) by {
                    assert((2 * (q * den)) * pow2(e) == (2 * num) * pow2(1074) + den * pow2(e))
                        by (nonlinear_arith)
                        requires
                            2 * (m * pow2(e) * den) == 2 * num * pow2(1074) + pow2(e) * den,
                            m == q,
                    {}
                    assert(((2 * q) * den) * pow2(e) >= (2 * num) * pow2(1074))
                        by (nonlinear_arith)
                        requires
                            (2 * (q * den)) * pow2(e) == (2 * num) * pow2(1074) + den * pow2(e),
                    {}
                    lemma_pow2_shift_le(2 * q * den, 2 * num, e, 1074, b, a);
                    assert(false) by (nonlinear_arith)
                        requires
                            (2 * q * den) * pow2(b) <= (2 * num) * pow2(a),
                            q * (den * pow2(b)) + remv == num * pow2(a),
                            2 * remv <= den * pow2(b),
                            den * pow2(b) >= 1,
                            2 * (m * pow2(e) * den) <= 2 * num * pow2(1074),
                            2 * (m * pow2(e) * den) == 2 * num * pow2(1074) + pow2(e) * den,
                            pow2(e) * den >= 1,
                    {}
                }
            }
        } else {
            // rounded up: m == q + 1 (and not a carry into the next binade)
            assert(m == q + 1);
            assert(2 * remv >= sn);
            // upper: x <= v from remv < sn
            assert(num * pow2(a) <= ((q + 1) * den) * pow2(b)) by (nonlinear_arith)
                requires
                    q * (den * pow2(b)) + remv == num * pow2(a),
                    remv < den * pow2(b),
            {}
            lemma_pow2_shift_le(num, (q + 1) * den, a, b, 1074, e);
            assert(2 * num * pow2(1074) <= 2 * (m * pow2(e) * den)) by (nonlinear_arith)
                requires
                    num * pow2(1074) <= ((q + 1) * den) * pow2(e),
                    m == q + 1,
            {}
            assert(2 * num * pow2(1074) <= 2 * (m * pow2(e) * den) + pow2(e) * den);
            if 2 * num * pow2(1074) == 2 * (m * pow2(e) * den) + pow2(e) * den {
                assert(false) by (nonlinear_arith)
                    requires
                        2 * num * pow2(1074) <= 2 * (m * pow2(e) * den),
                        2 * num * pow2(1074) == 2 * (m * pow2(e) * den) + pow2(e) * den,
                        pow2(e) * den >= 1,
                {}
            }
            // lower: v <= x + u/2 from 2 remv >= sn
            assert(((2 * q + 1) * den) * pow2(b) <= (2 * num) * pow2(a)) by (nonlinear_arith)
                requires
                    q * (den * pow2(b)) + remv == num * pow2(a),
                    2 * remv >= den * pow2(b),
            {}
            lemma_pow2_shift_le((2 * q + 1) * den, 2 * num, b, a, e, 1074);
            assert(2 * (m * pow2(e) * den) <= 2 * num * pow2(1074) + pow2(e) * den)
                by (nonlinear_arith)
                requires
                    ((2 * q + 1) * den) * pow2(e) <= (2 * num) * pow2(1074),
                    m == q + 1,
            {}
            // quarter branch cannot arise: q >= 2^52 whenever e > 0
            if m == 0x10000000000000 && e > 0 {
                assert(false);
            }
            // lower tie forces an exact half, where q is odd, so m is even
            if 2 * (m * pow2(e) * den) == 2 * num * pow2(1074) + pow2(e) * den {
                assert(((2 * q + 1) * den) * pow2(e) == (2 * num) * pow2(1074))
                    by (nonlinear_arith)
                    requires
                        2 * (m * pow2(e) * den) == 2 * num * pow2(1074) + pow2(e) * den,
                        m == q + 1,
                {}
                lemma_pow2_shift_eq((2 * q + 1) * den, 2 * num, e, 1074, b, a);
                assert(2 * remv == sn) by (nonlinear_arith)
                    requires
                        ((2 * q + 1) * den) * pow2(b) == (2 * num) * pow2(a),
                        q * (den * pow2(b)) + remv == num * pow2(a),
                        sn == den * pow2(b),
                {}
                assert(q % 2 == 1);
                assert(m % 2 == 0) by (nonlinear_arith)
                    requires
                        m == q + 1,
                        q % 2 == 1,
                {}
            }
        }
    } else {
        // a carry reached 2^53: the result is the bottom of the next
        // binade, whose lower gap is half as wide
        assert(m == 0x10000000000000);
        assert(q == 0x1FFFFFFFFFFFFF);
        assert(a + (e - 1) == b + 1074);
        assert(e >= 1);
        // upper: x <= v
        assert(num * pow2(a) <= ((q + 1) * den) * pow2(b)) by (nonlinear_arith)
            requires
                q * (den * pow2(b)) + remv == num * pow2(a),
                remv < den * pow2(b),
        {}
        lemma_pow2_shift_le(num, (q + 1) * den, a, b, 1074, (e - 1) as nat);
        vstd::arithmetic::power2::lemma_pow2_unfold(e);
        assert(2 * num * pow2(1074) <= 2 * (m * pow2(e) * den)) by (nonlinear_arith)
            requires
                num * pow2(1074) <= ((q + 1) * den) * pow2((e - 1) as nat),
                q + 1 == 2 * m,
                pow2(e) == 2 * pow2((e - 1) as nat),
        {}
        assert(2 * num * pow2(1074) <= 2 * (m * pow2(e) * den) + pow2(e) * den);
        if 2 * num * pow2(1074) == 2 * (m * pow2(e) * den) + pow2(e) * den {
            assert(false) by (nonlinear_arith)
                requires
                    2 * num * pow2(1074) <= 2 * (m * pow2(e) * den),
                    2 * num * pow2(1074) == 2 * (m * pow2(e) * den) + pow2(e) * den,
                    pow2(e) * den >= 1,
            {}
        }
        // quarter lower: 2v <= 2x + u/... from 2 remv >= sn
        assert(up);
        assert(2 * remv >= sn);
        assert(((2 * q + 1) * den) * pow2(b) <= (2 * num) * pow2(a)) by (nonlinear_arith)
            requires
                q * (den * pow2(b)) + remv == num * pow2(a),
                2 * remv >= den * pow2(b),
        {}
        lemma_pow2_shift_le((2 * q + 1) * den, 2 * num, b, a, (e - 1) as nat, 1074);
        assert(2 * (2 * (m * pow2(e) * den)) <= 2 * (2 * num * pow2(1074)) + pow2(e) * den)
            by (nonlinear_arith)
            requires
                ((2 * q + 1) * den) * pow2((e - 1) as nat) <= (2 * num) * pow2(1074),
                q + 1 == 2 * m,
                pow2(e) == 2 * pow2((e - 1) as nat),
        {}
    }
}

/// Rounds the positive rational `num / den` to the nearest double
/// magnitude, ties to the even mantissa; `None` reports overflow past the
/// largest finite double, and is returned only for such overflow.
fn convert_core(num: &Bignum, den: &Bignum) -> (r: Option<u64>)
    requires
        num.wf(),
        den.wf(),
        den@ >= 1,
    ensures
        r is Some ==> finite_bits(r->0),
        r is Some ==> rounds_to(num@, den@, r->0),
        r is None ==> overflows_f64(num@, den@),
{
    // a hint for the binary exponent; every bound is re-checked below
    let bn = num.bit_len_estimate();
    let bd = den.bit_len_estimate();
    let mut k: i64 = bn as i64 - bd as i64 - 53;
    if k < -1074 {
        k = -1074;
    }
    if k > 972 {
        k = 972;
    }
    // scaled operands: rn / sn == (num / den) * 2^(-k), kept exact
    let (mut rn, mut sn): (Bignum, Bignum) = if k >= 0 {
        let sh = k as usize;
        let sn0 = den.shl_bits(sh);
        proof {
            vstd::arithmetic::power2::lemma_pow2_pos(sh as nat);
            assert(sn0@ >= 1) by (nonlinear_arith)
                requires
                    sn0@ == den@ * pow2(sh as nat),
                    den@ >= 1,
                    pow2(sh as nat) >= 1,
            {}
        }
        (num.duplicate(), sn0)
    } else {
        (num.shl_bits((-k) as usize), den.duplicate())
    };
    let ghost mut a: nat = if k >= 0 {
        0nat
    } else {
        (-k) as nat
    };
    let ghost mut b: nat = if k >= 0 {
        k as nat
    } else {
        0nat
    };
    proof {
        vstd::arithmetic::power2::lemma2_to64();
        assert(sn@ >= 1);
        assert(rn@ == num@ * pow2(a) && sn@ == den@ * pow2(b)) by (nonlinear_arith)
            requires
                (k >= 0 && a == 0 && b == k && rn@ == num@ * 1 && sn@ == den@ * pow2(b)) || (k < 0
                    && b == 0 && a == -k && rn@ == num@ * pow2(a) && sn@ == den@ * 1),
                pow2(0) == 1,
        {}
    }
    let ghost rv = rn@;
    // scale the divisor up until the quotient fits below 2^53
    loop
        invariant
            num.wf(),
            den.wf(),
            den@ >= 1,
            rn.wf(),
            sn.wf(),
            sn@ >= 1,
            rn@ == rv,
            rn@ == num@ * pow2(a),
            sn@ == den@ * pow2(b),
            -1074 <= k <= 972,
            k == b - a,
        ensures
            rn.wf(),
            sn.wf(),
            sn@ >= 1,
            rn@ == num@ * pow2(a),
            sn@ == den@ * pow2(b),
            -1074 <= k <= 972,
            k == b - a,
            rn@ < sn@ * pow2(53),
        decreases rv / sn@,
    {
        let t53 = sn.shl_bits(53);
        if t53.cmp3(&rn) > 0 {
            break ;
        }
        if k >= 972 {
            // already at the top binade: the value rounds past the range
            proof {
                vstd::arithmetic::power2::lemma2_to64_rest();
                assert(rn@ >= 0x20000000000000 * sn@);
                lemma_witness_overflow(num@, den@, a, b, 0x20000000000000, rn@, sn@, 972);
            }
            return None;
        }
        let ghost s0 = sn@;
        proof {
            vstd::arithmetic::power2::lemma_pow2_pos(53);
            assert(rv >= s0) by (nonlinear_arith)
                requires
                    rv >= s0 * pow2(53),
                    s0 >= 1,
                    pow2(53) >= 1,
            {}
            lemma_div_non_zero(rv as int, s0 as int);
        }
        sn = sn.mul_small_add(2, 0);
        k = k + 1;
        proof {
            b = b + 1;
            vstd::arithmetic::power2::lemma_pow2_unfold(b);
            assert(sn@ == den@ * pow2(b) && sn@ >= 1) by (nonlinear_arith)
                requires
                    sn@ == s0 * 2,
                    s0 == den@ * pow2((b - 1) as nat),
                    pow2(b) == 2 * pow2((b - 1) as nat),
                    s0 >= 1,
            {}
            lemma_div_denominator(rv as int, s0 as int, 2);
            lemma_div_decreases((rv / s0) as int, 2);
            assert(rv / (s0 * 2) < rv / s0);
        }
    }
    // scale the dividend up until the quotient reaches 2^52, or the
    // subnormal floor is hit
    loop
        invariant
            num.wf(),
            den.wf(),
            den@ >= 1,
            rn.wf(),
            sn.wf(),
            sn@ >= 1,
            rn@ == num@ * pow2(a),
            sn@ == den@ * pow2(b),
            -1074 <= k <= 972,
            k == b - a,
            rn@ < sn@ * pow2(53),
        ensures
            rn.wf(),
            sn.wf(),
            sn@ >= 1,
            rn@ == num@ * pow2(a),
            sn@ == den@ * pow2(b),
            -1074 <= k <= 972,
            k == b - a,
            rn@ < sn@ * pow2(53),
            rn@ >= sn@ * pow2(52) || k == -1074,
        decreases k + 1074,
    {
        let t52 = sn.shl_bits(52);
        if !(rn.cmp3(&t52) < 0) {
            break ;
        }
        if k <= -1074 {
            break ;
        }
        let ghost r0 = rn@;
        rn = rn.mul_small_add(2, 0);
        k = k - 1;
        proof {
            a = a + 1;
            vstd::arithmetic::power2::lemma_pow2_unfold(a);
            vstd::arithmetic::power2::lemma_pow2_unfold(53);
            assert(rn@ == num@ * pow2(a) && rn@ < sn@ * pow2(53)) by (nonlinear_arith)
                requires
                    rn@ == r0 * 2,
                    r0 == num@ * pow2((a - 1) as nat),
                    pow2(a) == 2 * pow2((a - 1) as nat),
                    r0 < sn@ * pow2(52),
                    pow2(53) == 2 * pow2(52),
            {}
        }
    }
    // one exact division now gives the candidate mantissa
    proof {
        vstd::arithmetic::power2::lemma_pow2_strictly_increases(53, 55);
        assert(rn@ < sn@ * pow2(55)) by (nonlinear_arith)
            requires
                rn@ < sn@ * pow2(53),
                pow2(53) < pow2(55),
                sn@ >= 1,
        {}
    }
    let (q0, rem) = Bignum::div_rem_bounded(&rn, &sn, 55);
    proof {
        vstd::arithmetic::power2::lemma2_to64();
        vstd::arithmetic::power2::lemma2_to64_rest();
        assert(q0 < 0x20000000000000) by (nonlinear_arith)
            requires
                q0 * sn@ + rem@ == rn@,
                rn@ < sn@ * pow2(53),
                rem@ >= 0,
                sn@ >= 1,
                pow2(53) == 0x20000000000000,
        {}
        if rn@ >= sn@ * pow2(52) {
            assert(q0 >= 0x10000000000000) by (nonlinear_arith)
                requires
                    q0 * sn@ + rem@ == rn@,
                    rn@ >= sn@ * pow2(52),
                    rem@ < sn@,
                    sn@ >= 1,
                    pow2(52) == 0x10000000000000,
            {}
        }
    }
    // round to nearest, ties to the even mantissa
    let rem2 = rem.mul_small_add(2, 0);
    let cr = rem2.cmp3(&sn);
    let rounded_up = cr > 0 || (cr == 0 && q0 % 2 == 1);
    proof {
        assert(rounded_up == (2 * rem@ > sn@ || (2 * rem@ == sn@ && q0 % 2 == 1)));
    }
    let ghost renormed = rounded_up && q0 + 1 == 0x20000000000000;
    let mut m = q0;
    if rounded_up {
        m = m + 1;
    }
    if m >= 0x20000000000000 {
        // the carry reached 2^53: renormalize one binade up
        m = m / 2;
        k = k + 1;
    }
    if m < 0x10000000000000 {
        // below 2^52: subnormal or zero, only possible at the floor
        assert(k == -1074);
        proof {
            assert((m >> 52u64) & 0x7FFu64 == 0u64 && m & 0xFFFFFFFFFFFFFu64 == m && m
                < 0x7FF0000000000000u64) by (bit_vector)
                requires
                    m < 0x10000000000000u64,
            {}
            assert(f64_sig(m) == m && f64_pos_exp(m) == 0);
            assert(q0 * (den@ * pow2(b)) + rem@ == num@ * pow2(a));
            lemma_core_rounds_to(
                num@,
                den@,
                a,
                b,
                q0 as nat,
                rem@,
                rounded_up,
                renormed,
                m,
            );
        }
        return Some(m);
    }
    let bexp: i64 = k + 1075;
    if bexp >= 2047 {
        // the rounded value sits past the largest finite double
        proof {
            if q0 == 0x1FFFFFFFFFFFFF && rounded_up {
                // renormalized: the value lies at or above the boundary
                assert(2 * rem@ >= sn@);
                assert(2 * rn@ >= 0x3FFFFFFFFFFFFF * sn@) by (nonlinear_arith)
                    requires
                        q0 * sn@ + rem@ == rn@,
                        2 * rem@ >= sn@,
                        q0 == 0x1FFFFFFFFFFFFF,
                {}
                lemma_witness_overflow(num@, den@, a, b, 0x3FFFFFFFFFFFFF, 2 * rn@, sn@, 971);
            } else {
                assert(rn@ >= q0 * sn@);
                assert(2 * rn@ >= 0x20000000000000 * sn@) by (nonlinear_arith)
                    requires
                        rn@ >= q0 * sn@,
                        q0 >= 0x10000000000000,
                        sn@ >= 1,
                {}
                lemma_witness_overflow(num@, den@, a, b, 0x20000000000000, 2 * rn@, sn@, 972);
            }
        }
        return None;
    }
    let be: u64 = bexp as u64;
    let bits = (be << 52u64) | (m - 0x10000000000000);
    proof {
        assert(((be << 52u64) | ((m - 0x10000000000000) as u64)) < 0x7FF0000000000000u64 && (((
        be << 52u64) | ((m - 0x10000000000000) as u64)) >> 52u64) & 0x7FFu64 == be && ((be
            << 52u64) | ((m - 0x10000000000000) as u64)) & 0xFFFFFFFFFFFFFu64 == (m
            - 0x10000000000000) as u64) by (bit_vector)
            requires
                1u64 <= be < 2047u64,
                0x10000000000000u64 <= m < 0x20000000000000u64,
        {}
        assert(f64_sig(bits) == m && f64_pos_exp(bits) == be - 1);
        assert(q0 * (den@ * pow2(b)) + rem@ == num@ * pow2(a));
        lemma_core_rounds_to(num@, den@, a, b, q0 as nat, rem@, rounded_up, renormed, bits);
    }
    Some(bits)
}

/// The shared overflow witness: when twice the scaled dividend reaches
/// `c` times the scaled divisor and the binade sits at least `e` levels
/// up, the unscaled rational reaches the infinity boundary.
proof fn lemma_witness_overflow(
    num: nat,
    den: nat,
    a: nat,
    b: nat,
    c: nat,
    rn2: nat,
    sn: nat,
    e: int,
)
    requires
        rn2 >= c * sn,
        rn2 == 2 * (num * pow2(a)) || rn2 == num * pow2(a),
        sn == den * pow2(b),
        b - a >= e,
        e == 971 ==> c >= 0x3FFFFFFFFFFFFF,
        e == 972 ==> 2 * c >= 0x40000000000000,
        e == 971 || e == 972,
        den >= 1,
    ensures
        overflows_f64(num, den),
{
    vstd::arithmetic::power2::lemma_pow2_pos(a);
    vstd::arithmetic::power2::lemma_pow2_pos(971);
    vstd::arithmetic::power2::lemma_pow2_adds(a, (b - a) as nat);
    if (b - a) as nat > e as nat {
        vstd::arithmetic::power2::lemma_pow2_strictly_increases(e as nat, (b - a) as nat);
    }
    vstd::arithmetic::power2::lemma_pow2_unfold(972);
    // first cancel the shared 2^a, still scaled by 2^(b-a)
    assert(2 * num >= c * den * pow2((b - a) as nat)) by (nonlinear_arith)
        requires
            rn2 >= c * sn,
            rn2 == 2 * (num * pow2(a)) || rn2 == num * pow2(a),
            sn == den * pow2(b),
            pow2(b) == pow2(a) * pow2((b - a) as nat),
            pow2(a) >= 1,
    {}
    if e == 971 {
        assert(overflows_f64(num, den)) by (nonlinear_arith)
            requires
                2 * num >= c * den * pow2((b - a) as nat),
                pow2((b - a) as nat) >= pow2(971),
                c >= 0x3FFFFFFFFFFFFF,
                den >= 1,
                pow2(971) >= 1,
        {}
    } else {
        assert(overflows_f64(num, den)) by (nonlinear_arith)
            requires
                2 * num >= c * den * pow2((b - a) as nat),
                pow2((b - a) as nat) >= pow2(972),
                pow2(972) == 2 * pow2(971),
                2 * c >= 0x40000000000000,
                den >= 1,
                pow2(971) >= 1,
        {}
    }
}

} // verus!
