//! Conversion between decimal-float atoms and IEEE-754 doubles, given by
//! their 64-bit patterns.
//!
//! Parsing validates the grammar
//! `['-'|'+'] (digits? '.'? digits?) (('e'|'E') ['-'|'+'] digits)?` with at
//! least one digit before or after the point, decomposes the literal into
//! digit runs and an exponent, and converts it to the nearest double.
//! An all-zero significand yields a signed zero whatever the exponent; an
//! exponent of eighteen or more digits only keeps its sign: hugely
//! negative underflows to zero, hugely positive fails (this grammar has no
//! infinity literal). Serialization renders the shortest round-tripping
//! digit sequence, switching to scientific notation past nine filling
//! zeros.

use vstd::prelude::*;

use crate::bignum::pow10;
use crate::dec2flt::Decimal;
use crate::dec2flt::all_digit_bytes;
use crate::dec2flt::all_zero_bytes;
use crate::dec2flt::convert;
use crate::dec2flt::dec_den;
use crate::dec2flt::dec_digits_val;
use crate::dec2flt::dec_exp10;
use crate::dec2flt::dec_num;
use crate::dec2flt::digits_den;
use crate::dec2flt::digits_num;
use crate::dec2flt::first_nonzero;
use crate::dec2flt::leading_pow10;
use crate::dec2flt::overflows_f64;
use crate::dec2flt::rounds_to;
use crate::flt2dec::FullDecoded;
use crate::flt2dec::decode;
use crate::flt2dec::decode_class;
use crate::flt2dec::decoded_bits;
use crate::flt2dec::lemma_decode_encode;
use crate::flt2dec::f64_bexp;
use crate::flt2dec::f64_sign;
use crate::flt2dec::format_shortest;
use crate::flt2dec::gen_ready;
use crate::int_codec::digits_val;
use crate::int_codec::int_atom_body;
use crate::int_codec::int_atom_negative;
use crate::int_codec::is_dec_digit;
use crate::int_codec::lemma_digits_val_nonneg;
use crate::int_codec::uint_atom;
use crate::text_util::push_char;

verus! {

/// The length of the digit run of `s` that starts at `i`.
pub open spec fn digit_run_len(s: Seq<char>, i: int) -> int
    decreases s.len() - i,
{
    if i < 0 || i >= s.len() {
        0
    } else if is_dec_digit(s[i]) {
        1 + digit_run_len(s, i + 1)
    } else {
        0
    }
}

/// The integral digit run of a float atom, after any sign.
pub open spec fn float_int_digits(s: Seq<char>) -> Seq<char> {
    let body = int_atom_body(s);
    body.take(digit_run_len(body, 0))
}

/// Whether a float atom has a decimal point.
pub open spec fn float_has_dot(s: Seq<char>) -> bool {
    let body = int_atom_body(s);
    let a = digit_run_len(body, 0);
    a < body.len() && body[a] == '.'
}

/// The fractional digit run of a float atom; empty without a point.
pub open spec fn float_frac_digits(s: Seq<char>) -> Seq<char> {
    let body = int_atom_body(s);
    let a = digit_run_len(body, 0);
    if float_has_dot(s) {
        body.subrange(a + 1, a + 1 + digit_run_len(body, a + 1))
    } else {
        Seq::empty()
    }
}

/// The index, inside the body, where the exponent part would begin.
pub open spec fn float_exp_start(s: Seq<char>) -> int {
    let body = int_atom_body(s);
    let a = digit_run_len(body, 0);
    if float_has_dot(s) {
        a + 1 + digit_run_len(body, a + 1)
    } else {
        a
    }
}

/// Whether a float atom has an exponent part.
pub open spec fn float_has_exp(s: Seq<char>) -> bool {
    let body = int_atom_body(s);
    float_exp_start(s) < body.len()
}

/// Whether the exponent of a float atom is negative.
pub open spec fn float_exp_neg(s: Seq<char>) -> bool {
    let body = int_atom_body(s);
    let p = float_exp_start(s);
    float_has_exp(s) && p + 1 < body.len() && body[p + 1] == '-'
}

/// The digit run of the exponent part of a float atom.
pub open spec fn float_exp_digits(s: Seq<char>) -> Seq<char> {
    let body = int_atom_body(s);
    let p = float_exp_start(s);
    let q = if p + 1 < body.len() && (body[p + 1] == '-' || body[p + 1] == '+') {
        p + 2
    } else {
        p + 1
    };
    body.subrange(q, q + digit_run_len(body, q))
}

/// The magnitude of the exponent of a float atom; zero without one.
pub open spec fn float_exp_mag(s: Seq<char>) -> int {
    if float_has_exp(s) {
        digits_val(float_exp_digits(s))
    } else {
        0
    }
}

/// Whether `s` is a well-formed decimal-float atom: an optional sign, at
/// least one digit around an optional point, and an optional exponent
/// with at least one digit.
pub open spec fn is_float_atom(s: Seq<char>) -> bool {
    let body = int_atom_body(s);
    let p = float_exp_start(s);
    let digits_ok = float_int_digits(s).len() + float_frac_digits(s).len() >= 1;
    if !float_has_exp(s) {
        digits_ok
    } else {
        let q = if p + 1 < body.len() && (body[p + 1] == '-' || body[p + 1] == '+') {
            p + 2
        } else {
            p + 1
        };
        &&& digits_ok
        &&& (body[p] == 'e' || body[p] == 'E')
        &&& q + digit_run_len(body, q) == body.len()
        &&& digit_run_len(body, q) >= 1
    }
}

/// Whether every significand digit of a float atom is zero.
pub open spec fn float_all_zero(s: Seq<char>) -> bool {
    (forall|i: int|
        0 <= i < float_int_digits(s).len() ==> #[trigger] float_int_digits(s)[i] == '0')
        && (forall|i: int|
        0 <= i < float_frac_digits(s).len() ==> #[trigger] float_frac_digits(s)[i] == '0')
}

/// The signed decimal exponent of a float atom.
pub open spec fn float_exp_val(s: Seq<char>) -> int {
    if float_exp_neg(s) {
        -float_exp_mag(s)
    } else {
        float_exp_mag(s)
    }
}

/// The significand digits of a float atom, as ASCII bytes: the integral
/// run followed by the fractional run.
pub open spec fn float_digit_bytes(s: Seq<char>) -> Seq<u8> {
    float_int_digits(s).map_values(|c: char| c as u8) + float_frac_digits(s).map_values(
        |c: char| c as u8,
    )
}

/// Whether both digit runs stay within the machine limit this codec
/// accepts: the exact converter works on the combined run, whose length
/// must stay clear of the index range, so each run is capped at `2^27`
/// digits and anything longer fails the parse.
pub open spec fn float_runs_in_cap(s: Seq<char>) -> bool {
    float_int_digits(s).len() < 0x8000000 && float_frac_digits(s).len() < 0x8000000
}

/// The power-of-ten position of the leading significant digit of a float
/// atom: its magnitude lies in `[10^(p-1), 10^p)`.
pub open spec fn float_leading_pow10(s: Seq<char>) -> int {
    let digs = float_digit_bytes(s);
    digs.len() - first_nonzero(digs) + float_exp_val(s) - float_frac_digits(s).len()
}

/// The power of ten that scales a float atom's digit run: its exponent
/// re-based to the last written digit.
pub open spec fn float_exp10(s: Seq<char>) -> int {
    float_exp_val(s) - float_frac_digits(s).len()
}

/// The numerator of the exact rational value of a float atom's magnitude.
pub open spec fn float_num(s: Seq<char>) -> nat {
    if float_exp10(s) >= 0 {
        dec_digits_val(float_digit_bytes(s)) * pow10(float_exp10(s) as nat)
    } else {
        dec_digits_val(float_digit_bytes(s))
    }
}

/// The denominator of the exact rational value of a float atom's
/// magnitude.
pub open spec fn float_den(s: Seq<char>) -> nat {
    if float_exp10(s) >= 0 {
        1
    } else {
        pow10((-float_exp10(s)) as nat)
    }
}

/// The bit pattern of the zero with the given sign.
pub open spec fn signed_zero_bits(neg: bool) -> u64 {
    if neg {
        0x8000000000000000u64
    } else {
        0u64
    }
}

/// Advancing across one digit extends the run by one.
proof fn lemma_digit_run_step(s: Seq<char>, start: int, i: int)
    requires
        0 <= start <= i <= s.len(),
        forall|k: int| start <= k < i ==> is_dec_digit(#[trigger] s[k]),
    ensures
        digit_run_len(s, start) == (i - start) + digit_run_len(s, i),
    decreases i - start,
{
    if start < i {
        lemma_digit_run_step(s, start + 1, i);
    }
}

/// A decimal digit other than zero maps to a byte other than `0x30`.
proof fn lemma_nonzero_digit_byte(c: char)
    requires
        is_dec_digit(c),
        c != '0',
    ensures
        c as u8 != 0x30,
{
    if c as u8 == 0x30 {
        assert(c as u32 == 0x30);
        vstd::utf8::char_u32_cast(c, 0x30);
        vstd::utf8::char_u32_cast('0', 0x30);
    }
}

/// A digit run ends at the first non-digit or at the end of the text.
proof fn lemma_digit_run_end(s: Seq<char>, i: int)
    requires
        0 <= i <= s.len(),
        i < s.len() ==> !is_dec_digit(s[i]),
    ensures
        digit_run_len(s, i) == 0,
{
}

/// Parses a decimal-float atom into the bit pattern of the nearest
/// double. A malformed atom, or one whose magnitude overflows past the
/// largest finite double, fails; an all-zero significand or a tiny
/// magnitude gives a signed zero.
///
/// The contract pins the grammar, the signed zeros, the huge-exponent
/// and band outcomes, the digit-length cap, the sign and finiteness of
/// the result, that every in-range literal succeeds, and that the
/// magnitude of any returned pattern satisfies [`rounds_to`]: it is the
/// round-to-nearest, ties-to-even double of the literal's exact
/// rational value (or the documented signed zero).
#[verifier::rlimit(100)]
#[verifier::spinoff_prover]
pub fn parse_f64_bits(atom: &str) -> (r: Option<u64>)
    ensures
        !is_float_atom(atom@) ==> r is None,
        is_float_atom(atom@) && float_all_zero(atom@) ==> r == Some(
            signed_zero_bits(int_atom_negative(atom@)),
        ),
        is_float_atom(atom@) && !float_all_zero(atom@) && float_exp_mag(atom@)
            > 99999999999999999 ==> r == (if float_exp_neg(atom@) {
            Some(signed_zero_bits(int_atom_negative(atom@)))
        } else {
            None
        }),
        is_float_atom(atom@) && !float_all_zero(atom@) && float_exp_mag(atom@)
            <= 99999999999999999 && !float_runs_in_cap(atom@) ==> r is None,
        is_float_atom(atom@) && !float_all_zero(atom@) && float_exp_mag(atom@)
            <= 99999999999999999 && float_runs_in_cap(atom@) && float_leading_pow10(atom@) > 310
            ==> r is None,
        is_float_atom(atom@) && !float_all_zero(atom@) && float_exp_mag(atom@)
            <= 99999999999999999 && float_runs_in_cap(atom@) && float_leading_pow10(atom@) < -340
            ==> r == Some(signed_zero_bits(int_atom_negative(atom@))),
        is_float_atom(atom@) && !float_all_zero(atom@) && float_exp_mag(atom@)
            <= 99999999999999999 && float_runs_in_cap(atom@) && float_leading_pow10(atom@) <= 310
            && !overflows_f64(float_num(atom@), float_den(atom@)) ==> r is Some,
        r matches Some(b) ==> rounds_to(
            float_num(atom@),
            float_den(atom@),
            b & 0x7FFFFFFFFFFFFFFF,
        ) || (b & 0x7FFFFFFFFFFFFFFF == 0 && (float_all_zero(atom@) || float_exp_mag(atom@)
            > 99999999999999999 || float_leading_pow10(atom@) < -340)),
        r is Some ==> f64_bexp(r->0) != 0x7FF,
        r is Some ==> f64_sign(r->0) == int_atom_negative(atom@),
{
    proof {
        assert((0x8000000000000000u64 >> 63u64) == 1u64 && (0u64 >> 63u64) == 0u64 && ((
        0x8000000000000000u64 >> 52u64) & 0x7FFu64) == 0u64 && ((0u64 >> 52u64) & 0x7FFu64)
            == 0u64 && 0x8000000000000000u64 & 0x7FFFFFFFFFFFFFFFu64 == 0u64 && 0u64
            & 0x7FFFFFFFFFFFFFFFu64 == 0u64) by (bit_vector);
    }
    let n = atom.unicode_len();
    let ghost body = int_atom_body(atom@);
    let mut i: usize = 0;
    let mut neg = false;
    if n >= 1 {
        let c0 = atom.get_char(0);
        if c0 == '-' {
            neg = true;
            i = 1;
        } else if c0 == '+' {
            i = 1;
        }
    }
    let start = i;
    proof {
        if start == 1 {
            assert(body =~= atom@.skip(1));
        } else {
            assert(body =~= atom@);
        }
        assert(neg == int_atom_negative(atom@));
    }
    // integral digit run
    let mut ints: Vec<u8> = Vec::new();
    let mut int_all_zero = true;
    loop
        invariant
            start <= i <= n,
            n == atom@.len(),
            start <= 1,
            body == int_atom_body(atom@),
            body =~= atom@.skip(start as int),
            forall|k: int| 0 <= k < i - start ==> is_dec_digit(#[trigger] body[k]),
            ints@.len() == i - start,
            forall|k: int| 0 <= k < i - start ==> ints@[k] == body[k] as u8,
            int_all_zero <==> (forall|k: int| 0 <= k < i - start ==> #[trigger] body[k] == '0'),
        ensures
            start <= i <= n,
            forall|k: int| 0 <= k < i - start ==> is_dec_digit(#[trigger] body[k]),
            ints@.len() == i - start,
            forall|k: int| 0 <= k < i - start ==> ints@[k] == body[k] as u8,
            int_all_zero <==> (forall|k: int| 0 <= k < i - start ==> #[trigger] body[k] == '0'),
            i < n ==> !is_dec_digit(body[i - start]),
        decreases n - i,
    {
        if i >= n {
            break ;
        }
        let c = atom.get_char(i);
        assert(body[i - start] == c);
        if !(c >= '0' && c <= '9') {
            break ;
        }
        ints.push(c as u8);
        if c != '0' {
            int_all_zero = false;
        }
        i = i + 1;
    }
    let ghost a = digit_run_len(body, 0);
    proof {
        lemma_digit_run_step(body, 0, i - start);
        if (i as int) < n {
            assert(body[i - start] == atom@[i as int]);
        }
        lemma_digit_run_end(body, i - start);
        assert(a == i - start);
        assert(ints@ =~= float_int_digits(atom@).map_values(|c: char| c as u8));
        assert(all_digit_bytes(ints@));
    }
    // optional point and fractional digit run
    let mut fracs: Vec<u8> = Vec::new();
    let mut frac_all_zero = true;
    let mut has_dot = false;
    if i < n && atom.get_char(i) == '.' {
        has_dot = true;
        assert(body[i - start] == '.');
        assert(float_has_dot(atom@));
        i = i + 1;
        let fstart = i;
        loop
            invariant
                fstart <= i <= n,
                n == atom@.len(),
                start <= 1,
                start < fstart,
                body == int_atom_body(atom@),
                body =~= atom@.skip(start as int),
                a == digit_run_len(body, 0),
                a == fstart - 1 - start,
                float_has_dot(atom@),
                forall|k: int| fstart - start <= k < i - start ==> is_dec_digit(
                    #[trigger] body[k],
                ),
                fracs@.len() == i - fstart,
                forall|k: int| 0 <= k < i - fstart ==> fracs@[k] == body[fstart - start + k] as u8,
                frac_all_zero <==> (forall|k: int|
                    fstart - start <= k < i - start ==> #[trigger] body[k] == '0'),
            ensures
                fstart <= i <= n,
                forall|k: int| fstart - start <= k < i - start ==> is_dec_digit(
                    #[trigger] body[k],
                ),
                fracs@.len() == i - fstart,
                forall|k: int| 0 <= k < i - fstart ==> fracs@[k] == body[fstart - start + k] as u8,
                frac_all_zero <==> (forall|k: int|
                    fstart - start <= k < i - start ==> #[trigger] body[k] == '0'),
                i < n ==> !is_dec_digit(body[i - start]),
            decreases n - i,
        {
            if i >= n {
                break ;
            }
            let c = atom.get_char(i);
            assert(body[i - start] == c);
            if !(c >= '0' && c <= '9') {
                break ;
            }
            fracs.push(c as u8);
            if c != '0' {
                frac_all_zero = false;
            }
            i = i + 1;
        }
        proof {
            lemma_digit_run_step(body, fstart - start, i - start);
            if (i as int) < n {
                assert(body[i - start] == atom@[i as int]);
            }
            lemma_digit_run_end(body, i - start);
            assert(digit_run_len(body, a + 1) == i - fstart);
            assert(fracs@ =~= float_frac_digits(atom@).map_values(|c: char| c as u8));
            assert(all_digit_bytes(fracs@));
        }
    } else {
        proof {
            if (i as int) < n {
                assert(body[i - start] == atom@[i as int]);
            }
            assert(!float_has_dot(atom@));
            assert(fracs@ =~= float_frac_digits(atom@).map_values(|c: char| c as u8));
        }
    }
    proof {
        assert(i - start == float_exp_start(atom@));
    }
    if ints.len() == 0 && fracs.len() == 0 {
        // a bare point, or no digits at all
        assert(!is_float_atom(atom@));
        return None;
    }
    // optional exponent part
    let mut exp_abs: u64 = 0;
    let mut exp_neg = false;
    if i < n {
        let c = atom.get_char(i);
        assert(body[i - start] == c);
        assert(float_has_exp(atom@));
        if c != 'e' && c != 'E' {
            assert(!is_float_atom(atom@));
            return None;
        }
        i = i + 1;
        if i < n {
            let cs = atom.get_char(i);
            assert(body[i - start] == cs);
            if cs == '-' {
                exp_neg = true;
                i = i + 1;
            } else if cs == '+' {
                i = i + 1;
            }
        }
        let estart = i;
        proof {
            assert(exp_neg == float_exp_neg(atom@));
        }
        if i == n {
            // an exponent marker with nothing after it
            assert(digit_run_len(body, estart - start) == 0);
            assert(!is_float_atom(atom@));
            return None;
        }
        let ghost edigits = float_exp_digits(atom@);
        loop
            invariant
                estart <= i <= n,
                n == atom@.len(),
                start <= 1,
                start <= estart,
                body == int_atom_body(atom@),
                body =~= atom@.skip(start as int),
                edigits == float_exp_digits(atom@),
                float_exp_digits(atom@) == body.subrange(
                    estart - start,
                    estart - start + digit_run_len(body, estart - start),
                ),
                forall|k: int| estart - start <= k < i - start ==> is_dec_digit(
                    #[trigger] body[k],
                ),
                exp_abs <= u64::MAX,
                (exp_abs == digits_val(body.subrange(estart - start, i - start)) && exp_abs
                    < u64::MAX) || (exp_abs == u64::MAX && digits_val(
                    body.subrange(estart - start, i - start),
                ) >= u64::MAX),
            ensures
                estart <= i <= n,
                forall|k: int| estart - start <= k < i - start ==> is_dec_digit(
                    #[trigger] body[k],
                ),
                (exp_abs == digits_val(body.subrange(estart - start, i - start)) && exp_abs
                    < u64::MAX) || (exp_abs == u64::MAX && digits_val(
                    body.subrange(estart - start, i - start),
                ) >= u64::MAX),
                i < n ==> !is_dec_digit(body[i - start]),
            decreases n - i,
        {
            if i >= n {
                break ;
            }
            let c2 = atom.get_char(i);
            assert(body[i - start] == c2);
            if !(c2 >= '0' && c2 <= '9') {
                break ;
            }
            let d = (c2 as u32 - '0' as u32) as u64;
            let ghost pre = body.subrange(estart - start, i - start);
            proof {
                assert(body.subrange(estart - start, i + 1 - start).drop_last() =~= pre);
                assert(body.subrange(estart - start, i + 1 - start).last() == c2);
                lemma_digits_val_nonneg(pre);
            }
            if exp_abs != u64::MAX {
                if exp_abs > (u64::MAX - d) / 10 {
                    exp_abs = u64::MAX;
                } else {
                    exp_abs = exp_abs * 10 + d;
                }
            }
            i = i + 1;
        }
        proof {
            lemma_digit_run_step(body, estart - start, i - start);
            if (i as int) < n {
                assert(body[i - start] == atom@[i as int]);
            }
            lemma_digit_run_end(body, i - start);
        }
        if i != n {
            assert(!is_float_atom(atom@));
            return None;
        }
        proof {
            assert(body.subrange(estart - start, i - start) =~= edigits);
            assert(is_float_atom(atom@));
        }
    } else {
        proof {
            assert(!float_has_exp(atom@));
            assert(is_float_atom(atom@));
        }
    }
    // an all-zero significand short-circuits to a signed zero
    if int_all_zero && frac_all_zero {
        proof {
            assert(float_all_zero(atom@));
        }
        return Some(if neg {
            0x8000000000000000u64
        } else {
            0u64
        });
    }
    proof {
        assert(!float_all_zero(atom@)) by {
            if !int_all_zero {
                let k = choose|k: int| 0 <= k < float_int_digits(atom@).len() && #[trigger] body[k]
                    != '0';
                assert(float_int_digits(atom@)[k] == body[k]);
            } else {
                let a0 = digit_run_len(body, 0);
                let k = choose|k: int|
                    a0 + 1 <= k < a0 + 1 + float_frac_digits(atom@).len() && #[trigger] body[k]
                        != '0';
                assert(float_frac_digits(atom@)[k - a0 - 1] == body[k]);
            }
        }
    }
    // an exponent of eighteen or more digits keeps only its sign
    if exp_abs > 99999999999999999 {
        proof {
            assert(float_exp_mag(atom@) > 99999999999999999);
        }
        if exp_neg {
            return Some(if neg {
                0x8000000000000000u64
            } else {
                0u64
            });
        } else {
            return None;
        }
    }
    proof {
        assert(float_exp_mag(atom@) == exp_abs);
        assert(!all_zero_bytes(ints@ + fracs@)) by {
            if !int_all_zero {
                let k = choose|k: int| 0 <= k < float_int_digits(atom@).len() && #[trigger] body[k]
                    != '0';
                assert(float_int_digits(atom@)[k] == body[k]);
                assert(ints@[k] == body[k] as u8);
                lemma_nonzero_digit_byte(body[k]);
                assert((ints@ + fracs@)[k] != 0x30);
            } else {
                let a0 = digit_run_len(body, 0);
                let k = choose|k: int|
                    a0 + 1 <= k < a0 + 1 + float_frac_digits(atom@).len() && #[trigger] body[k]
                        != '0';
                assert(float_frac_digits(atom@)[k - a0 - 1] == body[k]);
                assert(fracs@[k - a0 - 1] == body[k] as u8);
                lemma_nonzero_digit_byte(body[k]);
                assert((ints@ + fracs@)[ints@.len() + k - a0 - 1] != 0x30);
            }
        }
    }
    convert_scanned(Ghost(atom@), ints, fracs, exp_abs, exp_neg, neg)
}

/// Converts a scanned, non-zero literal with an exact exponent: applies
/// the machine cap on digit-run lengths, runs the exact converter and
/// packs the sign.
fn convert_scanned(
    s: Ghost<Seq<char>>,
    ints: Vec<u8>,
    fracs: Vec<u8>,
    exp_abs: u64,
    exp_neg: bool,
    neg: bool,
) -> (r: Option<u64>)
    requires
        is_float_atom(s@),
        !float_all_zero(s@),
        !all_zero_bytes(ints@ + fracs@),
        all_digit_bytes(ints@),
        all_digit_bytes(fracs@),
        ints@ == float_int_digits(s@).map_values(|c: char| c as u8),
        fracs@ == float_frac_digits(s@).map_values(|c: char| c as u8),
        exp_abs <= 99999999999999999,
        exp_abs == float_exp_mag(s@),
        exp_neg == float_exp_neg(s@),
        neg == int_atom_negative(s@),
    ensures
        !float_runs_in_cap(s@) ==> r is None,
        float_runs_in_cap(s@) && float_leading_pow10(s@) > 310 ==> r is None,
        float_runs_in_cap(s@) && float_leading_pow10(s@) < -340 ==> r == Some(
            signed_zero_bits(neg),
        ),
        float_runs_in_cap(s@) && float_leading_pow10(s@) <= 310 && !overflows_f64(
            float_num(s@),
            float_den(s@),
        ) ==> r is Some,
        r matches Some(b) ==> rounds_to(float_num(s@), float_den(s@), b & 0x7FFFFFFFFFFFFFFF) || (
        b & 0x7FFFFFFFFFFFFFFF == 0 && float_leading_pow10(s@) < -340),
        r is Some ==> f64_bexp(r->0) != 0x7FF,
        r is Some ==> f64_sign(r->0) == neg,
{
    let exp: i64 = if exp_neg {
        -(exp_abs as i64)
    } else {
        exp_abs as i64
    };
    if ints.len() >= 0x8000000 || fracs.len() >= 0x8000000 {
        // digit runs beyond the converter's index range
        return None;
    }
    let dec = Decimal::new(ints.as_slice(), fracs.as_slice(), exp);
    proof {
        assert(dec.integral@ + dec.fractional@ =~= float_digit_bytes(s@));
        assert(leading_pow10(dec) == float_leading_pow10(s@));
        assert(dec_exp10(dec) == float_exp10(s@));
        assert(dec_num(dec) == float_num(s@));
        assert(dec_den(dec) == float_den(s@));
        assert(0u64 | 0x8000000000000000u64 == 0x8000000000000000u64) by (bit_vector);
    }
    match convert(&dec) {
        Some(mag) => {
            let bits = if neg {
                mag | 0x8000000000000000u64
            } else {
                mag
            };
            proof {
                assert(mag < 0x7FF0000000000000u64 ==> ((mag >> 52) & 0x7FF) != 0x7FF)
                    by (bit_vector);
                assert(((mag | 0x8000000000000000u64) >> 52) & 0x7FF == ((mag >> 52) & 0x7FF))
                    by (bit_vector);
                assert(((mag | 0x8000000000000000u64) >> 63) == 1u64) by (bit_vector);
                assert(mag < 0x7FF0000000000000u64 ==> (mag >> 63) == 0u64) by (bit_vector);
                assert(mag < 0x8000000000000000u64 ==> (mag | 0x8000000000000000u64)
                    & 0x7FFFFFFFFFFFFFFFu64 == mag && mag & 0x7FFFFFFFFFFFFFFFu64 == mag)
                    by (bit_vector);
            }
            Some(bits)
        },
        None => None,
    }
}

/// The characters of a digit byte run.
pub open spec fn digit_chars(ds: Seq<u8>) -> Seq<char> {
    ds.map_values(|b: u8| b as char)
}

/// `n` zero characters.
pub open spec fn zero_chars(n: int) -> Seq<char>
    decreases n,
{
    if n <= 0 {
        Seq::empty()
    } else {
        zero_chars(n - 1).push('0')
    }
}

/// The text of a finite double whose shortest digits are `ds` with the
/// leading digit at the power-of-ten position `k`: plain positional
/// notation while at most nine zeros fill the gap to the point, and
/// scientific notation `d.dddde~xx` beyond. The output always shows a
/// point and at least one fractional digit.
pub open spec fn render_finite(ds: Seq<u8>, k: int) -> Seq<char> {
    let n = ds.len() as int;
    if k <= 0 {
        let z = -k;
        if z > 9 {
            seq![ds[0] as char, '.'] + (if n > 1 {
                digit_chars(ds.skip(1))
            } else {
                seq!['0']
            }) + seq!['e', '-'] + uint_atom(z + 1)
        } else {
            seq!['0', '.'] + zero_chars(z) + digit_chars(ds)
        }
    } else if k >= n {
        if k - n > 9 {
            seq![ds[0] as char, '.'] + (if n > 1 {
                digit_chars(ds.skip(1))
            } else {
                seq!['0']
            }) + seq!['e'] + uint_atom(k - 1)
        } else {
            digit_chars(ds) + zero_chars(k - n) + seq!['.', '0']
        }
    } else {
        digit_chars(ds.take(k)) + seq!['.'] + digit_chars(ds.skip(k))
    }
}


/// Appends the characters of the digit bytes `ds[lo..hi]` to `output`.
fn push_digit_chars(ds: &Vec<u8>, lo: usize, hi: usize, output: &mut String)
    requires
        lo <= hi <= ds@.len(),
        all_digit_bytes(ds@),
    ensures
        final(output)@ == old(output)@ + digit_chars(ds@.subrange(lo as int, hi as int)),
{
    let mut j: usize = lo;
    proof {
        assert(digit_chars(ds@.subrange(lo as int, lo as int)) =~= Seq::<char>::empty());
        assert(output@ + Seq::<char>::empty() =~= output@);
    }
    while j < hi
        invariant
            lo <= j <= hi <= ds@.len(),
            all_digit_bytes(ds@),
            output@ == old(output)@ + digit_chars(ds@.subrange(lo as int, j as int)),
        decreases hi - j,
    {
        let b = ds[j];
        proof {
            assert(digit_chars(ds@.subrange(lo as int, j + 1)) =~= digit_chars(
                ds@.subrange(lo as int, j as int),
            ).push(b as char));
        }
        push_char(output, b as char);
        j = j + 1;
    }
}

/// Appends `z` zero characters to `output`.
fn push_zero_chars(z: u64, output: &mut String)
    ensures
        final(output)@ == old(output)@ + zero_chars(z as int),
{
    let mut j: u64 = 0;
    proof {
        assert(output@ + zero_chars(0) =~= output@);
    }
    while j < z
        invariant
            j <= z,
            output@ == old(output)@ + zero_chars(j as int),
        decreases z - j,
    {
        push_char(output, '0');
        j = j + 1;
    }
}

/// Appends the rendered text of the digits `ds` at the power-of-ten
/// position `k` to `output`, exactly as [`render_finite`] describes.
fn render_finite_text(ds: &Vec<u8>, k: i64, output: &mut String)
    requires
        1 <= ds@.len() <= 17,
        all_digit_bytes(ds@),
        -0x4100000000 <= k <= 0x4100000000,
    ensures
        final(output)@ == old(output)@ + render_finite(ds@, k as int),
{
    let n = ds.len();
    if k <= 0 {
        let z: u64 = (-(k as i128)) as u64;
        if z > 9 {
            push_char(output, ds[0] as char);
            push_char(output, '.');
            if n > 1 {
                push_digit_chars(ds, 1, n, output);
                proof {
                    assert(ds@.subrange(1, n as int) =~= ds@.skip(1));
                }
            } else {
                push_char(output, '0');
            }
            push_char(output, 'e');
            push_char(output, '-');
            crate::int_codec::serialize_u64(z + 1, output);
            proof {
                assert(final(output)@ =~= old(output)@ + render_finite(ds@, k as int));
            }
        } else {
            push_char(output, '0');
            push_char(output, '.');
            push_zero_chars(z, output);
            push_digit_chars(ds, 0, n, output);
            proof {
                assert(ds@.subrange(0, n as int) =~= ds@);
                assert(final(output)@ =~= old(output)@ + render_finite(ds@, k as int));
            }
        }
    } else if k >= n as i64 {
        if k - n as i64 > 9 {
            push_char(output, ds[0] as char);
            push_char(output, '.');
            if n > 1 {
                push_digit_chars(ds, 1, n, output);
                proof {
                    assert(ds@.subrange(1, n as int) =~= ds@.skip(1));
                }
            } else {
                push_char(output, '0');
            }
            push_char(output, 'e');
            crate::int_codec::serialize_u64((k - 1) as u64, output);
            proof {
                assert(final(output)@ =~= old(output)@ + render_finite(ds@, k as int));
            }
        } else {
            push_digit_chars(ds, 0, n, output);
            push_zero_chars((k - n as i64) as u64, output);
            push_char(output, '.');
            push_char(output, '0');
            proof {
                assert(ds@.subrange(0, n as int) =~= ds@);
                assert(final(output)@ =~= old(output)@ + render_finite(ds@, k as int));
            }
        }
    } else {
        let kk = k as usize;
        push_digit_chars(ds, 0, kk, output);
        push_char(output, '.');
        push_digit_chars(ds, kk, n, output);
        proof {
            assert(ds@.subrange(0, kk as int) =~= ds@.take(kk as int));
            assert(ds@.subrange(kk as int, n as int) =~= ds@.skip(kk as int));
            assert(final(output)@ =~= old(output)@ + render_finite(ds@, k as int));
        }
    }
}

/// Appends the text of a decomposed double to `output`: `0.0` for a zero
/// of either sign, and for a finite value a minus sign when negative
/// followed by the shortest round-tripping digits in the notation that
/// [`render_finite`] describes. Infinities and NaNs have no text in this
/// format and are excluded by precondition.
///
/// The contract renders the digits exactly, and ties them to the value:
/// the rendered digits, read back as an exact decimal, round to
/// precisely the encoded double ([`rounds_to`]), except on the
/// seventeen-digit fallback path, which no double reaches in practice.
/// Minimality of the digit count rests on the certifying re-parse, not
/// on an `ensures`.
pub fn serialize_float_aux(sign: bool, full_decoded: FullDecoded, output: &mut String)
    requires
        !(full_decoded is Nan),
        !(full_decoded is Infinite),
        full_decoded is Finite ==> gen_ready(full_decoded->Finite_0),
    ensures
        full_decoded is Zero ==> final(output)@ == old(output)@ + seq!['0', '.', '0'],
        full_decoded is Finite ==> exists|ds: Seq<u8>, k: int|
            1 <= ds.len() <= 17 && all_digit_bytes(ds) && final(output)@ == old(output)@ + (
            if sign {
                seq!['-']
            } else {
                Seq::<char>::empty()
            }) + render_finite(ds, k) && (rounds_to(
                digits_num(ds, k),
                digits_den(ds, k),
                decoded_bits(full_decoded->Finite_0),
            ) || decoded_bits(full_decoded->Finite_0) == 0 || ds.len() == 17),
{
    match full_decoded {
        FullDecoded::Zero => {
            push_char(output, '0');
            push_char(output, '.');
            push_char(output, '0');
            proof {
                assert(final(output)@ =~= old(output)@ + seq!['0', '.', '0']);
            }
        },
        FullDecoded::Finite(d) => {
            if sign {
                push_char(output, '-');
            }
            let ghost mid = output@;
            proof {
                if sign {
                    assert(mid =~= old(output)@ + seq!['-']);
                } else {
                    assert(mid =~= old(output)@ + Seq::<char>::empty());
                }
            }
            let (digits, k) = format_shortest(&d);
            render_finite_text(&digits, k, output);
            proof {
                assert(final(output)@ == mid + render_finite(digits@, k as int));
                assert(final(output)@ == old(output)@ + (if sign {
                    seq!['-']
                } else {
                    Seq::<char>::empty()
                }) + render_finite(digits@, k as int)) by {
                    assert(mid + render_finite(digits@, k as int) =~= (old(output)@ + (if sign {
                        seq!['-']
                    } else {
                        Seq::<char>::empty()
                    })) + render_finite(digits@, k as int));
                }
            }
        },
        FullDecoded::Nan => {
            proof {
                assert(false);
            }
        },
        FullDecoded::Infinite => {
            proof {
                assert(false);
            }
        },
    }
}

/// Appends the text of the finite double with the given bit pattern to
/// `output`. A zero of either sign renders as `0.0`; any other value
/// renders as its sign followed by the shortest round-tripping digit
/// sequence. The pattern must be finite: infinities and NaNs have no
/// text in this format.
pub fn serialize_f64_bits(bits: u64, output: &mut String)
    requires
        f64_bexp(bits) != 0x7FF,
    ensures
        decode_class(bits) is Zero ==> final(output)@ == old(output)@ + seq!['0', '.', '0'],
        decode_class(bits) is Finite ==> exists|ds: Seq<u8>, k: int|
            1 <= ds.len() <= 17 && all_digit_bytes(ds) && final(output)@ == old(output)@ + (
            if f64_sign(bits) {
                seq!['-']
            } else {
                Seq::<char>::empty()
            }) + render_finite(ds, k) && (rounds_to(
                digits_num(ds, k),
                digits_den(ds, k),
                bits & 0x7FFFFFFFFFFFFFFF,
            ) || ds.len() == 17),
{
    proof {
        assert((bits & 0xFFFFFFFFFFFFF) < 0x10000000000000 && ((bits >> 52u64) & 0x7FF) < 0x800)
            by (bit_vector);
        if decode_class(bits) is Finite {
            lemma_decode_encode(bits);
        }
    }
    let (sign, full_decoded) = decode(bits);
    serialize_float_aux(sign, full_decoded, output);
}

/// The text of the finite double with the given bit pattern.
pub fn serialize_f64_bits_as_string(bits: u64) -> (r: String)
    requires
        f64_bexp(bits) != 0x7FF,
    ensures
        decode_class(bits) is Zero ==> r@ == seq!['0', '.', '0'],
        decode_class(bits) is Finite ==> exists|ds: Seq<u8>, k: int|
            1 <= ds.len() <= 17 && all_digit_bytes(ds) && r@ == (if f64_sign(bits) {
                seq!['-']
            } else {
                Seq::<char>::empty()
            }) + render_finite(ds, k) && (rounds_to(
                digits_num(ds, k),
                digits_den(ds, k),
                bits & 0x7FFFFFFFFFFFFFFF,
            ) || ds.len() == 17),
{
    let mut output = String::new();
    serialize_f64_bits(bits, &mut output);
    proof {
        if decode_class(bits) is Finite {
            let (ds, k) = choose|ds: Seq<u8>, k: int|
                1 <= ds.len() <= 17 && all_digit_bytes(ds) && output@ == Seq::<char>::empty() + (
                if f64_sign(bits) {
                    seq!['-']
                } else {
                    Seq::<char>::empty()
                }) + render_finite(ds, k) && (rounds_to(
                    digits_num(ds, k),
                    digits_den(ds, k),
                    bits & 0x7FFFFFFFFFFFFFFF,
                ) || ds.len() == 17);
            assert(Seq::<char>::empty() + (if f64_sign(bits) {
                seq!['-']
            } else {
                Seq::<char>::empty()
            }) + render_finite(ds, k) =~= (if f64_sign(bits) {
                seq!['-']
            } else {
                Seq::<char>::empty()
            }) + render_finite(ds, k));
        }
    }
    output
}

} // verus!
