//! Conversion between decimal atoms and 32/64-bit integers.
//!
//! Parsing accepts an optional leading `+` or `-` (signed variants only)
//! followed by one or more ASCII digits and nothing else; a value out of
//! range, a stray character or an empty atom is rejected. Serialization
//! emits the canonical decimal form: a single leading `-` for negative
//! values, no leading zeros, and `0` for zero.

use vstd::prelude::*;

use crate::text_util::push_char;

verus! {

/// Whether `c` is an ASCII decimal digit.
pub open spec fn is_dec_digit(c: char) -> bool {
    '0' <= c && c <= '9'
}

/// The numeric value of the digit `c`.
pub open spec fn dec_digit_val(c: char) -> int
    recommends
        is_dec_digit(c),
{
    c as u32 - '0' as u32
}

/// The digit whose numeric value is `d`.
pub open spec fn dec_digit_char(d: int) -> char
    recommends
        0 <= d <= 9,
{
    (('0' as u32) + d) as char
}

/// Whether every character of `s` is an ASCII decimal digit.
pub open spec fn all_dec_digits(s: Seq<char>) -> bool {
    forall|i: int| 0 <= i < s.len() ==> is_dec_digit(#[trigger] s[i])
}

/// The value of a digit run, most significant digit first.
pub open spec fn digits_val(s: Seq<char>) -> int
    recommends
        all_dec_digits(s),
    decreases s.len(),
{
    if s.len() == 0 {
        0
    } else {
        digits_val(s.drop_last()) * 10 + dec_digit_val(s.last())
    }
}

/// Whether `s` is a well-formed unsigned decimal atom: one or more digits.
pub open spec fn is_uint_atom(s: Seq<char>) -> bool {
    s.len() >= 1 && all_dec_digits(s)
}

/// Whether the optional leading sign of `s` is a minus.
pub open spec fn int_atom_negative(s: Seq<char>) -> bool {
    s.len() >= 1 && s[0] == '-'
}

/// The digit run of a signed decimal atom, with any sign removed.
pub open spec fn int_atom_body(s: Seq<char>) -> Seq<char> {
    if s.len() >= 1 && (s[0] == '-' || s[0] == '+') {
        s.drop_first()
    } else {
        s
    }
}

/// Whether `s` is a well-formed signed decimal atom: an optional sign
/// followed by one or more digits.
pub open spec fn is_int_atom(s: Seq<char>) -> bool {
    is_uint_atom(int_atom_body(s))
}

/// The mathematical value of a signed decimal atom.
pub open spec fn int_atom_val(s: Seq<char>) -> int
    recommends
        is_int_atom(s),
{
    if int_atom_negative(s) {
        -digits_val(int_atom_body(s))
    } else {
        digits_val(int_atom_body(s))
    }
}

/// The canonical digit run of `n`, most significant digit first.
pub open spec fn uint_atom(n: int) -> Seq<char>
    recommends
        n >= 0,
    decreases n,
{
    if n < 10 {
        seq![dec_digit_char(n)]
    } else {
        uint_atom(n / 10).push(dec_digit_char(n % 10))
    }
}

/// The canonical decimal atom of `v`: a leading `-` for negative values.
pub open spec fn int_atom(v: int) -> Seq<char> {
    if v < 0 {
        seq!['-'] + uint_atom(-v)
    } else {
        uint_atom(v)
    }
}

/// A digit run has a non-negative value.
pub proof fn lemma_digits_val_nonneg(s: Seq<char>)
    requires
        all_dec_digits(s),
    ensures
        digits_val(s) >= 0,
    decreases s.len(),
{
    if s.len() > 0 {
        lemma_digits_val_nonneg(s.drop_last());
    }
}

/// Dropping trailing digits can only lower the value of a digit run.
pub proof fn lemma_digits_val_take_le(s: Seq<char>, j: int)
    requires
        all_dec_digits(s),
        0 <= j <= s.len(),
    ensures
        digits_val(s.take(j)) <= digits_val(s),
    decreases s.len() - j,
{
    if j < s.len() {
        lemma_digits_val_take_le(s, j + 1);
        let t = s.take(j + 1);
        assert(t.drop_last() =~= s.take(j));
        assert(all_dec_digits(t));
        lemma_digits_val_nonneg(s.take(j));
        assert(digits_val(t) == digits_val(s.take(j)) * 10 + dec_digit_val(s[j]));
    } else {
        assert(s.take(j) =~= s);
    }
}

/// A digit run without a leading zero has a value of at least one, and the
/// canonical digit run of its value is the run itself.
pub proof fn lemma_uint_atom_canonical(s: Seq<char>)
    requires
        is_uint_atom(s),
        s.len() > 1 ==> s[0] != '0',
    ensures
        s[0] != '0' ==> digits_val(s) >= 1,
        uint_atom(digits_val(s)) =~= s,
    decreases s.len(),
{
    lemma_digits_val_nonneg(s);
    if s.len() == 1 {
        let d = dec_digit_val(s[0]);
        assert(digits_val(s.drop_last()) == 0);
        assert(digits_val(s) == d);
        assert(dec_digit_char(d) == s[0]);
        assert(uint_atom(d) =~= seq![s[0]]);
        assert(s =~= seq![s[0]]);
    } else {
        let p = s.drop_last();
        assert(p[0] == s[0]);
        lemma_uint_atom_canonical(p);
        let d = dec_digit_val(s.last());
        let v = digits_val(s);
        assert(v == digits_val(p) * 10 + d);
        assert(digits_val(p) >= 1);
        assert(v >= 10);
        assert(v / 10 == digits_val(p) && v % 10 == d) by (nonlinear_arith)
            requires
                v == digits_val(p) * 10 + d,
                0 <= d < 10,
                digits_val(p) >= 0,
        {}
        assert(dec_digit_char(d) == s.last());
        assert(uint_atom(v) =~= uint_atom(digits_val(p)).push(s.last()));
        assert(p.push(s.last()) =~= s);
    }
}

/// The canonical digit run of `n` is made of digits, has no leading zero,
/// and has value `n`.
pub proof fn lemma_uint_atom_val(n: int)
    requires
        n >= 0,
    ensures
        is_uint_atom(uint_atom(n)),
        uint_atom(n).len() > 1 ==> uint_atom(n)[0] != '0',
        n >= 1 ==> uint_atom(n)[0] != '0',
        digits_val(uint_atom(n)) == n,
    decreases n,
{
    if n < 10 {
        let s = uint_atom(n);
        assert(s =~= seq![dec_digit_char(n)]);
        assert(is_dec_digit(s[0]));
        assert(dec_digit_val(s[0]) == n);
        assert(digits_val(s.drop_last()) == 0);
    } else {
        lemma_uint_atom_val(n / 10);
        let p = uint_atom(n / 10);
        let s = p.push(dec_digit_char(n % 10));
        assert(s.drop_last() =~= p);
        assert(s.last() == dec_digit_char(n % 10));
        assert(is_dec_digit(s.last()));
        assert(dec_digit_val(s.last()) == n % 10);
        assert(digits_val(s) == (n / 10) * 10 + n % 10);
        assert((n / 10) * 10 + n % 10 == n) by (nonlinear_arith)
            requires
                n >= 10,
        {}
        assert(s[0] == p[0]);
    }
}

/// Canonical idempotence for signed atoms: re-serializing the value of a
/// canonical signed decimal atom (no leading zeros, no `+`, no `-0`) gives
/// the atom back unchanged.
pub proof fn lemma_int_atom_canonical(s: Seq<char>)
    requires
        is_int_atom(s),
        s.len() >= 1 && s[0] != '+',
        int_atom_body(s).len() > 1 ==> int_atom_body(s)[0] != '0',
        int_atom_negative(s) ==> int_atom_body(s)[0] != '0',
    ensures
        int_atom(int_atom_val(s)) =~= s,
{
    let body = int_atom_body(s);
    lemma_uint_atom_canonical(body);
    if int_atom_negative(s) {
        assert(digits_val(body) >= 1);
        assert(int_atom_val(s) == -digits_val(body));
        assert(int_atom(int_atom_val(s)) =~= seq!['-'] + uint_atom(digits_val(body)));
        assert(seq!['-'] + body =~= s);
    } else {
        assert(body =~= s);
        lemma_digits_val_nonneg(body);
    }
}

/// Round trip for integer atoms: the canonical decimal atom of any value
/// parses back to exactly that value.
pub proof fn lemma_int_atom_round_trip(v: int)
    ensures
        is_int_atom(int_atom(v)),
        int_atom_val(int_atom(v)) == v,
{
    if v < 0 {
        lemma_uint_atom_val(-v);
        let s = int_atom(v);
        assert(s == seq!['-'] + uint_atom(-v));
        assert(s[0] == '-');
        assert(int_atom_body(s) =~= uint_atom(-v));
        assert(int_atom_negative(s));
    } else {
        lemma_uint_atom_val(v);
        let s = int_atom(v);
        assert(s == uint_atom(v));
        assert(is_dec_digit(s[0]));
        assert(int_atom_body(s) =~= s);
        assert(!int_atom_negative(s));
    }
}

/// Parses the digit run of `atom` starting at `start`, accumulating into a
/// 64-bit value with an overflow check at each digit.
fn parse_digits(atom: &str, start: usize) -> (r: Option<u64>)
    requires
        start <= atom@.len(),
    ensures
        match r {
            Some(v) => is_uint_atom(atom@.skip(start as int)) && v == digits_val(
                atom@.skip(start as int),
            ),
            None => !(is_uint_atom(atom@.skip(start as int)) && digits_val(
                atom@.skip(start as int),
            ) <= u64::MAX),
        },
{
    let s = Ghost(atom@.skip(start as int));
    let n = atom.unicode_len();
    if n == start {
        assert(s@.len() == 0);
        return None;
    }
    let mut num: u64 = 0;
    let mut i: usize = start;
    while i < n
        invariant
            start <= i <= n,
            n == atom@.len(),
            s@ == atom@.skip(start as int),
            all_dec_digits(s@.take(i - start)),
            num == digits_val(s@.take(i - start)),
        decreases n - i,
    {
        let c = atom.get_char(i);
        assert(s@[i - start] == c);
        if !(c >= '0' && c <= '9') {
            proof {
                assert(!is_dec_digit(s@[i - start]));
            }
            return None;
        }
        let d: u64 = (c as u32 - '0' as u32) as u64;
        assert(d == dec_digit_val(c));
        proof {
            assert(s@.take(i + 1 - start).drop_last() =~= s@.take(i - start));
            assert(s@.take(i + 1 - start).last() == c);
        }
        if num > (u64::MAX - d) / 10 {
            proof {
                lemma_digits_val_nonneg(s@.take(i - start));
                assert(digits_val(s@.take(i + 1 - start)) > u64::MAX);
                if is_uint_atom(s@) && digits_val(s@) <= u64::MAX {
                    lemma_digits_val_take_le(s@, i + 1 - start);
                }
            }
            return None;
        }
        num = num * 10 + d;
        i = i + 1;
    }
    proof {
        assert(s@.take(n - start) =~= s@);
    }
    Some(num)
}

/// Parses an unsigned 64-bit decimal atom: one or more digits, no sign.
pub fn parse_u64(atom: &str) -> (r: Option<u64>)
    ensures
        match r {
            Some(v) => is_uint_atom(atom@) && v == digits_val(atom@),
            None => !(is_uint_atom(atom@) && digits_val(atom@) <= u64::MAX),
        },
{
    let r = parse_digits(atom, 0);
    proof {
        assert(atom@.skip(0) =~= atom@);
    }
    r
}

/// Parses an unsigned 32-bit decimal atom: one or more digits, no sign.
pub fn parse_u32(atom: &str) -> (r: Option<u32>)
    ensures
        match r {
            Some(v) => is_uint_atom(atom@) && v == digits_val(atom@),
            None => !(is_uint_atom(atom@) && digits_val(atom@) <= u32::MAX),
        },
{
    match parse_u64(atom) {
        Some(v) => if v <= u32::MAX as u64 {
            Some(v as u32)
        } else {
            None
        },
        None => None,
    }
}

/// Parses a signed decimal atom into sign and 64-bit magnitude.
fn parse_signed_parts(atom: &str) -> (r: Option<(bool, u64)>)
    ensures
        match r {
            Some((neg, mag)) => is_int_atom(atom@) && neg == int_atom_negative(atom@) && mag
                == digits_val(int_atom_body(atom@)),
            None => !(is_int_atom(atom@) && digits_val(int_atom_body(atom@)) <= u64::MAX),
        },
{
    let n = atom.unicode_len();
    if n == 0 {
        return None;
    }
    let c0 = atom.get_char(0);
    let (neg, start): (bool, usize) = if c0 == '-' {
        (true, 1)
    } else if c0 == '+' {
        (false, 1)
    } else {
        (false, 0)
    };
    proof {
        if start == 1 {
            assert(int_atom_body(atom@) =~= atom@.skip(1));
        } else {
            assert(int_atom_body(atom@) =~= atom@.skip(0));
        }
    }
    match parse_digits(atom, start) {
        Some(mag) => Some((neg, mag)),
        None => None,
    }
}

/// Parses a signed 64-bit decimal atom: an optional sign, one or more
/// digits. The minimum value is accepted through its unsigned magnitude.
pub fn parse_i64(atom: &str) -> (r: Option<i64>)
    ensures
        match r {
            Some(v) => is_int_atom(atom@) && v == int_atom_val(atom@),
            None => !(is_int_atom(atom@) && i64::MIN <= int_atom_val(atom@) <= i64::MAX),
        },
{
    match parse_signed_parts(atom) {
        Some((neg, mag)) => {
            if neg {
                if mag == 9223372036854775808u64 {
                    Some(i64::MIN)
                } else if mag <= i64::MAX as u64 {
                    Some(-(mag as i64))
                } else {
                    None
                }
            } else {
                if mag <= i64::MAX as u64 {
                    Some(mag as i64)
                } else {
                    None
                }
            }
        },
        None => {
            proof {
                if is_int_atom(atom@) {
                    lemma_digits_val_nonneg(int_atom_body(atom@));
                }
            }
            None
        },
    }
}

/// Parses a signed 32-bit decimal atom: an optional sign, one or more
/// digits. The minimum value is accepted through its unsigned magnitude.
pub fn parse_i32(atom: &str) -> (r: Option<i32>)
    ensures
        match r {
            Some(v) => is_int_atom(atom@) && v == int_atom_val(atom@),
            None => !(is_int_atom(atom@) && i32::MIN <= int_atom_val(atom@) <= i32::MAX),
        },
{
    match parse_signed_parts(atom) {
        Some((neg, mag)) => {
            if neg {
                if mag == 2147483648u64 {
                    Some(i32::MIN)
                } else if mag <= i32::MAX as u64 {
                    Some(-(mag as i32))
                } else {
                    None
                }
            } else {
                if mag <= i32::MAX as u64 {
                    Some(mag as i32)
                } else {
                    None
                }
            }
        },
        None => {
            proof {
                if is_int_atom(atom@) {
                    lemma_digits_val_nonneg(int_atom_body(atom@));
                }
            }
            None
        },
    }
}

/// Appends the canonical digit run of a 64-bit magnitude to `output`.
fn serialize_u64_digits(value: u64, output: &mut String)
    ensures
        final(output)@ == old(output)@ + uint_atom(value as int),
{
    let mut ds: Vec<char> = Vec::new();
    let mut rem: u64 = value;
    loop
        invariant_except_break
            all_dec_digits(ds@),
            uint_atom(value as int) =~= uint_atom(rem as int) + ds@.reverse(),
        ensures
            uint_atom(value as int) =~= ds@.reverse(),
        decreases rem,
    {
        let d: u64 = rem % 10;
        let c = ('0' as u32 + d as u32) as u8 as char;
        assert(c == dec_digit_char(d as int));
        proof {
            assert(ds@.push(c).reverse() =~= seq![c] + ds@.reverse());
        }
        ds.push(c);
        if rem < 10 {
            proof {
                assert(uint_atom(rem as int) =~= seq![dec_digit_char(rem as int)]);
                assert(d == rem);
                assert(uint_atom(value as int) =~= ds@.reverse());
            }
            break ;
        }
        proof {
            assert(uint_atom(rem as int) =~= uint_atom(rem as int / 10).push(
                dec_digit_char(rem as int % 10),
            ));
            assert(uint_atom(rem as int / 10).push(c) + ds@.reverse() =~= uint_atom(
                rem as int / 10,
            ) + (seq![c] + ds@.reverse()));
        }
        rem = rem / 10;
    }
    let k = ds.len();
    let mut j: usize = 0;
    while j < k
        invariant
            k == ds@.len(),
            j <= k,
            uint_atom(value as int) =~= ds@.reverse(),
            output@ == old(output)@ + ds@.reverse().take(j as int),
        decreases k - j,
    {
        let c = ds[k - 1 - j];
        assert(ds@.reverse()[j as int] == c);
        push_char(output, c);
        proof {
            assert(ds@.reverse().take(j + 1) =~= ds@.reverse().take(j as int).push(c));
        }
        j = j + 1;
    }
    proof {
        assert(ds@.reverse().take(k as int) =~= ds@.reverse());
    }
}

/// Appends the canonical decimal atom of `value` to `output`.
pub fn serialize_u64(value: u64, output: &mut String)
    ensures
        final(output)@ == old(output)@ + uint_atom(value as int),
{
    serialize_u64_digits(value, output);
}

/// The canonical decimal atom of `value`.
pub fn serialize_u64_as_string(value: u64) -> (r: String)
    ensures
        r@ == uint_atom(value as int),
{
    let mut output = String::new();
    serialize_u64(value, &mut output);
    output
}

/// Appends the canonical decimal atom of `value` to `output`.
pub fn serialize_u32(value: u32, output: &mut String)
    ensures
        final(output)@ == old(output)@ + uint_atom(value as int),
{
    serialize_u64_digits(value as u64, output);
}

/// The canonical decimal atom of `value`.
pub fn serialize_u32_as_string(value: u32) -> (r: String)
    ensures
        r@ == uint_atom(value as int),
{
    let mut output = String::new();
    serialize_u32(value, &mut output);
    output
}

/// Appends the canonical decimal atom of `value` to `output`. The minimum
/// value is rendered through its unsigned magnitude.
pub fn serialize_i64(value: i64, output: &mut String)
    ensures
        final(output)@ == old(output)@ + int_atom(value as int),
{
    if value < 0 {
        push_char(output, '-');
        let mag: u64 = if value == i64::MIN {
            9223372036854775808u64
        } else {
            (-value) as u64
        };
        assert(mag == -(value as int));
        serialize_u64_digits(mag, output);
        proof {
            assert(old(output)@.push('-') + uint_atom(mag as int) =~= old(output)@ + (seq!['-']
                + uint_atom(mag as int)));
        }
    } else {
        serialize_u64_digits(value as u64, output);
    }
}

/// The canonical decimal atom of `value`.
pub fn serialize_i64_as_string(value: i64) -> (r: String)
    ensures
        r@ == int_atom(value as int),
{
    let mut output = String::new();
    serialize_i64(value, &mut output);
    output
}

/// Appends the canonical decimal atom of `value` to `output`. The minimum
/// value is rendered through its unsigned magnitude.
pub fn serialize_i32(value: i32, output: &mut String)
    ensures
        final(output)@ == old(output)@ + int_atom(value as int),
{
    if value < 0 {
        push_char(output, '-');
        let mag: u64 = if value == i32::MIN {
            2147483648u64
        } else {
            (-value) as u64
        };
        assert(mag == -(value as int));
        serialize_u64_digits(mag, output);
        proof {
            assert(old(output)@.push('-') + uint_atom(mag as int) =~= old(output)@ + (seq!['-']
                + uint_atom(mag as int)));
        }
    } else {
        serialize_u64_digits(value as u64, output);
    }
}

/// The canonical decimal atom of `value`.
pub fn serialize_i32_as_string(value: i32) -> (r: String)
    ensures
        r@ == int_atom(value as int),
{
    let mut output = String::new();
    serialize_i32(value, &mut output);
    output
}

} // verus!
