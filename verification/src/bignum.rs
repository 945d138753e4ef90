//! Non-negative big integers over 64-bit limbs, used only inside the exact
//! paths of the binary/decimal float conversions. Each value is scoped to
//! one conversion call and never shared.

use vstd::prelude::*;

use vstd::arithmetic::power2::lemma_pow2_adds;
use vstd::arithmetic::power2::lemma_pow2_pos;
use vstd::arithmetic::power2::lemma_pow2_strictly_increases;
use vstd::arithmetic::power2::lemma_pow2_unfold;
use vstd::arithmetic::power2::lemma2_to64;
use vstd::arithmetic::power2::pow2;

verus! {

/// The value of a little-endian limb sequence.
pub open spec fn limbs_val(s: Seq<u64>) -> nat
    decreases s.len(),
{
    if s.len() == 0 {
        0
    } else {
        (s[0] + 0x10000000000000000 * limbs_val(s.skip(1))) as nat
    }
}

/// Degenerate products, stated so that callers can rewrite a product
/// whose factor is hidden behind a function symbol.
proof fn lemma_mul_unit(p: nat, x: nat)
    ensures
        p == 1 ==> p * x == x,
        p == 0 ==> p * x == 0,
        x == 0 ==> p * x == 0,
        x == 1 ==> p * x == p,
{
    assert(p == 1 ==> p * x == x) by (nonlinear_arith);
    assert(p == 0 ==> p * x == 0) by (nonlinear_arith);
    assert(x == 0 ==> p * x == 0) by (nonlinear_arith);
    assert(x == 1 ==> p * x == p) by (nonlinear_arith);
}

/// A non-negative integer of unbounded size, little-endian 64-bit limbs,
/// with no trailing zero limb.
pub struct Bignum {
    pub limbs: Vec<u64>,
}

impl View for Bignum {
    type V = nat;

    open spec fn view(&self) -> nat {
        limbs_val(self.limbs@)
    }
}

/// Appending a limb adds its value scaled by the current width.
pub proof fn lemma_limbs_val_push(s: Seq<u64>, x: u64)
    ensures
        limbs_val(s.push(x)) == limbs_val(s) + pow2(64 * s.len()) * x,
    decreases s.len(),
{
    if s.len() == 0 {
        assert(s.push(x).skip(1) =~= Seq::<u64>::empty());
        assert(s.push(x)[0] == x);
        lemma2_to64();
        reveal_with_fuel(limbs_val, 3);
        assert(limbs_val(s.push(x)) == x);
        assert(limbs_val(s.push(x)) == limbs_val(s) + pow2(64 * s.len()) * x)
            by (nonlinear_arith)
            requires
                limbs_val(s.push(x)) == x,
                limbs_val(s) == 0,
                pow2(64 * s.len()) == 1,
        {}
    } else {
        assert(s.push(x).skip(1) =~= s.skip(1).push(x));
        lemma_limbs_val_push(s.skip(1), x);
        lemma_pow2_adds(64, (64 * (s.len() - 1)) as nat);
        lemma2_to64();
        assert(pow2(64 * s.len()) == 0x10000000000000000 * pow2((64 * (s.len() - 1)) as nat));
        assert(s.push(x)[0] == s[0]);
        assert(limbs_val(s.push(x)) == s[0] + 0x10000000000000000 * limbs_val(s.skip(1).push(x)));
        assert(limbs_val(s) == s[0] + 0x10000000000000000 * limbs_val(s.skip(1)));
        assert(limbs_val(s.push(x)) == limbs_val(s) + pow2(64 * s.len()) * x) by (nonlinear_arith)
            requires
                limbs_val(s.push(x)) == s[0] + 0x10000000000000000 * limbs_val(s.skip(1).push(x)),
                limbs_val(s.skip(1).push(x)) == limbs_val(s.skip(1)) + pow2(
                    (64 * (s.len() - 1)) as nat,
                ) * x,
                limbs_val(s) == s[0] + 0x10000000000000000 * limbs_val(s.skip(1)),
                pow2(64 * s.len()) == 0x10000000000000000 * pow2((64 * (s.len() - 1)) as nat),
        {}
    }
}

/// A limb sequence of length `n` has value below `pow2(64 n)`.
pub proof fn lemma_limbs_val_bound(s: Seq<u64>)
    ensures
        limbs_val(s) < pow2(64 * s.len()),
    decreases s.len(),
{
    if s.len() == 0 {
        lemma2_to64();
    } else {
        let p = s.drop_last();
        assert(p.push(s.last()) =~= s);
        lemma_limbs_val_bound(p);
        lemma_limbs_val_push(p, s.last());
        lemma_pow2_adds(64 * p.len(), 64);
        lemma2_to64();
        lemma_pow2_pos(64 * p.len());
        assert(limbs_val(p) + pow2(64 * p.len()) * (s.last() as nat) < pow2(64 * p.len()) * (
        s.last() as nat + 1)) by (nonlinear_arith)
            requires
                limbs_val(p) < pow2(64 * p.len()),
        {}
        assert(pow2(64 * p.len()) * (s.last() as nat + 1) <= pow2(64 * p.len())
            * 0x10000000000000000) by (nonlinear_arith)
            requires
                pow2(64 * p.len()) > 0,
                s.last() as nat + 1 <= 0x10000000000000000,
        {}
    }
}

/// A limb sequence with a non-zero last limb has value at least
/// `pow2(64 (n - 1))`.
pub proof fn lemma_limbs_val_lower(s: Seq<u64>)
    requires
        s.len() > 0,
        s.last() != 0,
    ensures
        limbs_val(s) >= pow2((64 * (s.len() - 1)) as nat),
{
    let p = s.drop_last();
    assert(p.push(s.last()) =~= s);
    lemma_limbs_val_push(p, s.last());
    lemma_pow2_pos(64 * p.len());
    assert(pow2(64 * p.len()) * (s.last() as nat) >= pow2(64 * p.len())) by (nonlinear_arith)
        requires
            pow2(64 * p.len()) > 0,
            s.last() >= 1,
    {}
}

/// Removes trailing zero limbs, keeping the value.
fn trim(v: Vec<u64>) -> (r: Vec<u64>)
    ensures
        limbs_val(r@) == limbs_val(v@),
        r@.len() == 0 || r@.last() != 0,
{
    let mut w = v;
    let ghost orig = w@;
    while w.len() > 0 && w[w.len() - 1] == 0
        invariant
            limbs_val(w@) == limbs_val(orig),
        decreases w@.len(),
    {
        proof {
            let p = w@.drop_last();
            assert(p.push(w@.last()) =~= w@);
            lemma_limbs_val_push(p, w@.last());
        }
        w.pop();
    }
    w
}

impl Bignum {
    /// The limb vector carries no trailing zero limb.
    pub open spec fn wf(&self) -> bool {
        self.limbs@.len() == 0 || self.limbs@.last() != 0
    }

    /// The big integer with value `x`.
    pub fn from_u64(x: u64) -> (r: Bignum)
        ensures
            r@ == x,
            r.wf(),
    {
        let mut limbs: Vec<u64> = Vec::new();
        if x > 0 {
            limbs.push(x);
            proof {
                lemma_limbs_val_push(Seq::<u64>::empty(), x);
                lemma2_to64();
                assert(limbs_val(limbs@) == x) by (nonlinear_arith)
                    requires
                        limbs_val(limbs@) == limbs_val(Seq::<u64>::empty()) + pow2(
                            64 * Seq::<u64>::empty().len(),
                        ) * x,
                        limbs_val(Seq::<u64>::empty()) == 0,
                        pow2(64 * Seq::<u64>::empty().len()) == 1,
                {}
            }
        }
        Bignum { limbs }
    }

    /// Whether the value is zero.
    pub fn is_zero(&self) -> (r: bool)
        requires
            self.wf(),
        ensures
            r == (self@ == 0),
    {
        proof {
            if self.limbs@.len() > 0 {
                lemma_limbs_val_lower(self.limbs@);
                lemma_pow2_pos((64 * (self.limbs@.len() - 1)) as nat);
            }
        }
        self.limbs.len() == 0
    }

    /// The value `self * m + c`.
    pub fn mul_small_add(&self, m: u64, c: u64) -> (r: Bignum)
        ensures
            r@ == self@ * m + c,
            r.wf(),
    {
        let n = self.limbs.len();
        let mut out: Vec<u64> = Vec::new();
        let mut carry: u64 = c;
        let mut i: usize = 0;
        proof {
            assert(self.limbs@.take(0) =~= Seq::<u64>::empty());
            lemma2_to64();
            assert(limbs_val(out@) + pow2(64 * 0 as nat) * carry == limbs_val(
                self.limbs@.take(0),
            ) * m + c) by (nonlinear_arith)
                requires
                    limbs_val(out@) == 0,
                    carry == c,
                    pow2(64 * 0 as nat) == 1,
                    limbs_val(self.limbs@.take(0)) == 0,
            {}
        }
        while i < n
            invariant
                i <= n,
                n == self.limbs@.len(),
                out@.len() == i,
                limbs_val(out@) + pow2(64 * i as nat) * carry == limbs_val(
                    self.limbs@.take(i as int),
                ) * m + c,
            decreases n - i,
        {
            let a = self.limbs[i];
            proof {
                assert(a as u128 * m as u128 <= 0xFFFFFFFFFFFFFFFFu128 * 0xFFFFFFFFFFFFFFFFu128)
                    by (nonlinear_arith)
                    requires
                        a <= 0xFFFFFFFFFFFFFFFFu64,
                        m <= 0xFFFFFFFFFFFFFFFFu64,
                {}
            }
            let t: u128 = a as u128 * m as u128 + carry as u128;
            let lo: u64 = #[verifier::truncate] (t as u64);
            let hi: u64 = (t >> 64) as u64;
            proof {
                assert(t as u64 == t % 0x10000000000000000 && (t >> 64) as u64 == t
                    / 0x10000000000000000) by (bit_vector);
                assert(self.limbs@.take(i + 1).drop_last() =~= self.limbs@.take(i as int));
                assert(self.limbs@.take(i + 1).last() == a);
                assert(limbs_val(self.limbs@.take(i + 1)) == limbs_val(self.limbs@.take(i as int))
                    + pow2(64 * i as nat) * a) by {
                    lemma_limbs_val_push(self.limbs@.take(i as int), a);
                    assert(self.limbs@.take(i as int).push(a) =~= self.limbs@.take(i + 1));
                }
                lemma_limbs_val_push(out@, lo);
                lemma_pow2_adds(64 * i as nat, 64);
                lemma2_to64();
                // carry recomposition: lo + 2^64 hi == a * m + carry
                assert(t == a as nat * m as nat + carry);
                assert(lo + 0x10000000000000000 * hi == t);
                // distribute pow2(64 i) over the step
                assert(pow2(64 * i as nat) * (lo as nat + 0x10000000000000000 * hi) == pow2(
                    64 * i as nat,
                ) * (a as nat * m as nat + carry as nat)) by (nonlinear_arith)
                    requires
                        lo as nat + 0x10000000000000000 * hi == a as nat * m as nat + carry as nat,
                {}
                assert(pow2(64 * i as nat) * (lo as nat + 0x10000000000000000 * hi) == pow2(
                    64 * i as nat,
                ) * lo + (pow2(64 * i as nat) * 0x10000000000000000) * hi) by (nonlinear_arith);
                assert(pow2(64 * i as nat) * (a as nat * m as nat + carry as nat) == (pow2(
                    64 * i as nat,
                ) * a) * m + pow2(64 * i as nat) * carry) by (nonlinear_arith);
                assert((limbs_val(self.limbs@.take(i as int)) + pow2(64 * i as nat) * a) * m
                    == limbs_val(self.limbs@.take(i as int)) * m + (pow2(64 * i as nat) * a) * m)
                    by (nonlinear_arith);
            }
            out.push(lo);
            carry = hi;
            i = i + 1;
        }
        proof {
            assert(self.limbs@.take(n as int) =~= self.limbs@);
        }
        if carry > 0 {
            proof {
                lemma_limbs_val_push(out@, carry);
            }
            out.push(carry);
            proof {
                lemma_pow2_pos(64 * n as nat);
            }
            let r = Bignum { limbs: out };
            proof {
                assert(r.limbs@.last() == carry);
            }
            r
        } else {
            let out = trim(out);
            Bignum { limbs: out }
        }
    }

    /// Three-way comparison: `1` when `self` is greater than `other`, `0`
    /// when equal, `-1` when smaller.
    pub fn cmp3(&self, other: &Bignum) -> (r: i8)
        requires
            self.wf(),
            other.wf(),
        ensures
            r == 1i8 <==> self@ > other@,
            r == 0i8 <==> self@ == other@,
            r == -1i8 <==> self@ < other@,
    {
        let a = &self.limbs;
        let b = &other.limbs;
        if a.len() != b.len() {
            proof {
                if a@.len() < b@.len() {
                    lemma_limbs_val_bound(a@);
                    lemma_limbs_val_lower(b@);
                    if 64 * a@.len() < 64 * (b@.len() - 1) {
                        lemma_pow2_strictly_increases(64 * a@.len(), 64 * (b@.len() - 1) as nat);
                    }
                } else {
                    lemma_limbs_val_bound(b@);
                    lemma_limbs_val_lower(a@);
                    if 64 * b@.len() < 64 * (a@.len() - 1) {
                        lemma_pow2_strictly_increases(64 * b@.len(), 64 * (a@.len() - 1) as nat);
                    }
                }
            }
            if a.len() < b.len() {
                return -1;
            } else {
                return 1;
            }
        }
        let n = a.len();
        let mut i: usize = n;
        while i > 0
            invariant
                i <= n,
                n == a@.len() && n == b@.len(),
                a@ == self.limbs@,
                b@ == other.limbs@,
                forall|k: int| i <= k < n ==> a@[k] == b@[k],
            decreases i,
        {
            let j = i - 1;
            if a[j] != b[j] {
                proof {
                    lemma_limbs_cmp_at(a@, b@, j as int);
                    assert(self@ == limbs_val(a@));
                    assert(other@ == limbs_val(b@));
                }
                if a[j] > b[j] {
                    return 1;
                } else {
                    return -1;
                }
            }
            i = j;
        }
        proof {
            assert(a@ =~= b@);
        }
        0
    }

    /// The value `self - other`; the argument must not exceed `self`.
    pub fn sub(&self, other: &Bignum) -> (r: Bignum)
        requires
            self.wf(),
            other.wf(),
            other@ <= self@,
        ensures
            r@ == self@ - other@,
            r.wf(),
    {
        let a = &self.limbs;
        let b = &other.limbs;
        proof {
            if a@.len() < b@.len() {
                lemma_limbs_val_bound(a@);
                lemma_limbs_val_lower(b@);
                if 64 * a@.len() < 64 * (b@.len() - 1) {
                    lemma_pow2_strictly_increases(64 * a@.len(), 64 * (b@.len() - 1) as nat);
                }
            }
        }
        let n = a.len();
        let mut out: Vec<u64> = Vec::new();
        let mut borrow: u64 = 0;
        let mut i: usize = 0;
        proof {
            assert(a@.take(0) =~= Seq::<u64>::empty());
            assert(pad(b@, n as int).take(0) =~= Seq::<u64>::empty());
            lemma2_to64();
            assert(limbs_val(out@) + limbs_val(pad(b@, n as int).take(0)) == limbs_val(
                a@.take(0),
            ) + pow2(64 * 0 as nat) * borrow) by (nonlinear_arith)
                requires
                    limbs_val(out@) == 0,
                    limbs_val(pad(b@, n as int).take(0)) == 0,
                    limbs_val(a@.take(0)) == 0,
                    borrow == 0,
            {}
        }
        while i < n
            invariant
                i <= n,
                n == a@.len(),
                b@.len() <= n,
                borrow <= 1,
                out@.len() == i,
                limbs_val(out@) + limbs_val(pad(b@, n as int).take(i as int)) == limbs_val(
                    a@.take(i as int),
                ) + pow2(64 * i as nat) * borrow,
            decreases n - i,
        {
            let av = a[i];
            let bv: u64 = if i < b.len() {
                b[i]
            } else {
                0
            };
            assert(pad(b@, n as int)[i as int] == bv);
            let d: i128 = av as i128 - bv as i128 - borrow as i128;
            let (lo, nb): (u64, u64) = if d < 0 {
                ((d + 0x10000000000000000) as u64, 1u64)
            } else {
                (d as u64, 0u64)
            };
            proof {
                assert(lo as int == av as int - bv - borrow + 0x10000000000000000 * nb);
                lemma_limbs_val_push(a@.take(i as int), av);
                assert(a@.take(i as int).push(av) =~= a@.take(i + 1));
                lemma_limbs_val_push(pad(b@, n as int).take(i as int), bv);
                assert(pad(b@, n as int).take(i as int).push(bv) =~= pad(b@, n as int).take(i + 1));
                lemma_limbs_val_push(out@, lo);
                lemma_pow2_adds(64 * i as nat, 64);
                lemma2_to64();
                assert(pow2(64 * (i + 1) as nat) == pow2(64 * i as nat) * 0x10000000000000000);
                assert(limbs_val(out@.push(lo)) + limbs_val(pad(b@, n as int).take(i + 1))
                    == limbs_val(a@.take(i + 1)) + pow2(64 * (i + 1) as nat) * nb)
                    by (nonlinear_arith)
                    requires
                        limbs_val(out@.push(lo)) == limbs_val(out@) + pow2(64 * i as nat) * lo,
                        limbs_val(pad(b@, n as int).take(i + 1)) == limbs_val(
                            pad(b@, n as int).take(i as int),
                        ) + pow2(64 * i as nat) * bv,
                        limbs_val(a@.take(i + 1)) == limbs_val(a@.take(i as int)) + pow2(
                            64 * i as nat,
                        ) * av,
                        limbs_val(out@) + limbs_val(pad(b@, n as int).take(i as int)) == limbs_val(
                            a@.take(i as int),
                        ) + pow2(64 * i as nat) * borrow,
                        pow2(64 * (i + 1) as nat) == pow2(64 * i as nat) * 0x10000000000000000,
                        lo as int == av as int - bv - borrow + 0x10000000000000000 * nb,
                {}
            }
            out.push(lo);
            borrow = nb;
            i = i + 1;
        }
        proof {
            assert(a@.take(n as int) =~= a@);
            assert(pad(b@, n as int).take(n as int) =~= pad(b@, n as int));
            lemma_limbs_val_pad(b@, n as int);
            if borrow == 1 {
                lemma_limbs_val_bound(out@);
                assert(limbs_val(out@) >= pow2(64 * n as nat)) by (nonlinear_arith)
                    requires
                        limbs_val(out@) + limbs_val(b@) == limbs_val(a@) + pow2(64 * n as nat) * 1,
                        limbs_val(b@) <= limbs_val(a@),
                {}
            }
        }
        let out = trim(out);
        Bignum { limbs: out }
    }

    /// The value `self * pow2(k)`, by repeated doubling.
    pub fn shl_bits(&self, k: usize) -> (r: Bignum)
        ensures
            r@ == self@ * pow2(k as nat),
            r.wf(),
    {
        let mut r = self.mul_small_add(1, 0);
        let mut j: usize = 0;
        proof {
            lemma2_to64();
            lemma_mul_unit(self@, 1);
            lemma_mul_unit(self@, pow2(0));
        }
        while j < k
            invariant
                j <= k,
                r@ == self@ * pow2(j as nat),
                r.wf(),
            decreases k - j,
        {
            let r2 = r.mul_small_add(2, 0);
            proof {
                lemma_pow2_unfold((j + 1) as nat);
                assert((self@ * pow2(j as nat)) * 2 == self@ * (pow2(j as nat) * 2))
                    by (nonlinear_arith);
            }
            r = r2;
            j = j + 1;
        }
        proof {
            lemma2_to64();
        }
        r
    }

    /// The value `self * pow10(e)`, by repeated multiplication by ten.
    pub fn mul_pow10(&self, e: usize) -> (r: Bignum)
        ensures
            r@ == self@ * pow10(e as nat),
            r.wf(),
    {
        let mut r = self.mul_small_add(1, 0);
        let mut j: usize = 0;
        proof {
            lemma_mul_unit(self@, 1);
            lemma_mul_unit(self@, pow10(0));
        }
        while j < e
            invariant
                j <= e,
                r@ == self@ * pow10(j as nat),
                r.wf(),
            decreases e - j,
        {
            let r2 = r.mul_small_add(10, 0);
            proof {
                assert(pow10((j + 1) as nat) == pow10(j as nat) * 10);
                assert((self@ * pow10(j as nat)) * 10 == self@ * (pow10(j as nat) * 10))
                    by (nonlinear_arith);
            }
            r = r2;
            j = j + 1;
        }
        r
    }

    /// A loose upper estimate of the bit length, used only to seed scaling
    /// guesses; the callers re-check every bound by comparison.
    pub fn bit_len_estimate(&self) -> (r: u64)
        ensures
            r <= 0x4000000040u64,
    {
        let n = self.limbs.len();
        if n == 0 {
            return 0;
        }
        if n as u64 >= 0x100000000u64 {
            return 0x4000000000u64;
        }
        let mut top = self.limbs[n - 1];
        let mut c: u64 = 0;
        while top > 0
            invariant
                c <= 64,
            decreases top,
        {
            proof {
                assert(top >> 1u64 < top) by (bit_vector)
                    requires
                        top > 0,
                {}
            }
            top = top >> 1u64;
            if c < 64 {
                c = c + 1;
            }
        }
        (n as u64 - 1) * 64 + c
    }
}

/// `s` padded with zero limbs to length `n`.
pub open spec fn pad(s: Seq<u64>, n: int) -> Seq<u64> {
    if s.len() >= n {
        s
    } else {
        s + Seq::new((n - s.len()) as nat, |i: int| 0u64)
    }
}

/// Padding with zero limbs keeps the value.
pub proof fn lemma_limbs_val_pad(s: Seq<u64>, n: int)
    ensures
        limbs_val(pad(s, n)) == limbs_val(s),
    decreases n - s.len(),
{
    if s.len() < n {
        assert(pad(s, n) =~= pad(s.push(0u64), n));
        lemma_limbs_val_push(s, 0u64);
        lemma_limbs_val_pad(s.push(0u64), n);
    }
}

/// Two equally long limb sequences that agree above position `j` compare
/// as their limbs at `j` when those differ.
proof fn lemma_limbs_cmp_at(a: Seq<u64>, b: Seq<u64>, j: int)
    requires
        a.len() == b.len(),
        0 <= j < a.len(),
        forall|k: int| j < k < a.len() ==> a[k] == b[k],
        a[j] != b[j],
    ensures
        a[j] > b[j] ==> limbs_val(a) > limbs_val(b),
        a[j] < b[j] ==> limbs_val(a) < limbs_val(b),
    decreases a.len(),
{
    let n = a.len();
    if j == n - 1 {
        let pa = a.drop_last();
        let pb = b.drop_last();
        assert(pa.push(a.last()) =~= a);
        assert(pb.push(b.last()) =~= b);
        lemma_limbs_val_push(pa, a.last());
        lemma_limbs_val_push(pb, b.last());
        lemma_limbs_val_bound(pa);
        lemma_limbs_val_bound(pb);
        if a[j] > b[j] {
            assert(pow2(64 * pa.len()) * (a.last() as nat) >= pow2(64 * pa.len()) * (
            b.last() as nat) + pow2(64 * pa.len())) by (nonlinear_arith)
                requires
                    a.last() as nat >= b.last() as nat + 1,
            {}
        } else {
            assert(pow2(64 * pb.len()) * (b.last() as nat) >= pow2(64 * pb.len()) * (
            a.last() as nat) + pow2(64 * pb.len())) by (nonlinear_arith)
                requires
                    b.last() as nat >= a.last() as nat + 1,
            {}
        }
    } else {
        let pa = a.drop_last();
        let pb = b.drop_last();
        assert(pa.push(a.last()) =~= a);
        assert(pb.push(b.last()) =~= b);
        lemma_limbs_val_push(pa, a.last());
        lemma_limbs_val_push(pb, b.last());
        assert(a.last() == b.last());
        lemma_limbs_cmp_at(pa, pb, j);
    }
}

/// The power `10^e`.
pub open spec fn pow10(e: nat) -> nat
    decreases e,
{
    if e == 0 {
        1
    } else {
        pow10((e - 1) as nat) * 10
    }
}

/// Powers of ten multiply by adding exponents.
pub proof fn lemma_pow10_adds(e1: nat, e2: nat)
    ensures
        pow10(e1 + e2) == pow10(e1) * pow10(e2),
    decreases e2,
{
    if e2 == 0 {
        assert(pow10(e1) * 1 == pow10(e1)) by (nonlinear_arith);
    } else {
        lemma_pow10_adds(e1, (e2 - 1) as nat);
        assert(pow10(e1 + e2) == (pow10(e1) * pow10((e2 - 1) as nat)) * 10);
        assert((pow10(e1) * pow10((e2 - 1) as nat)) * 10 == pow10(e1) * (pow10(
            (e2 - 1) as nat,
        ) * 10)) by (nonlinear_arith);
    }
}

/// Powers of ten are at least one.
pub proof fn lemma_pow10_pos(e: nat)
    ensures
        pow10(e) >= 1,
    decreases e,
{
    if e > 0 {
        lemma_pow10_pos((e - 1) as nat);
        assert(pow10((e - 1) as nat) * 10 >= 1) by (nonlinear_arith)
            requires
                pow10((e - 1) as nat) >= 1,
        {}
    }
}


impl Bignum {
    /// A copy of this value.
    pub fn duplicate(&self) -> (r: Bignum)
        ensures
            r@ == self@,
            r.wf(),
    {
        let r = self.mul_small_add(1, 0);
        proof {
            assert(self@ * 1 + 0 == self@) by (nonlinear_arith);
        }
        r
    }

    /// Quotient and remainder of `num / den`, for a quotient known to lie
    /// below `pow2(nbits)`.
    pub fn div_rem_bounded(num: &Bignum, den: &Bignum, nbits: usize) -> (r: (u64, Bignum))
        requires
            num.wf(),
            den.wf(),
            den@ > 0,
            1 <= nbits <= 55,
            num@ < den@ * pow2(nbits as nat),
        ensures
            r.0 * den@ + r.1@ == num@,
            r.1@ < den@,
            r.1.wf(),
            r.0 < pow2(nbits as nat),
    {
        let mut table: Vec<Bignum> = Vec::new();
        let mut j: usize = 0;
        while j < nbits
            invariant
                j <= nbits,
                table@.len() == j,
                forall|k: int|
                    0 <= k < j ==> (#[trigger] table@[k])@ == den@ * pow2(k as nat)
                        && table@[k].wf(),
            decreases nbits - j,
        {
            table.push(den.shl_bits(j));
            j = j + 1;
        }
        let mut q: u64 = 0;
        let mut rem = num.duplicate();
        let mut i: usize = 0;
        proof {
            lemma_pow2_pos(nbits as nat);
            assert(q * den@ + rem@ == num@) by (nonlinear_arith)
                requires
                    q == 0,
                    rem@ == num@,
            {}
        }
        while i < nbits
            invariant
                i <= nbits,
                1 <= nbits <= 55,
                den@ > 0,
                den.wf(),
                rem.wf(),
                table@.len() == nbits,
                forall|k: int|
                    0 <= k < nbits ==> (#[trigger] table@[k])@ == den@ * pow2(k as nat)
                        && table@[k].wf(),
                q * den@ + rem@ == num@,
                rem@ < den@ * pow2((nbits - i) as nat),
                num@ < den@ * pow2(nbits as nat),
                q < pow2(nbits as nat),
            decreases nbits - i,
        {
            let bit = nbits - 1 - i;
            let c = table[bit].cmp3(&rem);
            if c <= 0 {
                let rem2 = rem.sub(&table[bit]);
                proof {
                    lemma2_to64();
                    vstd::arithmetic::power2::lemma2_to64_rest();
                    if (bit as nat) < 55 {
                        lemma_pow2_strictly_increases(bit as nat, 55);
                    }
                    assert(1u64 * pow2(bit as nat) == pow2(bit as nat)) by (nonlinear_arith);
                    vstd::bits::lemma_u64_shl_is_mul(1u64, bit as u64);
                    assert((q + (1u64 << (bit as u64))) * den@ + rem2@ == num@)
                        by (nonlinear_arith)
                        requires
                            q * den@ + rem@ == num@,
                            rem2@ == rem@ - table@[bit as int]@,
                            table@[bit as int]@ == den@ * pow2(bit as nat),
                            (1u64 << (bit as u64)) == pow2(bit as nat),
                    {}
                    assert(rem2@ < den@ * pow2((nbits - i - 1) as nat)) by (nonlinear_arith)
                        requires
                            rem2@ == rem@ - den@ * pow2(bit as nat),
                            rem@ < den@ * pow2((nbits - i) as nat),
                            pow2((nbits - i) as nat) == 2 * pow2((nbits - i - 1) as nat),
                            bit == nbits - 1 - i,
                            pow2(bit as nat) == pow2((nbits - i - 1) as nat),
                    {
                        lemma_pow2_unfold((nbits - i) as nat);
                    }
                    assert(q + (1u64 << (bit as u64)) < pow2(nbits as nat)) by (nonlinear_arith)
                        requires
                            (q + (1u64 << (bit as u64))) * den@ + rem2@ == num@,
                            num@ < den@ * pow2(nbits as nat),
                            den@ > 0,
                            rem2@ >= 0,
                    {}
                }
                proof {
                    lemma_pow2_unfold((nbits - i) as nat);
                }
                q = q + (1u64 << (bit as u64));
                rem = rem2;
            } else {
                proof {
                    lemma_pow2_unfold((nbits - i) as nat);
                    assert(rem@ < den@ * pow2((nbits - i - 1) as nat)) by (nonlinear_arith)
                        requires
                            rem@ < table@[bit as int]@,
                            table@[bit as int]@ == den@ * pow2(bit as nat),
                            pow2(bit as nat) == pow2((nbits - i - 1) as nat),
                    {}
                }
            }
            i = i + 1;
        }
        proof {
            lemma2_to64();
            assert(rem@ < den@) by (nonlinear_arith)
                requires
                    rem@ < den@ * pow2((nbits - i) as nat),
                    pow2((nbits - i) as nat) == 1,
            {}
        }
        (q, rem)
    }
}

} // verus!
