//! Natural numbers of unbounded width.
//!
//! A `Wide` keeps its value as little-endian limbs in base 2^32. The exact
//! intermediate results of binary32 arithmetic and of decimal conversion do
//! not fit a machine word, so they are carried in this type.

use vstd::prelude::*;
use vstd::arithmetic::power2::*;
use vstd::arithmetic::div_mod::*;

verus! {

/// The base of the limb representation, 2^32.
pub(crate) open spec fn radix() -> nat {
    0x1_0000_0000
}

/// `radix()` raised to the power `k`.
pub(crate) open spec fn radix_pow(k: nat) -> nat
    decreases k,
{
    if k == 0 {
        1
    } else {
        radix() * radix_pow((k - 1) as nat)
    }
}

/// The number that little-endian `limbs` stand for.
pub(crate) open spec fn limbs_value(limbs: Seq<u32>) -> nat
    decreases limbs.len(),
{
    if limbs.len() == 0 {
        0
    } else {
        limbs[0] as nat + radix() * limbs_value(limbs.drop_first())
    }
}

/// A power of the radix is a power of two.
pub(crate) proof fn lemma_radix_pow_is_pow2(k: nat)
    ensures
        radix_pow(k) == pow2(32 * k),
        radix_pow(k) > 0,
    decreases k,
{
    lemma2_to64();
    if k > 0 {
        lemma_radix_pow_is_pow2((k - 1) as nat);
        lemma_pow2_adds(32, 32 * ((k - 1) as nat));
        assert(32 + 32 * ((k - 1) as nat) == 32 * k);
        assert(radix_pow((k - 1) as nat) > 0);
        assert(radix() * radix_pow((k - 1) as nat) > 0) by (nonlinear_arith)
            requires
                radix() > 0,
                radix_pow((k - 1) as nat) > 0,
        ;
    }
}

/// A limb appended at the high end adds its value at that place.
pub(crate) proof fn lemma_value_push(s: Seq<u32>, x: u32)
    ensures
        limbs_value(s.push(x)) == limbs_value(s) + x * radix_pow(s.len()),
    decreases s.len(),
{
    if s.len() == 0 {
        assert(s.push(x).drop_first() =~= Seq::<u32>::empty());
        assert(limbs_value(s.push(x)) == x as nat + radix() * limbs_value(Seq::<u32>::empty()));
        assert(radix_pow(0) == 1);
        assert(x * radix_pow(0) == x);
    } else {
        let t = s.drop_first();
        assert(s.push(x).drop_first() =~= t.push(x));
        lemma_value_push(t, x);
        let p = radix_pow(t.len());
        assert(radix_pow(s.len()) == radix() * p);
        assert(s.push(x)[0] == s[0]);
        assert(limbs_value(s.push(x)) == s[0] as nat + radix() * limbs_value(t.push(x)));
        assert(limbs_value(s) == s[0] as nat + radix() * limbs_value(t));
        assert(radix() * (limbs_value(t) + x * p) == radix() * limbs_value(t) + x * (radix() * p))
            by (nonlinear_arith);
    }
}

/// Limbs stand for a number below the radix to the power of their count.
pub(crate) proof fn lemma_value_bound(s: Seq<u32>)
    ensures
        limbs_value(s) < radix_pow(s.len()),
    decreases s.len(),
{
    if s.len() > 0 {
        let t = s.drop_first();
        lemma_value_bound(t);
        let p = radix_pow(t.len());
        let v = limbs_value(t);
        assert(s[0] as nat + radix() * v < radix() * p) by (nonlinear_arith)
            requires
                v < p,
                s[0] < radix(),
        ;
    }
}

/// The value of limbs is that of the low ones plus that of the high ones
/// at their place.
pub(crate) proof fn lemma_value_split(s: Seq<u32>, k: int)
    requires
        0 <= k <= s.len(),
    ensures
        limbs_value(s) == limbs_value(s.take(k)) + radix_pow(k as nat) * limbs_value(s.skip(k)),
    decreases k,
{
    if k == 0 {
        assert(s.take(0) =~= Seq::<u32>::empty());
        assert(s.skip(0) =~= s);
        assert(radix_pow(0) == 1);
        assert(radix_pow(0) * limbs_value(s) == limbs_value(s));
    } else {
        let t = s.drop_first();
        lemma_value_split(t, k - 1);
        assert(s.take(k).drop_first() =~= t.take(k - 1));
        assert(s.skip(k) =~= t.skip(k - 1));
        let p = radix_pow((k - 1) as nat);
        let hi = limbs_value(s.skip(k));
        let lo = limbs_value(t.take(k - 1));
        assert(radix_pow(k as nat) == radix() * p);
        assert(s.take(k)[0] == s[0]);
        assert(limbs_value(s.take(k)) == s[0] as nat + radix() * lo);
        assert(limbs_value(s) == s[0] as nat + radix() * limbs_value(t));
        assert(radix() * (lo + p * hi) == radix() * lo + (radix() * p) * hi) by (nonlinear_arith);
    }
}

/// Limbs that are all zero stand for zero.
pub(crate) proof fn lemma_value_zeros(s: Seq<u32>)
    requires
        forall|i: int| 0 <= i < s.len() ==> s[i] == 0,
    ensures
        limbs_value(s) == 0,
    decreases s.len(),
{
    if s.len() > 0 {
        lemma_value_zeros(s.drop_first());
    }
}

/// Two limb sequences of one length that agree above position `j` are
/// ordered as their limbs at `j` are.
pub(crate) proof fn lemma_value_decided_at(a: Seq<u32>, b: Seq<u32>, j: int)
    requires
        a.len() == b.len(),
        0 <= j < a.len(),
        a.skip(j + 1) == b.skip(j + 1),
        a[j] < b[j],
    ensures
        limbs_value(a) < limbs_value(b),
{
    lemma_value_split(a, j);
    lemma_value_split(b, j);
    lemma_value_bound(a.take(j));
    assert(a.skip(j).drop_first() =~= a.skip(j + 1));
    assert(b.skip(j).drop_first() =~= b.skip(j + 1));
    let p = radix_pow(j as nat);
    let u = limbs_value(a.skip(j + 1));
    let va = limbs_value(a.skip(j));
    let vb = limbs_value(b.skip(j));
    assert(va == a[j] as nat + radix() * u);
    assert(vb == b[j] as nat + radix() * u);
    assert(p * va + p <= p * vb) by (nonlinear_arith)
        requires
            va + 1 <= vb,
    ;
}

/// A natural number of unbounded width.
pub(crate) struct Wide {
    limbs: Vec<u32>,
}

impl View for Wide {
    type V = nat;

    closed spec fn view(&self) -> nat {
        limbs_value(self.limbs@)
    }
}

impl Wide {
    /// The number `x`.
    pub(crate) fn from_u64(x: u64) -> (r: Wide)
        ensures
            r@ == x,
    {
        let mut limbs: Vec<u32> = Vec::new();
        limbs.push((x % 0x1_0000_0000) as u32);
        limbs.push((x / 0x1_0000_0000) as u32);
        proof {
            let s = limbs@;
            assert(s.drop_first().drop_first() =~= Seq::<u32>::empty());
            assert(limbs_value(s.drop_first()) == s[1] as nat + radix() * limbs_value(
                s.drop_first().drop_first(),
            ));
        }
        Wide { limbs }
    }

    /// The product of `self` and the word `m`.
    pub(crate) fn mul_small(&self, m: u32) -> (r: Wide)
        ensures
            r@ == self@ * m,
    {
        let n = self.limbs.len();
        let mut out: Vec<u32> = Vec::new();
        let mut carry: u64 = 0;
        let mut i: usize = 0;
        proof {
            assert(self.limbs@.take(0) =~= Seq::<u32>::empty());
            assert(limbs_value(self.limbs@.take(0)) == 0);
            assert(0 * m == 0);
            assert(carry * radix_pow(0) == 0);
        }
        while i < n
            invariant
                i <= n,
                n == self.limbs.len(),
                out.len() == i,
                carry < 0x1_0000_0000,
                limbs_value(out@) + carry * radix_pow(i as nat) == limbs_value(
                    self.limbs@.take(i as int),
                ) * m,
            decreases n - i,
        {
            let limb = self.limbs[i];
            assert(limb as u64 * m as u64 + carry <= 0xffff_ffff_ffff_ffff) by (nonlinear_arith)
                requires
                    limb <= 0xffff_ffff,
                    m <= 0xffff_ffff,
                    carry < 0x1_0000_0000,
            ;
            let cur: u64 = limb as u64 * m as u64 + carry;
            let low: u32 = (cur % 0x1_0000_0000) as u32;
            let high: u64 = cur / 0x1_0000_0000;
            proof {
                let p = radix_pow(i as nat);
                let prev = self.limbs@.take(i as int);
                assert(self.limbs@.take(i + 1) =~= prev.push(limb));
                lemma_value_push(prev, limb);
                lemma_value_push(out@, low);
                assert(radix_pow((i + 1) as nat) == radix() * p);
                assert(cur == low + radix() * high);
                assert(limbs_value(out@) + low * p + high * (radix() * p) == (limbs_value(prev)
                    + limb * p) * m) by (nonlinear_arith)
                    requires
                        limbs_value(out@) + carry * p == limbs_value(prev) * m,
                        limb * m + carry == low + radix() * high,
                ;
            }
            out.push(low);
            carry = high;
            i += 1;
        }
        proof {
            assert(self.limbs@.take(n as int) =~= self.limbs@);
            lemma_value_push(out@, carry as u32);
        }
        out.push(carry as u32);
        Wide { limbs: out }
    }

    /// The sum of `self` and the word `m`.
    pub(crate) fn add_small(&self, m: u32) -> (r: Wide)
        ensures
            r@ == self@ + m,
    {
        let n = self.limbs.len();
        let mut out: Vec<u32> = Vec::new();
        let mut carry: u64 = m as u64;
        let mut i: usize = 0;
        proof {
            assert(self.limbs@.take(0) =~= Seq::<u32>::empty());
            assert(radix_pow(0) == 1);
            assert(carry * radix_pow(0) == m);
        }
        while i < n
            invariant
                i <= n,
                n == self.limbs.len(),
                out.len() == i,
                carry < 0x1_0000_0000,
                limbs_value(out@) + carry * radix_pow(i as nat) == limbs_value(
                    self.limbs@.take(i as int),
                ) + m,
            decreases n - i,
        {
            let limb = self.limbs[i];
            let cur: u64 = limb as u64 + carry;
            let low: u32 = (cur % 0x1_0000_0000) as u32;
            let high: u64 = cur / 0x1_0000_0000;
            proof {
                let p = radix_pow(i as nat);
                let prev = self.limbs@.take(i as int);
                assert(self.limbs@.take(i + 1) =~= prev.push(limb));
                lemma_value_push(prev, limb);
                lemma_value_push(out@, low);
                assert(radix_pow((i + 1) as nat) == radix() * p);
                assert(limbs_value(out@) + low * p + high * (radix() * p) == limbs_value(prev)
                    + limb * p + m) by (nonlinear_arith)
                    requires
                        limbs_value(out@) + carry * p == limbs_value(prev) + m,
                        limb + carry == low + radix() * high,
                ;
            }
            out.push(low);
            carry = high;
            i += 1;
        }
        proof {
            assert(self.limbs@.take(n as int) =~= self.limbs@);
            lemma_value_push(out@, carry as u32);
        }
        out.push(carry as u32);
        Wide { limbs: out }
    }

    /// The difference of `self` and the word `m`, which is no larger.
    pub(crate) fn sub_small(&self, m: u32) -> (r: Wide)
        requires
            self@ >= m,
        ensures
            r@ == self@ - m,
    {
        let n = self.limbs.len();
        let mut out: Vec<u32> = Vec::new();
        let mut borrow: u64 = m as u64;
        let mut i: usize = 0;
        proof {
            assert(self.limbs@.take(0) =~= Seq::<u32>::empty());
            assert(limbs_value(self.limbs@.take(0)) == 0);
            assert(radix_pow(0) == 1);
            assert(borrow * radix_pow(0) == m);
        }
        while i < n
            invariant
                i <= n,
                n == self.limbs.len(),
                out.len() == i,
                borrow < 0x1_0000_0000,
                limbs_value(out@) + m == limbs_value(self.limbs@.take(i as int)) + borrow
                    * radix_pow(i as nat),
            decreases n - i,
        {
            let limb = self.limbs[i];
            let low: u32;
            let next: u64;
            if limb as u64 >= borrow {
                low = (limb as u64 - borrow) as u32;
                next = 0;
            } else {
                low = (limb as u64 + 0x1_0000_0000 - borrow) as u32;
                next = 1;
            }
            proof {
                let p = radix_pow(i as nat);
                let prev = self.limbs@.take(i as int);
                assert(self.limbs@.take(i + 1) =~= prev.push(limb));
                lemma_value_push(prev, limb);
                lemma_value_push(out@, low);
                assert(radix_pow((i + 1) as nat) == radix() * p);
                assert(limbs_value(out@) + low * p + m == limbs_value(prev) + limb * p + next * (
                radix() * p)) by (nonlinear_arith)
                    requires
                        limbs_value(out@) + m == limbs_value(prev) + borrow * p,
                        low + borrow == limb + radix() * next,
                ;
            }
            out.push(low);
            borrow = next;
            i += 1;
        }
        proof {
            assert(self.limbs@.take(n as int) =~= self.limbs@);
            lemma_value_bound(out@);
            let p = radix_pow(n as nat);
            if borrow >= 1 {
                assert(borrow * p >= p) by (nonlinear_arith)
                    requires
                        borrow >= 1,
                        p >= 0,
                ;
            }
            assert(borrow == 0);
            assert(borrow * p == 0);
        }
        Wide { limbs: out }
    }

    /// The quotient and the remainder of `self` by the word `d`.
    pub(crate) fn divmod_small(&self, d: u32) -> (r: (Wide, u32))
        requires
            d > 0,
        ensures
            r.0@ == self@ / (d as nat),
            r.1 == self@ % (d as nat),
    {
        let n = self.limbs.len();
        let mut out: Vec<u32> = Vec::new();
        let mut k: usize = 0;
        while k < n
            invariant
                k <= n,
                out.len() == k,
            decreases n - k,
        {
            out.push(0);
            k += 1;
        }
        let mut rem: u64 = 0;
        let mut i: usize = n;
        proof {
            assert(self.limbs@.skip(n as int) =~= Seq::<u32>::empty());
            assert(out@.skip(n as int) =~= Seq::<u32>::empty());
            assert(limbs_value(out@.skip(n as int)) == 0);
            assert(d * 0 == 0);
        }
        while i > 0
            invariant
                i <= n,
                n == self.limbs.len(),
                out.len() == n,
                d > 0,
                rem < d,
                limbs_value(self.limbs@.skip(i as int)) == d * limbs_value(out@.skip(i as int))
                    + rem,
            decreases i,
        {
            let ghost old_out = out@;
            i -= 1;
            let limb = self.limbs[i];
            let cur: u64 = rem * 0x1_0000_0000 + limb as u64;
            let q: u64 = cur / (d as u64);
            let next: u64 = cur % (d as u64);
            proof {
                lemma_fundamental_div_mod(cur as int, d as int);
                assert(q < 0x1_0000_0000) by (nonlinear_arith)
                    requires
                        cur == d * q + next,
                        cur < d * 0x1_0000_0000,
                        d > 0,
                        next >= 0,
                ;
            }
            out.set(i, q as u32);
            proof {
                let hi_a = limbs_value(self.limbs@.skip(i + 1));
                let hi_q = limbs_value(old_out.skip(i + 1));
                assert(self.limbs@.skip(i as int).drop_first() =~= self.limbs@.skip(i + 1));
                assert(out@.skip(i as int).drop_first() =~= old_out.skip(i + 1));
                assert(limbs_value(self.limbs@.skip(i as int)) == limb as nat + radix() * hi_a);
                assert(limbs_value(out@.skip(i as int)) == q as nat + radix() * hi_q);
                assert(limb + radix() * (d * hi_q + rem) == d * (q + radix() * hi_q) + next)
                    by (nonlinear_arith)
                    requires
                        rem * radix() + limb == d * q + next,
                ;
            }
            rem = next;
        }
        proof {
            assert(self.limbs@.skip(0) =~= self.limbs@);
            assert(out@.skip(0) =~= out@);
            assert(d * limbs_value(out@) == limbs_value(out@) * d) by (nonlinear_arith);
            lemma_fundamental_div_mod_converse(
                limbs_value(self.limbs@) as int,
                d as int,
                limbs_value(out@) as int,
                rem as int,
            );
        }
        (Wide { limbs: out }, rem as u32)
    }

    /// `self` times two to the power `n`.
    pub(crate) fn shl(&self, n: u32) -> (r: Wide)
        ensures
            r@ == self@ * pow2(n as nat),
    {
        let whole: u32 = n / 32;
        let part: u32 = n % 32;
        let mut limbs: Vec<u32> = Vec::new();
        let mut k: u32 = 0;
        while k < whole
            invariant
                k <= whole,
                limbs.len() == k,
                forall|i: int| 0 <= i < limbs.len() ==> limbs[i] == 0,
            decreases whole - k,
        {
            limbs.push(0);
            k += 1;
        }
        let ghost zeros = limbs@;
        let len = self.limbs.len();
        let mut i: usize = 0;
        while i < len
            invariant
                i <= len,
                len == self.limbs.len(),
                limbs@ =~= zeros + self.limbs@.take(i as int),
            decreases len - i,
        {
            limbs.push(self.limbs[i]);
            i += 1;
        }
        let factor: u32 = Self::pow2_word(part);
        let shifted = Wide { limbs };
        proof {
            assert(self.limbs@.take(len as int) =~= self.limbs@);
            let all = zeros + self.limbs@;
            lemma_value_split(all, whole as int);
            assert(all.take(whole as int) =~= zeros);
            assert(all.skip(whole as int) =~= self.limbs@);
            lemma_value_zeros(zeros);
            lemma_radix_pow_is_pow2(whole as nat);
            lemma_pow2_adds(32 * (whole as nat), part as nat);
            assert(32 * (whole as nat) + part == n);
            let v = limbs_value(self.limbs@);
            let pw = pow2(32 * (whole as nat));
            let pp = pow2(part as nat);
            assert((pw * v) * pp == v * (pw * pp)) by (nonlinear_arith);
        }
        shifted.mul_small(factor)
    }

    /// `self` divided by two to the power `n`, rounded down.
    pub(crate) fn shr(&self, n: u32) -> (r: Wide)
        ensures
            r@ == self@ / pow2(n as nat),
    {
        let whole: u32 = n / 32;
        let part: u32 = n % 32;
        let len = self.limbs.len();
        let mut limbs: Vec<u32> = Vec::new();
        let start: usize = if (whole as usize) < len { whole as usize } else { len };
        let mut i: usize = start;
        while i < len
            invariant
                start <= i <= len,
                len == self.limbs.len(),
                limbs@ =~= self.limbs@.subrange(start as int, i as int),
            decreases len - i,
        {
            limbs.push(self.limbs[i]);
            i += 1;
        }
        let factor: u32 = Self::pow2_word(part);
        let upper = Wide { limbs };
        proof {
            let v = limbs_value(self.limbs@);
            let pp = pow2(part as nat);
            lemma_pow2_pos(part as nat);
            lemma_pow2_adds(32 * (whole as nat), part as nat);
            assert(32 * (whole as nat) + part == n);
            assert(self.limbs@.subrange(start as int, len as int) =~= self.limbs@.skip(
                start as int,
            ));
            lemma_value_split(self.limbs@, start as int);
            lemma_value_bound(self.limbs@.take(start as int));
            let lo = limbs_value(self.limbs@.take(start as int));
            let hi = limbs_value(self.limbs@.skip(start as int));
            let ps = radix_pow(start as nat);
            lemma_radix_pow_is_pow2(start as nat);
            lemma_radix_pow_is_pow2(whole as nat);
            let pw = pow2(32 * (whole as nat));
            assert(ps * hi == hi * ps) by (nonlinear_arith);
            lemma_fundamental_div_mod_converse(v as int, ps as int, hi as int, lo as int);
            assert(hi == v / ps);
            if start < whole {
                // every limb is below the cut: the quotient is zero
                assert(self.limbs@.skip(start as int) =~= Seq::<u32>::empty());
                assert(hi == 0);
                lemma_pow2_strictly_increases(32 * (start as nat), 32 * (whole as nat));
                assert(v < pw);
                lemma_pow2_pos(n as nat);
                assert(pw * pp >= pw) by (nonlinear_arith)
                    requires
                        pp >= 1,
                        pw >= 0,
                ;
                lemma_basic_div(v as int, pow2(n as nat) as int);
                lemma_basic_div(0, pp as int);
            } else {
                lemma_div_denominator(v as int, pw as int, pp as int);
            }
        }
        let (q, _) = upper.divmod_small(factor);
        q
    }

    /// Whether `self` is at most `other`.
    pub(crate) fn le(&self, other: &Wide) -> (r: bool)
        ensures
            r == (self@ <= other@),
    {
        let la = self.limbs.len();
        let lb = other.limbs.len();
        let n = if la < lb { lb } else { la };
        let a = Self::padded(&self.limbs, n);
        let b = Self::padded(&other.limbs, n);
        let mut i: usize = n;
        proof {
            assert(a@.skip(n as int) =~= b@.skip(n as int));
        }
        while i > 0
            invariant
                i <= n,
                a.len() == n,
                b.len() == n,
                a@.skip(i as int) == b@.skip(i as int),
                limbs_value(a@) == self@,
                limbs_value(b@) == other@,
            decreases i,
        {
            i -= 1;
            if a[i] < b[i] {
                proof {
                    lemma_value_decided_at(a@, b@, i as int);
                }
                return true;
            }
            if a[i] > b[i] {
                proof {
                    lemma_value_decided_at(b@, a@, i as int);
                }
                return false;
            }
            proof {
                assert(a@.skip(i as int) =~= seq![a[i as int]] + a@.skip(i + 1));
                assert(b@.skip(i as int) =~= seq![b[i as int]] + b@.skip(i + 1));
            }
        }
        proof {
            assert(a@.skip(0) =~= a@);
            assert(b@.skip(0) =~= b@);
        }
        true
    }

    /// Whether `self` is zero.
    pub(crate) fn is_zero(&self) -> (r: bool)
        ensures
            r == (self@ == 0),
    {
        let zero = Wide::from_u64(0);
        self.le(&zero)
    }

    /// Two to the power `k`, for `k` below the width of a limb.
    fn pow2_word(k: u32) -> (r: u32)
        requires
            k < 32,
        ensures
            r == pow2(k as nat),
            r > 0,
    {
        let mut factor: u32 = 1;
        let mut j: u32 = 0;
        proof {
            lemma2_to64();
        }
        while j < k
            invariant
                j <= k,
                k < 32,
                factor == pow2(j as nat),
                factor > 0,
                pow2(31) == 0x8000_0000,
            decreases k - j,
        {
            proof {
                lemma_pow2_unfold((j + 1) as nat);
                if j + 1 < 31 {
                    lemma_pow2_strictly_increases((j + 1) as nat, 31);
                }
            }
            factor = factor * 2;
            j += 1;
        }
        factor
    }

    /// The limbs `limbs`, extended by zeros to the length `n`.
    fn padded(limbs: &Vec<u32>, n: usize) -> (r: Vec<u32>)
        requires
            limbs.len() <= n,
        ensures
            r.len() == n,
            limbs_value(r@) == limbs_value(limbs@),
    {
        let mut out: Vec<u32> = Vec::new();
        let len = limbs.len();
        let mut i: usize = 0;
        while i < len
            invariant
                i <= len,
                len == limbs.len(),
                out@ =~= limbs@.take(i as int),
            decreases len - i,
        {
            out.push(limbs[i]);
            i += 1;
        }
        proof {
            assert(limbs@.take(len as int) =~= limbs@);
        }
        while i < n
            invariant
                len <= i <= n,
                out.len() == i,
                limbs_value(out@) == limbs_value(limbs@),
            decreases n - i,
        {
            proof {
                lemma_value_push(out@, 0);
                assert(0 * radix_pow(out@.len()) == 0);
            }
            out.push(0);
            i += 1;
        }
        out
    }
}

} // verus!
