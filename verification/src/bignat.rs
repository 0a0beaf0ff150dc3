//! Natural numbers of any size, for exact products of counts.

use vstd::prelude::*;

verus! {

/// The base of the digits.
pub open spec fn base() -> int {
    0x1_0000_0000
}

/// `base()` to the power `i`.
pub open spec fn weight(i: nat) -> int
    decreases i,
{
    if i == 0 {
        1
    } else {
        base() * weight((i - 1) as nat)
    }
}

/// The number that the digits stand for, least significant digit first.
pub open spec fn value_of(digits: Seq<u32>) -> int
    decreases digits.len(),
{
    if digits.len() == 0 {
        0
    } else {
        value_of(digits.drop_last()) + digits.last() * weight((digits.len() - 1) as nat)
    }
}

/// The product of the numbers in `s`; 1 for the empty sequence.
pub open spec fn product(s: Seq<u32>) -> int
    decreases s.len(),
{
    if s.len() == 0 {
        1
    } else {
        product(s.drop_last()) * s.last()
    }
}

/// Every weight is at least 1.
pub proof fn lemma_weight_positive(i: nat)
    ensures
        weight(i) >= 1,
    decreases i,
{
    if i > 0 {
        lemma_weight_positive((i - 1) as nat);
        assert(base() * weight((i - 1) as nat) >= 1) by (nonlinear_arith)
            requires
                weight((i - 1) as nat) >= 1,
                base() == 0x1_0000_0000,
        ;
    }
}

/// A product of counts is not negative.
pub proof fn lemma_product_nonnegative(s: Seq<u32>)
    ensures
        product(s) >= 0,
    decreases s.len(),
{
    if s.len() > 0 {
        lemma_product_nonnegative(s.drop_last());
        let p = product(s.drop_last());
        let l = s.last() as int;
        assert(p * l >= 0) by (nonlinear_arith)
            requires
                p >= 0,
                l >= 0,
        ;
    }
}

/// A product of positive numbers is positive.
pub proof fn lemma_product_positive(s: Seq<u32>)
    requires
        forall|i: int| 0 <= i < s.len() ==> #[trigger] s[i] > 0,
    ensures
        product(s) > 0,
    decreases s.len(),
{
    if s.len() > 0 {
        assert forall|i: int| 0 <= i < s.drop_last().len() implies #[trigger] s.drop_last()[i]
            > 0 by {
            assert(s[i] > 0);
        }
        lemma_product_positive(s.drop_last());
        let p = product(s.drop_last());
        let l = s.last() as int;
        assert(p * l > 0) by (nonlinear_arith)
            requires
                p > 0,
                l > 0,
        ;
    }
}

/// The product of two sequences written one after the other.
pub proof fn lemma_product_concat(a: Seq<u32>, b: Seq<u32>)
    ensures
        product(a + b) == product(a) * product(b),
    decreases b.len(),
{
    if b.len() == 0 {
        assert(a + b =~= a);
    } else {
        assert((a + b).drop_last() =~= a + b.drop_last());
        lemma_product_concat(a, b.drop_last());
        let pa = product(a);
        let pb = product(b.drop_last());
        let l = b.last() as int;
        assert((pa * pb) * l == pa * (pb * l)) by (nonlinear_arith);
    }
}

/// A natural number of any size.
pub struct BigNat {
    pub digits: Vec<u32>,
}

impl BigNat {
    /// The number itself.
    pub open spec fn value(&self) -> int {
        value_of(self.digits@)
    }

    /// The number 1.
    pub fn one() -> (r: BigNat)
        ensures
            r.value() == 1,
    {
        let mut digits: Vec<u32> = Vec::new();
        digits.push(1);
        assert(digits@.drop_last() =~= Seq::<u32>::empty());
        assert(value_of(digits@) == value_of(digits@.drop_last()) + 1 * weight(0));
        BigNat { digits }
    }

    /// `self` times `m`.
    pub fn times(&self, m: u32) -> (r: BigNat)
        ensures
            r.value() == self.value() * m,
    {
        let mut digits: Vec<u32> = Vec::new();
        let mut carry: u64 = 0;
        let mut i: usize = 0;
        assert(self.digits@.take(0) =~= Seq::<u32>::empty());
        while i < self.digits.len()
            invariant
                i <= self.digits.len(),
                digits.len() == i,
                carry < base(),
                value_of(digits@) + carry * weight(i as nat) == value_of(self.digits@.take(i as int))
                    * m,
            decreases self.digits.len() - i,
        {
            let d = self.digits[i];
            assert(d as u64 * m as u64 + carry <= u64::MAX) by (nonlinear_arith)
                requires
                    d <= 0xffff_ffff,
                    m <= 0xffff_ffff,
                    carry <= 0xffff_ffff,
            ;
            let t: u64 = d as u64 * m as u64 + carry;
            let low: u32 = (t & 0xffff_ffff) as u32;
            let high: u64 = t >> 32;
            assert(t == high * 0x1_0000_0000 + low && high < 0x1_0000_0000) by (bit_vector)
                requires
                    low == (t & 0xffff_ffff) as u32,
                    high == t >> 32,
            ;
            proof {
                let before = digits@;
                let src = self.digits@.take(i as int);
                let src1 = self.digits@.take(i + 1);
                assert(src1.drop_last() =~= src);
                assert(src1.last() == d);
                let w = weight(i as nat);
                assert(weight((i + 1) as nat) == base() * w);
                assert(before.push(low).drop_last() =~= before);
                assert(value_of(before.push(low)) == value_of(before) + low * w);
                assert(value_of(src1) == value_of(src) + d * w);
                let vb = value_of(before);
                let vs = value_of(src);
                assert(vb + low * w + high * (base() * w) == (vs + d * w) * m) by (nonlinear_arith)
                    requires
                        vb + carry * w == vs * m,
                        d * m + carry == high * base() + low,
                ;
            }
            digits.push(low);
            carry = high;
            i = i + 1;
        }
        assert(self.digits@.take(i as int) =~= self.digits@);
        proof {
            let before = digits@;
            assert(before.push(carry as u32).drop_last() =~= before);
        }
        digits.push(carry as u32);
        BigNat { digits }
    }

    /// `self` times every number in `factors`.
    pub fn times_all(self, factors: &Vec<u32>) -> (r: BigNat)
        ensures
            r.value() == self.value() * product(factors@),
    {
        let mut acc = self;
        let mut i: usize = 0;
        let ghost start = acc.value();
        assert(factors@.take(0) =~= Seq::<u32>::empty());
        assert(start * 1 == start);
        while i < factors.len()
            invariant
                i <= factors.len(),
                acc.value() == start * product(factors@.take(i as int)),
            decreases factors.len() - i,
        {
            proof {
                assert(factors@.take(i + 1).drop_last() =~= factors@.take(i as int));
                let p = product(factors@.take(i as int));
                let f = factors[i as int] as int;
                assert((start * p) * f == start * (p * f)) by (nonlinear_arith);
            }
            acc = acc.times(factors[i]);
            i = i + 1;
        }
        assert(factors@.take(i as int) =~= factors@);
        acc
    }

    /// The digit at `i`, 0 beyond the digits held.
    fn digit(&self, i: usize) -> (d: u32)
        ensures
            d == digit_at(self.digits@, i as int),
    {
        if i < self.digits.len() {
            self.digits[i]
        } else {
            0
        }
    }

    /// Whether `self` is at most `other`.
    pub fn at_most(&self, other: &BigNat) -> (r: bool)
        ensures
            r == (self.value() <= other.value()),
    {
        let n = if self.digits.len() > other.digits.len() {
            self.digits.len()
        } else {
            other.digits.len()
        };
        let mut i: usize = n;
        proof {
            lemma_value_upto_all(self.digits@, n as int);
            lemma_value_upto_all(other.digits@, n as int);
        }
        while i > 0
            invariant
                i <= n,
                n >= self.digits.len(),
                n >= other.digits.len(),
                self.value() - value_upto(self.digits@, i as int) == other.value() - value_upto(
                    other.digits@,
                    i as int,
                ),
            decreases i,
        {
            i = i - 1;
            let a = self.digit(i);
            let b = other.digit(i);
            proof {
                lemma_value_upto_bounds(self.digits@, i as int);
                lemma_value_upto_bounds(other.digits@, i as int);
                lemma_weight_positive(i as nat);
                let w = weight(i as nat);
                if a < b {
                    assert(a * w + w <= b * w) by (nonlinear_arith)
                        requires
                            a < b,
                            w >= 1,
                    ;
                }
                if b < a {
                    assert(b * w + w <= a * w) by (nonlinear_arith)
                        requires
                            b < a,
                            w >= 1,
                    ;
                }
            }
            if a < b {
                return true;
            }
            if a > b {
                return false;
            }
        }
        true
    }
}

/// The digit at `i`, 0 beyond the digits held.
pub open spec fn digit_at(digits: Seq<u32>, i: int) -> u32 {
    if 0 <= i < digits.len() {
        digits[i]
    } else {
        0
    }
}

/// The number that the lowest `n` digits stand for.
pub open spec fn value_upto(digits: Seq<u32>, n: int) -> int
    decreases n,
{
    if n <= 0 {
        0
    } else {
        value_upto(digits, n - 1) + digit_at(digits, n - 1) * weight((n - 1) as nat)
    }
}

/// The lowest `n` digits stand for a number below the weight of digit `n`.
pub proof fn lemma_value_upto_bounds(digits: Seq<u32>, n: int)
    requires
        0 <= n,
    ensures
        0 <= value_upto(digits, n) < weight(n as nat),
    decreases n,
{
    if n > 0 {
        lemma_value_upto_bounds(digits, n - 1);
        lemma_weight_positive((n - 1) as nat);
        let d = digit_at(digits, n - 1) as int;
        let w = weight((n - 1) as nat);
        assert(weight(n as nat) == base() * w);
        assert(0 <= d * w && d * w + w <= base() * w) by (nonlinear_arith)
            requires
                0 <= d < base(),
                w >= 1,
        ;
    }
}

/// Beyond the digits held there is nothing to add.
pub proof fn lemma_value_upto_all(digits: Seq<u32>, n: int)
    requires
        n >= digits.len(),
    ensures
        value_upto(digits, n) == value_of(digits),
    decreases n,
{
    if n > digits.len() {
        lemma_value_upto_all(digits, n - 1);
        assert(digit_at(digits, n - 1) * weight((n - 1) as nat) == 0) by (nonlinear_arith)
            requires
                digit_at(digits, n - 1) == 0,
        ;
    } else {
        lemma_value_upto_prefix(digits, n);
        assert(digits.take(n) =~= digits);
    }
}

/// The lowest `n` digits stand for what the first `n` digits held stand for.
pub proof fn lemma_value_upto_prefix(digits: Seq<u32>, n: int)
    requires
        0 <= n <= digits.len(),
    ensures
        value_upto(digits, n) == value_of(digits.take(n)),
    decreases n,
{
    if n > 0 {
        lemma_value_upto_prefix(digits, n - 1);
        assert(digits.take(n).drop_last() =~= digits.take(n - 1));
    }
}

/// Whether the product of `a` and `b` is at most the product of `c` and `d`.
pub fn product_at_most(a: &Vec<u32>, b: &Vec<u32>, c: &Vec<u32>, d: &Vec<u32>) -> (r: bool)
    ensures
        r == (product(a@) * product(b@) <= product(c@) * product(d@)),
{
    let left = BigNat::one().times_all(a).times_all(b);
    let right = BigNat::one().times_all(c).times_all(d);
    assert(1 * product(a@) * product(b@) == product(a@) * product(b@)) by (nonlinear_arith);
    assert(1 * product(c@) * product(d@) == product(c@) * product(d@)) by (nonlinear_arith);
    left.at_most(&right)
}

} // verus!
