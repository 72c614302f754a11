//! Arbitrary-precision natural numbers, stored as 64-bit digits with the
//! least significant digit first and no trailing zero digit.
use vstd::arithmetic::power2::{lemma2_to64, lemma_pow2_adds, pow2};
use vstd::bits::{lemma_u64_pow2_no_overflow, lemma_u64_shl_is_mul};
use vstd::prelude::*;
use crate::minimum::Minimum;

verus! {

/// The base of a digit: 2^64.
pub open spec fn base() -> nat {
    0x1_0000_0000_0000_0000
}

/// The weight of digit `n`: 2^(64 n).
pub open spec fn weight(n: nat) -> nat
    decreases n,
{
    if n == 0 {
        1
    } else {
        base() * weight((n - 1) as nat)
    }
}

/// The number that the digits `s` stand for, least significant first.
pub open spec fn digits_value(s: Seq<u64>) -> nat
    decreases s.len(),
{
    if s.len() == 0 {
        0
    } else {
        digits_value(s.drop_last()) + s.last() as nat * weight((s.len() - 1) as nat)
    }
}

/// No trailing zero digit.
pub open spec fn no_trailing_zero(s: Seq<u64>) -> bool {
    s.len() == 0 || s.last() != 0
}

/// `s` without its trailing zero digits.
pub open spec fn trimmed(s: Seq<u64>) -> Seq<u64>
    decreases s.len(),
{
    if s.len() > 0 && s.last() == 0 {
        trimmed(s.drop_last())
    } else {
        s
    }
}

/// `s` padded with zero digits up to length `n`.
pub open spec fn padded(s: Seq<u64>, n: nat) -> Seq<u64> {
    Seq::new(n, |i: int| if i < s.len() { s[i] } else { 0u64 })
}

pub proof fn lemma_weight_positive(n: nat)
    ensures
        weight(n) >= 1,
    decreases n,
{
    if n > 0 {
        lemma_weight_positive((n - 1) as nat);
    }
}

pub proof fn lemma_weight_add(m: nat, n: nat)
    ensures
        weight(m + n) == weight(m) * weight(n),
    decreases n,
{
    if n > 0 {
        let k = (n - 1) as nat;
        lemma_weight_add(m, k);
        assert((m + n - 1) as nat == m + k);
        let a = weight(m);
        let b = weight(k);
        assert(weight(m + n) == base() * weight(m + k));
        assert(weight(n) == base() * b);
        assert(weight(m + k) == a * b);
        assert(base() * (a * b) == a * (base() * b)) by (nonlinear_arith);
        assert(weight(m + n) == a * weight(n));
    } else {
        assert(weight(0) == 1);
        assert(m + n == m);
    }
}

pub proof fn lemma_weight_monotone(m: nat, n: nat)
    requires
        m <= n,
    ensures
        weight(m) <= weight(n),
    decreases n,
{
    if m < n {
        lemma_weight_monotone(m, (n - 1) as nat);
        lemma_weight_positive((n - 1) as nat);
        assert(weight((n - 1) as nat) <= base() * weight((n - 1) as nat)) by (nonlinear_arith)
            requires
                weight((n - 1) as nat) >= 1,
        ;
    }
}

/// One digit stands for itself.
pub proof fn lemma_value_single(d: u64)
    ensures
        digits_value(seq![d]) == d as nat,
{
    let s = seq![d];
    assert(s.len() == 1);
    assert(s.last() == d);
    assert(s.drop_last() =~= Seq::<u64>::empty());
    assert(digits_value(Seq::<u64>::empty()) == 0);
    assert(weight(0) == 1);
    assert(digits_value(s) == digits_value(s.drop_last()) + s.last() as nat * weight(0));
}

pub proof fn lemma_value_push(s: Seq<u64>, d: u64)
    ensures
        digits_value(s.push(d)) == digits_value(s) + d as nat * weight(s.len()),
{
    assert(s.push(d).drop_last() =~= s);
}

/// The digits `s` stand for less than the weight of the next digit.
pub proof fn lemma_value_bound(s: Seq<u64>)
    ensures
        digits_value(s) < weight(s.len()),
    decreases s.len(),
{
    if s.len() > 0 {
        let n = (s.len() - 1) as nat;
        lemma_value_bound(s.drop_last());
        let v = digits_value(s.drop_last());
        let w = weight(n);
        let d = s.last() as nat;
        assert(v + d * w < base() * w) by (nonlinear_arith)
            requires
                v < w,
                d < base(),
        ;
    }
}

/// A trailing zero digit adds nothing.
pub proof fn lemma_trimmed(s: Seq<u64>)
    ensures
        digits_value(trimmed(s)) == digits_value(s),
        no_trailing_zero(trimmed(s)),
        trimmed(s).len() <= s.len(),
        trimmed(s) =~= s.take(trimmed(s).len() as int),
    decreases s.len(),
{
    if s.len() > 0 && s.last() == 0 {
        lemma_trimmed(s.drop_last());
        assert(s.drop_last().take(trimmed(s).len() as int) =~= s.take(trimmed(s).len() as int));
    } else {
        assert(s.take(s.len() as int) =~= s);
    }
}

/// Zero digits on top add nothing.
pub proof fn lemma_padded(s: Seq<u64>, n: nat)
    requires
        s.len() <= n,
    ensures
        digits_value(padded(s, n)) == digits_value(s),
    decreases n,
{
    if n == s.len() {
        assert(padded(s, n) =~= s);
    } else {
        let p = padded(s, n);
        lemma_padded(s, (n - 1) as nat);
        assert(p.drop_last() =~= padded(s, (n - 1) as nat));
        assert(p.last() == 0);
        assert(digits_value(p) == digits_value(p.drop_last()) + p.last() as nat * weight((n - 1) as nat));
        assert(0 * weight((n - 1) as nat) == 0);
    }
}

/// The value of the first `i + 1` digits.
pub proof fn lemma_value_take_step(s: Seq<u64>, i: int)
    requires
        0 <= i < s.len(),
    ensures
        digits_value(s.take(i + 1)) == digits_value(s.take(i)) + s[i] as nat * weight(i as nat),
{
    assert(s.take(i + 1) =~= s.take(i).push(s[i]));
    lemma_value_push(s.take(i), s[i]);
}

/// A number with fewer digits is smaller.
pub proof fn lemma_shorter_is_smaller(s: Seq<u64>, t: Seq<u64>)
    requires
        no_trailing_zero(t),
        s.len() < t.len(),
    ensures
        digits_value(s) < digits_value(t),
{
    let n = (t.len() - 1) as nat;
    lemma_value_bound(s);
    lemma_weight_monotone(s.len(), n);
    let w = weight(n);
    let d = t.last() as nat;
    assert(w <= d * w) by (nonlinear_arith)
        requires
            d >= 1,
    ;
}

/// Splitting the digits at `i`: low part plus weighted high part.
pub proof fn lemma_value_split(s: Seq<u64>, i: int)
    requires
        0 <= i <= s.len(),
    ensures
        digits_value(s) == digits_value(s.take(i)) + weight(i as nat) * digits_value(s.skip(i)),
    decreases s.len(),
{
    if s.len() == i {
        assert(s.take(i) =~= s);
        assert(s.skip(i) =~= Seq::<u64>::empty());
        assert(digits_value(Seq::<u64>::empty()) == 0);
        assert(weight(i as nat) * 0 == 0);
    } else {
        let t = s.drop_last();
        lemma_value_split(t, i);
        assert(t.take(i) =~= s.take(i));
        assert(s.skip(i).drop_last() =~= t.skip(i));
        assert(s.skip(i).last() == s.last());
        let n = (s.len() - 1) as nat;
        let m = (n - i) as nat;
        lemma_weight_add(i as nat, m);
        assert(weight(n) == weight(i as nat) * weight(m));
        let wi = weight(i as nat);
        let h = digits_value(t.skip(i));
        let d = s.last() as nat;
        assert(s.skip(i).len() - 1 == m);
        assert(digits_value(s.skip(i)) == h + d * weight(m));
        assert(digits_value(s) == digits_value(t) + d * weight(n));
        assert(digits_value(t) == digits_value(s.take(i)) + wi * h);
        assert(wi * (h + d * weight(m)) == wi * h + d * (wi * weight(m))) by (nonlinear_arith);
        assert(d * weight(n) == d * (wi * weight(m)));
    }
}

/// Comparing two digit sequences of one length from the top digit down.
pub open spec fn top_down_le(a: Seq<u64>, b: Seq<u64>) -> bool
    decreases a.len(),
{
    if a.len() == 0 || b.len() == 0 {
        true
    } else if a.last() != b.last() {
        a.last() < b.last()
    } else {
        top_down_le(a.drop_last(), b.drop_last())
    }
}

/// The order in which `min` compares: fewer digits first, then from the
/// top digit down.
pub open spec fn digits_le(a: Seq<u64>, b: Seq<u64>) -> bool {
    a.len() < b.len() || (a.len() == b.len() && top_down_le(a, b))
}

/// On digit sequences of one length, the top-down order is the order of
/// the numbers.
pub proof fn lemma_top_down_le(a: Seq<u64>, b: Seq<u64>)
    requires
        a.len() == b.len(),
    ensures
        top_down_le(a, b) == (digits_value(a) <= digits_value(b)),
    decreases a.len(),
{
    if a.len() > 0 {
        let n = (a.len() - 1) as nat;
        let w = weight(n);
        lemma_value_bound(a.drop_last());
        lemma_value_bound(b.drop_last());
        let va = digits_value(a.drop_last());
        let vb = digits_value(b.drop_last());
        let x = a.last() as nat;
        let y = b.last() as nat;
        if x < y {
            assert(va + x * w < vb + y * w) by (nonlinear_arith)
                requires
                    va < w,
                    x + 1 <= y,
            ;
        } else if x > y {
            assert(vb + y * w < va + x * w) by (nonlinear_arith)
                requires
                    vb < w,
                    y + 1 <= x,
            ;
        } else {
            lemma_top_down_le(a.drop_last(), b.drop_last());
        }
    }
}

/// On numbers without trailing zero digits, `digits_le` is the order of the
/// numbers.
pub proof fn lemma_digits_le(a: Seq<u64>, b: Seq<u64>)
    requires
        no_trailing_zero(a),
        no_trailing_zero(b),
    ensures
        digits_le(a, b) == (digits_value(a) <= digits_value(b)),
{
    if a.len() < b.len() {
        lemma_shorter_is_smaller(a, b);
    } else if a.len() > b.len() {
        lemma_shorter_is_smaller(b, a);
    } else {
        lemma_top_down_le(a, b);
    }
}

/// Replacing digit `i` by `d` changes the number by the difference of the
/// two digits at the weight of `i`.
pub proof fn lemma_value_update(s: Seq<u64>, i: int, d: u64)
    requires
        0 <= i < s.len(),
    ensures
        digits_value(s.update(i, d)) + s[i] as nat * weight(i as nat) == digits_value(s) + d as nat
            * weight(i as nat),
{
    let t = s.update(i, d);
    lemma_value_split(s, i);
    lemma_value_split(t, i);
    assert(t.take(i) =~= s.take(i));
    lemma_value_split(s.skip(i), 1);
    lemma_value_split(t.skip(i), 1);
    assert(s.skip(i).skip(1) =~= t.skip(i).skip(1));
    assert(s.skip(i).take(1) =~= seq![s[i]]);
    assert(t.skip(i).take(1) =~= seq![d]);
    lemma_value_single(s[i]);
    lemma_value_single(d);
    assert(weight(1) == base());
    let w = weight(i as nat);
    let h = base() * digits_value(s.skip(i).skip(1));
    let a = s[i] as nat;
    let b = d as nat;
    assert(w * (b + h) + a * w == w * (a + h) + b * w) by (nonlinear_arith);
}

/// The weight of digit `n` is 2^(64 n).
pub proof fn lemma_weight_pow2(n: nat)
    ensures
        weight(n) == pow2(64 * n),
    decreases n,
{
    if n == 0 {
        lemma2_to64();
    } else {
        lemma_weight_pow2((n - 1) as nat);
        lemma_pow2_adds(64, 64 * (n - 1) as nat);
        lemma2_to64();
        assert(64 * n == 64 + 64 * (n - 1) as nat);
    }
}

/// Adds `a`, `b` and the carry bit; returns the low digit and whether the
/// sum overflowed one digit.
pub fn overflowing_add(a: u64, b: u64, carry: bool) -> (r: (u64, bool))
    ensures
        r.0 as nat + (if r.1 { base() } else { 0 }) == a as nat + b as nat + (if carry { 1nat } else { 0 }),
{
    let sum = a.wrapping_add(b);
    let carry_n: u64 = if carry { 1 } else { 0 };
    if sum >= a {
        let sum_total = sum.wrapping_add(carry_n);
        let had_overflow = sum_total < sum;
        (sum_total, had_overflow)
    } else {
        (sum + carry_n, true)
    }
}

/// Subtracts `b` and the borrow bit from `a`; returns the low digit and
/// whether the difference went below zero.
pub fn overflowing_sub(a: u64, b: u64, carry: bool) -> (r: (u64, bool))
    ensures
        r.0 as int - (if r.1 { base() as int } else { 0 }) == a as int - b as int - (if carry { 1int } else { 0 }),
{
    let diff = a.wrapping_sub(b);
    let carry_n: u64 = if carry { 1 } else { 0 };
    if diff <= a {
        let diff_total = diff.wrapping_sub(carry_n);
        let had_wrap = diff_total > diff;
        (diff_total, had_wrap)
    } else {
        (diff - carry_n, true)
    }
}

/// A natural number of any size.
#[derive(Debug)]
pub struct BigInt {
    data: Vec<u64>,
}

impl View for BigInt {
    type V = Seq<u64>;

    /// The digits, least significant first.
    closed spec fn view(&self) -> Seq<u64> {
        self.data@
    }
}

impl BigInt {
    /// The number.
    pub open spec fn value(&self) -> nat {
        digits_value(self@)
    }

    /// The top digit is not zero, so each number has one representation.
    pub open spec fn wf(&self) -> bool {
        no_trailing_zero(self@)
    }

    /// The number `x`.
    pub fn new(x: u64) -> (r: Self)
        ensures
            r.wf(),
            r.value() == x,
            r@ == (if x == 0 { Seq::<u64>::empty() } else { seq![x] }),
    {
        if x == 0 {
            BigInt { data: Vec::new() }
        } else {
            let mut v: Vec<u64> = Vec::new();
            v.push(x);
            proof {
                assert(v@ =~= seq![x]);
                lemma_value_single(x);
            }
            BigInt { data: v }
        }
    }

    /// Whether the top digit is not zero.
    pub fn test_invariant(&self) -> (r: bool)
        ensures
            r == self.wf(),
    {
        if self.data.len() == 0 {
            true
        } else {
            self.data[self.data.len() - 1] != 0
        }
    }

    /// The number of the digits `v`, least significant first; trailing
    /// zero digits are dropped.
    pub fn from_vec(v: Vec<u64>) -> (r: Self)
        ensures
            r.wf(),
            r@ == trimmed(v@),
            r.value() == digits_value(v@),
    {
        let mut v = v;
        let ghost orig = v@;
        while v.len() > 0 && v[v.len() - 1] == 0
            invariant
                trimmed(v@) == trimmed(orig),
            decreases v.len(),
        {
            v.pop();
        }
        proof {
            lemma_trimmed(orig);
        }
        BigInt { data: v }
    }

    /// Adds one.
    pub fn inc1(&mut self)
        requires
            old(self).wf(),
        ensures
            final(self).wf(),
            final(self).value() == old(self).value() + 1,
    {
        let ghost o = self.data@;
        let mut idx: usize = 0;
        proof {
            assert(weight(0) == 1);
        }
        while idx < self.data.len()
            invariant
                idx <= self.data@.len() == o.len(),
                forall|j: int| idx <= j < o.len() ==> self.data@[j] == o[j],
                no_trailing_zero(o),
                old(self)@ == o,
                digits_value(self.data@) + weight(idx as nat) == digits_value(o) + 1,
            decreases o.len() - idx,
        {
            let cur = self.data[idx];
            let sum = cur.wrapping_add(1);
            let ghost prev = self.data@;
            proof {
                lemma_value_update(self.data@, idx as int, sum);
                assert(self.data@.update(idx as int, sum)[idx as int] == sum);
            }
            self.data.set(idx, sum);
            if sum >= cur {
                proof {
                    assert(sum == cur + 1);
                    assert((sum as nat) * weight(idx as nat) == (cur as nat) * weight(idx as nat) + weight(idx as nat))
                        by (nonlinear_arith) requires sum == cur + 1;
                    assert(self.data@ == prev.update(idx as int, sum));
                    assert(digits_value(self.data@) + (cur as nat) * weight(idx as nat) == digits_value(prev) + (sum as nat) * weight(idx as nat));
                    assert(digits_value(self.data@) == digits_value(prev) + weight(idx as nat));
                    assert(self.data@.last() != 0) by {
                        if idx + 1 < o.len() {
                            assert(self.data@[o.len() - 1] == o[o.len() - 1]);
                        }
                    }
                }
                return;
            } else {
                proof {
                    assert(cur == u64::MAX && sum == 0);
                    assert(weight(idx as nat + 1) == base() * weight(idx as nat));
                    assert((cur as nat) * weight(idx as nat) + weight(idx as nat) == base() * weight(idx as nat))
                        by (nonlinear_arith) requires cur == 0xffff_ffff_ffff_ffffu64;
                    assert((sum as nat) * weight(idx as nat) == 0) by (nonlinear_arith) requires sum == 0;
                }
                idx += 1;
            }
        }
        proof {
            lemma_value_push(self.data@, 1);
        }
        self.data.push(1);
    }

    /// Adds `by`.
    pub fn inc(&mut self, by: u64)
        requires
            old(self).wf(),
        ensures
            final(self).wf(),
            final(self).value() == old(self).value() + by,
    {
        let ghost o = self.data@;
        let mut carry = by;
        let mut idx: usize = 0;
        proof {
            assert(weight(0) == 1);
        }
        while idx < self.data.len()
            invariant
                idx <= self.data@.len() == o.len(),
                forall|j: int| idx <= j < o.len() ==> self.data@[j] == o[j],
                no_trailing_zero(o),
                old(self)@ == o,
                idx > 0 ==> carry == 1,
                digits_value(self.data@) + carry as nat * weight(idx as nat) == digits_value(o) + by,
            decreases o.len() - idx,
        {
            let cur = self.data[idx];
            let sum = cur.wrapping_add(carry);
            let ghost prev = self.data@;
            proof {
                lemma_value_update(self.data@, idx as int, sum);
            }
            self.data.set(idx, sum);
            if sum >= cur {
                proof {
                    assert(sum == cur + carry);
                    assert((sum as nat) * weight(idx as nat) == (cur as nat) * weight(idx as nat) + (carry as nat) * weight(idx as nat))
                        by (nonlinear_arith) requires sum == cur + carry;
                    assert(self.data@ == prev.update(idx as int, sum));
                    assert(digits_value(self.data@) + (cur as nat) * weight(idx as nat) == digits_value(prev) + (sum as nat) * weight(idx as nat));
                    assert(digits_value(self.data@) == digits_value(prev) + (carry as nat) * weight(idx as nat));
                    assert(self.data@.last() != 0) by {
                        if idx + 1 < o.len() {
                            assert(self.data@[o.len() - 1] == o[o.len() - 1]);
                        }
                    }
                }
                return;
            } else {
                proof {
                    assert(sum + base() == cur + carry);
                    assert(weight(idx as nat + 1) == base() * weight(idx as nat));
                    assert((sum as nat) * weight(idx as nat) + base() * weight(idx as nat) == (cur as nat) * weight(idx as nat) + (carry as nat) * weight(idx as nat))
                        by (nonlinear_arith) requires sum + base() == cur + carry;
                }
                carry = 1;
                idx += 1;
            }
        }
        if carry != 0 {
            proof {
                lemma_value_push(self.data@, carry);
            }
            self.data.push(carry);
        }
    }

    /// 2 to the power `power`.
    pub fn power_of_2(power: u64) -> (r: BigInt)
        ensures
            r.wf(),
            r.value() == pow2(power as nat),
    {
        let ghost p0 = power;
        let mut power = power;
        let mut v: Vec<u64> = Vec::new();
        while power >= 64
            invariant
                p0 == 64 * v@.len() + power,
                digits_value(v@) == 0,
            decreases power,
        {
            proof {
                lemma_value_push(v@, 0);
            }
            v.push(0);
            power -= 64;
        }
        proof {
            lemma_u64_pow2_no_overflow(power as nat);
            lemma_u64_shl_is_mul(1, power);
            lemma_value_push(v@, (1u64 << power));
            lemma_weight_pow2(v@.len() as nat);
            lemma_pow2_adds(power as nat, 64 * v@.len());
        }
        v.push(1 << power);
        BigInt::from_vec(v)
    }

    /// The smaller of the two numbers, `self` when they are equal.
    pub fn min_try1(self, other: Self) -> (r: Self)
        requires
            self.wf(),
            other.wf(),
        ensures
            r == (if self.value() <= other.value() { self } else { other }),
    {
        proof {
            lemma_digits_le(self@, other@);
        }
        if self.le_digits(&other) {
            self
        } else {
            other
        }
    }

    /// Whether `self` comes first in the order of `min`.
    fn le_digits(&self, other: &Self) -> (r: bool)
        ensures
            r == digits_le(self@, other@),
    {
        if self.data.len() < other.data.len() {
            true
        } else if self.data.len() > other.data.len() {
            false
        } else {
            let mut idx = self.data.len();
            proof {
                assert(self@.take(idx as int) =~= self@);
                assert(other@.take(idx as int) =~= other@);
            }
            while idx > 0
                invariant
                    idx <= self.data@.len() == other.data@.len(),
                    top_down_le(self@, other@) == top_down_le(self@.take(idx as int), other@.take(idx as int)),
                decreases idx,
            {
                idx = idx - 1;
                let ghost a = self@.take(idx as int + 1);
                let ghost b = other@.take(idx as int + 1);
                proof {
                    assert(a.drop_last() =~= self@.take(idx as int));
                    assert(b.drop_last() =~= other@.take(idx as int));
                }
                if self.data[idx] < other.data[idx] {
                    return true;
                } else if self.data[idx] > other.data[idx] {
                    return false;
                }
            }
            proof {
                assert(self@.take(0) =~= Seq::<u64>::empty());
            }
            true
        }
    }

    /// The sum of the two numbers.
    pub fn plus(&self, rhs: &BigInt) -> (r: BigInt)
        requires
            self.wf(),
            rhs.wf(),
        ensures
            r.wf(),
            r.value() == self.value() + rhs.value(),
    {
        let max_len = if self.data.len() >= rhs.data.len() { self.data.len() } else { rhs.data.len() };
        let ghost pa = padded(self@, max_len as nat);
        let ghost pb = padded(rhs@, max_len as nat);
        let mut result_vec: Vec<u64> = Vec::with_capacity(max_len);
        let mut carry: bool = false;
        let mut i: usize = 0;
        proof {
            assert(weight(0) == 1);
            assert(pa.take(0) =~= Seq::<u64>::empty());
            assert(pb.take(0) =~= Seq::<u64>::empty());
        }
        while i < max_len
            invariant
                i <= max_len,
                max_len == self@.len() || max_len == rhs@.len(),
                self@.len() <= max_len && rhs@.len() <= max_len,
                pa == padded(self@, max_len as nat),
                pb == padded(rhs@, max_len as nat),
                result_vec@.len() == i,
                digits_value(result_vec@) + (if carry { weight(i as nat) } else { 0 }) == digits_value(pa.take(i as int))
                    + digits_value(pb.take(i as int)),
                i > 0 ==> result_vec@.last() as nat + (if carry { base() } else { 0 }) >= pa[i - 1] as nat + pb[i - 1] as nat,
            decreases max_len - i,
        {
            let lhs_val = if i < self.data.len() { self.data[i] } else { 0 };
            let rhs_val = if i < rhs.data.len() { rhs.data[i] } else { 0 };
            let (sum, new_carry) = overflowing_add(lhs_val, rhs_val, carry);
            proof {
                assert(pa[i as int] == lhs_val);
                assert(pb[i as int] == rhs_val);
                lemma_value_take_step(pa, i as int);
                lemma_value_take_step(pb, i as int);
                lemma_value_push(result_vec@, sum);
                let w = weight(i as nat);
                assert(weight(i as nat + 1) == base() * w);
                let c: nat = if carry { 1 } else { 0 };
                let nc: nat = if new_carry { 1 } else { 0 };
                assert(sum as nat + nc * base() == lhs_val as nat + rhs_val as nat + c);
                assert((sum as nat) * w + nc * (base() * w) == (lhs_val as nat) * w + (rhs_val as nat) * w + c * w)
                    by (nonlinear_arith)
                    requires
                        sum as nat + nc * base() == lhs_val as nat + rhs_val as nat + c,
                ;
                assert((if carry { w } else { 0 }) == c * w);
                assert((if new_carry { base() * w } else { 0 }) == nc * (base() * w));
            }
            result_vec.push(sum);
            carry = new_carry;
            i += 1;
        }
        proof {
            assert(pa.take(max_len as int) =~= pa);
            assert(pb.take(max_len as int) =~= pb);
            lemma_padded(self@, max_len as nat);
            lemma_padded(rhs@, max_len as nat);
        }
        if carry {
            proof {
                lemma_value_push(result_vec@, 1);
            }
            result_vec.push(1);
        } else {
            proof {
                if max_len > 0 {
                    if max_len == self@.len() {
                        assert(pa[max_len - 1] == self@.last());
                    } else {
                        assert(pb[max_len - 1] == rhs@.last());
                    }
                }
            }
        }
        BigInt { data: result_vec }
    }

    /// The difference of the two numbers; `rhs` is not larger than `self`.
    pub fn minus(&self, rhs: &BigInt) -> (r: BigInt)
        requires
            self.wf(),
            rhs.wf(),
            rhs.value() <= self.value(),
        ensures
            r.wf(),
            r.value() == self.value() - rhs.value(),
    {
        let max_len = if self.data.len() >= rhs.data.len() { self.data.len() } else { rhs.data.len() };
        let ghost pa = padded(self@, max_len as nat);
        let ghost pb = padded(rhs@, max_len as nat);
        let mut result_vec: Vec<u64> = Vec::with_capacity(max_len);
        let mut carry: bool = false;
        let mut i: usize = 0;
        proof {
            assert(weight(0) == 1);
            assert(pa.take(0) =~= Seq::<u64>::empty());
            assert(pb.take(0) =~= Seq::<u64>::empty());
        }
        while i < max_len
            invariant
                i <= max_len,
                self@.len() <= max_len && rhs@.len() <= max_len,
                pa == padded(self@, max_len as nat),
                pb == padded(rhs@, max_len as nat),
                result_vec@.len() == i,
                digits_value(result_vec@) - (if carry { weight(i as nat) as int } else { 0 }) == digits_value(
                    pa.take(i as int),
                ) - digits_value(pb.take(i as int)),
            decreases max_len - i,
        {
            let lhs_val = if i < self.data.len() { self.data[i] } else { 0 };
            let rhs_val = if i < rhs.data.len() { rhs.data[i] } else { 0 };
            let (diff, new_carry) = overflowing_sub(lhs_val, rhs_val, carry);
            proof {
                assert(pa[i as int] == lhs_val);
                assert(pb[i as int] == rhs_val);
                lemma_value_take_step(pa, i as int);
                lemma_value_take_step(pb, i as int);
                lemma_value_push(result_vec@, diff);
                let w = weight(i as nat) as int;
                assert(weight(i as nat + 1) == base() * weight(i as nat));
                let c: int = if carry { 1 } else { 0 };
                let nc: int = if new_carry { 1 } else { 0 };
                assert(diff as int - nc * base() == lhs_val as int - rhs_val as int - c);
                assert((diff as int) * w - nc * (base() * w) == (lhs_val as int) * w - (rhs_val as int) * w - c * w)
                    by (nonlinear_arith)
                    requires
                        diff as int - nc * base() == lhs_val as int - rhs_val as int - c,
                ;
                assert((if carry { w } else { 0 }) == c * w);
                assert((if new_carry { base() * w } else { 0 }) == nc * (base() * w));
            }
            result_vec.push(diff);
            carry = new_carry;
            i += 1;
        }
        proof {
            assert(pa.take(max_len as int) =~= pa);
            assert(pb.take(max_len as int) =~= pb);
            lemma_padded(self@, max_len as nat);
            lemma_padded(rhs@, max_len as nat);
            lemma_value_bound(result_vec@);
        }
        BigInt::from_vec(result_vec)
    }

    /// A cursor over the digits, most significant first.
    pub fn iter(&self) -> (it: Iter<'_>)
        ensures
            it.wf(),
            it.remaining() == self@.reverse(),
    {
        let it = Iter { num: self, idx: self.data.len() };
        proof {
            assert(self@.take(self@.len() as int) =~= self@);
        }
        it
    }

    /// Calls `a` on each digit, most significant first.
    pub fn act<A: FnMut(u64)>(&self, a: A)
        requires
            forall|d: u64| a.requires((d,)),
    {
        let mut a = a;
        let mut it = self.iter();
        loop
            invariant
                it.wf(),
                forall|d: u64| a.requires((d,)),
            decreases it.remaining().len(),
        {
            match it.next() {
                Some(digit) => a(digit),
                None => break,
            }
        }
    }

    /// Hands each digit, most significant first, to `a`.
    pub fn act_v1<A: Action>(&self, a: A) {
        let mut a = a;
        let mut it = self.iter();
        loop
            invariant
                it.wf(),
            decreases it.remaining().len(),
        {
            match it.next() {
                Some(digit) => a.do_action(digit),
                None => break,
            }
        }
    }
}

/// Something done with each digit of a number.
pub trait Action {
    fn do_action(&mut self, digit: u64);
}

/// A cursor over the digits of a number, most significant first.
pub struct Iter<'a> {
    num: &'a BigInt,
    /// How many digits are still to come.
    idx: usize,
}

impl<'a> Iter<'a> {
    /// The cursor stays within the digits.
    pub closed spec fn wf(&self) -> bool {
        self.idx <= self.num@.len()
    }

    /// The digits still to come, in the order they come.
    pub closed spec fn remaining(&self) -> Seq<u64> {
        self.num@.take(self.idx as int).reverse()
    }

    /// The next digit, or `None` once all have come.
    pub fn next(&mut self) -> (r: Option<u64>)
        requires
            old(self).wf(),
        ensures
            final(self).wf(),
            old(self).remaining().len() == 0 ==> r is None && final(self).remaining() == old(self).remaining(),
            old(self).remaining().len() > 0 ==> r == Some(old(self).remaining()[0]) && final(self).remaining()
                == old(self).remaining().drop_first(),
    {
        if self.idx == 0 {
            None
        } else {
            let ghost before = self.remaining();
            self.idx = self.idx - 1;
            proof {
                assert(self.remaining() =~= before.drop_first());
            }
            Some(self.num.data[self.idx])
        }
    }
}

/// The smallest of the numbers of `v`, or `None` when `v` is empty.
pub fn vec_min(v: &Vec<BigInt>) -> (r: Option<BigInt>)
    requires
        forall|k: int| 0 <= k < v@.len() ==> (#[trigger] v@[k]).wf(),
    ensures
        v@.len() == 0 <==> r is None,
        r is Some ==> {
            let m = r->Some_0;
            &&& m.wf()
            &&& exists|k: int| 0 <= k < v@.len() && m@ == (#[trigger] v@[k])@
            &&& forall|k: int| 0 <= k < v@.len() ==> m.value() <= (#[trigger] v@[k]).value()
        },
{
    let mut min: Option<BigInt> = None;
    let mut i: usize = 0;
    while i < v.len()
        invariant
            i <= v@.len(),
            forall|k: int| 0 <= k < v@.len() ==> (#[trigger] v@[k]).wf(),
            i == 0 <==> min is None,
            min is Some ==> {
                let m = min->Some_0;
                &&& m.wf()
                &&& exists|k: int| 0 <= k < i && m@ == (#[trigger] v@[k])@
                &&& forall|k: int| 0 <= k < i ==> m.value() <= (#[trigger] v@[k]).value()
            },
        decreases v@.len() - i,
    {
        let e = v[i].clone();
        proof {
            assert(v@[i as int].wf());
        }
        min = Some(
            match min {
                None => e,
                Some(n) => e.min_try1(n),
            },
        );
        proof {
            let m = min->Some_0;
            assert(m@ == v@[i as int]@ || exists|k: int| 0 <= k < i && m@ == (#[trigger] v@[k])@);
        }
        i += 1;
    }
    min
}

impl Minimum for BigInt {
    open spec fn min_spec(&self, other: &Self) -> Self {
        if digits_le(self@, other@) {
            *self
        } else {
            *other
        }
    }

    /// Compares the numbers of digits, then the digits from the top down.
    fn min<'a>(&'a self, other: &'a Self) -> (r: &'a Self) {
        if self.le_digits(other) {
            self
        } else {
            other
        }
    }
}

/// On well-formed numbers, `min` picks the smaller number, and `self` when
/// the two are equal.
pub proof fn lemma_min_is_smaller(a: BigInt, b: BigInt)
    requires
        a.wf(),
        b.wf(),
    ensures
        a.min_spec(&b) == (if a.value() <= b.value() { a } else { b }),
{
    lemma_digits_le(a@, b@);
}

impl PartialEq for BigInt {
    fn eq(&self, other: &Self) -> (r: bool) {
        if self.data.len() != other.data.len() {
            return false;
        }
        let mut i: usize = 0;
        while i < self.data.len()
            invariant
                i <= self.data@.len() == other.data@.len(),
                forall|j: int| 0 <= j < i ==> self.data@[j] == other.data@[j],
            decreases self.data@.len() - i,
        {
            if self.data[i] != other.data[i] {
                return false;
            }
            i += 1;
        }
        proof {
            assert(self@ =~= other@);
        }
        true
    }
}

impl vstd::std_specs::cmp::PartialEqSpecImpl for BigInt {
    open spec fn obeys_eq_spec() -> bool {
        true
    }

    open spec fn eq_spec(&self, other: &BigInt) -> bool {
        self@ == other@
    }
}

impl Clone for BigInt {
    fn clone(&self) -> (r: Self)
        ensures
            r@ == self@,
    {
        BigInt { data: self.data.clone() }
    }
}

impl<'a, 'b> core::ops::Add<&'a BigInt> for &'b BigInt {
    type Output = BigInt;

    /// The sum.
    fn add(self, rhs: &'a BigInt) -> (r: BigInt)
        ensures
            r.wf(),
            r.value() == self.value() + rhs.value(),
    {
        self.plus(rhs)
    }
}

impl<'a, 'b> vstd::std_specs::ops::AddSpecImpl<&'a BigInt> for &'b BigInt {
    /// The result is described by the `ensures` of `add` instead.
    open spec fn obeys_add_spec() -> bool {
        false
    }

    open spec fn add_req(self, rhs: &'a BigInt) -> bool {
        self.wf() && rhs.wf()
    }

    open spec fn add_spec(self, rhs: &'a BigInt) -> BigInt {
        arbitrary()
    }
}

impl<'a> core::ops::Add<BigInt> for &'a BigInt {
    type Output = BigInt;

    /// The sum.
    fn add(self, rhs: BigInt) -> (r: BigInt)
        ensures
            r.wf(),
            r.value() == self.value() + rhs.value(),
    {
        (self).plus(&rhs)
    }
}

impl<'a> vstd::std_specs::ops::AddSpecImpl<BigInt> for &'a BigInt {
    /// The result is described by the `ensures` of `add` instead.
    open spec fn obeys_add_spec() -> bool {
        false
    }

    open spec fn add_req(self, rhs: BigInt) -> bool {
        self.wf() && rhs.wf()
    }

    open spec fn add_spec(self, rhs: BigInt) -> BigInt {
        arbitrary()
    }
}

impl<'a> core::ops::Add<&'a BigInt> for BigInt {
    type Output = BigInt;

    /// The sum.
    fn add(self, rhs: &'a BigInt) -> (r: BigInt)
        ensures
            r.wf(),
            r.value() == self.value() + rhs.value(),
    {
        (&self).plus(rhs)
    }
}

impl<'a> vstd::std_specs::ops::AddSpecImpl<&'a BigInt> for BigInt {
    /// The result is described by the `ensures` of `add` instead.
    open spec fn obeys_add_spec() -> bool {
        false
    }

    open spec fn add_req(self, rhs: &'a BigInt) -> bool {
        self.wf() && rhs.wf()
    }

    open spec fn add_spec(self, rhs: &'a BigInt) -> BigInt {
        arbitrary()
    }
}

impl core::ops::Add<BigInt> for BigInt {
    type Output = BigInt;

    /// The sum.
    fn add(self, rhs: BigInt) -> (r: BigInt)
        ensures
            r.wf(),
            r.value() == self.value() + rhs.value(),
    {
        (&self).plus(&rhs)
    }
}

impl vstd::std_specs::ops::AddSpecImpl<BigInt> for BigInt {
    /// The result is described by the `ensures` of `add` instead.
    open spec fn obeys_add_spec() -> bool {
        false
    }

    open spec fn add_req(self, rhs: BigInt) -> bool {
        self.wf() && rhs.wf()
    }

    open spec fn add_spec(self, rhs: BigInt) -> BigInt {
        arbitrary()
    }
}

impl<'a, 'b> core::ops::Sub<&'a BigInt> for &'b BigInt {
    type Output = BigInt;

    /// The difference; `rhs` is not larger than `self`.
    fn sub(self, rhs: &'a BigInt) -> (r: BigInt)
        ensures
            r.wf(),
            r.value() == self.value() - rhs.value(),
    {
        self.minus(rhs)
    }
}

impl<'a, 'b> vstd::std_specs::ops::SubSpecImpl<&'a BigInt> for &'b BigInt {
    /// The result is described by the `ensures` of `sub` instead.
    open spec fn obeys_sub_spec() -> bool {
        false
    }

    open spec fn sub_req(self, rhs: &'a BigInt) -> bool {
        self.wf() && rhs.wf() && rhs.value() <= self.value()
    }

    open spec fn sub_spec(self, rhs: &'a BigInt) -> BigInt {
        arbitrary()
    }
}

impl<'a> core::ops::Sub<BigInt> for &'a BigInt {
    type Output = BigInt;

    /// The difference; `rhs` is not larger than `self`.
    fn sub(self, rhs: BigInt) -> (r: BigInt)
        ensures
            r.wf(),
            r.value() == self.value() - rhs.value(),
    {
        (self).minus(&rhs)
    }
}

impl<'a> vstd::std_specs::ops::SubSpecImpl<BigInt> for &'a BigInt {
    /// The result is described by the `ensures` of `sub` instead.
    open spec fn obeys_sub_spec() -> bool {
        false
    }

    open spec fn sub_req(self, rhs: BigInt) -> bool {
        self.wf() && rhs.wf() && rhs.value() <= self.value()
    }

    open spec fn sub_spec(self, rhs: BigInt) -> BigInt {
        arbitrary()
    }
}

impl<'a> core::ops::Sub<&'a BigInt> for BigInt {
    type Output = BigInt;

    /// The difference; `rhs` is not larger than `self`.
    fn sub(self, rhs: &'a BigInt) -> (r: BigInt)
        ensures
            r.wf(),
            r.value() == self.value() - rhs.value(),
    {
        (&self).minus(rhs)
    }
}

impl<'a> vstd::std_specs::ops::SubSpecImpl<&'a BigInt> for BigInt {
    /// The result is described by the `ensures` of `sub` instead.
    open spec fn obeys_sub_spec() -> bool {
        false
    }

    open spec fn sub_req(self, rhs: &'a BigInt) -> bool {
        self.wf() && rhs.wf() && rhs.value() <= self.value()
    }

    open spec fn sub_spec(self, rhs: &'a BigInt) -> BigInt {
        arbitrary()
    }
}

impl core::ops::Sub<BigInt> for BigInt {
    type Output = BigInt;

    /// The difference; `rhs` is not larger than `self`.
    fn sub(self, rhs: BigInt) -> (r: BigInt)
        ensures
            r.wf(),
            r.value() == self.value() - rhs.value(),
    {
        (&self).minus(&rhs)
    }
}

impl vstd::std_specs::ops::SubSpecImpl<BigInt> for BigInt {
    /// The result is described by the `ensures` of `sub` instead.
    open spec fn obeys_sub_spec() -> bool {
        false
    }

    open spec fn sub_req(self, rhs: BigInt) -> bool {
        self.wf() && rhs.wf() && rhs.value() <= self.value()
    }

    open spec fn sub_spec(self, rhs: BigInt) -> BigInt {
        arbitrary()
    }
}

} // verus!
