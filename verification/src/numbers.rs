//! Exact rational arithmetic for folding fractions.
//!
//! Every fraction the pipeline handles (folding progress, cluster filling,
//! window mean, binarization cutoff) lies in `[0, 1]` and is held exactly as
//! a numerator/denominator pair of machine integers.  Comparisons are done
//! by cross-multiplication and window means by putting all members over the
//! least common multiple of their denominators, so no rounding ever occurs.

use crate::errors::AnalysisError;
use vstd::prelude::*;
use vstd::arithmetic::div_mod::{
    lemma_fundamental_div_mod, lemma_mod_division_less_than_divisor, lemma_mod_multiples_basic,
    lemma_mod_self_0, lemma_small_mod,
};
use vstd::arithmetic::mul::{lemma_mul_inequality, lemma_mul_is_commutative};

verus! {

/// An exact rational number in `[0, 1]`, held as `num / den`.
#[derive(Clone, Copy, Debug, PartialEq, Eq, Structural)]
pub struct Frac {
    pub num: u64,
    pub den: u64,
}

impl Frac {
    /// Well-formed: positive denominator and a value no greater than one.
    pub open spec fn wf(self) -> bool {
        0 < self.den && self.num <= self.den
    }

    /// `self` and `other` denote the same rational number.
    pub open spec fn same_value(self, other: Frac) -> bool {
        self.num * other.den == other.num * self.den
    }

    /// `self >= other` as rational numbers.
    pub open spec fn spec_ge(self, other: Frac) -> bool {
        self.num * other.den >= other.num * self.den
    }

    /// The canonical zero fraction.
    pub open spec fn spec_zero() -> Frac {
        Frac { num: 0, den: 1 }
    }

    /// The canonical one fraction.
    pub open spec fn spec_one() -> Frac {
        Frac { num: 1, den: 1 }
    }

    pub fn zero() -> (r: Frac)
        ensures
            r == Frac::spec_zero(),
    {
        Frac { num: 0, den: 1 }
    }

    pub fn one() -> (r: Frac)
        ensures
            r == Frac::spec_one(),
    {
        Frac { num: 1, den: 1 }
    }

    /// Builds `num / den` from already-checked parts.
    pub fn new(num: u64, den: u64) -> (r: Frac)
        requires
            0 < den,
            num <= den,
        ensures
            r == (Frac { num, den }),
            r.wf(),
    {
        Frac { num, den }
    }

    /// Exact `>=` on rationals, by cross-multiplication.
    pub fn ge(&self, other: &Frac) -> (r: bool)
        ensures
            r == self.spec_ge(*other),
    {
        proof {
            lemma_mul_u64_fits_u128(self.num, other.den);
            lemma_mul_u64_fits_u128(other.num, self.den);
        }
        (self.num as u128) * (other.den as u128) >= (other.num as u128) * (self.den as u128)
    }

    /// Exact equality of the denoted rational numbers.
    pub fn value_eq(&self, other: &Frac) -> (r: bool)
        ensures
            r == self.same_value(*other),
    {
        proof {
            lemma_mul_u64_fits_u128(self.num, other.den);
            lemma_mul_u64_fits_u128(other.num, self.den);
        }
        (self.num as u128) * (other.den as u128) == (other.num as u128) * (self.den as u128)
    }
}

/// The product of two 64-bit values always fits a 128-bit word.
pub proof fn lemma_mul_u64_fits_u128(x: u64, y: u64)
    by (nonlinear_arith)
    ensures
        (x as int) * (y as int) <= u128::MAX,
{
}

/// Greatest common divisor, by Euclid's recursion.
pub open spec fn spec_gcd(a: nat, b: nat) -> nat
    decreases b,
{
    if b == 0 {
        a
    } else {
        spec_gcd(b, a % b)
    }
}

/// Least common multiple of two positive naturals.
pub open spec fn spec_lcm(a: nat, b: nat) -> nat {
    (a / spec_gcd(a, b)) * b
}

/// `spec_gcd(a, b)` is a positive common divisor of `a` and `b`, no
/// larger than `a`.
pub proof fn lemma_gcd_properties(a: nat, b: nat)
    requires
        a > 0,
    ensures
        spec_gcd(a, b) > 0,
        a % spec_gcd(a, b) == 0,
        b % spec_gcd(a, b) == 0,
        spec_gcd(a, b) <= a,
    decreases b,
{
    if b == 0 {
        lemma_mod_self_0(a as int);
        lemma_small_mod(0, a);
    } else {
        lemma_mod_division_less_than_divisor(a as int, b as int);
        lemma_gcd_properties(b, a % b);
        let g = spec_gcd(b, a % b);
        assert(spec_gcd(a, b) == g);
        lemma_fundamental_div_mod(a as int, b as int);
        lemma_fundamental_div_mod(b as int, g as int);
        lemma_fundamental_div_mod((a % b) as int, g as int);
        let k = (b as int / g as int) * (a as int / b as int) + ((a % b) as int / g as int);
        assert(a as int == k * g as int) by (nonlinear_arith)
            requires
                a as int == b as int * (a as int / b as int) + (a % b) as int,
                b as int == g as int * (b as int / g as int),
                (a % b) as int == g as int * ((a % b) as int / g as int),
                k == (b as int / g as int) * (a as int / b as int) + ((a % b) as int / g as int),
        ;
        lemma_mod_multiples_basic(k, g as int);
        assert(a % g == 0);
        // g <= a: a == k * g with a > 0, g > 0 forces k >= 1.
        assert(g <= a) by (nonlinear_arith)
            requires
                a as int == k * g as int,
                a > 0,
                g > 0,
        ;
    }
}

/// Euclid's algorithm; returns exactly `spec_gcd(a, b)`.
pub fn gcd64(a: u64, b: u64) -> (g: u64)
    ensures
        g == spec_gcd(a as nat, b as nat),
{
    let mut x = a;
    let mut y = b;
    while y != 0
        invariant
            spec_gcd(x as nat, y as nat) == spec_gcd(a as nat, b as nat),
        decreases y,
    {
        let t = x % y;
        proof {
            lemma_mod_division_less_than_divisor(x as int, y as int);
        }
        x = y;
        y = t;
    }
    x
}

/// Facts used whenever one number divides another: the quotient restores
/// the dividend, and multiples dominate.
pub proof fn lemma_div_exact_mul(d: nat, m: nat)
    requires
        d > 0,
        m % d == 0,
    ensures
        (m / d) * d == m,
        d * (m / d) == m,
{
    lemma_fundamental_div_mod(m as int, d as int);
    assert((m / d) * d == m) by (nonlinear_arith)
        requires
            m as int == d as int * (m as int / d as int),
    ;
}

/// `lcm(a, b)` is positive, a common multiple of `a` and `b`, and at least
/// as large as either.
pub proof fn lemma_lcm_properties(a: nat, b: nat)
    requires
        a > 0,
        b > 0,
    ensures
        spec_lcm(a, b) > 0,
        spec_lcm(a, b) % a == 0,
        spec_lcm(a, b) % b == 0,
        spec_lcm(a, b) >= a,
        spec_lcm(a, b) >= b,
{
    let g = spec_gcd(a, b);
    lemma_gcd_properties(a, b);
    lemma_div_exact_mul(g, a);
    lemma_div_exact_mul(g, b);
    let qa = a / g;
    let qb = b / g;
    assert(qa >= 1) by (nonlinear_arith)
        requires
            qa * g == a,
            a > 0,
            g > 0,
    ;
    assert(qb >= 1) by (nonlinear_arith)
        requires
            qb * g == b,
            b > 0,
            g > 0,
    ;
    let l = spec_lcm(a, b);
    assert(l == qa * b);
    assert(l >= b) by (nonlinear_arith)
        requires
            l == qa * b,
            qa >= 1,
            b > 0,
    ;
    assert(l == a * qb) by (nonlinear_arith)
        requires
            l == qa * b,
            qa * g == a,
            qb * g == b,
            g > 0,
    ;
    assert(l >= a) by (nonlinear_arith)
        requires
            l == a * qb,
            qb >= 1,
            a > 0,
    ;
    lemma_mod_multiples_basic(qa as int, b as int);
    assert(l % b == 0) by {
        assert(l == qa * b);
        assert((qa as int * b as int) % (b as int) == 0);
    }
    lemma_mod_multiples_basic(qb as int, a as int);
    assert(l % a == 0) by {
        assert(l == a * qb);
        assert((qb as int * a as int) % (a as int) == 0);
        assert(a as int * qb as int == qb as int * a as int) by (nonlinear_arith);
    }
}

/// Computes `lcm(a, b)` when it fits a `u64`; reports the overflow
/// otherwise.
pub fn lcm64(a: u64, b: u64) -> (r: Option<u64>)
    requires
        a > 0,
        b > 0,
    ensures
        match r {
            Some(l) => l == spec_lcm(a as nat, b as nat),
            None => spec_lcm(a as nat, b as nat) > u64::MAX,
        },
{
    let g = gcd64(a, b);
    proof {
        lemma_gcd_properties(a as nat, b as nat);
    }
    let q = a / g;
    proof {
        lemma_mul_u64_fits_u128(q, b);
    }
    let prod = (q as u128) * (b as u128);
    if prod <= u64::MAX as u128 {
        Some(prod as u64)
    } else {
        None
    }
}

/// Divisibility is transitive: if `a` divides `b` and `b` divides `c`,
/// then `a` divides `c`.
pub proof fn lemma_divides_trans(a: nat, b: nat, c: nat)
    requires
        a > 0,
        b > 0,
        b % a == 0,
        c % b == 0,
    ensures
        c % a == 0,
{
    lemma_div_exact_mul(a, b);
    lemma_div_exact_mul(b, c);
    let k = (b / a) * (c / b);
    assert(c as int == k * a as int) by (nonlinear_arith)
        requires
            b as int == (b / a) as int * a as int,
            c as int == (c / b) as int * b as int,
            k == (b / a) * (c / b),
    ;
    lemma_mod_multiples_basic(k as int, a as int);
}

/// Every member of `s` is a well-formed fraction.
pub open spec fn all_wf(s: Seq<Frac>) -> bool {
    forall|i: int| 0 <= i < s.len() ==> (#[trigger] s[i]).wf()
}

/// Least common multiple of all denominators in `s` (1 for the empty
/// sequence).
pub open spec fn spec_lcm_all(s: Seq<Frac>) -> nat
    decreases s.len(),
{
    if s.len() == 0 {
        1
    } else {
        spec_lcm(spec_lcm_all(s.drop_last()), s.last().den as nat)
    }
}

/// Sum of all numerators after bringing every member over the common
/// denominator `d` (exact when every denominator divides `d`).
pub open spec fn spec_weighted_sum(s: Seq<Frac>, d: nat) -> nat
    decreases s.len(),
{
    if s.len() == 0 {
        0
    } else {
        spec_weighted_sum(s.drop_last(), d) + (s.last().num as nat) * (d / (s.last().den as nat))
    }
}

/// Plain sum of the numerators of `s`.
pub open spec fn spec_num_sum(s: Seq<Frac>) -> nat
    decreases s.len(),
{
    if s.len() == 0 {
        0
    } else {
        spec_num_sum(s.drop_last()) + (s.last().num as nat)
    }
}

/// The exact arithmetic mean of `s` fits 64-bit words.
pub open spec fn mean_fits(s: Seq<Frac>) -> bool {
    spec_lcm_all(s) * s.len() <= u64::MAX
}

/// The exact arithmetic mean of `s`: all members over the least common
/// denominator, numerators summed, divided by the length.  Meaningful when
/// `s` is non-empty and `mean_fits(s)` holds.
pub open spec fn spec_mean(s: Seq<Frac>) -> Frac {
    Frac {
        num: spec_weighted_sum(s, spec_lcm_all(s)) as u64,
        den: (spec_lcm_all(s) * s.len()) as u64,
    }
}

/// The common denominator is positive and every denominator in `s`
/// divides it.
pub proof fn lemma_lcm_all_divisibility(s: Seq<Frac>)
    requires
        all_wf(s),
    ensures
        spec_lcm_all(s) >= 1,
        forall|i: int|
            0 <= i < s.len() ==> spec_lcm_all(s) % (((#[trigger] s[i]).den) as nat) == 0,
    decreases s.len(),
{
    if s.len() > 0 {
        let prefix = s.drop_last();
        let d = s.last().den as nat;
        let l0 = spec_lcm_all(prefix);
        lemma_lcm_all_divisibility(prefix);
        lemma_lcm_properties(l0, d);
        let l = spec_lcm(l0, d);
        assert forall|i: int| 0 <= i < s.len() implies l % (((#[trigger] s[i]).den) as nat)
            == 0 by {
            if i < s.len() - 1 {
                assert(s[i] == prefix[i]);
                lemma_divides_trans(s[i].den as nat, l0, l);
            }
        }
    }
}

/// Extending a sequence never shrinks the common denominator.
pub proof fn lemma_lcm_all_prefix_le(s: Seq<Frac>, j: int)
    requires
        all_wf(s),
        0 <= j <= s.len(),
    ensures
        spec_lcm_all(s.take(j)) <= spec_lcm_all(s),
    decreases s.len() - j,
{
    if j == s.len() {
        assert(s.take(j) =~= s);
    } else {
        let prefix = s.drop_last();
        lemma_lcm_all_divisibility(prefix);
        lemma_lcm_properties(spec_lcm_all(prefix), s.last().den as nat);
        assert(prefix.take(j) =~= s.take(j));
        lemma_lcm_all_prefix_le(prefix, j);
    }
}

/// With a common denominator that every member divides, the weighted sum
/// is at most `len * d`.
pub proof fn lemma_weighted_sum_le(s: Seq<Frac>, d: nat)
    requires
        all_wf(s),
        d >= 1,
        forall|i: int| 0 <= i < s.len() ==> d % (((#[trigger] s[i]).den) as nat) == 0,
    ensures
        spec_weighted_sum(s, d) <= s.len() * d,
    decreases s.len(),
{
    if s.len() == 0 {
    } else {
        let prefix = s.drop_last();
        let v = s.last();
        assert(forall|i: int|
            0 <= i < prefix.len() ==> d % (((#[trigger] prefix[i]).den) as nat) == 0);
        lemma_weighted_sum_le(prefix, d);
        lemma_div_exact_mul(v.den as nat, d);
        lemma_mul_inequality(v.num as int, v.den as int, (d / (v.den as nat)) as int);
        assert(v.num * (d / (v.den as nat)) <= d);
        assert((s.len() - 1) * d + d == s.len() * d) by (nonlinear_arith);
    }
}

/// When every denominator equals `d`, the common denominator is `d` and
/// the weighted sum is the plain numerator sum.
pub proof fn lemma_mean_uniform_den(s: Seq<Frac>, d: u64)
    requires
        all_wf(s),
        d > 0,
        forall|i: int| 0 <= i < s.len() ==> ((#[trigger] s[i]).den) == d,
        s.len() > 0,
    ensures
        spec_lcm_all(s) == d as nat,
        spec_weighted_sum(s, d as nat) == spec_num_sum(s),
    decreases s.len(),
{
    let prefix = s.drop_last();
    let dn = d as nat;
    assert(spec_gcd(dn, dn) == dn) by {
        lemma_mod_self_0(d as int);
        assert(spec_gcd(dn, dn) == spec_gcd(dn, 0nat));
    }
    assert(spec_gcd(1nat, dn) == 1nat) by {
        if dn == 1 {
            lemma_mod_self_0(1int);
            assert(spec_gcd(1nat, 1nat) == spec_gcd(1nat, 0nat));
        } else {
            lemma_small_mod(1nat, dn);
            assert(spec_gcd(1nat, dn) == spec_gcd(dn, 1nat));
            assert(dn % 1nat == 0) by {
                lemma_mod_multiples_basic(d as int, 1int);
            }
            assert(spec_gcd(dn, 1nat) == spec_gcd(1nat, 0nat));
        }
    }
    assert(dn / dn == 1nat) by {
        lemma_mod_self_0(d as int);
        lemma_div_exact_mul(dn, dn);
        assert((dn / dn) * dn == dn);
        assert(dn / dn == 1nat) by (nonlinear_arith)
            requires
                (dn / dn) * dn == dn,
                dn > 0,
        ;
    }
    let n = s.len() as int;
    assert(s.last() == s[n - 1]);
    assert(s.last().den == d);
    assert(forall|i: int| 0 <= i < prefix.len() ==> (#[trigger] prefix[i]) == s[i]);
    if s.len() == 1 {
        assert(spec_lcm_all(prefix) == 1);
        assert(spec_lcm(1nat, dn) == (1nat / 1nat) * dn);
        assert(1nat / 1nat == 1nat);
        assert(spec_lcm_all(s) == dn);
        assert(spec_weighted_sum(prefix, dn) == 0);
        assert(spec_num_sum(prefix) == 0);
    } else {
        lemma_mean_uniform_den(prefix, d);
        assert(spec_lcm(dn, dn) == (dn / dn) * dn);
        assert(spec_lcm_all(s) == dn);
        assert(spec_weighted_sum(prefix, dn) == spec_num_sum(prefix));
    }
    assert(spec_weighted_sum(s, dn) == spec_weighted_sum(prefix, dn) + (s.last().num as nat) * (
    dn / dn));
    assert(spec_num_sum(s) == spec_num_sum(prefix) + (s.last().num as nat));
}

/// The mean of a single fraction is that fraction, unchanged.
pub proof fn lemma_mean_singleton(v: Frac)
    requires
        v.wf(),
    ensures
        mean_fits(seq![v]),
        spec_mean(seq![v]) == v,
{
    let s = seq![v];
    assert(s.drop_last() =~= Seq::<Frac>::empty());
    assert(s.last() == v);
    lemma_mean_uniform_den(s, v.den);
    assert(spec_num_sum(Seq::<Frac>::empty()) == 0);
    assert(spec_num_sum(s) == spec_num_sum(s.drop_last()) + (v.num as nat));
    assert(spec_lcm_all(s) * s.len() == v.den as nat * 1) by (nonlinear_arith)
        requires
            spec_lcm_all(s) == v.den as nat,
            s.len() == 1,
    ;
    assert(spec_num_sum(s) == v.num);
}

/// Computes the exact arithmetic mean of a non-empty sequence of
/// fractions, or reports that it does not fit 64-bit words.
pub fn frac_mean(vals: &Vec<Frac>) -> (r: Result<Frac, AnalysisError>)
    requires
        vals@.len() > 0,
        all_wf(vals@),
    ensures
        match r {
            Ok(m) => mean_fits(vals@) && m == spec_mean(vals@) && m.wf(),
            Err(e) => e == AnalysisError::NumericOverflow && !mean_fits(vals@),
        },
{
    let n = vals.len();
    let mut lc: u64 = 1;
    let mut i: usize = 0;
    while i < n
        invariant
            0 < lc,
            i <= n,
            n == vals@.len(),
            all_wf(vals@),
            lc as nat == spec_lcm_all(vals@.take(i as int)),
        decreases n - i,
    {
        let d = vals[i].den;
        proof {
            assert(vals@[i as int].wf());
            assert(vals@.take(i as int + 1).drop_last() =~= vals@.take(i as int));
            assert(vals@.take(i as int + 1).last() == vals@[i as int]);
        }
        match lcm64(lc, d) {
            Some(l) => {
                proof {
                    lemma_lcm_properties(lc as nat, d as nat);
                }
                lc = l;
            },
            None => {
                proof {
                    lemma_overflow_means_unfit(vals@, i as int);
                }
                return Err(AnalysisError::NumericOverflow);
            },
        }
        i = i + 1;
    }
    proof {
        assert(vals@.take(n as int) =~= vals@);
        lemma_mul_u64_fits_u128(lc, n as u64);
    }
    let total = (lc as u128) * (n as u128);
    if total > u64::MAX as u128 {
        return Err(AnalysisError::NumericOverflow);
    }
    proof {
        lemma_lcm_all_divisibility(vals@);
    }
    let mut sum: u128 = 0;
    let mut j: usize = 0;
    while j < n
        invariant
            j <= n,
            n == vals@.len(),
            all_wf(vals@),
            0 < lc,
            lc as nat == spec_lcm_all(vals@),
            lc as nat * n as nat <= u64::MAX,
            forall|k: int| 0 <= k < n ==> lc as nat % (((#[trigger] vals@[k]).den) as nat) == 0,
            sum as nat == spec_weighted_sum(vals@.take(j as int), lc as nat),
            sum as nat <= j as nat * lc as nat,
        decreases n - j,
    {
        let v = vals[j];
        let q = lc / v.den;
        proof {
            assert(vals@[j as int].wf());
            lemma_div_exact_mul(v.den as nat, lc as nat);
            lemma_mul_inequality(v.num as int, v.den as int, q as int);
            assert(v.num as nat * q as nat <= lc as nat);
            lemma_mul_u64_fits_u128(v.num, q);
            assert(vals@.take(j as int + 1).drop_last() =~= vals@.take(j as int));
            assert(vals@.take(j as int + 1).last() == vals@[j as int]);
            assert((j as nat + 1) * lc as nat == j as nat * lc as nat + lc as nat)
                by (nonlinear_arith);
            lemma_mul_step_le(j as nat + 1, n as nat, lc as nat);
        }
        let term = (v.num as u128) * (q as u128);
        sum = sum + term;
        j = j + 1;
    }
    proof {
        assert(vals@.take(n as int) =~= vals@);
        lemma_mul_is_commutative(n as int, lc as int);
        assert(sum as nat <= lc as nat * n as nat);
        assert(lc as nat * n as nat > 0) by (nonlinear_arith)
            requires
                lc as nat > 0,
                n as nat > 0,
        ;
        assert(sum as nat == spec_weighted_sum(vals@, lc as nat));
        assert(total as nat == lc as nat * n as nat);
    }
    Ok(Frac { num: sum as u64, den: total as u64 })
}

/// Helper: products with a larger left factor dominate.
proof fn lemma_mul_step_le(a: nat, b: nat, c: nat)
    by (nonlinear_arith)
    requires
        a <= b,
    ensures
        a * c <= b * c,
{
}

/// Helper: a least-common-multiple overflow at any step means the mean of
/// the whole sequence cannot fit.
proof fn lemma_overflow_means_unfit(s: Seq<Frac>, i: int)
    requires
        all_wf(s),
        0 <= i < s.len(),
        spec_lcm(spec_lcm_all(s.take(i)), s[i].den as nat) > u64::MAX,
    ensures
        !mean_fits(s),
{
    assert(s.take(i + 1).drop_last() =~= s.take(i));
    assert(s.take(i + 1).last() == s[i]);
    assert(spec_lcm_all(s.take(i + 1)) > u64::MAX);
    assert(all_wf(s.take(i + 1)));
    lemma_lcm_all_prefix_le(s, i + 1);
    assert(spec_lcm_all(s) > u64::MAX);
    assert(spec_lcm_all(s) * s.len() >= spec_lcm_all(s) * 1) by (nonlinear_arith)
        requires
            s.len() >= 1,
            spec_lcm_all(s) >= 0,
    ;
}

} // verus!
