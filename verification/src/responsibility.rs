//! Responsibility results and the cooperative-game weights.
//!
//! A [`ResponsibilityResult`] carries, for one player, the exact rational
//! count of pivotal coalitions of each size and the weighted values derived
//! from them. Weights are Shapley `(n-s)!(s-1)!/n!`, Banzhaf `1/2^(n-1)` or
//! the raw count weight `1`, all as exact rationals.

use vstd::prelude::*;
use crate::rational::{Frac, fwf, rv, feq, fint, fadd, fmul, rat_num, rat_den, big_val, rat_zero, rat_one, rat_add, rat_mul, rat_new, big_from_u64, big_mul, big_clone, fadd_congr, fmul_congr, feq_trans, feq_sym, fadd_zero, fadd_assoc};
use num_rational::BigRational;
use num_bigint::BigInt;

verus! {

#[derive(Copy, Clone, Debug, Eq, PartialEq, Structural)]
pub enum WeightType {
    Shapley,
    Banzhaf,
    Count,
}

pub open spec fn fact(k: nat) -> nat
    decreases k,
{
    if k == 0 {
        1
    } else {
        k * fact((k - 1) as nat)
    }
}

pub open spec fn pow2(k: nat) -> nat
    decreases k,
{
    if k == 0 {
        1
    } else {
        2 * pow2((k - 1) as nat)
    }
}

pub proof fn lemma_fact_pos(k: nat)
    ensures
        fact(k) >= 1,
    decreases k,
{
    if k > 0 {
        lemma_fact_pos((k - 1) as nat);
        let f = fact((k - 1) as nat);
        assert(k * f >= 1) by (nonlinear_arith)
            requires
                k >= 1,
                f >= 1,
        ;
    }
}

pub proof fn lemma_pow2_pos(k: nat)
    ensures
        pow2(k) >= 1,
    decreases k,
{
    if k > 0 {
        lemma_pow2_pos((k - 1) as nat);
    }
}

/// The size-indexed weight: how much one pivotal coalition of size `s`
/// contributes to a player's responsibility, for `1 <= s <= n`.
pub open spec fn spec_weight(weight_type: WeightType, n: int, s: int) -> Frac {
    match weight_type {
        WeightType::Shapley => Frac {
            n: (fact((n - s) as nat) * fact((s - 1) as nat)) as int,
            d: fact(n as nat) as int,
        },
        WeightType::Banzhaf => Frac { n: 1, d: pow2((n - 1) as nat) as int },
        WeightType::Count => fint(1),
    }
}

/// The weighted total over sizes `1..=k`:
/// `sum_s counts[s] * weights[s]` as a fraction.
pub open spec fn total_upto(counts: Seq<BigRational>, weights: Seq<BigRational>, k: int) -> Frac
    decreases k,
{
    if k <= 0 {
        fint(0)
    } else {
        fadd(total_upto(counts, weights, k - 1), fmul(rv(counts[k]), rv(weights[k])))
    }
}

pub proof fn lemma_total_upto_wf(counts: Seq<BigRational>, weights: Seq<BigRational>, k: int)
    requires
        forall|i: int| 1 <= i <= k ==> fwf(rv(#[trigger] counts[i])),
        forall|i: int| 1 <= i <= k ==> fwf(rv(#[trigger] weights[i])),
    ensures
        fwf(total_upto(counts, weights, k)),
    decreases k,
{
    if k > 0 {
        lemma_total_upto_wf(counts, weights, k - 1);
        let t = total_upto(counts, weights, k - 1);
        let m = fmul(rv(counts[k]), rv(weights[k]));
        let cd = rv(counts[k]).d;
        let wd = rv(weights[k]).d;
        assert(m.d == cd * wd);
        assert(cd * wd > 0) by (nonlinear_arith)
            requires
                cd > 0,
                wd > 0,
        ;
        assert(t.d * m.d > 0) by (nonlinear_arith)
            requires
                t.d > 0,
                m.d > 0,
        ;
        assert(fadd(t, m).d == t.d * m.d);
    }
}

/// When every count up to `k` stands for zero, the weighted total is zero.
pub proof fn lemma_total_upto_zero(counts: Seq<BigRational>, weights: Seq<BigRational>, k: int)
    requires
        forall|i: int| 1 <= i <= k ==> fwf(rv(#[trigger] counts[i])),
        forall|i: int| 1 <= i <= k ==> fwf(rv(#[trigger] weights[i])),
        forall|i: int| 1 <= i <= k ==> feq(rv(#[trigger] counts[i]), fint(0)),
    ensures
        feq(total_upto(counts, weights, k), fint(0)),
    decreases k,
{
    if k <= 0 {
    } else {
        lemma_total_upto_zero(counts, weights, k - 1);
        lemma_total_upto_wf(counts, weights, k - 1);
        let t = total_upto(counts, weights, k - 1);
        let m = fmul(rv(counts[k]), rv(weights[k]));
        let cn = rv(counts[k]).n;
        let wn = rv(weights[k]).n;
        assert(cn == 0);
        assert(m.n == cn * wn);
        assert(cn * wn == 0) by (nonlinear_arith)
            requires
                cn == 0,
        ;
        let a = fadd(t, m);
        assert(a.n == t.n * m.d + m.n * t.d);
        assert(t.n == 0);
        assert(t.n * m.d + m.n * t.d == 0) by (nonlinear_arith)
            requires
                t.n == 0,
                m.n == 0,
        ;
    }
}


/// The table `0!, 1!, ..., n!` as exact big integers.
pub fn factorials_upto(n: usize) -> (v: Vec<BigInt>)
    requires
        n <= 64,
    ensures
        v@.len() == n + 1,
        forall|k: int| 0 <= k <= n ==> big_val(#[trigger] v@[k]) == fact(k as nat),
{
    let mut factorials: Vec<BigInt> = Vec::new();
    factorials.push(big_from_u64(1));
    let mut current_value = big_from_u64(1);
    let mut i: usize = 1;
    while i <= n
        invariant
            1 <= i <= n + 1,
            n <= 64,
            factorials@.len() == i,
            big_val(current_value) == fact((i - 1) as nat),
            forall|k: int| 0 <= k < i ==> big_val(#[trigger] factorials@[k]) == fact(k as nat),
        decreases n + 1 - i,
    {
        let step = big_from_u64(i as u64);
        current_value = big_mul(&current_value, &step);
        proof {
            let f = fact((i - 1) as nat);
            assert(fact(i as nat) == (i as nat) * f);
            assert(f * (i as int) == (i as int) * f) by (nonlinear_arith);
        }
        factorials.push(big_clone(&current_value));
        i = i + 1;
    }
    factorials
}

pub struct ResponsibilityResult {
    pub group_index: usize,
    pub n: usize,
    pub count_by_size: Vec<BigRational>,
    pub value_by_size: Vec<BigRational>,
    pub total_value: BigRational,
}

impl ResponsibilityResult {
    /// The structural invariant: both per-size vectors span sizes
    /// `0..=n` and hold well-formed rationals, as does the total.
    pub open spec fn wf(&self) -> bool {
        &&& self.count_by_size@.len() == self.n + 1
        &&& self.value_by_size@.len() == self.n + 1
        &&& forall|i: int| 0 <= i <= self.n ==> fwf(rv(#[trigger] self.count_by_size@[i]))
        &&& forall|i: int| 0 <= i <= self.n ==> fwf(rv(#[trigger] self.value_by_size@[i]))
        &&& fwf(rv(self.total_value))
    }

    /// A fresh result: every count, value and the total are zero.
    pub fn new(group_index: usize, size: usize) -> (r: ResponsibilityResult)
        requires
            size < usize::MAX,
        ensures
            r.wf(),
            r.group_index == group_index,
            r.n == size,
            forall|i: int| 0 <= i <= size ==> feq(rv(#[trigger] r.count_by_size@[i]), fint(0)),
            forall|i: int| 0 <= i <= size ==> feq(rv(#[trigger] r.value_by_size@[i]), fint(0)),
            feq(rv(r.total_value), fint(0)),
    {
        let mut count_by_size: Vec<BigRational> = Vec::new();
        let mut value_by_size: Vec<BigRational> = Vec::new();
        let mut i: usize = 0;
        while i <= size
            invariant
                size < usize::MAX,
                i <= size + 1,
                count_by_size@.len() == i,
                value_by_size@.len() == i,
                forall|k: int|
                    0 <= k < i ==> rat_num(#[trigger] count_by_size@[k]) == 0 && rat_den(
                        count_by_size@[k],
                    ) == 1,
                forall|k: int|
                    0 <= k < i ==> rat_num(#[trigger] value_by_size@[k]) == 0 && rat_den(
                        value_by_size@[k],
                    ) == 1,
            decreases size + 1 - i,
        {
            count_by_size.push(rat_zero());
            value_by_size.push(rat_zero());
            i = i + 1;
        }
        ResponsibilityResult {
            group_index,
            n: size,
            count_by_size,
            value_by_size,
            total_value: rat_zero(),
        }
    }

    /// Adds the other result's per-size counts into this one, element by
    /// element.
    pub fn add_counts(&mut self, other: &ResponsibilityResult)
        requires
            old(self).wf(),
            other.wf(),
            old(self).n == other.n,
            old(self).n < usize::MAX,
        ensures
            final(self).wf(),
            final(self).n == old(self).n,
            final(self).group_index == old(self).group_index,
            final(self).value_by_size == old(self).value_by_size,
            final(self).total_value == old(self).total_value,
            forall|i: int|
                0 <= i <= final(self).n ==> feq(
                    rv(#[trigger] final(self).count_by_size@[i]),
                    fadd(rv(old(self).count_by_size@[i]), rv(other.count_by_size@[i])),
                ),
    {
        let n = self.n;
        let mut i: usize = 0;
        while i <= n
            invariant
                n < usize::MAX,
                i <= n + 1,
                n == self.n,
                self.n == old(self).n,
                self.n == other.n,
                other.wf(),
                self.group_index == old(self).group_index,
                self.value_by_size == old(self).value_by_size,
                self.total_value == old(self).total_value,
                self.count_by_size@.len() == n + 1,
                old(self).wf(),
                fwf(rv(self.total_value)),
                forall|k: int| 0 <= k <= n ==> fwf(rv(#[trigger] self.value_by_size@[k])),
                forall|k: int| 0 <= k <= n ==> fwf(rv(#[trigger] self.count_by_size@[k])),
                forall|k: int|
                    0 <= k < i ==> feq(
                        rv(#[trigger] self.count_by_size@[k]),
                        fadd(rv(old(self).count_by_size@[k]), rv(other.count_by_size@[k])),
                    ),
                forall|k: int|
                    i <= k <= n ==> (#[trigger] self.count_by_size@[k]) == old(
                        self,
                    ).count_by_size@[k],
            decreases n + 1 - i,
        {
            let sum = rat_add(&self.count_by_size[i], &other.count_by_size[i]);
            self.count_by_size[i] = sum;
            i = i + 1;
        }
    }

    /// The exact rational weight vector for `n` players: entry `0` is zero
    /// and entry `s` is the weight of a pivotal coalition of size `s`.
    pub fn compute_weights(weight_type: WeightType, n: usize) -> (weights: Vec<BigRational>)
        requires
            n <= 64,
        ensures
            weights@.len() == n + 1,
            forall|s: int| 0 <= s <= n ==> fwf(rv(#[trigger] weights@[s])),
            feq(rv(weights@[0]), fint(0)),
            forall|s: int|
                1 <= s <= n ==> feq(rv(#[trigger] weights@[s]), spec_weight(weight_type, n as int, s)),
    {
        let factorials = factorials_upto(n);

        let mut weights: Vec<BigRational> = Vec::new();
        weights.push(rat_zero());
        let mut s: usize = 1;
        while s <= n
            invariant
                1 <= s <= n + 1,
                n <= 64,
                factorials@.len() == n + 1,
                forall|k: int| 0 <= k <= n ==> big_val(#[trigger] factorials@[k]) == fact(k as nat),
                weights@.len() == s,
                rat_num(weights@[0]) == 0 && rat_den(weights@[0]) == 1,
                forall|k: int| 0 <= k < s ==> fwf(rv(#[trigger] weights@[k])),
                forall|k: int|
                    1 <= k < s ==> feq(
                        rv(#[trigger] weights@[k]),
                        spec_weight(weight_type, n as int, k),
                    ),
            decreases n + 1 - s,
        {
            let w = match weight_type {
                WeightType::Shapley => {
                    let num = big_mul(&factorials[n - s], &factorials[s - 1]);
                    let den = big_clone(&factorials[n]);
                    proof {
                        lemma_fact_pos(n as nat);
                        assert(big_val(num) == fact((n - s) as nat) * fact((s - 1) as nat));
                    }
                    rat_new(num, den)
                },
                WeightType::Banzhaf => {
                    let mut den = big_from_u64(1);
                    let two = big_from_u64(2);
                    let mut k: usize = 0;
                    while k < n - 1
                        invariant
                            n >= 1,
                            k <= n - 1,
                            big_val(den) == pow2(k as nat),
                            big_val(two) == 2,
                        decreases n - k,
                    {
                        den = big_mul(&den, &two);
                        proof {
                            let p = pow2(k as nat);
                            assert(pow2((k + 1) as nat) == 2 * p);
                            assert(p * 2 == 2 * p) by (nonlinear_arith);
                        }
                        k = k + 1;
                    }
                    proof {
                        lemma_pow2_pos((n - 1) as nat);
                    }
                    rat_new(big_from_u64(1), den)
                },
                WeightType::Count => rat_one(),
            };
            weights.push(w);
            s = s + 1;
        }
        weights
    }

    /// Fills `value_by_size[s] = count_by_size[s] * weights[s]` and the
    /// total `sum_{s=1..n} count_by_size[s] * weights[s]`, exactly.
    pub fn compute_values(&mut self, weights: &Vec<BigRational>)
        requires
            old(self).wf(),
            old(self).n < usize::MAX,
            weights@.len() == old(self).n + 1,
            forall|s: int| 0 <= s <= old(self).n ==> fwf(rv(#[trigger] weights@[s])),
        ensures
            final(self).wf(),
            final(self).n == old(self).n,
            final(self).group_index == old(self).group_index,
            final(self).count_by_size == old(self).count_by_size,
            forall|s: int|
                1 <= s <= final(self).n ==> feq(
                    rv(#[trigger] final(self).value_by_size@[s]),
                    fmul(rv(old(self).count_by_size@[s]), rv(weights@[s])),
                ),
            final(self).value_by_size@[0] == old(self).value_by_size@[0],
            feq(
                rv(final(self).total_value),
                fadd(rv(old(self).total_value), total_upto(old(self).count_by_size@, weights@, old(self).n as int)),
            ),
    {
        let n = self.n;
        proof {
            fadd_zero(rv(self.total_value));
            feq_sym(fadd(rv(self.total_value), fint(0)), rv(self.total_value));
        }
        let mut i: usize = 1;
        while i <= n
            invariant
                n < usize::MAX,
                1 <= i <= n + 1,
                n == self.n,
                self.n == old(self).n,
                self.group_index == old(self).group_index,
                self.count_by_size == old(self).count_by_size,
                old(self).wf(),
                weights@.len() == n + 1,
                forall|s: int| 0 <= s <= n ==> fwf(rv(#[trigger] weights@[s])),
                self.count_by_size@.len() == n + 1,
                self.value_by_size@.len() == n + 1,
                forall|k: int| 0 <= k <= n ==> fwf(rv(#[trigger] self.count_by_size@[k])),
                forall|k: int| 0 <= k <= n ==> fwf(rv(#[trigger] self.value_by_size@[k])),
                self.value_by_size@[0] == old(self).value_by_size@[0],
                forall|k: int|
                    1 <= k < i ==> feq(
                        rv(#[trigger] self.value_by_size@[k]),
                        fmul(rv(old(self).count_by_size@[k]), rv(weights@[k])),
                    ),
                fwf(rv(self.total_value)),
                feq(
                    rv(self.total_value),
                    fadd(
                        rv(old(self).total_value),
                        total_upto(old(self).count_by_size@, weights@, i - 1),
                    ),
                ),
            decreases n + 1 - i,
        {
            let ghost t_prev = rv(self.total_value);
            let value = rat_mul(&self.count_by_size[i], &weights[i]);
            let new_total = rat_add(&self.total_value, &value);
            proof {
                let counts = old(self).count_by_size@;
                let t0 = rv(old(self).total_value);
                let tu_prev = total_upto(counts, weights@, i - 1);
                let tu_now = total_upto(counts, weights@, i as int);
                let m = fmul(rv(counts[i as int]), rv(weights@[i as int]));
                lemma_total_upto_wf(counts, weights@, i - 1);
                lemma_total_upto_wf(counts, weights@, i as int);
                fmul_congr(
                    rv(self.count_by_size@[i as int]),
                    rv(weights@[i as int]),
                    rv(counts[i as int]),
                    rv(weights@[i as int]),
                );
                // rv(value) feq m
                feq_trans(rv(value), fmul(rv(self.count_by_size@[i as int]), rv(weights@[i as int])), m);
                // new_total feq fadd(t_prev, rv(value)) feq fadd(t0 + tu_prev, m) == t0 + tu_now
                assert(fwf(fadd(t0, tu_prev))) by (nonlinear_arith)
                    requires
                        fwf(t0),
                        fwf(tu_prev),
                ;
                fadd_congr(t_prev, rv(value), fadd(t0, tu_prev), m);
                feq_trans(rv(new_total), fadd(t_prev, rv(value)), fadd(fadd(t0, tu_prev), m));
                fadd_assoc(t0, tu_prev, m);
                assert(fadd(t0, fadd(tu_prev, m)) == fadd(t0, tu_now));
            }
            self.value_by_size[i] = value;
            self.total_value = new_total;
            i = i + 1;
        }
    }
}


/// A result stripped to what comparisons need: the player and its exact
/// total.
pub struct TrimmedResponsibilityResult {
    pub group_index: usize,
    pub n: usize,
    pub total_value: BigRational,
}

impl TrimmedResponsibilityResult {
    pub fn from_responsibility_result(responsibility_result: ResponsibilityResult) -> (r:
        TrimmedResponsibilityResult)
        ensures
            r.group_index == responsibility_result.group_index,
            r.n == responsibility_result.n,
            r.total_value == responsibility_result.total_value,
    {
        TrimmedResponsibilityResult {
            group_index: responsibility_result.group_index,
            n: responsibility_result.n,
            total_value: responsibility_result.total_value,
        }
    }
}

} // verus!
