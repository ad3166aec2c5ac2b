//! The stratified Monte-Carlo estimator for pessimistic responsibility.
//!
//! Each sample draws a coalition size uniformly, then a coalition of exactly
//! that size uniformly, evaluates the game, and — when the safety player won
//! — probes a bounded number of members for significance (removing the member
//! flips the winner). A per-size global counter serves every player's
//! denominator at once; per-player local corrections account for the members
//! that were or were not probed. Randomness comes from one explicitly seeded
//! generator per worker, so a run is reproducible from its seed.

use vstd::prelude::*;
use crate::game::{Game, Player};
use crate::groups::{StateGroups, cnt_val};
use crate::rational::{Frac, fwf, rv, feq, fint, fadd, fsub, fmul, rat_num, rat_den, big_val,
    rat_zero, rat_one, rat_add, rat_sub, rat_mul, rat_div, rat_new, rat_from_u64, rat_clone,
    rat_is_positive, big_from_u64, big_mul, big_clone, fadd_congr, fmul_congr, feq_trans, feq_sym,
    fadd_zero, fadd_assoc};
use crate::responsibility::{ResponsibilityResult, WeightType, fact, factorials_upto,
    lemma_fact_pos, spec_weight, total_upto, lemma_total_upto_wf};
use crate::solver::{solver_game_ok, lemma_mask_count_le_full};
use num_rational::BigRational;

verus! {

#[verifier::external_type_specification]
#[verifier::external_body]
pub struct ExRng(fastrand::Rng);

/// Relies on `fastrand::Rng::with_seed`: a generator started from the seed.
#[verifier::external_body]
pub fn rng_with_seed(seed: u64) -> (r: fastrand::Rng)
    ensures
        true,
{
    fastrand::Rng::with_seed(seed)
}

/// Relies on `fastrand::Rng::usize` on a half-open range, which panics only
/// when the range is empty and always returns a member of the range.
#[verifier::external_body]
pub fn rng_usize(rng: &mut fastrand::Rng, lo: usize, hi: usize) -> (r: usize)
    requires
        lo < hi,
    ensures
        lo <= r < hi,
{
    rng.usize(lo..hi)
}

/// How long to sample: a number of coalitions, or a wall-clock budget in
/// milliseconds (driven by the caller, who owns the clock).
#[derive(Copy, Clone, Debug, Eq, PartialEq, Structural)]
pub enum SampleTarget {
    Samples(usize),
    ElapsedTime(u64),
}

impl SampleTarget {
    /// This worker's share of the target: sample budgets split evenly with
    /// the remainder going to the low-indexed workers; time budgets are
    /// shared as they are.
    pub fn split_across_threads(&self, thread_count: usize, thread_index: usize) -> (r:
        SampleTarget)
        requires
            thread_count > 0,
        ensures
            match *self {
                SampleTarget::Samples(sample_count) => r matches SampleTarget::Samples(share)
                    && share == sample_count / thread_count + (if thread_index < sample_count
                    % thread_count {
                    1int
                } else {
                    0int
                }),
                SampleTarget::ElapsedTime(d) => r == SampleTarget::ElapsedTime(d),
            },
    {
        match self {
            SampleTarget::Samples(sample_count) => {
                if thread_index < sample_count % thread_count {
                    proof {
                        let c = *sample_count;
                        let t = thread_count;
                        assert(c % t >= 1 ==> c / t + 1 <= c) by (nonlinear_arith)
                            requires
                                t > 0,
                        ;
                    }
                    SampleTarget::Samples(sample_count / thread_count + 1)
                } else {
                    SampleTarget::Samples(sample_count / thread_count)
                }
            },
            SampleTarget::ElapsedTime(duration) => SampleTarget::ElapsedTime(*duration),
        }
    }
}


/// Whether bit `b` of the mask is set.
pub open spec fn bit_set(mask: u64, b: int) -> bool {
    mask & (1u64 << (b as u64)) != 0
}

/// A player whose bit is in the mask contributes at most the mask's count
/// at every state.
pub proof fn lemma_bit_count_le_mask(groups: &StateGroups, mask: u64, i: int, s: int)
    requires
        0 <= i < groups.spec_len(),
        groups.spec_len() <= 64,
        mask & (1u64 << (i as u64)) != 0,
    ensures
        cnt_val(groups.members_of(i), s, groups.members_of(i).len() as int)
            <= groups.mask_count(mask, s),
{
    assert(groups.mask_count_upto(mask, s, i + 1) == groups.mask_count_upto(mask, s, i) + cnt_val(
        groups.members_of(i),
        s,
        groups.members_of(i).len() as int,
    ));
    groups.lemma_mask_count_mono(mask, s, i + 1, groups.spec_len());
}

/// Clearing one player's bit removes exactly that player's contribution
/// from the mask's count.
pub proof fn lemma_mask_count_remove_bit(groups: &StateGroups, mask: u64, i: int, s: int, k: int)
    requires
        0 <= i < groups.spec_len(),
        groups.spec_len() <= 64,
        mask & (1u64 << (i as u64)) != 0,
        0 <= k <= groups.spec_len(),
    ensures
        groups.mask_count_upto(mask & !(1u64 << (i as u64)), s, k) + (if i < k {
            cnt_val(groups.members_of(i), s, groups.members_of(i).len() as int)
        } else {
            0nat
        }) == groups.mask_count_upto(mask, s, k),
    decreases k,
{
    if k > 0 {
        lemma_mask_count_remove_bit(groups, mask, i, s, k - 1);
        let iu = i as u64;
        let j = (k - 1) as u64;
        if k - 1 == i {
            assert((mask & !(1u64 << iu)) & (1u64 << j) == 0) by (bit_vector)
                requires
                    iu == j,
                    iu < 64u64,
            ;
        } else {
            assert(((mask & !(1u64 << iu)) & (1u64 << j) != 0) == (mask & (1u64 << j) != 0))
                by (bit_vector)
                requires
                    iu != j,
                    iu < 64u64,
                    j < 64u64,
            ;
        }
    }
}


/// The sum of the per-size values over sizes `1..=k`.
pub open spec fn vsum(values: Seq<BigRational>, k: int) -> Frac
    decreases k,
{
    if k <= 0 {
        fint(0)
    } else {
        fadd(vsum(values, k - 1), rv(values[k]))
    }
}

pub proof fn lemma_vsum_wf(values: Seq<BigRational>, k: int)
    requires
        forall|i: int| 1 <= i <= k ==> fwf(rv(#[trigger] values[i])),
    ensures
        fwf(vsum(values, k)),
    decreases k,
{
    if k > 0 {
        lemma_vsum_wf(values, k - 1);
        let t = vsum(values, k - 1);
        let v = rv(values[k]);
        assert(t.d * v.d > 0) by (nonlinear_arith)
            requires
                t.d > 0,
                v.d > 0,
        ;
    }
}

/// Two value sequences that agree below `k` have the same partial sum.
pub proof fn lemma_vsum_congr(a: Seq<BigRational>, b: Seq<BigRational>, k: int)
    requires
        forall|i: int| 1 <= i <= k ==> (#[trigger] a[i]) == b[i],
    ensures
        vsum(a, k) == vsum(b, k),
    decreases k,
{
    if k > 0 {
        lemma_vsum_congr(a, b, k - 1);
    }
}

/// The weighted total of estimated counts: `sum_s counts[s] * weight(s)`.
pub open spec fn gen_total(counts: Seq<BigRational>, weight_type: WeightType, n: int, k: int) -> Frac
    decreases k,
{
    if k <= 0 {
        fint(0)
    } else {
        fadd(
            gen_total(counts, weight_type, n, k - 1),
            fmul(rv(counts[k]), spec_weight(weight_type, n, k)),
        )
    }
}

pub proof fn lemma_gen_total_wf(counts: Seq<BigRational>, weight_type: WeightType, n: int, k: int)
    requires
        k <= n,
        forall|i: int| 1 <= i <= k ==> fwf(rv(#[trigger] counts[i])),
    ensures
        fwf(gen_total(counts, weight_type, n, k)),
    decreases k,
{
    if k > 0 {
        lemma_gen_total_wf(counts, weight_type, n, k - 1);
        crate::calculator::lemma_spec_weight_wf(weight_type, n, k);
        let t = gen_total(counts, weight_type, n, k - 1);
        let c = rv(counts[k]);
        let w = spec_weight(weight_type, n, k);
        assert(c.d * w.d > 0) by (nonlinear_arith)
            requires
                c.d > 0,
                w.d > 0,
        ;
        let m = fmul(c, w);
        assert(t.d * m.d > 0) by (nonlinear_arith)
            requires
                t.d > 0,
                m.d > 0,
        ;
    }
}

/// A counts/weights total with weights that stand for the weight formula
/// equals the formula total.
pub proof fn lemma_total_upto_weights(
    counts: Seq<BigRational>,
    weights: Seq<BigRational>,
    weight_type: WeightType,
    n: int,
    k: int,
)
    requires
        k <= n,
        counts.len() > n,
        weights.len() > n,
        forall|s: int| 0 <= s <= n ==> fwf(rv(#[trigger] counts[s])),
        forall|s: int| 0 <= s <= n ==> fwf(rv(#[trigger] weights[s])),
        forall|s: int|
            1 <= s <= n ==> feq(rv(#[trigger] weights[s]), spec_weight(weight_type, n, s)),
    ensures
        feq(total_upto(counts, weights, k), gen_total(counts, weight_type, n, k)),
    decreases k,
{
    if k > 0 {
        lemma_total_upto_weights(counts, weights, weight_type, n, k - 1);
        lemma_total_upto_wf(counts, weights, k - 1);
        lemma_gen_total_wf(counts, weight_type, n, k - 1);
        crate::calculator::lemma_spec_weight_wf(weight_type, n, k);
        let c = rv(counts[k]);
        let w = spec_weight(weight_type, n, k);
        assert(fmul(c, w).d == c.d * w.d);
        assert(c.d * w.d > 0) by (nonlinear_arith)
            requires
                c.d > 0,
                w.d > 0,
        ;
        fmul_congr(rv(counts[k]), rv(weights[k]), rv(counts[k]), spec_weight(weight_type, n, k));
        fadd_congr(
            total_upto(counts, weights, k - 1),
            fmul(rv(counts[k]), rv(weights[k])),
            gen_total(counts, weight_type, n, k - 1),
            fmul(rv(counts[k]), spec_weight(weight_type, n, k)),
        );
    }
}

pub struct SamplerState {
    pub game: Game,
    pub state_groups: StateGroups,
    pub total_samples: usize,
    /// Samples that count for every player's denominator at this size.
    pub samples_per_weight_global: Vec<usize>,
    /// Per-player corrections; negative when a sample counts for all
    /// players except this one.
    pub samples_per_weight_local: Vec<Vec<BigRational>>,
    pub significant_per_weight: Vec<Vec<usize>>,
    pub target: SampleTarget,
    pub thread_count: usize,
    pub seed: u64,
    pub rng: fastrand::Rng,
}

impl SamplerState {
    /// The structural invariant: counter tables span sizes `0..=n` and
    /// players `0..n`, the rationals are well formed, the per-size counts
    /// never exceed the number of samples drawn, and the game is a solver
    /// game of at most 64 player groups.
    pub open spec fn wf(&self) -> bool {
        let n = self.state_groups.spec_len();
        &&& solver_game_ok(&self.state_groups, &self.game)
        &&& 1 <= n <= 64
        &&& self.samples_per_weight_global@.len() == n + 1
        &&& self.samples_per_weight_local@.len() == n + 1
        &&& self.significant_per_weight@.len() == n + 1
        &&& forall|k: int|
            0 <= k <= n ==> (#[trigger] self.samples_per_weight_local@[k]).len() == n
        &&& forall|k: int|
            0 <= k <= n ==> (#[trigger] self.significant_per_weight@[k]).len() == n
        &&& forall|k: int|
            0 <= k <= n ==> (#[trigger] self.samples_per_weight_global@[k])
                <= self.total_samples
        &&& forall|k: int, q: int|
            0 <= k <= n && 0 <= q < n ==> (#[trigger] self.significant_per_weight@[k]@[q])
                <= self.total_samples
        &&& forall|k: int, q: int|
            0 <= k <= n && 0 <= q < n ==> fwf(rv(#[trigger] self.samples_per_weight_local@[k]@[q]))
    }

    /// A fresh sampler: zeroed counters and a generator seeded from `seed`.
    pub fn new(
        game: Game,
        state_groups: StateGroups,
        target: SampleTarget,
        thread_count: usize,
        seed: u64,
    ) -> (r: SamplerState)
        requires
            solver_game_ok(&state_groups, &game),
            1 <= state_groups.spec_len() <= 64,
        ensures
            r.wf(),
            r.game == game,
            r.state_groups == state_groups,
            r.target == target,
            r.thread_count == thread_count,
            r.seed == seed,
            r.total_samples == 0,
            forall|k: int|
                0 <= k <= r.state_groups.spec_len() ==> (
                #[trigger] r.samples_per_weight_global@[k]) == 0,
            forall|k: int, q: int|
                0 <= k <= r.state_groups.spec_len() && 0 <= q < r.state_groups.spec_len() ==> (
                #[trigger] r.significant_per_weight@[k]@[q]) == 0,
            forall|k: int, q: int|
                0 <= k <= r.state_groups.spec_len() && 0 <= q < r.state_groups.spec_len() ==> feq(
                    rv(#[trigger] r.samples_per_weight_local@[k]@[q]),
                    fint(0),
                ),
    {
        let size = state_groups.len();
        let mut samples_per_weight_global: Vec<usize> = Vec::new();
        let mut samples_per_weight_local: Vec<Vec<BigRational>> = Vec::new();
        let mut significant_per_weight: Vec<Vec<usize>> = Vec::new();
        let mut k: usize = 0;
        while k <= size
            invariant
                k <= size + 1,
                size <= 64,
                size == state_groups.spec_len(),
                samples_per_weight_global@.len() == k,
                samples_per_weight_local@.len() == k,
                significant_per_weight@.len() == k,
                forall|i: int| 0 <= i < k ==> (#[trigger] samples_per_weight_global@[i]) == 0,
                forall|i: int|
                    0 <= i < k ==> (#[trigger] samples_per_weight_local@[i]).len() == size,
                forall|i: int|
                    0 <= i < k ==> (#[trigger] significant_per_weight@[i]).len() == size,
                forall|i: int, q: int|
                    0 <= i < k && 0 <= q < size ==> (#[trigger] significant_per_weight@[i]@[q])
                        == 0,
                forall|i: int, q: int|
                    0 <= i < k && 0 <= q < size ==> rat_num(
                        #[trigger] samples_per_weight_local@[i]@[q],
                    ) == 0 && rat_den(samples_per_weight_local@[i]@[q]) == 1,
            decreases size + 1 - k,
        {
            let mut local_row: Vec<BigRational> = Vec::new();
            let mut sig_row: Vec<usize> = Vec::new();
            let mut q: usize = 0;
            while q < size
                invariant
                    q <= size,
                    local_row@.len() == q,
                    sig_row@.len() == q,
                    forall|j: int| 0 <= j < q ==> (#[trigger] sig_row@[j]) == 0,
                    forall|j: int|
                        0 <= j < q ==> rat_num(#[trigger] local_row@[j]) == 0 && rat_den(
                            local_row@[j],
                        ) == 1,
                decreases size - q,
            {
                local_row.push(rat_zero());
                sig_row.push(0);
                q = q + 1;
            }
            samples_per_weight_global.push(0);
            samples_per_weight_local.push(local_row);
            significant_per_weight.push(sig_row);
            k = k + 1;
        }
        let rng = rng_with_seed(seed);
        SamplerState {
            game,
            state_groups,
            total_samples: 0,
            samples_per_weight_global,
            samples_per_weight_local,
            significant_per_weight,
            target,
            thread_count,
            seed,
            rng,
        }
    }

    /// Draws a uniformly random coalition of exactly `size` of the `n`
    /// players by streaming selection: player `i` is accepted with
    /// probability `remaining / (n - i)`. The result always has exactly
    /// `size` members, in increasing order.
    pub fn sample_coalition(&mut self, size: usize) -> (members: Vec<usize>)
        requires
            1 <= size <= old(self).state_groups.spec_len(),
        ensures
            *final(self) == (SamplerState { rng: final(self).rng, ..*old(self) }),
            members@.len() == size,
            forall|j: int|
                0 <= j < members@.len() ==> (#[trigger] members@[j]) < old(self).state_groups.spec_len(),
            forall|j1: int, j2: int|
                0 <= j1 < j2 < members@.len() ==> members@[j1] < members@[j2],
    {
        let n = self.state_groups.len();
        let mut members: Vec<usize> = Vec::new();
        let mut remaining_members = size;
        let mut i: usize = 0;
        while i < n
            invariant
                i <= n,
                n == self.state_groups.spec_len(),
                *self == (SamplerState { rng: self.rng, ..*old(self) }),
                remaining_members <= n - i,
                members@.len() + remaining_members == size,
                forall|j: int| 0 <= j < members@.len() ==> (#[trigger] members@[j]) < i,
                forall|j1: int, j2: int|
                    0 <= j1 < j2 < members@.len() ==> members@[j1] < members@[j2],
            decreases n - i,
        {
            let draw = rng_usize(&mut self.rng, 0, n - i);
            if draw < remaining_members {
                members.push(i);
                remaining_members = remaining_members - 1;
            }
            i = i + 1;
        }
        members
    }

    /// One sampling round: which counters a draw of size `k` may touch.
    /// The global counter at `k` grows by one; rows of other sizes are
    /// untouched; each significance counter of row `k` grows by at most
    /// one.
    pub open spec fn counters_step(a: &SamplerState, b: &SamplerState, k: int) -> bool {
        let n = a.state_groups.spec_len();
        &&& b.samples_per_weight_global@ == a.samples_per_weight_global@.update(
            k,
            (a.samples_per_weight_global@[k] + 1) as usize,
        )
        &&& forall|k2: int|
            0 <= k2 <= n && k2 != k ==> (#[trigger] b.samples_per_weight_local@[k2])
                == a.samples_per_weight_local@[k2]
        &&& forall|k2: int|
            0 <= k2 <= n && k2 != k ==> (#[trigger] b.significant_per_weight@[k2])
                == a.significant_per_weight@[k2]
        &&& forall|q: int|
            0 <= q < n ==> (#[trigger] a.significant_per_weight@[k]@[q])
                <= b.significant_per_weight@[k]@[q] <= a.significant_per_weight@[k]@[q] + 1
    }

    /// What one drawn sample does to player `q`'s size-`k` counters: a
    /// probed coalition member gains `(k - m) / m` locally and its
    /// significance ticks exactly when removing it flips the game; an
    /// unprobed member loses one; a non-member is untouched.
    pub open spec fn player_outcome(
        a: &SamplerState,
        b: &SamplerState,
        k: int,
        mask: u64,
        probed: u64,
        mi: int,
        q: int,
    ) -> bool {
        let qb = 1u64 << (q as u64);
        let lb = rv(b.samples_per_weight_local@[k]@[q]);
        let la = rv(a.samples_per_weight_local@[k]@[q]);
        &&& (probed & qb != 0 ==> feq(lb, fadd(la, (Frac { n: k - mi, d: mi })))
            && b.significant_per_weight@[k]@[q] == a.significant_per_weight@[k]@[q] + (
            if crate::game::safe_wins(&a.state_groups, &a.game, mask & !qb) {
                0int
            } else {
                1int
            }))
        &&& (probed & qb == 0 && mask & qb != 0 ==> feq(lb, fsub(la, fint(1)))
            && b.significant_per_weight@[k]@[q] == a.significant_per_weight@[k]@[q])
        &&& (mask & qb == 0 ==> b.samples_per_weight_local@[k]@[q]
            == a.samples_per_weight_local@[k]@[q] && b.significant_per_weight@[k]@[q]
            == a.significant_per_weight@[k]@[q])
    }

    /// The full story of one drawn sample: some size `k`, some coalition
    /// `mask` of states below `n`, and some probed submask were drawn;
    /// the size-`k` counters move exactly as the protocol prescribes, and
    /// a probed member's significance ticks precisely when removing it
    /// flips the game against the safety player.
    pub open spec fn sample_outcome(
        a: &SamplerState,
        b: &SamplerState,
        k: int,
        mask: u64,
        probed: u64,
        budget: usize,
    ) -> bool {
        let n = a.state_groups.spec_len();
        let m: int = if (budget as int) < k {
            budget as int
        } else {
            k
        };
        let won = crate::game::safe_wins(&a.state_groups, &a.game, mask);
        &&& 1 <= k <= n
        &&& probed & mask == probed
        &&& (forall|q: int| n <= q < 64 ==> !(#[trigger] bit_set(mask, q)))
        &&& b.samples_per_weight_global@ == a.samples_per_weight_global@.update(
            k,
            (a.samples_per_weight_global@[k] + 1) as usize,
        )
        &&& (forall|k2: int|
            0 <= k2 <= n && k2 != k ==> (#[trigger] b.samples_per_weight_local@[k2])
                == a.samples_per_weight_local@[k2])
        &&& (forall|k2: int|
            0 <= k2 <= n && k2 != k ==> (#[trigger] b.significant_per_weight@[k2])
                == a.significant_per_weight@[k2])
        &&& (!won ==> b.samples_per_weight_local@[k] == a.samples_per_weight_local@[k]
            && b.significant_per_weight@[k] == a.significant_per_weight@[k])
        &&& (won ==> forall|q: int|
            0 <= q < n ==> #[trigger] Self::player_outcome(a, b, k, mask, probed, m, q))
    }

    /// Draws one stratified sample: a size, a coalition of that size, the
    /// winner with that coalition installed, and — when the safety player
    /// won — a significance probe of at most `samples_if_winning` members.
    /// The game comes back with only its attractor scratch counters
    /// changed, and exactly one size row of the counters is touched.
    #[verifier::rlimit(100)]
    pub fn sample(&mut self, samples_if_winning: usize)
        requires
            old(self).wf(),
            old(self).total_samples < usize::MAX,
            samples_if_winning >= 1,
        ensures
            final(self).wf(),
            final(self).total_samples == old(self).total_samples + 1,
            final(self).state_groups == old(self).state_groups,
            final(self).target == old(self).target,
            final(self).thread_count == old(self).thread_count,
            final(self).seed == old(self).seed,
            final(self).game.same_but_attractor(&old(self).game),
            exists|k: int|
                1 <= k <= old(self).state_groups.spec_len() && #[trigger] Self::counters_step(
                    old(self),
                    final(self),
                    k,
                ),
            exists|k: int, mask: u64, probed: u64|
                #[trigger] Self::sample_outcome(
                    old(self),
                    final(self),
                    k,
                    mask,
                    probed,
                    samples_if_winning,
                ),
    {
        let n = self.state_groups.len();
        let size = rng_usize(&mut self.rng, 1, n + 1);
        let m = if samples_if_winning < size {
            samples_if_winning
        } else {
            size
        };
        let members = self.sample_coalition(size);

        let mut mask: u64 = 0;
        let mut j: usize = 0;
        proof {
            assert forall|b: int| 0 <= b < 64 implies !bit_set(0u64, b) by {
                let bb = b as u64;
                assert(0u64 & (1u64 << bb) == 0) by (bit_vector);
            }
        }
        while j < size
            invariant
                j <= size,
                size == members@.len(),
                n == self.state_groups.spec_len(),
                n <= 64,
                forall|j2: int| 0 <= j2 < size ==> (#[trigger] members@[j2]) < n,
                forall|j2: int| 0 <= j2 < j ==> mask & (1u64 << ((#[trigger] members@[j2]) as u64))
                    != 0,
                forall|b: int|
                    0 <= b < 64 ==> (#[trigger] bit_set(mask, b) <==> (exists|j2: int|
                        0 <= j2 < j && ((#[trigger] members@[j2]) as int) == b)),
            decreases size - j,
        {
            let b: u64 = 1u64 << (members[j] as u64);
            let ghost mask0 = mask;
            mask = mask | b;
            proof {
                let mb = (members@[j as int]) as u64;
                assert((mask0 | b) & b == b && b != 0) by (bit_vector)
                    requires
                        b == 1u64 << mb,
                        mb < 64u64,
                ;
                assert forall|j2: int|
                    0 <= j2 < j + 1 implies mask & (1u64 << ((#[trigger] members@[j2]) as u64))
                    != 0 by {
                    let b2 = 1u64 << ((members@[j2]) as u64);
                    assert(mask0 & b2 != 0 ==> (mask0 | b) & b2 != 0) by (bit_vector);
                }
                assert forall|b2: int|
                    0 <= b2 < 64 implies (#[trigger] bit_set(mask, b2) <==> (exists|j2: int|
                    0 <= j2 < j + 1 && ((#[trigger] members@[j2]) as int) == b2)) by {
                    let bb = b2 as u64;
                    assert(mask == (mask0 | (1u64 << mb)));
                    assert(((mask0 | (1u64 << mb)) & (1u64 << bb) != 0) == ((mask0 & (1u64 << bb)
                        != 0) || bb == mb)) by (bit_vector)
                        requires
                            mb < 64u64,
                            bb < 64u64,
                    ;
                    assert(bit_set(mask, b2) == (mask & (1u64 << bb) != 0));
                    assert(bit_set(mask0, b2) == (mask0 & (1u64 << bb) != 0));
                    if bit_set(mask, b2) {
                        if bit_set(mask0, b2) {
                            let w = choose|j2: int|
                                0 <= j2 < j && ((members@[j2]) as int) == b2;
                            assert(0 <= w < j + 1 && ((members@[w]) as int) == b2);
                        } else {
                            assert(bb == mb);
                            assert(((members@[j as int]) as int) == b2);
                        }
                    }
                    if exists|j2: int| 0 <= j2 < j + 1 && ((members@[j2]) as int) == b2 {
                        let w = choose|j2: int| 0 <= j2 < j + 1 && ((members@[j2]) as int) == b2;
                        if w < j {
                            assert(bit_set(mask0, b2));
                        } else {
                            assert(bb == mb);
                        }
                        assert(bit_set(mask, b2));
                    }
                }
            }
            j = j + 1;
        }

        let ghost g0 = self.game;
        proof {
            assert forall|s: int| 0 <= s < self.game.states@.len() implies (
            #[trigger] self.game.states@[s]).change_count + self.state_groups.mask_count(
                mask,
                s,
            ) <= usize::MAX by {
                lemma_mask_count_le_full(&self.state_groups, mask, s, self.state_groups.spec_len());
                assert(self.state_groups.mask_count(!0u64, s) <= usize::MAX);
            }
        }
        let groups = &self.state_groups;
        groups.set_state_mask(&mut self.game, mask);
        let ghost g1 = self.game;
        proof {
            crate::game::lemma_wf_preserved(g0, self.game);
            crate::game::lemma_graph_ok_same_vecs(&g0, &self.game);
        }
        let winner = self.game.determine_winner();
        proof {
            crate::game::lemma_graph_ok_same_vecs(&g1, &self.game);
            crate::game::lemma_winner_matches_masked(&self.state_groups, &g0, &g1, mask);
            assert((winner == Player::Safe) == crate::game::safe_wins(
                &self.state_groups,
                &g0,
                mask,
            ));
        }
        let ghost mut probedm: u64 = 0u64;

        let ghost sig0 = self.significant_per_weight@;
        let ghost loc0 = self.samples_per_weight_local@;
        let ghost glob0 = self.samples_per_weight_global@;
        let ghost total0 = self.total_samples;

        if winner == Player::Safe {
            let mut remaining_samples = m;
            let num = big_from_u64((size - remaining_samples) as u64);
            let den = big_from_u64(remaining_samples as u64);
            let sample_factor = rat_new(num, den);
            proof {
                assert(feq(
                    rv(sample_factor),
                    (Frac { n: size as int - m as int, d: m as int }),
                ));
                assert(0u64 & mask == 0u64) by (bit_vector);
                assert forall|j2: int|
                    0 <= j2 < size implies 0u64 & (1u64 << ((#[trigger] members@[j2]) as u64))
                    == 0 by {
                    let b2 = (members@[j2]) as u64;
                    assert(0u64 & (1u64 << b2) == 0) by (bit_vector);
                }
            }
            let mut i: usize = 0;
            while i < size
                invariant
                    i <= size,
                    size == members@.len(),
                    1 <= size <= n,
                    n == self.state_groups.spec_len(),
                    n <= 64,
                    remaining_samples <= m,
                    forall|j2: int| 0 <= j2 < size ==> (#[trigger] members@[j2]) < n,
                    forall|j1: int, j2: int|
                        0 <= j1 < j2 < members@.len() ==> members@[j1] < members@[j2],
                    forall|j2: int|
                        0 <= j2 < size ==> mask & (1u64 << ((#[trigger] members@[j2]) as u64))
                            != 0,
                    self.state_groups == old(self).state_groups,
                    self.target == old(self).target,
                    self.thread_count == old(self).thread_count,
                    self.seed == old(self).seed,
                    self.total_samples == total0,
                    total0 < usize::MAX,
                    solver_game_ok(&self.state_groups, &g0),
                    fwf(rv(sample_factor)),
                    self.game.states@.len() == g0.states@.len(),
                    g1.states@.len() == g0.states@.len(),
                    self.game.wf(),
                    crate::game::graph_ok(&self.game),
                    self.state_groups.valid_for(&self.game),
                    self.game.same_but_attractor(&g1),
                    g1.same_but_coalition(&g0),
                    winner == Player::Safe,
                    (winner == Player::Safe) == crate::game::safe_wins(
                        &self.state_groups,
                        &g0,
                        mask,
                    ),
                    forall|s: int|
                        0 <= s < g1.states@.len() ==> (#[trigger] g1.states@[s]).owner == (
                        if self.state_groups.mask_count(mask, s) > 0 {
                            Player::Safe
                        } else {
                            g0.states@[s].owner
                        }),
                    forall|s: int|
                        0 <= s < g1.states@.len() ==> (#[trigger] g1.states@[s]).default_owner
                            == g0.states@[s].default_owner && g1.states@[s].successor_count
                            == g0.states@[s].successor_count,
                    glob0.len() == n + 1,
                    loc0.len() == n + 1,
                    sig0.len() == n + 1,
                    forall|k: int| 0 <= k <= n ==> (#[trigger] loc0[k]).len() == n,
                    forall|k: int| 0 <= k <= n ==> (#[trigger] sig0[k]).len() == n,
                    forall|s: int|
                        0 <= s < self.game.states@.len() ==> (
                        #[trigger] self.game.states@[s]).change_count == g0.states@[s].change_count
                            + self.state_groups.mask_count(mask, s),
                    self.samples_per_weight_global@ == glob0,
                    self.samples_per_weight_global@.len() == n + 1,
                    self.samples_per_weight_local@.len() == n + 1,
                    self.significant_per_weight@.len() == n + 1,
                    forall|k: int|
                        0 <= k <= n ==> (#[trigger] self.samples_per_weight_local@[k]).len() == n,
                    forall|k: int|
                        0 <= k <= n ==> (#[trigger] self.significant_per_weight@[k]).len() == n,
                    forall|k: int, q: int|
                        0 <= k <= n && 0 <= q < n ==> fwf(
                            rv(#[trigger] self.samples_per_weight_local@[k]@[q]),
                        ),
                    forall|k2: int|
                        0 <= k2 <= n && k2 != size ==> (#[trigger] self.samples_per_weight_local@[k2])
                            == loc0[k2],
                    forall|k2: int|
                        0 <= k2 <= n && k2 != size ==> (#[trigger] self.significant_per_weight@[k2])
                            == sig0[k2],
                    forall|q: int|
                        0 <= q < n ==> (#[trigger] sig0[size as int]@[q])
                            <= self.significant_per_weight@[size as int]@[q] <= sig0[size as int]@[q]
                            + 1,
                    forall|j2: int|
                        i <= j2 < size ==> self.significant_per_weight@[size as int]@[(
                        #[trigger] members@[j2]) as int] == sig0[size as int]@[members@[j2] as int],
                    forall|k: int, q: int|
                        0 <= k <= n && 0 <= q < n ==> (#[trigger] sig0[k]@[q]) <= total0,
                    m == (if samples_if_winning < size {
                        samples_if_winning
                    } else {
                        size
                    }),
                    m >= 1,
                    feq(rv(sample_factor), (Frac { n: size as int - m as int, d: m as int })),
                    probedm & mask == probedm,
                    forall|j2: int|
                        i <= j2 < size ==> probedm & (1u64 << ((#[trigger] members@[j2]) as u64))
                            == 0,
                    forall|j2: int|
                        i <= j2 < size ==> #[trigger] self.samples_per_weight_local@[size as int]@[(
                        members@[j2]) as int] == loc0[size as int]@[(members@[j2]) as int],
                    forall|q: int|
                        0 <= q < n && !bit_set(mask, q)
                            ==> #[trigger] self.samples_per_weight_local@[size as int]@[q]
                            == loc0[size as int]@[q] && self.significant_per_weight@[size as int]@[q]
                            == sig0[size as int]@[q],
                    forall|j2: int|
                        0 <= j2 < i ==> {
                            let q = ((#[trigger] members@[j2]) as int);
                            let qb = 1u64 << ((members@[j2]) as u64);
                            &&& (probedm & qb != 0 ==> feq(
                                rv(self.samples_per_weight_local@[size as int]@[q]),
                                fadd(
                                    rv(loc0[size as int]@[q]),
                                    (Frac { n: size as int - m as int, d: m as int }),
                                ),
                            ) && self.significant_per_weight@[size as int]@[q] == sig0[size as int]@[q]
                                + (if crate::game::safe_wins(
                                &self.state_groups,
                                &g0,
                                mask & !qb,
                            ) {
                                0int
                            } else {
                                1int
                            }))
                            &&& (probedm & qb == 0 ==> feq(
                                rv(self.samples_per_weight_local@[size as int]@[q]),
                                fsub(rv(loc0[size as int]@[q]), fint(1)),
                            ) && self.significant_per_weight@[size as int]@[q]
                                == sig0[size as int]@[q])
                        },
                decreases size - i,
            {
                let member = members[i];
                let mut selected = false;
                if remaining_samples > 0 {
                    let draw = rng_usize(&mut self.rng, 0, size - i);
                    selected = draw < remaining_samples;
                }
                if selected {
                    remaining_samples = remaining_samples - 1;
                    let ghost gp0 = self.game;
                    proof {
                        assert forall|s: int| 0 <= s < self.game.states@.len() implies (
                        #[trigger] self.game.states@[s]).change_count >= cnt_val(
                            self.state_groups.members_of(member as int),
                            s,
                            self.state_groups.members_of(member as int).len() as int,
                        ) by {
                            lemma_bit_count_le_mask(&self.state_groups, mask, member as int, s);
                        }
                    }
                    self.state_groups.remove_from_coalition(&mut self.game, member);
                    proof {
                        crate::game::lemma_wf_preserved(gp0, self.game);
                        crate::game::lemma_graph_ok_same_vecs(&gp0, &self.game);
                    }
                    let ghost gpr = self.game;
                    let ghost qb: u64 = 1u64 << (member as u64);
                    let ghost maskp: u64 = mask & !qb;
                    proof {
                        let p = self.state_groups.members_of(member as int);
                        assert(mask & (1u64 << ((members@[i as int]) as u64)) != 0);
                        assert forall|s: int| 0 <= s < g0.states@.len() implies ((
                        #[trigger] gpr.states@[s]).owner == (if self.state_groups.mask_count(
                            maskp,
                            s,
                        ) > 0 {
                            Player::Safe
                        } else {
                            g0.states@[s].owner
                        }) && gpr.states@[s].successor_count
                            == g0.states@[s].successor_count) by {
                            lemma_mask_count_remove_bit(
                                &self.state_groups,
                                mask,
                                member as int,
                                s,
                                self.state_groups.spec_len(),
                            );
                            let cnt = cnt_val(p, s, p.len() as int);
                            assert(gp0.states@[s].change_count == g0.states@[s].change_count
                                + self.state_groups.mask_count(mask, s));
                            assert(g0.states@[s].change_count == 0);
                            assert(gp0.states@[s].owner == g1.states@[s].owner);
                            assert(g1.states@[s].owner == (if self.state_groups.mask_count(
                                mask,
                                s,
                            ) > 0 {
                                Player::Safe
                            } else {
                                g0.states@[s].owner
                            }));
                            assert(gp0.states@[s].default_owner == g0.states@[s].default_owner);
                            assert(g0.states@[s].owner == g0.states@[s].default_owner);
                        }
                        assert(self.state_groups.removes_applied(member as int, gp0, gpr));
                        assert(gpr.same_but_coalition(&gp0));
                        assert(gp0.same_but_attractor(&g1));
                        assert(g1.same_but_coalition(&g0));
                        assert(gpr.states@.len() == g0.states@.len());
                        assert(gpr.state_predecessors == g0.state_predecessors);
                        assert(gpr.bad_states == g0.bad_states);
                        assert(gpr.initial_state == g0.initial_state);
                        crate::game::lemma_winner_matches_owners(
                            &self.state_groups,
                            &g0,
                            &gpr,
                            maskp,
                        );
                    }
                    let probe_winner = self.game.determine_winner();
                    proof {
                        assert((probe_winner == Player::Safe) == crate::game::safe_wins(
                            &self.state_groups,
                            &g0,
                            maskp,
                        ));
                    }
                    if probe_winner != winner {
                        let ghost sigrow = self.significant_per_weight@[size as int]@;
                        let old_sig = self.significant_per_weight[size][member];
                        self.significant_per_weight[size][member] = old_sig + 1;
                    }
                    let current_local = rat_add(
                        &self.samples_per_weight_local[size][member],
                        &sample_factor,
                    );
                    self.samples_per_weight_local[size][member] = current_local;
                    let ghost gp2 = self.game;
                    proof {
                        assert forall|s: int| 0 <= s < self.game.states@.len() implies (
                        #[trigger] self.game.states@[s]).change_count + cnt_val(
                            self.state_groups.members_of(member as int),
                            s,
                            self.state_groups.members_of(member as int).len() as int,
                        ) <= usize::MAX by {
                            lemma_mask_count_le_full(
                                &self.state_groups,
                                mask,
                                s,
                                self.state_groups.spec_len(),
                            );
                            assert(self.state_groups.mask_count(!0u64, s) <= usize::MAX);
                        }
                    }
                    self.state_groups.add_to_coalition(&mut self.game, member);
                    proof {
                        crate::game::lemma_wf_preserved(gp0, self.game);
                        crate::game::lemma_graph_ok_same_vecs(&gp0, &self.game);
                        let p = self.state_groups.members_of(member as int);
                        assert forall|s: int| 0 <= s < self.game.states@.len() implies {
                            let a = (#[trigger] self.game.states@[s]);
                            let b = gp0.states@[s];
                            a.successor_count == b.successor_count && a.owner == b.owner
                                && a.default_owner == b.default_owner && a.change_count
                                == b.change_count
                        } by {
                            let cq = cnt_val(p, s, p.len() as int);
                            assert(gp0.states@[s].change_count == g0.states@[s].change_count
                                + self.state_groups.mask_count(mask, s));
                            lemma_bit_count_le_mask(&self.state_groups, mask, member as int, s);
                            assert(gp0.states@[s].owner == g1.states@[s].owner);
                            assert(g1.states@[s].owner == (if self.state_groups.mask_count(
                                mask,
                                s,
                            ) > 0 {
                                Player::Safe
                            } else {
                                g0.states@[s].owner
                            }));
                            assert(g0.states@[s].change_count == 0);
                        }
                    }
                    proof {
                        assert forall|j2: int| 0 <= j2 < size && j2 != i implies (
                        #[trigger] members@[j2]) != members@[i as int] by {
                            if j2 < i {
                                assert(members@[j2] < members@[i as int]);
                            } else {
                                assert(members@[i as int] < members@[j2]);
                            }
                        }
                        let pm0 = probedm;
                        let mb2 = member as u64;
                        probedm = pm0 | qb;
                        assert((pm0 | (1u64 << mb2)) & (1u64 << mb2) != 0) by (bit_vector)
                            requires
                                mb2 < 64u64,
                        ;
                        assert(((pm0 & mask == pm0) && (mask & (1u64 << mb2) != 0)) ==> ((pm0 | (
                        1u64 << mb2)) & mask == (pm0 | (1u64 << mb2)))) by (bit_vector);
                        assert(mask & (1u64 << mb2) != 0);
                        assert forall|j2: int|
                            0 <= j2 < size && j2 != i implies probedm & (1u64 << ((
                        #[trigger] members@[j2]) as u64)) == pm0 & (1u64 << ((members@[j2])
                            as u64)) by {
                            let b2 = (members@[j2]) as u64;
                            if j2 < i {
                                assert(members@[j2] < members@[i as int]);
                            } else {
                                assert(members@[i as int] < members@[j2]);
                            }
                            assert(members@[j2] != members@[i as int]);
                            assert((pm0 | (1u64 << mb2)) & (1u64 << b2) == pm0 & (1u64 << b2))
                                by (bit_vector)
                                requires
                                    mb2 != b2,
                                    mb2 < 64u64,
                                    b2 < 64u64,
                            ;
                        }
                        let q = member as int;
                        let la = rv(loc0[size as int]@[q]);
                        let sf = rv(sample_factor);
                        let fr = (Frac { n: size as int - m as int, d: m as int });
                        assert(feq(
                            rv(self.samples_per_weight_local@[size as int]@[q]),
                            fadd(la, sf),
                        ));
                        fadd_congr(la, sf, la, fr);
                        feq_trans(
                            rv(self.samples_per_weight_local@[size as int]@[q]),
                            fadd(la, sf),
                            fadd(la, fr),
                        );
                        assert((probe_winner == Player::Safe) == crate::game::safe_wins(
                            &self.state_groups,
                            &g0,
                            maskp,
                        ));
                        if probe_winner != winner {
                            assert(!crate::game::safe_wins(&self.state_groups, &g0, maskp));
                            assert(self.significant_per_weight@[size as int]@[q]
                                == sig0[size as int]@[q] + 1);
                        } else {
                            assert(crate::game::safe_wins(&self.state_groups, &g0, maskp));
                            assert(self.significant_per_weight@[size as int]@[q]
                                == sig0[size as int]@[q]);
                        }
                    }
                } else {
                    let one = rat_one();
                    let current_local = rat_sub(
                        &self.samples_per_weight_local[size][member],
                        &one,
                    );
                    self.samples_per_weight_local[size][member] = current_local;
                    proof {
                        assert forall|j2: int| 0 <= j2 < size && j2 != i implies (
                        #[trigger] members@[j2]) != members@[i as int] by {
                            if j2 < i {
                                assert(members@[j2] < members@[i as int]);
                            } else {
                                assert(members@[i as int] < members@[j2]);
                            }
                        }
                        assert(rv(one) == fint(1));
                        assert(probedm & (1u64 << ((members@[i as int]) as u64)) == 0);
                        assert(feq(
                            rv(self.samples_per_weight_local@[size as int]@[member as int]),
                            fsub(rv(loc0[size as int]@[member as int]), fint(1)),
                        ));
                    }
                }
                i = i + 1;
            }
        }
        let old_global = self.samples_per_weight_global[size];
        self.samples_per_weight_global[size] = old_global + 1;
        let ghost g_before_clear = self.game;
        proof {
            assert forall|s: int| 0 <= s < self.game.states@.len() implies (
            #[trigger] self.game.states@[s]).change_count >= self.state_groups.mask_count(
                mask,
                s,
            ) by {}
        }
        let ghost g_probe_end = self.game;
        let groups2 = &self.state_groups;
        groups2.clear_state_mask(&mut self.game, mask);
        proof {
            crate::game::lemma_wf_preserved(g0, self.game);
            crate::game::lemma_graph_ok_same_vecs(&g0, &self.game);
            assert forall|s: int| 0 <= s < self.game.states@.len() implies {
                let a = (#[trigger] self.game.states@[s]);
                let b = g0.states@[s];
                a.successor_count == b.successor_count && a.owner == b.owner && a.default_owner
                    == b.default_owner && a.change_count == b.change_count
            } by {
                lemma_mask_count_le_full(&self.state_groups, mask, s, self.state_groups.spec_len());
                assert(self.state_groups.mask_count(!0u64, s) <= usize::MAX);
                assert(g_probe_end.states@[s].change_count == g0.states@[s].change_count
                    + self.state_groups.mask_count(mask, s));
                assert(g1.states@[s].owner == (if self.state_groups.mask_count(mask, s) > 0 {
                    Player::Safe
                } else {
                    g0.states@[s].owner
                }));
            }
        }
        self.total_samples = self.total_samples + 1;
        proof {
            assert(Self::counters_step(old(self), self, size as int));
            let nn = self.state_groups.spec_len();
            assert(solver_game_ok(&self.state_groups, &self.game));
            assert(1 <= nn <= 64);
            assert(self.samples_per_weight_global@.len() == nn + 1);
            assert(self.samples_per_weight_local@.len() == nn + 1);
            assert(self.significant_per_weight@.len() == nn + 1);
            assert(forall|k: int|
                0 <= k <= nn ==> (#[trigger] self.samples_per_weight_local@[k]).len() == nn);
            assert(forall|k: int|
                0 <= k <= nn ==> (#[trigger] self.significant_per_weight@[k]).len() == nn);
            assert forall|k: int| 0 <= k <= nn implies (
            #[trigger] self.samples_per_weight_global@[k]) <= self.total_samples by {
                assert(glob0[k] <= total0);
            }
            assert forall|k: int, q: int| 0 <= k <= nn && 0 <= q < nn implies (
            #[trigger] self.significant_per_weight@[k]@[q]) <= self.total_samples by {
                assert(sig0[k]@[q] <= total0);
            }
            assert(forall|k: int, q: int|
                0 <= k <= nn && 0 <= q < nn ==> fwf(
                    rv(#[trigger] self.samples_per_weight_local@[k]@[q]),
                ));
            assert(self.wf());
            assert(old(self).samples_per_weight_local@ == loc0);
            assert(old(self).significant_per_weight@ == sig0);
            assert(old(self).samples_per_weight_global@ == glob0);
            assert(old(self).game == g0);
            assert(old(self).state_groups == self.state_groups);
            assert forall|q: int| nn <= q < 64 implies !bit_set(mask, q) by {
                if bit_set(mask, q) {
                    let w = choose|j2: int| 0 <= j2 < size && ((members@[j2]) as int) == q;
                    assert(members@[w] < nn);
                }
            }
            if winner == Player::Safe {
                assert forall|q: int|
                    0 <= q < nn implies #[trigger] Self::player_outcome(
                    old(self),
                    self,
                    size as int,
                    mask,
                    probedm,
                    m as int,
                    q,
                ) by {
                    let qb = 1u64 << (q as u64);
                    if mask & qb != 0 {
                        assert(bit_set(mask, q));
                        let j2 = choose|j2: int| 0 <= j2 < size && ((members@[j2]) as int) == q;
                        assert(((members@[j2]) as u64) == q as u64);
                        assert(((members@[j2]) as int) == q);
                        assert((1u64 << ((members@[j2]) as u64)) == qb);
                        assert(crate::game::safe_wins(
                            &old(self).state_groups,
                            &old(self).game,
                            mask & !qb,
                        ) == crate::game::safe_wins(&self.state_groups, &g0, mask & !qb));
                    } else {
                        assert(!bit_set(mask, q));
                        assert(((probedm & mask == probedm) && (mask & qb == 0)) ==> (probedm & qb
                            == 0)) by (bit_vector);
                    }
                }
                assert(crate::game::safe_wins(&old(self).state_groups, &old(self).game, mask)
                    == crate::game::safe_wins(&self.state_groups, &g0, mask));
            } else {
                assert(self.samples_per_weight_local@[size as int] == loc0[size as int]);
                assert(self.significant_per_weight@[size as int] == sig0[size as int]);
                assert(probedm == 0u64);
                assert(0u64 & mask == 0u64) by (bit_vector);
                assert(crate::game::safe_wins(&old(self).state_groups, &old(self).game, mask)
                    == crate::game::safe_wins(&self.state_groups, &g0, mask));
                assert((winner == Player::Safe) == crate::game::safe_wins(
                    &self.state_groups,
                    &g0,
                    mask,
                ));
                assert(!crate::game::safe_wins(&self.state_groups, &g0, mask));
            }
            assert(Self::sample_outcome(
                old(self),
                self,
                size as int,
                mask,
                probedm,
                samples_if_winning,
            ));
        }
    }

    /// Runs the per-sample protocol until the sample budget is reached.
    /// Wall-clock budgets are driven by the caller, one
    /// [`SamplerState::sample`] call at a time.
    pub fn run(&mut self, samples_per_winning: usize)
        requires
            old(self).wf(),
            samples_per_winning >= 1,
            old(self).target is Samples,
        ensures
            final(self).wf(),
            final(self).state_groups == old(self).state_groups,
            final(self).target == old(self).target,
            match final(self).target {
                SampleTarget::Samples(t) => final(self).total_samples == (if old(
                    self,
                ).total_samples >= t {
                    old(self).total_samples
                } else {
                    t
                }),
                SampleTarget::ElapsedTime(_) => true,
            },
    {
        let target_count = match self.target {
            SampleTarget::Samples(t) => t,
            SampleTarget::ElapsedTime(_) => 0,
        };
        let n = self.state_groups.len();
        let probe_budget = if n < samples_per_winning {
            n
        } else {
            samples_per_winning
        };
        while self.total_samples < target_count
            invariant
                self.wf(),
                probe_budget >= 1,
                self.state_groups == old(self).state_groups,
                self.target == old(self).target,
                self.target == SampleTarget::Samples(target_count),
                old(self).total_samples >= target_count ==> self.total_samples == old(
                    self,
                ).total_samples,
                old(self).total_samples < target_count ==> self.total_samples <= target_count,
            decreases target_count - self.total_samples,
        {
            self.sample(probe_budget);
        }
    }

    /// The effective sample count of player `q` at size `s`: the global
    /// count plus the player's local correction.
    pub fn get_samples(&self, size: usize, state: usize) -> (r: BigRational)
        requires
            self.wf(),
            size <= self.state_groups.spec_len(),
            state < self.state_groups.spec_len(),
        ensures
            fwf(rv(r)),
            feq(
                rv(r),
                fadd(
                    fint(self.samples_per_weight_global@[size as int] as int),
                    rv(self.samples_per_weight_local@[size as int]@[state as int]),
                ),
            ),
    {
        let g = rat_from_u64(self.samples_per_weight_global[size] as u64);
        rat_add(&g, &self.samples_per_weight_local[size][state])
    }

    /// Merges another worker's counters into this one, element by element.
    pub fn add_values(&mut self, other: &SamplerState)
        requires
            old(self).wf(),
            other.wf(),
            old(self).state_groups.spec_len() == other.state_groups.spec_len(),
            old(self).total_samples + other.total_samples <= usize::MAX,
        ensures
            final(self).wf(),
            final(self).state_groups == old(self).state_groups,
            final(self).target == old(self).target,
            final(self).game == old(self).game,
            final(self).total_samples == old(self).total_samples + other.total_samples,
            forall|k: int|
                0 <= k <= final(self).state_groups.spec_len() ==> (
                #[trigger] final(self).samples_per_weight_global@[k]) == old(self).samples_per_weight_global@[k] + other.samples_per_weight_global@[k],
            forall|k: int, q: int|
                0 <= k <= final(self).state_groups.spec_len() && 0 <= q < final(self).state_groups.spec_len() ==> (#[trigger] final(self).significant_per_weight@[k]@[q])
                    == old(self).significant_per_weight@[k]@[q]
                    + other.significant_per_weight@[k]@[q],
            forall|k: int, q: int|
                0 <= k <= final(self).state_groups.spec_len() && 0 <= q < final(self).state_groups.spec_len() ==> feq(
                    rv(#[trigger] final(self).samples_per_weight_local@[k]@[q]),
                    fadd(
                        rv(old(self).samples_per_weight_local@[k]@[q]),
                        rv(other.samples_per_weight_local@[k]@[q]),
                    ),
                ),
    {
        let n = self.state_groups.len();
        self.total_samples = self.total_samples + other.total_samples;
        let mut k: usize = 0;
        while k <= n
            invariant
                k <= n + 1,
                n == self.state_groups.spec_len(),
                n == other.state_groups.spec_len(),
                1 <= n <= 64,
                old(self).wf(),
                other.wf(),
                old(self).total_samples + other.total_samples <= usize::MAX,
                self.state_groups == old(self).state_groups,
                self.target == old(self).target,
                self.game == old(self).game,
                self.total_samples == old(self).total_samples + other.total_samples,
                solver_game_ok(&self.state_groups, &self.game),
                self.samples_per_weight_global@.len() == n + 1,
                self.samples_per_weight_local@.len() == n + 1,
                self.significant_per_weight@.len() == n + 1,
                forall|i: int|
                    0 <= i <= n ==> (#[trigger] self.samples_per_weight_local@[i]).len() == n,
                forall|i: int|
                    0 <= i <= n ==> (#[trigger] self.significant_per_weight@[i]).len() == n,
                forall|i: int, q: int|
                    0 <= i <= n && 0 <= q < n ==> fwf(
                        rv(#[trigger] self.samples_per_weight_local@[i]@[q]),
                    ),
                forall|i: int|
                    0 <= i < k ==> (#[trigger] self.samples_per_weight_global@[i]) == old(self).samples_per_weight_global@[i] + other.samples_per_weight_global@[i],
                forall|i: int|
                    k <= i <= n ==> (#[trigger] self.samples_per_weight_global@[i]) == old(self).samples_per_weight_global@[i],
                forall|i: int, q: int|
                    0 <= i < k && 0 <= q < n ==> (#[trigger] self.significant_per_weight@[i]@[q])
                        == old(self).significant_per_weight@[i]@[q]
                        + other.significant_per_weight@[i]@[q],
                forall|i: int|
                    k <= i <= n ==> (#[trigger] self.significant_per_weight@[i]) == old(self).significant_per_weight@[i],
                forall|i: int, q: int|
                    0 <= i < k && 0 <= q < n ==> feq(
                        rv(#[trigger] self.samples_per_weight_local@[i]@[q]),
                        fadd(
                            rv(old(self).samples_per_weight_local@[i]@[q]),
                            rv(other.samples_per_weight_local@[i]@[q]),
                        ),
                    ),
                forall|i: int|
                    k <= i <= n ==> (#[trigger] self.samples_per_weight_local@[i]) == old(self).samples_per_weight_local@[i],
            decreases n + 1 - k,
        {
            let g = self.samples_per_weight_global[k];
            proof {
                assert(old(self).samples_per_weight_global@[k as int] <= old(self).total_samples);
                assert(other.samples_per_weight_global@[k as int] <= other.total_samples);
            }
            self.samples_per_weight_global[k] = g + other.samples_per_weight_global[k];
            let mut q: usize = 0;
            while q < n
                invariant
                    q <= n,
                    k <= n,
                    n == self.state_groups.spec_len(),
                    n == other.state_groups.spec_len(),
                    1 <= n <= 64,
                    old(self).wf(),
                    other.wf(),
                    old(self).total_samples + other.total_samples <= usize::MAX,
                    self.state_groups == old(self).state_groups,
                    self.target == old(self).target,
                    self.game == old(self).game,
                    solver_game_ok(&self.state_groups, &self.game),
                    self.samples_per_weight_global@.len() == n + 1,
                    forall|i: int|
                        0 <= i <= k ==> (#[trigger] self.samples_per_weight_global@[i]) == old(self).samples_per_weight_global@[i] + other.samples_per_weight_global@[i],
                    forall|i: int|
                        k < i <= n ==> (#[trigger] self.samples_per_weight_global@[i]) == old(self).samples_per_weight_global@[i],
                    self.total_samples == old(self).total_samples + other.total_samples,
                    self.samples_per_weight_local@.len() == n + 1,
                    self.significant_per_weight@.len() == n + 1,
                    forall|i: int|
                        0 <= i <= n ==> (#[trigger] self.samples_per_weight_local@[i]).len() == n,
                    forall|i: int|
                        0 <= i <= n ==> (#[trigger] self.significant_per_weight@[i]).len() == n,
                    forall|i: int, q2: int|
                        0 <= i <= n && 0 <= q2 < n ==> fwf(
                            rv(#[trigger] self.samples_per_weight_local@[i]@[q2]),
                        ),
                    forall|i: int, q2: int|
                        0 <= i < k && 0 <= q2 < n ==> (
                        #[trigger] self.significant_per_weight@[i]@[q2]) == old(self).significant_per_weight@[i]@[q2]
                            + other.significant_per_weight@[i]@[q2],
                    forall|i: int|
                        k < i <= n ==> (#[trigger] self.significant_per_weight@[i]) == old(self).significant_per_weight@[i],
                    forall|q2: int|
                        0 <= q2 < q ==> (#[trigger] self.significant_per_weight@[k as int]@[q2])
                            == old(self).significant_per_weight@[k as int]@[q2]
                            + other.significant_per_weight@[k as int]@[q2],
                    forall|q2: int|
                        q <= q2 < n ==> (#[trigger] self.significant_per_weight@[k as int]@[q2])
                            == old(self).significant_per_weight@[k as int]@[q2],
                    forall|i: int, q2: int|
                        0 <= i < k && 0 <= q2 < n ==> feq(
                            rv(#[trigger] self.samples_per_weight_local@[i]@[q2]),
                            fadd(
                                rv(old(self).samples_per_weight_local@[i]@[q2]),
                                rv(other.samples_per_weight_local@[i]@[q2]),
                            ),
                        ),
                    forall|i: int|
                        k < i <= n ==> (#[trigger] self.samples_per_weight_local@[i]) == old(self).samples_per_weight_local@[i],
                    forall|q2: int|
                        0 <= q2 < q ==> feq(
                            rv(#[trigger] self.samples_per_weight_local@[k as int]@[q2]),
                            fadd(
                                rv(old(self).samples_per_weight_local@[k as int]@[q2]),
                                rv(other.samples_per_weight_local@[k as int]@[q2]),
                            ),
                        ),
                    forall|q2: int|
                        q <= q2 < n ==> (#[trigger] self.samples_per_weight_local@[k as int]@[q2])
                            == old(self).samples_per_weight_local@[k as int]@[q2],
                decreases n - q,
            {
                let merged = rat_add(
                    &self.samples_per_weight_local[k][q],
                    &other.samples_per_weight_local[k][q],
                );
                self.samples_per_weight_local[k][q] = merged;
                let sg = self.significant_per_weight[k][q];
                proof {
                    assert(other.significant_per_weight@[k as int]@[q as int]
                        <= other.total_samples);
                }
                self.significant_per_weight[k][q] = sg + other.significant_per_weight[k][q];
                q = q + 1;
            }
            k = k + 1;
        }
    }

    /// The effective sample count of player `q` at size `s`, as a fraction.
    pub open spec fn eff_samples(&self, s: int, q: int) -> Frac {
        fadd(
            fint(self.samples_per_weight_global@[s] as int),
            rv(self.samples_per_weight_local@[s]@[q]),
        )
    }

    /// Converts the counters into responsibility results.
    ///
    /// For Shapley weights the per-size value is estimated directly:
    /// `value[s] * N(s,q) == (S(s,q) / s) * (s / m)` whenever the effective
    /// count `N(s,q)` is positive, with `S` the significance count and
    /// `m = min(s, samples_per_winning)` the probe bound; the total is the
    /// sum of the values. For the other weights the counts are estimated as
    /// `count[s] * N(s,q) == C(n,s) * (s/m) * S(s,q)` and then weighted as
    /// in the exact engine.
    pub fn to_responsibility_results(
        &self,
        weight_type: WeightType,
        samples_per_winning: usize,
    ) -> (results: Vec<ResponsibilityResult>)
        requires
            self.wf(),
            samples_per_winning >= 1,
        ensures
            results@.len() == self.state_groups.spec_len(),
            forall|p: int|
                0 <= p < results@.len() ==> {
                    let r = #[trigger] results@[p];
                    let n = self.state_groups.spec_len();
                    &&& r.wf()
                    &&& r.group_index == p
                    &&& r.n == n
                },
            weight_type == WeightType::Shapley ==> forall|p: int, s: int|
                0 <= p < results@.len() && 1 <= s <= self.state_groups.spec_len() ==> {
                    let nf = self.eff_samples(s, p);
                    let m: int = if samples_per_winning < s {
                        samples_per_winning as int
                    } else {
                        s
                    };
                    let sig = self.significant_per_weight@[s]@[p] as int;
                    &&& (nf.n > 0 ==> feq(
                        fmul(rv(#[trigger] results@[p].value_by_size@[s]), nf),
                        fmul(Frac { n: sig, d: s }, Frac { n: s, d: m }),
                    ))
                    &&& (nf.n <= 0 ==> feq(rv(results@[p].value_by_size@[s]), fint(0)))
                },
            weight_type == WeightType::Shapley ==> forall|p: int|
                0 <= p < results@.len() ==> feq(
                    rv((#[trigger] results@[p]).total_value),
                    vsum(results@[p].value_by_size@, self.state_groups.spec_len()),
                ),
            weight_type != WeightType::Shapley ==> forall|p: int, s: int|
                0 <= p < results@.len() && 1 <= s <= self.state_groups.spec_len() ==> {
                    let n = self.state_groups.spec_len();
                    let nf = self.eff_samples(s, p);
                    let m: int = if samples_per_winning < s {
                        samples_per_winning as int
                    } else {
                        s
                    };
                    let sig = self.significant_per_weight@[s]@[p] as int;
                    let cns = Frac {
                        n: fact(n as nat) as int,
                        d: (fact(s as nat) * fact((n - s) as nat)) as int,
                    };
                    &&& (nf.n > 0 ==> feq(
                        fmul(rv(#[trigger] results@[p].count_by_size@[s]), nf),
                        fmul(fmul(cns, Frac { n: s, d: m }), fint(sig)),
                    ))
                    &&& (nf.n <= 0 ==> feq(rv(results@[p].count_by_size@[s]), fint(sig)))
                },
            weight_type != WeightType::Shapley ==> forall|p: int|
                0 <= p < results@.len() ==> feq(
                    rv((#[trigger] results@[p]).total_value),
                    gen_total(
                        results@[p].count_by_size@,
                        weight_type,
                        self.state_groups.spec_len(),
                        self.state_groups.spec_len(),
                    ),
                ),
    {
        let n = self.state_groups.len();
        let mut results: Vec<ResponsibilityResult> = Vec::new();

        if let WeightType::Shapley = weight_type {
            let mut index: usize = 0;
            while index < n
                invariant
                    index <= n,
                    1 <= n <= 64,
                    n == self.state_groups.spec_len(),
                    self.wf(),
                    samples_per_winning >= 1,
                    results@.len() == index,
                    forall|p: int|
                        0 <= p < index ==> {
                            let r = #[trigger] results@[p];
                            &&& r.wf()
                            &&& r.group_index == p
                            &&& r.n == n
                        },
                    forall|p: int, s: int|
                        0 <= p < index && 1 <= s <= n ==> {
                            let nf = self.eff_samples(s, p);
                            let m: int = if samples_per_winning < s {
                                samples_per_winning as int
                            } else {
                                s
                            };
                            let sig = self.significant_per_weight@[s]@[p] as int;
                            &&& (nf.n > 0 ==> feq(
                                fmul(rv(#[trigger] results@[p].value_by_size@[s]), nf),
                                fmul(Frac { n: sig, d: s }, Frac { n: s, d: m }),
                            ))
                            &&& (nf.n <= 0 ==> feq(rv(results@[p].value_by_size@[s]), fint(0)))
                        },
                    forall|p: int|
                        0 <= p < index ==> feq(
                            rv((#[trigger] results@[p]).total_value),
                            vsum(results@[p].value_by_size@, n as int),
                        ),
                decreases n - index,
            {
                let mut result = ResponsibilityResult::new(index, n);
                let mut total = rat_zero();
                let mut size: usize = 1;
                while size <= n
                    invariant
                        1 <= size <= n + 1,
                        1 <= n <= 64,
                        n == self.state_groups.spec_len(),
                        self.wf(),
                        samples_per_winning >= 1,
                        index < n,
                        result.wf(),
                        result.group_index == index,
                        result.n == n,
                        fwf(rv(total)),
                        feq(rv(total), vsum(result.value_by_size@, size - 1)),
                        forall|s: int|
                            size <= s <= n ==> feq(
                                rv(#[trigger] result.value_by_size@[s]),
                                fint(0),
                            ),
                        forall|s: int|
                            1 <= s < size ==> {
                                let nf = self.eff_samples(s, index as int);
                                let m: int = if samples_per_winning < s {
                                    samples_per_winning as int
                                } else {
                                    s
                                };
                                let sig = self.significant_per_weight@[s]@[index as int] as int;
                                &&& (nf.n > 0 ==> feq(
                                    fmul(rv(#[trigger] result.value_by_size@[s]), nf),
                                    fmul(Frac { n: sig, d: s }, Frac { n: s, d: m }),
                                ))
                                &&& (nf.n <= 0 ==> feq(rv(result.value_by_size@[s]), fint(0)))
                            },
                    decreases n + 1 - size,
                {
                    let samples = self.get_samples(size, index);
                    let ghost v_prev = result.value_by_size@;
                    let ghost t_prev = rv(total);
                    if rat_is_positive(&samples) {
                        let m = if samples_per_winning < size {
                            samples_per_winning
                        } else {
                            size
                        };
                        let sig = self.significant_per_weight[size][index];
                        let ratio = rat_new(
                            big_from_u64(sig as u64),
                            big_from_u64(size as u64),
                        );
                        let factor = rat_new(
                            big_from_u64(size as u64),
                            big_from_u64(m as u64),
                        );
                        let scaled = rat_mul(&ratio, &factor);
                        let value = rat_div(&scaled, &samples);
                        let ghost sig_i = self.significant_per_weight@[size as int]@[index as int] as int;
                        proof {
                            let nf = self.eff_samples(size as int, index as int);
                            let mm: int = if samples_per_winning < size as int {
                                samples_per_winning as int
                            } else {
                                size as int
                            };
                            let f1 = Frac { n: sig_i, d: size as int };
                            let f2 = Frac { n: size as int, d: mm };
                            let target = fmul(f1, f2);
                            assert(target.d == (size as int) * mm);
                            assert((size as int) * mm > 0) by (nonlinear_arith)
                                requires
                                    size as int > 0,
                                    mm > 0,
                            ;
                            assert(nf.d == 1 * rv(
                                self.samples_per_weight_local@[size as int]@[index as int],
                            ).d);
                            assert(fwf(nf));
                            assert(feq(rv(samples), nf));
                            let sn = rat_num(samples);
                            let sd = rat_den(samples);
                            assert(sn * nf.d == nf.n * sd);
                            assert(nf.n > 0) by (nonlinear_arith)
                                requires
                                    sn > 0,
                                    sd > 0,
                                    nf.d > 0,
                                    sn * nf.d == nf.n * sd,
                            ;
                            fmul_congr(rv(ratio), rv(factor), f1, f2);
                            feq_trans(rv(scaled), fmul(rv(ratio), rv(factor)), target);
                            fmul_congr(rv(value), rv(samples), rv(value), nf);
                            assert(fmul(rv(value), rv(samples)).d == rat_den(value) * rat_den(
                                samples,
                            ));
                            assert(rat_den(value) * rat_den(samples) > 0) by (nonlinear_arith)
                                requires
                                    rat_den(value) > 0,
                                    rat_den(samples) > 0,
                            ;
                            feq_sym(fmul(rv(value), rv(samples)), fmul(rv(value), nf));
                            feq_sym(fmul(rv(value), nf), fmul(rv(value), rv(samples)));
                            feq_trans(
                                fmul(rv(value), nf),
                                fmul(rv(value), rv(samples)),
                                rv(scaled),
                            );
                            feq_trans(fmul(rv(value), nf), rv(scaled), target);
                        }
                        let new_total = rat_add(&total, &value);
                        result.value_by_size[size] = value;
                        proof {
                            let vb = result.value_by_size@;
                            assert(vsum(vb, size as int) == fadd(
                                vsum(vb, size - 1),
                                rv(vb[size as int]),
                            ));
                            lemma_vsum_congr(v_prev, vb, size - 1);
                            lemma_vsum_wf(vb, size - 1);
                            fadd_congr(t_prev, rv(value), vsum(vb, size - 1), rv(vb[size as int]));
                            feq_trans(
                                rv(new_total),
                                fadd(t_prev, rv(value)),
                                fadd(vsum(vb, size - 1), rv(vb[size as int])),
                            );
                        }
                        total = new_total;
                    } else {
                        proof {
                            let nf = self.eff_samples(size as int, index as int);
                            assert(nf.d == 1 * rv(
                                self.samples_per_weight_local@[size as int]@[index as int],
                            ).d);
                            assert(feq(rv(samples), nf));
                            let sn = rat_num(samples);
                            let sd = rat_den(samples);
                            assert(sn * nf.d == nf.n * sd);
                            assert(nf.n <= 0) by (nonlinear_arith)
                                requires
                                    sn <= 0,
                                    sd > 0,
                                    nf.d > 0,
                                    sn * nf.d == nf.n * sd,
                            ;
                            let vb = result.value_by_size@;
                            assert(vsum(vb, size as int) == fadd(
                                vsum(vb, size - 1),
                                rv(vb[size as int]),
                            ));
                            lemma_vsum_wf(vb, size - 1);
                            assert(feq(rv(vb[size as int]), fint(0)));
                            let t = vsum(vb, size - 1);
                            let z = rv(vb[size as int]);
                            assert(feq(fadd(t, z), t)) by (nonlinear_arith)
                                requires
                                    fwf(t),
                                    fwf(z),
                                    feq(z, fint(0)),
                            ;
                            feq_sym(fadd(t, z), t);
                            feq_trans(rv(total), t, fadd(t, z));
                        }
                    }
                    size = size + 1;
                }
                result.total_value = total;
                results.push(result);
                index = index + 1;
            }
        } else {
            let factorials = factorials_upto(n);
            let mut index: usize = 0;
            while index < n
                invariant
                    index <= n,
                    1 <= n <= 64,
                    n == self.state_groups.spec_len(),
                    self.wf(),
                    samples_per_winning >= 1,
                    weight_type != WeightType::Shapley,
                    factorials@.len() == n + 1,
                    forall|k: int|
                        0 <= k <= n ==> big_val(#[trigger] factorials@[k]) == fact(k as nat),
                    results@.len() == index,
                    forall|p: int|
                        0 <= p < index ==> {
                            let r = #[trigger] results@[p];
                            &&& r.wf()
                            &&& r.group_index == p
                            &&& r.n == n
                        },
                    forall|p: int, s: int|
                        0 <= p < index && 1 <= s <= n ==> {
                            let nf = self.eff_samples(s, p);
                            let m: int = if samples_per_winning < s {
                                samples_per_winning as int
                            } else {
                                s
                            };
                            let sig = self.significant_per_weight@[s]@[p] as int;
                            let cns = Frac {
                                n: fact(n as nat) as int,
                                d: (fact(s as nat) * fact((n - s) as nat)) as int,
                            };
                            &&& (nf.n > 0 ==> feq(
                                fmul(rv(#[trigger] results@[p].count_by_size@[s]), nf),
                                fmul(fmul(cns, Frac { n: s, d: m }), fint(sig)),
                            ))
                            &&& (nf.n <= 0 ==> feq(rv(results@[p].count_by_size@[s]), fint(sig)))
                        },
                    forall|p: int|
                        0 <= p < index ==> feq(
                            rv((#[trigger] results@[p]).total_value),
                            gen_total(results@[p].count_by_size@, weight_type, n as int, n as int),
                        ),
                decreases n - index,
            {
                let mut result = ResponsibilityResult::new(index, n);
                let mut size: usize = 1;
                while size <= n
                    invariant
                        1 <= size <= n + 1,
                        1 <= n <= 64,
                        n == self.state_groups.spec_len(),
                        self.wf(),
                        samples_per_winning >= 1,
                        index < n,
                        factorials@.len() == n + 1,
                        forall|k: int|
                            0 <= k <= n ==> big_val(#[trigger] factorials@[k]) == fact(k as nat),
                        result.wf(),
                        result.group_index == index,
                        result.n == n,
                        forall|s: int|
                            0 <= s <= n ==> feq(
                                rv(#[trigger] result.value_by_size@[s]),
                                fint(0),
                            ),
                        feq(rv(result.total_value), fint(0)),
                        forall|s: int|
                            1 <= s < size ==> {
                                let nf = self.eff_samples(s, index as int);
                                let m: int = if samples_per_winning < s {
                                    samples_per_winning as int
                                } else {
                                    s
                                };
                                let sig = self.significant_per_weight@[s]@[index as int] as int;
                                let cns = Frac {
                                    n: fact(n as nat) as int,
                                    d: (fact(s as nat) * fact((n - s) as nat)) as int,
                                };
                                &&& (nf.n > 0 ==> feq(
                                    fmul(rv(#[trigger] result.count_by_size@[s]), nf),
                                    fmul(fmul(cns, Frac { n: s, d: m }), fint(sig)),
                                ))
                                &&& (nf.n <= 0 ==> feq(rv(result.count_by_size@[s]), fint(sig)))
                            },
                    decreases n + 1 - size,
                {
                    let samples = self.get_samples(size, index);
                    let sig = self.significant_per_weight[size][index];
                    let sig_rat = rat_from_u64(sig as u64);
                    let ghost sig_i = self.significant_per_weight@[size as int]@[index as int] as int;
                    let count;
                    if rat_is_positive(&samples) {
                        let m = if samples_per_winning < size {
                            samples_per_winning
                        } else {
                            size
                        };
                        let cnum = big_clone(&factorials[n]);
                        let cden = big_mul(&factorials[size], &factorials[n - size]);
                        proof {
                            lemma_fact_pos(size as nat);
                            lemma_fact_pos((n - size) as nat);
                            let a = fact(size as nat);
                            let b = fact((n - size) as nat);
                            assert(a * b >= 1) by (nonlinear_arith)
                                requires
                                    a >= 1,
                                    b >= 1,
                            ;
                        }
                        let coalitions_of_size = rat_new(cnum, cden);
                        let factor = rat_new(
                            big_from_u64(size as u64),
                            big_from_u64(m as u64),
                        );
                        let cf = rat_mul(&coalitions_of_size, &factor);
                        let num = rat_mul(&cf, &sig_rat);
                        count = rat_div(&num, &samples);
                        proof {
                            let nf = self.eff_samples(size as int, index as int);
                            let mm: int = if samples_per_winning < size as int {
                                samples_per_winning as int
                            } else {
                                size as int
                            };
                            let cns = Frac {
                                n: fact(n as nat) as int,
                                d: (fact(size as nat) * fact((n - size) as nat)) as int,
                            };
                            let f2 = Frac { n: size as int, d: mm };
                            let mid = fmul(cns, f2);
                            let target = fmul(mid, fint(sig_i));
                            assert(fwf(cns));
                            assert(mid.d == cns.d * mm);
                            assert(cns.d * mm > 0) by (nonlinear_arith)
                                requires
                                    cns.d > 0,
                                    mm > 0,
                            ;
                            assert(target.d == mid.d * 1);
                            assert(nf.d == 1 * rv(
                                self.samples_per_weight_local@[size as int]@[index as int],
                            ).d);
                            assert(fwf(nf));
                            assert(feq(rv(samples), nf));
                            let sn = rat_num(samples);
                            let sd = rat_den(samples);
                            assert(sn * nf.d == nf.n * sd);
                            assert(nf.n > 0) by (nonlinear_arith)
                                requires
                                    sn > 0,
                                    sd > 0,
                                    nf.d > 0,
                                    sn * nf.d == nf.n * sd,
                            ;
                            fmul_congr(rv(coalitions_of_size), rv(factor), cns, f2);
                            feq_trans(rv(cf), fmul(rv(coalitions_of_size), rv(factor)), mid);
                            fmul_congr(rv(cf), rv(sig_rat), mid, fint(sig_i));
                            feq_trans(rv(num), fmul(rv(cf), rv(sig_rat)), target);
                            fmul_congr(rv(count), rv(samples), rv(count), nf);
                            assert(fmul(rv(count), rv(samples)).d == rat_den(count) * rat_den(
                                samples,
                            ));
                            assert(rat_den(count) * rat_den(samples) > 0) by (nonlinear_arith)
                                requires
                                    rat_den(count) > 0,
                                    rat_den(samples) > 0,
                            ;
                            feq_sym(fmul(rv(count), rv(samples)), fmul(rv(count), nf));
                            feq_sym(fmul(rv(count), nf), fmul(rv(count), rv(samples)));
                            feq_trans(
                                fmul(rv(count), nf),
                                fmul(rv(count), rv(samples)),
                                rv(num),
                            );
                            feq_trans(fmul(rv(count), nf), rv(num), target);
                        }
                    } else {
                        count = rat_clone(&sig_rat);
                        proof {
                            let nf = self.eff_samples(size as int, index as int);
                            assert(nf.d == 1 * rv(
                                self.samples_per_weight_local@[size as int]@[index as int],
                            ).d);
                            assert(feq(rv(samples), nf));
                            let sn = rat_num(samples);
                            let sd = rat_den(samples);
                            assert(sn * nf.d == nf.n * sd);
                            assert(nf.n <= 0) by (nonlinear_arith)
                                requires
                                    sn <= 0,
                                    sd > 0,
                                    nf.d > 0,
                                    sn * nf.d == nf.n * sd,
                            ;
                        }
                    }
                    result.count_by_size[size] = count;
                    size = size + 1;
                }
                let weights = ResponsibilityResult::compute_weights(weight_type, n);
                let ghost rc = result;
                result.compute_values(&weights);
                proof {
                    lemma_total_upto_weights(
                        rc.count_by_size@,
                        weights@,
                        weight_type,
                        n as int,
                        n as int,
                    );
                    lemma_total_upto_wf(rc.count_by_size@, weights@, n as int);
                    lemma_gen_total_wf(rc.count_by_size@, weight_type, n as int, n as int);
                    let tu = total_upto(rc.count_by_size@, weights@, n as int);
                    let gt = gen_total(rc.count_by_size@, weight_type, n as int, n as int);
                    fadd_congr(rv(rc.total_value), tu, fint(0), gt);
                    feq_trans(
                        rv(result.total_value),
                        fadd(rv(rc.total_value), tu),
                        fadd(fint(0), gt),
                    );
                    fadd_zero(gt);
                    feq_trans(rv(result.total_value), fadd(fint(0), gt), gt);
                }
                results.push(result);
                index = index + 1;
            }
        }
        results
    }
}

} // verus!
